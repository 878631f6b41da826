//! Block-parallel prefix scans.
//!
//! A pass scans every 256-row block independently and extracts one total per
//! block; the totals are scanned recursively and their prefixes are folded
//! back into the blocks.  An exclusive scan stores each block rotated by one
//! row (the block total in its first row) so that the same local scan serves
//! both forms.
use vstd::prelude::*;
use crate::error::Error;
use crate::fold::{fold_range, lemma_fold_range_extend, lemma_fold_range_single, lemma_fold_range_split, lemma_seeded_prefix_split, seeded_prefix, inclusive_scan_spec, exclusive_scan_spec};
use crate::launch::{ceil_div, logical_block_count};
use crate::ops::{ReductionOp, Sum, wrapping_sum};

verus! {

pub const BLOCK_SIZE: usize = 256;

/// Number of scan blocks covering `len` rows.
pub open spec fn block_count(len: int) -> int {
    ceil_div(len, 256)
}

/// First row of the block that holds row `i`.
pub open spec fn block_first(i: int) -> int {
    (i / 256) * 256
}

/// One past the last row of block `b` of a `len`-row input.
pub open spec fn block_last(b: int, len: int) -> int {
    if b * 256 + 256 < len {
        b * 256 + 256
    } else {
        len
    }
}

/// Fold of every row of block `b`.
pub open spec fn block_total<T, Op: ReductionOp<T>>(s: Seq<T>, b: int) -> T {
    fold_range::<T, Op>(s, b * 256, block_last(b, s.len() as int))
}

/// What the local scan of the block `start..end` leaves in row `k`: the
/// inclusive prefix, or for the rotated exclusive form the block total in the
/// first row and the exclusive prefix elsewhere.
pub open spec fn block_value<T, Op: ReductionOp<T>>(
    s: Seq<T>,
    start: int,
    end: int,
    k: int,
    exclusive: bool,
) -> T {
    if exclusive {
        if k == start {
            fold_range::<T, Op>(s, start, end)
        } else {
            fold_range::<T, Op>(s, start, k)
        }
    } else {
        fold_range::<T, Op>(s, start, k + 1)
    }
}

/// Row `i` after the local scan pass.
pub open spec fn pass_value<T, Op: ReductionOp<T>>(s: Seq<T>, i: int, exclusive: bool) -> T {
    block_value::<T, Op>(
        s,
        block_first(i),
        block_last(i / 256, s.len() as int),
        i,
        exclusive,
    )
}

/// Partials after the pass: block totals, shifted by one row for the
/// exclusive form (row 0 then keeps the seed placed there beforehand).  A
/// single-block input leaves the partials untouched.
pub open spec fn pass_partials<T, Op: ReductionOp<T>>(
    old_partials: Seq<T>,
    s: Seq<T>,
    exclusive: bool,
) -> Seq<T> {
    if block_count(s.len() as int) > 1 {
        Seq::new(
            old_partials.len(),
            |d: int|
                if exclusive {
                    if d == 0 {
                        old_partials[0]
                    } else {
                        block_total::<T, Op>(s, d - 1)
                    }
                } else {
                    block_total::<T, Op>(s, d)
                },
        )
    } else {
        old_partials
    }
}

/// Row `i` after the block prefixes `prefixes` are folded in.
pub open spec fn prefixed_value<T, Op: ReductionOp<T>>(
    prefixes: Seq<T>,
    old: Seq<T>,
    i: int,
    exclusive: bool,
) -> T {
    let b = i / 256;
    if exclusive {
        if i == b * 256 {
            prefixes[b]
        } else {
            Op::combine(prefixes[b], old[i])
        }
    } else if b == 0 {
        old[i]
    } else {
        Op::combine(prefixes[b - 1], old[i])
    }
}

proof fn lemma_block_index(i: int, b: int)
    requires
        b >= 0,
        b * 256 <= i < b * 256 + 256,
    ensures
        i / 256 == b,
        block_first(i) == b * 256,
{
}

/// Blocks of 256 rows cover `len > 0` rows, the last one partly.
pub proof fn lemma_block_count(len: int)
    requires
        len > 0,
    ensures
        block_count(len) >= 1,
        (block_count(len) - 1) * 256 < len <= block_count(len) * 256,
{
}

/// A scratch buffer of `len` rows.  Its contents are never read before
/// they are written; `fill` only gives every row a value.
pub(crate) fn scratch<T: Copy>(fill: T, len: usize) -> (r: Vec<T>)
    ensures
        r.len() == len,
{
    let mut r: Vec<T> = Vec::new();
    let mut i: usize = 0;
    while i < len
        invariant
            i <= len,
            r.len() == i,
        decreases len - i,
    {
        r.push(fill);
        i += 1;
    }
    r
}

/// Local scan of one block (one workgroup of the pass kernel).
fn scan_block<T: Copy, Op: ReductionOp<T>>(
    input: &Vec<T>,
    output: &mut Vec<T>,
    start: usize,
    end: usize,
    exclusive: bool,
)
    requires
        start < end <= input.len(),
        old(output).len() == input.len(),
    ensures
        final(output).len() == input.len(),
        forall|k: int|
            start <= k < end ==> #[trigger] final(output)@[k] == block_value::<T, Op>(
                input@,
                start as int,
                end as int,
                k,
                exclusive,
            ),
        forall|k: int|
            0 <= k < input.len() && !(start <= k < end) ==> #[trigger] final(output)@[k]
                == old(output)@[k],
{
    let ghost s = input@;
    let mut acc = input[start];
    let mut j = start;
    while j < end
        invariant
            start <= j <= end <= input.len(),
            s == input@,
            output.len() == input.len(),
            j > start ==> acc == fold_range::<T, Op>(s, start as int, j as int),
            j == start ==> acc == s[start as int],
            forall|k: int|
                start <= k < j && !exclusive ==> #[trigger] output@[k] == fold_range::<T, Op>(
                    s,
                    start as int,
                    k + 1,
                ),
            forall|k: int|
                start < k <= j && k < end && exclusive ==> #[trigger] output@[k] == fold_range::<
                    T,
                    Op,
                >(s, start as int, k),
            j == end && exclusive ==> output@[start as int] == fold_range::<T, Op>(
                s,
                start as int,
                end as int,
            ),
            forall|k: int|
                0 <= k < input.len() && !(start <= k < end) ==> #[trigger] output@[k] == old(
                    output,
                )@[k],
            forall|k: int|
                j < k < end && exclusive ==> #[trigger] output@[k] == old(output)@[k],
        decreases end - j,
    {
        if j > start {
            proof {
                lemma_fold_range_extend::<T, Op>(s, start as int, j as int);
            }
            acc = Op::apply(acc, input[j]);
        }
        assert(acc == fold_range::<T, Op>(s, start as int, j + 1)) by {
            if j == start {
                lemma_fold_range_single::<T, Op>(s, start as int);
            }
        }
        let dest = if exclusive {
            if j + 1 < end {
                j + 1
            } else {
                start
            }
        } else {
            j
        };
        output.set(dest, acc);
        j += 1;
    }
}

/// One scan pass: the local scan of every block, then (for several blocks)
/// one total per block written into `partials`.
fn scan_pass<T: Copy, Op: ReductionOp<T>>(
    input: &Vec<T>,
    output: &mut Vec<T>,
    partials: &mut Vec<T>,
    exclusive: bool,
) -> (r: Result<(), Error>)
    ensures
        old(output).len() != input.len() ==> r == Err::<(), Error>(
            Error::LengthMismatch { left: input.len(), right: old(output).len() },
        ),
        old(output).len() == input.len() && input.len() > 0 && old(partials).len()
            != block_count(input.len() as int) ==> r == Err::<(), Error>(
            Error::LengthMismatch {
                left: block_count(input.len() as int) as usize,
                right: old(partials).len(),
            },
        ),
        old(output).len() == input.len() && (input.len() == 0 || old(partials).len()
            == block_count(input.len() as int)) ==> r is Ok,
        r is Ok && input.len() > 0 ==> final(output)@ == Seq::new(
            input.len() as nat,
            |i: int| pass_value::<T, Op>(input@, i, exclusive),
        ) && final(partials)@ == pass_partials::<T, Op>(old(partials)@, input@, exclusive),
        r is Ok && input.len() == 0 ==> final(output)@ == old(output)@ && final(partials)@ == old(
            partials,
        )@,
        r is Err ==> final(output)@ == old(output)@ && final(partials)@ == old(partials)@,
{
    let len = input.len();
    let output_len = output.len();
    if output_len != len {
        return Err(Error::LengthMismatch { left: len, right: output_len });
    }
    if len == 0 {
        return Ok(());
    }
    let blocks = logical_block_count(len, BLOCK_SIZE);
    let partial_len = partials.len();
    if partial_len != blocks {
        return Err(Error::LengthMismatch { left: blocks, right: partial_len });
    }
    let ghost s = input@;
    proof {
        lemma_block_count(len as int);
    }
    let mut b: usize = 0;
    while b < blocks
        invariant
            s == input@,
            len == input.len(),
            output.len() == len,
            blocks == block_count(len as int),
            (blocks - 1) * 256 < len <= blocks * 256,
            b <= blocks,
            forall|i: int|
                0 <= i < len && i < b * 256 ==> #[trigger] output@[i] == pass_value::<T, Op>(
                    s,
                    i,
                    exclusive,
                ),
        decreases blocks - b,
    {
        let start = b * BLOCK_SIZE;
        let end = if len - start > BLOCK_SIZE {
            start + BLOCK_SIZE
        } else {
            len
        };
        scan_block::<T, Op>(input, output, start, end, exclusive);
        proof {
            assert forall|i: int|
                0 <= i < len && i < (b + 1) * 256 implies #[trigger] output@[i] == pass_value::<
                T,
                Op,
            >(s, i, exclusive) by {
                if i >= b * 256 {
                    lemma_block_index(i, b as int);
                }
            }
        }
        b += 1;
    }
    let ghost scanned = output@;
    if blocks > 1 {
        let mut c: usize = 0;
        while c < blocks
            invariant
                s == input@,
                len == input.len(),
                output@ == scanned,
                scanned.len() == len,
                forall|i: int|
                    0 <= i < len ==> #[trigger] scanned[i] == pass_value::<T, Op>(s, i, exclusive),
                blocks == block_count(len as int),
                (blocks - 1) * 256 < len <= blocks * 256,
                blocks > 1,
                partials.len() == blocks,
                c <= blocks,
                forall|d: int|
                    0 <= d < blocks ==> #[trigger] partials@[d] == if d < c + (if exclusive {
                        1int
                    } else {
                        0
                    }) && !(exclusive && d == 0) {
                        block_total::<T, Op>(s, d - (if exclusive { 1int } else { 0 }))
                    } else {
                        old(partials)@[d]
                    },
            decreases blocks - c,
        {
            let destination = c + if exclusive { 1 } else { 0 };
            if destination < blocks {
                let start = c * BLOCK_SIZE;
                let end = if len - start > BLOCK_SIZE {
                    start + BLOCK_SIZE
                } else {
                    len
                };
                let row = if exclusive { start } else { end - 1 };
                proof {
                    lemma_block_index(row as int, c as int);
                }
                partials.set(destination, output[row]);
            }
            c += 1;
        }
        assert(partials@ =~= pass_partials::<T, Op>(old(partials)@, s, exclusive));
    }
    assert(output@ =~= Seq::new(len as nat, |i: int| pass_value::<T, Op>(s, i, exclusive)));
    Ok(())
}


/// Folds the block prefixes back into a scanned output (the prefix
/// propagation kernel): for the inclusive form every block after the first
/// is combined with the total of all earlier blocks; for the rotated
/// exclusive form the first row of each block takes the block's seeded
/// prefix and every later row is combined with it.
fn add_fixed_prefixes<T: Copy, Op: ReductionOp<T>>(
    prefixes: &Vec<T>,
    output: &mut Vec<T>,
    len: usize,
    exclusive: bool,
) -> (r: Result<(), Error>)
    requires
        len <= old(output).len(),
    ensures
        final(output).len() == old(output).len(),
        len > 0 && prefixes.len() != block_count(len as int) ==> r == Err::<(), Error>(
            Error::LengthMismatch { left: block_count(len as int) as usize, right: prefixes.len() },
        ),
        len == 0 || prefixes.len() == block_count(len as int) ==> r is Ok,
        r is Ok ==> forall|i: int|
            0 <= i < old(output).len() ==> #[trigger] final(output)@[i] == if i < len {
                prefixed_value::<T, Op>(prefixes@, old(output)@, i, exclusive)
            } else {
                old(output)@[i]
            },
        r is Err ==> final(output)@ == old(output)@,
{
    if len == 0 {
        return Ok(());
    }
    let blocks = logical_block_count(len, BLOCK_SIZE);
    let prefix_len = prefixes.len();
    if prefix_len != blocks {
        return Err(Error::LengthMismatch { left: blocks, right: prefix_len });
    }
    proof {
        lemma_block_count(len as int);
    }
    let mut i: usize = 0;
    while i < len
        invariant
            len <= output.len(),
            output.len() == old(output).len(),
            prefixes.len() == blocks,
            blocks == block_count(len as int),
            (blocks - 1) * 256 < len <= blocks * 256,
            i <= len,
            forall|k: int|
                0 <= k < output.len() ==> #[trigger] output@[k] == if k < i {
                    prefixed_value::<T, Op>(prefixes@, old(output)@, k, exclusive)
                } else {
                    old(output)@[k]
                },
        decreases len - i,
    {
        let block = i / BLOCK_SIZE;
        if exclusive {
            if i == block * BLOCK_SIZE {
                output.set(i, prefixes[block]);
            } else {
                let value = Op::apply(prefixes[block], output[i]);
                output.set(i, value);
            }
        } else if block > 0 {
            let value = Op::apply(prefixes[block - 1], output[i]);
            output.set(i, value);
        }
        i += 1;
    }
    Ok(())
}

/// The folds of the first `c + 1` block totals cover every row up to the
/// end of block `c`.
proof fn lemma_block_totals<T, Op: ReductionOp<T>>(s: Seq<T>, totals: Seq<T>, c: int)
    requires
        s.len() > 0,
        totals.len() == block_count(s.len() as int),
        forall|d: int| 0 <= d < totals.len() ==> #[trigger] totals[d] == block_total::<T, Op>(s, d),
        0 <= c < totals.len(),
    ensures
        fold_range::<T, Op>(totals, 0, c + 1) == fold_range::<T, Op>(
            s,
            0,
            block_last(c, s.len() as int),
        ),
    decreases c,
{
    lemma_block_count(s.len() as int);
    if c > 0 {
        lemma_block_totals::<T, Op>(s, totals, c - 1);
        lemma_fold_range_extend::<T, Op>(totals, 0, c);
        lemma_fold_range_split::<T, Op>(s, 0, c * 256, block_last(c, s.len() as int));
    }
}

/// Seeded with `init` in front of the block totals, the folds of the first
/// `b + 1` partials are the seeded prefixes of the block starts.
proof fn lemma_seeded_block_totals<T, Op: ReductionOp<T>>(
    init: T,
    s: Seq<T>,
    partials: Seq<T>,
    b: int,
)
    requires
        s.len() > 0,
        partials.len() == block_count(s.len() as int),
        partials[0] == init,
        forall|d: int|
            0 < d < partials.len() ==> #[trigger] partials[d] == block_total::<T, Op>(s, d - 1),
        0 <= b < partials.len(),
    ensures
        fold_range::<T, Op>(partials, 0, b + 1) == seeded_prefix::<T, Op>(init, s, b * 256),
    decreases b,
{
    lemma_block_count(s.len() as int);
    if b == 0 {
        assert(seq![init] + s.subrange(0, 0) =~= seq![init]);
    } else {
        lemma_seeded_block_totals::<T, Op>(init, s, partials, b - 1);
        lemma_fold_range_extend::<T, Op>(partials, 0, b);
        let head = seq![init] + s.subrange(0, (b - 1) * 256);
        let block = s.subrange((b - 1) * 256, b * 256);
        assert(seq![init] + s.subrange(0, b * 256) =~= head + block);
        crate::fold::lemma_fold1_concat::<T, Op>(head, block);
    }
}

/// Inclusive scan of a stored row buffer (the recursive level of a scan).
fn scan_fixed_storage<T: Copy, Op: ReductionOp<T>>(input: &Vec<T>, output: &mut Vec<T>) -> (r:
    Result<(), Error>)
    ensures
        old(output).len() != input.len() ==> r == Err::<(), Error>(
            Error::LengthMismatch { left: input.len(), right: old(output).len() },
        ),
        old(output).len() == input.len() ==> r is Ok,
        r is Ok ==> final(output)@ == inclusive_scan_spec::<T, Op>(input@),
        r is Err ==> final(output)@ == old(output)@,
    decreases input.len(),
{
    let len = input.len();
    let output_len = output.len();
    if output_len != len {
        return Err(Error::LengthMismatch { left: len, right: output_len });
    }
    if len == 0 {
        assert(output@ =~= inclusive_scan_spec::<T, Op>(input@));
        return Ok(());
    }
    let ghost s = input@;
    let blocks = logical_block_count(len, BLOCK_SIZE);
    proof {
        lemma_block_count(len as int);
    }
    let mut partials = scratch(input[0], blocks);
    let pass = scan_pass::<T, Op>(input, output, &mut partials, false);
    assert(pass is Ok);
    let ghost scanned = output@;
    if blocks > 1 {
        let mut prefixes = scratch(input[0], blocks);
        let inner = scan_fixed_storage::<T, Op>(&partials, &mut prefixes);
        assert(inner is Ok);
        let added = add_fixed_prefixes::<T, Op>(&prefixes, output, len, false);
        assert(added is Ok);
        proof {
            assert forall|i: int| 0 <= i < len implies #[trigger] output@[i]
                == inclusive_scan_spec::<T, Op>(s)[i] by {
                let b = i / 256;
                lemma_block_index(i, b);
                if b > 0 {
                    lemma_block_totals::<T, Op>(s, partials@, b - 1);
                    lemma_fold_range_split::<T, Op>(s, 0, b * 256, i + 1);
                }
            }
        }
    } else {
        proof {
            assert forall|i: int| 0 <= i < len implies #[trigger] output@[i]
                == inclusive_scan_spec::<T, Op>(s)[i] by {
                lemma_block_index(i, 0);
            }
        }
    }
    assert(output@ =~= inclusive_scan_spec::<T, Op>(s));
    Ok(())
}

/// Scan dispatch: the inclusive scan, or with `init` the exclusive scan
/// seeded with `init`, of `input` into `output`.
fn run<T: Copy, Op: ReductionOp<T>>(input: &Vec<T>, output: &mut Vec<T>, init: Option<T>) -> (r:
    Result<(), Error>)
    ensures
        old(output).len() != input.len() ==> r == Err::<(), Error>(
            Error::LengthMismatch { left: input.len(), right: old(output).len() },
        ),
        old(output).len() == input.len() ==> r is Ok,
        r is Ok ==> final(output)@ == match init {
            None => inclusive_scan_spec::<T, Op>(input@),
            Some(v) => exclusive_scan_spec::<T, Op>(v, input@),
        },
        r is Err ==> final(output)@ == old(output)@,
{
    let len = input.len();
    let output_len = output.len();
    if output_len != len {
        return Err(Error::LengthMismatch { left: len, right: output_len });
    }
    if len == 0 {
        assert(output@ =~= inclusive_scan_spec::<T, Op>(input@));
        assert(init matches Some(v) ==> output@ =~= exclusive_scan_spec::<T, Op>(v, input@));
        return Ok(());
    }
    let ghost s = input@;
    let blocks = logical_block_count(len, BLOCK_SIZE);
    proof {
        lemma_block_count(len as int);
    }
    let mut partials = scratch(input[0], blocks);
    let exclusive = init.is_some();
    if let Some(initial) = init {
        partials.set(0, initial);
    }
    let ghost seeded = partials@;
    let pass = scan_pass::<T, Op>(input, output, &mut partials, exclusive);
    assert(pass is Ok);
    let ghost scanned = output@;
    if blocks > 1 {
        let mut prefixes = scratch(input[0], blocks);
        let inner = scan_fixed_storage::<T, Op>(&partials, &mut prefixes);
        assert(inner is Ok);
        let added = add_fixed_prefixes::<T, Op>(&prefixes, output, len, exclusive);
        assert(added is Ok);
        proof {
            match init {
                None => {
                    assert forall|i: int| 0 <= i < len implies #[trigger] output@[i]
                        == inclusive_scan_spec::<T, Op>(s)[i] by {
                        let b = i / 256;
                        lemma_block_index(i, b);
                        if b > 0 {
                            lemma_block_totals::<T, Op>(s, partials@, b - 1);
                            lemma_fold_range_split::<T, Op>(s, 0, b * 256, i + 1);
                        }
                    }
                    assert(output@ =~= inclusive_scan_spec::<T, Op>(s));
                },
                Some(v) => {
                    assert forall|i: int| 0 <= i < len implies #[trigger] output@[i]
                        == exclusive_scan_spec::<T, Op>(v, s)[i] by {
                        let b = i / 256;
                        lemma_block_index(i, b);
                        lemma_seeded_block_totals::<T, Op>(v, s, partials@, b);
                        if i != b * 256 {
                            lemma_seeded_close::<T, Op>(v, s, b * 256, i);
                        }
                    }
                    assert(output@ =~= exclusive_scan_spec::<T, Op>(v, s));
                },
            }
        }
    } else if exclusive {
        let added = add_fixed_prefixes::<T, Op>(&partials, output, len, true);
        assert(added is Ok);
        proof {
            let v = init->Some_0;
            assert forall|i: int| 0 <= i < len implies #[trigger] output@[i]
                == exclusive_scan_spec::<T, Op>(v, s)[i] by {
                lemma_block_index(i, 0);
                if i == 0 {
                    assert(seq![v] + s.subrange(0, 0) =~= seq![v]);
                } else {
                    lemma_seeded_prefix_split::<T, Op>(v, s, i);
                }
            }
            assert(output@ =~= exclusive_scan_spec::<T, Op>(v, s));
        }
    } else {
        proof {
            assert forall|i: int| 0 <= i < len implies #[trigger] output@[i]
                == inclusive_scan_spec::<T, Op>(s)[i] by {
                lemma_block_index(i, 0);
            }
            assert(output@ =~= inclusive_scan_spec::<T, Op>(s));
        }
    }
    Ok(())
}

/// Seeded prefix at `start` combined with the fold of `start..i`.
proof fn lemma_seeded_close<T, Op: ReductionOp<T>>(init: T, s: Seq<T>, start: int, i: int)
    requires
        0 <= start < i <= s.len(),
    ensures
        Op::combine(seeded_prefix::<T, Op>(init, s, start), fold_range::<T, Op>(s, start, i))
            == seeded_prefix::<T, Op>(init, s, i),
{
    let head = seq![init] + s.subrange(0, start);
    assert(seq![init] + s.subrange(0, i) =~= head + s.subrange(start, i));
    crate::fold::lemma_fold1_concat::<T, Op>(head, s.subrange(start, i));
}

/// Computes the inclusive scan of `input` under `Op` into `output`, which
/// must have the same length.
pub fn inclusive_scan<T: Copy, Op: ReductionOp<T>>(
    input: &Vec<T>,
    _op: Op,
    output: &mut Vec<T>,
) -> (r: Result<(), Error>)
    ensures
        old(output).len() != input.len() ==> r == Err::<(), Error>(
            Error::LengthMismatch { left: input.len(), right: old(output).len() },
        ),
        old(output).len() == input.len() ==> r is Ok && final(output)@ == inclusive_scan_spec::<
            T,
            Op,
        >(input@),
        r is Err ==> final(output)@ == old(output)@,
{
    run::<T, Op>(input, output, None)
}

/// Computes the exclusive scan of `input` seeded with `init`: row `i` of
/// `output` receives `init op input[0] op ... op input[i - 1]`.
pub fn exclusive_scan<T: Copy, Op: ReductionOp<T>>(
    input: &Vec<T>,
    init: T,
    _op: Op,
    output: &mut Vec<T>,
) -> (r: Result<(), Error>)
    ensures
        old(output).len() != input.len() ==> r == Err::<(), Error>(
            Error::LengthMismatch { left: input.len(), right: old(output).len() },
        ),
        old(output).len() == input.len() ==> r is Ok && final(output)@ == exclusive_scan_spec::<
            T,
            Op,
        >(init, input@),
        r is Err ==> final(output)@ == old(output)@,
{
    run::<T, Op>(input, output, Some(init))
}


/// Independent inclusive sums of every 256-row block of `input`.
pub fn local_inclusive_scan_u32(input: &Vec<u32>) -> (r: Vec<u32>)
    ensures
        r@ == Seq::new(input.len() as nat, |i: int| pass_value::<u32, Sum>(input@, i, false)),
{
    let len = input.len();
    let mut output = scratch(0u32, len);
    if len == 0 {
        assert(output@ =~= Seq::new(0, |i: int| pass_value::<u32, Sum>(input@, i, false)));
        return output;
    }
    let ghost s = input@;
    let blocks = logical_block_count(len, BLOCK_SIZE);
    proof {
        lemma_block_count(len as int);
    }
    let mut b: usize = 0;
    while b < blocks
        invariant
            s == input@,
            len == input.len(),
            output.len() == len,
            blocks == block_count(len as int),
            (blocks - 1) * 256 < len <= blocks * 256,
            b <= blocks,
            forall|i: int|
                0 <= i < len && i < b * 256 ==> #[trigger] output@[i] == pass_value::<u32, Sum>(
                    s,
                    i,
                    false,
                ),
        decreases blocks - b,
    {
        let start = b * BLOCK_SIZE;
        let end = if len - start > BLOCK_SIZE {
            start + BLOCK_SIZE
        } else {
            len
        };
        scan_block::<u32, Sum>(input, &mut output, start, end, false);
        proof {
            assert forall|i: int|
                0 <= i < len && i < (b + 1) * 256 implies #[trigger] output@[i] == pass_value::<
                u32,
                Sum,
            >(s, i, false) by {
                if i >= b * 256 {
                    lemma_block_index(i, b as int);
                }
            }
        }
        b += 1;
    }
    assert(output@ =~= Seq::new(len as nat, |i: int| pass_value::<u32, Sum>(s, i, false)));
    output
}

/// The last row of every 256-row block: turns a block-local inclusive scan
/// into the block totals for the next level.
pub fn block_tails_u32(input: &Vec<u32>) -> (r: Vec<u32>)
    ensures
        r.len() == block_count(input.len() as int),
        forall|b: int|
            0 <= b < r.len() ==> #[trigger] r@[b] == input@[block_last(b, input.len() as int) - 1],
{
    let len = input.len();
    let blocks = logical_block_count(len, BLOCK_SIZE);
    let mut tails = scratch(0u32, blocks);
    if blocks == 0 {
        return tails;
    }
    proof {
        lemma_block_count(len as int);
    }
    let mut b: usize = 0;
    while b < blocks
        invariant
            len == input.len(),
            tails.len() == blocks,
            blocks == block_count(len as int),
            (blocks - 1) * 256 < len <= blocks * 256,
            b <= blocks,
            forall|c: int|
                0 <= c < b ==> #[trigger] tails@[c] == input@[block_last(c, len as int) - 1],
        decreases blocks - b,
    {
        let start = b * BLOCK_SIZE;
        let end = if len - start > BLOCK_SIZE {
            start + BLOCK_SIZE
        } else {
            len
        };
        tails.set(b, input[end - 1]);
        b += 1;
    }
    tails
}

/// Wrapping inclusive prefix sums of `input`, computed block by block with
/// the block totals scanned recursively.
pub fn inclusive_scan_u32(input: &Vec<u32>) -> (r: Vec<u32>)
    ensures
        r@ == inclusive_scan_spec::<u32, Sum>(input@),
    decreases input.len(),
{
    let len = input.len();
    if len == 0 {
        let r = local_inclusive_scan_u32(input);
        assert(r@ =~= inclusive_scan_spec::<u32, Sum>(input@));
        return r;
    }
    let ghost s = input@;
    let blocks = logical_block_count(len, BLOCK_SIZE);
    proof {
        lemma_block_count(len as int);
    }
    let mut output = local_inclusive_scan_u32(input);
    if blocks > 1 {
        let block_sums = block_tails_u32(&output);
        proof {
            assert forall|d: int| 0 <= d < block_sums.len() implies #[trigger] block_sums@[d]
                == block_total::<u32, Sum>(s, d) by {
                let last = block_last(d, len as int) - 1;
                lemma_block_index(last, d);
            }
        }
        let prefixes = inclusive_scan_u32(&block_sums);
        let ghost local = output@;
        let mut i: usize = BLOCK_SIZE;
        while i < len
            invariant
                len == input.len(),
                s == input@,
                256 <= i <= len,
                output.len() == len,
                prefixes.len() == blocks,
                prefixes@ == inclusive_scan_spec::<u32, Sum>(block_sums@),
                blocks == block_count(len as int),
                (blocks - 1) * 256 < len <= blocks * 256,
                forall|k: int|
                    0 <= k < len ==> #[trigger] output@[k] == if k >= 256 && k < i {
                        wrapping_sum(local[k], prefixes@[k / 256 - 1])
                    } else {
                        local[k]
                    },
            decreases len - i,
        {
            let block = i / BLOCK_SIZE;
            let value = output[i].wrapping_add(prefixes[block - 1]);
            output.set(i, value);
            i += 1;
        }
        proof {
            assert forall|i: int| 0 <= i < len implies #[trigger] output@[i]
                == inclusive_scan_spec::<u32, Sum>(s)[i] by {
                let b = i / 256;
                lemma_block_index(i, b);
                if b > 0 {
                    crate::scan::lemma_block_totals::<u32, Sum>(s, block_sums@, b - 1);
                    lemma_fold_range_split::<u32, Sum>(s, 0, b * 256, i + 1);
                }
            }
        }
    } else {
        proof {
            assert forall|i: int| 0 <= i < len implies #[trigger] output@[i]
                == inclusive_scan_spec::<u32, Sum>(s)[i] by {
                lemma_block_index(i, 0);
            }
        }
    }
    assert(output@ =~= inclusive_scan_spec::<u32, Sum>(s));
    output
}

/// A one-row buffer holding the last row of `input`, or zero when empty.
pub fn last_u32(input: &Vec<u32>) -> (r: Vec<u32>)
    ensures
        r@ == seq![if input.len() == 0 { 0u32 } else { input@[input.len() - 1] }],
{
    let value = if input.len() == 0 {
        0u32
    } else {
        input[input.len() - 1]
    };
    let mut r = Vec::new();
    r.push(value);
    assert(r@ =~= seq![value]);
    r
}


} // verus!
