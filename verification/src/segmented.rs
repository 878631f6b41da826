//! Segmented scans and reductions.
//!
//! A nonzero flag starts a new segment.  Each 256-row block is scanned
//! locally, restarting at every head; a block summary carries the block's
//! last local value and whether any head occurred in it.  The summaries are
//! scanned recursively with the same schedule and folded back into the rows
//! of each block that precede its first head.
use vstd::prelude::*;
use crate::error::Error;
use crate::flags::{count_flags, flag_at, kept, lemma_count_bounds, lemma_kept_index, lemma_kept_len};
use crate::fold::{fold_range, lemma_fold_range_extend, lemma_fold_range_single, lemma_fold_range_split};
use crate::launch::logical_block_count;
use crate::ops::ReductionOp;
use crate::scan::{block_count, block_first, block_last, lemma_block_count};

verus! {

pub const BLOCK_SIZE: usize = 256;

/// Row `i` starts a segment.
pub open spec fn is_head(f: Seq<u32>, i: int) -> bool {
    f[i] != 0
}

/// First row of the segment that holds row `i`: the last head at or before
/// `i`, or row 0.
pub open spec fn seg_start(f: Seq<u32>, i: int) -> int
    decreases i,
{
    if i <= 0 {
        0
    } else if is_head(f, i) {
        i
    } else {
        seg_start(f, i - 1)
    }
}

/// Serial segmented inclusive scan.
pub open spec fn segmented_inclusive_spec<T, Op: ReductionOp<T>>(s: Seq<T>, f: Seq<u32>) -> Seq<T> {
    Seq::new(s.len(), |i: int| fold_range::<T, Op>(s, seg_start(f, i), i + 1))
}

/// Serial segmented exclusive scan seeded with `init` in every segment.
pub open spec fn segmented_exclusive_spec<T, Op: ReductionOp<T>>(
    init: T,
    s: Seq<T>,
    f: Seq<u32>,
) -> Seq<T> {
    Seq::new(
        s.len(),
        |i: int|
            if i == 0 || is_head(f, i) {
                init
            } else {
                Op::combine(init, fold_range::<T, Op>(s, seg_start(f, i - 1), i))
            },
    )
}

/// Bitwise OR of the flags `lo..hi`.
pub open spec fn or_range(f: Seq<u32>, lo: int, hi: int) -> u32
    decreases hi - lo,
{
    if hi <= lo {
        0u32
    } else {
        or_range(f, lo, hi - 1) | f[hi - 1]
    }
}

proof fn lemma_or_zero(a: u32, b: u32)
    ensures
        ((a | b) == 0u32) == (a == 0u32 && b == 0u32),
{
    assert(((a | b) == 0u32) == (a == 0u32 && b == 0u32)) by (bit_vector);
}

/// The OR of a range is zero exactly when no row of the range is a head.
proof fn lemma_or_range_zero(f: Seq<u32>, lo: int, hi: int)
    requires
        0 <= lo <= hi <= f.len(),
    ensures
        (or_range(f, lo, hi) == 0) == (forall|j: int| lo <= j < hi ==> !is_head(f, j)),
    decreases hi - lo,
{
    if hi > lo {
        lemma_or_range_zero(f, lo, hi - 1);
        let p = or_range(f, lo, hi - 1);
        lemma_or_zero(p, f[hi - 1]);
        assert(or_range(f, lo, hi) == p | f[hi - 1]);
        if or_range(f, lo, hi) == 0 {
            assert forall|j: int| lo <= j < hi implies !is_head(f, j) by {
                if j < hi - 1 {
                    assert(!is_head(f, j));
                }
            }
        } else {
            if forall|j: int| lo <= j < hi ==> !is_head(f, j) {
                assert(forall|j: int| lo <= j < hi - 1 ==> !is_head(f, j));
                assert(!is_head(f, hi - 1));
            }
        }
    }
}

proof fn lemma_seg_start_bounds(f: Seq<u32>, i: int)
    requires
        0 <= i,
    ensures
        0 <= seg_start(f, i) <= i,
        seg_start(f, i) == 0 || is_head(f, seg_start(f, i)),
    decreases i,
{
    if i > 0 && !is_head(f, i) {
        lemma_seg_start_bounds(f, i - 1);
    }
}

/// Without heads in `j + 1..=i`, rows `j` and `i` share their segment start.
proof fn lemma_seg_start_no_heads(f: Seq<u32>, j: int, i: int)
    requires
        0 <= j <= i,
        forall|k: int| j < k <= i ==> !is_head(f, k),
    ensures
        seg_start(f, i) == seg_start(f, j),
    decreases i - j,
{
    if i > j {
        lemma_seg_start_no_heads(f, j, i - 1);
    }
}

/// A head in `lo..=i` places the segment start of `i` inside the range.
proof fn lemma_seg_start_after_head(f: Seq<u32>, lo: int, i: int, h: int)
    requires
        0 <= lo <= h <= i,
        is_head(f, h),
    ensures
        lo <= seg_start(f, i),
    decreases i,
{
    if i > h && !is_head(f, i) {
        lemma_seg_start_after_head(f, lo, i - 1, h);
    }
}

/// Local segmented scan of the rows `start..end` (one workgroup), and the
/// OR of the flags from the block start (the continuation control).
fn scan_segment_block<T: Copy, Op: ReductionOp<T>>(
    input: &Vec<T>,
    flags: &Vec<u32>,
    local: &mut Vec<T>,
    continuation: &mut Vec<u32>,
    start: usize,
    end: usize,
)
    requires
        start < end <= input.len(),
        flags.len() == input.len(),
        old(local).len() == input.len(),
        old(continuation).len() == input.len(),
    ensures
        final(local).len() == input.len(),
        final(continuation).len() == input.len(),
        forall|k: int|
            start <= k < end ==> #[trigger] final(local)@[k] == fold_range::<T, Op>(
                input@,
                if seg_start(flags@, k) > start {
                    seg_start(flags@, k)
                } else {
                    start as int
                },
                k + 1,
            ),
        forall|k: int|
            start <= k < end ==> #[trigger] final(continuation)@[k] == or_range(
                flags@,
                start as int,
                k + 1,
            ),
        forall|k: int|
            0 <= k < input.len() && !(start <= k < end) ==> #[trigger] final(local)@[k] == old(
                local,
            )@[k],
        forall|k: int|
            0 <= k < input.len() && !(start <= k < end) ==> #[trigger] final(continuation)@[k]
                == old(continuation)@[k],
{
    let ghost s = input@;
    let ghost f = flags@;
    let mut acc = input[start];
    let mut seen = flags[start];
    let mut j = start;
    while j < end
        invariant
            start <= j <= end <= input.len(),
            s == input@,
            f == flags@,
            flags.len() == input.len(),
            local.len() == input.len(),
            continuation.len() == input.len(),
            j > start ==> acc == fold_range::<T, Op>(
                s,
                if seg_start(f, j - 1) > start {
                    seg_start(f, j - 1)
                } else {
                    start as int
                },
                j as int,
            ),
            j > start ==> seen == or_range(f, start as int, j as int),
            j == start ==> seen == f[start as int],
            forall|k: int|
                start <= k < j ==> #[trigger] local@[k] == fold_range::<T, Op>(
                    s,
                    if seg_start(f, k) > start {
                        seg_start(f, k)
                    } else {
                        start as int
                    },
                    k + 1,
                ),
            forall|k: int| start <= k < j ==> #[trigger] continuation@[k] == or_range(f, start as int, k + 1),
            old(local).len() == input.len(),
            old(continuation).len() == input.len(),
            forall|k: int|
                0 <= k < input.len() && !(start <= k < j) ==> #[trigger] local@[k] == old(local)@[k],
            forall|k: int|
                0 <= k < input.len() && !(start <= k < j) ==> #[trigger] continuation@[k] == old(
                    continuation,
                )@[k],
        decreases end - j,
    {
        proof {
            lemma_seg_start_bounds(f, j as int);
            lemma_fold_range_single::<T, Op>(s, j as int);
            assert(or_range(f, start as int, start as int) == 0u32);
            assert(or_range(f, start as int, start + 1) == (0u32 | f[start as int]));
            let first = f[start as int];
            assert((0u32 | first) == first) by (bit_vector);
        }
        if j == start || flags[j] != 0 {
            acc = input[j];
        } else {
            proof {
                lemma_seg_start_bounds(f, j - 1);
                lemma_fold_range_extend::<T, Op>(
                    s,
                    if seg_start(f, j - 1) > start {
                        seg_start(f, j - 1)
                    } else {
                        start as int
                    },
                    j as int,
                );
            }
            acc = Op::apply(acc, input[j]);
        }
        if j > start {
            seen = seen | flags[j];
        }
        assert(seen == or_range(f, start as int, j + 1));
        local.set(j, acc);
        continuation.set(j, seen);
        j += 1;
    }
}

/// Segmented inclusive scan of `input` with segment heads at the nonzero
/// rows of `flags` (row 0 always starts a segment) into `output`.
#[verifier::spinoff_prover]
#[verifier::rlimit(50)]
pub fn segmented_inclusive<T: Copy, Op: ReductionOp<T>>(
    input: &Vec<T>,
    flags: &Vec<u32>,
    output: &mut Vec<T>,
) -> (r: Result<(), Error>)
    ensures
        flags.len() != input.len() || old(output).len() != input.len() ==> r == Err::<(), Error>(
            Error::LengthMismatch {
                left: input.len(),
                right: if flags.len() < old(output).len() {
                    flags.len()
                } else {
                    old(output).len()
                },
            },
        ),
        flags.len() == input.len() && old(output).len() == input.len() && input.len() > 0
            && input.len() == usize::MAX ==> r == Err::<(), Error>(
            Error::LengthTooLarge { len: input.len() },
        ),
        flags.len() == input.len() && old(output).len() == input.len() && input.len()
            < usize::MAX ==> r is Ok,
        r is Ok ==> final(output)@ == segmented_inclusive_spec::<T, Op>(input@, flags@),
        r is Err ==> final(output)@ == old(output)@,
    decreases input.len(),
{
    let len = input.len();
    let output_len = output.len();
    if flags.len() != len || output_len != len {
        let right = if flags.len() < output_len {
            flags.len()
        } else {
            output_len
        };
        return Err(Error::LengthMismatch { left: len, right });
    }
    if len == 0 {
        assert(output@ =~= segmented_inclusive_spec::<T, Op>(input@, flags@));
        return Ok(());
    }
    if len == usize::MAX {
        return Err(Error::LengthTooLarge { len });
    }
    let ghost s = input@;
    let ghost f = flags@;
    let blocks = logical_block_count(len, BLOCK_SIZE);
    proof {
        lemma_block_count(len as int);
    }
    let mut local: Vec<T> = Vec::new();
    let mut continuation: Vec<u32> = Vec::new();
    let mut i: usize = 0;
    while i < len
        invariant
            i <= len,
            len == input.len(),
            local.len() == i,
            continuation.len() == i,
        decreases len - i,
    {
        local.push(input[0]);
        continuation.push(0);
        i += 1;
    }
    let mut b: usize = 0;
    while b < blocks
        invariant
            s == input@,
            f == flags@,
            len == input.len(),
            flags.len() == len,
            local.len() == len,
            continuation.len() == len,
            blocks == block_count(len as int),
            (blocks - 1) * 256 < len <= blocks * 256,
            b <= blocks,
            forall|k: int|
                0 <= k < len && k < b * 256 ==> #[trigger] local@[k] == fold_range::<T, Op>(
                    s,
                    if seg_start(f, k) > block_first(k) {
                        seg_start(f, k)
                    } else {
                        block_first(k)
                    },
                    k + 1,
                ),
            forall|k: int|
                0 <= k < len && k < b * 256 ==> #[trigger] continuation@[k] == or_range(
                    f,
                    block_first(k),
                    k + 1,
                ),
        decreases blocks - b,
    {
        let start = b * BLOCK_SIZE;
        let end = if len - start > BLOCK_SIZE {
            start + BLOCK_SIZE
        } else {
            len
        };
        scan_segment_block::<T, Op>(input, flags, &mut local, &mut continuation, start, end);
        proof {
            assert forall|k: int| 0 <= k < len && k < (b + 1) * 256 implies #[trigger] local@[k]
                == fold_range::<T, Op>(
                s,
                if seg_start(f, k) > block_first(k) {
                    seg_start(f, k)
                } else {
                    block_first(k)
                },
                k + 1,
            ) by {
                if k >= b * 256 {
                    assert(k / 256 == b);
                }
            }
            assert forall|k: int| 0 <= k < len && k < (b + 1) * 256 implies #[trigger] continuation@[k]
                == or_range(f, block_first(k), k + 1) by {
                if k >= b * 256 {
                    assert(k / 256 == b);
                }
            }
        }
        b += 1;
    }
    let ghost scanned = local@;
    let ghost links = continuation@;
    if blocks > 1 {
        let mut block_sums: Vec<T> = Vec::new();
        let mut block_flags: Vec<u32> = Vec::new();
        let mut c: usize = 0;
        while c < blocks
            invariant
                len == input.len(),
                local.len() == len,
                continuation.len() == len,
                blocks == block_count(len as int),
                (blocks - 1) * 256 < len <= blocks * 256,
                c <= blocks,
                local@ == scanned,
                continuation@ == links,
                block_sums.len() == c,
                block_flags.len() == c,
                forall|d: int|
                    0 <= d < c ==> #[trigger] block_sums@[d] == local@[block_last(d, len as int) - 1]
                        && block_flags@[d] == continuation@[block_last(d, len as int) - 1],
            decreases blocks - c,
        {
            let start = c * BLOCK_SIZE;
            let last = if len - start > BLOCK_SIZE {
                start + BLOCK_SIZE
            } else {
                len
            } - 1;
            block_sums.push(local[last]);
            block_flags.push(continuation[last]);
            c += 1;
        }
        proof {
            assert forall|d: int| 0 <= d < blocks implies #[trigger] block_sums@[d]
                == fold_range::<T, Op>(
                s,
                if seg_start(f, block_last(d, len as int) - 1) > d * 256 {
                    seg_start(f, block_last(d, len as int) - 1)
                } else {
                    d * 256
                },
                block_last(d, len as int),
            ) && (block_flags@[d] == 0) == (forall|j: int|
                d * 256 <= j < block_last(d, len as int) ==> !is_head(f, j)) by {
                let last = block_last(d, len as int) - 1;
                assert(last / 256 == d);
                assert(block_sums@[d] == scanned[last]);
                assert(block_flags@[d] == links[last]);
                assert(links[last] == or_range(f, block_first(last), last + 1));
                assert(scanned[last] == fold_range::<T, Op>(
                    s,
                    if seg_start(f, last) > block_first(last) {
                        seg_start(f, last)
                    } else {
                        block_first(last)
                    },
                    last + 1,
                ));
                lemma_or_range_zero(f, d * 256, last + 1);
            }
        }
        let mut prefixes: Vec<T> = block_sums.clone();
        let inner = segmented_inclusive::<T, Op>(&block_sums, &block_flags, &mut prefixes);
        assert(inner is Ok);
        let ghost summaries = block_sums@;
        let ghost summary_flags = block_flags@;
        let mut k: usize = BLOCK_SIZE;
        while k < len
            invariant
                len == input.len(),
                s == input@,
                f == flags@,
                256 <= k <= len,
                local.len() == len,
                continuation.len() == len,
                prefixes.len() == blocks,
                prefixes@ == segmented_inclusive_spec::<T, Op>(summaries, summary_flags),
                blocks == block_count(len as int),
                (blocks - 1) * 256 < len <= blocks * 256,
                forall|m: int|
                    0 <= m < len && m < 256 ==> #[trigger] local@[m] == scanned[m],
                forall|m: int|
                    0 <= m < len && 256 <= m ==> #[trigger] local@[m] == if m < k && continuation@[m]
                        == 0 {
                        Op::combine(prefixes@[m / 256 - 1], scanned[m])
                    } else {
                        scanned[m]
                    },
            decreases len - k,
        {
            let block = k / BLOCK_SIZE;
            if continuation[k] == 0 {
                let value = Op::apply(prefixes[block - 1], local[k]);
                local.set(k, value);
            }
            k += 1;
        }
        proof {
            assert forall|i: int| 0 <= i < len implies #[trigger] local@[i]
                == segmented_inclusive_spec::<T, Op>(s, f)[i] by {
                let bi = i / 256;
                lemma_seg_start_bounds(f, i);
                lemma_or_range_zero(f, bi * 256, i + 1);
                assert(continuation@[i] == or_range(f, block_first(i), i + 1));
                if continuation@[i] != 0 {
                    let h = choose|h: int| bi * 256 <= h < i + 1 && is_head(f, h);
                    lemma_seg_start_after_head(f, bi * 256, i, h);
                } else if bi == 0 {
                } else {
                    lemma_seg_start_no_heads(f, bi * 256 - 1, i);
                    lemma_summary_prefix::<T, Op>(s, f, summaries, summary_flags, bi - 1);
                    lemma_seg_start_bounds(f, bi * 256 - 1);
                    lemma_fold_range_split::<T, Op>(s, seg_start(f, i), bi * 256, i + 1);
                }
            }
        }
    } else {
        proof {
            assert forall|i: int| 0 <= i < len implies #[trigger] local@[i]
                == segmented_inclusive_spec::<T, Op>(s, f)[i] by {
                assert(i / 256 == 0);
                lemma_seg_start_bounds(f, i);
            }
        }
    }
    let mut i: usize = 0;
    while i < len
        invariant
            len == input.len(),
            local.len() == len,
            output.len() == len,
            i <= len,
            forall|m: int| 0 <= m < i ==> #[trigger] output@[m] == local@[m],
        decreases len - i,
    {
        output.set(i, local[i]);
        i += 1;
    }
    assert(output@ =~= segmented_inclusive_spec::<T, Op>(s, f));
    Ok(())
}

/// The segmented scan of the block summaries ends, at block `c`, with the
/// fold of the segment that is open at the end of that block.
proof fn lemma_summary_prefix<T, Op: ReductionOp<T>>(
    s: Seq<T>,
    f: Seq<u32>,
    sums: Seq<T>,
    heads: Seq<u32>,
    c: int,
)
    requires
        s.len() > 0,
        f.len() == s.len(),
        sums.len() == block_count(s.len() as int),
        heads.len() == sums.len(),
        0 <= c < sums.len(),
        forall|d: int|
            0 <= d < sums.len() ==> #[trigger] sums[d] == fold_range::<T, Op>(
                s,
                if seg_start(f, block_last(d, s.len() as int) - 1) > d * 256 {
                    seg_start(f, block_last(d, s.len() as int) - 1)
                } else {
                    d * 256
                },
                block_last(d, s.len() as int),
            ) && (heads[d] == 0) == (forall|j: int|
                d * 256 <= j < block_last(d, s.len() as int) ==> !is_head(f, j)),
    ensures
        fold_range::<T, Op>(sums, seg_start(heads, c), c + 1) == fold_range::<T, Op>(
            s,
            seg_start(f, block_last(c, s.len() as int) - 1),
            block_last(c, s.len() as int),
        ),
        seg_start(f, block_last(c, s.len() as int) - 1) < block_last(c, s.len() as int),
    decreases c,
{
    lemma_block_count(s.len() as int);
    let len = s.len() as int;
    let last = block_last(c, len) - 1;
    lemma_seg_start_bounds(f, last);
    lemma_seg_start_bounds(heads, c);
    let sum_c = sums[c];
    assert((heads[c] == 0) == (forall|j: int|
        c * 256 <= j < block_last(c, len) ==> !is_head(f, j)));
    if heads[c] != 0 {
        let h = choose|h: int| c * 256 <= h < block_last(c, len) && is_head(f, h);
        lemma_seg_start_after_head(f, c * 256, last, h);
    } else if c == 0 {
        lemma_seg_start_no_heads(f, 0, last);
    } else {
        lemma_summary_prefix::<T, Op>(s, f, sums, heads, c - 1);
        lemma_seg_start_bounds(heads, c - 1);
        lemma_fold_range_extend::<T, Op>(sums, seg_start(heads, c - 1), c);
        lemma_seg_start_no_heads(f, c * 256 - 1, last);
        lemma_seg_start_bounds(f, c * 256 - 1);
        lemma_fold_range_split::<T, Op>(s, seg_start(f, last), c * 256, block_last(c, len));
    }
}


/// Segmented exclusive scan: each segment starts from `init`, and every
/// later row of a segment receives `init` combined with the segment's
/// inclusive fold up to the previous row.
pub fn segmented_exclusive<T: Copy, Op: ReductionOp<T>>(
    input: &Vec<T>,
    flags: &Vec<u32>,
    init: T,
    output: &mut Vec<T>,
) -> (r: Result<(), Error>)
    ensures
        flags.len() != input.len() || old(output).len() != input.len() ==> r == Err::<(), Error>(
            Error::LengthMismatch {
                left: input.len(),
                right: if flags.len() < old(output).len() {
                    flags.len()
                } else {
                    old(output).len()
                },
            },
        ),
        flags.len() == input.len() && old(output).len() == input.len() && input.len() > 0
            && input.len() == usize::MAX ==> r == Err::<(), Error>(
            Error::LengthTooLarge { len: input.len() },
        ),
        flags.len() == input.len() && old(output).len() == input.len() && input.len()
            < usize::MAX ==> r is Ok,
        r is Ok ==> final(output)@ == segmented_exclusive_spec::<T, Op>(init, input@, flags@),
        r is Err ==> final(output)@ == old(output)@,
{
    let len = input.len();
    let output_len = output.len();
    if flags.len() != len || output_len != len {
        let right = if flags.len() < output_len {
            flags.len()
        } else {
            output_len
        };
        return Err(Error::LengthMismatch { left: len, right });
    }
    if len == 0 {
        assert(output@ =~= segmented_exclusive_spec::<T, Op>(init, input@, flags@));
        return Ok(());
    }
    let mut inclusive = input.clone();
    segmented_inclusive::<T, Op>(input, flags, &mut inclusive)?;
    let mut i: usize = 0;
    while i < len
        invariant
            len == input.len(),
            flags.len() == len,
            output.len() == len,
            inclusive@ == segmented_inclusive_spec::<T, Op>(input@, flags@),
            i <= len,
            forall|m: int|
                0 <= m < i ==> #[trigger] output@[m] == segmented_exclusive_spec::<T, Op>(
                    init,
                    input@,
                    flags@,
                )[m],
        decreases len - i,
    {
        if i == 0 || flags[i] != 0 {
            output.set(i, init);
        } else {
            let value = Op::apply(init, inclusive[i - 1]);
            output.set(i, value);
        }
        i += 1;
    }
    assert(output@ =~= segmented_exclusive_spec::<T, Op>(init, input@, flags@));
    Ok(())
}

/// Rows whose flag is nonzero.
pub open spec fn head_selection(f: Seq<u32>) -> Seq<bool> {
    Seq::new(f.len(), |i: int| f[i] != 0)
}

/// The head rows in order: row `r` holds the first row of segment `r`.
pub open spec fn head_rows(f: Seq<u32>) -> Seq<int> {
    kept(Seq::new(f.len(), |i: int| i), head_selection(f), f.len() as int)
}

/// One past the last row of segment `r`.
pub open spec fn segment_end(f: Seq<u32>, r: int) -> int {
    if r + 1 < count_flags(head_selection(f), f.len() as int) {
        head_rows(f)[r + 1]
    } else {
        f.len() as int
    }
}

/// Head `k` of the first `n` rows is a head before row `n` and has `k`
/// heads before it.
proof fn lemma_head_rank(f: Seq<u32>, n: int, k: int)
    requires
        0 <= n <= f.len(),
        0 <= k < count_flags(head_selection(f), n),
    ensures
        ({
            let h = kept(Seq::new(f.len(), |i: int| i), head_selection(f), n)[k];
            &&& 0 <= h < n
            &&& f[h] != 0
            &&& count_flags(head_selection(f), h) == k
        }),
    decreases n,
{
    let sel = head_selection(f);
    let idx = Seq::new(f.len(), |i: int| i);
    lemma_kept_len(idx, sel, n - 1);
    if k < count_flags(sel, n - 1) {
        lemma_head_rank(f, n - 1, k);
        if flag_at(sel, n - 1) {
            assert(kept(idx, sel, n)[k] == kept(idx, sel, n - 1)[k]);
        }
    }
}

/// The segment start of a row after the first head is the last head so far.
proof fn lemma_seg_start_head(f: Seq<u32>, i: int)
    requires
        0 <= i < f.len(),
        count_flags(head_selection(f), i + 1) >= 1,
    ensures
        seg_start(f, i) == kept(
            Seq::new(f.len(), |j: int| j),
            head_selection(f),
            f.len() as int,
        )[count_flags(head_selection(f), i + 1) - 1],
    decreases i,
{
    let sel = head_selection(f);
    let idx = Seq::new(f.len(), |j: int| j);
    if f[i] != 0 {
        lemma_kept_index(idx, sel, f.len() as int, i);
    } else {
        assert(i > 0) by {
            if i == 0 {
                assert(count_flags(sel, 1) == 0);
            }
        }
        lemma_seg_start_head(f, i - 1);
    }
}

/// Segmented reduction: row `r` of `output` receives `init` combined with the
/// fold of segment `r` (rows before the first head belong to no segment).
/// `positions` holds the inclusive head counts and `count` the number of
/// segments; segments beyond the output length are not written.
pub fn segmented_reduce<T: Copy, Op: ReductionOp<T>>(
    input: &Vec<T>,
    heads: &Vec<u32>,
    positions: &Vec<u32>,
    count: &Vec<u32>,
    init: T,
    _op: Op,
    output: &mut Vec<T>,
) -> (r: Result<(), Error>)
    requires
        heads.len() == input.len() && positions.len() == input.len() ==> {
            &&& input.len() <= u32::MAX
            &&& positions@ == Seq::new(
                input.len() as nat,
                |p: int| count_flags(head_selection(heads@), p + 1) as u32,
            )
            &&& count@ == seq![count_flags(head_selection(heads@), input.len() as int) as u32]
        },
    ensures
        heads.len() != input.len() || positions.len() != input.len() ==> r == Err::<(), Error>(
            Error::LengthMismatch {
                left: input.len(),
                right: if heads.len() < positions.len() {
                    heads.len()
                } else {
                    positions.len()
                },
            },
        ),
        heads.len() == input.len() && positions.len() == input.len() && input.len() > 0
            && input.len() == usize::MAX ==> r == Err::<(), Error>(
            Error::LengthTooLarge { len: input.len() },
        ),
        heads.len() == input.len() && positions.len() == input.len() && input.len()
            < usize::MAX ==> r is Ok,
        r is Ok ==> forall|k: int|
            0 <= k < old(output).len() ==> #[trigger] final(output)@[k] == if k < count_flags(
                head_selection(heads@),
                input.len() as int,
            ) {
                Op::combine(
                    init,
                    fold_range::<T, Op>(input@, head_rows(heads@)[k], segment_end(heads@, k)),
                )
            } else {
                old(output)@[k]
            },
        final(output).len() == old(output).len(),
        r is Err ==> final(output)@ == old(output)@,
{
    let len = input.len();
    if heads.len() != len || positions.len() != len {
        let right = if heads.len() < positions.len() {
            heads.len()
        } else {
            positions.len()
        };
        return Err(Error::LengthMismatch { left: len, right });
    }
    let ghost s = input@;
    let ghost f = heads@;
    let ghost sel = head_selection(f);
    let ghost total = count_flags(sel, len as int);
    let ghost hr = head_rows(f);
    proof {
        lemma_count_bounds(sel, 0, len as int);
        lemma_kept_len(Seq::new(f.len(), |i: int| i), sel, len as int);
    }
    if len == 0 {
        return Ok(());
    }
    let mut inclusive = input.clone();
    segmented_inclusive::<T, Op>(input, heads, &mut inclusive)?;
    let output_len = output.len();
    let bound = if positions.len() < output_len {
        positions.len()
    } else {
        output_len
    };
    if bound == 0 {
        return Ok(());
    }
    let mut resolved = vec![0usize; bound];
    let segments = count[0];
    let mut p: usize = 0;
    while p < len
        invariant
            len == input.len(),
            len <= u32::MAX,
            positions.len() == len,
            f == heads@,
            f.len() == len,
            sel == head_selection(f),
            hr == head_rows(f),
            total == count_flags(sel, len as int),
            segments == total,
            positions@ == Seq::new(len as nat, |q: int| count_flags(sel, q + 1) as u32),
            resolved.len() == bound,
            bound <= len,
            p <= len,
            forall|k: int|
                1 <= k < count_flags(sel, p as int) && k - 1 < bound ==> #[trigger] resolved@[k - 1]
                    == hr[k],
            p == len && total >= 1 && total - 1 < bound ==> resolved@[total - 1] == len,
        decreases len - p,
    {
        proof {
            lemma_count_bounds(sel, 0, p + 1);
            lemma_count_bounds(sel, p + 1, len as int);
            if p > 0 {
                assert(positions@[p - 1] == count_flags(sel, p as int));
            }
        }
        let previous = if p == 0 {
            0u32
        } else {
            positions[p - 1]
        };
        let rank = positions[p];
        if rank != previous && rank > 1 {
            let index = (rank - 2) as usize;
            if index < bound {
                proof {
                    lemma_kept_index(Seq::new(f.len(), |i: int| i), sel, len as int, p as int);
                }
                resolved.set(index, p);
            }
        }
        if p + 1 == len && rank != 0 {
            let final_rank = (rank - 1) as usize;
            if final_rank < bound && final_rank < segments as usize {
                resolved.set(final_rank, len);
            }
        }
        proof {
            assert forall|k: int| 1 <= k < count_flags(sel, p + 1) && k - 1 < bound implies #[trigger] resolved@[k - 1] == hr[k] by {
                if k == count_flags(sel, p as int) {
                    lemma_kept_index(Seq::new(f.len(), |i: int| i), sel, len as int, p as int);
                }
            }
        }
        p += 1;
    }
    let ghost old_out = output@;
    let mut k: usize = 0;
    while k < bound
        invariant
            len == input.len(),
            len <= u32::MAX,
            s == input@,
            f == heads@,
            f.len() == len,
            sel == head_selection(f),
            hr == head_rows(f),
            total == count_flags(sel, len as int),
            hr.len() == total,
            segments == total,
            total <= len,
            inclusive@ == segmented_inclusive_spec::<T, Op>(s, f),
            resolved.len() == bound,
            bound <= output.len(),
            output.len() == old_out.len(),
            forall|j: int|
                1 <= j < total && j - 1 < bound ==> #[trigger] resolved@[j - 1] == hr[j],
            total >= 1 && total - 1 < bound ==> resolved@[total - 1] == len,
            k <= bound,
            forall|j: int|
                0 <= j < output.len() ==> #[trigger] output@[j] == if j < k && j < total {
                    Op::combine(init, fold_range::<T, Op>(s, hr[j], segment_end(f, j)))
                } else {
                    old_out[j]
                },
        decreases bound - k,
    {
        if k < segments as usize {
            let end = resolved[k];
            proof {
                if k + 1 < total {
                    assert(resolved@[(k + 1) - 1] == hr[k + 1]);
                    lemma_head_rank(f, len as int, (k + 1) as int);
                    lemma_head_rank(f, len as int, k as int);
                    let h = hr[k + 1];
                    assert(h >= 1) by {
                        if h == 0 {
                            assert(count_flags(sel, 0) == 0);
                        }
                    }
                    assert(count_flags(sel, (h - 1) + 1) == k + 1);
                    lemma_seg_start_head(f, h - 1);
                } else {
                    lemma_count_bounds(sel, 0, len as int);
                    lemma_seg_start_head(f, len - 1);
                }
            }
            let value = Op::apply(init, inclusive[end - 1]);
            output.set(k, value);
        }
        k += 1;
    }
    assert forall|j: int| 0 <= j < output.len() implies #[trigger] output@[j] == if j < total {
        Op::combine(init, fold_range::<T, Op>(s, hr[j], segment_end(f, j)))
    } else {
        old_out[j]
    } by {
        if j < total && j >= bound {
            assert(bound == output.len());
        }
    }
    Ok(())
}

/// Per-block running OR of the head flags: `r[i]` is zero exactly when no
/// head occurs between the start of row `i`'s block and row `i`.  The last
/// row of `heads` holds the logical length, which is copied to the last row
/// of the result.
pub fn segment_continuation(heads: &Vec<u32>) -> (r: Vec<u32>)
    requires
        heads.len() >= 1,
        heads[heads.len() - 1] < heads.len(),
    ensures
        r.len() == heads.len(),
        forall|i: int| 0 <= i < heads[heads.len() - 1] ==> #[trigger] r[i] == or_range(heads@, block_first(i), i + 1),
        forall|i: int| heads[heads.len() - 1] <= i < heads.len() - 1 ==> #[trigger] r[i] == 0,
        r[heads.len() - 1] == heads[heads.len() - 1],
{
    let metadata = heads.len() - 1;
    let logical_len = heads[metadata] as usize;
    let mut r: Vec<u32> = Vec::new();
    let mut seen: u32 = 0;
    let mut i: usize = 0;
    while i < metadata
        invariant
            metadata == heads.len() - 1,
            logical_len == heads[metadata as int],
            logical_len <= metadata,
            i <= metadata,
            r.len() == i,
            i < logical_len && i > 0 ==> seen == or_range(heads@, block_first(i as int), i as int) || i % 256 == 0,
            forall|k: int| 0 <= k < i && k < logical_len ==> #[trigger] r[k] == or_range(heads@, block_first(k), k + 1),
            forall|k: int| logical_len <= k < i ==> #[trigger] r[k] == 0,
        decreases metadata - i,
    {
        if i < logical_len {
            if i % 256 == 0 {
                seen = 0;
            }
            proof {
                assert(block_first(i as int) <= i);
                if i % 256 == 0 {
                    assert(block_first(i as int) == i);
                    assert(or_range(heads@, i as int, i as int) == 0u32);
                } else {
                    assert(block_first(i as int) == block_first(i - 1));
                }
            }
            seen = seen | heads[i];
            r.push(seen);
        } else {
            r.push(0);
        }
        i = i + 1;
    }
    r.push(logical_len as u32);
    r
}


proof fn lemma_no_heads_start(f: Seq<u32>, i: int)
    requires
        0 <= i < f.len(),
        forall|k: int| 0 <= k < f.len() ==> !is_head(f, k),
    ensures
        seg_start(f, i) == 0,
    decreases i,
{
    if i > 0 {
        lemma_no_heads_start(f, i - 1);
    }
}

/// Without segment heads the segmented scans are the plain scans.
pub proof fn lemma_unsegmented_scans<T, Op: ReductionOp<T>>(init: T, s: Seq<T>, f: Seq<u32>)
    requires
        f.len() == s.len(),
        forall|k: int| 0 <= k < f.len() ==> !is_head(f, k),
    ensures
        segmented_inclusive_spec::<T, Op>(s, f) == crate::fold::inclusive_scan_spec::<T, Op>(s),
        segmented_exclusive_spec::<T, Op>(init, s, f) == crate::fold::exclusive_scan_spec::<T, Op>(
            init,
            s,
        ),
{
    assert forall|i: int| 0 <= i < s.len() implies #[trigger] segmented_inclusive_spec::<T, Op>(
        s,
        f,
    )[i] == crate::fold::inclusive_scan_spec::<T, Op>(s)[i] by {
        lemma_no_heads_start(f, i);
    }
    assert forall|i: int| 0 <= i < s.len() implies #[trigger] segmented_exclusive_spec::<T, Op>(
        init,
        s,
        f,
    )[i] == crate::fold::exclusive_scan_spec::<T, Op>(init, s)[i] by {
        if i == 0 {
            assert(seq![init] + s.subrange(0, 0) =~= seq![init]);
        } else {
            lemma_no_heads_start(f, i - 1);
            crate::fold::lemma_seeded_prefix_split::<T, Op>(init, s, i);
        }
    }
    assert(segmented_inclusive_spec::<T, Op>(s, f) =~= crate::fold::inclusive_scan_spec::<T, Op>(s));
    assert(segmented_exclusive_spec::<T, Op>(init, s, f) =~= crate::fold::exclusive_scan_spec::<
        T,
        Op,
    >(init, s));
}

/// When every row heads its own segment, the inclusive segmented scan
/// returns the input and the exclusive one the seed in every row.
pub proof fn lemma_singleton_segments<T, Op: ReductionOp<T>>(init: T, s: Seq<T>, f: Seq<u32>)
    requires
        f.len() == s.len(),
        forall|k: int| 0 <= k < f.len() ==> is_head(f, k),
    ensures
        segmented_inclusive_spec::<T, Op>(s, f) == s,
        segmented_exclusive_spec::<T, Op>(init, s, f) == Seq::new(s.len(), |i: int| init),
{
    assert forall|i: int| 0 <= i < s.len() implies #[trigger] segmented_inclusive_spec::<T, Op>(
        s,
        f,
    )[i] == s[i] by {
        crate::fold::lemma_fold_range_single::<T, Op>(s, i);
        assert(s.subrange(i, i + 1) =~= seq![s[i]]);
    }
    assert(segmented_inclusive_spec::<T, Op>(s, f) =~= s);
    assert(segmented_exclusive_spec::<T, Op>(init, s, f) =~= Seq::new(s.len(), |i: int| init));
}

/// Segment `r` of a segmented reduction is what the segmented inclusive scan
/// reads at the segment's last row: the fold from head `r` up to the row
/// before the next head (or the last row) is the scan at that row.
pub proof fn lemma_segment_reduction_reads_scan<T, Op: ReductionOp<T>>(s: Seq<T>, f: Seq<u32>, r: int)
    requires
        f.len() == s.len(),
        0 <= r < count_flags(head_selection(f), f.len() as int),
    ensures
        0 <= head_rows(f)[r] < segment_end(f, r) <= s.len(),
        fold_range::<T, Op>(s, head_rows(f)[r], segment_end(f, r)) == segmented_inclusive_spec::<T, Op>(s, f)[segment_end(
            f,
            r,
        ) - 1],
{
    let n = f.len() as int;
    let sel = head_selection(f);
    let total = count_flags(sel, n);
    lemma_head_rank(f, n, r);
    let h = head_rows(f)[r];
    let end = segment_end(f, r);
    lemma_count_bounds(sel, h + 1, n);
    assert(count_flags(sel, h + 1) == r + 1);
    if r + 1 < total {
        lemma_head_rank(f, n, r + 1);
        let h2 = head_rows(f)[r + 1];
        assert(h < h2) by {
            if h2 <= h {
                lemma_count_bounds(sel, h2, h);
            }
        }
        assert(count_flags(sel, end) == r + 1);
    } else {
        assert(count_flags(sel, end) == r + 1);
    }
    lemma_seg_start_head(f, end - 1);
}

} // verus!
