//! Variable-cardinality output generation.
//!
//! Each input row expands into a run of output rows.  The runs start at
//! `element_offsets`, and `owners[o]` names (one-based) the input row that
//! owns output row `o`; output row `o` is then the `o - offset`-th row of its
//! owner's run.
use vstd::prelude::*;
use crate::error::Error;
use crate::ops::ExpandOp;

verus! {

/// Words of one resolved output row: its input row and its index in the run.
pub const RESOLVED_EXPANSION_WORDS: usize = 2;

/// The input row that owns output row `o`.
pub open spec fn owner_row(owners: Seq<u32>, o: int) -> int {
    owners[o] - 1
}

/// Every output row has an owner whose run starts at or before it.
pub open spec fn owners_valid(element_offsets: Seq<u32>, owners: Seq<u32>, input_len: int) -> bool {
    forall|o: int|
        0 <= o < owners.len() ==> 1 <= #[trigger] owners[o] <= input_len && element_offsets[owners[o] - 1] <= o
}

/// Turns run offsets and owners into, for every output row, its input row
/// and its index within that row's run.
pub fn resolve_expansion(element_offsets: &Vec<u32>, owners: &Vec<u32>, input_len: usize) -> (r: Vec<(u32, u32)>)
    requires
        owners.len() <= u32::MAX,
        input_len < element_offsets.len(),
        owners_valid(element_offsets@, owners@, input_len as int),
    ensures
        r.len() == owners.len(),
        forall|o: int| 0 <= o < owners.len() ==> #[trigger] r[o] == (
            owner_row(owners@, o) as u32,
            (o - element_offsets[owner_row(owners@, o)]) as u32,
        ),
{
    let mut r: Vec<(u32, u32)> = Vec::new();
    let mut o: usize = 0;
    while o < owners.len()
        invariant
            owners.len() <= u32::MAX,
            input_len < element_offsets.len(),
            owners_valid(element_offsets@, owners@, input_len as int),
            o <= owners.len(),
            r.len() == o,
            forall|k: int| 0 <= k < o ==> #[trigger] r[k] == (
                owner_row(owners@, k) as u32,
                (k - element_offsets[owner_row(owners@, k)]) as u32,
            ),
        decreases owners.len() - o,
    {
        let input_index = owners[o] - 1;
        let local = o as u32 - element_offsets[input_index as usize];
        r.push((input_index, local));
        o = o + 1;
    }
    r
}

/// Generates one output row for every expanded output row:
/// `output[o] = Op::generate(input[i], o - element_offsets[i])` where `i` owns `o`.
pub fn generate<T: Copy, Op: ExpandOp<T>>(
    input: &Vec<T>,
    element_offsets: &Vec<u32>,
    owners: &Vec<u32>,
    output: &mut Vec<Op::Output>,
) -> (r: Result<(), Error>)
    requires
        old(output).len() <= u32::MAX,
        element_offsets.len() == input.len() + 1 && owners.len() == old(output).len() ==> owners_valid(
            element_offsets@,
            owners@,
            input.len() as int,
        ),
    ensures
        input.len() + 1 > usize::MAX ==> r == Err::<(), Error>(Error::LengthTooLarge { len: input.len() }),
        input.len() + 1 <= usize::MAX && element_offsets.len() != input.len() + 1 ==> r == Err::<(), Error>(
            Error::LengthMismatch { left: element_offsets.len(), right: (input.len() + 1) as usize },
        ),
        input.len() + 1 <= usize::MAX && element_offsets.len() == input.len() + 1 && owners.len() != old(output).len()
            ==> r == Err::<(), Error>(Error::LengthMismatch { left: owners.len(), right: old(output).len() }),
        r is Err ==> final(output)@ == old(output)@,
        element_offsets.len() == input.len() + 1 && owners.len() == old(output).len() ==> {
            &&& r is Ok
            &&& final(output).len() == old(output).len()
            &&& forall|o: int| 0 <= o < old(output).len() ==> #[trigger] final(output)[o] == Op::expand(
                input[owner_row(owners@, o)],
                (o - element_offsets[owner_row(owners@, o)]) as u32,
            )
        },
{
    let input_len = input.len();
    let expected_offsets = match input_len.checked_add(1) {
        Some(n) => n,
        None => {
            return Err(Error::LengthTooLarge { len: input_len });
        },
    };
    if element_offsets.len() != expected_offsets {
        return Err(Error::LengthMismatch { left: element_offsets.len(), right: expected_offsets });
    }
    let output_len = output.len();
    if owners.len() != output_len {
        return Err(Error::LengthMismatch { left: owners.len(), right: output_len });
    }
    if output_len == 0 {
        return Ok(());
    }
    let resolved = resolve_expansion(element_offsets, owners, input_len);
    let ghost start = output@;
    let mut o: usize = 0;
    while o < output_len
        invariant
            output_len == owners.len() == resolved.len() == start.len(),
            output.len() == output_len,
            input_len == input.len(),
            owners_valid(element_offsets@, owners@, input_len as int),
            forall|k: int| 0 <= k < output_len ==> #[trigger] resolved[k] == (
                owner_row(owners@, k) as u32,
                (k - element_offsets[owner_row(owners@, k)]) as u32,
            ),
            o <= output_len,
            forall|k: int| 0 <= k < o ==> #[trigger] output[k] == Op::expand(
                input[owner_row(owners@, k)],
                (k - element_offsets[owner_row(owners@, k)]) as u32,
            ),
        decreases output_len - o,
    {
        let (input_index, local_index) = resolved[o];
        output.set(o, Op::generate(input[input_index as usize], local_index));
        o = o + 1;
    }
    Ok(())
}


/// Number of rows that `s` expands into.
pub open spec fn expanded_len<T, Op: ExpandOp<T>>(s: Seq<T>) -> nat
    decreases s.len(),
{
    if s.len() == 0 {
        0
    } else {
        expanded_len::<T, Op>(s.drop_last()) + Op::expansion_len(s.last()) as nat
    }
}

/// The rows that `s` expands into: the run of every input row, in input
/// order.
pub open spec fn expanded<T, Op: ExpandOp<T>>(s: Seq<T>) -> Seq<Op::Output>
    decreases s.len(),
{
    if s.len() == 0 {
        Seq::empty()
    } else {
        expanded::<T, Op>(s.drop_last()) + Seq::new(
            Op::expansion_len(s.last()) as nat,
            |k: int| Op::expand(s.last(), k as u32),
        )
    }
}

/// First output row of the run of input row `i`.
pub open spec fn run_start<T, Op: ExpandOp<T>>(s: Seq<T>, i: int) -> nat {
    expanded_len::<T, Op>(s.subrange(0, i))
}

/// Output row `o` of the run of input row `i` is that row's
/// `o - run_start(i)`-th generated row.
pub proof fn lemma_expanded_rows<T, Op: ExpandOp<T>>(s: Seq<T>, i: int, o: int)
    requires
        0 <= i < s.len(),
        run_start::<T, Op>(s, i) <= o < run_start::<T, Op>(s, i + 1),
    ensures
        expanded::<T, Op>(s).len() == expanded_len::<T, Op>(s),
        o < expanded_len::<T, Op>(s),
        expanded::<T, Op>(s)[o] == Op::expand(s[i], (o - run_start::<T, Op>(s, i)) as u32),
    decreases s.len(),
{
    lemma_expanded_len::<T, Op>(s);
    lemma_run_start_monotone::<T, Op>(s, i + 1, s.len() as int);
    assert(s.subrange(0, s.len() as int) =~= s);
    let last = s.len() - 1;
    if i < last {
        let front = s.drop_last();
        assert(front.subrange(0, i) =~= s.subrange(0, i));
        assert(front.subrange(0, i + 1) =~= s.subrange(0, i + 1));
        lemma_expanded_rows::<T, Op>(front, i, o);
    } else {
        assert(s.subrange(0, i) =~= s.drop_last());
        assert(s.subrange(0, i + 1) =~= s);
        lemma_expanded_len::<T, Op>(s.drop_last());
    }
}

proof fn lemma_expanded_len<T, Op: ExpandOp<T>>(s: Seq<T>)
    ensures
        expanded::<T, Op>(s).len() == expanded_len::<T, Op>(s),
    decreases s.len(),
{
    if s.len() > 0 {
        lemma_expanded_len::<T, Op>(s.drop_last());
    }
}

proof fn lemma_run_start_monotone<T, Op: ExpandOp<T>>(s: Seq<T>, i: int, j: int)
    requires
        0 <= i <= j <= s.len(),
    ensures
        run_start::<T, Op>(s, i) <= run_start::<T, Op>(s, j),
    decreases j - i,
{
    if i < j {
        lemma_run_start_monotone::<T, Op>(s, i, j - 1);
        assert(s.subrange(0, j).drop_last() =~= s.subrange(0, j - 1));
    }
}

/// Expands every row of `input` into its run under `Op` and concatenates
/// the runs in input order.  Fails with `LengthTooLarge` (naming the input
/// length) when the input or its expansion has more rows than `u32`
/// indices address.
pub fn flat_map<T: Copy, Op: ExpandOp<T>>(input: &Vec<T>, _op: Op) -> (r: Result<
    Vec<Op::Output>,
    Error,
>)
    ensures
        input.len() < u32::MAX && expanded_len::<T, Op>(input@) <= u32::MAX ==> (r matches Ok(
            out,
        ) && out@ == expanded::<T, Op>(input@)),
        !(input.len() < u32::MAX && expanded_len::<T, Op>(input@) <= u32::MAX) ==> r
            == Err::<Vec<Op::Output>, Error>(Error::LengthTooLarge { len: input.len() }),
{
    let n = input.len();
    if n >= 0xffff_ffff {
        return Err(Error::LengthTooLarge { len: n });
    }
    // Run offsets: an exclusive scan of the run lengths, then the total.
    let mut offsets: Vec<u32> = Vec::new();
    let mut total: u64 = 0;
    let mut i: usize = 0;
    while i < n
        invariant
            n == input.len() < u32::MAX,
            i <= n,
            offsets.len() == i,
            total == run_start::<T, Op>(input@, i as int),
            total <= u32::MAX,
            forall|k: int| 0 <= k < i ==> #[trigger] offsets[k] == run_start::<T, Op>(input@, k),
        decreases n - i,
    {
        proof {
            assert(input@.subrange(0, i + 1).drop_last() =~= input@.subrange(0, i as int));
        }
        offsets.push(total as u32);
        total = total + Op::count(input[i]) as u64;
        if total > 0xffff_ffff {
            proof {
                lemma_run_start_monotone::<T, Op>(input@, i + 1, n as int);
                assert(input@.subrange(0, n as int) =~= input@);
            }
            return Err(Error::LengthTooLarge { len: n });
        }
        i = i + 1;
    }
    offsets.push(total as u32);
    proof {
        assert(input@.subrange(0, n as int) =~= input@);
    }
    // Owners: output row `o` belongs (one-based) to the input row whose run
    // covers it.
    let mut owners: Vec<u32> = Vec::new();
    let mut i: usize = 0;
    while i < n
        invariant
            n == input.len() < u32::MAX,
            i <= n,
            offsets.len() == n + 1,
            forall|k: int| 0 <= k <= n ==> #[trigger] offsets[k] == run_start::<T, Op>(input@, k),
            total == run_start::<T, Op>(input@, n as int) <= u32::MAX,
            owners.len() == run_start::<T, Op>(input@, i as int),
            forall|o: int|
                0 <= o < owners.len() ==> 1 <= #[trigger] owners[o] <= i && run_start::<T, Op>(
                    input@,
                    owners[o] - 1,
                ) <= o < run_start::<T, Op>(input@, owners[o] as int),
        decreases n - i,
    {
        proof {
            assert(input@.subrange(0, i + 1).drop_last() =~= input@.subrange(0, i as int));
            lemma_run_start_monotone::<T, Op>(input@, i + 1, n as int);
        }
        let count = Op::count(input[i]);
        let mut k: u32 = 0;
        while k < count
            invariant
                n == input.len() < u32::MAX,
                i < n,
                count == Op::expansion_len(input[i as int]),
                run_start::<T, Op>(input@, i + 1) == run_start::<T, Op>(input@, i as int) + count,
                k <= count,
                owners.len() == run_start::<T, Op>(input@, i as int) + k,
                forall|o: int|
                    0 <= o < owners.len() ==> 1 <= #[trigger] owners[o] <= i + 1 && run_start::<
                        T,
                        Op,
                    >(input@, owners[o] - 1) <= o < run_start::<T, Op>(input@, owners[o] as int),
            decreases count - k,
        {
            owners.push((i + 1) as u32);
            k = k + 1;
        }
        i = i + 1;
    }
    proof {
        assert forall|o: int| 0 <= o < owners.len() implies 1 <= #[trigger] owners[o] <= n
            && offsets[owners[o] - 1] <= o by {
            lemma_run_start_monotone::<T, Op>(input@, owners[o] - 1, n as int);
        }
    }
    let resolved = resolve_expansion(&offsets, &owners, n);
    let mut output: Vec<Op::Output> = Vec::new();
    let mut o: usize = 0;
    while o < owners.len()
        invariant
            n == input.len(),
            offsets.len() == n + 1,
            forall|k: int| 0 <= k <= n ==> #[trigger] offsets[k] == run_start::<T, Op>(input@, k),
            resolved.len() == owners.len() == expanded_len::<T, Op>(input@),
            forall|q: int|
                0 <= q < owners.len() ==> 1 <= #[trigger] owners[q] <= n && run_start::<T, Op>(
                    input@,
                    owners[q] - 1,
                ) <= q < run_start::<T, Op>(input@, owners[q] as int),
            forall|q: int| 0 <= q < owners.len() ==> #[trigger] resolved[q] == (
                owner_row(owners@, q) as u32,
                (q - offsets[owner_row(owners@, q)]) as u32,
            ),
            o <= owners.len(),
            output.len() == o,
            forall|q: int| 0 <= q < o ==> #[trigger] output[q] == expanded::<T, Op>(input@)[q],
        decreases owners.len() - o,
    {
        let (input_index, local_index) = resolved[o];
        proof {
            lemma_expanded_rows::<T, Op>(input@, owners[o as int] - 1, o as int);
        }
        output.push(Op::generate(input[input_index as usize], local_index));
        o = o + 1;
    }
    proof {
        lemma_expanded_len::<T, Op>(input@);
        assert(output@ =~= expanded::<T, Op>(input@));
    }
    Ok(output)
}

} // verus!
