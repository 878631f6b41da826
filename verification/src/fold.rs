//! Serial meaning of scans and reductions: left folds over sequences.
use vstd::prelude::*;
use crate::ops::ReductionOp;

verus! {

/// Left fold of a non-empty sequence: `s[0] op s[1] op ... op s[n-1]`.
pub open spec fn fold1<T, Op: ReductionOp<T>>(s: Seq<T>) -> T
    recommends
        s.len() > 0,
    decreases s.len(),
{
    if s.len() <= 1 {
        s[0]
    } else {
        Op::combine(fold1::<T, Op>(s.drop_last()), s.last())
    }
}

/// Fold of the rows `lo..hi` of `s`.
pub open spec fn fold_range<T, Op: ReductionOp<T>>(s: Seq<T>, lo: int, hi: int) -> T {
    fold1::<T, Op>(s.subrange(lo, hi))
}

/// Fold of `init` followed by the first `n` rows of `s`: the exclusive
/// prefix at row `n` of a scan seeded with `init`.
pub open spec fn seeded_prefix<T, Op: ReductionOp<T>>(init: T, s: Seq<T>, n: int) -> T {
    fold1::<T, Op>(seq![init] + s.subrange(0, n))
}

/// Serial inclusive scan.
pub open spec fn inclusive_scan_spec<T, Op: ReductionOp<T>>(s: Seq<T>) -> Seq<T> {
    Seq::new(s.len(), |i: int| fold_range::<T, Op>(s, 0, i + 1))
}

/// Serial exclusive scan seeded with `init`.
pub open spec fn exclusive_scan_spec<T, Op: ReductionOp<T>>(init: T, s: Seq<T>) -> Seq<T> {
    Seq::new(s.len(), |i: int| seeded_prefix::<T, Op>(init, s, i))
}

pub proof fn lemma_fold1_concat<T, Op: ReductionOp<T>>(a: Seq<T>, b: Seq<T>)
    requires
        a.len() > 0,
        b.len() > 0,
    ensures
        fold1::<T, Op>(a + b) == Op::combine(fold1::<T, Op>(a), fold1::<T, Op>(b)),
    decreases b.len(),
{
    if b.len() == 1 {
        assert((a + b).drop_last() =~= a);
    } else {
        assert((a + b).drop_last() =~= a + b.drop_last());
        lemma_fold1_concat::<T, Op>(a, b.drop_last());
        Op::lemma_associative(fold1::<T, Op>(a), fold1::<T, Op>(b.drop_last()), b.last());
    }
}

/// Folding a range splits at any interior row.
pub proof fn lemma_fold_range_split<T, Op: ReductionOp<T>>(s: Seq<T>, lo: int, mid: int, hi: int)
    requires
        0 <= lo < mid < hi <= s.len(),
    ensures
        fold_range::<T, Op>(s, lo, hi) == Op::combine(
            fold_range::<T, Op>(s, lo, mid),
            fold_range::<T, Op>(s, mid, hi),
        ),
{
    assert(s.subrange(lo, hi) =~= s.subrange(lo, mid) + s.subrange(mid, hi));
    lemma_fold1_concat::<T, Op>(s.subrange(lo, mid), s.subrange(mid, hi));
}

/// Extending a range by one row combines that row on the right.
pub proof fn lemma_fold_range_extend<T, Op: ReductionOp<T>>(s: Seq<T>, lo: int, hi: int)
    requires
        0 <= lo < hi < s.len(),
    ensures
        fold_range::<T, Op>(s, lo, hi + 1) == Op::combine(fold_range::<T, Op>(s, lo, hi), s[hi]),
{
    assert(s.subrange(lo, hi + 1).drop_last() =~= s.subrange(lo, hi));
}

pub proof fn lemma_fold_range_single<T, Op: ReductionOp<T>>(s: Seq<T>, i: int)
    requires
        0 <= i < s.len(),
    ensures
        fold_range::<T, Op>(s, i, i + 1) == s[i],
{
}

/// The seeded prefix of a non-empty range combines the seed on the left.
pub proof fn lemma_seeded_prefix_split<T, Op: ReductionOp<T>>(init: T, s: Seq<T>, n: int)
    requires
        0 < n <= s.len(),
    ensures
        seeded_prefix::<T, Op>(init, s, n) == Op::combine(init, fold_range::<T, Op>(s, 0, n)),
{
    lemma_fold1_concat::<T, Op>(seq![init], s.subrange(0, n));
}


/// A seeded exclusive scan runs one row behind the inclusive scan: its row
/// `i`, combined with input row `i`, is the seed combined with inclusive
/// row `i`.
pub proof fn lemma_exclusive_inclusive<T, Op: ReductionOp<T>>(init: T, s: Seq<T>, i: int)
    requires
        0 <= i < s.len(),
    ensures
        Op::combine(exclusive_scan_spec::<T, Op>(init, s)[i], s[i]) == Op::combine(
            init,
            inclusive_scan_spec::<T, Op>(s)[i],
        ),
{
    if i == 0 {
        assert(seq![init] + s.subrange(0, 0) =~= seq![init]);
        assert(s.subrange(0, 1) =~= seq![s[0]]);
    } else {
        lemma_seeded_prefix_split::<T, Op>(init, s, i);
        lemma_fold_range_extend::<T, Op>(s, 0, i);
        Op::lemma_associative(init, fold_range::<T, Op>(s, 0, i), s[i]);
    }
}

/// The serial reduction of `s` from `init` (what a reduction computes for a
/// commutative operation) is the seeded exclusive scan's last row combined
/// with the last input row, and the seed combined with the inclusive scan's
/// last row.
pub proof fn lemma_reduction_closes_scan<T, Op: ReductionOp<T>>(init: T, s: Seq<T>)
    requires
        s.len() > 0,
    ensures
        seeded_prefix::<T, Op>(init, s, s.len() as int) == Op::combine(
            exclusive_scan_spec::<T, Op>(init, s)[s.len() - 1],
            s[s.len() - 1],
        ),
        seeded_prefix::<T, Op>(init, s, s.len() as int) == Op::combine(
            init,
            inclusive_scan_spec::<T, Op>(s)[s.len() - 1],
        ),
{
    let n = s.len() as int;
    lemma_exclusive_inclusive::<T, Op>(init, s, n - 1);
    lemma_seeded_prefix_split::<T, Op>(init, s, n);
}

} // verus!
