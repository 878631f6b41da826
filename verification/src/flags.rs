//! Serial meaning of stencil selections: counts of set flags and the rows
//! that a stable selection keeps.
use vstd::prelude::*;

verus! {

/// Row `i` is flagged (rows outside the sequence never are).
pub open spec fn flag_at(f: Seq<bool>, i: int) -> bool {
    0 <= i < f.len() && f[i]
}

/// Number of flagged rows among `0..n`.
pub open spec fn count_flags(f: Seq<bool>, n: int) -> nat
    decreases n,
{
    if n <= 0 {
        0
    } else {
        count_flags(f, n - 1) + if flag_at(f, n - 1) {
            1nat
        } else {
            0nat
        }
    }
}

/// The flagged rows among `0..n` of `s`, in their original order.
pub open spec fn kept<T>(s: Seq<T>, f: Seq<bool>, n: int) -> Seq<T>
    decreases n,
{
    if n <= 0 {
        Seq::empty()
    } else if flag_at(f, n - 1) {
        kept(s, f, n - 1).push(s[n - 1])
    } else {
        kept(s, f, n - 1)
    }
}

/// Every flag inverted.
pub open spec fn negate(f: Seq<bool>) -> Seq<bool> {
    Seq::new(f.len(), |i: int| !f[i])
}

/// The rows a stable selection keeps.
pub open spec fn selected_rows<T>(s: Seq<T>, f: Seq<bool>) -> Seq<T> {
    kept(s, f, s.len() as int)
}

/// The rows a stable selection drops, in their original order.
pub open spec fn rejected_rows<T>(s: Seq<T>, f: Seq<bool>) -> Seq<T> {
    kept(s, negate(f), s.len() as int)
}

pub proof fn lemma_count_bounds(f: Seq<bool>, i: int, j: int)
    requires
        0 <= i <= j,
    ensures
        count_flags(f, i) <= count_flags(f, j),
        count_flags(f, j) - count_flags(f, i) <= j - i,
    decreases j,
{
    if j > i {
        lemma_count_bounds(f, i, j - 1);
    }
}

pub proof fn lemma_kept_len<T>(s: Seq<T>, f: Seq<bool>, n: int)
    requires
        n >= 0,
    ensures
        kept(s, f, n).len() == count_flags(f, n),
    decreases n,
{
    if n > 0 {
        lemma_kept_len(s, f, n - 1);
    }
}

/// A kept row sits at its rank: the number of flagged rows before it.
pub proof fn lemma_kept_index<T>(s: Seq<T>, f: Seq<bool>, n: int, i: int)
    requires
        0 <= i < n,
        flag_at(f, i),
    ensures
        count_flags(f, i) < count_flags(f, n),
        kept(s, f, n)[count_flags(f, i) as int] == s[i],
    decreases n,
{
    lemma_kept_len(s, f, n - 1);
    lemma_count_bounds(f, i + 1, n);
    if i < n - 1 {
        lemma_kept_index(s, f, n - 1, i);
    }
}

pub proof fn lemma_count_negate(f: Seq<bool>, n: int)
    requires
        0 <= n <= f.len(),
    ensures
        count_flags(negate(f), n) == n - count_flags(f, n),
    decreases n,
{
    if n > 0 {
        lemma_count_negate(f, n - 1);
    }
}

pub proof fn lemma_count_extend(f: Seq<bool>, n: int)
    requires
        n >= f.len(),
    ensures
        count_flags(f, n) == count_flags(f, f.len() as int),
    decreases n,
{
    if n > f.len() {
        lemma_count_extend(f, n - 1);
    }
}

/// Selecting and rejecting by the same flags splits the rows between them.
pub proof fn lemma_selection_splits_rows<T>(s: Seq<T>, f: Seq<bool>)
    requires
        f.len() == s.len(),
    ensures
        selected_rows(s, f).len() + rejected_rows(s, f).len() == s.len(),
{
    lemma_kept_len(s, f, s.len() as int);
    lemma_kept_len(s, negate(f), s.len() as int);
    lemma_count_negate(f, s.len() as int);
}

} // verus!
