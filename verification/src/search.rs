//! Searches and comparisons over row ranges.
//!
//! Pair queries compute one code per shared row in parallel and then look
//! for the first nonzero code; range queries give every needle or value its
//! own lane, which scans or bisects the source.
use vstd::prelude::*;
use crate::error::Error;
use crate::ops::BinaryPredicateOp;

verus! {

/// `r` is the first row of `codes` that is nonzero, or `codes.len()` when
/// every row is zero.
pub open spec fn first_nonzero(codes: Seq<u32>, r: int) -> bool {
    &&& 0 <= r <= codes.len()
    &&& forall|j: int| 0 <= j < r ==> #[trigger] codes[j] == 0
    &&& r < codes.len() ==> codes[r] != 0
}

/// The first nonzero row of `codes`, or its length when there is none.
pub fn find_nonzero(codes: &Vec<u32>) -> (r: usize)
    ensures
        first_nonzero(codes@, r as int),
{
    let mut i: usize = 0;
    while i < codes.len()
        invariant
            i <= codes.len(),
            forall|j: int| 0 <= j < i ==> #[trigger] codes[j] == 0,
        decreases codes.len() - i,
    {
        if codes[i] != 0 {
            return i;
        }
        i = i + 1;
    }
    i
}

/// Mismatch code of one row pair: 0 when the rows are equal, 1 otherwise.
pub open spec fn mismatch_code<T, Equal: BinaryPredicateOp<T>>(left: T, right: T) -> u32 {
    if Equal::holds(left, right) {
        0
    } else {
        1
    }
}

/// Lexicographic code of one row pair: 1 when the left row is less, 2 when
/// the right row is less, 0 when neither is.
pub open spec fn lexicographical_code<T, Less: BinaryPredicateOp<T>>(left: T, right: T) -> u32 {
    if Less::holds(left, right) {
        1
    } else if Less::holds(right, left) {
        2
    } else {
        0
    }
}

/// Number of rows both ranges have.
pub open spec fn shared_len(left: nat, right: nat) -> nat {
    if left < right {
        left
    } else {
        right
    }
}

/// Per-row mismatch codes over the shared rows, and the first mismatching
/// row (the shared length when there is none).
pub fn mismatch_codes<T: Copy, Equal: BinaryPredicateOp<T>>(left: &Vec<T>, right: &Vec<T>) -> (r: Result<
    (Vec<u32>, usize),
    Error,
>)
    ensures
        r matches Ok((codes, best)) && {
            let shared = shared_len(left.len() as nat, right.len() as nat);
            &&& codes.len() == shared
            &&& forall|i: int| 0 <= i < shared ==> #[trigger] codes[i] == mismatch_code::<T, Equal>(left[i], right[i])
            &&& first_nonzero(codes@, best as int)
        },
{
    let capacity = if left.len() < right.len() {
        left.len()
    } else {
        right.len()
    };
    let mut codes: Vec<u32> = Vec::new();
    let mut i: usize = 0;
    while i < capacity
        invariant
            capacity == shared_len(left.len() as nat, right.len() as nat),
            i <= capacity,
            codes.len() == i,
            forall|k: int| 0 <= k < i ==> #[trigger] codes[k] == mismatch_code::<T, Equal>(left[k], right[k]),
        decreases capacity - i,
    {
        let code = if Equal::apply(left[i], right[i]) {
            0
        } else {
            1
        };
        codes.push(code);
        i = i + 1;
    }
    let best = find_nonzero(&codes);
    Ok((codes, best))
}

/// Per-row lexicographic codes over the shared rows, and the first row
/// whose items are ordered (the shared length when there is none).
pub fn lexicographical_codes<T: Copy, Less: BinaryPredicateOp<T>>(left: &Vec<T>, right: &Vec<T>) -> (r: Result<
    (Vec<u32>, usize),
    Error,
>)
    ensures
        r matches Ok((codes, best)) && {
            let shared = shared_len(left.len() as nat, right.len() as nat);
            &&& codes.len() == shared
            &&& forall|i: int| 0 <= i < shared ==> #[trigger] codes[i] == lexicographical_code::<T, Less>(left[i], right[i])
            &&& first_nonzero(codes@, best as int)
        },
{
    let capacity = if left.len() < right.len() {
        left.len()
    } else {
        right.len()
    };
    let mut codes: Vec<u32> = Vec::new();
    let mut i: usize = 0;
    while i < capacity
        invariant
            capacity == shared_len(left.len() as nat, right.len() as nat),
            i <= capacity,
            codes.len() == i,
            forall|k: int| 0 <= k < i ==> #[trigger] codes[k] == lexicographical_code::<T, Less>(left[k], right[k]),
        decreases capacity - i,
    {
        let code = if Less::apply(left[i], right[i]) {
            1
        } else if Less::apply(right[i], left[i]) {
            2
        } else {
            0
        };
        codes.push(code);
        i = i + 1;
    }
    let best = find_nonzero(&codes);
    Ok((codes, best))
}

/// The first row at which the ranges differ: the first unequal shared row,
/// or the shared length when the lengths differ; `None` when the ranges are
/// equal.
pub fn mismatch<T: Copy, Equal: BinaryPredicateOp<T>>(left: &Vec<T>, right: &Vec<T>, _equal: Equal) -> (r: Result<
    Option<usize>,
    Error,
>)
    ensures
        r matches Ok(found) && {
            let shared = shared_len(left.len() as nat, right.len() as nat);
            &&& found matches Some(i) ==> {
                &&& i <= shared
                &&& forall|j: int| 0 <= j < i ==> #[trigger] Equal::holds(left[j], right[j])
                &&& i < shared ==> !Equal::holds(left[i as int], right[i as int])
                &&& i == shared ==> left.len() != right.len()
            }
            &&& found is None ==> left.len() == right.len() && forall|j: int| 0 <= j < shared ==> #[trigger] Equal::holds(
                left[j],
                right[j],
            )
        },
{
    let (codes, best) = mismatch_codes::<T, Equal>(left, right)?;
    proof {
        assert forall|j: int| 0 <= j < best implies #[trigger] Equal::holds(left[j], right[j]) by {
            assert(codes[j] == 0);
        }
    }
    if best == codes.len() && left.len() == right.len() {
        Ok(None)
    } else {
        proof {
            if best < codes.len() {
                assert(codes[best as int] != 0);
            }
        }
        Ok(Some(best))
    }
}

/// Whether the ranges have equal lengths and pairwise equal rows.
pub fn equal<T: Copy, Equal: BinaryPredicateOp<T>>(left: &Vec<T>, right: &Vec<T>, predicate: Equal) -> (r: Result<
    bool,
    Error,
>)
    ensures
        r matches Ok(same) && same == (left.len() == right.len() && forall|j: int| 0 <= j < left.len() ==> #[trigger] Equal::holds(
            left[j],
            right[j],
        )),
{
    let found = mismatch(left, right, predicate)?;
    proof {
        if let Some(i) = found {
            if left.len() == right.len() {
                assert(!Equal::holds(left[i as int], right[i as int]));
            }
        }
    }
    Ok(found.is_none())
}

/// Lexicographic order from row `i` on: the first row where one item is
/// less than the other decides; when there is none, the shorter range is
/// first.
pub open spec fn lexicographically_before<T, Less: BinaryPredicateOp<T>>(left: Seq<T>, right: Seq<T>, i: int) -> bool
    decreases shared_len(left.len(), right.len()) - i,
{
    if i < 0 || i >= shared_len(left.len(), right.len()) {
        left.len() < right.len()
    } else if Less::holds(left[i], right[i]) {
        true
    } else if Less::holds(right[i], left[i]) {
        false
    } else {
        lexicographically_before::<T, Less>(left, right, i + 1)
    }
}

proof fn lemma_lexicographic_codes<T, Less: BinaryPredicateOp<T>>(left: Seq<T>, right: Seq<T>, codes: Seq<u32>, best: int, i: int)
    requires
        codes.len() == shared_len(left.len(), right.len()),
        forall|k: int| 0 <= k < codes.len() ==> #[trigger] codes[k] == lexicographical_code::<T, Less>(left[k], right[k]),
        first_nonzero(codes, best),
        0 <= i <= best,
    ensures
        lexicographically_before::<T, Less>(left, right, i) == if best < codes.len() {
            codes[best] == 1
        } else {
            left.len() < right.len()
        },
    decreases best - i,
{
    if i < best {
        assert(codes[i] == 0);
        lemma_lexicographic_codes::<T, Less>(left, right, codes, best, i + 1);
    }
}

/// Row `i` is shared by both ranges and one of its two items is less than
/// the other.
pub open spec fn differs_at<T, Less: BinaryPredicateOp<T>>(left: Seq<T>, right: Seq<T>, i: int) -> bool {
    &&& 0 <= i < shared_len(left.len(), right.len())
    &&& (Less::holds(left[i], right[i]) || Less::holds(right[i], left[i]))
}

/// Row `i` is the first row where the two ranges differ.
pub open spec fn first_difference<T, Less: BinaryPredicateOp<T>>(left: Seq<T>, right: Seq<T>, i: int) -> bool {
    &&& differs_at::<T, Less>(left, right, i)
    &&& forall|j: int| 0 <= j < i ==> !#[trigger] differs_at::<T, Less>(left, right, j)
}

/// The left range comes first: at the first differing row its item is the
/// smaller one, or no shared row differs and it is the shorter range.
pub open spec fn before_at_first_difference<T, Less: BinaryPredicateOp<T>>(left: Seq<T>, right: Seq<T>) -> bool {
    ||| exists|i: int| #[trigger] first_difference::<T, Less>(left, right, i) && Less::holds(left[i], right[i])
    ||| (forall|i: int| !#[trigger] differs_at::<T, Less>(left, right, i)) && left.len() < right.len()
}

proof fn lemma_before_from<T, Less: BinaryPredicateOp<T>>(left: Seq<T>, right: Seq<T>, i: int)
    requires
        0 <= i <= shared_len(left.len(), right.len()),
        forall|j: int| 0 <= j < i ==> !#[trigger] differs_at::<T, Less>(left, right, j),
    ensures
        lexicographically_before::<T, Less>(left, right, i) == before_at_first_difference::<T, Less>(left, right),
    decreases shared_len(left.len(), right.len()) - i,
{
    let shared = shared_len(left.len(), right.len());
    if i == shared {
        assert forall|d: int| !#[trigger] differs_at::<T, Less>(left, right, d) by {
            if 0 <= d < i {
            }
        }
        assert forall|d: int| !#[trigger] first_difference::<T, Less>(left, right, d) by {
            assert(!differs_at::<T, Less>(left, right, d));
        }
    } else if differs_at::<T, Less>(left, right, i) {
        assert(first_difference::<T, Less>(left, right, i));
        assert forall|d: int| #[trigger] first_difference::<T, Less>(left, right, d) implies d == i by {
            if d < i {
                assert(!differs_at::<T, Less>(left, right, d));
            } else if d > i {
                assert(!differs_at::<T, Less>(left, right, i));
            }
        }
        assert(!(forall|d: int| !#[trigger] differs_at::<T, Less>(left, right, d)));
    } else {
        assert forall|j: int| 0 <= j < i + 1 implies !#[trigger] differs_at::<T, Less>(left, right, j) by {
        }
        lemma_before_from::<T, Less>(left, right, i + 1);
    }
}

/// Lexicographic order is decided at the first differing row: the left
/// range comes first exactly when its item there is the smaller one, or,
/// when no shared row differs, when it is the shorter range.
pub proof fn lemma_lexicographic_first_difference<T, Less: BinaryPredicateOp<T>>(left: Seq<T>, right: Seq<T>)
    ensures
        lexicographically_before::<T, Less>(left, right, 0) == before_at_first_difference::<T, Less>(left, right),
{
    lemma_before_from::<T, Less>(left, right, 0);
}

/// Whether the left range orders lexicographically before the right one.
pub fn lexicographical_compare<T: Copy, Less: BinaryPredicateOp<T>>(left: &Vec<T>, right: &Vec<T>, _less: Less) -> (r:
    Result<bool, Error>)
    ensures
        r matches Ok(before) && before == lexicographically_before::<T, Less>(left@, right@, 0),
{
    let (codes, best) = lexicographical_codes::<T, Less>(left, right)?;
    let shared = codes.len();
    let left_is_shorter = left.len() < right.len();
    let before = if best < shared {
        codes[best] == 1
    } else {
        left_is_shorter
    };
    proof {
        lemma_lexicographic_codes::<T, Less>(left@, right@, codes@, best as int, 0);
    }
    Ok(before)
}

/// Some needle equals `item`.
pub open spec fn matches_any<T, Equal: BinaryPredicateOp<T>>(item: T, needles: Seq<T>) -> bool {
    exists|j: int| 0 <= j < needles.len() && #[trigger] Equal::holds(item, needles[j])
}

/// The first source row equal to any needle, or `None`.
pub fn find_first_of<T: Copy, Equal: BinaryPredicateOp<T>>(source: &Vec<T>, needles: &Vec<T>, _equal: Equal) -> (r:
    Result<Option<usize>, Error>)
    ensures
        r matches Ok(found) && {
            &&& found matches Some(i) ==> i < source.len() && matches_any::<T, Equal>(source[i as int], needles@)
                && forall|j: int| 0 <= j < i ==> !#[trigger] matches_any::<T, Equal>(source[j], needles@)
            &&& found is None ==> forall|j: int| 0 <= j < source.len() ==> !#[trigger] matches_any::<T, Equal>(
                source[j],
                needles@,
            )
        },
{
    if source.len() == 0 || needles.len() == 0 {
        return Ok(None);
    }
    // One lane per source row scans the needles until one matches.
    let mut flags: Vec<u32> = Vec::new();
    let mut i: usize = 0;
    while i < source.len()
        invariant
            i <= source.len(),
            flags.len() == i,
            forall|k: int| 0 <= k < i ==> (#[trigger] flags[k] != 0) == matches_any::<T, Equal>(source[k], needles@),
        decreases source.len() - i,
    {
        let mut found: u32 = 0;
        let mut j: usize = 0;
        while j < needles.len() && found == 0
            invariant
                i < source.len(),
                j <= needles.len(),
                found == 0 ==> forall|k: int| 0 <= k < j ==> !#[trigger] Equal::holds(source[i as int], needles[k]),
                found != 0 ==> matches_any::<T, Equal>(source[i as int], needles@),
            decreases needles.len() - j + if found == 0 { 1int } else { 0int },
        {
            if Equal::apply(source[i], needles[j]) {
                found = 1;
            } else {
                j = j + 1;
            }
        }
        proof {
            if found == 0 {
                assert(!matches_any::<T, Equal>(source[i as int], needles@));
            }
        }
        flags.push(found);
        i = i + 1;
    }
    let first = find_nonzero(&flags);
    proof {
        assert forall|j: int| 0 <= j < first implies !#[trigger] matches_any::<T, Equal>(source[j], needles@) by {
            assert(flags[j] == 0);
        }
    }
    if first < flags.len() {
        proof {
            assert(flags[first as int] != 0);
        }
        Ok(Some(first))
    } else {
        Ok(None)
    }
}

/// `go_right` of a lower bound: the candidate is less than the value.
pub open spec fn below<T, Less: BinaryPredicateOp<T>>(candidate: T, value: T) -> bool {
    Less::holds(candidate, value)
}

/// `go_right` of an upper bound: the value is not less than the candidate.
pub open spec fn not_above<T, Less: BinaryPredicateOp<T>>(candidate: T, value: T) -> bool {
    !Less::holds(value, candidate)
}

/// The source is partitioned for `value`: the rows that pass `go` all come
/// before the rows that do not, as in a sorted source.
pub open spec fn partitioned<T, Less: BinaryPredicateOp<T>>(source: Seq<T>, value: T, upper: bool) -> bool {
    forall|i: int, j: int|
        0 <= i < j < source.len() ==> (if upper {
            not_above::<T, Less>(#[trigger] source[j], value)
        } else {
            below::<T, Less>(source[j], value)
        }) ==> (if upper {
            not_above::<T, Less>(#[trigger] source[i], value)
        } else {
            below::<T, Less>(source[i], value)
        })
}

/// Number of leading source rows that pass the bound predicate for `value`.
pub open spec fn is_bound<T, Less: BinaryPredicateOp<T>>(source: Seq<T>, value: T, upper: bool, r: int) -> bool {
    &&& 0 <= r <= source.len()
    &&& forall|i: int| 0 <= i < r ==> (if upper {
        not_above::<T, Less>(#[trigger] source[i], value)
    } else {
        below::<T, Less>(source[i], value)
    })
    &&& forall|i: int| r <= i < source.len() ==> !(if upper {
        not_above::<T, Less>(#[trigger] source[i], value)
    } else {
        below::<T, Less>(source[i], value)
    })
}

/// Bisects the source for every value: the first row that does not pass
/// the bound predicate.
fn bounds<T: Copy, Less: BinaryPredicateOp<T>>(source: &Vec<T>, values: &Vec<T>, upper: bool) -> (r: Result<
    Vec<u32>,
    Error,
>)
    requires
        source.len() <= u32::MAX,
        forall|k: int| 0 <= k < values.len() ==> #[trigger] partitioned::<T, Less>(source@, values[k], upper),
    ensures
        r matches Ok(found) && found.len() == values.len() && forall|k: int| 0 <= k < values.len() ==> #[trigger] is_bound::<T, Less>(
            source@,
            values[k],
            upper,
            found[k] as int,
        ),
{
    let mut found: Vec<u32> = Vec::new();
    let mut k: usize = 0;
    while k < values.len()
        invariant
            source.len() <= u32::MAX,
            forall|k: int| 0 <= k < values.len() ==> #[trigger] partitioned::<T, Less>(source@, values[k], upper),
            k <= values.len(),
            found.len() == k,
            forall|q: int| 0 <= q < k ==> #[trigger] is_bound::<T, Less>(source@, values[q], upper, found[q] as int),
        decreases values.len() - k,
    {
        let value = values[k];
        let mut low: usize = 0;
        let mut high: usize = source.len();
        proof {
            assert(partitioned::<T, Less>(source@, values[k as int], upper));
        }
        while low < high
            invariant
                source.len() <= u32::MAX,
                partitioned::<T, Less>(source@, value, upper),
                0 <= low <= high <= source.len(),
                forall|i: int| 0 <= i < low ==> (if upper {
                    not_above::<T, Less>(#[trigger] source[i], value)
                } else {
                    below::<T, Less>(source[i], value)
                }),
                forall|i: int| high <= i < source.len() ==> !(if upper {
                    not_above::<T, Less>(#[trigger] source[i], value)
                } else {
                    below::<T, Less>(source[i], value)
                }),
            decreases high - low,
        {
            let mid = low + (high - low) / 2;
            let go_right = if upper {
                !Less::apply(value, source[mid])
            } else {
                Less::apply(source[mid], value)
            };
            if go_right {
                proof {
                    assert forall|i: int| 0 <= i < mid + 1 implies (if upper {
                        not_above::<T, Less>(#[trigger] source[i], value)
                    } else {
                        below::<T, Less>(source[i], value)
                    }) by {
                        if i < mid {
                            assert(source[mid as int] == source[mid as int]);
                        }
                    }
                }
                low = mid + 1;
            } else {
                proof {
                    assert forall|i: int| mid <= i < source.len() implies !(if upper {
                        not_above::<T, Less>(#[trigger] source[i], value)
                    } else {
                        below::<T, Less>(source[i], value)
                    }) by {
                        if i > mid {
                            assert(source[i] == source[i]);
                        }
                    }
                }
                high = mid;
            }
        }
        found.push(low as u32);
        k = k + 1;
    }
    Ok(found)
}

/// For every value, the number of source rows less than it (the first row
/// not less than it, when the source is sorted).
pub fn lower_bounds<T: Copy, Less: BinaryPredicateOp<T>>(source: &Vec<T>, values: &Vec<T>, _less: Less) -> (r: Result<
    Vec<u32>,
    Error,
>)
    requires
        source.len() <= u32::MAX,
        forall|k: int| 0 <= k < values.len() ==> #[trigger] partitioned::<T, Less>(source@, values[k], false),
    ensures
        r matches Ok(found) && found.len() == values.len() && forall|k: int| 0 <= k < values.len() ==> #[trigger] is_bound::<T, Less>(
            source@,
            values[k],
            false,
            found[k] as int,
        ),
{
    bounds::<T, Less>(source, values, false)
}

/// For every value, the number of source rows not greater than it (the
/// first row greater than it, when the source is sorted).
pub fn upper_bounds<T: Copy, Less: BinaryPredicateOp<T>>(source: &Vec<T>, values: &Vec<T>, _less: Less) -> (r: Result<
    Vec<u32>,
    Error,
>)
    requires
        source.len() <= u32::MAX,
        forall|k: int| 0 <= k < values.len() ==> #[trigger] partitioned::<T, Less>(source@, values[k], true),
    ensures
        r matches Ok(found) && found.len() == values.len() && forall|k: int| 0 <= k < values.len() ==> #[trigger] is_bound::<T, Less>(
            source@,
            values[k],
            true,
            found[k] as int,
        ),
{
    bounds::<T, Less>(source, values, true)
}

} // verus!
