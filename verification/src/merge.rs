//! Stable merge of two sorted ranges.
//!
//! Every tile of 256 output rows finds where it starts and ends in the two
//! inputs by bisecting its diagonals; every lane of the tile bisects the
//! diagonal of its own four rows and then merges them one by one.  The
//! result is a permutation of the concatenated payload `left ++ right`.
use vstd::prelude::*;
use crate::error::Error;
use crate::indexed::permutation_copy;
use crate::ops::{BinaryPredicateOp, StrictWeakOrder};

verus! {

/// Lanes of a merge workgroup.
pub const MERGE_SIZE: usize = 64;

/// Output rows merged by one lane.
pub const MERGE_ITEMS: usize = 4;

/// Output rows of one merge tile.
pub const MERGE_TILE: usize = 256;

/// Rows ordered by `Less`: no row is less than an earlier one.
pub open spec fn sorted_by<T, Less: BinaryPredicateOp<T>>(s: Seq<T>) -> bool {
    forall|i: int, j: int| 0 <= i < j < s.len() ==> !Less::holds(#[trigger] s[j], #[trigger] s[i])
}

/// With left row `i` and right row `j` next, the merge takes the left row:
/// the right row is not less than it, so ties go to the left.
pub open spec fn takes_left<T, Less: BinaryPredicateOp<T>>(left: Seq<T>, right: Seq<T>, i: int, j: int) -> bool {
    0 <= i < left.len() && (j >= right.len() || !Less::holds(right[j], left[i]))
}

/// Number of left rows among the first `k` rows of the stable merge.
pub open spec fn co_rank<T, Less: BinaryPredicateOp<T>>(left: Seq<T>, right: Seq<T>, k: int) -> int
    decreases k,
{
    if k <= 0 {
        0
    } else {
        let c = co_rank::<T, Less>(left, right, k - 1);
        if takes_left::<T, Less>(left, right, c, k - 1 - c) {
            c + 1
        } else {
            c
        }
    }
}

/// Row `k` of the stable merge, as a row index of `left ++ right`.
pub open spec fn merge_entry<T, Less: BinaryPredicateOp<T>>(left: Seq<T>, right: Seq<T>, k: int) -> u32 {
    let c = co_rank::<T, Less>(left, right, k);
    if takes_left::<T, Less>(left, right, c, k - c) {
        c as u32
    } else {
        (left.len() + k - c) as u32
    }
}

/// The stable merge of `left` and `right`, as row indices of `left ++ right`.
pub open spec fn merge_order<T, Less: BinaryPredicateOp<T>>(left: Seq<T>, right: Seq<T>) -> Seq<u32> {
    Seq::new(left.len() + right.len(), |k: int| merge_entry::<T, Less>(left, right, k))
}

/// `i` left rows and `k - i` right rows can be the first `k` rows of the
/// merge: every row taken is not above every row left behind.
pub open spec fn valid_split<T, Less: BinaryPredicateOp<T>>(left: Seq<T>, right: Seq<T>, k: int, i: int) -> bool {
    let j = k - i;
    &&& 0 <= i <= left.len()
    &&& 0 <= j <= right.len()
    &&& (i == 0 || j == right.len() || !Less::holds(right[j], left[i - 1]))
    &&& (j == 0 || i == left.len() || Less::holds(right[j - 1], left[i]))
}

/// What a diagonal bisection asks of left row `i`: it belongs before right
/// row `k - i - 1`.
pub open spec fn left_precedes<T, Less: BinaryPredicateOp<T>>(left: Seq<T>, right: Seq<T>, k: int, i: int) -> bool {
    &&& i < left.len()
    &&& k - i > 0
    &&& !Less::holds(right[k - i - 1], left[i])
}

proof fn lemma_less_then_not_less<T, Less: StrictWeakOrder<T>>(x: T, y: T, z: T)
    requires
        Less::holds(x, y),
        !Less::holds(z, y),
    ensures
        Less::holds(x, z),
{
    if !Less::holds(x, z) {
        Less::lemma_not_less_transitive(y, z, x);
    }
}

proof fn lemma_not_less_then_less<T, Less: StrictWeakOrder<T>>(x: T, y: T, z: T)
    requires
        !Less::holds(y, x),
        Less::holds(y, z),
    ensures
        Less::holds(x, z),
{
    if !Less::holds(x, z) {
        Less::lemma_not_less_transitive(z, x, y);
    }
}

/// One merge step from a valid split gives a valid split.
proof fn lemma_step<T, Less: StrictWeakOrder<T>>(left: Seq<T>, right: Seq<T>, k: int, c: int)
    requires
        sorted_by::<T, Less>(left),
        sorted_by::<T, Less>(right),
        0 <= k < left.len() + right.len(),
        valid_split::<T, Less>(left, right, k, c),
    ensures
        valid_split::<T, Less>(
            left,
            right,
            k + 1,
            if takes_left::<T, Less>(left, right, c, k - c) { c + 1 } else { c },
        ),
{
    let j = k - c;
    if takes_left::<T, Less>(left, right, c, j) {
        if j > 0 && c + 1 < left.len() {
            assert(!Less::holds(left[c + 1], left[c]));
            lemma_less_then_not_less::<T, Less>(right[j - 1], left[c], left[c + 1]);
        }
    } else {
        if c > 0 && j + 1 < right.len() {
            assert(!Less::holds(right[j + 1], right[j]));
            Less::lemma_not_less_transitive(left[c - 1], right[j], right[j + 1]);
        }
    }
}

/// The co-rank of every diagonal is a valid split.
pub proof fn lemma_co_rank_valid<T, Less: StrictWeakOrder<T>>(left: Seq<T>, right: Seq<T>, k: int)
    requires
        sorted_by::<T, Less>(left),
        sorted_by::<T, Less>(right),
        0 <= k <= left.len() + right.len(),
    ensures
        valid_split::<T, Less>(left, right, k, co_rank::<T, Less>(left, right, k)),
    decreases k,
{
    if k > 0 {
        lemma_co_rank_valid::<T, Less>(left, right, k - 1);
        lemma_step::<T, Less>(left, right, k - 1, co_rank::<T, Less>(left, right, k - 1));
    }
}

/// On diagonal `k`, left row `i` belongs before its right counterpart
/// exactly below the valid split: bisection finds the split.
proof fn lemma_precedes_below_split<T, Less: StrictWeakOrder<T>>(left: Seq<T>, right: Seq<T>, k: int, c: int, i: int)
    requires
        sorted_by::<T, Less>(left),
        sorted_by::<T, Less>(right),
        valid_split::<T, Less>(left, right, k, c),
        k - right.len() <= i <= k,
        0 <= i <= left.len(),
    ensures
        left_precedes::<T, Less>(left, right, k, i) == (i < c),
{
    let j = k - c;
    if i < c {
        // left[i] <= left[c - 1] <= right[j] <= right[k - i - 1]
        if j < right.len() {
            if i < c - 1 {
                assert(!Less::holds(left[c - 1], left[i]));
            }
            if k - i - 1 > j {
                assert(!Less::holds(right[k - i - 1], right[j]));
            }
            if i < c - 1 {
                Less::lemma_not_less_transitive(left[i], left[c - 1], right[j]);
            }
            if k - i - 1 > j {
                Less::lemma_not_less_transitive(left[i], right[j], right[k - i - 1]);
            }
        }
    } else {
        if i < left.len() && k - i > 0 {
            // right[k - i - 1] <= right[j - 1] < left[c] <= left[i]
            if k - i - 1 < j - 1 {
                assert(!Less::holds(right[j - 1], right[k - i - 1]));
                lemma_not_less_then_less::<T, Less>(right[k - i - 1], right[j - 1], left[c]);
            }
            if i > c {
                assert(!Less::holds(left[i], left[c]));
                lemma_less_then_not_less::<T, Less>(right[k - i - 1], left[c], left[i]);
            }
        }
    }
}

/// Co-ranks grow by at most one per merged row.
proof fn lemma_co_rank_steps<T, Less: BinaryPredicateOp<T>>(left: Seq<T>, right: Seq<T>, a: int, b: int)
    requires
        0 <= a <= b,
    ensures
        co_rank::<T, Less>(left, right, a) <= co_rank::<T, Less>(left, right, b),
        co_rank::<T, Less>(left, right, b) - co_rank::<T, Less>(left, right, a) <= b - a,
    decreases b - a,
{
    if b > a {
        lemma_co_rank_steps::<T, Less>(left, right, a, b - 1);
    }
}

/// Bisects diagonal `diagonal` between `low` and `high` for its co-rank.
/// A left row at or past `left_end`, or a right row before `right_begin`,
/// counts as not preceding; the window keeps both tests away from rows the
/// bisection visits, so it finds the co-rank of the whole merge.
fn diagonal_split<T: Copy, Less: StrictWeakOrder<T>>(
    left: &Vec<T>,
    right: &Vec<T>,
    diagonal: usize,
    low: usize,
    high: usize,
    left_end: usize,
    right_begin: usize,
) -> (r: usize)
    requires
        sorted_by::<T, Less>(left@),
        sorted_by::<T, Less>(right@),
        diagonal <= left.len() + right.len(),
        diagonal - right.len() <= low <= high <= diagonal,
        high <= left_end <= left.len(),
        right_begin <= diagonal - high,
        low <= co_rank::<T, Less>(left@, right@, diagonal as int) <= high,
    ensures
        r == co_rank::<T, Less>(left@, right@, diagonal as int),
{
    let ghost c = co_rank::<T, Less>(left@, right@, diagonal as int);
    proof {
        lemma_co_rank_valid::<T, Less>(left@, right@, diagonal as int);
    }
    let mut low = low;
    let mut high = high;
    while low < high
        invariant
            sorted_by::<T, Less>(left@),
            sorted_by::<T, Less>(right@),
            diagonal <= left.len() + right.len(),
            diagonal - right.len() <= low <= high <= diagonal,
            high <= left_end <= left.len(),
            right_begin <= diagonal - high,
            low <= c <= high,
            c == co_rank::<T, Less>(left@, right@, diagonal as int),
            valid_split::<T, Less>(left@, right@, diagonal as int, c),
        decreases high - low,
    {
        let left_rank = low + (high - low) / 2;
        let right_rank = diagonal - left_rank;
        proof {
            lemma_precedes_below_split::<T, Less>(left@, right@, diagonal as int, c, left_rank as int);
        }
        if left_rank < left_end && right_rank > right_begin && !Less::apply(right[right_rank - 1], left[left_rank]) {
            low = left_rank + 1;
        } else {
            high = left_rank;
        }
    }
    low
}

/// Stable merge permutation over the concatenated payload `left ++ right`.
pub struct MergeControl {
    permutation: Vec<u32>,
    left_capacity: usize,
    right_capacity: usize,
}

impl MergeControl {
    /// Row indices of `left ++ right` in merged order.
    pub closed spec fn order(&self) -> Seq<u32> {
        self.permutation@
    }

    /// Every entry names a row of `left ++ right`, one entry per row.
    pub closed spec fn well_formed(&self) -> bool {
        &&& self.left_capacity + self.right_capacity <= usize::MAX
        &&& self.permutation@.len() == self.left_capacity + self.right_capacity
        &&& forall|k: int| 0 <= k < self.permutation@.len() ==> #[trigger] self.permutation@[k] < self.permutation@.len()
    }

    /// Rows of the left input the control was made for.
    pub closed spec fn left_len(&self) -> nat {
        self.left_capacity as nat
    }

    /// Rows of the right input the control was made for.
    pub closed spec fn right_len(&self) -> nat {
        self.right_capacity as nat
    }

    /// Row indices of `left ++ right` in merged order.
    pub fn permutation(&self) -> (r: &Vec<u32>)
        ensures
            r@ == self.order(),
    {
        &self.permutation
    }

    pub fn left_capacity(&self) -> (r: usize)
        ensures
            r == self.left_len(),
    {
        self.left_capacity
    }

    pub fn right_capacity(&self) -> (r: usize)
        ensures
            r == self.right_len(),
    {
        self.right_capacity
    }
}

/// The length that a merge of `n` and `m` rows too long for `u32` indices
/// reports.
pub open spec fn merge_length_error(n: nat, m: nat) -> usize {
    if n + m > usize::MAX {
        usize::MAX
    } else if n > u32::MAX {
        n as usize
    } else {
        (n + m) as usize
    }
}

/// The stable merge permutation of two sorted ranges: row `k` of the merge
/// is `left[p[k]]` when `p[k] < left.len()`, else `right[p[k] - left.len()]`;
/// ties take the left row first.
pub fn merge_control<T: Copy, Less: StrictWeakOrder<T>>(left: &Vec<T>, right: &Vec<T>, _less: Less) -> (r: Result<
    MergeControl,
    Error,
>)
    requires
        sorted_by::<T, Less>(left@),
        sorted_by::<T, Less>(right@),
    ensures
        left.len() + right.len() > usize::MAX ==> r == Err::<MergeControl, Error>(
            Error::LengthTooLarge { len: usize::MAX },
        ),
        left.len() + right.len() <= usize::MAX && left.len() + right.len() > 0 && left.len() > u32::MAX
            ==> r == Err::<MergeControl, Error>(Error::LengthTooLarge { len: left.len() }),
        left.len() <= u32::MAX < left.len() + right.len() <= usize::MAX ==> r == Err::<MergeControl, Error>(
            Error::LengthTooLarge { len: (left.len() + right.len()) as usize },
        ),
        left.len() + right.len() <= u32::MAX ==> (r matches Ok(control) && {
            &&& control.well_formed()
            &&& control.order() == merge_order::<T, Less>(left@, right@)
            &&& control.left_len() == left.len()
            &&& control.right_len() == right.len()
        }),
{
    let n = left.len();
    let m = right.len();
    let total = match n.checked_add(m) {
        Some(total) => total,
        None => {
            return Err(Error::LengthTooLarge { len: usize::MAX });
        },
    };
    if total == 0 {
        return Ok(MergeControl { permutation: Vec::new(), left_capacity: n, right_capacity: m });
    }
    // Right rows are encoded after the left rows in 32-bit indices.
    if n > u32::MAX as usize {
        return Err(Error::LengthTooLarge { len: n });
    }
    if total > u32::MAX as usize {
        return Err(Error::LengthTooLarge { len: total });
    }
    let mut permutation: Vec<u32> = Vec::new();
    let mut tile_start: usize = 0;
    while tile_start < total
        invariant
            sorted_by::<T, Less>(left@),
            sorted_by::<T, Less>(right@),
            n == left.len(),
            m == right.len(),
            total == n + m <= u32::MAX,
            tile_start <= total,
            permutation.len() == tile_start,
            forall|k: int| 0 <= k < tile_start ==> #[trigger] permutation[k] == merge_entry::<T, Less>(left@, right@, k),
        decreases total - tile_start,
    {
        let tile_end = if total - tile_start > MERGE_TILE {
            tile_start + MERGE_TILE
        } else {
            total
        };
        let ghost c_start = co_rank::<T, Less>(left@, right@, tile_start as int);
        let ghost c_end = co_rank::<T, Less>(left@, right@, tile_end as int);
        proof {
            lemma_co_rank_valid::<T, Less>(left@, right@, tile_start as int);
            lemma_co_rank_valid::<T, Less>(left@, right@, tile_end as int);
            lemma_co_rank_steps::<T, Less>(left@, right@, tile_start as int, tile_end as int);
        }
        let begin_low = if tile_start > m {
            tile_start - m
        } else {
            0
        };
        let begin_high = if tile_start < n {
            tile_start
        } else {
            n
        };
        let left_begin = diagonal_split::<T, Less>(left, right, tile_start, begin_low, begin_high, n, 0);
        let end_low = if tile_end > m {
            tile_end - m
        } else {
            0
        };
        let end_high = if tile_end < n {
            tile_end
        } else {
            n
        };
        let left_end = diagonal_split::<T, Less>(left, right, tile_end, end_low, end_high, n, 0);
        let right_begin = tile_start - left_begin;
        let left_count = left_end - left_begin;
        let right_count = (tile_end - left_end) - right_begin;
        let tile_len = left_count + right_count;
        let mut lane: usize = 0;
        while lane < MERGE_SIZE
            invariant
                sorted_by::<T, Less>(left@),
                sorted_by::<T, Less>(right@),
                n == left.len(),
                m == right.len(),
                total == n + m <= u32::MAX,
                tile_start < tile_end <= total,
                tile_end - tile_start <= MERGE_TILE,
                left_begin == c_start == co_rank::<T, Less>(left@, right@, tile_start as int),
                left_end == c_end == co_rank::<T, Less>(left@, right@, tile_end as int),
                left_begin <= left_end,
                valid_split::<T, Less>(left@, right@, tile_start as int, left_begin as int),
                valid_split::<T, Less>(left@, right@, tile_end as int, left_end as int),
                right_begin == tile_start - left_begin,
                tile_end - left_end >= right_begin,
                left_count == left_end - left_begin,
                right_count == (tile_end - left_end) - right_begin,
                tile_len == tile_end - tile_start,
                lane <= MERGE_SIZE,
                permutation.len() == if tile_start + lane * MERGE_ITEMS < tile_end {
                    tile_start + lane * MERGE_ITEMS
                } else {
                    tile_end as int
                },
                forall|k: int| 0 <= k < permutation.len() ==> #[trigger] permutation[k] == merge_entry::<T, Less>(
                    left@,
                    right@,
                    k,
                ),
            decreases MERGE_SIZE - lane,
        {
            let local_start = lane * MERGE_ITEMS;
            if local_start < tile_len {
                let local_end = if local_start + MERGE_ITEMS < tile_len {
                    local_start + MERGE_ITEMS
                } else {
                    tile_len
                };
                let diagonal = tile_start + local_start;
                proof {
                    lemma_co_rank_steps::<T, Less>(left@, right@, tile_start as int, diagonal as int);
                    lemma_co_rank_steps::<T, Less>(left@, right@, diagonal as int, tile_end as int);
                }
                let local_low = if local_start > right_count {
                    left_begin + (local_start - right_count)
                } else {
                    left_begin
                };
                let local_high = if local_start < left_count {
                    left_begin + local_start
                } else {
                    left_begin + left_count
                };
                let split = diagonal_split::<T, Less>(left, right, diagonal, local_low, local_high, left_end, right_begin);
                let mut left_rank = split;
                let mut right_rank = diagonal - split;
                let mut cursor = local_start;
                while cursor < local_end
                    invariant
                        sorted_by::<T, Less>(left@),
                        sorted_by::<T, Less>(right@),
                        n == left.len(),
                        m == right.len(),
                        total == n + m <= u32::MAX,
                        tile_start < tile_end <= total,
                        left_end == co_rank::<T, Less>(left@, right@, tile_end as int),
                        left_end <= n,
                        tile_end - left_end <= m,
                        right_begin + right_count == tile_end - left_end,
                        local_start <= cursor <= local_end <= tile_len == tile_end - tile_start,
                        left_rank == co_rank::<T, Less>(left@, right@, (tile_start + cursor) as int),
                        right_rank == tile_start + cursor - left_rank,
                        permutation.len() == tile_start + cursor,
                        forall|k: int| 0 <= k < permutation.len() ==> #[trigger] permutation[k] == merge_entry::<
                            T,
                            Less,
                        >(left@, right@, k),
                    decreases local_end - cursor,
                {
                    let k = tile_start + cursor;
                    proof {
                        lemma_co_rank_steps::<T, Less>(left@, right@, k as int, k + 1);
                        lemma_co_rank_steps::<T, Less>(left@, right@, k + 1, tile_end as int);
                        lemma_co_rank_steps::<T, Less>(left@, right@, k as int, tile_end as int);
                    }
                    let take_left = left_rank < left_end && (right_rank >= right_begin + right_count
                        || !Less::apply(right[right_rank], left[left_rank]));
                    proof {
                        let i = left_rank as int;
                        let j = right_rank as int;
                        let full = takes_left::<T, Less>(left@, right@, i, j);
                        assert(co_rank::<T, Less>(left@, right@, k + 1) == if full { i + 1 } else { i });
                        if i == left_end {
                            assert(!full);
                        } else if j >= right_begin + right_count {
                            assert(full);
                        }
                        assert(take_left == full);
                    }
                    if take_left {
                        permutation.push(left_rank as u32);
                        left_rank = left_rank + 1;
                    } else {
                        permutation.push((n + right_rank) as u32);
                        right_rank = right_rank + 1;
                    }
                    cursor = cursor + 1;
                }
            }
            lane = lane + 1;
        }
        tile_start = tile_end;
    }
    proof {
        assert(permutation@ =~= merge_order::<T, Less>(left@, right@));
        lemma_merge_entries_in_range::<T, Less>(left@, right@);
    }
    Ok(MergeControl { permutation, left_capacity: n, right_capacity: m })
}

/// Every merge entry names a row of `left ++ right`.
proof fn lemma_merge_entries_in_range<T, Less: StrictWeakOrder<T>>(left: Seq<T>, right: Seq<T>)
    requires
        sorted_by::<T, Less>(left),
        sorted_by::<T, Less>(right),
        left.len() + right.len() <= u32::MAX,
    ensures
        forall|k: int| 0 <= k < left.len() + right.len() ==> #[trigger] merge_entry::<T, Less>(left, right, k) < left.len() + right.len(),
{
    assert forall|k: int| 0 <= k < left.len() + right.len() implies #[trigger] merge_entry::<T, Less>(left, right, k) < left.len()
        + right.len() by {
        lemma_co_rank_valid::<T, Less>(left, right, k);
    }
}

/// Gathers `left ++ right` through the control's permutation into `output`.
pub fn merge_apply<T: Copy>(left: &Vec<T>, right: &Vec<T>, control: &MergeControl, output: &mut Vec<T>) -> (r: Result<
    (),
    Error,
>)
    requires
        control.well_formed(),
        left.len() == control.left_len(),
        right.len() == control.right_len(),
    ensures
        old(output).len() < left.len() + right.len() ==> r == Err::<(), Error>(
            Error::OutputTooShort { input: (left.len() + right.len()) as usize, output: old(output).len() },
        ) && final(output)@ == old(output)@,
        old(output).len() >= left.len() + right.len() ==> {
            &&& r is Ok
            &&& final(output).len() == old(output).len()
            &&& forall|k: int| 0 <= k < left.len() + right.len() ==> #[trigger] final(output)[k] == (left@
                + right@)[control.order()[k] as int]
            &&& forall|q: int| left.len() + right.len() <= q < old(output).len() ==> #[trigger] final(output)[q]
                == old(output)[q]
        },
{
    let operation_len = control.permutation.len();
    let output_len = output.len();
    if output_len < operation_len {
        return Err(Error::OutputTooShort { input: operation_len, output: output_len });
    }
    if operation_len == 0 {
        return Ok(());
    }
    let mut combined: Vec<T> = Vec::new();
    let mut i: usize = 0;
    while i < left.len()
        invariant
            i <= left.len(),
            combined@ == left@.subrange(0, i as int),
        decreases left.len() - i,
    {
        combined.push(left[i]);
        i = i + 1;
    }
    let mut j: usize = 0;
    while j < right.len()
        invariant
            j <= right.len(),
            combined@ == left@ + right@.subrange(0, j as int),
        decreases right.len() - j,
    {
        combined.push(right[j]);
        j = j + 1;
    }
    proof {
        assert(left@.subrange(0, left.len() as int) =~= left@);
        assert(right@.subrange(0, right.len() as int) =~= right@);
    }
    permutation_copy(&combined, &control.permutation, None, output)
}

/// Gathers two payloads through a merge control made for inputs of the same
/// lengths.
pub fn apply_fixed<T: Copy>(left: &Vec<T>, right: &Vec<T>, control: &MergeControl, output: &mut Vec<T>) -> (r: Result<
    (),
    Error,
>)
    requires
        control.well_formed(),
        left.len() + right.len() <= usize::MAX,
    ensures
        left.len() != control.left_len() || right.len() != control.right_len() ==> r == Err::<(), Error>(
            Error::LengthMismatch {
                left: (left.len() + right.len()) as usize,
                right: (control.left_len() + control.right_len()) as usize,
            },
        ) && final(output)@ == old(output)@,
        left.len() == control.left_len() && right.len() == control.right_len() ==> {
            &&& old(output).len() < left.len() + right.len() ==> r == Err::<(), Error>(
                Error::OutputTooShort { input: (left.len() + right.len()) as usize, output: old(output).len() },
            ) && final(output)@ == old(output)@
            &&& old(output).len() >= left.len() + right.len() ==> {
                &&& r is Ok
                &&& final(output).len() == old(output).len()
                &&& forall|k: int| 0 <= k < left.len() + right.len() ==> #[trigger] final(output)[k] == (left@
                    + right@)[control.order()[k] as int]
                &&& forall|q: int| left.len() + right.len() <= q < old(output).len() ==> #[trigger] final(output)[q]
                    == old(output)[q]
            }
        },
{
    let left_capacity = left.len();
    let right_capacity = right.len();
    if left_capacity != control.left_capacity || right_capacity != control.right_capacity {
        return Err(Error::LengthMismatch {
            left: left_capacity + right_capacity,
            right: control.left_capacity + control.right_capacity,
        });
    }
    merge_apply(left, right, control, output)
}

/// Stably merges two sorted ranges into `output`: ties keep the left row first.
pub fn merge_direct<T: Copy, Less: StrictWeakOrder<T>>(left: &Vec<T>, right: &Vec<T>, less: Less, output: &mut Vec<
    T,
>) -> (r: Result<(), Error>)
    requires
        sorted_by::<T, Less>(left@),
        sorted_by::<T, Less>(right@),
    ensures
        left.len() + right.len() > u32::MAX ==> r == Err::<(), Error>(
            Error::LengthTooLarge { len: merge_length_error(left.len() as nat, right.len() as nat) },
        ),
        left.len() + right.len() <= u32::MAX && old(output).len() < left.len() + right.len() ==> r == Err::<
            (),
            Error,
        >(Error::OutputTooShort { input: (left.len() + right.len()) as usize, output: old(output).len() }),
        r is Err ==> final(output)@ == old(output)@,
        left.len() + right.len() <= u32::MAX && old(output).len() >= left.len() + right.len() ==> {
            &&& r is Ok
            &&& final(output).len() == old(output).len()
            &&& forall|k: int| 0 <= k < left.len() + right.len() ==> #[trigger] final(output)[k] == (left@
                + right@)[merge_order::<T, Less>(left@, right@)[k] as int]
            &&& forall|q: int| left.len() + right.len() <= q < old(output).len() ==> #[trigger] final(output)[q]
                == old(output)[q]
        },
{
    let control = merge_control(left, right, less)?;
    apply_fixed(left, right, &control, output)
}

/// Merges `left` with the rows of `right` at `right_positions`, in that order.
pub fn merge_direct_selected_right<T: Copy, Less: StrictWeakOrder<T>>(
    left: &Vec<T>,
    right: &Vec<T>,
    right_positions: &Vec<u32>,
    less: Less,
    output: &mut Vec<T>,
) -> (r: Result<(), Error>)
    requires
        forall|p: int| 0 <= p < right_positions.len() ==> #[trigger] right_positions[p] < right.len(),
        sorted_by::<T, Less>(left@),
        sorted_by::<T, Less>(Seq::new(right_positions.len() as nat, |p: int| right[right_positions[p] as int])),
    ensures
        ({
            let selected = Seq::new(right_positions.len() as nat, |p: int| right[right_positions[p] as int]);
            let total = left.len() + right_positions.len();
            &&& total > u32::MAX ==> r == Err::<(), Error>(
                Error::LengthTooLarge {
                    len: merge_length_error(left.len() as nat, right_positions.len() as nat),
                },
            )
            &&& total <= u32::MAX && old(output).len() < total ==> r == Err::<(), Error>(
                Error::OutputTooShort { input: total as usize, output: old(output).len() },
            )
            &&& r is Err ==> final(output)@ == old(output)@
            &&& total <= u32::MAX && old(output).len() >= total ==> {
                &&& r is Ok
                &&& final(output).len() == old(output).len()
                &&& forall|k: int| 0 <= k < total ==> #[trigger] final(output)[k] == (left@ + selected)[merge_order::<
                    T,
                    Less,
                >(left@, selected)[k] as int]
                &&& forall|q: int| total <= q < old(output).len() ==> #[trigger] final(output)[q] == old(output)[q]
            }
        }),
{
    let ghost selected_rows = Seq::new(right_positions.len() as nat, |p: int| right[right_positions[p] as int]);
    let mut selected: Vec<T> = Vec::new();
    let mut p: usize = 0;
    while p < right_positions.len()
        invariant
            forall|p: int| 0 <= p < right_positions.len() ==> #[trigger] right_positions[p] < right.len(),
            p <= right_positions.len(),
            selected@ == selected_rows.subrange(0, p as int),
            selected_rows == Seq::new(right_positions.len() as nat, |p: int| right[right_positions[p] as int]),
        decreases right_positions.len() - p,
    {
        selected.push(right[right_positions[p] as usize]);
        proof {
            assert(selected@ =~= selected_rows.subrange(0, p + 1));
        }
        p = p + 1;
    }
    proof {
        assert(selected@ =~= selected_rows);
    }
    merge_direct(left, &selected, less, output)
}

proof fn lemma_entry_shape<T, Less: StrictWeakOrder<T>>(left: Seq<T>, right: Seq<T>, k: int)
    requires
        sorted_by::<T, Less>(left),
        sorted_by::<T, Less>(right),
        0 <= k < left.len() + right.len(),
        left.len() + right.len() <= u32::MAX,
    ensures
        ({
            let c = co_rank::<T, Less>(left, right, k);
            let take = takes_left::<T, Less>(left, right, c, k - c);
            &&& valid_split::<T, Less>(left, right, k, c)
            &&& co_rank::<T, Less>(left, right, k + 1) == if take { c + 1 } else { c }
            &&& take ==> merge_entry::<T, Less>(left, right, k) == c && c < left.len()
            &&& !take ==> merge_entry::<T, Less>(left, right, k) == left.len() + (k - c) && k - c < right.len()
        }),
{
    lemma_co_rank_valid::<T, Less>(left, right, k);
}

/// The merge of two sorted ranges is their stable interleaving: every row
/// of `left ++ right` occurs exactly once, each input keeps its own order,
/// and a left row comes before a right row exactly when the right row is
/// not less than it.
pub proof fn lemma_merge_is_stable<T, Less: StrictWeakOrder<T>>(left: Seq<T>, right: Seq<T>)
    requires
        sorted_by::<T, Less>(left),
        sorted_by::<T, Less>(right),
        left.len() + right.len() <= u32::MAX,
    ensures
        ({
            let order = merge_order::<T, Less>(left, right);
            let n = left.len() as int;
            let total = left.len() + right.len();
            &&& order.len() == total
            &&& forall|k: int| 0 <= k < total ==> #[trigger] order[k] < total
            &&& forall|p: int, q: int| 0 <= p < total && 0 <= q < total && p != q ==> #[trigger] order[p] != #[trigger] order[q]
            &&& forall|p: int, q: int|
                0 <= p < q < total && order[p] < n && order[q] < n ==> #[trigger] order[p] < #[trigger] order[q]
            &&& forall|p: int, q: int|
                0 <= p < q < total && order[p] >= n && order[q] >= n ==> #[trigger] order[p] < #[trigger] order[q]
            &&& forall|p: int, q: int|
                0 <= p < total && 0 <= q < total && #[trigger] order[p] < n && #[trigger] order[q] >= n ==> (p < q
                    <==> !Less::holds(right[order[q] - n], left[order[p] as int]))
        }),
{
    let order = merge_order::<T, Less>(left, right);
    let n = left.len() as int;
    let total = left.len() + right.len();
    lemma_merge_entries_in_range::<T, Less>(left, right);
    assert forall|p: int, q: int| 0 <= p < total && 0 <= q < total && p != q implies #[trigger] order[p] != #[trigger] order[q] by {
        lemma_entry_shape::<T, Less>(left, right, p);
        lemma_entry_shape::<T, Less>(left, right, q);
        if p < q {
            lemma_co_rank_steps::<T, Less>(left, right, p + 1, q);
        } else {
            lemma_co_rank_steps::<T, Less>(left, right, q + 1, p);
        }
    }
    assert forall|p: int, q: int|
        0 <= p < q < total && order[p] < n && order[q] < n implies #[trigger] order[p] < #[trigger] order[q] by {
        lemma_entry_shape::<T, Less>(left, right, p);
        lemma_entry_shape::<T, Less>(left, right, q);
        lemma_co_rank_steps::<T, Less>(left, right, p + 1, q);
    }
    assert forall|p: int, q: int|
        0 <= p < q < total && order[p] >= n && order[q] >= n implies #[trigger] order[p] < #[trigger] order[q] by {
        lemma_entry_shape::<T, Less>(left, right, p);
        lemma_entry_shape::<T, Less>(left, right, q);
        lemma_co_rank_steps::<T, Less>(left, right, p + 1, q);
    }
    assert forall|p: int, q: int|
        0 <= p < total && 0 <= q < total && #[trigger] order[p] < n && #[trigger] order[q] >= n implies (p < q
            <==> !Less::holds(right[order[q] - n], left[order[p] as int])) by {
        lemma_entry_shape::<T, Less>(left, right, p);
        lemma_entry_shape::<T, Less>(left, right, q);
        let i = co_rank::<T, Less>(left, right, p);
        let cq = co_rank::<T, Less>(left, right, q);
        let j = q - cq;
        assert(order[p] == i);
        assert(order[q] == n + j);
        if p < q {
            lemma_co_rank_steps::<T, Less>(left, right, p + 1, q);
            let jp = p - i;
            assert(jp <= j);
            if jp < j {
                assert(!Less::holds(right[j], right[jp]));
                Less::lemma_not_less_transitive(left[i], right[jp], right[j]);
            }
        } else {
            lemma_co_rank_steps::<T, Less>(left, right, q + 1, p);
            assert(cq <= i);
            if cq < i {
                assert(!Less::holds(left[i], left[cq]));
                lemma_less_then_not_less::<T, Less>(right[j], left[cq], left[i]);
            }
        }
    }
}

/// The rows of `left ++ right` read in merge order.
pub open spec fn merged_rows<T, Less: BinaryPredicateOp<T>>(left: Seq<T>, right: Seq<T>) -> Seq<T> {
    let order = merge_order::<T, Less>(left, right);
    Seq::new(order.len(), |k: int| (left + right)[order[k] as int])
}

/// Merging two sorted ranges gives a sorted range: no merged row is less
/// than an earlier one.
pub proof fn lemma_merged_rows_sorted<T, Less: StrictWeakOrder<T>>(left: Seq<T>, right: Seq<T>)
    requires
        sorted_by::<T, Less>(left),
        sorted_by::<T, Less>(right),
        left.len() + right.len() <= u32::MAX,
    ensures
        merged_rows::<T, Less>(left, right).len() == left.len() + right.len(),
        sorted_by::<T, Less>(merged_rows::<T, Less>(left, right)),
{
    lemma_merge_is_stable::<T, Less>(left, right);
    let order = merge_order::<T, Less>(left, right);
    let rows = merged_rows::<T, Less>(left, right);
    let both = left + right;
    let n = left.len() as int;
    assert forall|p: int, q: int| 0 <= p < q < rows.len() implies !Less::holds(#[trigger] rows[q], #[trigger] rows[p]) by {
        let op = order[p] as int;
        let oq = order[q] as int;
        assert(rows[p] == both[op]);
        assert(rows[q] == both[oq]);
        if op < n && oq < n {
            assert(op < oq);
            assert(!Less::holds(left[oq], left[op]));
        } else if op >= n && oq >= n {
            assert(op < oq);
            assert(!Less::holds(right[oq - n], right[op - n]));
        } else if op < n {
            assert(!Less::holds(right[oq - n], left[op]));
        } else {
            assert(Less::holds(right[op - n], left[oq]));
            Less::lemma_asymmetric(right[op - n], left[oq]);
        }
    }
}

} // verus!
