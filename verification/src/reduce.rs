//! Multi-pass tile reductions.
//!
//! Each pass reduces tiles of 256 lanes x 32 positions into one partial per
//! tile.  Lane `u` folds the positions `u, u + 256, u + 512, ...` of its
//! tile; every plane of lanes then reduces with a shuffle tree, and the
//! first plane gathers and reduces the plane results.  Passes repeat over
//! the partials until one tile remains, and the final pass combines the
//! caller's initial value in front of the result.
//!
//! Every row is combined exactly once, but the lanes and the trees meet the
//! rows out of order: the result is the fold of the rows in some order that
//! depends on the device's plane width, which for a commutative operation
//! is the fold in row order.
use vstd::prelude::*;
use vstd::seq_lib::{lemma_no_dup_in_concat, seq_to_set_distributes_over_add};

use crate::fold::{
    fold1, fold_range, lemma_fold1_concat, lemma_fold_range_extend, lemma_seeded_prefix_split,
    seeded_prefix,
};
use crate::lanes::{
    block_positions, first_positions, fold_halves, is_plane_width, lane_positions,
    lemma_fold_halves_union, lemma_lane_plane, lemma_lane_step, lemma_plane_count,
    lemma_plane_member, lemma_plane_span, lemma_residue, lemma_spread_disjoint,
    lemma_spread_union, lemma_union_range_contains, plane_of, plane_positions, spread,
    union_range, well_spread,
};
use crate::ops::{CommutativeOp, ReductionOp};

verus! {

/// Lanes of one block.
pub const BLOCK_SIZE: usize = 256;

/// Positions that one lane folds.
pub const ITEMS_PER_UNIT: usize = 32;

/// Positions covered by one block.
pub const TILE_SIZE: usize = 8192;

/// Plane width of the modelled device.
pub const PLANE_WIDTH: usize = 32;

/// The rows of `s` at `rows`, in that order.
pub open spec fn rows_at<T>(s: Seq<T>, rows: Seq<int>) -> Seq<T> {
    rows.map_values(|r: int| s[r])
}

/// `rows` lists every row `0..n` exactly once.
pub open spec fn is_row_order(rows: Seq<int>, n: int) -> bool {
    &&& rows.no_duplicates()
    &&& forall|k: int| 0 <= k < rows.len() ==> 0 <= #[trigger] rows[k] < n
    &&& forall|i: int| 0 <= i < n ==> #[trigger] rows.contains(i)
}

/// What a reduction of `s` from `init` may return: `init` followed by every
/// row, in some order.
pub open spec fn reduces_to<T, Op: ReductionOp<T>>(init: T, s: Seq<T>, r: T) -> bool {
    exists|rows: Seq<int>|
        is_row_order(rows, s.len() as int) && r == fold1::<T, Op>(seq![init] + rows_at(s, rows))
}

proof fn lemma_fold_moves_last<T, Op: CommutativeOp<T>>(a: Seq<T>, x: T, b: Seq<T>)
    requires
        a.len() + b.len() > 0,
    ensures
        fold1::<T, Op>(a + seq![x] + b) == Op::combine(fold1::<T, Op>(a + b), x),
{
    if b.len() == 0 {
        assert(a + seq![x] + b =~= a + seq![x]);
        assert(a + b =~= a);
        lemma_fold1_concat::<T, Op>(a, seq![x]);
    } else if a.len() == 0 {
        assert(a + seq![x] + b =~= seq![x] + b);
        assert(a + b =~= b);
        lemma_fold1_concat::<T, Op>(seq![x], b);
        Op::lemma_commutative(x, fold1::<T, Op>(b));
    } else {
        lemma_fold1_concat::<T, Op>(a + seq![x], b);
        lemma_fold1_concat::<T, Op>(a, seq![x]);
        lemma_fold1_concat::<T, Op>(a, b);
        Op::lemma_associative(fold1::<T, Op>(a), x, fold1::<T, Op>(b));
        Op::lemma_commutative(x, fold1::<T, Op>(b));
        Op::lemma_associative(fold1::<T, Op>(a), fold1::<T, Op>(b), x);
    }
}

/// Folding the rows `0..n` in any order gives their fold in row order, when
/// the operation commutes.
proof fn lemma_commutative_order<T, Op: CommutativeOp<T>>(s: Seq<T>, rows: Seq<int>, n: int)
    requires
        0 < n <= s.len(),
        is_row_order(rows, n),
    ensures
        rows.len() > 0,
        fold1::<T, Op>(rows_at(s, rows)) == fold_range::<T, Op>(s, 0, n),
    decreases n,
{
    assert(rows.contains(n - 1));
    let k = rows.index_of(n - 1);
    let a = rows.subrange(0, k);
    let b = rows.subrange(k + 1, rows.len() as int);
    assert(rows =~= a + seq![n - 1] + b);
    assert(rows_at(s, rows) =~= rows_at(s, a) + seq![s[n - 1]] + rows_at(s, b));
    let rest = a + b;
    assert(rest.no_duplicates()) by {
        assert forall|i: int, j: int| 0 <= i < j < rest.len() implies rest[i] != rest[j] by {
            let ii = if i < k { i } else { i + 1 };
            let jj = if j < k { j } else { j + 1 };
            assert(rest[i] == rows[ii] && rest[j] == rows[jj]);
        }
    }
    assert forall|q: int| 0 <= q < rest.len() implies 0 <= #[trigger] rest[q] < n - 1 by {
        let qq = if q < k { q } else { q + 1 };
        assert(rest[q] == rows[qq]);
        assert(rows[qq] != rows[k]);
    }
    assert forall|i: int| 0 <= i < n - 1 implies #[trigger] rest.contains(i) by {
        assert(rows.contains(i));
        let j = rows.index_of(i);
        assert(j != k);
        if j < k {
            assert(rest[j] == i);
        } else {
            assert(rest[j - 1] == i);
        }
    }
    if n == 1 {
        assert(rest.len() == 0) by {
            if rest.len() > 0 {
                let q = 0int;
                assert(0 <= rest[q] < n - 1);
            }
        }
        assert(rows_at(s, rows) =~= seq![s[0]]);
    } else {
        lemma_commutative_order::<T, Op>(s, rest, n - 1);
        assert(rows_at(s, rest) =~= rows_at(s, a) + rows_at(s, b));
        lemma_fold_moves_last::<T, Op>(rows_at(s, a), s[n - 1], rows_at(s, b));
        lemma_fold_range_extend::<T, Op>(s, 0, n - 1);
    }
}

/// For a commutative operation, a reduction is the fold of `init` and the
/// rows in row order.
pub proof fn lemma_commutative_reduction<T, Op: CommutativeOp<T>>(init: T, s: Seq<T>, r: T)
    requires
        reduces_to::<T, Op>(init, s, r),
    ensures
        r == seeded_prefix::<T, Op>(init, s, s.len() as int),
{
    let rows = choose|rows: Seq<int>|
        is_row_order(rows, s.len() as int) && r == fold1::<T, Op>(seq![init] + rows_at(s, rows));
    if s.len() == 0 {
        assert(rows.len() == 0) by {
            if rows.len() > 0 {
                assert(0 <= rows[0] < 0);
            }
        }
        assert(seq![init] + rows_at(s, rows) =~= seq![init]);
        assert(seq![init] + s.subrange(0, 0) =~= seq![init]);
    } else {
        lemma_commutative_order::<T, Op>(s, rows, s.len() as int);
        lemma_fold1_concat::<T, Op>(seq![init], rows_at(s, rows));
        lemma_seeded_prefix_split::<T, Op>(init, s, s.len() as int);
    }
}


/// A lane's running value; `value` is meaningful only when `valid`.
pub struct Partial<T> {
    pub value: T,
    pub valid: bool,
}

impl<T: Copy> Clone for Partial<T> {
    fn clone(&self) -> (r: Self)
        ensures
            r == *self,
    {
        Partial { value: self.value, valid: self.valid }
    }
}

impl<T: Copy> Copy for Partial<T> {
}

/// `acc` folds the rows behind `positions` in the order `rows`, or is
/// invalid and there are none.
pub open spec fn carries<T, Op: ReductionOp<T>>(
    s: Seq<T>,
    sets: Seq<Set<int>>,
    positions: Set<int>,
    acc: Partial<T>,
    rows: Seq<int>,
) -> bool {
    &&& acc.valid ==> rows.len() > 0 && acc.value == fold1::<T, Op>(rows_at(s, rows))
    &&& !acc.valid ==> rows.len() == 0
    &&& rows.no_duplicates()
    &&& rows.to_set() == spread(sets, positions)
}

/// Position `p < n` of a pass holds `entries[p]`, the fold of the rows
/// `sets[p]` in the order `orders[p]`.
pub open spec fn pass_ready<T, Op: ReductionOp<T>>(
    s: Seq<T>,
    entries: Seq<T>,
    sets: Seq<Set<int>>,
    orders: Seq<Seq<int>>,
    n: int,
) -> bool {
    &&& entries.len() == n
    &&& sets.len() == n
    &&& orders.len() == n
    &&& well_spread(sets, s.len())
    &&& forall|p: int|
        0 <= p < n ==> {
            &&& (#[trigger] orders[p]).len() > 0
            &&& orders[p].no_duplicates()
            &&& orders[p].to_set() == sets[p]
            &&& entries[p] == fold1::<T, Op>(rows_at(s, orders[p]))
        }
}

/// End of the tile that starts at `bs` among `n` positions.
pub open spec fn tile_end(bs: int, n: int) -> int {
    if n < bs + TILE_SIZE {
        n
    } else {
        bs + TILE_SIZE
    }
}

/// Combines two partials of disjoint positions; an invalid side is skipped.
fn merge_partials<T: Copy, Op: ReductionOp<T>>(
    lhs: Partial<T>,
    rhs: Partial<T>,
    Ghost(s): Ghost<Seq<T>>,
    Ghost(sets): Ghost<Seq<Set<int>>>,
    Ghost(a): Ghost<Set<int>>,
    Ghost(b): Ghost<Set<int>>,
    Ghost(rows_l): Ghost<Seq<int>>,
    Ghost(rows_r): Ghost<Seq<int>>,
) -> (r: Partial<T>)
    requires
        well_spread(sets, s.len()),
        a.disjoint(b),
        carries::<T, Op>(s, sets, a, lhs, rows_l),
        carries::<T, Op>(s, sets, b, rhs, rows_r),
    ensures
        carries::<T, Op>(s, sets, a + b, r, rows_l + rows_r),
{
    proof {
        lemma_spread_disjoint(sets, s.len(), a, b);
        lemma_spread_union(sets, a, b);
        seq_to_set_distributes_over_add(rows_l, rows_r);
        assert forall|i: int, j: int|
            0 <= i < rows_l.len() && 0 <= j < rows_r.len() implies rows_l[i] != rows_r[j] by {
            assert(rows_l.to_set().contains(rows_l[i]));
            assert(rows_r.to_set().contains(rows_r[j]));
        }
        lemma_no_dup_in_concat(rows_l, rows_r);
        assert(rows_at(s, rows_l + rows_r) =~= rows_at(s, rows_l) + rows_at(s, rows_r));
        if rows_l.len() == 0 {
            assert(rows_l + rows_r =~= rows_r);
        }
        if rows_r.len() == 0 {
            assert(rows_l + rows_r =~= rows_l);
        }
        if lhs.valid && rhs.valid {
            lemma_fold1_concat::<T, Op>(rows_at(s, rows_l), rows_at(s, rows_r));
        }
    }
    if rhs.valid {
        if lhs.valid {
            Partial { value: Op::apply(lhs.value, rhs.value), valid: true }
        } else {
            rhs
        }
    } else {
        lhs
    }
}

proof fn lemma_single_position<T, Op: ReductionOp<T>>(
    s: Seq<T>,
    entries: Seq<T>,
    sets: Seq<Set<int>>,
    orders: Seq<Seq<int>>,
    n: int,
    p: int,
)
    requires
        pass_ready::<T, Op>(s, entries, sets, orders, n),
        0 <= p < n,
    ensures
        carries::<T, Op>(s, sets, set![p], Partial { value: entries[p], valid: true }, orders[p]),
{
    assert(orders[p].len() > 0);
    assert forall|x: int| sets[p].contains(x) implies spread(sets, set![p]).contains(x) by {
        assert(set![p].contains(p));
    }
    assert(spread(sets, set![p]) =~= sets[p]);
}

/// Lane `u` of the tile starting at `bs` folds its positions
/// `bs + u, bs + u + 256, ...` in ascending order.
fn lane_partial<T: Copy, Op: ReductionOp<T>>(
    entries: &Vec<T>,
    Ghost(s): Ghost<Seq<T>>,
    Ghost(sets): Ghost<Seq<Set<int>>>,
    Ghost(orders): Ghost<Seq<Seq<int>>>,
    bs: usize,
    u: usize,
) -> (r: (Partial<T>, Ghost<Seq<int>>))
    requires
        pass_ready::<T, Op>(s, entries@, sets, orders, entries.len() as int),
        bs < entries.len(),
        u < BLOCK_SIZE,
    ensures
        carries::<T, Op>(
            s,
            sets,
            lane_positions(bs as int, tile_end(bs as int, entries.len() as int), u as int),
            r.0,
            r.1@,
        ),
{
    let n = entries.len();
    let ghost be = tile_end(bs as int, n as int);
    let rest = n - bs;
    let valid = u < rest;
    let safe = if valid {
        bs + u
    } else {
        n - 1
    };
    let mut acc = Partial { value: entries[safe], valid };
    let ghost mut rows: Seq<int> = if valid {
        orders[bs + u]
    } else {
        Seq::empty()
    };
    let ghost mut cover: Set<int> = if valid {
        set![bs + u]
    } else {
        Set::empty()
    };
    proof {
        if valid {
            lemma_single_position::<T, Op>(s, entries@, sets, orders, n as int, (bs + u) as int);
        } else {
            assert(spread(sets, cover) =~= Set::<int>::empty());
            assert(rows.to_set() =~= Set::<int>::empty());
        }
        assert forall|p: int| #[trigger]
            cover.contains(p) <==> (bs <= p < be && p < bs + 256 && (p - bs) % 256 == u) by {
            if bs <= p < bs + 256 {
                lemma_lane_step(p - bs, 0);
            }
        }
    }
    let mut item: usize = 1;
    while item < ITEMS_PER_UNIT
        invariant
            n == entries.len(),
            pass_ready::<T, Op>(s, entries@, sets, orders, n as int),
            be == tile_end(bs as int, n as int),
            bs < n,
            rest == n - bs,
            u < BLOCK_SIZE,
            1 <= item <= ITEMS_PER_UNIT,
            carries::<T, Op>(s, sets, cover, acc, rows),
            forall|p: int| #[trigger]
                cover.contains(p) <==> (bs <= p < be && p < bs + item * 256 && (p - bs) % 256
                    == u),
        decreases ITEMS_PER_UNIT - item,
    {
        let offset = u + item * BLOCK_SIZE;
        let ghost next = Set::new(
            |p: int| bs <= p < be && p < bs + (item + 1) * 256 && (p - bs) % 256 == u,
        );
        if offset < rest {
            let index = bs + offset;
            let ghost single = set![index as int];
            proof {
                lemma_single_position::<T, Op>(s, entries@, sets, orders, n as int, index as int);
                assert(!cover.contains(index as int));
                assert(cover.disjoint(single));
            }
            let other = Partial { value: entries[index], valid: true };
            acc = merge_partials::<T, Op>(
                acc,
                other,
                Ghost(s),
                Ghost(sets),
                Ghost(cover),
                Ghost(single),
                Ghost(rows),
                Ghost(orders[index as int]),
            );
            proof {
                assert forall|p: int| #[trigger] next.contains(p) <==> (cover + single).contains(p) by {
                    if bs + item * 256 <= p < bs + (item + 1) * 256 {
                        lemma_lane_step(p - bs, item as int);
                    }
                }
                rows = rows + orders[index as int];
                cover = cover + single;
            }
        } else {
            proof {
                assert forall|p: int| #[trigger] next.contains(p) <==> cover.contains(p) by {
                    if bs + item * 256 <= p < bs + (item + 1) * 256 {
                        lemma_lane_step(p - bs, item as int);
                    }
                }
            }
        }
        proof {
            assert(cover =~= next);
        }
        item = item + 1;
    }
    proof {
        assert(cover =~= lane_positions(bs as int, be, u as int));
    }
    (acc, Ghost(rows))
}


/// Halving step of the shuffle tree on the row orders.
pub open spec fn join_halves(rows: Seq<Seq<int>>, start: int, half: int) -> Seq<Seq<int>> {
    Seq::new(
        rows.len(),
        |m: int|
            if start <= m < start + half {
                rows[m] + rows[m + half]
            } else {
                rows[m]
            },
    )
}

/// Shuffle-down tree over the lanes `start..start + width`: in each round
/// lane `l` below the offset combines lane `l + offset` on its right.
fn partial_tree<T: Copy, Op: ReductionOp<T>>(
    acc: &mut Vec<Partial<T>>,
    start: usize,
    width: usize,
    Ghost(s): Ghost<Seq<T>>,
    Ghost(sets): Ghost<Seq<Set<int>>>,
    Ghost(covers): Ghost<Seq<Set<int>>>,
    Ghost(rows): Ghost<Seq<Seq<int>>>,
) -> (r: Ghost<Seq<int>>)
    requires
        well_spread(sets, s.len()),
        is_plane_width(width as int),
        start + width <= old(acc).len(),
        covers.len() == old(acc).len(),
        rows.len() == old(acc).len(),
        forall|l: int|
            start <= l < start + width ==> carries::<T, Op>(
                s,
                sets,
                covers[l],
                #[trigger] old(acc)[l],
                rows[l],
            ),
        forall|l: int, m: int|
            start <= l < start + width && start <= m < start + width && l != m
                ==> #[trigger] covers[l].disjoint(#[trigger] covers[m]),
    ensures
        final(acc).len() == old(acc).len(),
        carries::<T, Op>(
            s,
            sets,
            union_range(covers, start as int, start + width),
            final(acc)[start as int],
            r@,
        ),
        forall|l: int|
            0 <= l < old(acc).len() && !(start <= l < start + width) ==> #[trigger] final(acc)[l]
                == old(acc)[l],
{
    let ghost mut c = covers;
    let ghost mut rw = rows;
    let mut w = width;
    while w > 1
        invariant
            well_spread(sets, s.len()),
            is_plane_width(w as int),
            w <= width,
            start + width <= acc.len(),
            acc.len() == old(acc).len(),
            c.len() == acc.len(),
            rw.len() == acc.len(),
            forall|l: int|
                start <= l < start + w ==> carries::<T, Op>(s, sets, c[l], #[trigger] acc[l], rw[l]),
            forall|l: int, m: int|
                start <= l < start + w && start <= m < start + w && l != m
                    ==> #[trigger] c[l].disjoint(#[trigger] c[m]),
            union_range(c, start as int, start + w) =~= union_range(
                covers,
                start as int,
                start + width,
            ),
            forall|l: int|
                0 <= l < acc.len() && !(start <= l < start + width) ==> #[trigger] acc[l]
                    == old(acc)[l],
        decreases w,
    {
        let half = w / 2;
        let ghost next = fold_halves(c, start as int, half as int);
        let ghost next_rows = join_halves(rw, start as int, half as int);
        let mut l = start;
        while l < start + half
            invariant
                well_spread(sets, s.len()),
                is_plane_width(w as int),
                w == 2 * half,
                w <= width,
                start + width <= acc.len(),
                acc.len() == old(acc).len(),
                c.len() == acc.len(),
                rw.len() == acc.len(),
                next == fold_halves(c, start as int, half as int),
                next_rows == join_halves(rw, start as int, half as int),
                start <= l <= start + half,
                forall|m: int|
                    start <= m < l ==> carries::<T, Op>(
                        s,
                        sets,
                        next[m],
                        #[trigger] acc[m],
                        next_rows[m],
                    ),
                forall|m: int|
                    l <= m < start + w ==> carries::<T, Op>(s, sets, c[m], #[trigger] acc[m], rw[m]),
                forall|m: int, k: int|
                    start <= m < start + w && start <= k < start + w && m != k
                        ==> #[trigger] c[m].disjoint(#[trigger] c[k]),
                forall|m: int|
                    0 <= m < acc.len() && !(start <= m < start + width) ==> #[trigger] acc[m]
                        == old(acc)[m],
            decreases start + half - l,
        {
            assert(c[l as int].disjoint(c[l + half]));
            let merged = merge_partials::<T, Op>(
                acc[l],
                acc[l + half],
                Ghost(s),
                Ghost(sets),
                Ghost(c[l as int]),
                Ghost(c[l + half]),
                Ghost(rw[l as int]),
                Ghost(rw[l + half]),
            );
            acc.set(l, merged);
            l = l + 1;
        }
        proof {
            lemma_fold_halves_union(c, start as int, half as int);
            assert forall|m: int, k: int|
                start <= m < start + half && start <= k < start + half && m != k implies #[trigger] next[m].disjoint(
                #[trigger] next[k],
            ) by {
                assert(c[m].disjoint(c[k]));
                assert(c[m].disjoint(c[k + half]));
                assert(c[m + half].disjoint(c[k]));
                assert(c[m + half].disjoint(c[k + half]));
            }
            c = next;
            rw = next_rows;
        }
        w = half;
    }
    proof {
        assert(union_range(c, start as int, start + 1) =~= c[start as int]) by {
            assert(union_range(c, start as int, start as int) =~= Set::<int>::empty());
        }
    }
    Ghost(rw[start as int])
}


/// Lane `l` of the first plane gathers the plane results `l`, `l + pd`,
/// `l + 2 pd`, ..., skipping the planes that hold nothing.
fn stride_partial<T: Copy, Op: ReductionOp<T>>(
    planes: &Vec<Partial<T>>,
    l: usize,
    pd: usize,
    Ghost(s): Ghost<Seq<T>>,
    Ghost(sets): Ghost<Seq<Set<int>>>,
    Ghost(plane_rows): Ghost<Seq<Seq<int>>>,
    Ghost(bs): Ghost<int>,
    Ghost(be): Ghost<int>,
) -> (r: (Partial<T>, Ghost<Set<int>>, Ghost<Seq<int>>))
    requires
        well_spread(sets, s.len()),
        is_plane_width(pd as int),
        0 <= bs < be <= sets.len(),
        planes.len() == 256int / (pd as int),
        plane_rows.len() == planes.len(),
        l < pd,
        forall|q: int|
            0 <= q < planes.len() ==> carries::<T, Op>(
                s,
                sets,
                plane_positions(bs, be, pd as int, q),
                #[trigger] planes[q],
                plane_rows[q],
            ),
    ensures
        carries::<T, Op>(s, sets, r.1@, r.0, r.2@),
        forall|p: int|
            #[trigger] r.1@.contains(p) ==> bs <= p < be && plane_of(bs, pd as int, p) % (pd as int)
                == l,
        forall|q: int, p: int|
            0 <= q < planes.len() && q % (pd as int) == l && #[trigger] plane_positions(
                bs,
                be,
                pd as int,
                q,
            ).contains(p) ==> r.1@.contains(p),
{
    let ghost pdi = pd as int;
    let plane_count = planes.len();
    let mut acc = if l < plane_count {
        planes[l]
    } else {
        Partial { value: planes[0].value, valid: false }
    };
    let ghost mut cover: Set<int> = if l < plane_count {
        plane_positions(bs, be, pdi, l as int)
    } else {
        Set::empty()
    };
    let ghost mut rows: Seq<int> = if l < plane_count {
        plane_rows[l as int]
    } else {
        Seq::empty()
    };
    proof {
        lemma_plane_count(pdi);
        if l >= plane_count {
            assert(spread(sets, cover) =~= Set::<int>::empty());
            assert(rows.to_set() =~= Set::<int>::empty());
        } else {
            lemma_residue(pdi, l as int, 0);
            assert forall|p: int| #[trigger] cover.contains(p) implies plane_of(bs, pdi, p) == l by {
                lemma_plane_member(bs, be, pdi, l as int, p);
            }
        }
    }
    let mut cursor = l + pd;
    let ghost mut m: int = 1;
    while cursor < plane_count
        invariant
            well_spread(sets, s.len()),
            is_plane_width(pdi),
            pdi == pd,
            0 <= bs < be <= sets.len(),
            plane_count == planes.len() == 256int / pdi,
            plane_rows.len() == planes.len(),
            l < pd,
            forall|q: int|
                0 <= q < planes.len() ==> carries::<T, Op>(
                    s,
                    sets,
                    plane_positions(bs, be, pdi, q),
                    #[trigger] planes[q],
                    plane_rows[q],
                ),
            m >= 1,
            cursor == l + m * pdi,
            carries::<T, Op>(s, sets, cover, acc, rows),
            forall|p: int|
                #[trigger] cover.contains(p) ==> bs <= p < be && plane_of(bs, pdi, p) % pdi == l
                    && plane_of(bs, pdi, p) < cursor,
            forall|k: int, p: int|
                0 <= k < m && l + k * pdi < plane_count && #[trigger] plane_positions(
                    bs,
                    be,
                    pdi,
                    l + k * pdi,
                ).contains(p) ==> cover.contains(p),
        decreases plane_count + pd - cursor,
    {
        let ghost added = plane_positions(bs, be, pdi, cursor as int);
        proof {
            lemma_plane_count(pdi);
            lemma_residue(pdi, l as int, m);
            assert(cover.disjoint(added)) by {
                assert forall|p: int| cover.contains(p) implies !added.contains(p) by {
                    if added.contains(p) {
                        lemma_plane_member(bs, be, pdi, cursor as int, p);
                    }
                }
            }
        }
        acc = merge_partials::<T, Op>(
            acc,
            planes[cursor],
            Ghost(s),
            Ghost(sets),
            Ghost(cover),
            Ghost(added),
            Ghost(rows),
            Ghost(plane_rows[cursor as int]),
        );
        proof {
            assert forall|p: int| #[trigger] added.contains(p) implies plane_of(bs, pdi, p) == cursor by {
                lemma_plane_member(bs, be, pdi, cursor as int, p);
            }
            cover = cover + added;
            rows = rows + plane_rows[cursor as int];
            m = m + 1;
            assert((l + m * pdi) == cursor + pdi) by (nonlinear_arith)
                requires
                    cursor == l + (m - 1) * pdi,
            ;
        }
        cursor = cursor + pd;
    }
    proof {
        lemma_plane_count(pdi);
        assert forall|q: int, p: int|
            0 <= q < planes.len() && q % pdi == l && #[trigger] plane_positions(
                bs,
                be,
                pdi,
                q,
            ).contains(p) implies cover.contains(p) by {
            let k = q / pdi;
            vstd::arithmetic::div_mod::lemma_fundamental_div_mod(q, pdi);
            assert(q == l + k * pdi) by (nonlinear_arith)
                requires
                    q == pdi * (q / pdi) + q % pdi,
                    q % pdi == l,
                    k == q / pdi,
            ;
            vstd::arithmetic::div_mod::lemma_div_pos_is_pos(q, pdi);
            assert(k < m) by {
                if k >= m {
                    vstd::arithmetic::mul::lemma_mul_inequality(m, k, pdi);
                }
            }
        }
    }
    (acc, Ghost(cover), Ghost(rows))
}

/// One tile of a pass: every lane folds its strided positions, every plane
/// reduces its lanes with the shuffle tree, and the first plane gathers and
/// reduces the plane results.  (Full tiles skip the validity checks, which
/// then always pass.)
fn block_partial<T: Copy, Op: ReductionOp<T>>(
    entries: &Vec<T>,
    Ghost(s): Ghost<Seq<T>>,
    Ghost(sets): Ghost<Seq<Set<int>>>,
    Ghost(orders): Ghost<Seq<Seq<int>>>,
    bs: usize,
    plane_dim: usize,
) -> (r: (Partial<T>, Ghost<Seq<int>>))
    requires
        pass_ready::<T, Op>(s, entries@, sets, orders, entries.len() as int),
        bs < entries.len(),
        is_plane_width(plane_dim as int),
    ensures
        carries::<T, Op>(
            s,
            sets,
            block_positions(bs as int, tile_end(bs as int, entries.len() as int)),
            r.0,
            r.1@,
        ),
{
    let n = entries.len();
    let ghost be = tile_end(bs as int, n as int);
    let ghost lanes = Seq::new(256, |u: int| lane_positions(bs as int, be, u));
    let ghost pdi = plane_dim as int;
    let pd = plane_dim;
    let mut acc: Vec<Partial<T>> = Vec::new();
    let ghost mut lane_rows: Seq<Seq<int>> = Seq::empty();
    let mut u: usize = 0;
    while u < BLOCK_SIZE
        invariant
            n == entries.len(),
            pass_ready::<T, Op>(s, entries@, sets, orders, n as int),
            be == tile_end(bs as int, n as int),
            lanes == Seq::new(256, |u: int| lane_positions(bs as int, be, u)),
            bs < n,
            u <= BLOCK_SIZE,
            acc.len() == u,
            lane_rows.len() == u,
            forall|k: int|
                0 <= k < u ==> carries::<T, Op>(s, sets, lanes[k], #[trigger] acc[k], lane_rows[k]),
        decreases BLOCK_SIZE - u,
    {
        let (c, Ghost(rows)) = lane_partial::<T, Op>(
            entries,
            Ghost(s),
            Ghost(sets),
            Ghost(orders),
            bs,
            u,
        );
        acc.push(c);
        proof {
            lane_rows = lane_rows.push(rows);
        }
        u = u + 1;
    }
    let plane_count = (BLOCK_SIZE + pd - 1) / pd;
    proof {
        lemma_plane_count(pdi);
    }
    let ghost mut plane_rows: Seq<Seq<int>> = Seq::empty();
    let mut q: usize = 0;
    while q < plane_count
        invariant
            n == entries.len(),
            pass_ready::<T, Op>(s, entries@, sets, orders, n as int),
            be == tile_end(bs as int, n as int),
            lanes == Seq::new(256, |u: int| lane_positions(bs as int, be, u)),
            bs < n,
            is_plane_width(pdi),
            pdi == pd,
            plane_count == 256int / pdi,
            q <= plane_count,
            acc.len() == BLOCK_SIZE,
            lane_rows.len() == BLOCK_SIZE,
            plane_rows.len() == q,
            forall|k: int|
                q * pdi <= k < 256 ==> carries::<T, Op>(
                    s,
                    sets,
                    lanes[k],
                    #[trigger] acc[k],
                    lane_rows[k],
                ),
            forall|k: int|
                0 <= k < q ==> carries::<T, Op>(
                    s,
                    sets,
                    plane_positions(bs as int, be, pdi, k),
                    #[trigger] acc[k * pdi],
                    plane_rows[k],
                ),
        decreases plane_count - q,
    {
        proof {
            lemma_plane_span(pdi, q as int);
            lemma_plane_count(pdi);
            assert forall|a: int, b: int|
                q * pdi <= a < q * pdi + pdi && q * pdi <= b < q * pdi + pdi && a != b implies #[trigger] lanes[a].disjoint(
                #[trigger] lanes[b],
            ) by {}
            assert((q + 1) * pdi == q * pdi + pdi) by (nonlinear_arith);
        }
        let ghost before = acc@;
        let Ghost(rows) = partial_tree::<T, Op>(
            &mut acc,
            q * pd,
            pd,
            Ghost(s),
            Ghost(sets),
            Ghost(lanes),
            Ghost(lane_rows),
        );
        proof {
            let lo = q * pdi;
            let hi = lo + pdi;
            assert(union_range(lanes, lo, hi) =~= plane_positions(bs as int, be, pdi, q as int))
                by {
                assert forall|x: int| #[trigger]
                    union_range(lanes, lo, hi).contains(x) <==> plane_positions(
                        bs as int,
                        be,
                        pdi,
                        q as int,
                    ).contains(x) by {
                    lemma_union_range_contains(lanes, lo, hi, x);
                    if plane_positions(bs as int, be, pdi, q as int).contains(x) {
                        assert(lanes[(x - bs) % 256].contains(x));
                    }
                }
            }
            plane_rows = plane_rows.push(rows);
            assert forall|k: int| 0 <= k < q + 1 implies carries::<T, Op>(
                s,
                sets,
                plane_positions(bs as int, be, pdi, k),
                #[trigger] acc[k * pdi],
                plane_rows[k],
            ) by {
                if k < q {
                    vstd::arithmetic::mul::lemma_mul_inequality(k + 1, q as int, pdi);
                    assert((k + 1) * pdi == k * pdi + pdi) by (nonlinear_arith);
                    assert(0 <= k * pdi) by (nonlinear_arith)
                        requires
                            0 <= k,
                            0 < pdi,
                    ;
                    assert(acc[k * pdi] == before[k * pdi]);
                }
            }
        }
        q = q + 1;
    }
    let mut planes: Vec<Partial<T>> = Vec::new();
    let mut q: usize = 0;
    while q < plane_count
        invariant
            is_plane_width(pdi),
            pdi == pd,
            plane_count == 256int / pdi,
            q <= plane_count,
            acc.len() == BLOCK_SIZE,
            planes.len() == q,
            forall|k: int| 0 <= k < q ==> #[trigger] planes[k] == acc[k * pdi],
        decreases plane_count - q,
    {
        proof {
            lemma_plane_span(pdi, q as int);
        }
        planes.push(acc[q * pd]);
        q = q + 1;
    }
    let mut gathered: Vec<Partial<T>> = Vec::new();
    let ghost mut covers: Seq<Set<int>> = Seq::empty();
    let ghost mut gathered_rows: Seq<Seq<int>> = Seq::empty();
    let mut l: usize = 0;
    while l < pd
        invariant
            n == entries.len(),
            pass_ready::<T, Op>(s, entries@, sets, orders, n as int),
            be == tile_end(bs as int, n as int),
            bs < n,
            is_plane_width(pdi),
            pdi == pd,
            plane_count == 256int / pdi,
            planes.len() == plane_count,
            plane_rows.len() == plane_count,
            forall|k: int|
                0 <= k < plane_count ==> carries::<T, Op>(
                    s,
                    sets,
                    plane_positions(bs as int, be, pdi, k),
                    #[trigger] planes[k],
                    plane_rows[k],
                ),
            l <= pd,
            gathered.len() == l,
            covers.len() == l,
            gathered_rows.len() == l,
            forall|k: int|
                0 <= k < l ==> carries::<T, Op>(
                    s,
                    sets,
                    covers[k],
                    #[trigger] gathered[k],
                    gathered_rows[k],
                ),
            forall|k: int, p: int|
                0 <= k < l && #[trigger] covers[k].contains(p) ==> bs <= p < be && plane_of(
                    bs as int,
                    pdi,
                    p,
                ) % pdi == k,
            forall|k: int, p: int|
                0 <= k < plane_count && k % pdi < l && #[trigger] plane_positions(
                    bs as int,
                    be,
                    pdi,
                    k,
                ).contains(p) ==> covers[k % pdi].contains(p),
        decreases pd - l,
    {
        let (c, Ghost(cover), Ghost(rows)) = stride_partial::<T, Op>(
            &planes,
            l,
            pd,
            Ghost(s),
            Ghost(sets),
            Ghost(plane_rows),
            Ghost(bs as int),
            Ghost(be),
        );
        gathered.push(c);
        proof {
            covers = covers.push(cover);
            gathered_rows = gathered_rows.push(rows);
        }
        l = l + 1;
    }
    proof {
        assert forall|a: int, b: int| 0 <= a < pdi && 0 <= b < pdi && a != b implies #[trigger] covers[a].disjoint(
            #[trigger] covers[b],
        ) by {
            assert forall|p: int| covers[a].contains(p) implies !covers[b].contains(p) by {}
        }
    }
    let Ghost(rows) = partial_tree::<T, Op>(
        &mut gathered,
        0,
        pd,
        Ghost(s),
        Ghost(sets),
        Ghost(covers),
        Ghost(gathered_rows),
    );
    proof {
        let block = block_positions(bs as int, be);
        assert forall|x: int| #[trigger]
            union_range(covers, 0, pdi).contains(x) <==> block.contains(x) by {
            lemma_union_range_contains(covers, 0, pdi, x);
            if block.contains(x) {
                let lane = (x - bs) % 256;
                vstd::arithmetic::div_mod::lemma_mod_pos_bound(x - bs, 256);
                lemma_lane_plane(pdi, lane);
                let k = lane / pdi;
                assert(plane_positions(bs as int, be, pdi, k).contains(x));
                vstd::arithmetic::div_mod::lemma_mod_pos_bound(k, pdi);
                assert(covers[k % pdi].contains(x));
            }
        }
        assert(union_range(covers, 0, pdi) =~= block);
    }
    (gathered[0], Ghost(rows))
}


/// Number of tiles of one pass over `n` positions.
pub open spec fn pass_blocks(n: int) -> int {
    if n % (TILE_SIZE as int) == 0 {
        n / (TILE_SIZE as int)
    } else {
        n / (TILE_SIZE as int) + 1
    }
}

/// What partial `b` of a pass holds: the fold of its rows `order`, with the
/// initial value in front on the final pass.
pub open spec fn partial_value<T, Op: ReductionOp<T>>(
    s: Seq<T>,
    init: Option<T>,
    order: Seq<int>,
) -> T {
    match init {
        Some(v) => Op::combine(v, fold1::<T, Op>(rows_at(s, order))),
        None => fold1::<T, Op>(rows_at(s, order)),
    }
}

/// One pass: tile `b` writes the fold of its positions
/// `b * TILE_SIZE .. (b + 1) * TILE_SIZE`, which position `b` stands for in
/// the next pass; the final pass (a single tile) combines `init` in front.
fn reduce_pass<T: Copy, Op: ReductionOp<T>>(
    entries: &Vec<T>,
    Ghost(s): Ghost<Seq<T>>,
    Ghost(sets): Ghost<Seq<Set<int>>>,
    Ghost(orders): Ghost<Seq<Seq<int>>>,
    init: Option<T>,
    plane_dim: usize,
) -> (r: (Vec<T>, Ghost<Seq<Set<int>>>, Ghost<Seq<Seq<int>>>))
    requires
        pass_ready::<T, Op>(s, entries@, sets, orders, entries.len() as int),
        entries.len() > 0,
        is_plane_width(plane_dim as int),
        init is Some ==> pass_blocks(entries.len() as int) == 1,
    ensures
        r.0.len() == pass_blocks(entries.len() as int),
        r.1@.len() == r.0.len(),
        r.2@.len() == r.0.len(),
        well_spread(r.1@, s.len()),
        forall|b: int|
            0 <= b < r.0.len() ==> {
                &&& (#[trigger] r.2@[b]).len() > 0
                &&& r.2@[b].no_duplicates()
                &&& r.2@[b].to_set() == r.1@[b]
                &&& r.0[b] == partial_value::<T, Op>(s, init, r.2@[b])
            },
        spread(r.1@, first_positions(r.0.len() as int)) =~= spread(
            sets,
            first_positions(entries.len() as int),
        ),
{
    let n = entries.len();
    let tile = TILE_SIZE;
    let blocks = if n % tile == 0 {
        n / tile
    } else {
        n / tile + 1
    };
    let mut out: Vec<T> = Vec::new();
    let ghost mut next: Seq<Set<int>> = Seq::empty();
    let ghost mut next_orders: Seq<Seq<int>> = Seq::empty();
    let mut b: usize = 0;
    proof {
        vstd::arithmetic::div_mod::lemma_fundamental_div_mod(n as int, TILE_SIZE as int);
    }
    while b < blocks
        invariant
            n == entries.len(),
            pass_ready::<T, Op>(s, entries@, sets, orders, n as int),
            n > 0,
            is_plane_width(plane_dim as int),
            blocks == pass_blocks(n as int),
            tile == TILE_SIZE,
            n == TILE_SIZE * (n / TILE_SIZE) + n % TILE_SIZE,
            b <= blocks,
            out.len() == b,
            next.len() == b,
            next_orders.len() == b,
            forall|k: int|
                0 <= k < b ==> #[trigger] next[k] == spread(
                    sets,
                    block_positions(k * TILE_SIZE, tile_end(k * TILE_SIZE, n as int)),
                ),
            forall|k: int|
                0 <= k < b ==> {
                    &&& (#[trigger] next_orders[k]).len() > 0
                    &&& next_orders[k].no_duplicates()
                    &&& next_orders[k].to_set() == next[k]
                    &&& out[k] == partial_value::<T, Op>(s, init, next_orders[k])
                },
        decreases blocks - b,
    {
        proof {
            vstd::arithmetic::div_mod::lemma_mod_pos_bound(n as int, TILE_SIZE as int);
            assert(b * TILE_SIZE < n) by (nonlinear_arith)
                requires
                    n == TILE_SIZE * (n / TILE_SIZE) + n % TILE_SIZE,
                    0 <= n % TILE_SIZE < TILE_SIZE,
                    b < blocks,
                    n % TILE_SIZE == 0 ==> blocks == n / TILE_SIZE,
                    n % TILE_SIZE != 0 ==> blocks == n / TILE_SIZE + 1,
            ;
        }
        let bs = b * tile;
        let (c, Ghost(rows)) = block_partial::<T, Op>(
            entries,
            Ghost(s),
            Ghost(sets),
            Ghost(orders),
            bs,
            plane_dim,
        );
        proof {
            let block = block_positions(bs as int, tile_end(bs as int, n as int));
            assert(block.contains(bs as int));
            assert(orders[bs as int].len() > 0);
            let x = orders[bs as int][0];
            assert(orders[bs as int].to_set().contains(x));
            assert(spread(sets, block).contains(x));
            assert(rows.to_set().contains(x));
            next = next.push(spread(sets, block));
            next_orders = next_orders.push(rows);
        }
        let value = match init {
            Some(v) => Op::apply(v, c.value),
            None => c.value,
        };
        out.push(value);
        b = b + 1;
    }
    proof {
        assert forall|p: int, x: int| 0 <= p < next.len() && #[trigger] next[p].contains(x) implies 0
            <= x < s.len() by {
            let q = choose|q: int|
                #![trigger sets[q].contains(x)]
                block_positions(p * TILE_SIZE, tile_end(p * TILE_SIZE, n as int)).contains(q) && 0
                    <= q < sets.len() && sets[q].contains(x);
        }
        assert forall|p: int, q: int|
            0 <= p < next.len() && 0 <= q < next.len() && p != q implies #[trigger] next[p].disjoint(
            #[trigger] next[q],
        ) by {
            let bp = block_positions(p * TILE_SIZE, tile_end(p * TILE_SIZE, n as int));
            let bq = block_positions(q * TILE_SIZE, tile_end(q * TILE_SIZE, n as int));
            assert(bp.disjoint(bq)) by {
                if p < q {
                    vstd::arithmetic::mul::lemma_mul_inequality(p + 1, q, TILE_SIZE as int);
                } else {
                    vstd::arithmetic::mul::lemma_mul_inequality(q + 1, p, TILE_SIZE as int);
                }
            }
            lemma_spread_disjoint(sets, s.len(), bp, bq);
        }
        assert forall|p: int| 0 <= p < next.len() implies !(#[trigger] next[p]).is_empty() by {
            assert(next_orders[p].to_set().contains(next_orders[p][0]));
        }
        assert forall|x: int| #[trigger]
            spread(next, first_positions(blocks as int)).contains(x) <==> spread(
                sets,
                first_positions(n as int),
            ).contains(x) by {
            if spread(next, first_positions(blocks as int)).contains(x) {
                let k = choose|k: int|
                    #![trigger next[k].contains(x)]
                    first_positions(blocks as int).contains(k) && 0 <= k < next.len()
                        && next[k].contains(x);
                let q = choose|q: int|
                    #![trigger sets[q].contains(x)]
                    block_positions(k * TILE_SIZE, tile_end(k * TILE_SIZE, n as int)).contains(q)
                        && 0 <= q < sets.len() && sets[q].contains(x);
                assert(first_positions(n as int).contains(q));
            }
            if spread(sets, first_positions(n as int)).contains(x) {
                let q = choose|q: int|
                    #![trigger sets[q].contains(x)]
                    first_positions(n as int).contains(q) && 0 <= q < sets.len() && sets[q].contains(
                        x,
                    );
                let k = q / (TILE_SIZE as int);
                vstd::arithmetic::div_mod::lemma_fundamental_div_mod(q, TILE_SIZE as int);
                vstd::arithmetic::div_mod::lemma_mod_pos_bound(q, TILE_SIZE as int);
                vstd::arithmetic::div_mod::lemma_div_pos_is_pos(q, TILE_SIZE as int);
                assert(k < blocks) by {
                    vstd::arithmetic::div_mod::lemma_div_is_ordered(q, n as int, TILE_SIZE as int);
                    vstd::arithmetic::div_mod::lemma_fundamental_div_mod(n as int, TILE_SIZE as int);
                }
                assert(block_positions(k * TILE_SIZE, tile_end(k * TILE_SIZE, n as int)).contains(q));
                assert(next[k].contains(x));
            }
        }
    }
    (out, Ghost(next), Ghost(next_orders))
}


/// The rows behind the final single partial form a row order of `s`.
proof fn lemma_final_order<T, Op: ReductionOp<T>>(
    s: Seq<T>,
    init: T,
    sets: Seq<Set<int>>,
    orders: Seq<Seq<int>>,
    value: T,
)
    requires
        s.len() > 0,
        sets.len() == 1,
        orders.len() == 1,
        orders[0].len() > 0,
        orders[0].no_duplicates(),
        orders[0].to_set() == sets[0],
        spread(sets, first_positions(1)) =~= first_positions(s.len() as int),
        value == Op::combine(init, fold1::<T, Op>(rows_at(s, orders[0]))),
    ensures
        reduces_to::<T, Op>(init, s, value),
{
    let rows = orders[0];
    assert(first_positions(1).contains(0));
    assert forall|x: int| sets[0].contains(x) <==> first_positions(s.len() as int).contains(x) by {
        if sets[0].contains(x) {
            assert(spread(sets, first_positions(1)).contains(x));
        }
        if first_positions(s.len() as int).contains(x) {
            assert(spread(sets, first_positions(1)).contains(x));
            let p = choose|p: int|
                #![trigger sets[p].contains(x)]
                first_positions(1).contains(p) && 0 <= p < sets.len() && sets[p].contains(x);
        }
    }
    assert forall|k: int| 0 <= k < rows.len() implies 0 <= #[trigger] rows[k] < s.len() by {
        assert(rows.to_set().contains(rows[k]));
    }
    assert forall|i: int| 0 <= i < s.len() implies #[trigger] rows.contains(i) by {
        assert(rows.to_set().contains(i));
    }
    lemma_fold1_concat::<T, Op>(seq![init], rows_at(s, rows));
    assert(is_row_order(rows, s.len() as int));
}

/// Reduces every row of `input` starting from `init`, on a device whose
/// planes have `plane_dim` lanes: the result is the fold of `init` followed
/// by every row in an order that the lanes and trees determine, so for a
/// commutative operation `init op input[0] op ... op input[n - 1]`
/// (see [`lemma_commutative_reduction`]); `init` for an empty input.
pub fn reduce_planes<T: Copy, Op: ReductionOp<T>>(
    input: &Vec<T>,
    init: T,
    _op: Op,
    plane_dim: usize,
) -> (r: T)
    requires
        is_plane_width(plane_dim as int),
    ensures
        reduces_to::<T, Op>(init, input@, r),
        input.len() == 0 ==> r == init,
{
    let n = input.len();
    let ghost s = input@;
    if n == 0 {
        proof {
            let rows = Seq::<int>::empty();
            assert(seq![init] + rows_at(s, rows) =~= seq![init]);
            assert(is_row_order(rows, 0));
        }
        return init;
    }
    let ghost sets = Seq::new(n as nat, |p: int| set![p]);
    let ghost orders = Seq::new(n as nat, |p: int| seq![p]);
    proof {
        assert forall|p: int| 0 <= p < n implies {
            &&& (#[trigger] orders[p]).len() > 0
            &&& orders[p].no_duplicates()
            &&& orders[p].to_set() == sets[p]
            &&& input@[p] == fold1::<T, Op>(rows_at(s, orders[p]))
        } by {
            assert(orders[p][0] == p);
            assert(orders[p].to_set().contains(p));
            assert(orders[p].to_set() =~= set![p]);
            assert(rows_at(s, orders[p]) =~= seq![s[p]]);
        }
        assert forall|p: int| 0 <= p < sets.len() implies !(#[trigger] sets[p]).is_empty() by {
            assert(sets[p].contains(p));
        }
        assert forall|x: int| #[trigger]
            spread(sets, first_positions(n as int)).contains(x) <==> first_positions(
                n as int,
            ).contains(x) by {
            if first_positions(n as int).contains(x) {
                assert(sets[x].contains(x));
            }
        }
    }
    let tile = TILE_SIZE;
    let final_pass = n <= tile;
    proof {
        vstd::arithmetic::div_mod::lemma_fundamental_div_mod(n as int, TILE_SIZE as int);
        if n <= TILE_SIZE {
            if n < TILE_SIZE {
                vstd::arithmetic::div_mod::lemma_small_mod(n as nat, TILE_SIZE as nat);
            }
        }
    }
    let (partials, Ghost(next_sets), Ghost(next_orders)) = reduce_pass::<T, Op>(
        input,
        Ghost(s),
        Ghost(sets),
        Ghost(orders),
        if final_pass {
            Some(init)
        } else {
            None
        },
        plane_dim,
    );
    if final_pass {
        proof {
            lemma_final_order::<T, Op>(s, init, next_sets, next_orders, partials[0]);
        }
        return partials[0];
    }
    let mut current = partials;
    let ghost mut current_sets = next_sets;
    let ghost mut current_orders = next_orders;
    loop
        invariant
            s == input@,
            s.len() == n > 0,
            n == input.len(),
            is_plane_width(plane_dim as int),
            tile == TILE_SIZE,
            current.len() > 1,
            pass_ready::<T, Op>(s, current@, current_sets, current_orders, current.len() as int),
            spread(current_sets, first_positions(current.len() as int)) =~= first_positions(
                n as int,
            ),
        decreases current.len(),
    {
        let len = current.len();
        let last_pass = len <= tile;
        proof {
            vstd::arithmetic::div_mod::lemma_fundamental_div_mod(len as int, TILE_SIZE as int);
            if len < TILE_SIZE {
                vstd::arithmetic::div_mod::lemma_small_mod(len as nat, TILE_SIZE as nat);
            }
        }
        let (next, Ghost(sets2), Ghost(orders2)) = reduce_pass::<T, Op>(
            &current,
            Ghost(s),
            Ghost(current_sets),
            Ghost(current_orders),
            if last_pass {
                Some(init)
            } else {
                None
            },
            plane_dim,
        );
        if last_pass {
            proof {
                lemma_final_order::<T, Op>(s, init, sets2, orders2, next[0]);
            }
            return next[0];
        }
        proof {
            assert(pass_ready::<T, Op>(s, next@, sets2, orders2, next.len() as int));
        }
        current = next;
        proof {
            current_sets = sets2;
            current_orders = orders2;
        }
    }
}

/// [`reduce_planes`] on the modelled device's plane width.
pub fn reduce<T: Copy, Op: ReductionOp<T>>(input: &Vec<T>, init: T, op: Op) -> (r: T)
    ensures
        reduces_to::<T, Op>(init, input@, r),
        input.len() == 0 ==> r == init,
{
    reduce_planes(input, init, op, PLANE_WIDTH)
}

} // verus!
