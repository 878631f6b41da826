//! Index-sideband reductions: the position of the row that an operator
//! prefers over all others (first minimum, first maximum, ...).
//!
//! Candidates always reach the operator in ascending index order, so an
//! operator decides ties by position with one comparison.  Given the two
//! transitivity laws of [`ArgReductionOp`], every set of rows has exactly one
//! winner, and merging the winners of two disjoint sets gives the winner of
//! their union; the block tree below relies on nothing else.
use vstd::prelude::*;

use crate::eval::DeviceExpr;
use crate::lanes::{
    block_positions, first_positions, fold_halves, is_plane_width, lane_positions,
    lemma_fold_halves_union, lemma_in_plane, lemma_lane_plane, lemma_lane_step,
    lemma_plane_count, lemma_plane_empty, lemma_plane_member, lemma_plane_span, lemma_residue,
    lemma_spread_disjoint, lemma_spread_empty, lemma_spread_union, lemma_union_range_contains,
    plane_of, plane_positions, spread, union_range, well_spread,
};

verus! {

/// Chooses one of two rows presented in ascending index order.
pub trait ArgReductionOp<Item> {
    /// Whether the later row `rhs` wins over the earlier row `lhs`.
    spec fn prefers_rhs(lhs: Item, rhs: Item) -> bool;

    /// A later row that beats a middle row which beats an earlier one beats
    /// the earlier one too.
    proof fn lemma_prefers_transitive(a: Item, b: Item, c: Item)
        requires
            Self::prefers_rhs(a, b),
            Self::prefers_rhs(b, c),
        ensures
            Self::prefers_rhs(a, c),
    ;

    /// Keeping the earlier row is transitive as well.
    proof fn lemma_keeps_transitive(a: Item, b: Item, c: Item)
        requires
            !Self::prefers_rhs(a, b),
            !Self::prefers_rhs(b, c),
        ensures
            !Self::prefers_rhs(a, c),
    ;

    fn rhs_wins(lhs: Item, rhs: Item) -> (r: bool)
        ensures
            r == Self::prefers_rhs(lhs, rhs),
    ;
}

/// Selects the first minimum of `u32` rows.
pub struct MinIndex;

impl ArgReductionOp<u32> for MinIndex {
    open spec fn prefers_rhs(lhs: u32, rhs: u32) -> bool {
        rhs < lhs
    }

    proof fn lemma_prefers_transitive(a: u32, b: u32, c: u32) {
    }

    proof fn lemma_keeps_transitive(a: u32, b: u32, c: u32) {
    }

    fn rhs_wins(lhs: u32, rhs: u32) -> (r: bool) {
        rhs < lhs
    }
}

/// Selects the last maximum of `u32` rows.
pub struct LastMaxIndex;

impl ArgReductionOp<u32> for LastMaxIndex {
    open spec fn prefers_rhs(lhs: u32, rhs: u32) -> bool {
        rhs >= lhs
    }

    proof fn lemma_prefers_transitive(a: u32, b: u32, c: u32) {
    }

    proof fn lemma_keeps_transitive(a: u32, b: u32, c: u32) {
    }

    fn rhs_wins(lhs: u32, rhs: u32) -> (r: bool) {
        rhs >= lhs
    }
}

/// `w` is the winner of the rows of `v` at the positions in `s`: it beats
/// every earlier position and no later position beats it.
pub open spec fn is_winner<Item, Op: ArgReductionOp<Item>>(v: Seq<Item>, s: Set<int>, w: int) -> bool {
    &&& s.contains(w)
    &&& forall|i: int| #[trigger] s.contains(i) && i < w ==> Op::prefers_rhs(v[i], v[w])
    &&& forall|j: int| #[trigger] s.contains(j) && w < j ==> !Op::prefers_rhs(v[w], v[j])
}

/// The winner of two distinct positions.
pub open spec fn select<Item, Op: ArgReductionOp<Item>>(v: Seq<Item>, a: int, b: int) -> int {
    if a < b {
        if Op::prefers_rhs(v[a], v[b]) {
            b
        } else {
            a
        }
    } else {
        if Op::prefers_rhs(v[b], v[a]) {
            a
        } else {
            b
        }
    }
}

/// A set of rows has at most one winner.
pub proof fn lemma_winner_unique<Item, Op: ArgReductionOp<Item>>(
    v: Seq<Item>,
    s: Set<int>,
    a: int,
    b: int,
)
    requires
        is_winner::<Item, Op>(v, s, a),
        is_winner::<Item, Op>(v, s, b),
    ensures
        a == b,
{
    if a < b {
        assert(s.contains(b) && a < b);
    } else if b < a {
        assert(s.contains(a) && b < a);
    }
}

/// Merging the winners of two disjoint sets gives the winner of their union.
pub proof fn lemma_winner_union<Item, Op: ArgReductionOp<Item>>(
    v: Seq<Item>,
    sa: Set<int>,
    sb: Set<int>,
    a: int,
    b: int,
)
    requires
        sa.disjoint(sb),
        is_winner::<Item, Op>(v, sa, a),
        is_winner::<Item, Op>(v, sb, b),
    ensures
        is_winner::<Item, Op>(v, sa + sb, select::<Item, Op>(v, a, b)),
{
    assert(a != b) by {
        assert(sa.contains(a) && sb.contains(b));
    }
    if a < b {
        lemma_ordered_union::<Item, Op>(v, sa, sb, a, b);
    } else {
        lemma_ordered_union::<Item, Op>(v, sb, sa, b, a);
        assert(sb + sa =~= sa + sb);
    }
}

proof fn lemma_ordered_union<Item, Op: ArgReductionOp<Item>>(
    v: Seq<Item>,
    sa: Set<int>,
    sb: Set<int>,
    a: int,
    b: int,
)
    requires
        a < b,
        is_winner::<Item, Op>(v, sa, a),
        is_winner::<Item, Op>(v, sb, b),
    ensures
        is_winner::<Item, Op>(v, sa + sb, select::<Item, Op>(v, a, b)),
{
    let u = sa + sb;
    if Op::prefers_rhs(v[a], v[b]) {
        assert forall|i: int| #[trigger] u.contains(i) && i < b implies Op::prefers_rhs(
            v[i],
            v[b],
        ) by {
            if sa.contains(i) && i != a {
                if i < a {
                    Op::lemma_prefers_transitive(v[i], v[a], v[b]);
                } else {
                    // a < i: i does not beat a, while b does.
                    if !Op::prefers_rhs(v[i], v[b]) {
                        Op::lemma_keeps_transitive(v[a], v[i], v[b]);
                    }
                }
            }
        }
        assert forall|j: int| #[trigger] u.contains(j) && b < j implies !Op::prefers_rhs(
            v[b],
            v[j],
        ) by {
            if sa.contains(j) {
                // a < b < j, j does not beat a.
                if Op::prefers_rhs(v[b], v[j]) {
                    Op::lemma_prefers_transitive(v[a], v[b], v[j]);
                }
            }
        }
    } else {
        assert forall|i: int| #[trigger] u.contains(i) && i < a implies Op::prefers_rhs(
            v[i],
            v[a],
        ) by {
            if sb.contains(i) {
                // i < a < b: b beats i but not a.
                if !Op::prefers_rhs(v[i], v[a]) {
                    Op::lemma_keeps_transitive(v[i], v[a], v[b]);
                }
            }
        }
        assert forall|j: int| #[trigger] u.contains(j) && a < j implies !Op::prefers_rhs(
            v[a],
            v[j],
        ) by {
            if sb.contains(j) && j != b {
                if j < b {
                    if Op::prefers_rhs(v[a], v[j]) {
                        Op::lemma_prefers_transitive(v[a], v[j], v[b]);
                    }
                } else {
                    Op::lemma_keeps_transitive(v[a], v[b], v[j]);
                }
            }
        }
    }
}

/// The rows `0..len` of an expression.
pub open spec fn rows<Item, InputExpr: DeviceExpr<Item>>(input: &InputExpr, len: nat) -> Seq<Item> {
    Seq::new(len, |i: int| input.item_at(i))
}

/// A lane's running choice: `index` is meaningful only when `valid`.
#[derive(Clone, Copy)]
pub struct Candidate {
    pub index: u32,
    pub valid: bool,
}

/// `c` holds the winner of the positions `s`, or is invalid and `s` empty.
pub open spec fn represents<Item, Op: ArgReductionOp<Item>>(
    v: Seq<Item>,
    s: Set<int>,
    c: Candidate,
) -> bool {
    &&& c.valid ==> is_winner::<Item, Op>(v, s, c.index as int)
    &&& !c.valid ==> s =~= Set::<int>::empty()
    &&& forall|i: int| #[trigger] s.contains(i) ==> 0 <= i < v.len()
}

/// Merges two candidates of disjoint position sets, as one shuffle step
/// of the device tree does.
fn merge<Item, InputExpr: DeviceExpr<Item>, Op: ArgReductionOp<Item>>(
    input: &InputExpr,
    Ghost(len): Ghost<nat>,
    lhs: Candidate,
    rhs: Candidate,
    Ghost(sa): Ghost<Set<int>>,
    Ghost(sb): Ghost<Set<int>>,
) -> (r: Candidate)
    requires
        len <= u32::MAX,
        forall|i: int| 0 <= i < len ==> input.defined_at(i),
        sa.disjoint(sb),
        represents::<Item, Op>(rows(input, len), sa, lhs),
        represents::<Item, Op>(rows(input, len), sb, rhs),
    ensures
        represents::<Item, Op>(rows(input, len), sa + sb, r),
{
    let ghost v = rows(input, len);
    if !rhs.valid {
        assert(sa + sb =~= sa);
        lhs
    } else if !lhs.valid {
        assert(sa + sb =~= sb);
        rhs
    } else {
        proof {
            lemma_winner_union::<Item, Op>(v, sa, sb, lhs.index as int, rhs.index as int);
            assert(sa.contains(lhs.index as int) && sb.contains(rhs.index as int));
        }
        let l = lhs.index as usize;
        let r = rhs.index as usize;
        if l < r {
            if Op::rhs_wins(input.eval(l), input.eval(r)) {
                rhs
            } else {
                lhs
            }
        } else {
            if !Op::rhs_wins(input.eval(r), input.eval(l)) {
                rhs
            } else {
                lhs
            }
        }
    }
}

/// Lanes of one block.
pub const BLOCK_SIZE: usize = 256;

/// Positions that one lane folds before the tree.
pub const ITEMS_PER_UNIT: usize = 256;

/// Positions covered by one block.
pub const TILE_SIZE: usize = 65536;

/// `c` represents the rows behind the positions `positions`.
pub open spec fn holds<Item, Op: ArgReductionOp<Item>>(
    v: Seq<Item>,
    sets: Seq<Set<int>>,
    positions: Set<int>,
    c: Candidate,
) -> bool {
    represents::<Item, Op>(v, spread(sets, positions), c)
}

/// Merges two candidates of disjoint position sets.
fn merge_positions<Item, InputExpr: DeviceExpr<Item>, Op: ArgReductionOp<Item>>(
    input: &InputExpr,
    Ghost(len): Ghost<nat>,
    Ghost(sets): Ghost<Seq<Set<int>>>,
    lhs: Candidate,
    rhs: Candidate,
    Ghost(a): Ghost<Set<int>>,
    Ghost(b): Ghost<Set<int>>,
) -> (r: Candidate)
    requires
        len <= u32::MAX,
        forall|i: int| 0 <= i < len ==> input.defined_at(i),
        well_spread(sets, len),
        a.disjoint(b),
        holds::<Item, Op>(rows(input, len), sets, a, lhs),
        holds::<Item, Op>(rows(input, len), sets, b, rhs),
    ensures
        holds::<Item, Op>(rows(input, len), sets, a + b, r),
{
    proof {
        lemma_spread_disjoint(sets, len, a, b);
        lemma_spread_union(sets, a, b);
    }
    merge::<Item, InputExpr, Op>(
        input,
        Ghost(len),
        lhs,
        rhs,
        Ghost(spread(sets, a)),
        Ghost(spread(sets, b)),
    )
}

/// Shuffle-down tree over the lanes `start..start + width`: afterwards lane
/// `start` holds the winner of all their covers.
fn plane_tree<Item, InputExpr: DeviceExpr<Item>, Op: ArgReductionOp<Item>>(
    input: &InputExpr,
    Ghost(len): Ghost<nat>,
    Ghost(sets): Ghost<Seq<Set<int>>>,
    acc: &mut Vec<Candidate>,
    start: usize,
    width: usize,
    Ghost(covers): Ghost<Seq<Set<int>>>,
)
    requires
        len <= u32::MAX,
        forall|i: int| 0 <= i < len ==> input.defined_at(i),
        well_spread(sets, len),
        is_plane_width(width as int),
        start + width <= old(acc).len(),
        covers.len() == old(acc).len(),
        forall|l: int|
            start <= l < start + width ==> holds::<Item, Op>(
                rows(input, len),
                sets,
                covers[l],
                #[trigger] old(acc)[l],
            ),
        forall|l: int, m: int|
            start <= l < start + width && start <= m < start + width && l != m
                ==> #[trigger] covers[l].disjoint(#[trigger] covers[m]),
    ensures
        final(acc).len() == old(acc).len(),
        holds::<Item, Op>(
            rows(input, len),
            sets,
            union_range(covers, start as int, start + width),
            final(acc)[start as int],
        ),
        forall|l: int|
            0 <= l < old(acc).len() && !(start <= l < start + width) ==> #[trigger] final(acc)[l]
                == old(acc)[l],
{
    let ghost v = rows(input, len);
    let ghost c = covers;
    let mut w = width;
    while w > 1
        invariant
            len <= u32::MAX,
            forall|i: int| 0 <= i < len ==> input.defined_at(i),
            well_spread(sets, len),
            v == rows(input, len),
            is_plane_width(w as int),
            w <= width,
            start + width <= acc.len(),
            acc.len() == old(acc).len(),
            c.len() == acc.len(),
            forall|l: int|
                start <= l < start + w ==> holds::<Item, Op>(v, sets, c[l], #[trigger] acc[l]),
            forall|l: int, m: int|
                start <= l < start + w && start <= m < start + w && l != m
                    ==> #[trigger] c[l].disjoint(#[trigger] c[m]),
            union_range(c, start as int, start + w) =~= union_range(
                covers,
                start as int,
                start + width,
            ),
            forall|l: int|
                0 <= l < acc.len() && !(start <= l < start + width) ==> #[trigger] acc[l]
                    == old(acc)[l],
        decreases w,
    {
        let half = w / 2;
        let ghost next = fold_halves(c, start as int, half as int);
        let mut l = start;
        while l < start + half
            invariant
                len <= u32::MAX,
                forall|i: int| 0 <= i < len ==> input.defined_at(i),
                well_spread(sets, len),
                v == rows(input, len),
                is_plane_width(w as int),
                w == 2 * half,
                w <= width,
                start + width <= acc.len(),
                acc.len() == old(acc).len(),
                c.len() == acc.len(),
                next == fold_halves(c, start as int, half as int),
                start <= l <= start + half,
                forall|m: int|
                    start <= m < l ==> holds::<Item, Op>(v, sets, next[m], #[trigger] acc[m]),
                forall|m: int|
                    l <= m < start + w ==> holds::<Item, Op>(v, sets, c[m], #[trigger] acc[m]),
                forall|m: int, k: int|
                    start <= m < start + w && start <= k < start + w && m != k
                        ==> #[trigger] c[m].disjoint(#[trigger] c[k]),
                forall|m: int|
                    0 <= m < acc.len() && !(start <= m < start + width) ==> #[trigger] acc[m]
                        == old(acc)[m],
            decreases start + half - l,
        {
            assert(c[l as int].disjoint(c[l + half]));
            let merged = merge_positions::<Item, InputExpr, Op>(
                input,
                Ghost(len),
                Ghost(sets),
                acc[l],
                acc[l + half],
                Ghost(c[l as int]),
                Ghost(c[l + half]),
            );
            acc.set(l, merged);
            l = l + 1;
        }
        proof {
            lemma_fold_halves_union(c, start as int, half as int);
            assert forall|m: int, k: int|
                start <= m < start + half && start <= k < start + half && m != k implies #[trigger] next[m].disjoint(
                #[trigger] next[k],
            ) by {
                assert(c[m].disjoint(c[k]));
                assert(c[m].disjoint(c[k + half]));
                assert(c[m + half].disjoint(c[k]));
                assert(c[m + half].disjoint(c[k + half]));
            }
            c = next;
        }
        w = half;
    }
    proof {
        assert(union_range(c, start as int, start + 1) =~= c[start as int]) by {
            assert(union_range(c, start as int, start as int) =~= Set::<int>::empty());
        }
    }
}

/// End of the block that starts at `bs` among `n` positions.
pub open spec fn block_end(bs: int, n: int) -> int {
    if n < bs + TILE_SIZE {
        n
    } else {
        bs + TILE_SIZE
    }
}

/// The candidate row of position `p`: the position itself on the first
/// pass, the partial written for it afterwards.
pub open spec fn entry(entries: Option<&Vec<u32>>, p: int) -> int {
    match entries {
        Some(e) => e@[p] as int,
        None => p,
    }
}

/// Every position `p < n` stands for the winner `entry(p)` of `sets[p]`.
pub open spec fn pass_ready<Item, Op: ArgReductionOp<Item>>(
    v: Seq<Item>,
    entries: Option<&Vec<u32>>,
    sets: Seq<Set<int>>,
    n: int,
) -> bool {
    &&& sets.len() == n
    &&& n <= u32::MAX
    &&& well_spread(sets, v.len())
    &&& forall|p: int| 0 <= p < n ==> is_winner::<Item, Op>(v, #[trigger] sets[p], entry(entries, p))
    &&& entries matches Some(e) ==> e.len() == n
}

fn entry_at(entries: Option<&Vec<u32>>, p: usize) -> (r: u32)
    requires
        p <= u32::MAX,
        entries matches Some(e) ==> p < e.len(),
    ensures
        r == entry(entries, p as int),
{
    match entries {
        Some(e) => e[p],
        None => p as u32,
    }
}

proof fn lemma_singleton_winner<Item, Op: ArgReductionOp<Item>>(
    v: Seq<Item>,
    sets: Seq<Set<int>>,
    p: int,
    w: int,
)
    requires
        0 <= p < sets.len(),
        is_winner::<Item, Op>(v, sets[p], w),
    ensures
        spread(sets, set![p]) =~= sets[p],
        is_winner::<Item, Op>(v, spread(sets, set![p]), w),
{
    assert forall|x: int| sets[p].contains(x) implies spread(sets, set![p]).contains(x) by {
        assert(set![p].contains(p));
    }
}

/// Lane `u` of the block starting at `bs` folds its positions in ascending
/// order.
fn lane_candidate<Item, InputExpr: DeviceExpr<Item>, Op: ArgReductionOp<Item>>(
    input: &InputExpr,
    Ghost(len): Ghost<nat>,
    Ghost(sets): Ghost<Seq<Set<int>>>,
    entries: Option<&Vec<u32>>,
    n: usize,
    bs: usize,
    u: usize,
) -> (c: Candidate)
    requires
        len <= u32::MAX,
        forall|i: int| 0 <= i < len ==> input.defined_at(i),
        pass_ready::<Item, Op>(rows(input, len), entries, sets, n as int),
        bs < n,
        u < BLOCK_SIZE,
    ensures
        holds::<Item, Op>(
            rows(input, len),
            sets,
            lane_positions(bs as int, block_end(bs as int, n as int), u as int),
            c,
        ),
{
    let ghost v = rows(input, len);
    let ghost be = block_end(bs as int, n as int);
    let first = bs as u64 + u as u64;
    let valid = first < n as u64;
    let safe = if valid {
        first as usize
    } else {
        n - 1
    };
    let mut acc = Candidate { index: entry_at(entries, safe), valid };
    let ghost mut cover: Set<int> = if valid {
        set![first as int]
    } else {
        Set::empty()
    };
    proof {
        if valid {
            lemma_singleton_winner::<Item, Op>(v, sets, first as int, entry(entries, first as int));
        } else {
            assert(spread(sets, cover) =~= Set::<int>::empty());
        }
        assert forall|x: int| spread(sets, cover).contains(x) implies 0 <= x < v.len() by {
            let p = choose|p: int|
                #![trigger sets[p].contains(x)]
                cover.contains(p) && 0 <= p < sets.len() && sets[p].contains(x);
        }
        assert forall|p: int| #[trigger]
            cover.contains(p) <==> (bs <= p < be && p < bs + 256 && (p - bs) % 256 == u) by {
            if bs <= p < bs + 256 {
                lemma_lane_step(p - bs, 0);
            }
        }
    }
    let mut item: usize = 1;
    while item < ITEMS_PER_UNIT
        invariant
            len <= u32::MAX,
            forall|i: int| 0 <= i < len ==> input.defined_at(i),
            v == rows(input, len),
            pass_ready::<Item, Op>(v, entries, sets, n as int),
            be == block_end(bs as int, n as int),
            bs < n,
            u < BLOCK_SIZE,
            first == bs + u,
            1 <= item <= ITEMS_PER_UNIT,
            holds::<Item, Op>(v, sets, cover, acc),
            forall|p: int| #[trigger]
                cover.contains(p) <==> (bs <= p < be && p < bs + item * 256 && (p - bs) % 256
                    == u),
        decreases ITEMS_PER_UNIT - item,
    {
        let rhs = first + (item * BLOCK_SIZE) as u64;
        let ghost next = Set::new(
            |p: int| bs <= p < be && p < bs + (item + 1) * 256 && (p - bs) % 256 == u,
        );
        if rhs < n as u64 {
            let rhs = rhs as usize;
            let ghost single = set![rhs as int];
            proof {
                lemma_singleton_winner::<Item, Op>(v, sets, rhs as int, entry(entries, rhs as int));
                assert forall|x: int| spread(sets, single).contains(x) implies 0 <= x < v.len() by {
                    assert(sets[rhs as int].contains(x));
                }
                assert(!cover.contains(rhs as int));
            }
            let other = Candidate { index: entry_at(entries, rhs), valid: true };
            acc = merge_positions::<Item, InputExpr, Op>(
                input,
                Ghost(len),
                Ghost(sets),
                acc,
                other,
                Ghost(cover),
                Ghost(single),
            );
            proof {
                assert forall|p: int| #[trigger] next.contains(p) <==> (cover + single).contains(p) by {
                    if bs + item * 256 <= p < bs + (item + 1) * 256 {
                        lemma_lane_step(p - bs, item as int);
                    }
                }
                cover = cover + single;
            }
        } else {
            proof {
                assert forall|p: int| #[trigger] next.contains(p) <==> cover.contains(p) by {
                    if bs + item * 256 <= p < bs + (item + 1) * 256 {
                        lemma_lane_step(p - bs, item as int);
                    }
                }
            }
        }
        proof {
            assert(cover =~= next);
        }
        item = item + 1;
    }
    proof {
        assert(cover =~= lane_positions(bs as int, be, u as int));
    }
    acc
}

/// Lane `l` of the first plane gathers the plane results `l`, `l + pd`,
/// `l + 2 pd`, ..., skipping pairs where either side holds nothing.
fn stride_lane<Item, InputExpr: DeviceExpr<Item>, Op: ArgReductionOp<Item>>(
    input: &InputExpr,
    Ghost(len): Ghost<nat>,
    Ghost(sets): Ghost<Seq<Set<int>>>,
    planes: &Vec<Candidate>,
    l: usize,
    pd: usize,
    Ghost(bs): Ghost<int>,
    Ghost(be): Ghost<int>,
) -> (r: (Candidate, Ghost<Set<int>>))
    requires
        len <= u32::MAX,
        forall|i: int| 0 <= i < len ==> input.defined_at(i),
        well_spread(sets, len),
        is_plane_width(pd as int),
        0 <= bs < be <= sets.len(),
        planes.len() == 256int / (pd as int),
        l < pd,
        forall|q: int|
            0 <= q < planes.len() ==> holds::<Item, Op>(
                rows(input, len),
                sets,
                plane_positions(bs, be, pd as int, q),
                #[trigger] planes[q],
            ),
    ensures
        holds::<Item, Op>(rows(input, len), sets, r.1@, r.0),
        forall|p: int|
            #[trigger] r.1@.contains(p) ==> bs <= p < be && plane_of(bs, pd as int, p) % (pd as int)
                == l,
        forall|q: int, p: int|
            0 <= q < planes.len() && q % (pd as int) == l && #[trigger] plane_positions(
                bs,
                be,
                pd as int,
                q,
            ).contains(p) ==> r.1@.contains(p),
{
    let ghost v = rows(input, len);
    let ghost pdi = pd as int;
    let plane_count = planes.len();
    let mut c = if l < plane_count {
        planes[l]
    } else {
        Candidate { index: planes[0].index, valid: false }
    };
    let ghost mut cover: Set<int> = if l < plane_count {
        plane_positions(bs, be, pdi, l as int)
    } else {
        Set::empty()
    };
    proof {
        lemma_plane_count(pdi);
        if l >= plane_count {
            assert(spread(sets, cover) =~= Set::<int>::empty());
        } else {
            lemma_residue(pdi, l as int, 0);
            assert forall|p: int| #[trigger] cover.contains(p) implies plane_of(bs, pdi, p) == l by {
                lemma_plane_member(bs, be, pdi, l as int, p);
            }
        }
    }
    let mut cursor = l + pd;
    let ghost mut m: int = 1;
    while cursor < plane_count
        invariant
            len <= u32::MAX,
            forall|i: int| 0 <= i < len ==> input.defined_at(i),
            well_spread(sets, len),
            v == rows(input, len),
            is_plane_width(pdi),
            pdi == pd,
            0 <= bs < be <= sets.len(),
            plane_count == planes.len() == 256int / pdi,
            l < pd,
            forall|q: int|
                0 <= q < planes.len() ==> holds::<Item, Op>(
                    v,
                    sets,
                    plane_positions(bs, be, pdi, q),
                    #[trigger] planes[q],
                ),
            m >= 1,
            cursor == l + m * pdi,
            holds::<Item, Op>(v, sets, cover, c),
            forall|p: int|
                #[trigger] cover.contains(p) ==> bs <= p < be && plane_of(bs, pdi, p) % pdi == l
                    && plane_of(bs, pdi, p) < cursor,
            forall|k: int, p: int|
                0 <= k < m && l + k * pdi < plane_count && #[trigger] plane_positions(
                    bs,
                    be,
                    pdi,
                    l + k * pdi,
                ).contains(p) ==> cover.contains(p),
        decreases plane_count + pd - cursor,
    {
        let source = planes[cursor];
        let ghost added = plane_positions(bs, be, pdi, cursor as int);
        proof {
            lemma_plane_count(pdi);
            lemma_residue(pdi, l as int, m);
            assert(cover.disjoint(added)) by {
                assert forall|p: int| cover.contains(p) implies !added.contains(p) by {
                    if added.contains(p) {
                        lemma_plane_member(bs, be, pdi, cursor as int, p);
                    }
                }
            }
            assert forall|p: int| #[trigger] added.contains(p) implies 0 <= p < sets.len() by {
            }
        }
        if c.valid && source.valid {
            c = merge_positions::<Item, InputExpr, Op>(
                input,
                Ghost(len),
                Ghost(sets),
                c,
                source,
                Ghost(cover),
                Ghost(added),
            );
        } else {
            proof {
                lemma_spread_union(sets, cover, added);
                if !source.valid {
                    assert(spread(sets, cover + added) =~= spread(sets, cover));
                } else {
                    // An empty lane means its own plane was empty, and so is every
                    // later plane of the block.
                    assert forall|p: int| #[trigger] cover.contains(p) implies 0 <= p < sets.len() by {
                    }
                    lemma_spread_empty(sets, len, cover);
                    assert(cover.is_empty());
                    assert(l < plane_count);
                    lemma_residue(pdi, l as int, 0);
                    assert(plane_positions(bs, be, pdi, l as int).is_empty()) by {
                        if !plane_positions(bs, be, pdi, l as int).is_empty() {
                            let p = plane_positions(bs, be, pdi, l as int).choose();
                            assert(plane_positions(bs, be, pdi, l + 0 * pdi).contains(p));
                        }
                    }
                    lemma_plane_empty(bs, be, pdi, l as int);
                    vstd::arithmetic::mul::lemma_mul_inequality(l as int, cursor as int, pdi);
                    lemma_plane_empty(bs, be, pdi, cursor as int);
                    assert(spread(sets, added) =~= Set::<int>::empty());
                    assert(spread(sets, cover + added) =~= spread(sets, cover));
                }
            }
        }
        proof {
            assert forall|p: int| #[trigger] added.contains(p) implies plane_of(bs, pdi, p) == cursor by {
                lemma_plane_member(bs, be, pdi, cursor as int, p);
            }
            cover = cover + added;
            m = m + 1;
            assert((l + m * pdi) == cursor + pdi) by (nonlinear_arith)
                requires
                    cursor == l + (m - 1) * pdi,
            ;
        }
        cursor = cursor + pd;
    }
    proof {
        lemma_plane_count(pdi);
        assert forall|q: int, p: int|
            0 <= q < planes.len() && q % pdi == l && #[trigger] plane_positions(
                bs,
                be,
                pdi,
                q,
            ).contains(p) implies cover.contains(p) by {
            let k = q / pdi;
            vstd::arithmetic::div_mod::lemma_fundamental_div_mod(q, pdi);
            assert(q == l + k * pdi) by (nonlinear_arith)
                requires
                    q == pdi * (q / pdi) + q % pdi,
                    q % pdi == l,
                    k == q / pdi,
            ;
            vstd::arithmetic::div_mod::lemma_div_pos_is_pos(q, pdi);
            assert(k < m) by {
                if k >= m {
                    vstd::arithmetic::mul::lemma_mul_inequality(m, k, pdi);
                }
            }
        }
    }
    (c, Ghost(cover))
}

/// One block of a pass: every lane folds its strided positions, every plane
/// reduces its lanes with the shuffle tree, and the first plane gathers and
/// reduces the plane results.  The result stands for the whole block.
fn block_candidate<Item, InputExpr: DeviceExpr<Item>, Op: ArgReductionOp<Item>>(
    input: &InputExpr,
    Ghost(len): Ghost<nat>,
    Ghost(sets): Ghost<Seq<Set<int>>>,
    entries: Option<&Vec<u32>>,
    n: usize,
    bs: usize,
    plane_dim: usize,
) -> (c: Candidate)
    requires
        len <= u32::MAX,
        forall|i: int| 0 <= i < len ==> input.defined_at(i),
        pass_ready::<Item, Op>(rows(input, len), entries, sets, n as int),
        bs < n,
        is_plane_width(plane_dim as int),
    ensures
        holds::<Item, Op>(
            rows(input, len),
            sets,
            block_positions(bs as int, block_end(bs as int, n as int)),
            c,
        ),
{
    let ghost v = rows(input, len);
    let ghost be = block_end(bs as int, n as int);
    let ghost lanes = Seq::new(256, |u: int| lane_positions(bs as int, be, u));
    let ghost pdi = plane_dim as int;
    let pd = plane_dim;
    let mut acc: Vec<Candidate> = Vec::new();
    let mut u: usize = 0;
    while u < BLOCK_SIZE
        invariant
            len <= u32::MAX,
            forall|i: int| 0 <= i < len ==> input.defined_at(i),
            pass_ready::<Item, Op>(v, entries, sets, n as int),
            v == rows(input, len),
            be == block_end(bs as int, n as int),
            lanes == Seq::new(256, |u: int| lane_positions(bs as int, be, u)),
            bs < n,
            u <= BLOCK_SIZE,
            acc.len() == u,
            forall|k: int| 0 <= k < u ==> holds::<Item, Op>(v, sets, lanes[k], #[trigger] acc[k]),
        decreases BLOCK_SIZE - u,
    {
        let c = lane_candidate::<Item, InputExpr, Op>(
            input,
            Ghost(len),
            Ghost(sets),
            entries,
            n,
            bs,
            u,
        );
        acc.push(c);
        u = u + 1;
    }
    let plane_count = (BLOCK_SIZE + pd - 1) / pd;
    proof {
        lemma_plane_count(pdi);
    }
    let ghost planes_at = Seq::new(
        plane_count as nat,
        |q: int| plane_positions(bs as int, be, pdi, q),
    );
    let mut q: usize = 0;
    while q < plane_count
        invariant
            len <= u32::MAX,
            forall|i: int| 0 <= i < len ==> input.defined_at(i),
            pass_ready::<Item, Op>(v, entries, sets, n as int),
            v == rows(input, len),
            be == block_end(bs as int, n as int),
            lanes == Seq::new(256, |u: int| lane_positions(bs as int, be, u)),
            bs < n,
            is_plane_width(pdi),
            pdi == pd,
            plane_count == 256int / pdi,
            q <= plane_count,
            acc.len() == BLOCK_SIZE,
            forall|k: int|
                q * pdi <= k < 256 ==> holds::<Item, Op>(v, sets, lanes[k], #[trigger] acc[k]),
            forall|k: int|
                0 <= k < q ==> holds::<Item, Op>(
                    v,
                    sets,
                    plane_positions(bs as int, be, pdi, k),
                    #[trigger] acc[k * pdi],
                ),
        decreases plane_count - q,
    {
        proof {
            lemma_plane_span(pdi, q as int);
            lemma_plane_count(pdi);
            assert forall|a: int, b: int|
                q * pdi <= a < q * pdi + pdi && q * pdi <= b < q * pdi + pdi && a != b implies #[trigger] lanes[a].disjoint(
                #[trigger] lanes[b],
            ) by {}
            assert((q + 1) * pdi == q * pdi + pdi) by (nonlinear_arith);
        }
        let ghost before = acc@;
        plane_tree::<Item, InputExpr, Op>(
            input,
            Ghost(len),
            Ghost(sets),
            &mut acc,
            q * pd,
            pd,
            Ghost(lanes),
        );
        proof {
            let lo = q * pdi;
            let hi = lo + pdi;
            assert(union_range(lanes, lo, hi) =~= plane_positions(bs as int, be, pdi, q as int))
                by {
                assert forall|x: int| #[trigger]
                    union_range(lanes, lo, hi).contains(x) <==> plane_positions(
                        bs as int,
                        be,
                        pdi,
                        q as int,
                    ).contains(x) by {
                    lemma_union_range_contains(lanes, lo, hi, x);
                    if plane_positions(bs as int, be, pdi, q as int).contains(x) {
                        assert(lanes[(x - bs) % 256].contains(x));
                    }
                }
            }
            assert forall|k: int| 0 <= k < q + 1 implies holds::<Item, Op>(
                v,
                sets,
                plane_positions(bs as int, be, pdi, k),
                #[trigger] acc[k * pdi],
            ) by {
                if k < q {
                    vstd::arithmetic::mul::lemma_mul_inequality(k + 1, q as int, pdi);
                    assert((k + 1) * pdi == k * pdi + pdi) by (nonlinear_arith);
                    assert(0 <= k * pdi) by (nonlinear_arith)
                        requires
                            0 <= k,
                            0 < pdi,
                    ;
                    assert(acc[k * pdi] == before[k * pdi]);
                }
            }
        }
        q = q + 1;
    }
    let mut planes: Vec<Candidate> = Vec::new();
    let mut q: usize = 0;
    while q < plane_count
        invariant
            is_plane_width(pdi),
            pdi == pd,
            plane_count == 256int / pdi,
            q <= plane_count,
            acc.len() == BLOCK_SIZE,
            planes.len() == q,
            forall|k: int| 0 <= k < q ==> #[trigger] planes[k] == acc[k * pdi],
        decreases plane_count - q,
    {
        proof {
            lemma_plane_span(pdi, q as int);
        }
        planes.push(acc[q * pd]);
        q = q + 1;
    }
    let mut gathered: Vec<Candidate> = Vec::new();
    let ghost mut covers: Seq<Set<int>> = Seq::empty();
    let mut l: usize = 0;
    while l < pd
        invariant
            len <= u32::MAX,
            forall|i: int| 0 <= i < len ==> input.defined_at(i),
            pass_ready::<Item, Op>(v, entries, sets, n as int),
            v == rows(input, len),
            be == block_end(bs as int, n as int),
            bs < n,
            is_plane_width(pdi),
            pdi == pd,
            plane_count == 256int / pdi,
            planes.len() == plane_count,
            forall|k: int|
                0 <= k < plane_count ==> holds::<Item, Op>(
                    v,
                    sets,
                    plane_positions(bs as int, be, pdi, k),
                    #[trigger] planes[k],
                ),
            l <= pd,
            gathered.len() == l,
            covers.len() == l,
            forall|k: int|
                0 <= k < l ==> holds::<Item, Op>(v, sets, covers[k], #[trigger] gathered[k]),
            forall|k: int, p: int|
                0 <= k < l && #[trigger] covers[k].contains(p) ==> bs <= p < be && plane_of(
                    bs as int,
                    pdi,
                    p,
                ) % pdi == k,
            forall|k: int, p: int|
                0 <= k < plane_count && k % pdi < l && #[trigger] plane_positions(
                    bs as int,
                    be,
                    pdi,
                    k,
                ).contains(p) ==> covers[k % pdi].contains(p),
        decreases pd - l,
    {
        proof {
            assert(forall|k: int|
                0 <= k < planes.len() ==> #[trigger] planes[k] == planes[k]);
        }
        let (c, Ghost(cover)) = stride_lane::<Item, InputExpr, Op>(
            input,
            Ghost(len),
            Ghost(sets),
            &planes,
            l,
            pd,
            Ghost(bs as int),
            Ghost(be),
        );
        gathered.push(c);
        proof {
            covers = covers.push(cover);
        }
        l = l + 1;
    }
    proof {
        assert forall|a: int, b: int| 0 <= a < pdi && 0 <= b < pdi && a != b implies #[trigger] covers[a].disjoint(
            #[trigger] covers[b],
        ) by {
            assert forall|p: int| covers[a].contains(p) implies !covers[b].contains(p) by {}
        }
    }
    let ghost before = gathered@;
    plane_tree::<Item, InputExpr, Op>(
        input,
        Ghost(len),
        Ghost(sets),
        &mut gathered,
        0,
        pd,
        Ghost(covers),
    );
    proof {
        let block = block_positions(bs as int, be);
        assert forall|x: int| #[trigger]
            union_range(covers, 0, pdi).contains(x) <==> block.contains(x) by {
            lemma_union_range_contains(covers, 0, pdi, x);
            if block.contains(x) {
                let lane = (x - bs) % 256;
                vstd::arithmetic::div_mod::lemma_mod_pos_bound(x - bs, 256);
                lemma_lane_plane(pdi, lane);
                let k = lane / pdi;
                assert(plane_positions(bs as int, be, pdi, k).contains(x));
                vstd::arithmetic::div_mod::lemma_mod_pos_bound(k, pdi);
                assert(covers[k % pdi].contains(x));
            }
        }
        assert(union_range(covers, 0, pdi) =~= block);
    }
    gathered[0]
}

/// Number of blocks of one pass over `n` positions.
pub open spec fn pass_blocks(n: int) -> int {
    if n % (TILE_SIZE as int) == 0 {
        n / (TILE_SIZE as int)
    } else {
        n / (TILE_SIZE as int) + 1
    }
}

/// One pass: block `b` writes the winner of positions
/// `b * TILE_SIZE .. (b + 1) * TILE_SIZE`, which position `b` stands for
/// in the next pass.
fn arg_pass<Item, InputExpr: DeviceExpr<Item>, Op: ArgReductionOp<Item>>(
    input: &InputExpr,
    Ghost(len): Ghost<nat>,
    Ghost(sets): Ghost<Seq<Set<int>>>,
    entries: Option<&Vec<u32>>,
    n: usize,
    plane_dim: usize,
) -> (r: (Vec<u32>, Ghost<Seq<Set<int>>>))
    requires
        len <= u32::MAX,
        forall|i: int| 0 <= i < len ==> input.defined_at(i),
        pass_ready::<Item, Op>(rows(input, len), entries, sets, n as int),
        n > 0,
        is_plane_width(plane_dim as int),
    ensures
        r.0.len() == pass_blocks(n as int),
        pass_ready::<Item, Op>(rows(input, len), Some(&r.0), r.1@, r.0.len() as int),
        spread(r.1@, first_positions(r.0.len() as int)) =~= spread(
            sets,
            first_positions(n as int),
        ),
{
    let ghost v = rows(input, len);
    let tile = TILE_SIZE;
    let blocks = if n % tile == 0 {
        n / tile
    } else {
        n / tile + 1
    };
    let mut out: Vec<u32> = Vec::new();
    let ghost mut next: Seq<Set<int>> = Seq::empty();
    let mut b: usize = 0;
    proof {
        vstd::arithmetic::div_mod::lemma_fundamental_div_mod(n as int, TILE_SIZE as int);
    }
    while b < blocks
        invariant
            len <= u32::MAX,
            forall|i: int| 0 <= i < len ==> input.defined_at(i),
            pass_ready::<Item, Op>(v, entries, sets, n as int),
            v == rows(input, len),
            n > 0,
            is_plane_width(plane_dim as int),
            blocks == pass_blocks(n as int),
            tile == TILE_SIZE,
            n == TILE_SIZE * (n / TILE_SIZE) + n % TILE_SIZE,
            b <= blocks,
            out.len() == b,
            next.len() == b,
            forall|k: int|
                0 <= k < b ==> #[trigger] next[k] == spread(
                    sets,
                    block_positions(k * TILE_SIZE, block_end(k * TILE_SIZE, n as int)),
                ),
            forall|k: int| 0 <= k < b ==> is_winner::<Item, Op>(v, #[trigger] next[k], out[k] as int),
        decreases blocks - b,
    {
        proof {
            vstd::arithmetic::div_mod::lemma_mod_pos_bound(n as int, TILE_SIZE as int);
            assert(b * TILE_SIZE < n) by (nonlinear_arith)
                requires
                    n == TILE_SIZE * (n / TILE_SIZE) + n % TILE_SIZE,
                    0 <= n % TILE_SIZE < TILE_SIZE,
                    b < blocks,
                    n % TILE_SIZE == 0 ==> blocks == n / TILE_SIZE,
                    n % TILE_SIZE != 0 ==> blocks == n / TILE_SIZE + 1,
            ;
        }
        let bs = b * tile;
        let c = block_candidate::<Item, InputExpr, Op>(
            input,
            Ghost(len),
            Ghost(sets),
            entries,
            n,
            bs,
            plane_dim,
        );
        proof {
            let block = block_positions(bs as int, block_end(bs as int, n as int));
            assert(block.contains(bs as int));
            let x = sets[bs as int].choose();
            assert(sets[bs as int].contains(x));
            assert(spread(sets, block).contains(x));
            next = next.push(spread(sets, block));
        }
        out.push(c.index);
        b = b + 1;
    }
    proof {
        assert forall|p: int, x: int| 0 <= p < next.len() && #[trigger] next[p].contains(x) implies 0
            <= x < v.len() by {
            let q = choose|q: int|
                #![trigger sets[q].contains(x)]
                block_positions(p * TILE_SIZE, block_end(p * TILE_SIZE, n as int)).contains(q) && 0
                    <= q < sets.len() && sets[q].contains(x);
        }
        assert forall|p: int, q: int|
            0 <= p < next.len() && 0 <= q < next.len() && p != q implies #[trigger] next[p].disjoint(
            #[trigger] next[q],
        ) by {
            let bp = block_positions(p * TILE_SIZE, block_end(p * TILE_SIZE, n as int));
            let bq = block_positions(q * TILE_SIZE, block_end(q * TILE_SIZE, n as int));
            assert(bp.disjoint(bq)) by {
                if p < q {
                    vstd::arithmetic::mul::lemma_mul_inequality(p + 1, q, TILE_SIZE as int);
                } else {
                    vstd::arithmetic::mul::lemma_mul_inequality(q + 1, p, TILE_SIZE as int);
                }
            }
            lemma_spread_disjoint(sets, v.len(), bp, bq);
        }
        assert forall|p: int| 0 <= p < next.len() implies !(#[trigger] next[p]).is_empty() by {
            assert(next[p].contains(out[p] as int));
        }
        assert forall|x: int| #[trigger]
            spread(next, first_positions(blocks as int)).contains(x) <==> spread(
                sets,
                first_positions(n as int),
            ).contains(x) by {
            if spread(next, first_positions(blocks as int)).contains(x) {
                let k = choose|k: int|
                    #![trigger next[k].contains(x)]
                    first_positions(blocks as int).contains(k) && 0 <= k < next.len()
                        && next[k].contains(x);
                let q = choose|q: int|
                    #![trigger sets[q].contains(x)]
                    block_positions(k * TILE_SIZE, block_end(k * TILE_SIZE, n as int)).contains(q)
                        && 0 <= q < sets.len() && sets[q].contains(x);
                assert(first_positions(n as int).contains(q));
            }
            if spread(sets, first_positions(n as int)).contains(x) {
                let q = choose|q: int|
                    #![trigger sets[q].contains(x)]
                    first_positions(n as int).contains(q) && 0 <= q < sets.len() && sets[q].contains(
                        x,
                    );
                let k = q / (TILE_SIZE as int);
                vstd::arithmetic::div_mod::lemma_fundamental_div_mod(q, TILE_SIZE as int);
                vstd::arithmetic::div_mod::lemma_mod_pos_bound(q, TILE_SIZE as int);
                vstd::arithmetic::div_mod::lemma_div_pos_is_pos(q, TILE_SIZE as int);
                assert(k < blocks) by {
                    vstd::arithmetic::div_mod::lemma_div_is_ordered(q, n as int, TILE_SIZE as int);
                    vstd::arithmetic::div_mod::lemma_fundamental_div_mod(n as int, TILE_SIZE as int);
                }
                assert(block_positions(k * TILE_SIZE, block_end(k * TILE_SIZE, n as int)).contains(q));
                assert(next[k].contains(x));
            }
        }
    }
    (out, Ghost(next))
}

/// Rows `0..len`.
pub open spec fn all_rows(len: int) -> Set<int> {
    Set::new(|i: int| 0 <= i < len)
}

/// Plane width of the modelled device.
pub const PLANE_WIDTH: usize = 32;

/// Returns the position of the row that `Op` prefers over every other row
/// among rows `0..len` of `input`, or `u32::MAX` when there are none; the
/// device reduces in passes of `TILE_SIZE`-position blocks with planes of
/// `plane_dim` lanes.
pub fn arg_reduce_planes<Item, InputExpr: DeviceExpr<Item>, Op: ArgReductionOp<Item>>(
    input: &InputExpr,
    len: usize,
    _op: Op,
    plane_dim: usize,
) -> (r: u32)
    requires
        len <= u32::MAX,
        forall|i: int| 0 <= i < len ==> input.defined_at(i),
        is_plane_width(plane_dim as int),
    ensures
        len == 0 ==> r == u32::MAX,
        len > 0 ==> r < len && is_winner::<Item, Op>(
            rows(input, len as nat),
            all_rows(len as int),
            r as int,
        ),
{
    if len == 0 {
        return u32::MAX;
    }
    let ghost v = rows(input, len as nat);
    let ghost first = Seq::new(len as nat, |p: int| set![p]);
    proof {
        assert forall|p: int| 0 <= p < len implies is_winner::<Item, Op>(
            v,
            #[trigger] first[p],
            entry(None, p),
        ) by {}
        assert forall|p: int| 0 <= p < first.len() implies !(#[trigger] first[p]).is_empty() by {
            assert(first[p].contains(p));
        }
        assert forall|x: int| #[trigger]
            spread(first, first_positions(len as int)).contains(x) <==> all_rows(
                len as int,
            ).contains(x) by {
            if all_rows(len as int).contains(x) {
                assert(first[x].contains(x));
            }
        }
    }
    let (mut current, Ghost(mut sets)) = arg_pass::<Item, InputExpr, Op>(
        input,
        Ghost(len as nat),
        Ghost(first),
        None,
        len,
        plane_dim,
    );
    while current.len() > 1
        invariant
            len <= u32::MAX,
            forall|i: int| 0 <= i < len ==> input.defined_at(i),
            is_plane_width(plane_dim as int),
            v == rows(input, len as nat),
            current.len() >= 1,
            pass_ready::<Item, Op>(v, Some(&current), sets, current.len() as int),
            spread(sets, first_positions(current.len() as int)) =~= all_rows(len as int),
        decreases current.len(),
    {
        proof {
            vstd::arithmetic::div_mod::lemma_fundamental_div_mod(
                current.len() as int,
                TILE_SIZE as int,
            );
        }
        let (next, Ghost(next_sets)) = arg_pass::<Item, InputExpr, Op>(
            input,
            Ghost(len as nat),
            Ghost(sets),
            Some(&current),
            current.len(),
            plane_dim,
        );
        current = next;
        proof {
            sets = next_sets;
        }
    }
    proof {
        lemma_singleton_winner::<Item, Op>(v, sets, 0, current[0] as int);
        assert(first_positions(1) =~= set![0int]);
        assert(all_rows(len as int).contains(current[0] as int));
    }
    current[0]
}

/// [`arg_reduce_planes`] on the modelled device's plane width.
pub fn arg_reduce<Item, InputExpr: DeviceExpr<Item>, Op: ArgReductionOp<Item>>(
    input: &InputExpr,
    len: usize,
    op: Op,
) -> (r: u32)
    requires
        len <= u32::MAX,
        forall|i: int| 0 <= i < len ==> input.defined_at(i),
    ensures
        len == 0 ==> r == u32::MAX,
        len > 0 ==> r < len && is_winner::<Item, Op>(
            rows(input, len as nat),
            all_rows(len as int),
            r as int,
        ),
{
    arg_reduce_planes(input, len, op, PLANE_WIDTH)
}

/// The row a serial scan keeps after rows `0..n`: it starts at row 0 and
/// moves to each later row that beats the row it holds.
pub open spec fn serial_winner<Item, Op: ArgReductionOp<Item>>(v: Seq<Item>, n: int) -> int
    decreases n,
{
    if n <= 1 {
        0
    } else {
        let w = serial_winner::<Item, Op>(v, n - 1);
        if Op::prefers_rhs(v[w], v[n - 1]) {
            n - 1
        } else {
            w
        }
    }
}

proof fn lemma_serial_winner_wins<Item, Op: ArgReductionOp<Item>>(v: Seq<Item>, n: int)
    requires
        1 <= n,
    ensures
        0 <= serial_winner::<Item, Op>(v, n) < n,
        is_winner::<Item, Op>(v, all_rows(n), serial_winner::<Item, Op>(v, n)),
    decreases n,
{
    if n == 1 {
        assert(all_rows(1) =~= set![0int]);
    } else {
        lemma_serial_winner_wins::<Item, Op>(v, n - 1);
        let last = set![n - 1];
        assert(is_winner::<Item, Op>(v, last, n - 1));
        assert(all_rows(n - 1).disjoint(last));
        lemma_winner_union::<Item, Op>(v, all_rows(n - 1), last, serial_winner::<Item, Op>(v, n - 1), n - 1);
        assert(all_rows(n - 1) + last =~= all_rows(n));
    }
}

/// The preferred row is what a serial left-to-right scan returns: the
/// winner of rows `0..n` is the row the scan holds at the end.
pub proof fn lemma_winner_is_serial_scan<Item, Op: ArgReductionOp<Item>>(v: Seq<Item>, n: int, w: int)
    requires
        1 <= n,
        is_winner::<Item, Op>(v, all_rows(n), w),
    ensures
        w == serial_winner::<Item, Op>(v, n),
{
    lemma_serial_winner_wins::<Item, Op>(v, n);
    lemma_winner_unique::<Item, Op>(v, all_rows(n), w, serial_winner::<Item, Op>(v, n));
}

} // verus!
