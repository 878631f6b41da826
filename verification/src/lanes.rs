//! Geometry of one block of a device pass: 256 lanes that stride over the
//! block's positions, grouped into planes that reduce with a shuffle tree.
//!
//! Positions stand for sets of rows (`spread`): a pass over the partials of
//! an earlier pass sees each partial as the rows that it accumulated.
use vstd::prelude::*;

verus! {

/// The plane widths that split a block evenly.
pub open spec fn is_plane_width(w: int) -> bool {
    ||| w == 1
    ||| w == 2
    ||| w == 4
    ||| w == 8
    ||| w == 16
    ||| w == 32
    ||| w == 64
    ||| w == 128
    ||| w == 256
}

/// The rows behind a set of positions, position `p` standing for the rows
/// `sets[p]`.
pub open spec fn spread(sets: Seq<Set<int>>, positions: Set<int>) -> Set<int> {
    Set::new(
        |x: int|
            exists|p: int|
                #![trigger sets[p].contains(x)]
                positions.contains(p) && 0 <= p < sets.len() && sets[p].contains(x),
    )
}

/// The row sets of the positions are disjoint, non-empty sets of rows
/// `0..len`.
pub open spec fn well_spread(v: Seq<Set<int>>, len: nat) -> bool {
    &&& forall|p: int, x: int| 0 <= p < v.len() && #[trigger] v[p].contains(x) ==> 0 <= x < len
    &&& forall|p: int, q: int|
        0 <= p < v.len() && 0 <= q < v.len() && p != q ==> #[trigger] v[p].disjoint(#[trigger] v[q])
    &&& forall|p: int| 0 <= p < v.len() ==> !(#[trigger] v[p]).is_empty()
}

/// Spreading a union of positions unites the spread rows.
pub proof fn lemma_spread_union(sets: Seq<Set<int>>, a: Set<int>, b: Set<int>)
    ensures
        spread(sets, a) + spread(sets, b) =~= spread(sets, a + b),
{
    assert forall|x: int| spread(sets, a + b).contains(x) implies (spread(sets, a) + spread(
        sets,
        b,
    )).contains(x) by {
        let p = choose|p: int|
            #![trigger sets[p].contains(x)]
            (a + b).contains(p) && 0 <= p < sets.len() && sets[p].contains(x);
        if a.contains(p) {
            assert(spread(sets, a).contains(x));
        } else {
            assert(spread(sets, b).contains(x));
        }
    }
}

/// Disjoint positions of well-spread sets stand for disjoint rows.
pub proof fn lemma_spread_disjoint(sets: Seq<Set<int>>, len: nat, a: Set<int>, b: Set<int>)
    requires
        well_spread(sets, len),
        a.disjoint(b),
    ensures
        spread(sets, a).disjoint(spread(sets, b)),
{
    assert forall|x: int| spread(sets, a).contains(x) implies !spread(sets, b).contains(x) by {
        let p = choose|p: int|
            #![trigger sets[p].contains(x)]
            a.contains(p) && 0 <= p < sets.len() && sets[p].contains(x);
        if spread(sets, b).contains(x) {
            let q = choose|q: int|
                #![trigger sets[q].contains(x)]
                b.contains(q) && 0 <= q < sets.len() && sets[q].contains(x);
            assert(p != q);
            assert(sets[p].disjoint(sets[q]));
        }
    }
}

/// Positions of well-spread sets stand for no rows exactly when there are
/// none.
pub proof fn lemma_spread_empty(sets: Seq<Set<int>>, len: nat, a: Set<int>)
    requires
        well_spread(sets, len),
        forall|p: int| #[trigger] a.contains(p) ==> 0 <= p < sets.len(),
    ensures
        spread(sets, a).is_empty() <==> a.is_empty(),
{
    if !a.is_empty() {
        let p = a.choose();
        let x = sets[p].choose();
        assert(sets[p].contains(x));
        assert(spread(sets, a).contains(x));
    } else {
        assert(spread(sets, a) =~= Set::<int>::empty());
    }
}

/// Union of `covers[lo..hi]`.
pub open spec fn union_range(covers: Seq<Set<int>>, lo: int, hi: int) -> Set<int>
    decreases hi - lo,
{
    if hi <= lo {
        Set::empty()
    } else {
        union_range(covers, lo, hi - 1) + covers[hi - 1]
    }
}

/// A union of covers holds exactly what one of the covers holds.
pub proof fn lemma_union_range_contains(covers: Seq<Set<int>>, lo: int, hi: int, x: int)
    ensures
        union_range(covers, lo, hi).contains(x) <==> exists|l: int|
            lo <= l < hi && #[trigger] covers[l].contains(x),
    decreases hi - lo,
{
    if hi > lo {
        lemma_union_range_contains(covers, lo, hi - 1, x);
    }
}

/// Halving step of the shuffle tree: cover `l` absorbs cover `l + half`.
pub open spec fn fold_halves(covers: Seq<Set<int>>, start: int, half: int) -> Seq<Set<int>> {
    Seq::new(
        covers.len(),
        |m: int|
            if start <= m < start + half {
                covers[m] + covers[m + half]
            } else {
                covers[m]
            },
    )
}

/// Folding the upper half of a range of covers onto the lower half keeps
/// their union.
pub proof fn lemma_fold_halves_union(covers: Seq<Set<int>>, start: int, half: int)
    requires
        0 <= start,
        0 < half,
        start + 2 * half <= covers.len(),
    ensures
        union_range(fold_halves(covers, start, half), start, start + half) =~= union_range(
            covers,
            start,
            start + 2 * half,
        ),
{
    let folded = fold_halves(covers, start, half);
    assert forall|x: int| #[trigger]
        union_range(folded, start, start + half).contains(x) <==> union_range(
            covers,
            start,
            start + 2 * half,
        ).contains(x) by {
        lemma_union_range_contains(folded, start, start + half, x);
        lemma_union_range_contains(covers, start, start + 2 * half, x);
        if union_range(covers, start, start + 2 * half).contains(x) {
            let l = choose|l: int| start <= l < start + 2 * half && #[trigger] covers[l].contains(x);
            if l < start + half {
                assert(folded[l].contains(x));
            } else {
                assert(folded[l - half].contains(x));
            }
        }
    }
}

/// Positions `bs..be` of one block.
pub open spec fn block_positions(bs: int, be: int) -> Set<int> {
    Set::new(|p: int| bs <= p < be)
}

/// Positions of the block that lane `u` folds: every 256th from `bs + u`.
pub open spec fn lane_positions(bs: int, be: int, u: int) -> Set<int> {
    Set::new(|p: int| bs <= p < be && (p - bs) % 256 == u)
}

/// Positions of the block whose lanes form plane `q` of width `pd`.
pub open spec fn plane_positions(bs: int, be: int, pd: int, q: int) -> Set<int> {
    Set::new(|p: int| bs <= p < be && q * pd <= (p - bs) % 256 < (q + 1) * pd)
}

/// Within the `item`-th stride of 256 positions, the lane is the offset into
/// the stride.
pub proof fn lemma_lane_step(d: int, item: int)
    requires
        item * 256 <= d < (item + 1) * 256,
    ensures
        d % 256 == d - item * 256,
{
    vstd::arithmetic::div_mod::lemma_fundamental_div_mod_converse(d, 256, item, d - item * 256);
}

/// Planes of a plane width split the 256 lanes of a block evenly.
pub proof fn lemma_plane_count(pd: int)
    requires
        is_plane_width(pd),
    ensures
        (256int / pd) * pd == 256,
        (255 + pd) / pd == 256int / pd,
{
    if pd == 1 {
        assert(256int / 1 == 256);
        assert((255 + 1) / 1 == 256);
    } else if pd == 2 {
        assert(256int / 2 == 128);
        assert((255 + 2) / 2 == 128);
    } else if pd == 4 {
        assert(256int / 4 == 64);
        assert((255 + 4) / 4 == 64);
    } else if pd == 8 {
        assert(256int / 8 == 32);
        assert((255 + 8) / 8 == 32);
    } else if pd == 16 {
        assert(256int / 16 == 16);
        assert((255 + 16) / 16 == 16);
    } else if pd == 32 {
        assert(256int / 32 == 8);
        assert((255 + 32) / 32 == 8);
    } else if pd == 64 {
        assert(256int / 64 == 4);
        assert((255 + 64) / 64 == 4);
    } else if pd == 128 {
        assert(256int / 128 == 2);
        assert((255 + 128) / 128 == 2);
    } else {
        assert(256int / 256 == 1);
        assert((255 + 256) / 256 == 1);
    }
}

/// Geometry of plane `q` of width `pd`: its lanes lie inside the block.
pub proof fn lemma_plane_span(pd: int, q: int)
    requires
        is_plane_width(pd),
        0 <= q < 256int / pd,
    ensures
        0 <= q * pd,
        (q + 1) * pd <= 256,
        (256int / pd) * pd == 256,
{
    lemma_plane_count(pd);
    assert(0 <= q * pd && (q + 1) * pd <= 256) by (nonlinear_arith)
        requires
            pd > 0,
            0 <= q,
            q < 256int / pd,
            (256int / pd) * pd == 256,
    {
        assert((q + 1) <= 256int / pd);
        assert((q + 1) * pd <= (256int / pd) * pd);
    }
}

/// The plane that lane `lane` belongs to.
pub proof fn lemma_lane_plane(pd: int, lane: int)
    requires
        is_plane_width(pd),
        0 <= lane < 256,
    ensures
        0 <= lane / pd < 256int / pd,
        (lane / pd) * pd <= lane < (lane / pd + 1) * pd,
{
    vstd::arithmetic::div_mod::lemma_fundamental_div_mod(lane, pd);
    assert(pd * (lane / pd) == (lane / pd) * pd) by (nonlinear_arith);
    vstd::arithmetic::div_mod::lemma_div_pos_is_pos(lane, pd);
    assert(lane / pd < 256int / pd) by {
        if lane / pd >= 256int / pd {
            vstd::arithmetic::mul::lemma_mul_inequality(256int / pd, lane / pd, pd);
        }
    }
}

/// A lane between the bounds of plane `q` belongs to plane `q`.
pub proof fn lemma_in_plane(pd: int, lane: int, q: int)
    requires
        pd > 0,
        q * pd <= lane < (q + 1) * pd,
    ensures
        lane / pd == q,
{
    assert((q + 1) * pd == q * pd + pd) by (nonlinear_arith);
    vstd::arithmetic::div_mod::lemma_fundamental_div_mod_converse(lane, pd, q, lane - q * pd);
}

/// `l + k pd` leaves remainder `l` and quotient `k` for `0 <= l < pd`.
pub proof fn lemma_residue(pd: int, l: int, k: int)
    requires
        0 <= l < pd,
    ensures
        (l + k * pd) % pd == l,
        (l + k * pd) / pd == k,
{
    vstd::arithmetic::div_mod::lemma_fundamental_div_mod_converse(l + k * pd, pd, k, l);
}

/// Plane `q` is empty exactly when its first lane starts at or past the
/// block end.
pub proof fn lemma_plane_empty(bs: int, be: int, pd: int, q: int)
    requires
        is_plane_width(pd),
        0 <= q < 256int / pd,
        bs <= be,
    ensures
        plane_positions(bs, be, pd, q).is_empty() <==> be <= bs + q * pd,
{
    lemma_plane_span(pd, q);
    let ps = plane_positions(bs, be, pd, q);
    if bs + q * pd < be {
        vstd::arithmetic::div_mod::lemma_small_mod((q * pd) as nat, 256);
        assert(ps.contains(bs + q * pd));
    } else {
        assert forall|p: int| !ps.contains(p) by {
            if ps.contains(p) {
                vstd::arithmetic::div_mod::lemma_fundamental_div_mod(p - bs, 256);
                vstd::arithmetic::div_mod::lemma_div_pos_is_pos(p - bs, 256);
            }
        }
        assert(ps =~= Set::<int>::empty());
    }
}

/// The plane of position `p` in the block starting at `bs`.
pub open spec fn plane_of(bs: int, pd: int, p: int) -> int {
    ((p - bs) % 256) / pd
}

/// Every position of plane `q` lies in plane `q`.
pub proof fn lemma_plane_member(bs: int, be: int, pd: int, q: int, p: int)
    requires
        is_plane_width(pd),
        plane_positions(bs, be, pd, q).contains(p),
    ensures
        plane_of(bs, pd, p) == q,
{
    lemma_in_plane(pd, (p - bs) % 256, q);
}

/// Positions `0..n`.
pub open spec fn first_positions(n: int) -> Set<int> {
    Set::new(|p: int| 0 <= p < n)
}

} // verus!
