//! Conflict-free application of already reduced scatter proposals.
//!
//! Proposal `p` targets the output row that the index input gives for source
//! row `order[positions[p]]`; the proposals have been reduced so that no two
//! of them target the same row, and each combines into its row in place.
use vstd::prelude::*;
use crate::error::Error;
use crate::ops::ReductionOp;

verus! {

/// Words of one resolved proposal: whether it is active, and its row.
pub const RESOLVED_SCATTER_WORDS: usize = 2;

/// The output row that proposal `p` targets.
pub open spec fn proposal_target(indices: Seq<u32>, positions: Seq<u32>, order: Seq<u32>, p: int) -> int {
    indices[order[positions[p] as int] as int] as int
}

/// The proposals `0..count` are readable and target distinct rows of an
/// output of `output_len` rows.
pub open spec fn proposals_conflict_free(
    indices: Seq<u32>,
    positions: Seq<u32>,
    order: Seq<u32>,
    count: int,
    output_len: int,
) -> bool {
    &&& forall|p: int| 0 <= p < count ==> (#[trigger] positions[p]) < order.len()
    &&& forall|p: int| 0 <= p < count ==> (#[trigger] order[positions[p] as int]) < indices.len()
    &&& forall|p: int| 0 <= p < count ==> 0 <= #[trigger] proposal_target(indices, positions, order, p) < output_len
    &&& forall|p: int, q: int|
        0 <= p < q < count ==> #[trigger] proposal_target(indices, positions, order, p) != #[trigger] proposal_target(
            indices,
            positions,
            order,
            q,
        )
}

/// Resolves every proposal into whether it is active and the row it targets.
pub fn resolve_scatter(indices: &Vec<u32>, positions: &Vec<u32>, order: &Vec<u32>, active_len: usize) -> (r: Vec<(bool, u32)>)
    requires
        ({
            let count = if active_len < positions.len() { active_len as int } else { positions.len() as int };
            &&& forall|p: int| 0 <= p < count ==> (#[trigger] positions[p]) < order.len()
            &&& forall|p: int| 0 <= p < count ==> (#[trigger] order[positions[p] as int]) < indices.len()
        }),
    ensures
        r.len() == positions.len(),
        forall|p: int| 0 <= p < positions.len() ==> #[trigger] r[p] == if p < active_len {
            (true, proposal_target(indices@, positions@, order@, p) as u32)
        } else {
            (false, 0u32)
        },
{
    let len = positions.len();
    let mut r: Vec<(bool, u32)> = Vec::new();
    let mut p: usize = 0;
    while p < len
        invariant
            len == positions.len(),
            ({
                let count = if active_len < len { active_len as int } else { len as int };
                &&& forall|p: int| 0 <= p < count ==> (#[trigger] positions[p]) < order.len()
                &&& forall|p: int| 0 <= p < count ==> (#[trigger] order[positions[p] as int]) < indices.len()
            }),
            p <= len,
            r.len() == p,
            forall|k: int| 0 <= k < p ==> #[trigger] r[k] == if k < active_len {
                (true, proposal_target(indices@, positions@, order@, k) as u32)
            } else {
                (false, 0u32)
            },
        decreases len - p,
    {
        if p < active_len {
            let source = order[positions[p] as usize] as usize;
            r.push((true, indices[source]));
        } else {
            r.push((false, 0));
        }
        p = p + 1;
    }
    r
}

/// Combines every active proposal into the output row it targets:
/// `output[t] = op(output[t], source[p])`.  Only the first `active_len`
/// proposals are active.
pub fn scatter_combine<T: Copy, Op: ReductionOp<T>>(
    source: &Vec<T>,
    indices: &Vec<u32>,
    positions: &Vec<u32>,
    order: &Vec<u32>,
    active_len: usize,
    output: &mut Vec<T>,
) -> (r: Result<(), Error>)
    requires
        source.len() == positions.len() && source.len() == order.len() ==> proposals_conflict_free(
            indices@,
            positions@,
            order@,
            if active_len < source.len() { active_len as int } else { source.len() as int },
            old(output).len() as int,
        ),
    ensures
        source.len() != positions.len() ==> r == Err::<(), Error>(
            Error::LengthMismatch { left: source.len(), right: positions.len() },
        ) && final(output)@ == old(output)@,
        source.len() == positions.len() && source.len() != order.len() ==> r == Err::<(), Error>(
            Error::LengthMismatch { left: source.len(), right: order.len() },
        ) && final(output)@ == old(output)@,
        source.len() == positions.len() && source.len() == order.len() ==> {
            let count = if active_len < source.len() { active_len as int } else { source.len() as int };
            &&& r is Ok
            &&& final(output).len() == old(output).len()
            &&& forall|p: int| 0 <= p < count ==> #[trigger] final(output)[proposal_target(indices@, positions@, order@, p)]
                == Op::combine(old(output)[proposal_target(indices@, positions@, order@, p)], source[p])
            &&& forall|q: int|
                0 <= q < old(output).len() && (forall|p: int| 0 <= p < count ==> #[trigger] proposal_target(
                    indices@,
                    positions@,
                    order@,
                    p,
                ) != q) ==> #[trigger] final(output)[q] == old(output)[q]
        },
{
    let len = source.len();
    if len != positions.len() {
        return Err(Error::LengthMismatch { left: len, right: positions.len() });
    }
    if len != order.len() {
        return Err(Error::LengthMismatch { left: len, right: order.len() });
    }
    if len == 0 {
        return Ok(());
    }
    let resolved = resolve_scatter(indices, positions, order, active_len);
    let ghost start = output@;
    let ghost count = if active_len < len { active_len as int } else { len as int };
    let mut p: usize = 0;
    while p < len
        invariant
            len == source.len() == positions.len() == order.len() == resolved.len(),
            count == if active_len < len { active_len as int } else { len as int },
            proposals_conflict_free(indices@, positions@, order@, count, start.len() as int),
            forall|k: int| 0 <= k < len ==> #[trigger] resolved[k] == if k < active_len {
                (true, proposal_target(indices@, positions@, order@, k) as u32)
            } else {
                (false, 0u32)
            },
            p <= len,
            output.len() == start.len(),
            forall|k: int| 0 <= k < p && k < count ==> #[trigger] output[proposal_target(indices@, positions@, order@, k)]
                == Op::combine(start[proposal_target(indices@, positions@, order@, k)], source[k]),
            forall|q: int|
                0 <= q < start.len() && (forall|k: int| 0 <= k < p && k < count ==> #[trigger] proposal_target(
                    indices@,
                    positions@,
                    order@,
                    k,
                ) != q) ==> #[trigger] output[q] == start[q],
        decreases len - p,
    {
        let (active, destination) = resolved[p];
        if active {
            let d = destination as usize;
            proof {
                assert(p < count);
                assert(d == proposal_target(indices@, positions@, order@, p as int));
                assert forall|k: int| 0 <= k < p && k < count implies #[trigger] proposal_target(
                    indices@,
                    positions@,
                    order@,
                    k,
                ) != d by {
                    assert(proposal_target(indices@, positions@, order@, k) != proposal_target(
                        indices@,
                        positions@,
                        order@,
                        p as int,
                    ));
                }
                assert(output[d as int] == start[d as int]);
            }
            let previous = output[d];
            output.set(d, Op::apply(previous, source[p]));
            proof {
                assert forall|q: int|
                    0 <= q < start.len() && (forall|k: int| 0 <= k < p + 1 && k < count ==> #[trigger] proposal_target(
                        indices@,
                        positions@,
                        order@,
                        k,
                    ) != q) implies #[trigger] output[q] == start[q] by {
                    assert(proposal_target(indices@, positions@, order@, p as int) != q);
                }
            }
        }
        p = p + 1;
    }
    Ok(())
}

} // verus!
