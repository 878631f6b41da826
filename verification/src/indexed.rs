//! Indexed copies: gathers, scatters and permutation transfers.
//!
//! Every indexed copy runs in two stages.  The first resolves the index
//! input (and an optional selection) into a compact list of copy entries,
//! each naming the row read and the row written; the second applies the
//! entries to the payload.
use vstd::prelude::*;
use crate::error::Error;
use crate::flags::{count_flags, kept, lemma_kept_index};
use crate::selection::SelectionControl;

verus! {

/// Words of the resolved-entry buffer before the first entry.
pub const RESOLVED_INDEX_HEADER_WORDS: usize = 1;

/// Words of one compact gather entry: only the row read.
pub const RESOLVED_GATHER_ENTRY_WORDS: usize = 1;

/// Words of one scatter entry: the row read and the row written.
pub const RESOLVED_SCATTER_ENTRY_WORDS: usize = 2;

/// What an indexed copy writes where.
#[derive(Debug, Clone, Copy, PartialEq, Eq, Structural)]
pub enum CopyMode {
    /// Row `indices[p]` is written to the next compact output row.
    CompactGather,
    /// Row `p` is written to output row `indices[p]`.
    Scatter,
    /// Row `indices[p]` is written to output row `p`.
    RetainedGather,
}

/// A selection limiting which index rows take part in a copy.
pub enum IndexSelection<'a> {
    /// Only the rows that the control selects propose a copy, in order.
    Routing { control: &'a SelectionControl, retain_output_position: bool },
}

/// The positions `0..n`.
pub open spec fn positions(n: nat) -> Seq<u32> {
    Seq::new(n, |i: int| i as u32)
}

/// The copy that the index row at position `p` proposes as compact entry `c`:
/// the row read and the row written.
pub open spec fn copy_entry(indices: Seq<u32>, mode: CopyMode, p: u32, c: int) -> (u32, u32) {
    match mode {
        CopyMode::CompactGather => (indices[p as int], c as u32),
        CopyMode::Scatter => (p, indices[p as int]),
        CopyMode::RetainedGather => (indices[p as int], p),
    }
}

/// The first `k` copy entries proposed by the index rows listed in `rows`.
pub open spec fn copy_entries(indices: Seq<u32>, rows: Seq<u32>, mode: CopyMode, k: nat) -> Seq<(u32, u32)> {
    Seq::new(k, |c: int| copy_entry(indices, mode, rows[c], c))
}

/// The output after applying the copies `0..k` in order.
pub open spec fn apply_copies<T>(out: Seq<T>, values: Seq<T>, entries: Seq<(u32, u32)>, k: int) -> Seq<T>
    decreases k,
{
    if k <= 0 {
        out
    } else {
        apply_copies(out, values, entries, k - 1).update(
            entries[k - 1].1 as int,
            values[entries[k - 1].0 as int],
        )
    }
}

/// Every applied copy reads a row of `values` and writes a row of the output.
pub open spec fn copies_in_bounds(entries: Seq<(u32, u32)>, k: int, values_len: int, output_len: int) -> bool {
    forall|c: int| 0 <= c < k ==> (#[trigger] entries[c]).0 < values_len && entries[c].1 < output_len
}

/// Copies to distinct rows: each written row holds the row its copy read.
pub proof fn lemma_apply_distinct<T>(out: Seq<T>, values: Seq<T>, entries: Seq<(u32, u32)>, k: int)
    requires
        0 <= k <= entries.len(),
        copies_in_bounds(entries, k, values.len() as int, out.len() as int),
        forall|a: int, b: int| 0 <= a < b < k ==> (#[trigger] entries[a]).1 != (#[trigger] entries[b]).1,
    ensures
        apply_copies(out, values, entries, k).len() == out.len(),
        forall|c: int| 0 <= c < k ==> #[trigger] apply_copies(out, values, entries, k)[entries[c].1 as int]
            == values[entries[c].0 as int],
        forall|q: int|
            0 <= q < out.len() && (forall|c: int| 0 <= c < k ==> (#[trigger] entries[c]).1 != q) ==> #[trigger] apply_copies(
                out,
                values,
                entries,
                k,
            )[q] == out[q],
    decreases k,
{
    if k > 0 {
        lemma_apply_distinct(out, values, entries, k - 1);
        assert forall|c: int| 0 <= c < k implies #[trigger] apply_copies(out, values, entries, k)[entries[c].1 as int]
            == values[entries[c].0 as int] by {
            if c < k - 1 {
                assert(entries[c].1 != entries[k - 1].1);
            }
        }
    }
}

/// Resolves index rows into compact copy entries.  Without a selection the
/// rows `0..active` propose, at most `capacity` of them; with a selection,
/// the selected rows propose in order until `capacity` entries exist.
pub fn resolve_index(
    indices: &Vec<u32>,
    selection: Option<&SelectionControl>,
    mode: CopyMode,
    active_len: usize,
    capacity: usize,
) -> (r: Vec<(u32, u32)>)
    requires
        capacity <= u32::MAX,
        selection is None ==> capacity <= indices.len(),
        selection matches Some(control) ==> control.well_formed() && control.selection().len()
            == indices.len(),
    ensures
        selection is None ==> r@ == copy_entries(
            indices@,
            positions(indices.len() as nat),
            mode,
            if active_len < capacity { active_len as nat } else { capacity as nat },
        ),
        selection matches Some(control) ==> {
            let sel = control.selection();
            let selected = count_flags(sel, sel.len() as int);
            &&& r.len() == if selected < capacity { selected } else { capacity as nat }
            &&& r@ == copy_entries(indices@, kept(positions(sel.len()), sel, sel.len() as int), mode, r.len() as nat)
        },
{
    let mut entries: Vec<(u32, u32)> = Vec::new();
    match selection {
        None => {
            let limit = if active_len < capacity {
                active_len
            } else {
                capacity
            };
            let mut p: usize = 0;
            while p < limit
                invariant
                    limit <= capacity <= u32::MAX,
                    capacity <= indices.len(),
                    p <= limit,
                    entries@ == copy_entries(indices@, positions(indices.len() as nat), mode, p as nat),
                decreases limit - p,
            {
                let source = p as u32;
                let entry = match mode {
                    CopyMode::CompactGather => (indices[p], source),
                    CopyMode::Scatter => (source, indices[p]),
                    CopyMode::RetainedGather => (indices[p], source),
                };
                entries.push(entry);
                proof {
                    assert(entries@ =~= copy_entries(indices@, positions(indices.len() as nat), mode, (p + 1) as nat));
                }
                p = p + 1;
            }
        },
        Some(control) => {
            let n = control.len();
            let ghost sel = control.selection();
            let ghost rows = kept(positions(n as nat), sel, n as int);
            let mut p: usize = 0;
            while p < n
                invariant
                    n == indices.len() == sel.len(),
                    n <= u32::MAX,
                    sel == control.selection(),
                    control.well_formed(),
                    rows == kept(positions(n as nat), sel, n as int),
                    capacity <= u32::MAX,
                    p <= n,
                    entries.len() == if count_flags(sel, p as int) < capacity {
                        count_flags(sel, p as int)
                    } else {
                        capacity as nat
                    },
                    entries@ == copy_entries(indices@, rows, mode, entries.len() as nat),
                decreases n - p,
            {
                let (rank, selected) = control.rank_before(p);
                if selected && (rank as usize) < capacity {
                    proof {
                        lemma_kept_index(positions(n as nat), sel, n as int, p as int);
                    }
                    let source = p as u32;
                    let entry = match mode {
                        CopyMode::CompactGather => (indices[p], rank),
                        CopyMode::Scatter => (source, indices[p]),
                        CopyMode::RetainedGather => (indices[p], source),
                    };
                    entries.push(entry);
                    proof {
                        assert(entries@ =~= copy_entries(indices@, rows, mode, entries.len() as nat));
                    }
                }
                p = p + 1;
            }
        },
    }
    entries
}

/// Applies the copy entries `0..k` to the output in order.
pub fn indexed_transfer<T: Copy>(values: &Vec<T>, entries: &Vec<(u32, u32)>, k: usize, output: &mut Vec<T>)
    requires
        k <= entries.len(),
        copies_in_bounds(entries@, k as int, values.len() as int, old(output).len() as int),
    ensures
        final(output)@ == apply_copies(old(output)@, values@, entries@, k as int),
{
    let ghost start = output@;
    let mut c: usize = 0;
    while c < k
        invariant
            k <= entries.len(),
            copies_in_bounds(entries@, k as int, values.len() as int, start.len() as int),
            c <= k,
            output.len() == start.len(),
            output@ == apply_copies(start, values@, entries@, c as int),
        decreases k - c,
    {
        let (source, destination) = entries[c];
        proof {
            assert(entries@[c as int].0 < values.len());
        }
        output.set(destination as usize, values[source as usize]);
        c = c + 1;
    }
}

/// The index rows that propose copies, in order.
pub open spec fn proposing_rows(selection: Option<IndexSelection>, n: nat) -> Seq<u32> {
    match selection {
        None => positions(n),
        Some(IndexSelection::Routing { control, .. }) => kept(positions(n), control.selection(), n as int),
    }
}

/// The kind of copy an indexed copy performs.
pub open spec fn copy_mode(selection: Option<IndexSelection>, gather: bool) -> CopyMode {
    if !gather {
        CopyMode::Scatter
    } else {
        match selection {
            Some(IndexSelection::Routing { retain_output_position: true, .. }) => CopyMode::RetainedGather,
            _ => CopyMode::CompactGather,
        }
    }
}

/// Number of index rows an indexed copy dispatches: an explicit active
/// length caps a gather at the output's length.
pub open spec fn operation_len(indices_len: nat, active_len: Option<usize>, gather: bool, output_len: nat) -> nat {
    if gather && active_len is Some && output_len < indices_len {
        output_len
    } else {
        indices_len
    }
}

/// Number of copies an indexed copy applies.
pub open spec fn transfer_count(indices_len: nat, active_len: Option<usize>, gather: bool, output_len: nat) -> nat {
    let operation = operation_len(indices_len, active_len, gather, output_len);
    match active_len {
        Some(active) => if (active as nat) < operation { active as nat } else { operation },
        None => operation,
    }
}

/// Words of the resolved-entry buffer of an indexed copy.
pub open spec fn resolved_words(operation: nat, mode: CopyMode) -> nat {
    operation * (if mode == CopyMode::CompactGather { 1nat } else { 2nat }) + 1
}

/// The length that a too-large index resolution reports: its word count,
/// or the operation count when the word count overflows `usize`.
pub open spec fn resolved_len_error(operation: nat, mode: CopyMode) -> usize {
    if resolved_words(operation, mode) > usize::MAX {
        operation as usize
    } else {
        resolved_words(operation, mode) as usize
    }
}

/// Whether a selection, if any, covers exactly `n` index rows.
pub open spec fn selection_agrees(selection: Option<IndexSelection>, n: nat) -> bool {
    match selection {
        Some(IndexSelection::Routing { control, .. }) => control.selection().len() == n,
        None => true,
    }
}

/// An indexed copy passes every host-side check and goes on to resolve and
/// apply its copies.
pub open spec fn copy_launches(
    values_len: nat,
    indices_len: nat,
    selection: Option<IndexSelection>,
    active_len: Option<usize>,
    gather: bool,
    output_len: nat,
) -> bool {
    let operation = operation_len(indices_len, active_len, gather, output_len);
    &&& gather || values_len == indices_len
    &&& selection_agrees(selection, indices_len)
    &&& !(gather && active_len is None && output_len < indices_len)
    &&& operation > 0
    &&& resolved_words(operation, copy_mode(selection, gather)) <= u32::MAX
}

/// Gathers (`gather`) or scatters rows of `values` through `indices`,
/// optionally only for the rows a selection keeps, and at most
/// `active_len` of them.
pub fn indexed_copy_selected<T: Copy>(
    values: &Vec<T>,
    indices: &Vec<u32>,
    selection: Option<IndexSelection>,
    active_len: Option<usize>,
    gather: bool,
    output: &mut Vec<T>,
) -> (r: Result<(), Error>)
    requires
        selection matches Some(IndexSelection::Routing { control, .. }) ==> control.well_formed() && (
        copy_launches(values.len() as nat, indices.len() as nat, selection, active_len, gather, old(output).len() as nat)
            ==> transfer_count(indices.len() as nat, active_len, gather, old(output).len() as nat) <= count_flags(
            control.selection(),
            control.selection().len() as int,
        )),
        ({
            let k = transfer_count(indices.len() as nat, active_len, gather, old(output).len() as nat);
            let entries = copy_entries(
                indices@,
                proposing_rows(selection, indices.len() as nat),
                copy_mode(selection, gather),
                k,
            );
            copy_launches(
                values.len() as nat,
                indices.len() as nat,
                selection,
                active_len,
                gather,
                old(output).len() as nat,
            ) ==> copies_in_bounds(
                entries,
                k as int,
                values.len() as int,
                old(output).len() as int,
            )
        }),
    ensures
        !gather && values.len() != indices.len() ==> r == Err::<(), Error>(
            Error::LengthMismatch { left: values.len(), right: indices.len() },
        ) && final(output)@ == old(output)@,
        (gather || values.len() == indices.len()) ==> {
            let n = indices.len() as nat;
            let out_len = old(output).len() as nat;
            let operation = operation_len(n, active_len, gather, out_len);
            let mode = copy_mode(selection, gather);
            let k = transfer_count(n, active_len, gather, out_len);
            if !selection_agrees(selection, n) {
                r == Err::<(), Error>(Error::LengthMismatch {
                    left: indices.len(),
                    right: match selection {
                        Some(IndexSelection::Routing { control, .. }) => control.selection().len() as usize,
                        None => 0,
                    },
                }) && final(output)@ == old(output)@
            } else if gather && active_len is None && out_len < n {
                r == Err::<(), Error>(Error::OutputTooShort { input: indices.len(), output: old(output).len() })
                    && final(output)@ == old(output)@
            } else if operation == 0 {
                r is Ok && final(output)@ == old(output)@
            } else if resolved_words(operation, mode) > u32::MAX {
                r == Err::<(), Error>(Error::LengthTooLarge { len: resolved_len_error(operation, mode) })
                    && final(output)@ == old(output)@
            } else {
                r is Ok && final(output)@ == apply_copies(
                    old(output)@,
                    values@,
                    copy_entries(indices@, proposing_rows(selection, n), mode, k),
                    k as int,
                )
            }
        },
{
    let values_len = values.len();
    let indices_len = indices.len();
    if !gather && values_len != indices_len {
        return Err(Error::LengthMismatch { left: values_len, right: indices_len });
    }
    let mut control: Option<&SelectionControl> = None;
    let mut retain = false;
    match selection {
        Some(IndexSelection::Routing { control: c, retain_output_position }) => {
            let len = c.len();
            if len != indices_len {
                return Err(Error::LengthMismatch { left: indices_len, right: len });
            }
            control = Some(c);
            retain = retain_output_position;
        },
        None => {},
    }
    let operation_capacity = indices_len;
    let output_len = output.len();
    if gather && active_len.is_none() && output_len < indices_len {
        return Err(Error::OutputTooShort { input: indices_len, output: output_len });
    }
    // A device-resident active length cannot be checked against the output
    // on the host; for gathers the compact position is the output position,
    // so the dispatch is capped at the output's length instead.
    let operation = if gather && active_len.is_some() && output_len < operation_capacity {
        output_len
    } else {
        operation_capacity
    };
    if operation == 0 {
        return Ok(());
    }
    let mode = if !gather {
        CopyMode::Scatter
    } else if retain {
        CopyMode::RetainedGather
    } else {
        CopyMode::CompactGather
    };
    let entry_words = if gather && !retain {
        RESOLVED_GATHER_ENTRY_WORDS
    } else {
        RESOLVED_SCATTER_ENTRY_WORDS
    };
    let resolved_len = match operation.checked_mul(entry_words) {
        Some(entries) => match entries.checked_add(RESOLVED_INDEX_HEADER_WORDS) {
            Some(words) => words,
            None => {
                return Err(Error::LengthTooLarge { len: operation });
            },
        },
        None => {
            return Err(Error::LengthTooLarge { len: operation });
        },
    };
    if resolved_len > u32::MAX as usize {
        return Err(Error::LengthTooLarge { len: resolved_len });
    }
    let active = match active_len {
        Some(a) => a,
        None => operation_capacity,
    };
    proof {
        assert(mode == copy_mode(selection, gather));
        assert(resolved_len == resolved_words(operation as nat, mode));
    }
    let entries = resolve_index(indices, control, mode, active, operation);
    let count = if active < operation {
        active
    } else {
        operation
    };
    proof {
        let rows = proposing_rows(selection, indices_len as nat);
        assert(count == transfer_count(indices_len as nat, active_len, gather, output_len as nat));
        assert(entries@.subrange(0, count as int) =~= copy_entries(indices@, rows, mode, count as nat).subrange(0, count as int));
    }
    let ghost full = copy_entries(indices@, proposing_rows(selection, indices_len as nat), mode, count as nat);
    proof {
        assert forall|c: int| 0 <= c < count implies #[trigger] entries@[c] == full[c] by {
        }
        lemma_apply_prefix(output@, values@, entries@, full, count as int);
    }
    indexed_transfer(values, &entries, count, output);
    Ok(())
}

/// Applying copies depends only on the entries applied.
proof fn lemma_apply_prefix<T>(out: Seq<T>, values: Seq<T>, a: Seq<(u32, u32)>, b: Seq<(u32, u32)>, k: int)
    requires
        0 <= k,
        k <= a.len(),
        k <= b.len(),
        forall|c: int| 0 <= c < k ==> #[trigger] a[c] == b[c],
    ensures
        apply_copies(out, values, a, k) == apply_copies(out, values, b, k),
        copies_in_bounds(a, k, values.len() as int, out.len() as int) == copies_in_bounds(b, k, values.len() as int, out.len() as int),
    decreases k,
{
    if k > 0 {
        lemma_apply_prefix(out, values, a, b, k - 1);
    }
}

/// Gathers (`gather`) or scatters every row of `values` through `indices`.
pub fn indexed_copy<T: Copy>(values: &Vec<T>, indices: &Vec<u32>, gather: bool, output: &mut Vec<T>) -> (r: Result<
    (),
    Error,
>)
    requires
        gather ==> forall|c: int| 0 <= c < indices.len() ==> #[trigger] indices[c] < values.len(),
        !gather ==> forall|c: int| 0 <= c < indices.len() ==> #[trigger] indices[c] < old(output).len(),
    ensures
        !gather && values.len() != indices.len() ==> r == Err::<(), Error>(
            Error::LengthMismatch { left: values.len(), right: indices.len() },
        ) && final(output)@ == old(output)@,
        gather && old(output).len() < indices.len() ==> r == Err::<(), Error>(
            Error::OutputTooShort { input: indices.len(), output: old(output).len() },
        ) && final(output)@ == old(output)@,
        (gather || values.len() == indices.len()) && (!gather || old(output).len() >= indices.len()) ==> {
            let mode = if gather { CopyMode::CompactGather } else { CopyMode::Scatter };
            if indices.len() == 0 {
                r is Ok && final(output)@ == old(output)@
            } else if resolved_words(indices.len() as nat, mode) > u32::MAX {
                r == Err::<(), Error>(Error::LengthTooLarge {
                    len: resolved_len_error(indices.len() as nat, mode),
                }) && final(output)@ == old(output)@
            } else {
                r is Ok && final(output)@ == apply_copies(
                    old(output)@,
                    values@,
                    copy_entries(indices@, positions(indices.len() as nat), mode, indices.len() as nat),
                    indices.len() as int,
                )
            }
        },
{
    indexed_copy_selected(values, indices, None, None, gather, output)
}

/// Gathers `values[indices[c]]` into output row `c` for every index row.
pub fn gather<T: Copy>(values: &Vec<T>, indices: &Vec<u32>, output: &mut Vec<T>) -> (r: Result<(), Error>)
    requires
        forall|c: int| 0 <= c < indices.len() ==> #[trigger] indices[c] < values.len(),
    ensures
        old(output).len() < indices.len() ==> r == Err::<(), Error>(
            Error::OutputTooShort { input: indices.len(), output: old(output).len() },
        ) && final(output)@ == old(output)@,
        old(output).len() >= indices.len() && indices.len() >= u32::MAX ==> (r == Err::<(), Error>(
            Error::LengthTooLarge {
                len: resolved_len_error(indices.len() as nat, CopyMode::CompactGather),
            },
        ) && final(output)@ == old(output)@),
        old(output).len() >= indices.len() && indices.len() < u32::MAX ==> {
            &&& r is Ok
            &&& final(output).len() == old(output).len()
            &&& forall|c: int| 0 <= c < indices.len() ==> #[trigger] final(output)[c] == values[indices[c] as int]
            &&& forall|q: int| indices.len() <= q < old(output).len() ==> #[trigger] final(output)[q] == old(output)[q]
        },
{
    let ghost start = output@;
    let r = indexed_copy(values, indices, true, output);
    proof {
        let n = indices.len() as int;
        let entries = copy_entries(indices@, positions(n as nat), CopyMode::CompactGather, n as nat);
        if start.len() >= n && n < u32::MAX && n > 0 {
            assert forall|a: int, b: int| 0 <= a < b < n implies (#[trigger] entries[a]).1 != (#[trigger] entries[b]).1 by {
            }
            lemma_apply_distinct(start, values@, entries, n);
            assert forall|c: int| 0 <= c < n implies #[trigger] output[c] == values[indices[c] as int] by {
                assert(entries[c].1 == c);
            }
            assert forall|q: int| n <= q < start.len() implies #[trigger] output[q] == start[q] by {
                assert forall|c: int| 0 <= c < n implies (#[trigger] entries[c]).1 != q by {
                }
            }
        }
    }
    r
}

/// Gathers `values` through `indices` into the output.
pub fn gather_direct<T: Copy>(values: &Vec<T>, indices: &Vec<u32>, output: &mut Vec<T>) -> (r: Result<(), Error>)
    requires
        forall|c: int| 0 <= c < indices.len() ==> #[trigger] indices[c] < values.len(),
    ensures
        old(output).len() < indices.len() ==> r == Err::<(), Error>(
            Error::OutputTooShort { input: indices.len(), output: old(output).len() },
        ) && final(output)@ == old(output)@,
        old(output).len() >= indices.len() && indices.len() >= u32::MAX ==> (r == Err::<(), Error>(
            Error::LengthTooLarge {
                len: resolved_len_error(indices.len() as nat, CopyMode::CompactGather),
            },
        ) && final(output)@ == old(output)@),
        old(output).len() >= indices.len() && indices.len() < u32::MAX ==> {
            &&& r is Ok
            &&& final(output).len() == old(output).len()
            &&& forall|c: int| 0 <= c < indices.len() ==> #[trigger] final(output)[c] == values[indices[c] as int]
            &&& forall|q: int| indices.len() <= q < old(output).len() ==> #[trigger] final(output)[q] == old(output)[q]
        },
{
    gather(values, indices, output)
}

/// Number of output rows a permutation transfer writes.
pub open spec fn permutation_count(len: nat, active_len: Option<usize>, output_len: nat) -> nat {
    match active_len {
        Some(active) => {
            let operation = if output_len < len { output_len } else { len };
            if (active as nat) < operation { active as nat } else { operation }
        },
        None => len,
    }
}

/// Applies an already materialised permutation: output row `o` receives
/// `values[permutation[o]]`, for the first `active_len` rows when given.
pub fn permutation_copy<T: Copy>(
    values: &Vec<T>,
    permutation: &Vec<u32>,
    active_len: Option<usize>,
    output: &mut Vec<T>,
) -> (r: Result<(), Error>)
    requires
        forall|o: int|
            0 <= o < permutation_count(permutation.len() as nat, active_len, old(output).len() as nat) ==> #[trigger] permutation[o]
                < values.len(),
    ensures
        active_len is None && old(output).len() < permutation.len() ==> r == Err::<(), Error>(
            Error::OutputTooShort { input: permutation.len(), output: old(output).len() },
        ) && final(output)@ == old(output)@,
        active_len is Some || old(output).len() >= permutation.len() ==> {
            let k = permutation_count(permutation.len() as nat, active_len, old(output).len() as nat);
            &&& r is Ok
            &&& final(output).len() == old(output).len()
            &&& forall|o: int| 0 <= o < k ==> #[trigger] final(output)[o] == values[permutation[o] as int]
            &&& forall|q: int| k <= q < old(output).len() ==> #[trigger] final(output)[q] == old(output)[q]
        },
{
    let capacity = permutation.len();
    let output_len = output.len();
    if active_len.is_none() && output_len < capacity {
        return Err(Error::OutputTooShort { input: capacity, output: output_len });
    }
    let operation = if active_len.is_some() && output_len < capacity {
        output_len
    } else {
        capacity
    };
    if operation == 0 {
        return Ok(());
    }
    let count = match active_len {
        Some(active) => if active < operation {
            active
        } else {
            operation
        },
        None => operation,
    };
    let ghost start = output@;
    let mut o: usize = 0;
    while o < count
        invariant
            count == permutation_count(capacity as nat, active_len, start.len() as nat),
            capacity == permutation.len(),
            count <= capacity,
            count <= start.len(),
            forall|o: int| 0 <= o < count ==> #[trigger] permutation[o] < values.len(),
            o <= count,
            output.len() == start.len(),
            forall|p: int| 0 <= p < o ==> #[trigger] output[p] == values[permutation[p] as int],
            forall|q: int| o <= q < start.len() ==> #[trigger] output[q] == start[q],
        decreases count - o,
    {
        output.set(o, values[permutation[o] as usize]);
        o = o + 1;
    }
    Ok(())
}

} // verus!
