//! Stable selection: a compact route of per-block bit masks records which
//! rows a stencil selects, and every transfer recovers a row's destination
//! from its block prefix, its word prefix and a masked population count.
use vstd::prelude::*;
use crate::bits::{
    bit_set, count_ones, lemma_ones_below_low_mask, lemma_set_bit, lemma_test_bit,
    lemma_zero_bits, low_mask, ones_below,
};
use crate::error::Error;
use crate::flags::{
    count_flags, flag_at, lemma_count_bounds, lemma_count_extend, lemma_count_negate,
    lemma_kept_index, lemma_kept_len, negate, rejected_rows, selected_rows,
};
use crate::fold::{fold_range, lemma_fold_range_extend};
use crate::launch::logical_block_count;
use crate::ops::{PredicateOp, Sum, UnaryOp};
use crate::scan::{block_count, inclusive_scan_u32, last_u32};

verus! {

pub const BLOCK_SIZE: usize = 256;

pub const ROUTE_WORD_BITS: usize = 32;

pub const ROUTE_WORDS_PER_BLOCK: usize = 8;

pub const ROUTE_WORD_STRIDE: usize = 2;

pub const ROUTE_BLOCK_STRIDE: usize = 16;

/// Word `w` of block `b` holds, at route row `b * 16 + 2 * w`, the mask of
/// the 32 rows it covers and, in the next route row, the number of rows the
/// block selects before the word.
pub open spec fn word_encoded(route: Seq<u32>, sel: Seq<bool>, b: int, w: int) -> bool {
    let base = b * 256 + w * 32;
    &&& forall|j: u32| j < 32 ==> #[trigger] bit_set(route[b * 16 + w * 2], j) == flag_at(
        sel,
        base + j,
    )
    &&& route[b * 16 + w * 2 + 1] == count_flags(sel, base) - count_flags(sel, b * 256)
}

/// `route` encodes the selection `sel`: one 16-row record per block and a
/// final row holding the source length.
pub open spec fn route_encodes(route: Seq<u32>, sel: Seq<bool>) -> bool {
    let blocks = block_count(sel.len() as int);
    &&& route.len() == blocks * 16 + 1
    &&& route[blocks * 16] == sel.len()
    &&& forall|b: int, w: int| 0 <= b < blocks && 0 <= w < 8 ==> #[trigger] word_encoded(route, sel, b, w)
}

/// How a ranked transfer places the rows it moves.
#[derive(Debug, Clone, Copy, PartialEq, Eq, Structural)]
pub enum TransferMode {
    /// Selected rows, packed at the front in source order.
    Compact,
    /// Selected rows packed at the front, then the others in source order.
    Partition,
    /// Selected rows at their own position; other rows stay untouched.
    Retained,
}

/// Stable selected-row control shared by every payload that uses the same
/// stencil.
pub struct SelectionControl {
    len: usize,
    route: Vec<u32>,
    block_prefixes: Vec<u32>,
    count: Vec<u32>,
    selected: Ghost<Seq<bool>>,
}

impl SelectionControl {
    /// Which source rows are selected.
    pub closed spec fn selection(&self) -> Seq<bool> {
        self.selected@
    }

    /// Internal consistency of the route, the block prefixes and the count.
    pub closed spec fn well_formed(&self) -> bool {
        let sel = self.selected@;
        let blocks = block_count(self.len as int);
        &&& self.len <= u32::MAX
        &&& sel.len() == self.len
        &&& route_encodes(self.route@, sel)
        &&& self.block_prefixes@.len() == blocks
        &&& forall|b: int|
            0 <= b < blocks ==> #[trigger] self.block_prefixes@[b] == count_flags(
                sel,
                (b + 1) * 256,
            )
        &&& self.count@ == seq![count_flags(sel, self.len as int) as u32]
    }

    /// Number of source rows.
    pub fn len(&self) -> (r: usize)
        requires
            self.well_formed(),
        ensures
            r == self.selection().len(),
            r <= u32::MAX,
    {
        self.len
    }

    /// One-row buffer holding the number of selected rows.
    pub fn count(&self) -> (r: &Vec<u32>)
        requires
            self.well_formed(),
        ensures
            r@ == seq![count_flags(self.selection(), self.selection().len() as int) as u32],
    {
        &self.count
    }

    /// The packed route words.
    pub fn route(&self) -> (r: &Vec<u32>)
        requires
            self.well_formed(),
        ensures
            route_encodes(r@, self.selection()),
    {
        &self.route
    }

    /// Inclusive per-block selected counts.
    pub fn block_prefixes(&self) -> (r: &Vec<u32>)
        requires
            self.well_formed(),
        ensures
            r.len() == block_count(self.selection().len() as int),
            forall|b: int|
                0 <= b < r.len() ==> #[trigger] r@[b] == count_flags(self.selection(), (b + 1) * 256),
    {
        &self.block_prefixes
    }

    /// The number of selected rows before `index`, and whether `index` is
    /// selected.
    pub fn rank_before(&self, index: usize) -> (r: (u32, bool))
        requires
            self.well_formed(),
            index < self.selection().len(),
        ensures
            r.0 == count_flags(self.selection(), index as int),
            r.1 == self.selection()[index as int],
    {
        let ghost sel = self.selected@;
        let block = index / BLOCK_SIZE;
        let local = index - block * BLOCK_SIZE;
        let word = local / ROUTE_WORD_BITS;
        let bit = local - word * ROUTE_WORD_BITS;
        proof {
            assert(block < block_count(self.len as int));
            assert(word_encoded(self.route@, sel, block as int, word as int));
            lemma_count_bounds(sel, block * 256, index as int);
            lemma_count_bounds(sel, 0, index as int);
            lemma_count_bounds(sel, block * 256, block * 256 + word * 32);
        }
        let route_index = block * ROUTE_BLOCK_STRIDE + word * ROUTE_WORD_STRIDE;
        let mask = self.route[route_index];
        let lower_mask: u32 = if bit == 0 {
            0u32
        } else {
            let b32 = bit as u32;
            assert((1u32 << b32) >= 1u32) by (bit_vector)
                requires
                    b32 < 32,
            ;
            (1u32 << b32) - 1u32
        };
        let block_prefix = if block == 0 {
            0u32
        } else {
            self.block_prefixes[block - 1]
        };
        let masked = count_ones(mask & lower_mask);
        proof {
            let base = block * 256 + word * 32;
            assert(lower_mask == low_mask(bit as u32));
            lemma_ones_below_low_mask(mask, bit as u32);
            lemma_word_ones(mask, sel, base as int, bit as nat);
            lemma_count_bounds(sel, base as int, index as int);
        }
        let rank = block_prefix + self.route[route_index + 1] + masked;
        let selected = (mask & (1u32 << bit as u32)) != 0u32;
        proof {
            lemma_test_bit(mask, bit as u32);
        }
        (rank, selected)
    }
}

/// Counting the bits of a word that encodes flags from `base` on.
proof fn lemma_word_ones(m: u32, sel: Seq<bool>, base: int, k: nat)
    requires
        k <= 32,
        base >= 0,
        forall|j: u32| j < 32 ==> #[trigger] bit_set(m, j) == flag_at(sel, base + j),
    ensures
        ones_below(m, k) == count_flags(sel, base + k) - count_flags(sel, base),
    decreases k,
{
    lemma_count_bounds(sel, base, base + k);
    if k > 0 {
        lemma_word_ones(m, sel, base, (k - 1) as nat);
        assert(bit_set(m, (k - 1) as u32) == flag_at(sel, base + k - 1));
    }
}

/// The mask of the 32 rows starting at `base`.
fn word_mask(sel: &Vec<bool>, base: usize) -> (m: u32)
    requires
        base <= sel.len(),
    ensures
        forall|j: u32| j < 32 ==> #[trigger] bit_set(m, j) == flag_at(sel@, base + j),
{
    let mut m: u32 = 0;
    let mut bit: u32 = 0;
    proof {
        assert forall|j: u32| j < 32 implies !bit_set(0u32, j) by {
            lemma_zero_bits(j);
        }
    }
    while bit < 32
        invariant
            bit <= 32,
            base <= sel.len(),
            forall|j: u32| j < 32 ==> #[trigger] bit_set(m, j) == (j < bit && flag_at(sel@, base + j)),
        decreases 32 - bit,
    {
        if (bit as usize) < sel.len() - base && sel[base + bit as usize] {
            proof {
                assert forall|j: u32| j < 32 implies #[trigger] bit_set(m | (1u32 << bit), j) == (
                j < bit + 1 && flag_at(sel@, base + j)) by {
                    lemma_set_bit(m, bit, j);
                }
            }
            m = m | (1u32 << bit);
        }
        bit += 1;
    }
    m
}

/// The selected-row totals of consecutive blocks add up to the selected
/// count before the end of each block.
proof fn lemma_block_count_prefix(counts: Seq<u32>, sel: Seq<bool>, b: int)
    requires
        sel.len() <= u32::MAX,
        0 <= b < counts.len(),
        forall|c: int|
            0 <= c < counts.len() ==> #[trigger] counts[c] == count_flags(sel, (c + 1) * 256)
                - count_flags(sel, c * 256),
    ensures
        fold_range::<u32, Sum>(counts, 0, b + 1) == count_flags(sel, (b + 1) * 256),
    decreases b,
{
    lemma_count_bounds(sel, b * 256, (b + 1) * 256);
    lemma_count_bounds(sel, 0, (b + 1) * 256);
    if (b + 1) * 256 > sel.len() {
        lemma_count_extend(sel, (b + 1) * 256);
    }
    lemma_count_bounds(sel, 0, sel.len() as int);
    if b > 0 {
        lemma_block_count_prefix(counts, sel, b - 1);
        lemma_fold_range_extend::<u32, Sum>(counts, 0, b);
    }
}

impl SelectionControl {
    /// Builds the route, block prefixes and count for the selection `sel`.
    fn from_selected(sel: &Vec<bool>) -> (r: SelectionControl)
        requires
            sel.len() <= u32::MAX,
        ensures
            r.well_formed(),
            r.selection() == sel@,
    {
        let len = sel.len();
        let blocks = logical_block_count(len, BLOCK_SIZE);
        let route_len = blocks * ROUTE_BLOCK_STRIDE + 1;
        let mut route = vec![0u32; route_len];
        let mut block_counts = vec![0u32; blocks];
        let ghost s = sel@;
        let mut b: usize = 0;
        while b < blocks
            invariant
                s == sel@,
                len == sel.len(),
                len <= u32::MAX,
                blocks == block_count(len as int),
                (blocks - 1) * 256 < len <= blocks * 256 || (blocks == 0 && len == 0),
                route.len() == route_len,
                route_len == blocks * 16 + 1,
                block_counts.len() == blocks,
                b <= blocks,
                forall|c: int, w: int|
                    0 <= c < b && 0 <= w < 8 ==> #[trigger] word_encoded(route@, s, c, w),
                forall|c: int|
                    0 <= c < b ==> #[trigger] block_counts@[c] == count_flags(s, (c + 1) * 256)
                        - count_flags(s, c * 256),
            decreases blocks - b,
        {
            let mut prefix: u32 = 0;
            let mut w: usize = 0;
            let ghost start = b * 256;
            while w < ROUTE_WORDS_PER_BLOCK
                invariant
                    s == sel@,
                    len == sel.len(),
                    len <= u32::MAX,
                    b < blocks,
                    blocks == block_count(len as int),
                    (blocks - 1) * 256 < len <= blocks * 256,
                    start == b * 256,
                    route.len() == route_len,
                    route_len == blocks * 16 + 1,
                    w <= 8,
                    prefix == count_flags(s, start + w * 32) - count_flags(s, start),
                    forall|c: int, v: int|
                        0 <= c < b && 0 <= v < 8 ==> #[trigger] word_encoded(route@, s, c, v),
                    forall|v: int| 0 <= v < w ==> #[trigger] word_encoded(route@, s, b as int, v),
                decreases 8 - w,
            {
                let ghost base = b * 256 + w * 32;
                let mask = if w * ROUTE_WORD_BITS < len - b * BLOCK_SIZE {
                    word_mask(sel, b * BLOCK_SIZE + w * ROUTE_WORD_BITS)
                } else {
                    proof {
                        assert forall|j: u32| j < 32 implies #[trigger] bit_set(0u32, j) == flag_at(
                            s,
                            base + j,
                        ) by {
                            lemma_zero_bits(j);
                        }
                    }
                    0u32
                };
                let row = b * ROUTE_BLOCK_STRIDE + w * ROUTE_WORD_STRIDE;
                let ghost old_route = route@;
                route.set(row, mask);
                route.set(row + 1, prefix);
                let ones = count_ones(mask);
                proof {
                    lemma_word_ones(mask, s, base as int, 32);
                    lemma_count_bounds(s, start, start + w * 32 + 32);
                    assert forall|c: int, v: int|
                        0 <= c <= b && 0 <= v < 8 && (c < b || v <= w) implies #[trigger] word_encoded(
                        route@,
                        s,
                        c,
                        v,
                    ) by {
                        if c < b || v < w {
                            assert(word_encoded(old_route, s, c, v));
                            assert(c * 16 + v * 2 + 1 < row);
                            assert(route@[c * 16 + v * 2] == old_route[c * 16 + v * 2]);
                            assert(route@[c * 16 + v * 2 + 1] == old_route[c * 16 + v * 2 + 1]);
                        }
                    }
                }
                prefix = prefix + ones;
                w += 1;
            }
            block_counts.set(b, prefix);
            b += 1;
        }
        let ghost old_route = route@;
        route.set(blocks * ROUTE_BLOCK_STRIDE, len as u32);
        proof {
            assert forall|c: int, w: int| 0 <= c < blocks && 0 <= w < 8 implies #[trigger] word_encoded(
                route@,
                s,
                c,
                w,
            ) by {
                assert(word_encoded(old_route, s, c, w));
                assert(c * 16 + w * 2 + 1 < blocks * 16);
                assert(route@[c * 16 + w * 2] == old_route[c * 16 + w * 2]);
                assert(route@[c * 16 + w * 2 + 1] == old_route[c * 16 + w * 2 + 1]);
            }
        }
        let block_prefixes = inclusive_scan_u32(&block_counts);
        proof {
            assert forall|c: int| 0 <= c < blocks implies #[trigger] block_prefixes@[c]
                == count_flags(s, (c + 1) * 256) by {
                lemma_block_count_prefix(block_counts@, s, c);
            }
        }
        let count = last_u32(&block_prefixes);
        proof {
            if blocks > 0 {
                lemma_count_extend(s, blocks * 256);
            }
        }
        SelectionControl {
            len,
            route,
            block_prefixes,
            count,
            selected: Ghost(s),
        }
    }
}


/// Rows selected by a stencil: nonzero rows, or zero rows when inverted.
pub open spec fn stencil_selection(stencil: Seq<u32>, invert: bool) -> Seq<bool> {
    Seq::new(stencil.len(), |i: int| (stencil[i] != 0) != invert)
}

/// A stencil selects exactly its nonzero rows, and inverted exactly its
/// zero rows: the two selections are complements, so the rows that
/// `copy_where` keeps and the rows that `remove_where` keeps split the input,
/// and their counts add up to the row count.
pub proof fn lemma_stencil_selection(stencil: Seq<u32>)
    ensures
        stencil_selection(stencil, false).len() == stencil.len(),
        stencil_selection(stencil, true).len() == stencil.len(),
        forall|i: int| 0 <= i < stencil.len() ==> (#[trigger] stencil_selection(stencil, false)[i] <==> stencil[i] != 0),
        forall|i: int| 0 <= i < stencil.len() ==> (#[trigger] stencil_selection(stencil, true)[i] <==> stencil[i] == 0),
        stencil_selection(stencil, true) == negate(stencil_selection(stencil, false)),
        count_flags(stencil_selection(stencil, false), stencil.len() as int) + count_flags(
            stencil_selection(stencil, true),
            stencil.len() as int,
        ) == stencil.len(),
{
    let kept = stencil_selection(stencil, false);
    assert(stencil_selection(stencil, true) =~= negate(kept));
    lemma_count_negate(kept, stencil.len() as int);
}

/// Rows selected where consecutive inclusive positions differ.
pub open spec fn position_selection(positions: Seq<u32>) -> Seq<bool> {
    Seq::new(
        positions.len(),
        |i: int| positions[i] != if i == 0 { 0u32 } else { positions[i - 1] },
    )
}

/// The output of a ranked transfer of `input` under the selection `sel`.
pub open spec fn transfer_spec<T>(
    old: Seq<T>,
    input: Seq<T>,
    sel: Seq<bool>,
    mode: TransferMode,
) -> Seq<T> {
    let count = count_flags(sel, input.len() as int) as int;
    match mode {
        TransferMode::Compact => Seq::new(
            old.len(),
            |k: int|
                if k < count {
                    selected_rows(input, sel)[k]
                } else {
                    old[k]
                },
        ),
        TransferMode::Partition => Seq::new(
            old.len(),
            |k: int|
                if k < count {
                    selected_rows(input, sel)[k]
                } else if k < input.len() {
                    rejected_rows(input, sel)[k - count]
                } else {
                    old[k]
                },
        ),
        TransferMode::Retained => Seq::new(
            old.len(),
            |k: int|
                if k < input.len() && sel[k] {
                    input[k]
                } else {
                    old[k]
                },
        ),
    }
}

/// Every output row after processing source rows `0..i` of a transfer.
pub open spec fn transfer_progress<T>(
    old: Seq<T>,
    input: Seq<T>,
    sel: Seq<bool>,
    mode: TransferMode,
    i: int,
) -> Seq<T> {
    let count = count_flags(sel, input.len() as int) as int;
    let done = count_flags(sel, i) as int;
    match mode {
        TransferMode::Compact => Seq::new(
            old.len(),
            |k: int|
                if k < done {
                    selected_rows(input, sel)[k]
                } else {
                    old[k]
                },
        ),
        TransferMode::Partition => Seq::new(
            old.len(),
            |k: int|
                if k < done {
                    selected_rows(input, sel)[k]
                } else if count <= k < count + (i - done) {
                    rejected_rows(input, sel)[k - count]
                } else {
                    old[k]
                },
        ),
        TransferMode::Retained => Seq::new(
            old.len(),
            |k: int|
                if k < i && sel[k] {
                    input[k]
                } else {
                    old[k]
                },
        ),
    }
}

impl SelectionControl {
    /// Selection of the rows whose stencil is nonzero (zero when `invert`).
    pub fn from_stencil(stencil: &Vec<u32>, invert: bool) -> (r: Result<SelectionControl, Error>)
        ensures
            stencil.len() > u32::MAX ==> r == Err::<SelectionControl, Error>(
                Error::LengthTooLarge { len: stencil.len() },
            ),
            stencil.len() <= u32::MAX ==> (r matches Ok(c) && c.well_formed() && c.selection()
                == stencil_selection(stencil@, invert)),
    {
        let len = stencil.len();
        if len > u32::MAX as usize {
            return Err(Error::LengthTooLarge { len });
        }
        let mut selected: Vec<bool> = Vec::new();
        let mut i: usize = 0;
        while i < len
            invariant
                len == stencil.len(),
                i <= len,
                selected@ =~= stencil_selection(stencil@, invert).subrange(0, i as int),
            decreases len - i,
        {
            selected.push((stencil[i] != 0) != invert);
            i += 1;
        }
        assert(selected@ =~= stencil_selection(stencil@, invert));
        Ok(SelectionControl::from_selected(&selected))
    }

    /// Selection of the rows whose flag is nonzero.
    pub fn from_flags(flags: Vec<u32>) -> (r: Result<SelectionControl, Error>)
        ensures
            flags.len() > u32::MAX ==> r == Err::<SelectionControl, Error>(
                Error::LengthTooLarge { len: flags.len() },
            ),
            flags.len() <= u32::MAX ==> (r matches Ok(c) && c.well_formed() && c.selection()
                == stencil_selection(flags@, false)),
    {
        SelectionControl::from_stencil(&flags, false)
    }

    /// Selection recovered from dense inclusive positions: a row is selected
    /// where its position differs from the previous row's.
    pub fn from_positions(positions: Vec<u32>) -> (r: Result<SelectionControl, Error>)
        ensures
            positions.len() > u32::MAX ==> r == Err::<SelectionControl, Error>(
                Error::LengthTooLarge { len: positions.len() },
            ),
            positions.len() <= u32::MAX ==> (r matches Ok(c) && c.well_formed() && c.selection()
                == position_selection(positions@)),
    {
        let len = positions.len();
        if len > u32::MAX as usize {
            return Err(Error::LengthTooLarge { len });
        }
        let mut selected: Vec<bool> = Vec::new();
        let mut i: usize = 0;
        while i < len
            invariant
                len == positions.len(),
                i <= len,
                selected@ =~= position_selection(positions@).subrange(0, i as int),
            decreases len - i,
        {
            let previous = if i == 0 {
                0u32
            } else {
                positions[i - 1]
            };
            selected.push(positions[i] != previous);
            i += 1;
        }
        assert(selected@ =~= position_selection(positions@));
        Ok(SelectionControl::from_selected(&selected))
    }

    /// Dense inclusive positions: row `i` holds the number of selected rows
    /// among `0..=i`.
    pub fn materialize_positions(&self) -> (r: Vec<u32>)
        requires
            self.well_formed(),
        ensures
            r@ == Seq::new(
                self.selection().len(),
                |i: int| count_flags(self.selection(), i + 1) as u32,
            ),
    {
        let len = self.len;
        let mut positions = vec![0u32; len];
        let mut i: usize = 0;
        while i < len
            invariant
                self.well_formed(),
                len == self.selection().len(),
                positions.len() == len,
                i <= len,
                forall|k: int|
                    0 <= k < i ==> #[trigger] positions@[k] == count_flags(self.selection(), k + 1)
                        as u32,
            decreases len - i,
        {
            let (rank, selected) = self.rank_before(i);
            proof {
                lemma_count_bounds(self.selection(), i + 1, len as int);
                lemma_count_bounds(self.selection(), 0, len as int);
            }
            positions.set(i, rank + if selected { 1u32 } else { 0u32 });
            i += 1;
        }
        assert(positions@ =~= Seq::new(
            len as nat,
            |i: int| count_flags(self.selection(), i + 1) as u32,
        ));
        positions
    }

    /// Compact source indices: row `k` holds the index of the `k`-th
    /// selected row; rows from the selected count on hold zero.
    pub fn materialize_indices(&self) -> (r: Vec<u32>)
        requires
            self.well_formed(),
        ensures
            r@ == Seq::new(
                self.selection().len(),
                |k: int|
                    if k < count_flags(self.selection(), self.selection().len() as int) {
                        selected_rows(
                            Seq::new(self.selection().len(), |i: int| i as u32),
                            self.selection(),
                        )[k]
                    } else {
                        0u32
                    },
            ),
    {
        let len = self.len;
        let mut all: Vec<u32> = Vec::new();
        let mut i: usize = 0;
        while i < len
            invariant
                len == self.selection().len(),
                len <= u32::MAX,
                i <= len,
                all@ =~= Seq::new(len as nat, |j: int| j as u32).subrange(0, i as int),
            decreases len - i,
        {
            all.push(i as u32);
            i += 1;
        }
        assert(all@ =~= Seq::new(len as nat, |j: int| j as u32));
        let mut indices = vec![0u32; len];
        let r = ranked_transfer(&all, self, TransferMode::Compact, &mut indices);
        assert(r is Ok);
        assert(indices@ =~= Seq::new(
            len as nat,
            |k: int|
                if k < count_flags(self.selection(), len as int) {
                    selected_rows(Seq::new(len as nat, |i: int| i as u32), self.selection())[k]
                } else {
                    0u32
                },
        ));
        indices
    }
}

/// Moves the rows of `input` that `control` selects (and for a partition
/// the others after them) to their ranked destinations in `output`.
pub fn ranked_transfer<T: Copy>(
    input: &Vec<T>,
    control: &SelectionControl,
    mode: TransferMode,
    output: &mut Vec<T>,
) -> (r: Result<(), Error>)
    requires
        control.well_formed(),
    ensures
        input.len() != control.selection().len() ==> r == Err::<(), Error>(
            Error::LengthMismatch { left: input.len(), right: control.selection().len() as usize },
        ),
        input.len() == control.selection().len() && mode != TransferMode::Compact
            && old(output).len() < input.len() ==> r == Err::<(), Error>(
            Error::OutputTooShort { input: input.len(), output: old(output).len() },
        ),
        input.len() == control.selection().len() && (mode == TransferMode::Compact || old(
            output,
        ).len() >= input.len()) && input.len() > 0 && old(output).len() > u32::MAX ==> r
            == Err::<(), Error>(Error::LengthTooLarge { len: old(output).len() }),
        input.len() == control.selection().len() && (mode == TransferMode::Compact || old(
            output,
        ).len() >= input.len()) && (input.len() == 0 || old(output).len() <= u32::MAX) ==> r is Ok,
        r is Ok ==> final(output)@ == transfer_spec(
            old(output)@,
            input@,
            control.selection(),
            mode,
        ),
        r is Err ==> final(output)@ == old(output)@,
{
    let source_len = input.len();
    if source_len != control.len() {
        return Err(Error::LengthMismatch { left: source_len, right: control.len() });
    }
    let output_len = output.len();
    if mode != TransferMode::Compact && output_len < source_len {
        return Err(Error::OutputTooShort { input: source_len, output: output_len });
    }
    let ghost sel = control.selection();
    let ghost s = input@;
    let ghost old_out = output@;
    if source_len == 0 {
        proof {
            lemma_kept_len(s, sel, 0);
        }
        assert(output@ =~= transfer_spec(old_out, s, sel, mode));
        return Ok(());
    }
    if output_len > u32::MAX as usize {
        return Err(Error::LengthTooLarge { len: output_len });
    }
    let block_prefixes = control.block_prefixes();
    let blocks = block_prefixes.len();
    let selected_count = block_prefixes[blocks - 1];
    proof {
        crate::scan::lemma_block_count(source_len as int);
        lemma_count_extend(sel, blocks * 256);
        lemma_kept_len(s, sel, source_len as int);
        lemma_kept_len(s, negate(sel), source_len as int);
        lemma_count_negate(sel, source_len as int);
        lemma_count_bounds(sel, 0, source_len as int);
        assert(output@ =~= transfer_progress(old_out, s, sel, mode, 0));
    }
    let mut index: usize = 0;
    while index < source_len
        invariant
            control.well_formed(),
            sel == control.selection(),
            s == input@,
            source_len == input.len(),
            source_len == sel.len(),
            output_len == output.len(),
            output_len == old_out.len(),
            output_len <= u32::MAX,
            mode != TransferMode::Compact ==> output_len >= source_len,
            selected_count == count_flags(sel, source_len as int),
            count_flags(sel, source_len as int) <= source_len,
            selected_rows(s, sel).len() == count_flags(sel, source_len as int),
            rejected_rows(s, sel).len() == source_len - count_flags(sel, source_len as int),
            index <= source_len,
            output@ == transfer_progress(old_out, s, sel, mode, index as int),
        decreases source_len - index,
    {
        let (rank, selected) = control.rank_before(index);
        proof {
            lemma_count_bounds(sel, index as int, source_len as int);
            lemma_count_bounds(sel, 0, index as int);
            if selected {
                lemma_kept_index(s, sel, source_len as int, index as int);
            } else {
                lemma_count_negate(sel, index as int);
                lemma_kept_index(s, negate(sel), source_len as int, index as int);
            }
        }
        if selected || mode == TransferMode::Partition {
            let destination: usize = if mode == TransferMode::Retained {
                index
            } else if selected {
                rank as usize
            } else {
                (selected_count + (index as u32 - rank)) as usize
            };
            if destination < output_len {
                output.set(destination, input[index]);
            }
        }
        proof {
            assert(output@ =~= transfer_progress(old_out, s, sel, mode, index + 1));
        }
        index += 1;
    }
    assert(output@ =~= transfer_spec(old_out, s, sel, mode));
    Ok(())
}

/// Stably copies the rows whose stencil is nonzero to the front of
/// `output`; returns a one-row buffer with the number copied.
pub fn copy_where<T: Copy>(input: &Vec<T>, stencil: &Vec<u32>, output: &mut Vec<T>) -> (r: Result<
    Vec<u32>,
    Error,
>)
    ensures
        input.len() != stencil.len() ==> r == Err::<Vec<u32>, Error>(
            Error::LengthMismatch { left: input.len(), right: stencil.len() },
        ),
        input.len() == stencil.len() && input.len() > u32::MAX ==> r == Err::<Vec<u32>, Error>(
            Error::LengthTooLarge { len: input.len() },
        ),
        input.len() == stencil.len() && input.len() <= u32::MAX && input.len() > 0 && old(
            output,
        ).len() > u32::MAX ==> r == Err::<Vec<u32>, Error>(
            Error::LengthTooLarge { len: old(output).len() },
        ),
        input.len() == stencil.len() && input.len() <= u32::MAX && (input.len() == 0 || old(
            output,
        ).len() <= u32::MAX) ==> r is Ok,
        r matches Ok(count) ==> count@ == seq![
            count_flags(stencil_selection(stencil@, false), input.len() as int) as u32,
        ] && final(output)@ == transfer_spec(
            old(output)@,
            input@,
            stencil_selection(stencil@, false),
            TransferMode::Compact,
        ),
        r is Err ==> final(output)@ == old(output)@,
{
    selected_copy(input, stencil, false, output)
}

/// Stably copies the rows whose stencil is zero to the front of `output`;
/// returns a one-row buffer with the number copied.
pub fn remove_where<T: Copy>(input: &Vec<T>, stencil: &Vec<u32>, output: &mut Vec<T>) -> (r:
    Result<Vec<u32>, Error>)
    ensures
        input.len() != stencil.len() ==> r == Err::<Vec<u32>, Error>(
            Error::LengthMismatch { left: input.len(), right: stencil.len() },
        ),
        input.len() == stencil.len() && input.len() > u32::MAX ==> r == Err::<Vec<u32>, Error>(
            Error::LengthTooLarge { len: input.len() },
        ),
        input.len() == stencil.len() && input.len() <= u32::MAX && input.len() > 0 && old(
            output,
        ).len() > u32::MAX ==> r == Err::<Vec<u32>, Error>(
            Error::LengthTooLarge { len: old(output).len() },
        ),
        input.len() == stencil.len() && input.len() <= u32::MAX && (input.len() == 0 || old(
            output,
        ).len() <= u32::MAX) ==> r is Ok,
        r matches Ok(count) ==> count@ == seq![
            count_flags(stencil_selection(stencil@, true), input.len() as int) as u32,
        ] && final(output)@ == transfer_spec(
            old(output)@,
            input@,
            stencil_selection(stencil@, true),
            TransferMode::Compact,
        ),
        r is Err ==> final(output)@ == old(output)@,
{
    selected_copy(input, stencil, true, output)
}

fn selected_copy<T: Copy>(
    input: &Vec<T>,
    stencil: &Vec<u32>,
    invert: bool,
    output: &mut Vec<T>,
) -> (r: Result<Vec<u32>, Error>)
    ensures
        input.len() != stencil.len() ==> r == Err::<Vec<u32>, Error>(
            Error::LengthMismatch { left: input.len(), right: stencil.len() },
        ),
        input.len() == stencil.len() && input.len() > u32::MAX ==> r == Err::<Vec<u32>, Error>(
            Error::LengthTooLarge { len: input.len() },
        ),
        input.len() == stencil.len() && input.len() <= u32::MAX && input.len() > 0 && old(
            output,
        ).len() > u32::MAX ==> r == Err::<Vec<u32>, Error>(
            Error::LengthTooLarge { len: old(output).len() },
        ),
        input.len() == stencil.len() && input.len() <= u32::MAX && (input.len() == 0 || old(
            output,
        ).len() <= u32::MAX) ==> r is Ok,
        r matches Ok(count) ==> count@ == seq![
            count_flags(stencil_selection(stencil@, invert), input.len() as int) as u32,
        ] && final(output)@ == transfer_spec(
            old(output)@,
            input@,
            stencil_selection(stencil@, invert),
            TransferMode::Compact,
        ),
        r is Err ==> final(output)@ == old(output)@,
{
    let input_len = input.len();
    let stencil_len = stencil.len();
    if input_len != stencil_len {
        return Err(Error::LengthMismatch { left: input_len, right: stencil_len });
    }
    let control = SelectionControl::from_stencil(stencil, invert)?;
    ranked_transfer(input, &control, TransferMode::Compact, output)?;
    Ok(control.count().clone())
}

/// Stably partitions `input` into `output`: rows passing `Pred` first, then
/// the others, each in source order; returns a one-row buffer with the
/// number of passing rows.
pub fn partition<T: Copy, Pred: PredicateOp<T>>(
    input: &Vec<T>,
    _pred: Pred,
    output: &mut Vec<T>,
) -> (r: Result<Vec<u32>, Error>)
    ensures
        old(output).len() < input.len() ==> r == Err::<Vec<u32>, Error>(
            Error::OutputTooShort { input: input.len(), output: old(output).len() },
        ),
        old(output).len() >= input.len() && input.len() > u32::MAX ==> r == Err::<
            Vec<u32>,
            Error,
        >(Error::LengthTooLarge { len: input.len() }),
        old(output).len() >= input.len() && input.len() <= u32::MAX && input.len() > 0 && old(
            output,
        ).len() > u32::MAX ==> r == Err::<Vec<u32>, Error>(
            Error::LengthTooLarge { len: old(output).len() },
        ),
        old(output).len() >= input.len() && input.len() <= u32::MAX && (input.len() == 0 || old(
            output,
        ).len() <= u32::MAX) ==> r is Ok,
        r matches Ok(count) ==> count@ == seq![
            count_flags(predicate_selection::<T, Pred>(input@), input.len() as int) as u32,
        ] && final(output)@ == transfer_spec(
            old(output)@,
            input@,
            predicate_selection::<T, Pred>(input@),
            TransferMode::Partition,
        ),
        r is Err ==> final(output)@ == old(output)@,
{
    let len = input.len();
    let output_len = output.len();
    if output_len < len {
        return Err(Error::OutputTooShort { input: len, output: output_len });
    }
    if len > u32::MAX as usize {
        return Err(Error::LengthTooLarge { len });
    }
    let mut selected: Vec<bool> = Vec::new();
    let mut i: usize = 0;
    while i < len
        invariant
            len == input.len(),
            i <= len,
            selected@ =~= predicate_selection::<T, Pred>(input@).subrange(0, i as int),
        decreases len - i,
    {
        selected.push(Pred::apply(input[i]));
        i += 1;
    }
    assert(selected@ =~= predicate_selection::<T, Pred>(input@));
    let control = SelectionControl::from_selected(&selected);
    ranked_transfer(input, &control, TransferMode::Partition, output)?;
    Ok(control.count().clone())
}

/// Rows passing the predicate `Pred`.
pub open spec fn predicate_selection<T, Pred: PredicateOp<T>>(s: Seq<T>) -> Seq<bool> {
    Seq::new(s.len(), |i: int| Pred::holds(s[i]))
}

/// A predicate selects exactly the rows that pass it.
pub proof fn lemma_predicate_selection<T, Pred: PredicateOp<T>>(s: Seq<T>)
    ensures
        predicate_selection::<T, Pred>(s).len() == s.len(),
        forall|i: int| 0 <= i < s.len() ==> (#[trigger] predicate_selection::<T, Pred>(s)[i] <==> Pred::holds(s[i])),
{
}

/// Overwrites with `value` the rows of `output` whose stencil is nonzero.
pub fn replace_where<T: Copy>(value: T, stencil: &Vec<u32>, output: &mut Vec<T>) -> (r: Result<
    (),
    Error,
>)
    ensures
        stencil.len() != old(output).len() ==> r == Err::<(), Error>(
            Error::LengthMismatch { left: stencil.len(), right: old(output).len() },
        ),
        stencil.len() == old(output).len() && stencil.len() > u32::MAX ==> r == Err::<(), Error>(
            Error::LengthTooLarge { len: stencil.len() },
        ),
        stencil.len() == old(output).len() && stencil.len() <= u32::MAX ==> r is Ok,
        r is Ok ==> final(output)@ == Seq::new(
            old(output).len() as nat,
            |k: int|
                if stencil@[k] != 0 {
                    value
                } else {
                    old(output)@[k]
                },
        ),
        r is Err ==> final(output)@ == old(output)@,
{
    let stencil_len = stencil.len();
    let output_len = output.len();
    if stencil_len != output_len {
        return Err(Error::LengthMismatch { left: stencil_len, right: output_len });
    }
    let control = SelectionControl::from_stencil(stencil, false)?;
    let mut repeated: Vec<T> = Vec::new();
    let mut i: usize = 0;
    while i < stencil_len
        invariant
            i <= stencil_len,
            repeated.len() == i,
            forall|k: int| 0 <= k < i ==> #[trigger] repeated@[k] == value,
        decreases stencil_len - i,
    {
        repeated.push(value);
        i += 1;
    }
    ranked_transfer(&repeated, &control, TransferMode::Retained, output)?;
    assert(output@ =~= Seq::new(
        old(output).len() as nat,
        |k: int|
            if stencil@[k] != 0 {
                value
            } else {
                old(output)@[k]
            },
    ));
    Ok(())
}

/// Writes `Op` applied to each row of `input` into the rows of `output`
/// whose stencil is nonzero; the other rows stay untouched.
pub fn transform_where<T: Copy, Op: UnaryOp<T>>(
    input: &Vec<T>,
    _op: Op,
    stencil: &Vec<u32>,
    output: &mut Vec<Op::Output>,
) -> (r: Result<(), Error>) where Op::Output: Copy
    ensures
        input.len() != stencil.len() ==> r == Err::<(), Error>(
            Error::LengthMismatch { left: input.len(), right: stencil.len() },
        ),
        input.len() == stencil.len() && input.len() != old(output).len() ==> r == Err::<(), Error>(
            Error::LengthMismatch { left: input.len(), right: old(output).len() },
        ),
        input.len() == stencil.len() && input.len() == old(output).len() && input.len()
            > u32::MAX ==> r == Err::<(), Error>(Error::LengthTooLarge { len: input.len() }),
        input.len() == stencil.len() && input.len() == old(output).len() && input.len()
            <= u32::MAX ==> r is Ok,
        r is Ok ==> final(output)@ == Seq::new(
            old(output).len() as nat,
            |k: int|
                if stencil@[k] != 0 {
                    Op::map(input@[k])
                } else {
                    old(output)@[k]
                },
        ),
        r is Err ==> final(output)@ == old(output)@,
{
    let input_len = input.len();
    let stencil_len = stencil.len();
    let output_len = output.len();
    if input_len != stencil_len {
        return Err(Error::LengthMismatch { left: input_len, right: stencil_len });
    }
    if input_len != output_len {
        return Err(Error::LengthMismatch { left: input_len, right: output_len });
    }
    let control = SelectionControl::from_stencil(stencil, false)?;
    let mut transformed: Vec<Op::Output> = Vec::new();
    let mut i: usize = 0;
    while i < input_len
        invariant
            input_len == input.len(),
            i <= input_len,
            transformed@ =~= Seq::new(input_len as nat, |k: int| Op::map(input@[k])).subrange(
                0,
                i as int,
            ),
        decreases input_len - i,
    {
        transformed.push(Op::apply(input[i]));
        i += 1;
    }
    ranked_transfer(&transformed, &control, TransferMode::Retained, output)?;
    assert(output@ =~= Seq::new(
        old(output).len() as nat,
        |k: int|
            if stencil@[k] != 0 {
                Op::map(input@[k])
            } else {
                old(output)@[k]
            },
    ));
    Ok(())
}

/// Writes `value` into every row of `output`.
pub fn fill_output<T: Copy>(output: &mut Vec<T>, value: T)
    ensures
        final(output)@ == Seq::new(old(output).len() as nat, |k: int| value),
{
    let len = output.len();
    let mut i: usize = 0;
    while i < len
        invariant
            len == output.len(),
            i <= len,
            forall|k: int| 0 <= k < i ==> #[trigger] output@[k] == value,
        decreases len - i,
    {
        output.set(i, value);
        i += 1;
    }
    assert(output@ =~= Seq::new(len as nat, |k: int| value));
}

} // verus!
