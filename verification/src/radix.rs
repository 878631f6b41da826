//! Stable least-significant-digit radix ordering.
//!
//! A pass orders rows stably by one eight-bit digit of their keys: every
//! block counts its digits, the per-block counts are scanned into block
//! prefixes and bucket offsets, and every row moves to the slot that a
//! serial counting sort gives it.  Passes over the digits from least to most
//! significant, and over key columns from last to first, leave the rows in
//! lexicographic key order with ties kept in their original order.
use vstd::prelude::*;
use vstd::arithmetic::div_mod::lemma_mod_breakdown;
use vstd::arithmetic::mul::{lemma_mul_inequality, lemma_mul_is_distributive_add_other_way};
use vstd::arithmetic::power2::{lemma2_to64, lemma2_to64_rest, lemma_pow2_adds, lemma_pow2_pos, pow2};
use vstd::bits::lemma_u64_shr_is_div;
use vstd::set_lib::{lemma_int_range, lemma_map_size, lemma_subset_equality, set_int_range};
use crate::collective::{
    block_exclusive_sum, exact_sum, lemma_exact_sum_shift, lemma_lane_totals,
    lemma_word_sum_split, row_exclusive_sum, word_sum, MAX_LANES,
};
use crate::error::Error;
use crate::launch::{ceil_div, lemma_ceil_div, logical_block_count};
use crate::scan::scratch;
use crate::value::MStorageElement;

verus! {

/// Workgroup size of the radix stages.
pub const BLOCK_SIZE: usize = 256;

/// Bits per radix digit.
pub const RADIX_BITS: u32 = 8;

/// Number of distinct digits.
pub const RADIX_BUCKETS: usize = 256;

/// Mask of one digit.
pub const RADIX_MASK: u32 = 255;

/// A scalar key column with an order-preserving unsigned encoding.
pub trait RadixScalar: MStorageElement {
    /// Width of the scalar in bits.
    spec fn bits() -> nat;

    /// The unsigned number that orders values as the scalar type does.
    spec fn encoded(value: Self) -> nat;

    proof fn lemma_width()
        ensures
            Self::bits() == 8 || Self::bits() == 16 || Self::bits() == 32 || Self::bits() == 64,
    ;

    proof fn lemma_encoding(value: Self)
        ensures
            Self::encoded(value) < pow2(Self::bits()),
    ;

    fn key_bits() -> (r: u32)
        ensures
            r == Self::bits(),
    ;

    fn encode(value: Self) -> (r: u64)
        ensures
            r == Self::encoded(value),
    ;
}

impl RadixScalar for u8 {
    open spec fn bits() -> nat {
        8
    }

    open spec fn encoded(value: u8) -> nat {
        value as nat
    }

    proof fn lemma_width() {
    }

    proof fn lemma_encoding(value: u8) {
        lemma2_to64();
    }

    fn key_bits() -> (r: u32) {
        8
    }

    fn encode(value: u8) -> (r: u64) {
        value as u64
    }
}

impl RadixScalar for u16 {
    open spec fn bits() -> nat {
        16
    }

    open spec fn encoded(value: u16) -> nat {
        value as nat
    }

    proof fn lemma_width() {
    }

    proof fn lemma_encoding(value: u16) {
        lemma2_to64();
    }

    fn key_bits() -> (r: u32) {
        16
    }

    fn encode(value: u16) -> (r: u64) {
        value as u64
    }
}

impl RadixScalar for u32 {
    open spec fn bits() -> nat {
        32
    }

    open spec fn encoded(value: u32) -> nat {
        value as nat
    }

    proof fn lemma_width() {
    }

    proof fn lemma_encoding(value: u32) {
        lemma2_to64();
    }

    fn key_bits() -> (r: u32) {
        32
    }

    fn encode(value: u32) -> (r: u64) {
        value as u64
    }
}

impl RadixScalar for u64 {
    open spec fn bits() -> nat {
        64
    }

    open spec fn encoded(value: u64) -> nat {
        value as nat
    }

    proof fn lemma_width() {
    }

    proof fn lemma_encoding(value: u64) {
        lemma2_to64_rest();
    }

    fn key_bits() -> (r: u32) {
        64
    }

    fn encode(value: u64) -> (r: u64) {
        value
    }
}

impl RadixScalar for i8 {
    open spec fn bits() -> nat {
        8
    }

    /// The sign bit flipped: negative values come first.
    open spec fn encoded(value: i8) -> nat {
        (value + 0x80) as nat
    }

    proof fn lemma_width() {
    }

    proof fn lemma_encoding(value: i8) {
        lemma2_to64();
    }

    fn key_bits() -> (r: u32) {
        8
    }

    fn encode(value: i8) -> (r: u64) {
        let raw = (value as u32) & 0xff;
        let e = raw ^ 0x80;
        assert(e == value + 0x80) by (bit_vector)
            requires
                raw == (value as u32) & 0xff,
                e == raw ^ 0x80,
        ;
        e as u64
    }
}

impl RadixScalar for i16 {
    open spec fn bits() -> nat {
        16
    }

    /// The sign bit flipped: negative values come first.
    open spec fn encoded(value: i16) -> nat {
        (value + 0x8000) as nat
    }

    proof fn lemma_width() {
    }

    proof fn lemma_encoding(value: i16) {
        lemma2_to64();
    }

    fn key_bits() -> (r: u32) {
        16
    }

    fn encode(value: i16) -> (r: u64) {
        let raw = (value as u32) & 0xffff;
        let e = raw ^ 0x8000;
        assert(e == value + 0x8000) by (bit_vector)
            requires
                raw == (value as u32) & 0xffff,
                e == raw ^ 0x8000,
        ;
        e as u64
    }
}

impl RadixScalar for i32 {
    open spec fn bits() -> nat {
        32
    }

    /// The sign bit flipped: negative values come first.
    open spec fn encoded(value: i32) -> nat {
        (value + 0x8000_0000) as nat
    }

    proof fn lemma_width() {
    }

    proof fn lemma_encoding(value: i32) {
        lemma2_to64();
    }

    fn key_bits() -> (r: u32) {
        32
    }

    fn encode(value: i32) -> (r: u64) {
        let raw = value as u32;
        let e = raw ^ 0x8000_0000;
        assert(e == value + 0x8000_0000) by (bit_vector)
            requires
                raw == value as u32,
                e == raw ^ 0x8000_0000,
        ;
        e as u64
    }
}

impl RadixScalar for i64 {
    open spec fn bits() -> nat {
        64
    }

    /// The sign bit flipped: negative values come first.
    open spec fn encoded(value: i64) -> nat {
        (value + 0x8000_0000_0000_0000) as nat
    }

    proof fn lemma_width() {
    }

    proof fn lemma_encoding(value: i64) {
        lemma2_to64_rest();
    }

    fn key_bits() -> (r: u32) {
        64
    }

    fn encode(value: i64) -> (r: u64) {
        let raw = value as u64;
        let e = raw ^ 0x8000_0000_0000_0000;
        assert(e == value + 0x8000_0000_0000_0000) by (bit_vector)
            requires
                raw == value as u64,
                e == raw ^ 0x8000_0000_0000_0000,
        ;
        e
    }
}

/// The eight-bit digit of `key` that starts at bit `shift`.
pub open spec fn digit_of(key: nat, shift: nat) -> nat {
    (key / pow2(shift)) % 256
}

/// One eight-bit digit of the order-preserving representation of `value`.
pub fn radix_digit<T: RadixScalar>(value: T, shift: u32) -> (r: u32)
    requires
        shift < 64,
    ensures
        r == digit_of(T::encoded(value), shift as nat),
        r < 256,
{
    let e = T::encode(value);
    let shifted = e >> (shift as u64);
    proof {
        lemma_u64_shr_is_div(e, shift as u64);
    }
    let d = shifted & (RADIX_MASK as u64);
    assert(d == shifted % 256) by (bit_vector)
        requires
            d == shifted & 255,
    ;
    d as u32
}

/// Number of rows among `0..n` whose digit is `d`.
pub open spec fn count_digit(dg: Seq<u32>, d: nat, n: int) -> nat
    decreases n,
{
    if n <= 0 {
        0
    } else {
        count_digit(dg, d, n - 1) + if dg[n - 1] == d {
            1nat
        } else {
            0nat
        }
    }
}

/// Number of rows among `0..n` whose digit is below `d`.
pub open spec fn count_below(dg: Seq<u32>, d: nat, n: int) -> nat
    decreases n,
{
    if n <= 0 {
        0
    } else {
        count_below(dg, d, n - 1) + if dg[n - 1] < d {
            1nat
        } else {
            0nat
        }
    }
}

/// Where a stable counting sort by digit moves the row at position `i`:
/// after every row with a smaller digit and every earlier row with the same
/// digit.
pub open spec fn stable_slot(dg: Seq<u32>, i: int) -> nat {
    count_below(dg, dg[i] as nat, dg.len() as int) + count_digit(dg, dg[i] as nat, i)
}

/// Every row id below `n` occurs exactly once.
pub open spec fn is_permutation(order: Seq<u32>, n: nat) -> bool {
    &&& order.len() == n
    &&& forall|i: int| 0 <= i < n ==> #[trigger] order[i] < n
    &&& forall|i: int, j: int| 0 <= i < n && 0 <= j < n && i != j ==> #[trigger] order[i] != #[trigger] order[j]
}

/// `order` lists rows by ascending `key`, rows with equal keys by ascending
/// row id.
pub open spec fn stably_sorted(order: Seq<u32>, key: Seq<nat>) -> bool {
    forall|i: int, j: int|
        0 <= i < j < order.len() ==> {
            ||| key[order[i] as int] < key[order[j] as int]
            ||| key[order[i] as int] == key[order[j] as int] && order[i] < order[j]
        }
}

proof fn lemma_count_digit_mono(dg: Seq<u32>, d: nat, i: int, j: int)
    requires
        0 <= i <= j,
    ensures
        count_digit(dg, d, i) <= count_digit(dg, d, j),
        count_digit(dg, d, j) - count_digit(dg, d, i) <= j - i,
    decreases j,
{
    if j > i {
        lemma_count_digit_mono(dg, d, i, j - 1);
    }
}

proof fn lemma_count_digit_strict(dg: Seq<u32>, i: int, j: int)
    requires
        0 <= i < j,
    ensures
        count_digit(dg, dg[i] as nat, i) < count_digit(dg, dg[i] as nat, j),
{
    lemma_count_digit_mono(dg, dg[i] as nat, i + 1, j);
}

proof fn lemma_count_below_step(dg: Seq<u32>, d: nat, n: int)
    ensures
        count_below(dg, d + 1, n) == count_below(dg, d, n) + count_digit(dg, d, n),
    decreases n,
{
    if n > 0 {
        lemma_count_below_step(dg, d, n - 1);
    }
}

proof fn lemma_count_below_mono(dg: Seq<u32>, d1: nat, d2: nat, n: int)
    requires
        d1 <= d2,
    ensures
        count_below(dg, d1, n) <= count_below(dg, d2, n),
    decreases n,
{
    if n > 0 {
        lemma_count_below_mono(dg, d1, d2, n - 1);
    }
}

proof fn lemma_count_bound(dg: Seq<u32>, d: nat, n: int)
    requires
        n >= 0,
    ensures
        count_below(dg, d, n) + count_digit(dg, d, n) <= n,
    decreases n,
{
    if n > 0 {
        lemma_count_bound(dg, d, n - 1);
    }
}

/// Stable counting-sort slots keep the digit order, and within a digit the
/// row order.
proof fn lemma_slot_order(dg: Seq<u32>, i: int, j: int)
    requires
        0 <= i < dg.len(),
        0 <= j < dg.len(),
        dg[i] < dg[j] || (dg[i] == dg[j] && i < j),
    ensures
        stable_slot(dg, i) < stable_slot(dg, j),
{
    let n = dg.len() as int;
    if dg[i] == dg[j] {
        lemma_count_digit_strict(dg, i, j);
    } else {
        lemma_count_digit_strict(dg, i, n);
        lemma_count_below_step(dg, dg[i] as nat, n);
        lemma_count_below_mono(dg, dg[i] as nat + 1, dg[j] as nat, n);
    }
}

proof fn lemma_slot_bound(dg: Seq<u32>, i: int)
    requires
        0 <= i < dg.len(),
    ensures
        stable_slot(dg, i) < dg.len(),
{
    lemma_count_digit_strict(dg, i, dg.len() as int);
    lemma_count_bound(dg, dg[i] as nat, dg.len() as int);
}

/// Some row moves to slot `p`.
pub open spec fn slot_taken(dg: Seq<u32>, p: int) -> bool {
    exists|i: int| 0 <= i < dg.len() && #[trigger] stable_slot(dg, i) == p
}

/// Every slot below the row count is taken by exactly one row.
proof fn lemma_slots_onto(dg: Seq<u32>)
    ensures
        forall|p: int| 0 <= p < dg.len() ==> #[trigger] slot_taken(dg, p),
{
    let n = dg.len() as int;
    let dom = set_int_range(0, n);
    let f = |i: int| stable_slot(dg, i) as int;
    lemma_int_range(0, n);
    assert forall|a: int, b: int| dom.contains(a) && dom.contains(b) && #[trigger] f(a) == #[trigger] f(b) implies a == b by {
        if a < b {
            if dg[a] <= dg[b] {
                lemma_slot_order(dg, a, b);
            } else {
                lemma_slot_order(dg, b, a);
            }
        } else if b < a {
            if dg[b] <= dg[a] {
                lemma_slot_order(dg, b, a);
            } else {
                lemma_slot_order(dg, a, b);
            }
        }
    }
    let img = dom.map(f);
    lemma_map_size(dom, img, f);
    assert forall|p: int| img.contains(p) implies dom.contains(p) by {
        let i = choose|i: int| dom.contains(i) && f(i) == p;
        lemma_slot_bound(dg, i);
    }
    lemma_subset_equality(img, dom);
    assert forall|p: int| 0 <= p < n implies #[trigger] slot_taken(dg, p) by {
        assert(dom.contains(p));
        assert(img.contains(p));
        let i = choose|i: int| dom.contains(i) && f(i) == p;
        assert(stable_slot(dg, i) == p);
    }
}

/// One stable pass by a digit refines a stable order by `key`: the new order
/// is stable by the digit first and `key` second.
proof fn lemma_pass_refines(
    order: Seq<u32>,
    next: Seq<u32>,
    key: Seq<nat>,
    bound: nat,
    row_digits: Seq<u32>,
    dg: Seq<u32>,
)
    requires
        is_permutation(order, dg.len()),
        stably_sorted(order, key),
        key.len() == dg.len(),
        row_digits.len() == dg.len(),
        forall|r: int| 0 <= r < dg.len() ==> #[trigger] key[r] < bound,
        forall|i: int| 0 <= i < dg.len() ==> #[trigger] dg[i] == row_digits[order[i] as int],
        next.len() == dg.len(),
        forall|i: int| 0 <= i < dg.len() ==> #[trigger] next[stable_slot(dg, i) as int] == order[i],
    ensures
        is_permutation(next, dg.len()),
        stably_sorted(
            next,
            Seq::new(dg.len(), |r: int| row_digits[r] as nat * bound + key[r]),
        ),
{
    let n = dg.len() as int;
    let key2 = Seq::new(dg.len(), |r: int| row_digits[r] as nat * bound + key[r]);
    lemma_slots_onto(dg);
    assert forall|p: int| 0 <= p < n implies #[trigger] next[p] < n by {
        assert(slot_taken(dg, p));
        let i = choose|i: int| 0 <= i < n && #[trigger] stable_slot(dg, i) == p;
        assert(next[stable_slot(dg, i) as int] == order[i]);
    }
    assert forall|p: int, q: int| 0 <= p < n && 0 <= q < n && p != q implies #[trigger] next[p] != #[trigger] next[q] by {
        assert(slot_taken(dg, p));
        assert(slot_taken(dg, q));
        let i = choose|i: int| 0 <= i < n && #[trigger] stable_slot(dg, i) == p;
        let j = choose|j: int| 0 <= j < n && #[trigger] stable_slot(dg, j) == q;
        assert(next[stable_slot(dg, i) as int] == order[i]);
        assert(next[stable_slot(dg, j) as int] == order[j]);
    }
    assert forall|p: int, q: int| 0 <= p < q < n implies {
        ||| key2[next[p] as int] < key2[next[q] as int]
        ||| key2[next[p] as int] == key2[next[q] as int] && next[p] < next[q]
    } by {
        assert(slot_taken(dg, p));
        assert(slot_taken(dg, q));
        let i = choose|i: int| 0 <= i < n && #[trigger] stable_slot(dg, i) == p;
        let j = choose|j: int| 0 <= j < n && #[trigger] stable_slot(dg, j) == q;
        assert(next[stable_slot(dg, i) as int] == order[i]);
        assert(next[stable_slot(dg, j) as int] == order[j]);
        let ri = order[i] as int;
        let rj = order[j] as int;
        assert(dg[i] == row_digits[ri]);
        assert(dg[j] == row_digits[rj]);
        if dg[j] < dg[i] || (dg[j] == dg[i] && j < i) {
            lemma_slot_order(dg, j, i);
        }
        if dg[i] < dg[j] {
            lemma_mul_inequality(row_digits[ri] as int + 1, row_digits[rj] as int, bound as int);
            lemma_mul_is_distributive_add_other_way(bound as int, row_digits[ri] as int, 1);
            assert(key[ri] < bound);
        } else {
            assert(i < j);
            assert(stably_sorted(order, key));
        }
    }
}

/// The digits at `shift` of a key column, row by row.
pub open spec fn column_digits<T: RadixScalar>(keys: Seq<T>, shift: nat) -> Seq<u32> {
    Seq::new(keys.len(), |i: int| digit_of(T::encoded(keys[i]), shift) as u32)
}

/// First row of block `b` when blocks hold `tile` rows, clamped to `n`.
pub open spec fn tile_bound(b: int, tile: int, n: int) -> int {
    if b * tile < n {
        b * tile
    } else {
        n
    }
}

proof fn lemma_tile_step(b: int, tile: int, n: int, blocks: int)
    requires
        tile > 0,
        n >= 0,
        blocks == ceil_div(n, tile),
        0 <= b < blocks,
    ensures
        tile_bound(b, tile, n) == b * tile,
        b * tile < n,
        tile_bound(b + 1, tile, n) == if n - b * tile > tile {
            b * tile + tile
        } else {
            n
        },
{
    lemma_ceil_div(n, tile);
    assert(b * tile < n && (b + 1) * tile == b * tile + tile) by (nonlinear_arith)
        requires
            tile * blocks < n + tile,
            0 <= b < blocks,
            tile > 0,
    ;
}

proof fn lemma_tile_ends(tile: int, n: int, blocks: int)
    requires
        tile > 0,
        n >= 0,
        blocks == ceil_div(n, tile),
    ensures
        tile_bound(0, tile, n) == 0,
        tile_bound(blocks, tile, n) == n,
        blocks >= 0,
{
    lemma_ceil_div(n, tile);
    assert(blocks * tile >= n) by (nonlinear_arith)
        requires
            tile * blocks >= n,
    ;
}

/// The per-block digit counts telescope into counts up to a block boundary.
proof fn lemma_histogram_row(row: Seq<u32>, dg: Seq<u32>, d: nat, tile: int, blocks: int, b: int)
    requires
        tile > 0,
        blocks == ceil_div(dg.len() as int, tile),
        0 <= b <= blocks,
        row.len() == blocks,
        forall|c: int| 0 <= c < blocks ==> #[trigger] row[c] == count_digit(dg, d, tile_bound(c + 1, tile, dg.len() as int))
            - count_digit(dg, d, tile_bound(c, tile, dg.len() as int)),
    ensures
        exact_sum(row, 0, b) == count_digit(dg, d, tile_bound(b, tile, dg.len() as int)),
    decreases b,
{
    let n = dg.len() as int;
    lemma_tile_ends(tile, n, blocks);
    if b > 0 {
        lemma_histogram_row(row, dg, d, tile, blocks, b - 1);
        lemma_tile_step(b - 1, tile, n, blocks);
        lemma_count_digit_mono(dg, d, tile_bound(b - 1, tile, n), tile_bound(b, tile, n));
    }
}

/// Digit counts of every block: `r[d][b]` counts the rows of block `b`
/// whose digit at `shift` is `d`.
pub fn block_histogram<T: RadixScalar>(keys: &Vec<T>, shift: u32, tile: usize, blocks: usize) -> (r: Vec<Vec<u32>>)
    requires
        shift < 64,
        tile > 0,
        blocks == ceil_div(keys.len() as int, tile as int),
        keys.len() <= u32::MAX,
    ensures
        r.len() == RADIX_BUCKETS,
        forall|d: int| 0 <= d < RADIX_BUCKETS ==> (#[trigger] r[d]).len() == blocks,
        forall|d: int, b: int|
            0 <= d < RADIX_BUCKETS && 0 <= b < blocks ==> #[trigger] r[d][b] == count_digit(
                column_digits(keys@, shift as nat),
                d as nat,
                tile_bound(b + 1, tile as int, keys.len() as int),
            ) - count_digit(column_digits(keys@, shift as nat), d as nat, tile_bound(b, tile as int, keys.len() as int)),
{
    let n = keys.len();
    let ghost dg = column_digits(keys@, shift as nat);
    proof {
        lemma_tile_ends(tile as int, n as int, blocks as int);
    }
    // One column of 256 counts per block.
    let mut columns: Vec<Vec<u32>> = Vec::new();
    let mut start: usize = 0;
    let mut b: usize = 0;
    while b < blocks
        invariant
            n == keys.len() <= u32::MAX,
            dg == column_digits(keys@, shift as nat),
            shift < 64,
            tile > 0,
            blocks == ceil_div(n as int, tile as int),
            b <= blocks,
            start == tile_bound(b as int, tile as int, n as int),
            columns.len() == b,
            forall|c: int| 0 <= c < b ==> (#[trigger] columns[c]).len() == RADIX_BUCKETS,
            forall|c: int, d: int|
                0 <= c < b && 0 <= d < RADIX_BUCKETS ==> #[trigger] columns[c][d] == count_digit(
                    dg,
                    d as nat,
                    tile_bound(c + 1, tile as int, n as int),
                ) - count_digit(dg, d as nat, tile_bound(c, tile as int, n as int)),
        decreases blocks - b,
    {
        proof {
            lemma_tile_step(b as int, tile as int, n as int, blocks as int);
        }
        let end = if n - start > tile {
            start + tile
        } else {
            n
        };
        let mut counts: Vec<u32> = Vec::new();
        let mut d: usize = 0;
        while d < RADIX_BUCKETS
            invariant
                d <= RADIX_BUCKETS,
                counts.len() == d,
                forall|k: int| 0 <= k < d ==> counts[k] == 0,
            decreases RADIX_BUCKETS - d,
        {
            counts.push(0);
            d = d + 1;
        }
        let mut i = start;
        while i < end
            invariant
                n == keys.len() <= u32::MAX,
                dg == column_digits(keys@, shift as nat),
                shift < 64,
                start <= i <= end <= n,
                counts.len() == RADIX_BUCKETS,
                forall|k: int| 0 <= k < RADIX_BUCKETS ==> #[trigger] counts[k] == count_digit(dg, k as nat, i as int)
                    - count_digit(dg, k as nat, start as int),
            decreases end - i,
        {
            let digit = radix_digit(keys[i], shift);
            proof {
                assert(dg[i as int] == digit);
                lemma_count_digit_mono(dg, digit as nat, start as int, i as int);
            }
            let c = counts[digit as usize];
            counts.set(digit as usize, c + 1);
            i = i + 1;
        }
        columns.push(counts);
        start = end;
        b = b + 1;
    }
    // Bucket-major rows: one row of per-block counts per digit.
    let mut r: Vec<Vec<u32>> = Vec::new();
    let mut d: usize = 0;
    while d < RADIX_BUCKETS
        invariant
            n == keys.len(),
            dg == column_digits(keys@, shift as nat),
            columns.len() == blocks,
            forall|c: int| 0 <= c < blocks ==> (#[trigger] columns[c]).len() == RADIX_BUCKETS,
            forall|c: int, k: int|
                0 <= c < blocks && 0 <= k < RADIX_BUCKETS ==> #[trigger] columns[c][k] == count_digit(
                    dg,
                    k as nat,
                    tile_bound(c + 1, tile as int, n as int),
                ) - count_digit(dg, k as nat, tile_bound(c, tile as int, n as int)),
            d <= RADIX_BUCKETS,
            r.len() == d,
            forall|k: int| 0 <= k < d ==> (#[trigger] r[k]).len() == blocks,
            forall|k: int, c: int| 0 <= k < d && 0 <= c < blocks ==> #[trigger] r[k][c] == columns[c][k],
        decreases RADIX_BUCKETS - d,
    {
        let mut row: Vec<u32> = Vec::new();
        let mut c: usize = 0;
        while c < blocks
            invariant
                columns.len() == blocks,
                forall|c: int| 0 <= c < blocks ==> (#[trigger] columns[c]).len() == RADIX_BUCKETS,
                d < RADIX_BUCKETS,
                c <= blocks,
                row.len() == c,
                forall|e: int| 0 <= e < c ==> row[e] == columns[e][d as int],
            decreases blocks - c,
        {
            row.push(columns[c][d]);
            c = c + 1;
        }
        r.push(row);
        d = d + 1;
    }
    r
}

/// Block prefixes and bucket totals when one workgroup of `blocks` lanes
/// covers a bucket's row of per-block counts.
pub fn histogram_prefix(histograms: &Vec<Vec<u32>>, blocks: usize, plane_dim: usize) -> (r: (
    Vec<Vec<u32>>,
    Vec<u32>,
))
    requires
        histograms.len() == RADIX_BUCKETS,
        forall|d: int| 0 <= d < RADIX_BUCKETS ==> (#[trigger] histograms[d]).len() == blocks,
        0 < blocks <= BLOCK_SIZE,
        plane_dim > 0,
    ensures
        r.0.len() == RADIX_BUCKETS,
        r.1.len() == RADIX_BUCKETS,
        forall|d: int| 0 <= d < RADIX_BUCKETS ==> (#[trigger] r.0[d]).len() == blocks,
        forall|d: int, b: int|
            0 <= d < RADIX_BUCKETS && 0 <= b < blocks ==> #[trigger] r.0[d][b] == word_sum(histograms[d]@, 0, b),
        forall|d: int| 0 <= d < RADIX_BUCKETS ==> #[trigger] r.1[d] == word_sum(histograms[d]@, 0, blocks as int),
{
    let mut prefixes: Vec<Vec<u32>> = Vec::new();
    let mut totals: Vec<u32> = Vec::new();
    let mut d: usize = 0;
    while d < RADIX_BUCKETS
        invariant
            histograms.len() == RADIX_BUCKETS,
            forall|d: int| 0 <= d < RADIX_BUCKETS ==> (#[trigger] histograms[d]).len() == blocks,
            0 < blocks <= BLOCK_SIZE,
            plane_dim > 0,
            d <= RADIX_BUCKETS,
            prefixes.len() == d,
            totals.len() == d,
            forall|k: int| 0 <= k < d ==> (#[trigger] prefixes[k]).len() == blocks,
            forall|k: int, b: int|
                0 <= k < d && 0 <= b < blocks ==> #[trigger] prefixes[k][b] == word_sum(histograms[k]@, 0, b),
            forall|k: int| 0 <= k < d ==> #[trigger] totals[k] == word_sum(histograms[k]@, 0, blocks as int),
        decreases RADIX_BUCKETS - d,
    {
        let (row, total) = row_exclusive_sum(&histograms[d], blocks, plane_dim);
        prefixes.push(row);
        totals.push(total);
        d = d + 1;
    }
    (prefixes, totals)
}

/// First of the blocks scanned together with block `b` by the chunked path.
pub open spec fn chunk_base(b: int) -> int {
    (b / 256) * 256
}

/// Scans every run of 256 blocks of every bucket's row and records the
/// run's total.
pub fn histogram_chunk_scan(histograms: &Vec<Vec<u32>>, blocks: usize, plane_dim: usize) -> (r: (
    Vec<Vec<u32>>,
    Vec<Vec<u32>>,
))
    requires
        histograms.len() == RADIX_BUCKETS,
        forall|d: int| 0 <= d < RADIX_BUCKETS ==> (#[trigger] histograms[d]).len() == blocks,
        blocks <= u32::MAX,
        plane_dim > 0,
    ensures
        r.0.len() == RADIX_BUCKETS,
        r.1.len() == RADIX_BUCKETS,
        forall|d: int| 0 <= d < RADIX_BUCKETS ==> (#[trigger] r.0[d]).len() == blocks,
        forall|d: int| 0 <= d < RADIX_BUCKETS ==> (#[trigger] r.1[d]).len() == ceil_div(blocks as int, 256),
        forall|d: int, b: int|
            0 <= d < RADIX_BUCKETS && 0 <= b < blocks ==> #[trigger] r.0[d][b] == word_sum(
                histograms[d]@,
                chunk_base(b),
                b,
            ),
        forall|d: int, c: int|
            0 <= d < RADIX_BUCKETS && 0 <= c < ceil_div(blocks as int, 256) ==> #[trigger] r.1[d][c] == word_sum(
                histograms[d]@,
                c * 256,
                if c * 256 + 256 < blocks { c * 256 + 256 } else { blocks as int },
            ),
{
    let chunks = logical_block_count(blocks, BLOCK_SIZE);
    let mut prefixes: Vec<Vec<u32>> = Vec::new();
    let mut chunk_totals: Vec<Vec<u32>> = Vec::new();
    let mut d: usize = 0;
    while d < RADIX_BUCKETS
        invariant
            histograms.len() == RADIX_BUCKETS,
            forall|d: int| 0 <= d < RADIX_BUCKETS ==> (#[trigger] histograms[d]).len() == blocks,
            plane_dim > 0,
            blocks <= u32::MAX,
            chunks == ceil_div(blocks as int, 256),
            d <= RADIX_BUCKETS,
            prefixes.len() == d,
            chunk_totals.len() == d,
            forall|k: int| 0 <= k < d ==> (#[trigger] prefixes[k]).len() == blocks,
            forall|k: int| 0 <= k < d ==> (#[trigger] chunk_totals[k]).len() == chunks,
            forall|k: int, b: int|
                0 <= k < d && 0 <= b < blocks ==> #[trigger] prefixes[k][b] == word_sum(
                    histograms[k]@,
                    chunk_base(b),
                    b,
                ),
            forall|k: int, c: int|
                0 <= k < d && 0 <= c < chunks ==> #[trigger] chunk_totals[k][c] == word_sum(
                    histograms[k]@,
                    c * 256,
                    if c * 256 + 256 < blocks { c * 256 + 256 } else { blocks as int },
                ),
        decreases RADIX_BUCKETS - d,
    {
        let ghost h = histograms[d as int]@;
        let mut row: Vec<u32> = Vec::new();
        let mut totals: Vec<u32> = Vec::new();
        let mut base: usize = 0;
        let mut c: usize = 0;
        proof {
            lemma_ceil_div(blocks as int, 256);
        }
        while c < chunks
            invariant
                histograms.len() == RADIX_BUCKETS,
                d < RADIX_BUCKETS,
                blocks <= u32::MAX,
                h == histograms[d as int]@,
                h.len() == blocks,
                plane_dim > 0,
                chunks == ceil_div(blocks as int, 256),
                c < chunks ==> base == c * 256,
                c == chunks ==> base == blocks,
                base <= blocks,
                256 * chunks >= blocks,
                256 * chunks < blocks + 256,
                c <= chunks,
                row.len() == base,
                totals.len() == c,
                forall|b: int| 0 <= b < row.len() ==> #[trigger] row[b] == word_sum(h, chunk_base(b), b),
                forall|e: int| 0 <= e < c ==> #[trigger] totals[e] == word_sum(
                    h,
                    e * 256,
                    if e * 256 + 256 < blocks { e * 256 + 256 } else { blocks as int },
                ),
            decreases chunks - c,
        {
            let end = if blocks - base > BLOCK_SIZE {
                base + BLOCK_SIZE
            } else {
                blocks
            };
            let mut values: Vec<u32> = Vec::new();
            let mut j = base;
            while j < end
                invariant
                    histograms.len() == RADIX_BUCKETS,
                    d < RADIX_BUCKETS,
                    h == histograms[d as int]@,
                    h.len() == blocks,
                    base <= j <= end <= blocks,
                    values.len() == j - base,
                    forall|k: int| 0 <= k < values.len() ==> #[trigger] values[k] == h[base + k],
                decreases end - j,
            {
                values.push(histograms[d][j]);
                j = j + 1;
            }
            let (local, total) = block_exclusive_sum(&values, plane_dim);
            proof {
                lemma_exact_sum_shift(h, values@, base as int, values.len() as int);
            }
            let mut k: usize = 0;
            while k < local.len()
                invariant
                    histograms.len() == RADIX_BUCKETS,
                    d < RADIX_BUCKETS,
                    h == histograms[d as int]@,
                    h.len() == blocks,
                    base == c * 256,
                    base < end <= blocks,
                    end - base <= 256,
                    local.len() == values.len() == end - base,
                    forall|k: int| 0 <= k < values.len() ==> #[trigger] values[k] == h[base + k],
                    forall|k: int| 0 <= k < values.len() ==> #[trigger] local[k] == word_sum(values@, 0, k),
                    k <= local.len(),
                    row.len() == base + k,
                    forall|b: int| 0 <= b < row.len() ==> #[trigger] row[b] == word_sum(h, chunk_base(b), b),
                decreases local.len() - k,
            {
                proof {
                    lemma_exact_sum_shift(h, values@, base as int, k as int);
                    assert(chunk_base(base + k) == base);
                }
                row.push(local[k]);
                k = k + 1;
            }
            totals.push(total);
            base = end;
            c = c + 1;
        }
        prefixes.push(row);
        chunk_totals.push(totals);
        d = d + 1;
    }
    (prefixes, chunk_totals)
}

/// Exclusive scan of every bucket's run totals, and the bucket totals.
pub fn histogram_chunk_prefix(chunk_totals: &Vec<Vec<u32>>, chunks: usize, plane_dim: usize) -> (r: (
    Vec<Vec<u32>>,
    Vec<u32>,
))
    requires
        chunk_totals.len() == RADIX_BUCKETS,
        forall|d: int| 0 <= d < RADIX_BUCKETS ==> (#[trigger] chunk_totals[d]).len() == chunks,
        chunks > 0,
        plane_dim > 0,
    ensures
        r.0.len() == RADIX_BUCKETS,
        r.1.len() == RADIX_BUCKETS,
        forall|d: int| 0 <= d < RADIX_BUCKETS ==> (#[trigger] r.0[d]).len() == chunks,
        forall|d: int, c: int|
            0 <= d < RADIX_BUCKETS && 0 <= c < chunks ==> #[trigger] r.0[d][c] == word_sum(chunk_totals[d]@, 0, c),
        forall|d: int| 0 <= d < RADIX_BUCKETS ==> #[trigger] r.1[d] == word_sum(chunk_totals[d]@, 0, chunks as int),
{
    let lanes = if chunks < BLOCK_SIZE {
        chunks
    } else {
        BLOCK_SIZE
    };
    let mut prefixes: Vec<Vec<u32>> = Vec::new();
    let mut totals: Vec<u32> = Vec::new();
    let mut d: usize = 0;
    while d < RADIX_BUCKETS
        invariant
            chunk_totals.len() == RADIX_BUCKETS,
            forall|d: int| 0 <= d < RADIX_BUCKETS ==> (#[trigger] chunk_totals[d]).len() == chunks,
            0 < lanes <= MAX_LANES,
            plane_dim > 0,
            d <= RADIX_BUCKETS,
            prefixes.len() == d,
            totals.len() == d,
            forall|k: int| 0 <= k < d ==> (#[trigger] prefixes[k]).len() == chunks,
            forall|k: int, c: int|
                0 <= k < d && 0 <= c < chunks ==> #[trigger] prefixes[k][c] == word_sum(chunk_totals[k]@, 0, c),
            forall|k: int| 0 <= k < d ==> #[trigger] totals[k] == word_sum(chunk_totals[k]@, 0, chunks as int),
        decreases RADIX_BUCKETS - d,
    {
        let (row, total) = row_exclusive_sum(&chunk_totals[d], lanes, plane_dim);
        prefixes.push(row);
        totals.push(total);
        d = d + 1;
    }
    (prefixes, totals)
}

/// Adds every run's global prefix to the run-local block prefixes.
pub fn add_histogram_chunk_prefix(chunk_prefixes: &Vec<Vec<u32>>, block_prefixes: &Vec<Vec<u32>>, blocks: usize) -> (r:
    Vec<Vec<u32>>)
    requires
        chunk_prefixes.len() == RADIX_BUCKETS,
        block_prefixes.len() == RADIX_BUCKETS,
        forall|d: int| 0 <= d < RADIX_BUCKETS ==> (#[trigger] block_prefixes[d]).len() == blocks,
        forall|d: int| 0 <= d < RADIX_BUCKETS ==> (#[trigger] chunk_prefixes[d]).len() == ceil_div(blocks as int, 256),
    ensures
        r.len() == RADIX_BUCKETS,
        forall|d: int| 0 <= d < RADIX_BUCKETS ==> (#[trigger] r[d]).len() == blocks,
        forall|d: int, b: int|
            0 <= d < RADIX_BUCKETS && 0 <= b < blocks ==> #[trigger] r[d][b] == (block_prefixes[d][b]
                + chunk_prefixes[d][b / 256]) % 0x1_0000_0000,
{
    let mut r: Vec<Vec<u32>> = Vec::new();
    let mut d: usize = 0;
    proof {
        lemma_ceil_div(blocks as int, 256);
    }
    while d < RADIX_BUCKETS
        invariant
            chunk_prefixes.len() == RADIX_BUCKETS,
            block_prefixes.len() == RADIX_BUCKETS,
            forall|d: int| 0 <= d < RADIX_BUCKETS ==> (#[trigger] block_prefixes[d]).len() == blocks,
            forall|d: int| 0 <= d < RADIX_BUCKETS ==> (#[trigger] chunk_prefixes[d]).len() == ceil_div(blocks as int, 256),
            256 * ceil_div(blocks as int, 256) >= blocks,
            d <= RADIX_BUCKETS,
            r.len() == d,
            forall|k: int| 0 <= k < d ==> (#[trigger] r[k]).len() == blocks,
            forall|k: int, b: int|
                0 <= k < d && 0 <= b < blocks ==> #[trigger] r[k][b] == (block_prefixes[k][b]
                    + chunk_prefixes[k][b / 256]) % 0x1_0000_0000,
        decreases RADIX_BUCKETS - d,
    {
        let mut row: Vec<u32> = Vec::new();
        let mut b: usize = 0;
        while b < blocks
            invariant
                chunk_prefixes.len() == RADIX_BUCKETS,
                block_prefixes.len() == RADIX_BUCKETS,
                d < RADIX_BUCKETS,
                block_prefixes[d as int].len() == blocks,
                chunk_prefixes[d as int].len() == ceil_div(blocks as int, 256),
                256 * ceil_div(blocks as int, 256) >= blocks,
                b <= blocks,
                row.len() == b,
                forall|e: int| 0 <= e < b ==> #[trigger] row[e] == (block_prefixes[d as int][e]
                    + chunk_prefixes[d as int][e / 256]) % 0x1_0000_0000,
            decreases blocks - b,
        {
            row.push(block_prefixes[d][b].wrapping_add(chunk_prefixes[d][b / BLOCK_SIZE]));
            b = b + 1;
        }
        r.push(row);
        d = d + 1;
    }
    r
}

/// Bucket offsets: the exclusive scan of the 256 bucket totals.
pub fn bucket_offsets(bucket_totals: &Vec<u32>, plane_dim: usize) -> (r: Vec<u32>)
    requires
        bucket_totals.len() == RADIX_BUCKETS,
        plane_dim > 0,
    ensures
        r.len() == RADIX_BUCKETS,
        forall|d: int| 0 <= d < RADIX_BUCKETS ==> #[trigger] r[d] == word_sum(bucket_totals@, 0, d),
{
    let (prefixes, _) = block_exclusive_sum(bucket_totals, plane_dim);
    prefixes
}

/// Scanning the run totals of a row gives the row's prefix at each run start.
proof fn lemma_chunk_prefix(h: Seq<u32>, totals: Seq<u32>, blocks: int, c: int)
    requires
        h.len() == blocks,
        totals.len() == ceil_div(blocks, 256),
        0 <= c <= totals.len(),
        forall|e: int| 0 <= e < totals.len() ==> #[trigger] totals[e] == word_sum(
            h,
            e * 256,
            if e * 256 + 256 < blocks { e * 256 + 256 } else { blocks },
        ),
    ensures
        word_sum(totals, 0, c) == word_sum(h, 0, if c * 256 < blocks { c * 256 } else { blocks }),
{
    let chunks = totals.len() as int;
    lemma_ceil_div(blocks, 256);
    let bounds = Seq::new((chunks + 1) as nat, |e: int| if e * 256 < blocks { e * 256 } else { blocks });
    assert forall|j: int| 0 <= j < c implies #[trigger] totals[j] == word_sum(h, bounds[j], bounds[j + 1]) by {
        assert(j * 256 < blocks);
    }
    lemma_lane_totals(h, totals, bounds, c);
}

/// Block prefixes and bucket totals when a bucket's row spans more blocks
/// than a workgroup has lanes: runs of 256 blocks are scanned, the run
/// totals are scanned, and every run's prefix is added back.
pub fn histogram_prefix_chunked(histograms: &Vec<Vec<u32>>, blocks: usize, plane_dim: usize) -> (r: (
    Vec<Vec<u32>>,
    Vec<u32>,
))
    requires
        histograms.len() == RADIX_BUCKETS,
        forall|d: int| 0 <= d < RADIX_BUCKETS ==> (#[trigger] histograms[d]).len() == blocks,
        0 < blocks <= u32::MAX,
        plane_dim > 0,
    ensures
        r.0.len() == RADIX_BUCKETS,
        r.1.len() == RADIX_BUCKETS,
        forall|d: int| 0 <= d < RADIX_BUCKETS ==> (#[trigger] r.0[d]).len() == blocks,
        forall|d: int, b: int|
            0 <= d < RADIX_BUCKETS && 0 <= b < blocks ==> #[trigger] r.0[d][b] == word_sum(histograms[d]@, 0, b),
        forall|d: int| 0 <= d < RADIX_BUCKETS ==> #[trigger] r.1[d] == word_sum(histograms[d]@, 0, blocks as int),
{
    let chunks = logical_block_count(blocks, BLOCK_SIZE);
    proof {
        lemma_ceil_div(blocks as int, 256);
    }
    let (local, chunk_totals) = histogram_chunk_scan(histograms, blocks, plane_dim);
    let (chunk_prefixes, totals) = histogram_chunk_prefix(&chunk_totals, chunks, plane_dim);
    let prefixes = add_histogram_chunk_prefix(&chunk_prefixes, &local, blocks);
    proof {
        assert forall|d: int, b: int| 0 <= d < RADIX_BUCKETS && 0 <= b < blocks implies #[trigger] prefixes[d][b]
            == word_sum(histograms[d]@, 0, b) by {
            let h = histograms[d]@;
            let c = b / 256;
            lemma_chunk_prefix(h, chunk_totals[d]@, blocks as int, c);
            assert(c * 256 <= b);
            lemma_word_sum_split(h, 0, c * 256, b);
            assert(chunk_base(b) == c * 256);
        }
        assert forall|d: int| 0 <= d < RADIX_BUCKETS implies #[trigger] totals[d] == word_sum(
            histograms[d]@,
            0,
            blocks as int,
        ) by {
            lemma_chunk_prefix(histograms[d]@, chunk_totals[d]@, blocks as int, chunks as int);
        }
    }
    (prefixes, totals)
}

proof fn lemma_slot_distinct(dg: Seq<u32>, a: int, b: int)
    requires
        0 <= a < dg.len(),
        0 <= b < dg.len(),
        a != b,
    ensures
        stable_slot(dg, a) != stable_slot(dg, b),
{
    if dg[a] < dg[b] || (dg[a] == dg[b] && a < b) {
        lemma_slot_order(dg, a, b);
    } else {
        lemma_slot_order(dg, b, a);
    }
}

/// Row id carried by the row at position `i`.
pub open spec fn carried_id(indices: Seq<u32>, initialized: bool, i: int) -> u32 {
    if initialized {
        indices[i]
    } else {
        i as u32
    }
}

/// Moves every row to its stable counting-sort slot: its bucket's offset,
/// plus the rows with its digit in earlier blocks, plus the rows with its
/// digit earlier in its own block.  Each row is written with the row id it
/// carries: `indices[i]`, or its position when no order exists yet.
pub fn stable_digit_scatter<T: RadixScalar>(
    keys: &Vec<T>,
    indices: &Vec<u32>,
    initialized: bool,
    block_prefixes: &Vec<Vec<u32>>,
    offsets: &Vec<u32>,
    shift: u32,
    tile: usize,
    blocks: usize,
    key_output: &mut Vec<T>,
    output: &mut Vec<u32>,
)
    requires
        shift < 64,
        tile > 0,
        blocks == ceil_div(keys.len() as int, tile as int),
        keys.len() <= u32::MAX,
        initialized ==> indices.len() == keys.len(),
        old(key_output).len() == keys.len(),
        old(output).len() == keys.len(),
        block_prefixes.len() == RADIX_BUCKETS,
        forall|d: int| 0 <= d < RADIX_BUCKETS ==> (#[trigger] block_prefixes[d]).len() == blocks,
        forall|d: int, b: int|
            0 <= d < RADIX_BUCKETS && 0 <= b < blocks ==> #[trigger] block_prefixes[d][b] == count_digit(
                column_digits(keys@, shift as nat),
                d as nat,
                tile_bound(b, tile as int, keys.len() as int),
            ),
        offsets.len() == RADIX_BUCKETS,
        forall|d: int| 0 <= d < RADIX_BUCKETS ==> #[trigger] offsets[d] == count_below(
            column_digits(keys@, shift as nat),
            d as nat,
            keys.len() as int,
        ),
    ensures
        final(key_output).len() == keys.len(),
        final(output).len() == keys.len(),
        forall|i: int| 0 <= i < keys.len() ==> final(key_output)[#[trigger] stable_slot(column_digits(keys@, shift as nat), i) as int]
            == keys[i],
        forall|i: int| 0 <= i < keys.len() ==> final(output)[#[trigger] stable_slot(column_digits(keys@, shift as nat), i) as int]
            == carried_id(indices@, initialized, i),
{
    let n = keys.len();
    let ghost dg = column_digits(keys@, shift as nat);
    proof {
        lemma_tile_ends(tile as int, n as int, blocks as int);
    }
    let mut start: usize = 0;
    let mut b: usize = 0;
    while b < blocks
        invariant
            n == keys.len() <= u32::MAX,
            dg == column_digits(keys@, shift as nat),
            dg.len() == n,
            shift < 64,
            tile > 0,
            blocks == ceil_div(n as int, tile as int),
            initialized ==> indices.len() == n,
            b <= blocks,
            start == tile_bound(b as int, tile as int, n as int),
            tile_bound(blocks as int, tile as int, n as int) == n,
            key_output.len() == n,
            output.len() == n,
            block_prefixes.len() == RADIX_BUCKETS,
            forall|d: int| 0 <= d < RADIX_BUCKETS ==> (#[trigger] block_prefixes[d]).len() == blocks,
            forall|d: int, c: int|
                0 <= d < RADIX_BUCKETS && 0 <= c < blocks ==> #[trigger] block_prefixes[d][c] == count_digit(
                    dg,
                    d as nat,
                    tile_bound(c, tile as int, n as int),
                ),
            offsets.len() == RADIX_BUCKETS,
            forall|d: int| 0 <= d < RADIX_BUCKETS ==> #[trigger] offsets[d] == count_below(dg, d as nat, n as int),
            forall|i: int| 0 <= i < start ==> key_output[#[trigger] stable_slot(dg, i) as int] == keys[i],
            forall|i: int| 0 <= i < start ==> output[#[trigger] stable_slot(dg, i) as int] == carried_id(
                indices@,
                initialized,
                i,
            ),
        decreases blocks - b,
    {
        proof {
            lemma_tile_step(b as int, tile as int, n as int, blocks as int);
        }
        let end = if n - start > tile {
            start + tile
        } else {
            n
        };
        let mut counts: Vec<u32> = Vec::new();
        let mut d: usize = 0;
        while d < RADIX_BUCKETS
            invariant
                d <= RADIX_BUCKETS,
                counts.len() == d,
                forall|k: int| 0 <= k < d ==> counts[k] == 0,
            decreases RADIX_BUCKETS - d,
        {
            counts.push(0);
            d = d + 1;
        }
        let mut i = start;
        while i < end
            invariant
                n == keys.len() <= u32::MAX,
                dg == column_digits(keys@, shift as nat),
                dg.len() == n,
                shift < 64,
                initialized ==> indices.len() == n,
                b < blocks,
                start == tile_bound(b as int, tile as int, n as int),
                start <= i <= end <= n,
                key_output.len() == n,
                output.len() == n,
                block_prefixes.len() == RADIX_BUCKETS,
                forall|d: int| 0 <= d < RADIX_BUCKETS ==> (#[trigger] block_prefixes[d]).len() == blocks,
                forall|d: int| 0 <= d < RADIX_BUCKETS ==> #[trigger] block_prefixes[d][b as int] == count_digit(
                    dg,
                    d as nat,
                    start as int,
                ),
                offsets.len() == RADIX_BUCKETS,
                forall|d: int| 0 <= d < RADIX_BUCKETS ==> #[trigger] offsets[d] == count_below(dg, d as nat, n as int),
                counts.len() == RADIX_BUCKETS,
                forall|k: int| 0 <= k < RADIX_BUCKETS ==> #[trigger] counts[k] == count_digit(dg, k as nat, i as int)
                    - count_digit(dg, k as nat, start as int),
                forall|j: int| 0 <= j < i ==> key_output[#[trigger] stable_slot(dg, j) as int] == keys[j],
                forall|j: int| 0 <= j < i ==> output[#[trigger] stable_slot(dg, j) as int] == carried_id(
                    indices@,
                    initialized,
                    j,
                ),
            decreases end - i,
        {
            let digit = radix_digit(keys[i], shift);
            let digit_index = digit as usize;
            proof {
                assert(dg[i as int] == digit);
                lemma_count_digit_mono(dg, digit as nat, start as int, i as int);
                lemma_slot_bound(dg, i as int);
                assert(block_prefixes[digit as int][b as int] == count_digit(dg, digit as nat, start as int));
                assert(offsets[digit as int] == count_below(dg, digit as nat, n as int));
            }
            let destination = (offsets[digit_index] + block_prefixes[digit_index][b] + counts[digit_index]) as usize;
            assert(destination == stable_slot(dg, i as int));
            let id = if initialized {
                indices[i]
            } else {
                i as u32
            };
            let ghost old_keys = key_output@;
            let ghost old_ids = output@;
            key_output.set(destination, keys[i]);
            output.set(destination, id);
            proof {
                assert forall|j: int| 0 <= j < i + 1 implies key_output[#[trigger] stable_slot(dg, j) as int] == keys[j]
                    && output[stable_slot(dg, j) as int] == carried_id(indices@, initialized, j) by {
                    if j < i {
                        lemma_slot_distinct(dg, j, i as int);
                        lemma_slot_bound(dg, j);
                        assert(key_output[stable_slot(dg, j) as int] == old_keys[stable_slot(dg, j) as int]);
                        assert(output[stable_slot(dg, j) as int] == old_ids[stable_slot(dg, j) as int]);
                    }
                }
            }
            let c = counts[digit_index];
            counts.set(digit_index, c + 1);
            i = i + 1;
        }
        start = end;
        b = b + 1;
    }
}

/// The positions `0..n` in order.
pub open spec fn identity_order(n: nat) -> Seq<u32> {
    Seq::new(n, |i: int| i as u32)
}

/// Counts up to a block boundary are what the scanned histograms hold.
proof fn lemma_block_prefix_exact(row: Seq<u32>, dg: Seq<u32>, d: nat, tile: int, blocks: int, b: int)
    requires
        tile > 0,
        dg.len() <= u32::MAX,
        blocks == ceil_div(dg.len() as int, tile),
        0 <= b <= blocks,
        row.len() == blocks,
        forall|c: int| 0 <= c < blocks ==> #[trigger] row[c] == count_digit(dg, d, tile_bound(c + 1, tile, dg.len() as int))
            - count_digit(dg, d, tile_bound(c, tile, dg.len() as int)),
    ensures
        word_sum(row, 0, b) == count_digit(dg, d, tile_bound(b, tile, dg.len() as int)),
{
    lemma_histogram_row(row, dg, d, tile, blocks, b);
    lemma_tile_ends(tile, dg.len() as int, blocks);
    if b < blocks {
        lemma_tile_step(b, tile, dg.len() as int, blocks);
    }
    lemma_count_bound(dg, d, tile_bound(b, tile, dg.len() as int));
}

/// Scanning the bucket totals counts the rows with a smaller digit.
proof fn lemma_bucket_offset(totals: Seq<u32>, dg: Seq<u32>, d: int)
    requires
        0 <= d <= totals.len(),
        dg.len() <= u32::MAX,
        forall|k: int| 0 <= k < totals.len() ==> #[trigger] totals[k] == count_digit(dg, k as nat, dg.len() as int),
    ensures
        exact_sum(totals, 0, d) == count_below(dg, d as nat, dg.len() as int),
        word_sum(totals, 0, d) == count_below(dg, d as nat, dg.len() as int),
    decreases d,
{
    let n = dg.len() as int;
    if d > 0 {
        lemma_bucket_offset(totals, dg, d - 1);
        lemma_count_below_step(dg, (d - 1) as nat, n);
    } else {
        assert(count_below(dg, 0, n) == 0) by {
            lemma_count_below_zero(dg, n);
        }
    }
    lemma_count_bound(dg, d as nat, n);
}

proof fn lemma_count_below_zero(dg: Seq<u32>, n: int)
    ensures
        count_below(dg, 0, n) == 0,
    decreases n,
{
    if n > 0 {
        lemma_count_below_zero(dg, n - 1);
    }
}

/// Order state of a multi-pass radix ordering: the permutation that the
/// passes so far have produced, and the key it is stably sorted by.
pub struct RadixControl {
    current: Vec<u32>,
    block_count: usize,
    items_per_unit: usize,
    plane_dim: usize,
    initialized: bool,
    sort_keys: Ghost<Seq<nat>>,
    key_bound: Ghost<nat>,
}

impl RadixControl {
    /// Number of rows being ordered.
    pub closed spec fn len(&self) -> nat {
        self.current@.len()
    }

    /// Whether a pass has produced an order yet.
    pub closed spec fn is_initialized(&self) -> bool {
        self.initialized
    }

    /// Row ids in their current order: positions in order before any pass.
    pub closed spec fn order(&self) -> Seq<u32> {
        if self.initialized {
            self.current@
        } else {
            identity_order(self.current@.len())
        }
    }

    /// The key, row by row, that the current order is stably sorted by.
    pub closed spec fn sort_keys(&self) -> Seq<nat> {
        self.sort_keys@
    }

    /// Every sort key is below this bound.
    pub closed spec fn key_bound(&self) -> nat {
        self.key_bound@
    }

    /// A well-formed control holds a permutation of its rows, stably sorted
    /// by its sort keys.
    pub proof fn lemma_sorted_order(&self)
        requires
            self.well_formed(),
        ensures
            is_permutation(self.order(), self.len()),
            stably_sorted(self.order(), self.sort_keys()),
            self.sort_keys().len() == self.len(),
    {
    }

    /// The control's invariant: its order is a permutation of its rows,
    /// stably sorted by its sort keys, which stay below the key bound.
    pub closed spec fn well_formed(&self) -> bool {
        &&& self.current.len() <= u32::MAX
        &&& self.items_per_unit > 0
        &&& 256 * self.items_per_unit <= u32::MAX
        &&& self.plane_dim > 0
        &&& self.block_count == ceil_div(self.current.len() as int, 256 * self.items_per_unit)
        &&& is_permutation(self.order(), self.current.len() as nat)
        &&& stably_sorted(self.order(), self.sort_keys@)
        &&& self.sort_keys@.len() == self.current.len()
        &&& self.key_bound@ > 0
        &&& forall|r: int| 0 <= r < self.current.len() ==> #[trigger] self.sort_keys@[r] < self.key_bound@
    }

    /// A control for `len` rows in their original order.  Blocks hold
    /// `256 * items_per_unit` rows; `plane_dim` is the device's subgroup size.
    pub fn new(len: usize, items_per_unit: usize, plane_dim: usize) -> (r: Result<RadixControl, Error>)
        requires
            items_per_unit > 0,
            256 * items_per_unit <= u32::MAX,
            plane_dim > 0,
        ensures
            len > u32::MAX ==> r == Err::<RadixControl, Error>(Error::LengthTooLarge { len }),
            len <= u32::MAX ==> (r matches Ok(control) && {
                &&& control.well_formed()
                &&& control.len() == len
                &&& !control.is_initialized()
                &&& control.order() == identity_order(len as nat)
                &&& control.sort_keys() == Seq::new(len as nat, |r: int| 0nat)
                &&& control.key_bound() == 1
            }),
    {
        if len > u32::MAX as usize {
            return Err(Error::LengthTooLarge { len });
        }
        let block_count = logical_block_count(len, BLOCK_SIZE * items_per_unit);
        let current = scratch(0u32, len);
        let control = RadixControl {
            current,
            block_count,
            items_per_unit,
            plane_dim,
            initialized: false,
            sort_keys: Ghost(Seq::new(len as nat, |r: int| 0nat)),
            key_bound: Ghost(1),
        };
        assert(is_permutation(control.order(), len as nat));
        Ok(control)
    }

    /// Number of rows being ordered.
    pub fn row_count(&self) -> (r: usize)
        ensures
            r == self.len(),
    {
        self.current.len()
    }

    /// Whether a pass has produced an order yet.
    pub fn initialized(&self) -> (r: bool)
        ensures
            r == self.is_initialized(),
    {
        self.initialized
    }

    /// The order that the passes so far have produced.
    pub fn current(&self) -> (r: &Vec<u32>)
        ensures
            self.is_initialized() || self.len() == 0 ==> r@ == self.order(),
    {
        &self.current
    }

    /// The order that the passes produced, taking the control apart.
    pub fn into_current(self) -> (r: Vec<u32>)
        ensures
            self.is_initialized() || self.len() == 0 ==> r@ == self.order(),
    {
        self.current
    }

    /// Accounts for a key column over no rows: there is nothing to reorder.
    fn extend_empty(&mut self, Ghost(range): Ghost<nat>)
        requires
            old(self).well_formed(),
            old(self).len() == 0,
            range > 0,
        ensures
            final(self).well_formed(),
            final(self).len() == 0,
            final(self).is_initialized() == old(self).is_initialized(),
            final(self).key_bound() == range * old(self).key_bound(),
            final(self).sort_keys() == Seq::<nat>::empty(),
    {
        let ghost bound = self.key_bound@;
        proof {
            assert(range * bound > 0) by (nonlinear_arith)
                requires
                    range > 0,
                    bound > 0,
            ;
        }
        self.sort_keys = Ghost(Seq::empty());
        self.key_bound = Ghost(range * bound);
    }

    /// One stable pass by the digit at `shift` of keys that stand in the
    /// current order (`keys[i]` is the key of row `order()[i]` of `column`).
    /// Writes the keys in the new order to `key_scratch`.
    pub fn pass<T: RadixScalar>(
        &mut self,
        keys: &Vec<T>,
        key_scratch: &mut Vec<T>,
        shift: u32,
        Ghost(column): Ghost<Seq<T>>,
    ) -> (r: Result<(), Error>)
        requires
            old(self).well_formed(),
            shift < 64,
            keys.len() == old(self).len(),
            old(key_scratch).len() == old(self).len(),
            column.len() == old(self).len(),
            forall|i: int| 0 <= i < keys.len() ==> #[trigger] keys[i] == column[old(self).order()[i] as int],
        ensures
            r is Ok,
            final(self).well_formed(),
            final(self).len() == old(self).len(),
            is_permutation(final(self).order(), final(self).len()),
            stably_sorted(final(self).order(), final(self).sort_keys()),
            final(self).is_initialized() == (old(self).is_initialized() || old(self).len() > 0),
            final(self).key_bound() == old(self).key_bound() * 256,
            final(self).sort_keys() == Seq::new(
                old(self).len(),
                |r: int| digit_of(T::encoded(column[r]), shift as nat) * old(self).key_bound() + old(self).sort_keys()[r],
            ),
            final(key_scratch).len() == old(self).len(),
            forall|i: int| 0 <= i < old(self).len() ==> #[trigger] final(key_scratch)[i] == column[final(self).order()[i] as int],
    {
        let len = self.current.len();
        let ghost order = self.order();
        let ghost old_keys = self.sort_keys@;
        let ghost bound = self.key_bound@;
        let ghost row_digits = Seq::new(len as nat, |r: int| digit_of(T::encoded(column[r]), shift as nat) as u32);
        let ghost next_keys = Seq::new(
            len as nat,
            |r: int| digit_of(T::encoded(column[r]), shift as nat) * bound + old_keys[r],
        );
        proof {
            assert forall|r: int| 0 <= r < len implies #[trigger] next_keys[r] < bound * 256 by {
                assert(digit_of(T::encoded(column[r]), shift as nat) <= 255);
                lemma_mul_inequality(digit_of(T::encoded(column[r]), shift as nat) as int, 255, bound as int);
                assert(old_keys[r] < bound);
                assert(255 * bound + bound == bound * 256) by (nonlinear_arith);
            }
        }
        if len == 0 {
            self.sort_keys = Ghost(next_keys);
            self.key_bound = Ghost(bound * 256);
            return Ok(());
        }
        let tile = BLOCK_SIZE * self.items_per_unit;
        let blocks = self.block_count;
        let ghost dg = column_digits(keys@, shift as nat);
        proof {
            assert forall|i: int| 0 <= i < len implies #[trigger] dg[i] == row_digits[order[i] as int] by {
                assert(order[i] < len);
            }
            lemma_tile_ends(tile as int, len as int, blocks as int);
        }
        let histograms = block_histogram(keys, shift, tile, blocks);
        let (block_prefixes, bucket_totals) = if blocks <= BLOCK_SIZE {
            proof {
                lemma_ceil_div(len as int, tile as int);
            }
            histogram_prefix(&histograms, blocks, self.plane_dim)
        } else {
            proof {
                lemma_ceil_div(len as int, tile as int);
                assert(blocks <= len) by (nonlinear_arith)
                    requires
                        tile * blocks < len + tile,
                        tile >= 1,
                ;
            }
            histogram_prefix_chunked(&histograms, blocks, self.plane_dim)
        };
        proof {
            assert forall|d: int, b: int| 0 <= d < RADIX_BUCKETS && 0 <= b < blocks implies #[trigger] block_prefixes[d][b]
                == count_digit(dg, d as nat, tile_bound(b, tile as int, len as int)) by {
                lemma_block_prefix_exact(histograms[d]@, dg, d as nat, tile as int, blocks as int, b);
            }
            assert forall|d: int| 0 <= d < RADIX_BUCKETS implies #[trigger] bucket_totals[d] == count_digit(
                dg,
                d as nat,
                len as int,
            ) by {
                lemma_block_prefix_exact(histograms[d]@, dg, d as nat, tile as int, blocks as int, blocks as int);
            }
        }
        let offsets = bucket_offsets(&bucket_totals, self.plane_dim);
        proof {
            assert forall|d: int| 0 <= d < RADIX_BUCKETS implies #[trigger] offsets[d] == count_below(
                dg,
                d as nat,
                len as int,
            ) by {
                lemma_bucket_offset(bucket_totals@, dg, d);
            }
        }
        let mut next = scratch(0u32, len);
        stable_digit_scatter(
            keys,
            &self.current,
            self.initialized,
            &block_prefixes,
            &offsets,
            shift,
            tile,
            blocks,
            key_scratch,
            &mut next,
        );
        proof {
            assert forall|i: int| 0 <= i < len implies #[trigger] next[stable_slot(dg, i) as int] == order[i] by {
                assert(carried_id(self.current@, self.initialized, i) == order[i]);
            }
            lemma_pass_refines(order, next@, old_keys, bound, row_digits, dg);
            assert(Seq::new(len as nat, |r: int| row_digits[r] as nat * bound + old_keys[r]) =~= next_keys);
            lemma_slots_onto(dg);
            assert forall|p: int| 0 <= p < len implies #[trigger] key_scratch[p] == column[next[p] as int] by {
                assert(slot_taken(dg, p));
                let i = choose|i: int| 0 <= i < dg.len() && #[trigger] stable_slot(dg, i) == p;
                assert(key_scratch[stable_slot(dg, i) as int] == keys[i]);
                assert(next[stable_slot(dg, i) as int] == order[i]);
            }
        }
        self.current = next;
        self.initialized = true;
        self.sort_keys = Ghost(next_keys);
        self.key_bound = Ghost(bound * 256);
        Ok(())
    }
}

/// Gathers a key column into the current order, so that later passes read
/// keys linearly.
pub fn align_radix_keys<T: Copy>(keys: &Vec<T>, permutation: &Vec<u32>, identity: bool) -> (r: Vec<T>)
    requires
        !identity ==> permutation.len() == keys.len(),
        !identity ==> forall|i: int| 0 <= i < keys.len() ==> #[trigger] permutation[i] < keys.len(),
    ensures
        r.len() == keys.len(),
        forall|i: int| 0 <= i < keys.len() ==> #[trigger] r[i] == if identity {
            keys[i]
        } else {
            keys[permutation[i] as int]
        },
{
    let mut r: Vec<T> = Vec::new();
    let mut i: usize = 0;
    while i < keys.len()
        invariant
            !identity ==> permutation.len() == keys.len(),
            !identity ==> forall|i: int| 0 <= i < keys.len() ==> #[trigger] permutation[i] < keys.len(),
            i <= keys.len(),
            r.len() == i,
            forall|k: int| 0 <= k < i ==> #[trigger] r[k] == if identity {
                keys[k]
            } else {
                keys[permutation[k] as int]
            },
        decreases keys.len() - i,
    {
        let source = if identity {
            i
        } else {
            permutation[i] as usize
        };
        r.push(keys[source]);
        i = i + 1;
    }
    r
}

/// The digits of a key rebuild it: the key modulo `2^(shift + 8)` is its
/// digit at `shift`, scaled by `2^shift`, above the key modulo `2^shift`;
/// every digit is below 256.
pub proof fn lemma_digits_rebuild_key(e: nat, shift: nat)
    ensures
        digit_of(e, shift) < 256,
        e % pow2(shift + 8) == pow2(shift) * digit_of(e, shift) + e % pow2(shift),
{
    lemma_pow2_pos(shift);
    lemma_pow2_adds(shift, 8);
    lemma2_to64();
    lemma_mod_breakdown(e as int, pow2(shift) as int, 256);
}

/// Folding in one more digit of a key extends the key prefix by that digit.
proof fn lemma_digit_extends(e: nat, shift: nat, b0: nat, k0: nat)
    ensures
        digit_of(e, shift) * (pow2(shift) * b0) + ((e % pow2(shift)) * b0 + k0) == (e % pow2(shift + 8)) * b0 + k0,
        pow2(shift) * b0 * 256 == pow2(shift + 8) * b0,
{
    lemma_pow2_pos(shift);
    lemma_pow2_adds(shift, 8);
    lemma2_to64();
    let p = pow2(shift) as int;
    lemma_mod_breakdown(e as int, p, 256);
    let d = digit_of(e, shift) as int;
    let m = (e % pow2(shift)) as int;
    assert(d * (p * b0) + (m * b0 + k0) == (p * d + m) * b0 + k0) by (nonlinear_arith);
    assert(p * b0 * 256 == (p * 256) * b0) by (nonlinear_arith);
}

/// Key storage that can contribute lexicographic radix passes.
pub trait RadixStorage {
    /// Number of rows.
    spec fn rows(&self) -> nat;

    /// Each row's key as one number, ordered as the rows' keys are.
    spec fn row_keys(&self) -> Seq<nat>;

    /// Every row key is below this bound.
    spec fn key_range(&self) -> nat;

    /// The key columns have one row each per row.
    spec fn aligned(&self) -> bool;

    proof fn lemma_row_keys(&self)
        requires
            self.aligned(),
        ensures
            self.row_keys().len() == self.rows(),
            self.key_range() > 0,
            forall|r: int| 0 <= r < self.rows() ==> #[trigger] self.row_keys()[r] < self.key_range(),
    ;

    /// Stable passes over every digit of the keys, least significant first:
    /// the control's order becomes stable by these keys first and by the
    /// order it had second.
    fn radix_passes(&self, control: &mut RadixControl) -> (r: Result<(), Error>)
        requires
            self.aligned(),
            old(control).well_formed(),
            old(control).len() == self.rows(),
        ensures
            r is Ok,
            final(control).well_formed(),
            final(control).len() == old(control).len(),
            is_permutation(final(control).order(), final(control).len()),
            stably_sorted(final(control).order(), final(control).sort_keys()),
            final(control).is_initialized() == (old(control).is_initialized() || old(control).len() > 0),
            final(control).key_bound() == self.key_range() * old(control).key_bound(),
            final(control).sort_keys() == Seq::new(
                old(control).len(),
                |r: int| self.row_keys()[r] * old(control).key_bound() + old(control).sort_keys()[r],
            ),
    ;
}

impl<T: RadixScalar> RadixStorage for Vec<T> {
    open spec fn rows(&self) -> nat {
        self@.len()
    }

    open spec fn row_keys(&self) -> Seq<nat> {
        Seq::new(self@.len(), |r: int| T::encoded(self@[r]))
    }

    open spec fn key_range(&self) -> nat {
        pow2(T::bits())
    }

    open spec fn aligned(&self) -> bool {
        true
    }

    proof fn lemma_row_keys(&self) {
        lemma_pow2_pos(T::bits());
        assert forall|r: int| 0 <= r < self.rows() implies #[trigger] self.row_keys()[r] < self.key_range() by {
            T::lemma_encoding(self@[r]);
        }
    }

    fn radix_passes(&self, control: &mut RadixControl) -> (r: Result<(), Error>) {
        let len = control.row_count();
        let ghost b0 = control.key_bound();
        let ghost k0 = control.sort_keys();
        let ghost column = self@;
        proof {
            T::lemma_width();
            lemma_pow2_pos(T::bits());
            lemma2_to64();
        }
        if len == 0 {
            control.extend_empty(Ghost(pow2(T::bits())));
            assert(control.sort_keys() =~= Seq::new(
                0,
                |r: int| self.row_keys()[r] * b0 + k0[r],
            ));
            return Ok(());
        }
        let bits = T::key_bits();
        // The first key column is already in position order: its first pass
        // reads it directly.
        let direct = !control.initialized();
        let mut key_a = if direct {
            scratch(self[0], len)
        } else {
            align_radix_keys(self, control.current(), false)
        };
        let mut key_b = scratch(self[0], len);
        let mut shift: u32 = 0;
        proof {
            assert(control.sort_keys() =~= Seq::new(
                len as nat,
                |r: int| (T::encoded(column[r]) % pow2(0)) * b0 + k0[r],
            ));
            assert(control.key_bound() == pow2(0) * b0);
        }
        while shift < bits
            invariant
                column == self@,
                len == self@.len(),
                len > 0,
                bits == T::bits(),
                bits == 8 || bits == 16 || bits == 32 || bits == 64,
                shift % 8 == 0,
                shift <= bits,
                control.well_formed(),
                control.len() == len,
                shift > 0 ==> control.is_initialized(),
                shift == 0 ==> control.is_initialized() == !direct,
                key_a.len() == len,
                key_b.len() == len,
                !(shift == 0 && direct) ==> forall|i: int| 0 <= i < len ==> #[trigger] key_a[i] == column[control.order()[i] as int],
                control.key_bound() == pow2(shift as nat) * b0,
                control.sort_keys() == Seq::new(
                    len as nat,
                    |r: int| (T::encoded(column[r]) % pow2(shift as nat)) * b0 + k0[r],
                ),
            decreases bits - shift,
        {
            let ghost before = control.sort_keys();
            if shift == 0 && direct {
                control.pass(self, &mut key_b, shift, Ghost(column))?;
            } else {
                control.pass(&key_a, &mut key_b, shift, Ghost(column))?;
            }
            proof {
                assert forall|r: int| 0 <= r < len implies #[trigger] control.sort_keys()[r] == (T::encoded(column[r]) % pow2(
                    shift as nat + 8,
                )) * b0 + k0[r] by {
                    lemma_digit_extends(T::encoded(column[r]), shift as nat, b0, k0[r]);
                }
                lemma_digit_extends(0, shift as nat, b0, 0);
                assert(control.sort_keys() =~= Seq::new(
                    len as nat,
                    |r: int| (T::encoded(column[r]) % pow2(shift as nat + 8)) * b0 + k0[r],
                ));
            }
            std::mem::swap(&mut key_a, &mut key_b);
            shift = shift + 8;
        }
        proof {
            assert forall|r: int| 0 <= r < len implies T::encoded(column[r]) % pow2(bits as nat) == T::encoded(column[r]) by {
                T::lemma_encoding(column[r]);
            }
            assert(control.sort_keys() =~= Seq::new(
                len as nat,
                |r: int| self.row_keys()[r] * b0 + k0[r],
            ));
        }
        Ok(())
    }
}

/// Two key columns ordered lexicographically, the first one primary.
pub struct Zip<L, R>(pub L, pub R);

impl<L: RadixStorage, R: RadixStorage> RadixStorage for Zip<L, R> {
    open spec fn rows(&self) -> nat {
        self.0.rows()
    }

    open spec fn row_keys(&self) -> Seq<nat> {
        Seq::new(self.0.rows(), |r: int| self.0.row_keys()[r] * self.1.key_range() + self.1.row_keys()[r])
    }

    open spec fn key_range(&self) -> nat {
        self.0.key_range() * self.1.key_range()
    }

    open spec fn aligned(&self) -> bool {
        self.0.aligned() && self.1.aligned() && self.0.rows() == self.1.rows()
    }

    proof fn lemma_row_keys(&self) {
        self.0.lemma_row_keys();
        self.1.lemma_row_keys();
        let lr = self.0.key_range();
        let rr = self.1.key_range();
        assert(lr * rr > 0) by (nonlinear_arith)
            requires
                lr > 0,
                rr > 0,
        ;
        assert forall|r: int| 0 <= r < self.rows() implies #[trigger] self.row_keys()[r] < self.key_range() by {
            let a = self.0.row_keys()[r];
            let b = self.1.row_keys()[r];
            assert(a * rr + b < lr * rr) by (nonlinear_arith)
                requires
                    a < lr,
                    b < rr,
            ;
        }
    }

    /// The second column's passes run first: each pass is stable, so the
    /// first column ends up primary.
    fn radix_passes(&self, control: &mut RadixControl) -> (r: Result<(), Error>) {
        let ghost b0 = control.key_bound();
        let ghost k0 = control.sort_keys();
        let ghost n = control.len();
        self.1.radix_passes(control)?;
        self.0.radix_passes(control)?;
        proof {
            let lr = self.0.key_range();
            let rr = self.1.key_range();
            assert forall|r: int| 0 <= r < n implies #[trigger] control.sort_keys()[r] == self.row_keys()[r] * b0 + k0[r] by {
                let a = self.0.row_keys()[r];
                let b = self.1.row_keys()[r];
                assert(a * (rr * b0) + (b * b0 + k0[r]) == (a * rr + b) * b0 + k0[r]) by (nonlinear_arith);
            }
            assert(control.sort_keys() =~= Seq::new(n, |r: int| self.row_keys()[r] * b0 + k0[r]));
            assert(lr * (rr * b0) == (lr * rr) * b0) by (nonlinear_arith);
        }
        Ok(())
    }
}

/// The key of a zipped row orders rows lexicographically: the first column
/// decides, and the second only where the first is equal.
pub proof fn lemma_zip_keys_are_lexicographic<L: RadixStorage, R: RadixStorage>(z: Zip<L, R>, a: int, b: int)
    requires
        z.aligned(),
        0 <= a < z.rows(),
        0 <= b < z.rows(),
    ensures
        (z.row_keys()[a] < z.row_keys()[b]) <==> (z.0.row_keys()[a] < z.0.row_keys()[b] || (z.0.row_keys()[a]
            == z.0.row_keys()[b] && z.1.row_keys()[a] < z.1.row_keys()[b])),
        (z.row_keys()[a] == z.row_keys()[b]) <==> (z.0.row_keys()[a] == z.0.row_keys()[b] && z.1.row_keys()[a]
            == z.1.row_keys()[b]),
{
    z.0.lemma_row_keys();
    z.1.lemma_row_keys();
    let m = z.1.key_range() as int;
    let x1 = z.0.row_keys()[a] as int;
    let x2 = z.0.row_keys()[b] as int;
    let y1 = z.1.row_keys()[a] as int;
    let y2 = z.1.row_keys()[b] as int;
    assert(z.row_keys()[a] == x1 * m + y1);
    assert(z.row_keys()[b] == x2 * m + y2);
    assert((x1 * m + y1 < x2 * m + y2) <==> (x1 < x2 || (x1 == x2 && y1 < y2))) by (nonlinear_arith)
        requires
            0 <= y1 < m,
            0 <= y2 < m,
            0 <= x1,
            0 <= x2,
    ;
    assert((x1 * m + y1 == x2 * m + y2) <==> (x1 == x2 && y1 == y2)) by (nonlinear_arith)
        requires
            0 <= y1 < m,
            0 <= y2 < m,
            0 <= x1,
            0 <= x2,
    ;
}

/// The radix key of every integer scalar orders values as the scalar type
/// does: smaller values get smaller keys, and equal keys mean equal values.
pub proof fn lemma_integer_keys_order()
    ensures
        forall|a: u8, b: u8| (a < b) <==> (#[trigger] <u8 as RadixScalar>::encoded(a) < #[trigger] <u8 as RadixScalar>::encoded(b)),
        forall|a: u8, b: u8| (a == b) <==> (#[trigger] <u8 as RadixScalar>::encoded(a) == #[trigger] <u8 as RadixScalar>::encoded(b)),
        forall|a: u16, b: u16| (a < b) <==> (#[trigger] <u16 as RadixScalar>::encoded(a) < #[trigger] <u16 as RadixScalar>::encoded(b)),
        forall|a: u16, b: u16| (a == b) <==> (#[trigger] <u16 as RadixScalar>::encoded(a) == #[trigger] <u16 as RadixScalar>::encoded(b)),
        forall|a: u32, b: u32| (a < b) <==> (#[trigger] <u32 as RadixScalar>::encoded(a) < #[trigger] <u32 as RadixScalar>::encoded(b)),
        forall|a: u32, b: u32| (a == b) <==> (#[trigger] <u32 as RadixScalar>::encoded(a) == #[trigger] <u32 as RadixScalar>::encoded(b)),
        forall|a: u64, b: u64| (a < b) <==> (#[trigger] <u64 as RadixScalar>::encoded(a) < #[trigger] <u64 as RadixScalar>::encoded(b)),
        forall|a: u64, b: u64| (a == b) <==> (#[trigger] <u64 as RadixScalar>::encoded(a) == #[trigger] <u64 as RadixScalar>::encoded(b)),
        forall|a: i8, b: i8| (a < b) <==> (#[trigger] <i8 as RadixScalar>::encoded(a) < #[trigger] <i8 as RadixScalar>::encoded(b)),
        forall|a: i8, b: i8| (a == b) <==> (#[trigger] <i8 as RadixScalar>::encoded(a) == #[trigger] <i8 as RadixScalar>::encoded(b)),
        forall|a: i16, b: i16| (a < b) <==> (#[trigger] <i16 as RadixScalar>::encoded(a) < #[trigger] <i16 as RadixScalar>::encoded(b)),
        forall|a: i16, b: i16| (a == b) <==> (#[trigger] <i16 as RadixScalar>::encoded(a) == #[trigger] <i16 as RadixScalar>::encoded(b)),
        forall|a: i32, b: i32| (a < b) <==> (#[trigger] <i32 as RadixScalar>::encoded(a) < #[trigger] <i32 as RadixScalar>::encoded(b)),
        forall|a: i32, b: i32| (a == b) <==> (#[trigger] <i32 as RadixScalar>::encoded(a) == #[trigger] <i32 as RadixScalar>::encoded(b)),
        forall|a: i64, b: i64| (a < b) <==> (#[trigger] <i64 as RadixScalar>::encoded(a) < #[trigger] <i64 as RadixScalar>::encoded(b)),
        forall|a: i64, b: i64| (a == b) <==> (#[trigger] <i64 as RadixScalar>::encoded(a) == #[trigger] <i64 as RadixScalar>::encoded(b)),
{
}

/// Rows per lane of a radix block for a device with `max_shared_memory_size`
/// bytes of workgroup memory: eight rows need less than 28 KiB even for
/// 64-bit keys, four fit in 16 KiB.
pub fn radix_items_per_unit(max_shared_memory_size: usize) -> (r: usize)
    ensures
        r == if max_shared_memory_size >= 28 * 1024 {
            8usize
        } else {
            4usize
        },
{
    if max_shared_memory_size >= 28 * 1024 {
        8
    } else {
        4
    }
}

/// The stable sorting permutation of the rows by their keys: row ids by
/// ascending key, equal keys by ascending row id.
pub fn permutation<K: RadixStorage>(keys: &K, len: usize, items_per_unit: usize, plane_dim: usize) -> (r: Result<
    Vec<u32>,
    Error,
>)
    requires
        keys.aligned(),
        keys.rows() == len,
        items_per_unit > 0,
        256 * items_per_unit <= u32::MAX,
        plane_dim > 0,
    ensures
        len > u32::MAX ==> r == Err::<Vec<u32>, Error>(Error::LengthTooLarge { len }),
        len <= u32::MAX ==> (r matches Ok(order) && is_permutation(order@, len as nat) && stably_sorted(
            order@,
            keys.row_keys(),
        )),
{
    let mut control = RadixControl::new(len, items_per_unit, plane_dim)?;
    keys.radix_passes(&mut control)?;
    proof {
        keys.lemma_row_keys();
        assert(control.sort_keys() =~= keys.row_keys());
    }
    Ok(control.into_current())
}


/// The key that orders IEEE-754 single-precision bit patterns by sign and
/// magnitude: negative patterns reversed, below the non-negative ones.
pub open spec fn float_key32(raw: u32) -> nat {
    if raw >= 0x8000_0000 {
        (0xffff_ffff - raw) as nat
    } else {
        (raw + 0x8000_0000) as nat
    }
}

/// The key that orders IEEE-754 double-precision bit patterns by sign and
/// magnitude.
pub open spec fn float_key64(raw: u64) -> nat {
    if raw >= 0x8000_0000_0000_0000 {
        (0xffff_ffff_ffff_ffff - raw) as nat
    } else {
        (raw + 0x8000_0000_0000_0000) as nat
    }
}

/// Sign-magnitude order of bit patterns: a set sign bit is below a clear
/// one, and among negative patterns the larger magnitude comes first.
pub open spec fn sign_magnitude_below(a: int, b: int, sign: int) -> bool {
    if a >= sign && b >= sign {
        a > b
    } else if a >= sign {
        true
    } else if b >= sign {
        false
    } else {
        a < b
    }
}

/// Radix key of a single-precision bit pattern.
pub fn float_key_bits32(raw: u32) -> (r: u32)
    ensures
        r == float_key32(raw),
{
    let encoded = if raw & 0x8000_0000 != 0 {
        !raw
    } else {
        raw ^ 0x8000_0000
    };
    assert(encoded == if raw >= 0x8000_0000 {
        0xffff_ffff - raw
    } else {
        raw + 0x8000_0000
    }) by (bit_vector)
        requires
            encoded == if raw & 0x8000_0000 != 0 {
                !raw
            } else {
                raw ^ 0x8000_0000
            },
    ;
    encoded
}

/// Radix key of a double-precision bit pattern.
pub fn float_key_bits64(raw: u64) -> (r: u64)
    ensures
        r == float_key64(raw),
{
    let encoded = if raw & 0x8000_0000_0000_0000 != 0 {
        !raw
    } else {
        raw ^ 0x8000_0000_0000_0000
    };
    assert(encoded == if raw >= 0x8000_0000_0000_0000 {
        0xffff_ffff_ffff_ffff - raw
    } else {
        raw + 0x8000_0000_0000_0000
    }) by (bit_vector)
        requires
            encoded == if raw & 0x8000_0000_0000_0000 != 0 {
                !raw
            } else {
                raw ^ 0x8000_0000_0000_0000
            },
    ;
    encoded
}

/// Float keys order bit patterns by sign and magnitude, and distinct
/// patterns get distinct keys.
pub proof fn lemma_float_keys_order(a: u32, b: u32, c: u64, d: u64)
    ensures
        float_key32(a) < float_key32(b) <==> sign_magnitude_below(a as int, b as int, 0x8000_0000),
        float_key32(a) == float_key32(b) <==> a == b,
        float_key64(c) < float_key64(d) <==> sign_magnitude_below(
            c as int,
            d as int,
            0x8000_0000_0000_0000,
        ),
        float_key64(c) == float_key64(d) <==> c == d,
{
}

/// Row id `r` occurs in `order`.
pub open spec fn occurs_in(order: Seq<u32>, r: int) -> bool {
    exists|k: int| 0 <= k < order.len() && order[k] == r
}

/// Every row id below `n` occurs somewhere in a permutation of `n` rows.
proof fn lemma_permutation_onto(order: Seq<u32>, n: nat)
    requires
        is_permutation(order, n),
    ensures
        forall|r: int| 0 <= r < n ==> #[trigger] occurs_in(order, r),
{
    let dom = set_int_range(0, n as int);
    let f = |i: int| order[i] as int;
    lemma_int_range(0, n as int);
    assert forall|a: int, b: int| dom.contains(a) && dom.contains(b) && #[trigger] f(a) == #[trigger] f(b) implies a == b by {
    }
    let img = dom.map(f);
    lemma_map_size(dom, img, f);
    assert forall|p: int| img.contains(p) implies dom.contains(p) by {
        let i = choose|i: int| dom.contains(i) && f(i) == p;
    }
    lemma_subset_equality(img, dom);
    assert forall|r: int| 0 <= r < n implies #[trigger] occurs_in(order, r) by {
        assert(dom.contains(r));
        assert(img.contains(r));
        let k = choose|k: int| dom.contains(k) && f(k) == r;
        assert(order[k] == r);
    }
}

/// The position of row `row` in `order`.
pub open spec fn position_of(order: Seq<u32>, row: u32) -> int {
    choose|k: int| 0 <= k < order.len() && order[k] == row
}

/// A radix pass is the stable sort of the previous order by one digit:
/// when the order after it is stably sorted by `digits[r] * bound + key[r]`
/// (the previous key below `bound` as the tie-break), it reads the previous
/// order through the permutation of positions that sorts them by the
/// digit of the row at each position, ties keeping ascending position.
pub proof fn lemma_pass_is_stable_digit_sort(before: RadixControl, after: RadixControl, digits: Seq<nat>)
    requires
        before.well_formed(),
        after.well_formed(),
        after.len() == before.len(),
        digits.len() == before.len(),
        after.sort_keys() == Seq::new(
            before.len(),
            |r: int| digits[r] * before.key_bound() + before.sort_keys()[r],
        ),
    ensures
        exists|s: Seq<u32>|
            {
                &&& is_permutation(s, before.len())
                &&& stably_sorted(s, Seq::new(before.len(), |k: int| digits[before.order()[k] as int]))
                &&& forall|j: int| 0 <= j < before.len() ==> #[trigger] after.order()[j] == before.order()[s[j] as int]
            },
{
    let n = before.len();
    let prev = before.order();
    let next = after.order();
    let pk = before.sort_keys();
    let bound = before.key_bound();
    let key2 = after.sort_keys();
    let pd = Seq::new(n, |k: int| digits[prev[k] as int]);
    lemma_permutation_onto(prev, n);
    let s = Seq::new(n, |j: int| position_of(prev, next[j]) as u32);
    assert forall|j: int| 0 <= j < n implies 0 <= position_of(prev, #[trigger] next[j]) < n && prev[position_of(
        prev,
        next[j],
    )] == next[j] by {
        assert(next[j] < n);
        assert(occurs_in(prev, next[j] as int));
    }
    assert forall|j: int| 0 <= j < n implies #[trigger] next[j] == prev[s[j] as int] by {
        assert(0 <= position_of(prev, next[j]) < n);
    }
    assert forall|a: int, b: int| 0 <= a < n && 0 <= b < n && a != b implies #[trigger] s[a] != #[trigger] s[b] by {
        assert(next[a] == prev[s[a] as int]);
        assert(next[b] == prev[s[b] as int]);
    }
    assert forall|j: int| 0 <= j < n implies #[trigger] s[j] < n by {
        assert(0 <= position_of(prev, next[j]) < n);
    }
    assert forall|a: int, b: int| 0 <= a < b < s.len() implies {
        ||| pd[s[a] as int] < pd[s[b] as int]
        ||| pd[s[a] as int] == pd[s[b] as int] && s[a] < s[b]
    } by {
        let na = next[a] as int;
        let nb = next[b] as int;
        assert(next[a] == prev[s[a] as int]);
        assert(next[b] == prev[s[b] as int]);
        assert(s[a] < n && s[b] < n && s[a] != s[b]);
        assert(pd[s[a] as int] == digits[na]);
        assert(pd[s[b] as int] == digits[nb]);
        assert(na < n && nb < n);
        assert(pk[na] < bound && pk[nb] < bound);
        assert(key2[na] == digits[na] * bound + pk[na]);
        assert(key2[nb] == digits[nb] * bound + pk[nb]);
        if digits[na] > digits[nb] {
            lemma_mul_inequality(digits[nb] as int + 1, digits[na] as int, bound as int);
            lemma_mul_is_distributive_add_other_way(bound as int, digits[nb] as int, 1);
            assert(false);
        } else if digits[na] == digits[nb] {
            if s[b] < s[a] {
                assert(stably_sorted(prev, pk));
                assert(prev[s[b] as int] == nb);
                assert(prev[s[a] as int] == na);
            }
        }
    }
    assert(is_permutation(s, n));
    assert(stably_sorted(s, pd));
}

} // verus!
