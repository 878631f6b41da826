//! Deterministic random value streams.
//!
//! Every value is a pure function of the stream's key (derived from its
//! seed) and the value's logical index, so the same seed and index always
//! produce the same value, wherever and in whatever order it is computed.
use vstd::prelude::*;
use crate::error::Error;
use crate::ops::UnaryOp;

verus! {

/// Stream word mixed in for the second half of a 64-bit value.
pub const HIGH_STREAM: u32 = 0x9e37_79b9;

/// The 32-bit PCG output hash.
pub open spec fn pcg_hash(input: u32) -> u32 {
    let state = (((input as int * 747_796_405) % 0x1_0000_0000 + 2_891_336_453) % 0x1_0000_0000) as u32;
    let word = ((((state >> ((state >> 28u32) + 4u32)) ^ state) as int * 277_803_737) % 0x1_0000_0000) as u32;
    (word >> 22u32) ^ word
}

/// Hashes one word.
pub fn pcg_hash32(input: u32) -> (r: u32)
    ensures
        r == pcg_hash(input),
{
    let product = input.wrapping_mul(747_796_405);
    let state = product.wrapping_add(2_891_336_453);
    assert(state == ((product as int + 2_891_336_453) % 0x1_0000_0000) as u32);
    let high = state >> 28u32;
    assert(high < 16) by (bit_vector)
        requires
            high == state >> 28u32,
    ;
    let shift = high + 4u32;
    let mixed = (state >> shift) ^ state;
    let word = mixed.wrapping_mul(277_803_737);
    (word >> 22u32) ^ word
}

/// The key of a 64-bit seed: both halves hashed together.
pub open spec fn seed_key_of(seed: u64) -> u32 {
    pcg_hash((seed as u32) ^ pcg_hash((seed >> 32u64) as u32))
}

pub fn seed_key(seed: u64) -> (r: u32)
    ensures
        r == seed_key_of(seed),
{
    let low = seed as u32;
    let high = (seed >> 32u64) as u32;
    pcg_hash32(low ^ pcg_hash32(high))
}

/// The random word of `index` in `stream` under `key`.
pub open spec fn random_word(key: u32, index: u32, stream: u32) -> u32 {
    pcg_hash(index ^ key ^ stream)
}

pub fn random_u32_at(key: u32, index: u32, stream: u32) -> (r: u32)
    ensures
        r == random_word(key, index, stream),
{
    pcg_hash32(index ^ key ^ stream)
}

/// Two random words of `index` as one 64-bit value, low word first.
pub open spec fn random_wide(key: u32, index: u32, stream: u32) -> u64 {
    (random_word(key, index, stream) as u64) | ((random_word(key, index, stream ^ HIGH_STREAM) as u64) << 32u64)
}

pub fn random_u64_at(key: u32, index: u32, stream: u32) -> (r: u64)
    ensures
        r == random_wide(key, index, stream),
{
    let low = random_u32_at(key, index, stream);
    let high = random_u32_at(key, index, stream ^ HIGH_STREAM);
    (low as u64) | ((high as u64) << 32u64)
}

/// The uniform `u32` value of `index` in `min..=max` (device arithmetic
/// wraps when `min > max`).
pub open spec fn uniform_u32_of(min: u32, max: u32, key: u32, index: u32) -> u32 {
    let span = if max >= min { (max - min) as u32 } else { (max - min + 0x1_0000_0000) as u32 };
    let value = random_word(key, index, 0);
    if span == 0xffff_ffffu32 {
        value
    } else {
        ((min + (value as int) % (span + 1)) % 0x1_0000_0000) as u32
    }
}

pub fn uniform_u32_value(min: u32, max: u32, key: u32, index: u32) -> (r: u32)
    ensures
        r == uniform_u32_of(min, max, key, index),
        min <= max ==> min <= r <= max,
{
    let span = max.wrapping_sub(min);
    let value = random_u32_at(key, index, 0);
    if span == 0xffff_ffffu32 {
        value
    } else {
        min.wrapping_add(value % (span + 1))
    }
}

/// The uniform `u64` value of `index` in `min..=max` (device arithmetic
/// wraps when `min > max`).
pub open spec fn uniform_u64_of(min: u64, max: u64, key: u32, index: u32) -> u64 {
    let span = if max >= min {
        (max - min) as u64
    } else {
        (max - min + 0x1_0000_0000_0000_0000) as u64
    };
    let value = random_wide(key, index, 0);
    if span == 0xffff_ffff_ffff_ffffu64 {
        value
    } else {
        ((min + (value as int) % (span + 1)) % 0x1_0000_0000_0000_0000) as u64
    }
}

pub fn uniform_u64_value(min: u64, max: u64, key: u32, index: u32) -> (r: u64)
    ensures
        r == uniform_u64_of(min, max, key, index),
        min <= max ==> min <= r <= max,
{
    let span = max.wrapping_sub(min);
    let value = random_u64_at(key, index, 0);
    if span == 0xffff_ffff_ffff_ffffu64 {
        value
    } else {
        min.wrapping_add(value % (span + 1))
    }
}

/// A 64-bit random value carries two 32-bit random words: the word of its
/// stream in the low half and the word of the high stream in the high half.
pub proof fn lemma_random_wide_words(key: u32, index: u32, stream: u32)
    ensures
        random_wide(key, index, stream) as int == random_word(key, index, stream) + random_word(
            key,
            index,
            stream ^ HIGH_STREAM,
        ) * 0x1_0000_0000,
{
    let lo = random_word(key, index, stream);
    let hi = random_word(key, index, stream ^ HIGH_STREAM);
    assert((lo as u64) | ((hi as u64) << 32u64) == lo as u64 + (hi as u64) * 0x1_0000_0000u64) by (bit_vector);
}

/// A uniform `u32` draw over `min..=max` is `min` plus the random word
/// modulo the number of values in the range; the full range gives the word
/// itself.
pub proof fn lemma_uniform_u32_draw(min: u32, max: u32, key: u32, index: u32)
    requires
        min <= max,
    ensures
        max - min == u32::MAX ==> uniform_u32_of(min, max, key, index) == random_word(key, index, 0),
        max - min < u32::MAX ==> uniform_u32_of(min, max, key, index) as int == min + (random_word(key, index, 0) as int)
            % (max - min + 1),
        min <= uniform_u32_of(min, max, key, index) <= max,
{
    let v = random_word(key, index, 0) as int;
    let span = max - min;
    if span < u32::MAX {
        vstd::arithmetic::div_mod::lemma_mod_bound(v, span + 1);
        vstd::arithmetic::div_mod::lemma_small_mod((min + v % (span + 1)) as nat, 0x1_0000_0000);
    }
}

/// A uniform `u64` draw over `min..=max` is `min` plus the 64-bit random
/// value modulo the number of values in the range; the full range gives the
/// 64-bit value itself.
pub proof fn lemma_uniform_u64_draw(min: u64, max: u64, key: u32, index: u32)
    requires
        min <= max,
    ensures
        max - min == u64::MAX ==> uniform_u64_of(min, max, key, index) == random_wide(key, index, 0),
        max - min < u64::MAX ==> uniform_u64_of(min, max, key, index) as int == min + (random_wide(key, index, 0) as int)
            % (max - min + 1),
        min <= uniform_u64_of(min, max, key, index) <= max,
{
    let v = random_wide(key, index, 0) as int;
    let span = max - min;
    if span < u64::MAX {
        vstd::arithmetic::div_mod::lemma_mod_bound(v, span + 1);
        vstd::arithmetic::div_mod::lemma_small_mod((min + v % (span + 1)) as nat, 0x1_0000_0000_0000_0000);
    }
}

/// Draws a uniform `u32` from `(index, min, max, key)`.
pub struct UniformU32Op;

/// Draws a uniform `u64` from `(index, min, max, key)`.
pub struct UniformU64Op;

impl UnaryOp<(u32, u32, u32, u32)> for UniformU32Op {
    type Output = u32;

    open spec fn map(input: (u32, u32, u32, u32)) -> u32 {
        uniform_u32_of(input.1, input.2, input.3, input.0)
    }

    fn apply(input: (u32, u32, u32, u32)) -> (r: u32) {
        uniform_u32_value(input.1, input.2, input.3, input.0)
    }
}

impl UnaryOp<(u32, u64, u64, u32)> for UniformU64Op {
    type Output = u64;

    open spec fn map(input: (u32, u64, u64, u32)) -> u64 {
        uniform_u64_of(input.1, input.2, input.3, input.0)
    }

    fn apply(input: (u32, u64, u64, u32)) -> (r: u64) {
        uniform_u64_value(input.1, input.2, input.3, input.0)
    }
}

/// A deterministic uniform `u32` stream over an inclusive range.
#[derive(Clone, Copy, Debug)]
pub struct UniformU32 {
    min: u32,
    max: u32,
    key: u32,
}

/// A deterministic uniform `u64` stream over an inclusive range.
#[derive(Clone, Copy, Debug)]
pub struct UniformU64 {
    min: u64,
    max: u64,
    key: u32,
}

/// What a distribution with `min > max` reports.
pub const RANGE_MESSAGE: &'static str = "random distribution range must satisfy min <= max";

/// The error of a distribution whose range does not satisfy `min <= max`.
pub fn range_error() -> (r: Error)
    ensures
        r matches Error::Launch { message } && message@ == RANGE_MESSAGE@,
{
    Error::Launch { message: RANGE_MESSAGE.to_owned() }
}

/// A uniform `u32` stream over `min..=max` seeded with `seed`.
pub fn uniform_u32(min: u32, max: u32, seed: u64) -> (r: Result<UniformU32, Error>)
    ensures
        min > max ==> (r matches Err(Error::Launch { message }) && message@ == RANGE_MESSAGE@),
        min <= max ==> (r matches Ok(stream) && stream.low() == min && stream.high() == max && stream.key()
            == seed_key_of(seed)),
{
    if min <= max {
        Ok(UniformU32 { min, max, key: seed_key(seed) })
    } else {
        Err(range_error())
    }
}

/// A uniform `u64` stream over `min..=max` seeded with `seed`.
pub fn uniform_u64(min: u64, max: u64, seed: u64) -> (r: Result<UniformU64, Error>)
    ensures
        min > max ==> (r matches Err(Error::Launch { message }) && message@ == RANGE_MESSAGE@),
        min <= max ==> (r matches Ok(stream) && stream.low() == min && stream.high() == max && stream.key()
            == seed_key_of(seed)),
{
    if min <= max {
        Ok(UniformU64 { min, max, key: seed_key(seed) })
    } else {
        Err(range_error())
    }
}

impl UniformU32 {
    /// Lower end of the range.
    pub closed spec fn low(&self) -> u32 {
        self.min
    }

    /// Upper end of the range.
    pub closed spec fn high(&self) -> u32 {
        self.max
    }

    /// Key derived from the seed.
    pub closed spec fn key(&self) -> u32 {
        self.key
    }

    /// The values of the logical indices `offset..offset + len`.
    pub fn lower(&self, offset: u32, len: usize) -> (r: Vec<u32>)
        requires
            offset + len <= u32::MAX + 1,
        ensures
            r.len() == len,
            forall|i: int| 0 <= i < len ==> #[trigger] r[i] == uniform_u32_of(self.low(), self.high(), self.key(), (offset + i) as u32),
            self.low() <= self.high() ==> forall|i: int| 0 <= i < len ==> self.low() <= #[trigger] r[i] <= self.high(),
    {
        let mut r: Vec<u32> = Vec::new();
        let mut i: usize = 0;
        while i < len
            invariant
                offset + len <= u32::MAX + 1,
                i <= len,
                r.len() == i,
                forall|k: int| 0 <= k < i ==> #[trigger] r[k] == uniform_u32_of(self.min, self.max, self.key, (offset + k) as u32),
                self.min <= self.max ==> forall|k: int| 0 <= k < i ==> self.min <= #[trigger] r[k] <= self.max,
            decreases len - i,
        {
            r.push(UniformU32Op::apply((offset + i as u32, self.min, self.max, self.key)));
            i = i + 1;
        }
        r
    }

    /// The first `len` values of the stream.
    pub fn take(self, len: usize) -> (r: Vec<u32>)
        requires
            len <= u32::MAX + 1,
        ensures
            r.len() == len,
            forall|i: int| 0 <= i < len ==> #[trigger] r[i] == uniform_u32_of(self.low(), self.high(), self.key(), i as u32),
            self.low() <= self.high() ==> forall|i: int| 0 <= i < len ==> self.low() <= #[trigger] r[i] <= self.high(),
    {
        self.lower(0, len)
    }
}

impl UniformU64 {
    /// Lower end of the range.
    pub closed spec fn low(&self) -> u64 {
        self.min
    }

    /// Upper end of the range.
    pub closed spec fn high(&self) -> u64 {
        self.max
    }

    /// Key derived from the seed.
    pub closed spec fn key(&self) -> u32 {
        self.key
    }

    /// The values of the logical indices `offset..offset + len`.
    pub fn lower(&self, offset: u32, len: usize) -> (r: Vec<u64>)
        requires
            offset + len <= u32::MAX + 1,
        ensures
            r.len() == len,
            forall|i: int| 0 <= i < len ==> #[trigger] r[i] == uniform_u64_of(self.low(), self.high(), self.key(), (offset + i) as u32),
            self.low() <= self.high() ==> forall|i: int| 0 <= i < len ==> self.low() <= #[trigger] r[i] <= self.high(),
    {
        let mut r: Vec<u64> = Vec::new();
        let mut i: usize = 0;
        while i < len
            invariant
                offset + len <= u32::MAX + 1,
                i <= len,
                r.len() == i,
                forall|k: int| 0 <= k < i ==> #[trigger] r[k] == uniform_u64_of(self.min, self.max, self.key, (offset + k) as u32),
                self.min <= self.max ==> forall|k: int| 0 <= k < i ==> self.min <= #[trigger] r[k] <= self.max,
            decreases len - i,
        {
            r.push(UniformU64Op::apply((offset + i as u32, self.min, self.max, self.key)));
            i = i + 1;
        }
        r
    }

    /// The first `len` values of the stream.
    pub fn take(self, len: usize) -> (r: Vec<u64>)
        requires
            len <= u32::MAX + 1,
        ensures
            r.len() == len,
            forall|i: int| 0 <= i < len ==> #[trigger] r[i] == uniform_u64_of(self.low(), self.high(), self.key(), i as u32),
            self.low() <= self.high() ==> forall|i: int| 0 <= i < len ==> self.low() <= #[trigger] r[i] <= self.high(),
    {
        self.lower(0, len)
    }
}

} // verus!
