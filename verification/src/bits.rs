//! Single bits of 32-bit route words and their population counts.
use vstd::prelude::*;

verus! {

/// Bit `j` of `x` is set.
pub open spec fn bit_set(x: u32, j: u32) -> bool {
    (x >> j) & 1u32 == 1u32
}

/// Number of set bits among bits `0..n` of `x`.
pub open spec fn ones_below(x: u32, n: nat) -> nat
    decreases n,
{
    if n == 0 {
        0
    } else {
        ones_below(x, (n - 1) as nat) + if bit_set(x, (n - 1) as u32) {
            1nat
        } else {
            0nat
        }
    }
}

/// Number of set bits of `x`, counted bit by bit.
pub(crate) fn count_ones(x: u32) -> (r: u32)
    ensures
        r == ones_below(x, 32),
{
    let mut count: u32 = 0;
    let mut j: u32 = 0;
    while j < 32
        invariant
            j <= 32,
            count <= j,
            count == ones_below(x, j as nat),
        decreases 32 - j,
    {
        if (x >> j) & 1u32 == 1u32 {
            count = count + 1;
        }
        j = j + 1;
    }
    count
}

/// Mask of the bits below `bit`.
pub open spec fn low_mask(bit: u32) -> u32 {
    if bit == 0 {
        0u32
    } else {
        ((1u32 << bit) - 1u32) as u32
    }
}

pub proof fn lemma_set_bit(m: u32, k: u32, j: u32)
    requires
        k < 32,
        j < 32,
    ensures
        bit_set(m | (1u32 << k), j) == (bit_set(m, j) || j == k),
{
    assert(((m | (1u32 << k)) >> j) & 1u32 == 1u32 <==> (((m >> j) & 1u32 == 1u32) || j == k))
        by (bit_vector)
        requires
            k < 32,
            j < 32,
    ;
}

pub proof fn lemma_zero_bits(j: u32)
    requires
        j < 32,
    ensures
        !bit_set(0u32, j),
{
    assert((0u32 >> j) & 1u32 != 1u32) by (bit_vector);
}

pub proof fn lemma_low_mask_bits(m: u32, bit: u32, j: u32)
    requires
        bit < 32,
        j < 32,
    ensures
        bit_set(m & low_mask(bit), j) == (bit_set(m, j) && j < bit),
{
    if bit == 0 {
        assert(((m & 0u32) >> j) & 1u32 != 1u32) by (bit_vector);
    } else {
        assert((((m & ((1u32 << bit) - 1u32) as u32) >> j) & 1u32 == 1u32) <==> ((((m >> j)
            & 1u32) == 1u32) && j < bit)) by (bit_vector)
            requires
                0 < bit < 32,
                j < 32,
        ;
    }
}

pub proof fn lemma_test_bit(m: u32, bit: u32)
    requires
        bit < 32,
    ensures
        ((m & (1u32 << bit)) != 0u32) == bit_set(m, bit),
{
    assert(((m & (1u32 << bit)) != 0u32) <==> ((m >> bit) & 1u32 == 1u32)) by (bit_vector)
        requires
            bit < 32,
    ;
}

/// Words that agree on the bits below `n` have the same count below `n`.
pub proof fn lemma_ones_below_agree(x: u32, y: u32, n: nat)
    requires
        n <= 32,
        forall|j: u32| j < n ==> bit_set(x, j) == bit_set(y, j),
    ensures
        ones_below(x, n) == ones_below(y, n),
    decreases n,
{
    if n > 0 {
        lemma_ones_below_agree(x, y, (n - 1) as nat);
    }
}

/// Bits at or above `k` that are clear add nothing to the count.
pub proof fn lemma_ones_below_clear(x: u32, k: nat, n: nat)
    requires
        k <= n <= 32,
        forall|j: u32| k <= j < n ==> !bit_set(x, j),
    ensures
        ones_below(x, n) == ones_below(x, k),
    decreases n,
{
    if n > k {
        lemma_ones_below_clear(x, k, (n - 1) as nat);
    }
}

/// Counting the set bits of `m` below `bit` through a masked population count.
pub proof fn lemma_ones_below_low_mask(m: u32, bit: u32)
    requires
        bit < 32,
    ensures
        ones_below(m & low_mask(bit), 32) == ones_below(m, bit as nat),
{
    let y = m & low_mask(bit);
    assert forall|j: u32| bit <= j < 32 implies !bit_set(y, j) by {
        lemma_low_mask_bits(m, bit, j);
    }
    lemma_ones_below_clear(y, bit as nat, 32);
    assert forall|j: u32| j < bit implies bit_set(y, j) == bit_set(m, j) by {
        lemma_low_mask_bits(m, bit, j);
    }
    lemma_ones_below_agree(y, m, bit as nat);
}

} // verus!
