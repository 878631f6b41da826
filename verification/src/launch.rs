//! Launch geometry: one-dimensional grids folded into the three axes that a
//! device accepts, and the tile counts the schedules derive from lengths.
use vstd::prelude::*;
use vstd::arithmetic::power2::{pow2, lemma2_to64, lemma_pow2_adds, lemma_pow2_strictly_increases};
use vstd::arithmetic::div_mod::{lemma_fundamental_div_mod, lemma_mod_pos_bound};
use crate::error::Error;

verus! {

/// Largest extent of one grid axis.
pub const MAX_AXIS: u32 = 65535;

/// Number of tiles of `tile` rows that cover `len` rows.
pub open spec fn ceil_div(len: int, tile: int) -> int {
    (len + tile - 1) / tile
}

/// Dispatch shape of a grid: blocks along x, y and z.
#[derive(Debug, Clone, Copy, PartialEq, Eq, Structural)]
pub enum CubeCount {
    Static(u32, u32, u32),
}

impl CubeCount {
    /// Total number of blocks that the grid launches.
    pub open spec fn product(self) -> int {
        match self {
            CubeCount::Static(x, y, z) => x * y * z,
        }
    }

    /// Every axis stays within the device limit.
    pub open spec fn axes_fit(self) -> bool {
        match self {
            CubeCount::Static(x, y, z) => x <= MAX_AXIS && y <= MAX_AXIS && z <= MAX_AXIS,
        }
    }
}

/// The least `d` in `y..=MAX_AXIS` that divides `blocks`, if any.
pub open spec fn first_divisor_from(blocks: int, y: int) -> Option<int>
    decreases 65536 - y,
{
    if y > 65535 || y <= 0 {
        None
    } else if blocks % y == 0 {
        Some(y)
    } else {
        first_divisor_from(blocks, y + 1)
    }
}

/// The grid chosen for `blocks` blocks.  Small grids stay on the x axis.
/// Larger grids use an exact factorisation `blocks = x * y` with the least
/// admissible `y`; without one, rows of 32768 blocks are stacked, and the
/// stack itself is folded once more when it exceeds an axis.
pub open spec fn dispatch_shape(blocks: int) -> (int, int, int) {
    if blocks <= 65535 {
        (blocks, 1, 1)
    } else {
        match first_divisor_from(blocks, ceil_div(blocks, 65535)) {
            Some(y) => (blocks / y, y, 1),
            None => {
                let y = ceil_div(blocks, 32768);
                if y <= 65535 {
                    (32768, y, 1)
                } else {
                    (32768, 32768, ceil_div(y, 32768))
                }
            },
        }
    }
}

pub open spec fn shape_count(shape: (int, int, int)) -> CubeCount {
    CubeCount::Static(shape.0 as u32, shape.1 as u32, shape.2 as u32)
}

pub proof fn lemma_ceil_div(n: int, d: int)
    requires
        n >= 0,
        d > 0,
    ensures
        ceil_div(n, d) >= 0,
        d * ceil_div(n, d) >= n,
        d * ceil_div(n, d) < n + d,
{
    let x = n + d - 1;
    lemma_fundamental_div_mod(x, d);
    lemma_mod_pos_bound(x, d);
    let q = x / d;
    assert(d * q >= n && d * q < n + d) by (nonlinear_arith)
        requires
            x == d * q + x % d,
            0 <= x % d < d,
            x == n + d - 1,
    ;
    assert(q >= 0) by (nonlinear_arith)
        requires
            d * q >= n,
            n >= 0,
            d > 0,
            d * q < n + d,
    ;
}

proof fn lemma_ceil_div_least(n: int, d: int, m: int)
    requires
        n >= 0,
        d > 0,
        d * m >= n,
    ensures
        ceil_div(n, d) <= m,
{
    lemma_ceil_div(n, d);
    let q = ceil_div(n, d);
    assert(q <= m) by (nonlinear_arith)
        requires
            d * q < n + d,
            d * m >= n,
            d > 0,
    ;
}

proof fn lemma_first_divisor(blocks: int, y: int)
    requires
        first_divisor_from(blocks, y) is Some,
    ensures
        ({
            let d = first_divisor_from(blocks, y)->Some_0;
            y <= d <= 65535 && d > 0 && blocks % d == 0
        }),
    decreases 65536 - y,
{
    if y > 65535 || y <= 0 {
    } else if blocks % y == 0 {
    } else {
        lemma_first_divisor(blocks, y + 1);
    }
}

/// A power of two that reaches a grid larger than one axis is a multiple of
/// 32768.
proof fn lemma_large_pow2(e: nat, b: int)
    requires
        pow2(e) >= b,
        b > 65535,
    ensures
        e >= 16,
        pow2(e) == 32768 * pow2((e - 15) as nat),
{
    lemma2_to64();
    if e < 16 {
        lemma_pow2_strictly_increases(e, 16);
    }
    lemma_pow2_adds(15, (e - 15) as nat);
}

/// The grid chosen for any 32-bit block count fits the device axes, covers
/// every block, and launches no more blocks than any power of two that is
/// at least the block count.
pub proof fn lemma_dispatch_shape(blocks: int)
    requires
        0 <= blocks <= u32::MAX,
    ensures
        ({
            let (x, y, z) = dispatch_shape(blocks);
            &&& 0 <= x <= 65535
            &&& 0 <= y <= 65535
            &&& 0 <= z <= 65535
            &&& x * y * z >= blocks
            &&& forall|e: nat| pow2(e) >= blocks ==> #[trigger] pow2(e) >= x * y * z
        }),
{
    let (x, y, z) = dispatch_shape(blocks);
    if blocks <= 65535 {
        assert(x * y * z == blocks);
    } else {
        let y0 = ceil_div(blocks, 65535);
        lemma_ceil_div(blocks, 65535);
        match first_divisor_from(blocks, y0) {
            Some(d) => {
                lemma_first_divisor(blocks, y0);
                lemma_fundamental_div_mod(blocks, d);
                assert((blocks / d) * d == blocks) by (nonlinear_arith)
                    requires
                        blocks == d * (blocks / d) + blocks % d,
                        blocks % d == 0,
                ;
                assert(0 <= blocks / d <= 65535) by (nonlinear_arith)
                    requires
                        (blocks / d) * d == blocks,
                        65535 * y0 >= blocks,
                        d >= y0,
                        d > 0,
                        blocks > 0,
                ;
                assert(x * y * z == blocks);
            },
            None => {
                let y1 = ceil_div(blocks, 32768);
                lemma_ceil_div(blocks, 32768);
                if y1 <= 65535 {
                    assert(x * y * z == 32768 * y1);
                    assert forall|e: nat| pow2(e) >= blocks implies #[trigger] pow2(e) >= x * y * z by {
                        lemma_large_pow2(e, blocks);
                        lemma_ceil_div_least(blocks, 32768, pow2((e - 15) as nat) as int);
                    }
                } else {
                    let z1 = ceil_div(y1, 32768);
                    lemma_ceil_div(y1, 32768);
                    lemma_ceil_div_least(blocks, 32768, 131072);
                    lemma_ceil_div_least(y1, 32768, 4);
                    assert(x * y * z == 1073741824 * z1);
                    assert(1073741824 * z1 >= blocks) by (nonlinear_arith)
                        requires
                            32768 * z1 >= y1,
                            32768 * y1 >= blocks,
                    ;
                    assert forall|e: nat| pow2(e) >= blocks implies #[trigger] pow2(e) >= x * y * z by {
                        lemma_large_pow2(e, blocks);
                        let m = pow2((e - 15) as nat);
                        lemma_ceil_div_least(blocks, 32768, m as int);
                        lemma2_to64();
                        if e < 30 {
                            lemma_pow2_strictly_increases(e, 30);
                        }
                        assert(m > 65535) by {
                            assert(32768 * (y1 - 1) < blocks);
                            assert(blocks > 32768 * 65535);
                            if e == 30 {
                            }
                        }
                        lemma_large_pow2((e - 15) as nat, m as int);
                        let m2 = pow2((e - 30) as nat);
                        assert(m == 32768 * m2);
                        lemma_ceil_div_least(y1, 32768, m2 as int);
                        assert(pow2(e) == 1073741824 * m2);
                    }
                }
            },
        }
    }
}

/// Ceiling division `value / divisor` without the overflow of `value + divisor - 1`.
fn ceil_div_u32(value: u32, divisor: u32) -> (r: u32)
    requires
        divisor > 0,
    ensures
        r == ceil_div(value as int, divisor as int),
{
    proof {
        lemma_ceil_div(value as int, divisor as int);
    }
    if value == 0 {
        proof {
            lemma_ceil_div_least(0, divisor as int, 0);
        }
        0
    } else {
        proof {
            let q = (value - 1) / (divisor as int);
            lemma_fundamental_div_mod(value - 1, divisor as int);
            lemma_mod_pos_bound(value - 1, divisor as int);
            assert(divisor * (q + 1) >= value && divisor * q < value) by (nonlinear_arith)
                requires
                    value - 1 == divisor * q + (value - 1) % (divisor as int),
                    0 <= (value - 1) % (divisor as int) < divisor,
            ;
            let c = ceil_div(value as int, divisor as int);
            lemma_ceil_div_least(value as int, divisor as int, q + 1);
            assert(c >= q + 1) by (nonlinear_arith)
                requires
                    divisor * c >= value,
                    divisor * q < value,
                    divisor > 0,
            ;
        }
        (value - 1) / divisor + 1
    }
}

/// Folds a one-dimensional grid of `blocks` blocks into a device dispatch.
pub fn cube_count_1d(blocks: usize) -> (r: Result<CubeCount, Error>)
    ensures
        blocks > u32::MAX ==> r == Err::<CubeCount, Error>(Error::LengthTooLarge { len: blocks }),
        blocks <= u32::MAX ==> r == Ok::<CubeCount, Error>(shape_count(dispatch_shape(blocks as int))),
        r matches Ok(count) ==> {
            &&& count.axes_fit()
            &&& count.product() >= blocks
            &&& forall|e: nat| pow2(e) >= blocks ==> #[trigger] pow2(e) >= count.product()
        },
{
    if blocks > u32::MAX as usize {
        return Err(Error::LengthTooLarge { len: blocks });
    }
    let b = blocks as u32;
    proof {
        lemma_dispatch_shape(b as int);
    }
    if b <= MAX_AXIS {
        return Ok(CubeCount::Static(b, 1, 1));
    }
    let y0 = ceil_div_u32(b, MAX_AXIS);
    proof {
        lemma_ceil_div(b as int, 65535);
        assert(y0 >= 1) by (nonlinear_arith)
            requires
                65535 * y0 >= b,
                b > 65535,
        ;
    }
    let mut y = y0;
    while y <= MAX_AXIS
        invariant
            b > 65535,
            b == blocks,
            y0 == ceil_div(b as int, 65535),
            1 <= y0 <= y,
            y <= 65536 || y == y0,
            first_divisor_from(b as int, y0 as int) == first_divisor_from(b as int, y as int),
        decreases 65536 - y,
    {
        if b % y == 0 {
            proof {
                lemma_dispatch_shape(b as int);
            }
            let x = b / y;
            return Ok(CubeCount::Static(x, y, 1));
        }
        y += 1;
    }
    let x: u32 = 32_768;
    let y1 = ceil_div_u32(b, x);
    if y1 <= MAX_AXIS {
        Ok(CubeCount::Static(x, y1, 1))
    } else {
        let z = ceil_div_u32(y1, x);
        Ok(CubeCount::Static(x, x, z))
    }
}

/// Number of `tile_size`-row tiles covering `len` rows; unlike `len + tile - 1`
/// this cannot overflow near the top of the index domain.
pub fn logical_block_count(len: usize, tile_size: usize) -> (r: usize)
    requires
        tile_size > 0,
    ensures
        r == ceil_div(len as int, tile_size as int),
{
    proof {
        lemma_ceil_div(len as int, tile_size as int);
    }
    if len == 0 {
        proof {
            lemma_ceil_div_least(0, tile_size as int, 0);
        }
        0
    } else {
        proof {
            let q = (len - 1) / (tile_size as int);
            lemma_fundamental_div_mod(len - 1, tile_size as int);
            lemma_mod_pos_bound(len - 1, tile_size as int);
            assert(tile_size * (q + 1) >= len && tile_size * q < len) by (nonlinear_arith)
                requires
                    len - 1 == tile_size * q + (len - 1) % (tile_size as int),
                    0 <= (len - 1) % (tile_size as int) < tile_size,
            ;
            let c = ceil_div(len as int, tile_size as int);
            lemma_ceil_div_least(len as int, tile_size as int, q + 1);
            assert(c >= q + 1) by (nonlinear_arith)
                requires
                    tile_size * c >= len,
                    tile_size * q < len,
                    tile_size > 0,
            ;
            assert(q + 1 <= usize::MAX) by (nonlinear_arith)
                requires
                    tile_size * q < len,
                    tile_size > 0,
                    len <= usize::MAX,
                    q >= 0,
            ;
        }
        (len - 1) / tile_size + 1
    }
}

/// Upper bound on the number of subgroups in a workgroup of `block_size`
/// lanes, given the smallest subgroup width the device reports (a reported
/// width of zero counts as one).
pub fn plane_count_bound(block_size: u32, plane_size_min: u32) -> (r: usize)
    ensures
        r == ceil_div(block_size as int, if plane_size_min == 0 { 1 } else { plane_size_min as int }),
{
    let width = if plane_size_min == 0 { 1 } else { plane_size_min };
    ceil_div_u32(block_size, width) as usize
}

} // verus!
