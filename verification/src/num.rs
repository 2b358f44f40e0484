//! Fixed-point scalars and the small amount of integer arithmetic the rest of
//! the crate builds on: rounding division, ceiling division and an exact
//! integer square root.
//!
//! Every world-space quantity in this crate (coordinates, heights, tool
//! diameters) is an `i64` counting ticks of `1/SCALE` world units, so that
//! all geometry is exact integer arithmetic.

use vstd::prelude::*;

verus! {

/// Number of ticks per world unit: a coordinate of one world unit is the
/// integer `SCALE`.
pub const SCALE: i64 = 65536;

/// Sentinel for "no height here": a rasterized cell no triangle covers, or a
/// clearance query whose footprint misses the grid entirely. It stands in for
/// "minus infinity" and is never produced by ordinary arithmetic on heights.
pub const UNSET_HEIGHT: i64 = i64::MIN;

/// Largest magnitude accepted for world coordinates, heights and tool
/// diameters (2^40 ticks, about 16.7 million world units). Keeping inputs
/// within this bound keeps every intermediate product inside `i128`.
pub const MAX_COORD: i64 = 0x100_0000_0000;

/// Every height is an ordinary bounded height or the unset sentinel.
pub open spec fn heights_wf(h: Seq<i64>) -> bool {
    forall|i: int|
        0 <= i < h.len() ==> (-MAX_COORD <= #[trigger] h[i] <= MAX_COORD || h[i] == UNSET_HEIGHT)
}

/// Every toolpath coordinate is bounded.
pub open spec fn coords_wf(tp: Seq<i64>) -> bool {
    forall|i: int| 0 <= i < tp.len() ==> -MAX_COORD <= #[trigger] tp[i] <= MAX_COORD
}

/// The height stored for cell `(ix, iy)` in a field of row length `ny`.
pub open spec fn cell_at(h: Seq<i64>, ny: int, ix: int, iy: int) -> i64 {
    h[ix * ny + iy]
}

/// A linear cell index splits back into its grid pair.
pub proof fn lemma_flat_index_split(nx: int, ny: int, i: int)
    requires
        0 <= i,
        i < nx * ny,
        1 <= ny,
    ensures
        0 <= i / ny < nx,
        0 <= i % ny < ny,
        i == (i / ny) * ny + i % ny,
{
    vstd::arithmetic::div_mod::lemma_fundamental_div_mod(i, ny);
    vstd::arithmetic::div_mod::lemma_mod_bound(i, ny);
    assert(i < ny * nx) by (nonlinear_arith)
        requires
            i < nx * ny,
    ;
    vstd::arithmetic::div_mod::lemma_multiply_divide_lt(i, ny, nx);
    assert(i == (i / ny) * ny + i % ny) by (nonlinear_arith)
        requires
            i == ny * (i / ny) + i % ny,
    ;
}

/// Composing a grid pair into its linear index and splitting it again gives
/// the pair back.
pub proof fn lemma_cell_flat_roundtrip(ny: int, ix: int, iy: int)
    requires
        0 <= ix,
        0 <= iy < ny,
    ensures
        (ix * ny + iy) / ny == ix,
        (ix * ny + iy) % ny == iy,
{
    assert(ix * ny + iy == ny * ix + iy) by (nonlinear_arith);
    vstd::arithmetic::div_mod::lemma_fundamental_div_mod_converse(ix * ny + iy, ny, ix, iy);
}

/// Division rounded to the nearest integer, ties away from zero, for a
/// positive divisor. This is the rounding used to map a world coordinate to
/// its nearest grid cell.
pub open spec fn rdiv(a: int, b: int) -> int {
    if a >= 0 {
        (a + b / 2) / b
    } else {
        -((-a + b / 2) / b)
    }
}

/// Division rounded upward (toward positive infinity) for nonnegative
/// dividend and positive divisor.
pub open spec fn cdiv(a: int, b: int) -> int {
    (a + b - 1) / b
}

/// The integer square root: the largest `r` with `r * r <= n`.
pub open spec fn sqrt_floor(n: nat) -> nat
    decreases n,
{
    if n == 0 {
        0
    } else {
        let p = sqrt_floor((n - 1) as nat);
        if (p + 1) * (p + 1) <= n {
            p + 1
        } else {
            p
        }
    }
}

pub proof fn lemma_sqrt_floor_bounds(n: nat)
    ensures
        sqrt_floor(n) * sqrt_floor(n) <= n,
        n < (sqrt_floor(n) + 1) * (sqrt_floor(n) + 1),
    decreases n,
{
    if n == 0 {
        assert(sqrt_floor(n) == 0);
        assert(n < (sqrt_floor(n) + 1) * (sqrt_floor(n) + 1)) by (nonlinear_arith)
            requires
                n == 0,
                sqrt_floor(n) == 0,
        ;
    } else {
        lemma_sqrt_floor_bounds((n - 1) as nat);
        let p = sqrt_floor((n - 1) as nat);
        assert(p * p <= n - 1);
        assert(n - 1 < (p + 1) * (p + 1));
        if (p + 1) * (p + 1) <= n {
            assert(sqrt_floor(n) == p + 1);
            assert(n < ((p + 1) + 1) * ((p + 1) + 1)) by (nonlinear_arith)
                requires
                    n - 1 < (p + 1) * (p + 1),
            ;
        } else {
            assert(sqrt_floor(n) == p);
        }
        assert(sqrt_floor(n) * sqrt_floor(n) <= n);
        assert(n < (sqrt_floor(n) + 1) * (sqrt_floor(n) + 1));
    }
}

pub proof fn lemma_sqrt_floor_unique(n: nat, r: nat)
    requires
        r * r <= n,
        n < (r + 1) * (r + 1),
    ensures
        r == sqrt_floor(n),
{
    lemma_sqrt_floor_bounds(n);
    let s = sqrt_floor(n);
    assert(r == s) by (nonlinear_arith)
        requires
            r * r <= n,
            n < (r + 1) * (r + 1),
            s * s <= n,
            n < (s + 1) * (s + 1),
    ;
}

/// A perfect square has an exact integer square root.
pub proof fn lemma_sqrt_floor_square(r: nat)
    ensures
        sqrt_floor(r * r) == r,
{
    assert(r * r < (r + 1) * (r + 1)) by (nonlinear_arith);
    lemma_sqrt_floor_unique(r * r, r);
}

/// The integer square root does not decrease when its argument grows.
pub proof fn lemma_sqrt_floor_monotonic(m: nat, n: nat)
    requires
        m <= n,
    ensures
        sqrt_floor(m) <= sqrt_floor(n),
{
    lemma_sqrt_floor_bounds(m);
    lemma_sqrt_floor_bounds(n);
    let a = sqrt_floor(m);
    let b = sqrt_floor(n);
    assert(a <= b) by (nonlinear_arith)
        requires
            a * a <= m,
            m < (a + 1) * (a + 1),
            b * b <= n,
            n < (b + 1) * (b + 1),
            m <= n,
    ;
}

/// Rounding to the nearest multiple moves a value by at most half the
/// divisor.
pub proof fn lemma_rdiv_error(a: int, b: int)
    requires
        1 <= b,
    ensures
        -b <= 2 * (a - rdiv(a, b) * b) <= b,
{
    assert(2 * (b / 2) == b || 2 * (b / 2) == b - 1) by {
        vstd::arithmetic::div_mod::lemma_fundamental_div_mod(b, 2);
        vstd::arithmetic::div_mod::lemma_mod_bound(b, 2);
    }
    if a >= 0 {
        let q = (a + b / 2) / b;
        let m = (a + b / 2) % b;
        vstd::arithmetic::div_mod::lemma_fundamental_div_mod(a + b / 2, b);
        vstd::arithmetic::div_mod::lemma_mod_bound(a + b / 2, b);
        assert(a - q * b == m - b / 2) by (nonlinear_arith)
            requires
                a + b / 2 == b * q + m,
        ;
    } else {
        let q = (-a + b / 2) / b;
        let m = (-a + b / 2) % b;
        vstd::arithmetic::div_mod::lemma_fundamental_div_mod(-a + b / 2, b);
        vstd::arithmetic::div_mod::lemma_mod_bound(-a + b / 2, b);
        assert((-a) - q * b == m - b / 2) by (nonlinear_arith)
            requires
                -a + b / 2 == b * q + m,
        ;
        assert(a - (-q) * b == -((-a) - q * b)) by (nonlinear_arith);
    }
}

/// Division rounded to nearest, ties away from zero; the divisor must be
/// positive. Used to map world coordinates to the nearest grid cell.
pub fn round_div_i64(a: i64, b: i64) -> (q: i64)
    requires
        1 <= b,
        -0x4000_0000_0000_0000 <= a <= 0x4000_0000_0000_0000,
        b <= 0x4000_0000_0000_0000,
    ensures
        q == rdiv(a as int, b as int),
        a >= 0 ==> 0 <= q <= a,
        a < 0 ==> a <= q <= 0,
{
    let bu = b as u64;
    let half = bu / 2;
    if a >= 0 {
        let q = (a as u64 + half) / bu;
        proof {
            assert(q <= a) by (nonlinear_arith)
                requires
                    0 <= a,
                    1 <= bu,
                    half == bu / 2,
                    q == ((a as u64 + half) as int) / (bu as int),
            ;
        }
        q as i64
    } else {
        let m = (-a) as u64 + half;
        let q = m / bu;
        proof {
            assert(q <= -a) by (nonlinear_arith)
                requires
                    0 < (-a as int),
                    1 <= bu,
                    half == bu / 2,
                    q == ((-a as int + half) as int) / (bu as int),
            ;
        }
        -(q as i64)
    }
}

/// A whole multiple of the divisor rounds to itself.
pub proof fn lemma_rdiv_exact_multiple(k: int, b: int)
    requires
        1 <= b,
    ensures
        rdiv(b * k, b) == k,
{
    vstd::arithmetic::div_mod::lemma_fundamental_div_mod(b, 2);
    vstd::arithmetic::div_mod::lemma_mod_bound(b, 2);
    assert((k >= 0 ==> b * k >= 0) && (k < 0 ==> b * k < 0)) by (nonlinear_arith)
        requires
            1 <= b,
    ;
    if k >= 0 {
        vstd::arithmetic::div_mod::lemma_fundamental_div_mod_converse(b * k + b / 2, b, k, b / 2);
    } else {
        assert(-(b * k) + b / 2 == b * (-k) + b / 2) by (nonlinear_arith);
        vstd::arithmetic::div_mod::lemma_fundamental_div_mod_converse(
            b * (-k) + b / 2,
            b,
            -k,
            b / 2,
        );
    }
}

/// Rounding to nearest is monotone in the dividend.
pub proof fn lemma_rdiv_monotone(a1: int, a2: int, b: int)
    requires
        1 <= b,
        a1 <= a2,
    ensures
        rdiv(a1, b) <= rdiv(a2, b),
{
    if a1 >= 0 {
        vstd::arithmetic::div_mod::lemma_div_is_ordered(a1 + b / 2, a2 + b / 2, b);
    } else if a2 < 0 {
        vstd::arithmetic::div_mod::lemma_div_is_ordered(-a2 + b / 2, -a1 + b / 2, b);
    } else {
        vstd::arithmetic::div_mod::lemma_div_pos_is_pos(a2 + b / 2, b);
        vstd::arithmetic::div_mod::lemma_div_pos_is_pos(-a1 + b / 2, b);
    }
}

/// A quotient rounded to nearest keeps any symmetric bound that the dividend
/// satisfies in units of the divisor.
pub proof fn lemma_rdiv_magnitude(a: int, b: int, m: int)
    requires
        1 <= b,
        0 <= m,
        -(b * m) <= a <= b * m,
    ensures
        -m <= rdiv(a, b) <= m,
{
    if a >= 0 {
        let q = (a + b / 2) / b;
        assert(0 <= q <= m) by (nonlinear_arith)
            requires
                1 <= b,
                0 <= m,
                0 <= a <= b * m,
                q == (a + b / 2) / b,
        ;
    } else {
        let q = (-a + b / 2) / b;
        assert(0 <= q <= m) by (nonlinear_arith)
            requires
                1 <= b,
                0 <= m,
                0 < -a <= b * m,
                q == (-a + b / 2) / b,
        ;
    }
}

/// Division rounded to nearest, ties away from zero, over wide intermediates;
/// the divisor must be positive.
pub fn round_div_i128(a: i128, b: i128) -> (q: i128)
    requires
        1 <= b <= 0x1_0000_0000_0000_0000_0000_0000,
        -0x4000_0000_0000_0000_0000_0000_0000_0000 <= a
            <= 0x4000_0000_0000_0000_0000_0000_0000_0000,
    ensures
        q == rdiv(a as int, b as int),
        a >= 0 ==> 0 <= q <= a,
        a < 0 ==> a <= q <= 0,
{
    let bu = b as u128;
    let half = bu / 2;
    if a >= 0 {
        let q = (a as u128 + half) / bu;
        proof {
            assert(q <= a) by (nonlinear_arith)
                requires
                    0 <= a,
                    1 <= bu,
                    half == bu / 2,
                    q == ((a as u128 + half) as int) / (bu as int),
            ;
        }
        q as i128
    } else {
        let m = (-a) as u128 + half;
        let q = m / bu;
        proof {
            assert(q <= -a) by (nonlinear_arith)
                requires
                    0 < (-a as int),
                    1 <= bu,
                    half == bu / 2,
                    q == ((-a as int + half) as int) / (bu as int),
            ;
        }
        -(q as i128)
    }
}

/// Division rounded upward for nonnegative dividend and positive divisor.
pub fn ceil_div_i64(a: i64, b: i64) -> (q: i64)
    requires
        0 <= a <= 0x4000_0000_0000_0000,
        1 <= b <= 0x4000_0000_0000_0000,
    ensures
        q == cdiv(a as int, b as int),
{
    let q = (a as u64 + (b as u64 - 1)) / (b as u64);
    q as i64
}

/// A nonnegative dividend's rounded quotient never exceeds the dividend.
pub proof fn lemma_rdiv_le(a: int, b: int)
    requires
        0 <= a,
        1 <= b,
    ensures
        0 <= rdiv(a, b) <= a,
{
    assert(0 <= (a + b / 2) / b <= a) by (nonlinear_arith)
        requires
            0 <= a,
            1 <= b,
            0 <= b / 2 <= b - 1,
    ;
}

/// Division rounded toward negative infinity (the quotient of Euclidean
/// division); the divisor must be positive.
pub fn floor_div_i64(a: i64, b: i64) -> (q: i64)
    requires
        1 <= b <= 0x4000_0000_0000_0000,
        -0x4000_0000_0000_0000 <= a <= 0x4000_0000_0000_0000,
    ensures
        q == a as int / b as int,
{
    if a >= 0 {
        ((a as u64) / (b as u64)) as i64
    } else {
        let m = (-a) as u64;
        let d = b as u64;
        let q0 = m / d;
        let r0 = m % d;
        proof {
            vstd::arithmetic::div_mod::lemma_fundamental_div_mod(m as int, d as int);
            vstd::arithmetic::div_mod::lemma_mod_bound(m as int, d as int);
            if r0 == 0 {
                assert(a as int == (-(q0 as int)) * (b as int) + 0) by (nonlinear_arith)
                    requires
                        m == (d as int) * (q0 as int),
                        a as int == -(m as int),
                        b == d,
                ;
                vstd::arithmetic::div_mod::lemma_fundamental_div_mod_converse(
                    a as int,
                    b as int,
                    -(q0 as int),
                    0,
                );
            } else {
                assert(a as int == (-(q0 as int) - 1) * (b as int) + ((d - r0) as int))
                    by (nonlinear_arith)
                    requires
                        m as int == (d as int) * (q0 as int) + r0 as int,
                        a as int == -(m as int),
                        b == d,
                ;
                vstd::arithmetic::div_mod::lemma_fundamental_div_mod_converse(
                    a as int,
                    b as int,
                    -(q0 as int) - 1,
                    (d - r0) as int,
                );
            }
        }
        if r0 == 0 {
            -(q0 as i64)
        } else {
            -(q0 as i64) - 1
        }
    }
}

/// The integer square root of a `u128`, by binary search over the 64-bit
/// result range.
pub fn isqrt_u128(n: u128) -> (r: u128)
    ensures
        r == sqrt_floor(n as nat),
{
    let mut lo: u128 = 0;
    let mut hi: u128 = 0xFFFF_FFFF_FFFF_FFFF;
    proof {
        assert((n as nat) < ((hi + 1) * (hi + 1)) as nat) by (nonlinear_arith)
            requires
                n <= u128::MAX,
                hi == 0xFFFF_FFFF_FFFF_FFFFu128,
        ;
    }
    while lo < hi
        invariant
            lo <= hi <= 0xFFFF_FFFF_FFFF_FFFF,
            lo * lo <= n,
            (n as nat) < ((hi + 1) * (hi + 1)) as nat,
        decreases hi - lo,
    {
        let mid = lo + (hi - lo + 1) / 2;
        proof {
            assert(mid * mid <= 0xFFFF_FFFF_FFFF_FFFFu128 * 0xFFFF_FFFF_FFFF_FFFFu128)
                by (nonlinear_arith)
                requires
                    mid <= 0xFFFF_FFFF_FFFF_FFFFu128,
            ;
        }
        if mid * mid <= n {
            lo = mid;
        } else {
            hi = mid - 1;
        }
    }
    proof {
        lemma_sqrt_floor_unique(n as nat, lo as nat);
    }
    lo
}

} // verus!
