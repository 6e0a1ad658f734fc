//! Saturating fixed-point numbers with eighteen decimal places, the engine's interpolation type.

use vstd::prelude::*;
use vstd::arithmetic::div_mod::{
    lemma_div_is_ordered, lemma_fundamental_div_mod, lemma_fundamental_div_mod_converse,
};

verus! {

/// Number of raw units in one whole unit.
pub const FRAC_SCALE: i128 = 1_000_000_000_000_000_000;

/// The square root of `FRAC_SCALE`, used to split products.
pub const HALF_SCALE: i128 = 1_000_000_000;

/// Largest magnitude of a value: nine billion whole units.
pub const RAW_LIMIT: i128 = 9_000_000_000_000_000_000_000_000_000;

/// A fixed-point number whose value is `raw / FRAC_SCALE`. Operations read a raw value beyond
/// `RAW_LIMIT` as `RAW_LIMIT` (with its sign) and saturate their results to that range.
#[derive(Clone, Copy, PartialEq, Eq, Structural, Debug)]
pub struct Fixed {
    pub raw: i128,
}

/// Clamps `x` to `[-RAW_LIMIT, RAW_LIMIT]`.
pub open spec fn saturate(x: int) -> int {
    if x > RAW_LIMIT {
        RAW_LIMIT as int
    } else if x < -RAW_LIMIT {
        -RAW_LIMIT
    } else {
        x
    }
}

/// Division rounding toward zero, for a positive divisor.
pub open spec fn div_trunc(a: int, d: int) -> int {
    if a >= 0 {
        a / d
    } else {
        -((-a) / d)
    }
}

/// Division rounding to the nearest integer, halves away from zero, for a positive divisor.
pub open spec fn div_round(a: int, d: int) -> int {
    if a >= 0 {
        (a + d / 2) / d
    } else {
        -((-a + d / 2) / d)
    }
}

pub open spec fn add_raw(a: int, b: int) -> int {
    saturate(saturate(a) + saturate(b))
}

pub open spec fn sub_raw(a: int, b: int) -> int {
    saturate(saturate(a) - saturate(b))
}

/// Fixed-point product: the exact product of the values, truncated toward zero.
pub open spec fn mul_raw(a: int, b: int) -> int {
    saturate(div_trunc(saturate(a) * saturate(b), FRAC_SCALE as int))
}

pub open spec fn clamp_i32(x: int) -> int {
    if x > i32::MAX {
        i32::MAX as int
    } else if x < i32::MIN {
        i32::MIN as int
    } else {
        x
    }
}

/// The nearest integer to a raw value, halves away from zero, clamped to `i32`.
pub open spec fn round_to_i32(raw: int) -> int {
    clamp_i32(div_round(saturate(raw), FRAC_SCALE as int))
}

/// Clamps to the value range.
pub(crate) fn clip(x: i128) -> (r: i128)
    ensures
        r == saturate(x as int),
{
    if x > RAW_LIMIT {
        RAW_LIMIT
    } else if x < -RAW_LIMIT {
        -RAW_LIMIT
    } else {
        x
    }
}

/// Truncating division by a positive divisor.
pub(crate) fn div_trunc_wide(a: i128, d: i128) -> (r: i128)
    requires
        d > 0,
        a > i128::MIN,
    ensures
        r == div_trunc(a as int, d as int),
{
    if a >= 0 {
        a / d
    } else {
        let m: i128 = -a;
        -(m / d)
    }
}

/// `a * b / FRAC_SCALE`, rounded down, for magnitudes in range. The factors are split at
/// `HALF_SCALE` so that no partial product leaves `i128`.
pub(crate) fn mul_magnitudes(a: i128, b: i128) -> (r: i128)
    requires
        0 <= a <= RAW_LIMIT,
        0 <= b <= RAW_LIMIT,
    ensures
        r == (a * b) / (FRAC_SCALE as int),
        0 <= r,
{
    let g: i128 = HALF_SCALE;
    let a1: i128 = a / g;
    let a0: i128 = a % g;
    let b1: i128 = b / g;
    let b0: i128 = b % g;
    proof {
        lemma_fundamental_div_mod(a as int, g as int);
        lemma_fundamental_div_mod(b as int, g as int);
        lemma_div_is_ordered(a as int, RAW_LIMIT as int, g as int);
        lemma_div_is_ordered(b as int, RAW_LIMIT as int, g as int);
        assert(RAW_LIMIT / HALF_SCALE == 9_000_000_000_000_000_000);
        assert(0 <= a1 * b1 <= 9_000_000_000_000_000_000 * 9_000_000_000_000_000_000) by (
        nonlinear_arith)
            requires
                0 <= a1 <= 9_000_000_000_000_000_000,
                0 <= b1 <= 9_000_000_000_000_000_000,
        ;
        assert(0 <= a1 * b0 <= 9_000_000_000_000_000_000 * 1_000_000_000) by (nonlinear_arith)
            requires
                0 <= a1 <= 9_000_000_000_000_000_000,
                0 <= b0 < 1_000_000_000,
        ;
        assert(0 <= a0 * b1 <= 9_000_000_000_000_000_000 * 1_000_000_000) by (nonlinear_arith)
            requires
                0 <= b1 <= 9_000_000_000_000_000_000,
                0 <= a0 < 1_000_000_000,
        ;
        assert(0 <= a0 * b0 <= 1_000_000_000 * 1_000_000_000) by (nonlinear_arith)
            requires
                0 <= a0 < 1_000_000_000,
                0 <= b0 < 1_000_000_000,
        ;
    }
    let high: i128 = a1 * b1;
    let mid: i128 = a1 * b0 + a0 * b1;
    let low: i128 = a0 * b0;
    let x: i128 = mid * g + low;
    let r: i128 = high + x / FRAC_SCALE;
    proof {
        assert(a * b == high * FRAC_SCALE + x) by (nonlinear_arith)
            requires
                a == g * a1 + a0,
                b == g * b1 + b0,
                g == 1_000_000_000,
                FRAC_SCALE == 1_000_000_000_000_000_000,
                high == a1 * b1,
                mid == a1 * b0 + a0 * b1,
                low == a0 * b0,
                x == mid * g + low,
        ;
        lemma_fundamental_div_mod(x as int, FRAC_SCALE as int);
        lemma_fundamental_div_mod_converse(
            a * b,
            FRAC_SCALE as int,
            high + x / FRAC_SCALE,
            (x % FRAC_SCALE) as int,
        );
    }
    r
}

impl Fixed {
    pub fn zero() -> (r: Fixed)
        ensures
            r.raw == 0,
    {
        Fixed { raw: 0 }
    }

    pub fn one() -> (r: Fixed)
        ensures
            r.raw == FRAC_SCALE,
    {
        Fixed { raw: FRAC_SCALE }
    }

    pub fn from_raw(raw: i128) -> (r: Fixed)
        ensures
            r.raw == raw,
    {
        Fixed { raw }
    }

    /// The whole number `n`.
    pub fn from_int(n: i32) -> (r: Fixed)
        ensures
            r.raw == n * FRAC_SCALE,
    {
        assert(-0x8000_0000 * FRAC_SCALE <= n * FRAC_SCALE <= 0x7fff_ffff * FRAC_SCALE) by (
        nonlinear_arith)
            requires
                -0x8000_0000 <= n <= 0x7fff_ffff,
                FRAC_SCALE > 0,
        ;
        Fixed { raw: (n as i128) * FRAC_SCALE }
    }

    pub fn saturating_add(self, other: Fixed) -> (r: Fixed)
        ensures
            r.raw == add_raw(self.raw as int, other.raw as int),
    {
        Fixed { raw: clip(clip(self.raw) + clip(other.raw)) }
    }

    pub fn saturating_sub(self, other: Fixed) -> (r: Fixed)
        ensures
            r.raw == sub_raw(self.raw as int, other.raw as int),
    {
        Fixed { raw: clip(clip(self.raw) - clip(other.raw)) }
    }

    pub fn saturating_mul(self, other: Fixed) -> (r: Fixed)
        ensures
            r.raw == mul_raw(self.raw as int, other.raw as int),
    {
        let a: i128 = clip(self.raw);
        let b: i128 = clip(other.raw);
        let ma: i128 = if a < 0 {
            -a
        } else {
            a
        };
        let mb: i128 = if b < 0 {
            -b
        } else {
            b
        };
        let m: i128 = mul_magnitudes(ma, mb);
        proof {
            let s = FRAC_SCALE as int;
            if a < 0 && b >= 0 {
                assert(a * b == -(ma * mb)) by (nonlinear_arith)
                    requires
                        ma == -a,
                        mb == b,
                ;
            } else if a >= 0 && b < 0 {
                assert(a * b == -(ma * mb)) by (nonlinear_arith)
                    requires
                        ma == a,
                        mb == -b,
                ;
            } else if a < 0 && b < 0 {
                assert(a * b == ma * mb) by (nonlinear_arith)
                    requires
                        ma == -a,
                        mb == -b,
                ;
            }
            assert(ma * mb >= 0) by (nonlinear_arith)
                requires
                    ma >= 0,
                    mb >= 0,
            ;
            if ma * mb == 0 {
                assert(m == 0);
            }
        }
        let q: i128 = if (a < 0) != (b < 0) {
            -m
        } else {
            m
        };
        Fixed { raw: clip(q) }
    }

    /// The nearest whole number, halves away from zero, clamped to the range of `i32`.
    pub fn round_i32(self) -> (r: i32)
        ensures
            r == round_to_i32(self.raw as int),
    {
        let a: i128 = clip(self.raw);
        let half: i128 = FRAC_SCALE / 2;
        let q: i128 = if a >= 0 {
            (a + half) / FRAC_SCALE
        } else {
            -((-a + half) / FRAC_SCALE)
        };
        if q > i32::MAX as i128 {
            i32::MAX
        } else if q < i32::MIN as i128 {
            i32::MIN
        } else {
            q as i32
        }
    }
}

} // verus!
