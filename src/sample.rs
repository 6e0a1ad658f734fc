//! Conversions between parameter types and the engine's fixed-point representation.

use vstd::prelude::*;
use vstd::arithmetic::div_mod::lemma_fundamental_div_mod_converse;

use crate::fixed::{round_to_i32, Fixed, FRAC_SCALE};

verus! {

/// Construction from a primitive value.
pub trait FromPrimitive<P>: Sized {
    spec fn from_p_spec(p: P) -> Self;

    fn from_p(p: P) -> (r: Self)
        ensures
            r == Self::from_p_spec(p),
    ;
}

/// Conversion into a primitive value.
pub trait ToPrimitive<P>: Sized {
    spec fn to_p_spec(self) -> P;

    fn to_p(self) -> (r: P)
        ensures
            r == self.to_p_spec(),
    ;
}

/// A parameter type that can be smoothed. Values are widened to `Fixed` for interpolation and
/// narrowed back when read, so integer parameters pass through fractional intermediate values.
pub trait Smoothable: Copy + Sized {
    /// The engine value that stands for `self`.
    spec fn to_s_spec(self) -> Fixed;

    /// The parameter value read back from an engine value.
    spec fn from_s_spec(s: Fixed) -> Self;

    /// Widening then narrowing gives back the value itself.
    proof fn lemma_round_trip(self)
        ensures
            Self::from_s_spec(self.to_s_spec()) == self,
    ;

    fn to_s(self) -> (r: Fixed)
        ensures
            r == self.to_s_spec(),
    ;

    fn from_s(s: Fixed) -> (r: Self)
        ensures
            r == Self::from_s_spec(s),
    ;
}

impl FromPrimitive<i32> for Fixed {
    open spec fn from_p_spec(p: i32) -> Fixed {
        Fixed { raw: (p * FRAC_SCALE) as i128 }
    }

    fn from_p(p: i32) -> (r: Fixed) {
        Fixed::from_int(p)
    }
}

impl ToPrimitive<i32> for Fixed {
    open spec fn to_p_spec(self) -> i32 {
        round_to_i32(self.raw as int) as i32
    }

    fn to_p(self) -> (r: i32) {
        self.round_i32()
    }
}

impl Smoothable for Fixed {
    open spec fn to_s_spec(self) -> Fixed {
        self
    }

    open spec fn from_s_spec(s: Fixed) -> Fixed {
        s
    }

    proof fn lemma_round_trip(self) {
    }

    fn to_s(self) -> (r: Fixed) {
        self
    }

    fn from_s(s: Fixed) -> (r: Fixed) {
        s
    }
}

impl Smoothable for i32 {
    open spec fn to_s_spec(self) -> Fixed {
        Fixed::from_p_spec(self)
    }

    open spec fn from_s_spec(s: Fixed) -> i32 {
        s.to_p_spec()
    }

    proof fn lemma_round_trip(self) {
        let n = self as int;
        let s = FRAC_SCALE as int;
        let h = s / 2;
        assert(-0x8000_0000 * 1_000_000_000_000_000_000 <= n * s <= 0x7fff_ffff
            * 1_000_000_000_000_000_000) by (nonlinear_arith)
            requires
                -0x8000_0000 <= n <= 0x7fff_ffff,
                s == 1_000_000_000_000_000_000,
        ;
        if n >= 0 {
            lemma_fundamental_div_mod_converse(n * s + h, s, n, h);
        } else {
            assert(-(n * s) == (-n) * s) by (nonlinear_arith);
            lemma_fundamental_div_mod_converse(-(n * s) + h, s, -n, h);
        }
    }

    fn to_s(self) -> (r: Fixed) {
        Fixed::from_p(self)
    }

    fn from_s(s: Fixed) -> (r: i32) {
        s.to_p()
    }
}

} // verus!
