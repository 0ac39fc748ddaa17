//! IEEE 754 binary64 values held as their 64-bit patterns.
//!
//! A finite value is a whole number of *units*, one unit being 2^-1074, the
//! smallest positive subnormal. The model below reads sign, significand and
//! scale out of the pattern, so that the value is
//! `±significand * 2^scale` units.

use vstd::prelude::*;
use vstd::arithmetic::power2::*;

verus! {

/// The sign bit of a pattern.
pub const SIGN_BIT: u64 = 0x8000_0000_0000_0000;

/// The pattern of positive infinity; larger magnitudes are NaNs.
pub const INFINITY_BITS: u64 = 0x7ff0_0000_0000_0000;

/// 2^52: the weight of the implicit leading bit of a normal significand.
pub const HIDDEN_BIT: u64 = 0x0010_0000_0000_0000;

/// A binary64 value, as its bit pattern.
#[derive(Clone, Copy, Debug, PartialEq, Eq, Structural)]
pub struct Double {
    pub bits: u64,
}

impl Double {
    /// The pattern with the sign bit cleared.
    pub open spec fn magnitude(self) -> nat {
        (self.bits % SIGN_BIT) as nat
    }

    pub open spec fn is_negative(self) -> bool {
        self.bits >= SIGN_BIT
    }

    pub open spec fn is_nan(self) -> bool {
        self.magnitude() > INFINITY_BITS
    }

    pub open spec fn is_infinite(self) -> bool {
        self.magnitude() == INFINITY_BITS
    }

    /// Zero, subnormal or normal.
    pub open spec fn is_finite(self) -> bool {
        self.magnitude() < INFINITY_BITS
    }

    /// Positive or negative zero.
    pub open spec fn is_zero(self) -> bool {
        self.magnitude() == 0
    }

    /// The eleven exponent bits.
    pub open spec fn exponent_field(self) -> nat {
        self.magnitude() / (HIDDEN_BIT as nat)
    }

    /// The fifty-two fraction bits.
    pub open spec fn fraction(self) -> nat {
        self.magnitude() % (HIDDEN_BIT as nat)
    }

    /// The significand, with the implicit leading bit of a normal value.
    pub open spec fn significand(self) -> nat {
        if self.exponent_field() == 0 {
            self.fraction()
        } else {
            HIDDEN_BIT as nat + self.fraction()
        }
    }

    /// The power of two that weighs the last place, counted in units.
    pub open spec fn scale(self) -> nat {
        if self.exponent_field() == 0 {
            0
        } else {
            (self.exponent_field() - 1) as nat
        }
    }

    /// The absolute value in units of 2^-1074. Infinity reads as 2^2098,
    /// above every finite value.
    pub open spec fn units(self) -> nat {
        self.significand() * pow2(self.scale())
    }

    /// The value in units of 2^-1074, with its sign.
    pub open spec fn signed_units(self) -> int {
        if self.is_negative() {
            -(self.units() as int)
        } else {
            self.units() as int
        }
    }

    /// Numeric `<`: false when either side is NaN, and the two zeros are equal.
    pub open spec fn less_than(self, other: Double) -> bool {
        !self.is_nan() && !other.is_nan() && self.signed_units() < other.signed_units()
    }

    /// Numeric `==`: false when either side is NaN, and the two zeros are equal.
    pub open spec fn same_value(self, other: Double) -> bool {
        !self.is_nan() && !other.is_nan() && self.signed_units() == other.signed_units()
    }

    /// Numeric `<=`: false when either side is NaN.
    pub open spec fn at_most(self, other: Double) -> bool {
        self.less_than(other) || self.same_value(other)
    }

    pub fn from_bits(bits: u64) -> (d: Double)
        ensures
            d.bits == bits,
    {
        Double { bits }
    }

    pub fn to_bits(self) -> (bits: u64)
        ensures
            bits == self.bits,
    {
        self.bits
    }

    /// The pattern with the sign bit cleared.
    pub fn magnitude_bits(self) -> (m: u64)
        ensures
            m == self.magnitude(),
    {
        self.bits % SIGN_BIT
    }

    pub fn sign(self) -> (negative: bool)
        ensures
            negative == self.is_negative(),
    {
        self.bits >= SIGN_BIT
    }

    pub fn nan(self) -> (r: bool)
        ensures
            r == self.is_nan(),
    {
        self.bits % SIGN_BIT > INFINITY_BITS
    }

    /// Numeric `<` on the two patterns.
    pub fn lt(self, other: Double) -> (r: bool)
        ensures
            r == self.less_than(other),
    {
        if self.nan() || other.nan() {
            return false;
        }
        let ma: u64 = self.magnitude_bits();
        let mb: u64 = other.magnitude_bits();
        proof {
            lemma_units_order(self, other);
            lemma_units_order(other, self);
        }
        if self.sign() {
            if other.sign() {
                mb < ma
            } else {
                ma != 0 || mb != 0
            }
        } else {
            if other.sign() {
                false
            } else {
                ma < mb
            }
        }
    }

    /// Numeric `<=` on the two patterns.
    pub fn le(self, other: Double) -> (r: bool)
        ensures
            r == self.at_most(other),
    {
        if self.nan() || other.nan() {
            return false;
        }
        let ma: u64 = self.magnitude_bits();
        let mb: u64 = other.magnitude_bits();
        proof {
            lemma_units_order(self, other);
            lemma_units_order(other, self);
        }
        if self.sign() {
            if other.sign() {
                mb <= ma
            } else {
                true
            }
        } else {
            if other.sign() {
                ma == 0 && mb == 0
            } else {
                ma <= mb
            }
        }
    }
}

/// A normal value lies in the binade that its exponent field names; a
/// subnormal one is its fraction.
pub proof fn lemma_units_bounds(a: Double)
    requires
        !a.is_nan(),
    ensures
        a.exponent_field() <= 2047,
        a.scale() <= 2046,
        a.significand() < 2 * HIDDEN_BIT,
        a.exponent_field() == 0 ==> a.units() == a.magnitude() && a.units() < HIDDEN_BIT,
        a.exponent_field() > 0 ==> HIDDEN_BIT * pow2(a.scale()) <= a.units() < HIDDEN_BIT * pow2(
            a.scale() + 1,
        ),
        a.magnitude() == a.scale() * HIDDEN_BIT + a.significand(),
{
    let k = a.scale();
    let s = a.significand() as int;
    let p = pow2(k) as int;
    lemma_pow2_pos(k);
    if a.exponent_field() == 0 {
        lemma2_to64();
        assert(pow2(0) == 1);
    } else {
        lemma_pow2_unfold(k + 1);
        assert(HIDDEN_BIT * p <= s * p) by (nonlinear_arith)
            requires
                HIDDEN_BIT <= s,
                p > 0,
        ;
        assert(s * p < HIDDEN_BIT * (2 * p)) by (nonlinear_arith)
            requires
                s < 2 * HIDDEN_BIT,
                p > 0,
        ;
    }
}

/// Among patterns that are not NaN, the order of the magnitudes is the
/// order of the absolute values.
pub proof fn lemma_units_order(a: Double, b: Double)
    requires
        !a.is_nan(),
        !b.is_nan(),
    ensures
        a.magnitude() < b.magnitude() <==> a.units() < b.units(),
        a.magnitude() == b.magnitude() <==> a.units() == b.units(),
        a.magnitude() == 0 <==> a.units() == 0,
{
    lemma_units_bounds(a);
    lemma_units_bounds(b);
    lemma_pow2_pos(a.scale());
    lemma_pow2_pos(b.scale());
    let fa = a.exponent_field();
    let fb = b.exponent_field();
    if fa == fb {
        let p = pow2(a.scale()) as int;
        let sa = a.significand() as int;
        let sb = b.significand() as int;
        assert(sa < sb ==> sa * p < sb * p) by (nonlinear_arith)
            requires
                p > 0,
        ;
        assert(sb < sa ==> sb * p < sa * p) by (nonlinear_arith)
            requires
                p > 0,
        ;
    } else if fa < fb {
        lemma_binade_order(a, b);
    } else {
        lemma_binade_order(b, a);
    }
    if a.magnitude() != 0 {
        let p = pow2(a.scale()) as int;
        let sa = a.significand() as int;
        assert(sa * p > 0) by (nonlinear_arith)
            requires
                p > 0,
                sa > 0,
        ;
    } else {
        assert(a.significand() == 0);
        assert(a.units() == 0) by (nonlinear_arith)
            requires
                a.units() == a.significand() * pow2(a.scale()),
                a.significand() == 0,
        ;
    }
}

/// A value with the smaller exponent field is the smaller value.
proof fn lemma_binade_order(a: Double, b: Double)
    requires
        !a.is_nan(),
        !b.is_nan(),
        a.exponent_field() < b.exponent_field(),
    ensures
        a.units() < b.units(),
        a.magnitude() < b.magnitude(),
{
    lemma_units_bounds(a);
    lemma_units_bounds(b);
    let kb = b.scale();
    lemma_pow2_pos(kb);
    if a.exponent_field() == 0 {
        assert(HIDDEN_BIT * pow2(kb) >= HIDDEN_BIT) by (nonlinear_arith)
            requires
                pow2(kb) > 0,
        ;
    } else {
        let ka = a.scale();
        if ka + 1 < kb {
            lemma_pow2_strictly_increases(ka + 1, kb);
        }
        assert(HIDDEN_BIT * pow2(ka + 1) <= HIDDEN_BIT * pow2(kb)) by (nonlinear_arith)
            requires
                pow2(ka + 1) <= pow2(kb),
        ;
    }
}

} // verus!
