//! Division of binary64 values, and the floor of a value as a whole number.

use vstd::prelude::*;
use vstd::arithmetic::power2::*;
use vstd::arithmetic::div_mod::*;
use crate::double::{Double, HIDDEN_BIT, INFINITY_BITS, lemma_units_bounds};
use crate::arith::{signed, NAN_BITS};
use crate::rounding::{
    bit_length, bit_length_u128, last_place, lemma_bit_length, lemma_pow2_increases,
    lemma_quotient_at_least, lemma_quotient_below, lemma_rounding_error, pow2_u128,
    round_to_bits, rounded, rounded_significand,
};

verus! {

impl Double {
    /// How far a finite value other than zero is shifted up so that its
    /// significand has fifty-three bits; zero for a normal value.
    pub open spec fn normal_shift(self) -> nat {
        (53 - bit_length(self.significand())) as nat
    }

    /// The significand shifted up to fifty-three bits.
    pub open spec fn normal_significand(self) -> nat {
        self.significand() * pow2(self.normal_shift())
    }

    /// The scale that goes with the shifted significand.
    pub open spec fn normal_scale(self) -> int {
        self.scale() - self.normal_shift()
    }

    /// IEEE 754 division: the exact quotient, rounded to nearest, ties to
    /// even. The quotient of the two fifty-three-bit significands is taken
    /// to sixty-four places below the point, and one more place records
    /// whether anything was left over: that is enough to round it as the
    /// exact quotient rounds, which `lemma_quotient_error` shows. Zero by
    /// zero, infinity by infinity, and anything with a NaN, is NaN.
    pub open spec fn over(self, other: Double) -> Double {
        let negative = self.is_negative() != other.is_negative();
        if self.is_nan() || other.is_nan() || (self.is_infinite() && other.is_infinite()) || (
        self.is_zero() && other.is_zero()) {
            Double { bits: NAN_BITS }
        } else if self.is_infinite() || other.is_zero() {
            signed(negative, INFINITY_BITS as nat)
        } else if other.is_infinite() || self.is_zero() {
            signed(negative, 0)
        } else {
            signed(
                negative,
                rounded(
                    quotient_places(
                        self.normal_significand() * pow2(64),
                        other.normal_significand(),
                    ),
                    self.normal_scale() - other.normal_scale() + 1009,
                ),
            )
        }
    }

    /// The largest whole number not above the value, and zero for a NaN or
    /// a value below zero.
    pub open spec fn floor(self) -> nat {
        if self.is_nan() || self.is_negative() {
            0
        } else {
            self.units() / pow2(1074)
        }
    }

    /// Significand and scale of a finite value other than zero, shifted so
    /// that the significand has fifty-three bits.
    fn normalized(self) -> (r: (u64, i32))
        requires
            self.is_finite(),
            !self.is_zero(),
        ensures
            r.0 == self.normal_significand(),
            r.1 == self.normal_scale(),
            HIDDEN_BIT <= r.0 < 2 * HIDDEN_BIT,
            -52 <= r.1 <= 2045,
    {
        let s: u64 = self.significand_bits();
        let k: u32 = self.scale_bits();
        let len: u32 = bit_length_u128(s as u128);
        proof {
            lemma2_to64();
            lemma2_to64_rest();
            lemma_units_bounds(self);
            lemma_bit_length(s as nat);
            if len > 53 {
                lemma_pow2_increases(53, (len - 1) as nat);
            }
            if s >= HIDDEN_BIT && len < 53 {
                lemma_pow2_increases(len as nat, 52);
            }
        }
        let shift: u32 = 53 - len;
        let p: u128 = pow2_u128(shift);
        proof {
            lemma_pow2_adds((len - 1) as nat, shift as nat);
            lemma_pow2_adds(len as nat, shift as nat);
            lemma_pow2_pos(shift as nat);
            assert(pow2((len - 1) as nat) * p <= s * p < pow2(len as nat) * p) by (nonlinear_arith)
                requires
                    pow2((len - 1) as nat) <= s < pow2(len as nat),
                    p > 0,
            ;
        }
        (((s as u128) * p) as u64, (k as i32) - (shift as i32))
    }

    /// The quotient of the two values, rounded to nearest, ties to even.
    pub fn quotient(self, other: Double) -> (d: Double)
        ensures
            d == self.over(other),
    {
        let negative: bool = self.sign() != other.sign();
        let ma: u64 = self.magnitude_bits();
        let mb: u64 = other.magnitude_bits();
        if ma > INFINITY_BITS || mb > INFINITY_BITS {
            return Double { bits: NAN_BITS };
        }
        if ma == INFINITY_BITS {
            if mb == INFINITY_BITS {
                return Double { bits: NAN_BITS };
            }
            return Double::with_sign(negative, INFINITY_BITS);
        }
        if mb == INFINITY_BITS {
            return Double::with_sign(negative, 0);
        }
        if mb == 0 {
            if ma == 0 {
                return Double { bits: NAN_BITS };
            }
            return Double::with_sign(negative, INFINITY_BITS);
        }
        if ma == 0 {
            return Double::with_sign(negative, 0);
        }
        let (na, ea) = self.normalized();
        let (nb, eb) = other.normalized();
        proof {
            lemma2_to64();
            lemma2_to64_rest();
            assert(na * 0x1_0000_0000_0000_0000 < nb * 0x2_0000_0000_0000_0000) by (nonlinear_arith)
                requires
                    na < 0x20_0000_0000_0000,
                    nb >= 0x10_0000_0000_0000,
            ;
            lemma_quotient_below(
                (na * 0x1_0000_0000_0000_0000) as nat,
                nb as nat,
                0x2_0000_0000_0000_0000,
            );
        }
        let n: u128 = (na as u128) * 0x1_0000_0000_0000_0000;
        let q: u128 = n / (nb as u128);
        let left_over: u128 = if n % (nb as u128) == 0 {
            0
        } else {
            1
        };
        Double::with_sign(negative, round_to_bits(2 * q + left_over, ea - eb + 1009))
    }

    /// The floor of the value, held to the range of `u32`: zero for a NaN
    /// or a value below zero, `u32::MAX` for one too large.
    pub fn floor_u32(self) -> (n: u32)
        ensures
            n == if self.floor() > u32::MAX {
                u32::MAX as nat
            } else {
                self.floor()
            },
    {
        if self.nan() || self.sign() {
            return 0;
        }
        let s: u64 = self.significand_bits();
        let k: u32 = self.scale_bits();
        proof {
            lemma2_to64();
            lemma2_to64_rest();
            lemma_units_bounds(self);
            lemma_pow2_pos(1074);
            lemma_pow2_pos(k as nat);
        }
        if k >= 1074 {
            proof {
                // a normal significand at or above the unit place
                let up = (k - 1074) as nat;
                lemma_pow2_adds(1074, up);
                lemma_pow2_pos(up);
                assert(self.units() >= HIDDEN_BIT * pow2(1074)) by (nonlinear_arith)
                    requires
                        self.units() == s * pow2(k as nat),
                        s >= HIDDEN_BIT,
                        pow2(k as nat) == pow2(1074) * pow2(up),
                        pow2(up) >= 1,
                        pow2(1074) > 0,
                ;
                lemma_div_is_ordered(
                    (HIDDEN_BIT * pow2(1074)) as int,
                    self.units() as int,
                    pow2(1074) as int,
                );
                lemma_div_by_multiple(HIDDEN_BIT as int, pow2(1074) as int);
            }
            return u32::MAX;
        }
        let down: u32 = 1074 - k;
        proof {
            lemma_pow2_adds(k as nat, down as nat);
            lemma_pow2_pos(down as nat);
            lemma_div_multiples_vanish_quotient(
                pow2(k as nat) as int,
                s as int,
                pow2(down as nat) as int,
            );
            assert(s * pow2(k as nat) == pow2(k as nat) * s) by (nonlinear_arith);
        }
        assert(self.floor() == s as nat / pow2(down as nat));
        if down >= 53 {
            proof {
                lemma_pow2_increases(53, down as nat);
                lemma_basic_div(s as int, pow2(down as nat) as int);
            }
            return 0;
        }
        proof {
            vstd::bits::lemma_u64_shr_is_div(s, down as u64);
        }
        let f: u64 = s >> (down as u64);
        if f > 0xffff_ffff {
            u32::MAX
        } else {
            f as u32
        }
    }
}

/// Twice the quotient of the significands, counted in the last of the
/// sixty-four places, with the lowest bit set where the division left
/// something over.
pub open spec fn quotient_places(n: nat, d: nat) -> nat {
    let left_over: nat = if n % d == 0 {
        0
    } else {
        1
    };
    2 * (n / d) + left_over
}

/// The rounded quotient is nearest to the exact one: with `n / d` the
/// exact quotient of the two significands, the rounded significand `r`,
/// which stands `t` places above the half places in which `2 * n / d` is
/// counted, differs from it by at most half a last place.
pub proof fn lemma_quotient_error(a: Double, b: Double)
    requires
        a.is_finite(),
        b.is_finite(),
        !a.is_zero(),
        !b.is_zero(),
    ensures
        ({
            let n = a.normal_significand() * pow2(64);
            let d = b.normal_significand();
            let x = a.normal_scale() - b.normal_scale() + 1009;
            let m = quotient_places(n, d);
            let t = (last_place(m, x) - x) as nat;
            let r = rounded_significand(m, x);
            &&& a.over(b).magnitude() == rounded(m, x)
            &&& last_place(m, x) >= x + 2
            &&& 2 * (r * pow2(t) * d - 2 * n) <= pow2(t) * d
            &&& 2 * (2 * n - r * pow2(t) * d) <= pow2(t) * d
        }),
{
    lemma2_to64();
    lemma2_to64_rest();
    lemma_normal_significand(a);
    lemma_normal_significand(b);
    let na = a.normal_significand();
    let n = na * pow2(64);
    let d = b.normal_significand();
    let x = a.normal_scale() - b.normal_scale() + 1009;
    let m = quotient_places(n, d);
    let whole = n / d;
    let rem = n % d;
    lemma_fundamental_div_mod(n as int, d as int);
    // the quotient has at least sixty-four bits
    assert(n >= pow2(63) * d) by (nonlinear_arith)
        requires
            n == na * pow2(64),
            na >= pow2(52),
            d < pow2(53),
            pow2(64) == 2 * pow2(63),
            pow2(53) == 2 * pow2(52),
    ;
    lemma_quotient_at_least(n, d, pow2(63));
    assert(m >= pow2(64));
    lemma_bit_length(m);
    if bit_length(m) < 65 {
        lemma_pow2_increases(bit_length(m), 64);
    }
    let q = last_place(m, x);
    assert(q >= x + 12);
    let t = (q - x) as nat;
    let r = rounded_significand(m, x);
    let place = pow2(t);
    let quarter = pow2((t - 2) as nat);
    lemma_pow2_adds(2, (t - 2) as nat);
    assert(place == 4 * quarter);
    lemma_rounding_error(m, x);
    let reach = r * place;
    assert(reach == 4 * (r * quarter)) by (nonlinear_arith)
        requires
            reach == r * place,
            place == 4 * quarter,
    ;
    let qd = quarter * d;
    assert(place * d == 4 * qd) by (nonlinear_arith)
        requires
            place == 4 * quarter,
            qd == quarter * d,
    ;
    if rem == 0 {
        assert(m == 2 * whole);
        assert(2 * n == m * d) by (nonlinear_arith)
            requires
                n == d * whole,
                m == 2 * whole,
        ;
        assert(reach * d - m * d == (reach - m) * d) by (nonlinear_arith);
        assert(2 * ((reach - m) * d) <= place * d) by (nonlinear_arith)
            requires
                2 * (reach - m) <= place,
                d > 0,
        ;
        assert(2 * (-((reach - m) * d)) <= place * d) by (nonlinear_arith)
            requires
                2 * (m - reach) <= place,
                d > 0,
        ;
        assert(2 * (reach * d - 2 * n) <= place * d);
        assert(2 * (2 * n - reach * d) <= place * d);
    } else {
        assert(m == 2 * whole + 1);
        // the odd count lies strictly inside the even bounds
        let low = reach - 2 * quarter;
        let high = reach + 2 * quarter;
        assert(low <= 2 * whole && 2 * whole + 2 <= high);
        assert(low * d <= 2 * n && 2 * n <= high * d) by (nonlinear_arith)
            requires
                low <= 2 * whole,
                2 * whole + 2 <= high,
                n == d * whole + rem,
                0 <= rem < d,
        ;
        assert(low * d == reach * d - 2 * qd && high * d == reach * d + 2 * qd)
            by (nonlinear_arith)
            requires
                low == reach - 2 * quarter,
                high == reach + 2 * quarter,
                qd == quarter * d,
        ;
        assert(2 * (reach * d - 2 * n) <= place * d);
        assert(2 * (2 * n - reach * d) <= place * d);
    }
    assert(r * pow2(t) * d == reach * d);
}

/// The shifted significand of a finite value other than zero has exactly
/// fifty-three bits.
pub proof fn lemma_normal_significand(a: Double)
    requires
        a.is_finite(),
        !a.is_zero(),
    ensures
        pow2(52) <= a.normal_significand() < pow2(53),
        -52 <= a.normal_scale() <= 2045,
        a.normal_significand() * pow2((a.normal_scale() + 52) as nat) == a.units() * pow2(52),
{
    lemma2_to64();
    lemma2_to64_rest();
    lemma_units_bounds(a);
    let s = a.significand();
    let len = bit_length(s);
    lemma_bit_length(s);
    if len > 53 {
        lemma_pow2_increases(53, (len - 1) as nat);
    }
    if s >= HIDDEN_BIT && len < 53 {
        lemma_pow2_increases(len, 52);
    }
    let shift = (53 - len) as nat;
    lemma_pow2_adds((len - 1) as nat, shift);
    lemma_pow2_adds(len, shift);
    lemma_pow2_pos(shift);
    assert(pow2((len - 1) as nat) * pow2(shift) <= s * pow2(shift) < pow2(len) * pow2(shift))
        by (nonlinear_arith)
        requires
            pow2((len - 1) as nat) <= s < pow2(len),
            pow2(shift) > 0,
    ;
    let k = a.scale();
    let up = (a.normal_scale() + 52) as nat;
    lemma_pow2_adds(shift, up);
    lemma_pow2_adds(k, 52);
    assert(s * pow2(shift) * pow2(up) == s * pow2(k) * pow2(52)) by (nonlinear_arith)
        requires
            pow2(shift) * pow2(up) == pow2(k) * pow2(52),
    ;
}

} // verus!
