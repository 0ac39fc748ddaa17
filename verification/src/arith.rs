//! Multiplication, addition and subtraction of binary64 values, each the
//! exact result rounded once.

use vstd::prelude::*;
use vstd::arithmetic::power2::*;
use vstd::arithmetic::div_mod::*;
use crate::double::{Double, HIDDEN_BIT, INFINITY_BITS, SIGN_BIT, lemma_units_bounds};
use crate::rounding::{
    bit_length, lemma_bit_length_unique, lemma_pow2_increases, pow2_u128, round_to_bits, rounded,
    round_half_even, last_place, rounded_significand, packed,
};

verus! {

/// The quiet NaN that stands for every invalid result.
pub const NAN_BITS: u64 = 0x7ff8_0000_0000_0000;

/// The value with the given sign and magnitude bits.
pub open spec fn signed(negative: bool, magnitude: nat) -> Double {
    Double {
        bits: if negative {
            (SIGN_BIT + magnitude) as u64
        } else {
            magnitude as u64
        },
    }
}

impl Double {
    /// The significand times `2^(scale - k)`, with the sign: the value in
    /// multiples of `2^k` units, for `k` no larger than the scale.
    pub open spec fn aligned(self, k: nat) -> int {
        let m = self.significand() * pow2((self.scale() - k) as nat);
        if self.is_negative() {
            -(m as int)
        } else {
            m as int
        }
    }

    /// The same value with the other sign.
    pub open spec fn negated(self) -> Double {
        signed(!self.is_negative(), self.magnitude())
    }

    /// IEEE 754 multiplication: the exact product, rounded to nearest, ties
    /// to even. Infinity times zero, and anything with a NaN, is NaN.
    pub open spec fn times(self, other: Double) -> Double {
        let negative = self.is_negative() != other.is_negative();
        if self.is_nan() || other.is_nan() || (self.is_infinite() && other.is_zero()) || (
        self.is_zero() && other.is_infinite()) {
            Double { bits: NAN_BITS }
        } else if self.is_infinite() || other.is_infinite() {
            signed(negative, INFINITY_BITS as nat)
        } else {
            signed(
                negative,
                rounded(
                    self.significand() * other.significand(),
                    self.scale() + other.scale() - 1074,
                ),
            )
        }
    }

    /// IEEE 754 addition: the exact sum, rounded to nearest, ties to even.
    /// Opposite infinities, and anything with a NaN, give NaN. An exact zero
    /// sum is negative only when both terms are.
    pub open spec fn plus(self, other: Double) -> Double {
        if self.is_nan() || other.is_nan() || (self.is_infinite() && other.is_infinite()
            && self.is_negative() != other.is_negative()) {
            Double { bits: NAN_BITS }
        } else if self.is_infinite() {
            self
        } else if other.is_infinite() {
            other
        } else {
            let k = if self.scale() <= other.scale() {
                self.scale()
            } else {
                other.scale()
            };
            let total = self.aligned(k) + other.aligned(k);
            if total == 0 {
                signed(self.is_negative() && other.is_negative(), 0)
            } else if total < 0 {
                signed(true, rounded((-total) as nat, k as int))
            } else {
                signed(false, rounded(total as nat, k as int))
            }
        }
    }

    /// IEEE 754 subtraction: addition of the negated value.
    pub open spec fn minus(self, other: Double) -> Double {
        self.plus(other.negated())
    }

    /// The value of a whole number, rounded where it has more than
    /// fifty-three bits.
    pub open spec fn whole(n: nat) -> Double {
        signed(false, rounded(n, 1074))
    }

    /// The significand, with the implicit bit of a normal value.
    pub fn significand_bits(self) -> (s: u64)
        ensures
            s == self.significand(),
            s < 2 * HIDDEN_BIT,
    {
        let m: u64 = self.magnitude_bits();
        if m / HIDDEN_BIT == 0 {
            m % HIDDEN_BIT
        } else {
            HIDDEN_BIT + m % HIDDEN_BIT
        }
    }

    /// The scale of the last place, in units.
    pub fn scale_bits(self) -> (k: u32)
        ensures
            k == self.scale(),
            k <= 2046,
    {
        let f: u64 = self.magnitude_bits() / HIDDEN_BIT;
        if f == 0 {
            0
        } else {
            (f - 1) as u32
        }
    }

    /// Puts a sign on magnitude bits.
    pub(crate) fn with_sign(negative: bool, magnitude: u64) -> (d: Double)
        requires
            magnitude < SIGN_BIT,
        ensures
            d == signed(negative, magnitude as nat),
            d.is_negative() == negative,
            d.magnitude() == magnitude,
    {
        if negative {
            Double { bits: SIGN_BIT + magnitude }
        } else {
            Double { bits: magnitude }
        }
    }

    /// The same value with the other sign.
    pub fn negate(self) -> (d: Double)
        ensures
            d == self.negated(),
    {
        Double::with_sign(!self.sign(), self.magnitude_bits())
    }

    /// The value of `n`, which binary64 holds exactly.
    pub fn from_u32(n: u32) -> (d: Double)
        ensures
            d == Double::whole(n as nat),
            d.is_finite(),
            !d.is_negative(),
            d.units() == n * pow2(1074),
    {
        proof {
            lemma2_to64();
            lemma_whole_exact(n as nat);
        }
        Double::with_sign(false, round_to_bits(n as u128, 1074))
    }

    /// The product of the two values, rounded to nearest, ties to even.
    pub fn product(self, other: Double) -> (d: Double)
        ensures
            d == self.times(other),
    {
        let negative: bool = self.sign() != other.sign();
        let ma: u64 = self.magnitude_bits();
        let mb: u64 = other.magnitude_bits();
        if ma > INFINITY_BITS || mb > INFINITY_BITS {
            return Double { bits: NAN_BITS };
        }
        if ma == INFINITY_BITS || mb == INFINITY_BITS {
            if ma == 0 || mb == 0 {
                return Double { bits: NAN_BITS };
            }
            return Double::with_sign(negative, INFINITY_BITS);
        }
        let sa: u64 = self.significand_bits();
        let sb: u64 = other.significand_bits();
        let x: i32 = (self.scale_bits() as i32) + (other.scale_bits() as i32) - 1074;
        assert(sa * sb < 0x400_0000_0000_0000_0000_0000_0000) by (nonlinear_arith)
            requires
                sa < 0x20_0000_0000_0000,
                sb < 0x20_0000_0000_0000,
        ;
        let m: u128 = (sa as u128) * (sb as u128);
        Double::with_sign(negative, round_to_bits(m, x))
    }

    /// The sum of the two values, rounded to nearest, ties to even.
    pub fn sum(self, other: Double) -> (d: Double)
        ensures
            d == self.plus(other),
    {
        let ma: u64 = self.magnitude_bits();
        let mb: u64 = other.magnitude_bits();
        if ma > INFINITY_BITS || mb > INFINITY_BITS {
            return Double { bits: NAN_BITS };
        }
        if ma == INFINITY_BITS {
            if mb == INFINITY_BITS && self.sign() != other.sign() {
                return Double { bits: NAN_BITS };
            }
            return self;
        }
        if mb == INFINITY_BITS {
            return other;
        }
        if self.scale_bits() >= other.scale_bits() {
            sum_ordered(self, other)
        } else {
            sum_ordered(other, self)
        }
    }

    /// The difference of the two values, rounded to nearest, ties to even.
    pub fn difference(self, other: Double) -> (d: Double)
        ensures
            d == self.minus(other),
    {
        self.sum(other.negate())
    }
}

/// A finite value is its sign put on its magnitude.
pub proof fn lemma_signed_magnitude(a: Double)
    ensures
        signed(a.is_negative(), a.magnitude()) == a,
{
}

/// Next to a value more than sixty-four binades above it, a finite value
/// is lost in the rounding of the sum.
proof fn lemma_plus_far(hi: Double, lo: Double)
    requires
        hi.is_finite(),
        lo.is_finite(),
        hi.scale() > lo.scale() + 64,
    ensures
        hi.plus(lo) == hi,
{
    let sh = hi.significand();
    let sl = lo.significand();
    let kl = lo.scale();
    let gap = (hi.scale() - kl) as nat;
    lemma2_to64();
    lemma2_to64_rest();
    lemma_units_bounds(hi);
    lemma_units_bounds(lo);
    lemma_pow2_pos(gap);
    lemma_pow2_increases(54, gap);
    let big = sh * pow2(gap);
    assert(big >= pow2(gap)) by (nonlinear_arith)
        requires
            big == sh * pow2(gap),
            sh >= 1,
            pow2(gap) > 0,
    ;
    assert(sl * pow2(0) == sl) by (nonlinear_arith)
        requires
            pow2(0) == 1,
    ;
    let a = hi.aligned(kl);
    let b = lo.aligned(kl);
    assert(a == if hi.is_negative() { -(big as int) } else { big as int });
    assert(b == if lo.is_negative() { -(sl as int) } else { sl as int });
    let total = a + b;
    let take = hi.is_negative() != lo.is_negative();
    let m: nat = if take { (big - sl) as nat } else { big + sl };
    assert(total != 0);
    assert((total < 0) == hi.is_negative());
    assert(m == if total < 0 { -total } else { total });
    if sl == 0 {
        lemma_rounded_exact(sh, hi.scale());
        assert(kl == 0);
    } else {
        lemma_rounded_far(sh, gap, sl, kl, take);
    }
    assert(rounded(m, kl as int) == hi.magnitude());
    lemma_signed_magnitude(hi);
}

/// The sum of two finite values, the one with the larger scale first.
fn sum_ordered(hi: Double, lo: Double) -> (d: Double)
    requires
        hi.is_finite(),
        lo.is_finite(),
        hi.scale() >= lo.scale(),
    ensures
        d == hi.plus(lo),
{
    let sh: u64 = hi.significand_bits();
    let sl: u64 = lo.significand_bits();
    let kh: u32 = hi.scale_bits();
    let kl: u32 = lo.scale_bits();
    let gap: u32 = kh - kl;
    if gap > 64 {
        proof {
            lemma_plus_far(hi, lo);
        }
        return hi;
    }
    let p: u128 = pow2_u128(gap);
    proof {
        lemma2_to64();
        lemma2_to64_rest();
        lemma_pow2_increases(gap as nat, 64);
        assert(sh * p < 0x20_0000_0000_0000 * 0x1_0000_0000_0000_0000) by (nonlinear_arith)
            requires
                sh < 0x20_0000_0000_0000,
                p <= 0x1_0000_0000_0000_0000,
        ;
        assert(sl * pow2(0) == sl) by (nonlinear_arith)
            requires
                pow2(0) == 1,
        ;
    }
    let big: u128 = (sh as u128) * p;
    let small: u128 = sl as u128;
    let ghost a = hi.aligned(kl as nat);
    let ghost b = lo.aligned(kl as nat);
    assert(a == if hi.is_negative() { -(big as int) } else { big as int });
    assert(b == if lo.is_negative() { -(small as int) } else { small as int });
    if hi.sign() == lo.sign() {
        let bits: u64 = round_to_bits(big + small, kl as i32);
        Double::with_sign(hi.sign(), bits)
    } else if big > small {
        let bits: u64 = round_to_bits(big - small, kl as i32);
        Double::with_sign(hi.sign(), bits)
    } else if small > big {
        let bits: u64 = round_to_bits(small - big, kl as i32);
        Double::with_sign(lo.sign(), bits)
    } else {
        Double { bits: 0 }
    }
}

/// Packing a scale and a normal significand gives a finite pattern that
/// reads back as the two.
pub proof fn lemma_pack(q: nat, s: nat)
    requires
        q <= 2045,
        s < 2 * HIDDEN_BIT,
        q > 0 ==> s >= HIDDEN_BIT,
    ensures
        q * HIDDEN_BIT + s < INFINITY_BITS,
        signed(false, packed(q, s)).is_finite(),
        signed(false, packed(q, s)).significand() == s,
        s >= HIDDEN_BIT ==> signed(false, packed(q, s)).scale() == q,
        s < HIDDEN_BIT ==> signed(false, packed(q, s)).scale() == 0,
{
    assert(q * HIDDEN_BIT <= 2045 * HIDDEN_BIT) by (nonlinear_arith)
        requires
            q <= 2045,
    ;
    let bits = q * HIDDEN_BIT + s;
    if s >= HIDDEN_BIT {
        lemma_fundamental_div_mod_converse(
            bits as int,
            HIDDEN_BIT as int,
            (q + 1) as int,
            (s - HIDDEN_BIT) as int,
        );
    } else {
        lemma_fundamental_div_mod_converse(bits as int, HIDDEN_BIT as int, 0, s as int);
    }
}

/// A value that binary64 holds rounds to itself: `s * 2^g` units, with `s`
/// a significand of the scale `g`, gives the bits that pack `g` and `s`.
pub proof fn lemma_rounded_exact(s: nat, g: nat)
    requires
        s < 2 * HIDDEN_BIT,
        g > 0 ==> s >= HIDDEN_BIT,
        g <= 2045,
    ensures
        rounded(s * pow2(g), 0) == g * HIDDEN_BIT + s,
{
    lemma2_to64();
    lemma2_to64_rest();
    lemma_pow2_pos(g);
    let m = s * pow2(g);
    if s == 0 {
        assert(m == 0) by (nonlinear_arith)
            requires
                m == s * pow2(g),
                s == 0,
        ;
    } else {
        assert(m > 0) by (nonlinear_arith)
            requires
                m == s * pow2(g),
                s > 0,
                pow2(g) > 0,
        ;
        if g == 0 {
            assert(m == s) by (nonlinear_arith)
                requires
                    m == s * pow2(g),
                    pow2(g) == 1,
            ;
            crate::rounding::lemma_bit_length(s);
            if bit_length(s) > 53 {
                lemma_pow2_increases(53, (bit_length(s) - 1) as nat);
            }
            assert(last_place(m, 0) == 0);
            assert(rounded_significand(m, 0) == m * pow2(0));
            assert(m * pow2(0) == m) by (nonlinear_arith)
                requires
                    pow2(0) == 1,
            ;
            lemma_pack(0, s);
        } else {
            lemma_pow2_adds(52, g);
            lemma_pow2_adds(53, g);
            assert(pow2(52) * pow2(g) <= m < pow2(53) * pow2(g)) by (nonlinear_arith)
                requires
                    m == s * pow2(g),
                    pow2(52) <= s < pow2(53),
                    pow2(g) > 0,
            ;
            lemma_bit_length_unique(m, 53 + g);
            assert(last_place(m, 0) == g);
            lemma_fundamental_div_mod_converse(m as int, pow2(g) as int, s as int, 0);
            assert(round_half_even(m, pow2(g)) == s);
            lemma_pack(g, s);
        }
    }
}

/// Adding or taking away less than a quarter of the last place leaves a
/// normal value as it is: `s * 2^g ± t`, counted in multiples of `2^k`
/// units, rounds to the bits that pack `k + g` and `s`.
pub proof fn lemma_rounded_far(s: nat, g: nat, t: nat, k: nat, take: bool)
    requires
        HIDDEN_BIT <= s < 2 * HIDDEN_BIT,
        0 < t < 2 * HIDDEN_BIT,
        g >= 56,
        k + g <= 2045,
    ensures
        rounded(
            if take {
                (s * pow2(g) - t) as nat
            } else {
                s * pow2(g) + t
            },
            k as int,
        ) == (k + g) * HIDDEN_BIT + s,
{
    lemma2_to64();
    lemma2_to64_rest();
    let d = pow2(g);
    let half = pow2((g - 1) as nat);
    lemma_pow2_unfold(g);
    lemma_pow2_increases(55, (g - 1) as nat);
    lemma_pow2_adds(52, g);
    lemma_pow2_adds(53, g);
    lemma_pow2_adds(52, (g - 1) as nat);
    lemma_pow2_adds(51, (g - 1) as nat);
    let base = s * d;
    assert(pow2(52) * d <= base && base + d <= pow2(53) * d) by (nonlinear_arith)
        requires
            base == s * d,
            pow2(52) <= s,
            s + 1 <= pow2(53),
            d > 0,
    ;
    lemma_pack((k + g) as nat, s);
    if !take {
        let m = base + t;
        lemma_bit_length_unique(m, 53 + g);
        assert(last_place(m, k as int) == k + g);
        lemma_fundamental_div_mod_converse(m as int, d as int, s as int, t as int);
        assert(round_half_even(m, d) == s);
    } else if s > HIDDEN_BIT {
        let m = (base - t) as nat;
        assert(base - d == (s - 1) * d) by (nonlinear_arith)
            requires
                base == s * d,
        ;
        assert(pow2(52) * d <= (s - 1) * d) by (nonlinear_arith)
            requires
                pow2(52) <= s - 1,
                d > 0,
        ;
        lemma_bit_length_unique(m, 53 + g);
        assert(last_place(m, k as int) == k + g);
        lemma_fundamental_div_mod_converse(m as int, d as int, (s - 1) as int, (d - t) as int);
        assert(round_half_even(m, d) == s);
    } else {
        let m = (base - t) as nat;
        let top = (2 * HIDDEN_BIT - 1) as nat;
        assert(base == pow2(53) * half) by (nonlinear_arith)
            requires
                base == s * d,
                s == pow2(52),
                d == 2 * half,
                pow2(53) == 2 * pow2(52),
        ;
        assert(base - half == top * half) by (nonlinear_arith)
            requires
                base == pow2(53) * half,
                top == pow2(53) - 1,
        ;
        assert(pow2(52) * half <= top * half) by (nonlinear_arith)
            requires
                pow2(52) <= top,
                half > 0,
        ;
        lemma_bit_length_unique(m, 52 + g);
        assert(last_place(m, k as int) == k + g - 1);
        lemma_fundamental_div_mod_converse(m as int, half as int, top as int, (half - t) as int);
        assert(round_half_even(m, half) == top + 1);
        assert((k + g - 1) * HIDDEN_BIT + (top + 1) == (k + g) * HIDDEN_BIT + s) by (nonlinear_arith)
            requires
                top + 1 == 2 * HIDDEN_BIT,
                s == HIDDEN_BIT,
        ;
    }
}

/// Zero times a finite value is zero.
pub proof fn lemma_zero_product(a: Double, b: Double)
    requires
        a.is_zero(),
        b.is_finite(),
    ensures
        a.times(b).is_zero(),
        b.times(a).is_zero(),
{
    assert(a.significand() == 0);
    assert(a.significand() * b.significand() == 0 && b.significand() * a.significand() == 0)
        by (nonlinear_arith)
        requires
            a.significand() == 0,
    ;
}

/// Zero plus zero is zero.
pub proof fn lemma_zero_sum(a: Double, b: Double)
    requires
        a.is_zero(),
        b.is_zero(),
    ensures
        a.plus(b).is_zero(),
{
    lemma2_to64();
    assert(a.significand() == 0 && b.significand() == 0);
    assert(a.significand() * pow2(0) == 0 && b.significand() * pow2(0) == 0) by (nonlinear_arith)
        requires
            a.significand() == 0,
            b.significand() == 0,
    ;
    assert(a.aligned(0) == 0);
    assert(b.aligned(0) == 0);
}

/// A whole number of at most fifty-three bits is held exactly.
pub proof fn lemma_whole_exact(n: nat)
    requires
        n < 2 * HIDDEN_BIT,
    ensures
        Double::whole(n).is_finite(),
        !Double::whole(n).is_negative(),
        Double::whole(n).units() == n * pow2(1074),
        n == 0 ==> Double::whole(n).bits == 0,
{
    lemma2_to64();
    lemma2_to64_rest();
    if n == 0 {
        assert(Double::whole(n).bits == 0);
        assert(Double::whole(n).significand() == 0);
        assert(Double::whole(n).units() == 0) by (nonlinear_arith)
            requires
                Double::whole(n).units() == Double::whole(n).significand() * pow2(
                    Double::whole(n).scale(),
                ),
                Double::whole(n).significand() == 0,
        ;
    } else {
        let len = bit_length(n);
        crate::rounding::lemma_bit_length(n);
        if len > 53 {
            lemma_pow2_increases(53, (len - 1) as nat);
        }
        let q = (1021 + len) as nat;
        let up = (53 - len) as nat;
        assert(last_place(n, 1074) == q);
        let s = n * pow2(up);
        assert(rounded_significand(n, 1074) == s);
        lemma_pow2_adds((len - 1) as nat, up);
        lemma_pow2_adds(len, up);
        lemma_pow2_pos(up);
        assert(pow2((len - 1) as nat) * pow2(up) <= s < pow2(len) * pow2(up)) by (nonlinear_arith)
            requires
                s == n * pow2(up),
                pow2((len - 1) as nat) <= n < pow2(len),
                pow2(up) > 0,
        ;
        lemma_pack(q, s);
        assert(rounded(n, 1074) == packed(q, s));
        let d = Double::whole(n);
        assert(d.significand() == s);
        assert(d.scale() == q);
        lemma_pow2_adds(up, q);
        assert(s * pow2(q) == n * pow2(1074)) by (nonlinear_arith)
            requires
                s == n * pow2(up),
                pow2(1074) == pow2(up) * pow2(q),
        ;
    }
}

} // verus!
