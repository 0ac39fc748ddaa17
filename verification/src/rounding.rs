//! Rounding to nearest, ties to even: the one rounding rule of every
//! operation in this crate.
//!
//! A magnitude is handed over exactly, as `m * 2^x` units of 2^-1074, and
//! comes back as the magnitude bits of the nearest binary64 value.

use vstd::prelude::*;
use vstd::arithmetic::power2::*;
use vstd::arithmetic::div_mod::*;
use crate::double::{HIDDEN_BIT, INFINITY_BITS};

verus! {

/// The number of bits of `n`: zero for zero, else one more than the
/// position of the leading one.
pub open spec fn bit_length(n: nat) -> nat
    decreases n,
{
    if n == 0 {
        0
    } else {
        1 + bit_length(n / 2)
    }
}

/// `m / d` rounded to the nearest whole number, a tie going to the even one.
pub open spec fn round_half_even(m: nat, d: nat) -> nat {
    let lo = m / d;
    let rem = m % d;
    if 2 * rem > d || (2 * rem == d && lo % 2 == 1) {
        lo + 1
    } else {
        lo
    }
}

/// The scale of the last place of the result: fifty-three bits below the
/// leading bit of `m * 2^x`, but never below one unit.
pub open spec fn last_place(m: nat, x: int) -> int {
    let top = x + bit_length(m) - 53;
    if top > 0 {
        top
    } else {
        0
    }
}

/// `m * 2^x` units counted in multiples of the last place, rounded.
pub open spec fn rounded_significand(m: nat, x: int) -> nat {
    let q = last_place(m, x);
    if q <= x {
        m * pow2((x - q) as nat)
    } else {
        round_half_even(m, pow2((q - x) as nat))
    }
}

/// Scale and significand as the format lays them out. A significand with
/// the implicit bit set lands one exponent field higher by the addition.
pub open spec fn packed(q: nat, s: nat) -> nat {
    (q * HIDDEN_BIT + s) as nat
}

/// The magnitude bits of the binary64 value nearest to `m * 2^x` units:
/// scale and significand packed as the format packs them, where a carry out
/// of the significand moves into the exponent field, and infinity where the
/// result is out of range.
pub open spec fn rounded(m: nat, x: int) -> nat {
    if m == 0 {
        0
    } else {
        let bits = packed(last_place(m, x) as nat, rounded_significand(m, x));
        if bits >= INFINITY_BITS {
            INFINITY_BITS as nat
        } else {
            bits
        }
    }
}

/// `m1 * 2^x1 <= m2 * 2^x2`, said in whole numbers.
pub open spec fn scaled_le(m1: nat, x1: int, m2: nat, x2: int) -> bool {
    let base = if x1 <= x2 {
        x1
    } else {
        x2
    };
    m1 * pow2((x1 - base) as nat) <= m2 * pow2((x2 - base) as nat)
}

/// A number of `bit_length` bits lies between the two powers of two.
pub proof fn lemma_bit_length(n: nat)
    ensures
        n == 0 <==> bit_length(n) == 0,
        n > 0 ==> pow2((bit_length(n) - 1) as nat) <= n < pow2(bit_length(n)),
    decreases n,
{
    if n > 0 {
        let h = n / 2;
        lemma_bit_length(h);
        lemma_pow2_unfold(bit_length(n));
        if h == 0 {
            lemma2_to64();
        } else {
            lemma_pow2_unfold(bit_length(h));
        }
    }
}

/// The bit length is the only `l` with `2^(l-1) <= n < 2^l`.
pub proof fn lemma_bit_length_unique(n: nat, l: nat)
    requires
        l >= 1,
        pow2((l - 1) as nat) <= n < pow2(l),
    ensures
        bit_length(n) == l,
{
    lemma_pow2_pos((l - 1) as nat);
    lemma_bit_length(n);
    let b = bit_length(n);
    if b < l {
        if b < l - 1 {
            lemma_pow2_strictly_increases(b, (l - 1) as nat);
        }
    } else if b > l {
        if l < b - 1 {
            lemma_pow2_strictly_increases(l, (b - 1) as nat);
        }
    }
}

/// `2^a <= 2^b` for `a <= b`.
pub proof fn lemma_pow2_increases(a: nat, b: nat)
    requires
        a <= b,
    ensures
        pow2(a) <= pow2(b),
        pow2(a) > 0,
{
    lemma_pow2_pos(a);
    if a < b {
        lemma_pow2_strictly_increases(a, b);
    }
}

/// A rounded significand has at most fifty-three bits, or is exactly 2^53.
pub proof fn lemma_rounded_significand_bound(m: nat, x: int)
    requires
        m > 0,
    ensures
        rounded_significand(m, x) <= pow2(53),
{
    let len = bit_length(m);
    let q = last_place(m, x);
    lemma_bit_length(m);
    if q <= x {
        let up = (x - q) as nat;
        // up + len <= 53
        lemma_pow2_adds(up, len);
        lemma_pow2_increases(up + len, 53);
        lemma_pow2_pos(up);
        assert(m * pow2(up) <= pow2(len) * pow2(up)) by (nonlinear_arith)
            requires
                m < pow2(len),
                pow2(up) > 0,
        ;
        assert(pow2(len) * pow2(up) == pow2(up) * pow2(len)) by (nonlinear_arith);
    } else {
        let down = (q - x) as nat;
        let d = pow2(down);
        lemma_pow2_pos(down);
        // len <= down + 53
        lemma_pow2_adds(down, 53);
        lemma_pow2_increases(len, down + 53);
        lemma_quotient_below(m, d, pow2(53));
    }
}

/// `m < d * c` gives `m / d < c`.
pub proof fn lemma_quotient_below(m: nat, d: nat, c: nat)
    requires
        d > 0,
        m < d * c,
    ensures
        m / d < c,
        m / d + 1 <= c,
{
    lemma_fundamental_div_mod(m as int, d as int);
    let lo = (m / d) as int;
    assert(lo < c) by (nonlinear_arith)
        requires
            d > 0,
            d * lo <= m,
            m < d * c,
            lo >= 0,
    ;
}

/// Far below the last place, a magnitude rounds to nothing.
pub proof fn lemma_round_to_nothing(m: nat, down: nat)
    requires
        down > bit_length(m),
    ensures
        round_half_even(m, pow2(down)) == 0,
{
    let len = bit_length(m);
    lemma_bit_length(m);
    lemma_pow2_increases(len, (down - 1) as nat);
    lemma_pow2_unfold(down);
    let d = pow2(down);
    lemma_small_mod(m, d);
    lemma_basic_div(m as int, d as int);
}

/// 2^127, as the values of 2^63 and 2^64 give it.
pub proof fn lemma_pow2_127()
    ensures
        pow2(127) == 0x8000_0000_0000_0000_0000_0000_0000_0000,
{
    lemma2_to64();
    lemma2_to64_rest();
    lemma_pow2_adds(64, 63);
}

/// Dropping the low `j` bits of a number takes `j` off its bit length,
/// as long as something is left.
pub proof fn lemma_bit_length_drop(n: nat, j: nat)
    requires
        n >= pow2(j),
    ensures
        n / pow2(j) > 0,
        bit_length(n) == bit_length(n / pow2(j)) + j,
{
    let p = pow2(j);
    lemma_pow2_pos(j);
    let h = n / p;
    lemma_fundamental_div_mod(n as int, p as int);
    lemma_quotient_at_least(n, p, 1);
    let len = bit_length(h);
    lemma_bit_length(h);
    lemma_pow2_adds((len - 1) as nat, j);
    lemma_pow2_adds(len, j);
    assert(pow2((len - 1) as nat) * p <= p * h && p * (h + 1) <= pow2(len) * p)
        by (nonlinear_arith)
        requires
            pow2((len - 1) as nat) <= h,
            h + 1 <= pow2(len),
            p > 0,
    ;
    assert(p * (h + 1) == p * h + p) by (nonlinear_arith);
    lemma_bit_length_unique(n, len + j);
}

/// Shifting one up by `k` places gives `2^k`.
pub proof fn lemma_one_shifted(k: u128)
    requires
        k <= 127,
    ensures
        1u128 << k == pow2(k as nat),
    decreases k,
{
    if k == 0 {
        assert(1u128 << 0u128 == 1u128) by (bit_vector);
        lemma2_to64();
    } else {
        let j = (k - 1) as u128;
        lemma_one_shifted(j);
        assert(1u128 << k == 2 * (1u128 << j)) by (bit_vector)
            requires
                0 < k <= 127,
                j == k - 1,
        ;
        lemma_pow2_unfold(k as nat);
    }
}

/// The number of bits of `m`, found by halving the span that holds the
/// leading bit.
pub fn bit_length_u128(m: u128) -> (len: u32)
    ensures
        len == bit_length(m as nat),
        len <= 128,
{
    let mut len: u32 = 0;
    let mut rest: u128 = m;
    let mut span: u32 = 64;
    proof {
        lemma_pow2_127();
        lemma_pow2_unfold(128);
        lemma_bit_length(m as nat);
        if bit_length(m as nat) > 128 {
            lemma_pow2_increases(128, (bit_length(m as nat) - 1) as nat);
        }
    }
    while span > 0
        invariant
            bit_length(m as nat) <= 128,
            span == 64 || span == 32 || span == 16 || span == 8 || span == 4 || span == 2 || span
                == 1 || span == 0,
            len + 2 * span <= 128,
            span > 0 ==> rest < pow2((2 * span) as nat),
            span == 0 ==> rest < 2,
            bit_length(m as nat) == len + bit_length(rest as nat),
        decreases span,
    {
        let high: u128 = rest >> (span as u128);
        proof {
            lemma2_to64();
            vstd::bits::lemma_u128_shr_is_div(rest, span as u128);
            lemma_pow2_adds(span as nat, span as nat);
            lemma_pow2_pos(span as nat);
            if high > 0 {
                lemma_fundamental_div_mod(rest as int, pow2(span as nat) as int);
                assert(rest >= pow2(span as nat)) by (nonlinear_arith)
                    requires
                        rest == pow2(span as nat) * high + rest % (pow2(span as nat) as u128),
                        high >= 1,
                        pow2(span as nat) > 0,
                        rest % (pow2(span as nat) as u128) >= 0,
                ;
                lemma_bit_length_drop(rest as nat, span as nat);
                lemma_quotient_below(rest as nat, pow2(span as nat), pow2(span as nat));
            } else {
                lemma_quotient_at_least_converse(rest as nat, pow2(span as nat));
            }
        }
        if high > 0 {
            rest = high;
            len = len + span;
        }
        span = span / 2;
    }
    proof {
        lemma2_to64();
        assert(bit_length(1) == 1 + bit_length(0));
    }
    if rest > 0 {
        len = len + 1;
    }
    len
}

/// 2^k.
pub fn pow2_u128(k: u32) -> (p: u128)
    requires
        k <= 127,
    ensures
        p == pow2(k as nat),
{
    proof {
        lemma_one_shifted(k as u128);
    }
    1u128 << (k as u128)
}

/// Rounds `m * 2^x` units to the nearest binary64 magnitude, ties to even.
pub fn round_to_bits(m: u128, x: i32) -> (bits: u64)
    requires
        m < 0x8000_0000_0000_0000_0000_0000_0000_0000,
        -4096 <= x <= 4096,
    ensures
        bits == rounded(m as nat, x as int),
        bits <= INFINITY_BITS,
{
    if m == 0 {
        return 0;
    }
    let len: u32 = bit_length_u128(m);
    proof {
        lemma_bit_length(m as nat);
        lemma_rounded_significand_bound(m as nat, x as int);
        lemma_pow2_127();
        lemma2_to64_rest();
        if len > 127 {
            lemma_pow2_increases(127, (len - 1) as nat);
        }
    }
    let top: i32 = x + (len as i32) - 53;
    let q: i32 = if top > 0 {
        top
    } else {
        0
    };
    if q >= 2047 {
        assert(q * HIDDEN_BIT >= INFINITY_BITS) by (nonlinear_arith)
            requires
                q >= 2047,
                HIDDEN_BIT == 0x0010_0000_0000_0000,
                INFINITY_BITS == 0x7ff0_0000_0000_0000,
        ;
        return INFINITY_BITS;
    }
    let s: u64 = if q <= x {
        let p: u128 = pow2_u128((x - q) as u32);
        (m * p) as u64
    } else {
        let down: u32 = (q - x) as u32;
        if down > len {
            proof {
                lemma_round_to_nothing(m as nat, down as nat);
            }
            0
        } else {
            let d: u128 = pow2_u128(down);
            proof {
                lemma_pow2_unfold(down as nat);
                lemma_pow2_pos(down as nat);
            }
            let lo: u128 = m >> (down as u128);
            proof {
                vstd::bits::lemma_u128_shr_is_div(m, down as u128);
                lemma_fundamental_div_mod(m as int, d as int);
                assert(d * lo == lo * d) by (nonlinear_arith);
            }
            let rem: u128 = m - lo * d;
            let half: u128 = d / 2;
            if rem > half || (rem == half && lo % 2 == 1) {
                (lo + 1) as u64
            } else {
                lo as u64
            }
        }
    };
    assert(s == rounded_significand(m as nat, x as int));
    assert(q * HIDDEN_BIT + s <= 0x8000_0000_0000_0000) by (nonlinear_arith)
        requires
            0 <= q <= 2046,
            s <= 0x20_0000_0000_0000,
            HIDDEN_BIT == 0x0010_0000_0000_0000,
    ;
    let bits: u64 = (q as u64) * HIDDEN_BIT + s;
    if bits >= INFINITY_BITS {
        INFINITY_BITS
    } else {
        bits
    }
}

/// Rounding is to nearest, ties to even: below the last place the rounded
/// significand is within half a place of the exact one, and even where it
/// is exactly half a place away; at or above it nothing is lost.
pub proof fn lemma_rounding_error(m: nat, x: int)
    requires
        m > 0,
    ensures
        last_place(m, x) <= x ==> rounded_significand(m, x) == m * pow2(
            (x - last_place(m, x)) as nat,
        ),
        last_place(m, x) > x ==> {
            let d = pow2((last_place(m, x) - x) as nat);
            let r = rounded_significand(m, x);
            &&& 2 * (r * d - m) <= d
            &&& 2 * (m - r * d) <= d
            &&& (2 * (r * d - m) == d || 2 * (m - r * d) == d) ==> r % 2 == 0
        },
{
    let q = last_place(m, x);
    if q > x {
        let d = pow2((q - x) as nat);
        lemma_pow2_pos((q - x) as nat);
        lemma_fundamental_div_mod(m as int, d as int);
        let lo = m / d;
        let rem = m % d;
        let r = rounded_significand(m, x);
        assert(r * d == lo * d + (r - lo) * d) by (nonlinear_arith);
        assert(d * lo == lo * d) by (nonlinear_arith);
        if r == lo {
            assert((r - lo) * d == 0) by (nonlinear_arith)
                requires
                    r == lo,
            ;
        } else {
            assert((r - lo) * d == d) by (nonlinear_arith)
                requires
                    r == lo + 1,
            ;
        }
    }
}

/// Above the smallest scale a rounded significand is normal: its leading
/// bit is the implicit one.
pub proof fn lemma_rounded_normal(m: nat, x: int)
    requires
        m > 0,
        last_place(m, x) > 0,
    ensures
        rounded_significand(m, x) >= pow2(52),
{
    let len = bit_length(m);
    let q = last_place(m, x);
    lemma_bit_length(m);
    if q <= x {
        let up = (x - q) as nat;
        lemma_pow2_adds((len - 1) as nat, up);
        lemma_pow2_pos(up);
        assert(pow2((len - 1) as nat) * pow2(up) <= m * pow2(up)) by (nonlinear_arith)
            requires
                pow2((len - 1) as nat) <= m,
                pow2(up) > 0,
        ;
    } else {
        let down = (q - x) as nat;
        let d = pow2(down);
        lemma_pow2_pos(down);
        lemma_pow2_adds(52, down);
        lemma_quotient_at_least(m, d, pow2(52));
    }
}

/// A quotient of zero means that the dividend is below the divisor.
pub proof fn lemma_quotient_at_least_converse(m: nat, d: nat)
    requires
        d > 0,
        m / d == 0,
    ensures
        m < d,
{
    lemma_fundamental_div_mod(m as int, d as int);
    assert(d * 0 == 0);
}

/// `m >= c * d` gives `m / d >= c`.
pub proof fn lemma_quotient_at_least(m: nat, d: nat, c: nat)
    requires
        d > 0,
        m >= c * d,
    ensures
        m / d >= c,
{
    lemma_fundamental_div_mod(m as int, d as int);
    let lo = (m / d) as int;
    let rem = (m % d) as int;
    assert(lo >= c) by (nonlinear_arith)
        requires
            d > 0,
            m == d * lo + rem,
            0 <= rem < d,
            m >= c * d,
    ;
}

/// Shifting a number up by `j` places adds `j` to its bit length.
pub proof fn lemma_bit_length_shift(m: nat, j: nat)
    requires
        m > 0,
    ensures
        m * pow2(j) > 0,
        bit_length(m * pow2(j)) == bit_length(m) + j,
{
    let len = bit_length(m);
    lemma_bit_length(m);
    lemma_pow2_pos(j);
    lemma_pow2_adds((len - 1) as nat, j);
    lemma_pow2_adds(len, j);
    assert(pow2((len - 1) as nat) * pow2(j) <= m * pow2(j) < pow2(len) * pow2(j))
        by (nonlinear_arith)
        requires
            pow2((len - 1) as nat) <= m < pow2(len),
            pow2(j) > 0,
    ;
    lemma_bit_length_unique(m * pow2(j), len + j);
}

/// The rounding depends on the value alone, not on how it is written:
/// `(m * 2^j) * 2^(x - j)` rounds as `m * 2^x` does.
pub proof fn lemma_rounded_rescaled(m: nat, j: nat, x: int)
    ensures
        rounded(m * pow2(j), x - j) == rounded(m, x),
{
    let p = pow2(j);
    let big = m * p;
    lemma_pow2_pos(j);
    if m == 0 {
        assert(big == 0) by (nonlinear_arith)
            requires
                big == m * p,
                m == 0,
        ;
    } else {
        lemma_bit_length_shift(m, j);
        let q = last_place(m, x);
        assert(last_place(big, x - j) == q);
        if q <= x - j {
            let up = (x - j - q) as nat;
            lemma_pow2_adds(j, up);
            assert(big * pow2(up) == m * pow2((x - q) as nat)) by (nonlinear_arith)
                requires
                    big == m * p,
                    pow2((x - q) as nat) == p * pow2(up),
            ;
        } else if q <= x {
            let up = (x - q) as nat;
            let down = (q - (x - j)) as nat;
            let d = pow2(down);
            lemma_pow2_adds(up, down);
            lemma_pow2_pos(down);
            let keep = m * pow2(up);
            assert(big == d * keep + 0) by (nonlinear_arith)
                requires
                    big == m * p,
                    p == pow2(up) * d,
                    keep == m * pow2(up),
            ;
            lemma_fundamental_div_mod_converse(big as int, d as int, keep as int, 0);
            assert(round_half_even(big, d) == keep);
        } else {
            let d = pow2((q - x) as nat);
            let wide = pow2((q - (x - j)) as nat);
            lemma_pow2_adds(j, (q - x) as nat);
            lemma_pow2_pos((q - x) as nat);
            assert(wide == p * d);
            lemma_div_multiples_vanish_quotient(p as int, m as int, d as int);
            lemma_truncate_middle(m as int, p as int, d as int);
            assert(p * m == big) by (nonlinear_arith)
                requires
                    big == m * p,
            ;
            let rem = m % d;
            assert(big / wide == m / d);
            assert(big % wide == p * rem);
            assert(2 * (p * rem) > p * d <==> 2 * rem > d) by (nonlinear_arith)
                requires
                    p > 0,
            ;
            assert(2 * (p * rem) == p * d <==> 2 * rem == d) by (nonlinear_arith)
                requires
                    p > 0,
            ;
            assert(round_half_even(big, wide) == round_half_even(m, d));
        }
    }
}

/// With scales that are not negative, `scaled_le` compares the products.
pub proof fn lemma_scaled_le(m1: nat, x1: nat, m2: nat, x2: nat)
    ensures
        scaled_le(m1, x1 as int, m2, x2 as int) <==> m1 * pow2(x1) <= m2 * pow2(x2),
{
    let base = if x1 <= x2 {
        x1
    } else {
        x2
    };
    let p = pow2(base) as int;
    let a = (m1 * pow2((x1 - base) as nat)) as int;
    let b = (m2 * pow2((x2 - base) as nat)) as int;
    lemma_pow2_pos(base);
    lemma_pow2_adds((x1 - base) as nat, base);
    lemma_pow2_adds((x2 - base) as nat, base);
    assert(m1 * pow2(x1) == a * p) by (nonlinear_arith)
        requires
            a == m1 * pow2((x1 - base) as nat),
            pow2(x1) == pow2((x1 - base) as nat) * p,
    ;
    assert(m2 * pow2(x2) == b * p) by (nonlinear_arith)
        requires
            b == m2 * pow2((x2 - base) as nat),
            pow2(x2) == pow2((x2 - base) as nat) * p,
    ;
    assert(a <= b <==> a * p <= b * p) by (nonlinear_arith)
        requires
            p > 0,
    ;
}

/// Rounding does not pass a value that binary64 holds: what is at most
/// `s * 2^g` units, with `s` a significand of the scale `g`, rounds to at
/// most the bits that pack `g` and `s`.
pub proof fn lemma_rounded_not_above(m: nat, x: int, s: nat, g: nat)
    requires
        s < 2 * HIDDEN_BIT,
        g > 0 ==> s >= HIDDEN_BIT,
        scaled_le(m, x, s, g as int),
    ensures
        rounded(m, x) <= packed(g, s),
{
    lemma2_to64();
    lemma2_to64_rest();
    if m > 0 {
        let len = bit_length(m);
        let q = last_place(m, x);
        let r = rounded_significand(m, x);
        let base = if x <= g {
            x
        } else {
            g as int
        };
        let px = pow2((x - base) as nat);
        let pg = pow2((g - base) as nat);
        lemma_pow2_pos((x - base) as nat);
        lemma_pow2_pos((g - base) as nat);
        lemma_bit_length(m);
        lemma_rounded_significand_bound(m, x);
        if q > 0 && g < q {
            // the value reaches the binade of scale q, above all of scale g
            let low = (len - 1 + (x - base)) as nat;
            let high = (53 + (g - base)) as nat;
            lemma_pow2_adds((len - 1) as nat, (x - base) as nat);
            lemma_pow2_adds(53, (g - base) as nat);
            assert(pow2((len - 1) as nat) * px <= m * px) by (nonlinear_arith)
                requires
                    pow2((len - 1) as nat) <= m,
                    px > 0,
            ;
            assert(s * pg < pow2(53) * pg) by (nonlinear_arith)
                requires
                    s < pow2(53),
                    pg > 0,
            ;
            lemma_pow2_increases(high, low);
            assert(false);
        }
        if g > q {
            assert(q * HIDDEN_BIT + r <= g * HIDDEN_BIT + s) by (nonlinear_arith)
                requires
                    q + 1 <= g,
                    r <= 2 * HIDDEN_BIT,
                    s >= HIDDEN_BIT,
                    HIDDEN_BIT > 0,
            ;
        } else {
            assert(g == q);
            if q <= x {
                assert(pg == 1);
                assert(s * pg == s) by (nonlinear_arith)
                    requires
                        pg == 1,
                ;
            } else {
                assert(px == 1);
                assert(m * px == m) by (nonlinear_arith)
                    requires
                        px == 1,
                ;
                let d = pg;
                lemma_fundamental_div_mod(m as int, d as int);
                let lo = (m / d) as int;
                let rem = (m % d) as int;
                assert(lo < s || (lo == s && rem == 0)) by (nonlinear_arith)
                    requires
                        d > 0,
                        m == d * lo + rem,
                        0 <= rem < d,
                        m <= s * d,
                ;
            }
            assert(r <= s);
        }
    }
}

/// Rounding does not pass a value that binary64 holds: what is at least
/// `s * 2^g` units, with `s` a significand of the finite scale `g`, rounds
/// to at least the bits that pack `g` and `s`.
pub proof fn lemma_rounded_not_below(m: nat, x: int, s: nat, g: nat)
    requires
        s < 2 * HIDDEN_BIT,
        g > 0 ==> s >= HIDDEN_BIT,
        g <= 2045,
        scaled_le(s, g as int, m, x),
    ensures
        rounded(m, x) >= packed(g, s),
{
    lemma2_to64();
    lemma2_to64_rest();
    let base = if x <= g {
        x
    } else {
        g as int
    };
    let px = pow2((x - base) as nat);
    let pg = pow2((g - base) as nat);
    lemma_pow2_pos((x - base) as nat);
    lemma_pow2_pos((g - base) as nat);
    assert(packed(g, s) < INFINITY_BITS) by (nonlinear_arith)
        requires
            packed(g, s) == g * HIDDEN_BIT + s,
            g <= 2045,
            s < 2 * HIDDEN_BIT,
            HIDDEN_BIT == 0x10_0000_0000_0000,
            INFINITY_BITS == 0x7ff0_0000_0000_0000,
    ;
    if m == 0 {
        assert(m * px == 0) by (nonlinear_arith)
            requires
                m == 0,
        ;
        assert(s == 0) by (nonlinear_arith)
            requires
                s * pg <= 0,
                pg > 0,
                s >= 0,
        ;
    } else {
        let len = bit_length(m);
        let q = last_place(m, x);
        let r = rounded_significand(m, x);
        lemma_bit_length(m);
        lemma_rounded_significand_bound(m, x);
        if g > q {
            // a value of scale g lies above every value of fewer bits
            let low = (52 + (g - base)) as nat;
            let high = (len + (x - base)) as nat;
            lemma_pow2_adds(52, (g - base) as nat);
            lemma_pow2_adds(len, (x - base) as nat);
            assert(pow2(52) * pg <= s * pg) by (nonlinear_arith)
                requires
                    pow2(52) <= s,
                    pg > 0,
            ;
            assert(m * px < pow2(len) * px) by (nonlinear_arith)
                requires
                    m < pow2(len),
                    px > 0,
            ;
            lemma_pow2_increases(high, low);
            assert(false);
        }
        if g < q {
            lemma_rounded_normal(m, x);
            assert(q * HIDDEN_BIT + r >= g * HIDDEN_BIT + s) by (nonlinear_arith)
                requires
                    g + 1 <= q,
                    r >= HIDDEN_BIT,
                    s < 2 * HIDDEN_BIT,
                    HIDDEN_BIT > 0,
            ;
        } else {
            assert(g == q);
            if q <= x {
                assert(pg == 1);
                assert(s * pg == s) by (nonlinear_arith)
                    requires
                        pg == 1,
                ;
            } else {
                assert(px == 1);
                assert(m * px == m) by (nonlinear_arith)
                    requires
                        px == 1,
                ;
                lemma_quotient_at_least(m, pg, s);
            }
            assert(r >= s);
        }
    }
}

} // verus!
