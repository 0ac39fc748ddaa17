//! The cyclic colour table: three sinusoids a third of a turn apart, one
//! per colour channel.
//!
//! The sine itself is taken by the caller. This module fixes the angles at
//! which it is taken and turns each sine into a channel level.

use vstd::prelude::*;
use vstd::arithmetic::div_mod::{lemma_div_by_multiple, lemma_div_is_ordered};
use vstd::arithmetic::power2::{
    lemma2_to64, lemma2_to64_rest, lemma_pow2_adds, lemma_pow2_pos, lemma_pow2_unfold, pow2,
};
use crate::arith::signed;
use crate::double::{lemma_units_bounds, lemma_units_order, Double, HIDDEN_BIT};
use crate::rounding::{
    lemma_pow2_increases, lemma_rounded_not_above, lemma_rounded_not_below, lemma_scaled_le,
    packed, rounded, scaled_le,
};

verus! {

/// The pattern of pi, as binary64 rounds it.
pub const PI_BITS: u64 = 0x4009_21fb_5444_2d18;

/// The pattern of 2.0.
pub const TWO_BITS: u64 = 0x4000_0000_0000_0000;

/// The pattern of 3.0.
pub const THREE_BITS: u64 = 0x4008_0000_0000_0000;

/// The pattern of 127.0, the amplitude of a channel.
pub const AMPLITUDE_BITS: u64 = 0x405f_c000_0000_0000;

/// The pattern of 128.0, the level a channel swings about.
pub const MIDLEVEL_BITS: u64 = 0x4060_0000_0000_0000;

/// One pixel: four 8-bit channels.
#[derive(Clone, Copy, Debug, PartialEq, Eq, Structural)]
pub struct Color {
    pub red: u8,
    pub green: u8,
    pub blue: u8,
    pub alpha: u8,
}

/// The three phases of the palette, in thirds of a turn.
#[derive(Clone, Copy, Debug, PartialEq, Eq, Structural)]
pub enum Phase {
    Zero,
    Third,
    TwoThirds,
}

/// One value for each of the three phases.
#[derive(Clone, Copy, Debug, PartialEq, Eq, Structural)]
pub struct PhaseTriple {
    pub zero: Double,
    pub third: Double,
    pub two_thirds: Double,
}

/// An ordered table of colours, indexed by escape depth.
#[derive(Debug)]
pub struct Palette {
    pub colors: Vec<Color>,
}

impl View for Palette {
    type V = Seq<Color>;

    open spec fn view(&self) -> Seq<Color> {
        self.colors@
    }
}

impl Phase {
    /// The number of thirds of a turn.
    pub open spec fn thirds(self) -> nat {
        match self {
            Phase::Zero => 0,
            Phase::Third => 1,
            Phase::TwoThirds => 2,
        }
    }

    /// The phase as an angle: `thirds * pi * 2 / 3`, each operation rounded.
    pub open spec fn offset(self) -> Double {
        Double::whole(self.thirds()).times(Double { bits: PI_BITS }).times(
            Double { bits: TWO_BITS },
        ).over(Double { bits: THREE_BITS })
    }
}

/// The angle of palette entry `index` out of `count` at a phase:
/// `pi / count * 2 * index + offset`, each operation rounded.
pub open spec fn phase_angle(count: nat, index: nat, phase: Phase) -> Double {
    (Double { bits: PI_BITS }).over(Double::whole(count)).times(Double { bits: TWO_BITS }).times(
        Double::whole(index),
    ).plus(phase.offset())
}

/// The three angles of palette entry `index` out of `count`.
pub open spec fn phase_angles(count: nat, index: nat) -> PhaseTriple {
    PhaseTriple {
        zero: phase_angle(count, index, Phase::Zero),
        third: phase_angle(count, index, Phase::Third),
        two_thirds: phase_angle(count, index, Phase::TwoThirds),
    }
}

/// The level of a channel whose sinusoid stands at `sine`:
/// the floor of `sine * 127 + 128`, held to the range of a byte.
pub open spec fn level(sine: Double) -> nat {
    let raised = sine.times(Double { bits: AMPLITUDE_BITS }).plus(Double { bits: MIDLEVEL_BITS });
    if raised.floor() > 255 {
        255
    } else {
        raised.floor()
    }
}

/// The colour of a palette entry whose three sinusoids stand at `sines`:
/// blue follows phase zero, red the phase a third of a turn on, green the
/// phase two thirds on. Every entry is opaque.
pub open spec fn shade(sines: PhaseTriple) -> Color {
    Color {
        red: level(sines.third) as u8,
        green: level(sines.two_thirds) as u8,
        blue: level(sines.zero) as u8,
        alpha: 255,
    }
}

/// The colour of points whose orbit never leaves the escape radius:
/// opaque black.
pub open spec fn interior_color() -> Color {
    Color { red: 0, green: 0, blue: 0, alpha: 255 }
}

/// Opaque black.
pub fn interior() -> (c: Color)
    ensures
        c == interior_color(),
{
    Color { red: 0, green: 0, blue: 0, alpha: 255 }
}

/// The angle at which the sine of one channel of one palette entry is taken.
pub fn angle(count: u32, index: u32, phase: Phase) -> (a: Double)
    ensures
        a == phase_angle(count as nat, index as nat, phase),
{
    let pi: Double = Double { bits: PI_BITS };
    let two: Double = Double { bits: TWO_BITS };
    let three: Double = Double { bits: THREE_BITS };
    let thirds: u32 = match phase {
        Phase::Zero => 0,
        Phase::Third => 1,
        Phase::TwoThirds => 2,
    };
    let offset: Double = Double::from_u32(thirds).product(pi).product(two).quotient(three);
    pi.quotient(Double::from_u32(count)).product(two).product(Double::from_u32(index)).sum(offset)
}

/// The three angles of one palette entry.
pub fn angles(count: u32, index: u32) -> (a: PhaseTriple)
    ensures
        a == phase_angles(count as nat, index as nat),
{
    PhaseTriple {
        zero: angle(count, index, Phase::Zero),
        third: angle(count, index, Phase::Third),
        two_thirds: angle(count, index, Phase::TwoThirds),
    }
}

/// The angles of a whole palette of `count` entries: the three angles of
/// each index from zero up, in order.
pub fn palette_angles(count: u32) -> (a: Vec<PhaseTriple>)
    ensures
        a@.len() == count,
        forall|i: int|
            0 <= i < count ==> #[trigger] a@[i] == phase_angles(count as nat, i as nat),
{
    let mut all: Vec<PhaseTriple> = Vec::new();
    let mut index: u32 = 0;
    while index < count
        invariant
            index <= count,
            all@.len() == index,
            forall|i: int|
                0 <= i < index ==> #[trigger] all@[i] == phase_angles(count as nat, i as nat),
        decreases count - index,
    {
        all.push(angles(count, index));
        index = index + 1;
    }
    all
}

/// The channel level for a sine: `floor(sine * 127 + 128)` as a byte,
/// without wraparound.
pub fn channel_level(sine: Double) -> (l: u8)
    ensures
        l == level(sine),
{
    let raised: Double = sine.product(Double { bits: AMPLITUDE_BITS }).sum(
        Double { bits: MIDLEVEL_BITS },
    );
    let f: u32 = raised.floor_u32();
    if f > 255 {
        255
    } else {
        f as u8
    }
}

/// The colour of one palette entry, from the sines at its three angles.
pub fn entry_color(sines: PhaseTriple) -> (c: Color)
    ensures
        c == shade(sines),
{
    Color {
        red: channel_level(sines.third),
        green: channel_level(sines.two_thirds),
        blue: channel_level(sines.zero),
        alpha: 255,
    }
}

/// The colours of a whole table of sines, entry by entry.
pub open spec fn shades(sines: Seq<PhaseTriple>) -> Seq<Color> {
    Seq::new(sines.len(), |i: int| shade(sines[i]))
}

/// Builds the palette from the sines of its entries: one colour for each
/// triple, in order.
pub fn build_palette(sines: &Vec<PhaseTriple>) -> (palette: Palette)
    ensures
        palette@ == shades(sines@),
        palette@.len() == sines@.len(),
{
    let mut colors: Vec<Color> = Vec::new();
    let mut i: usize = 0;
    while i < sines.len()
        invariant
            i <= sines@.len(),
            colors@.len() == i,
            forall|j: int| 0 <= j < i ==> colors@[j] == shade(#[trigger] sines@[j]),
        decreases sines@.len() - i,
    {
        colors.push(entry_color(sines[i]));
        i = i + 1;
    }
    assert(colors@ =~= shades(sines@));
    Palette { colors }
}

impl Palette {
    /// The number of entries.
    pub fn len(&self) -> (n: usize)
        ensures
            n == self@.len(),
    {
        self.colors.len()
    }

    /// The colour for an escape depth, if the table reaches that far.
    pub fn color(&self, depth: usize) -> (c: Option<Color>)
        ensures
            depth < self@.len() ==> c == Some(self@[depth as int]),
            depth >= self@.len() ==> c.is_none(),
    {
        if depth < self.colors.len() {
            Some(self.colors[depth])
        } else {
            None
        }
    }
}

/// The pattern of 1.0.
pub const ONE_BITS: u64 = 0x3ff0_0000_0000_0000;

/// The pattern of 255.0, the highest level.
pub const TOP_BITS: u64 = 0x406f_e000_0000_0000;

/// A palette has one entry for each triple of sines, and every entry is
/// opaque.
pub proof fn lemma_palette_is_opaque(sines: Seq<PhaseTriple>, i: int)
    requires
        0 <= i < sines.len(),
    ensures
        shades(sines).len() == sines.len(),
        shades(sines)[i].alpha == 255,
{
}

/// A level is a byte, whatever the sine.
pub proof fn lemma_level_is_byte(sine: Double)
    ensures
        level(sine) <= 255,
{
}

/// The sine of any angle gives a level from 1 to 255: for a value between
/// -1 and 1, `sine * 127 + 128` stays between 1 and 255 through both
/// roundings.
pub proof fn lemma_level_of_sine(sine: Double)
    requires
        !sine.is_nan(),
        sine.magnitude() <= ONE_BITS,
    ensures
        1 <= level(sine) <= 255,
{
    let one = Double { bits: ONE_BITS };
    let amplitude = Double { bits: AMPLITUDE_BITS };
    let mid = Double { bits: MIDLEVEL_BITS };
    let top = Double { bits: TOP_BITS };
    let unit = pow2(1074);
    lemma2_to64();
    lemma2_to64_rest();
    lemma_pow2_pos(1074);
    // the constants, read out of their patterns
    assert(one.significand() == 0x10_0000_0000_0000 && one.scale() == 1022);
    assert(amplitude.significand() == 0x1f_c000_0000_0000 && amplitude.scale() == 1028);
    assert(mid.significand() == 0x10_0000_0000_0000 && mid.scale() == 1029);
    assert(top.significand() == 0x1f_e000_0000_0000 && top.scale() == 1029);
    lemma_pow2_adds(52, 1022);
    lemma_pow2_adds(46, 1028);
    lemma_pow2_adds(52, 1029);
    lemma_pow2_adds(45, 1029);
    lemma_pow2_adds(7, 1074);
    assert(one.units() == unit);
    assert(amplitude.units() == 127 * unit) by (nonlinear_arith)
        requires
            amplitude.units() == 0x1f_c000_0000_0000 * pow2(1028),
            unit == 0x4000_0000_0000 * pow2(1028),
    ;
    assert(mid.units() == 128 * unit) by (nonlinear_arith)
        requires
            mid.units() == 0x10_0000_0000_0000 * pow2(1029),
            pow2(1081) == 0x10_0000_0000_0000 * pow2(1029),
            pow2(1081) == 0x80 * unit,
    ;
    assert(top.units() == 255 * unit) by (nonlinear_arith)
        requires
            top.units() == 0x1f_e000_0000_0000 * pow2(1029),
            unit == 0x2000_0000_0000 * pow2(1029),
    ;
    // sine * 127 is at most 127 in magnitude
    lemma_units_bounds(sine);
    lemma_units_order(sine, one);
    let ks = sine.scale();
    let ss = sine.significand();
    assert(ks <= 1022) by {
        if ks > 1022 {
            lemma_pow2_increases(1023, ks);
            lemma_pow2_adds(52, 1023);
            lemma_pow2_unfold(1075);
            assert(HIDDEN_BIT * pow2(1023) <= HIDDEN_BIT * pow2(ks)) by (nonlinear_arith)
                requires
                    pow2(1023) <= pow2(ks),
            ;
        }
    }
    let product = sine.times(amplitude);
    let m = ss * amplitude.significand();
    assert(product.magnitude() == rounded(m, ks - 46));
    assert(rounded(m, ks - 46) <= packed(1028, amplitude.significand())) by {
        let rest = (1074 - ks) as nat;
        lemma_pow2_adds(rest, ks);
        lemma_pow2_pos(ks);
        lemma_pow2_pos(rest);
        assert(ss <= pow2(rest)) by (nonlinear_arith)
            requires
                ss * pow2(ks) <= pow2(rest) * pow2(ks),
                pow2(ks) > 0,
        ;
        assert(m * pow2(0) <= amplitude.significand() * pow2(rest)) by (nonlinear_arith)
            requires
                m == ss * amplitude.significand(),
                ss <= pow2(rest),
                pow2(0) == 1,
        ;
        assert(scaled_le(m, ks - 46, amplitude.significand(), 1028));
        lemma_rounded_not_above(m, ks - 46, amplitude.significand(), 1028);
    }
    lemma_units_bounds(amplitude);
    assert(product.magnitude() <= amplitude.magnitude());
    assert(!product.is_nan());
    assert(product.is_finite());
    lemma_units_order(product, amplitude);
    lemma_units_bounds(product);
    let kp = product.scale();
    let sp = product.significand();
    assert(kp <= 1028) by {
        if kp > 1028 {
            assert(product.exponent_field() > amplitude.exponent_field());
            assert(product.magnitude() > amplitude.magnitude());
        }
    }
    // adding 128 gives a value from 1 to 255
    let raised = product.plus(mid);
    let gap = (1029 - kp) as nat;
    lemma_pow2_adds(gap, kp);
    lemma_pow2_pos(kp);
    lemma_pow2_pos(gap);
    assert(sp * pow2(0) == sp) by (nonlinear_arith)
        requires
            pow2(0) == 1,
    ;
    let lift = mid.significand() * pow2(gap);
    assert(lift * pow2(kp) == 128 * unit) by (nonlinear_arith)
        requires
            lift == mid.significand() * pow2(gap),
            pow2(1029) == pow2(gap) * pow2(kp),
            mid.units() == mid.significand() * pow2(1029),
            mid.units() == 128 * unit,
    ;
    assert(sp * pow2(kp) <= 127 * unit);
    let total: int = product.aligned(kp) + mid.aligned(kp);
    assert(mid.aligned(kp) == lift);
    assert(product.aligned(kp) == if product.is_negative() {
        -(sp as int)
    } else {
        sp as int
    });
    assert(total * pow2(kp) == lift * pow2(kp) + product.aligned(kp) * pow2(kp))
        by (nonlinear_arith)
        requires
            total == product.aligned(kp) + lift,
    ;
    assert(product.aligned(kp) * pow2(kp) == if product.is_negative() {
        -(sp * pow2(kp))
    } else {
        (sp * pow2(kp)) as int
    }) by (nonlinear_arith)
        requires
            product.aligned(kp) == if product.is_negative() {
                -(sp as int)
            } else {
                sp as int
            },
    ;
    assert(unit <= total * pow2(kp) <= 255 * unit);
    assert(total > 0) by (nonlinear_arith)
        requires
            total * pow2(kp) >= unit,
            unit > 0,
            pow2(kp) > 0,
    ;
    let sum = total as nat;
    assert(raised == signed(false, rounded(sum, kp as int)));
    lemma_scaled_le(one.significand(), 1022, sum, kp);
    lemma_rounded_not_below(sum, kp as int, one.significand(), 1022);
    lemma_scaled_le(sum, kp, top.significand(), 1029);
    lemma_rounded_not_above(sum, kp as int, top.significand(), 1029);
    lemma_units_bounds(one);
    lemma_units_bounds(top);
    assert(ONE_BITS <= rounded(sum, kp as int) <= TOP_BITS);
    assert(raised.magnitude() == rounded(sum, kp as int));
    assert(!raised.is_negative());
    assert(!raised.is_nan());
    lemma_units_order(one, raised);
    lemma_units_order(raised, top);
    assert(unit <= raised.units() <= 255 * unit);
    // and so its floor
    lemma_div_is_ordered(unit as int, raised.units() as int, unit as int);
    lemma_div_is_ordered(raised.units() as int, (255 * unit) as int, unit as int);
    lemma_div_by_multiple(1, unit as int);
    lemma_div_by_multiple(255, unit as int);
    assert(1 * unit == unit) by (nonlinear_arith);
    assert(1 <= raised.floor() <= 255);
}

} // verus!
