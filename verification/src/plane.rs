//! Points of the complex plane, the axis mapping from pixel indices, and
//! the escape-time evaluator.

use vstd::prelude::*;
use vstd::arithmetic::power2::{lemma2_to64, pow2};
use crate::arith::{
    lemma_rounded_exact, lemma_signed_magnitude, lemma_whole_exact, lemma_zero_product,
    lemma_zero_sum,
};
use crate::double::{lemma_units_bounds, lemma_units_order, Double};

verus! {

/// The pattern of 4.0, the square of the escape radius.
pub const FOUR_BITS: u64 = 0x4010_0000_0000_0000;

/// A point of the complex plane.
#[derive(Clone, Copy, Debug, PartialEq, Eq, Structural)]
pub struct PlanePoint {
    pub re: Double,
    pub im: Double,
}

impl PlanePoint {
    /// The squared magnitude `re^2 + im^2`, each operation rounded.
    pub open spec fn norm_sqr(self) -> Double {
        self.re.times(self.re).plus(self.im.times(self.im))
    }

    /// Whether the point lies strictly inside the escape radius: its squared
    /// magnitude is less than four.
    pub open spec fn bounded(self) -> bool {
        self.norm_sqr().less_than(Double { bits: FOUR_BITS })
    }

    /// The next point of the orbit of `c`: `self^2 + c`, the square taken as
    /// `(re*re - im*im, re*im + im*re)` and each operation rounded.
    pub open spec fn advanced(self, c: PlanePoint) -> PlanePoint {
        PlanePoint {
            re: self.re.times(self.re).minus(self.im.times(self.im)).plus(c.re),
            im: self.re.times(self.im).plus(self.im.times(self.re)).plus(c.im),
        }
    }

    /// Both parts are zero, of either sign.
    pub open spec fn is_origin(self) -> bool {
        self.re.is_zero() && self.im.is_zero()
    }

    /// Whether the squared magnitude is less than four.
    pub fn is_bounded(self) -> (r: bool)
        ensures
            r == self.bounded(),
    {
        let n: Double = self.re.product(self.re).sum(self.im.product(self.im));
        n.lt(Double { bits: FOUR_BITS })
    }

    /// The next point of the orbit of `c`.
    pub fn advance(self, c: PlanePoint) -> (z: PlanePoint)
        ensures
            z == self.advanced(c),
    {
        let re: Double = self.re.product(self.re).difference(self.im.product(self.im)).sum(c.re);
        let im: Double = self.re.product(self.im).sum(self.im.product(self.re)).sum(c.im);
        PlanePoint { re, im }
    }
}

/// The plane coordinate of a pixel index along one axis:
/// `axis_min + step * index`, the product and the sum each rounded.
pub open spec fn coordinate(index: nat, axis_min: Double, step: Double) -> Double {
    axis_min.plus(step.times(Double::whole(index)))
}

/// The `n`-th point of the orbit of `c`, which starts at `c` itself.
pub open spec fn orbit(c: PlanePoint, n: nat) -> PlanePoint
    decreases n,
{
    if n == 0 {
        c
    } else {
        orbit(c, (n - 1) as nat).advanced(c)
    }
}

/// The iterations still to come from the point `z`, reached after `done`
/// iterations, added to `done`.
pub open spec fn depth_from(c: PlanePoint, z: PlanePoint, done: nat, cap: nat) -> nat
    decreases cap - done,
{
    if done < cap && z.bounded() {
        depth_from(c, z.advanced(c), done + 1, cap)
    } else {
        done
    }
}

/// The number of iterations performed on the orbit of `c` while it stays
/// inside the escape radius, at most `cap`.
pub open spec fn escape_depth(c: PlanePoint, cap: nat) -> nat {
    depth_from(c, c, 0, cap)
}

/// Maps a pixel index to its coordinate on one axis.
pub fn map_coordinate(index: u32, axis_min: Double, step: Double) -> (x: Double)
    ensures
        x == coordinate(index as nat, axis_min, step),
{
    axis_min.sum(step.product(Double::from_u32(index)))
}

/// Counts the iterations of `z -> z^2 + c`, from `z = c`, for which the
/// squared magnitude stays below four, stopping at `max_iterations`.
pub fn escape_time(c: PlanePoint, max_iterations: u32) -> (depth: u32)
    ensures
        depth == escape_depth(c, max_iterations as nat),
        depth <= max_iterations,
{
    let mut done: u32 = 0;
    let mut z: PlanePoint = c;
    loop
        invariant
            done <= max_iterations,
            depth_from(c, z, done as nat, max_iterations as nat) == escape_depth(
                c,
                max_iterations as nat,
            ),
        ensures
            done <= max_iterations,
            done == escape_depth(c, max_iterations as nat),
        decreases max_iterations - done,
    {
        if done >= max_iterations {
            break;
        }
        if !z.is_bounded() {
            break;
        }
        z = z.advance(c);
        done = done + 1;
    }
    done
}

/// A point whose squared magnitude is not below four performs no
/// iteration: the first test of the loop already fails.
pub proof fn lemma_escapes_at_once(c: PlanePoint, cap: nat)
    requires
        !c.bounded(),
    ensures
        escape_depth(c, cap) == 0,
{
}

/// With an iteration cap of zero no iteration is performed.
pub proof fn lemma_zero_cap(c: PlanePoint)
    ensures
        escape_depth(c, 0) == 0,
{
}

/// The origin never escapes: its escape time is the cap, whatever the cap
/// and whatever the signs of its two zeros.
pub proof fn lemma_origin_never_escapes(c: PlanePoint, cap: nat)
    requires
        c.is_origin(),
    ensures
        escape_depth(c, cap) == cap,
{
    lemma_depth_at_origin(c, c, 0, cap);
}

/// The escape depth is the first index at which the orbit is outside the
/// escape radius, or the cap where there is none below it.
pub proof fn lemma_escape_depth_is_first_exit(c: PlanePoint, cap: nat)
    ensures
        escape_depth(c, cap) <= cap,
        forall|j: nat| j < escape_depth(c, cap) ==> (#[trigger] orbit(c, j)).bounded(),
        escape_depth(c, cap) < cap ==> !orbit(c, escape_depth(c, cap)).bounded(),
{
    lemma_depth_from_orbit(c, 0, cap);
}

/// The first pixel of an axis sits on the axis minimum: the coordinate of
/// index zero has the value of `axis_min`, and its very pattern unless
/// `axis_min` is a zero.
pub proof fn lemma_coordinate_of_zero(axis_min: Double, step: Double)
    requires
        !axis_min.is_nan(),
        step.is_finite(),
    ensures
        coordinate(0, axis_min, step).same_value(axis_min),
        !axis_min.is_zero() ==> coordinate(0, axis_min, step) == axis_min,
{
    lemma2_to64();
    lemma_whole_exact(0);
    let zero = Double::whole(0);
    assert(zero.bits == 0);
    let offset = step.times(zero);
    assert(zero.significand() == 0);
    assert(step.significand() * zero.significand() == 0) by (nonlinear_arith)
        requires
            zero.significand() == 0,
    ;
    assert(offset.is_zero());
    assert(offset.significand() == 0);
    assert(offset.scale() == 0);
    assert(offset.aligned(0) == 0) by (nonlinear_arith)
        requires
            offset.significand() == 0,
            offset.aligned(0) == if offset.is_negative() {
                -((offset.significand() * pow2((offset.scale() - 0) as nat)) as int)
            } else {
                (offset.significand() * pow2((offset.scale() - 0) as nat)) as int
            },
    ;
    lemma_units_bounds(axis_min);
    lemma_units_order(axis_min, axis_min);
    let r = axis_min.plus(offset);
    if axis_min.is_zero() {
        assert(axis_min.significand() == 0);
        assert(axis_min.aligned(0) == 0) by (nonlinear_arith)
            requires
                axis_min.significand() == 0,
                axis_min.aligned(0) == if axis_min.is_negative() {
                    -((axis_min.significand() * pow2((axis_min.scale() - 0) as nat)) as int)
                } else {
                    (axis_min.significand() * pow2((axis_min.scale() - 0) as nat)) as int
                },
        ;
        assert(r.is_zero());
        lemma_units_order(r, r);
    } else if axis_min.is_infinite() {
        assert(r == axis_min);
    } else {
        lemma_rounded_exact(axis_min.significand(), axis_min.scale());
        lemma_signed_magnitude(axis_min);
        assert(axis_min.units() > 0);
        assert(r == axis_min);
    }
}

/// At the origin the orbit is inside the escape radius and stays at the
/// origin.
proof fn lemma_origin_stays(z: PlanePoint, c: PlanePoint)
    requires
        z.is_origin(),
        c.is_origin(),
    ensures
        z.bounded(),
        z.advanced(c).is_origin(),
{
    lemma_zero_product(z.re, z.re);
    lemma_zero_product(z.im, z.im);
    lemma_zero_product(z.re, z.im);
    lemma_zero_product(z.im, z.re);
    lemma_zero_sum(z.re.times(z.re), z.im.times(z.im));
    lemma_zero_sum(z.re.times(z.re), z.im.times(z.im).negated());
    lemma_zero_sum(z.re.times(z.re).minus(z.im.times(z.im)), c.re);
    lemma_zero_sum(z.re.times(z.im), z.im.times(z.re));
    lemma_zero_sum(z.re.times(z.im).plus(z.im.times(z.re)), c.im);
    let four = Double { bits: FOUR_BITS };
    lemma_units_order(z.norm_sqr(), four);
    lemma_units_order(four, four);
}

/// From the origin, every iteration up to the cap is performed.
proof fn lemma_depth_at_origin(c: PlanePoint, z: PlanePoint, done: nat, cap: nat)
    requires
        c.is_origin(),
        z.is_origin(),
        done <= cap,
    ensures
        depth_from(c, z, done, cap) == cap,
    decreases cap - done,
{
    lemma_origin_stays(z, c);
    if done < cap {
        lemma_depth_at_origin(c, z.advanced(c), done + 1, cap);
    }
}

/// Counting on from the `done`-th point of the orbit stops at the first
/// point outside the escape radius.
proof fn lemma_depth_from_orbit(c: PlanePoint, done: nat, cap: nat)
    requires
        done <= cap,
    ensures
        done <= depth_from(c, orbit(c, done), done, cap) <= cap,
        forall|j: nat|
            done <= j < depth_from(c, orbit(c, done), done, cap) ==> (#[trigger] orbit(
                c,
                j,
            )).bounded(),
        depth_from(c, orbit(c, done), done, cap) < cap ==> !orbit(
            c,
            depth_from(c, orbit(c, done), done, cap),
        ).bounded(),
    decreases cap - done,
{
    if done < cap && orbit(c, done).bounded() {
        assert(orbit(c, done + 1) == orbit(c, done).advanced(c));
        lemma_depth_from_orbit(c, done + 1, cap);
    }
}

} // verus!
