//! The rectangle of the plane to render, its sampling step, and the grid
//! dimensions that follow from them.

use vstd::prelude::*;
use crate::double::Double;

verus! {

/// A rectangle of the complex plane and the distance between samples.
#[derive(Clone, Copy, Debug, PartialEq, Eq, Structural)]
pub struct Region {
    pub x_min: Double,
    pub x_max: Double,
    pub y_min: Double,
    pub y_max: Double,
    pub step: Double,
}

/// Why a region cannot be rendered: the parameter that is at fault.
#[derive(Clone, Copy, Debug, PartialEq, Eq, Structural)]
pub enum InvalidRegion {
    /// The step is not greater than zero.
    Step,
    /// The right bound is not greater than the left one.
    Horizontal,
    /// The lower bound is not greater than the upper one.
    Vertical,
    /// The region is narrower than one step.
    NoColumns,
    /// The region is lower than one step.
    NoRows,
}

/// The number of samples along one axis: the floor of `(max - min) / step`,
/// the difference and the quotient each rounded, held to the range of `u32`.
pub open spec fn extent(min: Double, max: Double, step: Double) -> nat {
    let f = max.minus(min).over(step).floor();
    if f > u32::MAX {
        u32::MAX as nat
    } else {
        f
    }
}

impl Region {
    /// The step is positive and each maximum is above its minimum.
    pub open spec fn ordered(self) -> bool {
        &&& (Double { bits: 0 }).less_than(self.step)
        &&& self.x_min.less_than(self.x_max)
        &&& self.y_min.less_than(self.y_max)
    }

    /// The width of the grid.
    pub open spec fn columns(self) -> nat {
        extent(self.x_min, self.x_max, self.step)
    }

    /// The height of the grid.
    pub open spec fn rows(self) -> nat {
        extent(self.y_min, self.y_max, self.step)
    }

    /// The first thing wrong with the region, if anything is: the step,
    /// then the horizontal bounds, then the vertical ones, then an empty
    /// grid.
    pub open spec fn fault(self) -> Option<InvalidRegion> {
        if !(Double { bits: 0 }).less_than(self.step) {
            Some(InvalidRegion::Step)
        } else if !self.x_min.less_than(self.x_max) {
            Some(InvalidRegion::Horizontal)
        } else if !self.y_min.less_than(self.y_max) {
            Some(InvalidRegion::Vertical)
        } else if self.columns() == 0 {
            Some(InvalidRegion::NoColumns)
        } else if self.rows() == 0 {
            Some(InvalidRegion::NoRows)
        } else {
            None
        }
    }

    /// The region with the given bounds and step, if nothing is wrong
    /// with it.
    pub fn new(x_min: Double, x_max: Double, y_min: Double, y_max: Double, step: Double) -> (r:
        Result<Region, InvalidRegion>)
        ensures
            match r {
                Ok(region) => region == (Region { x_min, x_max, y_min, y_max, step })
                    && region.fault().is_none(),
                Err(e) => (Region { x_min, x_max, y_min, y_max, step }).fault() == Some(e),
            },
    {
        let region: Region = Region { x_min, x_max, y_min, y_max, step };
        match region.dimensions() {
            Ok(_) => Ok(region),
            Err(e) => Err(e),
        }
    }

    /// Width and height of the grid, or what is wrong with the region.
    pub fn dimensions(&self) -> (r: Result<(u32, u32), InvalidRegion>)
        ensures
            match r {
                Ok((w, h)) => self.fault().is_none() && w == self.columns() && h == self.rows()
                    && w > 0 && h > 0,
                Err(e) => self.fault() == Some(e),
            },
    {
        let zero: Double = Double { bits: 0 };
        if !zero.lt(self.step) {
            return Err(InvalidRegion::Step);
        }
        if !self.x_min.lt(self.x_max) {
            return Err(InvalidRegion::Horizontal);
        }
        if !self.y_min.lt(self.y_max) {
            return Err(InvalidRegion::Vertical);
        }
        let w: u32 = axis_length(self.x_min, self.x_max, self.step);
        if w == 0 {
            return Err(InvalidRegion::NoColumns);
        }
        let h: u32 = axis_length(self.y_min, self.y_max, self.step);
        if h == 0 {
            return Err(InvalidRegion::NoRows);
        }
        Ok((w, h))
    }
}

/// The number of samples along one axis.
pub fn axis_length(min: Double, max: Double, step: Double) -> (n: u32)
    ensures
        n == extent(min, max, step),
{
    max.difference(min).quotient(step).floor_u32()
}

/// A region is at fault when its step is zero or below, when its right
/// bound is not above the left one, or when its lower bound is not above
/// the upper one; rendering then fails with the first of these.
pub proof fn lemma_invalid_region(region: Region)
    requires
        region.step.at_most(Double { bits: 0 }) || region.x_max.at_most(region.x_min)
            || region.y_max.at_most(region.y_min),
    ensures
        region.fault().is_some(),
        region.step.at_most(Double { bits: 0 }) ==> region.fault() == Some(InvalidRegion::Step),
        (Double { bits: 0 }).less_than(region.step) && region.x_max.at_most(region.x_min)
            ==> region.fault() == Some(InvalidRegion::Horizontal),
        (Double { bits: 0 }).less_than(region.step) && region.x_min.less_than(region.x_max)
            && region.y_max.at_most(region.y_min) ==> region.fault() == Some(
            InvalidRegion::Vertical,
        ),
{
}

/// A region without fault is ordered and has at least one column and one
/// row.
pub proof fn lemma_sound_region(region: Region)
    requires
        region.fault().is_none(),
    ensures
        region.ordered(),
        region.columns() > 0,
        region.rows() > 0,
{
}

} // verus!
