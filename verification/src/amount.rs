//! Fixed-point money amounts.
//!
//! An `Amount` is an exact count of ten-thousandths of a currency unit, so
//! every value with up to four fractional decimal digits is represented
//! exactly and arithmetic never rounds.

use vstd::prelude::*;

verus! {

/// Number of `Amount` units in one whole currency unit.
pub const UNITS_PER_WHOLE: i64 = 10000;

/// An exact money amount, counted in units of 1/10000.
///
/// The abstract value of an `Amount` (its view) is the signed integer number
/// of such units.
#[derive(Clone, Copy, PartialEq, Eq, Structural, Debug)]
pub struct Amount {
    units: i64,
}

impl View for Amount {
    type V = int;

    closed spec fn view(&self) -> int {
        self.units as int
    }
}

impl Amount {
    /// The amount of `units` ten-thousandths of a currency unit.
    pub fn from_units(units: i64) -> (r: Amount)
        ensures
            r@ == units as int,
    {
        Amount { units }
    }

    /// The number of ten-thousandths of a currency unit this amount holds.
    pub fn units(&self) -> (r: i64)
        ensures
            r as int == self@,
    {
        self.units
    }
}

} // verus!
