//! Exact rational results for the averaging queries.

use vstd::prelude::*;

verus! {

/// An exact non-negative rational number: `num / den`, with `den >= 1`.
///
/// Every averaging query of the library returns its result in this form
/// instead of a floating-point approximation, so contracts can pin the
/// value down exactly.  Queries over empty data return `Ratio::zero()`
/// (`0 / 1`) rather than dividing by zero.
#[derive(Clone, Copy, PartialEq, Eq, Structural, Debug)]
pub struct Ratio {
    pub num: u128,
    pub den: u128,
}

impl Ratio {
    /// A ratio is well formed when its denominator is nonzero.
    pub open spec fn wf(self) -> bool {
        self.den >= 1
    }

    /// The defined default for queries over empty data: exactly zero.
    pub fn zero() -> (r: Ratio)
        ensures
            r == (Ratio { num: 0u128, den: 1u128 }),
    {
        Ratio { num: 0, den: 1 }
    }

    /// Builds `num / den`, substituting `0 / 1` when the denominator
    /// would be zero, mirroring the "empty data yields zero" policy.
    pub fn make(num: u128, den: u128) -> (r: Ratio)
        ensures
            r == spec_make(num as int, den as int),
            r.wf(),
    {
        if den == 0 {
            Ratio { num: 0, den: 1 }
        } else {
            Ratio { num, den }
        }
    }
}

/// Specification twin of [`Ratio::make`]: `num / den`, or exact zero
/// when the denominator is zero.
pub open spec fn spec_make(num: int, den: int) -> Ratio {
    if den == 0 {
        Ratio { num: 0u128, den: 1u128 }
    } else {
        Ratio { num: num as u128, den: den as u128 }
    }
}

} // verus!
