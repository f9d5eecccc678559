//! Exact fractions for pro-rating expected hours.
//!
//! The pacing calculation produces the fraction of a period's expected hours
//! that should have accrued by "now".  It is kept as an exact ratio of two
//! integers (denominator at least 1) so that rounding happens once, when a
//! per-bucket duration is derived from it.

use vstd::prelude::*;

verus! {

/// Largest numerator magnitude a well-formed pacing fraction may carry.
pub const FRAC_NUM_LIMIT: i128 = 1_000_000_000_000_000_000_000_000_000;

/// Largest denominator a well-formed pacing fraction may carry.
pub const FRAC_DEN_LIMIT: i128 = 1_000_000_000_000_000_000_000_000_000;

/// Largest numerator magnitude accepted by the rounding routine.
pub const ROUND_NUM_LIMIT: i128 = 1_000_000_000_000_000_000_000_000_000_000_000_000;

/// An exact ratio `num / den` with `den >= 1`.
#[derive(Clone, Copy, Debug, PartialEq, Eq, Structural)]
pub struct Fraction {
    pub num: i128,
    pub den: i128,
}

impl Fraction {
    /// The denominator is positive and both components are within the
    /// supported magnitude limits.
    pub open spec fn wf(self) -> bool {
        &&& 1 <= self.den <= FRAC_DEN_LIMIT
        &&& -FRAC_NUM_LIMIT <= self.num <= FRAC_NUM_LIMIT
    }

    /// The fraction representing zero.
    pub fn zero() -> (r: Fraction)
        ensures
            r.num == 0,
            r.den == 1,
            r.wf(),
    {
        Fraction { num: 0, den: 1 }
    }
}

/// `num / den` rounded to the nearest integer, ties away from zero
/// (`den >= 1`).
pub open spec fn spec_round_ratio(num: int, den: int) -> int {
    if num >= 0 {
        (2 * num + den) / (2 * den)
    } else {
        -((2 * -num + den) / (2 * den))
    }
}

/// `num / den` rounded to the nearest integer, ties away from zero.
pub fn round_ratio(num: i128, den: i128) -> (r: i128)
    requires
        1 <= den <= FRAC_DEN_LIMIT,
        -ROUND_NUM_LIMIT <= num <= ROUND_NUM_LIMIT,
    ensures
        r == spec_round_ratio(num as int, den as int),
{
    if num >= 0 {
        let n = num as u128;
        let d = den as u128;
        let q = (2 * n + d) / (2 * d);
        assert(q == (2 * (num as int) + den) / (2 * (den as int)));
        q as i128
    } else {
        let n = (-num) as u128;
        let d = den as u128;
        let q = (2 * n + d) / (2 * d);
        assert(q == (2 * -(num as int) + den) / (2 * (den as int)));
        -(q as i128)
    }
}

} // verus!
