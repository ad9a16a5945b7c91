//! The formulas whose value is a measurement.
//!
//! The library decides which formula is evaluated on which numbers and what follows
//! from the outcome. The evaluation itself is floating-point arithmetic: a caller hands
//! it in as a function from formulas to numbers, called the unit below, and every
//! contract holds for every such function.

use crate::measure::Real;
use vstd::prelude::*;

verus! {

/// A formula with the numbers to put in.
#[derive(Debug, Clone, Copy)]
pub enum Formula {
    /// Great-circle distance between two places, in metres.
    Distance { lat1: Real, lng1: Real, lat2: Real, lng2: Real },
    /// Longitude after `dt_s` seconds at a constant heading and speed.
    ReckonedLng { lng: Real, lat: Real, heading_deg: Real, speed_ms: Real, dt_s: Real },
    /// Latitude after `dt_s` seconds at a constant heading and speed.
    ReckonedLat { lng: Real, lat: Real, heading_deg: Real, speed_ms: Real, dt_s: Real },
    /// Seconds from one clock reading in milliseconds to another.
    Elapsed { from_ms: u64, to_ms: u64 },
    /// Change per second: `(to - from) / seconds`.
    Rate { from: Real, to: Real, seconds: Real },
    /// Metres in nautical miles.
    NauticalMiles { metres: Real },
    /// Distance between two altitudes given in metres, in feet.
    VerticalFeet { a_m: Real, b_m: Real },
    /// The middle between two numbers.
    Midpoint { a: Real, b: Real },
    /// Length of the line of sight, from its horizontal and vertical parts.
    Slant { horizontal_m: Real, vertical_m: Real },
    /// `a - b`.
    Difference { a: Real, b: Real },
    /// Sound level in dB at a distance from a source whose level at 1 km is given; there is
    /// no least distance in the formula.
    Level { source_db: Real, slant_m: Real },
    /// Feet in metres.
    FeetToMetres { feet: Real },
    /// Knots in metres per second.
    KnotsToMetresPerSecond { knots: Real },
    /// Metres in feet.
    MetresToFeet { metres: Real },
    /// Metres per second in knots.
    MetresPerSecondToKnots { speed_ms: Real },
}

/// A unit evaluates every formula.
pub open spec fn is_unit<U: Fn(Formula) -> Real>(unit: U) -> bool {
    forall|q: Formula| call_requires(unit, (q,))
}

/// The unit's values are those of the mathematical function `f`.
pub open spec fn computes<U: Fn(Formula) -> Real>(unit: U, f: spec_fn(Formula) -> Real) -> bool {
    forall|q: Formula, r: Real| call_ensures(unit, (q,), r) ==> r == f(q)
}

/// Distances, differences of height and middles do not depend on which of the two comes
/// first.
pub open spec fn is_symmetric(f: spec_fn(Formula) -> Real) -> bool {
    &&& forall|lat1: Real, lng1: Real, lat2: Real, lng2: Real| #[trigger]
        f(Formula::Distance { lat1, lng1, lat2, lng2 }) == f(
            Formula::Distance { lat1: lat2, lng1: lng2, lat2: lat1, lng2: lng1 },
        )
    &&& forall|a_m: Real, b_m: Real| #[trigger]
        f(Formula::VerticalFeet { a_m, b_m }) == f(Formula::VerticalFeet { a_m: b_m, b_m: a_m })
    &&& forall|a: Real, b: Real| #[trigger]
        f(Formula::Midpoint { a, b }) == f(Formula::Midpoint { a: b, b: a })
}

/// A unit whose every value is that of a function computes it.
pub proof fn a_function_is_computed<U: Fn(Formula) -> Real>(
    unit: U,
    f: spec_fn(Formula) -> Real,
)
    requires
        forall|q: Formula, r: Real| #[trigger] call_ensures(unit, (q,), r) ==> r == f(q),
    ensures
        computes(unit, f),
{
}

} // verus!
