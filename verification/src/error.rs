//! The conditions under which planning fails.

use vstd::prelude::*;

verus! {

/// Why a planning request produced no result.
#[derive(Debug, Clone, Copy, PartialEq, Eq, Structural)]
pub enum PlanError {
    /// An input record does not have the columns its relation expects.
    MalformedFact,
    /// The origin or the destination names no RV-suitable campground.
    UnknownEndpoint,
    /// The itinerary relation holds more facts than the configured ceiling.
    FixpointExplosion,
    /// The fixpoint was reached and no fact arrives at the destination.
    NoRouteFound,
}

impl PlanError {
    /// A short human-readable description of the condition.
    pub fn message(&self) -> (text: String)
        ensures
            text@ == match *self {
                PlanError::MalformedFact => "malformed fact record"@,
                PlanError::UnknownEndpoint => "origin or destination is not an RV-suitable campground"@,
                PlanError::FixpointExplosion => "itinerary relation exceeds the configured ceiling"@,
                PlanError::NoRouteFound => "no road trip found for the given constraints"@,
            },
    {
        match self {
            PlanError::MalformedFact => "malformed fact record".to_owned(),
            PlanError::UnknownEndpoint => "origin or destination is not an RV-suitable campground".to_owned(),
            PlanError::FixpointExplosion => "itinerary relation exceeds the configured ceiling".to_owned(),
            PlanError::NoRouteFound => "no road trip found for the given constraints".to_owned(),
        }
    }
}

} // verus!
