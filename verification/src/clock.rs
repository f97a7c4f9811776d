//! The time that things take.
use std::time::Instant;

use vstd::prelude::*;

verus! {

/// Declares `std::time::Instant`, a moment.
#[verifier::external_type_specification]
#[verifier::external_body]
pub struct ExInstant(Instant);

/// Wraps `Instant::now`: of the moment nothing is known.
#[verifier::external_body]
pub(crate) fn now() -> Instant {
    Instant::now()
}

/// Wraps `Instant::elapsed`: the nanoseconds since a moment, of which nothing
/// is known; more than can be counted are as many as can.
#[verifier::external_body]
pub(crate) fn nanos_since(start: &Instant) -> u64 {
    u64::try_from(start.elapsed().as_nanos()).unwrap_or(u64::MAX)
}

} // verus!
