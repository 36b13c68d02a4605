//! The monotonic clock.

use std::time::Instant;
use vstd::prelude::*;

verus! {

#[verifier::external_type_specification]
#[verifier::external_body]
pub struct ExInstant(Instant);

/// The time now, by `Instant::now`.
///
/// Trusted: nothing. The time is not told apart by any value.
#[verifier::external_body]
pub(crate) fn now() -> Instant {
    Instant::now()
}

/// How many nanoseconds have passed since `start`, by `Instant::elapsed`.
///
/// Trusted: nothing. Two calls may differ.
#[verifier::external_body]
pub(crate) fn nanos_since(start: &Instant) -> u128 {
    start.elapsed().as_nanos()
}

} // verus!
