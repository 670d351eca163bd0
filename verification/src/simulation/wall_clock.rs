//! The real time that a call of the scheduler takes.

use std::time::{Duration, Instant};
use vstd::prelude::*;

verus! {

/// `std::time::Instant`: a reading of the machine's monotonic clock, carried
/// through as it is.
#[verifier::external_type_specification]
#[verifier::external_body]
pub struct ExInstant(Instant);

/// Reads the machine's monotonic clock with `std::time::Instant::now`.
/// Nothing is claimed of the reading.
#[verifier::external_body]
pub(crate) fn start_watch() -> Instant {
    Instant::now()
}

/// The real time that has passed since the reading `since`, by
/// `std::time::Instant::elapsed`. Nothing is claimed of it.
#[verifier::external_body]
pub(crate) fn elapsed(since: &Instant) -> Duration {
    since.elapsed()
}

/// The whole nanoseconds of a span, by `std::time::Duration::as_nanos`.
/// Nothing is claimed of the number.
#[verifier::external_body]
pub(crate) fn nanoseconds(span: &Duration) -> u128 {
    span.as_nanos()
}

} // verus!
