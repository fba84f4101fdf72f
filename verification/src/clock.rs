//! The wall clock that bounds a search.

use std::time::{Duration, Instant};
use vstd::prelude::*;

verus! {

/// A point in time of the monotonic clock; nothing is known of what it holds.
#[verifier::external_type_specification]
#[verifier::external_body]
pub struct ExInstant(std::time::Instant);

/// Reads the clock with `Instant::now`. Nothing is claimed of the result.
#[verifier::external_body]
pub(crate) fn clock_start() -> (start: Instant) {
    Instant::now()
}

/// The time gone by since `start`, from `Instant::elapsed`. Nothing is
/// claimed of the result.
#[verifier::external_body]
pub(crate) fn clock_elapsed(start: &Instant) -> (elapsed: Duration) {
    start.elapsed()
}

/// A span of time in nanoseconds, from `Duration::as_nanos`. Nothing is
/// claimed of the result.
#[verifier::external_body]
pub(crate) fn span_nanos(span: &Duration) -> (nanos: u128) {
    span.as_nanos()
}

} // verus!
