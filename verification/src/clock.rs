//! The host's clock, as far as the time-bounded entry point needs it.
use vstd::prelude::*;
use std::time::{Duration, Instant};

verus! {

/// A moment of the host's monotonic clock. Nothing is known of its value.
#[verifier::external_type_specification]
#[verifier::external_body]
pub struct ExInstant(std::time::Instant);

/// `Instant::now`: the present moment. Nothing is claimed of it.
#[verifier::external_body]
pub(crate) fn clock_start() -> (start: Instant) {
    Instant::now()
}

/// `Instant::elapsed`: the time that has passed since `start`. Nothing is
/// claimed of it.
#[verifier::external_body]
pub(crate) fn clock_elapsed(start: &Instant) -> (spent: Duration) {
    start.elapsed()
}

/// `Duration::as_nanos`: the span in nanoseconds. Nothing is claimed of it.
#[verifier::external_body]
pub(crate) fn duration_nanos(span: &Duration) -> (nanos: u128) {
    span.as_nanos()
}

} // verus!
