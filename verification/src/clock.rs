//! Wall-clock measurement of the protocol's phases.
use vstd::prelude::*;
use std::time::{Duration, Instant};

verus! {

/// A point in time, read from the machine's clock.
#[verifier::external_type_specification]
#[verifier::external_body]
pub struct ExInstant(Instant);

/// `Instant::now` of std. Nothing is stated: it reads the clock.
#[verifier::external_body]
pub(crate) fn clock_now() -> Instant {
    Instant::now()
}

/// `Instant::elapsed` of std. Nothing is stated: it reads the clock.
#[verifier::external_body]
fn clock_elapsed(start: &Instant) -> Duration {
    start.elapsed()
}

/// `Duration::as_micros` of std: the whole microseconds of the span.
/// Nothing is stated of the value, which is the machine's.
#[verifier::external_body]
fn duration_micros(d: &Duration) -> u128 {
    d.as_micros()
}

/// Microseconds since `start`, saturating at `u64::MAX`.
pub(crate) fn micros_since(start: &Instant) -> u64 {
    let d = clock_elapsed(start);
    let us = duration_micros(&d);
    if us > u64::MAX as u128 {
        u64::MAX
    } else {
        us as u64
    }
}

} // verus!
