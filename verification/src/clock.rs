//! Trusted boundary around the wall clock.  The time-budgeted agents poll a
//! monotonic clock once per outer iteration; nothing is assumed about the
//! values the clock returns.

use vstd::prelude::*;

verus! {

#[verifier::external_type_specification]
#[verifier::external_body]
pub struct ExInstant(std::time::Instant);

/// Relies on `std::time::Instant::now`: a reading of the monotonic clock.
#[verifier::external_body]
pub(crate) fn instant_now() -> std::time::Instant {
    std::time::Instant::now()
}

/// Relies on `std::time::Instant::elapsed`: the time since `start`.
#[verifier::external_body]
pub(crate) fn instant_elapsed(start: &std::time::Instant) -> std::time::Duration {
    start.elapsed()
}

/// Relies on `std::time::Duration::as_millis` (the value is truncated to 64
/// bits, which holds every duration a search can reach).
#[verifier::external_body]
pub(crate) fn duration_as_millis(d: &std::time::Duration) -> u64 {
    d.as_millis() as u64
}

/// Relies on `std::time::Duration::from_millis`.
#[verifier::external_body]
pub(crate) fn duration_from_millis(ms: u64) -> std::time::Duration {
    std::time::Duration::from_millis(ms)
}

/// Milliseconds elapsed since `start`.
pub(crate) fn elapsed_millis(start: &std::time::Instant) -> u64 {
    let d = instant_elapsed(start);
    duration_as_millis(&d)
}

} // verus!
