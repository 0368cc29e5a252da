use vstd::prelude::*;
use std::time::{Duration, Instant};

verus! {

/// A point in time, as the system's monotonic clock gives it.
#[verifier::external_type_specification]
#[verifier::external_body]
pub struct ExInstant(std::time::Instant);

/// The present moment.
///
/// Calls `Instant::now`; nothing is said of the result.
#[verifier::external_body]
pub(crate) fn now() -> Instant {
    Instant::now()
}

/// The time that has passed since `start`.
///
/// Calls `Instant::elapsed`; nothing is said of the result.
#[verifier::external_body]
pub(crate) fn elapsed_since(start: &Instant) -> Duration {
    start.elapsed()
}

/// Whether `spent` is longer than `limit`.
///
/// Calls the comparison `>` of `Duration`; nothing is said of the result.
#[verifier::external_body]
pub(crate) fn is_longer(spent: &Duration, limit: &Duration) -> bool {
    spent > limit
}

} // verus!
