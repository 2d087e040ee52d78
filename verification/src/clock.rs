//! The clock and the stop flag of a search.

use std::sync::atomic::AtomicBool;
use std::time::{Duration, Instant};
use vstd::prelude::*;

verus! {

/// A moment of the monotonic clock of std. Nothing is known of what it
/// holds.
#[verifier::external_type_specification]
#[verifier::external_body]
pub struct ExInstant(Instant);

/// `Instant::now` of std reads the clock. Its result depends on when it is
/// called, so nothing is claimed of it.
pub assume_specification[ Instant::now ]() -> (now: Instant);

/// `Instant::elapsed` of std gives the time since the moment was taken.
/// Nothing is claimed of it.
pub assume_specification[ Instant::elapsed ](start: &Instant) -> (spent: Duration);

/// `Duration::as_millis` of std gives the whole milliseconds of a duration.
/// Nothing is claimed of it.
pub assume_specification[ Duration::as_millis ](spent: &Duration) -> (millis: u128);

/// Reads the stop flag. Another thread may raise it at any time, so the
/// value is not known beforehand.
pub fn is_raised(flag: &AtomicBool) -> (raised: bool) {
    flag.load(std::sync::atomic::Ordering::Relaxed)
}

/// Raises the stop flag.
pub fn raise(flag: &AtomicBool) {
    flag.store(true, std::sync::atomic::Ordering::Relaxed)
}

/// The search is over: it was stopped, or the time it was given has gone by.
pub fn budget_spent(elapsed_millis: u128, limit_millis: u64, stopped: bool) -> (over: bool)
    ensures
        over == (stopped || elapsed_millis >= limit_millis),
{
    stopped || elapsed_millis >= limit_millis as u128
}

} // verus!
