//! The wall clock, in whole seconds since the Unix epoch.

use vstd::prelude::*;
use std::time::{Duration, SystemTime, UNIX_EPOCH};

verus! {

/// `std::time::SystemTime`, a point on the system clock. Nothing is known
/// of what a value of it holds.
#[verifier::external_type_specification]
#[verifier::external_body]
pub struct ExSystemTime(std::time::SystemTime);

/// The time on the system clock.
///
/// Calls `SystemTime::now`. Two calls may differ, so nothing is claimed of
/// the result.
#[verifier::external_body]
fn system_now() -> SystemTime {
    SystemTime::now()
}

/// The span from the Unix epoch to `time`, or `None` where `time` lies
/// before the epoch.
///
/// Calls `SystemTime::duration_since` with `UNIX_EPOCH`. A `SystemTime` is
/// opaque here, so nothing is claimed of the result.
#[verifier::external_body]
fn since_epoch(time: &SystemTime) -> Option<Duration> {
    time.duration_since(UNIX_EPOCH).ok()
}

/// The whole seconds of `span`.
///
/// Calls `Duration::as_secs`. A `Duration` is opaque here, so nothing is
/// claimed of the result.
#[verifier::external_body]
fn whole_seconds(span: &Duration) -> u64 {
    span.as_secs()
}

/// The time on the system clock, in whole seconds since the Unix epoch. A
/// clock that is set before the epoch counts as standing at the epoch.
pub(crate) fn now_seconds() -> u64 {
    let time: SystemTime = system_now();
    let elapsed: Option<u64> = match since_epoch(&time) {
        Some(span) => Some(whole_seconds(&span)),
        None => None,
    };
    seconds_on(elapsed)
}

/// What a clock reads that stands `elapsed` whole seconds after the Unix
/// epoch, or before the epoch where `elapsed` is `None`: the seconds, and 0
/// for a clock before the epoch.
pub open spec fn clock_reading(elapsed: Option<u64>) -> u64 {
    match elapsed {
        Some(seconds) => seconds,
        None => 0,
    }
}

/// The reading of a clock, in whole seconds since the Unix epoch. A clock
/// that is set before the epoch counts as standing at the epoch.
pub fn seconds_on(elapsed: Option<u64>) -> (seconds: u64)
    ensures
        seconds == clock_reading(elapsed),
{
    match elapsed {
        Some(seconds) => seconds,
        None => 0,
    }
}

} // verus!
