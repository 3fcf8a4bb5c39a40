//! The system clocks.

use std::time::{Duration, Instant, SystemTime};
use vstd::prelude::*;

verus! {

/// `std::time::SystemTime`.
#[verifier::external_type_specification]
#[verifier::external_body]
pub struct ExSystemTime(SystemTime);

/// `std::time::Instant`.
#[verifier::external_type_specification]
#[verifier::external_body]
pub struct ExInstant(Instant);

/// `std::time::SystemTime::now`. Nothing is claimed of the time.
#[verifier::external_body]
fn system_time() -> (now: SystemTime) {
    SystemTime::now()
}

/// `std::time::SystemTime::duration_since`, from the Unix epoch. Nothing is
/// claimed of the span; there is none where the time lies before the epoch.
#[verifier::external_body]
fn since_epoch(time: SystemTime) -> (span: Option<Duration>) {
    time.duration_since(std::time::UNIX_EPOCH).ok()
}

/// `std::time::Duration::as_secs`. Nothing is claimed of the number.
#[verifier::external_body]
fn whole_seconds(span: Duration) -> (seconds: u64) {
    span.as_secs()
}

/// `std::time::Instant::now`. Nothing is claimed of the instant.
#[verifier::external_body]
pub(crate) fn instant() -> (now: Instant) {
    Instant::now()
}

/// `std::time::Instant::elapsed`. Nothing is claimed of the span.
#[verifier::external_body]
fn elapsed(start: &Instant) -> (span: Duration) {
    start.elapsed()
}

/// `std::time::Duration::as_nanos`. Nothing is claimed of the number.
#[verifier::external_body]
fn whole_nanoseconds(span: Duration) -> (nanoseconds: u128) {
    span.as_nanos()
}

/// The whole seconds since the Unix epoch, or zero before it.
pub(crate) fn unix_timestamp_seconds() -> (seconds: u64) {
    let reading: Option<u64> = match since_epoch(system_time()) {
        Some(span) => Some(whole_seconds(span)),
        None => None,
    };
    seconds_of(reading)
}

/// The nanoseconds since `start`.
pub(crate) fn nanoseconds_since(start: &Instant) -> (nanoseconds: u128) {
    whole_nanoseconds(elapsed(start))
}

/// The timestamp for a reading of the clock, in whole seconds since the Unix
/// epoch: zero where the clock stands before it.
pub fn seconds_of(reading: Option<u64>) -> (seconds: u64)
    ensures
        seconds == match reading {
            Some(since_epoch) => since_epoch,
            None => 0,
        },
{
    match reading {
        Some(since_epoch) => since_epoch,
        None => 0,
    }
}

} // verus!
