//! The current time.

use vstd::prelude::*;

verus! {

/// A point in time of the system clock.
#[verifier::external_type_specification]
#[verifier::external_body]
pub struct ExSystemTime(std::time::SystemTime);

/// The outside error of a time that lies before another.
#[verifier::external_type_specification]
#[verifier::external_body]
pub struct ExSystemTimeError(std::time::SystemTimeError);

/// Calls `SystemTime::now`. Nothing is stated of the time that it tells.
#[verifier::external_body]
fn system_now() -> (r: std::time::SystemTime) {
    std::time::SystemTime::now()
}

/// Calls `SystemTime::duration_since` with the Unix epoch. An earlier time is an error;
/// which times those are is not stated.
#[verifier::external_body]
fn since_epoch(time: &std::time::SystemTime) -> (r: Result<
    std::time::Duration,
    std::time::SystemTimeError,
>) {
    time.duration_since(std::time::UNIX_EPOCH)
}

/// Calls `Duration::as_secs`. Nothing is stated of the seconds, as nothing is of the
/// duration.
#[verifier::external_body]
fn whole_seconds(duration: &std::time::Duration) -> (r: u64) {
    duration.as_secs()
}

/// The seconds since the Unix epoch, or zero where the clock stands before it.
pub fn seconds_or_zero(since_epoch: Option<u64>) -> (r: u64)
    ensures
        r == (match since_epoch {
            Some(seconds) => seconds,
            None => 0,
        }),
{
    match since_epoch {
        Some(seconds) => seconds,
        None => 0,
    }
}

/// The current time in seconds since the Unix epoch; any value may come back.
pub fn unix_now() -> (r: u64) {
    let now: std::time::SystemTime = system_now();
    match since_epoch(&now) {
        Ok(duration) => seconds_or_zero(Some(whole_seconds(&duration))),
        Err(_) => seconds_or_zero(None),
    }
}

} // verus!
