//! Reading the wall clock as whole seconds since the Unix epoch.
use vstd::prelude::*;
use std::time::{SystemTime, SystemTimeError};
use core::time::Duration;

verus! {

#[verifier::external_type_specification]
#[verifier::external_body]
pub struct ExSystemTime(SystemTime);

#[verifier::external_type_specification]
#[verifier::external_body]
pub struct ExSystemTimeError(SystemTimeError);

/// The clock read before the Unix epoch.
#[derive(Debug, PartialEq, Eq)]
pub enum ClockError {
    BeforeUnixEpoch,
}

/// `SystemTime::now`: the current wall-clock time; nothing is known of its value.
#[verifier::external_body]
fn system_time_now() -> (t: SystemTime) {
    SystemTime::now()
}

/// `SystemTime::duration_since(UNIX_EPOCH)`: the time elapsed since the epoch, or an
/// error when `t` lies before it; nothing is known of the values.
#[verifier::external_body]
fn since_unix_epoch(t: &SystemTime) -> (r: Result<Duration, SystemTimeError>) {
    t.duration_since(std::time::UNIX_EPOCH)
}

/// `Duration::as_secs`: the whole seconds of a duration; nothing is known of the value.
#[verifier::external_body]
fn duration_secs(d: &Duration) -> (s: u64) {
    d.as_secs()
}

/// The current time in whole seconds since the Unix epoch.
pub fn unix_now_secs() -> (r: Result<u64, ClockError>) {
    let t = system_time_now();
    match since_unix_epoch(&t) {
        Ok(d) => Ok(duration_secs(&d)),
        Err(_) => Err(ClockError::BeforeUnixEpoch),
    }
}

} // verus!
