//! Reading the clocks: wall-clock seconds since the Unix epoch, and seconds since a start.
use vstd::prelude::*;
use std::time::{Duration, Instant, SystemTime, SystemTimeError};

verus! {

/// `std::time::Instant`, carried opaquely.
#[verifier::external_type_specification]
#[verifier::external_body]
pub struct ExInstant(Instant);

/// `std::time::SystemTime`, carried opaquely.
#[verifier::external_type_specification]
#[verifier::external_body]
pub struct ExSystemTime(SystemTime);

/// `std::time::SystemTimeError`, carried opaquely.
#[verifier::external_type_specification]
#[verifier::external_body]
pub struct ExSystemTimeError(SystemTimeError);

/// Calls `std::time::Instant::now`: reads the monotonic clock. Nothing is claimed of the
/// instant it returns.
#[verifier::external_body]
pub(crate) fn instant_now() -> Instant {
    Instant::now()
}

/// Calls `std::time::Instant::elapsed`: the time since `start`, read from the clock. Nothing
/// is claimed of it.
#[verifier::external_body]
fn instant_elapsed(start: &Instant) -> Duration {
    start.elapsed()
}

/// Calls `std::time::Duration::as_secs`: the whole seconds of `d`. A `Duration` is opaque
/// here, so nothing is claimed of the number.
#[verifier::external_body]
fn duration_secs(d: &Duration) -> u64 {
    d.as_secs()
}

/// Calls `std::time::SystemTime::now`: reads the wall clock. Nothing is claimed of it.
#[verifier::external_body]
fn system_now() -> SystemTime {
    SystemTime::now()
}

/// Calls `std::time::SystemTime::duration_since` with `std::time::UNIX_EPOCH`: the time
/// since the epoch, or an error where the clock stands before it. Nothing is claimed of
/// which comes back.
#[verifier::external_body]
fn since_unix_epoch(t: &SystemTime) -> Result<Duration, SystemTimeError> {
    t.duration_since(std::time::UNIX_EPOCH)
}

/// Whole seconds since the Unix epoch as a signed count: a clock before the epoch counts as
/// zero, and a count past `i64::MAX` is taken modulo 2^64 as the cast does.
pub fn epoch_seconds(since_epoch: Option<u64>) -> (r: i64)
    ensures
        r == match since_epoch {
            Some(s) => s as i64,
            None => 0i64,
        },
{
    match since_epoch {
        Some(s) => s as i64,
        None => 0,
    }
}

/// The wall clock in whole seconds since the Unix epoch.
pub fn unix_sec() -> (r: i64) {
    let now = system_now();
    let since = match since_unix_epoch(&now) {
        Ok(d) => Some(duration_secs(&d)),
        Err(_) => None,
    };
    epoch_seconds(since)
}

/// An uptime of `secs` whole seconds, counted as at least one.
pub fn uptime_from_secs(secs: u64) -> (r: u64)
    ensures
        r == if secs < 1 {
            1
        } else {
            secs
        },
{
    if secs < 1 {
        1
    } else {
        secs
    }
}

/// Whole seconds since `started`, counted as at least one.
pub fn uptime_secs(started: &Instant) -> (r: u64)
    ensures
        r >= 1,
{
    uptime_from_secs(duration_secs(&instant_elapsed(started)))
}

} // verus!
