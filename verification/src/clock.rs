//! Wall-clock time in milliseconds since the Unix epoch.
use vstd::prelude::*;

use std::time::{Duration, SystemTime, SystemTimeError};

verus! {

#[verifier::external_type_specification]
#[verifier::external_body]
pub struct ExSystemTime(std::time::SystemTime);

#[verifier::external_type_specification]
#[verifier::external_body]
pub struct ExSystemTimeError(std::time::SystemTimeError);

/// Reads the system clock with `SystemTime::now`. Nothing is stated of the
/// result: it depends on the time.
#[verifier::external_body]
fn wall_clock() -> SystemTime {
    SystemTime::now()
}

/// Time elapsed since the Unix epoch, with `SystemTime::duration_since`;
/// an error when `t` lies before the epoch. Nothing more is stated.
#[verifier::external_body]
fn since_unix_epoch(t: SystemTime) -> Result<Duration, SystemTimeError> {
    t.duration_since(std::time::UNIX_EPOCH)
}

/// Whole milliseconds of a duration, with `Duration::as_millis`. Nothing is
/// stated of the result.
#[verifier::external_body]
fn whole_millis(d: Duration) -> u128 {
    d.as_millis()
}

/// Milliseconds since the epoch as a `u64`: saturated at `u64::MAX`, and `0`
/// when the clock reads before the epoch (`None`).
pub fn epoch_millis(elapsed: Option<u128>) -> (ms: u64)
    ensures
        match elapsed {
            Some(m) => ms == (if m > u64::MAX {
                u64::MAX as u128
            } else {
                m
            }),
            None => ms == 0,
        },
{
    match elapsed {
        Some(m) => {
            if m > u64::MAX as u128 {
                u64::MAX
            } else {
                m as u64
            }
        },
        None => 0,
    }
}

/// The current wall-clock time in milliseconds since the Unix epoch.
///
/// State evaluation never reads the clock implicitly; callers pass the value
/// returned here so that one evaluation of the same `(registry, now)` is
/// deterministic.
pub fn now_ms() -> (ms: u64) {
    let elapsed = match since_unix_epoch(wall_clock()) {
        Ok(d) => Some(whole_millis(d)),
        Err(_) => None,
    };
    epoch_millis(elapsed)
}

} // verus!
