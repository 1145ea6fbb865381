//! The wall clock, read in whole seconds since the epoch.
//!
//! The three functions of `std::time` behind a reading are called through
//! wrappers without a contract: nothing is known of what a clock returns.

use vstd::prelude::*;
use std::time::{Duration, SystemTime, SystemTimeError, UNIX_EPOCH};

verus! {

/// `std::time::SystemTime`, a moment of the system clock.
#[verifier::external_type_specification]
#[verifier::external_body]
pub struct ExSystemTime(SystemTime);

/// `std::time::SystemTimeError`, the failure of a clock that stands before
/// the moment it is measured from.
#[verifier::external_type_specification]
#[verifier::external_body]
pub struct ExSystemTimeError(SystemTimeError);

/// `SystemTime::now`: the present moment, whatever it is.
#[verifier::external_body]
pub(crate) fn system_now() -> SystemTime {
    SystemTime::now()
}

/// `SystemTime::duration_since` with `UNIX_EPOCH`: the time that has passed
/// since the epoch, or an error for a moment before it.
#[verifier::external_body]
pub(crate) fn since_epoch(moment: &SystemTime) -> Result<Duration, SystemTimeError> {
    moment.duration_since(UNIX_EPOCH)
}

/// `Duration::as_secs`: the whole seconds of a duration.
#[verifier::external_body]
pub(crate) fn whole_seconds(duration: &Duration) -> u64 {
    duration.as_secs()
}

/// The present moment in whole seconds since the epoch, or nothing where the
/// clock stands before the epoch.
pub fn seconds_since_epoch() -> Option<u64> {
    let now = system_now();
    match since_epoch(&now) {
        Ok(passed) => Some(whole_seconds(&passed)),
        Err(_) => None,
    }
}

} // verus!
