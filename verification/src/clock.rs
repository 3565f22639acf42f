//! The wall clock, and the time that has passed since a timestamp.

use crate::duration::{duration_text, milliseconds_to_string};
use crate::error::ClockError;
use std::time::{Duration, SystemTime, SystemTimeError, UNIX_EPOCH};
use vstd::prelude::*;

verus! {

/// `std::time::SystemTime`, a reading of the system clock. Nothing is known
/// of what a value holds.
#[verifier::external_type_specification]
#[verifier::external_body]
pub struct ExSystemTime(SystemTime);

/// `std::time::SystemTimeError`, what `SystemTime::duration_since` returns
/// when the second time is the later one. Nothing is known of what a value
/// holds.
#[verifier::external_type_specification]
#[verifier::external_body]
pub struct ExSystemTimeError(SystemTimeError);

/// `SystemTime::now` reads the system clock. It returns; nothing is claimed
/// of the time it gives.
pub assume_specification[ SystemTime::now ]() -> SystemTime;

/// `Duration::as_millis` gives the whole milliseconds of a duration. It
/// returns; nothing is claimed of the number.
pub assume_specification[ Duration::as_millis ](duration: &Duration) -> u128;

/// `SystemTime::duration_since`, with `UNIX_EPOCH` as the earlier time: the
/// time from the epoch to `time`, or an error where `time` stands before the
/// epoch. It returns; nothing is claimed of which of the two it gives.
#[verifier::external_body]
fn since_epoch(time: &SystemTime) -> Result<Duration, SystemTimeError> {
    time.duration_since(UNIX_EPOCH)
}

/// The milliseconds from `timestamp` to `now`, both counted from the Unix
/// epoch; an error where the timestamp is the later of the two.
pub open spec fn elapsed(now: u128, timestamp: u128) -> Result<u128, ClockError> {
    if now < timestamp {
        Err(ClockError::TimestampInFuture)
    } else {
        Ok((now - timestamp) as u128)
    }
}

/// The current time in milliseconds since the Unix epoch.
///
/// Fails where the system clock stands before the epoch, and in no other
/// way.
pub fn get_current_time_as_ms() -> (now: Result<u128, ClockError>)
    ensures
        now matches Err(error) ==> error == ClockError::BeforeEpoch,
{
    let start = SystemTime::now();
    match since_epoch(&start) {
        Ok(since) => Ok(since.as_millis()),
        Err(_) => Err(ClockError::BeforeEpoch),
    }
}

/// The milliseconds that have passed at `now` since `timestamp`.
///
/// A timestamp that lies after `now` is an error: the difference is never
/// taken below zero.
pub fn elapsed_since(now: u128, timestamp: u128) -> (result: Result<u128, ClockError>)
    ensures
        result == elapsed(now, timestamp),
{
    match now.checked_sub(timestamp) {
        Some(ms) => Ok(ms),
        None => Err(ClockError::TimestampInFuture),
    }
}

/// The text for the time that has passed at `now` since `timestamp`.
pub fn time_difference_as_str(now: u128, timestamp: u128) -> (result: Result<String, ClockError>)
    ensures
        match result {
            Ok(text) => now >= timestamp && text@ == duration_text((now - timestamp) as nat),
            Err(error) => now < timestamp && error == ClockError::TimestampInFuture,
        },
{
    match elapsed_since(now, timestamp) {
        Ok(ms) => Ok(milliseconds_to_string(ms)),
        Err(error) => Err(error),
    }
}

/// The text for the time that has passed since `t`, by the system clock.
///
/// Fails where the clock stands before the epoch, and where the time it
/// gives lies before `t`. A text that comes back is the text of the
/// difference between `t` and some time not before it.
pub fn get_time_difference_as_str(t: u128) -> (result: Result<String, ClockError>)
    ensures
        match result {
            Ok(text) => exists|now: u128|
                now >= t && text@ == #[trigger] duration_text((now - t) as nat),
            Err(error) => error == ClockError::BeforeEpoch || exists|now: u128|
                #[trigger] elapsed(now, t) == Err::<u128, ClockError>(error),
        },
{
    match get_current_time_as_ms() {
        Ok(now) => {
            let result = time_difference_as_str(now, t);
            assert(result is Ok ==> result->Ok_0@ == duration_text((now - t) as nat));
            assert(result is Err ==> elapsed(now, t) == Err::<u128, ClockError>(result->Err_0));
            result
        },
        Err(error) => Err(error),
    }
}

} // verus!
