//! Times for people to read: the largest unit in which a time counts at least one.

use vstd::prelude::*;

verus! {

/// Microseconds in a millisecond.
pub const MICROS_PER_MILLI: u64 = 1_000;

/// Microseconds in a second.
pub const MICROS_PER_SECOND: u64 = 1_000_000;

/// Microseconds in a minute.
pub const MICROS_PER_MINUTE: u64 = 60_000_000;

/// Microseconds in an hour.
pub const MICROS_PER_HOUR: u64 = 3_600_000_000;

/// A unit of time.
#[derive(Clone, Copy, Debug, PartialEq, Eq, Structural)]
pub enum TimeScale {
    /// 3600 seconds.
    Hours,
    /// 60 seconds.
    Minutes,
    /// The second.
    Seconds,
    /// A thousandth of a second.
    Millis,
    /// A millionth of a second.
    Micros,
}

/// The whole count of the largest unit that fits into `micros` at least once,
/// with that unit; below a millisecond, the microseconds themselves.
pub open spec fn human_time(micros: u64) -> (u64, TimeScale) {
    if micros >= MICROS_PER_HOUR {
        (micros / MICROS_PER_HOUR, TimeScale::Hours)
    } else if micros >= MICROS_PER_MINUTE {
        (micros / MICROS_PER_MINUTE, TimeScale::Minutes)
    } else if micros >= MICROS_PER_SECOND {
        (micros / MICROS_PER_SECOND, TimeScale::Seconds)
    } else if micros >= MICROS_PER_MILLI {
        (micros / MICROS_PER_MILLI, TimeScale::Millis)
    } else {
        (micros, TimeScale::Micros)
    }
}

/// Picks the unit in which a time of `micros` microseconds is shown, and the
/// count of that unit: hours before minutes before seconds before
/// milliseconds, rounded down.
pub fn micros_to_human(micros: u64) -> (r: (u64, TimeScale))
    ensures
        r == human_time(micros),
{
    let secs = micros / MICROS_PER_SECOND;
    let millis = micros / MICROS_PER_MILLI;
    let hours = secs / 3600;
    let minutes = (secs % 3600) / 60;
    let seconds = secs % 60;
    if hours > 0 {
        (hours, TimeScale::Hours)
    } else if minutes > 0 {
        (minutes, TimeScale::Minutes)
    } else if seconds > 0 {
        (seconds, TimeScale::Seconds)
    } else if millis > 0 {
        (millis, TimeScale::Millis)
    } else {
        (micros, TimeScale::Micros)
    }
}

} // verus!
