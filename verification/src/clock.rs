//! Readings of the system clock.
use crate::time::{is_nanos, Timestamp};
use vstd::prelude::*;

verus! {

/// The nanoseconds since the Unix epoch: `chrono::Utc::now` read through
/// `timestamp_nanos_opt`, which is `None` where they do not fit. Nothing is
/// claimed of the reading. `Utc::now` panics where the system clock is set to
/// a time before the epoch.
#[verifier::external_body]
fn utc_nanos() -> (nanos: Option<i64>) {
    chrono::Utc::now().timestamp_nanos_opt()
}

/// The whole seconds since the Unix epoch: `chrono::Utc::now` read through
/// `timestamp`. Nothing is claimed of the reading. `Utc::now` panics where the
/// system clock is set to a time before the epoch.
#[verifier::external_body]
pub(crate) fn utc_seconds() -> (seconds: i64) {
    chrono::Utc::now().timestamp()
}

/// Whether `reading` is the timestamp of some number of nanoseconds.
pub open spec fn is_clock_reading(reading: u64) -> bool {
    exists|nanos: i64| is_nanos(reading, nanos)
}

/// Whether `reading` is the time that a clock tells which counts `nanos`: none
/// exactly where the clock counts none.
pub open spec fn tells(reading: Option<Timestamp>, nanos: Option<i64>) -> bool {
    match nanos {
        Some(count) => reading matches Some(stamp) && is_nanos(stamp@, count),
        None => reading is None,
    }
}

/// The time that a clock tells which counts `nanos`.
pub fn reading_of(nanos: Option<i64>) -> (reading: Option<Timestamp>)
    ensures
        tells(reading, nanos),
{
    match nanos {
        Some(count) => Some(Timestamp::from_nanos(count)),
        None => None,
    }
}

/// The present time, or `None` where the clock cannot tell it to the
/// nanosecond.
pub(crate) fn now() -> (reading: Option<Timestamp>)
    ensures
        exists|nanos: Option<i64>| tells(reading, nanos),
        reading matches Some(stamp) ==> is_clock_reading(stamp@),
{
    let nanos = utc_nanos();
    let reading = reading_of(nanos);
    assert(tells(reading, nanos));
    reading
}

} // verus!
