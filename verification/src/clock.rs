use vstd::prelude::*;
use std::time::SystemTime;

verus! {

/// A point in time: whole seconds since the Unix epoch (UTC) and the
/// nanoseconds past them.
#[derive(Debug, Clone, Copy, PartialEq, Eq, Structural)]
pub struct Timestamp {
    pub secs: i64,
    pub nanos: u32,
}

/// A reading of the system clock, opaque.
#[verifier::external_type_specification]
#[verifier::external_body]
pub struct ExSystemTime(std::time::SystemTime);

/// Calls `std::time::SystemTime::now`. Nothing is claimed of the reading.
#[verifier::external_body]
fn system_now() -> (r: SystemTime) {
    SystemTime::now()
}

/// Calls `SystemTime::duration_since` with `UNIX_EPOCH` and gives the
/// duration as whole seconds and the nanoseconds past them
/// (`Duration::as_secs`, `Duration::subsec_nanos`); none where the reading
/// lies before the epoch (the call's `Err`). std documents that
/// `subsec_nanos` is below one second. The reading is opaque, so the seconds
/// are not tied to it here.
#[verifier::external_body]
fn since_unix_epoch(t: &SystemTime) -> (r: Option<(u64, u32)>)
    ensures
        match r {
            Some((_, nanos)) => nanos < 1_000_000_000,
            None => true,
        },
{
    match t.duration_since(std::time::UNIX_EPOCH) {
        Ok(d) => Some((d.as_secs(), d.subsec_nanos())),
        Err(_) => None,
    }
}

/// Calls `chrono::DateTime::from_timestamp(secs, nanos)` and takes a
/// result apart with `timestamp` and `timestamp_subsec_nanos`. chrono
/// documents the round trip: a `DateTime` it returns gives back `secs` and
/// `nanos`. It returns none for nanoseconds of two seconds or more, and for
/// seconds outside its range of dates (years -262143 to 262142); any
/// non-negative number of seconds up to 8_000_000_000_000 with nanoseconds
/// below one second lies within it.
#[verifier::external_body]
fn utc_from_timestamp(secs: i64, nanos: u32) -> (r: Option<Timestamp>)
    ensures
        match r {
            Some(t) => t.secs == secs && t.nanos == nanos,
            None => nanos >= 2_000_000_000 || !(0 <= secs <= 8_000_000_000_000 && nanos
                < 1_000_000_000),
        },
{
    match chrono::DateTime::from_timestamp(secs, nanos) {
        Some(t) => Some(Timestamp { secs: t.timestamp(), nanos: t.timestamp_subsec_nanos() }),
        None => None,
    }
}

/// The current time in UTC, as chrono represents it; none where the system
/// clock stands before the Unix epoch or beyond chrono's range of dates.
pub fn now() -> (r: Option<Timestamp>)
    ensures
        match r {
            Some(t) => t.secs >= 0 && t.nanos < 1_000_000_000,
            None => true,
        },
{
    let reading = system_now();
    match since_unix_epoch(&reading) {
        Some((secs, nanos)) => {
            if secs > i64::MAX as u64 {
                None
            } else {
                utc_from_timestamp(secs as i64, nanos)
            }
        },
        None => None,
    }
}

} // verus!
