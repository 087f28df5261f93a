//! The wall clock: the system time (std) turned into a `chrono` UTC
//! timestamp, read without any panic.

use std::time::{SystemTime, UNIX_EPOCH};
use vstd::prelude::*;

verus! {

/// The largest number of seconds since the Unix epoch that a `chrono`
/// `DateTime<Utc>` can hold is below this bound (its last year is 262142).
pub const MAX_EPOCH_SECONDS: i64 = 8_796_093_022_207;

/// Seconds since the Unix epoch that `chrono` surely represents (they fall
/// before the year 256000).
pub const SURE_EPOCH_SECONDS: i64 = 8_000_000_000_000;

#[verifier::external_type_specification]
#[verifier::external_body]
pub struct ExSystemTime(SystemTime);

/// `SystemTime::now()`: the system clock's current reading. Which instant it
/// reads is not stated: it is the time.
#[verifier::external_body]
fn system_time_now() -> SystemTime {
    SystemTime::now()
}

/// `t.duration_since(UNIX_EPOCH)`, as whole seconds and the nanoseconds
/// beyond them (`Duration::as_secs`, `Duration::subsec_nanos`, the latter
/// always below one second); `None` when `t` is before the epoch. What `t`
/// holds is not visible here, so the value is not stated.
#[verifier::external_body]
fn since_unix_epoch(t: &SystemTime) -> (r: Option<(u64, u32)>)
    ensures
        r matches Some((_, nanos)) ==> nanos < 1_000_000_000,
{
    t.duration_since(UNIX_EPOCH).ok().map(|d| (d.as_secs(), d.subsec_nanos()))
}

/// `chrono::DateTime::from_timestamp(secs, nanos)`, then `timestamp()` and
/// `timestamp_millis()` of the result: `None` when the instant is outside
/// chrono's range (always `Some` for a non-negative time before
/// `SURE_EPOCH_SECONDS` with less than a second of nanoseconds). A result
/// gives back `secs` (the conversion round-trips) and `secs` in
/// milliseconds plus the whole milliseconds of `nanos`.
#[verifier::external_body]
fn utc_timestamps(secs: i64, nanos: u32) -> (r: Option<(i64, i64)>)
    ensures
        0 <= secs <= SURE_EPOCH_SECONDS && nanos < 1_000_000_000 ==> r is Some,
        r matches Some((s, ms)) ==> s == secs && s <= MAX_EPOCH_SECONDS && ms == secs * 1000
            + nanos / 1_000_000,
{
    chrono::DateTime::from_timestamp(secs, nanos).map(|t| (t.timestamp(), t.timestamp_millis()))
}

/// The UTC time `secs` seconds and `nanos` nanoseconds after the Unix
/// epoch, as seconds and as milliseconds since the epoch: `None` when the
/// seconds do not fit an `i64` or chrono cannot represent the instant.
pub fn utc_time_of(secs: u64, nanos: u32) -> (r: Option<(i64, i64)>)
    ensures
        secs > i64::MAX ==> r is None,
        secs <= SURE_EPOCH_SECONDS && nanos < 1_000_000_000 ==> r is Some,
        r matches Some((s, ms)) ==> s == secs && s <= MAX_EPOCH_SECONDS && ms == secs * 1000
            + nanos / 1_000_000,
{
    if secs > 9_223_372_036_854_775_807u64 {
        None
    } else {
        utc_timestamps(secs as i64, nanos)
    }
}

/// The current UTC time as seconds and as milliseconds since the Unix epoch,
/// as `chrono::Utc::now()` gives it, or `None` where that call would panic:
/// a system clock before 1970 or beyond chrono's range. The reading itself
/// is converted by `utc_time_of`.
pub fn current_time() -> (r: Option<(i64, i64)>)
    ensures
        r matches Some((s, ms)) ==> 0 <= s <= MAX_EPOCH_SECONDS && s * 1000 <= ms < s * 1000
            + 1000,
{
    let now = system_time_now();
    match since_unix_epoch(&now) {
        Some((secs, nanos)) => utc_time_of(secs, nanos),
        None => None,
    }
}

} // verus!
