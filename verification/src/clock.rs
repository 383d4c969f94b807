//! The boundary to the system clock and the local time zone.
//!
//! Only these two wrappers touch the date-time library; everything they
//! return is plain values that the verified code checks or carries along.

use vstd::prelude::*;
use crate::time::{Date, Timestamp};
use chrono::{Datelike, Timelike, TimeZone};

verus! {

/// Relies on chrono's `Local::now` and the `Datelike`/`Timelike` accessors:
/// the result is the current local civil time, a real calendar date whose
/// month, day and time-of-day fields lie in their documented ranges, and
/// `FixedOffset::local_minus_utc`, whose magnitude is under a day.
#[verifier::external_body]
fn local_now_raw() -> (r: Timestamp)
    ensures
        -86400 < r.offset_seconds < 86400,
        1 <= r.date.year <= 9999 ==> r.valid(),
{
    let now = chrono::Local::now();
    Timestamp {
        date: Date {
            year: now.year() as i64,
            month: now.month() as u8,
            day: now.day() as u8,
        },
        hour: now.hour() as u8,
        minute: now.minute() as u8,
        second: now.second() as u8,
        offset_seconds: now.offset().local_minus_utc(),
    }
}

/// The current local time, refused in the unreachable case that the clock
/// reports a year outside the supported range.
pub fn now_local() -> (r: Option<Timestamp>)
    ensures
        r matches Some(t) ==> t.valid(),
{
    let t = local_now_raw();
    if t.valid_exec() {
        Some(t)
    } else {
        None
    }
}

/// Relies on chrono's `Local.from_local_datetime` and
/// `FixedOffset::local_minus_utc`: when the given civil time exists once in
/// the local zone, the result is that zone's UTC offset in seconds, with
/// magnitude under a day; an ambiguous or skipped local time gives `None`.
#[verifier::external_body]
pub(crate) fn local_offset(date: Date, hour: u8, minute: u8) -> (r: Option<i32>)
    requires
        date.valid(),
        hour <= 23,
        minute <= 59,
    ensures
        r matches Some(o) ==> -86400 < o < 86400,
{
    let nd = match chrono::NaiveDate::from_ymd_opt(date.year as i32, date.month as u32, date.day as u32) {
        Some(d) => d,
        None => { return None; },
    };
    let ndt = match nd.and_hms_opt(hour as u32, minute as u32, 0) {
        Some(t) => t,
        None => { return None; },
    };
    match chrono::Local.from_local_datetime(&ndt).single() {
        Some(dt) => Some(dt.offset().local_minus_utc()),
        None => None,
    }
}

} // verus!
