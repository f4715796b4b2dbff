//! The server's clock: the instant that token expiry is checked against,
//! and the UTC date that a new value is recorded under.

use vstd::prelude::*;
use crate::date::Date;
use crate::error::Error;

verus! {

/// Relies on `time::OffsetDateTime::now_utc`, read once, with
/// `unix_timestamp` and `to_calendar_date`: the current instant in whole
/// seconds since the Unix epoch, and its UTC date as year, month number and
/// day. Any values may come back.
#[verifier::external_body]
fn clock_now() -> (r: (i64, i32, u8, u8)) {
    let now = time::OffsetDateTime::now_utc();
    let (year, month, day) = now.to_calendar_date();
    (now.unix_timestamp(), year, month as u8, day)
}

/// Seconds since the Unix epoch for a clock reading; an instant before the
/// epoch counts as 0.
pub fn seconds_from_unix(t: i64) -> (r: u64)
    ensures
        r == (if t < 0 { 0 } else { t as u64 }),
{
    if t < 0 {
        0
    } else {
        t as u64
    }
}

/// The date of a clock reading; `TimeFormat` where it is no date of the
/// years 0 to 9999.
pub fn date_from_clock(year: i32, month: u8, day: u8) -> (r: Result<Date, Error>)
    ensures
        r == (if 0 <= year <= 9999 && (Date { year: year as u16, month, day }).wf() {
            Ok::<Date, Error>(Date { year: year as u16, month, day })
        } else {
            Err(Error::TimeFormat)
        }),
{
    if year < 0 || year > 9999 {
        return Err(Error::TimeFormat);
    }
    match Date::new(year as u16, month, day) {
        Some(d) => Ok(d),
        None => Err(Error::TimeFormat),
    }
}

/// Seconds since the Unix epoch, now.
pub fn now_seconds() -> (r: u64) {
    let (t, _, _, _) = clock_now();
    seconds_from_unix(t)
}

/// Today's date in UTC; `TimeFormat` if the clock stands outside the years
/// 0 to 9999.
pub fn today() -> (r: Result<Date, Error>)
    ensures
        r matches Ok(d) ==> d.wf(),
        r is Ok || r == Err::<Date, Error>(Error::TimeFormat),
{
    let (_, year, month, day) = clock_now();
    date_from_clock(year, month, day)
}

} // verus!
