use chrono::Datelike;
use vstd::prelude::*;

verus! {

/// A calendar day in the proleptic Gregorian calendar, as the day logic reads it.
#[derive(Debug, Clone, Copy, PartialEq, Eq, Structural)]
pub struct CalendarDay {
    /// Days since the start of the common era; 1 January of year 1 is day 1.
    pub day_number: i32,
    /// Day of the week, Monday being 0.
    pub weekday: u8,
    /// Day of the month, the first being 0.
    pub day0: u8,
}

impl CalendarDay {
    pub open spec fn wf(self) -> bool {
        self.weekday < 7 && self.day0 < 31
    }
}

/// What chrono makes of a UTC timestamp in seconds: days from the common era,
/// weekday from Monday and day of the month from 0, or nothing out of range.
pub uninterp spec fn utc_day_of(secs: int) -> Option<(i32, u32, u32)>;

/// Relies on chrono's `DateTime::from_timestamp` (None out of its range) and on
/// its `Datelike` accessors `num_days_from_ce`, `weekday` and `day0`, whose
/// documentation bounds the weekday to 0..=6 and the day of month to 0..=30.
#[verifier::external_body]
fn utc_day(secs: i64) -> (r: Option<(i32, u32, u32)>)
    ensures
        r == utc_day_of(secs as int),
        r matches Some(c) ==> c.1 < 7 && c.2 < 31,
{
    match chrono::DateTime::from_timestamp(secs, 0) {
        Some(t) => Some((t.num_days_from_ce(), t.weekday().num_days_from_monday(), t.day0())),
        None => None,
    }
}

/// The UTC calendar day of a minute counted from the Unix epoch, when chrono
/// can represent it.
pub open spec fn day_of_minute(minute: int) -> Option<CalendarDay> {
    if minute * 60 < i64::MIN || minute * 60 > i64::MAX {
        None
    } else {
        match utc_day_of(minute * 60) {
            Some(c) => Some(CalendarDay { day_number: c.0, weekday: c.1 as u8, day0: c.2 as u8 }),
            None => None,
        }
    }
}

/// The UTC calendar day of a minute counted from the Unix epoch.
pub fn calendar_day(minute: i64) -> (r: Option<CalendarDay>)
    ensures
        r == day_of_minute(minute as int),
        r matches Some(c) ==> c.wf(),
{
    if minute < i64::MIN / 60 || minute > i64::MAX / 60 {
        return None;
    }
    match utc_day(minute * 60) {
        Some(c) => Some(CalendarDay { day_number: c.0, weekday: c.1 as u8, day0: c.2 as u8 }),
        None => None,
    }
}

/// What chrono reads from `s` with the format `fmt`: the date and time, taken
/// as UTC, in seconds since the Unix epoch; nothing where `s` does not match.
pub uninterp spec fn naive_utc_seconds_of(s: Seq<char>, fmt: Seq<char>) -> Option<i64>;

/// Relies on chrono's `NaiveDateTime::parse_from_str`, and on `and_utc` and
/// `timestamp` to count the parsed date and time in seconds from the epoch.
#[verifier::external_body]
fn naive_utc_seconds(s: &str, fmt: &str) -> (r: Option<i64>)
    ensures
        r == naive_utc_seconds_of(s@, fmt@),
{
    match chrono::NaiveDateTime::parse_from_str(s, fmt) {
        Ok(t) => Some(t.and_utc().timestamp()),
        Err(_) => None,
    }
}

/// The minute, counted from the Unix epoch, of the seconds `secs`, rounding down.
pub open spec fn minute_of_seconds(secs: int) -> int {
    secs / 60
}

/// Reads a date and time in the format `fmt` as UTC, and gives its minute
/// counted from the Unix epoch, rounding down.
pub fn parse_minute(s: &str, fmt: &str) -> (r: Option<i64>)
    ensures
        r == match naive_utc_seconds_of(s@, fmt@) {
            Some(secs) => Some(minute_of_seconds(secs as int) as i64),
            None => None,
        },
{
    match naive_utc_seconds(s, fmt) {
        Some(secs) => {
            let wide = secs as i128;
            let m: i128 = if wide >= 0 {
                wide / 60
            } else {
                -((-wide + 59) / 60)
            };
            proof {
                assert(m == minute_of_seconds(secs as int)) by (nonlinear_arith)
                    requires
                        wide == secs,
                        wide >= 0 ==> m == wide / 60,
                        wide < 0 ==> m == -((-wide + 59) / 60),
                ;
            }
            Some(m as i64)
        },
        None => None,
    }
}

} // verus!
