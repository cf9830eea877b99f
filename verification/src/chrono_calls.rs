//! The calls into `chrono`. What stands in this file is believed, not proved:
//! each function's contract says what `chrono` is relied on to do.

use crate::calendar::{
    is_ordinal_date, is_time_of_day, midnight_of_ordinal, seconds_into_day, timestamp_in_range,
    MAX_TIMESTAMP,
};
use crate::text::{date_time_text, is_layout, utc_text, DATE_TIME_FORMAT};
use chrono::{NaiveDate, NaiveDateTime, ParseError, TimeZone, Utc};
use vstd::prelude::*;

verus! {

/// `chrono::ParseError`, the reason why a text was not read. Nothing is known
/// of what it holds.
#[verifier::external_type_specification]
#[verifier::external_body]
pub struct ExParseError(chrono::ParseError);

/// The instant that a result of parsing holds, if it holds one.
pub open spec fn seconds_of(parsed: Result<i64, ParseError>) -> Option<int> {
    match parsed {
        Ok(secs) => Some(secs as int),
        Err(_) => None,
    }
}

/// `Utc::now` and `DateTime::timestamp`: the system clock's time in whole
/// seconds from the epoch. `chrono` gives no instant before the epoch or after
/// the last supported one: it panics where the clock is set before 1970.
#[verifier::external_body]
pub(crate) fn utc_now() -> (secs: i64)
    ensures
        0 <= secs <= MAX_TIMESTAMP,
{
    Utc::now().timestamp()
}

/// `NaiveDateTime::from_timestamp_opt`, `TimeZone::from_utc_datetime` for `Utc`
/// and `DateTime::format`: the instant `secs` written in one of the three
/// layouts. `chrono` makes a date and time of exactly the supported instants,
/// and writes the year with `%Y`, the two-digit numbers with `%m`, `%d`, `%H`,
/// `%M` and `%S`, and every other character of these layouts as it stands.
#[verifier::external_body]
#[allow(deprecated)]
pub(crate) fn format_utc(secs: i64, pattern: &str) -> (text: Option<String>)
    requires
        is_layout(pattern@),
    ensures
        text is Some <==> timestamp_in_range(secs as int),
        text matches Some(t) ==> t@ == utc_text(secs as int, pattern@),
{
    match NaiveDateTime::from_timestamp_opt(secs, 0) {
        Some(naive) => Some(Utc.from_utc_datetime(&naive).format(pattern).to_string()),
        None => None,
    }
}

/// `NaiveDateTime::parse_from_str` and `NaiveDateTime::timestamp`: the instant
/// that `text` shows in the layout of a date with a time. A text that is a
/// supported instant as written in this layout is read by `chrono` as that
/// instant. Of what `chrono` makes of any other text nothing is claimed.
#[verifier::external_body]
#[allow(deprecated)]
pub(crate) fn parse_utc(text: &str, pattern: &str) -> (parsed: Result<i64, ParseError>)
    requires
        pattern@ == DATE_TIME_FORMAT@,
    ensures
        forall|ts: int|
            timestamp_in_range(ts) && text@ == #[trigger] date_time_text(ts) ==> seconds_of(parsed)
                == Some(ts),
{
    match NaiveDateTime::parse_from_str(text, pattern) {
        Ok(naive) => Ok(naive.timestamp()),
        Err(error) => Err(error),
    }
}

/// `NaiveDate::from_yo_opt`, `NaiveDate::and_hms_opt`,
/// `TimeZone::from_utc_datetime` for `Utc` and `DateTime::timestamp`: the
/// instant of a time of day on the `ordinal`-th day of `year`. `chrono` has it
/// where the year is supported and has such a day, and the time of day exists.
#[verifier::external_body]
pub(crate) fn utc_from_ordinal(
    year: i32,
    ordinal: u32,
    hour: u32,
    minute: u32,
    second: u32,
) -> (secs: Option<i64>)
    ensures
        secs is Some <==> (is_ordinal_date(year as int, ordinal as int) && is_time_of_day(
            hour as int,
            minute as int,
            second as int,
        )),
        secs matches Some(s) ==> s == midnight_of_ordinal(year as int, ordinal as int)
            + seconds_into_day(hour as int, minute as int, second as int),
{
    match NaiveDate::from_yo_opt(year, ordinal) {
        Some(date) => match date.and_hms_opt(hour, minute, second) {
            Some(naive) => Some(Utc.from_utc_datetime(&naive).timestamp()),
            None => None,
        },
        None => None,
    }
}

} // verus!
