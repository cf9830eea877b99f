//! Unix timestamps to calendar text in UTC and back.

use crate::calendar::{
    days_in_month, is_leap_year, is_ordinal_date, lemma_leap_year_cycle,
    lemma_midnight_of_ordinal_in_range, midnight_of_ordinal, timestamp_in_range, MAX_TIMESTAMP,
    MAX_YEAR, MIN_TIMESTAMP, MIN_YEAR,
};
use crate::chrono_calls::{format_utc, parse_utc, seconds_of, utc_from_ordinal, utc_now};
use crate::text::{
    date_text, date_time_shape, date_time_text, lemma_named_instant, lemma_written_instant,
    named_instant, names_instant, time_text, DATE_FORMAT, DATE_TIME_FORMAT, TIME_FORMAT,
};
use crate::time_format::{all_digits, is_digit, parse_field};
use chrono::ParseError;
use vstd::prelude::*;

verus! {

/// Whether `time_stamp` is an instant that can be written as a date and time.
pub fn is_supported_timestamp(time_stamp: i64) -> (supported: bool)
    ensures
        supported == timestamp_in_range(time_stamp as int),
{
    MIN_TIMESTAMP <= time_stamp && time_stamp <= MAX_TIMESTAMP
}

/// Whether the supported year `year` has 366 days.
fn leap_year(year: i32) -> (leap: bool)
    requires
        MIN_YEAR <= year <= MAX_YEAR,
    ensures
        leap == is_leap_year(year as int),
{
    // 400 000 years are a whole number of leap-year cycles.
    let shifted: u32 = (year + 400_000) as u32;
    let leap: bool = shifted % 4 == 0 && (shifted % 100 != 0 || shifted % 400 == 0);
    proof {
        lemma_leap_year_cycle(year as int);
        assert(leap == is_leap_year(shifted as int));
    }
    leap
}

/// The number of days of the month `month` of the supported year `year`.
fn month_length(year: i32, month: u32) -> (days: u32)
    requires
        MIN_YEAR <= year <= MAX_YEAR,
        1 <= month <= 12,
    ensures
        days == days_in_month(year as int, month as int),
{
    if month == 2 {
        if leap_year(year) {
            29
        } else {
            28
        }
    } else if month == 4 || month == 6 || month == 9 || month == 11 {
        30
    } else {
        31
    }
}

/// Whether `year` is a supported year that has a day number `day_of_year`.
pub fn is_supported_ordinal_date(year: i32, day_of_year: u32) -> (supported: bool)
    ensures
        supported == is_ordinal_date(year as int, day_of_year as int),
{
    if year < MIN_YEAR || year > MAX_YEAR {
        return false;
    }
    let leap: bool = leap_year(year);
    let days: u32 = if leap {
        366
    } else {
        365
    };
    1 <= day_of_year && day_of_year <= days
}

/// The current time of the system clock, in whole seconds from the epoch.
///
/// The clock decides the result, so nothing more is stated of it than that it
/// is an instant that can be written. `chrono` panics where the clock is set
/// before the epoch.
pub fn get_unix_timestamp_ms() -> (secs: i64)
    ensures
        0 <= secs <= MAX_TIMESTAMP,
{
    utc_now()
}

/// The date of `time_stamp` in UTC, as `YYYY-MM-DD`.
pub fn time_stamp_to_date(time_stamp: i64) -> (text: String)
    requires
        timestamp_in_range(time_stamp as int),
    ensures
        text@ == date_text(time_stamp as int),
{
    proof {
        reveal_strlit("%Y-%m-%d");
    }
    format_utc(time_stamp, DATE_FORMAT).unwrap()
}

/// The time of day of `time_stamp` in UTC, as `HH:MM:SS`.
pub fn time_stamp_to_time(time_stamp: i64) -> (text: String)
    requires
        timestamp_in_range(time_stamp as int),
    ensures
        text@ == time_text(time_stamp as int),
{
    proof {
        reveal_strlit("%Y-%m-%d");
        reveal_strlit("%H:%M:%S");
        assert(TIME_FORMAT@[1] != DATE_FORMAT@[1]);
    }
    format_utc(time_stamp, TIME_FORMAT).unwrap()
}

/// `time_stamp` in UTC, as `YYYY-MM-DD HH:MM:SS`.
pub fn time_stamp_to_date_time(time_stamp: i64) -> (text: String)
    requires
        timestamp_in_range(time_stamp as int),
    ensures
        text@ == date_time_text(time_stamp as int),
{
    proof {
        reveal_strlit("%Y-%m-%d");
        reveal_strlit("%H:%M:%S");
        reveal_strlit("%Y-%m-%d %H:%M:%S");
        assert(DATE_TIME_FORMAT@.len() != DATE_FORMAT@.len());
        assert(DATE_TIME_FORMAT@.len() != TIME_FORMAT@.len());
    }
    format_utc(time_stamp, DATE_TIME_FORMAT).unwrap()
}

/// The instant that a result of parsing holds, and zero where it holds none.
pub open spec fn seconds_or_zero(parsed: Option<int>) -> int {
    match parsed {
        Some(secs) => secs,
        None => 0,
    }
}

/// The instant that was read, or zero where the text was rejected.
pub fn timestamp_or_zero(parsed: Result<i64, ParseError>) -> (secs: i64)
    ensures
        secs == seconds_or_zero(seconds_of(parsed)),
{
    match parsed {
        Ok(secs) => secs,
        Err(_) => 0,
    }
}

/// Whether only digits stand in `text` from `from` up to `to`.
fn digits_between(text: &str, from: usize, to: usize) -> (r: bool)
    requires
        from <= to <= text@.len(),
    ensures
        r == all_digits(text@.subrange(from as int, to as int)),
{
    let ghost part = text@.subrange(from as int, to as int);
    let mut i: usize = from;
    while i < to
        invariant
            from <= i <= to <= text@.len(),
            part == text@.subrange(from as int, to as int),
            forall|j: int| 0 <= j < i - from ==> is_digit(#[trigger] part[j]),
        decreases to - i,
    {
        let c: char = text.get_char(i);
        if c < '0' || c > '9' {
            assert(!is_digit(part[i - from]));
            return false;
        }
        i = i + 1;
    }
    true
}

/// Whether `date` has the shape `YYYY-MM-DD HH:MM:SS`, with a year of four
/// digits or a signed year.
pub fn has_date_time_shape(date: &str) -> (r: bool)
    ensures
        r == date_time_shape(date@),
{
    let len: usize = date.unicode_len();
    if len < 19 {
        return false;
    }
    let n: usize = len - 15;
    let first: char = date.get_char(0);
    proof {
        assert(date@.take(n as int) =~= date@.subrange(0, n as int));
        assert(date@.take(n as int).skip(1) =~= date@.subrange(1, n as int));
    }
    let year_ok: bool = if first == '+' || first == '-' {
        n >= 5 && digits_between(date, 1, n)
    } else {
        n == 4 && digits_between(date, 0, n)
    };
    year_ok && date.get_char(n) == '-' && digits_between(date, n + 1, n + 3) && date.get_char(
        n + 3,
    ) == '-' && digits_between(date, n + 4, n + 6) && date.get_char(n + 6) == ' '
        && digits_between(date, n + 7, n + 9) && date.get_char(n + 9) == ':' && digits_between(
        date,
        n + 10,
        n + 12,
    ) && date.get_char(n + 12) == ':' && digits_between(date, n + 13, n + 15)
}

/// Whether `date` is a supported instant as it is written: `YYYY-MM-DD
/// HH:MM:SS` with nothing before or behind, each number with all its digits,
/// and the numbers those of a date and a time of day that exist.
pub fn is_written_instant(date: &str) -> (r: bool)
    ensures
        r == names_instant(date@),
{
    if !has_date_time_shape(date) {
        return false;
    }
    let len: usize = date.unicode_len();
    let n: usize = len - 15;
    let first: char = date.get_char(0);
    let signed: bool = first == '+' || first == '-';
    let start: usize = if signed {
        1
    } else {
        0
    };
    proof {
        assert(date@.take(n as int) =~= date@.subrange(0, n as int));
        assert(date@.take(n as int).skip(1) =~= date@.subrange(1, n as int));
    }
    if signed {
        if n == 5 {
            if first != '-' {
                return false;
            }
        } else if date.get_char(1) == '0' {
            return false;
        }
    }
    let magnitude: Option<u32> = parse_field(date, start, n);
    if magnitude.is_none() {
        return false;
    }
    let v: u32 = magnitude.unwrap();
    if signed && n == 5 && v == 0 {
        return false;
    }
    if first == '-' {
        if v > 262_143 {
            return false;
        }
    } else if v > 262_142 {
        return false;
    }
    let year: i32 = if first == '-' {
        -(v as i32)
    } else {
        v as i32
    };
    let month: Option<u32> = parse_field(date, n + 1, n + 3);
    let day: Option<u32> = parse_field(date, n + 4, n + 6);
    let hour: Option<u32> = parse_field(date, n + 7, n + 9);
    let minute: Option<u32> = parse_field(date, n + 10, n + 12);
    let second: Option<u32> = parse_field(date, n + 13, n + 15);
    if month.is_none() || day.is_none() || hour.is_none() || minute.is_none() || second.is_none() {
        return false;
    }
    let month: u32 = month.unwrap();
    let day: u32 = day.unwrap();
    if month < 1 || month > 12 || day < 1 {
        return false;
    }
    day <= month_length(year, month) && hour.unwrap() < 24 && minute.unwrap() < 60
        && second.unwrap() < 60
}

/// The instant that `date` shows as `YYYY-MM-DD HH:MM:SS` in UTC, and zero
/// where `date` is not a supported instant as it is written. Zero is also what
/// the epoch itself is read as.
///
/// So any text gives zero that has numbers of fewer digits, blanks in front,
/// anything behind the seconds, a number out of its range, or a day that its
/// month has not. A text that `time_stamp_to_date_time` gives for an instant
/// is read as that instant; by `lemma_date_time_text_injective` it is the text
/// of no other.
pub fn date_time_to_time_stamp(date: &str) -> (secs: i64)
    ensures
        secs == if names_instant(date@) {
            named_instant(date@)
        } else {
            0
        },
        timestamp_in_range(secs as int),
        forall|ts: int|
            timestamp_in_range(ts) && date@ == #[trigger] date_time_text(ts) ==> secs == ts,
{
    if !is_written_instant(date) {
        proof {
            assert forall|ts: int|
                timestamp_in_range(ts) && date@ == #[trigger] date_time_text(ts) implies false by {
                lemma_written_instant(ts);
            }
        }
        return 0;
    }
    proof {
        lemma_named_instant(date@);
    }
    timestamp_or_zero(parse_utc(date, DATE_TIME_FORMAT))
}

/// The instant at which the `day_of_year`-th day of `year` begins in UTC.
pub fn time_stamp_from_year_and_day(year: i32, day_of_year: u32) -> (secs: i64)
    requires
        is_ordinal_date(year as int, day_of_year as int),
    ensures
        secs == midnight_of_ordinal(year as int, day_of_year as int),
        timestamp_in_range(secs as int),
{
    proof {
        lemma_midnight_of_ordinal_in_range(year as int, day_of_year as int);
    }
    utc_from_ordinal(year, day_of_year, 0, 0, 0).unwrap()
}

} // verus!
