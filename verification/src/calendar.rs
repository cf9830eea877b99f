//! The proleptic Gregorian calendar in UTC, counted in days and seconds from
//! the Unix epoch, midnight of 1 January 1970.

use vstd::prelude::*;

verus! {

/// The seconds of one day; UTC days as counted here have no leap seconds.
pub const SECONDS_PER_DAY: i64 = 86_400;

/// The first year of the supported range (262144 BCE).
pub const MIN_YEAR: i32 = -262_143;

/// The last year of the supported range.
pub const MAX_YEAR: i32 = 262_142;

/// The first supported instant: midnight of 1 January of `MIN_YEAR`.
pub const MIN_TIMESTAMP: i64 = -8_334_601_228_800;

/// The last supported instant: 23:59:59 of 31 December of `MAX_YEAR`.
pub const MAX_TIMESTAMP: i64 = 8_210_266_876_799;

/// Whether `ts`, in seconds from the epoch, lies in the supported range.
pub open spec fn timestamp_in_range(ts: int) -> bool {
    MIN_TIMESTAMP <= ts <= MAX_TIMESTAMP
}

/// Whether `year` has 366 days. Year 0 is 1 BCE, and the rule holds for the
/// years before it as for those after.
pub open spec fn is_leap_year(year: int) -> bool {
    year % 4 == 0 && (year % 100 != 0 || year % 400 == 0)
}

/// The number of days of `year`.
pub open spec fn days_in_year(year: int) -> int {
    if is_leap_year(year) {
        366
    } else {
        365
    }
}

/// The number of days of the month `month`, 1 to 12, of `year`.
pub open spec fn days_in_month(year: int, month: int) -> int {
    if month == 2 {
        if is_leap_year(year) {
            29
        } else {
            28
        }
    } else if month == 4 || month == 6 || month == 9 || month == 11 {
        30
    } else {
        31
    }
}

/// The number of days of `year` that pass before the first of `month`.
pub open spec fn days_before_month(year: int, month: int) -> int
    decreases month,
{
    if month <= 1 {
        0
    } else {
        days_before_month(year, month - 1) + days_in_month(year, month - 1)
    }
}

/// The number of leap years from year 1 through `year`; for a year before 1,
/// minus the number of leap years after it through year 0.
pub open spec fn leap_years_through(year: int) -> int {
    year / 4 - year / 100 + year / 400
}

/// The number of days from the epoch to 1 January of `year`, negative for the
/// years before 1970.
pub open spec fn days_before_year(year: int) -> int {
    365 * (year - 1970) + leap_years_through(year - 1) - leap_years_through(1969)
}

/// The year in which the day `day` falls, days counted from the epoch.
pub open spec fn year_of_day(day: int) -> int {
    choose|year: int| #[trigger] days_before_year(year) <= day < days_before_year(year + 1)
}

/// The month in which the `ordinal`-th day of `year` falls, the first day of
/// the year being day 1.
pub open spec fn month_of_ordinal(year: int, ordinal: int) -> int {
    choose|month: int|
        1 <= month <= 12 && #[trigger] days_before_month(year, month) < ordinal
            <= days_before_month(year, month) + days_in_month(year, month)
}

/// The day on which the instant `ts` falls, counted from the epoch.
pub open spec fn day_number(ts: int) -> int {
    ts / (SECONDS_PER_DAY as int)
}

/// The seconds that have passed of its day at the instant `ts`.
pub open spec fn second_of_day(ts: int) -> int {
    ts % (SECONDS_PER_DAY as int)
}

/// The calendar year of the instant `ts`.
pub open spec fn year_of(ts: int) -> int {
    year_of_day(day_number(ts))
}

/// The day of the year of the instant `ts`, from 1.
pub open spec fn ordinal_of(ts: int) -> int {
    day_number(ts) - days_before_year(year_of(ts)) + 1
}

/// The month of the instant `ts`, 1 to 12.
pub open spec fn month_of(ts: int) -> int {
    month_of_ordinal(year_of(ts), ordinal_of(ts))
}

/// The day of the month of the instant `ts`, from 1.
pub open spec fn day_of(ts: int) -> int {
    ordinal_of(ts) - days_before_month(year_of(ts), month_of(ts))
}

/// The hour of the day of the instant `ts`, 0 to 23.
pub open spec fn hour_of(ts: int) -> int {
    second_of_day(ts) / 3600
}

/// The minute of the hour of the instant `ts`, 0 to 59.
pub open spec fn minute_of(ts: int) -> int {
    (second_of_day(ts) / 60) % 60
}

/// The second of the minute of the instant `ts`, 0 to 59.
pub open spec fn second_of(ts: int) -> int {
    second_of_day(ts) % 60
}

/// Whether the three numbers name a time of day.
pub open spec fn is_time_of_day(hour: int, minute: int, second: int) -> bool {
    0 <= hour < 24 && 0 <= minute < 60 && 0 <= second < 60
}

/// The seconds of its day that have passed at a time of day.
pub open spec fn seconds_into_day(hour: int, minute: int, second: int) -> int {
    hour * 3600 + minute * 60 + second
}

/// Whether the six numbers name a date and a time of day that exist.
pub open spec fn is_civil(year: int, month: int, day: int, hour: int, minute: int, second: int)
    -> bool {
    &&& 1 <= month <= 12
    &&& 1 <= day <= days_in_month(year, month)
    &&& is_time_of_day(hour, minute, second)
}

/// The instant, in seconds from the epoch, that the six numbers name.
pub open spec fn epoch_seconds(
    year: int,
    month: int,
    day: int,
    hour: int,
    minute: int,
    second: int,
) -> int {
    (days_before_year(year) + days_before_month(year, month) + day - 1) * (SECONDS_PER_DAY as int)
        + seconds_into_day(hour, minute, second)
}

/// Whether `year` has a day number `ordinal`, in the supported range of years.
pub open spec fn is_ordinal_date(year: int, ordinal: int) -> bool {
    MIN_YEAR <= year <= MAX_YEAR && 1 <= ordinal <= days_in_year(year)
}

/// The instant at which the `ordinal`-th day of `year` begins.
pub open spec fn midnight_of_ordinal(year: int, ordinal: int) -> int {
    (days_before_year(year) + ordinal - 1) * (SECONDS_PER_DAY as int)
}

/// The leap years come round again every 400 years, and so after 400 000.
pub proof fn lemma_leap_year_cycle(year: int)
    ensures
        is_leap_year(year + 400_000) == is_leap_year(year),
{
    assert((year + 400_000) % 4 == year % 4);
    assert((year + 400_000) % 100 == year % 100);
    assert((year + 400_000) % 400 == year % 400);
}

/// A multiple of 400 is one of 100, and a multiple of 100 is one of 4.
proof fn lemma_century_multiples(year: int)
    ensures
        year % 400 == 0 ==> year % 100 == 0,
        year % 100 == 0 ==> year % 4 == 0,
{
    if year % 400 == 0 {
        assert(year == 100 * (4 * (year / 400)));
    }
    if year % 100 == 0 {
        assert(year == 4 * (25 * (year / 100)));
    }
}

/// Dividing by 4 gives one more for a number than for the one before it
/// exactly where the number is a multiple of 4; so for 100 and for 400.
proof fn lemma_quotient_steps(year: int)
    ensures
        year / 4 - (year - 1) / 4 == if year % 4 == 0 { 1int } else { 0int },
        year / 100 - (year - 1) / 100 == if year % 100 == 0 { 1int } else { 0int },
        year / 400 - (year - 1) / 400 == if year % 400 == 0 { 1int } else { 0int },
{
}

/// The count of leap years grows by one at each leap year and nowhere else.
pub proof fn lemma_leap_years_through_step(year: int)
    ensures
        leap_years_through(year) == leap_years_through(year - 1) + if is_leap_year(year) {
            1int
        } else {
            0int
        },
{
    lemma_century_multiples(year);
    lemma_quotient_steps(year);
}

/// The epoch is the first day of 1970, and each year begins when the days of
/// the year before it have passed.
pub proof fn lemma_days_before_year_step(year: int)
    ensures
        days_before_year(1970) == 0,
        days_before_year(year + 1) == days_before_year(year) + days_in_year(year),
{
    lemma_leap_years_through_step(year);
}

/// Later years begin later: between the first days of two years lie at least
/// 365 and at most 366 days for each year that passes.
pub proof fn lemma_days_before_year_monotonic(from: int, to: int)
    requires
        from <= to,
    ensures
        days_before_year(from) + 365 * (to - from) <= days_before_year(to),
        days_before_year(to) <= days_before_year(from) + 366 * (to - from),
    decreases to - from,
{
    if from < to {
        lemma_days_before_year_monotonic(from, to - 1);
        lemma_days_before_year_step(to - 1);
    }
}

/// A day that lies between the first days of two years falls in one of the
/// years from the first up to the second.
proof fn lemma_year_between(day: int, low: int, high: int)
    requires
        low < high,
        days_before_year(low) <= day < days_before_year(high),
    ensures
        exists|year: int| #[trigger] days_before_year(year) <= day < days_before_year(year + 1),
    decreases high - low,
{
    if day < days_before_year(high - 1) {
        lemma_year_between(day, low, high - 1);
    } else {
        let year = high - 1;
        assert(days_before_year(year) <= day < days_before_year(year + 1));
    }
}

/// Every day falls in a year: on or after its first day, and before the first
/// day of the next.
pub proof fn lemma_year_of_day(day: int)
    ensures
        days_before_year(year_of_day(day)) <= day < days_before_year(year_of_day(day) + 1),
{
    lemma_days_before_year_step(0);
    if day >= 0 {
        let high = 1970 + day / 365 + 1;
        lemma_days_before_year_monotonic(1970, high);
        lemma_year_between(day, 1970, high);
    } else {
        let low = 1970 + day / 365;
        lemma_days_before_year_monotonic(low, 1970);
        lemma_year_between(day, low, 1970);
    }
}

/// A day falls in no year but one.
pub proof fn lemma_year_of_day_unique(day: int, year: int)
    requires
        days_before_year(year) <= day < days_before_year(year + 1),
    ensures
        year_of_day(day) == year,
{
    lemma_year_of_day(day);
    let found = year_of_day(day);
    if found < year {
        lemma_days_before_year_monotonic(found + 1, year);
    } else if found > year {
        lemma_days_before_year_monotonic(year + 1, found);
    }
}

/// The months of a year fill it: the days before a month grow with the month,
/// and after the twelfth month the days of the year have passed.
pub proof fn lemma_days_before_month(year: int, month: int)
    requires
        1 <= month <= 12,
    ensures
        0 <= days_before_month(year, month),
        month < 12 ==> days_before_month(year, month) + days_in_month(year, month)
            == days_before_month(year, month + 1),
        days_before_month(year, month) + days_in_month(year, month) <= days_in_year(year),
        days_before_month(year, 12) + days_in_month(year, 12) == days_in_year(year),
        month <= 2 ==> days_before_month(year, month) == 31 * (month - 1),
{
    reveal_with_fuel(days_before_month, 13);
}

/// Every day of a year falls in a month.
pub proof fn lemma_month_of_ordinal(year: int, ordinal: int)
    requires
        1 <= ordinal <= days_in_year(year),
    ensures
        1 <= month_of_ordinal(year, ordinal) <= 12,
        days_before_month(year, month_of_ordinal(year, ordinal)) < ordinal <= days_before_month(
            year,
            month_of_ordinal(year, ordinal),
        ) + days_in_month(year, month_of_ordinal(year, ordinal)),
{
    lemma_days_before_month(year, 12);
    lemma_month_between(year, ordinal, 12);
}

/// A day of the year that the first `high` months hold falls in one of them.
proof fn lemma_month_between(year: int, ordinal: int, high: int)
    requires
        1 <= high <= 12,
        1 <= ordinal <= days_before_month(year, high) + days_in_month(year, high),
    ensures
        exists|month: int|
            1 <= month <= 12 && #[trigger] days_before_month(year, month) < ordinal
                <= days_before_month(year, month) + days_in_month(year, month),
    decreases high,
{
    if ordinal <= days_before_month(year, high) {
        lemma_month_between(year, ordinal, high - 1);
    } else {
        assert(1 <= high <= 12 && days_before_month(year, high) < ordinal <= days_before_month(
            year,
            high,
        ) + days_in_month(year, high));
    }
}

/// A day of the year falls in no month but one.
pub proof fn lemma_month_of_ordinal_unique(year: int, month: int, day: int)
    requires
        1 <= month <= 12,
        1 <= day <= days_in_month(year, month),
    ensures
        month_of_ordinal(year, days_before_month(year, month) + day) == month,
{
    let ordinal = days_before_month(year, month) + day;
    lemma_days_before_month(year, month);
    lemma_month_of_ordinal(year, ordinal);
    let found = month_of_ordinal(year, ordinal);
    if found < month {
        lemma_days_before_month_monotonic(year, found + 1, month);
        lemma_days_before_month(year, found);
    } else if found > month {
        lemma_days_before_month_monotonic(year, month + 1, found);
        lemma_days_before_month(year, month);
    }
}

/// Later months begin later.
proof fn lemma_days_before_month_monotonic(year: int, from: int, to: int)
    requires
        1 <= from <= to <= 12,
    ensures
        days_before_month(year, from) <= days_before_month(year, to),
    decreases to - from,
{
    if from < to {
        lemma_days_before_month_monotonic(year, from, to - 1);
    }
}

/// The calendar numbers of an instant name a date and a time that exist, and
/// they name that instant.
pub proof fn lemma_civil_of_instant(ts: int)
    ensures
        is_civil(
            year_of(ts),
            month_of(ts),
            day_of(ts),
            hour_of(ts),
            minute_of(ts),
            second_of(ts),
        ),
        epoch_seconds(
            year_of(ts),
            month_of(ts),
            day_of(ts),
            hour_of(ts),
            minute_of(ts),
            second_of(ts),
        ) == ts,
{
    lemma_year_of_day(day_number(ts));
    lemma_days_before_year_step(year_of(ts));
    lemma_month_of_ordinal(year_of(ts), ordinal_of(ts));
}

/// The instant that six numbers name has those numbers as its calendar
/// numbers: no two dates and times that exist name the same instant.
pub proof fn lemma_instant_of_civil(
    year: int,
    month: int,
    day: int,
    hour: int,
    minute: int,
    second: int,
)
    requires
        is_civil(year, month, day, hour, minute, second),
    ensures
        year_of(epoch_seconds(year, month, day, hour, minute, second)) == year,
        month_of(epoch_seconds(year, month, day, hour, minute, second)) == month,
        day_of(epoch_seconds(year, month, day, hour, minute, second)) == day,
        hour_of(epoch_seconds(year, month, day, hour, minute, second)) == hour,
        minute_of(epoch_seconds(year, month, day, hour, minute, second)) == minute,
        second_of(epoch_seconds(year, month, day, hour, minute, second)) == second,
{
    let ts = epoch_seconds(year, month, day, hour, minute, second);
    let days = days_before_year(year) + days_before_month(year, month) + day - 1;
    let seconds = hour * 3600 + minute * 60 + second;
    assert(ts == days * 86_400 + seconds);
    assert(day_number(ts) == days && second_of_day(ts) == seconds);
    lemma_days_before_month(year, month);
    lemma_days_before_year_step(year);
    lemma_year_of_day_unique(days, year);
    lemma_month_of_ordinal_unique(year, month, day);
}

/// The supported instants are those of the supported years.
pub proof fn lemma_timestamp_range(ts: int)
    ensures
        timestamp_in_range(ts) <==> MIN_YEAR <= year_of(ts) <= MAX_YEAR,
{
    let year = year_of(ts);
    lemma_year_of_day(day_number(ts));
    assert(days_before_year(MIN_YEAR as int) * 86_400 == MIN_TIMESTAMP);
    assert(days_before_year(MAX_YEAR + 1) * 86_400 - 1 == MAX_TIMESTAMP);
    if year < MIN_YEAR {
        lemma_days_before_year_monotonic(year + 1, MIN_YEAR as int);
    } else {
        lemma_days_before_year_monotonic(MIN_YEAR as int, year);
    }
    if year > MAX_YEAR {
        lemma_days_before_year_monotonic(MAX_YEAR + 1, year);
    } else {
        lemma_days_before_year_monotonic(year + 1, MAX_YEAR + 1);
    }
}

/// The instant at which the `ordinal`-th day of `year` begins is midnight of
/// that day of that year, whether or not the year is a leap year.
pub proof fn lemma_midnight_of_ordinal_date(year: int, ordinal: int)
    requires
        1 <= ordinal <= days_in_year(year),
    ensures
        year_of(midnight_of_ordinal(year, ordinal)) == year,
        ordinal_of(midnight_of_ordinal(year, ordinal)) == ordinal,
        second_of_day(midnight_of_ordinal(year, ordinal)) == 0,
{
    let days = days_before_year(year) + ordinal - 1;
    assert(midnight_of_ordinal(year, ordinal) == days * 86_400);
    assert(day_number(midnight_of_ordinal(year, ordinal)) == days);
    lemma_days_before_year_step(year);
    lemma_year_of_day_unique(days, year);
}

/// The days of the supported years begin at supported instants.
pub proof fn lemma_midnight_of_ordinal_in_range(year: int, ordinal: int)
    requires
        is_ordinal_date(year, ordinal),
    ensures
        timestamp_in_range(midnight_of_ordinal(year, ordinal)),
{
    lemma_days_before_year_step(year);
    lemma_days_before_year_monotonic(MIN_YEAR as int, year);
    lemma_days_before_year_monotonic(year + 1, MAX_YEAR + 1);
    assert(days_before_year(MIN_YEAR as int) * 86_400 == MIN_TIMESTAMP);
    assert(days_before_year(MAX_YEAR + 1) * 86_400 - 1 == MAX_TIMESTAMP);
}

} // verus!
