//! How instants and times are written: dates as `YYYY-MM-DD`, times of day as
//! `HH:MM:SS`, both together with a space between, and times with
//! milliseconds as `HH:MM:SS.mmm`.

use crate::calendar::{
    day_of, epoch_seconds, hour_of, is_civil, lemma_civil_of_instant, lemma_instant_of_civil,
    lemma_timestamp_range, minute_of, month_of, second_of, timestamp_in_range, year_of, MAX_YEAR,
    MIN_YEAR,
};
use crate::time_format::{
    all_digits, decimal_value, digit_value, is_digit, lemma_decimal_value_prefix,
};
use vstd::prelude::*;

verus! {

/// The layout of a date, in the notation of `strftime`.
pub const DATE_FORMAT: &'static str = "%Y-%m-%d";

/// The layout of a time of day.
pub const TIME_FORMAT: &'static str = "%H:%M:%S";

/// The layout of a date with a time of day.
pub const DATE_TIME_FORMAT: &'static str = "%Y-%m-%d %H:%M:%S";

/// The character for the last decimal place of `n`.
pub open spec fn digit_char(n: nat) -> char {
    ('0' as nat + n % 10) as char
}

/// `n` in base ten, with zeros in front where it has fewer than `width` digits.
pub open spec fn padded_number(n: nat, width: nat) -> Seq<char>
    decreases n + width,
{
    if n < 10 && width <= 1 {
        seq![digit_char(n)]
    } else {
        padded_number(
            n / 10,
            if width == 0 {
                0
            } else {
                (width - 1) as nat
            },
        ) + seq![digit_char(n)]
    }
}

/// A year as it is written: four digits for the years 0 to 9999, with zeros in
/// front if needed; for any other year a sign, `-` or `+`, and then its digits,
/// four at least.
pub open spec fn year_text(year: int) -> Seq<char> {
    if 0 <= year <= 9999 {
        padded_number(year as nat, 4)
    } else if year < 0 {
        seq!['-'] + padded_number((-year) as nat, 4)
    } else {
        seq!['+'] + padded_number(year as nat, 4)
    }
}

/// The date of the instant `ts` in UTC, as `YYYY-MM-DD`.
pub open spec fn date_text(ts: int) -> Seq<char> {
    year_text(year_of(ts)) + seq!['-'] + padded_number(month_of(ts) as nat, 2) + seq!['-']
        + padded_number(day_of(ts) as nat, 2)
}

/// The text `HH:MM:SS` for the three numbers, each zero-padded to two digits
/// and longer where the number does not fit.
pub open spec fn clock_text(hours: nat, minutes: nat, seconds: nat) -> Seq<char> {
    padded_number(hours, 2) + seq![':'] + padded_number(minutes, 2) + seq![':'] + padded_number(
        seconds,
        2,
    )
}

/// The time of day of the instant `ts` in UTC, as `HH:MM:SS`.
pub open spec fn time_text(ts: int) -> Seq<char> {
    clock_text(hour_of(ts) as nat, minute_of(ts) as nat, second_of(ts) as nat)
}

/// The instant `ts` in UTC, as `YYYY-MM-DD HH:MM:SS`.
pub open spec fn date_time_text(ts: int) -> Seq<char> {
    date_text(ts) + seq![' '] + time_text(ts)
}

/// The text `HH:MM:SS.mmm` for the four numbers, each zero-padded to its width
/// and longer where the number does not fit.
pub open spec fn time_literal(hours: nat, minutes: nat, seconds: nat, millis: nat) -> Seq<char> {
    clock_text(hours, minutes, seconds) + seq!['.'] + padded_number(millis, 3)
}

/// Whether `pattern` is one of the three layouts in which instants are written.
pub open spec fn is_layout(pattern: Seq<char>) -> bool {
    pattern == DATE_FORMAT@ || pattern == TIME_FORMAT@ || pattern == DATE_TIME_FORMAT@
}

/// The instant `ts` as it is written in the layout `pattern`.
pub open spec fn utc_text(ts: int, pattern: Seq<char>) -> Seq<char> {
    if pattern == DATE_FORMAT@ {
        date_text(ts)
    } else if pattern == TIME_FORMAT@ {
        time_text(ts)
    } else {
        date_time_text(ts)
    }
}

/// A padded number is made of digits, is at least `width` long and exactly so
/// where the number fits, and denotes the number.
pub proof fn lemma_padded_number(n: nat, width: nat)
    ensures
        all_digits(padded_number(n, width)),
        padded_number(n, width).len() >= width,
        padded_number(n, width).len() >= 1,
        n < 100 && width == 2 ==> padded_number(n, width).len() == 2,
        n < 1000 && width == 3 ==> padded_number(n, width).len() == 3,
        n < 10000 && width == 4 ==> padded_number(n, width).len() == 4,
        decimal_value(padded_number(n, width)) == n,
    decreases n + width,
{
    let text = padded_number(n, width);
    assert(text.last() == digit_char(n));
    assert(is_digit(digit_char(n)) && digit_value(digit_char(n)) == n % 10);
    if n < 10 && width <= 1 {
        assert(text.drop_last() =~= Seq::<char>::empty());
        assert(decimal_value(text.drop_last()) == 0);
    } else {
        let less: nat = if width == 0 {
            0
        } else {
            (width - 1) as nat
        };
        lemma_padded_number(n / 10, less);
        assert(text.drop_last() =~= padded_number(n / 10, less));
        assert forall|i: int| 0 <= i < text.len() implies is_digit(#[trigger] text[i]) by {
            if i < text.len() - 1 {
                assert(text[i] == padded_number(n / 10, less)[i]);
            }
        }
    }
}

/// Whether `text` has the shape of a year as it is written: four digits, or a
/// sign and four digits or more.
pub open spec fn year_shape(text: Seq<char>) -> bool {
    if text.len() > 0 && (text[0] == '+' || text[0] == '-') {
        text.len() >= 5 && all_digits(text.skip(1))
    } else {
        text.len() == 4 && all_digits(text)
    }
}

/// Whether `text` has the shape `YYYY-MM-DD HH:MM:SS`: a year, and after it,
/// each behind its separator, five numbers of two digits, with `-` before the
/// month and the day, one blank before the hour, and `:` before the minute and
/// the second. Nothing stands before the year or behind the second.
pub open spec fn date_time_shape(text: Seq<char>) -> bool {
    let n = text.len() - 15;
    &&& text.len() >= 19
    &&& year_shape(text.take(n))
    &&& text[n] == '-'
    &&& all_digits(text.subrange(n + 1, n + 3))
    &&& text[n + 3] == '-'
    &&& all_digits(text.subrange(n + 4, n + 6))
    &&& text[n + 6] == ' '
    &&& all_digits(text.subrange(n + 7, n + 9))
    &&& text[n + 9] == ':'
    &&& all_digits(text.subrange(n + 10, n + 12))
    &&& text[n + 12] == ':'
    &&& all_digits(text.subrange(n + 13, n + 15))
}

/// A year is written in the shape of a year.
pub proof fn lemma_year_text_shape(year: int)
    ensures
        year_shape(year_text(year)),
{
    let text = year_text(year);
    if 0 <= year <= 9999 {
        lemma_padded_number(year as nat, 4);
        assert(is_digit(text[0]));
    } else if year < 0 {
        lemma_padded_number((-year) as nat, 4);
        assert(text.skip(1) =~= padded_number((-year) as nat, 4));
    } else {
        lemma_padded_number(year as nat, 4);
        assert(text.skip(1) =~= padded_number(year as nat, 4));
    }
}

/// Every instant is written in the shape `YYYY-MM-DD HH:MM:SS`.
pub proof fn lemma_date_time_text_has_shape(ts: int)
    ensures
        date_time_shape(date_time_text(ts)),
{
    let text = date_time_text(ts);
    let n = year_width(ts);
    lemma_date_time_text_shape(ts);
    lemma_year_text_shape(year_of(ts));
    lemma_civil_of_instant(ts);
    lemma_padded_number(month_of(ts) as nat, 2);
    lemma_padded_number(day_of(ts) as nat, 2);
    lemma_padded_number(hour_of(ts) as nat, 2);
    lemma_padded_number(minute_of(ts) as nat, 2);
    lemma_padded_number(second_of(ts) as nat, 2);
    assert(text[n] == '-' && text[n + 3] == '-' && text[n + 6] == ' ' && text[n + 9] == ':'
        && text[n + 12] == ':');
}

/// The year that a text written by `year_text` stands for.
pub open spec fn year_value(text: Seq<char>) -> int {
    if text.len() > 0 && text[0] == '-' {
        -(decimal_value(text.skip(1)) as int)
    } else if text.len() > 0 && text[0] == '+' {
        decimal_value(text.skip(1)) as int
    } else {
        decimal_value(text) as int
    }
}

/// A year can be told from the way it is written.
pub proof fn lemma_year_text_value(year: int)
    ensures
        year_value(year_text(year)) == year,
        year_text(year).len() >= 4,
{
    let text = year_text(year);
    if 0 <= year <= 9999 {
        lemma_padded_number(year as nat, 4);
        assert(is_digit(text[0]));
    } else if year < 0 {
        lemma_padded_number((-year) as nat, 4);
        assert(text.skip(1) =~= padded_number((-year) as nat, 4));
    } else {
        lemma_padded_number(year as nat, 4);
        assert(text.skip(1) =~= padded_number(year as nat, 4));
    }
}

/// The number of characters that the year of the instant `ts` takes.
pub open spec fn year_width(ts: int) -> int {
    year_text(year_of(ts)).len() as int
}

/// Where in its text the six numbers of an instant stand: the year first, and
/// after it fifteen characters, in which each of the five other numbers has
/// its two places.
pub proof fn lemma_date_time_text_shape(ts: int)
    ensures
        date_time_text(ts).len() == year_width(ts) + 15,
        date_time_text(ts).take(year_width(ts)) == year_text(year_of(ts)),
        date_time_text(ts).subrange(year_width(ts) + 1, year_width(ts) + 3) == padded_number(
            month_of(ts) as nat,
            2,
        ),
        date_time_text(ts).subrange(year_width(ts) + 4, year_width(ts) + 6) == padded_number(
            day_of(ts) as nat,
            2,
        ),
        date_time_text(ts).subrange(year_width(ts) + 7, year_width(ts) + 9) == padded_number(
            hour_of(ts) as nat,
            2,
        ),
        date_time_text(ts).subrange(year_width(ts) + 10, year_width(ts) + 12) == padded_number(
            minute_of(ts) as nat,
            2,
        ),
        date_time_text(ts).subrange(year_width(ts) + 13, year_width(ts) + 15) == padded_number(
            second_of(ts) as nat,
            2,
        ),
{
    let text = date_time_text(ts);
    let n = year_width(ts);
    lemma_civil_of_instant(ts);
    lemma_padded_number(month_of(ts) as nat, 2);
    lemma_padded_number(day_of(ts) as nat, 2);
    lemma_padded_number(hour_of(ts) as nat, 2);
    lemma_padded_number(minute_of(ts) as nat, 2);
    lemma_padded_number(second_of(ts) as nat, 2);
    assert(text.take(n) =~= year_text(year_of(ts)));
    assert(text.subrange(n + 1, n + 3) =~= padded_number(month_of(ts) as nat, 2));
    assert(text.subrange(n + 4, n + 6) =~= padded_number(day_of(ts) as nat, 2));
    assert(text.subrange(n + 7, n + 9) =~= padded_number(hour_of(ts) as nat, 2));
    assert(text.subrange(n + 10, n + 12) =~= padded_number(minute_of(ts) as nat, 2));
    assert(text.subrange(n + 13, n + 15) =~= padded_number(second_of(ts) as nat, 2));
}

/// No two instants are written alike as a date with a time: the text tells
/// the instant.
pub proof fn lemma_date_time_text_injective(a: int, b: int)
    requires
        date_time_text(a) == date_time_text(b),
    ensures
        a == b,
{
    lemma_date_time_text_shape(a);
    lemma_date_time_text_shape(b);
    lemma_civil_of_instant(a);
    lemma_civil_of_instant(b);
    lemma_year_text_value(year_of(a));
    lemma_year_text_value(year_of(b));
    assert(year_of(a) == year_of(b));
    lemma_padded_number(month_of(a) as nat, 2);
    lemma_padded_number(month_of(b) as nat, 2);
    lemma_padded_number(day_of(a) as nat, 2);
    lemma_padded_number(day_of(b) as nat, 2);
    lemma_padded_number(hour_of(a) as nat, 2);
    lemma_padded_number(hour_of(b) as nat, 2);
    lemma_padded_number(minute_of(a) as nat, 2);
    lemma_padded_number(minute_of(b) as nat, 2);
    lemma_padded_number(second_of(a) as nat, 2);
    lemma_padded_number(second_of(b) as nat, 2);
}

/// A run of digits whose first is not `0` denotes at least that first digit,
/// so not zero.
pub proof fn lemma_decimal_value_positive(digits: Seq<char>)
    requires
        digits.len() >= 1,
        all_digits(digits),
        digits[0] != '0',
    ensures
        decimal_value(digits) >= 1,
{
    lemma_decimal_value_prefix(digits, 1);
    let first = digits.take(1);
    assert(first.drop_last() =~= Seq::<char>::empty());
    assert(decimal_value(first.drop_last()) == 0);
    assert(first.last() == digits[0]);
    assert(is_digit(digits[0]));
}

/// Digits are the padded form of the number they denote, where they are as
/// many as the width, or more and without a zero in front.
pub proof fn lemma_digits_are_padded(digits: Seq<char>, width: nat)
    requires
        all_digits(digits),
        digits.len() >= 1,
        digits.len() >= width,
        digits.len() > width ==> digits[0] != '0',
    ensures
        padded_number(decimal_value(digits), width) == digits,
    decreases digits.len(),
{
    let n = decimal_value(digits);
    let front = digits.drop_last();
    let last = digits.last();
    assert(is_digit(last));
    assert(n == 10 * decimal_value(front) + digit_value(last));
    assert(n / 10 == decimal_value(front) && n % 10 == digit_value(last));
    assert(digit_char(n) == last);
    if digits.len() == 1 {
        assert(front =~= Seq::<char>::empty());
        assert(decimal_value(front) == 0);
        assert(padded_number(n, width) =~= digits);
    } else {
        assert forall|i: int| 0 <= i < front.len() implies is_digit(#[trigger] front[i]) by {
            assert(front[i] == digits[i]);
        }
        assert(front[0] == digits[0]);
        if width <= 1 {
            lemma_decimal_value_positive(front);
        }
        let less: nat = if width == 0 {
            0
        } else {
            (width - 1) as nat
        };
        lemma_digits_are_padded(front, less);
        assert(padded_number(n, width) =~= front + seq![last]);
        assert(front + seq![last] =~= digits);
    }
}

/// A padded number that is longer than its width has no zero in front.
pub proof fn lemma_padded_number_front(n: nat, width: nat)
    requires
        padded_number(n, width).len() > width,
        width >= 1 || n >= 1,
    ensures
        padded_number(n, width)[0] != '0',
    decreases n + width,
{
    if n < 10 && width <= 1 {
        assert(padded_number(n, width)[0] == digit_char(n));
    } else {
        let less: nat = if width == 0 {
            0
        } else {
            (width - 1) as nat
        };
        lemma_padded_number(n / 10, less);
        lemma_padded_number_front(n / 10, less);
        assert(padded_number(n, width)[0] == padded_number(n / 10, less)[0]);
    }
}

/// Four digits denote a number below 10 000.
pub proof fn lemma_decimal_value_bound(digits: Seq<char>)
    requires
        all_digits(digits),
        digits.len() == 4,
    ensures
        decimal_value(digits) <= 9999,
{
    let d1 = digits.drop_last();
    let d2 = d1.drop_last();
    let d3 = d2.drop_last();
    let d4 = d3.drop_last();
    assert(digits.last() == digits[3] && d1.last() == digits[2] && d2.last() == digits[1]
        && d3.last() == digits[0]);
    assert(is_digit(digits[0]) && is_digit(digits[1]) && is_digit(digits[2]) && is_digit(
        digits[3],
    ));
    assert(decimal_value(d4) == 0);
    assert(decimal_value(d3) == 10 * decimal_value(d4) + digit_value(d3.last()));
    assert(decimal_value(d2) == 10 * decimal_value(d3) + digit_value(d2.last()));
    assert(decimal_value(d1) == 10 * decimal_value(d2) + digit_value(d1.last()));
    assert(decimal_value(digits) == 10 * decimal_value(d1) + digit_value(digits.last()));
}

/// Five digits or more without a zero in front denote 10 000 at least.
pub proof fn lemma_decimal_value_large(digits: Seq<char>)
    requires
        all_digits(digits),
        digits.len() >= 5,
        digits[0] != '0',
    ensures
        decimal_value(digits) >= 10000,
{
    let d1 = digits.drop_last();
    let d2 = d1.drop_last();
    let d3 = d2.drop_last();
    let d4 = d3.drop_last();
    assert forall|i: int| 0 <= i < d4.len() implies is_digit(#[trigger] d4[i]) by {
        assert(d4[i] == digits[i]);
    }
    assert(d4[0] == digits[0]);
    lemma_decimal_value_positive(d4);
    assert(decimal_value(d3) == 10 * decimal_value(d4) + digit_value(d3.last()));
    assert(decimal_value(d2) == 10 * decimal_value(d3) + digit_value(d2.last()));
    assert(decimal_value(d1) == 10 * decimal_value(d2) + digit_value(d1.last()));
    assert(decimal_value(digits) == 10 * decimal_value(d1) + digit_value(digits.last()));
}

/// Whether `text` is a year as it is written: four digits; or `-` and four
/// digits that are not all zero; or a sign and five digits or more, the first
/// of them not a zero.
pub open spec fn is_year_text(text: Seq<char>) -> bool {
    if text.len() > 0 && (text[0] == '+' || text[0] == '-') {
        let digits = text.skip(1);
        &&& all_digits(digits)
        &&& (digits.len() == 4 && text[0] == '-' && decimal_value(digits) >= 1) || (digits.len()
            >= 5 && digits[0] != '0')
    } else {
        text.len() == 4 && all_digits(text)
    }
}

/// Every year is written as a year is written.
pub proof fn lemma_year_text_is_year_text(year: int)
    ensures
        is_year_text(year_text(year)),
{
    let text = year_text(year);
    if 0 <= year <= 9999 {
        lemma_padded_number(year as nat, 4);
        assert(is_digit(text[0]));
    } else {
        let n: nat = if year < 0 {
            (-year) as nat
        } else {
            year as nat
        };
        let digits = padded_number(n, 4);
        lemma_padded_number(n, 4);
        assert(text.skip(1) =~= digits);
        if digits.len() == 4 {
            lemma_decimal_value_bound(digits);
        } else {
            lemma_padded_number_front(n, 4);
        }
    }
}

/// A text that is written as a year is written is the text of the year it
/// stands for.
pub proof fn lemma_is_year_text(text: Seq<char>)
    requires
        is_year_text(text),
    ensures
        year_text(year_value(text)) == text,
{
    if text[0] == '+' || text[0] == '-' {
        let digits = text.skip(1);
        if digits.len() >= 5 {
            lemma_decimal_value_large(digits);
        }
        lemma_digits_are_padded(digits, 4);
        assert(seq![text[0]] + digits =~= text);
    } else {
        lemma_decimal_value_bound(text);
        lemma_digits_are_padded(text, 4);
    }
}

/// The number that the two characters of `text` from `start` on denote.
pub open spec fn field_at(text: Seq<char>, start: int) -> int {
    decimal_value(text.subrange(start, start + 2)) as int
}

/// The year that stands in front of a text of the shape `YYYY-MM-DD HH:MM:SS`.
pub open spec fn year_at(text: Seq<char>) -> int {
    year_value(text.take(text.len() - 15))
}

/// Whether `text` is a supported instant as it is written: it has the shape
/// `YYYY-MM-DD HH:MM:SS`, its year is written as years are and is a supported
/// year, and its numbers name a date and a time of day that exist.
pub open spec fn names_instant(text: Seq<char>) -> bool {
    let n = text.len() - 15;
    &&& date_time_shape(text)
    &&& is_year_text(text.take(n))
    &&& MIN_YEAR <= year_at(text) <= MAX_YEAR
    &&& is_civil(
        year_at(text),
        field_at(text, n + 1),
        field_at(text, n + 4),
        field_at(text, n + 7),
        field_at(text, n + 10),
        field_at(text, n + 13),
    )
}

/// The instant that the numbers of a text of the shape `YYYY-MM-DD HH:MM:SS`
/// name, in seconds from the epoch.
pub open spec fn named_instant(text: Seq<char>) -> int {
    let n = text.len() - 15;
    epoch_seconds(
        year_at(text),
        field_at(text, n + 1),
        field_at(text, n + 4),
        field_at(text, n + 7),
        field_at(text, n + 10),
        field_at(text, n + 13),
    )
}

/// A text that names an instant is what that instant is written as, and the
/// instant is a supported one.
pub proof fn lemma_named_instant(text: Seq<char>)
    requires
        names_instant(text),
    ensures
        timestamp_in_range(named_instant(text)),
        date_time_text(named_instant(text)) == text,
{
    let n = text.len() - 15;
    let ts = named_instant(text);
    let year = text.take(n);
    let month = text.subrange(n + 1, n + 3);
    let day = text.subrange(n + 4, n + 6);
    let hour = text.subrange(n + 7, n + 9);
    let minute = text.subrange(n + 10, n + 12);
    let second = text.subrange(n + 13, n + 15);
    lemma_instant_of_civil(
        year_at(text),
        field_at(text, n + 1),
        field_at(text, n + 4),
        field_at(text, n + 7),
        field_at(text, n + 10),
        field_at(text, n + 13),
    );
    lemma_timestamp_range(ts);
    lemma_is_year_text(year);
    lemma_digits_are_padded(month, 2);
    lemma_digits_are_padded(day, 2);
    lemma_digits_are_padded(hour, 2);
    lemma_digits_are_padded(minute, 2);
    lemma_digits_are_padded(second, 2);
    assert(text =~= year + seq!['-'] + month + seq!['-'] + day + seq![' '] + hour + seq![':']
        + minute + seq![':'] + second);
    assert(date_time_text(ts) =~= year + seq!['-'] + month + seq!['-'] + day + seq![' '] + hour
        + seq![':'] + minute + seq![':'] + second);
}

/// What a supported instant is written as names that instant.
pub proof fn lemma_written_instant(ts: int)
    requires
        timestamp_in_range(ts),
    ensures
        names_instant(date_time_text(ts)),
        named_instant(date_time_text(ts)) == ts,
{
    lemma_date_time_text_has_shape(ts);
    lemma_date_time_text_shape(ts);
    lemma_year_text_is_year_text(year_of(ts));
    lemma_year_text_value(year_of(ts));
    lemma_civil_of_instant(ts);
    lemma_timestamp_range(ts);
    lemma_padded_number(month_of(ts) as nat, 2);
    lemma_padded_number(day_of(ts) as nat, 2);
    lemma_padded_number(hour_of(ts) as nat, 2);
    lemma_padded_number(minute_of(ts) as nat, 2);
    lemma_padded_number(second_of(ts) as nat, 2);
}

} // verus!
