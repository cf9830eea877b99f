//! The grammar of time literals, `HH:MM:SS` with an optional `.mmm`.

use vstd::prelude::*;

verus! {

/// The number of characters of `text` that stand before the first `sep`, or
/// the whole length where `text` holds no `sep`.
pub open spec fn field_len(text: Seq<char>, sep: char) -> int
    decreases text.len(),
{
    if text.len() == 0 || text[0] == sep {
        0
    } else {
        1 + field_len(text.skip(1), sep)
    }
}

/// The fields that the occurrences of `sep` cut `text` into, in order. A text
/// with `k` separators has `k + 1` fields, some of which may be empty.
pub open spec fn split(text: Seq<char>, sep: char) -> Seq<Seq<char>>
    decreases text.len(),
{
    let n = field_len(text, sep);
    if n >= text.len() {
        seq![text]
    } else {
        proof {
            lemma_field_len(text, sep);
        }
        seq![text.take(n)] + split(text.skip(n + 1), sep)
    }
}

/// Whether `c` is one of the ASCII digits `0` to `9`.
pub open spec fn is_digit(c: char) -> bool {
    '0' <= c <= '9'
}

/// Whether every character of `text` is an ASCII digit.
pub open spec fn all_digits(text: Seq<char>) -> bool {
    forall|i: int| 0 <= i < text.len() ==> is_digit(#[trigger] text[i])
}

/// The number that a digit stands for; zero for any other character.
pub open spec fn digit_value(c: char) -> nat {
    if is_digit(c) {
        (c as nat - '0' as nat) as nat
    } else {
        0
    }
}

/// The number that a run of digits denotes in base ten, leading zeros allowed.
pub open spec fn decimal_value(digits: Seq<char>) -> nat
    decreases digits.len(),
{
    if digits.len() == 0 {
        0
    } else {
        10 * decimal_value(digits.drop_last()) + digit_value(digits.last())
    }
}

/// The 32-bit unsigned number that `text` denotes: one or more digits and
/// nothing else, no sign and no blank, with a value of at most `u32::MAX`.
pub open spec fn parse_u32(text: Seq<char>) -> Option<u32> {
    if text.len() > 0 && all_digits(text) && decimal_value(text) <= u32::MAX {
        Some(decimal_value(text) as u32)
    } else {
        None
    }
}

/// Whether `field` denotes a number below `bound`.
pub open spec fn field_below(field: Seq<char>, bound: u32) -> bool {
    match parse_u32(field) {
        Some(v) => v < bound,
        None => false,
    }
}

/// Whether the field of seconds is in range: either seconds below 60 alone,
/// `SS`, or seconds, one `.` and milliseconds below 1000, `SS.mmm`. A field
/// with more than one `.` is no seconds field.
pub open spec fn valid_seconds_field(field: Seq<char>) -> bool {
    let parts = split(field, '.');
    &&& field_below(parts[0], 60)
    &&& parts.len() == 1 || (parts.len() == 2 && field_below(parts[1], 1000))
}

/// Whether `text` is a time literal: 8 to 12 characters long, cut by `:` into
/// three or four fields, of which the first is an hour below 24, the second a
/// minute below 60 and the third the seconds. A fourth field is not read.
pub open spec fn valid_time_text(text: Seq<char>) -> bool {
    let parts = split(text, ':');
    &&& 8 <= text.len() <= 12
    &&& 3 <= parts.len() <= 4
    &&& field_below(parts[0], 24)
    &&& field_below(parts[1], 60)
    &&& valid_seconds_field(parts[2])
}

/// `field_len` stays within the text, stops at a separator and passes none.
pub proof fn lemma_field_len(text: Seq<char>, sep: char)
    ensures
        0 <= field_len(text, sep) <= text.len(),
        field_len(text, sep) < text.len() ==> text[field_len(text, sep)] == sep,
        forall|i: int| 0 <= i < field_len(text, sep) ==> text[i] != sep,
    decreases text.len(),
{
    if text.len() > 0 && text[0] != sep {
        let rest = text.skip(1);
        lemma_field_len(rest, sep);
        assert forall|i: int| 0 <= i < field_len(text, sep) implies text[i] != sep by {
            if i > 0 {
                assert(text[i] == rest[i - 1]);
            }
        }
    }
}

/// The first field of a text is what stands before its first separator;
/// where there is a separator, the other fields are those of the text after it.
pub proof fn lemma_split(text: Seq<char>, sep: char)
    ensures
        split(text, sep).len() >= 1,
        split(text, sep)[0] == text.take(field_len(text, sep)),
        field_len(text, sep) == text.len() ==> split(text, sep).len() == 1,
        field_len(text, sep) < text.len() ==> split(text, sep) == seq![
            text.take(field_len(text, sep)),
        ] + split(text.skip(field_len(text, sep) + 1), sep),
    decreases text.len(),
{
    lemma_field_len(text, sep);
    let n = field_len(text, sep);
    if n < text.len() {
        lemma_split(text.skip(n + 1), sep);
    } else {
        assert(text.take(n) =~= text);
    }
}

/// `lemma_split` for the part of `whole` that begins at `start`, whose first
/// field runs up to `stop`.
pub proof fn lemma_split_from(whole: Seq<char>, sep: char, start: int, stop: int)
    requires
        0 <= start <= stop <= whole.len(),
        stop - start == field_len(whole.subrange(start, whole.len() as int), sep),
    ensures
        split(whole.skip(start), sep).len() >= 1,
        split(whole.skip(start), sep)[0] == whole.subrange(start, stop),
        stop == whole.len() ==> split(whole.skip(start), sep).len() == 1,
        stop < whole.len() ==> split(whole.skip(start), sep) == seq![whole.subrange(start, stop)]
            + split(whole.skip(stop + 1), sep),
        stop < whole.len() ==> split(whole.skip(stop + 1), sep).len() >= 1,
{
    let part = whole.skip(start);
    assert(part =~= whole.subrange(start, whole.len() as int));
    lemma_split(part, sep);
    assert(part.take(stop - start) =~= whole.subrange(start, stop));
    if stop < whole.len() {
        assert(part.skip(stop - start + 1) =~= whole.skip(stop + 1));
        lemma_split(whole.skip(stop + 1), sep);
    }
}

/// A run of digits denotes no less than any of its prefixes.
pub proof fn lemma_decimal_value_prefix(digits: Seq<char>, k: int)
    requires
        0 <= k <= digits.len(),
    ensures
        decimal_value(digits.take(k)) <= decimal_value(digits),
    decreases digits.len() - k,
{
    if k < digits.len() {
        lemma_decimal_value_prefix(digits.drop_last(), k);
        assert(digits.drop_last().take(k) =~= digits.take(k));
    } else {
        assert(digits.take(k) =~= digits);
    }
}

/// The first position at or after `start` and before `end` that holds `sep`,
/// or `end` where there is none.
fn find_separator(text: &str, start: usize, end: usize, sep: char) -> (pos: usize)
    requires
        start <= end <= text@.len(),
    ensures
        start <= pos <= end,
        pos - start == field_len(text@.subrange(start as int, end as int), sep),
{
    let mut pos: usize = start;
    while pos < end && text.get_char(pos) != sep
        invariant
            start <= pos <= end <= text@.len(),
            field_len(text@.subrange(start as int, end as int), sep) == (pos - start)
                + field_len(text@.subrange(pos as int, end as int), sep),
        decreases end - pos,
    {
        assert(text@.subrange(pos as int, end as int).skip(1) =~= text@.subrange(
            pos + 1,
            end as int,
        ));
        pos = pos + 1;
    }
    pos
}

/// Reads the characters from `from` up to `to` as an unsigned 32-bit number.
pub(crate) fn parse_field(text: &str, from: usize, to: usize) -> (r: Option<u32>)
    requires
        from <= to <= text@.len(),
    ensures
        r == parse_u32(text@.subrange(from as int, to as int)),
{
    let ghost digits = text@.subrange(from as int, to as int);
    if from == to {
        return None;
    }
    let mut value: u32 = 0;
    let mut i: usize = from;
    while i < to
        invariant
            from <= i <= to <= text@.len(),
            from < to,
            digits == text@.subrange(from as int, to as int),
            all_digits(digits.take(i - from)),
            value == decimal_value(digits.take(i - from)),
        decreases to - i,
    {
        let c: char = text.get_char(i);
        if c < '0' || c > '9' {
            assert(!is_digit(digits[i - from]));
            return None;
        }
        let d: u32 = c as u32 - '0' as u32;
        proof {
            assert(digits.take(i + 1 - from).drop_last() =~= digits.take(i - from));
            lemma_decimal_value_prefix(digits, i + 1 - from);
        }
        if value > (u32::MAX - d) / 10 {
            return None;
        }
        value = value * 10 + d;
        i = i + 1;
    }
    assert(digits.take(to - from) =~= digits);
    Some(value)
}

/// Checks the field of seconds that stands from `from` up to `to`.
fn valid_seconds(text: &str, from: usize, to: usize) -> (r: bool)
    requires
        from <= to <= text@.len(),
    ensures
        r == valid_seconds_field(text@.subrange(from as int, to as int)),
{
    let ghost field = text@.subrange(from as int, to as int);
    let dot: usize = find_separator(text, from, to, '.');
    proof {
        lemma_split(field, '.');
        assert(field.take(dot - from) =~= text@.subrange(from as int, dot as int));
    }
    let seconds: Option<u32> = parse_field(text, from, dot);
    let seconds_ok: bool = match seconds {
        Some(v) => v < 60,
        None => false,
    };
    if dot == to {
        return seconds_ok;
    }
    let ghost rest = field.skip(dot - from + 1);
    let next: usize = find_separator(text, dot + 1, to, '.');
    proof {
        assert(rest =~= text@.subrange(dot + 1, to as int));
        lemma_split(rest, '.');
        if next < to {
            lemma_split(rest.skip(field_len(rest, '.') + 1), '.');
        } else {
            assert(rest.take(field_len(rest, '.')) =~= rest);
        }
    }
    if next < to {
        return false;
    }
    let millis: Option<u32> = parse_field(text, dot + 1, to);
    let millis_ok: bool = match millis {
        Some(v) => v < 1000,
        None => false,
    };
    seconds_ok && millis_ok
}

/// Whether `time_str` is a time literal, `HH:MM:SS` or `HH:MM:SS.mmm`.
pub fn is_valid_time_format(time_str: &str) -> (r: bool)
    ensures
        r == valid_time_text(time_str@),
{
    let len: usize = time_str.unicode_len();
    if len < 8 || len > 12 {
        return false;
    }
    let ghost text = time_str@;
    let ghost parts = split(text, ':');
    let first: usize = find_separator(time_str, 0, len, ':');
    proof {
        assert(text.skip(0) =~= text);
        lemma_split_from(text, ':', 0, first as int);
    }
    if first == len {
        return false;
    }
    let ghost parts_1 = split(text.skip(first + 1), ':');
    let second: usize = find_separator(time_str, first + 1, len, ':');
    proof {
        lemma_split_from(text, ':', first + 1, second as int);
        assert(parts.len() == 1 + parts_1.len());
        assert(parts[1] == parts_1[0]);
    }
    if second == len {
        return false;
    }
    let ghost parts_2 = split(text.skip(second + 1), ':');
    let third: usize = find_separator(time_str, second + 1, len, ':');
    proof {
        lemma_split_from(text, ':', second + 1, third as int);
        assert(parts_1.len() == 1 + parts_2.len());
        assert(parts_1[1] == parts_2[0]);
        assert(parts[2] == parts_1[1]);
    }
    if third < len {
        let ghost parts_3 = split(text.skip(third + 1), ':');
        let fourth: usize = find_separator(time_str, third + 1, len, ':');
        proof {
            lemma_split_from(text, ':', third + 1, fourth as int);
            assert(parts_2.len() == 1 + parts_3.len());
        }
        if fourth < len {
            return false;
        }
    }
    let hours: Option<u32> = parse_field(time_str, 0, first);
    let minutes: Option<u32> = parse_field(time_str, first + 1, second);
    let hours_ok: bool = match hours {
        Some(v) => v < 24,
        None => false,
    };
    let minutes_ok: bool = match minutes {
        Some(v) => v < 60,
        None => false,
    };
    let seconds_ok: bool = valid_seconds(time_str, second + 1, third);
    hours_ok && minutes_ok && seconds_ok
}

} // verus!
