//! The laws that tie written times to the validator: a time written out as
//! `HH:MM:SS` or `HH:MM:SS.mmm` is a time literal exactly when its numbers are
//! in range, and the time of day of every instant is written as a time
//! literal.

use crate::calendar::{hour_of, lemma_civil_of_instant, minute_of, second_of};
use crate::text::{clock_text, lemma_padded_number, padded_number, time_literal, time_text};
use crate::time_format::{
    field_below, field_len, is_digit, lemma_field_len, split, valid_time_text,
};
use vstd::prelude::*;

verus! {

/// A padded number is read back as itself where it fits in 32 bits, so it is
/// below a bound exactly when the number is; and it holds no separator.
pub proof fn lemma_padded_number_field(n: nat, width: nat, bound: u32)
    ensures
        field_below(padded_number(n, width), bound) <==> n < bound,
        forall|i: int|
            0 <= i < padded_number(n, width).len() ==> #[trigger] padded_number(n, width)[i] != ':'
                && padded_number(n, width)[i] != '.',
{
    lemma_padded_number(n, width);
    let text = padded_number(n, width);
    assert forall|i: int| 0 <= i < text.len() implies #[trigger] text[i] != ':' && text[i]
        != '.' by {
        assert(is_digit(text[i]));
    }
}

/// Where `head` holds no `sep`, the fields of `head`, `sep`, `tail` are `head`
/// and then the fields of `tail`.
pub proof fn lemma_split_concat(head: Seq<char>, sep: char, tail: Seq<char>)
    requires
        forall|i: int| 0 <= i < head.len() ==> head[i] != sep,
    ensures
        field_len(head + seq![sep] + tail, sep) == head.len(),
        split(head + seq![sep] + tail, sep) == seq![head] + split(tail, sep),
    decreases head.len(),
{
    let text = head + seq![sep] + tail;
    if head.len() > 0 {
        lemma_split_concat(head.skip(1), sep, tail);
        assert(text.skip(1) =~= head.skip(1) + seq![sep] + tail);
    }
    assert(field_len(text, sep) == head.len());
    assert(text.take(head.len() as int) =~= head);
    assert(text.skip(head.len() as int + 1) =~= tail);
}

/// A text that holds no `sep` is its own single field.
pub proof fn lemma_split_single(text: Seq<char>, sep: char)
    requires
        forall|i: int| 0 <= i < text.len() ==> text[i] != sep,
    ensures
        split(text, sep) == seq![text],
    decreases text.len(),
{
    if text.len() > 0 {
        lemma_split_single(text.skip(1), sep);
        lemma_field_len(text.skip(1), sep);
        lemma_field_len(text, sep);
    }
}

/// A time written out as `HH:MM:SS` is a time literal if and only if the hours
/// are below 24 and the minutes and the seconds below 60.
pub proof fn lemma_clock_text_valid(hours: nat, minutes: nat, seconds: nat)
    ensures
        valid_time_text(clock_text(hours, minutes, seconds)) <==> hours < 24 && minutes < 60
            && seconds < 60,
{
    let text = clock_text(hours, minutes, seconds);
    let hh = padded_number(hours, 2);
    let mm = padded_number(minutes, 2);
    let ss = padded_number(seconds, 2);
    lemma_padded_number(hours, 2);
    lemma_padded_number(minutes, 2);
    lemma_padded_number(seconds, 2);
    lemma_padded_number_field(hours, 2, 24);
    lemma_padded_number_field(minutes, 2, 60);
    lemma_padded_number_field(seconds, 2, 60);
    let tail = mm + seq![':'] + ss;
    assert(text =~= hh + seq![':'] + tail);
    lemma_split_concat(hh, ':', tail);
    lemma_split_concat(mm, ':', ss);
    lemma_split_single(ss, ':');
    lemma_split_single(ss, '.');
    assert(split(text, ':') =~= seq![hh, mm, ss]);
}

/// A time written out as `HH:MM:SS.mmm` is a time literal if and only if the
/// hours are below 24, the minutes and the seconds below 60 and the
/// milliseconds below 1000. So every time in range is accepted, and putting
/// any one of the four numbers out of its range makes the text invalid.
pub proof fn lemma_time_literal_valid(hours: nat, minutes: nat, seconds: nat, millis: nat)
    ensures
        valid_time_text(time_literal(hours, minutes, seconds, millis)) <==> hours < 24 && minutes
            < 60 && seconds < 60 && millis < 1000,
{
    let text = time_literal(hours, minutes, seconds, millis);
    let hh = padded_number(hours, 2);
    let mm = padded_number(minutes, 2);
    let ss = padded_number(seconds, 2);
    let mmm = padded_number(millis, 3);
    lemma_padded_number(hours, 2);
    lemma_padded_number(minutes, 2);
    lemma_padded_number(seconds, 2);
    lemma_padded_number(millis, 3);
    lemma_padded_number_field(hours, 2, 24);
    lemma_padded_number_field(minutes, 2, 60);
    lemma_padded_number_field(seconds, 2, 60);
    lemma_padded_number_field(millis, 3, 1000);
    let last = ss + seq!['.'] + mmm;
    let tail = mm + seq![':'] + last;
    assert(text =~= hh + seq![':'] + tail);
    assert forall|i: int| 0 <= i < last.len() implies last[i] != ':' by {
        if i < ss.len() {
            assert(last[i] == ss[i]);
        } else if i > ss.len() {
            assert(last[i] == mmm[i - ss.len() - 1]);
        }
    }
    lemma_split_concat(hh, ':', tail);
    lemma_split_concat(mm, ':', last);
    lemma_split_single(last, ':');
    lemma_split_concat(ss, '.', mmm);
    lemma_split_single(mmm, '.');
    assert(split(text, ':') =~= seq![hh, mm, last]);
    assert(split(last, '.') =~= seq![ss, mmm]);
}

/// The time of day of every instant is written as a time literal.
pub proof fn lemma_time_text_valid(ts: int)
    ensures
        valid_time_text(time_text(ts)),
{
    lemma_civil_of_instant(ts);
    lemma_clock_text_valid(hour_of(ts) as nat, minute_of(ts) as nat, second_of(ts) as nat);
}

} // verus!
