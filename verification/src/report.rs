//! Formatting of locations and durations for reports.

use vstd::prelude::*;

use crate::span::Span;
use crate::tags::spec_duration;
use crate::text::{
    all_digits, append_chars, chars_of, decimal, decimal_chars, digits_value, is_digit,
    lead_digits, lemma_decimal, lemma_lead_digits, string_of,
};

verus! {

/// `file:line`.
pub fn format_location(file: &str, span: &Span) -> (s: String)
    ensures
        s@ == file@ + ":"@ + decimal(span.line as nat),
{
    let mut out = chars_of(file);
    append_chars(&mut out, &chars_of(":"));
    append_chars(&mut out, &decimal_chars(span.line as u64));
    string_of(&out)
}

/// How a number of minutes is written: `2h30m`, `2h` or `30m`.
pub open spec fn duration_text(minutes: nat) -> Seq<char> {
    let hours = minutes / 60;
    let mins = minutes % 60;
    if hours > 0 && mins > 0 {
        decimal(hours) + "h"@ + decimal(mins) + "m"@
    } else if hours > 0 {
        decimal(hours) + "h"@
    } else {
        decimal(mins) + "m"@
    }
}

/// Writes a number of minutes as `2h30m`, `2h` or `30m`.
pub fn format_duration_minutes(minutes: u64) -> (s: String)
    ensures
        s@ == duration_text(minutes as nat),
{
    let hours = minutes / 60;
    let mins = minutes % 60;
    let mut out: Vec<char>;
    if hours > 0 && mins > 0 {
        out = decimal_chars(hours);
        append_chars(&mut out, &chars_of("h"));
        append_chars(&mut out, &decimal_chars(mins));
        append_chars(&mut out, &chars_of("m"));
    } else if hours > 0 {
        out = decimal_chars(hours);
        append_chars(&mut out, &chars_of("h"));
    } else {
        out = decimal_chars(mins);
        append_chars(&mut out, &chars_of("m"));
    }
    string_of(&out)
}

/// The digits of `n` followed by `rest`, which starts with a non-digit,
/// begin with exactly the digits of `n`.
proof fn lemma_decimal_then(n: nat, rest: Seq<char>)
    requires
        rest.len() > 0,
        !is_digit(rest[0]),
    ensures
        lead_digits(decimal(n) + rest) == decimal(n).len(),
        (decimal(n) + rest).take(decimal(n).len() as int) == decimal(n),
        (decimal(n) + rest).skip(decimal(n).len() as int) == rest,
{
    lemma_decimal(n);
    let s = decimal(n) + rest;
    let k = decimal(n).len() as int;
    assert forall|i: int| 0 <= i < k implies is_digit(#[trigger] s[i]) by {
        assert(s[i] == decimal(n)[i]);
    }
    lemma_lead_digits(s, k);
    assert(s.take(k) =~= decimal(n));
    assert(s.skip(k) =~= rest);
}

/// Reading back a formatted duration gives the same number of minutes.
pub proof fn lemma_duration_round_trip(minutes: nat)
    ensures
        spec_duration(duration_text(minutes)) == Some(minutes),
{
    let hours = minutes / 60;
    let mins = minutes % 60;
    reveal_strlit("h");
    reveal_strlit("m");
    lemma_decimal(hours);
    lemma_decimal(mins);
    assert(minutes == hours * 60 + mins);
    if hours > 0 && mins > 0 {
        let tail = "h"@ + decimal(mins) + "m"@;
        assert(duration_text(minutes) =~= decimal(hours) + tail);
        lemma_decimal_then(hours, tail);
        let s = decimal(hours) + tail;
        let a = decimal(hours).len();
        assert(s[a as int] == 'h');
        let rest = s.skip(a + 1 as int);
        assert(rest =~= decimal(mins) + "m"@);
        lemma_decimal_then(mins, "m"@);
        assert(rest[decimal(mins).len() as int] == 'm');
    } else if hours > 0 {
        lemma_decimal_then(hours, "h"@);
        let s = decimal(hours) + "h"@;
        let a = decimal(hours).len();
        assert(s.skip(a + 1 as int) =~= Seq::<char>::empty());
    } else {
        lemma_decimal_then(mins, "m"@);
    }
}

} // verus!
