//! The tag system: `#name argument` annotations and their typed meaning.

use vstd::prelude::*;

use crate::span::Span;
use crate::text::{
    all_digits, digits_value, find_char, is_ascii_alnum, lead_digits, split_word, trim_end,
};
use crate::tokens::{spec_keyword, Keyword};

verus! {

/// A calendar date.
#[derive(Debug, Clone, Copy, PartialEq, Eq, Structural)]
pub struct Date {
    pub year: i32,
    pub month: u32,
    pub day: u32,
}

/// A time of day.
#[derive(Debug, Clone, Copy, PartialEq, Eq, Structural)]
pub struct Time {
    pub hour: u32,
    pub minute: u32,
    pub second: u32,
}

/// A date with a time of day.
#[derive(Debug, Clone, Copy, PartialEq, Eq, Structural)]
pub struct DateTime {
    pub date: Date,
    pub time: Time,
}

/// A date, with or without a time of day.
#[derive(Debug, Clone, Copy, PartialEq, Eq, Structural)]
pub enum Timestamp {
    Date(Date),
    DateTime(DateTime),
}

impl Timestamp {
    /// The calendar date.
    pub fn date(&self) -> (d: Date)
        ensures
            d == match *self {
                Timestamp::Date(d) => d,
                Timestamp::DateTime(dt) => dt.date,
            },
    {
        match self {
            Timestamp::Date(d) => *d,
            Timestamp::DateTime(dt) => dt.date,
        }
    }

    /// Whether a time of day is given.
    pub fn has_time(&self) -> (b: bool)
        ensures
            b == (*self is DateTime),
    {
        match self {
            Timestamp::Date(_) => false,
            Timestamp::DateTime(_) => true,
        }
    }
}

#[derive(Debug, Clone, Copy, PartialEq, Eq, Structural)]
pub enum RepeaterUnit {
    Day,
    Week,
    Month,
    Year,
}

/// `+N<unit>`: the item recurs every `interval` units.
#[derive(Debug, Clone, Copy, PartialEq, Eq, Structural)]
pub struct Repeater {
    pub interval: u32,
    pub unit: RepeaterUnit,
}

#[derive(Debug, Clone, Copy, PartialEq, Eq, PartialOrd, Ord, Hash, Structural)]
pub enum PriorityLevel {
    A,
    B,
    C,
    Custom(char),
}

#[derive(Debug, Clone, Copy, PartialEq, Eq, Structural)]
pub enum ClockValue {
    Range { start: DateTime, end: DateTime },
    Duration { minutes: u64 },
}

/// The typed meaning of a tag.
#[derive(Debug, Clone, PartialEq)]
pub enum TagKind {
    Todo { text: Option<String> },
    Done { text: Option<String> },
    Deadline { date: Timestamp, repeater: Option<Repeater>, warning: Option<u32> },
    Scheduled { date: Timestamp, repeater: Option<Repeater>, warning: Option<u32> },
    Date { date: Timestamp, repeater: Option<Repeater> },
    Event {
        date: Timestamp,
        end_date: Option<Timestamp>,
        repeater: Option<Repeater>,
        description: Option<String>,
    },
    ClockIn { datetime: DateTime },
    ClockOut { datetime: DateTime },
    Clock(ClockValue),
    Priority { level: PriorityLevel },
    Effort { minutes: u64 },
    Closed { datetime: DateTime },
    Archive,
    Progress,
    Tangle,
    Unknown { name: String, value: Option<String> },
}

/// A tag together with the span it was read from.
#[derive(Debug, Clone, PartialEq)]
pub struct Tag {
    pub kind: TagKind,
    pub span: Span,
}

// ---------------------------------------------------------------------------
// Calendar
// ---------------------------------------------------------------------------
pub open spec fn is_leap(y: int) -> bool {
    (y % 4 == 0 && y % 100 != 0) || y % 400 == 0
}

pub open spec fn days_in_month(y: int, m: int) -> int {
    if m == 2 {
        if is_leap(y) {
            29
        } else {
            28
        }
    } else if m == 4 || m == 6 || m == 9 || m == 11 {
        30
    } else {
        31
    }
}

/// Whether `y-m-d` names a day of the Gregorian calendar.
pub open spec fn valid_ymd(y: int, m: int, d: int) -> bool {
    1 <= m <= 12 && 1 <= d <= days_in_month(y, m)
}

/// The first year chrono's `NaiveDate` holds.
pub const MIN_YEAR: i32 = -262143;

/// The last year chrono's `NaiveDate` holds.
pub const MAX_YEAR: i32 = 262142;

/// `chrono::NaiveDate::from_ymd_opt(y, m, d).is_some()`: inside chrono's
/// years ([`MIN_YEAR`] to [`MAX_YEAR`]), chrono accepts a year, month and
/// day exactly when they name a day of the proleptic Gregorian calendar.
#[verifier::external_body]
pub(crate) fn calendar_day_exists(y: i32, m: u32, d: u32) -> (b: bool)
    requires
        MIN_YEAR <= y <= MAX_YEAR,
    ensures
        b == valid_ymd(y as int, m as int, d as int),
{
    chrono::NaiveDate::from_ymd_opt(y, m, d).is_some()
}

/// `chrono::NaiveTime::from_hms_opt(h, m, s).is_some()`: chrono accepts an
/// hour below 24, a minute below 60 and a second below 60.
#[verifier::external_body]
fn clock_time_exists(h: u32, m: u32, s: u32) -> (b: bool)
    ensures
        b == (h < 24 && m < 60 && s < 60),
{
    chrono::NaiveTime::from_hms_opt(h, m, s).is_some()
}

// ---------------------------------------------------------------------------
// Specifications of the argument grammars
// ---------------------------------------------------------------------------
/// `NhNm`, `Nh` or `Nm`: a duration in minutes.
pub open spec fn spec_duration(s: Seq<char>) -> Option<nat> {
    let a = lead_digits(s);
    if a > 0 && a < s.len() && s[a as int] == 'h' {
        let hours = digits_value(s.take(a as int));
        let rest = s.skip(a + 1 as int);
        if rest.len() == 0 {
            Some(hours * 60)
        } else {
            let b = lead_digits(rest);
            if b > 0 && b + 1 == rest.len() && rest[b as int] == 'm' {
                Some(hours * 60 + digits_value(rest.take(b as int)))
            } else {
                None
            }
        }
    } else if a > 0 && a + 1 == s.len() && s[a as int] == 'm' {
        Some(digits_value(s.take(a as int)))
    } else {
        None
    }
}

/// `YYYY-MM-DD`, naming an existing day.
pub open spec fn spec_date(s: Seq<char>) -> Option<Date> {
    if s.len() == 10 && all_digits(s.subrange(0, 4)) && s[4] == '-' && all_digits(
        s.subrange(5, 7),
    ) && s[7] == '-' && all_digits(s.subrange(8, 10)) {
        let y = digits_value(s.subrange(0, 4));
        let m = digits_value(s.subrange(5, 7));
        let d = digits_value(s.subrange(8, 10));
        if valid_ymd(y as int, m as int, d as int) {
            Some(Date { year: y as i32, month: m as u32, day: d as u32 })
        } else {
            None
        }
    } else {
        None
    }
}

/// `HH:MM` or `HH:MM:SS`, naming an existing time of day.
pub open spec fn spec_time(s: Seq<char>) -> Option<Time> {
    if (s.len() == 5 || s.len() == 8) && all_digits(s.subrange(0, 2)) && s[2] == ':'
        && all_digits(s.subrange(3, 5)) && (s.len() == 5 || (s[5] == ':' && all_digits(
        s.subrange(6, 8),
    ))) {
        let h = digits_value(s.subrange(0, 2));
        let m = digits_value(s.subrange(3, 5));
        let sec = if s.len() == 8 {
            digits_value(s.subrange(6, 8))
        } else {
            0
        };
        if h < 24 && m < 60 && sec < 60 {
            Some(Time { hour: h as u32, minute: m as u32, second: sec as u32 })
        } else {
            None
        }
    } else {
        None
    }
}

/// `YYYY-MM-DD` or `YYYY-MM-DDTHH:MM[:SS]`.
pub open spec fn spec_timestamp(s: Seq<char>) -> Option<Timestamp> {
    if s.len() == 10 {
        match spec_date(s) {
            Some(d) => Some(Timestamp::Date(d)),
            None => None,
        }
    } else if s.len() > 11 && s[10] == 'T' {
        match (spec_date(s.take(10)), spec_time(s.skip(11))) {
            (Some(d), Some(t)) => Some(Timestamp::DateTime(DateTime { date: d, time: t })),
            _ => None,
        }
    } else {
        None
    }
}

/// A timestamp that carries a time of day.
pub open spec fn spec_datetime(s: Seq<char>) -> Option<DateTime> {
    match spec_timestamp(s) {
        Some(Timestamp::DateTime(dt)) => Some(dt),
        _ => None,
    }
}

pub open spec fn spec_unit(c: char) -> Option<RepeaterUnit> {
    if c == 'd' || c == 'D' {
        Some(RepeaterUnit::Day)
    } else if c == 'w' || c == 'W' {
        Some(RepeaterUnit::Week)
    } else if c == 'm' || c == 'M' {
        Some(RepeaterUnit::Month)
    } else if c == 'y' || c == 'Y' {
        Some(RepeaterUnit::Year)
    } else {
        None
    }
}

/// `+N<unit>`.
pub open spec fn spec_repeater(w: Seq<char>) -> Option<Repeater> {
    if w.len() >= 3 && w[0] == '+' && all_digits(w.subrange(1, w.len() - 1)) && spec_unit(
        w.last(),
    ) is Some && digits_value(w.subrange(1, w.len() - 1)) <= u32::MAX {
        Some(
            Repeater {
                interval: digits_value(w.subrange(1, w.len() - 1)) as u32,
                unit: spec_unit(w.last())->0,
            },
        )
    } else {
        None
    }
}

/// `-Nd`: warn `N` days ahead.
pub open spec fn spec_warning(w: Seq<char>) -> Option<u32> {
    if w.len() >= 3 && w[0] == '-' && all_digits(w.subrange(1, w.len() - 1)) && w.last() == 'd'
        && digits_value(w.subrange(1, w.len() - 1)) <= u32::MAX {
        Some(digits_value(w.subrange(1, w.len() - 1)) as u32)
    } else {
        None
    }
}

/// `TIMESTAMP [+repeater] [-warning]`, for deadlines and scheduled items.
pub open spec fn spec_planning(a: Seq<char>) -> Option<(Timestamp, Option<Repeater>, Option<u32>)> {
    let (w1, r1) = split_word(a);
    match spec_timestamp(w1) {
        None => None,
        Some(ts) => if r1.len() == 0 {
            Some((ts, None, None))
        } else {
            let (w2, r2) = split_word(r1);
            if w2.len() > 0 && w2[0] == '+' {
                match spec_repeater(w2) {
                    None => None,
                    Some(rep) => if r2.len() == 0 {
                        Some((ts, Some(rep), None))
                    } else {
                        let (w3, r3) = split_word(r2);
                        match spec_warning(w3) {
                            Some(wn) => if r3.len() == 0 {
                                Some((ts, Some(rep), Some(wn)))
                            } else {
                                None
                            },
                            None => None,
                        }
                    },
                }
            } else {
                match spec_warning(w2) {
                    Some(wn) => if r2.len() == 0 {
                        Some((ts, None, Some(wn)))
                    } else {
                        None
                    },
                    None => None,
                }
            }
        },
    }
}

/// `TIMESTAMP [+repeater]`, for `#date`.
pub open spec fn spec_dated(a: Seq<char>) -> Option<(Timestamp, Option<Repeater>)> {
    let (w1, r1) = split_word(a);
    match spec_timestamp(w1) {
        None => None,
        Some(ts) => if r1.len() == 0 {
            Some((ts, None))
        } else {
            let (w2, r2) = split_word(r1);
            match spec_repeater(w2) {
                Some(rep) => if r2.len() == 0 {
                    Some((ts, Some(rep)))
                } else {
                    None
                },
                None => None,
            }
        },
    }
}

/// `START[/END]`.
pub open spec fn spec_range(w: Seq<char>) -> Option<(Timestamp, Option<Timestamp>)> {
    match find_char(w, '/') {
        Some(i) => match (spec_timestamp(w.take(i as int)), spec_timestamp(w.skip(i + 1 as int))) {
            (Some(s), Some(e)) => Some((s, Some(e))),
            _ => None,
        },
        None => match spec_timestamp(w) {
            Some(s) => Some((s, None)),
            None => None,
        },
    }
}

/// `START[/END] [+repeater] [description]`: the dates, the repeater and the
/// description text (possibly empty) of an event.
pub open spec fn spec_event(a: Seq<char>) -> Option<
    (Timestamp, Option<Timestamp>, Option<Repeater>, Seq<char>),
> {
    let (w1, r1) = split_word(a);
    match spec_range(w1) {
        None => None,
        Some((s, e)) => {
            let (w2, r2) = split_word(r1);
            if w2.len() > 0 && w2[0] == '+' && spec_repeater(w2) is Some {
                Some((s, e, spec_repeater(w2), trim_end(r2)))
            } else {
                Some((s, e, None, trim_end(r1)))
            }
        },
    }
}

/// `DATETIME/DATETIME` or a duration.
pub open spec fn spec_clock(a: Seq<char>) -> Option<ClockValue> {
    match find_char(a, '/') {
        Some(i) => match (spec_datetime(a.take(i as int)), spec_datetime(a.skip(i + 1 as int))) {
            (Some(s), Some(e)) => Some(ClockValue::Range { start: s, end: e }),
            _ => None,
        },
        None => match spec_duration(a) {
            Some(m) => if m <= u64::MAX {
                Some(ClockValue::Duration { minutes: m as u64 })
            } else {
                None
            },
            None => None,
        },
    }
}

/// `A`, `B`, `C` (either case) or another single ASCII letter or digit.
pub open spec fn spec_priority(a: Seq<char>) -> Option<PriorityLevel> {
    if a.len() != 1 {
        None
    } else if a[0] == 'A' || a[0] == 'a' {
        Some(PriorityLevel::A)
    } else if a[0] == 'B' || a[0] == 'b' {
        Some(PriorityLevel::B)
    } else if a[0] == 'C' || a[0] == 'c' {
        Some(PriorityLevel::C)
    } else if is_ascii_alnum(a[0]) {
        Some(PriorityLevel::Custom(a[0]))
    } else {
        None
    }
}

/// An optional text field holds `t` when it is non-empty and nothing otherwise.
pub open spec fn holds_text(o: Option<String>, t: Seq<char>) -> bool {
    if t.len() == 0 {
        o is None
    } else {
        o matches Some(s) && s@ == t
    }
}

/// The fallback for names that are not keywords and for keyword arguments
/// that do not parse: the name and the (trimmed) argument, kept as text.
pub open spec fn is_unknown(k: TagKind, name: Seq<char>, a: Seq<char>) -> bool {
    k matches TagKind::Unknown { name: n, value: v } && n@ == name && holds_text(v, a)
}

/// What the tag `#name arg` means, `a` being the argument with surrounding
/// whitespace removed (empty when there is none).
pub open spec fn describes(name: Seq<char>, a: Seq<char>, k: TagKind) -> bool {
    match spec_keyword(name) {
        Some(Keyword::Todo) => k matches TagKind::Todo { text } && holds_text(text, a),
        Some(Keyword::Done) => k matches TagKind::Done { text } && holds_text(text, a),
        Some(Keyword::Deadline) => match spec_planning(a) {
            Some((d, r, w)) => k == TagKind::Deadline { date: d, repeater: r, warning: w },
            None => is_unknown(k, name, a),
        },
        Some(Keyword::Scheduled) => match spec_planning(a) {
            Some((d, r, w)) => k == TagKind::Scheduled { date: d, repeater: r, warning: w },
            None => is_unknown(k, name, a),
        },
        Some(Keyword::Date) => match spec_dated(a) {
            Some((d, r)) => k == TagKind::Date { date: d, repeater: r },
            None => is_unknown(k, name, a),
        },
        Some(Keyword::Event) => match spec_event(a) {
            Some((d, e, r, desc)) => k matches TagKind::Event {
                date,
                end_date,
                repeater,
                description,
            } && date == d && end_date == e && repeater == r && holds_text(description, desc),
            None => is_unknown(k, name, a),
        },
        Some(Keyword::ClockIn) => match spec_datetime(a) {
            Some(dt) => k == TagKind::ClockIn { datetime: dt },
            None => is_unknown(k, name, a),
        },
        Some(Keyword::ClockOut) => match spec_datetime(a) {
            Some(dt) => k == TagKind::ClockOut { datetime: dt },
            None => is_unknown(k, name, a),
        },
        Some(Keyword::Closed) => match spec_datetime(a) {
            Some(dt) => k == TagKind::Closed { datetime: dt },
            None => is_unknown(k, name, a),
        },
        Some(Keyword::Clock) => match spec_clock(a) {
            Some(v) => k == TagKind::Clock(v),
            None => is_unknown(k, name, a),
        },
        Some(Keyword::Priority) => match spec_priority(a) {
            Some(p) => k == TagKind::Priority { level: p },
            None => is_unknown(k, name, a),
        },
        Some(Keyword::Effort) => match spec_duration(a) {
            Some(m) => if m <= u64::MAX {
                k == TagKind::Effort { minutes: m as u64 }
            } else {
                is_unknown(k, name, a)
            },
            None => is_unknown(k, name, a),
        },
        Some(Keyword::Archive) => k == TagKind::Archive,
        Some(Keyword::Progress) => k == TagKind::Progress,
        Some(Keyword::Tangle) => k == TagKind::Tangle,
        _ => is_unknown(k, name, a),
    }
}

} // verus!

verus! {

// ---------------------------------------------------------------------------
// Parsing
// ---------------------------------------------------------------------------
pub open spec fn pow10(n: nat) -> nat
    decreases n,
{
    if n == 0 {
        1
    } else {
        10 * pow10((n - 1) as nat)
    }
}

pub proof fn lemma_digits_bound(s: Seq<char>)
    requires
        all_digits(s),
    ensures
        digits_value(s) < pow10(s.len()),
    decreases s.len(),
{
    if s.len() > 0 {
        lemma_digits_bound(s.drop_last());
        assert(is_digit_at(s, s.len() - 1));
    }
}

pub open spec fn is_digit_at(s: Seq<char>, i: int) -> bool {
    crate::text::is_digit(s[i])
}

/// The value of at most four ASCII digits.
fn small_number(s: &[char]) -> (r: u32)
    requires
        all_digits(s@),
        s.len() <= 4,
    ensures
        r == digits_value(s@),
        r < pow10(s.len() as nat),
{
    let mut v: u32 = 0;
    let mut i: usize = 0;
    proof {
        reveal_with_fuel(pow10, 5);
    }
    while i < s.len()
        invariant
            i <= s.len() <= 4,
            all_digits(s@),
            v == digits_value(s@.take(i as int)),
            v < pow10(i as nat),
            pow10(0) == 1,
            pow10(1) == 10,
            pow10(2) == 100,
            pow10(3) == 1000,
            pow10(4) == 10000,
        decreases s.len() - i,
    {
        assert(s@.take(i + 1).drop_last() == s@.take(i as int));
        assert(crate::text::is_digit(s@[i as int]));
        let d = s[i] as u32 - 48;
        v = v * 10 + d;
        i += 1;
    }
    assert(s@.take(s.len() as int) == s@);
    v
}

fn date_of(s: &[char]) -> (r: Option<Date>)
    ensures
        r == spec_date(s@),
{
    if s.len() != 10 {
        return None;
    }
    let yd = crate::text::slice_of(s, 0, 4);
    let md = crate::text::slice_of(s, 5, 7);
    let dd = crate::text::slice_of(s, 8, 10);
    if !(crate::text::are_digits(&yd) && s[4] == '-' && crate::text::are_digits(&md) && s[7]
        == '-' && crate::text::are_digits(&dd)) {
        return None;
    }
    let y = small_number(&yd);
    let m = small_number(&md);
    let d = small_number(&dd);
    proof {
        reveal_with_fuel(pow10, 5);
    }
    if calendar_day_exists(y as i32, m, d) {
        Some(Date { year: y as i32, month: m, day: d })
    } else {
        None
    }
}

fn time_of(s: &[char]) -> (r: Option<Time>)
    ensures
        r == spec_time(s@),
{
    if s.len() != 5 && s.len() != 8 {
        return None;
    }
    let hd = crate::text::slice_of(s, 0, 2);
    let md = crate::text::slice_of(s, 3, 5);
    if !(crate::text::are_digits(&hd) && s[2] == ':' && crate::text::are_digits(&md)) {
        return None;
    }
    let mut sec: u32 = 0;
    if s.len() == 8 {
        let sd = crate::text::slice_of(s, 6, 8);
        if !(s[5] == ':' && crate::text::are_digits(&sd)) {
            return None;
        }
        sec = small_number(&sd);
    }
    let h = small_number(&hd);
    let m = small_number(&md);
    if clock_time_exists(h, m, sec) {
        Some(Time { hour: h, minute: m, second: sec })
    } else {
        None
    }
}

fn timestamp_of(s: &[char]) -> (r: Option<Timestamp>)
    ensures
        r == spec_timestamp(s@),
{
    if s.len() == 10 {
        match date_of(s) {
            Some(d) => Some(Timestamp::Date(d)),
            None => None,
        }
    } else if s.len() > 11 && s[10] == 'T' {
        let dpart = crate::text::slice_of(s, 0, 10);
        let tpart = crate::text::skip(s, 11);
        assert(dpart@ == s@.take(10));
        match (date_of(&dpart), time_of(&tpart)) {
            (Some(d), Some(t)) => Some(Timestamp::DateTime(DateTime { date: d, time: t })),
            _ => None,
        }
    } else {
        None
    }
}

fn datetime_of(s: &[char]) -> (r: Option<DateTime>)
    ensures
        r == spec_datetime(s@),
{
    match timestamp_of(s) {
        Some(Timestamp::DateTime(dt)) => Some(dt),
        _ => None,
    }
}

/// Minutes denoted by a `NhNm` duration held in characters.
pub fn duration_of(s: &[char]) -> (r: Option<u64>)
    ensures
        r matches Some(v) ==> spec_duration(s@) == Some(v as nat),
        r is None ==> (spec_duration(s@) is None || spec_duration(s@)->0 > u64::MAX),
{
    let a = crate::text::count_lead_digits(s);
    if a > 0 && a < s.len() && s[a] == 'h' {
        let hd = crate::text::slice_of(s, 0, a);
        assert(hd@ == s@.take(a as int));
        let hours = match crate::text::parse_digits(&hd) {
            Some(h) => h,
            None => {
                return None;
            },
        };
        let h60 = match hours.checked_mul(60) {
            Some(x) => x,
            None => {
                return None;
            },
        };
        let rest = crate::text::skip(s, a + 1);
        if rest.len() == 0 {
            return Some(h60);
        }
        let b = crate::text::count_lead_digits(&rest);
        if b > 0 && b + 1 == rest.len() && rest[b] == 'm' {
            let md = crate::text::slice_of(&rest, 0, b);
            assert(md@ == rest@.take(b as int));
            let mins = match crate::text::parse_digits(&md) {
                Some(m) => m,
                None => {
                    return None;
                },
            };
            h60.checked_add(mins)
        } else {
            None
        }
    } else if a > 0 && a < s.len() && a + 1 == s.len() && s[a] == 'm' {
        let md = crate::text::slice_of(s, 0, a);
        assert(md@ == s@.take(a as int));
        crate::text::parse_digits(&md)
    } else {
        None
    }
}

/// Parses a duration written `NhNm`, `Nh` or `Nm` into minutes.
pub fn parse_duration(s: &str) -> (r: Option<u64>)
    ensures
        r matches Some(v) ==> spec_duration(s@) == Some(v as nat),
        r is None ==> (spec_duration(s@) is None || spec_duration(s@)->0 > u64::MAX),
{
    duration_of(&crate::text::chars_of(s))
}

fn unit_of(c: char) -> (r: Option<RepeaterUnit>)
    ensures
        r == spec_unit(c),
{
    if c == 'd' || c == 'D' {
        Some(RepeaterUnit::Day)
    } else if c == 'w' || c == 'W' {
        Some(RepeaterUnit::Week)
    } else if c == 'm' || c == 'M' {
        Some(RepeaterUnit::Month)
    } else if c == 'y' || c == 'Y' {
        Some(RepeaterUnit::Year)
    } else {
        None
    }
}

fn repeater_of(w: &[char]) -> (r: Option<Repeater>)
    ensures
        r == spec_repeater(w@),
{
    if w.len() < 3 || w[0] != '+' {
        return None;
    }
    let mid = crate::text::slice_of(w, 1, w.len() - 1);
    if !crate::text::are_digits(&mid) {
        return None;
    }
    assert(w@.last() == w@[w.len() - 1]);
    match unit_of(w[w.len() - 1]) {
        None => None,
        Some(u) => match crate::text::parse_digits(&mid) {
            Some(v) => if v <= u32::MAX as u64 {
                Some(Repeater { interval: v as u32, unit: u })
            } else {
                None
            },
            None => None,
        },
    }
}

fn warning_of(w: &[char]) -> (r: Option<u32>)
    ensures
        r == spec_warning(w@),
{
    if w.len() < 3 || w[0] != '-' || w[w.len() - 1] != 'd' {
        return None;
    }
    let mid = crate::text::slice_of(w, 1, w.len() - 1);
    if !crate::text::are_digits(&mid) {
        return None;
    }
    match crate::text::parse_digits(&mid) {
        Some(v) => if v <= u32::MAX as u64 {
            Some(v as u32)
        } else {
            None
        },
        None => None,
    }
}

fn planning_of(a: &[char]) -> (r: Option<(Timestamp, Option<Repeater>, Option<u32>)>)
    ensures
        r == spec_planning(a@),
{
    let (w1, r1) = crate::text::split_first_word(a);
    let ts = match timestamp_of(&w1) {
        Some(t) => t,
        None => {
            return None;
        },
    };
    if r1.len() == 0 {
        return Some((ts, None, None));
    }
    let (w2, r2) = crate::text::split_first_word(&r1);
    if w2.len() > 0 && w2[0] == '+' {
        let rep = match repeater_of(&w2) {
            Some(x) => x,
            None => {
                return None;
            },
        };
        if r2.len() == 0 {
            return Some((ts, Some(rep), None));
        }
        let (w3, r3) = crate::text::split_first_word(&r2);
        match warning_of(&w3) {
            Some(wn) => if r3.len() == 0 {
                Some((ts, Some(rep), Some(wn)))
            } else {
                None
            },
            None => None,
        }
    } else {
        match warning_of(&w2) {
            Some(wn) => if r2.len() == 0 {
                Some((ts, None, Some(wn)))
            } else {
                None
            },
            None => None,
        }
    }
}

fn dated_of(a: &[char]) -> (r: Option<(Timestamp, Option<Repeater>)>)
    ensures
        r == spec_dated(a@),
{
    let (w1, r1) = crate::text::split_first_word(a);
    let ts = match timestamp_of(&w1) {
        Some(t) => t,
        None => {
            return None;
        },
    };
    if r1.len() == 0 {
        return Some((ts, None));
    }
    let (w2, r2) = crate::text::split_first_word(&r1);
    match repeater_of(&w2) {
        Some(rep) => if r2.len() == 0 {
            Some((ts, Some(rep)))
        } else {
            None
        },
        None => None,
    }
}

fn range_of(w: &[char]) -> (r: Option<(Timestamp, Option<Timestamp>)>)
    ensures
        r == spec_range(w@),
{
    match crate::text::index_of(w, '/') {
        Some(i) => {
            let a = crate::text::slice_of(w, 0, i);
            let b = crate::text::skip(w, i + 1);
            assert(a@ == w@.take(i as int));
            match (timestamp_of(&a), timestamp_of(&b)) {
                (Some(s), Some(e)) => Some((s, Some(e))),
                _ => None,
            }
        },
        None => match timestamp_of(w) {
            Some(s) => Some((s, None)),
            None => None,
        },
    }
}

fn event_of(a: &[char]) -> (r: Option<(Timestamp, Option<Timestamp>, Option<Repeater>, Vec<char>)>)
    ensures
        r matches Some((s, e, rep, d)) ==> spec_event(a@) == Some((s, e, rep, d@)),
        r is None ==> spec_event(a@) is None,
{
    let (w1, r1) = crate::text::split_first_word(a);
    match range_of(&w1) {
        None => None,
        Some((s, e)) => {
            let (w2, r2) = crate::text::split_first_word(&r1);
            if w2.len() > 0 && w2[0] == '+' {
                match repeater_of(&w2) {
                    Some(rep) => {
                        return Some((s, e, Some(rep), crate::text::trimmed_end(&r2)));
                    },
                    None => {},
                }
            }
            Some((s, e, None, crate::text::trimmed_end(&r1)))
        },
    }
}

fn clock_of(a: &[char]) -> (r: Option<ClockValue>)
    ensures
        r == spec_clock(a@),
{
    match crate::text::index_of(a, '/') {
        Some(i) => {
            let x = crate::text::slice_of(a, 0, i);
            let y = crate::text::skip(a, i + 1);
            assert(x@ == a@.take(i as int));
            match (datetime_of(&x), datetime_of(&y)) {
                (Some(s), Some(e)) => Some(ClockValue::Range { start: s, end: e }),
                _ => None,
            }
        },
        None => match duration_of(a) {
            Some(m) => Some(ClockValue::Duration { minutes: m }),
            None => None,
        },
    }
}

fn priority_of(a: &[char]) -> (r: Option<PriorityLevel>)
    ensures
        r == spec_priority(a@),
{
    if a.len() != 1 {
        None
    } else if a[0] == 'A' || a[0] == 'a' {
        Some(PriorityLevel::A)
    } else if a[0] == 'B' || a[0] == 'b' {
        Some(PriorityLevel::B)
    } else if a[0] == 'C' || a[0] == 'c' {
        Some(PriorityLevel::C)
    } else if crate::text::ascii_alnum(a[0]) {
        Some(PriorityLevel::Custom(a[0]))
    } else {
        None
    }
}

fn text_field(t: &[char]) -> (o: Option<String>)
    ensures
        holds_text(o, t@),
{
    if t.len() == 0 {
        None
    } else {
        Some(crate::text::string_of(t))
    }
}

fn unknown_kind(name: &[char], a: &[char]) -> (k: TagKind)
    ensures
        is_unknown(k, name@, a@),
{
    TagKind::Unknown { name: crate::text::string_of(name), value: text_field(a) }
}

/// The meaning of `#name a`, where `a` is an already trimmed argument.
pub fn tag_kind_of(name: &[char], a: &[char]) -> (k: TagKind)
    ensures
        describes(name@, a@, k),
{
    match Keyword::from_chars(name) {
        Some(Keyword::Todo) => TagKind::Todo { text: text_field(a) },
        Some(Keyword::Done) => TagKind::Done { text: text_field(a) },
        Some(Keyword::Deadline) => match planning_of(a) {
            Some((d, r, w)) => TagKind::Deadline { date: d, repeater: r, warning: w },
            None => unknown_kind(name, a),
        },
        Some(Keyword::Scheduled) => match planning_of(a) {
            Some((d, r, w)) => TagKind::Scheduled { date: d, repeater: r, warning: w },
            None => unknown_kind(name, a),
        },
        Some(Keyword::Date) => match dated_of(a) {
            Some((d, r)) => TagKind::Date { date: d, repeater: r },
            None => unknown_kind(name, a),
        },
        Some(Keyword::Event) => match event_of(a) {
            Some((d, e, r, desc)) => TagKind::Event {
                date: d,
                end_date: e,
                repeater: r,
                description: text_field(&desc),
            },
            None => unknown_kind(name, a),
        },
        Some(Keyword::ClockIn) => match datetime_of(a) {
            Some(dt) => TagKind::ClockIn { datetime: dt },
            None => unknown_kind(name, a),
        },
        Some(Keyword::ClockOut) => match datetime_of(a) {
            Some(dt) => TagKind::ClockOut { datetime: dt },
            None => unknown_kind(name, a),
        },
        Some(Keyword::Closed) => match datetime_of(a) {
            Some(dt) => TagKind::Closed { datetime: dt },
            None => unknown_kind(name, a),
        },
        Some(Keyword::Clock) => match clock_of(a) {
            Some(v) => TagKind::Clock(v),
            None => unknown_kind(name, a),
        },
        Some(Keyword::Priority) => match priority_of(a) {
            Some(p) => TagKind::Priority { level: p },
            None => unknown_kind(name, a),
        },
        Some(Keyword::Effort) => match duration_of(a) {
            Some(m) => TagKind::Effort { minutes: m },
            None => unknown_kind(name, a),
        },
        Some(Keyword::Archive) => TagKind::Archive,
        Some(Keyword::Progress) => TagKind::Progress,
        Some(Keyword::Tangle) => TagKind::Tangle,
        _ => unknown_kind(name, a),
    }
}

/// The argument text of a tag: trimmed, and empty when there is none.
pub open spec fn arg_text(arg: Option<&str>) -> Seq<char> {
    match arg {
        Some(a) => crate::text::trim(a@),
        None => Seq::empty(),
    }
}

/// Builds the tag `#name arg` read at `span`.
pub fn parse_tag(name: &str, arg: Option<&str>, span: Span) -> (t: Tag)
    ensures
        describes(name@, arg_text(arg), t.kind),
        t.span == span,
{
    let n = crate::text::chars_of(name);
    let a = match arg {
        Some(s) => crate::text::trimmed(&crate::text::chars_of(s)),
        None => Vec::new(),
    };
    Tag { kind: tag_kind_of(&n, &a), span }
}

} // verus!
