//! The agenda: dated entries (deadlines, scheduled items, dates, events)
//! expanded over a horizon, repeaters and warning periods included.

use chrono::Datelike;
use vstd::prelude::*;

use crate::collect::TagContext;
use crate::report::format_location;
use crate::tags::{days_in_month, valid_ymd, Date, Repeater, RepeaterUnit, TagKind, Timestamp};
use crate::text::decimal;

verus! {

/// How many days ahead the agenda looks.
pub const DEFAULT_HORIZON_DAYS: i64 = 90;

/// The date `n` days after `y-m-d` (before it when `n` is negative), as
/// chrono's calendar counts, or `None` past chrono's range.
pub uninterp spec fn shifted_ymd(y: int, m: int, d: int, n: int) -> Option<(int, int, int)>;

/// Adds `n` days to a date with `chrono::NaiveDate::checked_add_signed`.
/// The contract names the result `shifted_ymd` of the date's fields and
/// `n`; a date it gives is a calendar day inside chrono's years, as every
/// `NaiveDate` is.  `chrono::Duration::days` panics beyond about 1.07e11 days, so `n`
/// is bounded well inside that.
#[verifier::external_body]
pub(crate) fn shift_days(d: Date, n: i64) -> (r: Option<Date>)
    requires
        -100_000_000_000 <= n <= 100_000_000_000,
    ensures
        match r {
            Some(e) => shifted_ymd(d.year as int, d.month as int, d.day as int, n as int) == Some(
                (e.year as int, e.month as int, e.day as int),
            ),
            None => shifted_ymd(d.year as int, d.month as int, d.day as int, n as int) is None,
        },
        r matches Some(e) ==> valid_ymd(e.year as int, e.month as int, e.day as int)
            && crate::tags::MIN_YEAR <= e.year <= crate::tags::MAX_YEAR,
{
    let nd = chrono::NaiveDate::from_ymd_opt(d.year, d.month, d.day)?;
    let r = nd.checked_add_signed(chrono::Duration::days(n))?;
    Some(Date { year: r.year(), month: r.month(), day: r.day() })
}

/// Today's date on the local clock (`chrono::Local::now().date_naive()`).
/// Which day it is depends on the clock; it is a day of the calendar, as
/// every `NaiveDate` is.
#[verifier::external_body]
pub(crate) fn local_today() -> (d: Date)
    ensures
        valid_ymd(d.year as int, d.month as int, d.day as int),
{
    let now = chrono::Local::now().date_naive();
    Date { year: now.year(), month: now.month(), day: now.day() }
}

/// The kind of an agenda entry.
#[derive(Debug, Clone, Copy, PartialEq, Eq, Structural)]
pub enum AgendaKind {
    Deadline,
    Scheduled,
    Date,
    Event,
}

/// How a kind is shown.
pub open spec fn kind_label(k: AgendaKind) -> Seq<char> {
    match k {
        AgendaKind::Deadline => "DEADLINE"@,
        AgendaKind::Scheduled => "SCHEDULED"@,
        AgendaKind::Date => "DATE"@,
        AgendaKind::Event => "EVENT"@,
    }
}

impl AgendaKind {
    /// How the kind is shown: `DEADLINE`, `SCHEDULED`, `DATE` or `EVENT`.
    pub fn label(&self) -> (s: &'static str)
        ensures
            s@ == kind_label(*self),
    {
        proof {
            reveal_strlit("DEADLINE");
            reveal_strlit("SCHEDULED");
            reveal_strlit("DATE");
            reveal_strlit("EVENT");
        }
        match self {
            AgendaKind::Deadline => "DEADLINE",
            AgendaKind::Scheduled => "SCHEDULED",
            AgendaKind::Date => "DATE",
            AgendaKind::Event => "EVENT",
        }
    }
}

/// A dated tag, before expansion.
pub struct AgendaEntry {
    pub date: Timestamp,
    pub kind: AgendaKind,
    pub repeater: Option<Repeater>,
    pub warning: Option<u32>,
    pub description: Option<String>,
    pub location: String,
}

/// The parts of an agenda entry, by value.
pub open spec fn agenda_view(e: AgendaEntry) -> (
    Timestamp,
    AgendaKind,
    Option<Repeater>,
    Option<u32>,
    Option<Seq<char>>,
    Seq<char>,
) {
    (
        e.date,
        e.kind,
        e.repeater,
        e.warning,
        match e.description {
            Some(d) => Some(d@),
            None => None,
        },
        e.location@,
    )
}

/// The agenda entry a tag gives, if it is dated and not under an archived
/// heading.
pub open spec fn entry_of<'a>(c: TagContext<'a>) -> Option<
    (Timestamp, AgendaKind, Option<Repeater>, Option<u32>, Option<Seq<char>>, Seq<char>),
> {
    let loc = c.file@ + ":"@ + decimal(c.tag.span.line as nat);
    if c.is_archived {
        None
    } else {
        match c.tag.kind {
            TagKind::Deadline { date, repeater, warning } => Some(
                (date, AgendaKind::Deadline, repeater, warning, None, loc),
            ),
            TagKind::Scheduled { date, repeater, warning } => Some(
                (date, AgendaKind::Scheduled, repeater, warning, None, loc),
            ),
            TagKind::Date { date, repeater } => Some(
                (date, AgendaKind::Date, repeater, None, None, loc),
            ),
            TagKind::Event { date, repeater, description, .. } => Some(
                (
                    date,
                    AgendaKind::Event,
                    repeater,
                    None,
                    match description {
                        Some(d) => Some(d@),
                        None => None,
                    },
                    loc,
                ),
            ),
            _ => None,
        }
    }
}

/// The agenda entries of a walk, in order.
pub open spec fn entries_of<'a>(cs: Seq<TagContext<'a>>) -> Seq<
    (Timestamp, AgendaKind, Option<Repeater>, Option<u32>, Option<Seq<char>>, Seq<char>),
>
    decreases cs.len(),
{
    if cs.len() == 0 {
        Seq::empty()
    } else {
        let rest = entries_of(cs.drop_last());
        match entry_of(cs.last()) {
            Some(e) => rest.push(e),
            None => rest,
        }
    }
}

fn copy_opt(s: &Option<String>) -> (r: Option<String>)
    ensures
        match (r, *s) {
            (Some(a), Some(b)) => a@ == b@,
            (None, None) => true,
            _ => false,
        },
{
    match s {
        Some(x) => Some(x.clone()),
        None => None,
    }
}

/// The dated, unarchived tags of a walk as agenda entries.
pub fn agenda_entries<'a>(contexts: &Vec<TagContext<'a>>) -> (r: Vec<AgendaEntry>)
    ensures
        r@.map_values(|e: AgendaEntry| agenda_view(e)) == entries_of(contexts@),
{
    let mut out: Vec<AgendaEntry> = Vec::new();
    let mut i: usize = 0;
    while i < contexts.len()
        invariant
            i <= contexts@.len(),
            out@.map_values(|e: AgendaEntry| agenda_view(e)) == entries_of(contexts@.take(i as int)),
        decreases contexts@.len() - i,
    {
        let c = &contexts[i];
        assert(contexts@.take(i + 1).drop_last() =~= contexts@.take(i as int));
        let ghost before = out@;
        if !c.is_archived {
            let (date, kind, repeater, warning, description): (
                Timestamp,
                AgendaKind,
                Option<Repeater>,
                Option<u32>,
                Option<String>,
            ) = match &c.tag.kind {
                TagKind::Deadline { date, repeater, warning } => (
                    *date,
                    AgendaKind::Deadline,
                    *repeater,
                    *warning,
                    None,
                ),
                TagKind::Scheduled { date, repeater, warning } => (
                    *date,
                    AgendaKind::Scheduled,
                    *repeater,
                    *warning,
                    None,
                ),
                TagKind::Date { date, repeater } => (*date, AgendaKind::Date, *repeater, None, None),
                TagKind::Event { date, repeater, description, .. } => (
                    *date,
                    AgendaKind::Event,
                    *repeater,
                    None,
                    copy_opt(description),
                ),
                _ => {
                    i += 1;
                    assert(out@.map_values(|e: AgendaEntry| agenda_view(e)) =~= entries_of(
                        contexts@.take(i as int),
                    ));
                    continue ;
                },
            };
            let location = format_location(c.file, &c.tag.span);
            out.push(AgendaEntry { date, kind, repeater, warning, description, location });
            assert(out@.map_values(|e: AgendaEntry| agenda_view(e)) =~= before.map_values(
                |e: AgendaEntry| agenda_view(e),
            ).push(agenda_view(out@.last())));
        }
        i += 1;
    }
    assert(contexts@.take(contexts@.len() as int) =~= contexts@);
    out
}

/// A date as one number that orders dates as the calendar does.
pub open spec fn date_ord(d: Date) -> int {
    d.year * 10000 + d.month * 100 + d.day
}

fn ord_of(d: Date) -> (r: i64)
    ensures
        r == date_ord(d),
{
    d.year as i64 * 10000 + d.month as i64 * 100 + d.day as i64
}

/// The number of days of month `m` of year `y`.
pub fn days_in_month_of(y: i32, m: u32) -> (r: u32)
    requires
        crate::tags::MIN_YEAR <= y <= crate::tags::MAX_YEAR,
        1 <= m <= 12,
    ensures
        r == days_in_month(y as int, m as int),
{
    if crate::tags::calendar_day_exists(y, m, 31) {
        31
    } else if crate::tags::calendar_day_exists(y, m, 30) {
        30
    } else if crate::tags::calendar_day_exists(y, m, 29) {
        29
    } else {
        28
    }
}

/// The next occurrence of a repeating date, or `None` when there is none
/// inside chrono's years (or the month is not a calendar month).
pub open spec fn advanced(d: Date, r: Repeater) -> Option<Date> {
    let n = r.interval as int;
    match r.unit {
        RepeaterUnit::Day => shifted(d, n),
        RepeaterUnit::Week => shifted(d, 7 * n),
        RepeaterUnit::Month => {
            if d.month < 1 || d.month > 12 {
                None
            } else {
                let m0 = d.month - 1 + n;
                let y = d.year + m0 / 12;
                let m = m0 % 12 + 1;
                if y < crate::tags::MIN_YEAR || y > crate::tags::MAX_YEAR {
                    None
                } else {
                    let day = if d.day < days_in_month(y, m) {
                        d.day as int
                    } else {
                        days_in_month(y, m)
                    };
                    if valid_ymd(y, m, day) {
                        Some(Date { year: y as i32, month: m as u32, day: day as u32 })
                    } else {
                        Some(d)
                    }
                }
            }
        },
        RepeaterUnit::Year => {
            let y = d.year + (r.interval as i32);
            if y < crate::tags::MIN_YEAR || y > crate::tags::MAX_YEAR {
                None
            } else if valid_ymd(y, d.month as int, d.day as int) {
                Some(Date { year: y as i32, month: d.month, day: d.day })
            } else if valid_ymd(y, d.month as int, 28) {
                Some(Date { year: y as i32, month: d.month, day: 28 })
            } else {
                Some(d)
            }
        },
    }
}

/// The date `n` days after `d`, by the name of chrono's result.
pub open spec fn shifted(d: Date, n: int) -> Option<Date> {
    match shifted_ymd(d.year as int, d.month as int, d.day as int, n) {
        Some((y, m, day)) => Some(Date { year: y as i32, month: m as u32, day: day as u32 }),
        None => None,
    }
}

/// A daily repeater of interval `n` moves a date `n` days on, a weekly one
/// `7 * n` days on, as chrono counts days; a repeater of a whole number of
/// weeks is the same as the daily one of that many days.
pub proof fn lemma_advance_by_days(d: Date, r: Repeater)
    ensures
        r.unit == RepeaterUnit::Day ==> advanced(d, r) == shifted(d, r.interval as int),
        r.unit == RepeaterUnit::Week ==> advanced(d, r) == shifted(d, 7 * r.interval),
        r.unit == RepeaterUnit::Week && 7 * r.interval <= u32::MAX ==> advanced(d, r) == advanced(
            d,
            Repeater { interval: (7 * r.interval) as u32, unit: RepeaterUnit::Day },
        ),
{
}

/// A monthly repeater of interval `n` moves a calendar day `n` months on
/// (carrying into the years), keeping its day of the month, or the last day
/// of the new month when that is shorter; a yearly one moves it `n` years
/// on in the same month, on the same day or, when that day does not exist
/// there (29 February), on the 28th (for an interval that fits an `i32`,
/// as the year is counted in one).  There is no next date only past
/// chrono's years.
pub proof fn lemma_advance_months_years(d: Date, r: Repeater)
    requires
        valid_ymd(d.year as int, d.month as int, d.day as int),
    ensures
        r.unit == RepeaterUnit::Month ==> match advanced(d, r) {
            Some(e) => valid_ymd(e.year as int, e.month as int, e.day as int) && e.year * 12
                + e.month == d.year * 12 + d.month + r.interval && (e.day == d.day || (d.day
                > e.day && e.day == days_in_month(e.year as int, e.month as int))),
            None => d.year + (d.month - 1 + r.interval) / 12 < crate::tags::MIN_YEAR || d.year + (
            d.month - 1 + r.interval) / 12 > crate::tags::MAX_YEAR,
        },
        r.unit == RepeaterUnit::Year && r.interval <= i32::MAX ==> match advanced(d, r) {
            Some(e) => valid_ymd(e.year as int, e.month as int, e.day as int) && e.year == d.year
                + r.interval && e.month == d.month && (e.day == d.day || (e.day == 28 && d.month
                == 2 && d.day == 29)),
            None => d.year + r.interval < crate::tags::MIN_YEAR || d.year + r.interval
                > crate::tags::MAX_YEAR,
        },
{
    let n = r.interval as int;
    if r.unit == RepeaterUnit::Month {
        let m0 = d.month - 1 + n;
        assert(m0 == 12 * (m0 / 12) + m0 % 12 && 0 <= m0 % 12 < 12) by (nonlinear_arith)
            requires
                m0 >= 0,
        ;
    }
}

/// Advances a repeating date by its repeater.
pub fn advance_date(d: Date, r: Repeater) -> (out: Option<Date>)
    ensures
        out == advanced(d, r),
{
    let n = r.interval as i64;
    match r.unit {
        RepeaterUnit::Day => shift_days(d, n),
        RepeaterUnit::Week => shift_days(d, 7 * n),
        RepeaterUnit::Month => {
            if d.month < 1 || d.month > 12 {
                return None;
            }
            let m0: i64 = d.month as i64 - 1 + n;
            let y: i64 = d.year as i64 + m0 / 12;
            let m: i64 = m0 % 12 + 1;
            if y < crate::tags::MIN_YEAR as i64 || y > crate::tags::MAX_YEAR as i64 {
                return None;
            }
            let dim = days_in_month_of(y as i32, m as u32);
            let day = if d.day < dim {
                d.day
            } else {
                dim
            };
            if crate::tags::calendar_day_exists(y as i32, m as u32, day) {
                Some(Date { year: y as i32, month: m as u32, day })
            } else {
                Some(d)
            }
        },
        RepeaterUnit::Year => {
            let y: i64 = d.year as i64 + (r.interval as i32) as i64;
            if y < crate::tags::MIN_YEAR as i64 || y > crate::tags::MAX_YEAR as i64 {
                return None;
            }
            if crate::tags::calendar_day_exists(y as i32, d.month, d.day) {
                Some(Date { year: y as i32, month: d.month, day: d.day })
            } else if crate::tags::calendar_day_exists(y as i32, d.month, 28) {
                Some(Date { year: y as i32, month: d.month, day: 28 })
            } else {
                Some(d)
            }
        },
    }
}

/// One occurrence on the agenda.
pub struct ExpandedEntry {
    pub date: Date,
    pub timestamp: Timestamp,
    pub kind: AgendaKind,
    pub description: Option<String>,
    pub location: String,
    pub recurring: bool,
    pub is_warning: bool,
}

/// An occurrence, by value: date, timestamp, kind, description, location,
/// whether it repeats, whether it is a warning.
pub type Occurrence = (Date, Timestamp, AgendaKind, Option<Seq<char>>, Seq<char>, bool, bool);

pub open spec fn expanded_view(e: ExpandedEntry) -> Occurrence {
    (
        e.date,
        e.timestamp,
        e.kind,
        match e.description {
            Some(d) => Some(d@),
            None => None,
        },
        e.location@,
        e.recurring,
        e.is_warning,
    )
}

/// The dates on which a repeating entry falls between `today` and
/// `horizon`, starting from `d`; a repeater that does not move the date
/// forward stops the series.
pub open spec fn repeat_dates(d: Date, r: Repeater, today: Date, horizon: Date) -> Seq<Date>
    decreases date_ord(horizon) - date_ord(d),
{
    if date_ord(d) > date_ord(horizon) {
        Seq::empty()
    } else {
        let here = if date_ord(d) >= date_ord(today) {
            seq![d]
        } else {
            Seq::empty()
        };
        match advanced(d, r) {
            Some(next) => if date_ord(d) < date_ord(next) && date_ord(next) <= date_ord(horizon) {
                here + repeat_dates(next, r, today, horizon)
            } else {
                here
            },
            None => here,
        }
    }
}

/// The dates a repeating entry shows: all inside the window from `today` to
/// `horizon`, none before the entry's own date, in strictly rising order;
/// and the entry's own date first when it is inside the window.
pub proof fn lemma_repeat_dates_window(d: Date, r: Repeater, today: Date, horizon: Date)
    ensures
        forall|k: int|
            0 <= k < repeat_dates(d, r, today, horizon).len() ==> date_ord(today) <= date_ord(
                #[trigger] repeat_dates(d, r, today, horizon)[k],
            ) <= date_ord(horizon) && date_ord(d) <= date_ord(repeat_dates(d, r, today, horizon)[k]),
        forall|i: int, j: int|
            0 <= i < j < repeat_dates(d, r, today, horizon).len() ==> date_ord(
                #[trigger] repeat_dates(d, r, today, horizon)[i],
            ) < date_ord(#[trigger] repeat_dates(d, r, today, horizon)[j]),
        date_ord(today) <= date_ord(d) <= date_ord(horizon) ==> repeat_dates(d, r, today, horizon).len()
            > 0 && repeat_dates(d, r, today, horizon)[0] == d,
    decreases date_ord(horizon) - date_ord(d),
{
    let s = repeat_dates(d, r, today, horizon);
    if date_ord(d) <= date_ord(horizon) {
        let here = if date_ord(d) >= date_ord(today) {
            seq![d]
        } else {
            Seq::<Date>::empty()
        };
        match advanced(d, r) {
            Some(next) => {
                if date_ord(d) < date_ord(next) && date_ord(next) <= date_ord(horizon) {
                    lemma_repeat_dates_window(next, r, today, horizon);
                    let rest = repeat_dates(next, r, today, horizon);
                    assert(s == here + rest);
                    assert forall|k: int| 0 <= k < s.len() implies date_ord(today) <= date_ord(
                        #[trigger] s[k],
                    ) <= date_ord(horizon) && date_ord(d) <= date_ord(s[k]) by {
                        if k >= here.len() {
                            assert(s[k] == rest[k - here.len()]);
                        }
                    }
                    assert forall|i: int, j: int| 0 <= i < j < s.len() implies date_ord(
                        #[trigger] s[i],
                    ) < date_ord(#[trigger] s[j]) by {
                        assert(s[j] == rest[j - here.len()]);
                        if i >= here.len() {
                            assert(s[i] == rest[i - here.len()]);
                        }
                    }
                }
            },
            None => {},
        }
    }
}

/// The occurrences of one entry: its dates (each repeat inside the window,
/// or the date itself), then a warning occurrence when the warning day is
/// inside the window.
pub open spec fn occurrences(
    e: (Timestamp, AgendaKind, Option<Repeater>, Option<u32>, Option<Seq<char>>, Seq<char>),
    today: Date,
    horizon: Date,
) -> Seq<Occurrence> {
    let base = match e.0 {
        Timestamp::Date(d) => d,
        Timestamp::DateTime(dt) => dt.date,
    };
    let main = match e.2 {
        Some(r) => repeat_dates(base, r, today, horizon).map_values(
            |d: Date| (d, e.0, e.1, e.4, e.5, true, false),
        ),
        None => seq![(base, e.0, e.1, e.4, e.5, false, false)],
    };
    let warn = match e.3 {
        Some(days) => match shifted(base, -(days as int)) {
            Some(w) => if date_ord(w) >= date_ord(today) && date_ord(w) <= date_ord(horizon) {
                seq![(w, e.0, e.1, e.4, e.5, false, true)]
            } else {
                Seq::empty()
            },
            None => Seq::empty(),
        },
        None => Seq::empty(),
    };
    main + warn
}

/// The occurrences of all entries, entry by entry.
pub open spec fn all_occurrences(
    es: Seq<(Timestamp, AgendaKind, Option<Repeater>, Option<u32>, Option<Seq<char>>, Seq<char>)>,
    today: Date,
    horizon: Date,
) -> Seq<Occurrence>
    decreases es.len(),
{
    if es.len() == 0 {
        Seq::empty()
    } else {
        all_occurrences(es.drop_last(), today, horizon) + occurrences(es.last(), today, horizon)
    }
}

fn occurrence(
    e: &AgendaEntry,
    d: Date,
    recurring: bool,
    is_warning: bool,
) -> (r: ExpandedEntry)
    ensures
        expanded_view(r) == (
            d,
            agenda_view(*e).0,
            agenda_view(*e).1,
            agenda_view(*e).4,
            agenda_view(*e).5,
            recurring,
            is_warning,
        ),
{
    ExpandedEntry {
        date: d,
        timestamp: e.date,
        kind: e.kind,
        description: copy_opt(&e.description),
        location: e.location.clone(),
        recurring,
        is_warning,
    }
}

fn push_occurrences(out: &mut Vec<ExpandedEntry>, e: &AgendaEntry, today: Date, horizon: Date)
    requires
        crate::tags::MIN_YEAR <= horizon.year <= crate::tags::MAX_YEAR,
    ensures
        final(out)@.map_values(|x: ExpandedEntry| expanded_view(x)) == old(out)@.map_values(
            |x: ExpandedEntry| expanded_view(x),
        ) + occurrences(agenda_view(*e), today, horizon),
{
    let ghost o = out@.map_values(|x: ExpandedEntry| expanded_view(x));
    let ghost ev = agenda_view(*e);
    let base = e.date.date();
    match e.repeater {
        Some(r) => {
            let ghost all = repeat_dates(base, r, today, horizon);
            let mut d = base;
            let ghost mut done: Seq<Date> = Seq::empty();
            let ho = ord_of(horizon);
            let to = ord_of(today);
            loop
                invariant_except_break
                    ho == date_ord(horizon),
                    to == date_ord(today),
                    all == repeat_dates(base, r, today, horizon),
                    ev == agenda_view(*e),
                    all == done + repeat_dates(d, r, today, horizon),
                    out@.map_values(|x: ExpandedEntry| expanded_view(x)) == o + done.map_values(
                        |x: Date| (x, ev.0, ev.1, ev.4, ev.5, true, false),
                    ),
                ensures
                    out@.map_values(|x: ExpandedEntry| expanded_view(x)) == o + all.map_values(
                        |x: Date| (x, ev.0, ev.1, ev.4, ev.5, true, false),
                    ),
                decreases date_ord(horizon) - date_ord(d),
            {
                let od = ord_of(d);
                if od > ho {
                    assert(repeat_dates(d, r, today, horizon) =~= Seq::<Date>::empty());
                    assert(done =~= all);
                    break ;
                }
                let ghost before = out@.map_values(|x: ExpandedEntry| expanded_view(x));
                let ghost here: Seq<Date> = if date_ord(d) >= date_ord(today) {
                    seq![d]
                } else {
                    Seq::empty()
                };
                if od >= to {
                    out.push(occurrence(e, d, true, false));
                    assert(out@.map_values(|x: ExpandedEntry| expanded_view(x)) =~= before.push(
                        (d, ev.0, ev.1, ev.4, ev.5, true, false),
                    ));
                } else {
                    assert(out@.map_values(|x: ExpandedEntry| expanded_view(x)) =~= before);
                }
                assert((done + here).map_values(|x: Date| (x, ev.0, ev.1, ev.4, ev.5, true, false))
                    =~= done.map_values(|x: Date| (x, ev.0, ev.1, ev.4, ev.5, true, false))
                    + here.map_values(|x: Date| (x, ev.0, ev.1, ev.4, ev.5, true, false)));
                let next = advance_date(d, r);
                match next {
                    Some(nd) => {
                        let on = ord_of(nd);
                        if od < on && on <= ho {
                            proof {
                                assert(all =~= (done + here) + repeat_dates(nd, r, today, horizon));
                                done = done + here;
                            }
                            d = nd;
                        } else {
                            proof {
                                assert(all =~= done + here);
                                done = done + here;
                            }
                            break ;
                        }
                    },
                    None => {
                        proof {
                            assert(all =~= done + here);
                            done = done + here;
                        }
                        break ;
                    },
                }
            }
        },
        None => {
            out.push(occurrence(e, base, false, false));
        },
    }
    let ghost mid = out@.map_values(|x: ExpandedEntry| expanded_view(x));
    match e.warning {
        Some(days) => {
            match shift_days(base, -(days as i64)) {
                Some(w) => {
                    let ow = ord_of(w);
                    if ow >= ord_of(today) && ow <= ord_of(horizon) {
                        out.push(occurrence(e, w, false, true));
                        assert(out@.map_values(|x: ExpandedEntry| expanded_view(x)) =~= mid.push(
                            (w, ev.0, ev.1, ev.4, ev.5, false, true),
                        ));
                    }
                },
                None => {},
            }
        },
        None => {},
    }
    assert(out@.map_values(|x: ExpandedEntry| expanded_view(x)) =~= o + occurrences(
        ev,
        today,
        horizon,
    ));
}

/// The occurrences of the entries between `today` and `horizon`, entry by
/// entry, before sorting.
pub fn expand_entries(entries: &Vec<AgendaEntry>, today: Date, horizon: Date) -> (r: Vec<
    ExpandedEntry,
>)
    requires
        crate::tags::MIN_YEAR <= horizon.year <= crate::tags::MAX_YEAR,
    ensures
        r@.map_values(|x: ExpandedEntry| expanded_view(x)) == all_occurrences(
            entries@.map_values(|e: AgendaEntry| agenda_view(e)),
            today,
            horizon,
        ),
{
    let ghost es = entries@.map_values(|e: AgendaEntry| agenda_view(e));
    let mut out: Vec<ExpandedEntry> = Vec::new();
    let mut i: usize = 0;
    while i < entries.len()
        invariant
            i <= entries@.len(),
            crate::tags::MIN_YEAR <= horizon.year <= crate::tags::MAX_YEAR,
            es == entries@.map_values(|e: AgendaEntry| agenda_view(e)),
            out@.map_values(|x: ExpandedEntry| expanded_view(x)) == all_occurrences(
                es.take(i as int),
                today,
                horizon,
            ),
        decreases entries@.len() - i,
    {
        assert(es.take(i + 1).drop_last() =~= es.take(i as int));
        push_occurrences(&mut out, &entries[i], today, horizon);
        i += 1;
    }
    assert(es.take(entries@.len() as int) =~= es);
    out
}

/// The position after the leading entries dated no later than `k`.
pub open spec fn upper_pos(s: Seq<Occurrence>, k: int) -> int
    decreases s.len(),
{
    if s.len() == 0 {
        0
    } else if date_ord(s[0].0) > k {
        0
    } else {
        1 + upper_pos(s.skip(1), k)
    }
}

/// `x` put in after every entry dated no later than it.
pub open spec fn insert_by_date(s: Seq<Occurrence>, x: Occurrence) -> Seq<Occurrence> {
    let p = upper_pos(s, date_ord(x.0));
    s.take(p) + seq![x] + s.skip(p)
}

/// The occurrences sorted by date, occurrences of one date keeping their
/// order.
pub open spec fn sorted_by_date(s: Seq<Occurrence>) -> Seq<Occurrence>
    decreases s.len(),
{
    if s.len() == 0 {
        s
    } else {
        insert_by_date(sorted_by_date(s.drop_last()), s.last())
    }
}

/// Whether the occurrences are in date order.
pub open spec fn in_date_order(s: Seq<Occurrence>) -> bool {
    forall|i: int, j: int| 0 <= i < j < s.len() ==> date_ord(#[trigger] s[i].0) <= date_ord(#[trigger] s[j].0)
}

proof fn lemma_upper_pos(s: Seq<Occurrence>, k: int)
    ensures
        0 <= upper_pos(s, k) <= s.len(),
        forall|i: int| 0 <= i < upper_pos(s, k) ==> date_ord(#[trigger] s[i].0) <= k,
        upper_pos(s, k) < s.len() ==> date_ord(s[upper_pos(s, k)].0) > k,
    decreases s.len(),
{
    if s.len() > 0 && date_ord(s[0].0) <= k {
        lemma_upper_pos(s.skip(1), k);
        assert forall|i: int| 0 <= i < upper_pos(s, k) implies date_ord(#[trigger] s[i].0) <= k by {
            if i > 0 {
                assert(s[i] == s.skip(1)[i - 1]);
            }
        }
        if upper_pos(s, k) < s.len() {
            assert(s[upper_pos(s, k)] == s.skip(1)[upper_pos(s.skip(1), k)]);
        }
    }
}

/// Sorting by date puts the occurrences in date order.
pub proof fn lemma_sorted_by_date(s: Seq<Occurrence>)
    ensures
        in_date_order(sorted_by_date(s)),
        sorted_by_date(s).len() == s.len(),
    decreases s.len(),
{
    if s.len() > 0 {
        let t = sorted_by_date(s.drop_last());
        lemma_sorted_by_date(s.drop_last());
        let x = s.last();
        let k = date_ord(x.0);
        lemma_upper_pos(t, k);
        let p = upper_pos(t, k);
        let r = insert_by_date(t, x);
        assert(r.len() == s.len());
        assert forall|i: int, j: int| 0 <= i < j < r.len() implies date_ord(#[trigger] r[i].0) <= date_ord(#[trigger] r[j].0) by {
            if j < p {
                assert(r[i] == t[i] && r[j] == t[j]);
            } else if j == p {
                assert(r[i] == t[i]);
            } else if i < p {
                assert(r[i] == t[i] && r[j] == t[j - 1]);
            } else if i == p {
                assert(r[j] == t[j - 1]);
                assert(date_ord(t[p].0) > k);
                if j - 1 > p {
                    assert(date_ord(t[p].0) <= date_ord(t[j - 1].0));
                }
            } else {
                assert(r[i] == t[i - 1] && r[j] == t[j - 1]);
            }
        }
    }
}

/// Sorts occurrences by date, occurrences of one date keeping their order.
pub fn sort_by_date(entries: Vec<ExpandedEntry>) -> (r: Vec<ExpandedEntry>)
    ensures
        r@.map_values(|x: ExpandedEntry| expanded_view(x)) == sorted_by_date(
            entries@.map_values(|x: ExpandedEntry| expanded_view(x)),
        ),
{
    let ghost all = entries@.map_values(|x: ExpandedEntry| expanded_view(x));
    let mut rest = entries;
    let mut out: Vec<ExpandedEntry> = Vec::new();
    let ghost mut k: int = 0;
    assert(all.take(0) =~= Seq::<Occurrence>::empty());
    assert(all.skip(0) =~= all);
    while rest.len() > 0
        invariant
            0 <= k <= all.len(),
            rest@.map_values(|x: ExpandedEntry| expanded_view(x)) == all.skip(k),
            out@.map_values(|x: ExpandedEntry| expanded_view(x)) == sorted_by_date(all.take(k)),
        decreases rest@.len(),
    {
        let ghost rv = rest@.map_values(|x: ExpandedEntry| expanded_view(x));
        let ghost ov = out@.map_values(|x: ExpandedEntry| expanded_view(x));
        let ghost r0 = rest@;
        assert(rv.len() == r0.len());
        assert(k < all.len());
        let e = rest.remove(0);
        assert(e == r0[0]);
        assert(rv[0] == expanded_view(r0[0]));
        assert(all.skip(k)[0] == all[k]);
        assert(rest@.map_values(|x: ExpandedEntry| expanded_view(x)) =~= rv.skip(1));
        assert(all.skip(k).skip(1) =~= all.skip(k + 1));
        assert(expanded_view(e) == all[k]);
        let key = ord_of(e.date);
        let mut p: usize = 0;
        assert(ov.skip(0) =~= ov);
        while p < out.len() && ord_of(out[p].date) <= key
            invariant
                p <= out@.len(),
                ov == out@.map_values(|x: ExpandedEntry| expanded_view(x)),
                key == date_ord(e.date),
                upper_pos(ov, key as int) == p + upper_pos(ov.skip(p as int), key as int),
            decreases out@.len() - p,
        {
            assert(ov.skip(p as int)[0] == ov[p as int]);
            assert(ov.skip(p as int).skip(1) =~= ov.skip(p + 1));
            p += 1;
        }
        proof {
            if p < out@.len() {
                assert(ov.skip(p as int)[0] == ov[p as int]);
            } else {
                assert(ov.skip(p as int).len() == 0);
            }
        }
        out.insert(p, e);
        assert(all.take(k + 1).drop_last() =~= all.take(k));
        assert(all.take(k + 1).last() == all[k]);
        assert(out@.map_values(|x: ExpandedEntry| expanded_view(x)) =~= insert_by_date(
            ov,
            all[k],
        ));
        proof {
            k = k + 1;
        }
    }
    assert(all.skip(k).len() == 0);
    assert(all.take(k) =~= all);
    out
}

/// The agenda from `today`: the occurrences up to the horizon
/// ([`DEFAULT_HORIZON_DAYS`] later), sorted by date; `None` when the
/// horizon falls outside chrono's years.
pub open spec fn agenda_of<'a>(cs: Seq<TagContext<'a>>, today: Date) -> Option<Seq<Occurrence>> {
    match shifted(today, DEFAULT_HORIZON_DAYS as int) {
        Some(h) => if crate::tags::MIN_YEAR <= h.year <= crate::tags::MAX_YEAR {
            Some(sorted_by_date(all_occurrences(entries_of(cs), today, h)))
        } else {
            None
        },
        None => None,
    }
}

/// The occurrences of an agenda, by value.
pub open spec fn agenda_result(r: Option<Vec<ExpandedEntry>>) -> Option<Seq<Occurrence>> {
    match r {
        Some(v) => Some(v@.map_values(|x: ExpandedEntry| expanded_view(x))),
        None => None,
    }
}

/// The agenda from `today` (see [`agenda_of`]).
pub fn agenda<'a>(contexts: &Vec<TagContext<'a>>, today: Date) -> (r: Option<Vec<ExpandedEntry>>)
    ensures
        agenda_result(r) == agenda_of(contexts@, today),
{
    let horizon = match shift_days(today, DEFAULT_HORIZON_DAYS) {
        Some(h) => h,
        None => {
            return None;
        },
    };
    if horizon.year < crate::tags::MIN_YEAR || horizon.year > crate::tags::MAX_YEAR {
        return None;
    }
    let entries = agenda_entries(contexts);
    let expanded = expand_entries(&entries, today, horizon);
    Some(sort_by_date(expanded))
}

/// The agenda from today's date on the local clock (see [`agenda_of`]).
pub fn agenda_today<'a>(contexts: &Vec<TagContext<'a>>) -> (r: Option<Vec<ExpandedEntry>>)
    ensures
        exists|today: Date|
            valid_ymd(today.year as int, today.month as int, today.day as int) && #[trigger] agenda_of(
                contexts@,
                today,
            ) == agenda_result(r),
{
    let today = local_today();
    agenda(contexts, today)
}

} // verus!
