//! The iCalendar export: what each task and dated tag becomes in a
//! calendar (a to-do or an event) and the text of its properties.

use icalendar::Component;
use vstd::prelude::*;

use crate::ast::{segs_text, Heading};
use crate::collect::TagContext;
use crate::export::{padded, push_padded};
use crate::report::format_location;
use crate::tags::{Date, Repeater, RepeaterUnit, TagKind, Timestamp};
use crate::text::{append_chars, chars_of, decimal, decimal_chars, string_of, trim};

verus! {

/// The summary of a task: its text, then the heading in parentheses; the
/// heading alone when there is no text; `Untitled` when there is neither.
pub open spec fn summary_text(text: Option<Seq<char>>, heading: Option<Seq<char>>) -> Seq<char> {
    let t = match text {
        Some(t) => if t.len() > 0 {
            Some(t)
        } else {
            None
        },
        None => None,
    };
    match (t, heading) {
        (Some(t), Some(h)) => t + " ("@ + h + ")"@,
        (Some(t), None) => t,
        (None, Some(h)) => h,
        (None, None) => "Untitled"@,
    }
}

pub open spec fn opt_view(s: Option<&str>) -> Option<Seq<char>> {
    match s {
        Some(t) => Some(t@),
        None => None,
    }
}

/// The summary of a task (see [`summary_text`]).
pub fn build_summary(text: Option<&str>, heading: Option<&str>) -> (r: String)
    ensures
        r@ == summary_text(opt_view(text), opt_view(heading)),
{
    proof {
        reveal_strlit(" (");
        reveal_strlit(")");
        reveal_strlit("Untitled");
    }
    let t = match text {
        Some(t) => if t.unicode_len() > 0 {
            Some(t)
        } else {
            None
        },
        None => None,
    };
    match (t, heading) {
        (Some(t), Some(h)) => {
            let mut out = chars_of(t);
            append_chars(&mut out, &chars_of(" ("));
            append_chars(&mut out, &chars_of(h));
            append_chars(&mut out, &chars_of(")"));
            string_of(&out)
        },
        (Some(t), None) => t.to_string(),
        (None, Some(h)) => h.to_string(),
        (None, None) => "Untitled".to_string(),
    }
}

/// The text of a heading.
pub fn heading_text(h: &Heading) -> (r: String)
    ensures
        r@ == trim(segs_text(h.content.segments@)),
{
    h.content.plain_text()
}

/// What a calendar component is.
#[derive(Debug, Clone, Copy, PartialEq, Eq, Structural)]
pub enum ItemKind {
    /// An open task (`STATUS:NEEDS-ACTION`).
    Todo,
    /// A finished task (`STATUS:COMPLETED`, `PERCENT-COMPLETE:100`).
    Done,
    /// A dated event.
    Event,
}

/// One calendar component.
pub struct CalendarItem {
    pub kind: ItemKind,
    pub summary: String,
    /// `file:line` of the tag.
    pub location: String,
    /// When an event starts.
    pub start: Option<Timestamp>,
    pub repeater: Option<Repeater>,
}

/// A component by value: kind, summary, location, start, repeater.
pub open spec fn item_view(i: CalendarItem) -> (
    ItemKind,
    Seq<char>,
    Seq<char>,
    Option<Timestamp>,
    Option<Repeater>,
) {
    (i.kind, i.summary@, i.location@, i.start, i.repeater)
}

/// The summary of a dated tag: its label, then `: ` and the heading when
/// there is one.
pub open spec fn labelled(label: Seq<char>, heading: Option<Seq<char>>) -> Seq<char> {
    match heading {
        Some(h) => label + ": "@ + h,
        None => label,
    }
}

/// The heading text of a context, if it has a heading.
pub open spec fn context_heading_text<'a>(c: TagContext<'a>) -> Option<Seq<char>> {
    match c.parent_heading {
        Some(h) => Some(trim(segs_text(h.content.segments@))),
        None => None,
    }
}

pub open spec fn string_opt(s: Option<String>) -> Option<Seq<char>> {
    match s {
        Some(t) => Some(t@),
        None => None,
    }
}

/// The calendar component a tag gives, if any.
pub open spec fn item_of<'a>(c: TagContext<'a>) -> Option<
    (ItemKind, Seq<char>, Seq<char>, Option<Timestamp>, Option<Repeater>),
> {
    let h = context_heading_text(c);
    let loc = c.file@ + ":"@ + decimal(c.tag.span.line as nat);
    match c.tag.kind {
        TagKind::Todo { text } => Some((ItemKind::Todo, summary_text(string_opt(text), h), loc, None, None)),
        TagKind::Done { text } => Some((ItemKind::Done, summary_text(string_opt(text), h), loc, None, None)),
        TagKind::Deadline { date, repeater, .. } => Some(
            (ItemKind::Event, labelled("DEADLINE"@, h), loc, Some(date), repeater),
        ),
        TagKind::Scheduled { date, repeater, .. } => Some(
            (ItemKind::Event, labelled("SCHEDULED"@, h), loc, Some(date), repeater),
        ),
        TagKind::Date { date, repeater } => Some(
            (ItemKind::Event, labelled("Date"@, h), loc, Some(date), repeater),
        ),
        TagKind::Event { date, repeater, description, .. } => Some(
            (
                ItemKind::Event,
                match string_opt(description) {
                    Some(d) => d,
                    None => match h {
                        Some(hh) => hh,
                        None => "Event"@,
                    },
                },
                loc,
                Some(date),
                repeater,
            ),
        ),
        _ => None,
    }
}

/// The calendar components of a walk, in order.
pub open spec fn items_of<'a>(cs: Seq<TagContext<'a>>) -> Seq<
    (ItemKind, Seq<char>, Seq<char>, Option<Timestamp>, Option<Repeater>),
>
    decreases cs.len(),
{
    if cs.len() == 0 {
        Seq::empty()
    } else {
        let rest = items_of(cs.drop_last());
        match item_of(cs.last()) {
            Some(i) => rest.push(i),
            None => rest,
        }
    }
}

/// A task tag gives a to-do (open for `#todo`, finished for `#done`), and
/// each dated tag an event whose summary opens with its own label:
/// `DEADLINE`, `SCHEDULED` or `Date`; the summary is the label alone when
/// there is no heading, and the label, `: ` and the heading otherwise.
pub proof fn lemma_item_kinds<'a>(c: TagContext<'a>)
    ensures
        c.tag.kind is Todo ==> (item_of(c) matches Some(i) && i.0 == ItemKind::Todo),
        c.tag.kind is Done ==> (item_of(c) matches Some(i) && i.0 == ItemKind::Done),
        c.tag.kind is Deadline ==> (item_of(c) matches Some(i) && i.0 == ItemKind::Event
            && i.1.take(8) == "DEADLINE"@),
        c.tag.kind is Scheduled ==> (item_of(c) matches Some(i) && i.0 == ItemKind::Event
            && i.1.take(9) == "SCHEDULED"@),
        c.tag.kind is Date ==> (item_of(c) matches Some(i) && i.0 == ItemKind::Event && i.1.take(4)
            == "Date"@),
{
    reveal_strlit("DEADLINE");
    reveal_strlit("SCHEDULED");
    reveal_strlit("Date");
    reveal_strlit(": ");
    match c.tag.kind {
        TagKind::Deadline { .. } => {
            assert(labelled("DEADLINE"@, context_heading_text(c)).take(8) =~= "DEADLINE"@);
        },
        TagKind::Scheduled { .. } => {
            assert(labelled("SCHEDULED"@, context_heading_text(c)).take(9) =~= "SCHEDULED"@);
        },
        TagKind::Date { .. } => {
            assert(labelled("Date"@, context_heading_text(c)).take(4) =~= "Date"@);
        },
        _ => {},
    }
}

fn labelled_text(label: &str, heading: &Option<String>) -> (r: String)
    ensures
        r@ == labelled(label@, string_opt(*heading)),
{
    proof {
        reveal_strlit(": ");
    }
    match heading {
        Some(h) => {
            let mut out = chars_of(label);
            append_chars(&mut out, &chars_of(": "));
            append_chars(&mut out, &chars_of(h.as_str()));
            string_of(&out)
        },
        None => label.to_string(),
    }
}

fn opt_str(s: &Option<String>) -> (r: Option<&str>)
    ensures
        opt_view(r) == string_opt(*s),
{
    match s {
        Some(t) => Some(t.as_str()),
        None => None,
    }
}

/// The calendar components of a walk: a to-do per `#todo` and `#done`, an
/// event per `#deadline`, `#scheduled`, `#date` and `#event`.
pub fn calendar_items<'a>(contexts: &Vec<TagContext<'a>>) -> (r: Vec<CalendarItem>)
    ensures
        r@.map_values(|i: CalendarItem| item_view(i)) == items_of(contexts@),
{
    proof {
        reveal_strlit("DEADLINE");
        reveal_strlit("SCHEDULED");
        reveal_strlit("Date");
        reveal_strlit("Event");
    }
    let mut out: Vec<CalendarItem> = Vec::new();
    let mut i: usize = 0;
    while i < contexts.len()
        invariant
            i <= contexts@.len(),
            out@.map_values(|i: CalendarItem| item_view(i)) == items_of(contexts@.take(i as int)),
        decreases contexts@.len() - i,
    {
        let c = &contexts[i];
        assert(contexts@.take(i + 1).drop_last() =~= contexts@.take(i as int));
        assert(contexts@.take(i + 1).last() == contexts@[i as int]);
        let heading: Option<String> = match c.parent_heading {
            Some(h) => Some(heading_text(h)),
            None => None,
        };
        let location = format_location(c.file, &c.tag.span);
        let item: Option<CalendarItem> = match &c.tag.kind {
            TagKind::Todo { text } => Some(
                CalendarItem {
                    kind: ItemKind::Todo,
                    summary: build_summary(opt_str(text), opt_str(&heading)),
                    location,
                    start: None,
                    repeater: None,
                },
            ),
            TagKind::Done { text } => Some(
                CalendarItem {
                    kind: ItemKind::Done,
                    summary: build_summary(opt_str(text), opt_str(&heading)),
                    location,
                    start: None,
                    repeater: None,
                },
            ),
            TagKind::Deadline { date, repeater, .. } => Some(
                CalendarItem {
                    kind: ItemKind::Event,
                    summary: labelled_text("DEADLINE", &heading),
                    location,
                    start: Some(*date),
                    repeater: *repeater,
                },
            ),
            TagKind::Scheduled { date, repeater, .. } => Some(
                CalendarItem {
                    kind: ItemKind::Event,
                    summary: labelled_text("SCHEDULED", &heading),
                    location,
                    start: Some(*date),
                    repeater: *repeater,
                },
            ),
            TagKind::Date { date, repeater } => Some(
                CalendarItem {
                    kind: ItemKind::Event,
                    summary: labelled_text("Date", &heading),
                    location,
                    start: Some(*date),
                    repeater: *repeater,
                },
            ),
            TagKind::Event { date, repeater, description, .. } => {
                let summary = match description {
                    Some(d) => d.clone(),
                    None => match &heading {
                        Some(h) => h.clone(),
                        None => "Event".to_string(),
                    },
                };
                Some(
                    CalendarItem {
                        kind: ItemKind::Event,
                        summary,
                        location,
                        start: Some(*date),
                        repeater: *repeater,
                    },
                )
            },
            _ => None,
        };
        let ghost before = out@.map_values(|i: CalendarItem| item_view(i));
        match item {
            Some(it) => {
                out.push(it);
                assert(out@.map_values(|i: CalendarItem| item_view(i)) =~= before.push(
                    item_view(out@.last()),
                ));
            },
            None => {},
        }
        i += 1;
    }
    assert(contexts@.take(contexts@.len() as int) =~= contexts@);
    out
}

/// A date as iCalendar writes it: `YYYYMMDD`.
pub open spec fn ical_date(d: Date) -> Seq<char> {
    (if d.year >= 0 {
        padded(d.year as nat, 4)
    } else {
        "-"@ + padded((-d.year) as nat, 4)
    }) + padded(d.month as nat, 2) + padded(d.day as nat, 2)
}

/// The start property of an event: its name and value (`DTSTART;VALUE=DATE`
/// and `YYYYMMDD` for a date, `DTSTART` and `YYYYMMDDTHHMMSS` for a date
/// and time).
pub open spec fn start_property(t: Timestamp) -> (Seq<char>, Seq<char>) {
    match t {
        Timestamp::Date(d) => ("DTSTART;VALUE=DATE"@, ical_date(d)),
        Timestamp::DateTime(dt) => (
            "DTSTART"@,
            ical_date(dt.date) + "T"@ + padded(dt.time.hour as nat, 2) + padded(
                dt.time.minute as nat,
                2,
            ) + padded(dt.time.second as nat, 2),
        ),
    }
}

fn push_ical_date(out: &mut Vec<char>, d: Date)
    ensures
        final(out)@ == old(out)@ + ical_date(d),
{
    let ghost o = out@;
    if d.year >= 0 {
        push_padded(out, d.year as u64, 4);
    } else {
        proof {
            reveal_strlit("-");
        }
        append_chars(out, &chars_of("-"));
        push_padded(out, (-(d.year as i64)) as u64, 4);
    }
    push_padded(out, d.month as u64, 2);
    push_padded(out, d.day as u64, 2);
    assert(out@ =~= o + ical_date(d));
}

/// The start property of an event (see [`start_property`]).
pub fn ical_start(t: &Timestamp) -> (r: (String, String))
    ensures
        (r.0@, r.1@) == start_property(*t),
{
    proof {
        reveal_strlit("DTSTART;VALUE=DATE");
        reveal_strlit("DTSTART");
        reveal_strlit("T");
    }
    match t {
        Timestamp::Date(d) => {
            let mut v: Vec<char> = Vec::new();
            push_ical_date(&mut v, *d);
            assert(v@ =~= ical_date(*d));
            ("DTSTART;VALUE=DATE".to_string(), string_of(&v))
        },
        Timestamp::DateTime(dt) => {
            let mut v: Vec<char> = Vec::new();
            push_ical_date(&mut v, dt.date);
            append_chars(&mut v, &chars_of("T"));
            push_padded(&mut v, dt.time.hour as u64, 2);
            push_padded(&mut v, dt.time.minute as u64, 2);
            push_padded(&mut v, dt.time.second as u64, 2);
            assert(v@ =~= start_property(*t).1);
            ("DTSTART".to_string(), string_of(&v))
        },
    }
}

/// The recurrence rule of a repeater: `FREQ=DAILY|WEEKLY|MONTHLY|YEARLY`
/// and its `INTERVAL`.
pub open spec fn rrule_text(r: Repeater) -> Seq<char> {
    "FREQ="@ + match r.unit {
        RepeaterUnit::Day => "DAILY"@,
        RepeaterUnit::Week => "WEEKLY"@,
        RepeaterUnit::Month => "MONTHLY"@,
        RepeaterUnit::Year => "YEARLY"@,
    } + ";INTERVAL="@ + decimal(r.interval as nat)
}

/// The recurrence rule of a repeater (see [`rrule_text`]).
pub fn as_rrule(r: &Repeater) -> (s: String)
    ensures
        s@ == rrule_text(*r),
{
    proof {
        reveal_strlit("FREQ=");
        reveal_strlit("DAILY");
        reveal_strlit("WEEKLY");
        reveal_strlit("MONTHLY");
        reveal_strlit("YEARLY");
        reveal_strlit(";INTERVAL=");
    }
    let mut out = chars_of("FREQ=");
    let unit = match r.unit {
        RepeaterUnit::Day => "DAILY",
        RepeaterUnit::Week => "WEEKLY",
        RepeaterUnit::Month => "MONTHLY",
        RepeaterUnit::Year => "YEARLY",
    };
    append_chars(&mut out, &chars_of(unit));
    append_chars(&mut out, &chars_of(";INTERVAL="));
    append_chars(&mut out, &decimal_chars(r.interval as u64));
    string_of(&out)
}

// ===========================================================================
// The calendar
// ===========================================================================
/// `icalendar::Calendar`.
#[verifier::external_type_specification]
#[verifier::external_body]
pub struct ExCalendar(icalendar::Calendar);

/// `icalendar::CalendarComponent`, what a calendar holds.
#[verifier::external_type_specification]
#[verifier::external_body]
pub struct ExCalendarComponent(icalendar::CalendarComponent);

/// `icalendar::Todo`.
#[verifier::external_type_specification]
#[verifier::external_body]
pub struct ExTodo(icalendar::Todo);

/// `icalendar::Event`.
#[verifier::external_type_specification]
#[verifier::external_body]
pub struct ExEvent(icalendar::Event);

/// The components a calendar holds, in order: whether each is a to-do (else
/// an event), and its properties by name.
pub uninterp spec fn calendar_components(c: icalendar::Calendar) -> Seq<
    (bool, Map<Seq<char>, Seq<char>>),
>;

/// The calendar's own properties, in order: name and value.
pub uninterp spec fn calendar_properties(c: icalendar::Calendar) -> Seq<(Seq<char>, Seq<char>)>;

/// The properties of a to-do, by name.
pub uninterp spec fn todo_properties(t: icalendar::Todo) -> Map<Seq<char>, Seq<char>>;

/// The properties of an event, by name.
pub uninterp spec fn event_properties(e: icalendar::Event) -> Map<Seq<char>, Seq<char>>;

/// No properties.
pub open spec fn no_properties() -> Map<Seq<char>, Seq<char>> {
    Map::empty()
}

/// The properties that `Calendar::new` starts with.
pub open spec fn default_calendar_properties() -> Seq<(Seq<char>, Seq<char>)> {
    seq![("VERSION"@, "2.0"@), ("PRODID"@, "ICALENDAR-RS"@), ("CALSCALE"@, "GREGORIAN"@)]
}

/// `Calendar::new`: no components, and the properties `VERSION`, `PRODID`
/// and `CALSCALE` that its `Default` impl sets.
#[verifier::external_body]
fn calendar_new() -> (c: icalendar::Calendar)
    ensures
        calendar_components(c) == Seq::<(bool, Map<Seq<char>, Seq<char>>)>::empty(),
        calendar_properties(c) == default_calendar_properties(),
{
    icalendar::Calendar::new()
}

/// `Calendar::name`: appends the properties `NAME` and `X-WR-CALNAME`, both
/// `name`; the components are left as they are.
#[verifier::external_body]
fn calendar_set_name(c: &mut icalendar::Calendar, name: &str)
    ensures
        calendar_components(*final(c)) == calendar_components(*old(c)),
        calendar_properties(*final(c)) == calendar_properties(*old(c)) + seq![
            ("NAME"@, name@),
            ("X-WR-CALNAME"@, name@),
        ],
{
    c.name(name);
}

/// `Calendar::push` of a to-do: appends it after the components there are.
#[verifier::external_body]
fn calendar_push_todo(c: &mut icalendar::Calendar, t: icalendar::Todo)
    ensures
        calendar_components(*final(c)) == calendar_components(*old(c)).push(
            (true, todo_properties(t)),
        ),
        calendar_properties(*final(c)) == calendar_properties(*old(c)),
{
    c.push(t);
}

/// `Calendar::push` of an event: appends it after the components there are.
#[verifier::external_body]
fn calendar_push_event(c: &mut icalendar::Calendar, e: icalendar::Event)
    ensures
        calendar_components(*final(c)) == calendar_components(*old(c)).push(
            (false, event_properties(e)),
        ),
        calendar_properties(*final(c)) == calendar_properties(*old(c)),
{
    c.push(e);
}

/// `Todo::new`: a to-do without properties.
#[verifier::external_body]
fn todo_new() -> (todo: icalendar::Todo)
    ensures
        todo_properties(todo) == no_properties(),
{
    icalendar::Todo::new()
}

/// `Component::add_property` on a to-do: sets the property `key` to `val`
/// (the builders `summary`, `description` and `status` do the same for their
/// property).
#[verifier::external_body]
fn todo_add(t: &mut icalendar::Todo, key: &str, val: &str)
    ensures
        todo_properties(*final(t)) == todo_properties(*old(t)).insert(key@, val@),
{
    t.add_property(key, val);
}

/// `Event::new`: an event without properties.
#[verifier::external_body]
fn event_new() -> (event: icalendar::Event)
    ensures
        event_properties(event) == no_properties(),
{
    icalendar::Event::new()
}

/// `Component::add_property` on an event: sets the property `key` to `val`.
#[verifier::external_body]
fn event_add(e: &mut icalendar::Event, key: &str, val: &str)
    ensures
        event_properties(*final(e)) == event_properties(*old(e)).insert(key@, val@),
{
    e.add_property(key, val);
}

/// Whether `s` is framed as a calendar: it opens with `BEGIN:VCALENDAR` and
/// closes with `END:VCALENDAR`, each line ended by CRLF.
pub open spec fn calendar_framed(s: Seq<char>) -> bool {
    let open = "BEGIN:VCALENDAR\r\n"@;
    let close = "END:VCALENDAR\r\n"@;
    &&& s.len() >= open.len() + close.len()
    &&& s.take(open.len() as int) == open
    &&& s.skip(s.len() - close.len()) == close
}

/// The text of a calendar (`Calendar`'s `Display`).  The source writes
/// `BEGIN:VCALENDAR`, the calendar's properties, each component, and
/// `END:VCALENDAR`.  Only that frame is stated: each component gets a
/// `DTSTAMP` of the current time and a random `UID`, and the lines of the
/// properties are escaped and folded by the crate.
#[verifier::external_body]
fn calendar_text(c: &icalendar::Calendar) -> (s: String)
    ensures
        calendar_framed(s@),
{
    c.to_string()
}

/// An item by value (see [`item_view`]).
pub open spec fn component_of(
    i: (ItemKind, Seq<char>, Seq<char>, Option<Timestamp>, Option<Repeater>),
) -> (bool, Map<Seq<char>, Seq<char>>) {
    let (kind, summary, loc, start, rep) = i;
    let base = Map::<Seq<char>, Seq<char>>::empty().insert("SUMMARY"@, summary).insert(
        "DESCRIPTION"@,
        "Source: "@ + loc,
    );
    match kind {
        ItemKind::Todo => (true, base.insert("STATUS"@, "NEEDS-ACTION"@).insert("X-MORG-SOURCE"@, loc)),
        ItemKind::Done => (
            true,
            base.insert("STATUS"@, "COMPLETED"@).insert("PERCENT-COMPLETE"@, "100"@).insert(
                "X-MORG-SOURCE"@,
                loc,
            ),
        ),
        ItemKind::Event => {
            let s = match start {
                Some(t) => base.insert(start_property(t).0, start_property(t).1),
                None => base,
            };
            let x = s.insert("X-MORG-SOURCE"@, loc);
            (
                false,
                match rep {
                    Some(r) => x.insert("RRULE"@, rrule_text(r)),
                    None => x,
                },
            )
        },
    }
}

/// What a calendar component says of its item: an open task is a to-do
/// needing action, a finished one a completed to-do at 100 percent, a dated
/// tag an event; every component carries the item's summary, `Source: `
/// and the location as its description, and the location in
/// `X-MORG-SOURCE`; an event starts at the item's date and repeats by the
/// item's repeater, if any.
pub proof fn lemma_component_properties(
    i: (ItemKind, Seq<char>, Seq<char>, Option<Timestamp>, Option<Repeater>),
)
    ensures
        ({
            let (is_todo, props) = component_of(i);
            &&& is_todo <==> (i.0 == ItemKind::Todo || i.0 == ItemKind::Done)
            &&& props.contains_key("SUMMARY"@) && props["SUMMARY"@] == i.1
            &&& props.contains_key("DESCRIPTION"@) && props["DESCRIPTION"@] == "Source: "@ + i.2
            &&& props.contains_key("X-MORG-SOURCE"@) && props["X-MORG-SOURCE"@] == i.2
            &&& i.0 == ItemKind::Todo ==> props["STATUS"@] == "NEEDS-ACTION"@
                && !props.contains_key("PERCENT-COMPLETE"@)
            &&& i.0 == ItemKind::Done ==> props["STATUS"@] == "COMPLETED"@
                && props["PERCENT-COMPLETE"@] == "100"@
            &&& i.0 == ItemKind::Event ==> !props.contains_key("STATUS"@) && (match i.3 {
                Some(t) => props.contains_key(start_property(t).0) && props[start_property(t).0]
                    == start_property(t).1,
                None => true,
            }) && (match i.4 {
                Some(rep) => props["RRULE"@] == rrule_text(rep),
                None => !props.contains_key("RRULE"@),
            })
        }),
{
    reveal_strlit("SUMMARY");
    reveal_strlit("DESCRIPTION");
    reveal_strlit("X-MORG-SOURCE");
    reveal_strlit("STATUS");
    reveal_strlit("NEEDS-ACTION");
    reveal_strlit("COMPLETED");
    reveal_strlit("PERCENT-COMPLETE");
    reveal_strlit("100");
    reveal_strlit("RRULE");
    reveal_strlit("DTSTART");
    reveal_strlit("DTSTART;VALUE=DATE");
    reveal_strlit("Source: ");
    let (is_todo, props) = component_of(i);
    assert("SUMMARY"@.len() == 7 && "DESCRIPTION"@.len() == 11 && "X-MORG-SOURCE"@.len() == 13
        && "STATUS"@.len() == 6 && "PERCENT-COMPLETE"@.len() == 16 && "RRULE"@.len() == 5
        && "DTSTART"@.len() == 7 && "DTSTART;VALUE=DATE"@.len() == 18);
    assert("SUMMARY"@[0] != "DTSTART"@[0]);
    assert("SUMMARY"@ != "DESCRIPTION"@);
    assert("SUMMARY"@ != "X-MORG-SOURCE"@ && "DESCRIPTION"@ != "X-MORG-SOURCE"@);
    assert("STATUS"@ != "SUMMARY"@ && "STATUS"@ != "DESCRIPTION"@ && "STATUS"@ != "X-MORG-SOURCE"@);
    assert("PERCENT-COMPLETE"@ != "SUMMARY"@ && "PERCENT-COMPLETE"@ != "DESCRIPTION"@
        && "PERCENT-COMPLETE"@ != "X-MORG-SOURCE"@ && "PERCENT-COMPLETE"@ != "STATUS"@);
    assert("RRULE"@ != "SUMMARY"@ && "RRULE"@ != "DESCRIPTION"@ && "RRULE"@ != "X-MORG-SOURCE"@);
    if let Some(t) = i.3 {
        let k = start_property(t).0;
        assert(k != "SUMMARY"@ && k != "DESCRIPTION"@ && k != "X-MORG-SOURCE"@ && k != "RRULE"@
            && k != "STATUS"@);
    }
}

/// The calendar named `morg-mode` that holds a component per item, in
/// order: a to-do with its summary, `Source: <location>` description, status
/// (and `PERCENT-COMPLETE:100` when done) and `X-MORG-SOURCE`; or an event
/// with its summary, description, start, `X-MORG-SOURCE` and recurrence rule.
pub fn build_calendar(items: &Vec<CalendarItem>) -> (c: icalendar::Calendar)
    ensures
        calendar_properties(c) == default_calendar_properties() + seq![
            ("NAME"@, "morg-mode"@),
            ("X-WR-CALNAME"@, "morg-mode"@),
        ],
        calendar_components(c) == items@.map_values(|i: CalendarItem| component_of(item_view(i))),
{
    proof {
        reveal_strlit("SUMMARY");
        reveal_strlit("DESCRIPTION");
        reveal_strlit("Source: ");
        reveal_strlit("STATUS");
        reveal_strlit("NEEDS-ACTION");
        reveal_strlit("COMPLETED");
        reveal_strlit("PERCENT-COMPLETE");
        reveal_strlit("100");
        reveal_strlit("X-MORG-SOURCE");
        reveal_strlit("RRULE");
    }
    let mut cal = calendar_new();
    calendar_set_name(&mut cal, "morg-mode");
    let ghost props = calendar_properties(cal);
    let mut i: usize = 0;
    while i < items.len()
        invariant
            i <= items@.len(),
            calendar_properties(cal) == props,
            calendar_components(cal) == items@.take(i as int).map_values(
                |it: CalendarItem| component_of(item_view(it)),
            ),
        decreases items@.len() - i,
    {
        let item = &items[i];
        let mut desc = chars_of("Source: ");
        append_chars(&mut desc, &chars_of(item.location.as_str()));
        let description = string_of(&desc);
        let ghost c0 = calendar_components(cal);
        match item.kind {
            ItemKind::Todo | ItemKind::Done => {
                let mut todo = todo_new();
                todo_add(&mut todo, "SUMMARY", item.summary.as_str());
                todo_add(&mut todo, "DESCRIPTION", description.as_str());
                if item.kind == ItemKind::Done {
                    todo_add(&mut todo, "STATUS", "COMPLETED");
                    todo_add(&mut todo, "PERCENT-COMPLETE", "100");
                } else {
                    todo_add(&mut todo, "STATUS", "NEEDS-ACTION");
                }
                todo_add(&mut todo, "X-MORG-SOURCE", item.location.as_str());
                calendar_push_todo(&mut cal, todo);
            },
            ItemKind::Event => {
                let mut event = event_new();
                event_add(&mut event, "SUMMARY", item.summary.as_str());
                event_add(&mut event, "DESCRIPTION", description.as_str());
                match &item.start {
                    Some(start) => {
                        let (name, value) = ical_start(start);
                        event_add(&mut event, name.as_str(), value.as_str());
                    },
                    None => {},
                }
                event_add(&mut event, "X-MORG-SOURCE", item.location.as_str());
                match &item.repeater {
                    Some(r) => {
                        let rule = as_rrule(r);
                        event_add(&mut event, "RRULE", rule.as_str());
                    },
                    None => {},
                }
                calendar_push_event(&mut cal, event);
            },
        }
        assert(items@.take(i + 1) =~= items@.take(i as int).push(items@[i as int]));
        assert(calendar_components(cal) =~= items@.take(i + 1).map_values(
            |it: CalendarItem| component_of(item_view(it)),
        ));
        i += 1;
    }
    assert(items@.take(items@.len() as int) =~= items@);
    cal
}

/// The calendar text of `items` (see [`build_calendar`]), or `None` when
/// there are none.
pub fn export_calendar(items: &Vec<CalendarItem>) -> (r: Option<String>)
    ensures
        r is None <==> items@.len() == 0,
        r matches Some(s) ==> calendar_framed(s@),
{
    if items.len() == 0 {
        return None;
    }
    let cal = build_calendar(items);
    Some(calendar_text(&cal))
}

} // verus!
