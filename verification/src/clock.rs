//! Time tracking: pairing clock-in and clock-out tags and adding up time.

use vstd::prelude::*;

use crate::ast::StringMap;
use crate::collect::TagContext;
use crate::report::format_location;
use crate::tags::{valid_ymd, ClockValue, DateTime, TagKind};
use crate::text::{chars_of, decimal, find_seq, index_of_seq, lowercase, string_of, to_lower};

verus! {

/// The whole minutes from `start` to `end`, without sign, as chrono counts
/// them.
pub uninterp spec fn clock_minutes(start: DateTime, end: DateTime) -> nat;

/// Whether chrono can represent a date and time.
pub open spec fn representable(dt: DateTime) -> bool {
    crate::tags::MIN_YEAR <= dt.date.year <= crate::tags::MAX_YEAR && valid_ymd(dt.date.year as int, dt.date.month as int, dt.date.day as int)
        && dt.time.hour < 24 && dt.time.minute < 60 && dt.time.second < 60
}

/// `(end - start).num_minutes().unsigned_abs()` on chrono's
/// `NaiveDateTime`s: the whole minutes between the two, without sign.  The
/// contract names the result; it depends on the two values alone.
#[verifier::external_body]
fn minutes_between(start: DateTime, end: DateTime) -> (m: u64)
    requires
        representable(start),
        representable(end),
    ensures
        m == clock_minutes(start, end),
{
    let to = |d: DateTime| {
        chrono::NaiveDate::from_ymd_opt(d.date.year, d.date.month, d.date.day).unwrap().and_hms_opt(
            d.time.hour,
            d.time.minute,
            d.time.second,
        ).unwrap()
    };
    (to(end) - to(start)).num_minutes().unsigned_abs()
}

fn is_representable(dt: DateTime) -> (b: bool)
    ensures
        b == representable(dt),
{
    crate::tags::MIN_YEAR <= dt.date.year && dt.date.year <= crate::tags::MAX_YEAR && crate::tags::calendar_day_exists(
        dt.date.year,
        dt.date.month,
        dt.date.day,
    ) && dt.time.hour < 24 && dt.time.minute < 60 && dt.time.second < 60
}

/// The minutes of a clock range; 0 when an end cannot be represented.
pub open spec fn range_minutes(start: DateTime, end: DateTime) -> nat {
    if representable(start) && representable(end) {
        clock_minutes(start, end)
    } else {
        0
    }
}

/// What a clock tag records.
#[derive(Clone, Copy)]
pub enum ClockEventKind {
    In(DateTime),
    Out(DateTime),
    Duration(u64),
}

/// A clock tag, with the text of the heading above it and its location.
pub struct ClockEvent {
    pub kind: ClockEventKind,
    pub heading: String,
    pub location: String,
}

/// The event of a clock tag.
pub open spec fn event_kind(k: TagKind) -> Option<ClockEventKind> {
    match k {
        TagKind::ClockIn { datetime } => Some(ClockEventKind::In(datetime)),
        TagKind::ClockOut { datetime } => Some(ClockEventKind::Out(datetime)),
        TagKind::Clock(ClockValue::Range { start, end }) => Some(
            ClockEventKind::Duration(range_minutes(start, end) as u64),
        ),
        TagKind::Clock(ClockValue::Duration { minutes }) => Some(ClockEventKind::Duration(minutes)),
        _ => None,
    }
}

/// Whether the heading text matches the project filter: the lower-cased
/// filter occurs in the lower-cased heading.
pub open spec fn in_project(heading: Seq<char>, project: Option<Seq<char>>) -> bool {
    match project {
        None => true,
        Some(p) => find_seq(lowercase(heading), lowercase(p)) is Some,
    }
}

/// Whether `p` occurs in `s`, at any position.
pub open spec fn occurs_in(s: Seq<char>, p: Seq<char>) -> bool {
    exists|k: int| 0 <= k && k + p.len() <= s.len() && #[trigger] s.subrange(k, k + p.len()) == p
}

/// The first-occurrence search finds something exactly when there is an
/// occurrence.
proof fn lemma_find_seq_occurs(s: Seq<char>, p: Seq<char>)
    ensures
        find_seq(s, p) is Some <==> occurs_in(s, p),
    decreases s.len(),
{
    if s.len() < p.len() {
    } else if s.take(p.len() as int) == p {
        assert(s.subrange(0, 0 + p.len() as int) == s.take(p.len() as int));
    } else if s.len() == 0 {
        assert(s.take(p.len() as int) =~= p);
    } else {
        let t = s.drop_first();
        lemma_find_seq_occurs(t, p);
        if occurs_in(s, p) {
            let k = choose|k: int|
                0 <= k && k + p.len() <= s.len() && #[trigger] s.subrange(k, k + p.len()) == p;
            assert(s.subrange(0, 0 + p.len() as int) == s.take(p.len() as int));
            assert(k != 0);
            assert(t.subrange(k - 1, k - 1 + p.len()) =~= s.subrange(k, k + p.len()));
        }
        if occurs_in(t, p) {
            let k = choose|k: int|
                0 <= k && k + p.len() <= t.len() && #[trigger] t.subrange(k, k + p.len()) == p;
            assert(s.subrange(k + 1, k + 1 + p.len()) =~= t.subrange(k, k + p.len()));
        }
    }
}

/// With no project every clock entry counts; with a project, an entry
/// counts exactly when the lower-cased project occurs somewhere in the
/// lower-cased text of its heading.
pub proof fn lemma_project_filter(heading: Seq<char>, project: Option<Seq<char>>)
    ensures
        project is None ==> in_project(heading, project),
        project matches Some(p) ==> (in_project(heading, project) <==> occurs_in(
            lowercase(heading),
            lowercase(p),
        )),
{
    if let Some(p) = project {
        lemma_find_seq_occurs(lowercase(heading), lowercase(p));
    }
}

/// The heading text of a context: the plain text of its heading, or empty.
pub open spec fn context_heading<'a>(c: TagContext<'a>) -> Seq<char> {
    match c.parent_heading {
        Some(h) => crate::text::trim(crate::ast::segs_text(h.content.segments@)),
        None => Seq::empty(),
    }
}

/// The clock events among the contexts whose heading matches the project
/// filter, in order.
pub open spec fn events_of<'a>(cs: Seq<TagContext<'a>>, project: Option<Seq<char>>) -> Seq<
    ClockEventKind,
>
    decreases cs.len(),
{
    if cs.len() == 0 {
        Seq::empty()
    } else {
        let rest = events_of(cs.drop_last(), project);
        let c = cs.last();
        if in_project(context_heading(c), project) && event_kind(c.tag.kind) is Some {
            rest.push(event_kind(c.tag.kind)->0)
        } else {
            rest
        }
    }
}

/// Where each clock event of [`events_of`] comes from: its heading text and
/// its `file:line` location.
pub open spec fn event_places_of<'a>(cs: Seq<TagContext<'a>>, project: Option<Seq<char>>) -> Seq<
    (Seq<char>, Seq<char>),
>
    decreases cs.len(),
{
    if cs.len() == 0 {
        Seq::empty()
    } else {
        let rest = event_places_of(cs.drop_last(), project);
        let c = cs.last();
        if in_project(context_heading(c), project) && event_kind(c.tag.kind) is Some {
            rest.push((context_heading(c), c.file@ + ":"@ + decimal(c.tag.span.line as nat)))
        } else {
            rest
        }
    }
}

/// The clock events of the tags found by a walk, for the headings matching
/// `project` (all when `None`).
pub fn clock_events<'a>(contexts: &Vec<TagContext<'a>>, project: Option<&str>) -> (r: Vec<
    ClockEvent,
>)
    ensures
        r@.map_values(|e: ClockEvent| e.kind) == events_of(
            contexts@,
            match project {
                Some(p) => Some(p@),
                None => None,
            },
        ),
        r@.map_values(|e: ClockEvent| (e.heading@, e.location@)) == event_places_of(
            contexts@,
            match project {
                Some(p) => Some(p@),
                None => None,
            },
        ),
{
    let ghost pv = match project {
        Some(p) => Some(p@),
        None => None,
    };
    let proj_lower = match project {
        Some(p) => Some(to_lower(&chars_of(p))),
        None => None,
    };
    let mut out: Vec<ClockEvent> = Vec::new();
    let mut i: usize = 0;
    while i < contexts.len()
        invariant
            i <= contexts@.len(),
            pv == match project {
                Some(p) => Some(p@),
                None => None::<Seq<char>>,
            },
            match proj_lower {
                Some(l) => pv matches Some(p) && l@ == lowercase(p),
                None => pv is None,
            },
            out@.map_values(|e: ClockEvent| e.kind) == events_of(contexts@.take(i as int), pv),
            out@.map_values(|e: ClockEvent| (e.heading@, e.location@)) == event_places_of(
                contexts@.take(i as int),
                pv,
            ),
        decreases contexts@.len() - i,
    {
        assert(contexts@.take(i + 1).drop_last() =~= contexts@.take(i as int));
        let c = &contexts[i];
        let heading = match c.parent_heading {
            Some(h) => h.content.plain_text(),
            None => String::new(),
        };
        let keep = match &proj_lower {
            Some(l) => index_of_seq(&to_lower(&chars_of(heading.as_str())), l).is_some(),
            None => true,
        };
        let kind: Option<ClockEventKind> = match &c.tag.kind {
            TagKind::ClockIn { datetime } => Some(ClockEventKind::In(*datetime)),
            TagKind::ClockOut { datetime } => Some(ClockEventKind::Out(*datetime)),
            TagKind::Clock(ClockValue::Range { start, end }) => {
                let m = if is_representable(*start) && is_representable(*end) {
                    minutes_between(*start, *end)
                } else {
                    0
                };
                Some(ClockEventKind::Duration(m))
            },
            TagKind::Clock(ClockValue::Duration { minutes }) => Some(
                ClockEventKind::Duration(*minutes),
            ),
            _ => None,
        };
        let ghost before = out@.map_values(|e: ClockEvent| e.kind);
        let ghost places = out@.map_values(|e: ClockEvent| (e.heading@, e.location@));
        if keep {
            match kind {
                Some(k) => {
                    out.push(
                        ClockEvent {
                            kind: k,
                            heading,
                            location: format_location(c.file, &c.tag.span),
                        },
                    );
                    assert(out@.map_values(|e: ClockEvent| e.kind) =~= before.push(k));
                    assert(out@.map_values(|e: ClockEvent| (e.heading@, e.location@)) =~= places.push(
                        (out@.last().heading@, out@.last().location@),
                    ));
                },
                None => {},
            }
        }
        i += 1;
    }
    assert(contexts@.take(contexts@.len() as int) =~= contexts@);
    out
}

// ===========================================================================
// Pairing
// ===========================================================================
/// The first clock-out at or after `j`.
pub open spec fn next_out(evs: Seq<ClockEventKind>, j: int) -> Option<int>
    decreases evs.len() - j,
{
    if j < 0 || j >= evs.len() {
        None
    } else if evs[j] is Out {
        Some(j)
    } else {
        next_out(evs, j + 1)
    }
}

/// The time recorded from event `i` on: each duration counts, each
/// clock-in counts until the next clock-out (which it then takes), and
/// other clock-outs are skipped.
pub open spec fn time_from(evs: Seq<ClockEventKind>, i: int) -> nat
    decreases evs.len() - i,
{
    if i < 0 || i >= evs.len() {
        0
    } else {
        proof {
            lemma_next_out(evs, i + 1);
        }
        match evs[i] {
            ClockEventKind::Duration(m) => m as nat + time_from(evs, i + 1),
            ClockEventKind::In(start) => match next_out(evs, i + 1) {
                Some(j) => match evs[j] {
                    ClockEventKind::Out(end) => range_minutes(start, end) + time_from(evs, j + 1),
                    _ => 0,
                },
                None => time_from(evs, i + 1),
            },
            ClockEventKind::Out(_) => time_from(evs, i + 1),
        }
    }
}

/// The clock-ins that no clock-out follows, from event `i` on.
pub open spec fn unpaired_from(evs: Seq<ClockEventKind>, i: int) -> Seq<int>
    decreases evs.len() - i,
{
    if i < 0 || i >= evs.len() {
        Seq::empty()
    } else {
        proof {
            lemma_next_out(evs, i + 1);
        }
        match evs[i] {
            ClockEventKind::In(_) => match next_out(evs, i + 1) {
                Some(j) => unpaired_from(evs, j + 1),
                None => seq![i] + unpaired_from(evs, i + 1),
            },
            ClockEventKind::Out(_) => unpaired_from(evs, i + 1),
            ClockEventKind::Duration(_) => unpaired_from(evs, i + 1),
        }
    }
}

pub proof fn lemma_next_out(evs: Seq<ClockEventKind>, j: int)
    requires
        0 <= j,
    ensures
        next_out(evs, j) matches Some(k) ==> j <= k < evs.len() && evs[k] is Out,
    decreases evs.len() - j,
{
    if j < evs.len() && !(evs[j] is Out) {
        lemma_next_out(evs, j + 1);
    }
}

proof fn lemma_next_out_push(evs: Seq<ClockEventKind>, x: ClockEventKind, j: int)
    requires
        0 <= j,
        !(x is Out),
    ensures
        next_out(evs.push(x), j) == next_out(evs, j),
    decreases evs.len() + 1 - j,
{
    if j < evs.len() {
        assert(evs.push(x)[j] == evs[j]);
        if !(evs[j] is Out) {
            lemma_next_out_push(evs, x, j + 1);
        }
    } else if j == evs.len() {
        assert(evs.push(x)[j] == x);
        assert(next_out(evs.push(x), j + 1) is None);
    }
}

/// A clock duration added after the other events adds exactly its minutes
/// to the time recorded: it pairs with nothing and changes no pairing.
pub proof fn lemma_time_with_duration(evs: Seq<ClockEventKind>, m: u64, i: int)
    requires
        0 <= i <= evs.len(),
    ensures
        time_from(evs.push(ClockEventKind::Duration(m)), i) == time_from(evs, i) + m,
    decreases evs.len() - i,
{
    let p = evs.push(ClockEventKind::Duration(m));
    if i == evs.len() {
        assert(p[i] == ClockEventKind::Duration(m));
        assert(time_from(p, i + 1) == 0);
    } else {
        assert(p[i] == evs[i]);
        lemma_next_out(evs, i + 1);
        lemma_next_out_push(evs, ClockEventKind::Duration(m), i + 1);
        match evs[i] {
            ClockEventKind::In(start) => match next_out(evs, i + 1) {
                Some(j) => {
                    assert(p[j] == evs[j]);
                    lemma_time_with_duration(evs, m, j + 1);
                },
                None => {
                    lemma_time_with_duration(evs, m, i + 1);
                },
            },
            _ => {
                lemma_time_with_duration(evs, m, i + 1);
            },
        }
    }
}

/// The totals of a time report.
pub struct TimeTotals {
    /// All recorded minutes (saturating at `u64::MAX`).
    pub total: u64,
    /// Minutes per heading text.
    pub per_heading: StringMap<u64>,
    /// Indices of clock-ins that no clock-out follows.
    pub unpaired_ins: Vec<usize>,
    /// Indices of clock-outs that no clock-in takes.
    pub orphan_outs: Vec<usize>,
}

/// The clock-outs that no clock-in takes, from event `i` on.
pub open spec fn orphans_from(evs: Seq<ClockEventKind>, i: int) -> Seq<int>
    decreases evs.len() - i,
{
    if i < 0 || i >= evs.len() {
        Seq::empty()
    } else {
        proof {
            lemma_next_out(evs, i + 1);
        }
        match evs[i] {
            ClockEventKind::In(_) => match next_out(evs, i + 1) {
                Some(j) => orphans_from(evs, j + 1),
                None => orphans_from(evs, i + 1),
            },
            ClockEventKind::Out(_) => seq![i] + orphans_from(evs, i + 1),
            ClockEventKind::Duration(_) => orphans_from(evs, i + 1),
        }
    }
}

/// `m` with `x` minutes added to heading `h` (saturating at `u64::MAX`).
pub open spec fn add_minutes(m: Map<Seq<char>, nat>, h: Seq<char>, x: nat) -> Map<Seq<char>, nat> {
    let cur = if m.contains_key(h) {
        m[h]
    } else {
        0
    };
    m.insert(
        h,
        if cur + x > u64::MAX {
            u64::MAX as nat
        } else {
            cur + x
        },
    )
}

/// The minutes per heading, from event `i` on, added to `m`: each
/// duration and each paired clock-in counts for the heading of its event.
pub open spec fn heading_minutes_from(
    evs: Seq<ClockEventKind>,
    hs: Seq<Seq<char>>,
    i: int,
    m: Map<Seq<char>, nat>,
) -> Map<Seq<char>, nat>
    decreases evs.len() - i,
{
    if i < 0 || i >= evs.len() {
        m
    } else {
        proof {
            lemma_next_out(evs, i + 1);
        }
        match evs[i] {
            ClockEventKind::Duration(x) => heading_minutes_from(evs, hs, i + 1, add_minutes(m, hs[i], x as nat)),
            ClockEventKind::In(start) => match next_out(evs, i + 1) {
                Some(j) => match evs[j] {
                    ClockEventKind::Out(end) => heading_minutes_from(
                        evs,
                        hs,
                        j + 1,
                        add_minutes(m, hs[i], range_minutes(start, end)),
                    ),
                    _ => m,
                },
                None => heading_minutes_from(evs, hs, i + 1, m),
            },
            ClockEventKind::Out(_) => heading_minutes_from(evs, hs, i + 1, m),
        }
    }
}

/// The minutes of a map of headings, as numbers.
pub open spec fn minutes_map(m: StringMap<u64>) -> Map<Seq<char>, nat> {
    m.to_map().map_values(|v: u64| v as nat)
}

fn add_to_heading(m: &mut StringMap<u64>, heading: &String, minutes: u64)
    ensures
        minutes_map(*final(m)) == add_minutes(minutes_map(*old(m)), heading@, minutes as nat),
{
    let ghost m0 = minutes_map(*m);
    let cur = match m.get(heading.as_str()) {
        Some(v) => *v,
        None => 0,
    };
    m.insert(heading.clone(), cur.saturating_add(minutes));
    assert(minutes_map(*m) =~= add_minutes(m0, heading@, minutes as nat));
}

/// Pairs each clock-in with the next clock-out and adds up the time, in
/// total and per heading.
pub fn pair_clock_events(events: &Vec<ClockEvent>) -> (r: TimeTotals)
    ensures
        r.total == if time_from(events@.map_values(|e: ClockEvent| e.kind), 0) > u64::MAX {
            u64::MAX as nat
        } else {
            time_from(events@.map_values(|e: ClockEvent| e.kind), 0)
        },
        r.unpaired_ins@.map_values(|i: usize| i as int) == unpaired_from(
            events@.map_values(|e: ClockEvent| e.kind),
            0,
        ),
        r.orphan_outs@.map_values(|i: usize| i as int) == orphans_from(
            events@.map_values(|e: ClockEvent| e.kind),
            0,
        ),
        minutes_map(r.per_heading) == heading_minutes_from(
            events@.map_values(|e: ClockEvent| e.kind),
            events@.map_values(|e: ClockEvent| e.heading@),
            0,
            Map::empty(),
        ),
{
    let ghost evs = events@.map_values(|e: ClockEvent| e.kind);
    let ghost hs = events@.map_values(|e: ClockEvent| e.heading@);
    let mut total: u64 = 0;
    let mut per_heading: StringMap<u64> = StringMap::new();
    let mut unpaired: Vec<usize> = Vec::new();
    let mut orphans: Vec<usize> = Vec::new();
    let mut i: usize = 0;
    let ghost mut acc: nat = 0;
    assert(unpaired@.map_values(|k: usize| k as int) =~= Seq::<int>::empty());
    assert(Seq::<int>::empty() + unpaired_from(evs, 0) =~= unpaired_from(evs, 0));
    assert(orphans@.map_values(|k: usize| k as int) =~= Seq::<int>::empty());
    assert(Seq::<int>::empty() + orphans_from(evs, 0) =~= orphans_from(evs, 0));
    assert(minutes_map(per_heading) =~= Map::<Seq<char>, nat>::empty());
    while i < events.len()
        invariant
            i <= events@.len(),
            evs == events@.map_values(|e: ClockEvent| e.kind),
            acc + time_from(evs, i as int) == time_from(evs, 0),
            total as nat == if acc > u64::MAX {
                u64::MAX as nat
            } else {
                acc
            },
            unpaired@.map_values(|k: usize| k as int) + unpaired_from(evs, i as int)
                == unpaired_from(evs, 0),
            hs == events@.map_values(|e: ClockEvent| e.heading@),
            orphans@.map_values(|k: usize| k as int) + orphans_from(evs, i as int)
                == orphans_from(evs, 0),
            heading_minutes_from(evs, hs, i as int, minutes_map(per_heading))
                == heading_minutes_from(evs, hs, 0, Map::empty()),
        decreases events@.len() - i,
    {
        let ghost u0 = unpaired@.map_values(|k: usize| k as int);
        let ghost o0 = orphans@.map_values(|k: usize| k as int);
        assert(hs[i as int] == events@[i as int].heading@);
        assert(evs[i as int] == events@[i as int].kind);
        match events[i].kind {
            ClockEventKind::Duration(m) => {
                add_to_heading(&mut per_heading, &events[i].heading, m);
                total = total.saturating_add(m);
                proof {
                    acc = acc + m as nat;
                }
                i += 1;
            },
            ClockEventKind::In(start) => {
                let mut j = i + 1;
                proof {
                    lemma_next_out(evs, j as int);
                }
                loop
                    invariant_except_break
                        i < j <= events@.len(),
                        evs == events@.map_values(|e: ClockEvent| e.kind),
                        next_out(evs, j as int) == next_out(evs, i + 1),
                    ensures
                        i < j <= events@.len(),
                        evs == events@.map_values(|e: ClockEvent| e.kind),
                        next_out(evs, j as int) == next_out(evs, i + 1),
                        j < events@.len() ==> evs[j as int] is Out,
                    decreases events@.len() - j,
                {
                    if j >= events.len() {
                        break ;
                    }
                    assert(evs[j as int] == events@[j as int].kind);
                    let is_out = match events[j].kind {
                        ClockEventKind::Out(_) => true,
                        _ => false,
                    };
                    if is_out {
                        break ;
                    }
                    j += 1;
                }
                if j < events.len() {
                    assert(evs[j as int] == events@[j as int].kind);
                    assert(next_out(evs, j as int) == Some(j as int));
                    let m = match events[j].kind {
                        ClockEventKind::Out(end) => if is_representable(start) && is_representable(
                            end,
                        ) {
                            minutes_between(start, end)
                        } else {
                            0
                        },
                        _ => 0,
                    };
                    add_to_heading(&mut per_heading, &events[i].heading, m);
                    total = total.saturating_add(m);
                    proof {
                        acc = acc + m as nat;
                    }
                    i = j + 1;
                } else {
                    unpaired.push(i);
                    assert(orphans@.map_values(|k: usize| k as int) == o0);
                    assert(unpaired@.map_values(|k: usize| k as int) =~= u0.push(i as int));
                    assert(u0.push(i as int) + unpaired_from(evs, i + 1) =~= u0 + (seq![i as int]
                        + unpaired_from(evs, i + 1)));
                    i += 1;
                }
            },
            ClockEventKind::Out(_) => {
                orphans.push(i);
                assert(orphans@.map_values(|k: usize| k as int) =~= o0.push(i as int));
                assert(o0.push(i as int) + orphans_from(evs, i + 1) =~= o0 + (seq![i as int]
                    + orphans_from(evs, i + 1)));
                i += 1;
            },
        }
    }
    assert(unpaired@.map_values(|k: usize| k as int) + Seq::<int>::empty() =~= unpaired@.map_values(
        |k: usize| k as int,
    ));
    TimeTotals { total, per_heading, unpaired_ins: unpaired, orphan_outs: orphans }
}

} // verus!
