//! Lint checks on documents.

use vstd::prelude::*;

use crate::ast::{append_str, segs_tags, segs_text, Block, Document, InlineContent, InlineSegment};
use crate::export::{push_timestamp, timestamp_text};
use crate::report::format_location;
use crate::span::Span;
use crate::tags::{Date, Tag, TagKind, Timestamp};
use crate::tangle::has_tangle_tag;
use crate::text::{
    all_digits, chars_of, decimal, decimal_chars, digits_value, parse_digits, skip, slice_of,
    string_of, trim,
};

verus! {

/// A lint finding.
#[derive(Debug)]
pub struct LintWarning {
    /// `file:line`.
    pub location: String,
    /// `warn` or `error`.
    pub severity: String,
    pub message: String,
}

/// The text of a finding: location, severity and message.
pub open spec fn warning_view(w: LintWarning) -> (Seq<char>, Seq<char>, Seq<char>) {
    (w.location@, w.severity@, w.message@)
}

pub open spec fn warnings_view(ws: Seq<LintWarning>) -> Seq<(Seq<char>, Seq<char>, Seq<char>)> {
    ws.map_values(|w: LintWarning| warning_view(w))
}

/// `a` is an earlier day than `b`.
pub open spec fn date_before(a: Date, b: Date) -> bool {
    a.year < b.year || (a.year == b.year && (a.month < b.month || (a.month == b.month && a.day
        < b.day)))
}

/// The day of a timestamp.
pub open spec fn day_of(t: Timestamp) -> Date {
    match t {
        Timestamp::Date(d) => d,
        Timestamp::DateTime(dt) => dt.date,
    }
}

/// The location text of a span in `file`.
pub open spec fn location(file: Seq<char>, span: Span) -> Seq<char> {
    file + ":"@ + decimal(span.line as nat)
}

/// The findings for a tag: a deadline or scheduled date before `today`.
pub open spec fn tag_findings(t: Tag, file: Seq<char>, today: Date) -> Seq<
    (Seq<char>, Seq<char>, Seq<char>),
> {
    match t.kind {
        TagKind::Deadline { date, .. } => if date_before(day_of(date), today) {
            seq![(location(file, t.span), "warn"@, "past date: "@ + timestamp_text(date))]
        } else {
            Seq::empty()
        },
        TagKind::Scheduled { date, .. } => if date_before(day_of(date), today) {
            seq![(location(file, t.span), "warn"@, "past date: "@ + timestamp_text(date))]
        } else {
            Seq::empty()
        },
        _ => Seq::empty(),
    }
}

/// The findings for a sequence of tags.
pub open spec fn tags_findings(ts: Seq<Tag>, file: Seq<char>, today: Date) -> Seq<
    (Seq<char>, Seq<char>, Seq<char>),
>
    decreases ts.len(),
{
    if ts.len() == 0 {
        Seq::empty()
    } else {
        tags_findings(ts.drop_last(), file, today) + tag_findings(ts.last(), file, today)
    }
}

/// The number of links with neither text nor destination among the
/// top-level segments.
pub open spec fn empty_links(s: Seq<InlineSegment>) -> nat
    decreases s.len(),
{
    if s.len() == 0 {
        0
    } else {
        empty_links(s.drop_last()) + match s.last() {
            InlineSegment::Link(l) => if l.url@.len() == 0 && l.text@.len() == 0 {
                1nat
            } else {
                0nat
            },
            _ => 0nat,
        }
    }
}

/// `n` copies of the same finding.
pub open spec fn repeated(
    n: nat,
    w: (Seq<char>, Seq<char>, Seq<char>),
) -> Seq<(Seq<char>, Seq<char>, Seq<char>)> {
    Seq::new(n, |i: int| w)
}

/// The findings for inline content: those of its tags, then one per empty
/// link.
pub open spec fn content_findings(c: InlineContent, file: Seq<char>, span: Span, today: Date) -> Seq<
    (Seq<char>, Seq<char>, Seq<char>),
> {
    tags_findings(segs_tags(c.segments@), file, today) + repeated(
        empty_links(c.segments@),
        (location(file, span), "warn"@, "empty link"@),
    )
}

fn push_warning(ws: &mut Vec<LintWarning>, file: &str, span: &Span, severity: &str, message: Vec<char>)
    ensures
        warnings_view(final(ws)@) == warnings_view(old(ws)@).push(
            (location(file@, *span), severity@, message@),
        ),
{
    let ghost o = warnings_view(ws@);
    ws.push(
        LintWarning {
            location: format_location(file, span),
            severity: string_of(&chars_of(severity)),
            message: string_of(&message),
        },
    );
    assert(warnings_view(ws@) =~= o.push((location(file@, *span), severity@, message@)));
}

fn date_is_before(a: Date, b: Date) -> (r: bool)
    ensures
        r == date_before(a, b),
{
    a.year < b.year || (a.year == b.year && (a.month < b.month || (a.month == b.month && a.day
        < b.day)))
}

/// Reports a deadline or scheduled date before `today`.
pub fn lint_tag(tag: &Tag, file: &str, today: Date, ws: &mut Vec<LintWarning>)
    ensures
        warnings_view(final(ws)@) == warnings_view(old(ws)@) + tag_findings(*tag, file@, today),
{
    let ghost o = warnings_view(ws@);
    let date = match &tag.kind {
        TagKind::Deadline { date, .. } => Some(*date),
        TagKind::Scheduled { date, .. } => Some(*date),
        _ => None,
    };
    match date {
        Some(d) => {
            if date_is_before(d.date(), today) {
                let mut msg = chars_of("past date: ");
                push_timestamp(&mut msg, &d);
                push_warning(ws, file, &tag.span, "warn", msg);
            } else {
                assert(warnings_view(ws@) =~= o + tag_findings(*tag, file@, today));
            }
        },
        None => {
            assert(warnings_view(ws@) =~= o + tag_findings(*tag, file@, today));
        },
    }
}

/// Reports the past dates among the tags of inline content, then each
/// link with neither text nor destination.
pub fn lint_inline_content(
    content: &InlineContent,
    file: &str,
    span: &Span,
    today: Date,
    ws: &mut Vec<LintWarning>,
)
    ensures
        warnings_view(final(ws)@) == warnings_view(old(ws)@) + content_findings(
            *content,
            file@,
            *span,
            today,
        ),
{
    let ghost o = warnings_view(ws@);
    let tags = content.tags();
    let ghost ts = segs_tags(content.segments@);
    let mut i: usize = 0;
    assert(ts.take(0) =~= Seq::<Tag>::empty());
    assert(warnings_view(ws@) =~= o + tags_findings(ts.take(0), file@, today));
    while i < tags.len()
        invariant
            i <= tags@.len(),
            tags@.len() == ts.len(),
            forall|k: int| 0 <= k < tags@.len() ==> *(#[trigger] tags@[k]) == ts[k],
            warnings_view(ws@) == o + tags_findings(ts.take(i as int), file@, today),
        decreases tags@.len() - i,
    {
        lint_tag(tags[i], file, today, ws);
        assert(ts.take(i + 1).drop_last() =~= ts.take(i as int));
        assert(warnings_view(ws@) =~= o + tags_findings(ts.take(i + 1), file@, today));
        i += 1;
    }
    assert(ts.take(ts.len() as int) =~= ts);
    let ghost mid = warnings_view(ws@);
    let ghost w = (location(file@, *span), "warn"@, "empty link"@);
    let segs = &content.segments;
    let mut k: usize = 0;
    assert(warnings_view(ws@) =~= mid + repeated(empty_links(segs@.take(0)), w));
    while k < segs.len()
        invariant
            k <= segs@.len(),
            w == (location(file@, *span), "warn"@, "empty link"@),
            warnings_view(ws@) == mid + repeated(empty_links(segs@.take(k as int)), w),
        decreases segs@.len() - k,
    {
        proof {
            reveal_strlit("empty link");
        }
        assert(segs@.take(k + 1).drop_last() =~= segs@.take(k as int));
        let ghost before = warnings_view(ws@);
        let empty = match &segs[k] {
            InlineSegment::Link(l) => chars_of(l.url.as_str()).len() == 0 && chars_of(
                l.text.as_str(),
            ).len() == 0,
            _ => false,
        };
        proof {
            match segs@[k as int] {
                InlineSegment::Link(l) => {
                    assert(l.url@.len() == 0 ==> l.url@ =~= Seq::<char>::empty());
                },
                _ => {},
            }
        }
        if empty {
            push_warning(ws, file, span, "warn", chars_of("empty link"));
            assert(repeated(empty_links(segs@.take(k + 1)), w) =~= repeated(
                empty_links(segs@.take(k as int)),
                w,
            ).push(w));
        } else {
            assert(repeated(empty_links(segs@.take(k + 1)), w) =~= repeated(
                empty_links(segs@.take(k as int)),
                w,
            ));
        }
        k += 1;
    }
    assert(segs@.take(segs@.len() as int) =~= segs@);
}

// ===========================================================================
// Blocks
// ===========================================================================
/// The keys of `keys` that repeat an earlier key, in order.
pub open spec fn repeated_keys(keys: Seq<Seq<char>>) -> Seq<Seq<char>>
    decreases keys.len(),
{
    if keys.len() == 0 {
        Seq::empty()
    } else {
        let rest = repeated_keys(keys.drop_last());
        if keys.drop_last().contains(keys.last()) {
            rest.push(keys.last())
        } else {
            rest
        }
    }
}

/// One finding per repeated property key.
pub open spec fn duplicate_findings(keys: Seq<Seq<char>>, loc: Seq<char>) -> Seq<
    (Seq<char>, Seq<char>, Seq<char>),
> {
    repeated_keys(keys).map_values(|k: Seq<char>| (loc, "warn"@, "duplicate property key: "@ + k))
}

/// The keys of a property drawer, in order.
pub open spec fn drawer_keys(d: crate::ast::PropertyDrawer) -> Seq<Seq<char>> {
    d.entries.entries().map_values(|e: (String, String)| e.0@)
}

/// The findings for a heading that follows a heading of level `prev`.
pub open spec fn heading_findings(
    h: crate::ast::Heading,
    file: Seq<char>,
    prev: Option<u8>,
    today: Date,
) -> Seq<(Seq<char>, Seq<char>, Seq<char>)> {
    let loc = location(file, h.span);
    (match prev {
        Some(p) => if h.level > p + 1 {
            seq![
                (
                    loc,
                    "warn"@,
                    "heading level jumps from "@ + decimal(p as nat) + " to "@ + decimal(
                        h.level as nat,
                    ) + " (skipped level "@ + decimal((p + 1) as nat) + ")"@,
                ),
            ]
        } else {
            Seq::empty()
        },
        None => Seq::empty(),
    }) + (if trim(segs_text(h.content.segments@)).len() == 0 {
        seq![(loc, "warn"@, "empty heading"@)]
    } else {
        Seq::empty()
    }) + (match h.properties {
        Some(d) => duplicate_findings(drawer_keys(d), location(file, d.span)),
        None => Seq::empty(),
    }) + content_findings(h.content, file, h.span, today)
}

/// The findings for a tangled block: an error without `file=`, and a
/// warning for a code block without a language.
pub open spec fn tangle_findings(
    tags: Seq<Tag>,
    has_file: bool,
    no_lang: bool,
    loc: Seq<char>,
    error_message: Seq<char>,
) -> Seq<(Seq<char>, Seq<char>, Seq<char>)> {
    (if has_tangle_tag(tags) && !has_file {
        seq![(loc, "error"@, error_message)]
    } else {
        Seq::empty()
    }) + (if no_lang && has_tangle_tag(tags) {
        seq![(loc, "warn"@, "tangled code block without language specifier"@)]
    } else {
        Seq::empty()
    })
}

/// The findings for a block after a heading of level `prev`, and the level
/// of the last heading after it.
pub open spec fn block_findings(b: Block, file: Seq<char>, prev: Option<u8>, today: Date) -> (
    Seq<(Seq<char>, Seq<char>, Seq<char>)>,
    Option<u8>,
)
    decreases b,
{
    match b {
        Block::Heading(h) => (heading_findings(h, file, prev, today), Some(h.level)),
        Block::Paragraph(p) => (content_findings(p.content, file, p.span, today), prev),
        Block::BlockTag(t) => (tag_findings(t, file, today), prev),
        Block::CodeBlock(cb) => (
            tangle_findings(
                cb.tags@,
                cb.attributes.to_map().contains_key("file"@),
                cb.lang is None,
                location(file, cb.span),
                "#tangle tag without file= attribute"@,
            ),
            prev,
        ),
        Block::Callout(c) => {
            let inner = blocks_findings(c.content@, file, prev, today);
            (
                tangle_findings(
                    c.tags@,
                    c.attributes.to_map().contains_key("file"@),
                    false,
                    location(file, c.span),
                    "#tangle tag on callout without file= attribute"@,
                ) + inner.0,
                inner.1,
            )
        },
        Block::List(l) => items_findings(l.items@, file, prev, today),
        _ => (Seq::empty(), prev),
    }
}

pub open spec fn blocks_findings(bs: Seq<Block>, file: Seq<char>, prev: Option<u8>, today: Date) -> (
    Seq<(Seq<char>, Seq<char>, Seq<char>)>,
    Option<u8>,
)
    decreases bs,
{
    if bs.len() == 0 {
        (Seq::empty(), prev)
    } else {
        let a = blocks_findings(bs.drop_last(), file, prev, today);
        let b = block_findings(bs.last(), file, a.1, today);
        (a.0 + b.0, b.1)
    }
}

pub open spec fn items_findings(
    items: Seq<crate::ast::ListItem>,
    file: Seq<char>,
    prev: Option<u8>,
    today: Date,
) -> (Seq<(Seq<char>, Seq<char>, Seq<char>)>, Option<u8>)
    decreases items,
{
    if items.len() == 0 {
        (Seq::empty(), prev)
    } else {
        let a = items_findings(items.drop_last(), file, prev, today);
        let it = items.last();
        let c = content_findings(it.content, file, it.span, today);
        let b = blocks_findings(it.children@, file, a.1, today);
        (a.0 + c + b.0, b.1)
    }
}

fn lint_tangle(
    tags: &Vec<Tag>,
    attributes: &crate::ast::StringMap<String>,
    no_lang: bool,
    file: &str,
    span: &Span,
    error_message: &str,
    ws: &mut Vec<LintWarning>,
)
    ensures
        warnings_view(final(ws)@) == warnings_view(old(ws)@) + tangle_findings(
            tags@,
            attributes.to_map().contains_key("file"@),
            no_lang,
            location(file@, *span),
            error_message@,
        ),
{
    let ghost o = warnings_view(ws@);
    let mut has_tangle = false;
    let mut i: usize = 0;
    while i < tags.len()
        invariant
            i <= tags@.len(),
            has_tangle == exists|k: int| 0 <= k < i && tags@[k].kind is Tangle,
        decreases tags@.len() - i,
    {
        match tags[i].kind {
            TagKind::Tangle => {
                has_tangle = true;
            },
            _ => {},
        }
        i += 1;
    }
    if has_tangle && !attributes.contains_key("file") {
        push_warning(ws, file, span, "error", chars_of(error_message));
    }
    if no_lang && has_tangle {
        push_warning(ws, file, span, "warn", chars_of("tangled code block without language specifier"));
    }
    assert(warnings_view(ws@) =~= o + tangle_findings(
        tags@,
        attributes.to_map().contains_key("file"@),
        no_lang,
        location(file@, *span),
        error_message@,
    ));
}

fn lint_duplicate_keys(d: &crate::ast::PropertyDrawer, file: &str, ws: &mut Vec<LintWarning>)
    ensures
        warnings_view(final(ws)@) == warnings_view(old(ws)@) + duplicate_findings(
            drawer_keys(*d),
            location(file@, d.span),
        ),
{
    let ghost o = warnings_view(ws@);
    let ghost keys = drawer_keys(*d);
    let ghost loc = location(file@, d.span);
    let mut seen: Vec<Vec<char>> = Vec::new();
    let mut i: usize = 0;
    let n = d.entries.len();
    assert(keys.take(0) =~= Seq::<Seq<char>>::empty());
    assert(warnings_view(ws@) =~= o + duplicate_findings(keys.take(0), loc));
    while i < n
        invariant
            i <= n,
            n == d.entries.entries().len(),
            keys == drawer_keys(*d),
            loc == location(file@, d.span),
            crate::words::views(seen@) == keys.take(i as int),
            warnings_view(ws@) == o + duplicate_findings(keys.take(i as int), loc),
        decreases n - i,
    {
        let key = d.entries.key_at(i);
        let kc = chars_of(key.as_str());
        assert(kc@ == keys[i as int]);
        let mut found = false;
        let mut j: usize = 0;
        while j < seen.len()
            invariant
                j <= seen@.len(),
                found == exists|m: int| 0 <= m < j && seen@[m]@ == kc@,
            decreases seen@.len() - j,
        {
            if crate::text::same(&seen[j], &kc) {
                found = true;
            }
            j += 1;
        }
        let ghost pre = keys.take(i as int);
        assert(keys.take(i + 1).drop_last() =~= pre);
        assert(found == pre.contains(kc@)) by {
            if found {
                let m = choose|m: int| 0 <= m < seen@.len() && seen@[m]@ == kc@;
                assert(pre[m] == kc@);
            }
            if pre.contains(kc@) {
                let m = choose|m: int| 0 <= m < pre.len() && pre[m] == kc@;
                assert(crate::words::views(seen@)[m] == kc@);
            }
        }
        if found {
            let mut msg = chars_of("duplicate property key: ");
            crate::text::append_chars(&mut msg, &kc);
            push_warning(ws, file, &d.span, "warn", msg);
            assert(duplicate_findings(keys.take(i + 1), loc) =~= duplicate_findings(pre, loc).push(
                (loc, "warn"@, "duplicate property key: "@ + kc@),
            ));
        } else {
            assert(duplicate_findings(keys.take(i + 1), loc) =~= duplicate_findings(pre, loc));
        }
        let ghost sv = crate::words::views(seen@);
        seen.push(kc);
        assert(crate::words::views(seen@) =~= sv.push(keys[i as int]));
        i += 1;
    }
    assert(keys.take(n as int) =~= keys);
}

/// Lints a block after a heading of level `*prev`, updating `*prev` to the
/// level of the last heading seen.
pub fn lint_block(
    block: &Block,
    file: &str,
    prev: &mut Option<u8>,
    today: Date,
    ws: &mut Vec<LintWarning>,
)
    ensures
        warnings_view(final(ws)@) == warnings_view(old(ws)@) + block_findings(
            *block,
            file@,
            *old(prev),
            today,
        ).0,
        *final(prev) == block_findings(*block, file@, *old(prev), today).1,
    decreases block, 1int,
{
    let ghost o = warnings_view(ws@);
    let ghost p0 = *prev;
    match block {
        Block::Heading(h) => {
            match *prev {
                Some(p) => {
                    if h.level as u16 > p as u16 + 1 {
                        let mut msg = chars_of("heading level jumps from ");
                        crate::text::append_chars(&mut msg, &decimal_chars(p as u64));
                        append_str(&mut msg, " to ");
                        crate::text::append_chars(&mut msg, &decimal_chars(h.level as u64));
                        append_str(&mut msg, " (skipped level ");
                        crate::text::append_chars(&mut msg, &decimal_chars(p as u64 + 1));
                        append_str(&mut msg, ")");
                        push_warning(ws, file, &h.span, "warn", msg);
                    }
                },
                None => {},
            }
            *prev = Some(h.level);
            if chars_of(h.content.plain_text().as_str()).len() == 0 {
                push_warning(ws, file, &h.span, "warn", chars_of("empty heading"));
            }
            match &h.properties {
                Some(d) => lint_duplicate_keys(d, file, ws),
                None => {},
            }
            lint_inline_content(&h.content, file, &h.span, today, ws);
        },
        Block::Paragraph(p) => {
            lint_inline_content(&p.content, file, &p.span, today, ws);
        },
        Block::BlockTag(t) => {
            lint_tag(t, file, today, ws);
        },
        Block::CodeBlock(cb) => {
            lint_tangle(
                &cb.tags,
                &cb.attributes,
                cb.lang.is_none(),
                file,
                &cb.span,
                "#tangle tag without file= attribute",
                ws,
            );
        },
        Block::Callout(c) => {
            lint_tangle(
                &c.tags,
                &c.attributes,
                false,
                file,
                &c.span,
                "#tangle tag on callout without file= attribute",
                ws,
            );
            lint_blocks(&c.content, file, prev, today, ws);
        },
        Block::List(l) => {
            lint_items(&l.items, file, prev, today, ws);
        },
        _ => {},
    }
    assert(warnings_view(ws@) =~= o + block_findings(*block, file@, p0, today).0);
}

/// Lints a sequence of blocks in order.
pub fn lint_blocks(
    blocks: &Vec<Block>,
    file: &str,
    prev: &mut Option<u8>,
    today: Date,
    ws: &mut Vec<LintWarning>,
)
    ensures
        warnings_view(final(ws)@) == warnings_view(old(ws)@) + blocks_findings(
            blocks@,
            file@,
            *old(prev),
            today,
        ).0,
        *final(prev) == blocks_findings(blocks@, file@, *old(prev), today).1,
    decreases blocks@, 0int,
{
    let ghost o = warnings_view(ws@);
    let ghost p0 = *prev;
    let mut i: usize = 0;
    while i < blocks.len()
        invariant
            i <= blocks@.len(),
            warnings_view(ws@) == o + blocks_findings(blocks@.take(i as int), file@, p0, today).0,
            *prev == blocks_findings(blocks@.take(i as int), file@, p0, today).1,
        decreases blocks@.len() - i,
    {
        assert(blocks@.take(i + 1).drop_last() =~= blocks@.take(i as int));
        assert(decreases_to!(blocks@ => blocks@[i as int]));
        lint_block(&blocks[i], file, prev, today, ws);
        assert(warnings_view(ws@) =~= o + blocks_findings(blocks@.take(i + 1), file@, p0, today).0);
        i += 1;
    }
    assert(blocks@.take(blocks@.len() as int) =~= blocks@);
}

fn lint_items(
    items: &Vec<crate::ast::ListItem>,
    file: &str,
    prev: &mut Option<u8>,
    today: Date,
    ws: &mut Vec<LintWarning>,
)
    ensures
        warnings_view(final(ws)@) == warnings_view(old(ws)@) + items_findings(
            items@,
            file@,
            *old(prev),
            today,
        ).0,
        *final(prev) == items_findings(items@, file@, *old(prev), today).1,
    decreases items@, 0int,
{
    let ghost o = warnings_view(ws@);
    let ghost p0 = *prev;
    let mut i: usize = 0;
    while i < items.len()
        invariant
            i <= items@.len(),
            warnings_view(ws@) == o + items_findings(items@.take(i as int), file@, p0, today).0,
            *prev == items_findings(items@.take(i as int), file@, p0, today).1,
        decreases items@.len() - i,
    {
        assert(items@.take(i + 1).drop_last() =~= items@.take(i as int));
        let item = &items[i];
        lint_inline_content(&item.content, file, &item.span, today, ws);
        assert(decreases_to!(items@ => items@[i as int]));
        lint_blocks(&item.children, file, prev, today, ws);
        assert(warnings_view(ws@) =~= o + items_findings(items@.take(i + 1), file@, p0, today).0);
        i += 1;
    }
    assert(items@.take(items@.len() as int) =~= items@);
}

/// Lints a document against the day `today`: heading level jumps, empty
/// headings, repeated property keys, past deadlines and scheduled dates,
/// empty links, and `#tangle` without `file=`.
pub fn lint_document(doc: &Document, file: &str, today: Date) -> (ws: Vec<LintWarning>)
    ensures
        warnings_view(ws@) == blocks_findings(doc.children@, file@, None, today).0,
{
    let mut ws: Vec<LintWarning> = Vec::new();
    let mut prev: Option<u8> = None;
    lint_blocks(&doc.children, file, &mut prev, today, &mut ws);
    assert(warnings_view(ws@) =~= blocks_findings(doc.children@, file@, None, today).0);
    ws
}

/// Lints a document against today's date on the local clock.
pub fn lint_document_today(doc: &Document, file: &str) -> (ws: Vec<LintWarning>)
    ensures
        exists|today: Date| warnings_view(ws@) == blocks_findings(doc.children@, file@, None, today).0,
{
    let today = crate::agenda::local_today();
    lint_document(doc, file, today)
}

/// The file and line of a `file:line` location; the line is 0 when it is
/// not a number.
pub open spec fn location_parts(loc: Seq<char>) -> (Seq<char>, nat) {
    match crate::text::find_char(loc.reverse(), ':') {
        Some(k) => {
            let i = loc.len() - 1 - k;
            let line = loc.skip(i + 1);
            let digits = if line.len() > 0 && line[0] == '+' {
                line.skip(1)
            } else {
                line
            };
            (
                loc.take(i),
                if digits.len() > 0 && all_digits(digits) && digits_value(digits) <= u32::MAX {
                    digits_value(digits)
                } else {
                    0
                },
            )
        },
        None => (loc, 0),
    }
}

/// Splits a `file:line` location at its last `:`.
pub fn parse_location(loc: &str) -> (r: (String, u32))
    ensures
        (r.0@, r.1 as nat) == location_parts(loc@),
{
    let l = chars_of(loc);
    let mut i = l.len();
    while i > 0 && l[i - 1] != ':'
        invariant
            i <= l@.len(),
            l@ == loc@,
            forall|k: int| i <= k < l@.len() ==> l@[k] != ':',
        decreases i,
    {
        i -= 1;
    }
    proof {
        let rv = loc@.reverse();
        if i > 0 {
            crate::text::lemma_find_char(rv, ':', (l@.len() - i) as int);
        } else {
            crate::text::lemma_find_char(rv, ':', rv.len() as int);
            crate::text::lemma_find_char_some(rv, ':');
        }
    }
    if i == 0 {
        return (string_of(&l), 0);
    }
    let file = slice_of(&l, 0, i - 1);
    let line = skip(&l, i);
    let digits = if line.len() > 0 && line[0] == '+' {
        skip(&line, 1)
    } else {
        line
    };
    let n: u32 = if digits.len() > 0 && crate::text::are_digits(&digits) {
        match parse_digits(&digits) {
            Some(v) => if v <= u32::MAX as u64 {
                v as u32
            } else {
                0
            },
            None => 0,
        }
    } else {
        0
    };
    assert(file@ =~= loc@.take(i - 1));
    (string_of(&file), n)
}

} // verus!
