//! HTML export of a document.

use vstd::prelude::*;

use crate::ast::{
    append_str, segs_text, Alignment, Block, Checkbox, InlineContent, InlineSegment, ListItem,
    ListKind,
};
use crate::tags::{Date, DateTime, PriorityLevel, Tag, TagKind, Time, Timestamp};
use crate::text::{
    append_chars, chars_of, decimal, decimal_chars, is_alphanumeric, lowercase, string_of, to_lower,
    to_upper, trim, alnum_char, uppercase,
};

verus! {

// ===========================================================================
// Text helpers
// ===========================================================================
/// The HTML escape of one character.
pub open spec fn escaped_char(c: char) -> Seq<char> {
    if c == '&' {
        "&amp;"@
    } else if c == '<' {
        "&lt;"@
    } else if c == '>' {
        "&gt;"@
    } else if c == '"' {
        "&quot;"@
    } else {
        seq![c]
    }
}

/// `s` with `&`, `<`, `>` and `"` escaped.
pub open spec fn escaped(s: Seq<char>) -> Seq<char>
    decreases s.len(),
{
    if s.len() == 0 {
        Seq::empty()
    } else {
        escaped(s.drop_last()) + escaped_char(s.last())
    }
}

/// Escaped text holds no `<`, `>` or `"`, so it cannot open or close a tag
/// or an attribute; text without `&`, `<`, `>` and `"` is left as it is.
pub proof fn lemma_escaped_safe(s: Seq<char>)
    ensures
        forall|k: int|
            0 <= k < escaped(s).len() ==> #[trigger] escaped(s)[k] != '<' && escaped(s)[k] != '>'
                && escaped(s)[k] != '"',
        (forall|k: int|
            0 <= k < s.len() ==> #[trigger] s[k] != '&' && s[k] != '<' && s[k] != '>' && s[k]
                != '"') ==> escaped(s) == s,
    decreases s.len(),
{
    reveal_strlit("&amp;");
    reveal_strlit("&lt;");
    reveal_strlit("&gt;");
    reveal_strlit("&quot;");
    if s.len() > 0 {
        let t = s.drop_last();
        lemma_escaped_safe(t);
        let e = escaped(t);
        let c = escaped_char(s.last());
        assert(escaped(s) == e + c);
        assert forall|k: int| 0 <= k < escaped(s).len() implies #[trigger] escaped(s)[k] != '<'
            && escaped(s)[k] != '>' && escaped(s)[k] != '"' by {
            if k >= e.len() {
                assert(escaped(s)[k] == c[k - e.len()]);
            }
        }
        if forall|k: int|
            0 <= k < s.len() ==> #[trigger] s[k] != '&' && s[k] != '<' && s[k] != '>' && s[k]
                != '"' {
            assert forall|k: int| 0 <= k < t.len() implies #[trigger] t[k] != '&' && t[k] != '<'
                && t[k] != '>' && t[k] != '"' by {
                assert(t[k] == s[k]);
            }
            assert(s.last() == s[s.len() - 1]);
            assert(e + c =~= s);
        }
    }
}

/// Appends `s` with `&`, `<`, `>` and `"` escaped.
pub fn push_escaped(out: &mut Vec<char>, s: &str)
    ensures
        final(out)@ == old(out)@ + escaped(s@),
{
    let cs = chars_of(s);
    let ghost o = out@;
    let mut i: usize = 0;
    while i < cs.len()
        invariant
            i <= cs@.len(),
            cs@ == s@,
            out@ == o + escaped(cs@.take(i as int)),
        decreases cs@.len() - i,
    {
        proof {
            reveal_strlit("&amp;");
            reveal_strlit("&lt;");
            reveal_strlit("&gt;");
            reveal_strlit("&quot;");
        }
        let c = cs[i];
        assert(cs@.take(i + 1).drop_last() =~= cs@.take(i as int));
        let ghost before = out@;
        if c == '&' {
            append_str(out, "&amp;");
        } else if c == '<' {
            append_str(out, "&lt;");
        } else if c == '>' {
            append_str(out, "&gt;");
        } else if c == '"' {
            append_str(out, "&quot;");
        } else {
            out.push(c);
        }
        assert(out@ =~= o + escaped(cs@.take(i + 1)));
        i += 1;
    }
    assert(cs@.take(cs@.len() as int) =~= cs@);
}

/// Escapes `&`, `<`, `>` and `"` for HTML.
pub fn escape_html(s: &str) -> (r: String)
    ensures
        r@ == escaped(s@),
{
    let mut out: Vec<char> = Vec::new();
    push_escaped(&mut out, s);
    string_of(&out)
}

/// Each character that is not alphanumeric replaced by `-`.
pub open spec fn dashed(s: Seq<char>) -> Seq<char> {
    s.map_values(|c: char| if alnum_char(c) { c } else { '-' })
}

/// `s` without `-` at either end.
pub open spec fn trim_dashes(s: Seq<char>) -> Seq<char>
    decreases s.len(),
{
    if s.len() > 0 && s[0] == '-' {
        trim_dashes(s.drop_first())
    } else if s.len() > 0 && s.last() == '-' {
        trim_dashes(s.drop_last())
    } else {
        s
    }
}

/// The anchor id of a heading: its text in lower case, with every
/// character that is not alphanumeric turned into `-`, and no `-` at the
/// ends.
pub open spec fn slugged(text: Seq<char>) -> Seq<char> {
    trim_dashes(dashed(lowercase(text)))
}

/// Makes the anchor id of a heading.
pub fn slug(text: &str) -> (r: String)
    ensures
        r@ == slugged(text@),
{
    let lower = to_lower(&chars_of(text));
    let mut d: Vec<char> = Vec::new();
    let mut i: usize = 0;
    while i < lower.len()
        invariant
            i <= lower@.len(),
            d@ =~= dashed(lower@.take(i as int)),
        decreases lower@.len() - i,
    {
        let c = lower[i];
        if is_alphanumeric(c) {
            d.push(c);
        } else {
            d.push('-');
        }
        i += 1;
    }
    assert(lower@.take(lower@.len() as int) =~= lower@);
    let mut a: usize = 0;
    let mut b: usize = d.len();
    assert(d@.subrange(0, d@.len() as int) =~= d@);
    while a < b && d[a] == '-'
        invariant
            a <= b <= d@.len(),
            b == d@.len(),
            trim_dashes(d@.subrange(a as int, b as int)) == trim_dashes(d@),
        decreases b - a,
    {
        assert(d@.subrange(a as int, b as int).drop_first() =~= d@.subrange(a + 1, b as int));
        a += 1;
    }
    while a < b && d[b - 1] == '-'
        invariant
            a <= b <= d@.len(),
            trim_dashes(d@.subrange(a as int, b as int)) == trim_dashes(d@),
            a < b ==> d@[a as int] != '-',
        decreases b - a,
    {
        assert(d@.subrange(a as int, b as int).drop_last() =~= d@.subrange(a as int, b - 1));
        b -= 1;
    }
    let r = crate::text::slice_of(&d, a, b);
    string_of(&r)
}

/// `s` with its first character in upper case.
pub open spec fn capitalized(s: Seq<char>) -> Seq<char> {
    if s.len() == 0 {
        Seq::empty()
    } else {
        uppercase(seq![s[0]]) + s.skip(1)
    }
}

/// Puts the first character of `s` in upper case.
pub fn capitalize(s: &str) -> (r: String)
    ensures
        r@ == capitalized(s@),
{
    let cs = chars_of(s);
    if cs.len() == 0 {
        return String::new();
    }
    let mut first: Vec<char> = Vec::new();
    first.push(cs[0]);
    assert(first@ =~= seq![cs@[0]]);
    let mut out = to_upper(&first);
    append_chars(&mut out, &crate::text::skip(&cs, 1));
    string_of(&out)
}

/// The style attribute of a table cell with the given alignment.
pub open spec fn alignment_style(a: Alignment) -> Seq<char> {
    match a {
        Alignment::Left => " style=\"text-align:left\""@,
        Alignment::Center => " style=\"text-align:center\""@,
        Alignment::Right => " style=\"text-align:right\""@,
        Alignment::Unspecified => ""@,
    }
}

fn push_alignment_style(out: &mut Vec<char>, a: Alignment)
    ensures
        final(out)@ == old(out)@ + alignment_style(a),
{
    match a {
        Alignment::Left => append_str(out, " style=\"text-align:left\""),
        Alignment::Center => append_str(out, " style=\"text-align:center\""),
        Alignment::Right => append_str(out, " style=\"text-align:right\""),
        Alignment::Unspecified => append_str(out, ""),
    }
}

// ===========================================================================
// Dates and priorities
// ===========================================================================
/// `n` in decimal, padded with zeros to at least `w` digits.
pub open spec fn padded(n: nat, w: nat) -> Seq<char>
    decreases w,
{
    if decimal(n).len() >= w || w == 0 {
        decimal(n)
    } else {
        seq!['0'] + padded(n, (w - 1) as nat)
    }
}

pub(crate) fn push_padded(out: &mut Vec<char>, n: u64, w: usize)
    ensures
        final(out)@ == old(out)@ + padded(n as nat, w as nat),
    decreases w,
{
    let d = decimal_chars(n);
    if d.len() >= w || w == 0 {
        append_chars(out, &d);
    } else {
        out.push('0');
        let ghost o = out@;
        push_padded(out, n, w - 1);
        assert(final(out)@ =~= old(out)@ + (seq!['0'] + padded(n as nat, (w - 1) as nat)));
    }
}

/// A date as `YYYY-MM-DD`.
pub open spec fn date_text(d: Date) -> Seq<char> {
    (if d.year >= 0 {
        padded(d.year as nat, 4)
    } else {
        "-"@ + padded((-d.year) as nat, 4)
    }) + "-"@ + padded(d.month as nat, 2) + "-"@ + padded(d.day as nat, 2)
}

/// A timestamp as `YYYY-MM-DD` or `YYYY-MM-DDTHH:MM`.
pub open spec fn timestamp_text(t: Timestamp) -> Seq<char> {
    match t {
        Timestamp::Date(d) => date_text(d),
        Timestamp::DateTime(dt) => date_text(dt.date) + "T"@ + padded(dt.time.hour as nat, 2)
            + ":"@ + padded(dt.time.minute as nat, 2),
    }
}

fn push_date(out: &mut Vec<char>, d: Date)
    ensures
        final(out)@ == old(out)@ + date_text(d),
{
    let ghost o = out@;
    if d.year >= 0 {
        push_padded(out, d.year as u64, 4);
    } else {
        append_str(out, "-");
        let y: i64 = d.year as i64;
        push_padded(out, (-y) as u64, 4);
    }
    append_str(out, "-");
    push_padded(out, d.month as u64, 2);
    append_str(out, "-");
    push_padded(out, d.day as u64, 2);
    assert(out@ =~= o + date_text(d));
}

/// Appends a timestamp as `YYYY-MM-DD` or `YYYY-MM-DDTHH:MM`.
pub fn push_timestamp(out: &mut Vec<char>, t: &Timestamp)
    ensures
        final(out)@ == old(out)@ + timestamp_text(*t),
{
    let ghost o = out@;
    match t {
        Timestamp::Date(d) => push_date(out, *d),
        Timestamp::DateTime(dt) => {
            push_date(out, dt.date);
            append_str(out, "T");
            push_padded(out, dt.time.hour as u64, 2);
            append_str(out, ":");
            push_padded(out, dt.time.minute as u64, 2);
            assert(out@ =~= o + timestamp_text(*t));
        },
    }
}

/// The letter of a priority.
pub open spec fn priority_text(p: PriorityLevel) -> Seq<char> {
    match p {
        PriorityLevel::A => "A"@,
        PriorityLevel::B => "B"@,
        PriorityLevel::C => "C"@,
        PriorityLevel::Custom(c) => seq![c],
    }
}

pub fn priority_chars(p: &PriorityLevel) -> (r: Vec<char>)
    ensures
        r@ == priority_text(*p),
{
    match p {
        PriorityLevel::A => chars_of("A"),
        PriorityLevel::B => chars_of("B"),
        PriorityLevel::C => chars_of("C"),
        PriorityLevel::Custom(c) => {
            let mut v: Vec<char> = Vec::new();
            v.push(*c);
            assert(v@ =~= seq![*c]);
            v
        },
    }
}

// ===========================================================================
// Inline content
// ===========================================================================
/// The HTML of a tag inside text.
pub open spec fn inline_tag_html(t: Tag) -> Seq<char> {
    match t.kind {
        TagKind::Todo { text } => "<span class=\"tag tag-todo\">TODO</span>"@ + match text {
            Some(x) => " "@ + escaped(x@),
            None => Seq::empty(),
        },
        TagKind::Done { text } => "<span class=\"tag tag-done\">DONE</span>"@ + match text {
            Some(x) => " <del>"@ + escaped(x@) + "</del>"@,
            None => Seq::empty(),
        },
        TagKind::Deadline { date, .. } => "<span class=\"tag tag-deadline\">DEADLINE: "@
            + timestamp_text(date) + "</span>"@,
        TagKind::Scheduled { date, .. } => "<span class=\"tag tag-scheduled\">SCHEDULED: "@
            + timestamp_text(date) + "</span>"@,
        TagKind::Priority { level } => "<span class=\"tag tag-priority tag-priority-"@ + lowercase(
            priority_text(level),
        ) + "\">#"@ + priority_text(level) + "</span>"@,
        TagKind::Archive => "<span class=\"tag tag-archive\">ARCHIVE</span>"@,
        _ => Seq::empty(),
    }
}

fn render_inline_tag(out: &mut Vec<char>, t: &Tag)
    ensures
        final(out)@ == old(out)@ + inline_tag_html(*t),
{
    let ghost o = out@;
    match &t.kind {
        TagKind::Todo { text } => {
            append_str(out, "<span class=\"tag tag-todo\">TODO</span>");
            match text {
                Some(x) => {
                    append_str(out, " ");
                    push_escaped(out, x.as_str());
                },
                None => {},
            }
        },
        TagKind::Done { text } => {
            append_str(out, "<span class=\"tag tag-done\">DONE</span>");
            match text {
                Some(x) => {
                    append_str(out, " <del>");
                    push_escaped(out, x.as_str());
                    append_str(out, "</del>");
                },
                None => {},
            }
        },
        TagKind::Deadline { date, .. } => {
            append_str(out, "<span class=\"tag tag-deadline\">DEADLINE: ");
            push_timestamp(out, date);
            append_str(out, "</span>");
        },
        TagKind::Scheduled { date, .. } => {
            append_str(out, "<span class=\"tag tag-scheduled\">SCHEDULED: ");
            push_timestamp(out, date);
            append_str(out, "</span>");
        },
        TagKind::Priority { level } => {
            let p = priority_chars(level);
            append_str(out, "<span class=\"tag tag-priority tag-priority-");
            append_chars(out, &to_lower(&p));
            append_str(out, "\">#");
            append_chars(out, &p);
            append_str(out, "</span>");
        },
        TagKind::Archive => {
            append_str(out, "<span class=\"tag tag-archive\">ARCHIVE</span>");
        },
        _ => {},
    }
    assert(out@ =~= o + inline_tag_html(*t));
}

/// The `title` attribute for an optional title.
pub open spec fn title_attr(t: Option<String>) -> Seq<char> {
    match t {
        Some(x) => " title=\""@ + escaped(x@) + "\""@,
        None => Seq::empty(),
    }
}

fn push_title_attr(out: &mut Vec<char>, t: &Option<String>)
    ensures
        final(out)@ == old(out)@ + title_attr(*t),
{
    let ghost o = out@;
    match t {
        Some(x) => {
            append_str(out, " title=\"");
            push_escaped(out, x.as_str());
            append_str(out, "\"");
        },
        None => {},
    }
    assert(out@ =~= o + title_attr(*t));
}

/// The HTML of a sequence of inline segments.
pub open spec fn segs_html(s: Seq<InlineSegment>) -> Seq<char>
    decreases s,
{
    if s.len() == 0 {
        Seq::empty()
    } else {
        segs_html(s.drop_last()) + seg_html(s.last())
    }
}

/// Emphasis is `<em>`, strong emphasis `<strong>`, struck text `<del>`:
/// each wraps the HTML of its content, after the HTML of the segments
/// before it; so an italic segment never renders as a bold one.
pub proof fn lemma_emphasis_html(pre: Seq<InlineSegment>, c: InlineContent)
    ensures
        segs_html(pre.push(InlineSegment::Italic(c))) == segs_html(pre) + "<em>"@ + segs_html(
            c.segments@,
        ) + "</em>"@,
        segs_html(pre.push(InlineSegment::Bold(c))) == segs_html(pre) + "<strong>"@ + segs_html(
            c.segments@,
        ) + "</strong>"@,
        segs_html(pre.push(InlineSegment::Strikethrough(c))) == segs_html(pre) + "<del>"@
            + segs_html(c.segments@) + "</del>"@,
        segs_html(pre.push(InlineSegment::Italic(c))) != segs_html(pre.push(InlineSegment::Bold(c))),
{
    reveal_strlit("<em>");
    reveal_strlit("</em>");
    reveal_strlit("<strong>");
    reveal_strlit("</strong>");
    reveal_strlit("<del>");
    reveal_strlit("</del>");
    assert(pre.push(InlineSegment::Italic(c)).drop_last() =~= pre);
    assert(pre.push(InlineSegment::Bold(c)).drop_last() =~= pre);
    assert(pre.push(InlineSegment::Strikethrough(c)).drop_last() =~= pre);
    let x = segs_html(c.segments@);
    let h = segs_html(pre);
    assert(segs_html(pre.push(InlineSegment::Italic(c))) == h + seg_html(InlineSegment::Italic(c)));
    assert(segs_html(pre.push(InlineSegment::Bold(c))) == h + seg_html(InlineSegment::Bold(c)));
    assert(segs_html(pre.push(InlineSegment::Strikethrough(c))) == h + seg_html(
        InlineSegment::Strikethrough(c),
    ));
    assert(h + ("<em>"@ + x + "</em>"@) =~= h + "<em>"@ + x + "</em>"@);
    assert(h + ("<strong>"@ + x + "</strong>"@) =~= h + "<strong>"@ + x + "</strong>"@);
    assert(h + ("<del>"@ + x + "</del>"@) =~= h + "<del>"@ + x + "</del>"@);
    let a = segs_html(pre) + "<em>"@ + segs_html(c.segments@) + "</em>"@;
    let b = segs_html(pre) + "<strong>"@ + segs_html(c.segments@) + "</strong>"@;
    assert(a.len() != b.len());
}

/// The HTML of one inline segment.
pub open spec fn seg_html(seg: InlineSegment) -> Seq<char>
    decreases seg,
{
    match seg {
        InlineSegment::Text(t) => escaped(t@),
        InlineSegment::Tag(t) => inline_tag_html(t),
        InlineSegment::Bold(c) => "<strong>"@ + segs_html(c.segments@) + "</strong>"@,
        InlineSegment::Italic(c) => "<em>"@ + segs_html(c.segments@) + "</em>"@,
        InlineSegment::Strikethrough(c) => "<del>"@ + segs_html(c.segments@) + "</del>"@,
        InlineSegment::Code(c) => "<code>"@ + escaped(c@) + "</code>"@,
        InlineSegment::Link(l) => "<a href=\""@ + escaped(l.url@) + "\""@ + title_attr(l.title)
            + ">"@ + escaped(l.text@) + "</a>"@,
        InlineSegment::Image(i) => "<img src=\""@ + escaped(i.url@) + "\" alt=\""@ + escaped(
            i.alt@,
        ) + "\""@ + title_attr(i.title) + "/>"@,
        InlineSegment::FootnoteRef(l) => "<sup><a id=\"fnref-"@ + l@ + "\" href=\"#fn-"@ + l@
            + "\">"@ + l@ + "</a></sup>"@,
        InlineSegment::HardBreak => "<br />\n"@,
        InlineSegment::LinkRef { text, .. } => escaped(text@),
    }
}

/// Appends the HTML of inline segments.
pub fn render_inline(out: &mut Vec<char>, segments: &Vec<InlineSegment>)
    ensures
        final(out)@ == old(out)@ + segs_html(segments@),
    decreases segments@,
{
    let ghost o = out@;
    let mut i: usize = 0;
    while i < segments.len()
        invariant
            i <= segments@.len(),
            out@ == o + segs_html(segments@.take(i as int)),
        decreases segments@.len() - i,
    {
        assert(segments@.take(i + 1).drop_last() =~= segments@.take(i as int));
        let ghost before = out@;
        match &segments[i] {
            InlineSegment::Text(t) => push_escaped(out, t.as_str()),
            InlineSegment::Tag(t) => render_inline_tag(out, t),
            InlineSegment::Bold(inner) => {
                append_str(out, "<strong>");
                render_inline(out, &inner.segments);
                append_str(out, "</strong>");
            },
            InlineSegment::Italic(inner) => {
                append_str(out, "<em>");
                render_inline(out, &inner.segments);
                append_str(out, "</em>");
            },
            InlineSegment::Strikethrough(inner) => {
                append_str(out, "<del>");
                render_inline(out, &inner.segments);
                append_str(out, "</del>");
            },
            InlineSegment::Code(c) => {
                append_str(out, "<code>");
                push_escaped(out, c.as_str());
                append_str(out, "</code>");
            },
            InlineSegment::Link(l) => {
                append_str(out, "<a href=\"");
                push_escaped(out, l.url.as_str());
                append_str(out, "\"");
                push_title_attr(out, &l.title);
                append_str(out, ">");
                push_escaped(out, l.text.as_str());
                append_str(out, "</a>");
            },
            InlineSegment::Image(img) => {
                append_str(out, "<img src=\"");
                push_escaped(out, img.url.as_str());
                append_str(out, "\" alt=\"");
                push_escaped(out, img.alt.as_str());
                append_str(out, "\"");
                push_title_attr(out, &img.title);
                append_str(out, "/>");
            },
            InlineSegment::FootnoteRef(l) => {
                append_str(out, "<sup><a id=\"fnref-");
                append_str(out, l.as_str());
                append_str(out, "\" href=\"#fn-");
                append_str(out, l.as_str());
                append_str(out, "\">");
                append_str(out, l.as_str());
                append_str(out, "</a></sup>");
            },
            InlineSegment::HardBreak => append_str(out, "<br />\n"),
            InlineSegment::LinkRef { text, .. } => push_escaped(out, text.as_str()),
        }
        assert(out@ =~= before + seg_html(segments@[i as int]));
        i += 1;
    }
    assert(segments@.take(segments@.len() as int) =~= segments@);
}

// ===========================================================================
// Blocks
// ===========================================================================
/// The HTML of a tag standing on its own line.
pub open spec fn block_tag_html(t: Tag) -> Seq<char> {
    match t.kind {
        TagKind::Todo { text } => "<p><span class=\"tag tag-todo\">TODO</span>"@ + match text {
            Some(x) => " "@ + escaped(x@),
            None => Seq::empty(),
        } + "</p>\n"@,
        TagKind::Done { text } => "<p><span class=\"tag tag-done\">DONE</span>"@ + match text {
            Some(x) => " <del>"@ + escaped(x@) + "</del>"@,
            None => Seq::empty(),
        } + "</p>\n"@,
        TagKind::Deadline { date, .. } => "<p class=\"planning\"><strong>DEADLINE:</strong> "@
            + timestamp_text(date) + "</p>\n"@,
        TagKind::Scheduled { date, .. } => "<p class=\"planning\"><strong>SCHEDULED:</strong> "@
            + timestamp_text(date) + "</p>\n"@,
        _ => Seq::empty(),
    }
}

fn render_block_tag(out: &mut Vec<char>, t: &Tag)
    ensures
        final(out)@ == old(out)@ + block_tag_html(*t),
{
    let ghost o = out@;
    match &t.kind {
        TagKind::Todo { text } => {
            append_str(out, "<p><span class=\"tag tag-todo\">TODO</span>");
            match text {
                Some(x) => {
                    append_str(out, " ");
                    push_escaped(out, x.as_str());
                },
                None => {},
            }
            append_str(out, "</p>\n");
        },
        TagKind::Done { text } => {
            append_str(out, "<p><span class=\"tag tag-done\">DONE</span>");
            match text {
                Some(x) => {
                    append_str(out, " <del>");
                    push_escaped(out, x.as_str());
                    append_str(out, "</del>");
                },
                None => {},
            }
            append_str(out, "</p>\n");
        },
        TagKind::Deadline { date, .. } => {
            append_str(out, "<p class=\"planning\"><strong>DEADLINE:</strong> ");
            push_timestamp(out, date);
            append_str(out, "</p>\n");
        },
        TagKind::Scheduled { date, .. } => {
            append_str(out, "<p class=\"planning\"><strong>SCHEDULED:</strong> ");
            push_timestamp(out, date);
            append_str(out, "</p>\n");
        },
        _ => {},
    }
    assert(out@ =~= o + block_tag_html(*t));
}

/// A footnote: its label and the HTML of its content.
pub struct Footnote {
    pub label: String,
    pub html: String,
}

/// The footnotes of a sequence of footnote records, as (label, HTML) pairs.
pub open spec fn footnote_views(f: Seq<Footnote>) -> Seq<(Seq<char>, Seq<char>)> {
    f.map_values(|n: Footnote| (n.label@, n.html@))
}

/// What rendering a block adds: its HTML, and the footnote definitions met
/// along the way, in order.
pub open spec fn block_html(b: Block) -> (Seq<char>, Seq<(Seq<char>, Seq<char>)>)
    decreases b,
{
    match b {
        Block::Heading(h) => (
            "<h"@ + decimal(h.level as nat) + " id=\""@ + slugged(trim(segs_text(h.content.segments@)))
                + "\">"@ + segs_html(h.content.segments@) + "</h"@ + decimal(h.level as nat) + ">\n"@,
            Seq::empty(),
        ),
        Block::Paragraph(p) => ("<p>"@ + segs_html(p.content.segments@) + "</p>\n"@, Seq::empty()),
        Block::CodeBlock(cb) => (
            "<pre><code"@ + match cb.lang {
                Some(l) => " class=\"language-"@ + l@ + "\""@,
                None => Seq::empty(),
            } + ">"@ + escaped(cb.body@) + "</code></pre>\n"@,
            Seq::empty(),
        ),
        Block::BlockTag(t) => (block_tag_html(t), Seq::empty()),
        Block::Callout(c) => {
            let inner = blocks_html(c.content@);
            (
                "<blockquote class=\"callout callout-"@ + c.kind@ + "\">\n"@
                    + "<p class=\"callout-title\">"@ + capitalized(c.kind@) + "</p>\n"@ + inner.0
                    + "</blockquote>\n"@,
                inner.1,
            )
        },
        Block::Table(t) => (
            "<table>\n<thead>\n<tr>\n"@ + cells_html(t.headers@, t.alignments@, 0, "th"@)
                + "</tr>\n</thead>\n<tbody>\n"@ + rows_html(t.rows@, t.alignments@)
                + "</tbody>\n</table>\n"@,
            Seq::empty(),
        ),
        Block::HtmlBlock(h) => (h.raw@ + "\n"@, Seq::empty()),
        Block::List(l) => {
            let tag = match l.kind {
                ListKind::Unordered => "ul"@,
                ListKind::Ordered => "ol"@,
            };
            let inner = items_html(l.items@);
            ("<"@ + tag + ">\n"@ + inner.0 + "</"@ + tag + ">\n"@, inner.1)
        },
        Block::HorizontalRule(_) => ("<hr>\n"@, Seq::empty()),
        Block::FootnoteDefinition(f) => (
            Seq::empty(),
            seq![(f.label@, segs_html(f.content.segments@))],
        ),
        _ => (Seq::empty(), Seq::empty()),
    }
}

/// A heading of level `n` is an `h<n>` element holding its text's HTML, a
/// paragraph a `p` element, a rule `<hr>`, a code block a `pre` element
/// around a `code` element holding its body escaped; none of them adds a
/// footnote.
pub proof fn lemma_block_html_shapes(b: Block)
    ensures
        b matches Block::Heading(h) ==> block_html(b).0.take(2) == "<h"@ && block_html(b).0.skip(
            block_html(b).0.len() - 5 - decimal(h.level as nat).len(),
        ) == "</h"@ + decimal(h.level as nat) + ">\n"@,
        b matches Block::Paragraph(p) ==> block_html(b).0 == "<p>"@ + segs_html(p.content.segments@)
            + "</p>\n"@,
        b is HorizontalRule ==> block_html(b).0 == "<hr>\n"@,
        b matches Block::CodeBlock(cb) ==> block_html(b).0.take(10) == "<pre><code"@ && block_html(
            b,
        ).0.skip(block_html(b).0.len() - 15 - escaped(cb.body@).len()) == ">"@ + escaped(cb.body@)
            + "</code></pre>\n"@,
        b is Heading || b is Paragraph || b is HorizontalRule || b is CodeBlock ==> block_html(
            b,
        ).1.len() == 0,
{
    reveal_strlit("<h");
    reveal_strlit("</h");
    reveal_strlit(">\n");
    reveal_strlit("<pre><code");
    reveal_strlit(">");
    reveal_strlit("</code></pre>\n");
    match b {
        Block::Heading(h) => {
            let x = block_html(b).0;
            let tail = "</h"@ + decimal(h.level as nat) + ">\n"@;
            assert(x.skip(x.len() - tail.len()) =~= tail);
            assert(x.take(2) =~= "<h"@);
        },
        Block::CodeBlock(cb) => {
            let x = block_html(b).0;
            let tail = ">"@ + escaped(cb.body@) + "</code></pre>\n"@;
            assert(x.skip(x.len() - tail.len()) =~= tail);
            assert(x.take(10) =~= "<pre><code"@);
        },
        _ => {},
    }
}

/// What rendering a sequence of blocks adds.
pub open spec fn blocks_html(bs: Seq<Block>) -> (Seq<char>, Seq<(Seq<char>, Seq<char>)>)
    decreases bs,
{
    if bs.len() == 0 {
        (Seq::empty(), Seq::empty())
    } else {
        let a = blocks_html(bs.drop_last());
        let b = block_html(bs.last());
        (a.0 + b.0, a.1 + b.1)
    }
}

/// Rendering two sequences of blocks one after the other gives the HTML and
/// the footnotes of the first, then those of the second.
pub proof fn lemma_blocks_html_concat(a: Seq<Block>, b: Seq<Block>)
    ensures
        blocks_html(a + b).0 == blocks_html(a).0 + blocks_html(b).0,
        blocks_html(a + b).1 == blocks_html(a).1 + blocks_html(b).1,
    decreases b.len(),
{
    if b.len() == 0 {
        assert(a + b =~= a);
        assert(blocks_html(a).0 + blocks_html(b).0 =~= blocks_html(a).0);
        assert(blocks_html(a).1 + blocks_html(b).1 =~= blocks_html(a).1);
    } else {
        lemma_blocks_html_concat(a, b.drop_last());
        assert((a + b).drop_last() =~= a + b.drop_last());
        assert((a + b).last() == b.last());
        let x = blocks_html(a);
        let y = blocks_html(b.drop_last());
        let z = block_html(b.last());
        assert(x.0 + y.0 + z.0 =~= x.0 + (y.0 + z.0));
        assert(x.1 + y.1 + z.1 =~= x.1 + (y.1 + z.1));
    }
}

/// A block that renders to nothing: a link definition, a comment or a
/// blank line.
pub open spec fn renders_nothing(b: Block) -> bool {
    ||| b is LinkDefinition
    ||| b is Comment
    ||| b is BlankLine
}

/// Link definitions, comments and blank lines render to nothing: taking one
/// out of a sequence of blocks changes neither the HTML nor the footnotes.
pub proof fn lemma_silent_block_renders_nothing(bs: Seq<Block>, i: int)
    requires
        0 <= i < bs.len(),
        renders_nothing(bs[i]),
    ensures
        blocks_html(bs.remove(i)) == blocks_html(bs),
{
    let pre = bs.take(i);
    let post = bs.skip(i + 1);
    let one = seq![bs[i]];
    assert(bs =~= pre + one + post);
    assert(bs.remove(i) =~= pre + post);
    lemma_blocks_html_concat(pre, one);
    lemma_blocks_html_concat(pre + one, post);
    lemma_blocks_html_concat(pre, post);
    assert(one.drop_last() =~= Seq::<Block>::empty());
    assert(one.last() == bs[i]);
    assert(blocks_html(Seq::<Block>::empty()).0 =~= Seq::<char>::empty());
    assert(block_html(bs[i]).0 =~= Seq::<char>::empty());
    assert(block_html(bs[i]).1 =~= Seq::<(Seq<char>, Seq<char>)>::empty());
    assert(blocks_html(one).0 =~= Seq::<char>::empty());
    assert(blocks_html(one).1 =~= Seq::<(Seq<char>, Seq<char>)>::empty());
    assert(blocks_html(pre + one).0 =~= blocks_html(pre).0);
    assert(blocks_html(pre + one).1 =~= blocks_html(pre).1);
}

/// The opening of a list item: `<li>`, its checkbox, its text and its
/// description.
pub open spec fn item_head(item: ListItem) -> Seq<char> {
    "<li>"@ + match item.checkbox {
        Some(Checkbox::Checked) => "<input type=\"checkbox\" checked disabled> "@,
        Some(Checkbox::Unchecked) => "<input type=\"checkbox\" disabled> "@,
        None => Seq::empty(),
    } + segs_html(item.content.segments@) + match item.description {
        Some(d) => "<dl><dd>"@ + segs_html(d.segments@) + "</dd></dl>"@,
        None => Seq::empty(),
    }
}

/// What rendering a list item adds.
pub open spec fn item_html(item: ListItem) -> (Seq<char>, Seq<(Seq<char>, Seq<char>)>)
    decreases item,
{
    let inner = blocks_html(item.children@);
    (item_head(item) + inner.0 + "</li>\n"@, inner.1)
}

/// What rendering a sequence of list items adds.
pub open spec fn items_html(items: Seq<ListItem>) -> (Seq<char>, Seq<(Seq<char>, Seq<char>)>)
    decreases items,
{
    if items.len() == 0 {
        (Seq::empty(), Seq::empty())
    } else {
        let a = items_html(items.drop_last());
        let b = item_html(items.last());
        (a.0 + b.0, a.1 + b.1)
    }
}

/// The alignment of column `i`: its entry, or none.
pub open spec fn column_alignment(aligns: Seq<Alignment>, i: int) -> Alignment {
    if 0 <= i < aligns.len() {
        aligns[i]
    } else {
        Alignment::Unspecified
    }
}

/// The HTML of the cells `cells[from..]` of a row, each in a `<tag>`
/// element with the alignment of its column.
pub open spec fn cells_html(
    cells: Seq<InlineContent>,
    aligns: Seq<Alignment>,
    from: int,
    tag: Seq<char>,
) -> Seq<char>
    decreases cells.len() - from,
{
    if from < 0 || from >= cells.len() {
        Seq::empty()
    } else {
        "<"@ + tag + alignment_style(column_alignment(aligns, from)) + ">"@ + segs_html(
            cells[from].segments@,
        ) + "</"@ + tag + ">\n"@ + cells_html(cells, aligns, from + 1, tag)
    }
}

/// The HTML of the body rows of a table.
pub open spec fn rows_html(rows: Seq<Vec<InlineContent>>, aligns: Seq<Alignment>) -> Seq<char>
    decreases rows.len(),
{
    if rows.len() == 0 {
        Seq::empty()
    } else {
        rows_html(rows.drop_last(), aligns) + "<tr>\n"@ + cells_html(
            rows.last()@,
            aligns,
            0,
            "td"@,
        ) + "</tr>\n"@
    }
}

fn push_cells(
    out: &mut Vec<char>,
    cells: &Vec<InlineContent>,
    aligns: &Vec<Alignment>,
    tag: &str,
)
    ensures
        final(out)@ == old(out)@ + cells_html(cells@, aligns@, 0, tag@),
{
    let ghost o = out@;
    let mut i: usize = 0;
    while i < cells.len()
        invariant
            i <= cells@.len(),
            out@ + cells_html(cells@, aligns@, i as int, tag@) == o + cells_html(
                cells@,
                aligns@,
                0,
                tag@,
            ),
        decreases cells@.len() - i,
    {
        let ghost before = out@;
        let a = if i < aligns.len() {
            aligns[i]
        } else {
            Alignment::Unspecified
        };
        append_str(out, "<");
        append_str(out, tag);
        push_alignment_style(out, a);
        append_str(out, ">");
        render_inline(out, &cells[i].segments);
        append_str(out, "</");
        append_str(out, tag);
        append_str(out, ">\n");
        assert(out@ =~= before + ("<"@ + tag@ + alignment_style(column_alignment(aligns@, i as int))
            + ">"@ + segs_html(cells@[i as int].segments@) + "</"@ + tag@ + ">\n"@));
        i += 1;
    }
    assert(out@ + cells_html(cells@, aligns@, i as int, tag@) =~= out@);
}

fn push_rows(out: &mut Vec<char>, rows: &Vec<Vec<InlineContent>>, aligns: &Vec<Alignment>)
    ensures
        final(out)@ == old(out)@ + rows_html(rows@, aligns@),
{
    let ghost o = out@;
    let mut i: usize = 0;
    while i < rows.len()
        invariant
            i <= rows@.len(),
            out@ == o + rows_html(rows@.take(i as int), aligns@),
        decreases rows@.len() - i,
    {
        assert(rows@.take(i + 1).drop_last() =~= rows@.take(i as int));
        let ghost before = out@;
        append_str(out, "<tr>\n");
        push_cells(out, &rows[i], aligns, "td");
        append_str(out, "</tr>\n");
        assert(out@ =~= o + rows_html(rows@.take(i + 1), aligns@));
        i += 1;
    }
    assert(rows@.take(rows@.len() as int) =~= rows@);
}

fn push_footnote(fns: &mut Vec<Footnote>, label: &String, html: Vec<char>)
    ensures
        footnote_views(final(fns)@) == footnote_views(old(fns)@).push((label@, html@)),
{
    let ghost f = footnote_views(fns@);
    fns.push(Footnote { label: label.clone(), html: string_of(&html) });
    assert(footnote_views(fns@) =~= f.push((label@, html@)));
}

/// Appends the HTML of a block, collecting its footnote definitions.
pub fn render_block(out: &mut Vec<char>, fns: &mut Vec<Footnote>, b: &Block)
    ensures
        final(out)@ == old(out)@ + block_html(*b).0,
        footnote_views(final(fns)@) == footnote_views(old(fns)@) + block_html(*b).1,
    decreases b, 1int,
{
    let ghost o = out@;
    let ghost f = footnote_views(fns@);
    match b {
        Block::Heading(h) => {
            let level = decimal_chars(h.level as u64);
            append_str(out, "<h");
            append_chars(out, &level);
            append_str(out, " id=\"");
            append_str(out, slug(h.content.plain_text().as_str()).as_str());
            append_str(out, "\">");
            render_inline(out, &h.content.segments);
            append_str(out, "</h");
            append_chars(out, &level);
            append_str(out, ">\n");
        },
        Block::Paragraph(p) => {
            append_str(out, "<p>");
            render_inline(out, &p.content.segments);
            append_str(out, "</p>\n");
        },
        Block::CodeBlock(cb) => {
            append_str(out, "<pre><code");
            match &cb.lang {
                Some(l) => {
                    append_str(out, " class=\"language-");
                    append_str(out, l.as_str());
                    append_str(out, "\"");
                },
                None => {},
            }
            append_str(out, ">");
            push_escaped(out, cb.body.as_str());
            append_str(out, "</code></pre>\n");
        },
        Block::BlockTag(t) => render_block_tag(out, t),
        Block::Callout(c) => {
            append_str(out, "<blockquote class=\"callout callout-");
            append_str(out, c.kind.as_str());
            append_str(out, "\">\n");
            append_str(out, "<p class=\"callout-title\">");
            append_str(out, capitalize(c.kind.as_str()).as_str());
            append_str(out, "</p>\n");
            render_blocks(out, fns, &c.content);
            append_str(out, "</blockquote>\n");
        },
        Block::Table(t) => {
            append_str(out, "<table>\n<thead>\n<tr>\n");
            push_cells(out, &t.headers, &t.alignments, "th");
            append_str(out, "</tr>\n</thead>\n<tbody>\n");
            push_rows(out, &t.rows, &t.alignments);
            append_str(out, "</tbody>\n</table>\n");
        },
        Block::HtmlBlock(h) => {
            append_str(out, h.raw.as_str());
            append_str(out, "\n");
        },
        Block::List(l) => {
            let tag = match l.kind {
                ListKind::Unordered => "ul",
                ListKind::Ordered => "ol",
            };
            append_str(out, "<");
            append_str(out, tag);
            append_str(out, ">\n");
            push_items(out, fns, &l.items);
            append_str(out, "</");
            append_str(out, tag);
            append_str(out, ">\n");
        },
        Block::HorizontalRule(_) => append_str(out, "<hr>\n"),
        Block::FootnoteDefinition(fd) => {
            let mut content: Vec<char> = Vec::new();
            render_inline(&mut content, &fd.content.segments);
            push_footnote(fns, &fd.label, content);
        },
        _ => {},
    }
    assert(out@ =~= o + block_html(*b).0);
    assert(footnote_views(fns@) =~= f + block_html(*b).1);
}

/// Appends the HTML of a sequence of blocks, collecting their footnote
/// definitions.
pub fn render_blocks(out: &mut Vec<char>, fns: &mut Vec<Footnote>, blocks: &Vec<Block>)
    ensures
        final(out)@ == old(out)@ + blocks_html(blocks@).0,
        footnote_views(final(fns)@) == footnote_views(old(fns)@) + blocks_html(blocks@).1,
    decreases blocks@, 0int,
{
    let ghost o = out@;
    let ghost f = footnote_views(fns@);
    let mut i: usize = 0;
    while i < blocks.len()
        invariant
            i <= blocks@.len(),
            out@ == o + blocks_html(blocks@.take(i as int)).0,
            footnote_views(fns@) == f + blocks_html(blocks@.take(i as int)).1,
        decreases blocks@.len() - i,
    {
        assert(blocks@.take(i + 1).drop_last() =~= blocks@.take(i as int));
        assert(decreases_to!(blocks@ => blocks@[i as int]));
        render_block(out, fns, &blocks[i]);
        assert(out@ =~= o + blocks_html(blocks@.take(i + 1)).0);
        assert(footnote_views(fns@) =~= f + blocks_html(blocks@.take(i + 1)).1);
        i += 1;
    }
    assert(blocks@.take(blocks@.len() as int) =~= blocks@);
}

fn push_items(out: &mut Vec<char>, fns: &mut Vec<Footnote>, items: &Vec<ListItem>)
    ensures
        final(out)@ == old(out)@ + items_html(items@).0,
        footnote_views(final(fns)@) == footnote_views(old(fns)@) + items_html(items@).1,
    decreases items@, 0int,
{
    let ghost o = out@;
    let ghost f = footnote_views(fns@);
    let mut i: usize = 0;
    while i < items.len()
        invariant
            i <= items@.len(),
            out@ == o + items_html(items@.take(i as int)).0,
            footnote_views(fns@) == f + items_html(items@.take(i as int)).1,
        decreases items@.len() - i,
    {
        assert(items@.take(i + 1).drop_last() =~= items@.take(i as int));
        assert(decreases_to!(items@ => items@[i as int]));
        render_list_item(out, fns, &items[i]);
        assert(out@ =~= o + items_html(items@.take(i + 1)).0);
        assert(footnote_views(fns@) =~= f + items_html(items@.take(i + 1)).1);
        i += 1;
    }
    assert(items@.take(items@.len() as int) =~= items@);
}

fn render_list_item(out: &mut Vec<char>, fns: &mut Vec<Footnote>, item: &ListItem)
    ensures
        final(out)@ == old(out)@ + item_html(*item).0,
        footnote_views(final(fns)@) == footnote_views(old(fns)@) + item_html(*item).1,
    decreases item, 1int,
{
    let ghost o = out@;
    let ghost f = footnote_views(fns@);
    append_str(out, "<li>");
    match &item.checkbox {
        Some(Checkbox::Checked) => append_str(out, "<input type=\"checkbox\" checked disabled> "),
        Some(Checkbox::Unchecked) => append_str(out, "<input type=\"checkbox\" disabled> "),
        None => {},
    }
    render_inline(out, &item.content.segments);
    match &item.description {
        Some(d) => {
            append_str(out, "<dl><dd>");
            render_inline(out, &d.segments);
            append_str(out, "</dd></dl>");
        },
        None => {},
    }
    assert(out@ =~= o + item_head(*item));
    let ghost mid = out@;
    render_blocks(out, fns, &item.children);
    append_str(out, "</li>\n");
    assert(out@ =~= mid + blocks_html(item.children@).0 + "</li>\n"@);
    assert(out@ =~= o + item_html(*item).0);
    assert(footnote_views(fns@) =~= f + item_html(*item).1);
}

/// The footnotes section: one list entry per footnote, linking back to its
/// reference.
pub open spec fn footnotes_html(f: Seq<(Seq<char>, Seq<char>)>) -> Seq<char>
    decreases f.len(),
{
    if f.len() == 0 {
        Seq::empty()
    } else {
        footnotes_html(f.drop_last()) + "<li id=\"fn-"@ + f.last().0 + "\"><p>"@ + f.last().1
            + " <a href=\"#fnref-"@ + f.last().0 + "\">\u{21a9}</a></p></li>\n"@
    }
}

/// The HTML of a document: its blocks, then a footnotes section when it
/// defines footnotes.
pub open spec fn document_html(blocks: Seq<Block>) -> Seq<char> {
    let r = blocks_html(blocks);
    r.0 + if r.1.len() == 0 {
        Seq::<char>::empty()
    } else {
        "<section class=\"footnotes\">\n<hr>\n<ol>\n"@ + footnotes_html(r.1) + "</ol>\n</section>\n"@
    }
}

/// A document's HTML does not change when a link definition, a comment or a
/// blank line is put among its blocks, wherever it goes.
pub proof fn lemma_silent_block_leaves_document(bs: Seq<Block>, i: int, b: Block)
    requires
        0 <= i <= bs.len(),
        renders_nothing(b),
    ensures
        document_html(bs.insert(i, b)) == document_html(bs),
{
    let bs2 = bs.insert(i, b);
    assert(bs2[i] == b);
    assert(bs2.remove(i) =~= bs);
    lemma_silent_block_renders_nothing(bs2, i);
}

/// Renders a document as an HTML fragment.
pub fn render_document(doc: &crate::ast::Document) -> (html: String)
    ensures
        html@ == document_html(doc.children@),
{
    let mut out: Vec<char> = Vec::new();
    let mut fns: Vec<Footnote> = Vec::new();
    render_blocks(&mut out, &mut fns, &doc.children);
    let ghost fv = footnote_views(fns@);
    assert(fv =~= blocks_html(doc.children@).1);
    if fns.len() > 0 {
        append_str(&mut out, "<section class=\"footnotes\">\n<hr>\n<ol>\n");
        let ghost o = out@;
        let mut i: usize = 0;
        while i < fns.len()
            invariant
                i <= fns@.len(),
                fv == footnote_views(fns@),
                out@ == o + footnotes_html(fv.take(i as int)),
            decreases fns@.len() - i,
        {
            assert(fv.take(i + 1).drop_last() =~= fv.take(i as int));
            let ghost before = out@;
            append_str(&mut out, "<li id=\"fn-");
            append_str(&mut out, fns[i].label.as_str());
            append_str(&mut out, "\"><p>");
            append_str(&mut out, fns[i].html.as_str());
            append_str(&mut out, " <a href=\"#fnref-");
            append_str(&mut out, fns[i].label.as_str());
            append_str(&mut out, "\">\u{21a9}</a></p></li>\n");
            assert(out@ =~= o + footnotes_html(fv.take(i + 1)));
            i += 1;
        }
        assert(fv.take(fns@.len() as int) =~= fv);
        append_str(&mut out, "</ol>\n</section>\n");
    }
    string_of(&out)
}

fn push_footnotes(out: &mut Vec<char>, fns: &Vec<Footnote>)
    ensures
        final(out)@ == old(out)@ + if fns@.len() == 0 {
            Seq::<char>::empty()
        } else {
            "<section class=\"footnotes\">\n<hr>\n<ol>\n"@ + footnotes_html(footnote_views(fns@))
                + "</ol>\n</section>\n"@
        },
{
    let ghost o0 = out@;
    let ghost fv = footnote_views(fns@);
    if fns.len() > 0 {
        append_str(out, "<section class=\"footnotes\">\n<hr>\n<ol>\n");
        let ghost o = out@;
        let mut i: usize = 0;
        while i < fns.len()
            invariant
                i <= fns@.len(),
                fv == footnote_views(fns@),
                out@ == o + footnotes_html(fv.take(i as int)),
            decreases fns@.len() - i,
        {
            assert(fv.take(i + 1).drop_last() =~= fv.take(i as int));
            append_str(out, "<li id=\"fn-");
            append_str(out, fns[i].label.as_str());
            append_str(out, "\"><p>");
            append_str(out, fns[i].html.as_str());
            append_str(out, " <a href=\"#fnref-");
            append_str(out, fns[i].label.as_str());
            append_str(out, "\">\u{21a9}</a></p></li>\n");
            assert(out@ =~= o + footnotes_html(fv.take(i + 1)));
            i += 1;
        }
        assert(fv.take(fns@.len() as int) =~= fv);
        append_str(out, "</ol>\n</section>\n");
        assert(out@ =~= o0 + "<section class=\"footnotes\">\n<hr>\n<ol>\n"@ + footnotes_html(fv)
            + "</ol>\n</section>\n"@);
    } else {
        assert(out@ =~= o0 + Seq::<char>::empty());
    }
}

/// The blocks of several documents rendered one after the other, with the
/// footnotes of all of them.
pub open spec fn docs_html(ds: Seq<Seq<Block>>) -> (Seq<char>, Seq<(Seq<char>, Seq<char>)>)
    decreases ds.len(),
{
    if ds.len() == 0 {
        (Seq::empty(), Seq::empty())
    } else {
        let a = docs_html(ds.drop_last());
        let b = blocks_html(ds.last());
        (a.0 + b.0, a.1 + b.1)
    }
}

/// The HTML of several documents: their blocks in order, then one
/// footnotes section for all of them.
pub open spec fn export_html(ds: Seq<Seq<Block>>) -> Seq<char> {
    let r = docs_html(ds);
    r.0 + if r.1.len() == 0 {
        Seq::<char>::empty()
    } else {
        "<section class=\"footnotes\">\n<hr>\n<ol>\n"@ + footnotes_html(r.1) + "</ol>\n</section>\n"@
    }
}

/// Renders several documents as one HTML fragment (see [`export_html`]).
pub fn render_documents(docs: &Vec<&crate::ast::Document>) -> (html: String)
    ensures
        html@ == export_html(docs@.map_values(|d: &crate::ast::Document| d.children@)),
{
    let ghost ds = docs@.map_values(|d: &crate::ast::Document| d.children@);
    let mut out: Vec<char> = Vec::new();
    let mut fns: Vec<Footnote> = Vec::new();
    let mut i: usize = 0;
    while i < docs.len()
        invariant
            i <= docs@.len(),
            ds == docs@.map_values(|d: &crate::ast::Document| d.children@),
            out@ == docs_html(ds.take(i as int)).0,
            footnote_views(fns@) == docs_html(ds.take(i as int)).1,
        decreases docs@.len() - i,
    {
        assert(ds.take(i + 1).drop_last() =~= ds.take(i as int));
        render_blocks(&mut out, &mut fns, &docs[i].children);
        i += 1;
    }
    assert(ds.take(docs@.len() as int) =~= ds);
    push_footnotes(&mut out, &fns);
    string_of(&out)
}

/// The style sheet of a standalone page.
pub const CSS: &'static str = "
body { max-width: 48em; margin: 2em auto; padding: 0 1em; font-family: system-ui, sans-serif; line-height: 1.6; color: #222; }
h1, h2, h3, h4, h5, h6 { margin-top: 1.5em; }
pre { background: #f5f5f5; padding: 1em; overflow-x: auto; border-radius: 4px; }
code { font-size: 0.9em; }
p code { background: #f0f0f0; padding: 0.15em 0.3em; border-radius: 3px; }
blockquote { border-left: 4px solid #ddd; margin: 1em 0; padding: 0.5em 1em; }
blockquote.callout { border-radius: 4px; }
blockquote.callout-note { border-left-color: #4a9eff; background: #f0f7ff; }
blockquote.callout-warning { border-left-color: #f5a623; background: #fff8f0; }
blockquote.callout-tip { border-left-color: #2ecc71; background: #f0fff5; }
blockquote.callout-danger { border-left-color: #e74c3c; background: #fff0f0; }
.callout-title { font-weight: bold; margin: 0 0 0.5em; }
table { border-collapse: collapse; width: 100%; margin: 1em 0; }
th, td { border: 1px solid #ddd; padding: 0.5em; }
th { background: #f5f5f5; }
.tag { display: inline-block; padding: 0.1em 0.4em; border-radius: 3px; font-size: 0.85em; font-weight: bold; }
.tag-todo { background: #fff3cd; color: #856404; }
.tag-done { background: #d4edda; color: #155724; }
.tag-deadline { background: #f8d7da; color: #721c24; }
.tag-scheduled { background: #cce5ff; color: #004085; }
.tag-priority-a { background: #f8d7da; color: #721c24; }
.tag-priority-b { background: #fff3cd; color: #856404; }
.tag-priority-c { background: #d4edda; color: #155724; }
.tag-archive { background: #e2e3e5; color: #383d41; }
.planning { color: #666; font-size: 0.9em; }
.footnotes { font-size: 0.9em; color: #555; }
li { margin: 0.25em 0; }
input[type=\"checkbox\"] { margin-right: 0.5em; }
hr { border: none; border-top: 1px solid #ddd; margin: 2em 0; }
del { color: #888; }
";

/// A standalone HTML page around a fragment: the title in the head, the
/// style sheet, the fragment in an `article`.
pub open spec fn page_html(title: Seq<char>, body: Seq<char>) -> Seq<char> {
    "<!DOCTYPE html>\n<html lang=\"en\">\n<head>\n<meta charset=\"utf-8\">\n<meta name=\"viewport\" content=\"width=device-width, initial-scale=1\">\n<title>"@
        + title + "</title>\n<style>\n"@ + CSS@ + "\n</style>\n</head>\n<body>\n<article>\n"@ + body
        + "</article>\n</body>\n</html>\n"@
}

/// Wraps a fragment in a standalone page (see [`page_html`]).
pub fn standalone_page(title: &str, body: &str) -> (r: String)
    ensures
        r@ == page_html(title@, body@),
{
    let mut out: Vec<char> = Vec::new();
    append_str(&mut out, "<!DOCTYPE html>\n<html lang=\"en\">\n<head>\n<meta charset=\"utf-8\">\n<meta name=\"viewport\" content=\"width=device-width, initial-scale=1\">\n<title>");
    append_str(&mut out, title);
    append_str(&mut out, "</title>\n<style>\n");
    append_str(&mut out, CSS);
    append_str(&mut out, "\n</style>\n</head>\n<body>\n<article>\n");
    append_str(&mut out, body);
    append_str(&mut out, "</article>\n</body>\n</html>\n");
    string_of(&out)
}

} // verus!
