//! Column view: one row per heading, with chosen columns.

use vstd::prelude::*;

use crate::ast::{segs_tags, segs_text, Block, Heading};
use crate::export::{priority_text, timestamp_text};
use crate::report::{duration_text, format_duration_minutes, format_location};
use crate::tags::{Tag, TagKind};
use crate::text::{
    append_chars, byte_len, chars_of, decimal, same, string_of, to_upper, trim, trimmed, uppercase,
    utf8_len,
};
use crate::words::{split_char, split_on, views};

verus! {

/// The first tag of `ts` that `f` picks a value from.
pub open spec fn first_value(ts: Seq<Tag>, f: spec_fn(Tag) -> Option<Seq<char>>) -> Option<
    Seq<char>,
>
    decreases ts.len(),
{
    if ts.len() == 0 {
        None
    } else {
        match f(ts[0]) {
            Some(v) => Some(v),
            None => first_value(ts.drop_first(), f),
        }
    }
}

/// `TODO` or `DONE` for a todo state tag.
pub open spec fn todo_value(t: Tag) -> Option<Seq<char>> {
    match t.kind {
        TagKind::Todo { .. } => Some("TODO"@),
        TagKind::Done { .. } => Some("DONE"@),
        _ => None,
    }
}

/// The letter of a priority tag.
pub open spec fn priority_value(t: Tag) -> Option<Seq<char>> {
    match t.kind {
        TagKind::Priority { level } => Some(priority_text(level)),
        _ => None,
    }
}

/// The duration of an effort tag.
pub open spec fn effort_value(t: Tag) -> Option<Seq<char>> {
    match t.kind {
        TagKind::Effort { minutes } => Some(duration_text(minutes as nat)),
        _ => None,
    }
}

/// The date of a deadline tag.
pub open spec fn deadline_value(t: Tag) -> Option<Seq<char>> {
    match t.kind {
        TagKind::Deadline { date, .. } => Some(timestamp_text(date)),
        _ => None,
    }
}

/// The date of a scheduled tag.
pub open spec fn scheduled_value(t: Tag) -> Option<Seq<char>> {
    match t.kind {
        TagKind::Scheduled { date, .. } => Some(timestamp_text(date)),
        _ => None,
    }
}

/// The value of a heading's property, if it has a property drawer with
/// that key.
pub open spec fn property_value(h: Heading, key: Seq<char>) -> Option<Seq<char>> {
    match h.properties {
        Some(d) => if d.entries.to_map().contains_key(key) {
            Some(d.entries.to_map()[key]@)
        } else {
            None
        },
        None => None,
    }
}

/// A value, or the empty text.
pub open spec fn or_empty(v: Option<Seq<char>>) -> Seq<char> {
    match v {
        Some(x) => x,
        None => Seq::empty(),
    }
}

/// The value of column `col` for a heading: `item` (its text), `todo`,
/// `priority`, `effort`, `deadline`, `scheduled` (from its tags, the
/// first two falling back on its properties), `location`, or any property.
pub open spec fn column_value(h: Heading, file: Seq<char>, col: Seq<char>) -> Seq<char> {
    let ts = segs_tags(h.content.segments@);
    if col == "item"@ {
        trim(segs_text(h.content.segments@))
    } else if col == "todo"@ {
        or_empty(first_value(ts, |t: Tag| todo_value(t)))
    } else if col == "priority"@ {
        match first_value(ts, |t: Tag| priority_value(t)) {
            Some(v) => v,
            None => or_empty(property_value(h, "priority"@)),
        }
    } else if col == "effort"@ {
        match first_value(ts, |t: Tag| effort_value(t)) {
            Some(v) => v,
            None => or_empty(property_value(h, "effort"@)),
        }
    } else if col == "deadline"@ {
        or_empty(first_value(ts, |t: Tag| deadline_value(t)))
    } else if col == "scheduled"@ {
        or_empty(first_value(ts, |t: Tag| scheduled_value(t)))
    } else if col == "location"@ {
        file + ":"@ + decimal(h.span.line as nat)
    } else {
        or_empty(property_value(h, col))
    }
}

fn prop_or_empty(h: &Heading, key: &str) -> (r: String)
    ensures
        r@ == or_empty(property_value(*h, key@)),
{
    match &h.properties {
        Some(d) => match d.entries.get(key) {
            Some(v) => v.clone(),
            None => String::new(),
        },
        None => String::new(),
    }
}

/// The value of one column for a heading.
pub fn extract_column(h: &Heading, file: &str, col: &str) -> (r: String)
    ensures
        r@ == column_value(*h, file@, col@),
{
    proof {
        reveal_strlit("item");
        reveal_strlit("todo");
        reveal_strlit("priority");
        reveal_strlit("effort");
        reveal_strlit("deadline");
        reveal_strlit("scheduled");
        reveal_strlit("location");
    }
    let tags = h.content.tags();
    let ghost ts = segs_tags(h.content.segments@);
    let c = chars_of(col);
    // 0 todo, 1 priority, 2 effort, 3 deadline, 4 scheduled
    let which: u8 = if same(&c, &chars_of("todo")) {
        0
    } else if same(&c, &chars_of("priority")) {
        1
    } else if same(&c, &chars_of("effort")) {
        2
    } else if same(&c, &chars_of("deadline")) {
        3
    } else if same(&c, &chars_of("scheduled")) {
        4
    } else {
        5
    };
    if same(&c, &chars_of("item")) {
        return h.content.plain_text();
    }
    if same(&c, &chars_of("location")) {
        assert(col@ == "location"@);
        assert(col@[0] == 'l' && "deadline"@[0] == 'd' && "scheduled"@[0] == 's');
        assert(col@ != "item"@ && col@ != "todo"@ && col@ != "priority"@ && col@ != "effort"@
            && col@ != "deadline"@ && col@ != "scheduled"@);
        let r = format_location(file, &h.span);
        assert(r@ == column_value(*h, file@, col@));
        return r;
    }
    if which == 5 {
        return prop_or_empty(h, col);
    }
    let ghost f: spec_fn(Tag) -> Option<Seq<char>> = if which == 0 {
        |t: Tag| todo_value(t)
    } else if which == 1 {
        |t: Tag| priority_value(t)
    } else if which == 2 {
        |t: Tag| effort_value(t)
    } else if which == 3 {
        |t: Tag| deadline_value(t)
    } else {
        |t: Tag| scheduled_value(t)
    };
    let ghost fallback = if which == 1 {
        or_empty(property_value(*h, "priority"@))
    } else if which == 2 {
        or_empty(property_value(*h, "effort"@))
    } else {
        Seq::<char>::empty()
    };
    assert(column_value(*h, file@, col@) == match first_value(ts, f) {
        Some(v) => v,
        None => fallback,
    });
    let mut i: usize = 0;
    assert(ts.skip(0) =~= ts);
    while i < tags.len()
        invariant
            column_value(*h, file@, col@) == match first_value(ts, f) {
                Some(v) => v,
                None => fallback,
            },
            fallback == (if which == 1 {
                or_empty(property_value(*h, "priority"@))
            } else if which == 2 {
                or_empty(property_value(*h, "effort"@))
            } else {
                Seq::<char>::empty()
            }),
            i <= tags@.len(),
            tags@.len() == ts.len(),
            forall|k: int| 0 <= k < tags@.len() ==> *(#[trigger] tags@[k]) == ts[k],
            first_value(ts.skip(i as int), f) == first_value(ts, f),
            which < 5,
            f == (if which == 0 {
                |t: Tag| todo_value(t)
            } else if which == 1 {
                |t: Tag| priority_value(t)
            } else if which == 2 {
                |t: Tag| effort_value(t)
            } else if which == 3 {
                |t: Tag| deadline_value(t)
            } else {
                |t: Tag| scheduled_value(t)
            }),
        decreases tags@.len() - i,
    {
        let t = tags[i];
        assert(ts.skip(i as int)[0] == *t);
        assert(ts.skip(i as int).drop_first() =~= ts.skip(i + 1));
        let v: Option<String> = match &t.kind {
            TagKind::Todo { .. } => if which == 0 {
                Some(string_of(&chars_of("TODO")))
            } else {
                None
            },
            TagKind::Done { .. } => if which == 0 {
                Some(string_of(&chars_of("DONE")))
            } else {
                None
            },
            TagKind::Priority { level } => if which == 1 {
                Some(string_of(&crate::export::priority_chars(level)))
            } else {
                None
            },
            TagKind::Effort { minutes } => if which == 2 {
                Some(format_duration_minutes(*minutes))
            } else {
                None
            },
            TagKind::Deadline { date, .. } => if which == 3 {
                let mut out: Vec<char> = Vec::new();
                crate::export::push_timestamp(&mut out, date);
                Some(string_of(&out))
            } else {
                None
            },
            TagKind::Scheduled { date, .. } => if which == 4 {
                let mut out: Vec<char> = Vec::new();
                crate::export::push_timestamp(&mut out, date);
                Some(string_of(&out))
            } else {
                None
            },
            _ => None,
        };
        assert(match v {
            Some(x) => f(*t) == Some(x@),
            None => f(*t) is None,
        });
        match v {
            Some(x) => {
                return x;
            },
            None => {},
        }
        i += 1;
    }
    assert(ts.skip(tags@.len() as int) =~= Seq::<Tag>::empty());
    if which == 1 {
        prop_or_empty(h, "priority")
    } else if which == 2 {
        prop_or_empty(h, "effort")
    } else {
        String::new()
    }
}

/// Whether one of the tags is `#archive`.
fn is_archived_heading(h: &Heading) -> (b: bool)
    ensures
        b == exists|i: int|
            0 <= i < segs_tags(h.content.segments@).len() && segs_tags(
                h.content.segments@,
            )[i].kind is Archive,
{
    let tags = h.content.tags();
    let mut i: usize = 0;
    while i < tags.len()
        invariant
            i <= tags@.len(),
            tags@.len() == segs_tags(h.content.segments@).len(),
            forall|k: int|
                0 <= k < tags@.len() ==> *(#[trigger] tags@[k]) == segs_tags(
                    h.content.segments@,
                )[k],
            forall|k: int| 0 <= k < i ==> !(segs_tags(h.content.segments@)[k].kind is Archive),
        decreases tags@.len() - i,
    {
        match tags[i].kind {
            TagKind::Archive => {
                return true;
            },
            _ => {},
        }
        i += 1;
    }
    false
}

/// The row of a heading: one value per column.
pub open spec fn heading_row(h: Heading, file: Seq<char>, cols: Seq<Seq<char>>) -> Seq<Seq<char>> {
    cols.map_values(|c: Seq<char>| column_value(h, file, c))
}

/// The rows of the top-level headings of `blocks` that are not archived
/// and have a value in some column after the first.
pub open spec fn heading_rows(bs: Seq<Block>, file: Seq<char>, cols: Seq<Seq<char>>) -> Seq<
    Seq<Seq<char>>,
>
    decreases bs.len(),
{
    if bs.len() == 0 {
        Seq::empty()
    } else {
        let rest = heading_rows(bs.drop_last(), file, cols);
        match bs.last() {
            Block::Heading(h) => {
                let row = heading_row(h, file, cols);
                let archived = exists|i: int|
                    0 <= i < segs_tags(h.content.segments@).len() && segs_tags(
                        h.content.segments@,
                    )[i].kind is Archive;
                if !archived && exists|k: int| 1 <= k < row.len() && row[k].len() > 0 {
                    rest.push(row)
                } else {
                    rest
                }
            },
            _ => rest,
        }
    }
}

/// The views of a table of strings.
pub open spec fn rows_view(rows: Seq<Vec<String>>) -> Seq<Seq<Seq<char>>> {
    rows.map_values(|r: Vec<String>| r@.map_values(|s: String| s@))
}

/// Adds the rows of the headings among `blocks` to `rows`.
pub fn collect_heading_rows(
    blocks: &Vec<Block>,
    file: &str,
    columns: &Vec<String>,
    rows: &mut Vec<Vec<String>>,
)
    ensures
        rows_view(final(rows)@) == rows_view(old(rows)@) + heading_rows(
            blocks@,
            file@,
            columns@.map_values(|s: String| s@),
        ),
{
    let ghost cols = columns@.map_values(|s: String| s@);
    let ghost r0 = rows_view(rows@);
    let mut i: usize = 0;
    while i < blocks.len()
        invariant
            i <= blocks@.len(),
            cols == columns@.map_values(|s: String| s@),
            rows_view(rows@) == r0 + heading_rows(blocks@.take(i as int), file@, cols),
        decreases blocks@.len() - i,
    {
        assert(blocks@.take(i + 1).drop_last() =~= blocks@.take(i as int));
        let ghost before = rows_view(rows@);
        match &blocks[i] {
            Block::Heading(h) => {
                if !is_archived_heading(h) {
                    let mut row: Vec<String> = Vec::new();
                    let mut k: usize = 0;
                    while k < columns.len()
                        invariant
                            k <= columns@.len(),
                            cols == columns@.map_values(|s: String| s@),
                            row@.map_values(|s: String| s@) =~= heading_row(*h, file@, cols).take(
                                k as int,
                            ),
                        decreases columns@.len() - k,
                    {
                        let v = extract_column(h, file, columns[k].as_str());
                        let ghost o = row@.map_values(|s: String| s@);
                        row.push(v);
                        assert(row@.map_values(|s: String| s@) =~= o.push(v@));
                        assert(cols[k as int] == columns@[k as int]@);
                        assert(heading_row(*h, file@, cols).take(k + 1) =~= heading_row(
                            *h,
                            file@,
                            cols,
                        ).take(k as int).push(column_value(*h, file@, cols[k as int])));
                        k += 1;
                    }
                    let ghost rv = heading_row(*h, file@, cols);
                    assert(rv.take(columns@.len() as int) =~= rv);
                    let mut has_data = false;
                    let mut m: usize = 1;
                    while m < row.len()
                        invariant
                            1 <= m,
                            row@.map_values(|s: String| s@) == rv,
                            has_data == exists|q: int| 1 <= q < m && q < rv.len() && rv[q].len() > 0,
                        decreases row@.len() - m,
                    {
                        assert(row@.map_values(|s: String| s@)[m as int] == row@[m as int]@);
                        if chars_of(row[m].as_str()).len() > 0 {
                            has_data = true;
                        }
                        m += 1;
                    }
                    if has_data {
                        rows.push(row);
                        assert(rows_view(rows@) =~= before.push(rv));
                    }
                }
            },
            _ => {},
        }
        assert(rows_view(rows@) =~= r0 + heading_rows(blocks@.take(i + 1), file@, cols));
        i += 1;
    }
    assert(blocks@.take(blocks@.len() as int) =~= blocks@);
}

/// The column names of a comma-separated list, each trimmed.
pub open spec fn column_names(s: Seq<char>) -> Seq<Seq<char>> {
    split_on(s, ',').map_values(|c: Seq<char>| trim(c))
}

/// Splits a comma-separated list of column names (see [`column_names`]).
pub fn parse_columns(s: &str) -> (r: Vec<String>)
    ensures
        r@.map_values(|c: String| c@) == column_names(s@),
{
    let parts = split_char(&chars_of(s), ',');
    let ghost ps = views(parts@);
    let mut out: Vec<String> = Vec::new();
    let mut i: usize = 0;
    while i < parts.len()
        invariant
            i <= parts@.len(),
            ps == views(parts@),
            ps == split_on(s@, ','),
            out@.map_values(|c: String| c@) == ps.take(i as int).map_values(|c: Seq<char>| trim(c)),
        decreases parts@.len() - i,
    {
        let t = string_of(&trimmed(&parts[i]));
        let ghost before = out@.map_values(|c: String| c@);
        out.push(t);
        assert(out@.map_values(|c: String| c@) =~= before.push(trim(ps[i as int])));
        assert(ps.take(i + 1).map_values(|c: Seq<char>| trim(c)) =~= ps.take(i as int).map_values(
            |c: Seq<char>| trim(c),
        ).push(trim(ps[i as int])));
        i += 1;
    }
    assert(ps.take(parts@.len() as int) =~= ps);
    out
}

/// The byte length of a text, as the table measures it (saturating at
/// `usize::MAX`).
pub open spec fn text_len(s: Seq<char>) -> nat {
    if utf8_len(s) <= usize::MAX {
        utf8_len(s)
    } else {
        usize::MAX as nat
    }
}

/// Cell `i` of a row, empty when the row is shorter.
pub open spec fn cell(row: Seq<Seq<char>>, i: int) -> Seq<char> {
    if 0 <= i < row.len() {
        row[i]
    } else {
        Seq::empty()
    }
}

/// The longest cell `i` of the rows, in bytes.
pub open spec fn widest_cell(rows: Seq<Seq<Seq<char>>>, i: int) -> nat
    decreases rows.len(),
{
    if rows.len() == 0 {
        0
    } else {
        let a = widest_cell(rows.drop_last(), i);
        let b = text_len(cell(rows.last(), i));
        if a < b {
            b
        } else {
            a
        }
    }
}

/// The width of column `i`: its name, its widest cell, and at least 4.
pub open spec fn column_width(name: Seq<char>, rows: Seq<Seq<Seq<char>>>, i: int) -> nat {
    let w = if text_len(name) < widest_cell(rows, i) {
        widest_cell(rows, i)
    } else {
        text_len(name)
    };
    if w < 4 {
        4
    } else {
        w
    }
}

/// `s` padded with spaces to `w` characters.
pub open spec fn pad_to(s: Seq<char>, w: nat) -> Seq<char> {
    if s.len() >= w {
        s
    } else {
        s + Seq::new((w - s.len()) as nat, |k: int| ' ')
    }
}

/// Pieces joined with a separator text.
pub open spec fn joined_by(ps: Seq<Seq<char>>, sep: Seq<char>) -> Seq<char>
    decreases ps.len(),
{
    if ps.len() == 0 {
        Seq::empty()
    } else if ps.len() == 1 {
        ps[0]
    } else {
        joined_by(ps.drop_last(), sep) + sep + ps.last()
    }
}

/// The widths of the columns.
pub open spec fn widths(names: Seq<Seq<char>>, rows: Seq<Seq<Seq<char>>>) -> Seq<nat> {
    Seq::new(names.len(), |i: int| column_width(names[i], rows, i))
}

/// A table line: the cells, each padded to its column's width, between
/// `| ` and ` |` and separated by ` | `.
pub open spec fn row_line(row: Seq<Seq<char>>, ws: Seq<nat>) -> Seq<char> {
    "| "@ + joined_by(Seq::new(ws.len(), |i: int| pad_to(cell(row, i), ws[i])), " | "@) + " |"@
}

/// The lines of the column table: the header (names in upper case), the
/// separator, then one line per row; every cell padded to its column's
/// width.
pub open spec fn table_lines(names: Seq<Seq<char>>, rows: Seq<Seq<Seq<char>>>) -> Seq<Seq<char>> {
    let ws = widths(names, rows);
    let header = "| "@ + joined_by(
        Seq::new(names.len(), |i: int| pad_to(uppercase(names[i]), ws[i])),
        " | "@,
    ) + " |"@;
    let sep = "|-"@ + joined_by(
        Seq::new(names.len(), |i: int| Seq::new(ws[i], |k: int| '-')),
        "-|-"@,
    ) + "-|"@;
    seq![header, sep] + rows.map_values(|row: Seq<Seq<char>>| row_line(row, ws))
}

fn widest(rows: &Vec<Vec<String>>, i: usize) -> (w: usize)
    ensures
        w == widest_cell(rows_view(rows@), i as int),
{
    let ghost rv = rows_view(rows@);
    let mut w: usize = 0;
    let mut r: usize = 0;
    while r < rows.len()
        invariant
            r <= rows@.len(),
            rv == rows_view(rows@),
            rv.len() == rows@.len(),
            w == widest_cell(rv.take(r as int), i as int),
        decreases rows@.len() - r,
    {
        assert(rv.take(r + 1).drop_last() =~= rv.take(r as int));
        assert(rv[r as int] == rows@[r as int]@.map_values(|s: String| s@));
        let n = if i < rows[r].len() {
            byte_len(&chars_of(rows[r][i].as_str()))
        } else {
            0
        };
        assert(n == text_len(cell(rv[r as int], i as int)));
        if w < n {
            w = n;
        }
        r += 1;
    }
    assert(rv.take(rows@.len() as int) =~= rv);
    w
}

fn push_padded_text(out: &mut Vec<char>, s: &[char], w: usize)
    ensures
        final(out)@ == old(out)@ + pad_to(s@, w as nat),
{
    let ghost o = out@;
    append_chars(out, s);
    let mut k = s.len();
    while k < w
        invariant
            s@.len() <= k <= w || (k == s@.len() && k >= w),
            out@ == o + s@ + Seq::new((k - s@.len()) as nat, |j: int| ' '),
        decreases w - k,
    {
        out.push(' ');
        assert(out@ =~= o + s@ + Seq::new((k + 1 - s@.len()) as nat, |j: int| ' '));
        k += 1;
    }
    if s.len() >= w {
        assert(out@ =~= o + pad_to(s@, w as nat));
    } else {
        assert(out@ =~= o + pad_to(s@, w as nat));
    }
}

/// The lines of the column table (see [`table_lines`]).
pub fn render_table(columns: &Vec<String>, rows: &Vec<Vec<String>>) -> (r: Vec<String>)
    ensures
        r@.map_values(|l: String| l@) == table_lines(columns@.map_values(|c: String| c@), rows_view(rows@)),
{
    let ghost names = columns@.map_values(|c: String| c@);
    let ghost rv = rows_view(rows@);
    let ghost wsv = widths(names, rv);
    let mut ws: Vec<usize> = Vec::new();
    let mut i: usize = 0;
    while i < columns.len()
        invariant
            i <= columns@.len(),
            names == columns@.map_values(|c: String| c@),
            rv == rows_view(rows@),
            wsv == widths(names, rv),
            ws@.len() == i,
            forall|k: int| 0 <= k < i ==> ws@[k] as nat == #[trigger] wsv[k],
        decreases columns@.len() - i,
    {
        let a = byte_len(&chars_of(columns[i].as_str()));
        let b = widest(rows, i);
        let mut w = if a < b {
            b
        } else {
            a
        };
        if w < 4 {
            w = 4;
        }
        ws.push(w);
        assert(ws@[i as int] as nat == wsv[i as int]);
        i += 1;
    }
    proof {
        reveal_strlit("| ");
        reveal_strlit(" | ");
        reveal_strlit(" |");
        reveal_strlit("|-");
        reveal_strlit("-|-");
        reveal_strlit("-|");
    }
    let ghost lines = table_lines(names, rv);
    let mut out: Vec<String> = Vec::new();
    // header
    let ghost hcells = Seq::new(names.len(), |i: int| pad_to(uppercase(names[i]), wsv[i]));
    let mut line = chars_of("| ");
    let mut k: usize = 0;
    while k < columns.len()
        invariant
            k <= columns@.len(),
            names == columns@.map_values(|c: String| c@),
            ws@.len() == columns@.len(),
            forall|j: int| 0 <= j < ws@.len() ==> ws@[j] as nat == #[trigger] wsv[j],
            wsv.len() == names.len(),
            hcells == Seq::new(names.len(), |i: int| pad_to(uppercase(names[i]), wsv[i])),
            line@ == "| "@ + joined_by(hcells.take(k as int), " | "@),
        decreases columns@.len() - k,
    {
        if k > 0 {
            append_chars(&mut line, &chars_of(" | "));
        }
        let up = to_upper(&chars_of(columns[k].as_str()));
        push_padded_text(&mut line, &up, ws[k]);
        assert(hcells.take(k + 1).drop_last() =~= hcells.take(k as int));
        assert(hcells[k as int] == pad_to(uppercase(names[k as int]), wsv[k as int]));
        k += 1;
    }
    assert(hcells.take(columns@.len() as int) =~= hcells);
    append_chars(&mut line, &chars_of(" |"));
    out.push(string_of(&line));
    // separator
    let ghost scells = Seq::new(names.len(), |i: int| Seq::new(wsv[i], |k: int| '-'));
    let mut line = chars_of("|-");
    let mut k: usize = 0;
    while k < columns.len()
        invariant
            k <= columns@.len(),
            names == columns@.map_values(|c: String| c@),
            ws@.len() == columns@.len(),
            forall|j: int| 0 <= j < ws@.len() ==> ws@[j] as nat == #[trigger] wsv[j],
            wsv.len() == names.len(),
            scells == Seq::new(names.len(), |i: int| Seq::new(wsv[i], |k: int| '-')),
            line@ == "|-"@ + joined_by(scells.take(k as int), "-|-"@),
        decreases columns@.len() - k,
    {
        if k > 0 {
            append_chars(&mut line, &chars_of("-|-"));
        }
        let ghost before = line@;
        let mut d: usize = 0;
        while d < ws[k]
            invariant
                d <= ws@[k as int],
                k < ws@.len(),
                line@ == before + Seq::new(d as nat, |j: int| '-'),
            decreases ws@[k as int] - d,
        {
            line.push('-');
            assert(line@ =~= before + Seq::new((d + 1) as nat, |j: int| '-'));
            d += 1;
        }
        assert(scells[k as int] =~= Seq::new(ws@[k as int] as nat, |j: int| '-'));
        assert(scells.take(k + 1).drop_last() =~= scells.take(k as int));
        assert(line@ =~= "|-"@ + joined_by(scells.take(k + 1), "-|-"@));
        k += 1;
    }
    assert(scells.take(columns@.len() as int) =~= scells);
    append_chars(&mut line, &chars_of("-|"));
    out.push(string_of(&line));
    // rows
    let mut r: usize = 0;
    while r < rows.len()
        invariant
            r <= rows@.len(),
            names == columns@.map_values(|c: String| c@),
            rv == rows_view(rows@),
            rv.len() == rows@.len(),
            ws@.len() == columns@.len(),
            forall|j: int| 0 <= j < ws@.len() ==> ws@[j] as nat == #[trigger] wsv[j],
            wsv.len() == names.len(),
            lines == table_lines(names, rv),
            wsv == widths(names, rv),
            lines.len() == rv.len() + 2,
            out@.map_values(|l: String| l@) == lines.take(r + 2),
        decreases rows@.len() - r,
    {
        let ghost rcells = Seq::new(wsv.len(), |i: int| pad_to(cell(rv[r as int], i), wsv[i]));
        let mut line = chars_of("| ");
        let mut k: usize = 0;
        while k < columns.len()
            invariant
                k <= columns@.len(),
                r < rows@.len(),
                rv == rows_view(rows@),
                ws@.len() == columns@.len(),
                forall|j: int| 0 <= j < ws@.len() ==> ws@[j] as nat == #[trigger] wsv[j],
                wsv.len() == names.len(),
                names.len() == columns@.len(),
                rcells == Seq::new(wsv.len(), |i: int| pad_to(cell(rv[r as int], i), wsv[i])),
                line@ == "| "@ + joined_by(rcells.take(k as int), " | "@),
            decreases columns@.len() - k,
        {
            if k > 0 {
                append_chars(&mut line, &chars_of(" | "));
            }
            assert(rv[r as int] == rows@[r as int]@.map_values(|s: String| s@));
            let v: Vec<char> = if k < rows[r].len() {
                chars_of(rows[r][k].as_str())
            } else {
                Vec::new()
            };
            assert(v@ == cell(rv[r as int], k as int));
            push_padded_text(&mut line, &v, ws[k]);
            assert(rcells.take(k + 1).drop_last() =~= rcells.take(k as int));
            k += 1;
        }
        assert(rcells.take(columns@.len() as int) =~= rcells);
        append_chars(&mut line, &chars_of(" |"));
        let ghost before = out@.map_values(|l: String| l@);
        out.push(string_of(&line));
        assert(out@.map_values(|l: String| l@) =~= before.push(line@));
        assert(lines[r + 2] == row_line(rv[r as int], wsv));
        assert(lines.take(r + 3) =~= lines.take(r + 2).push(lines[r + 2]));
        r += 1;
    }
    assert(lines.take(rows@.len() + 2int) =~= lines);
    out
}

} // verus!
