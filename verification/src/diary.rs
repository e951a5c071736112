//! Daily notes: reading a note's date, carrying unchecked todos over and
//! filling in a new note from its template.

use vstd::prelude::*;

use crate::tangle::{lines_of_text, text_lines};
use crate::text::{
    append_chars, chars_of, find_seq, has_prefix, index_of, index_of_seq, same, skip, slice_of,
    starts_with, string_of, trim, trim_start, trimmed, trimmed_start,
};
use crate::words::{split_char, split_on, views};

verus! {

// ===========================================================================
// Replacing text
// ===========================================================================
/// `str::replace` with a non-empty pattern: every occurrence of `from`,
/// left to right and without overlap, replaced by `to`.
pub open spec fn replaced(s: Seq<char>, from: Seq<char>, to: Seq<char>) -> Seq<char>
    recommends
        from.len() > 0,
    decreases s.len(),
{
    if s.len() == 0 || from.len() == 0 {
        s
    } else if starts_with(s, from) {
        to + replaced(s.skip(from.len() as int), from, to)
    } else {
        seq![s[0]] + replaced(s.drop_first(), from, to)
    }
}

/// Replaces every occurrence of `from` (which is not empty) by `to`.
pub fn replace_all(s: &[char], from: &[char], to: &[char]) -> (r: Vec<char>)
    requires
        from.len() > 0,
    ensures
        r@ == replaced(s@, from@, to@),
{
    let mut out: Vec<char> = Vec::new();
    let mut i: usize = 0;
    assert(s@.skip(0) =~= s@);
    while i < s.len()
        invariant
            i <= s.len(),
            from.len() > 0,
            out@ + replaced(s@.skip(i as int), from@, to@) == replaced(s@, from@, to@),
        decreases s.len() - i,
    {
        let rest = skip(s, i);
        let ghost o = out@;
        if has_prefix(&rest, from) {
            append_chars(&mut out, to);
            assert(rest@.skip(from@.len() as int) =~= s@.skip(i + from.len()));
            assert(out@ + replaced(s@.skip(i + from.len()), from@, to@) =~= o + (to@ + replaced(
                rest@.skip(from@.len() as int),
                from@,
                to@,
            )));
            i = i + from.len();
        } else {
            out.push(s[i]);
            assert(rest@.drop_first() =~= s@.skip(i + 1));
            assert(out@ + replaced(s@.skip(i + 1), from@, to@) =~= o + (seq![rest@[0]] + replaced(
                rest@.drop_first(),
                from@,
                to@,
            )));
            i += 1;
        }
    }
    assert(s@.skip(i as int) =~= Seq::<char>::empty());
    assert(out@ + Seq::<char>::empty() =~= out@);
    out
}

// ===========================================================================
// Dates
// ===========================================================================
/// The year, month and day pieces of `YYYY-MM-DD`; a missing piece is
/// `2026`, `01` and `01` respectively.
pub open spec fn date_parts(date: Seq<char>) -> (Seq<char>, Seq<char>, Seq<char>) {
    let p = split_on(date, '-');
    (
        if p.len() > 0 {
            p[0]
        } else {
            "2026"@
        },
        if p.len() > 1 {
            p[1]
        } else {
            "01"@
        },
        if p.len() > 2 {
            p[2]
        } else {
            "01"@
        },
    )
}

/// Splits a `YYYY-MM-DD` date into its pieces.
pub fn parse_date_parts(date: &str) -> (r: (String, String, String))
    ensures
        (r.0@, r.1@, r.2@) == date_parts(date@),
{
    let parts = split_char(&chars_of(date), '-');
    let ghost p = views(parts@);
    let y = if parts.len() > 0 {
        string_of(&parts[0])
    } else {
        string_of(&chars_of("2026"))
    };
    let m = if parts.len() > 1 {
        string_of(&parts[1])
    } else {
        string_of(&chars_of("01"))
    };
    let d = if parts.len() > 2 {
        string_of(&parts[2])
    } else {
        string_of(&chars_of("01"))
    };
    (y, m, d)
}

/// The `date:` value in the frontmatter of a note: the first `date:` line
/// after the first `---` line and before the second, trimmed.
pub open spec fn note_date_from(ls: Seq<Seq<char>>, inside: bool) -> Option<Seq<char>>
    decreases ls.len(),
{
    if ls.len() == 0 {
        None
    } else {
        let l = ls[0];
        if trim(l) == "---"@ {
            if inside {
                None
            } else {
                note_date_from(ls.drop_first(), true)
            }
        } else if inside && starts_with(l, "date:"@) {
            Some(trim(l.skip(5)))
        } else {
            note_date_from(ls.drop_first(), inside)
        }
    }
}

/// The date that a note's frontmatter gives it, if any.
pub fn note_date(content: &str) -> (r: Option<String>)
    ensures
        match r {
            Some(d) => note_date_from(text_lines(content@), false) == Some(d@),
            None => note_date_from(text_lines(content@), false) is None,
        },
{
    proof {
        reveal_strlit("---");
        reveal_strlit("date:");
    }
    let lines = lines_of_text(&chars_of(content));
    let ghost ls = views(lines@);
    let mut inside = false;
    let mut i: usize = 0;
    assert(ls.skip(0) =~= ls);
    while i < lines.len()
        invariant
            i <= lines@.len(),
            ls == views(lines@),
            ls == text_lines(content@),
            note_date_from(ls.skip(i as int), inside) == note_date_from(ls, false),
        decreases lines@.len() - i,
    {
        proof {
            reveal_strlit("---");
            reveal_strlit("date:");
        }
        let l = &lines[i];
        let ghost rest = ls.skip(i as int);
        assert(rest[0] == l@);
        assert(rest.drop_first() =~= ls.skip(i + 1));
        if same(&trimmed(l), &chars_of("---")) {
            if inside {
                return None;
            }
            inside = true;
        } else if inside && has_prefix(l, &chars_of("date:")) {
            return Some(string_of(&trimmed(&skip(l, 5))));
        }
        i += 1;
    }
    None
}

// ===========================================================================
// Todos
// ===========================================================================
/// An unchecked todo line: `- [ ] ` (after indentation) followed by text.
pub open spec fn unchecked_todo(line: Seq<char>) -> bool {
    let t = trim_start(line);
    starts_with(t, "- [ ] "@) && t.len() > 6
}

/// The unchecked todo lines of `ls`, in order.
pub open spec fn unchecked_lines(ls: Seq<Seq<char>>) -> Seq<Seq<char>>
    decreases ls.len(),
{
    if ls.len() == 0 {
        Seq::empty()
    } else {
        let rest = unchecked_lines(ls.drop_last());
        if unchecked_todo(ls.last()) {
            rest.push(ls.last())
        } else {
            rest
        }
    }
}

/// The unchecked todo lines of a note, as they are written.
pub fn unchecked_todos(content: &str) -> (r: Vec<String>)
    ensures
        r@.map_values(|s: String| s@) == unchecked_lines(text_lines(content@)),
{
    proof {
        reveal_strlit("- [ ] ");
    }
    let lines = lines_of_text(&chars_of(content));
    let ghost ls = views(lines@);
    let mut out: Vec<String> = Vec::new();
    let mut i: usize = 0;
    while i < lines.len()
        invariant
            i <= lines@.len(),
            ls == views(lines@),
            out@.map_values(|s: String| s@) == unchecked_lines(ls.take(i as int)),
        decreases lines@.len() - i,
    {
        proof {
            reveal_strlit("- [ ] ");
        }
        let ghost cur = ls.take(i + 1);
        assert(cur.drop_last() =~= ls.take(i as int));
        assert(cur.last() == lines@[i as int]@);
        let t = trimmed_start(&lines[i]);
        if has_prefix(&t, &chars_of("- [ ] ")) && t.len() > 6 {
            let ghost o = out@.map_values(|s: String| s@);
            out.push(string_of(&lines[i]));
            assert(out@.map_values(|s: String| s@) =~= o.push(lines@[i as int]@));
        }
        i += 1;
    }
    assert(ls.take(lines@.len() as int) =~= ls);
    out
}

// ===========================================================================
// New notes
// ===========================================================================
/// A template with its placeholders filled in: `YYYY-MM-DD` by the date,
/// `WW` by the week, `HH:MM` by the time.
pub open spec fn filled_template(
    template: Seq<char>,
    date: Seq<char>,
    week: Seq<char>,
    time: Seq<char>,
) -> Seq<char> {
    replaced(replaced(replaced(template, "YYYY-MM-DD"@, date), "WW"@, week), "HH:MM"@, time)
}

/// Fills in the placeholders of a note template.
pub fn fill_template(template: &str, date: &str, week: &str, time: &str) -> (r: String)
    ensures
        r@ == filled_template(template@, date@, week@, time@),
{
    proof {
        reveal_strlit("YYYY-MM-DD");
        reveal_strlit("WW");
        reveal_strlit("HH:MM");
    }
    let a = replace_all(&chars_of(template), &chars_of("YYYY-MM-DD"), &chars_of(date));
    let b = replace_all(&a, &chars_of("WW"), &chars_of(week));
    let c = replace_all(&b, &chars_of("HH:MM"), &chars_of(time));
    string_of(&c)
}

/// The todo lines, each followed by a newline.
pub open spec fn carried_text(todos: Seq<Seq<char>>) -> Seq<char> {
    crate::words::joined_with(todos, '\n') + seq!['\n']
}

/// Where carried todos go when the note has no placeholder block: after
/// the `## TODOs` heading line and the blank line that may follow it.
pub open spec fn todo_insert_point(note: Seq<char>) -> Option<int> {
    match find_seq(note, "## TODOs"@) {
        None => None,
        Some(p) => match crate::text::find_char(note.skip(p as int), '\n') {
            None => None,
            Some(n) => {
                let at: int = (p + n + 1) as int;
                Some(
                    if at < note.len() && note[at] == '\n' {
                        at + 1
                    } else {
                        at
                    },
                )
            },
        },
    }
}

/// A note with carried todos put in: in place of the placeholder block of
/// three empty todos if there is one, else after the `## TODOs` heading;
/// unchanged when there are no todos or no place for them.
pub open spec fn with_todos(note: Seq<char>, todos: Seq<Seq<char>>) -> Seq<char> {
    let block = "- [ ]\n- [ ]\n- [ ]\n"@;
    if todos.len() == 0 {
        note
    } else if find_seq(note, block) is Some {
        replaced(note, block, carried_text(todos))
    } else {
        match todo_insert_point(note) {
            Some(at) => note.take(at) + carried_text(todos) + note.skip(at),
            None => note,
        }
    }
}

/// Puts carried todos into a new note.
pub fn insert_todos(note: &str, todos: &Vec<String>) -> (r: String)
    ensures
        r@ == with_todos(note@, todos@.map_values(|s: String| s@)),
{
    let ghost tv = todos@.map_values(|s: String| s@);
    let n = chars_of(note);
    if todos.len() == 0 {
        return string_of(&n);
    }
    let mut lines: Vec<Vec<char>> = Vec::new();
    let mut k: usize = 0;
    while k < todos.len()
        invariant
            k <= todos@.len(),
            tv == todos@.map_values(|s: String| s@),
            views(lines@) =~= tv.take(k as int),
        decreases todos@.len() - k,
    {
        let ghost o = views(lines@);
        lines.push(chars_of(todos[k].as_str()));
        assert(views(lines@) =~= o.push(tv[k as int]));
        assert(tv.take(k + 1) =~= tv.take(k as int).push(tv[k as int]));
        k += 1;
    }
    assert(tv.take(todos@.len() as int) =~= tv);
    let mut carried = crate::words::join_with(&lines, '\n');
    carried.push('\n');
    assert(carried@ =~= carried_text(tv));
    proof {
        reveal_strlit("- [ ]\n- [ ]\n- [ ]\n");
    }
    let block = chars_of("- [ ]\n- [ ]\n- [ ]\n");
    if index_of_seq(&n, &block).is_some() {
        return string_of(&replace_all(&n, &block, &carried));
    }
    match index_of_seq(&n, &chars_of("## TODOs")) {
        None => string_of(&n),
        Some(p) => {
            let tail = skip(&n, p);
            match index_of(&tail, '\n') {
                None => string_of(&n),
                Some(nl) => {
                    let at0 = p + nl + 1;
                    let at = if at0 < n.len() && n[at0] == '\n' {
                        at0 + 1
                    } else {
                        at0
                    };
                    let mut out = slice_of(&n, 0, at);
                    append_chars(&mut out, &carried);
                    append_chars(&mut out, &skip(&n, at));
                    assert(out@ =~= n@.take(at as int) + carried_text(tv) + n@.skip(at as int));
                    string_of(&out)
                },
            }
        },
    }
}

/// An archive path pattern with `{year}`, `{month}` and `{day}` filled in.
pub open spec fn archive_name(
    pattern: Seq<char>,
    year: Seq<char>,
    month: Seq<char>,
    day: Seq<char>,
) -> Seq<char> {
    replaced(replaced(replaced(pattern, "{year}"@, year), "{month}"@, month), "{day}"@, day)
}

/// Fills in an archive path pattern.
pub fn fill_archive_pattern(pattern: &str, year: &str, month: &str, day: &str) -> (r: String)
    ensures
        r@ == archive_name(pattern@, year@, month@, day@),
{
    proof {
        reveal_strlit("{year}");
        reveal_strlit("{month}");
        reveal_strlit("{day}");
    }
    let a = replace_all(&chars_of(pattern), &chars_of("{year}"), &chars_of(year));
    let b = replace_all(&a, &chars_of("{month}"), &chars_of(month));
    let c = replace_all(&b, &chars_of("{day}"), &chars_of(day));
    string_of(&c)
}

} // verus!
