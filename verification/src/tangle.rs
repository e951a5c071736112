//! Tangling: extracting code blocks into files, with noweb expansion.
//!
//! A code block (or callout) tagged `#tangle` with a `file=` attribute is
//! written to that file.  A code block with a `name=` attribute can be
//! included elsewhere with a `<<name>>` reference, which is expanded with
//! the indentation of the line it stands on.

use vstd::prelude::*;

use crate::ast::{Block, StringMap};
use crate::config::join_path;
use crate::tags::{Tag, TagKind};
use crate::text::{
    append_chars, chars_of, contains_char, ends_with, has_char, has_prefix, has_suffix,
    index_of_seq, is_alphanumeric, lead_ws, same, skip, slice_of, starts_with, string_of,
    trim_start, trimmed, trimmed_start, alnum_char,
};
use crate::words::{split_char, split_on, views};

verus! {

// ===========================================================================
// Lines
// ===========================================================================
/// A line without its trailing `\r`, if any.
pub open spec fn without_cr(l: Seq<char>) -> Seq<char> {
    if l.len() > 0 && l.last() == '\r' {
        l.drop_last()
    } else {
        l
    }
}

/// `str::lines`: the text split at `\n`, a final empty piece dropped, and a
/// `\r` before each `\n` removed.
pub open spec fn text_lines(s: Seq<char>) -> Seq<Seq<char>> {
    let p = split_on(s, '\n');
    let q = if p.len() > 0 && p.last().len() == 0 {
        p.drop_last()
    } else {
        p
    };
    q.map_values(|l: Seq<char>| without_cr(l))
}

/// `str::lines`.
pub fn lines_of_text(s: &[char]) -> (r: Vec<Vec<char>>)
    ensures
        views(r@) == text_lines(s@),
{
    let pieces = split_char(s, '\n');
    let ghost p = views(pieces@);
    let n = if pieces.len() > 0 && pieces[pieces.len() - 1].len() == 0 {
        pieces.len() - 1
    } else {
        pieces.len()
    };
    let ghost q = if p.len() > 0 && p.last().len() == 0 {
        p.drop_last()
    } else {
        p
    };
    assert(q.len() == n);
    let mut out: Vec<Vec<char>> = Vec::new();
    let mut i: usize = 0;
    while i < n
        invariant
            n <= pieces@.len(),
            i <= n,
            p == views(pieces@),
            q.len() == n,
            forall|k: int| 0 <= k < n ==> q[k] == p[k],
            views(out@) =~= q.take(i as int).map_values(|l: Seq<char>| without_cr(l)),
        decreases n - i,
    {
        let l = &pieces[i];
        let line = if l.len() > 0 && l[l.len() - 1] == '\r' {
            slice_of(l, 0, l.len() - 1)
        } else {
            slice_of(l, 0, l.len())
        };
        assert(line@ =~= without_cr(p[i as int]));
        let ghost o = views(out@);
        out.push(line);
        assert(views(out@) =~= o.push(line@));
        assert(q.take(i + 1).map_values(|l: Seq<char>| without_cr(l)) =~= q.take(
            i as int,
        ).map_values(|l: Seq<char>| without_cr(l)).push(without_cr(q[i as int])));
        i += 1;
    }
    assert(q.take(n as int) =~= q);
    out
}

// ===========================================================================
// Noweb references and heredocs
// ===========================================================================
/// A line that is a whole noweb reference, `  <<name>>`: its indentation and
/// the name.  The name is non-empty and holds no `<` or `>`.
pub open spec fn noweb_ref(line: Seq<char>) -> Option<(Seq<char>, Seq<char>)> {
    let t = trim_start(line);
    if starts_with(t, "<<"@) {
        let rest = t.skip(2);
        if ends_with(rest, ">>"@) {
            let name = rest.take(rest.len() - 2);
            if name.len() > 0 && !contains_char(name, '<') && !contains_char(name, '>') {
                Some((line.take(lead_ws(line) as int), name))
            } else {
                None
            }
        } else {
            None
        }
    } else {
        None
    }
}

/// If the whole line (after its indentation) is a noweb reference, its
/// indentation and name.
pub fn parse_noweb_ref(line: &str) -> (r: Option<(String, String)>)
    ensures
        match r {
            Some((i, n)) => noweb_ref(line@) == Some((i@, n@)),
            None => noweb_ref(line@) is None,
        },
{
    proof {
        reveal_strlit("<<");
        reveal_strlit(">>");
    }
    let l = chars_of(line);
    let n_ws = crate::text::count_lead_ws(&l);
    let t = skip(&l, n_ws);
    assert(t@ == trim_start(l@));
    if !has_prefix(&t, &chars_of("<<")) {
        return None;
    }
    let rest = skip(&t, 2);
    if !has_suffix(&rest, &chars_of(">>")) {
        return None;
    }
    let name = slice_of(&rest, 0, rest.len() - 2);
    assert(name@ =~= rest@.take(rest@.len() - 2));
    if name.len() > 0 && !has_char(&name, '<') && !has_char(&name, '>') {
        let indent = slice_of(&l, 0, n_ws);
        assert(indent@ =~= l@.take(lead_ws(l@) as int));
        Some((string_of(&indent), string_of(&name)))
    } else {
        None
    }
}

/// The number of identifier characters (alphanumeric or `_`) at the start
/// of `s`.
pub open spec fn ident_run(s: Seq<char>) -> nat
    decreases s.len(),
{
    if s.len() > 0 && (alnum_char(s[0]) || s[0] == '_') {
        1 + ident_run(s.drop_first())
    } else {
        0
    }
}

proof fn lemma_ident_run(s: Seq<char>, k: int)
    requires
        0 <= k <= s.len(),
        forall|i: int| 0 <= i < k ==> alnum_char(#[trigger] s[i]) || s[i] == '_',
        k == s.len() || !(alnum_char(s[k]) || s[k] == '_'),
    ensures
        ident_run(s) == k,
    decreases k,
{
    if k > 0 {
        lemma_ident_run(s.drop_first(), k - 1);
    }
}

/// The heredoc end marker named right after a `<<`: an optional `-`, an
/// optional opening quote, then an identifier not followed by `>`.
pub open spec fn heredoc_after(after: Seq<char>) -> Option<Seq<char>> {
    let a1 = if after.len() > 0 && after[0] == '-' {
        after.skip(1)
    } else {
        after
    };
    let q: Option<char> = if a1.len() > 0 && (a1[0] == '"' || a1[0] == '\'') {
        Some(a1[0])
    } else {
        None
    };
    let a2 = if q is Some {
        a1.skip(1)
    } else {
        a1
    };
    let n = ident_run(a2);
    if n == 0 {
        None
    } else {
        let rest = a2.skip(n as int);
        let rest2 = match q {
            Some(c) => if rest.len() > 0 && rest[0] == c {
                rest.skip(1)
            } else {
                rest
            },
            None => rest,
        };
        if rest2.len() > 0 && rest2[0] == '>' {
            None
        } else {
            Some(a2.take(n as int))
        }
    }
}

/// The end marker of the first heredoc opener (`<<WORD`, `<<-WORD`,
/// `<<"WORD"`, `<<'WORD'`) at or after position `i`.
pub open spec fn heredoc_from(line: Seq<char>, i: int) -> Option<Seq<char>>
    decreases line.len() - i,
{
    if i < 0 || i + 1 >= line.len() {
        None
    } else if line[i] == '<' && line[i + 1] == '<' && heredoc_after(line.skip(i + 2)) is Some {
        heredoc_after(line.skip(i + 2))
    } else {
        heredoc_from(line, i + 1)
    }
}

fn heredoc_after_of(after: &[char]) -> (r: Option<Vec<char>>)
    ensures
        match r {
            Some(m) => heredoc_after(after@) == Some(m@),
            None => heredoc_after(after@) is None,
        },
{
    let a1 = if after.len() > 0 && after[0] == '-' {
        skip(after, 1)
    } else {
        slice_of(after, 0, after.len())
    };
    assert(after@.subrange(0, after@.len() as int) =~= after@);
    let q: Option<char> = if a1.len() > 0 && (a1[0] == '"' || a1[0] == '\'') {
        Some(a1[0])
    } else {
        None
    };
    let a2 = if q.is_some() {
        skip(&a1, 1)
    } else {
        slice_of(&a1, 0, a1.len())
    };
    assert(a1@.subrange(0, a1@.len() as int) =~= a1@);
    let mut n: usize = 0;
    while n < a2.len() && (is_alphanumeric(a2[n]) || a2[n] == '_')
        invariant
            n <= a2@.len(),
            forall|i: int| 0 <= i < n ==> alnum_char(#[trigger] a2@[i]) || a2@[i] == '_',
        decreases a2@.len() - n,
    {
        n += 1;
    }
    proof {
        lemma_ident_run(a2@, n as int);
    }
    if n == 0 {
        return None;
    }
    let rest = skip(&a2, n);
    let rest2 = match q {
        Some(c) => if rest.len() > 0 && rest[0] == c {
            skip(&rest, 1)
        } else {
            rest
        },
        None => rest,
    };
    if rest2.len() > 0 && rest2[0] == '>' {
        None
    } else {
        let m = slice_of(&a2, 0, n);
        assert(m@ =~= a2@.take(n as int));
        Some(m)
    }
}

/// The end marker of a shell heredoc that the line opens, if any.  A
/// `<<name>>` noweb reference opens no heredoc.
pub fn detect_heredoc_start(line: &str) -> (r: Option<String>)
    ensures
        match r {
            Some(m) => heredoc_from(line@, 0) == Some(m@),
            None => heredoc_from(line@, 0) is None,
        },
{
    let l = chars_of(line);
    let mut i: usize = 0;
    while l.len() > 0 && i < l.len() - 1
        invariant
            l@ == line@,
            heredoc_from(l@, 0) == heredoc_from(l@, i as int),
        decreases l@.len() - i,
    {
        if l[i] == '<' && l[i + 1] == '<' {
            match heredoc_after_of(&skip(&l, i + 2)) {
                Some(m) => {
                    return Some(string_of(&m));
                },
                None => {},
            }
        }
        i += 1;
    }
    None
}

// ===========================================================================
// Expansion
// ===========================================================================
/// Lines joined with a newline between them, each non-empty one after the
/// indentation `ind`.
pub open spec fn indented(ls: Seq<Seq<char>>, ind: Seq<char>) -> Seq<char>
    decreases ls.len(),
{
    if ls.len() == 0 {
        Seq::empty()
    } else {
        indented(ls.drop_last(), ind) + (if ls.len() > 1 {
            seq!['\n']
        } else {
            Seq::empty()
        }) + (if ls.last().len() > 0 {
            ind + ls.last()
        } else {
            Seq::empty()
        })
    }
}

/// What a reference to `name` in the middle of a line becomes: the
/// expansion of its body, or the reference text `whole` itself when the
/// name is being expanded already, is unknown, or the depth is spent.
pub open spec fn inline_piece(
    name: Seq<char>,
    whole: Seq<char>,
    named: Map<Seq<char>, Seq<char>>,
    visited: Seq<Seq<char>>,
    fuel: nat,
) -> Seq<char>
    decreases fuel, 0int, 0int,
{
    if visited.contains(name) || !named.contains_key(name) || fuel == 0 {
        whole
    } else {
        expanded(named[name], named, visited.push(name), (fuel - 1) as nat)
    }
}

/// The expansion of the `<<name>>` references of `line` from `pos` on.
pub open spec fn inline_from(
    line: Seq<char>,
    pos: int,
    named: Map<Seq<char>, Seq<char>>,
    visited: Seq<Seq<char>>,
    fuel: nat,
) -> Seq<char>
    decreases fuel, 0int, line.len() - pos,
{
    if pos < 0 || pos >= line.len() {
        Seq::empty()
    } else {
        let plain = seq![line[pos]] + inline_from(line, pos + 1, named, visited, fuel);
        if line.len() - pos > 2 && line[pos] == '<' && line[pos + 1] == '<' {
            match crate::text::find_seq(line.skip(pos + 2), ">>"@) {
                Some(end) => {
                    let name = line.skip(pos + 2).take(end as int);
                    if name.len() > 0 && !contains_char(name, '<') && !contains_char(name, '>')
                        && pos + end + 4 <= line.len() {
                        inline_piece(
                            name,
                            line.subrange(pos, pos + end + 4),
                            named,
                            visited,
                            fuel,
                        ) + inline_from(line, pos + end + 4, named, visited, fuel)
                    } else {
                        plain
                    }
                },
                None => plain,
            }
        } else {
            plain
        }
    }
}

/// What a line that is a whole reference becomes: the lines of the
/// expanded body, each after the reference's indentation, then a newline;
/// or the line itself when the name is being expanded already, is unknown,
/// or the depth is spent.
pub open spec fn ref_piece(
    line: Seq<char>,
    indent: Seq<char>,
    name: Seq<char>,
    named: Map<Seq<char>, Seq<char>>,
    visited: Seq<Seq<char>>,
    fuel: nat,
) -> Seq<char>
    decreases fuel, 0int, 0int,
{
    if visited.contains(name) || !named.contains_key(name) || fuel == 0 {
        line + seq!['\n']
    } else {
        indented(
            text_lines(expanded(named[name], named, visited.push(name), (fuel - 1) as nat)),
            indent,
        ) + seq!['\n']
    }
}

/// The expansion of lines `i..` of a text; `heredoc` is the end marker of
/// the shell heredoc being read, whose lines are kept as they are.
pub open spec fn lines_from(
    ls: Seq<Seq<char>>,
    i: int,
    heredoc: Option<Seq<char>>,
    named: Map<Seq<char>, Seq<char>>,
    visited: Seq<Seq<char>>,
    fuel: nat,
) -> Seq<char>
    decreases fuel, 1int, ls.len() - i,
{
    if i < 0 || i >= ls.len() {
        Seq::empty()
    } else {
        let line = ls[i];
        match heredoc {
            Some(m) => line + seq!['\n'] + lines_from(
                ls,
                i + 1,
                if crate::text::trim(line) == m {
                    None
                } else {
                    Some(m)
                },
                named,
                visited,
                fuel,
            ),
            None => match heredoc_from(line, 0) {
                Some(m) => line + seq!['\n'] + lines_from(ls, i + 1, Some(m), named, visited, fuel),
                None => match noweb_ref(line) {
                    Some((indent, name)) => ref_piece(line, indent, name, named, visited, fuel)
                        + lines_from(ls, i + 1, None, named, visited, fuel),
                    None => inline_from(line, 0, named, visited, fuel) + seq!['\n'] + lines_from(
                        ls,
                        i + 1,
                        None,
                        named,
                        visited,
                        fuel,
                    ),
                },
            },
        }
    }
}

/// The expansion of a text: its lines expanded, without a final newline
/// when the text has none; at most `fuel` references deep.
pub open spec fn expanded(
    text: Seq<char>,
    named: Map<Seq<char>, Seq<char>>,
    visited: Seq<Seq<char>>,
    fuel: nat,
) -> Seq<char>
    decreases fuel, 2int, 0int,
{
    let r = lines_from(text_lines(text), 0, None, named, visited, fuel);
    if r.len() > 0 && r.last() == '\n' && !(text.len() > 0 && text.last() == '\n') {
        r.drop_last()
    } else {
        r
    }
}

fn contains_name(visited: &Vec<Vec<char>>, name: &[char]) -> (b: bool)
    ensures
        b == views(visited@).contains(name@),
{
    let mut i: usize = 0;
    while i < visited.len()
        invariant
            i <= visited@.len(),
            forall|k: int| 0 <= k < i ==> views(visited@)[k] != name@,
        decreases visited@.len() - i,
    {
        if same(&visited[i], name) {
            assert(views(visited@)[i as int] == name@);
            return true;
        }
        i += 1;
    }
    false
}

/// Expands `<<name>>` from `name` in `named`, with `name` marked as being
/// expanded meanwhile.
fn expand_named(
    name: &Vec<char>,
    body: &str,
    named: &StringMap<String>,
    visited: &mut Vec<Vec<char>>,
    fuel: usize,
) -> (r: Vec<char>)
    requires
        fuel > 0,
    ensures
        r@ == expanded(body@, text_map(*named), views(old(visited)@).push(name@), (fuel - 1) as nat),
        final(visited)@ == old(visited)@,
    decreases fuel, 0int, 1int,
{
    let ghost v0 = visited@;
    visited.push(slice_of(name, 0, name.len()));
    assert(name@.subrange(0, name@.len() as int) =~= name@);
    assert(views(visited@) =~= views(v0).push(name@));
    let r = expand_noweb_recursive(&chars_of(body), named, visited, fuel - 1);
    visited.pop();
    assert(visited@ =~= v0);
    r
}

/// Expands the `<<name>>` references inside a line.
fn expand_inline_refs(
    line: &[char],
    named: &StringMap<String>,
    visited: &mut Vec<Vec<char>>,
    fuel: usize,
) -> (r: Vec<char>)
    ensures
        r@ == inline_from(line@, 0, text_map(*named), views(old(visited)@), fuel as nat),
        final(visited)@ == old(visited)@,
    decreases fuel, 0int, 2int,
{
    let ghost nm = text_map(*named);
    let ghost vs = views(visited@);
    let ghost v0 = visited@;
    let mut result: Vec<char> = Vec::new();
    let mut pos: usize = 0;
    while pos < line.len()
        invariant
            pos <= line.len(),
            visited@ == v0,
            vs == views(v0),
            nm == text_map(*named),
            result@ + inline_from(line@, pos as int, nm, vs, fuel as nat) == inline_from(
                line@,
                0,
                nm,
                vs,
                fuel as nat,
            ),
        decreases line.len() - pos,
    {
        let ghost r0 = result@;
        proof {
            reveal_strlit(">>");
        }
        if line.len() - pos > 2 && line[pos] == '<' && line[pos + 1] == '<' {
            let tail = skip(line, pos + 2);
            match index_of_seq(&tail, &chars_of(">>")) {
                Some(end) => {
                    let name = slice_of(&tail, 0, end);
                    assert(name@ == line@.skip(pos + 2).take(end as int));
                    if name.len() > 0 && !has_char(&name, '<') && !has_char(&name, '>') {
                        let whole = slice_of(line, pos, pos + end + 4);
                        let piece: Vec<char> = if contains_name(visited, &name) {
                            whole
                        } else {
                            match named.get(string_of(&name).as_str()) {
                                Some(body) => {
                                    if fuel > 0 {
                                        assert(nm[name@] == body@);
                                        expand_named(&name, body.as_str(), named, visited, fuel)
                                    } else {
                                        whole
                                    }
                                },
                                None => whole,
                            }
                        };
                        assert(piece@ == inline_piece(name@, line@.subrange(pos as int, pos + end + 4), nm, vs, fuel as nat));
                        append_chars(&mut result, &piece);
                        assert(result@ + inline_from(line@, pos + end + 4, nm, vs, fuel as nat) =~= r0 + inline_from(line@, pos as int, nm, vs, fuel as nat));
                        pos = pos + end + 4;
                        continue ;
                    }
                },
                None => {},
            }
        }
        result.push(line[pos]);
        assert(result@ + inline_from(line@, pos + 1, nm, vs, fuel as nat) =~= r0 + inline_from(line@, pos as int, nm, vs, fuel as nat));
        pos += 1;
    }
    result
}

fn push_line(out: &mut Vec<char>, line: &[char])
    ensures
        final(out)@ == old(out)@ + line@ + seq!['\n'],
{
    append_chars(out, line);
    out.push('\n');
}

pub open spec fn marker_view(m: Option<Vec<char>>) -> Option<Seq<char>> {
    match m {
        Some(v) => Some(v@),
        None => None,
    }
}

/// Expands noweb references in `text`, line by line, skipping the bodies of
/// shell heredocs.  `visited` holds the names being expanded, whose
/// references are left as they are.
#[verifier::rlimit(40)]
fn expand_noweb_recursive(
    text: &[char],
    named: &StringMap<String>,
    visited: &mut Vec<Vec<char>>,
    fuel: usize,
) -> (r: Vec<char>)
    ensures
        r@ == expanded(text@, text_map(*named), views(old(visited)@), fuel as nat),
        final(visited)@ == old(visited)@,
    decreases fuel, 2int, 0int,
{
    let ghost nm = text_map(*named);
    let ghost vs = views(visited@);
    let ghost v0 = visited@;
    let lines = lines_of_text(text);
    let ghost ls = views(lines@);
    let mut result: Vec<char> = Vec::new();
    let mut heredoc_end: Option<Vec<char>> = None;
    let mut i: usize = 0;
    while i < lines.len()
        invariant
            i <= lines@.len(),
            visited@ == v0,
            vs == views(v0),
            nm == text_map(*named),
            ls == views(lines@),
            ls == text_lines(text@),
            result@ + lines_from(ls, i as int, marker_view(heredoc_end), nm, vs, fuel as nat)
                == lines_from(ls, 0, None, nm, vs, fuel as nat),
        decreases lines@.len() - i,
    {
        let ghost r0 = result@;
        let ghost h0 = marker_view(heredoc_end);
        let line = &lines[i];
        assert(ls[i as int] == line@);
        i += 1;
        match &heredoc_end {
            Some(marker) => {
                let ended = same(&trimmed(line), marker);
                if ended {
                    heredoc_end = None;
                }
                push_line(&mut result, line);
                assert(result@ + lines_from(ls, i as int, marker_view(heredoc_end), nm, vs, fuel as nat) =~= r0 + lines_from(ls, i - 1, h0, nm, vs, fuel as nat));
                continue ;
            },
            None => {},
        }
        match detect_heredoc_start(string_of(line).as_str()) {
            Some(m) => {
                heredoc_end = Some(chars_of(m.as_str()));
                push_line(&mut result, line);
                assert(result@ + lines_from(ls, i as int, marker_view(heredoc_end), nm, vs, fuel as nat) =~= r0 + lines_from(ls, i - 1, h0, nm, vs, fuel as nat));
                continue ;
            },
            None => {},
        }
        match parse_noweb_ref(string_of(line).as_str()) {
            Some((indent, name)) => {
                let name_chars = chars_of(name.as_str());
                let piece: Vec<char> = if contains_name(visited, &name_chars) {
                    let mut p: Vec<char> = Vec::new();
                    push_line(&mut p, line);
                    p
                } else {
                    match named.get(name.as_str()) {
                        Some(body) => {
                            if fuel == 0 {
                                let mut p: Vec<char> = Vec::new();
                                push_line(&mut p, line);
                                p
                            } else {
                                assert(nm[name@] == body@);
                                let expanded = expand_named(&name_chars, body.as_str(), named, visited, fuel);
                                let exp_lines = lines_of_text(&expanded);
                                let ghost el = views(exp_lines@);
                                let ind = chars_of(indent.as_str());
                                let mut p: Vec<char> = Vec::new();
                                let mut k: usize = 0;
                                while k < exp_lines.len()
                                    invariant
                                        k <= exp_lines@.len(),
                                        el == views(exp_lines@),
                                        p@ == indented(el.take(k as int), ind@),
                                    decreases exp_lines@.len() - k,
                                {
                                    assert(el.take(k + 1).drop_last() =~= el.take(k as int));
                                    if k > 0 {
                                        p.push('\n');
                                    }
                                    if exp_lines[k].len() > 0 {
                                        append_chars(&mut p, &ind);
                                        append_chars(&mut p, &exp_lines[k]);
                                    }
                                    assert(p@ =~= indented(el.take(k + 1), ind@));
                                    k += 1;
                                }
                                assert(el.take(exp_lines@.len() as int) =~= el);
                                p.push('\n');
                                p
                            }
                        },
                        None => {
                            let mut p: Vec<char> = Vec::new();
                            push_line(&mut p, line);
                            p
                        },
                    }
                };
                assert(piece@ =~= ref_piece(line@, indent@, name@, nm, vs, fuel as nat));
                append_chars(&mut result, &piece);
                assert(result@ + lines_from(ls, i as int, marker_view(heredoc_end), nm, vs, fuel as nat) =~= r0 + lines_from(ls, i - 1, h0, nm, vs, fuel as nat));
            },
            None => {
                let expanded_line = expand_inline_refs(line, named, visited, fuel);
                push_line(&mut result, &expanded_line);
                assert(result@ + lines_from(ls, i as int, marker_view(heredoc_end), nm, vs, fuel as nat) =~= r0 + lines_from(ls, i - 1, h0, nm, vs, fuel as nat));
            },
        }
    }
    if result.len() > 0 && result[result.len() - 1] == '\n' && !(text.len() > 0 && text[text.len()
        - 1] == '\n') {
        result.pop();
    }
    result
}

/// Expands all `<<name>>` references in `text` with the bodies in `named`
/// (see [`expanded`]), as deep as there are named bodies.  Circular and
/// unknown references are left as they are.
pub fn expand_noweb(text: &str, named: &StringMap<String>) -> (r: String)
    ensures
        r@ == expanded(text@, text_map(*named), Seq::empty(), named.entries().len()),
{
    let mut visited: Vec<Vec<char>> = Vec::new();
    assert(views(visited@) =~= Seq::<Seq<char>>::empty());
    string_of(&expand_noweb_recursive(&chars_of(text), named, &mut visited, named.len()))
}

// ===========================================================================
// Collecting blocks
// ===========================================================================
/// Whether one of the tags is `#tangle`.
pub open spec fn has_tangle_tag(tags: Seq<Tag>) -> bool {
    exists|i: int| 0 <= i < tags.len() && tags[i].kind is Tangle
}

fn has_tangle(tags: &Vec<Tag>) -> (b: bool)
    ensures
        b == has_tangle_tag(tags@),
{
    let mut i: usize = 0;
    while i < tags.len()
        invariant
            i <= tags@.len(),
            forall|k: int| 0 <= k < i ==> !(tags@[k].kind is Tangle),
        decreases tags@.len() - i,
    {
        match tags[i].kind {
            TagKind::Tangle => {
                return true;
            },
            _ => {},
        }
        i += 1;
    }
    false
}

/// The file a block is tangled into: its `file` attribute, relative to the
/// output directory if one is given and to the source directory otherwise;
/// `None` for a block without `#tangle` or without `file`.
pub fn tangle_target(
    tags: &Vec<Tag>,
    attributes: &StringMap<String>,
    source_dir: &str,
    output_dir: Option<&str>,
) -> (r: Option<String>)
    ensures
        !has_tangle_tag(tags@) ==> r is None,
        has_tangle_tag(tags@) && !attributes.to_map().contains_key("file"@) ==> r is None,
        has_tangle_tag(tags@) && attributes.to_map().contains_key("file"@) ==> (r matches Some(t)
            && t@ == crate::config::joined_path(
            match output_dir {
                Some(o) => o@,
                None => source_dir@,
            },
            attributes.to_map()["file"@]@,
        )),
{
    if !has_tangle(tags) {
        return None;
    }
    match attributes.get("file") {
        Some(file) => {
            let base = match output_dir {
                Some(o) => o,
                None => source_dir,
            };
            Some(join_path(base, file.as_str()))
        },
        None => None,
    }
}

/// A block bound for a tangled file.
pub struct TangleBlock {
    pub target: String,
    pub body: String,
    pub source_file: String,
    pub line: u32,
    pub allow_trailing_newline: bool,
}

/// Whether `allow-trailing-newline=true` is among the attributes.
fn allows_trailing_newline(attributes: &StringMap<String>) -> (b: bool)
    ensures
        b == (attributes.to_map().contains_key("allow-trailing-newline"@)
            && attributes.to_map()["allow-trailing-newline"@]@ == "true"@),
{
    match attributes.get("allow-trailing-newline") {
        Some(v) => same(&chars_of(v.as_str()), &chars_of("true")),
        None => false,
    }
}

/// The text of the blocks of a tangled callout, one line per block.
pub open spec fn callout_line(b: Block) -> Option<Seq<char>> {
    match b {
        Block::Paragraph(p) => Some(crate::text::trim(crate::ast::segs_text(p.content.segments@))),
        Block::CodeBlock(cb) => Some(cb.body@),
        Block::Heading(h) => Some(crate::text::trim(crate::ast::segs_text(h.content.segments@))),
        Block::HtmlBlock(h) => Some(h.raw@),
        Block::BlankLine(_) => Some(Seq::empty()),
        _ => None,
    }
}

pub open spec fn callout_lines(bs: Seq<Block>) -> Seq<Seq<char>>
    decreases bs.len(),
{
    if bs.len() == 0 {
        Seq::empty()
    } else {
        let rest = callout_lines(bs.drop_last());
        match callout_line(bs.last()) {
            Some(l) => rest.push(l),
            None => rest,
        }
    }
}

/// The text of a tangled callout: its paragraphs, headings and blank lines
/// as plain text, its code and HTML blocks verbatim, one per line.
pub fn render_callout_content(blocks: &Vec<Block>) -> (r: String)
    ensures
        r@ == crate::words::joined_with(callout_lines(blocks@), '\n'),
{
    let mut lines: Vec<Vec<char>> = Vec::new();
    let mut i: usize = 0;
    while i < blocks.len()
        invariant
            i <= blocks@.len(),
            views(lines@) == callout_lines(blocks@.take(i as int)),
        decreases blocks@.len() - i,
    {
        let ghost pre = blocks@.take(i as int);
        let ghost cur = blocks@.take(i + 1);
        assert(cur.drop_last() =~= pre);
        let line: Option<Vec<char>> = match &blocks[i] {
            Block::Paragraph(p) => Some(chars_of(p.content.plain_text().as_str())),
            Block::CodeBlock(cb) => Some(chars_of(cb.body.as_str())),
            Block::Heading(h) => Some(chars_of(h.content.plain_text().as_str())),
            Block::HtmlBlock(h) => Some(chars_of(h.raw.as_str())),
            Block::BlankLine(_) => Some(Vec::new()),
            _ => None,
        };
        match line {
            Some(l) => {
                let ghost o = views(lines@);
                lines.push(l);
                assert(views(lines@) =~= o.push(l@));
            },
            None => {},
        }
        i += 1;
    }
    assert(blocks@.take(blocks@.len() as int) =~= blocks@);
    string_of(&crate::words::join_with(&lines, '\n'))
}

/// The texts of a map of strings.
pub open spec fn text_map(m: StringMap<String>) -> Map<Seq<char>, Seq<char>> {
    m.to_map().map_values(|s: String| s@)
}

/// The target a block is tangled into (see [`tangle_target`]).
pub open spec fn target_of(
    tags: Seq<Tag>,
    attributes: StringMap<String>,
    source_dir: Seq<char>,
    output_dir: Option<Seq<char>>,
) -> Option<Seq<char>> {
    if has_tangle_tag(tags) && attributes.to_map().contains_key("file"@) {
        Some(
            crate::config::joined_path(
                match output_dir {
                    Some(o) => o,
                    None => source_dir,
                },
                attributes.to_map()["file"@]@,
            ),
        )
    } else {
        None
    }
}

/// Whether the attributes ask for a final newline.
pub open spec fn wants_newline(attributes: StringMap<String>) -> bool {
    attributes.to_map().contains_key("allow-trailing-newline"@)
        && attributes.to_map()["allow-trailing-newline"@]@ == "true"@
}

/// The named bodies once a block is gathered: the body of a code block
/// with a `name` goes after what that name holds (a newline between them),
/// a callout's blocks are gathered in turn.
pub open spec fn named_after_block(m: Map<Seq<char>, Seq<char>>, b: Block) -> Map<
    Seq<char>,
    Seq<char>,
>
    decreases b,
{
    match b {
        Block::CodeBlock(cb) => if cb.attributes.to_map().contains_key("name"@) {
            let name = cb.attributes.to_map()["name"@]@;
            let prev = if m.contains_key(name) {
                m[name]
            } else {
                Seq::empty()
            };
            m.insert(
                name,
                prev + (if prev.len() > 0 {
                    seq!['\n']
                } else {
                    Seq::empty()
                }) + cb.body@,
            )
        } else {
            m
        },
        Block::Callout(c) => named_after(m, c.content@),
        _ => m,
    }
}

/// The named bodies once the blocks are gathered, in order.
pub open spec fn named_after(m: Map<Seq<char>, Seq<char>>, bs: Seq<Block>) -> Map<
    Seq<char>,
    Seq<char>,
>
    decreases bs,
{
    if bs.len() == 0 {
        m
    } else {
        named_after_block(named_after(m, bs.drop_last()), bs.last())
    }
}

/// Gathers the bodies of the code blocks with a `name` attribute, looking
/// inside callouts; bodies that share a name are joined with a newline.
pub fn collect_named_blocks(blocks: &Vec<Block>, named: &mut StringMap<String>)
    ensures
        text_map(*final(named)) == named_after(text_map(*old(named)), blocks@),
    decreases blocks@,
{
    let ghost m0 = text_map(*named);
    let mut i: usize = 0;
    while i < blocks.len()
        invariant
            i <= blocks@.len(),
            text_map(*named) == named_after(m0, blocks@.take(i as int)),
        decreases blocks@.len() - i,
    {
        assert(blocks@.take(i + 1).drop_last() =~= blocks@.take(i as int));
        assert(blocks@.take(i + 1).last() == blocks@[i as int]);
        let ghost before = text_map(*named);
        match &blocks[i] {
            Block::CodeBlock(cb) => {
                match cb.attributes.get("name") {
                    Some(name) => {
                        let ghost pv: Seq<char> = if before.contains_key(name@) {
                            before[name@]
                        } else {
                            Seq::empty()
                        };
                        let entry = match named.get(name.as_str()) {
                            Some(prev) => {
                                assert(before[name@] == named.to_map()[name@]@);
                                let mut e = chars_of(prev.as_str());
                                if e.len() > 0 {
                                    e.push('\n');
                                }
                                e
                            },
                            None => Vec::new(),
                        };
                        assert(before.contains_key(name@) == named.to_map().contains_key(name@));
                        assert(entry@ == pv + (if pv.len() > 0 {
                            seq!['\n']
                        } else {
                            Seq::empty()
                        }));
                        let mut e = entry;
                        append_chars(&mut e, &chars_of(cb.body.as_str()));
                        let ghost ev = e@;
                        named.insert(name.clone(), string_of(&e));
                        assert(text_map(*named) =~= before.insert(name@, ev));
                        assert(text_map(*named) == named_after_block(before, blocks@[i as int]));
                    },
                    None => {},
                }
            },
            Block::Callout(c) => {
                assert(decreases_to!(blocks@ => blocks@[i as int]));
                collect_named_blocks(&c.content, named);
                assert(text_map(*named) == named_after_block(before, blocks@[i as int]));
            },
            _ => {},
        }
        assert(text_map(*named) == named_after_block(before, blocks@[i as int]));
        i += 1;
    }
    assert(blocks@.take(blocks@.len() as int) =~= blocks@);
}

/// A block bound for a tangled file, by value: target, body, source file,
/// line, whether it asks for a final newline.
pub open spec fn tangle_view(t: TangleBlock) -> (Seq<char>, Seq<char>, Seq<char>, u32, bool) {
    (t.target@, t.body@, t.source_file@, t.line, t.allow_trailing_newline)
}

pub open spec fn tangle_views(ts: Seq<TangleBlock>) -> Seq<(Seq<char>, Seq<char>, Seq<char>, u32, bool)> {
    ts.map_values(|t: TangleBlock| tangle_view(t))
}

/// The blocks a block contributes to tangling: a tangled code block its
/// body, a tangled callout its rendered text, then the blocks inside a
/// callout.
pub open spec fn block_tangles(
    b: Block,
    dir: Seq<char>,
    out_dir: Option<Seq<char>>,
    file: Seq<char>,
) -> Seq<(Seq<char>, Seq<char>, Seq<char>, u32, bool)>
    decreases b,
{
    match b {
        Block::CodeBlock(cb) => match target_of(cb.tags@, cb.attributes, dir, out_dir) {
            Some(t) => seq![(t, cb.body@, file, cb.span.line, wants_newline(cb.attributes))],
            None => Seq::empty(),
        },
        Block::Callout(c) => (match target_of(c.tags@, c.attributes, dir, out_dir) {
            Some(t) => seq![
                (
                    t,
                    crate::words::joined_with(callout_lines(c.content@), '\n'),
                    file,
                    c.span.line,
                    wants_newline(c.attributes),
                ),
            ],
            None => Seq::empty(),
        }) + blocks_tangles(c.content@, dir, out_dir, file),
        _ => Seq::empty(),
    }
}

/// The blocks that blocks contribute to tangling, in order.
pub open spec fn blocks_tangles(
    bs: Seq<Block>,
    dir: Seq<char>,
    out_dir: Option<Seq<char>>,
    file: Seq<char>,
) -> Seq<(Seq<char>, Seq<char>, Seq<char>, u32, bool)>
    decreases bs,
{
    if bs.len() == 0 {
        Seq::empty()
    } else {
        blocks_tangles(bs.drop_last(), dir, out_dir, file) + block_tangles(bs.last(), dir, out_dir, file)
    }
}

pub open spec fn opt_str_view(s: Option<&str>) -> Option<Seq<char>> {
    match s {
        Some(t) => Some(t@),
        None => None,
    }
}

/// Gathers the blocks to be tangled, in document order, looking inside
/// callouts; a tangled callout contributes its rendered text.
#[verifier::rlimit(50)]
pub fn collect_tangle_blocks(
    blocks: &Vec<Block>,
    source_dir: &str,
    output_dir: Option<&str>,
    source_file: &str,
    out: &mut Vec<TangleBlock>,
)
    ensures
        tangle_views(final(out)@) == tangle_views(old(out)@) + blocks_tangles(
            blocks@,
            source_dir@,
            opt_str_view(output_dir),
            source_file@,
        ),
    decreases blocks@,
{
    let ghost od = opt_str_view(output_dir);
    let ghost o0 = tangle_views(out@);
    let mut i: usize = 0;
    while i < blocks.len()
        invariant
            i <= blocks@.len(),
            od == opt_str_view(output_dir),
            tangle_views(out@) == o0 + blocks_tangles(blocks@.take(i as int), source_dir@, od, source_file@),
        decreases blocks@.len() - i,
    {
        assert(blocks@.take(i + 1).drop_last() =~= blocks@.take(i as int));
        assert(blocks@.take(i + 1).last() == blocks@[i as int]);
        let ghost before = tangle_views(out@);
        match &blocks[i] {
            Block::CodeBlock(cb) => {
                match tangle_target(&cb.tags, &cb.attributes, source_dir, output_dir) {
                    Some(target) => {
                        out.push(
                            TangleBlock {
                                target,
                                body: cb.body.clone(),
                                source_file: string_of(&chars_of(source_file)),
                                line: cb.span.line,
                                allow_trailing_newline: allows_trailing_newline(&cb.attributes),
                            },
                        );
                        assert(tangle_views(out@) =~= before.push(tangle_view(out@.last())));
                    },
                    None => {},
                }
            },
            Block::Callout(c) => {
                match tangle_target(&c.tags, &c.attributes, source_dir, output_dir) {
                    Some(target) => {
                        out.push(
                            TangleBlock {
                                target,
                                body: render_callout_content(&c.content),
                                source_file: string_of(&chars_of(source_file)),
                                line: c.span.line,
                                allow_trailing_newline: allows_trailing_newline(&c.attributes),
                            },
                        );
                        assert(tangle_views(out@) =~= before.push(tangle_view(out@.last())));
                    },
                    None => {},
                }
                let ghost mid = tangle_views(out@);
                assert(decreases_to!(blocks@ => blocks@[i as int]));
                collect_tangle_blocks(&c.content, source_dir, output_dir, source_file, out);
                assert(mid =~= before + (match target_of(c.tags@, c.attributes, source_dir@, od) {
                    Some(t) => seq![
                        (
                            t,
                            crate::words::joined_with(callout_lines(c.content@), '\n'),
                            source_file@,
                            c.span.line,
                            wants_newline(c.attributes),
                        ),
                    ],
                    None => Seq::empty(),
                }));
                assert(tangle_views(out@) =~= before + block_tangles(blocks@[i as int], source_dir@, od, source_file@));
            },
            _ => {},
        }
        assert(tangle_views(out@) =~= before + block_tangles(blocks@[i as int], source_dir@, od, source_file@));
        i += 1;
    }
    assert(blocks@.take(blocks@.len() as int) =~= blocks@);
}

/// The bodies of blocks joined with a blank line between them.
pub open spec fn joined_bodies(ts: Seq<TangleBlock>) -> Seq<char>
    decreases ts.len(),
{
    if ts.len() == 0 {
        Seq::empty()
    } else if ts.len() == 1 {
        ts[0].body@
    } else {
        joined_bodies(ts.drop_last()) + seq!['\n', '\n'] + ts.last().body@
    }
}

/// The content of a tangled file: the bodies of its blocks separated by a
/// blank line, with noweb references expanded, and a final newline added
/// when a block asks for one and the content has none.
pub open spec fn tangled(ts: Seq<TangleBlock>, named: StringMap<String>) -> Seq<char> {
    let c = expanded(joined_bodies(ts), text_map(named), Seq::empty(), named.entries().len());
    if (exists|i: int| 0 <= i < ts.len() && #[trigger] ts[i].allow_trailing_newline) && !(c.len()
        > 0 && c.last() == '\n') {
        c.push('\n')
    } else {
        c
    }
}

/// The content of a tangled file (see [`tangled`]).
pub fn tangled_content(blocks: &Vec<TangleBlock>, named: &StringMap<String>) -> (r: String)
    ensures
        r@ == tangled(blocks@, *named),
{
    let mut raw: Vec<char> = Vec::new();
    let mut allow = false;
    let mut i: usize = 0;
    while i < blocks.len()
        invariant
            i <= blocks@.len(),
            raw@ == joined_bodies(blocks@.take(i as int)),
            allow == exists|k: int| 0 <= k < i && #[trigger] blocks@[k].allow_trailing_newline,
        decreases blocks@.len() - i,
    {
        assert(blocks@.take(i + 1).drop_last() =~= blocks@.take(i as int));
        if i > 0 {
            raw.push('\n');
            raw.push('\n');
        }
        append_chars(&mut raw, &chars_of(blocks[i].body.as_str()));
        if i == 0 {
            assert(raw@ =~= joined_bodies(blocks@.take(1)));
        } else {
            assert(raw@ =~= joined_bodies(blocks@.take(i + 1)));
        }
        if blocks[i].allow_trailing_newline {
            allow = true;
        }
        i += 1;
    }
    assert(blocks@.take(blocks@.len() as int) =~= blocks@);
    let content = expand_noweb(string_of(&raw).as_str(), named);
    let mut c = chars_of(content.as_str());
    if allow && !(c.len() > 0 && c[c.len() - 1] == '\n') {
        c.push('\n');
    }
    string_of(&c)
}

} // verus!
