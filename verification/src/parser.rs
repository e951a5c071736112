//! Token-consuming parser.
//!
//! Block-level tokens from the [`Lexer`] drive the structure of the document;
//! [`tokenize_inline`] is called on demand for the text of each block.

use vstd::prelude::*;

use crate::ast::{
    key_index, lemma_key_index, lemma_key_index_some,
    Alignment, Block, Callout, Checkbox, CodeBlock, Comment, Document, FootnoteDefinition, Frontmatter,
    Heading, HtmlBlock, InlineContent, InlineSegment, Link, LinkDefinition, LinkTarget, List,
    ListItem, ListKind, Paragraph, PropertyDrawer, StringMap, Table,
};
use crate::error::{ParseError, ParseErrorKind};
use crate::inline::{inline_view, inline_views, lex_inline, opt_chars, tokenize_inline, InlineTok};
use crate::lexer::{block_tokens, ends_at_eof, Lexer};
use crate::span::{spec_merge, Span};
use crate::tags::{parse_tag, Tag};
use crate::tags::describes;
use crate::text::{
    append_chars, chars_of, contains_char, count_lead_digits, find_char, has_prefix, has_suffix,
    index_of, lead_digits, same, skip, slice_of, starts_with, string_of, trim, trim_start, trimmed,
    trimmed_start, lowercase, to_lower,
};
use crate::words::{join_with, joined_with, split_char, split_on, split_whitespace, views, words};
use crate::tokens::{spec_keyword_str, Spanned, Token};

verus! {

// ===========================================================================
// Walking the token stream
// ===========================================================================
/// The lexer moved forward over the same tokens and stayed inside them.
pub open spec fn moved<'a>(a: Lexer<'a>, b: Lexer<'a>) -> bool {
    &&& 0 <= a.pos()
    &&& b.tokens() == a.tokens()
    &&& b.text() == a.text()
    &&& a.pos() <= b.pos() <= b.tokens().len()
}

/// The cursor is inside the token stream (or just past its end).
pub open spec fn in_stream<'a>(l: Lexer<'a>) -> bool {
    0 <= l.pos() <= l.tokens().len()
}

/// The first index at or after `pos` that holds a `Newline` or `Eof`
/// (the end of the stream when there is none).
pub open spec fn line_end(toks: Seq<Spanned>, pos: int) -> int
    decreases toks.len() - pos,
{
    if pos >= toks.len() {
        pos
    } else if toks[pos].kind == Token::Newline || toks[pos].kind == Token::Eof {
        pos
    } else {
        line_end(toks, pos + 1)
    }
}

/// The text of the last `RawLine` token in `toks[pos..end]`, or the empty
/// text when there is none.
pub open spec fn last_raw(toks: Seq<Spanned>, pos: int, end: int) -> Seq<char>
    decreases end - pos,
{
    if end <= pos {
        Seq::empty()
    } else {
        match toks[end - 1].kind {
            Token::RawLine(t) => t@,
            _ => last_raw(toks, pos, end - 1),
        }
    }
}

/// Where a line that starts at `pos` ends: just past its `Newline`, or at
/// its `Eof`.
pub open spec fn after_line(toks: Seq<Spanned>, pos: int) -> int {
    let e = line_end(toks, pos);
    if e < toks.len() && toks[e].kind == Token::Newline {
        e + 1
    } else {
        e
    }
}

pub proof fn lemma_line_end(toks: Seq<Spanned>, pos: int)
    requires
        0 <= pos <= toks.len(),
    ensures
        pos <= line_end(toks, pos) <= toks.len(),
        line_end(toks, pos) < toks.len() ==> (toks[line_end(toks, pos)].kind == Token::Newline
            || toks[line_end(toks, pos)].kind == Token::Eof),
        pos <= after_line(toks, pos) <= toks.len(),
        pos < toks.len() && toks[pos].kind != Token::Eof ==> after_line(toks, pos) > pos,
    decreases toks.len() - pos,
{
    if pos < toks.len() && !(toks[pos].kind == Token::Newline || toks[pos].kind == Token::Eof) {
        lemma_line_end(toks, pos + 1);
    }
}

/// Consumes the tokens of the current line up to and including its
/// `Newline` (an `Eof` is left in place) and returns the text of the last
/// `RawLine` among them.
fn extract_raw_line(lex: &mut Lexer<'_>) -> (r: String)
    requires
        in_stream(*old(lex)),
    ensures
        moved(*old(lex), *final(lex)),
        final(lex).pos() == after_line(old(lex).tokens(), old(lex).pos()),
        old(lex).pos() < old(lex).tokens().len() && old(lex).current().kind != Token::Eof
            ==> final(lex).pos() > old(lex).pos(),
        r@ == last_raw(
            old(lex).tokens(),
            old(lex).pos(),
            line_end(old(lex).tokens(), old(lex).pos()),
        ),
{
    let ghost toks = lex.tokens();
    let ghost start = lex.pos();
    proof {
        lemma_line_end(toks, start);
    }
    let mut raw = String::new();
    loop
        invariant_except_break
            lex.tokens() == toks,
            lex.text() == old(lex).text(),
            start == old(lex).pos(),
            toks == old(lex).tokens(),
            line_end(toks, start) <= toks.len(),
            0 <= start,
            start <= lex.pos() <= line_end(toks, start),
            line_end(toks, lex.pos()) == line_end(toks, start),
            raw@ == last_raw(toks, start, lex.pos()),
        ensures
            lex.tokens() == toks,
            lex.text() == old(lex).text(),
            lex.pos() == after_line(toks, start),
            raw@ == last_raw(toks, start, line_end(toks, start)),
        decreases toks.len() - lex.pos(),
    {
        let ghost p = lex.pos();
        let step = match &lex.peek().kind {
            Token::Newline => 0u8,
            Token::Eof => 1u8,
            Token::RawLine(text) => {
                raw = text.clone();
                2u8
            },
            _ => 3u8,
        };
        if step == 0 {
            assert(p < toks.len() && toks[p].kind == Token::Newline);
            assert(line_end(toks, p) == p);
            lex.advance();
            break ;
        } else if step == 1 {
            assert(lex.current().kind == Token::Eof);
            assert(p < toks.len() ==> toks[p].kind == Token::Eof);
            assert(line_end(toks, p) == p);
            break ;
        }
        assert(p < toks.len());
        assert(toks[p].kind != Token::Newline && toks[p].kind != Token::Eof);
        assert(line_end(toks, p) == line_end(toks, p + 1));
        proof {
            lemma_line_end(toks, p + 1);
        }
        assert(raw@ == last_raw(toks, start, p + 1));
        lex.advance();
    }
    raw
}

/// Consumes a `RawLine` under the cursor, returning its text; leaves any
/// other token in place and returns the empty text.
fn consume_raw_line(lex: &mut Lexer<'_>) -> (r: String)
    requires
        in_stream(*old(lex)),
    ensures
        moved(*old(lex), *final(lex)),
        match old(lex).current().kind {
            Token::RawLine(t) => r@ == t@ && final(lex).pos() == old(lex).pos() + 1,
            _ => r@ == Seq::<char>::empty() && final(lex).pos() == old(lex).pos(),
        },
{
    let t = match &lex.peek().kind {
        Token::RawLine(text) => Some(text.clone()),
        _ => None,
    };
    match t {
        Some(t) => {
            lex.advance();
            t
        },
        None => String::new(),
    }
}

/// Consumes a `Newline` under the cursor.
fn skip_newline(lex: &mut Lexer<'_>)
    requires
        in_stream(*old(lex)),
    ensures
        moved(*old(lex), *final(lex)),
        final(lex).pos() == if old(lex).current().kind == Token::Newline {
            old(lex).pos() + 1
        } else {
            old(lex).pos()
        },
{
    let nl = match &lex.peek().kind {
        Token::Newline => true,
        _ => false,
    };
    if nl {
        lex.advance();
    }
}

/// Where the line of a tag block at `pos` ends: past the tag, its argument
/// and the line break.
pub open spec fn tag_line_end(toks: Seq<Spanned>, pos: int) -> int {
    let q = if kind_at(toks, pos + 1) is TagArg {
        pos + 2
    } else {
        pos + 1
    };
    if kind_at(toks, q) == Token::Newline {
        q + 1
    } else {
        q
    }
}

/// Where the lines of a paragraph from `p` end.
pub open spec fn para_end(toks: Seq<Spanned>, p: int) -> int
    decreases toks.len() - p,
{
    if 0 <= p < toks.len() && paragraph_token(toks[p].kind) {
        proof {
            lemma_line_end(toks, p);
        }
        para_end(toks, after_line(toks, p))
    } else {
        p
    }
}

/// Where the body of a code block from `p` ends: past its closing fence,
/// or where the stream ends.
pub open spec fn fence_end(toks: Seq<Spanned>, p: int, c: char, n: usize) -> int
    decreases toks.len() - p,
{
    if p < 0 || p >= toks.len() || toks[p].kind == Token::Eof {
        p
    } else if closes_fence(toks[p].kind, c, n) {
        after_opening(toks, p)
    } else {
        proof {
            lemma_line_end(toks, p);
        }
        fence_end(toks, after_line(toks, p), c, n)
    }
}

/// Where a block comment's lines from `p` end: past its closing line, or
/// where the stream ends.
pub open spec fn comment_end(toks: Seq<Spanned>, p: int) -> int
    decreases toks.len() - p,
{
    if p < 0 || p >= toks.len() || toks[p].kind == Token::Eof {
        p
    } else if toks[p].kind == Token::BlockCommentClose {
        after_opening(toks, p)
    } else {
        proof {
            lemma_line_end(toks, p);
        }
        comment_end(toks, after_line(toks, p))
    }
}

/// Where an HTML block's lines from `p` end: at a blank line, past the line
/// that closes `tag`, or where the stream ends.
pub open spec fn html_end(toks: Seq<Spanned>, p: int, tag: Seq<char>) -> int
    decreases toks.len() - p,
{
    if p < 0 || p >= toks.len() || toks[p].kind == Token::Eof || toks[p].kind == Token::BlankLine {
        p
    } else {
        proof {
            lemma_line_end(toks, p);
        }
        if toks[p].kind matches Token::HtmlClose { tag: t } && t@ == tag {
            after_line(toks, p)
        } else {
            html_end(toks, after_line(toks, p), tag)
        }
    }
}

/// Where a run of lines that start with `k`'s kind of token ends, each line
/// being that token, a raw text and a line break.
pub open spec fn quote_end(toks: Seq<Spanned>, p: int) -> int
    decreases toks.len() - p,
{
    if 0 <= p < toks.len() && toks[p].kind == Token::BlockquoteContinuation {
        quote_end(toks, after_opening(toks, p))
    } else {
        p
    }
}

pub open spec fn list_end(toks: Seq<Spanned>, p: int) -> int
    decreases toks.len() - p,
{
    if 0 <= p < toks.len() && toks[p].kind is ListMarker {
        list_end(toks, after_opening(toks, p))
    } else {
        p
    }
}

pub open spec fn rows_end(toks: Seq<Spanned>, p: int) -> int
    decreases toks.len() - p,
{
    if 0 <= p < toks.len() && toks[p].kind == Token::TableRow {
        rows_end(toks, after_opening(toks, p))
    } else {
        p
    }
}

/// Where the lines of an indented code block from `p` end: blank lines
/// belong to it only when more code follows them.
pub open spec fn indented_end(toks: Seq<Spanned>, p: int) -> int
    decreases toks.len() - p,
{
    if 0 <= p < toks.len() && toks[p].kind == Token::IndentedCodeLine {
        proof {
            lemma_line_end(toks, p);
        }
        indented_end(toks, after_line(toks, p))
    } else {
        let q = blanks_end(toks, p);
        if q > p && kind_at(toks, q) == Token::IndentedCodeLine && q <= toks.len() {
            indented_end(toks, q)
        } else {
            p
        }
    }
}

/// The number of blank lines in a row from `p` on.
pub open spec fn blank_count(toks: Seq<Spanned>, p: int) -> nat
    decreases toks.len() - p,
{
    if 0 <= p < toks.len() && toks[p].kind == Token::BlankLine {
        1 + blank_count(toks, after_token(toks, p))
    } else {
        0
    }
}

proof fn lemma_blank_count(toks: Seq<Spanned>, p: int)
    requires
        0 <= p <= toks.len(),
    ensures
        blank_count(toks, p) <= toks.len() - p,
        blank_count(toks, p) > 0 <==> blanks_end(toks, p) > p,
        p <= blanks_end(toks, p) <= toks.len(),
    decreases toks.len() - p,
{
    if 0 <= p < toks.len() && toks[p].kind == Token::BlankLine {
        lemma_blank_count(toks, after_token(toks, p));
    }
}

/// The lines of an indented code block from `p` on, each with its
/// indentation removed, the blank lines between code lines kept as empty
/// lines and those after the last one left out; and the span of the last
/// code line (`last` when there is none).
pub open spec fn indented_lines(toks: Seq<Spanned>, p: int, last: Span) -> (Seq<Seq<char>>, Span)
    decreases toks.len() - p,
{
    if 0 <= p < toks.len() && toks[p].kind == Token::IndentedCodeLine {
        proof {
            lemma_line_end(toks, p);
        }
        let r = indented_lines(toks, after_line(toks, p), toks[p].span);
        (seq![unindented(last_raw(toks, p, line_end(toks, p)))] + r.0, r.1)
    } else {
        let q = blanks_end(toks, p);
        if q > p && kind_at(toks, q) == Token::IndentedCodeLine && q <= toks.len() {
            let r = indented_lines(toks, q, last);
            (Seq::new(blank_count(toks, p), |i: int| Seq::<char>::empty()) + r.0, r.1)
        } else {
            (Seq::empty(), last)
        }
    }
}

/// `b` is the indented code block that starts at `pos`: no language, tags
/// or attributes, its body the unindented lines joined, and its span from
/// the first code line to the last.
pub open spec fn indented_made(toks: Seq<Spanned>, pos: int, b: Block) -> bool {
    let body = indented_lines(toks, pos, toks[pos].span);
    &&& b matches Block::CodeBlock(cb)
    &&& cb.lang is None
    &&& cb.body@ == joined(body.0)
    &&& cb.tags@.len() == 0
    &&& cb.attributes.to_map() == Map::<Seq<char>, String>::empty()
    &&& cb.span == spec_merge(toks[pos].span, body.1)
}

/// Where a property drawer's lines from `p` end: past its `#end` line, or
/// where the stream ends.
pub open spec fn drawer_end(toks: Seq<Spanned>, p: int) -> int
    decreases toks.len() - p,
{
    if p < 0 || p >= toks.len() || toks[p].kind == Token::Eof {
        p
    } else if toks[p].kind == Token::PropertiesClose {
        after_token(toks, p)
    } else if toks[p].kind == Token::BlankLine {
        drawer_end(toks, after_token(toks, p))
    } else {
        proof {
            lemma_line_end(toks, p);
        }
        drawer_end(toks, after_line(toks, p))
    }
}

/// Where a heading at `pos` ends: past its line, and past the property
/// drawer that follows it after blank lines, if one does.
pub open spec fn heading_end(toks: Seq<Spanned>, pos: int) -> int {
    let q = after_opening(toks, pos);
    let b = blanks_end(toks, q);
    if kind_at(toks, b) == Token::PropertiesOpen {
        drawer_end(toks, after_token(toks, b))
    } else {
        q
    }
}

/// Where a run of blank lines from `p` ends.
pub open spec fn blanks_end(toks: Seq<Spanned>, p: int) -> int
    decreases toks.len() - p,
{
    if 0 <= p < toks.len() && toks[p].kind == Token::BlankLine {
        blanks_end(toks, after_token(toks, p))
    } else {
        p
    }
}

/// Consumes blank lines (each with its `Newline`).
fn skip_blank_lines(lex: &mut Lexer<'_>)
    requires
        in_stream(*old(lex)),
    ensures
        moved(*old(lex), *final(lex)),
        final(lex).current().kind != Token::BlankLine,
        final(lex).pos() == blanks_end(old(lex).tokens(), old(lex).pos() as int),
{
    loop
        invariant
            moved(*old(lex), *lex),
            blanks_end(lex.tokens(), lex.pos() as int) == blanks_end(old(lex).tokens(), old(lex).pos() as int),
        ensures
            moved(*old(lex), *lex),
            lex.current().kind != Token::BlankLine,
            lex.pos() == blanks_end(old(lex).tokens(), old(lex).pos() as int),
        decreases lex.tokens().len() - lex.pos(),
    {
        let blank = match &lex.peek().kind {
            Token::BlankLine => true,
            _ => false,
        };
        if !blank {
            break ;
        }
        lex.advance();
        skip_newline(lex);
    }
}

// ===========================================================================
// Joining lines
// ===========================================================================
/// The lines joined with `'\n'` between them.
pub open spec fn joined(ls: Seq<Seq<char>>) -> Seq<char>
    decreases ls.len(),
{
    if ls.len() == 0 {
        Seq::empty()
    } else if ls.len() == 1 {
        ls[0]
    } else {
        joined(ls.drop_last()) + seq!['\n'] + ls.last()
    }
}

/// The views of a vector of lines.
pub open spec fn line_views(ls: Seq<Vec<char>>) -> Seq<Seq<char>> {
    ls.map_values(|l: Vec<char>| l@)
}

/// The lines joined with `'\n'` between them.
pub fn join_lines(ls: &Vec<Vec<char>>) -> (r: Vec<char>)
    ensures
        r@ == joined(line_views(ls@)),
{
    let mut out: Vec<char> = Vec::new();
    let mut i: usize = 0;
    while i < ls.len()
        invariant
            i <= ls@.len(),
            out@ == joined(line_views(ls@.take(i as int))),
        decreases ls@.len() - i,
    {
        let ghost pre = line_views(ls@.take(i as int));
        if i > 0 {
            out.push('\n');
        }
        append_chars(&mut out, &ls[i]);
        proof {
            let next = line_views(ls@.take(i + 1));
            assert(next.drop_last() =~= pre);
            assert(next.last() == ls@[i as int]@);
            if i == 0 {
                assert(next.len() == 1);
            }
        }
        i += 1;
    }
    assert(ls@.take(ls@.len() as int) =~= ls@);
    out
}

// ===========================================================================
// Tables
// ===========================================================================
/// One leading and one trailing `|` removed.
pub open spec fn strip_pipes(t: Seq<char>) -> Seq<char> {
    let a = if t.len() > 0 && t[0] == '|' {
        t.skip(1)
    } else {
        t
    };
    if a.len() > 0 && a.last() == '|' {
        a.drop_last()
    } else {
        a
    }
}

/// The cells of a table line, untrimmed.
pub open spec fn row_cells(line: Seq<char>) -> Seq<Seq<char>> {
    split_on(strip_pipes(trim(line)), '|')
}

fn strip_pipes_of(t: &[char]) -> (r: Vec<char>)
    ensures
        r@ == strip_pipes(t@),
{
    let a = if t.len() > 0 && t[0] == '|' {
        skip(t, 1)
    } else {
        slice_of(t, 0, t.len())
    };
    assert(t@.subrange(0, t@.len() as int) =~= t@);
    if a.len() > 0 && a[a.len() - 1] == '|' {
        let r = slice_of(&a, 0, a.len() - 1);
        assert(r@ =~= a@.drop_last());
        r
    } else {
        a
    }
}

/// Every character is a `-`.
pub open spec fn all_dash(m: Seq<char>) -> bool {
    forall|i: int| 0 <= i < m.len() ==> m[i] == '-'
}

/// The alignment that a separator cell such as `:---:` stands for; `None`
/// when the cell is not made of dashes with optional colons at its ends.
pub open spec fn cell_alignment(cell: Seq<char>) -> Option<Alignment> {
    let c = trim(cell);
    if c.len() == 0 {
        None
    } else {
        let left = c[0] == ':';
        let right = c.last() == ':';
        let m1 = if left {
            c.skip(1)
        } else {
            c
        };
        if right && m1.len() == 0 {
            None
        } else {
            let m = if right {
                m1.drop_last()
            } else {
                m1
            };
            if m.len() == 0 || !all_dash(m) {
                None
            } else if left && right {
                Some(Alignment::Center)
            } else if left {
                Some(Alignment::Left)
            } else if right {
                Some(Alignment::Right)
            } else {
                Some(Alignment::Unspecified)
            }
        }
    }
}

/// The alignments of all cells, if every cell is a separator cell.
pub open spec fn alignments_of(cells: Seq<Seq<char>>) -> Option<Seq<Alignment>>
    decreases cells.len(),
{
    if cells.len() == 0 {
        Some(Seq::empty())
    } else {
        match (alignments_of(cells.drop_last()), cell_alignment(cells.last())) {
            (Some(a), Some(x)) => Some(a.push(x)),
            _ => None,
        }
    }
}

/// The alignments that a table separator line such as `|:--|--:|` gives.
pub open spec fn separator_of(line: Seq<char>) -> Option<Seq<Alignment>> {
    alignments_of(row_cells(line))
}

fn all_dashes(m: &[char]) -> (b: bool)
    ensures
        b == all_dash(m@),
{
    let mut i: usize = 0;
    while i < m.len()
        invariant
            i <= m.len(),
            forall|j: int| 0 <= j < i ==> m@[j] == '-',
        decreases m.len() - i,
    {
        if m[i] != '-' {
            return false;
        }
        i += 1;
    }
    true
}

fn alignment_of_cell(cell: &[char]) -> (r: Option<Alignment>)
    ensures
        r == cell_alignment(cell@),
{
    let c = trimmed(cell);
    if c.len() == 0 {
        return None;
    }
    let left = c[0] == ':';
    let right = c[c.len() - 1] == ':';
    let m1 = if left {
        skip(&c, 1)
    } else {
        slice_of(&c, 0, c.len())
    };
    assert(c@.subrange(0, c@.len() as int) =~= c@);
    if right && m1.len() == 0 {
        return None;
    }
    let m = if right {
        slice_of(&m1, 0, m1.len() - 1)
    } else {
        slice_of(&m1, 0, m1.len())
    };
    assert(m1@.subrange(0, m1@.len() as int) =~= m1@);
    proof {
        if right {
            assert(m1@.subrange(0, m1@.len() - 1) =~= m1@.drop_last());
        }
        let cs = trim(cell@);
        assert(c@ == cs);
        assert(left == (cs[0] == ':'));
        assert(right == (cs.last() == ':'));
        let sm1 = if left { cs.skip(1) } else { cs };
        assert(m1@ == sm1);
        let sm = if right { sm1.drop_last() } else { sm1 };
        assert(m@ == sm);
    }
    if m.len() == 0 || !all_dashes(&m) {
        None
    } else if left && right {
        Some(Alignment::Center)
    } else if left {
        Some(Alignment::Left)
    } else if right {
        Some(Alignment::Right)
    } else {
        Some(Alignment::Unspecified)
    }
}

/// The column alignments that a separator line gives, or `None` when the
/// line is not a separator.
pub fn try_parse_separator(line: &[char]) -> (r: Option<Vec<Alignment>>)
    ensures
        match r {
            Some(a) => separator_of(line@) == Some(a@),
            None => separator_of(line@) is None,
        },
{
    let inner = strip_pipes_of(&trimmed(line));
    let cells = split_char(&inner, '|');
    let ghost cs = views(cells@);
    let mut out: Vec<Alignment> = Vec::new();
    let mut i: usize = 0;
    while i < cells.len()
        invariant
            i <= cells@.len(),
            cs == views(cells@),
            cs == row_cells(line@),
            alignments_of(cs.take(i as int)) == Some(out@),
        decreases cells@.len() - i,
    {
        assert(cs.take(i + 1).drop_last() =~= cs.take(i as int));
        match alignment_of_cell(&cells[i]) {
            Some(a) => {
                out.push(a);
            },
            None => {
                proof {
                    lemma_alignments_none(cs, i as int);
                }
                return None;
            },
        }
        i += 1;
    }
    assert(cs.take(cells@.len() as int) =~= cs);
    Some(out)
}

proof fn lemma_alignments_none(cs: Seq<Seq<char>>, i: int)
    requires
        0 <= i < cs.len(),
        cell_alignment(cs[i]) is None,
    ensures
        alignments_of(cs) is None,
    decreases cs.len(),
{
    if i < cs.len() - 1 {
        lemma_alignments_none(cs.drop_last(), i);
    }
}

// ===========================================================================
// List items
// ===========================================================================
/// The text of a list item line after its marker (`- `, `+ `, `* ` or
/// `N. `).
pub open spec fn after_list_marker(text: Seq<char>) -> Seq<char> {
    let t = trim_start(text);
    if starts_with(t, "- "@) || starts_with(t, "+ "@) || starts_with(t, "* "@) {
        t.skip(2)
    } else {
        let d = lead_digits(t);
        let d2 = if d == t.len() {
            0
        } else {
            d
        };
        if starts_with(t.skip(d2 as int), ". "@) {
            t.skip(d2 + 2 as int)
        } else {
            t
        }
    }
}

/// The checkbox of a list item line and the text that follows it.
pub open spec fn list_item_parts(text: Seq<char>) -> (Option<Checkbox>, Seq<char>) {
    let a = after_list_marker(text);
    if starts_with(a, "[ ] "@) {
        (Some(Checkbox::Unchecked), a.skip(4))
    } else if starts_with(a, "[x] "@) || starts_with(a, "[X] "@) {
        (Some(Checkbox::Checked), a.skip(4))
    } else {
        (None, a)
    }
}

/// Splits a list item line into its checkbox and its text.
pub fn parse_list_item_content(text: &[char]) -> (r: (Option<Checkbox>, Vec<char>))
    ensures
        (r.0, r.1@) == list_item_parts(text@),
{
    proof {
        reveal_strlit("- ");
        reveal_strlit("+ ");
        reveal_strlit("* ");
        reveal_strlit(". ");
        reveal_strlit("[ ] ");
        reveal_strlit("[x] ");
        reveal_strlit("[X] ");
    }
    let t = trimmed_start(text);
    let after = if has_prefix(&t, &chars_of("- ")) || has_prefix(&t, &chars_of("+ ")) || has_prefix(
        &t,
        &chars_of("* "),
    ) {
        skip(&t, 2)
    } else {
        let d = count_lead_digits(&t);
        let d2 = if d == t.len() {
            0
        } else {
            d
        };
        let rest = skip(&t, d2);
        if has_prefix(&rest, &chars_of(". ")) {
            assert(rest@.len() >= 2);
            let r = skip(&t, d2 + 2);
            r
        } else {
            slice_of(&t, 0, t.len())
        }
    };
    assert(t@.subrange(0, t@.len() as int) =~= t@);
    assert(after@ == after_list_marker(text@));
    if has_prefix(&after, &chars_of("[ ] ")) {
        (Some(Checkbox::Unchecked), skip(&after, 4))
    } else if has_prefix(&after, &chars_of("[x] ")) || has_prefix(&after, &chars_of("[X] ")) {
        (Some(Checkbox::Checked), skip(&after, 4))
    } else {
        (None, after)
    }
}

// ===========================================================================
// Code block info strings and metadata
// ===========================================================================
/// The names of the `#name` words, in order.
pub open spec fn tag_names(ws: Seq<Seq<char>>) -> Seq<Seq<char>>
    decreases ws.len(),
{
    if ws.len() == 0 {
        Seq::empty()
    } else {
        let rest = tag_names(ws.drop_last());
        let w = ws.last();
        if w.len() > 1 && w[0] == '#' {
            rest.push(w.skip(1))
        } else {
            rest
        }
    }
}

/// The `key=value` words as a map; a later word overrides an earlier one.
pub open spec fn attr_map(ws: Seq<Seq<char>>) -> Map<Seq<char>, Seq<char>>
    decreases ws.len(),
{
    if ws.len() == 0 {
        Map::empty()
    } else {
        let m = attr_map(ws.drop_last());
        let w = ws.last();
        if w.len() > 1 && w[0] == '#' {
            m
        } else {
            match find_char(w, '=') {
                Some(i) => m.insert(w.take(i as int), w.skip(i + 1 as int)),
                None => m,
            }
        }
    }
}

/// The tags of `ws` are exactly the `#name` words, read with no argument.
pub open spec fn tags_of_words(tags: Seq<Tag>, ws: Seq<Seq<char>>, span: Span) -> bool {
    &&& tags.len() == tag_names(ws).len()
    &&& forall|i: int|
        0 <= i < tags.len() ==> describes(tag_names(ws)[i], Seq::empty(), #[trigger] tags[i].kind)
            && tags[i].span == span
}

/// The string values of a string map.
pub open spec fn text_map(m: Map<Seq<char>, String>) -> Map<Seq<char>, Seq<char>> {
    m.map_values(|v: String| v@)
}

fn metadata_from_words(ws: &Vec<Vec<char>>, from: usize, span: Span) -> (r: (
    Vec<Tag>,
    StringMap<String>,
))
    requires
        from <= ws@.len(),
    ensures
        tags_of_words(r.0@, views(ws@).skip(from as int), span),
        text_map(r.1.to_map()) == attr_map(views(ws@).skip(from as int)),
{
    let ghost all = views(ws@).skip(from as int);
    let mut tag_list: Vec<Tag> = Vec::new();
    let mut attrs: StringMap<String> = StringMap::new();
    let mut i: usize = from;
    assert(all.take(0) =~= Seq::<Seq<char>>::empty());
    assert(text_map(attrs.to_map()) =~= Map::<Seq<char>, Seq<char>>::empty());
    while i < ws.len()
        invariant
            from <= i <= ws@.len(),
            all == views(ws@).skip(from as int),
            tags_of_words(tag_list@, all.take(i - from), span),
            text_map(attrs.to_map()) == attr_map(all.take(i - from)),
        decreases ws@.len() - i,
    {
        let w = &ws[i];
        let ghost pre = all.take(i - from);
        let ghost cur = all.take(i - from + 1);
        assert(cur.drop_last() =~= pre);
        assert(cur.last() == w@);
        if w.len() > 1 && w[0] == '#' {
            let name = string_of(&skip(w, 1));
            let t = parse_tag(name.as_str(), None, span);
            tag_list.push(t);
            assert(tag_names(cur) == tag_names(pre).push(w@.skip(1)));
            assert forall|k: int| 0 <= k < tag_list@.len() implies describes(
                tag_names(cur)[k],
                Seq::empty(),
                #[trigger] tag_list@[k].kind,
            ) && tag_list@[k].span == span by {
                if k < tag_list@.len() - 1 {
                    assert(tag_names(cur)[k] == tag_names(pre)[k]);
                }
            }
        } else {
            match index_of(w, '=') {
                Some(eq) => {
                    let key = string_of(&slice_of(w, 0, eq));
                    let value = string_of(&skip(w, eq + 1));
                    let ghost m0 = attrs.to_map();
                    attrs.insert(key, value);
                    assert(w@.subrange(0, eq as int) =~= w@.take(eq as int));
                    assert(text_map(attrs.to_map()) =~= text_map(m0).insert(key@, value@));
                },
                None => {},
            }
            assert(tag_names(cur) == tag_names(pre));
        }
        i += 1;
    }
    assert(all.take(ws@.len() - from) =~= all);
    (tag_list, attrs)
}

/// The tags and `key=value` attributes of a metadata string such as
/// `#tangle file=main.rs`.
pub fn parse_metadata(info: &[char], span: Span) -> (r: (Vec<Tag>, StringMap<String>))
    ensures
        tags_of_words(r.0@, words(info@), span),
        text_map(r.1.to_map()) == attr_map(words(info@)),
{
    let ws = split_whitespace(info);
    assert(views(ws@).skip(0) =~= views(ws@));
    metadata_from_words(&ws, 0, span)
}

/// The language of a code block info string: its first word, unless that
/// is a `#tag` or a `key=value`.
pub open spec fn code_lang(ws: Seq<Seq<char>>) -> Option<Seq<char>> {
    if ws.len() > 0 && !(ws[0].len() > 0 && ws[0][0] == '#') && !contains_char(ws[0], '=') {
        Some(ws[0])
    } else {
        None
    }
}

/// The language, tags and attributes of a code block info string.
pub fn parse_code_info(info: &[char], span: Span) -> (r: (
    Option<String>,
    Vec<Tag>,
    StringMap<String>,
))
    ensures
        match r.0 {
            Some(l) => code_lang(words(info@)) == Some(l@),
            None => code_lang(words(info@)) is None,
        },
        ({
            let ws = words(info@);
            let meta = if code_lang(ws) is Some {
                ws.skip(1)
            } else {
                ws
            };
            &&& tags_of_words(r.1@, meta, span)
            &&& text_map(r.2.to_map()) == attr_map(meta)
        }),
{
    let ws = split_whitespace(info);
    let is_lang = ws.len() > 0 && !(ws[0].len() > 0 && ws[0][0] == '#') && !crate::text::has_char(
        &ws[0],
        '=',
    );
    let lang = if is_lang {
        Some(string_of(&ws[0]))
    } else {
        None
    };
    let from: usize = if is_lang {
        1
    } else {
        0
    };
    assert(views(ws@).skip(0) =~= views(ws@));
    let (tag_list, attrs) = metadata_from_words(&ws, from, span);
    (lang, tag_list, attrs)
}

// ===========================================================================
// HTML
// ===========================================================================
/// The HTML elements that never have a closing tag.
pub open spec fn void_element(tag: Seq<char>) -> bool {
    tag == "area"@ || tag == "base"@ || tag == "br"@ || tag == "col"@ || tag == "embed"@ || tag
        == "hr"@ || tag == "img"@ || tag == "input"@ || tag == "link"@ || tag == "meta"@ || tag
        == "param"@ || tag == "source"@ || tag == "track"@ || tag == "wbr"@
}

/// Whether `tag` names an HTML element that never has a closing tag.
pub fn is_void_element(tag: &[char]) -> (b: bool)
    ensures
        b == void_element(tag@),
{
    same(tag, &chars_of("area")) || same(tag, &chars_of("base")) || same(tag, &chars_of("br"))
        || same(tag, &chars_of("col")) || same(tag, &chars_of("embed")) || same(
        tag,
        &chars_of("hr"),
    ) || same(tag, &chars_of("img")) || same(tag, &chars_of("input")) || same(
        tag,
        &chars_of("link"),
    ) || same(tag, &chars_of("meta")) || same(tag, &chars_of("param")) || same(
        tag,
        &chars_of("source"),
    ) || same(tag, &chars_of("track")) || same(tag, &chars_of("wbr"))
}

// ===========================================================================
// Link references
// ===========================================================================
/// The form under which link labels are compared: whitespace runs collapsed
/// to one space, no whitespace at the ends, lower case.
pub open spec fn normalized_label(l: Seq<char>) -> Seq<char> {
    lowercase(joined_with(words(l), ' '))
}

/// Normalises a link label for lookup.
pub fn normalize_label(l: &[char]) -> (r: Vec<char>)
    ensures
        r@ == normalized_label(l@),
{
    let ws = split_whitespace(l);
    let j = join_with(&ws, ' ');
    to_lower(&j)
}

/// No link reference in `s` (at any depth of emphasis) has a definition in
/// `defs`: each one that could be resolved was.
pub open spec fn segs_resolved(s: Seq<InlineSegment>, defs: Map<Seq<char>, LinkTarget>) -> bool
    decreases s,
{
    if s.len() == 0 {
        true
    } else {
        segs_resolved(s.drop_last(), defs) && seg_resolved(s.last(), defs)
    }
}

pub open spec fn seg_resolved(seg: InlineSegment, defs: Map<Seq<char>, LinkTarget>) -> bool
    decreases seg,
{
    match seg {
        InlineSegment::Bold(c) => segs_resolved(c.segments@, defs),
        InlineSegment::Italic(c) => segs_resolved(c.segments@, defs),
        InlineSegment::Strikethrough(c) => segs_resolved(c.segments@, defs),
        InlineSegment::LinkRef { label, .. } => !defs.contains_key(normalized_label(label@)),
        _ => true,
    }
}

/// Whether every link reference left in a block (looking into tables,
/// list items and callouts) names a label that `defs` lacks.
pub open spec fn block_resolved(b: Block, defs: Map<Seq<char>, LinkTarget>) -> bool
    decreases b,
{
    match b {
        Block::Heading(h) => segs_resolved(h.content.segments@, defs),
        Block::Paragraph(p) => segs_resolved(p.content.segments@, defs),
        Block::FootnoteDefinition(f) => segs_resolved(f.content.segments@, defs),
        Block::Table(t) => contents_resolved(t.headers@, defs) && rows_resolved(t.rows@, defs),
        Block::List(l) => items_resolved(l.items@, defs),
        Block::Callout(c) => blocks_resolved(c.content@, defs),
        _ => true,
    }
}

pub open spec fn blocks_resolved(bs: Seq<Block>, defs: Map<Seq<char>, LinkTarget>) -> bool
    decreases bs,
{
    if bs.len() == 0 {
        true
    } else {
        blocks_resolved(bs.drop_last(), defs) && block_resolved(bs.last(), defs)
    }
}

pub open spec fn items_resolved(items: Seq<ListItem>, defs: Map<Seq<char>, LinkTarget>) -> bool
    decreases items,
{
    if items.len() == 0 {
        true
    } else {
        items_resolved(items.drop_last(), defs) && item_resolved(items.last(), defs)
    }
}

pub open spec fn item_resolved(item: ListItem, defs: Map<Seq<char>, LinkTarget>) -> bool
    decreases item,
{
    &&& segs_resolved(item.content.segments@, defs)
    &&& match item.description {
        Some(d) => segs_resolved(d.segments@, defs),
        None => true,
    }
    &&& blocks_resolved(item.children@, defs)
}

pub open spec fn contents_resolved(cs: Seq<InlineContent>, defs: Map<Seq<char>, LinkTarget>) -> bool {
    forall|i: int| 0 <= i < cs.len() ==> #[trigger] segs_resolved(cs[i].segments@, defs)
}

pub open spec fn rows_resolved(rows: Seq<Vec<InlineContent>>, defs: Map<Seq<char>, LinkTarget>) -> bool {
    forall|i: int| 0 <= i < rows.len() ==> #[trigger] contents_resolved(rows[i]@, defs)
}

proof fn lemma_segs_mono(s: Seq<InlineSegment>, d1: Map<Seq<char>, LinkTarget>, d2: Map<Seq<char>, LinkTarget>)
    requires
        d2.dom().subset_of(d1.dom()),
        segs_resolved(s, d1),
    ensures
        segs_resolved(s, d2),
    decreases s,
{
    if s.len() > 0 {
        lemma_segs_mono(s.drop_last(), d1, d2);
        lemma_seg_mono(s.last(), d1, d2);
    }
}

proof fn lemma_seg_mono(seg: InlineSegment, d1: Map<Seq<char>, LinkTarget>, d2: Map<Seq<char>, LinkTarget>)
    requires
        d2.dom().subset_of(d1.dom()),
        seg_resolved(seg, d1),
    ensures
        seg_resolved(seg, d2),
    decreases seg,
{
    match seg {
        InlineSegment::Bold(c) => lemma_segs_mono(c.segments@, d1, d2),
        InlineSegment::Italic(c) => lemma_segs_mono(c.segments@, d1, d2),
        InlineSegment::Strikethrough(c) => lemma_segs_mono(c.segments@, d1, d2),
        _ => {},
    }
}

proof fn lemma_contents_mono(cs: Seq<InlineContent>, d1: Map<Seq<char>, LinkTarget>, d2: Map<Seq<char>, LinkTarget>)
    requires
        d2.dom().subset_of(d1.dom()),
        contents_resolved(cs, d1),
    ensures
        contents_resolved(cs, d2),
{
    assert forall|i: int| 0 <= i < cs.len() implies #[trigger] segs_resolved(cs[i].segments@, d2) by {
        lemma_segs_mono(cs[i].segments@, d1, d2);
    }
}

proof fn lemma_block_mono(b: Block, d1: Map<Seq<char>, LinkTarget>, d2: Map<Seq<char>, LinkTarget>)
    requires
        d2.dom().subset_of(d1.dom()),
        block_resolved(b, d1),
    ensures
        block_resolved(b, d2),
    decreases b,
{
    match b {
        Block::Heading(h) => lemma_segs_mono(h.content.segments@, d1, d2),
        Block::Paragraph(p) => lemma_segs_mono(p.content.segments@, d1, d2),
        Block::FootnoteDefinition(f) => lemma_segs_mono(f.content.segments@, d1, d2),
        Block::Table(t) => {
            lemma_contents_mono(t.headers@, d1, d2);
            assert forall|i: int| 0 <= i < t.rows@.len() implies #[trigger] contents_resolved(t.rows@[i]@, d2) by {
                lemma_contents_mono(t.rows@[i]@, d1, d2);
            }
        },
        Block::List(l) => lemma_items_mono(l.items@, d1, d2),
        Block::Callout(c) => lemma_blocks_mono(c.content@, d1, d2),
        _ => {},
    }
}

proof fn lemma_blocks_mono(bs: Seq<Block>, d1: Map<Seq<char>, LinkTarget>, d2: Map<Seq<char>, LinkTarget>)
    requires
        d2.dom().subset_of(d1.dom()),
        blocks_resolved(bs, d1),
    ensures
        blocks_resolved(bs, d2),
    decreases bs,
{
    if bs.len() > 0 {
        lemma_blocks_mono(bs.drop_last(), d1, d2);
        lemma_block_mono(bs.last(), d1, d2);
    }
}

proof fn lemma_items_mono(items: Seq<ListItem>, d1: Map<Seq<char>, LinkTarget>, d2: Map<Seq<char>, LinkTarget>)
    requires
        d2.dom().subset_of(d1.dom()),
        items_resolved(items, d1),
    ensures
        items_resolved(items, d2),
    decreases items,
{
    if items.len() > 0 {
        lemma_items_mono(items.drop_last(), d1, d2);
        lemma_item_mono(items.last(), d1, d2);
    }
}

proof fn lemma_item_mono(item: ListItem, d1: Map<Seq<char>, LinkTarget>, d2: Map<Seq<char>, LinkTarget>)
    requires
        d2.dom().subset_of(d1.dom()),
        item_resolved(item, d1),
    ensures
        item_resolved(item, d2),
    decreases item,
{
    lemma_segs_mono(item.content.segments@, d1, d2);
    match item.description {
        Some(d) => lemma_segs_mono(d.segments@, d1, d2),
        None => {},
    }
    lemma_blocks_mono(item.children@, d1, d2);
}

/// Copies a link target.
fn copy_target(t: &LinkTarget) -> (r: LinkTarget)
    ensures
        r.url@ == t.url@,
        r.title matches Some(x) ==> t.title matches Some(y) && x@ == y@,
        r.title is None ==> t.title is None,
        same_target(r, *t),
{
    let title = match &t.title {
        Some(x) => Some(x.clone()),
        None => None,
    };
    LinkTarget { url: t.url.clone(), title }
}

// ===========================================================================
// Inline content
// ===========================================================================
/// Which emphasis delimiter a token is: 1 bold, 2 italic, 3 strikethrough,
/// 0 none.
pub open spec fn delim_code(t: Token) -> u8 {
    match t {
        Token::BoldDelim => 1,
        Token::ItalicDelim => 2,
        Token::StrikethroughDelim => 3,
        _ => 0,
    }
}

fn delim_of(t: &Token) -> (c: u8)
    ensures
        c == delim_code(*t),
{
    match t {
        Token::BoldDelim => 1,
        Token::ItalicDelim => 2,
        Token::StrikethroughDelim => 3,
        _ => 0,
    }
}

/// The index of the first delimiter of kind `code` in `toks[lo..hi]`, or
/// `hi` when there is none.
pub fn find_matching_delim(toks: &Vec<Spanned>, lo: usize, hi: usize, code: u8) -> (r: usize)
    requires
        lo <= hi <= toks@.len(),
    ensures
        lo <= r <= hi,
        r < hi ==> delim_code(toks@[r as int].kind) == code,
        forall|j: int| lo <= j < r ==> delim_code(#[trigger] toks@[j].kind) != code,
{
    let mut i = lo;
    while i < hi
        invariant
            lo <= i <= hi <= toks@.len(),
            forall|j: int| lo <= j < i ==> delim_code(#[trigger] toks@[j].kind) != code,
        decreases hi - i,
    {
        if delim_of(&toks[i].kind) == code {
            return i;
        }
        i += 1;
    }
    hi
}

proof fn lemma_resolved_push(
    s: Seq<InlineSegment>,
    x: InlineSegment,
    defs: Map<Seq<char>, LinkTarget>,
)
    requires
        segs_resolved(s, defs),
        seg_resolved(x, defs),
    ensures
        segs_resolved(s.push(x), defs),
{
    assert(s.push(x).drop_last() =~= s);
}

/// Which emphasis delimiter a token value is, as [`delim_code`] says of a
/// token.
pub open spec fn tok_delim(t: InlineTok) -> u8 {
    match t {
        InlineTok::BoldDelim => 1,
        InlineTok::ItalicDelim => 2,
        InlineTok::StrikethroughDelim => 3,
        _ => 0,
    }
}

/// The first index in `[i, hi)` whose token is a delimiter of kind `code`,
/// or `hi` when there is none.
pub open spec fn first_delim(ts: Seq<InlineTok>, i: int, hi: int, code: u8) -> int
    decreases hi - i,
{
    if i >= hi {
        hi
    } else if tok_delim(ts[i]) == code {
        i
    } else {
        first_delim(ts, i + 1, hi, code)
    }
}

pub proof fn lemma_first_delim_bounds(ts: Seq<InlineTok>, i: int, hi: int, code: u8)
    requires
        i <= hi,
    ensures
        i <= first_delim(ts, i, hi, code) <= hi,
    decreases hi - i,
{
    if i < hi && tok_delim(ts[i]) != code {
        lemma_first_delim_bounds(ts, i + 1, hi, code);
    }
}

proof fn lemma_first_delim_is(ts: Seq<InlineTok>, i: int, hi: int, code: u8, r: int)
    requires
        i <= r <= hi,
        r < hi ==> tok_delim(ts[r]) == code,
        forall|j: int| i <= j < r ==> tok_delim(#[trigger] ts[j]) != code,
    ensures
        first_delim(ts, i, hi, code) == r,
    decreases r - i,
{
    if i < r {
        lemma_first_delim_is(ts, i + 1, hi, code, r);
    }
}

/// The text of the argument token right after a tag at `i`, when it comes
/// before `hi`.
pub open spec fn arg_after(ts: Seq<InlineTok>, i: int, hi: int) -> Option<Seq<char>> {
    if i + 1 < hi {
        match ts[i + 1] {
            InlineTok::TagArg(a) => Some(a),
            _ => None,
        }
    } else {
        None
    }
}

/// A tag's argument as the tag reads it: trimmed, empty when there is none.
pub open spec fn arg_chars(a: Option<Seq<char>>) -> Seq<char> {
    match a {
        Some(x) => crate::text::trim(x),
        None => Seq::empty(),
    }
}

/// Whether a token other than a delimiter makes a segment.
pub open spec fn makes_segment(k: InlineTok) -> bool {
    match k {
        InlineTok::Text(_) | InlineTok::InlineCode(_) | InlineTok::HardBreak
        | InlineTok::FootnoteRef(_) | InlineTok::Image(..) | InlineTok::Link(..)
        | InlineTok::LinkRef(..) | InlineTok::Tag(_) | InlineTok::UnknownTag(_)
        | InlineTok::TagArg(_) => true,
        _ => false,
    }
}

/// How many tokens the token at `i` takes: a tag takes its argument too.
pub open spec fn token_width(ts: Seq<InlineTok>, i: int, hi: int) -> int {
    if (ts[i] is Tag || ts[i] is UnknownTag) && arg_after(ts, i, hi) is Some {
        2
    } else {
        1
    }
}

/// A link written with metadata `meta`: its tags and attributes.
pub open spec fn link_meta(l: Link, meta: Option<Seq<char>>, base: Span) -> bool {
    match meta {
        Some(m) => tags_of_words(l.tags@, words(m), base) && text_map(l.attributes.to_map())
            == attr_map(words(m)),
        None => l.tags@.len() == 0 && l.attributes.to_map() == Map::<Seq<char>, String>::empty(),
    }
}

/// `seg` is the segment that the token at `i` (not a delimiter) makes; `base`
/// is the block's span and `defs` the link definitions.
pub open spec fn token_segment_is(
    ts: Seq<InlineTok>,
    i: int,
    hi: int,
    base: Span,
    defs: Map<Seq<char>, LinkTarget>,
    seg: InlineSegment,
) -> bool {
    match ts[i] {
        InlineTok::Text(t) => seg matches InlineSegment::Text(s) && s@ == t,
        InlineTok::InlineCode(c) => seg matches InlineSegment::Code(s) && s@ == c,
        InlineTok::HardBreak => seg is HardBreak,
        InlineTok::FootnoteRef(label) => seg matches InlineSegment::FootnoteRef(s) && s@ == label,
        InlineTok::Image(alt, url, title) => seg matches InlineSegment::Image(im) && im.alt@ == alt
            && im.url@ == url && opt_chars(im.title) == title,
        InlineTok::Link(text, url, title, meta) => seg matches InlineSegment::Link(l) && l.text@
            == text && l.url@ == url && opt_chars(l.title) == title && link_meta(l, meta, base),
        InlineTok::LinkRef(text, label) => {
            let n = normalized_label(label);
            if defs.contains_key(n) {
                seg matches InlineSegment::Link(l) && l.text@ == text && l.url@ == defs[n].url@
                    && opt_chars(l.title) == opt_chars(defs[n].title) && link_meta(l, None, base)
            } else {
                seg matches InlineSegment::LinkRef { text: t2, label: l2 } && t2@ == text && l2@
                    == label
            }
        },
        InlineTok::Tag(kw) => seg matches InlineSegment::Tag(tag) && describes(
            spec_keyword_str(kw),
            arg_chars(arg_after(ts, i, hi)),
            tag.kind,
        ) && tag.span == base,
        InlineTok::UnknownTag(name) => seg matches InlineSegment::Tag(tag) && describes(
            name,
            arg_chars(arg_after(ts, i, hi)),
            tag.kind,
        ) && tag.span == base,
        InlineTok::TagArg(a) => seg matches InlineSegment::Text(s) && s@ == a,
        _ => false,
    }
}

/// The content that emphasis `code` wraps, when `seg` is that emphasis.
pub open spec fn emphasis_content(code: u8, seg: InlineSegment) -> Option<InlineContent> {
    match seg {
        InlineSegment::Bold(c) => if code == 1 {
            Some(c)
        } else {
            None
        },
        InlineSegment::Italic(c) => if code == 2 {
            Some(c)
        } else {
            None
        },
        InlineSegment::Strikethrough(c) => if code == 3 {
            Some(c)
        } else {
            None
        },
        _ => None,
    }
}

/// `segs` is the inline content of the token values `ts[i..hi]`: a delimiter
/// wraps the tokens up to the next delimiter of its kind (or to `hi`) in
/// emphasis; every other token makes its segment or none.
pub open spec fn content_from(
    ts: Seq<InlineTok>,
    i: int,
    hi: int,
    base: Span,
    defs: Map<Seq<char>, LinkTarget>,
    segs: Seq<InlineSegment>,
) -> bool
    decreases hi - i,
{
    if i < 0 || i >= hi {
        segs.len() == 0
    } else {
        let code = tok_delim(ts[i]);
        if code != 0 {
            proof {
                lemma_first_delim_bounds(ts, i + 1, hi, code);
            }
            let end = first_delim(ts, i + 1, hi, code);
            let next = if end < hi {
                end + 1
            } else {
                hi
            };
            &&& segs.len() > 0
            &&& emphasis_content(code, segs[0]) is Some
            &&& content_from(ts, i + 1, end, base, defs, emphasis_content(code, segs[0])->0.segments@)
            &&& content_from(ts, next, hi, base, defs, segs.drop_first())
        } else if makes_segment(ts[i]) {
            &&& segs.len() > 0
            &&& token_segment_is(ts, i, hi, base, defs, segs[0])
            &&& content_from(ts, i + token_width(ts, i, hi), hi, base, defs, segs.drop_first())
        } else {
            content_from(ts, i + 1, hi, base, defs, segs)
        }
    }
}

/// The argument of a tag: the `TagArg` right after index `i`, if any.
fn tag_arg_after(toks: &Vec<Spanned>, i: usize, hi: usize) -> (r: Option<String>)
    requires
        i < hi <= toks@.len(),
    ensures
        r is Some ==> i + 1 < hi,
        opt_chars(r) == arg_after(inline_views(toks@), i as int, hi as int),
{
    if i + 1 < hi {
        match &toks[i + 1].kind {
            Token::TagArg(a) => Some(a.clone()),
            _ => None,
        }
    } else {
        None
    }
}

/// The segment that the token at `i` (not a delimiter) makes, if any, and how
/// many tokens it takes.
fn token_segment(
    toks: &Vec<Spanned>,
    i: usize,
    hi: usize,
    base: Span,
    defs: &StringMap<LinkTarget>,
) -> (r: (Option<InlineSegment>, usize))
    requires
        i < hi <= toks@.len(),
    ensures
        r.1 == token_width(inline_views(toks@), i as int, hi as int),
        match r.0 {
            Some(seg) => makes_segment(inline_view(toks@[i as int].kind)) && token_segment_is(
                inline_views(toks@),
                i as int,
                hi as int,
                base,
                defs.to_map(),
                seg,
            ) && seg_resolved(seg, defs.to_map()),
            None => !makes_segment(inline_view(toks@[i as int].kind)),
        },
{
    let mut step: usize = 1;
    let seg: Option<InlineSegment> = match &toks[i].kind {
        Token::Text(t) => Some(InlineSegment::Text(t.clone())),
        Token::InlineCode(c) => Some(InlineSegment::Code(c.clone())),
        Token::HardBreak => Some(InlineSegment::HardBreak),
        Token::FootnoteRef { label } => Some(InlineSegment::FootnoteRef(label.clone())),
        Token::Image { alt, url, title } => Some(
            InlineSegment::Image(
                crate::ast::Image {
                    alt: alt.clone(),
                    url: url.clone(),
                    title: match title {
                        Some(t) => Some(t.clone()),
                        None => None,
                    },
                },
            ),
        ),
        Token::Link { text, url, title, meta } => {
            let (link_tags, attrs) = match meta {
                Some(m) => parse_metadata(&chars_of(m.as_str()), base),
                None => (Vec::new(), StringMap::new()),
            };
            Some(
                InlineSegment::Link(
                    Link {
                        text: text.clone(),
                        url: url.clone(),
                        title: match title {
                            Some(t) => Some(t.clone()),
                            None => None,
                        },
                        tags: link_tags,
                        attributes: attrs,
                    },
                ),
            )
        },
        Token::LinkRef { text, label } => {
            let norm = string_of(&normalize_label(&chars_of(label.as_str())));
            match defs.get(norm.as_str()) {
                Some(target) => {
                    let t = copy_target(target);
                    Some(
                        InlineSegment::Link(
                            Link {
                                text: text.clone(),
                                url: t.url,
                                title: t.title,
                                tags: Vec::new(),
                                attributes: StringMap::new(),
                            },
                        ),
                    )
                },
                None => Some(InlineSegment::LinkRef { text: text.clone(), label: label.clone() }),
            }
        },
        Token::Tag(kw) => {
            let arg = tag_arg_after(toks, i, hi);
            if arg.is_some() {
                step = 2;
            }
            let name = string_of(&kw.spelling());
            let tag = match &arg {
                Some(a) => parse_tag(name.as_str(), Some(a.as_str()), base),
                None => parse_tag(name.as_str(), None, base),
            };
            Some(InlineSegment::Tag(tag))
        },
        Token::UnknownTag { name } => {
            let arg = tag_arg_after(toks, i, hi);
            if arg.is_some() {
                step = 2;
            }
            let tag = match &arg {
                Some(a) => parse_tag(name.as_str(), Some(a.as_str()), base),
                None => parse_tag(name.as_str(), None, base),
            };
            Some(InlineSegment::Tag(tag))
        },
        Token::TagArg(a) => Some(InlineSegment::Text(a.clone())),
        _ => None,
    };
    (seg, step)
}

/// Adding `seg` to the segments read from `lo` to `i`, with `seg` the content
/// of the tokens from `i` to `j`, gives the segments read from `lo` to `j`.
proof fn lemma_content_push(
    ts: Seq<InlineTok>,
    lo: int,
    i: int,
    j: int,
    hi: int,
    base: Span,
    defs: Map<Seq<char>, LinkTarget>,
    before: Seq<InlineSegment>,
    seg: InlineSegment,
)
    requires
        forall|rest: Seq<InlineSegment>|
            #[trigger] content_from(ts, i, hi, base, defs, rest) ==> content_from(
                ts,
                lo,
                hi,
                base,
                defs,
                before + rest,
            ),
        forall|rest: Seq<InlineSegment>|
            #[trigger] content_from(ts, j, hi, base, defs, rest) ==> content_from(
                ts,
                i,
                hi,
                base,
                defs,
                seq![seg] + rest,
            ),
    ensures
        forall|rest: Seq<InlineSegment>|
            #[trigger] content_from(ts, j, hi, base, defs, rest) ==> content_from(
                ts,
                lo,
                hi,
                base,
                defs,
                before.push(seg) + rest,
            ),
{
    assert forall|rest: Seq<InlineSegment>|
        #[trigger] content_from(ts, j, hi, base, defs, rest) implies content_from(
            ts,
            lo,
            hi,
            base,
            defs,
            before.push(seg) + rest,
        ) by {
        assert(content_from(ts, i, hi, base, defs, seq![seg] + rest));
        assert(before + (seq![seg] + rest) =~= before.push(seg) + rest);
    }
}

/// Builds inline content from the inline tokens `toks[lo..hi]`; link
/// references with a definition in `defs` become links.
pub fn tokens_to_inline_content(
    toks: &Vec<Spanned>,
    lo: usize,
    hi: usize,
    base: Span,
    defs: &StringMap<LinkTarget>,
) -> (c: InlineContent)
    requires
        lo <= hi <= toks@.len(),
    ensures
        segs_resolved(c.segments@, defs.to_map()),
        content_from(inline_views(toks@), lo as int, hi as int, base, defs.to_map(), c.segments@),
    decreases hi - lo,
{
    let ghost dm = defs.to_map();
    let mut segments: Vec<InlineSegment> = Vec::new();
    let mut i = lo;
    assert forall|rest: Seq<InlineSegment>|
        #[trigger] content_from(inline_views(toks@), i as int, hi as int, base, dm, rest) implies content_from(
            inline_views(toks@),
            lo as int,
            hi as int,
            base,
            dm,
            segments@ + rest,
        ) by {
        assert(segments@ + rest =~= rest);
    }
    while i < hi
        invariant
            lo <= i <= hi <= toks@.len(),
            dm == defs.to_map(),
            segs_resolved(segments@, dm),
            forall|rest: Seq<InlineSegment>|
                #[trigger] content_from(inline_views(toks@), i as int, hi as int, base, dm, rest) ==> content_from(
                    inline_views(toks@),
                    lo as int,
                    hi as int,
                    base,
                    dm,
                    segments@ + rest,
                ),
        decreases hi - i,
    {
        let ghost before = segments@;
        let ghost i0 = i as int;
        let code = delim_of(&toks[i].kind);
        if code != 0 {
            let start = i + 1;
            let end = find_matching_delim(toks, start, hi, code);
            proof {
                lemma_first_delim_is(inline_views(toks@), start as int, hi as int, code, end as int);
            }
            let inner = tokens_to_inline_content(toks, start, end, base, defs);
            let seg = if code == 1 {
                InlineSegment::Bold(inner)
            } else if code == 2 {
                InlineSegment::Italic(inner)
            } else {
                InlineSegment::Strikethrough(inner)
            };
            segments.push(seg);
            i = if end < hi {
                end + 1
            } else {
                hi
            };
            proof {
                lemma_resolved_push(before, seg, dm);
                assert forall|rest: Seq<InlineSegment>|
                    #[trigger] content_from(inline_views(toks@), i as int, hi as int, base, dm, rest) implies content_from(
                        inline_views(toks@),
                        i0,
                        hi as int,
                        base,
                        dm,
                        seq![seg] + rest,
                    ) by {
                    assert((seq![seg] + rest).drop_first() =~= rest);
                    assert((seq![seg] + rest)[0] == seg);
                }
                lemma_content_push(inline_views(toks@), lo as int, i0, i as int, hi as int, base, dm, before, seg);
            }
        } else {
            let (seg, step) = token_segment(toks, i, hi, base, defs);
            match seg {
                Some(x) => {
                    segments.push(x);
                    i = i + step;
                    proof {
                        lemma_resolved_push(before, x, dm);
                        assert forall|rest: Seq<InlineSegment>|
                            #[trigger] content_from(inline_views(toks@), i as int, hi as int, base, dm, rest) implies content_from(
                                inline_views(toks@),
                                i0,
                                hi as int,
                                base,
                                dm,
                                seq![x] + rest,
                            ) by {
                            assert((seq![x] + rest).drop_first() =~= rest);
                            assert((seq![x] + rest)[0] == x);
                        }
                        lemma_content_push(inline_views(toks@), lo as int, i0, i as int, hi as int, base, dm, before, x);
                    }
                },
                None => {
                    i = i + step;
                    assert forall|rest: Seq<InlineSegment>|
                        #[trigger] content_from(inline_views(toks@), i as int, hi as int, base, dm, rest) implies content_from(
                            inline_views(toks@),
                            lo as int,
                            hi as int,
                            base,
                            dm,
                            segments@ + rest,
                        ) by {
                        assert(content_from(inline_views(toks@), i0, hi as int, base, dm, rest));
                    }
                },
            }
        }
    }
    assert(content_from(inline_views(toks@), i as int, hi as int, base, dm, Seq::empty()));
    assert(segments@ + Seq::<InlineSegment>::empty() =~= segments@);
    InlineContent { segments }
}

/// Tokenizes `text` and builds its inline content.
pub fn build_inline_content(text: &[char], span: Span, defs: &StringMap<LinkTarget>) -> (c:
    InlineContent)
    ensures
        segs_resolved(c.segments@, defs.to_map()),
        content_from(
            lex_inline(text@, 0, Seq::empty()),
            0,
            lex_inline(text@, 0, Seq::empty()).len() as int,
            span,
            defs.to_map(),
            c.segments@,
        ),
{
    let toks = tokenize_inline(string_of(text).as_str(), span);
    tokens_to_inline_content(&toks, 0, toks.len(), span, defs)
}

// ===========================================================================
// Errors
// ===========================================================================
fn push_error(errors: &mut Vec<ParseError>, kind: ParseErrorKind, span: Span, message: &[char])
    ensures
        final(errors)@ == old(errors)@.push(
            ParseError { kind, span, message: final(errors)@.last().message },
        ),
        final(errors)@.last().message@ == message@,
        errors_grow(old(errors)@, final(errors)@, seq![(kind, span, message@)]),
{
    errors.push(ParseError { kind, span, message: string_of(message) });
    assert(err_views(errors@) =~= err_views(old(errors)@) + seq![(kind, span, message@)]);
}

/// `a` followed by `b`.
fn concat(a: &str, b: &[char]) -> (r: Vec<char>)
    ensures
        r@ == a@ + b@,
{
    let mut out = chars_of(a);
    append_chars(&mut out, b);
    out
}

// ===========================================================================
// Frontmatter
// ===========================================================================
/// The message that `serde_yaml::from_str::<serde_yaml::Value>` gives for
/// `text`, or `None` when it accepts the text.
pub uninterp spec fn yaml_error(text: Seq<char>) -> Option<Seq<char>>;

/// Calls `serde_yaml::from_str::<serde_yaml::Value>` on `text`.  The
/// contract claims that success and the error message depend on the text
/// alone; what the parsed value holds is not stated.
#[verifier::external_body]
pub(crate) fn parse_yaml(text: &str) -> (r: Result<serde_yaml::Value, String>)
    ensures
        match r {
            Ok(_) => yaml_error(text@) is None,
            Err(e) => yaml_error(text@) == Some(e@),
        },
{
    match serde_yaml::from_str::<serde_yaml::Value>(text) {
        Ok(v) => Ok(v),
        Err(e) => Err(e.to_string()),
    }
}

/// Whether the token under the cursor is a frontmatter delimiter on the
/// first line.
pub open spec fn opens_frontmatter(t: Spanned) -> bool {
    t.kind == Token::FrontmatterDelim && t.span.line == 1
}

/// The lines of a frontmatter block from `p` on: the raw text of each line
/// up to the closing `---`, and where that line is (`None` when the stream
/// ends first).
pub open spec fn frontmatter_body(toks: Seq<Spanned>, p: int) -> (Seq<Seq<char>>, Option<int>)
    decreases toks.len() - p,
{
    if p < 0 || p >= toks.len() || toks[p].kind == Token::Eof {
        (Seq::empty(), None)
    } else if toks[p].kind == Token::FrontmatterDelim {
        (Seq::empty(), Some(p))
    } else {
        proof {
            lemma_line_end(toks, p);
        }
        let r = frontmatter_body(toks, after_line(toks, p));
        (seq![last_raw(toks, p, line_end(toks, p))] + r.0, r.1)
    }
}

/// Where the line of the token at `pos` ends when only a line break may
/// follow that token.
pub open spec fn after_token(toks: Seq<Spanned>, pos: int) -> int {
    if kind_at(toks, pos + 1) == Token::Newline {
        pos + 2
    } else {
        pos + 1
    }
}

/// `es` is `before` with one more error of `kind` at `span` saying `msg`.
pub open spec fn one_error_more(
    before: Seq<ParseError>,
    es: Seq<ParseError>,
    kind: ParseErrorKind,
    span: Span,
    msg: Seq<char>,
) -> bool {
    &&& es.len() == before.len() + 1
    &&& es.drop_last() == before
    &&& es.last().kind == kind
    &&& es.last().span == span
    &&& es.last().message@ == msg
}

fn parse_frontmatter(lex: &mut Lexer<'_>, errors: &mut Vec<ParseError>) -> (r: Option<
    Frontmatter,
>)
    requires
        in_stream(*old(lex)),
    ensures
        opens_frontmatter(old(lex).current()) ==> final(lex).pos() == frontmatter_end(
            old(lex).tokens(),
            after_token(old(lex).tokens(), old(lex).pos() as int),
        ),
        moved(*old(lex), *final(lex)),
        !opens_frontmatter(old(lex).current()) ==> r is None && final(lex).pos() == old(lex).pos()
            && final(errors)@ == old(errors)@,
        r matches Some(f) ==> opens_frontmatter(old(lex).current()) && yaml_error(f.raw@) is None,
        opens_frontmatter(old(lex).current()) ==> ({
            let toks = old(lex).tokens();
            let pos = old(lex).pos() as int;
            let open = toks[pos].span;
            let body = frontmatter_body(toks, after_token(toks, pos));
            match body.1 {
                None => r is None && one_error_more(
                    old(errors)@,
                    final(errors)@,
                    ParseErrorKind::UnclosedFrontmatter,
                    open,
                    "frontmatter opened but never closed with ---"@,
                ),
                Some(q) => {
                    let raw = joined(body.0);
                    let span = spec_merge(open, toks[q].span);
                    match yaml_error(raw) {
                        None => final(errors)@ == old(errors)@ && (r matches Some(f) && f.raw@
                            == raw && f.span == span),
                        Some(e) => r is None && one_error_more(
                            old(errors)@,
                            final(errors)@,
                            ParseErrorKind::InvalidYaml,
                            span,
                            "invalid YAML in frontmatter: "@ + e,
                        ),
                    }
                },
            }
        }),
{
    let ghost toks = lex.tokens();
    let ghost pos = lex.pos() as int;
    let first = lex.peek();
    let open_span = first.span;
    let is_delim = match &first.kind {
        Token::FrontmatterDelim => true,
        _ => false,
    };
    if open_span.line != 1 || !is_delim {
        return None;
    }
    lex.advance();
    skip_newline(lex);
    let ghost all = frontmatter_body(toks, lex.pos() as int);
    let mut yaml_lines: Vec<Vec<char>> = Vec::new();
    proof {
        reveal_strlit("frontmatter opened but never closed with ---");
        reveal_strlit("invalid YAML in frontmatter: ");
    }
    loop
        invariant
            moved(*old(lex), *lex),
            opens_frontmatter(old(lex).current()),
            toks == old(lex).tokens(),
            pos == old(lex).pos(),
            open_span == toks[pos].span,
            all == frontmatter_body(toks, after_token(toks, pos)),
            errors@ == old(errors)@,
            line_views(yaml_lines@) + frontmatter_body(toks, lex.pos() as int).0 == all.0,
            frontmatter_body(toks, lex.pos() as int).1 == all.1,
            frontmatter_end(toks, lex.pos() as int) == frontmatter_end(toks, after_token(toks, pos)),
        decreases lex.tokens().len() - lex.pos(),
    {
        let ghost q = lex.pos() as int;
        let ghost yv = line_views(yaml_lines@);
        if lex.is_eof() {
            assert(yv + Seq::<Seq<char>>::empty() =~= yv);
            push_error(
                errors,
                ParseErrorKind::UnclosedFrontmatter,
                open_span,
                &chars_of("frontmatter opened but never closed with ---"),
            );
            assert(errors@.drop_last() =~= old(errors)@);
            assert(all.1 is None);
            return None;
        }
        let tok = lex.peek();
        let close_span = tok.span;
        let closes = match &tok.kind {
            Token::FrontmatterDelim => true,
            _ => false,
        };
        if closes {
            assert(yv + Seq::<Seq<char>>::empty() =~= yv);
            lex.advance();
            skip_newline(lex);
            let raw = string_of(&join_lines(&yaml_lines));
            let span = open_span.merge(close_span);
            match parse_yaml(raw.as_str()) {
                Ok(data) => {
                    assert(all.1 == Some(q));
                    assert(raw@ == joined(all.0));
                    return Some(Frontmatter { raw, data, span });
                },
                Err(e) => {
                    push_error(
                        errors,
                        ParseErrorKind::InvalidYaml,
                        span,
                        &concat("invalid YAML in frontmatter: ", &chars_of(e.as_str())),
                    );
                    assert(errors@.drop_last() =~= old(errors)@);
                    assert(all.1 == Some(q));
                    assert(raw@ == joined(all.0));
                    return None;
                },
            }
        }
        proof {
            lemma_line_end(toks, q);
        }
        let raw = extract_raw_line(lex);
        yaml_lines.push(chars_of(raw.as_str()));
        assert(line_views(yaml_lines@) =~= yv.push(raw@));
        assert(yv.push(raw@) + frontmatter_body(toks, lex.pos() as int).0 =~= yv + frontmatter_body(
            toks,
            q,
        ).0);
    }
}

// ===========================================================================
// Headings and property drawers
// ===========================================================================
/// The text of a heading line: after the first space for an ATX heading
/// (`## Title`), the whole trimmed line for a setext heading.
pub open spec fn heading_text(raw: Seq<char>) -> Seq<char> {
    let t = trim_start(raw);
    if t.len() > 0 && t[0] == '#' {
        match find_char(t, ' ') {
            Some(i) => t.skip(i + 1 as int),
            None => Seq::empty(),
        }
    } else {
        t
    }
}

fn heading_text_of(raw: &[char]) -> (r: Vec<char>)
    ensures
        r@ == heading_text(raw@),
{
    let t = trimmed_start(raw);
    if t.len() > 0 && t[0] == '#' {
        match index_of(&t, ' ') {
            Some(i) => skip(&t, i + 1),
            None => Vec::new(),
        }
    } else {
        t
    }
}

fn parse_heading(
    lex: &mut Lexer<'_>,
    level: u8,
    errors: &mut Vec<ParseError>,
    defs: &StringMap<LinkTarget>,
) -> (b: Block)
    requires
        in_stream(*old(lex)),
        old(lex).pos() < old(lex).tokens().len(),
    ensures
        moved(*old(lex), *final(lex)),
        final(lex).pos() > old(lex).pos(),
        final(lex).pos() == heading_end(old(lex).tokens(), old(lex).pos() as int),
        b matches Block::Heading(h) && h.level == level && h.span == old(lex).current().span
            && segs_resolved(h.content.segments@, defs.to_map()) && inline_of(
            heading_text(raw_at(old(lex).tokens(), old(lex).pos() + 1)),
            h.span,
            defs.to_map(),
            h.content.segments@,
        ) && heading_drawer(old(lex).tokens(), old(lex).pos() as int, h.properties),
        errors_grow(
            old(errors)@,
            final(errors)@,
            heading_errors(old(lex).tokens(), old(lex).pos() as int),
        ),
{
    let head_span = lex.peek().span;
    lex.advance();
    let raw = consume_raw_line(lex);
    skip_newline(lex);
    let text = heading_text_of(&chars_of(raw.as_str()));
    let content = build_inline_content(&text, head_span, defs);
    let saved = lex.position();
    skip_blank_lines(lex);
    let opens = match &lex.peek().kind {
        Token::PropertiesOpen => true,
        _ => false,
    };
    let properties = if opens {
        Some(parse_property_drawer(lex, errors))
    } else {
        lex.set_position(saved);
        assert(err_views(errors@) =~= err_views(old(errors)@) + heading_errors(
            old(lex).tokens(),
            old(lex).pos() as int,
        ));
        None
    };
    Block::Heading(Heading { level, content, properties, span: head_span })
}

/// The key and value of a property line `key = value`, both trimmed.
pub open spec fn property_of(line: Seq<char>) -> Option<(Seq<char>, Seq<char>)> {
    let t = trim(line);
    match find_char(t, '=') {
        Some(i) => Some((trim(t.take(i as int)), trim(t.skip(i + 1 as int)))),
        None => None,
    }
}

/// The entries of a property drawer whose lines start at `p`, added to
/// `acc`: each `key = value` line sets `key` (a later line wins); and the
/// span of the last line read (`#end`, or the last line that is not blank;
/// `last` when there is none).
pub open spec fn drawer_entries(
    toks: Seq<Spanned>,
    p: int,
    acc: Map<Seq<char>, Seq<char>>,
    last: Span,
) -> (Map<Seq<char>, Seq<char>>, Span)
    decreases toks.len() - p,
{
    if p < 0 || p >= toks.len() || toks[p].kind == Token::Eof {
        (acc, last)
    } else if toks[p].kind == Token::PropertiesClose {
        (acc, toks[p].span)
    } else if toks[p].kind == Token::BlankLine {
        drawer_entries(toks, after_token(toks, p), acc, last)
    } else {
        proof {
            lemma_line_end(toks, p);
        }
        let acc2 = match property_of(last_raw(toks, p, line_end(toks, p))) {
            Some((k, v)) => acc.insert(k, v),
            None => acc,
        };
        drawer_entries(toks, after_line(toks, p), acc2, toks[p].span)
    }
}

/// `d` is the property drawer that opens at `pos`: its entries are those of
/// its `key = value` lines, and its span runs from `#properties` to the last
/// line read.
pub open spec fn drawer_made(toks: Seq<Spanned>, pos: int, d: PropertyDrawer) -> bool {
    let r = drawer_entries(toks, after_token(toks, pos), Map::empty(), toks[pos].span);
    &&& text_map(d.entries.to_map()) == r.0
    &&& d.span == spec_merge(toks[pos].span, r.1)
}

/// The property drawer of the heading at `pos`: the one that follows it
/// after blank lines, if one does.
pub open spec fn heading_drawer(toks: Seq<Spanned>, pos: int, p: Option<PropertyDrawer>) -> bool {
    let b = blanks_end(toks, after_opening(toks, pos));
    if kind_at(toks, b) == Token::PropertiesOpen {
        p matches Some(d) && drawer_made(toks, b, d)
    } else {
        p is None
    }
}

fn parse_property_drawer(lex: &mut Lexer<'_>, errors: &mut Vec<ParseError>) -> (d: PropertyDrawer)
    requires
        in_stream(*old(lex)),
        old(lex).pos() < old(lex).tokens().len(),
    ensures
        moved(*old(lex), *final(lex)),
        final(lex).pos() > old(lex).pos(),
        final(lex).pos() == drawer_end(
            old(lex).tokens(),
            after_token(old(lex).tokens(), old(lex).pos() as int),
        ),
        errors_grow(
            old(errors)@,
            final(errors)@,
            drawer_errors(
                old(lex).tokens(),
                after_token(old(lex).tokens(), old(lex).pos() as int),
                old(lex).current().span,
            ),
        ),
        drawer_made(old(lex).tokens(), old(lex).pos() as int, d),
{
    let ghost toks = lex.tokens();
    let ghost e0 = err_views(errors@);
    let open_span = lex.peek().span;
    lex.advance();
    skip_newline(lex);
    let ghost q0 = lex.pos() as int;
    let mut entries: StringMap<String> = StringMap::new();
    let mut last_span = open_span;
    let ghost all = drawer_entries(toks, q0, Map::empty(), open_span);
    assert(text_map(entries.to_map()) =~= Map::<Seq<char>, Seq<char>>::empty());
    loop
        invariant_except_break
            drawer_end(toks, lex.pos() as int) == drawer_end(toks, q0),
            drawer_entries(toks, lex.pos() as int, text_map(entries.to_map()), last_span) == all,
            err_views(errors@) + drawer_errors(toks, lex.pos() as int, open_span) == e0
                + drawer_errors(toks, q0, open_span),
        invariant
            e0 == err_views(old(errors)@),
            moved(*old(lex), *lex),
            lex.pos() > old(lex).pos(),
            toks == old(lex).tokens(),
            q0 == after_token(toks, old(lex).pos() as int),
            all == drawer_entries(toks, q0, Map::empty(), open_span),
            open_span == toks[old(lex).pos() as int].span,
        ensures
            moved(*old(lex), *lex),
            lex.pos() > old(lex).pos(),
            lex.pos() == drawer_end(toks, q0),
            err_views(errors@) == e0 + drawer_errors(toks, q0, open_span),
            text_map(entries.to_map()) == all.0,
            last_span == all.1,
        decreases lex.tokens().len() - lex.pos(),
    {
        proof {
            lemma_line_end(toks, lex.pos() as int);
        }
        let ghost p = lex.pos() as int;
        let ghost ev = err_views(errors@);
        if lex.is_eof() {
            push_error(
                errors,
                ParseErrorKind::UnexpectedToken,
                open_span,
                &chars_of("#properties block opened but never closed with #end"),
            );
            assert(err_views(errors@) =~= e0 + drawer_errors(toks, q0, open_span));
            break ;
        }
        let tok = lex.peek();
        let line_span = tok.span;
        let what: u8 = match &tok.kind {
            Token::PropertiesClose => 0,
            Token::BlankLine => 1,
            _ => 2,
        };
        if what == 0 {
            last_span = line_span;
            lex.advance();
            skip_newline(lex);
            assert(drawer_errors(toks, p, open_span) =~= Seq::empty());
            assert(err_views(errors@) =~= e0 + drawer_errors(toks, q0, open_span));
            break ;
        } else if what == 1 {
            lex.advance();
            skip_newline(lex);
        } else {
            let raw = extract_raw_line(lex);
            last_span = line_span;
            let t = trimmed(&chars_of(raw.as_str()));
            match index_of(&t, '=') {
                Some(i) => {
                    let key = trimmed(&slice_of(&t, 0, i));
                    let value = trimmed(&skip(&t, i + 1));
                    let ghost m0 = text_map(entries.to_map());
                    assert(property_of(raw@) == Some((key@, value@)));
                    entries.insert(string_of(&key), string_of(&value));
                    assert(text_map(entries.to_map()) =~= m0.insert(key@, value@));
                    assert(Seq::empty() + drawer_errors(toks, lex.pos() as int, open_span)
                        =~= drawer_errors(toks, lex.pos() as int, open_span));
                },
                None => {
                    assert(property_of(raw@) is None);
                    push_error(
                        errors,
                        ParseErrorKind::UnexpectedToken,
                        line_span,
                        &concat("invalid property line: ", &t),
                    );
                    let ghost own = seq![
                        (ParseErrorKind::UnexpectedToken, line_span, "invalid property line: "@ + t@),
                    ];
                    let ghost d = drawer_errors(toks, lex.pos() as int, open_span);
                    assert(err_views(errors@) == ev + own);
                    assert((ev + own) + d =~= ev + (own + d));
                },
            }
        }
    }
    PropertyDrawer { entries, span: open_span.merge(last_span) }
}

/// Whether a token closes a fence of `n` or more `c` characters.
pub open spec fn closes_fence(k: Token, c: char, n: usize) -> bool {
    match k {
        Token::FencedCodeClose { fence_char, fence_len } => fence_char == c && fence_len >= n,
        _ => false,
    }
}

/// The fence character, fence length and info text of the token that opens
/// a code block.
pub open spec fn fence_of(k: Token) -> (char, usize, Seq<char>) {
    match k {
        Token::FencedCodeOpen { info, fence_char, fence_len } => (fence_char, fence_len, info@),
        Token::FencedCodeClose { fence_char, fence_len } => (fence_char, fence_len, Seq::empty()),
        _ => ('`', 3, Seq::empty()),
    }
}

/// Where the line of the token at `pos` ends when it holds at most a raw
/// text and a line break after that token.
pub open spec fn after_opening(toks: Seq<Spanned>, pos: int) -> int {
    let q = if kind_at(toks, pos + 1) is RawLine {
        pos + 2
    } else {
        pos + 1
    };
    if kind_at(toks, q) == Token::Newline {
        q + 1
    } else {
        q
    }
}

/// The body of a code block from `p` on: the raw text of each line up to
/// the line that closes the fence, and where that line is (`None` when the
/// stream ends first).
pub open spec fn fence_body(toks: Seq<Spanned>, p: int, c: char, n: usize) -> (
    Seq<Seq<char>>,
    Option<int>,
)
    decreases toks.len() - p,
{
    if p < 0 || p >= toks.len() || toks[p].kind == Token::Eof {
        (Seq::empty(), None)
    } else if closes_fence(toks[p].kind, c, n) {
        (Seq::empty(), Some(p))
    } else {
        proof {
            lemma_line_end(toks, p);
        }
        let r = fence_body(toks, after_line(toks, p), c, n);
        (seq![last_raw(toks, p, line_end(toks, p))] + r.0, r.1)
    }
}

/// `b` is the fenced code block that opens at `pos`: its body is the lines
/// up to the closing fence, its language, tags and attributes come from the
/// info text, and its span runs to the closing fence when there is one.
pub open spec fn fenced_code_made(toks: Seq<Spanned>, pos: int, b: Block) -> bool {
    let (c, n, info) = fence_of(toks[pos].kind);
    let body = fence_body(toks, after_opening(toks, pos), c, n);
    let ws = words(info);
    let meta = if code_lang(ws) is Some {
        ws.skip(1)
    } else {
        ws
    };
    &&& b matches Block::CodeBlock(cb)
    &&& cb.body@ == joined(body.0)
    &&& (match cb.lang {
        Some(l) => code_lang(ws) == Some(l@),
        None => code_lang(ws) is None,
    })
    &&& tags_of_words(cb.tags@, meta, toks[pos].span)
    &&& text_map(cb.attributes.to_map()) == attr_map(meta)
    &&& cb.span == match body.1 {
        Some(q) => spec_merge(toks[pos].span, toks[q].span),
        None => toks[pos].span,
    }
}

// ===========================================================================
// Code blocks
// ===========================================================================
fn parse_code_block(lex: &mut Lexer<'_>, errors: &mut Vec<ParseError>) -> (b: Block)
    requires
        in_stream(*old(lex)),
        old(lex).pos() < old(lex).tokens().len(),
    ensures
        final(lex).pos() == fence_end(
            old(lex).tokens(),
            after_opening(old(lex).tokens(), old(lex).pos() as int),
            fence_of(old(lex).tokens()[old(lex).pos() as int].kind).0,
            fence_of(old(lex).tokens()[old(lex).pos() as int].kind).1,
        ),
        moved(*old(lex), *final(lex)),
        final(lex).pos() > old(lex).pos(),
        fenced_code_made(old(lex).tokens(), old(lex).pos() as int, b),
        ({
            let toks = old(lex).tokens();
            let pos = old(lex).pos() as int;
            let (c, n, info) = fence_of(toks[pos].kind);
            let body = fence_body(toks, after_opening(toks, pos), c, n);
            (match body.1 {
                Some(_) => final(errors)@ == old(errors)@,
                None => final(errors)@.drop_last() == old(errors)@ && final(errors)@.len() == old(
                    errors,
                )@.len() + 1 && final(errors)@.last().kind == ParseErrorKind::UnclosedCodeFence
                    && final(errors)@.last().span == toks[pos].span
                    && final(errors)@.last().message@ == "code fence opened but never closed"@,
            })
        }),
        errors_grow(
            old(errors)@,
            final(errors)@,
            fence_errors(old(lex).tokens(), old(lex).pos() as int),
        ),
{
    let ghost toks = lex.tokens();
    let ghost pos = lex.pos() as int;
    let open_span = lex.peek().span;
    let (fence_char, fence_len, info) = match &lex.peek().kind {
        Token::FencedCodeOpen { info, fence_char, fence_len } => (
            *fence_char,
            *fence_len,
            chars_of(info.as_str()),
        ),
        Token::FencedCodeClose { fence_char, fence_len } => (*fence_char, *fence_len, Vec::new()),
        _ => ('`', 3, Vec::new()),
    };
    lex.advance();
    consume_raw_line(lex);
    skip_newline(lex);
    let (lang, code_tags, attributes) = parse_code_info(&info, open_span);
    let mut body_lines: Vec<Vec<char>> = Vec::new();
    let mut span = open_span;
    let ghost q0 = lex.pos() as int;
    assert(q0 == after_opening(toks, pos));
    let ghost all = fence_body(toks, q0, fence_char, fence_len);
    loop
        invariant_except_break
            errors@ == old(errors)@,
            span == open_span,
            line_views(body_lines@) + fence_body(toks, lex.pos() as int, fence_char, fence_len).0
                == all.0,
            fence_body(toks, lex.pos() as int, fence_char, fence_len).1 == all.1,
            fence_end(toks, lex.pos() as int, fence_char, fence_len) == fence_end(toks, q0, fence_char, fence_len),
        invariant
            moved(*old(lex), *lex),
            lex.pos() > old(lex).pos(),
            toks == old(lex).tokens(),
            pos == old(lex).pos(),
            open_span == toks[pos].span,
        ensures
            moved(*old(lex), *lex),
            lex.pos() > old(lex).pos(),
            line_views(body_lines@) == all.0,
            lex.pos() == fence_end(toks, q0, fence_char, fence_len),
            span == match all.1 {
                Some(q) => spec_merge(toks[pos].span, toks[q].span),
                None => toks[pos].span,
            },
            (match all.1 {
                Some(_) => errors@ == old(errors)@,
                None => errors@.drop_last() == old(errors)@ && errors@.len() == old(
                    errors,
                )@.len() + 1 && errors@.last().kind == ParseErrorKind::UnclosedCodeFence
                    && errors@.last().span == toks[pos].span
                    && errors@.last().message@ == "code fence opened but never closed"@,
            }),
        decreases lex.tokens().len() - lex.pos(),
    {
        let ghost q = lex.pos() as int;
        let ghost bv = line_views(body_lines@);
        if lex.is_eof() {
            proof {
                reveal_strlit("code fence opened but never closed");
            }
            assert(bv + Seq::<Seq<char>>::empty() =~= bv);
            push_error(
                errors,
                ParseErrorKind::UnclosedCodeFence,
                open_span,
                &chars_of("code fence opened but never closed"),
            );
            break ;
        }
        let tok = lex.peek();
        let close_span = tok.span;
        let is_close = match &tok.kind {
            Token::FencedCodeClose { fence_char: fc, fence_len: fl } => *fc == fence_char && *fl
                >= fence_len,
            _ => false,
        };
        if is_close {
            lex.advance();
            consume_raw_line(lex);
            skip_newline(lex);
            span = open_span.merge(close_span);
            assert(bv + Seq::<Seq<char>>::empty() =~= bv);
            break ;
        }
        proof {
            lemma_line_end(toks, q);
        }
        let raw = extract_raw_line(lex);
        body_lines.push(chars_of(raw.as_str()));
        assert(line_views(body_lines@) =~= bv.push(raw@));
        assert(bv.push(raw@) + fence_body(toks, lex.pos() as int, fence_char, fence_len).0 =~= bv
            + fence_body(toks, q, fence_char, fence_len).0);
    }
    proof {
        lemma_err_views_step(old(errors)@, errors@);
    }
    Block::CodeBlock(
        CodeBlock {
            lang,
            tags: code_tags,
            attributes,
            body: string_of(&join_lines(&body_lines)),
            span,
        },
    )
}

/// An indented code line with its indentation removed: a leading tab, or
/// up to four leading spaces.
pub open spec fn unindented(raw: Seq<char>) -> Seq<char> {
    if raw.len() > 0 && raw[0] == '\t' {
        raw.skip(1)
    } else {
        let n = crate::text::lead_run(raw, ' ');
        raw.skip(if n > 4 {
            4
        } else {
            n as int
        })
    }
}

fn unindent(raw: &[char]) -> (r: Vec<char>)
    ensures
        r@ == unindented(raw@),
{
    if raw.len() > 0 && raw[0] == '\t' {
        skip(raw, 1)
    } else {
        let n = crate::text::count_lead_run(raw, ' ');
        skip(
            raw,
            if n > 4 {
                4
            } else {
                n
            },
        )
    }
}

fn is_indented_code(t: &Token) -> (b: bool)
    ensures
        b == (*t == Token::IndentedCodeLine),
{
    match t {
        Token::IndentedCodeLine => true,
        _ => false,
    }
}

/// A run of indented code lines, with the blank lines between them, becomes
/// a code block without a language; blank lines after the run are left for
/// the caller.
fn parse_indented_code(lex: &mut Lexer<'_>) -> (b: Block)
    requires
        in_stream(*old(lex)),
        old(lex).pos() < old(lex).tokens().len(),
        old(lex).current().kind != Token::Eof,
    ensures
        moved(*old(lex), *final(lex)),
        final(lex).pos() > old(lex).pos(),
        old(lex).current().kind == Token::IndentedCodeLine ==> indented_made(
            old(lex).tokens(),
            old(lex).pos() as int,
            b,
        ),
        b is CodeBlock,
        final(lex).pos() == indented_end(
            old(lex).tokens(),
            after_line(old(lex).tokens(), old(lex).pos() as int),
        ),
{
    let ghost toks = lex.tokens();
    let first_span = lex.peek().span;
    let mut last_span = first_span;
    let mut body_lines: Vec<Vec<char>> = Vec::new();
    let first = extract_raw_line(lex);
    let ghost q0 = lex.pos() as int;
    body_lines.push(unindent(&chars_of(first.as_str())));
    let ghost pos = old(lex).pos() as int;
    let ghost all = indented_lines(toks, pos, first_span);
    proof {
        lemma_line_end(toks, pos);
        if toks[pos].kind == Token::IndentedCodeLine {
            assert(line_views(body_lines@) =~= seq![unindented(last_raw(toks, pos, line_end(toks, pos)))]);
        }
    }
    loop
        invariant_except_break
            indented_end(toks, lex.pos() as int) == indented_end(toks, q0),
        invariant
            toks[pos].kind == Token::IndentedCodeLine ==> (line_views(body_lines@) + indented_lines(
                toks,
                lex.pos() as int,
                last_span,
            ).0 == all.0 && indented_lines(toks, lex.pos() as int, last_span).1 == all.1),
            pos == old(lex).pos(),
            first_span == toks[pos].span,
            moved(*old(lex), *lex),
            lex.pos() > old(lex).pos(),
            toks == old(lex).tokens(),
            q0 == after_line(toks, old(lex).pos() as int),
        ensures
            lex.pos() == indented_end(toks, q0),
            toks[pos].kind == Token::IndentedCodeLine ==> line_views(body_lines@) == all.0
                && last_span == all.1,
        decreases lex.tokens().len() - lex.pos(),
    {
        let ghost p = lex.pos() as int;
        proof {
            lemma_line_end(toks, p);
        }
        let ghost bv = line_views(body_lines@);
        let ghost ls0 = last_span;
        if is_indented_code(&lex.peek().kind) {
            last_span = lex.peek().span;
            let raw = extract_raw_line(lex);
            body_lines.push(unindent(&chars_of(raw.as_str())));
            assert(line_views(body_lines@) =~= bv.push(unindented(raw@)));
            assert(bv.push(unindented(raw@)) + indented_lines(toks, lex.pos() as int, last_span).0
                =~= bv + indented_lines(toks, p, ls0).0);
        } else {
            // Blank lines belong to the block only when more code follows.
            let saved = lex.position();
            let total = lex.token_list().len();
            proof {
                lemma_blank_count(toks, saved as int);
            }
            let mut blanks: usize = 0;
            loop
                invariant
                    moved(*old(lex), *lex),
                    lex.pos() >= saved,
                    saved > old(lex).pos(),
                    toks == old(lex).tokens(),
                    blanks_end(toks, lex.pos() as int) == blanks_end(toks, saved as int),
                    blanks == 0 ==> lex.pos() == saved,
                    blanks > 0 ==> lex.pos() > saved,
                    blanks + blank_count(toks, lex.pos() as int) == blank_count(toks, saved as int),
                    saved == p,
                    total == toks.len(),
                    blank_count(toks, saved as int) <= toks.len() - saved,
                ensures
                    moved(*old(lex), *lex),
                    lex.pos() >= saved,
                    lex.pos() == blanks_end(toks, saved as int),
                    blanks == 0 ==> lex.pos() == saved,
                    blanks > 0 ==> lex.pos() > saved,
                    blanks == blank_count(toks, saved as int),
                decreases lex.tokens().len() - lex.pos(),
            {
                proof {
                    lemma_blank_count(toks, lex.pos() as int);
                }
                let blank = match &lex.peek().kind {
                    Token::BlankLine => true,
                    _ => false,
                };
                if !blank {
                    break ;
                }
                let ghost q = lex.pos() as int;
                lex.advance();
                skip_newline(lex);
                assert(lex.pos() == after_token(toks, q));
                assert(blanks < total);
                if blanks < usize::MAX {
                    blanks += 1;
                }
            }
            proof {
                lemma_blank_count(toks, p);
            }
            if blanks > 0 && is_indented_code(&lex.peek().kind) {
                let mut k: usize = 0;
                assert(line_views(body_lines@) =~= bv + Seq::new(0, |i: int| Seq::<char>::empty()));
                while k < blanks
                    invariant
                        k <= blanks,
                        line_views(body_lines@) == bv + Seq::new(k as nat, |i: int| Seq::<char>::empty()),
                    decreases blanks - k,
                {
                    let ghost before = line_views(body_lines@);
                    body_lines.push(Vec::new());
                    assert(line_views(body_lines@) =~= before.push(Seq::<char>::empty()));
                    assert(line_views(body_lines@) =~= bv + Seq::new(
                        (k + 1) as nat,
                        |i: int| Seq::<char>::empty(),
                    ));
                    k += 1;
                }
                assert(bv + Seq::new(blanks as nat, |i: int| Seq::<char>::empty()) + indented_lines(
                    toks,
                    lex.pos() as int,
                    last_span,
                ).0 =~= bv + indented_lines(toks, p, last_span).0);
            } else {
                lex.set_position(saved);
                assert(indented_lines(toks, p, last_span).0 =~= Seq::<Seq<char>>::empty());
                assert(bv + indented_lines(toks, p, last_span).0 =~= bv);
                break ;
            }
        }
    }
    let tags: Vec<Tag> = Vec::new();
    assert(tags@ =~= Seq::<Tag>::empty());
    Block::CodeBlock(
        CodeBlock {
            lang: None,
            tags,
            attributes: StringMap::new(),
            body: string_of(&join_lines(&body_lines)),
            span: first_span.merge(last_span),
        },
    )
}

// ===========================================================================
// Lists
// ===========================================================================
/// The number of items in a list tree, nested items included.
pub open spec fn item_count(items: Seq<ListItem>) -> nat
    decreases items,
{
    if items.len() == 0 {
        0
    } else {
        item_count(items.drop_last()) + 1 + child_item_count(items.last().children@)
    }
}

/// The number of list items in nested lists among `blocks`.
pub open spec fn child_item_count(blocks: Seq<Block>) -> nat
    decreases blocks,
{
    if blocks.len() == 0 {
        0
    } else {
        child_item_count(blocks.drop_last()) + match blocks.last() {
            Block::List(l) => item_count(l.items@),
            _ => 0,
        }
    }
}

/// The end of the run of items after item `k` that are indented deeper
/// than it, looking from `c`.
pub open spec fn run_end(all: Seq<ListItem>, k: int, c: int) -> int
    decreases all.len() - c,
{
    if 0 <= c < all.len() && all[c].indent > all[k].indent {
        run_end(all, k, c + 1)
    } else {
        c
    }
}

pub proof fn lemma_run_end(all: Seq<ListItem>, k: int, c: int)
    requires
        0 <= c <= all.len(),
    ensures
        c <= run_end(all, k, c) <= all.len(),
        forall|j: int| c <= j < run_end(all, k, c) ==> all[j].indent > all[k].indent,
    decreases all.len() - c,
{
    if c < all.len() && all[c].indent > all[k].indent {
        lemma_run_end(all, k, c + 1);
    }
}

/// Two list items that agree in everything but their children.
pub open spec fn same_item(a: ListItem, b: ListItem) -> bool {
    a.checkbox == b.checkbox && a.content == b.content && a.description == b.description
        && a.indent == b.indent && a.span == b.span
}

/// `tree` is the flat items `all[k..]` nested by indentation: each item
/// takes the run of items after it that are indented deeper as an unordered
/// sub-list (nested the same way), spanning from the item to its last
/// sub-item.
pub open spec fn nest_from(all: Seq<ListItem>, k: int, tree: Seq<ListItem>) -> bool
    decreases all.len() - k,
{
    if k < 0 || k >= all.len() {
        tree.len() == 0
    } else {
        proof {
            lemma_run_end(all, k, k + 1);
        }
        let c = run_end(all, k, k + 1);
        let x = all[k];
        &&& tree.len() > 0
        &&& same_item(tree[0], x)
        &&& if c > k + 1 {
            &&& tree[0].children@.len() == 1
            &&& tree[0].children@[0] matches Block::List(l)
            &&& l.kind == ListKind::Unordered
            &&& nest_from(all.subrange(k + 1, c), 0, l.items@)
            &&& l.span == if l.items@.len() > 0 {
                spec_merge(x.span, l.items@.last().span)
            } else {
                x.span
            }
        } else {
            tree[0].children@.len() == 0
        }
        &&& nest_from(all, c, tree.drop_first())
    }
}

/// Nests a flat run of list items by indentation: each item takes the items
/// that follow it with a greater indent as a nested list.
pub fn nest_list_items(items: Vec<ListItem>) -> (r: Vec<ListItem>)
    requires
        forall|i: int| 0 <= i < items@.len() ==> (#[trigger] items@[i]).children@.len() == 0,
    ensures
        item_count(r@) == items@.len(),
        r@.len() <= items@.len(),
        forall|d: Map<Seq<char>, LinkTarget>|
            (forall|i: int| 0 <= i < items@.len() ==> #[trigger] item_resolved(items@[i], d))
                ==> #[trigger] items_resolved(r@, d),
        nest_from(items@, 0, r@),
    decreases items@.len(),
{
    let ghost n0 = items@.len();
    let ghost all = items@;
    let mut flat = items;
    let mut result: Vec<ListItem> = Vec::new();
    let ghost mut k: int = 0;
    assert(all.skip(0) =~= all);
    while flat.len() > 0
        invariant
            n0 == all.len(),
            all == items@,
            0 <= k <= n0,
            flat@ == all.skip(k),
            flat@.len() <= n0,
            item_count(result@) + flat@.len() == n0,
            result@.len() + flat@.len() <= n0,
            forall|i: int| 0 <= i < flat@.len() ==> (#[trigger] flat@[i]).children@.len() == 0,
            forall|d: Map<Seq<char>, LinkTarget>|
                (forall|i: int| 0 <= i < all.len() ==> #[trigger] item_resolved(all[i], d))
                    ==> #[trigger] items_resolved(result@, d),
            forall|t: Seq<ListItem>|
                #[trigger] nest_from(all, k, t) ==> nest_from(all, 0, result@ + t),
        decreases flat@.len(),
    {
        let ghost f0 = flat@;
        let mut item = flat.remove(0);
        assert(item == all[k]);
        assert(item.children@.len() == 0);
        let mut child_items: Vec<ListItem> = Vec::new();
        let ghost mut c: int = k + 1;
        assert(flat@ =~= all.skip(k + 1));
        while flat.len() > 0 && flat[0].indent > item.indent
            invariant
                child_items@.len() + flat@.len() + 1 == f0.len(),
                0 <= k,
                f0.len() <= n0,
                k + 1 <= c <= n0,
                n0 == all.len(),
                flat@ == all.skip(c),
                child_items@ == all.subrange(k + 1, c),
                item == all[k],
                run_end(all, k, c) == run_end(all, k, k + 1),
                forall|i: int| 0 <= i < flat@.len() ==> (#[trigger] flat@[i]).children@.len() == 0,
                forall|i: int|
                    0 <= i < child_items@.len() ==> (#[trigger] child_items@[i]).children@.len()
                        == 0,
            decreases flat@.len(),
        {
            let ghost fl = flat@;
            let ch = flat.remove(0);
            assert(ch == fl[0]);
            child_items.push(ch);
            assert forall|i: int| 0 <= i < flat@.len() implies (#[trigger] flat@[i]).children@.len()
                == 0 by {
                assert(flat@[i] == fl[i + 1]);
            }
            proof {
                assert(flat@ =~= all.skip(c + 1));
                assert(child_items@ =~= all.subrange(k + 1, c + 1));
                c = c + 1;
            }
        }
        let ghost nc = child_items@.len();
        let ghost r0 = result@;
        let ghost item0 = item;
        let ghost kids = child_items@;
        proof {
            if c < n0 {
                assert(flat@[0] == all[c]);
            }
            assert(run_end(all, k, c) == c);
        }
        if child_items.len() > 0 {
            assert(child_items@.len() < n0);
            let nested = nest_list_items(child_items);
            let ghost nv = nested@;
            let child_span = if nested.len() > 0 {
                item.span.merge(nested[nested.len() - 1].span)
            } else {
                item.span
            };
            item.children.push(
                Block::List(List { kind: ListKind::Unordered, items: nested, span: child_span }),
            );
            proof {
                let ch = item.children@;
                assert(ch.len() == 1);
                assert(ch.drop_last() =~= Seq::<Block>::empty());
                assert(ch.last() matches Block::List(l) && l.items@ == nv);
                assert(child_item_count(Seq::<Block>::empty()) == 0);
                assert(child_item_count(ch) == child_item_count(ch.drop_last()) + item_count(nv));
                assert(child_item_count(ch) == item_count(nv));
                assert forall|d: Map<Seq<char>, LinkTarget>|
                    (forall|i: int| 0 <= i < all.len() ==> #[trigger] item_resolved(all[i], d))
                        implies item_resolved(item, d) by {
                    assert(item_resolved(all[k], d));
                    assert forall|i: int| 0 <= i < kids.len() implies #[trigger] item_resolved(kids[i], d) by {
                        assert(kids[i] == all[k + 1 + i]);
                        assert(item_resolved(all[k + 1 + i], d));
                    }
                    assert(items_resolved(nv, d));
                    assert(blocks_resolved(Seq::<Block>::empty(), d));
                    assert(block_resolved(ch.last(), d));
                    assert(blocks_resolved(ch, d));
                }
            }
        } else {
            assert(child_item_count(item.children@) == 0);
            proof {
                assert forall|d: Map<Seq<char>, LinkTarget>|
                    (forall|i: int| 0 <= i < all.len() ==> #[trigger] item_resolved(all[i], d))
                        implies item_resolved(item, d) by {
                    assert(item_resolved(all[k], d));
                }
            }
        }
        let ghost it = item;
        result.push(item);
        proof {
            assert(result@.drop_last() =~= r0);
            assert(result@.last() == it);
            assert(item_count(result@) == item_count(r0) + 1 + nc);
            assert forall|t: Seq<ListItem>| #[trigger] nest_from(all, c, t) implies nest_from(
                all,
                0,
                result@ + t,
            ) by {
                assert((seq![it] + t).drop_first() =~= t);
                assert((seq![it] + t)[0] == it);
                assert(nest_from(all, k, seq![it] + t));
                assert(r0 + (seq![it] + t) =~= result@ + t);
            }
            assert forall|d: Map<Seq<char>, LinkTarget>|
                (forall|i: int| 0 <= i < all.len() ==> #[trigger] item_resolved(all[i], d))
                    implies #[trigger] items_resolved(result@, d) by {
                assert(items_resolved(r0, d));
                assert(item_resolved(it, d));
            }
            k = c;
        }
    }
    assert(nest_from(all, k, Seq::empty()));
    assert(result@ + Seq::<ListItem>::empty() =~= result@);
    result
}

/// The indentation that a list marker token gives (none for another token).
pub open spec fn marker_indent(k: Token) -> usize {
    match k {
        Token::ListMarker { indent, .. } => indent,
        _ => 0,
    }
}

/// The lines of a list from `p` on: the raw text, span and indentation of
/// each line that starts with a list marker.
pub open spec fn list_lines(toks: Seq<Spanned>, p: int) -> Seq<(Seq<char>, Span, usize)>
    decreases toks.len() - p,
{
    if 0 <= p < toks.len() && toks[p].kind is ListMarker {
        seq![(raw_at(toks, p + 1), toks[p].span, marker_indent(toks[p].kind))] + list_lines(
            toks,
            after_opening(toks, p),
        )
    } else {
        Seq::empty()
    }
}

/// `it` is the item that a list line makes: its checkbox, its text before
/// ` :: ` as content and the text after it as description, its indentation
/// and span, and no children.
pub open spec fn list_item_is(
    line: (Seq<char>, Span, usize),
    defs: Map<Seq<char>, LinkTarget>,
    it: ListItem,
) -> bool {
    let (raw, span, indent) = line;
    let (cb, text) = list_item_parts(raw);
    let (term, desc) = match crate::text::find_seq(text, " :: "@) {
        Some(i) => (text.take(i as int), Some(text.skip(i + 4int))),
        None => (text, None),
    };
    &&& it.checkbox == cb
    &&& inline_of(term, span, defs, it.content.segments@)
    &&& match desc {
        Some(d) => it.description matches Some(c) && inline_of(d, span, defs, c.segments@),
        None => it.description is None,
    }
    &&& it.indent == indent
    &&& it.span == span
    &&& it.children@.len() == 0
}

/// The lines of the list that starts at `pos`: that line, then each line
/// after it that starts with a list marker.
pub open spec fn list_block_lines(toks: Seq<Spanned>, pos: int) -> Seq<(Seq<char>, Span, usize)> {
    seq![(raw_at(toks, pos + 1), toks[pos].span, marker_indent(toks[pos].kind))] + list_lines(
        toks,
        after_opening(toks, pos),
    )
}

/// `flat` are the items that the lines of a list make, one for each line.
pub open spec fn list_items_are(
    lines: Seq<(Seq<char>, Span, usize)>,
    defs: Map<Seq<char>, LinkTarget>,
    flat: Seq<ListItem>,
) -> bool {
    &&& flat.len() == lines.len()
    &&& forall|i: int| 0 <= i < flat.len() ==> list_item_is(lines[i], defs, #[trigger] flat[i])
}

/// `b` is the list that starts at `pos`: ordered as its first marker says,
/// with the items of its lines nested by indentation, spanning to its last
/// line.
pub open spec fn list_made(
    toks: Seq<Spanned>,
    pos: int,
    defs: Map<Seq<char>, LinkTarget>,
    b: Block,
) -> bool {
    let lines = list_block_lines(toks, pos);
    &&& b matches Block::List(l)
    &&& l.kind == match toks[pos].kind {
        Token::ListMarker { ordered, .. } => if ordered {
            ListKind::Ordered
        } else {
            ListKind::Unordered
        },
        _ => ListKind::Unordered,
    }
    &&& l.span == spec_merge(toks[pos].span, lines.last().1)
    &&& exists|flat: Seq<ListItem>|
        #[trigger] list_items_are(lines, defs, flat) && nest_from(flat, 0, l.items@)
}

#[verifier::rlimit(40)]
fn parse_list(lex: &mut Lexer<'_>, defs: &StringMap<LinkTarget>) -> (b: Block)
    requires
        in_stream(*old(lex)),
        old(lex).pos() < old(lex).tokens().len(),
    ensures
        final(lex).pos() == list_end(
            old(lex).tokens(),
            after_opening(old(lex).tokens(), old(lex).pos() as int),
        ),
        moved(*old(lex), *final(lex)),
        final(lex).pos() > old(lex).pos(),
        b is List,
        block_resolved(b, defs.to_map()),
        list_made(old(lex).tokens(), old(lex).pos() as int, defs.to_map(), b),
{
    let ghost toks = lex.tokens();
    let ghost pos = lex.pos() as int;
    let ghost dm = defs.to_map();
    let ghost lines = list_block_lines(toks, pos);
    let first_span = lex.peek().span;
    let list_kind = match &lex.peek().kind {
        Token::ListMarker { ordered, .. } => if *ordered {
            ListKind::Ordered
        } else {
            ListKind::Unordered
        },
        _ => ListKind::Unordered,
    };
    let mut flat_items: Vec<ListItem> = Vec::new();
    let mut last_span = first_span;
    let mut first = true;
    loop
        invariant_except_break
            moved(*old(lex), *lex),
            old(lex).pos() < old(lex).tokens().len(),
            !first ==> lex.pos() > old(lex).pos(),
            first ==> lex.pos() == old(lex).pos(),
            forall|i: int|
                0 <= i < flat_items@.len() ==> (#[trigger] flat_items@[i]).children@.len() == 0,
            forall|i: int|
                0 <= i < flat_items@.len() ==> #[trigger] item_resolved(flat_items@[i], defs.to_map()),
            toks == old(lex).tokens(),
            pos == old(lex).pos(),
            dm == defs.to_map(),
            lines == list_block_lines(toks, pos),
            first ==> flat_items@.len() == 0,
            !first ==> list_end(toks, lex.pos() as int) == list_end(toks, after_opening(toks, pos)),
            !first ==> flat_items@.len() > 0 && flat_items@.len() + list_lines(
                toks,
                lex.pos() as int,
            ).len() == lines.len() && (forall|i: int|
                0 <= i < list_lines(toks, lex.pos() as int).len() ==> #[trigger] list_lines(
                    toks,
                    lex.pos() as int,
                )[i] == lines[flat_items@.len() + i]) && last_span == lines[flat_items@.len()
                - 1].1,
            forall|i: int|
                0 <= i < flat_items@.len() ==> list_item_is(lines[i], dm, #[trigger] flat_items@[i]),
        ensures
            moved(*old(lex), *lex),
            lex.pos() > old(lex).pos(),
            forall|i: int|
                0 <= i < flat_items@.len() ==> (#[trigger] flat_items@[i]).children@.len() == 0,
            forall|i: int|
                0 <= i < flat_items@.len() ==> #[trigger] item_resolved(flat_items@[i], defs.to_map()),
            list_items_are(lines, dm, flat_items@),
            last_span == lines.last().1,
            lex.pos() == list_end(toks, after_opening(toks, pos)),
        decreases lex.tokens().len() - lex.pos(),
    {
        let ghost p = lex.pos() as int;
        let ghost line = if first {
            lines[0]
        } else {
            list_lines(toks, p)[0]
        };
        let ghost n0 = flat_items@.len();
        proof {
            if !first && p < toks.len() && toks[p].kind is ListMarker {
                assert(list_lines(toks, p)[0] == lines[n0 as int]);
            }
        }
        let tok = lex.peek();
        let item_span = tok.span;
        let indent = match &tok.kind {
            Token::ListMarker { indent, .. } => Some(*indent),
            _ => None,
        };
        let ghost was_first = first;
        if first {
            first = false;
        } else if indent.is_none() {
            assert(list_lines(toks, p).len() == 0);
            break ;
        }
        lex.advance();
        let raw = consume_raw_line(lex);
        skip_newline(lex);
        last_span = item_span;
        assert(lex.pos() == after_opening(toks, p));
        assert(line == lines[n0 as int]);
        assert(raw@ == line.0 && item_span == line.1);
        let (checkbox, content_text) = parse_list_item_content(&chars_of(raw.as_str()));
        let (term_text, description) = match crate::text::index_of_seq(
            &content_text,
            &chars_of(" :: "),
        ) {
            Some(i) => {
                proof {
                    reveal_strlit(" :: ");
                }
                (
                    slice_of(&content_text, 0, i),
                    Some(build_inline_content(&skip(&content_text, i + 4), item_span, defs)),
                )
            },
            None => (content_text, None),
        };
        let content = build_inline_content(&term_text, item_span, defs);
        let ghost fi0 = flat_items@;
        flat_items.push(
            ListItem {
                checkbox,
                content,
                description,
                children: Vec::new(),
                indent: match indent {
                    Some(n) => n,
                    None => 0,
                },
                span: item_span,
            },
        );
        proof {
            let it = flat_items@.last();
            assert(blocks_resolved(it.children@, defs.to_map()));
            assert(item_resolved(it, defs.to_map()));
            assert forall|i: int| 0 <= i < flat_items@.len() implies #[trigger] item_resolved(flat_items@[i], defs.to_map()) by {
                if i < fi0.len() {
                    assert(flat_items@[i] == fi0[i]);
                }
            }
            assert forall|i: int| 0 <= i < flat_items@.len() implies (#[trigger] flat_items@[i]).children@.len() == 0 by {
                if i < fi0.len() {
                    assert(flat_items@[i] == fi0[i]);
                }
            }
            assert forall|i: int| 0 <= i < flat_items@.len() implies list_item_is(lines[i], dm, #[trigger] flat_items@[i]) by {
                if i < fi0.len() {
                    assert(flat_items@[i] == fi0[i]);
                }
            }
            let np = lex.pos() as int;
            if was_first {
                assert(np == after_opening(toks, pos));
            } else {
                assert forall|i: int| 0 <= i < list_lines(toks, np).len() implies #[trigger] list_lines(toks, np)[i] == lines[flat_items@.len() + i] by {
                    assert(list_lines(toks, np)[i] == list_lines(toks, p)[i + 1]);
                }
            }
        }
    }
    let ghost fv = flat_items@;
    let items = nest_list_items(flat_items);
    assert(items_resolved(items@, defs.to_map()));
    assert(list_items_are(lines, dm, fv) && nest_from(fv, 0, items@));
    Block::List(List { kind: list_kind, items, span: first_span.merge(last_span) })
}

// ===========================================================================
// Tables
// ===========================================================================
fn is_table_row(t: &Token) -> (b: bool)
    ensures
        b == (*t == Token::TableRow),
{
    match t {
        Token::TableRow => true,
        _ => false,
    }
}

/// `cells` are the cells of the table line `line` read at `span`: one for
/// each `|`-separated part, holding the inline content of its trimmed text.
pub open spec fn cells_are(
    line: Seq<char>,
    span: Span,
    defs: Map<Seq<char>, LinkTarget>,
    cells: Seq<InlineContent>,
) -> bool {
    &&& cells.len() == row_cells(line).len()
    &&& forall|i: int|
        0 <= i < cells.len() ==> inline_of(
            trim(row_cells(line)[i]),
            span,
            defs,
            #[trigger] cells[i].segments@,
        )
}

/// The cells of a table line, each built as inline content.
pub fn parse_table_row_content(line: &[char], span: Span, defs: &StringMap<LinkTarget>) -> (r: Vec<
    InlineContent,
>)
    ensures
        r@.len() == row_cells(line@).len(),
        contents_resolved(r@, defs.to_map()),
        cells_are(line@, span, defs.to_map(), r@),
{
    let inner = strip_pipes_of(&trimmed(line));
    let cells = split_char(&inner, '|');
    let mut out: Vec<InlineContent> = Vec::new();
    let mut i: usize = 0;
    while i < cells.len()
        invariant
            i <= cells@.len(),
            out@.len() == i,
            views(cells@) == row_cells(line@),
            contents_resolved(out@, defs.to_map()),
            forall|j: int|
                0 <= j < i ==> inline_of(
                    trim(row_cells(line@)[j]),
                    span,
                    defs.to_map(),
                    #[trigger] out@[j].segments@,
                ),
        decreases cells@.len() - i,
    {
        let c = build_inline_content(&trimmed(&cells[i]), span, defs);
        let ghost o = out@;
        out.push(c);
        assert(views(cells@)[i as int] == cells@[i as int]@);
        assert forall|k: int| 0 <= k < out@.len() implies #[trigger] segs_resolved(out@[k].segments@, defs.to_map()) by {
            if k < o.len() {
                assert(out@[k] == o[k]);
            }
        }
        i += 1;
    }
    out
}

/// The rows of a table from `p` on: the raw text and the span of each line
/// that starts with a table row token.
pub open spec fn table_rows(toks: Seq<Spanned>, p: int) -> Seq<(Seq<char>, Span)>
    decreases toks.len() - p,
{
    if 0 <= p < toks.len() && toks[p].kind == Token::TableRow {
        seq![(raw_at(toks, p + 1), toks[p].span)] + table_rows(toks, after_opening(toks, p))
    } else {
        Seq::empty()
    }
}

/// The alignment row of a table whose header line starts at `pos`, when the
/// next line is one.
pub open spec fn table_separator(toks: Seq<Spanned>, pos: int) -> Option<Seq<Alignment>> {
    let q = after_opening(toks, pos);
    if kind_at(toks, q) == Token::TableRow {
        separator_of(raw_at(toks, q + 1))
    } else {
        None
    }
}

/// `b` is the table whose header line starts at `pos`: the header cells, the
/// alignments of the separator line (unspecified for each header cell when
/// there is none), a row for each table line after them, and the span up to
/// the last line.
pub open spec fn table_made(
    toks: Seq<Spanned>,
    pos: int,
    defs: Map<Seq<char>, LinkTarget>,
    b: Block,
) -> bool {
    let span0 = toks[pos].span;
    let q = after_opening(toks, pos);
    let sep = table_separator(toks, pos);
    let start = if sep is Some {
        after_opening(toks, q)
    } else {
        q
    };
    let rows = table_rows(toks, start);
    let a0 = match sep {
        Some(a) => a,
        None => Seq::empty(),
    };
    &&& b matches Block::Table(t)
    &&& cells_are(raw_at(toks, pos + 1), span0, defs, t.headers@)
    &&& t.rows@.len() == rows.len()
    &&& forall|i: int|
        0 <= i < rows.len() ==> cells_are(rows[i].0, rows[i].1, defs, #[trigger] t.rows@[i]@)
    &&& t.alignments@ == if a0.len() == 0 && t.headers@.len() > 0 {
        Seq::new(t.headers@.len(), |i: int| Alignment::Unspecified)
    } else {
        a0
    }
    &&& t.span == spec_merge(
        span0,
        if rows.len() > 0 {
            rows.last().1
        } else if sep is Some {
            toks[q].span
        } else {
            span0
        },
    )
}

fn parse_table(lex: &mut Lexer<'_>, defs: &StringMap<LinkTarget>) -> (b: Block)
    requires
        in_stream(*old(lex)),
        old(lex).pos() < old(lex).tokens().len(),
    ensures
        final(lex).pos() == rows_end(
            old(lex).tokens(),
            if table_separator(old(lex).tokens(), old(lex).pos() as int) is Some {
                after_opening(
                    old(lex).tokens(),
                    after_opening(old(lex).tokens(), old(lex).pos() as int),
                )
            } else {
                after_opening(old(lex).tokens(), old(lex).pos() as int)
            },
        ),
        moved(*old(lex), *final(lex)),
        final(lex).pos() > old(lex).pos(),
        b matches Block::Table(t) && (t.headers@.len() > 0 ==> t.alignments@.len() > 0),
        block_resolved(b, defs.to_map()),
        table_made(old(lex).tokens(), old(lex).pos() as int, defs.to_map(), b),
{
    let ghost toks = lex.tokens();
    let ghost pos = lex.pos() as int;
    let ghost dm = defs.to_map();
    let first_span = lex.peek().span;
    lex.advance();
    let first_raw = consume_raw_line(lex);
    skip_newline(lex);
    let headers = parse_table_row_content(&chars_of(first_raw.as_str()), first_span, defs);
    let ghost q = lex.pos() as int;
    let mut alignments: Vec<Alignment> = Vec::new();
    let mut rows: Vec<Vec<InlineContent>> = Vec::new();
    let mut last_span = first_span;
    if is_table_row(&lex.peek().kind) {
        let sep_span = lex.peek().span;
        let saved = lex.position();
        lex.advance();
        let sep_raw = consume_raw_line(lex);
        match try_parse_separator(&chars_of(sep_raw.as_str())) {
            Some(aligns) => {
                alignments = aligns;
                last_span = sep_span;
                skip_newline(lex);
            },
            None => {
                lex.set_position(saved);
            },
        }
    }
    let ghost start = lex.pos() as int;
    let ghost all = table_rows(toks, start);
    let ghost a0 = alignments@;
    assert(a0 == match table_separator(toks, pos) {
        Some(a) => a,
        None => Seq::<Alignment>::empty(),
    });
    while is_table_row(&lex.peek().kind)
        invariant
            moved(*old(lex), *lex),
            lex.pos() > old(lex).pos(),
            toks == old(lex).tokens(),
            dm == defs.to_map(),
            rows_resolved(rows@, defs.to_map()),
            alignments@ == a0,
            rows@.len() + table_rows(toks, lex.pos() as int).len() == all.len(),
            rows_end(toks, lex.pos() as int) == rows_end(toks, start),
            forall|i: int| 0 <= i < table_rows(toks, lex.pos() as int).len() ==> #[trigger] table_rows(toks, lex.pos() as int)[i] == all[rows@.len() + i],
            forall|i: int| 0 <= i < rows@.len() ==> cells_are(all[i].0, all[i].1, dm, #[trigger] rows@[i]@),
            rows@.len() > 0 ==> last_span == all[rows@.len() - 1].1,
            rows@.len() == 0 ==> last_span == if table_separator(toks, pos) is Some {
                toks[q].span
            } else {
                toks[pos].span
            },
        decreases lex.tokens().len() - lex.pos(),
    {
        let ghost p = lex.pos() as int;
        let ghost rest = table_rows(toks, p);
        assert(rest[0] == all[rows@.len() as int]);
        let row_span = lex.peek().span;
        lex.advance();
        let raw = consume_raw_line(lex);
        skip_newline(lex);
        assert(lex.pos() == after_opening(toks, p));
        let row = parse_table_row_content(&chars_of(raw.as_str()), row_span, defs);
        let ghost r0 = rows@;
        rows.push(row);
        assert forall|k: int| 0 <= k < rows@.len() implies #[trigger] contents_resolved(rows@[k]@, defs.to_map()) by {
            if k < r0.len() {
                assert(rows@[k] == r0[k]);
            }
        }
        assert forall|i: int| 0 <= i < rows@.len() implies cells_are(all[i].0, all[i].1, dm, #[trigger] rows@[i]@) by {
            if i < r0.len() {
                assert(rows@[i] == r0[i]);
            }
        }
        assert forall|i: int| 0 <= i < table_rows(toks, lex.pos() as int).len() implies #[trigger] table_rows(toks, lex.pos() as int)[i] == all[rows@.len() + i] by {
            assert(table_rows(toks, lex.pos() as int)[i] == rest[i + 1]);
        }
        last_span = row_span;
    }
    assert(table_rows(toks, lex.pos() as int).len() == 0);
    assert(rows@.len() == all.len());
    if alignments.len() == 0 && headers.len() > 0 {
        let mut k: usize = 0;
        while k < headers.len()
            invariant
                k <= headers@.len(),
                alignments@.len() == k,
                forall|j: int| 0 <= j < k ==> #[trigger] alignments@[j] == Alignment::Unspecified,
            decreases headers@.len() - k,
        {
            alignments.push(Alignment::Unspecified);
            k += 1;
        }
        assert(alignments@ =~= Seq::new(headers@.len() as nat, |i: int| Alignment::Unspecified));
    }
    Block::Table(Table { headers, alignments, rows, span: first_span.merge(last_span) })
}

/// The lines of an HTML block from `p` on: each raw line up to a blank line
/// (left for the next block) or up to the line that closes `tag`
/// (included); the span of the last line's first token (`last` when there
/// is none); and whether the stream ended first.
pub open spec fn html_body(toks: Seq<Spanned>, p: int, tag: Seq<char>, last: Span) -> (
    Seq<Seq<char>>,
    Span,
    bool,
)
    decreases toks.len() - p,
{
    if p < 0 || p >= toks.len() || toks[p].kind == Token::Eof {
        (Seq::empty(), last, true)
    } else if toks[p].kind == Token::BlankLine {
        (Seq::empty(), last, false)
    } else {
        proof {
            lemma_line_end(toks, p);
        }
        let line = last_raw(toks, p, line_end(toks, p));
        if toks[p].kind matches Token::HtmlClose { tag: t } && t@ == tag {
            (seq![line], toks[p].span, false)
        } else {
            let r = html_body(toks, after_line(toks, p), tag, toks[p].span);
            (seq![line] + r.0, r.1, r.2)
        }
    }
}

/// The tag that an HTML block opening token names.
pub open spec fn html_tag_of(k: Token) -> Seq<char> {
    match k {
        Token::HtmlOpen { tag } => tag@,
        _ => Seq::empty(),
    }
}

/// Whether the first line of an HTML block of `tag` closes it: it ends with
/// `/>`, the element is void, or the line holds `</tag`.
pub open spec fn html_self_closing(raw: Seq<char>, tag: Seq<char>) -> bool {
    let t = trim(raw);
    crate::text::ends_with(t, "/>"@) || void_element(tag) || crate::text::find_seq(t, "</"@ + tag) is Some
}

/// `b` is the HTML block that opens at `pos`.
pub open spec fn html_block_made(toks: Seq<Spanned>, pos: int, b: Block) -> bool {
    let tag = html_tag_of(toks[pos].kind);
    let raw = raw_at(toks, pos + 1);
    let body = html_body(toks, after_opening(toks, pos), tag, toks[pos].span);
    &&& b matches Block::HtmlBlock(h)
    &&& if html_self_closing(raw, tag) {
        h.raw@ == raw && h.span == spec_merge(toks[pos].span, toks[pos].span)
    } else {
        h.raw@ == joined(seq![raw] + body.0) && h.span == spec_merge(toks[pos].span, body.1)
    }
}

// ===========================================================================
// HTML blocks
// ===========================================================================
fn parse_html_block(lex: &mut Lexer<'_>, errors: &mut Vec<ParseError>) -> (b: Block)
    requires
        in_stream(*old(lex)),
        old(lex).pos() < old(lex).tokens().len(),
    ensures
        final(lex).pos() == if html_self_closing(
            raw_at(old(lex).tokens(), old(lex).pos() + 1),
            html_tag_of(old(lex).tokens()[old(lex).pos() as int].kind),
        ) {
            after_opening(old(lex).tokens(), old(lex).pos() as int)
        } else {
            html_end(
                old(lex).tokens(),
                after_opening(old(lex).tokens(), old(lex).pos() as int),
                html_tag_of(old(lex).tokens()[old(lex).pos() as int].kind),
            )
        },
        moved(*old(lex), *final(lex)),
        final(lex).pos() > old(lex).pos(),
        html_block_made(old(lex).tokens(), old(lex).pos() as int, b),
        ({
            let toks = old(lex).tokens();
            let pos = old(lex).pos() as int;
            let tag = html_tag_of(toks[pos].kind);
            if !html_self_closing(raw_at(toks, pos + 1), tag) && html_body(
                toks,
                after_opening(toks, pos),
                tag,
                toks[pos].span,
            ).2 {
                &&& final(errors)@.drop_last() == old(errors)@
                &&& final(errors)@.len() == old(errors)@.len() + 1
                &&& final(errors)@.last().kind == ParseErrorKind::UnclosedHtmlBlock
                &&& final(errors)@.last().span == toks[pos].span
                &&& final(errors)@.last().message@ == "HTML block <"@ + tag + "> never closed"@
            } else {
                final(errors)@ == old(errors)@
            }
        }),
        errors_grow(
            old(errors)@,
            final(errors)@,
            html_errors(old(lex).tokens(), old(lex).pos() as int),
        ),
{
    let ghost toks = lex.tokens();
    let ghost pos = lex.pos() as int;
    let open_span = lex.peek().span;
    let open_tag = match &lex.peek().kind {
        Token::HtmlOpen { tag } => chars_of(tag.as_str()),
        _ => Vec::new(),
    };
    lex.advance();
    let raw = chars_of(consume_raw_line(lex).as_str());
    skip_newline(lex);
    let ghost q0 = lex.pos() as int;
    let ghost all = html_body(toks, q0, open_tag@, open_span);
    proof {
        reveal_strlit("</");
        reveal_strlit("/>");
    }
    let t = trimmed(&raw);
    let mut closing_tag = chars_of("</");
    append_chars(&mut closing_tag, &open_tag);
    let is_self_closing = has_suffix(&t, &chars_of("/>")) || is_void_element(&open_tag)
        || crate::text::index_of_seq(&t, &closing_tag).is_some();
    let ghost raw0 = raw@;
    let mut raw_lines: Vec<Vec<char>> = Vec::new();
    raw_lines.push(raw);
    let mut last_span = open_span;
    assert(line_views(raw_lines@) =~= seq![raw0]);
    if !is_self_closing {
        loop
            invariant_except_break
                errors@ == old(errors)@,
                line_views(raw_lines@) + html_body(toks, lex.pos() as int, open_tag@, last_span).0
                    == seq![raw0] + all.0,
                html_body(toks, lex.pos() as int, open_tag@, last_span).1 == all.1,
                html_body(toks, lex.pos() as int, open_tag@, last_span).2 == all.2,
                html_end(toks, lex.pos() as int, open_tag@) == html_end(toks, q0, open_tag@),
            invariant
                moved(*old(lex), *lex),
                lex.pos() > old(lex).pos(),
                toks == old(lex).tokens(),
                pos == old(lex).pos(),
                open_span == toks[pos].span,
                open_tag@ == html_tag_of(toks[pos].kind),
            ensures
                line_views(raw_lines@) == seq![raw0] + all.0,
                last_span == all.1,
                lex.pos() == html_end(toks, q0, open_tag@),
                all.2 ==> (errors@.drop_last() == old(errors)@ && errors@.len() == old(errors)@.len()
                    + 1 && errors@.last().kind == ParseErrorKind::UnclosedHtmlBlock
                    && errors@.last().span == toks[pos].span && errors@.last().message@
                    == "HTML block <"@ + open_tag@ + "> never closed"@),
                !all.2 ==> errors@ == old(errors)@,
            decreases lex.tokens().len() - lex.pos(),
        {
            let ghost q = lex.pos() as int;
            let ghost tv = line_views(raw_lines@);
            if lex.is_eof() {
                let mut msg = concat("HTML block <", &open_tag);
                append_chars(&mut msg, &chars_of("> never closed"));
                push_error(errors, ParseErrorKind::UnclosedHtmlBlock, open_span, &msg);
                assert(tv + Seq::<Seq<char>>::empty() =~= tv);
                break ;
            }
            let tok = lex.peek();
            let line_span = tok.span;
            let what: u8 = match &tok.kind {
                Token::BlankLine => 0,
                Token::HtmlClose { tag } => if same(&chars_of(tag.as_str()), &open_tag) {
                    1
                } else {
                    2
                },
                _ => 2,
            };
            if what == 0 {
                assert(tv + Seq::<Seq<char>>::empty() =~= tv);
                break ;
            }
            proof {
                lemma_line_end(toks, q);
            }
            let line_raw = extract_raw_line(lex);
            raw_lines.push(chars_of(line_raw.as_str()));
            last_span = line_span;
            assert(line_views(raw_lines@) =~= tv.push(line_raw@));
            if what == 1 {
                assert(tv.push(line_raw@) =~= tv + seq![line_raw@]);
                break ;
            }
            assert(tv.push(line_raw@) + html_body(toks, lex.pos() as int, open_tag@, last_span).0
                =~= tv + html_body(toks, q, open_tag@, line_span).0);
        }
    }
    proof {
        lemma_err_views_step(old(errors)@, errors@);
    }
    Block::HtmlBlock(
        HtmlBlock { raw: string_of(&join_lines(&raw_lines)), span: open_span.merge(last_span) },
    )
}

// ===========================================================================
// Comments
// ===========================================================================
/// The text of a `// comment` line.
pub open spec fn line_comment_text(raw: Seq<char>) -> Seq<char> {
    let t = trim_start(raw);
    if starts_with(t, "//"@) {
        trim(t.skip(2))
    } else {
        trim(raw)
    }
}

/// The kind of the token at `p` (`Eof` past the end).
pub open spec fn kind_at(toks: Seq<Spanned>, p: int) -> Token {
    if 0 <= p < toks.len() {
        toks[p].kind
    } else {
        crate::lexer::eof_token().kind
    }
}

/// The text of the `RawLine` token at `p`, or nothing when there is none.
pub open spec fn raw_at(toks: Seq<Spanned>, p: int) -> Seq<char> {
    match kind_at(toks, p) {
        Token::RawLine(t) => t@,
        _ => Seq::empty(),
    }
}

/// The text of a `//` comment line: what follows the `//`, trimmed.
pub open spec fn comment_text(raw: Seq<char>) -> Seq<char> {
    let t = trim_start(raw);
    if starts_with(t, "//"@) {
        trim(t.skip(2))
    } else {
        trim(raw)
    }
}

/// What follows `[label]: ` on a link definition line.
pub open spec fn link_def_rest(raw: Seq<char>, label: Seq<char>) -> Seq<char> {
    let t = trim(raw);
    if label.len() <= t.len() && t.len() - label.len() >= 3 {
        t.skip(label.len() + 3int)
    } else {
        Seq::empty()
    }
}

/// What follows `[^label]: ` on a footnote definition line.
pub open spec fn footnote_text(raw: Seq<char>, label: Seq<char>) -> Seq<char> {
    let t = trim(raw);
    let prefix = "[^"@ + label + "]: "@;
    if starts_with(t, prefix) {
        t.skip(prefix.len() as int)
    } else {
        Seq::empty()
    }
}

/// `segs` is the inline content of `text` read at `span`.
pub open spec fn inline_of(
    text: Seq<char>,
    span: Span,
    defs: Map<Seq<char>, LinkTarget>,
    segs: Seq<InlineSegment>,
) -> bool {
    content_from(
        lex_inline(text, 0, Seq::empty()),
        0,
        lex_inline(text, 0, Seq::empty()).len() as int,
        span,
        defs,
        segs,
    )
}

fn parse_line_comment(lex: &mut Lexer<'_>) -> (b: Block)
    requires
        in_stream(*old(lex)),
        old(lex).pos() < old(lex).tokens().len(),
    ensures
        final(lex).pos() == after_opening(old(lex).tokens(), old(lex).pos() as int),
        moved(*old(lex), *final(lex)),
        final(lex).pos() > old(lex).pos(),
        b matches Block::Comment(c) && c.span == old(lex).current().span && c.text@ == comment_text(
            raw_at(old(lex).tokens(), old(lex).pos() + 1),
        ),
{
    let span = lex.peek().span;
    lex.advance();
    let raw = chars_of(consume_raw_line(lex).as_str());
    skip_newline(lex);
    proof {
        reveal_strlit("//");
    }
    let t = trimmed_start(&raw);
    let text = if has_prefix(&t, &chars_of("//")) {
        trimmed(&skip(&t, 2))
    } else {
        trimmed(&raw)
    };
    Block::Comment(Comment { text: string_of(&text), span })
}

/// The text that a block comment's closing line adds: the line without
/// its `*/`, trimmed (nothing when that is empty).
pub open spec fn comment_close_text(raw: Seq<char>) -> Seq<Seq<char>> {
    let tr = trim(raw);
    let without = if crate::text::ends_with(tr, "*/"@) {
        tr.take(tr.len() - 2)
    } else {
        tr
    };
    if trim(without).len() > 0 {
        seq![trim(without)]
    } else {
        Seq::empty()
    }
}

/// The lines of a block comment from `p` on, up to and including the
/// closing line; the span of the last line's first token (`last` when there
/// is no line).
pub open spec fn comment_body(toks: Seq<Spanned>, p: int, last: Span) -> (Seq<Seq<char>>, Span)
    decreases toks.len() - p,
{
    if p < 0 || p >= toks.len() || toks[p].kind == Token::Eof {
        (Seq::empty(), last)
    } else if toks[p].kind == Token::BlockCommentClose {
        (comment_close_text(raw_at(toks, p + 1)), toks[p].span)
    } else {
        proof {
            lemma_line_end(toks, p);
        }
        let r = comment_body(toks, after_line(toks, p), toks[p].span);
        (seq![last_raw(toks, p, line_end(toks, p))] + r.0, r.1)
    }
}

/// The text of the line that opens a block comment: what follows `/*`,
/// trimmed.
pub open spec fn comment_open_text(raw: Seq<char>) -> Seq<char> {
    let t = trim_start(raw);
    if starts_with(t, "/*"@) {
        trim(t.skip(2))
    } else {
        Seq::empty()
    }
}

/// `b` is the block comment that opens at `pos`.
pub open spec fn block_comment_made(toks: Seq<Spanned>, pos: int, b: Block) -> bool {
    let body = comment_body(toks, after_opening(toks, pos), toks[pos].span);
    &&& b matches Block::Comment(c)
    &&& c.text@ == joined(seq![comment_open_text(raw_at(toks, pos + 1))] + body.0)
    &&& c.span == spec_merge(toks[pos].span, body.1)
}

fn parse_block_comment(lex: &mut Lexer<'_>) -> (b: Block)
    requires
        in_stream(*old(lex)),
        old(lex).pos() < old(lex).tokens().len(),
    ensures
        final(lex).pos() == comment_end(
            old(lex).tokens(),
            after_opening(old(lex).tokens(), old(lex).pos() as int),
        ),
        moved(*old(lex), *final(lex)),
        final(lex).pos() > old(lex).pos(),
        block_comment_made(old(lex).tokens(), old(lex).pos() as int, b),
{
    let ghost toks = lex.tokens();
    let ghost pos = lex.pos() as int;
    let open_span = lex.peek().span;
    lex.advance();
    let first_raw = chars_of(consume_raw_line(lex).as_str());
    skip_newline(lex);
    let ghost q0 = lex.pos() as int;
    let ghost all = comment_body(toks, q0, open_span);
    proof {
        reveal_strlit("/*");
        reveal_strlit("*/");
    }
    let t = trimmed_start(&first_raw);
    let first_text = if has_prefix(&t, &chars_of("/*")) {
        trimmed(&skip(&t, 2))
    } else {
        Vec::new()
    };
    let mut text_lines: Vec<Vec<char>> = Vec::new();
    text_lines.push(first_text);
    let mut last_span = open_span;
    let ghost first = seq![first_text@];
    assert(line_views(text_lines@) =~= first);
    loop
        invariant_except_break
            line_views(text_lines@) + comment_body(toks, lex.pos() as int, last_span).0 == first
                + all.0,
            comment_body(toks, lex.pos() as int, last_span).1 == all.1,
            comment_end(toks, lex.pos() as int) == comment_end(toks, q0),
        invariant
            moved(*old(lex), *lex),
            lex.pos() > old(lex).pos(),
            toks == old(lex).tokens(),
            pos == old(lex).pos(),
        ensures
            line_views(text_lines@) == first + all.0,
            last_span == all.1,
            lex.pos() == comment_end(toks, q0),
        decreases lex.tokens().len() - lex.pos(),
    {
        let ghost q = lex.pos() as int;
        let ghost tv = line_views(text_lines@);
        if lex.is_eof() {
            assert(tv + Seq::<Seq<char>>::empty() =~= tv);
            break ;
        }
        let tok = lex.peek();
        let line_span = tok.span;
        let closes = match &tok.kind {
            Token::BlockCommentClose => true,
            _ => false,
        };
        if closes {
            last_span = line_span;
            lex.advance();
            let raw = chars_of(consume_raw_line(lex).as_str());
            skip_newline(lex);
            let tr = trimmed(&raw);
            proof {
                reveal_strlit("*/");
            }
            let without = if has_suffix(&tr, &chars_of("*/")) {
                slice_of(&tr, 0, tr.len() - 2)
            } else {
                tr
            };
            let w = trimmed(&without);
            if w.len() > 0 {
                text_lines.push(w);
                assert(line_views(text_lines@) =~= tv + comment_close_text(raw@));
            } else {
                assert(line_views(text_lines@) =~= tv + comment_close_text(raw@));
            }
            break ;
        }
        proof {
            lemma_line_end(toks, q);
        }
        last_span = line_span;
        let raw = extract_raw_line(lex);
        text_lines.push(chars_of(raw.as_str()));
        assert(line_views(text_lines@) =~= tv.push(raw@));
        assert(tv.push(raw@) + comment_body(toks, lex.pos() as int, last_span).0 =~= tv
            + comment_body(toks, q, line_span).0);
    }
    Block::Comment(
        Comment { text: string_of(&join_lines(&text_lines)), span: open_span.merge(last_span) },
    )
}

// ===========================================================================
// Footnote and link reference definitions
// ===========================================================================
fn parse_footnote_def(lex: &mut Lexer<'_>, defs: &StringMap<LinkTarget>) -> (b: Block)
    requires
        in_stream(*old(lex)),
        old(lex).pos() < old(lex).tokens().len(),
    ensures
        final(lex).pos() == after_opening(old(lex).tokens(), old(lex).pos() as int),
        moved(*old(lex), *final(lex)),
        final(lex).pos() > old(lex).pos(),
        b matches Block::FootnoteDefinition(f) && segs_resolved(
            f.content.segments@,
            defs.to_map(),
        ) && f.span == old(lex).current().span && (match old(lex).current().kind {
            Token::FootnoteDefStart { label } => f.label@ == label@,
            _ => f.label@ == Seq::<char>::empty(),
        }) && inline_of(
            footnote_text(raw_at(old(lex).tokens(), old(lex).pos() + 1), f.label@),
            f.span,
            defs.to_map(),
            f.content.segments@,
        ),
{
    let span = lex.peek().span;
    let label = match &lex.peek().kind {
        Token::FootnoteDefStart { label } => label.clone(),
        _ => String::new(),
    };
    lex.advance();
    let raw = chars_of(consume_raw_line(lex).as_str());
    skip_newline(lex);
    let mut prefix = chars_of("[^");
    append_chars(&mut prefix, &chars_of(label.as_str()));
    append_chars(&mut prefix, &chars_of("]: "));
    let t = trimmed(&raw);
    let content_text = if has_prefix(&t, &prefix) {
        skip(&t, prefix.len())
    } else {
        Vec::new()
    };
    let content = build_inline_content(&content_text, span, defs);
    Block::FootnoteDefinition(FootnoteDefinition { label, content, span })
}

/// The destination and title written after a link label:
/// `/url`, `<url with spaces>`, then optionally `"title"`, `'title'` or
/// `(title)`.
pub open spec fn link_destination(rest: Seq<char>) -> (Seq<char>, Option<Seq<char>>) {
    let r = trim_start(rest);
    let (url, tail) = if r.len() > 0 && r[0] == '<' {
        match find_char(r.skip(1), '>') {
            Some(j) => (r.skip(1).take(j as int), r.skip(1).skip(j + 1 as int)),
            None => (r.take(crate::text::lead_nonws(r) as int), r.skip(
                crate::text::lead_nonws(r) as int,
            )),
        }
    } else {
        (r.take(crate::text::lead_nonws(r) as int), r.skip(crate::text::lead_nonws(r) as int))
    };
    let tt = trim(tail);
    let quoted = tt.len() >= 2 && ((tt[0] == '"' && tt.last() == '"') || (tt[0] == '\''
        && tt.last() == '\'') || (tt[0] == '(' && tt.last() == ')'));
    (url, if quoted {
        Some(tt.skip(1).drop_last())
    } else {
        None
    })
}

fn link_destination_of(rest: &[char]) -> (r: (Vec<char>, Option<Vec<char>>))
    ensures
        (r.0@, match r.1 {
            Some(t) => Some(t@),
            None => None,
        }) == link_destination(rest@),
{
    let r = trimmed_start(rest);
    let ghost rs = r@;
    proof {
        crate::words::lemma_lead_nonws_bound(rs);
    }
    let (url, tail) = if r.len() > 0 && r[0] == '<' {
        let after = skip(&r, 1);
        match index_of(&after, '>') {
            Some(j) => (slice_of(&after, 0, j), skip(&after, j + 1)),
            None => {
                let n = crate::text::count_lead_nonws(&r);
                (slice_of(&r, 0, n), skip(&r, n))
            },
        }
    } else {
        let n = crate::text::count_lead_nonws(&r);
        (slice_of(&r, 0, n), skip(&r, n))
    };
    let tt = trimmed(&tail);
    let quoted = tt.len() >= 2 && ((tt[0] == '"' && tt[tt.len() - 1] == '"') || (tt[0] == '\''
        && tt[tt.len() - 1] == '\'') || (tt[0] == '(' && tt[tt.len() - 1] == ')'));
    let title = if quoted {
        let t = slice_of(&tt, 1, tt.len() - 1);
        assert(t@ =~= tt@.skip(1).drop_last());
        Some(t)
    } else {
        None
    };
    (url, title)
}

fn parse_link_def(lex: &mut Lexer<'_>) -> (b: Block)
    requires
        in_stream(*old(lex)),
        old(lex).pos() < old(lex).tokens().len(),
    ensures
        final(lex).pos() == after_opening(old(lex).tokens(), old(lex).pos() as int),
        moved(*old(lex), *final(lex)),
        final(lex).pos() > old(lex).pos(),
        b matches Block::LinkDefinition(d) && d.span == old(lex).current().span && (match old(
            lex,
        ).current().kind {
            Token::LinkDefStart { label } => d.label@ == label@,
            _ => d.label@ == Seq::<char>::empty(),
        }) && (d.url@, opt_chars(d.title)) == link_destination(
            link_def_rest(raw_at(old(lex).tokens(), old(lex).pos() + 1), d.label@),
        ),
{
    let span = lex.peek().span;
    let label = match &lex.peek().kind {
        Token::LinkDefStart { label } => label.clone(),
        _ => String::new(),
    };
    lex.advance();
    let raw = chars_of(consume_raw_line(lex).as_str());
    skip_newline(lex);
    let t = trimmed(&raw);
    let skip_n = chars_of(label.as_str()).len();
    let rest = if skip_n <= t.len() && t.len() - skip_n >= 3 {
        skip(&t, skip_n + 3)
    } else {
        Vec::new()
    };
    let (url, title) = link_destination_of(&rest);
    Block::LinkDefinition(
        LinkDefinition {
            label,
            url: string_of(&url),
            title: match title {
                Some(x) => Some(string_of(&x)),
                None => None,
            },
            span,
        },
    )
}

// ===========================================================================
// Block tags
// ===========================================================================
fn parse_block_tag(lex: &mut Lexer<'_>) -> (b: Block)
    requires
        in_stream(*old(lex)),
        old(lex).pos() < old(lex).tokens().len(),
    ensures
        final(lex).pos() == tag_line_end(old(lex).tokens(), old(lex).pos() as int),
        moved(*old(lex), *final(lex)),
        final(lex).pos() > old(lex).pos(),
        b matches Block::BlockTag(t) && t.span == old(lex).current().span && describes(
            match old(lex).current().kind {
                Token::Tag(kw) => spec_keyword_str(kw),
                Token::UnknownTag { name } => name@,
                _ => Seq::empty(),
            },
            match kind_at(old(lex).tokens(), old(lex).pos() + 1) {
                Token::TagArg(a) => crate::text::trim(a@),
                _ => Seq::empty(),
            },
            t.kind,
        ),
{
    let span = lex.peek().span;
    let name = match &lex.peek().kind {
        Token::Tag(kw) => string_of(&kw.spelling()),
        Token::UnknownTag { name } => name.clone(),
        _ => String::new(),
    };
    lex.advance();
    let arg = match &lex.peek().kind {
        Token::TagArg(a) => Some(a.clone()),
        _ => None,
    };
    if arg.is_some() {
        lex.advance();
    }
    skip_newline(lex);
    let tag = match &arg {
        Some(a) => parse_tag(name.as_str(), Some(a.as_str()), span),
        None => parse_tag(name.as_str(), None, span),
    };
    Block::BlockTag(tag)
}

// ===========================================================================
// Paragraphs
// ===========================================================================
/// The tokens that start or continue a paragraph line.
pub open spec fn paragraph_token(t: Token) -> bool {
    match t {
        Token::Text(_) | Token::RawLine(_) | Token::BlockquoteContinuation | Token::HtmlClose { .. }
        | Token::PropertiesOpen | Token::PropertiesClose | Token::BlockCommentClose
        | Token::IndentedCodeLine => true,
        _ => false,
    }
}

fn is_paragraph_token(t: &Token) -> (b: bool)
    ensures
        b == paragraph_token(*t),
{
    match t {
        Token::Text(_) | Token::RawLine(_) | Token::BlockquoteContinuation | Token::HtmlClose { .. }
        | Token::PropertiesOpen | Token::PropertiesClose | Token::BlockCommentClose
        | Token::IndentedCodeLine => true,
        _ => false,
    }
}

/// The lines of a paragraph from `p` on: the raw text of each line that
/// starts with a paragraph token.
pub open spec fn para_lines(toks: Seq<Spanned>, p: int) -> Seq<Seq<char>>
    decreases toks.len() - p,
{
    if 0 <= p < toks.len() && paragraph_token(toks[p].kind) {
        proof {
            lemma_line_end(toks, p);
        }
        seq![last_raw(toks, p, line_end(toks, p))] + para_lines(toks, after_line(toks, p))
    } else {
        Seq::empty()
    }
}

/// The span of the first token of the last paragraph line from `p` on
/// (`last` when there is none).
pub open spec fn para_last_span(toks: Seq<Spanned>, p: int, last: Span) -> Span
    decreases toks.len() - p,
{
    if 0 <= p < toks.len() && paragraph_token(toks[p].kind) {
        proof {
            lemma_line_end(toks, p);
        }
        para_last_span(toks, after_line(toks, p), toks[p].span)
    } else {
        last
    }
}

fn parse_paragraph(lex: &mut Lexer<'_>, defs: &StringMap<LinkTarget>) -> (r: Option<Block>)
    requires
        in_stream(*old(lex)),
    ensures
        final(lex).pos() == para_end(old(lex).tokens(), old(lex).pos() as int),
        moved(*old(lex), *final(lex)),
        paragraph_token(old(lex).current().kind) ==> final(lex).pos() > old(lex).pos() && r is Some,
        r is None ==> final(lex).pos() == old(lex).pos(),
        r matches Some(b) ==> b matches Block::Paragraph(p) && segs_resolved(
            p.content.segments@,
            defs.to_map(),
        ) && p.span == spec_merge(
            old(lex).current().span,
            para_last_span(old(lex).tokens(), old(lex).pos() as int, old(lex).current().span),
        ) && inline_of(
            joined(para_lines(old(lex).tokens(), old(lex).pos() as int)),
            p.span,
            defs.to_map(),
            p.content.segments@,
        ),
{
    let ghost toks = lex.tokens();
    let ghost p0 = lex.pos() as int;
    let first_span = lex.peek().span;
    let mut text_lines: Vec<Vec<char>> = Vec::new();
    let mut last_span = first_span;
    while is_paragraph_token(&lex.peek().kind)
        invariant
            moved(*old(lex), *lex),
            toks == old(lex).tokens(),
            p0 == old(lex).pos(),
            text_lines@.len() == 0 ==> lex.pos() == old(lex).pos(),
            text_lines@.len() > 0 ==> lex.pos() > old(lex).pos(),
            line_views(text_lines@) + para_lines(toks, lex.pos() as int) == para_lines(toks, p0),
            para_last_span(toks, lex.pos() as int, last_span) == para_last_span(toks, p0, first_span),
            para_end(toks, lex.pos() as int) == para_end(toks, p0),
        decreases lex.tokens().len() - lex.pos(),
    {
        let ghost q = lex.pos() as int;
        let ghost tv = line_views(text_lines@);
        proof {
            lemma_line_end(toks, q);
        }
        last_span = lex.peek().span;
        let raw = extract_raw_line(lex);
        text_lines.push(chars_of(raw.as_str()));
        assert(line_views(text_lines@) =~= tv.push(raw@));
        assert(tv.push(raw@) + para_lines(toks, lex.pos() as int) =~= tv + para_lines(toks, q));
    }
    assert(para_lines(toks, lex.pos() as int) =~= Seq::<Seq<char>>::empty());
    assert(line_views(text_lines@) =~= para_lines(toks, p0));
    if text_lines.len() == 0 {
        return None;
    }
    let full_text = join_lines(&text_lines);
    let span = first_span.merge(last_span);
    let content = build_inline_content(&full_text, span, defs);
    Some(Block::Paragraph(Paragraph { content, span }))
}

// ===========================================================================
// Callouts
// ===========================================================================
/// The text on the first line of a callout after `> [!kind]` and an
/// optional `[metadata]`, trimmed.
pub open spec fn callout_first_text(raw: Seq<char>) -> Seq<char> {
    let t = trim_start(raw);
    if t.len() > 0 && t[0] == '>' {
        let rest = trim_start(t.skip(1));
        match find_char(rest, ']') {
            Some(k) => {
                let after = rest.skip(k + 1 as int);
                let ta = trim_start(after);
                let after2 = if ta.len() > 0 && ta[0] == '[' {
                    match find_char(ta, ']') {
                        Some(m) => ta.skip(m + 1 as int),
                        None => after,
                    }
                } else {
                    after
                };
                trim(after2)
            },
            None => Seq::empty(),
        }
    } else {
        Seq::empty()
    }
}

fn callout_first_text_of(raw: &[char]) -> (r: Vec<char>)
    ensures
        r@ == callout_first_text(raw@),
{
    let t = trimmed_start(raw);
    if t.len() > 0 && t[0] == '>' {
        let rest = trimmed_start(&skip(&t, 1));
        match index_of(&rest, ']') {
            Some(k) => {
                let after = skip(&rest, k + 1);
                let ta = trimmed_start(&after);
                let after2 = if ta.len() > 0 && ta[0] == '[' {
                    match index_of(&ta, ']') {
                        Some(m) => skip(&ta, m + 1),
                        None => after,
                    }
                } else {
                    after
                };
                trimmed(&after2)
            },
            None => Vec::new(),
        }
    } else {
        Vec::new()
    }
}

/// A callout continuation line without its `>` marker.
pub open spec fn quote_stripped(raw: Seq<char>) -> Seq<char> {
    let t = trim_start(raw);
    if t.len() > 0 && t[0] == '>' {
        trim_start(t.skip(1))
    } else {
        t
    }
}

fn quote_stripped_of(raw: &[char]) -> (r: Vec<char>)
    ensures
        r@ == quote_stripped(raw@),
{
    let t = trimmed_start(raw);
    if t.len() > 0 && t[0] == '>' {
        trimmed_start(&skip(&t, 1))
    } else {
        t
    }
}

fn is_quote_line(t: &Token) -> (b: bool)
    ensures
        b == (*t == Token::BlockquoteContinuation),
{
    match t {
        Token::BlockquoteContinuation => true,
        _ => false,
    }
}

/// The lines inside a callout from `p` on: each `>` line with its `>`
/// removed; and the span of the last one's first token (`last` when there is
/// none).
pub open spec fn quote_lines(toks: Seq<Spanned>, p: int, last: Span) -> (Seq<Seq<char>>, Span)
    decreases toks.len() - p,
{
    if 0 <= p < toks.len() && toks[p].kind == Token::BlockquoteContinuation {
        let r = quote_lines(toks, after_opening(toks, p), toks[p].span);
        (seq![quote_stripped(raw_at(toks, p + 1))] + r.0, r.1)
    } else {
        (Seq::empty(), last)
    }
}

/// The text inside the callout that starts at `pos`: the text after its
/// marker, when there is some, and its `>` lines, joined.
pub open spec fn callout_text(toks: Seq<Spanned>, pos: int) -> Seq<char> {
    let first = callout_first_text(raw_at(toks, pos + 1));
    let head = if first.len() > 0 {
        seq![first]
    } else {
        Seq::empty()
    };
    joined(head + quote_lines(toks, after_opening(toks, pos), toks[pos].span).0)
}

/// The kind and metadata text of a callout's opening token.
pub open spec fn callout_of(k: Token) -> (Seq<char>, Option<Seq<char>>) {
    match k {
        Token::CalloutStart { kind, metadata } => (kind@, opt_chars(metadata)),
        _ => (Seq::empty(), None),
    }
}

/// `b` is the callout that starts at `pos`: its kind, the tags and
/// attributes of its metadata, its span up to its last `>` line, and as
/// content the blocks of its inner text, read against `defs` and the link
/// definitions of that text, as [`blocks_made`] describes with one unit of
/// fuel less (nothing when the fuel is spent).
pub open spec fn callout_made(
    toks: Seq<Spanned>,
    pos: int,
    defs: Map<Seq<char>, LinkTarget>,
    fuel: nat,
    b: Block,
) -> bool
    decreases fuel, 0int,
{
    let (kind, meta) = callout_of(toks[pos].kind);
    &&& b matches Block::Callout(c)
    &&& c.kind@ == kind
    &&& match meta {
        Some(m) => tags_of_words(c.tags@, words(m), toks[pos].span) && text_map(
            c.attributes.to_map(),
        ) == attr_map(words(m)),
        None => c.tags@.len() == 0 && c.attributes.to_map() == Map::<Seq<char>, String>::empty(),
    }
    &&& c.span == spec_merge(
        toks[pos].span,
        quote_lines(toks, after_opening(toks, pos), toks[pos].span).1,
    )
    &&& if fuel == 0 {
        c.content@.len() == 0
    } else {
        exists|w: (Seq<Spanned>, Seq<int>, Map<Seq<char>, LinkTarget>)|
            #[trigger] block_tokens(callout_text(toks, pos), w.0) && w.1 == block_starts(
                w.0,
                body_start(w.0),
            ) && blocks_made(
                w.0,
                w.1,
                c.content@,
                defs.union_prefer_right(w.2),
                (fuel - 1) as nat,
            )
    }
}

fn parse_callout(
    lex: &mut Lexer<'_>,
    errors: &mut Vec<ParseError>,
    defs: &StringMap<LinkTarget>,
    fuel: usize,
) -> (b: Block)
    requires
        in_stream(*old(lex)),
        old(lex).pos() < old(lex).tokens().len(),
    ensures
        final(lex).pos() == quote_end(
            old(lex).tokens(),
            after_opening(old(lex).tokens(), old(lex).pos() as int),
        ),
        moved(*old(lex), *final(lex)),
        final(lex).pos() > old(lex).pos(),
        b is Callout,
        block_resolved(b, defs.to_map()),
        callout_made(old(lex).tokens(), old(lex).pos() as int, defs.to_map(), fuel as nat, b),
        errors_grow(old(errors)@, final(errors)@, added_errors(old(errors)@, final(errors)@)),
        fuel == 0 ==> final(errors)@ == old(errors)@,
        fuel > 0 ==> exists|w: Seq<Spanned>|
            #[trigger] block_tokens(callout_text(old(lex).tokens(), old(lex).pos() as int), w)
                && document_errors_made(
                w,
                (fuel - 1) as nat,
                added_errors(old(errors)@, final(errors)@),
            ),
    decreases fuel, 0int,
{
    let ghost toks = lex.tokens();
    let ghost pos = lex.pos() as int;
    let open_span = lex.peek().span;
    let (kind, metadata) = match &lex.peek().kind {
        Token::CalloutStart { kind, metadata } => (
            kind.clone(),
            match metadata {
                Some(m) => Some(chars_of(m.as_str())),
                None => None,
            },
        ),
        _ => (String::new(), None),
    };
    lex.advance();
    let (callout_tags, attributes) = match &metadata {
        Some(meta) => parse_metadata(meta, open_span),
        None => (Vec::new(), StringMap::new()),
    };
    let raw = chars_of(consume_raw_line(lex).as_str());
    skip_newline(lex);
    let ghost q0 = lex.pos() as int;
    assert(q0 == after_opening(toks, pos));
    let ghost body = quote_lines(toks, q0, open_span);
    let mut content_lines: Vec<Vec<char>> = Vec::new();
    let first = callout_first_text_of(&raw);
    if first.len() > 0 {
        content_lines.push(first);
    }
    let ghost head = line_views(content_lines@);
    assert(raw@ == raw_at(toks, pos + 1));
    assert(head =~= if callout_first_text(raw_at(toks, pos + 1)).len() > 0 {
        seq![callout_first_text(raw_at(toks, pos + 1))]
    } else {
        Seq::<Seq<char>>::empty()
    });
    let mut last_span = open_span;
    while is_quote_line(&lex.peek().kind)
        invariant
            moved(*old(lex), *lex),
            lex.pos() > old(lex).pos(),
            toks == old(lex).tokens(),
            line_views(content_lines@) + quote_lines(toks, lex.pos() as int, last_span).0 == head
                + body.0,
            quote_lines(toks, lex.pos() as int, last_span).1 == body.1,
            quote_end(toks, lex.pos() as int) == quote_end(toks, q0),
            q0 == after_opening(toks, pos),
            pos == old(lex).pos(),
        decreases lex.tokens().len() - lex.pos(),
    {
        let ghost p = lex.pos() as int;
        let ghost cv = line_views(content_lines@);
        last_span = lex.peek().span;
        lex.advance();
        let line = chars_of(consume_raw_line(lex).as_str());
        skip_newline(lex);
        content_lines.push(quote_stripped_of(&line));
        assert(lex.pos() == after_opening(toks, p));
        assert(line_views(content_lines@) =~= cv.push(quote_stripped(line@)));
        assert(cv.push(quote_stripped(line@)) + quote_lines(toks, lex.pos() as int, last_span).0
            =~= cv + quote_lines(toks, p, last_span).0);
    }
    assert(quote_lines(toks, lex.pos() as int, last_span).0.len() == 0);
    assert(line_views(content_lines@) =~= head + body.0);
    let inner_source = string_of(&join_lines(&content_lines));
    assert(inner_source@ == callout_text(toks, pos));
    let ghost mut wt: (Seq<Spanned>, Seq<int>, Map<Seq<char>, LinkTarget>) = (
        Seq::empty(),
        Seq::empty(),
        Map::empty(),
    );
    let content = if fuel > 0 {
        let inner = parse_nested(inner_source.as_str(), fuel - 1, defs);
        let mut k: usize = 0;
        let ghost ev0 = err_views(errors@);
        assert(err_views(inner.errors@).take(0) =~= Seq::<(ParseErrorKind, Span, Seq<char>)>::empty());
        assert(ev0 + Seq::<(ParseErrorKind, Span, Seq<char>)>::empty() =~= ev0);
        while k < inner.errors.len()
            invariant
                k <= inner.errors@.len(),
                err_views(errors@) == ev0 + err_views(inner.errors@).take(k as int),
            decreases inner.errors@.len() - k,
        {
            let e = &inner.errors[k];
            let ghost before = err_views(errors@);
            errors.push(ParseError { kind: e.kind, span: e.span, message: e.message.clone() });
            assert(err_views(errors@) =~= before.push((e.kind, e.span, e.message@)));
            assert(err_views(inner.errors@).take(k + 1) =~= err_views(inner.errors@).take(
                k as int,
            ).push((e.kind, e.span, e.message@)));
            k += 1;
        }
        assert(err_views(inner.errors@).take(inner.errors@.len() as int) =~= err_views(
            inner.errors@,
        ));
        proof {
            lemma_added(old(errors)@, errors@, err_views(inner.errors@));
            let itoks = choose|itoks: Seq<Spanned>|
                block_tokens(inner_source@, itoks) && #[trigger] blocks_made(
                    itoks,
                    block_starts(itoks, body_start(itoks)),
                    inner.document.children@,
                    defs.to_map().union_prefer_right(inner.document.link_defs.to_map()),
                    (fuel - 1) as nat,
                ) && frontmatter_made(itoks, inner.document.frontmatter) && document_errors_made(
                    itoks,
                    (fuel - 1) as nat,
                    err_views(inner.errors@),
                );
            assert(block_tokens(callout_text(toks, pos), itoks) && document_errors_made(
                itoks,
                (fuel - 1) as nat,
                added_errors(old(errors)@, errors@),
            ));
            let istarts = block_starts(itoks, body_start(itoks));
            assert(block_tokens(callout_text(toks, pos), itoks) && blocks_made(
                itoks,
                istarts,
                inner.document.children@,
                defs.to_map().union_prefer_right(inner.document.link_defs.to_map()),
                (fuel - 1) as nat,
            ));
            wt = (itoks, istarts, inner.document.link_defs.to_map());
        }
        inner.document.children
    } else {
        proof {
            lemma_err_views_step(old(errors)@, errors@);
            lemma_added(old(errors)@, errors@, Seq::empty());
        }
        Vec::new()
    };
    assert(blocks_resolved(content@, defs.to_map()));
    let ghost cv = content@;
    let b = Block::Callout(
        Callout {
            kind,
            tags: callout_tags,
            attributes,
            content,
            span: open_span.merge(last_span),
        },
    );
    proof {
        if fuel > 0 {
            assert(block_tokens(callout_text(toks, pos), wt.0) && wt.1 == block_starts(
                wt.0,
                body_start(wt.0),
            ) && blocks_made(
                wt.0,
                wt.1,
                cv,
                defs.to_map().union_prefer_right(wt.2),
                (fuel - 1) as nat,
            ));
        }
    }
    b
}

/// Whether a token starts a block (any other token is skipped with its
/// line).
pub open spec fn starts_block(k: Token) -> bool {
    match k {
        Token::BlankLine | Token::Heading { .. } | Token::FencedCodeOpen { .. }
        | Token::FencedCodeClose { .. } | Token::CalloutStart { .. } | Token::ListMarker { .. }
        | Token::TableRow | Token::HtmlOpen { .. } | Token::HorizontalRule | Token::LineComment
        | Token::BlockCommentOpen | Token::FootnoteDefStart { .. } | Token::FrontmatterDelim
        | Token::Tag(_) | Token::UnknownTag { .. } | Token::Text(_) | Token::RawLine(_)
        | Token::PropertiesOpen | Token::PropertiesClose | Token::BlockCommentClose
        | Token::HtmlClose { .. } | Token::BlockquoteContinuation | Token::IndentedCodeLine
        | Token::LinkDefStart { .. } => true,
        _ => false,
    }
}

/// `b` is the block that the token at `pos` starts: each kind of token
/// starts its kind of block, and a block of one line (a blank line, a rule,
/// a heading's text, a comment line, a footnote or link definition, a tag
/// line) is given in full.
pub open spec fn block_made(
    toks: Seq<Spanned>,
    pos: int,
    defs: Map<Seq<char>, LinkTarget>,
    fuel: nat,
    b: Block,
) -> bool
    decreases fuel, 1int,
{
    let span = toks[pos].span;
    let raw = raw_at(toks, pos + 1);
    let arg = match kind_at(toks, pos + 1) {
        Token::TagArg(a) => crate::text::trim(a@),
        _ => Seq::empty(),
    };
    match toks[pos].kind {
        Token::BlankLine => b == Block::BlankLine(span),
        Token::HorizontalRule => b == Block::HorizontalRule(span),
        Token::Heading { level } => b matches Block::Heading(h) && h.level == level && h.span
            == span && inline_of(heading_text(raw), span, defs, h.content.segments@) && heading_drawer(
            toks,
            pos,
            h.properties,
        ),
        Token::FencedCodeOpen { .. } | Token::FencedCodeClose { .. } => fenced_code_made(toks, pos, b),
        Token::CalloutStart { .. } => callout_made(toks, pos, defs, fuel, b),
        Token::ListMarker { .. } => list_made(toks, pos, defs, b),
        Token::TableRow => table_made(toks, pos, defs, b),
        Token::HtmlOpen { .. } => html_block_made(toks, pos, b),
        Token::LineComment => b matches Block::Comment(c) && c.span == span && c.text@
            == comment_text(raw),
        Token::BlockCommentOpen => block_comment_made(toks, pos, b),
        Token::FootnoteDefStart { label } => b matches Block::FootnoteDefinition(f) && f.span
            == span && f.label@ == label@ && inline_of(
            footnote_text(raw, label@),
            span,
            defs,
            f.content.segments@,
        ),
        Token::FrontmatterDelim => b matches Block::Paragraph(p) && p.span == span
            && p.content.segments@.len() == 1 && (p.content.segments@[0] matches InlineSegment::Text(
            t,
        ) && t@ == "---"@),
        Token::Tag(kw) => b matches Block::BlockTag(t) && t.span == span && describes(
            spec_keyword_str(kw),
            arg,
            t.kind,
        ),
        Token::UnknownTag { name } => b matches Block::BlockTag(t) && t.span == span && describes(
            name@,
            arg,
            t.kind,
        ),
        Token::IndentedCodeLine => indented_made(toks, pos, b),
        Token::LinkDefStart { label } => b matches Block::LinkDefinition(d) && d.span == span
            && d.label@ == label@ && (d.url@, opt_chars(d.title)) == link_destination(
            link_def_rest(raw, label@),
        ),
        _ => starts_block(toks[pos].kind) && (b matches Block::Paragraph(p) && p.span == spec_merge(
            span,
            para_last_span(toks, pos, span),
        ) && inline_of(joined(para_lines(toks, pos)), p.span, defs, p.content.segments@)),
    }
}

/// Where the block that starts at `pos` ends (for a token that starts no
/// block, where its line ends).
pub open spec fn block_end(toks: Seq<Spanned>, pos: int) -> int {
    let q = after_opening(toks, pos);
    match toks[pos].kind {
        Token::BlankLine | Token::HorizontalRule | Token::FrontmatterDelim => after_token(toks, pos),
        Token::Heading { .. } => heading_end(toks, pos),
        Token::FencedCodeOpen { .. } | Token::FencedCodeClose { .. } => fence_end(
            toks,
            q,
            fence_of(toks[pos].kind).0,
            fence_of(toks[pos].kind).1,
        ),
        Token::CalloutStart { .. } => quote_end(toks, q),
        Token::ListMarker { .. } => list_end(toks, q),
        Token::TableRow => rows_end(
            toks,
            if table_separator(toks, pos) is Some {
                after_opening(toks, q)
            } else {
                q
            },
        ),
        Token::HtmlOpen { .. } => if html_self_closing(
            raw_at(toks, pos + 1),
            html_tag_of(toks[pos].kind),
        ) {
            q
        } else {
            html_end(toks, q, html_tag_of(toks[pos].kind))
        },
        Token::LineComment | Token::FootnoteDefStart { .. } | Token::LinkDefStart { .. } => q,
        Token::BlockCommentOpen => comment_end(toks, q),
        Token::Tag(_) | Token::UnknownTag { .. } => tag_line_end(toks, pos),
        Token::IndentedCodeLine => indented_end(toks, after_line(toks, pos)),
        _ => if starts_block(toks[pos].kind) {
            para_end(toks, pos)
        } else {
            crate::lexer::next_line_start(toks, pos)
        },
    }
}

/// The positions at which the parse finds blocks, from `p` on: at each
/// position before the end of the stream, a token that starts a block gives
/// a block that runs to [`block_end`]; any other token is skipped with its
/// line and the line after it.
pub open spec fn block_starts(toks: Seq<Spanned>, p: int) -> Seq<int>
    decreases toks.len() - p,
{
    if p < 0 || p >= toks.len() || toks[p].kind == Token::Eof {
        Seq::empty()
    } else {
        let e = block_end(toks, p);
        if starts_block(toks[p].kind) {
            if p < e <= toks.len() {
                seq![p] + block_starts(toks, e)
            } else {
                Seq::empty()
            }
        } else {
            let n = crate::lexer::next_line_start(toks, e);
            if p < n <= toks.len() {
                block_starts(toks, n)
            } else {
                Seq::empty()
            }
        }
    }
}

/// Where the lines of a frontmatter block from `p` end: past the closing
/// `---`, or where the stream ends.
pub open spec fn frontmatter_end(toks: Seq<Spanned>, p: int) -> int
    decreases toks.len() - p,
{
    if p < 0 || p >= toks.len() || toks[p].kind == Token::Eof {
        p
    } else if toks[p].kind == Token::FrontmatterDelim {
        after_token(toks, p)
    } else {
        proof {
            lemma_line_end(toks, p);
        }
        frontmatter_end(toks, after_line(toks, p))
    }
}

/// Where the blocks of a document start: after its frontmatter, if its
/// first token opens one.
pub open spec fn body_start(toks: Seq<Spanned>) -> int {
    if toks.len() > 0 && opens_frontmatter(toks[0]) {
        frontmatter_end(toks, after_token(toks, 0))
    } else {
        0
    }
}

// ===========================================================================
// Block dispatch
// ===========================================================================
/// Parses the block that starts under the cursor; `None` when the token
/// there starts no block (the rest of its line is then skipped).
fn parse_block(
    lex: &mut Lexer<'_>,
    errors: &mut Vec<ParseError>,
    defs: &StringMap<LinkTarget>,
    fuel: usize,
) -> (r: Option<Block>)
    requires
        in_stream(*old(lex)),
        old(lex).pos() < old(lex).tokens().len(),
        old(lex).current().kind != Token::Eof,
    ensures
        moved(*old(lex), *final(lex)),
        final(lex).pos() > old(lex).pos(),
        r matches Some(b) ==> block_resolved(b, defs.to_map()) && block_made(
            old(lex).tokens(),
            old(lex).pos() as int,
            defs.to_map(),
            fuel as nat,
            b,
        ),
        r is None <==> !starts_block(old(lex).current().kind),
        final(lex).pos() == block_end(old(lex).tokens(), old(lex).pos() as int),
        errors_grow(old(errors)@, final(errors)@, added_errors(old(errors)@, final(errors)@)),
        r is Some ==> block_errors_made(
            old(lex).tokens(),
            old(lex).pos() as int,
            fuel as nat,
            added_errors(old(errors)@, final(errors)@),
        ),
        r is None ==> final(errors)@ == old(errors)@,
    decreases fuel, 1int,
{
    let ghost toks = lex.tokens();
    let ghost pos = lex.pos() as int;
    let tok = lex.peek();
    let span = tok.span;
    // 0 blank, 1 heading, 2 fence, 3 callout, 4 list, 5 table, 6 html, 7 rule,
    // 8 line comment, 9 block comment, 10 footnote, 11 delimiter, 12 tag,
    // 13 paragraph, 14 indented code, 15 link definition, 16 other
    let mut level: u8 = 0;
    let what: u8 = match &tok.kind {
        Token::BlankLine => 0,
        Token::Heading { level: l } => {
            level = *l;
            1
        },
        Token::FencedCodeOpen { .. } | Token::FencedCodeClose { .. } => 2,
        Token::CalloutStart { .. } => 3,
        Token::ListMarker { .. } => 4,
        Token::TableRow => 5,
        Token::HtmlOpen { .. } => 6,
        Token::HorizontalRule => 7,
        Token::LineComment => 8,
        Token::BlockCommentOpen => 9,
        Token::FootnoteDefStart { .. } => 10,
        Token::FrontmatterDelim => 11,
        Token::Tag(_) | Token::UnknownTag { .. } => 12,
        Token::Text(_) | Token::RawLine(_) | Token::PropertiesOpen | Token::PropertiesClose
        | Token::BlockCommentClose | Token::HtmlClose { .. } | Token::BlockquoteContinuation => 13,
        Token::IndentedCodeLine => 14,
        Token::LinkDefStart { .. } => 15,
        _ => 16,
    };
    let r = if what == 0 {
        lex.advance();
        skip_newline(lex);
        Some(Block::BlankLine(span))
    } else if what == 1 {
        Some(parse_heading(lex, level, errors, defs))
    } else if what == 2 {
        Some(parse_code_block(lex, errors))
    } else if what == 3 {
        Some(parse_callout(lex, errors, defs, fuel))
    } else if what == 4 {
        Some(parse_list(lex, defs))
    } else if what == 5 {
        Some(parse_table(lex, defs))
    } else if what == 6 {
        Some(parse_html_block(lex, errors))
    } else if what == 7 {
        lex.advance();
        skip_newline(lex);
        Some(Block::HorizontalRule(span))
    } else if what == 8 {
        Some(parse_line_comment(lex))
    } else if what == 9 {
        Some(parse_block_comment(lex))
    } else if what == 10 {
        Some(parse_footnote_def(lex, defs))
    } else if what == 11 {
        // A `---` that is not on the first line is kept as text.
        lex.advance();
        skip_newline(lex);
        let content = InlineContent::plain("---");
        assert(content.segments@.drop_last() =~= Seq::<InlineSegment>::empty());
        assert(segs_resolved(content.segments@.drop_last(), defs.to_map()));
        assert(seg_resolved(content.segments@.last(), defs.to_map()));
        assert(segs_resolved(content.segments@, defs.to_map()));
        Some(Block::Paragraph(Paragraph { content, span }))
    } else if what == 12 {
        Some(parse_block_tag(lex))
    } else if what == 13 {
        parse_paragraph(lex, defs)
    } else if what == 14 {
        Some(parse_indented_code(lex))
    } else if what == 15 {
        Some(parse_link_def(lex))
    } else {
        lex.skip_to_next_line();
        proof {
            lemma_next_line_start(old(lex).tokens(), old(lex).pos());
        }
        None
    };
    proof {
        if what == 1 {
            lemma_added(old(errors)@, errors@, heading_errors(toks, pos));
        } else if what == 2 {
            lemma_added(old(errors)@, errors@, fence_errors(toks, pos));
        } else if what == 6 {
            lemma_added(old(errors)@, errors@, html_errors(toks, pos));
        } else if what == 3 {
            if fuel == 0 {
                lemma_err_views_step(old(errors)@, errors@);
                lemma_added(old(errors)@, errors@, Seq::empty());
            } else {
                let a = added_errors(old(errors)@, errors@);
                let w = choose|w: Seq<Spanned>|
                    #[trigger] block_tokens(callout_text(toks, pos), w) && document_errors_made(
                        w,
                        (fuel - 1) as nat,
                        a,
                    );
                let es = choose|es: Seq<Seq<(ParseErrorKind, Span, Seq<char>)>>|
                    #[trigger] errors_split(w, a, es) && all_block_errors(w, (fuel - 1) as nat, es);
                assert(block_tokens(callout_text(toks, pos), (w, es).0) && errors_split(w, a, es));
                assert(toks[pos].kind is CalloutStart);
                assert(block_errors_made(toks, pos, fuel as nat, a));
            }
        } else {
            lemma_err_views_step(old(errors)@, errors@);
            lemma_added(old(errors)@, errors@, Seq::empty());
        }
    }
    r
}

pub proof fn lemma_next_line_start(toks: Seq<Spanned>, pos: int)
    requires
        0 <= pos <= toks.len(),
    ensures
        pos < toks.len() ==> pos < crate::lexer::next_line_start(toks, pos) <= toks.len(),
        pos == toks.len() ==> crate::lexer::next_line_start(toks, pos) == toks.len(),
    decreases toks.len() - pos,
{
    if pos < toks.len() && !(toks[pos].kind == Token::Newline || toks[pos].kind == Token::Eof) {
        lemma_next_line_start(toks, pos + 1);
    }
}

// ===========================================================================
// Documents
// ===========================================================================
/// The outcome of parsing: the document and the problems found on the way.
pub struct ParseResult {
    pub document: Document,
    pub errors: Vec<ParseError>,
}

/// `blocks` are, in order, the blocks that the tokens at `starts` make, each
/// start coming before the next.
pub open spec fn blocks_made(
    toks: Seq<Spanned>,
    starts: Seq<int>,
    blocks: Seq<Block>,
    defs: Map<Seq<char>, LinkTarget>,
    fuel: nat,
) -> bool
    decreases fuel, 2int,
{
    &&& starts.len() == blocks.len()
    &&& forall|k: int|
        0 <= k < starts.len() ==> 0 <= #[trigger] starts[k] < toks.len() && block_made(
            toks,
            starts[k],
            defs,
            fuel,
            blocks[k],
        )
    &&& forall|k: int, l: int| 0 <= k < l < starts.len() ==> #[trigger] starts[k] < #[trigger] starts[l]
}

/// One pass over the blocks of `source`, with link references resolved
/// against `defs`.
/// Parse errors by value: kind, span and message.
pub open spec fn err_views(es: Seq<ParseError>) -> Seq<(ParseErrorKind, Span, Seq<char>)> {
    es.map_values(|e: ParseError| (e.kind, e.span, e.message@))
}

proof fn lemma_err_views_step(before: Seq<ParseError>, after: Seq<ParseError>)
    ensures
        after == before ==> err_views(after) == err_views(before) + Seq::<
            (ParseErrorKind, Span, Seq<char>),
        >::empty(),
        (after.len() == before.len() + 1 && after.drop_last() == before) ==> err_views(after)
            == err_views(before) + seq![(after.last().kind, after.last().span, after.last().message@)],
{
    assert(err_views(before) + Seq::<(ParseErrorKind, Span, Seq<char>)>::empty() =~= err_views(
        before,
    ));
    if after.len() == before.len() + 1 && after.drop_last() == before {
        assert(err_views(after) =~= err_views(before) + seq![
            (after.last().kind, after.last().span, after.last().message@),
        ]);
    }
}

proof fn lemma_added(before: Seq<ParseError>, after: Seq<ParseError>, e: Seq<(ParseErrorKind, Span, Seq<char>)>)
    requires
        errors_grow(before, after, e),
    ensures
        added_errors(before, after) == e,
        errors_grow(before, after, added_errors(before, after)),
{
    assert(err_views(before).len() == before.len());
    assert((err_views(before) + e).skip(before.len() as int) =~= e);
}

/// The errors added to `before` to give `after`.
pub open spec fn added_errors(before: Seq<ParseError>, after: Seq<ParseError>) -> Seq<
    (ParseErrorKind, Span, Seq<char>),
> {
    err_views(after).skip(before.len() as int)
}

/// `after` is `before` with `e` added at its end.
pub open spec fn errors_grow(
    before: Seq<ParseError>,
    after: Seq<ParseError>,
    e: Seq<(ParseErrorKind, Span, Seq<char>)>,
) -> bool {
    err_views(after) == err_views(before) + e
}

/// The errors of a property drawer whose lines start at `p`, opened at
/// `open`: each line that is not `key = value`, and the drawer when the
/// stream ends before `#end`.
pub open spec fn drawer_errors(toks: Seq<Spanned>, p: int, open: Span) -> Seq<
    (ParseErrorKind, Span, Seq<char>),
>
    decreases toks.len() - p,
{
    if p < 0 || p >= toks.len() || toks[p].kind == Token::Eof {
        seq![
            (
                ParseErrorKind::UnexpectedToken,
                open,
                "#properties block opened but never closed with #end"@,
            ),
        ]
    } else if toks[p].kind == Token::PropertiesClose {
        Seq::empty()
    } else if toks[p].kind == Token::BlankLine {
        drawer_errors(toks, after_token(toks, p), open)
    } else {
        proof {
            lemma_line_end(toks, p);
        }
        let t = trim(last_raw(toks, p, line_end(toks, p)));
        let own = if find_char(t, '=') is Some {
            Seq::empty()
        } else {
            seq![(ParseErrorKind::UnexpectedToken, toks[p].span, "invalid property line: "@ + t)]
        };
        own + drawer_errors(toks, after_line(toks, p), open)
    }
}

/// The errors of the heading at `pos`: those of the property drawer that
/// follows it after blank lines, if one does.
pub open spec fn heading_errors(toks: Seq<Spanned>, pos: int) -> Seq<
    (ParseErrorKind, Span, Seq<char>),
> {
    let b = blanks_end(toks, after_opening(toks, pos));
    if kind_at(toks, b) == Token::PropertiesOpen {
        drawer_errors(toks, after_token(toks, b), toks[b].span)
    } else {
        Seq::empty()
    }
}

/// The error of the fenced code block at `pos`: one when the stream ends
/// before a closing fence.
pub open spec fn fence_errors(toks: Seq<Spanned>, pos: int) -> Seq<
    (ParseErrorKind, Span, Seq<char>),
> {
    let (c, n, info) = fence_of(toks[pos].kind);
    if fence_body(toks, after_opening(toks, pos), c, n).1 is None {
        seq![
            (
                ParseErrorKind::UnclosedCodeFence,
                toks[pos].span,
                "code fence opened but never closed"@,
            ),
        ]
    } else {
        Seq::empty()
    }
}

/// The error of the HTML block at `pos`: one when its first line does not
/// close it and the stream ends before a closing tag.
pub open spec fn html_errors(toks: Seq<Spanned>, pos: int) -> Seq<
    (ParseErrorKind, Span, Seq<char>),
> {
    let tag = html_tag_of(toks[pos].kind);
    if !html_self_closing(raw_at(toks, pos + 1), tag) && html_body(
        toks,
        after_opening(toks, pos),
        tag,
        toks[pos].span,
    ).2 {
        seq![
            (
                ParseErrorKind::UnclosedHtmlBlock,
                toks[pos].span,
                "HTML block <"@ + tag + "> never closed"@,
            ),
        ]
    } else {
        Seq::empty()
    }
}

/// The errors of the frontmatter: one when it is never closed, and one when
/// its text is not valid YAML.
pub open spec fn frontmatter_errors(toks: Seq<Spanned>) -> Seq<(ParseErrorKind, Span, Seq<char>)> {
    if toks.len() > 0 && opens_frontmatter(toks[0]) {
        let body = frontmatter_body(toks, after_token(toks, 0));
        match body.1 {
            None => seq![
                (
                    ParseErrorKind::UnclosedFrontmatter,
                    toks[0].span,
                    "frontmatter opened but never closed with ---"@,
                ),
            ],
            Some(q) => match yaml_error(joined(body.0)) {
                None => Seq::empty(),
                Some(e) => seq![
                    (
                        ParseErrorKind::InvalidYaml,
                        spec_merge(toks[0].span, toks[q].span),
                        "invalid YAML in frontmatter: "@ + e,
                    ),
                ],
            },
        }
    } else {
        Seq::empty()
    }
}

/// The error lists of a sequence of blocks, one after the other.
pub open spec fn joined_errors(es: Seq<Seq<(ParseErrorKind, Span, Seq<char>)>>) -> Seq<
    (ParseErrorKind, Span, Seq<char>),
>
    decreases es.len(),
{
    if es.len() == 0 {
        Seq::empty()
    } else {
        joined_errors(es.drop_last()) + es.last()
    }
}

/// `es` splits the errors `e` of the document whose block tokens are `toks`:
/// `e` is the frontmatter's errors, then the lists of `es` one after the
/// other, one list for each block.
pub open spec fn errors_split(
    toks: Seq<Spanned>,
    e: Seq<(ParseErrorKind, Span, Seq<char>)>,
    es: Seq<Seq<(ParseErrorKind, Span, Seq<char>)>>,
) -> bool {
    let f = frontmatter_errors(toks);
    &&& f.len() <= e.len()
    &&& e.take(f.len() as int) == f
    &&& joined_errors(es) == e.skip(f.len() as int)
    &&& es.len() == block_starts(toks, body_start(toks)).len()
}

/// `e` are the errors of the block that starts at `pos`: those of a
/// heading's property drawer, of an unclosed fence or HTML block, and for a
/// callout those of its inner text read as a document with one unit of fuel
/// less (none when the fuel is spent).
pub open spec fn block_errors_made(
    toks: Seq<Spanned>,
    pos: int,
    fuel: nat,
    e: Seq<(ParseErrorKind, Span, Seq<char>)>,
) -> bool
    decreases fuel, 1int,
{
    match toks[pos].kind {
        Token::Heading { .. } => e == heading_errors(toks, pos),
        Token::FencedCodeOpen { .. } | Token::FencedCodeClose { .. } => e == fence_errors(toks, pos),
        Token::HtmlOpen { .. } => e == html_errors(toks, pos),
        Token::CalloutStart { .. } => if fuel == 0 {
            e.len() == 0
        } else {
            exists|w: (Seq<Spanned>, Seq<Seq<(ParseErrorKind, Span, Seq<char>)>>)|
                #[trigger] block_tokens(callout_text(toks, pos), w.0) && errors_split(w.0, e, w.1)
                    && all_block_errors(w.0, (fuel - 1) as nat, w.1)
        },
        _ => e.len() == 0,
    }
}

/// Each list of `es` is the errors of the block at the matching start of
/// the document whose block tokens are `toks`.
pub open spec fn all_block_errors(
    toks: Seq<Spanned>,
    fuel: nat,
    es: Seq<Seq<(ParseErrorKind, Span, Seq<char>)>>,
) -> bool
    decreases fuel, 2int,
{
    forall|k: int|
        0 <= k < es.len() ==> block_errors_made(
            toks,
            block_starts(toks, body_start(toks))[k],
            fuel,
            #[trigger] es[k],
        )
}

/// `e` are the errors of the document whose block tokens are `toks`: those
/// of its frontmatter, then those of each block, in order.
pub open spec fn document_errors_made(
    toks: Seq<Spanned>,
    fuel: nat,
    e: Seq<(ParseErrorKind, Span, Seq<char>)>,
) -> bool {
    exists|es: Seq<Seq<(ParseErrorKind, Span, Seq<char>)>>|
        #[trigger] errors_split(toks, e, es) && all_block_errors(toks, fuel, es)
}

fn parse_pass(lex: &mut Lexer<'_>, fuel: usize, defs: &StringMap<LinkTarget>) -> (r: (
    Option<Frontmatter>,
    Vec<Block>,
    Vec<ParseError>,
))
    requires
        old(lex).pos() == 0,
        block_tokens(old(lex).text()@, old(lex).tokens()),
        ends_at_eof(old(lex).tokens()),
    ensures
        final(lex).tokens() == old(lex).tokens(),
        final(lex).text() == old(lex).text(),
        blocks_resolved(r.1@, defs.to_map()),
        ({
            let toks = old(lex).tokens();
            &&& blocks_made(toks, block_starts(toks, body_start(toks)), r.1@, defs.to_map(), fuel as nat)
            &&& frontmatter_made(toks, r.0)
            &&& document_errors_made(toks, fuel as nat, err_views(r.2@))
        }),
    decreases fuel, 2int,
{
    let ghost toks = lex.tokens();
    let mut errors: Vec<ParseError> = Vec::new();
    let frontmatter = parse_frontmatter(lex, &mut errors);
    assert(frontmatter_made(toks, frontmatter));
    assert(err_views(errors@) =~= frontmatter_errors(toks));
    let ghost fm_errs = frontmatter_errors(toks);
    let ghost mut es: Seq<Seq<(ParseErrorKind, Span, Seq<char>)>> = Seq::empty();
    assert(fm_errs + joined_errors(es) =~= fm_errs);
    let ghost b0 = lex.pos() as int;
    assert(b0 == body_start(toks));
    let mut children: Vec<Block> = Vec::new();
    let ghost mut starts: Seq<int> = Seq::empty();
    while !lex.is_eof()
        invariant
            in_stream(*lex),
            lex.text() == old(lex).text(),
            lex.tokens() == toks,
            toks == old(lex).tokens(),
            blocks_resolved(children@, defs.to_map()),
            blocks_made(toks, starts, children@, defs.to_map(), fuel as nat),
            forall|k: int| 0 <= k < starts.len() ==> #[trigger] starts[k] < lex.pos(),
            starts + block_starts(toks, lex.pos() as int) == block_starts(toks, b0),
            es.len() == starts.len(),
            forall|k: int|
                0 <= k < es.len() ==> #[trigger] block_errors_made(toks, starts[k], fuel as nat, es[k]),
            err_views(errors@) == fm_errs + joined_errors(es),
        decreases lex.tokens().len() - lex.pos(),
    {
        let ghost p0 = lex.pos() as int;
        let ghost sb = block_starts(toks, p0);
        let ghost eb = errors@;
        match parse_block(lex, &mut errors, defs, fuel) {
            Some(block) => {
                let ghost c0 = children@;
                children.push(block);
                assert(children@.drop_last() =~= c0);
                proof {
                    let s0 = starts;
                    assert(sb == seq![p0] + block_starts(toks, lex.pos() as int));
                    assert(s0.push(p0) + block_starts(toks, lex.pos() as int) =~= s0 + sb);
                    starts = starts.push(p0);
                    let a = added_errors(eb, errors@);
                    let es0 = es;
                    es = es.push(a);
                    assert(es.drop_last() =~= es0);
                    assert(fm_errs + joined_errors(es0) + a =~= fm_errs + joined_errors(es));
                    assert forall|k: int| 0 <= k < es.len() implies #[trigger] block_errors_made(
                        toks,
                        starts[k],
                        fuel as nat,
                        es[k],
                    ) by {
                        if k < es0.len() {
                            assert(starts[k] == s0[k]);
                            assert(es[k] == es0[k]);
                        }
                    }
                    assert forall|k: int| 0 <= k < starts.len() implies 0 <= #[trigger] starts[k]
                        < toks.len() && block_made(toks, starts[k], defs.to_map(), fuel as nat, children@[k]) by {
                        if k < s0.len() {
                            assert(starts[k] == s0[k]);
                            assert(children@[k] == c0[k]);
                        }
                    }
                }
            },
            None => {
                let ghost p = lex.pos();
                lex.skip_to_next_line();
                proof {
                    lemma_next_line_start(lex.tokens(), p);
                    assert(sb == block_starts(toks, lex.pos() as int));
                }
            },
        }
    }
    assert(block_starts(toks, lex.pos() as int) =~= Seq::<int>::empty());
    assert(starts =~= block_starts(toks, b0));
    assert(blocks_made(toks, starts, children@, defs.to_map(), fuel as nat));
    proof {
        let e = err_views(errors@);
        let st = block_starts(toks, body_start(toks));
        assert(st == starts);
        assert(e.skip(fm_errs.len() as int) =~= joined_errors(es));
        assert(e.take(fm_errs.len() as int) =~= fm_errs);
        assert(errors_split(toks, e, es));
        assert forall|k: int| 0 <= k < es.len() implies block_errors_made(
            toks,
            st[k],
            fuel as nat,
            #[trigger] es[k],
        ) by {
            assert(st[k] == starts[k]);
        }
        assert(all_block_errors(toks, fuel as nat, es));
        assert(document_errors_made(toks, fuel as nat, e));
    }
    (frontmatter, children, errors)
}

/// `f` is the frontmatter of the token stream `toks`: present when the
/// first token opens a frontmatter block that is closed and whose text
/// reads as YAML, holding that text and spanning from the opening to the
/// closing line.
pub open spec fn frontmatter_made(toks: Seq<Spanned>, f: Option<Frontmatter>) -> bool {
    if toks.len() > 0 && opens_frontmatter(toks[0]) {
        let body = frontmatter_body(toks, after_token(toks, 0));
        match body.1 {
            None => f is None,
            Some(q) => {
                let raw = joined(body.0);
                match yaml_error(raw) {
                    None => f matches Some(x) && x.raw@ == raw && x.span == spec_merge(
                        toks[0].span,
                        toks[q].span,
                    ),
                    Some(_) => f is None,
                }
            },
        }
    } else {
        f is None
    }
}

/// The link definitions among `bs` added to `m`, keyed by normalised
/// label; a label already present keeps its destination.
pub open spec fn defs_after(m: Map<Seq<char>, LinkTarget>, bs: Seq<Block>) -> Map<Seq<char>, LinkTarget>
    decreases bs.len(),
{
    if bs.len() == 0 {
        m
    } else {
        let prev = defs_after(m, bs.drop_last());
        match bs.last() {
            Block::LinkDefinition(d) => {
                let key = normalized_label(d.label@);
                if prev.contains_key(key) {
                    prev
                } else {
                    prev.insert(key, LinkTarget { url: d.url, title: d.title })
                }
            },
            _ => prev,
        }
    }
}

/// The link reference definitions among `blocks`, keyed by normalised
/// label; the first definition of a label wins.
pub fn collect_link_defs(blocks: &Vec<Block>) -> (m: StringMap<LinkTarget>)
    ensures
        m.to_map() == defs_after(Map::empty(), blocks@),
{
    let mut m: StringMap<LinkTarget> = StringMap::new();
    let mut i: usize = 0;
    while i < blocks.len()
        invariant
            i <= blocks@.len(),
            m.to_map() == defs_after(Map::empty(), blocks@.take(i as int)),
        decreases blocks@.len() - i,
    {
        assert(blocks@.take(i + 1).drop_last() =~= blocks@.take(i as int));
        assert(blocks@.take(i + 1).last() == blocks@[i as int]);
        match &blocks[i] {
            Block::LinkDefinition(d) => {
                let key = string_of(&normalize_label(&chars_of(d.label.as_str())));
                let title = match &d.title {
                    Some(t) => Some(t.clone()),
                    None => None,
                };
                m.insert_if_absent(key, LinkTarget { url: d.url.clone(), title });
            },
            _ => {},
        }
        i += 1;
    }
    assert(blocks@.take(blocks@.len() as int) =~= blocks@);
    m
}

/// Two link targets with the same destination and title.
pub open spec fn same_target(a: LinkTarget, b: LinkTarget) -> bool {
    a.url@ == b.url@ && opt_chars(a.title) == opt_chars(b.title)
}

/// Two link tables that give the same labels the same targets.
pub open spec fn same_targets(a: Map<Seq<char>, LinkTarget>, b: Map<Seq<char>, LinkTarget>) -> bool {
    &&& a.dom() == b.dom()
    &&& forall|k: Seq<char>| #[trigger] a.contains_key(k) ==> same_target(a[k], b[k])
}

/// The label, destination and title of a link definition block, by value.
pub open spec fn def_view(b: Block) -> Option<(Seq<char>, Seq<char>, Option<Seq<char>>)> {
    match b {
        Block::LinkDefinition(d) => Some((d.label@, d.url@, opt_chars(d.title))),
        _ => None,
    }
}

/// The block at a position is a link definition, and which one, whatever
/// link table it is read against.
proof fn lemma_block_def_view(
    toks: Seq<Spanned>,
    pos: int,
    d1: Map<Seq<char>, LinkTarget>,
    d2: Map<Seq<char>, LinkTarget>,
    fuel: nat,
    b1: Block,
    b2: Block,
)
    requires
        block_made(toks, pos, d1, fuel, b1),
        block_made(toks, pos, d2, fuel, b2),
    ensures
        def_view(b1) == def_view(b2),
{
}

/// Link tables built from two block sequences that hold the same link
/// definitions at the same places give the same labels the same targets.
proof fn lemma_defs_after_same(
    m1: Map<Seq<char>, LinkTarget>,
    m2: Map<Seq<char>, LinkTarget>,
    bs1: Seq<Block>,
    bs2: Seq<Block>,
)
    requires
        same_targets(m1, m2),
        bs1.len() == bs2.len(),
        forall|k: int| 0 <= k < bs1.len() ==> def_view(#[trigger] bs1[k]) == def_view(bs2[k]),
    ensures
        same_targets(defs_after(m1, bs1), defs_after(m2, bs2)),
    decreases bs1.len(),
{
    if bs1.len() > 0 {
        assert forall|k: int| 0 <= k < bs1.drop_last().len() implies def_view(
            #[trigger] bs1.drop_last()[k],
        ) == def_view(bs2.drop_last()[k]) by {
            assert(def_view(bs1[k]) == def_view(bs2[k]));
        }
        lemma_defs_after_same(m1, m2, bs1.drop_last(), bs2.drop_last());
        let p1 = defs_after(m1, bs1.drop_last());
        let p2 = defs_after(m2, bs2.drop_last());
        assert(def_view(bs1[bs1.len() - 1]) == def_view(bs2[bs2.len() - 1]));
        match bs1.last() {
            Block::LinkDefinition(a) => {
                match bs2.last() {
                    Block::LinkDefinition(b) => {
                        let key = normalized_label(a.label@);
                        assert(key == normalized_label(b.label@));
                        if !p1.contains_key(key) {
                            let r1 = p1.insert(key, LinkTarget { url: a.url, title: a.title });
                            let r2 = p2.insert(key, LinkTarget { url: b.url, title: b.title });
                            assert(r1.dom() =~= r2.dom());
                            assert forall|k: Seq<char>| #[trigger] r1.contains_key(k) implies same_target(r1[k], r2[k]) by {
                                if k != key {
                                    assert(p1.contains_key(k));
                                }
                            }
                        }
                    },
                    _ => {},
                }
            },
            _ => {},
        }
    }
}

/// A link table gives its labels the targets it gives them.
proof fn lemma_same_targets_refl(m: Map<Seq<char>, LinkTarget>)
    ensures
        same_targets(m, m),
{
}

/// Inline content read against two link tables with the same targets is
/// the same.
proof fn lemma_content_same_defs(
    ts: Seq<InlineTok>,
    i: int,
    hi: int,
    base: Span,
    d1: Map<Seq<char>, LinkTarget>,
    d2: Map<Seq<char>, LinkTarget>,
    segs: Seq<InlineSegment>,
)
    requires
        same_targets(d1, d2),
    ensures
        content_from(ts, i, hi, base, d1, segs) == content_from(ts, i, hi, base, d2, segs),
    decreases hi - i,
{
    if 0 <= i < hi {
        let code = tok_delim(ts[i]);
        if code != 0 {
            lemma_first_delim_bounds(ts, i + 1, hi, code);
            let end = first_delim(ts, i + 1, hi, code);
            let next = if end < hi {
                end + 1
            } else {
                hi
            };
            if segs.len() > 0 && emphasis_content(code, segs[0]) is Some {
                lemma_content_same_defs(
                    ts,
                    i + 1,
                    end,
                    base,
                    d1,
                    d2,
                    emphasis_content(code, segs[0])->0.segments@,
                );
            }
            if segs.len() > 0 {
                lemma_content_same_defs(ts, next, hi, base, d1, d2, segs.drop_first());
            }
        } else if makes_segment(ts[i]) {
            if segs.len() > 0 {
                if let InlineTok::LinkRef(_, label) = ts[i] {
                    let n = normalized_label(label);
                    assert(d1.contains_key(n) == d2.contains_key(n));
                    if d1.contains_key(n) {
                        assert(same_target(d1[n], d2[n]));
                    }
                }
                assert(token_segment_is(ts, i, hi, base, d1, segs[0]) == token_segment_is(
                    ts,
                    i,
                    hi,
                    base,
                    d2,
                    segs[0],
                ));
                lemma_content_same_defs(
                    ts,
                    i + token_width(ts, i, hi),
                    hi,
                    base,
                    d1,
                    d2,
                    segs.drop_first(),
                );
            }
        } else {
            lemma_content_same_defs(ts, i + 1, hi, base, d1, d2, segs);
        }
    }
}

proof fn lemma_inline_same_defs(
    text: Seq<char>,
    span: Span,
    d1: Map<Seq<char>, LinkTarget>,
    d2: Map<Seq<char>, LinkTarget>,
    segs: Seq<InlineSegment>,
)
    requires
        same_targets(d1, d2),
    ensures
        inline_of(text, span, d1, segs) == inline_of(text, span, d2, segs),
{
    lemma_content_same_defs(
        lex_inline(text, 0, Seq::empty()),
        0,
        lex_inline(text, 0, Seq::empty()).len() as int,
        span,
        d1,
        d2,
        segs,
    );
}

proof fn lemma_cells_same_defs(
    line: Seq<char>,
    span: Span,
    d1: Map<Seq<char>, LinkTarget>,
    d2: Map<Seq<char>, LinkTarget>,
    cells: Seq<InlineContent>,
)
    requires
        same_targets(d1, d2),
        cells_are(line, span, d1, cells),
    ensures
        cells_are(line, span, d2, cells),
{
    assert forall|i: int| 0 <= i < cells.len() implies inline_of(
        trim(row_cells(line)[i]),
        span,
        d2,
        #[trigger] cells[i].segments@,
    ) by {
        lemma_inline_same_defs(trim(row_cells(line)[i]), span, d1, d2, cells[i].segments@);
    }
}

/// The blocks made against two link tables with the same targets are the
/// same.
proof fn lemma_blocks_made_same_defs(
    toks: Seq<Spanned>,
    starts: Seq<int>,
    blocks: Seq<Block>,
    d1: Map<Seq<char>, LinkTarget>,
    d2: Map<Seq<char>, LinkTarget>,
    fuel: nat,
)
    requires
        same_targets(d1, d2),
        blocks_made(toks, starts, blocks, d1, fuel),
    ensures
        blocks_made(toks, starts, blocks, d2, fuel),
    decreases fuel,
{
    assert forall|k: int| 0 <= k < starts.len() implies 0 <= #[trigger] starts[k] < toks.len()
        && block_made(toks, starts[k], d2, fuel, blocks[k]) by {
        let pos = starts[k];
        let raw = raw_at(toks, pos + 1);
        let b = blocks[k];
        match toks[pos].kind {
            Token::Heading { .. } => {
                if let Block::Heading(h) = b {
                    let t = heading_text(raw);
                    lemma_content_same_defs(
                        lex_inline(t, 0, Seq::empty()),
                        0,
                        lex_inline(t, 0, Seq::empty()).len() as int,
                        toks[pos].span,
                        d1,
                        d2,
                        h.content.segments@,
                    );
                }
            },
            Token::Text(_) | Token::RawLine(_) | Token::PropertiesOpen | Token::PropertiesClose
            | Token::BlockCommentClose | Token::HtmlClose { .. } | Token::BlockquoteContinuation => {
                if let Block::Paragraph(pa) = b {
                    let t = joined(para_lines(toks, pos));
                    lemma_content_same_defs(
                        lex_inline(t, 0, Seq::empty()),
                        0,
                        lex_inline(t, 0, Seq::empty()).len() as int,
                        pa.span,
                        d1,
                        d2,
                        pa.content.segments@,
                    );
                }
            },
            Token::CalloutStart { .. } => {
                assert(block_made(toks, pos, d1, fuel, b));
                assert(callout_made(toks, pos, d1, fuel, b));
                if let Block::Callout(c) = b {
                    if fuel > 0 {
                        let w = choose|w: (Seq<Spanned>, Seq<int>, Map<Seq<char>, LinkTarget>)|
                            #[trigger] block_tokens(callout_text(toks, pos), w.0) && w.1
                                == block_starts(w.0, body_start(w.0)) && blocks_made(
                                w.0,
                                w.1,
                                c.content@,
                                d1.union_prefer_right(w.2),
                                (fuel - 1) as nat,
                            );
                        let (itoks, istarts, m) = w;
                        let u1 = d1.union_prefer_right(m);
                        let u2 = d2.union_prefer_right(m);
                        assert(u1.dom() =~= u2.dom());
                        assert forall|q: Seq<char>| #[trigger] u1.contains_key(q) implies same_target(
                            u1[q],
                            u2[q],
                        ) by {
                            if !m.contains_key(q) {
                                assert(d1.contains_key(q));
                            }
                        }
                        lemma_blocks_made_same_defs(itoks, istarts, c.content@, u1, u2, (fuel - 1) as nat);
                        assert(block_tokens(callout_text(toks, pos), w.0) && w.1 == block_starts(
                            w.0,
                            body_start(w.0),
                        ) && blocks_made(
                            w.0,
                            w.1,
                            c.content@,
                            d2.union_prefer_right(w.2),
                            (fuel - 1) as nat,
                        ));
                    }
                }
            },
            Token::ListMarker { .. } => {
                if let Block::List(l) = b {
                    let lines = list_block_lines(toks, pos);
                    let flat = choose|flat: Seq<ListItem>|
                        #[trigger] list_items_are(lines, d1, flat) && nest_from(flat, 0, l.items@);
                    assert forall|i: int| 0 <= i < flat.len() implies list_item_is(
                        lines[i],
                        d2,
                        #[trigger] flat[i],
                    ) by {
                        let (lraw, span, _) = lines[i];
                        let text = list_item_parts(lraw).1;
                        let (term, desc) = match crate::text::find_seq(text, " :: "@) {
                            Some(j) => (text.take(j as int), Some(text.skip(j + 4int))),
                            None => (text, None),
                        };
                        lemma_inline_same_defs(term, span, d1, d2, flat[i].content.segments@);
                        if let Some(dt) = desc {
                            if let Some(c) = flat[i].description {
                                lemma_inline_same_defs(dt, span, d1, d2, c.segments@);
                            }
                        }
                    }
                    assert(list_items_are(lines, d2, flat));
                }
            },
            Token::TableRow => {
                if let Block::Table(t) = b {
                    let q = after_opening(toks, pos);
                    let start = if table_separator(toks, pos) is Some {
                        after_opening(toks, q)
                    } else {
                        q
                    };
                    let rows = table_rows(toks, start);
                    lemma_cells_same_defs(raw, toks[pos].span, d1, d2, t.headers@);
                    assert forall|i: int| 0 <= i < rows.len() implies cells_are(
                        rows[i].0,
                        rows[i].1,
                        d2,
                        #[trigger] t.rows@[i]@,
                    ) by {
                        lemma_cells_same_defs(rows[i].0, rows[i].1, d1, d2, t.rows@[i]@);
                    }
                }
            },
            Token::FootnoteDefStart { label } => {
                if let Block::FootnoteDefinition(f) = b {
                    let t = footnote_text(raw, label@);
                    lemma_content_same_defs(
                        lex_inline(t, 0, Seq::empty()),
                        0,
                        lex_inline(t, 0, Seq::empty()).len() as int,
                        toks[pos].span,
                        d1,
                        d2,
                        f.content.segments@,
                    );
                }
            },
            _ => {},
        }
    }
}

/// Parses `source`, resolving link references against its own definitions
/// first and against `outer` after them.
fn parse_nested(source: &str, fuel: usize, outer: &StringMap<LinkTarget>) -> (r: ParseResult)
    ensures
        blocks_resolved(r.document.children@, outer.to_map()),
        blocks_resolved(r.document.children@, r.document.link_defs.to_map()),
        exists|toks: Seq<Spanned>|
            block_tokens(source@, toks) && #[trigger] blocks_made(
                toks,
                block_starts(toks, body_start(toks)),
                r.document.children@,
                outer.to_map().union_prefer_right(r.document.link_defs.to_map()),
                fuel as nat,
            ) && frontmatter_made(toks, r.document.frontmatter) && document_errors_made(
                toks,
                fuel as nat,
                err_views(r.errors@),
            ),
        same_targets(
            r.document.link_defs.to_map(),
            defs_after(Map::empty(), r.document.children@),
        ),
    decreases fuel, 3int,
{
    let mut lex = Lexer::new(source);
    let ghost t0 = lex.tokens();
    let (frontmatter, children, errors) = parse_pass(&mut lex, fuel, outer);
    let local = collect_link_defs(&children);
    if local.len() == 0 {
        proof {
            assert forall|k: Seq<char>| local.to_map().contains_key(k) implies outer.to_map().contains_key(k) by {
                lemma_key_index_some(local.entries(), k);
            }
            lemma_blocks_mono(children@, outer.to_map(), local.to_map());
            lemma_same_targets_refl(local.to_map());
            assert(local.to_map() =~= Map::<Seq<char>, LinkTarget>::empty());
            assert(outer.to_map().union_prefer_right(local.to_map()) =~= outer.to_map());
            let toks = t0;
            let starts = block_starts(toks, body_start(toks));
            assert(blocks_made(
                toks,
                starts,
                children@,
                outer.to_map().union_prefer_right(local.to_map()),
                fuel as nat,
            ));
        }
        let r = ParseResult { document: Document { frontmatter, children, link_defs: local }, errors };
        return r;
    }
    // Definitions may come after their references: parse again with the
    // full table.
    let mut merged: StringMap<LinkTarget> = StringMap::new();
    let mut i: usize = 0;
    assert(merged.to_map() =~= Map::<Seq<char>, LinkTarget>::empty());
    while i < local.len()
        invariant
            i <= local.entries().len(),
            forall|t: int| 0 <= t < i ==> merged.to_map().contains_key(#[trigger] local.entries()[t].0@),
            forall|k: Seq<char>|
                #[trigger] merged.to_map().contains_key(k) ==> local.to_map().contains_key(k)
                    && same_target(merged.to_map()[k], local.to_map()[k]),
        decreases local.entries().len() - i,
    {
        let t = copy_target(local.value_at(i));
        let ghost m0 = merged.to_map();
        let key = local.key_at(i).clone();
        let ghost kv = key@;
        proof {
            if !m0.contains_key(kv) {
                assert forall|q: int| 0 <= q < i implies (#[trigger] local.entries()[q]).0@ != kv by {
                    assert(m0.contains_key(local.entries()[q].0@));
                }
                lemma_key_index(local.entries(), kv, i as int);
            }
        }
        merged.insert_if_absent(key, t);
        assert forall|q: int| 0 <= q < i + 1 implies merged.to_map().contains_key(#[trigger] local.entries()[q].0@) by {
            if q < i {
                assert(m0.contains_key(local.entries()[q].0@));
            }
        }
        assert forall|k: Seq<char>| #[trigger] merged.to_map().contains_key(k) implies local.to_map().contains_key(k)
            && same_target(merged.to_map()[k], local.to_map()[k]) by {
            if k != kv || m0.contains_key(kv) {
                assert(m0.contains_key(k));
            }
        }
        i += 1;
    }
    let mut j: usize = 0;
    while j < outer.len()
        invariant
            j <= outer.entries().len(),
            forall|t: int| 0 <= t < local.entries().len() ==> merged.to_map().contains_key(#[trigger] local.entries()[t].0@),
            forall|t: int| 0 <= t < j ==> merged.to_map().contains_key(#[trigger] outer.entries()[t].0@),
            forall|k: Seq<char>|
                #[trigger] merged.to_map().contains_key(k) ==> (local.to_map().contains_key(k)
                    && same_target(merged.to_map()[k], local.to_map()[k])) || (
                !local.to_map().contains_key(k) && outer.to_map().contains_key(k) && same_target(
                    merged.to_map()[k],
                    outer.to_map()[k],
                )),
        decreases outer.entries().len() - j,
    {
        let t = copy_target(outer.value_at(j));
        let ghost m0 = merged.to_map();
        let key = outer.key_at(j).clone();
        let ghost kv = key@;
        proof {
            if !m0.contains_key(kv) {
                assert forall|q: int| 0 <= q < j implies (#[trigger] outer.entries()[q]).0@ != kv by {
                    assert(m0.contains_key(outer.entries()[q].0@));
                }
                lemma_key_index(outer.entries(), kv, j as int);
                if local.to_map().contains_key(kv) {
                    lemma_key_index_some(local.entries(), kv);
                    let q = key_index(local.entries(), kv)->0;
                    assert(m0.contains_key(local.entries()[q].0@));
                }
            }
        }
        merged.insert_if_absent(key, t);
        assert forall|k: Seq<char>| #[trigger] merged.to_map().contains_key(k) implies (
            local.to_map().contains_key(k) && same_target(merged.to_map()[k], local.to_map()[k])) || (
        !local.to_map().contains_key(k) && outer.to_map().contains_key(k) && same_target(
            merged.to_map()[k],
            outer.to_map()[k],
        )) by {
            if k != kv || m0.contains_key(kv) {
                assert(m0.contains_key(k));
            }
        }
        assert forall|q: int| 0 <= q < local.entries().len() implies merged.to_map().contains_key(#[trigger] local.entries()[q].0@) by {
            assert(m0.contains_key(local.entries()[q].0@));
        }
        assert forall|q: int| 0 <= q < j + 1 implies merged.to_map().contains_key(#[trigger] outer.entries()[q].0@) by {
            if q < j {
                assert(m0.contains_key(outer.entries()[q].0@));
            }
        }
        j += 1;
    }
    proof {
        assert forall|k: Seq<char>| local.to_map().contains_key(k) implies merged.to_map().contains_key(k) by {
            lemma_key_index_some(local.entries(), k);
            let q = key_index(local.entries(), k)->0;
            assert(merged.to_map().contains_key(local.entries()[q].0@));
        }
        assert forall|k: Seq<char>| outer.to_map().contains_key(k) implies merged.to_map().contains_key(k) by {
            lemma_key_index_some(outer.entries(), k);
            let q = key_index(outer.entries(), k)->0;
            assert(merged.to_map().contains_key(outer.entries()[q].0@));
        }
    }
    let ghost children1 = children@;
    lex.set_position(0);
    let (frontmatter, children, errors) = parse_pass(&mut lex, fuel, &merged);
    proof {
        lemma_blocks_mono(children@, merged.to_map(), local.to_map());
        lemma_blocks_mono(children@, merged.to_map(), outer.to_map());
        let u = outer.to_map().union_prefer_right(local.to_map());
        assert(merged.to_map().dom() =~= u.dom());
        assert forall|k: Seq<char>| #[trigger] merged.to_map().contains_key(k) implies same_target(
            merged.to_map()[k],
            u[k],
        ) by {}
        let toks = t0;
        let starts = block_starts(toks, body_start(toks));
        lemma_blocks_made_same_defs(toks, starts, children@, merged.to_map(), u, fuel as nat);
        assert(block_tokens(source@, toks) && blocks_made(toks, starts, children@, u, fuel as nat)
            && frontmatter_made(toks, frontmatter) && document_errors_made(
                toks,
                fuel as nat,
                err_views(errors@),
            ));
    }
    proof {
        let starts = block_starts(t0, body_start(t0));
        assert forall|k: int| 0 <= k < children1.len() implies def_view(#[trigger] children1[k])
            == def_view(children@[k]) by {
            lemma_block_def_view(
                t0,
                starts[k],
                outer.to_map(),
                merged.to_map(),
                fuel as nat,
                children1[k],
                children@[k],
            );
        }
        lemma_same_targets_refl(Map::empty());
        lemma_defs_after_same(Map::empty(), Map::empty(), children1, children@);
    }
    let r = ParseResult { document: Document { frontmatter, children, link_defs: local }, errors };
    assert(r.document.frontmatter == frontmatter);
    r
}

/// Parses a morg-mode document.  Parsing always succeeds: problems are
/// reported in `errors` and the parser recovers at the next line.  Every
/// link reference whose label the document defines comes out resolved: a
/// reference left in the tree names a label without a definition.  The
/// blocks are, in order, those found at the positions [`block_starts`]
/// gives in the block tokens of the source (after the frontmatter), each as
/// [`block_made`] describes, read against the document's own link
/// definitions; the frontmatter is as [`frontmatter_made`] describes; and the
/// errors are those of the frontmatter, then those of each block in order,
/// as [`document_errors_made`] describes.  The link table holds, for each
/// normalised label, the first definition of it among the blocks (see
/// [`defs_after`]).
pub fn parse_document(source: &str) -> (r: ParseResult)
    ensures
        blocks_resolved(r.document.children@, r.document.link_defs.to_map()),
        exists|toks: Seq<Spanned>|
            block_tokens(source@, toks) && #[trigger] blocks_made(
                toks,
                block_starts(toks, body_start(toks)),
                r.document.children@,
                r.document.link_defs.to_map(),
                source@.len(),
            ) && frontmatter_made(toks, r.document.frontmatter) && document_errors_made(
                toks,
                source@.len(),
                err_views(r.errors@),
            ),
        same_targets(
            r.document.link_defs.to_map(),
            defs_after(Map::empty(), r.document.children@),
        ),
{
    let fuel = chars_of(source).len();
    let none: StringMap<LinkTarget> = StringMap::new();
    let r = parse_nested(source, fuel, &none);
    proof {
        let d = r.document.link_defs.to_map();
        assert(none.to_map().union_prefer_right(d) =~= d);
    }
    r
}

} // verus!
