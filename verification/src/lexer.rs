//! Lexer for morg-mode source files.
//!
//! Two phases:
//! 1. The block tokenizer ([`Lexer::new`]) classifies each line into a
//!    block-level token, usually followed by a `RawLine` token carrying the
//!    line's text, and ends each line with `Newline` (the last one with `Eof`).
//! 2. The inline tokenizer ([`tokenize_inline`]) breaks the text of a block
//!    into inline tokens when the parser asks for it.

use vstd::prelude::*;

use crate::lines::{
    spec_setext, spec_block_tag, spec_callout_raw, spec_fence, spec_footnote_def, spec_heading, spec_hr,
    spec_html, spec_link_def, spec_list_item, try_block_tag, try_callout, try_fence,
    try_footnote_def, try_heading, try_html, try_link_def, try_list_item, is_horizontal_rule,
};
use crate::span::Span;
use crate::text::{
    byte_len, chars_of, ends_with, has_prefix, has_suffix, lowercase, same, starts_with, string_of, trim,
    trimmed,
};
use crate::tokens::{spec_keyword, Keyword, Spanned, Token};

pub use crate::inline::tokenize_inline;

verus! {

/// Where the tokenizer stands with respect to YAML frontmatter.
#[derive(Debug, Clone, Copy, PartialEq, Eq, Structural)]
pub enum FrontmatterState {
    BeforeContent,
    InsideFrontmatter,
    Done,
}

/// The form of a source line, as the block tokenizer sees it.
pub ghost enum LineClass {
    Blank,
    LineComment,
    BlockCommentOpen,
    BlockCommentClose,
    FootnoteDef(Seq<char>),
    LinkDef(Seq<char>),
    FrontmatterDelim,
    HorizontalRule,
    Fence(char, nat, Seq<char>),
    Html(bool, Seq<char>),
    TableRow,
    Callout(Seq<char>, Option<Seq<char>>),
    Blockquote,
    ListItem(nat, bool),
    Heading(u8),
    PropertiesOpen,
    PropertiesClose,
    BlockTag(Seq<char>, Seq<char>),
    IndentedCode,
    Text,
}

/// The form of the line `text` and the frontmatter state after it, in the
/// order in which the forms are tried.
pub open spec fn classify(text: Seq<char>, fm: FrontmatterState) -> (LineClass, FrontmatterState) {
    let t = trim(text);
    if t.len() == 0 {
        (
            LineClass::Blank,
            if fm == FrontmatterState::BeforeContent {
                FrontmatterState::Done
            } else {
                fm
            },
        )
    } else if starts_with(t, "//"@) {
        (LineClass::LineComment, fm)
    } else if starts_with(t, "/*"@) {
        (LineClass::BlockCommentOpen, fm)
    } else if ends_with(t, "*/"@) {
        (LineClass::BlockCommentClose, fm)
    } else if spec_footnote_def(t) is Some {
        (LineClass::FootnoteDef(spec_footnote_def(t)->0), fm)
    } else if spec_link_def(t) is Some {
        (LineClass::LinkDef(spec_link_def(t)->0), fm)
    } else if t == "---"@ {
        match fm {
            FrontmatterState::BeforeContent => (
                LineClass::FrontmatterDelim,
                FrontmatterState::InsideFrontmatter,
            ),
            FrontmatterState::InsideFrontmatter => (
                LineClass::FrontmatterDelim,
                FrontmatterState::Done,
            ),
            FrontmatterState::Done => (LineClass::HorizontalRule, FrontmatterState::Done),
        }
    } else {
        let fm2 = if fm == FrontmatterState::BeforeContent {
            FrontmatterState::Done
        } else {
            fm
        };
        (classify_body(text, t), fm2)
    }
}

/// The forms tried once frontmatter delimiters are out of the question.
pub open spec fn classify_body(text: Seq<char>, t: Seq<char>) -> LineClass {
    if spec_hr(t) {
        LineClass::HorizontalRule
    } else if spec_fence(t) is Some {
        let f = spec_fence(t)->0;
        LineClass::Fence(f.0, f.1, f.2)
    } else if spec_html(t) is Some {
        let h = spec_html(t)->0;
        LineClass::Html(h.0, h.1)
    } else if t[0] == '|' {
        LineClass::TableRow
    } else if spec_callout_raw(t) is Some {
        let c = spec_callout_raw(t)->0;
        LineClass::Callout(lowercase(c.0), c.1)
    } else if t[0] == '>' {
        LineClass::Blockquote
    } else if spec_list_item(text) is Some {
        let l = spec_list_item(text)->0;
        LineClass::ListItem(l.0, l.1)
    } else if spec_heading(text) is Some {
        LineClass::Heading(spec_heading(text)->0)
    } else if t == "#properties"@ {
        LineClass::PropertiesOpen
    } else if t == "#end"@ {
        LineClass::PropertiesClose
    } else if spec_block_tag(t) is Some {
        let b = spec_block_tag(t)->0;
        LineClass::BlockTag(b.0, b.1)
    } else if starts_with(text, "    "@) || (text.len() > 0 && text[0] == '\t') {
        LineClass::IndentedCode
    } else {
        LineClass::Text
    }
}

/// A `RawLine` token carrying `text`.
pub open spec fn raw_line(t: Spanned, text: Seq<char>, span: Span) -> bool {
    t.kind matches Token::RawLine(r) && r@ == text && t.span == span
}

/// A marker token followed by the line's `RawLine`.
pub open spec fn marked(toks: Seq<Spanned>, marker: Token, text: Seq<char>, span: Span) -> bool {
    toks.len() == 2 && toks[0] == (Spanned { kind: marker, span }) && raw_line(toks[1], text, span)
}

/// The tokens that the line `text` of form `c` is turned into.
pub open spec fn emits(c: LineClass, text: Seq<char>, span: Span, toks: Seq<Spanned>) -> bool {
    match c {
        LineClass::Blank => toks == seq![Spanned { kind: Token::BlankLine, span }],
        LineClass::LineComment => marked(toks, Token::LineComment, text, span),
        LineClass::BlockCommentOpen => marked(toks, Token::BlockCommentOpen, text, span),
        LineClass::BlockCommentClose => marked(toks, Token::BlockCommentClose, text, span),
        LineClass::FootnoteDef(l) => {
            &&& toks.len() == 2
            &&& toks[0].span == span
            &&& (toks[0].kind matches Token::FootnoteDefStart { label } && label@ == l)
            &&& raw_line(toks[1], text, span)
        },
        LineClass::LinkDef(l) => {
            &&& toks.len() == 2
            &&& toks[0].span == span
            &&& (toks[0].kind matches Token::LinkDefStart { label } && label@ == l)
            &&& raw_line(toks[1], text, span)
        },
        LineClass::FrontmatterDelim => toks == seq![Spanned { kind: Token::FrontmatterDelim, span }],
        LineClass::HorizontalRule => toks == seq![Spanned { kind: Token::HorizontalRule, span }],
        LineClass::Fence(ch, n, info) => toks.len() == 2 && toks[0].span == span && raw_line(
            toks[1],
            text,
            span,
        ) && if info.len() == 0 {
            toks[0].kind == Token::FencedCodeClose { fence_char: ch, fence_len: n as usize }
        } else {
            toks[0].kind matches Token::FencedCodeOpen { info: i, fence_char, fence_len } && i@
                == info && fence_char == ch && fence_len == n
        },
        LineClass::Html(closing, name) => toks.len() == 2 && toks[0].span == span && raw_line(
            toks[1],
            text,
            span,
        ) && if closing {
            toks[0].kind matches Token::HtmlClose { tag } && tag@ == name
        } else {
            toks[0].kind matches Token::HtmlOpen { tag } && tag@ == name
        },
        LineClass::TableRow => marked(toks, Token::TableRow, text, span),
        LineClass::Callout(kind, meta) => {
            &&& toks.len() == 2
            &&& toks[0].span == span
            &&& raw_line(toks[1], text, span)
            &&& (toks[0].kind matches Token::CalloutStart { kind: k, metadata: m } && k@ == kind
                && (m matches Some(mm) ==> meta == Some(mm@)) && (m is None ==> meta is None))
        },
        LineClass::Blockquote => marked(toks, Token::BlockquoteContinuation, text, span),
        LineClass::ListItem(indent, ordered) => marked(
            toks,
            Token::ListMarker { ordered, indent: indent as usize },
            text,
            span,
        ),
        LineClass::Heading(level) => marked(toks, Token::Heading { level }, text, span),
        LineClass::PropertiesOpen => toks == seq![Spanned { kind: Token::PropertiesOpen, span }],
        LineClass::PropertiesClose => toks == seq![Spanned { kind: Token::PropertiesClose, span }],
        LineClass::BlockTag(name, arg) => toks.len() == (if arg.len() == 0 {
            1int
        } else {
            2int
        }) && toks[0].span == span && (match spec_keyword(name) {
            Some(kw) => toks[0].kind == Token::Tag(kw),
            None => toks[0].kind matches Token::UnknownTag { name: n } && n@ == name,
        }) && (arg.len() > 0 ==> toks[1].span == span && (toks[1].kind matches Token::TagArg(a)
            && a@ == arg)),
        LineClass::IndentedCode => marked(toks, Token::IndentedCodeLine, text, span),
        LineClass::Text => {
            &&& toks.len() == 2
            &&& toks[0].span == span
            &&& (toks[0].kind matches Token::Text(e) && e@.len() == 0)
            &&& raw_line(toks[1], text, span)
        },
    }
}

fn push_marked(out: &mut Vec<Spanned>, marker: Token, text: &[char], span: Span)
    ensures
        final(out)@.len() == old(out)@.len() + 2,
        final(out)@.take(old(out)@.len() as int) == old(out)@,
        marked(final(out)@.skip(old(out)@.len() as int), marker, text@, span),
{
    out.push(Spanned { kind: marker, span });
    out.push(Spanned { kind: Token::RawLine(string_of(text)), span });
    assert(final(out)@.take(old(out)@.len() as int) =~= old(out)@);
}

fn push_raw(out: &mut Vec<Spanned>, text: &[char], span: Span)
    ensures
        final(out)@ == old(out)@.push(final(out)@.last()),
        raw_line(final(out)@.last(), text@, span),
{
    out.push(Spanned { kind: Token::RawLine(string_of(text)), span });
}


/// The tokens of one classified line are appended to `out`, and the
/// frontmatter state advances.
pub open spec fn classified(
    text: Seq<char>,
    span: Span,
    before: Seq<Spanned>,
    after: Seq<Spanned>,
    fm_before: FrontmatterState,
    fm_after: FrontmatterState,
) -> bool {
    &&& after.len() >= before.len()
    &&& after.take(before.len() as int) == before
    &&& emits(classify(text, fm_before).0, text, span, after.skip(before.len() as int))
    &&& fm_after == classify(text, fm_before).1
}

/// Classifies a single line into block-level token(s), usually followed by
/// the line's `RawLine`.
pub fn classify_line(
    text: &[char],
    span: Span,
    out: &mut Vec<Spanned>,
    fm_state: &mut FrontmatterState,
)
    ensures
        classified(text@, span, old(out)@, final(out)@, *old(fm_state), *final(fm_state)),
{
    let ghost before = out@;
    let t = trimmed(text);
    if t.len() == 0 {
        if *fm_state == FrontmatterState::BeforeContent {
            *fm_state = FrontmatterState::Done;
        }
        out.push(Spanned { kind: Token::BlankLine, span });
        assert(out@.skip(before.len() as int) =~= seq![Spanned { kind: Token::BlankLine, span }]);
        assert(out@.take(before.len() as int) =~= before);
        return ;
    }
    // Comments
    if has_prefix(&t, &chars_of("//")) {
        push_marked(out, Token::LineComment, text, span);
        return ;
    }
    if has_prefix(&t, &chars_of("/*")) {
        push_marked(out, Token::BlockCommentOpen, text, span);
        return ;
    }
    if has_suffix(&t, &chars_of("*/")) {
        push_marked(out, Token::BlockCommentClose, text, span);
        return ;
    }
    // Footnote definition: [^label]: content
    if let Some(label) = try_footnote_def(&t) {
        push_marked(out, Token::FootnoteDefStart { label: string_of(&label) }, text, span);
        return ;
    }
    // Link reference definition: [label]: url "title"
    if let Some(label) = try_link_def(&t) {
        push_marked(out, Token::LinkDefStart { label: string_of(&label) }, text, span);
        return ;
    }
    // Frontmatter delimiter
    if same(&t, &chars_of("---")) {
        let kind = match *fm_state {
            FrontmatterState::BeforeContent => {
                *fm_state = FrontmatterState::InsideFrontmatter;
                Token::FrontmatterDelim
            },
            FrontmatterState::InsideFrontmatter => {
                *fm_state = FrontmatterState::Done;
                Token::FrontmatterDelim
            },
            FrontmatterState::Done => Token::HorizontalRule,
        };
        let ghost k = kind;
        out.push(Spanned { kind, span });
        assert(out@.skip(before.len() as int) =~= seq![Spanned { kind: k, span }]);
        assert(out@.take(before.len() as int) =~= before);
        return ;
    }
    if *fm_state == FrontmatterState::BeforeContent {
        *fm_state = FrontmatterState::Done;
    }
    classify_body_into(text, &t, span, out);
}

fn push_alone(out: &mut Vec<Spanned>, tok: Token, span: Span)
    ensures
        final(out)@.len() == old(out)@.len() + 1,
        final(out)@.take(old(out)@.len() as int) == old(out)@,
        final(out)@.skip(old(out)@.len() as int) == seq![Spanned { kind: tok, span }],
{
    out.push(Spanned { kind: tok, span });
    assert(final(out)@.take(old(out)@.len() as int) =~= old(out)@);
    assert(final(out)@.skip(old(out)@.len() as int) =~= seq![Spanned { kind: tok, span }]);
}

fn classify_body_into(text: &[char], t: &[char], span: Span, out: &mut Vec<Spanned>)
    requires
        t@ == trim(text@),
        t@.len() > 0,
    ensures
        final(out)@.len() >= old(out)@.len(),
        final(out)@.take(old(out)@.len() as int) == old(out)@,
        emits(classify_body(text@, t@), text@, span, final(out)@.skip(old(out)@.len() as int)),
{
    let ghost before = out@;
    if is_horizontal_rule(t) {
        push_alone(out, Token::HorizontalRule, span);
        return ;
    }
    // Code fence, with a RawLine so that the parser can recover the text when
    // an inner fence does not close the outer block.
    if let Some((fence_char, fence_len, info)) = try_fence(t) {
        let tok = if info.len() == 0 {
            Token::FencedCodeClose { fence_char, fence_len }
        } else {
            Token::FencedCodeOpen { info: string_of(&info), fence_char, fence_len }
        };
        push_marked_loose(out, tok, text, span);
        return ;
    }
    // HTML
    if let Some((closing, name)) = try_html(t) {
        let tag = string_of(&name);
        let tok = if closing {
            Token::HtmlClose { tag }
        } else {
            Token::HtmlOpen { tag }
        };
        push_marked_loose(out, tok, text, span);
        return ;
    }
    // Table row
    if t[0] == '|' {
        push_marked(out, Token::TableRow, text, span);
        return ;
    }
    // Callout
    if let Some((kind, metadata)) = try_callout(t) {
        let meta = match metadata {
            Some(m) => Some(string_of(&m)),
            None => None,
        };
        push_marked_loose(out, Token::CalloutStart { kind: string_of(&kind), metadata: meta }, text, span);
        return ;
    }
    // Blockquote continuation
    if t[0] == '>' {
        push_marked(out, Token::BlockquoteContinuation, text, span);
        return ;
    }
    // List item
    if let Some((indent, ordered)) = try_list_item(text) {
        push_marked(out, Token::ListMarker { ordered, indent }, text, span);
        return ;
    }
    // Heading
    if let Some(level) = try_heading(text) {
        push_marked(out, Token::Heading { level }, text, span);
        return ;
    }
    // Property drawer markers
    if same(t, &chars_of("#properties")) {
        push_alone(out, Token::PropertiesOpen, span);
        return ;
    }
    if same(t, &chars_of("#end")) {
        push_alone(out, Token::PropertiesClose, span);
        return ;
    }
    // Block-level tag
    if let Some((name, arg)) = try_block_tag(t) {
        let tok = match Keyword::from_chars(&name) {
            Some(kw) => Token::Tag(kw),
            None => Token::UnknownTag { name: string_of(&name) },
        };
        out.push(Spanned { kind: tok, span });
        if arg.len() > 0 {
            out.push(Spanned { kind: Token::TagArg(string_of(&arg)), span });
        }
        assert(out@.take(before.len() as int) =~= before);
        return ;
    }
    // Indented code: four leading spaces or a leading tab
    if has_prefix(text, &chars_of("    ")) || (text.len() > 0 && text[0] == '\t') {
        push_marked(out, Token::IndentedCodeLine, text, span);
        return ;
    }
    // Plain text: a marker, and the RawLine for the parser to tokenize inline
    push_marked_loose(out, Token::Text(String::new()), text, span);
}

fn push_marked_loose(out: &mut Vec<Spanned>, marker: Token, text: &[char], span: Span)
    ensures
        final(out)@.len() == old(out)@.len() + 2,
        final(out)@.take(old(out)@.len() as int) == old(out)@,
        final(out)@.skip(old(out)@.len() as int)[0] == (Spanned { kind: marker, span }),
        raw_line(final(out)@.skip(old(out)@.len() as int)[1], text@, span),
{
    push_marked(out, marker, text, span);
}


// ===========================================================================
// Block tokenizer
// ===========================================================================
/// The lines of `s`, split at each `\n` (`str::split('\n')`).
pub open spec fn lines_of(s: Seq<char>) -> Seq<Seq<char>>
    decreases s.len(),
{
    match crate::text::find_char(s, '\n') {
        None => seq![s],
        Some(i) => {
            proof {
                crate::text::lemma_find_char_some(s, '\n');
            }
            seq![s.take(i as int)] + lines_of(s.skip(i + 1 as int))
        },
    }
}

/// Splits text at each `\n`.
pub fn split_lines(s: &[char]) -> (r: Vec<Vec<char>>)
    ensures
        r@.len() == lines_of(s@).len(),
        forall|i: int| 0 <= i < r@.len() ==> #[trigger] r@[i]@ == lines_of(s@)[i],
    decreases s.len(),
{
    match crate::text::index_of(s, '\n') {
        None => {
            let mut r: Vec<Vec<char>> = Vec::new();
            r.push(crate::text::slice_of(s, 0, s.len()));
            assert(s@.subrange(0, s@.len() as int) == s@);
            r
        },
        Some(i) => {
            let head = crate::text::slice_of(s, 0, i);
            let tail = crate::text::skip(s, i + 1);
            let rest = split_lines(&tail);
            let mut r: Vec<Vec<char>> = Vec::new();
            r.push(head);
            let mut j: usize = 0;
            let ghost ls = lines_of(s@);
            proof {
                crate::text::lemma_find_char_some(s@, '\n');
                assert(ls == seq![s@.take(i as int)] + lines_of(tail@));
            }
            while j < rest.len()
                invariant
                    j <= rest@.len(),
                    rest@.len() == lines_of(tail@).len(),
                    forall|k: int| 0 <= k < rest@.len() ==> #[trigger] rest@[k]@ == lines_of(tail@)[k],
                    ls == seq![s@.take(i as int)] + lines_of(tail@),
                    r@.len() == j + 1,
                    forall|k: int| 0 <= k < r@.len() ==> #[trigger] r@[k]@ == ls[k],
                decreases rest@.len() - j,
            {
                r.push(crate::text::slice_of(&rest[j], 0, rest[j].len()));
                assert(rest@[j as int]@.subrange(0, rest@[j as int]@.len() as int) == rest@[j as int]@);
                j += 1;
            }
            r
        },
    }
}

/// The end-of-input token that [`Lexer::peek`] hands out past the last token.
pub open spec fn eof_token() -> Spanned {
    Spanned { kind: Token::Eof, span: Span { start: 0, end: 0, line: 0, col: 0 } }
}

/// The block-level token stream ends with exactly one `Eof`, at its end.
pub open spec fn ends_at_eof(toks: Seq<Spanned>) -> bool {
    &&& toks.len() > 0
    &&& toks.last().kind == Token::Eof
    &&& forall|i: int| 0 <= i < toks.len() - 1 ==> #[trigger] toks[i].kind != Token::Eof
}


pub proof fn lemma_emits_nonempty(c: LineClass, text: Seq<char>, span: Span, toks: Seq<Spanned>)
    requires
        emits(c, text, span, toks),
    ensures
        1 <= toks.len() <= 2,
        forall|i: int| 0 <= i < toks.len() ==> #[trigger] toks[i].kind != Token::Eof,
        forall|i: int| 0 <= i < toks.len() ==> #[trigger] toks[i].kind != Token::Newline,
{
}

/// `a + b`, saturating at `usize::MAX`.
pub open spec fn sat_add(a: nat, b: nat) -> nat {
    if a + b > usize::MAX {
        usize::MAX as nat
    } else {
        a + b
    }
}

/// The byte length of a line, saturating at `usize::MAX`.
pub open spec fn line_bytes(l: Seq<char>) -> nat {
    if crate::text::utf8_len(l) <= usize::MAX {
        crate::text::utf8_len(l)
    } else {
        usize::MAX as nat
    }
}

/// The span of line `i` (0-based) of `len` bytes starting at byte `off`.
pub open spec fn line_span(off: nat, len: nat, i: int) -> Span {
    Span { start: off as usize, end: sat_add(off, len) as usize, line: (i + 1) as u32, col: 1 }
}

/// The `Newline` that ends line `i`.
pub open spec fn newline_token(off: nat, len: nat, i: int) -> Spanned {
    let line_end = sat_add(off, len);
    Spanned {
        kind: Token::Newline,
        span: Span {
            start: line_end as usize,
            end: sat_add(line_end, 1) as usize,
            line: (i + 1) as u32,
            col: sat_add(len, 1) as u32,
        },
    }
}

/// Whether a fenced code block is open after a line whose first token is
/// `first`: a fence with an info string opens one, a bare fence closes the
/// open one or, when none is open, opens one.
pub open spec fn fence_after(first: Token, fence: bool) -> bool {
    match first {
        Token::FencedCodeOpen { .. } => true,
        Token::FencedCodeClose { .. } => !fence,
        _ => fence,
    }
}

/// Whether `toks` is what the block tokenizer produces for lines `i..` of
/// `ls`, line `i` starting at byte `off`, in frontmatter state `fm`, inside
/// a fenced code block or not: each line's tokens (see [`emits`]) and a
/// `Newline`; a text line followed by a setext underline (outside
/// frontmatter and fences) becomes a heading that takes the underline.
pub open spec fn lexes_from(
    ls: Seq<Seq<char>>,
    i: int,
    off: nat,
    fm: FrontmatterState,
    fence: bool,
    toks: Seq<Spanned>,
) -> bool
    decreases ls.len() - i,
{
    if i < 0 || i >= ls.len() {
        toks.len() == 0
    } else {
        let len = line_bytes(ls[i]);
        let span = line_span(off, len, i);
        let c = classify(ls[i], fm).0;
        let fm2 = classify(ls[i], fm).1;
        let line_end = sat_add(off, len);
        if i + 1 < ls.len() && fm2 == FrontmatterState::Done && !fence && c is Text
            && spec_setext(ls[i + 1]) is Some {
            &&& toks.len() >= 3
            &&& toks[0] == (Spanned { kind: Token::Heading { level: spec_setext(ls[i + 1])->0 }, span })
            &&& raw_line(toks[1], ls[i], span)
            &&& toks[2] == newline_token(off, len, i)
            &&& lexes_from(
                ls,
                i + 2,
                sat_add(sat_add(sat_add(line_end, 1), line_bytes(ls[i + 1])), 1),
                fm2,
                fence,
                toks.skip(3),
            )
        } else {
            exists|k: int|
                1 <= k <= 2 && k < toks.len() && #[trigger] emits(c, ls[i], span, toks.take(k))
                    && toks[k] == newline_token(off, len, i) && lexes_from(
                    ls,
                    i + 1,
                    sat_add(line_end, 1),
                    fm2,
                    fence_after(toks[0].kind, fence),
                    toks.skip(k + 1),
                )
        }
    }
}

/// Whether `toks` is the block-level token stream of the source `s`: the
/// tokens of its lines, the last `Newline` turned into `Eof`.
pub open spec fn block_tokens(s: Seq<char>, toks: Seq<Spanned>) -> bool {
    exists|raw: Seq<Spanned>|
        #[trigger] lexes_from(lines_of(s), 0, 0, FrontmatterState::BeforeContent, false, raw)
            && raw.len() > 0 && toks == raw.update(
            raw.len() - 1,
            Spanned { kind: Token::Eof, span: raw.last().span },
        )
}

/// Whether every `RawLine` token of `toks` carries one of the lines `ls`.
pub open spec fn raw_lines_within(ls: Seq<Seq<char>>, toks: Seq<Spanned>) -> bool {
    forall|j: int|
        #![trigger toks[j]]
        0 <= j < toks.len() ==> (toks[j].kind matches Token::RawLine(r) ==> ls.contains(r@))
}

proof fn lemma_emits_raw(c: LineClass, text: Seq<char>, span: Span, toks: Seq<Spanned>)
    requires
        emits(c, text, span, toks),
    ensures
        forall|j: int|
            #![trigger toks[j]]
            0 <= j < toks.len() ==> (toks[j].kind matches Token::RawLine(r) ==> r@ == text),
{
}

proof fn lemma_lexes_raw_lines(
    ls: Seq<Seq<char>>,
    i: int,
    off: nat,
    fm: FrontmatterState,
    fence: bool,
    toks: Seq<Spanned>,
)
    requires
        0 <= i,
        lexes_from(ls, i, off, fm, fence, toks),
    ensures
        raw_lines_within(ls, toks),
    decreases ls.len() - i,
{
    if i < ls.len() {
        let len = line_bytes(ls[i]);
        let span = line_span(off, len, i);
        let c = classify(ls[i], fm).0;
        let fm2 = classify(ls[i], fm).1;
        let line_end = sat_add(off, len);
        assert(ls.contains(ls[i])) by {
            assert(ls[i] == ls[i]);
        }
        if i + 1 < ls.len() && fm2 == FrontmatterState::Done && !fence && c is Text && spec_setext(
            ls[i + 1],
        ) is Some {
            let next = sat_add(sat_add(sat_add(line_end, 1), line_bytes(ls[i + 1])), 1);
            lemma_lexes_raw_lines(ls, i + 2, next, fm2, fence, toks.skip(3));
            assert forall|j: int| #![trigger toks[j]] 0 <= j < toks.len() implies (
            toks[j].kind matches Token::RawLine(r) ==> ls.contains(r@)) by {
                if j >= 3 {
                    assert(toks[j] == toks.skip(3)[j - 3]);
                }
            }
        } else {
            let k = choose|k: int|
                1 <= k <= 2 && k < toks.len() && #[trigger] emits(c, ls[i], span, toks.take(k))
                    && toks[k] == newline_token(off, len, i) && lexes_from(
                    ls,
                    i + 1,
                    sat_add(line_end, 1),
                    fm2,
                    fence_after(toks[0].kind, fence),
                    toks.skip(k + 1),
                );
            lemma_emits_raw(c, ls[i], span, toks.take(k));
            lemma_lexes_raw_lines(
                ls,
                i + 1,
                sat_add(line_end, 1),
                fm2,
                fence_after(toks[0].kind, fence),
                toks.skip(k + 1),
            );
            assert forall|j: int| #![trigger toks[j]] 0 <= j < toks.len() implies (
            toks[j].kind matches Token::RawLine(r) ==> ls.contains(r@)) by {
                if j < k {
                    assert(toks[j] == toks.take(k)[j]);
                } else if j > k {
                    assert(toks[j] == toks.skip(k + 1)[j - k - 1]);
                }
            }
        }
    }
}

/// Whether the tokens' line numbers lie in `lo..=hi` and never fall.
pub open spec fn lines_rise(toks: Seq<Spanned>, lo: int, hi: int) -> bool {
    &&& forall|j: int| 0 <= j < toks.len() ==> lo <= #[trigger] toks[j].span.line <= hi
    &&& forall|j: int, k: int|
        0 <= j <= k < toks.len() ==> #[trigger] toks[j].span.line <= #[trigger] toks[k].span.line
}

proof fn lemma_emits_span(c: LineClass, text: Seq<char>, span: Span, toks: Seq<Spanned>)
    requires
        emits(c, text, span, toks),
    ensures
        forall|j: int| 0 <= j < toks.len() ==> #[trigger] toks[j].span == span,
{
}

proof fn lemma_concat_rise(a: Seq<Spanned>, b: Seq<Spanned>, line: int, hi: int)
    requires
        forall|j: int| 0 <= j < a.len() ==> #[trigger] a[j].span.line == line,
        lines_rise(b, line + 1, hi),
        1 <= line <= hi,
    ensures
        lines_rise(a + b, line, hi),
{
    let s = a + b;
    assert forall|j: int| 0 <= j < s.len() implies line <= #[trigger] s[j].span.line <= hi by {
        if j >= a.len() {
            assert(s[j] == b[j - a.len()]);
        }
    }
    assert forall|j: int, k: int| 0 <= j <= k < s.len() implies #[trigger] s[j].span.line
        <= #[trigger] s[k].span.line by {
        if j >= a.len() {
            assert(s[j] == b[j - a.len()]);
        }
        if k >= a.len() {
            assert(s[k] == b[k - a.len()]);
        }
    }
}

proof fn lemma_lexes_rise(
    ls: Seq<Seq<char>>,
    i: int,
    off: nat,
    fm: FrontmatterState,
    fence: bool,
    toks: Seq<Spanned>,
)
    requires
        0 <= i,
        ls.len() <= u32::MAX,
        lexes_from(ls, i, off, fm, fence, toks),
    ensures
        lines_rise(toks, i + 1, ls.len() as int),
    decreases ls.len() - i,
{
    if i < ls.len() {
        let len = line_bytes(ls[i]);
        let span = line_span(off, len, i);
        let c = classify(ls[i], fm).0;
        let fm2 = classify(ls[i], fm).1;
        let line_end = sat_add(off, len);
        assert(span.line == i + 1);
        if i + 1 < ls.len() && fm2 == FrontmatterState::Done && !fence && c is Text && spec_setext(
            ls[i + 1],
        ) is Some {
            let next = sat_add(sat_add(sat_add(line_end, 1), line_bytes(ls[i + 1])), 1);
            lemma_lexes_rise(ls, i + 2, next, fm2, fence, toks.skip(3));
            assert(lines_rise(toks.skip(3), i + 2, ls.len() as int));
            assert forall|j: int| 0 <= j < toks.take(3).len() implies #[trigger] toks.take(3)[j].span.line
                == i + 1 by {}
            assert(toks =~= toks.take(3) + toks.skip(3));
            lemma_concat_rise(toks.take(3), toks.skip(3), i + 1, ls.len() as int);
        } else {
            let k = choose|k: int|
                1 <= k <= 2 && k < toks.len() && #[trigger] emits(c, ls[i], span, toks.take(k))
                    && toks[k] == newline_token(off, len, i) && lexes_from(
                    ls,
                    i + 1,
                    sat_add(line_end, 1),
                    fm2,
                    fence_after(toks[0].kind, fence),
                    toks.skip(k + 1),
                );
            lemma_emits_span(c, ls[i], span, toks.take(k));
            lemma_lexes_rise(
                ls,
                i + 1,
                sat_add(line_end, 1),
                fm2,
                fence_after(toks[0].kind, fence),
                toks.skip(k + 1),
            );
            assert forall|j: int| 0 <= j < toks.take(k + 1).len() implies #[trigger] toks.take(
                k + 1,
            )[j].span.line == i + 1 by {
                if j < k {
                    assert(toks.take(k + 1)[j] == toks.take(k)[j]);
                }
            }
            assert(toks =~= toks.take(k + 1) + toks.skip(k + 1));
            lemma_concat_rise(toks.take(k + 1), toks.skip(k + 1), i + 1, ls.len() as int);
        }
    }
}

/// The block tokens go down the source: the first token is on line 1, and
/// the line numbers of the tokens never fall (for a source of fewer lines
/// than `u32` counts).
pub proof fn lemma_token_lines_rise(s: Seq<char>, toks: Seq<Spanned>)
    requires
        block_tokens(s, toks),
        lines_of(s).len() <= u32::MAX,
    ensures
        toks.len() > 0 ==> toks[0].span.line == 1,
        lines_rise(toks, 1, lines_of(s).len() as int),
{
    let raw = choose|raw: Seq<Spanned>|
        #[trigger] lexes_from(lines_of(s), 0, 0, FrontmatterState::BeforeContent, false, raw)
            && raw.len() > 0 && toks == raw.update(
            raw.len() - 1,
            Spanned { kind: Token::Eof, span: raw.last().span },
        );
    lemma_lexes_rise(lines_of(s), 0, 0, FrontmatterState::BeforeContent, false, raw);
    assert forall|j: int| 0 <= j < toks.len() implies #[trigger] toks[j].span == raw[j].span by {}
    assert(lines_rise(toks, 1, lines_of(s).len() as int)) by {
        assert forall|j: int| 0 <= j < toks.len() implies 1 <= #[trigger] toks[j].span.line
            <= lines_of(s).len() by {
            assert(toks[j].span == raw[j].span);
        }
        assert forall|j: int, k: int| 0 <= j <= k < toks.len() implies #[trigger] toks[j].span.line
            <= #[trigger] toks[k].span.line by {
            assert(toks[j].span == raw[j].span);
            assert(toks[k].span == raw[k].span);
        }
    }
    if toks.len() > 0 {
        assert(lines_of(s).len() > 0);
    }
}

/// The block tokenizer keeps each line whole: every `RawLine` token of the
/// stream carries the text of a line of the source.
pub proof fn lemma_raw_lines_are_source_lines(s: Seq<char>, toks: Seq<Spanned>)
    requires
        block_tokens(s, toks),
    ensures
        raw_lines_within(lines_of(s), toks),
{
    let raw = choose|raw: Seq<Spanned>|
        #[trigger] lexes_from(lines_of(s), 0, 0, FrontmatterState::BeforeContent, false, raw)
            && raw.len() > 0 && toks == raw.update(
            raw.len() - 1,
            Spanned { kind: Token::Eof, span: raw.last().span },
        );
    lemma_lexes_raw_lines(lines_of(s), 0, 0, FrontmatterState::BeforeContent, false, raw);
    assert forall|j: int| #![trigger toks[j]] 0 <= j < toks.len() implies (
    toks[j].kind matches Token::RawLine(r) ==> lines_of(s).contains(r@)) by {
        if j < toks.len() - 1 {
            assert(toks[j] == raw[j]);
        }
    }
}

proof fn lemma_step_plain(
    ls: Seq<Seq<char>>,
    i: int,
    off: nat,
    fm: FrontmatterState,
    fence: bool,
    emitted: Seq<Spanned>,
    rest: Seq<Spanned>,
)
    requires
        0 <= i < ls.len(),
        1 <= emitted.len() <= 2,
        emits(classify(ls[i], fm).0, ls[i], line_span(off, line_bytes(ls[i]), i), emitted),
        !(i + 1 < ls.len() && classify(ls[i], fm).1 == FrontmatterState::Done && !fence
            && classify(ls[i], fm).0 is Text && spec_setext(ls[i + 1]) is Some),
        lexes_from(
            ls,
            i + 1,
            sat_add(sat_add(off, line_bytes(ls[i])), 1),
            classify(ls[i], fm).1,
            fence_after(emitted[0].kind, fence),
            rest,
        ),
    ensures
        lexes_from(
            ls,
            i,
            off,
            fm,
            fence,
            emitted.push(newline_token(off, line_bytes(ls[i]), i)) + rest,
        ),
{
    let all = emitted.push(newline_token(off, line_bytes(ls[i]), i)) + rest;
    let k = emitted.len() as int;
    assert(all.take(k) =~= emitted);
    assert(all.skip(k + 1) =~= rest);
    assert(all[0] == emitted[0]);
    assert(emits(classify(ls[i], fm).0, ls[i], line_span(off, line_bytes(ls[i]), i), all.take(k)));
}

proof fn lemma_step_setext(
    ls: Seq<Seq<char>>,
    i: int,
    off: nat,
    fm: FrontmatterState,
    fence: bool,
    chunk: Seq<Spanned>,
    rest: Seq<Spanned>,
)
    requires
        0 <= i,
        i + 1 < ls.len(),
        classify(ls[i], fm).1 == FrontmatterState::Done,
        !fence,
        classify(ls[i], fm).0 is Text,
        spec_setext(ls[i + 1]) is Some,
        chunk.len() == 3,
        chunk[0] == (Spanned {
            kind: Token::Heading { level: spec_setext(ls[i + 1])->0 },
            span: line_span(off, line_bytes(ls[i]), i),
        }),
        raw_line(chunk[1], ls[i], line_span(off, line_bytes(ls[i]), i)),
        chunk[2] == newline_token(off, line_bytes(ls[i]), i),
        lexes_from(
            ls,
            i + 2,
            sat_add(sat_add(sat_add(sat_add(off, line_bytes(ls[i])), 1), line_bytes(ls[i + 1])), 1),
            classify(ls[i], fm).1,
            fence,
            rest,
        ),
    ensures
        lexes_from(ls, i, off, fm, fence, chunk + rest),
{
    let all = chunk + rest;
    assert(all.skip(3) =~= rest);
    assert(all[0] == chunk[0]);
    assert(all[1] == chunk[1]);
    assert(all[2] == chunk[2]);
}

/// Tokenizes source text into block-level tokens.  Each line produces its
/// block-classification token(s), then `Newline`; the final `Newline` becomes
/// `Eof`.  A text line followed by a setext underline becomes a heading and
/// the underline produces no tokens (not inside frontmatter or a fenced code
/// block).
#[verifier::rlimit(60)]
pub fn tokenize_blocks(source: &str) -> (tokens: Vec<Spanned>)
    ensures
        ends_at_eof(tokens@),
        block_tokens(source@, tokens@),
{
    let src = chars_of(source);
    let lines = split_lines(&src);
    let ghost ls = lines_of(src@);
    assert(ls == lines@.map_values(|l: Vec<char>| l@)) by {
        assert(ls =~= lines@.map_values(|l: Vec<char>| l@));
    }
    let mut tokens: Vec<Spanned> = Vec::new();
    let mut byte_offset: usize = 0;
    let mut fm = FrontmatterState::BeforeContent;
    let mut in_fence = false;
    let mut idx: usize = 0;
    assert(lines@.len() >= 1) by {
        reveal_with_fuel(lines_of, 1);
    }
    assert forall|rest: Seq<Spanned>|
        lexes_from(ls, 0, 0, FrontmatterState::BeforeContent, false, rest) implies #[trigger] lexes_from(
        ls,
        0,
        0,
        FrontmatterState::BeforeContent,
        false,
        tokens@ + rest,
    ) by {
        assert(tokens@ + rest =~= rest);
    }
    while idx < lines.len()
        invariant
            idx <= lines@.len(),
            lines@.len() >= 1,
            ls == lines@.map_values(|l: Vec<char>| l@),
            tokens@.len() == 0 ==> idx == 0,
            idx > 0 ==> tokens@.len() > 0 && tokens@.last().kind == Token::Newline,
            forall|i: int| 0 <= i < tokens@.len() ==> #[trigger] tokens@[i].kind != Token::Eof,
            forall|rest: Seq<Spanned>|
                lexes_from(ls, idx as int, byte_offset as nat, fm, in_fence, rest)
                    ==> #[trigger] lexes_from(
                    ls,
                    0,
                    0,
                    FrontmatterState::BeforeContent,
                    false,
                    tokens@ + rest,
                ),
        decreases lines@.len() - idx,
    {
        let line = &lines[idx];
        assert(ls[idx as int] == line@);
        let len_bytes = byte_len(line);
        let line_number = (idx + 1) as u32;
        let span = Span::new(byte_offset, byte_offset.saturating_add(len_bytes), line_number, 1);
        let start = tokens.len();
        let ghost before = tokens@;
        let ghost fm0 = fm;
        let ghost fence0 = in_fence;
        let ghost off0 = byte_offset as nat;
        assert(span == line_span(off0, len_bytes as nat, idx as int));
        classify_line(line, span, &mut tokens, &mut fm);
        let ghost emitted = tokens@.skip(before.len() as int);
        proof {
            lemma_emits_nonempty(classify(line@, fm0).0, line@, span, emitted);
        }
        assert forall|i: int| 0 <= i < tokens@.len() implies #[trigger] tokens@[i].kind != Token::Eof by {
            if i >= before.len() {
                assert(tokens@[i] == tokens@.skip(before.len() as int)[i - before.len()]);
            } else {
                assert(tokens@[i] == tokens@.take(before.len() as int)[i]);
            }
        }
        assert(tokens@ =~= before + emitted);
        // Track fenced code blocks so that the setext lookahead is suppressed
        // inside them.
        match &tokens[start].kind {
            Token::FencedCodeOpen { .. } => {
                in_fence = true;
            },
            Token::FencedCodeClose { .. } => {
                in_fence = !in_fence;
            },
            _ => {},
        }
        assert(tokens@[start as int] == emitted[0]);
        assert(in_fence == fence_after(emitted[0].kind, fence0));
        let line_end = byte_offset.saturating_add(len_bytes);
        let newline = Spanned {
            kind: Token::Newline,
            span: Span::new(
                line_end,
                line_end.saturating_add(1),
                line_number,
                (len_bytes.saturating_add(1)) as u32,
            ),
        };
        assert(newline == newline_token(off0, len_bytes as nat, idx as int));
        // Setext heading lookahead: a plain text line followed by an underline
        // becomes a heading, and the underline line is skipped.
        if idx + 1 < lines.len() && fm == FrontmatterState::Done && !in_fence {
            let n = tokens.len();
            let was_text_line = n >= 2 && (match &tokens[n - 2].kind {
                Token::Text(_) => true,
                _ => false,
            }) && (match &tokens[n - 1].kind {
                Token::RawLine(_) => true,
                _ => false,
            });
            proof {
                if emitted.len() == 1 {
                    if idx > 0 {
                        assert(tokens@[n - 2] == before.last());
                    }
                }
                if classify(line@, fm0).0 is Text {
                    assert(emitted.len() == 2);
                    assert(tokens@[n - 2] == emitted[0]);
                    assert(tokens@[n - 1] == emitted[1]);
                }
                if was_text_line && emitted.len() == 2 {
                    assert(tokens@[n - 2] == emitted[0]);
                }
            }
            assert(was_text_line == (classify(line@, fm0).0 is Text));
            if was_text_line {
                assert(ls[idx + 1] == lines@[idx + 1]@);
                if let Some(level) = crate::lines::try_setext_underline(&lines[idx + 1]) {
                    let marker_span = tokens[n - 2].span;
                    tokens.set(n - 2, Spanned { kind: Token::Heading { level }, span: marker_span });
                    tokens.push(newline);
                    let ul_bytes = byte_len(&lines[idx + 1]);
                    let ghost chunk = tokens@.skip(before.len() as int);
                    proof {
                        assert(tokens@ =~= before + chunk);
                        assert(chunk[0] == tokens@[n - 2]);
                        assert(chunk[1] == emitted[1]);
                        assert(chunk[2] == newline);
                        assert forall|rest: Seq<Spanned>|
                            lexes_from(
                                ls,
                                idx + 2,
                                line_end.saturating_add(1).saturating_add(ul_bytes).saturating_add(1) as nat,
                                fm,
                                in_fence,
                                rest,
                            ) implies #[trigger] lexes_from(
                            ls,
                            0,
                            0,
                            FrontmatterState::BeforeContent,
                            false,
                            tokens@ + rest,
                        ) by {
                            lemma_step_setext(ls, idx as int, off0, fm0, fence0, chunk, rest);
                            assert(before + (chunk + rest) =~= tokens@ + rest);
                        }
                    }
                    byte_offset = line_end.saturating_add(1).saturating_add(ul_bytes).saturating_add(1);
                    idx += 2;
                    continue ;
                }
            }
        }
        tokens.push(newline);
        let ghost chunk = tokens@.skip(before.len() as int);
        proof {
            assert(tokens@ =~= before + chunk);
            assert(chunk =~= emitted.push(newline));
            assert forall|rest: Seq<Spanned>|
                lexes_from(
                    ls,
                    idx + 1,
                    line_end.saturating_add(1) as nat,
                    fm,
                    in_fence,
                    rest,
                ) implies #[trigger] lexes_from(
                ls,
                0,
                0,
                FrontmatterState::BeforeContent,
                false,
                tokens@ + rest,
            ) by {
                lemma_step_plain(ls, idx as int, off0, fm0, fence0, emitted, rest);
                assert(before + (chunk + rest) =~= tokens@ + rest);
            }
        }
        byte_offset = line_end.saturating_add(1);
        idx += 1;
    }
    assert(lexes_from(ls, idx as int, byte_offset as nat, fm, in_fence, Seq::<Spanned>::empty()));
    assert(tokens@ + Seq::<Spanned>::empty() =~= tokens@);
    let ghost raw = tokens@;
    let n = tokens.len();
    let last_span = tokens[n - 1].span;
    tokens.set(n - 1, Spanned { kind: Token::Eof, span: last_span });
    assert(tokens@ == raw.update(raw.len() - 1, Spanned { kind: Token::Eof, span: raw.last().span }));
    assert(ls == lines_of(source@));
    assert(lexes_from(lines_of(source@), 0, 0, FrontmatterState::BeforeContent, false, raw));
    tokens
}

// ===========================================================================
// Lexer
// ===========================================================================
/// A cursor over the block-level tokens of a source text.
pub struct Lexer<'a> {
    source: &'a str,
    tokens: Vec<Spanned>,
    pos: usize,
    eof: Spanned,
}

/// Index just past the first `Newline` or `Eof` at or after `pos`, or the end
/// of the stream when there is none.
pub open spec fn next_line_start(toks: Seq<Spanned>, pos: int) -> int
    decreases toks.len() - pos,
{
    if pos >= toks.len() {
        if pos > toks.len() { pos } else { toks.len() as int }
    } else if toks[pos].kind == Token::Newline || toks[pos].kind == Token::Eof {
        pos + 1
    } else {
        next_line_start(toks, pos + 1)
    }
}

impl<'a> Lexer<'a> {
    #[verifier::type_invariant]
    spec fn inv(self) -> bool {
        &&& ends_at_eof(self.tokens@)
        &&& self.eof == eof_token()
    }

    /// The token stream.
    pub closed spec fn tokens(&self) -> Seq<Spanned> {
        self.tokens@
    }

    /// The cursor position.
    pub closed spec fn pos(&self) -> int {
        self.pos as int
    }

    /// The text the tokens were read from.
    pub closed spec fn text(&self) -> &'a str {
        self.source
    }

    /// The cursor is never negative.
    pub proof fn lemma_cursor(&self)
        ensures
            0 <= self.pos(),
    {
    }

    /// The token under the cursor.
    pub open spec fn current(&self) -> Spanned {
        if 0 <= self.pos() < self.tokens().len() {
            self.tokens()[self.pos()]
        } else {
            eof_token()
        }
    }

    pub fn new(source: &'a str) -> (l: Self)
        ensures
            ends_at_eof(l.tokens()),
            block_tokens(source@, l.tokens()),
            l.pos() == 0,
            l.text() == source,
    {
        let tokens = tokenize_blocks(source);
        Lexer {
            source,
            tokens,
            pos: 0,
            eof: Spanned { kind: Token::Eof, span: Span { start: 0, end: 0, line: 0, col: 0 } },
        }
    }

    /// The whole block-level token stream.
    pub fn token_list(&self) -> (t: &Vec<Spanned>)
        ensures
            t@ == self.tokens(),
    {
        &self.tokens
    }

    pub fn source(&self) -> (s: &'a str)
        ensures
            s == self.text(),
    {
        self.source
    }

    pub fn peek(&self) -> (t: &Spanned)
        ensures
            *t == self.current(),
    {
        proof {
            use_type_invariant(self);
        }
        if self.pos < self.tokens.len() {
            &self.tokens[self.pos]
        } else {
            &self.eof
        }
    }

    pub fn advance(&mut self) -> (t: &Spanned)
        ensures
            *t == old(self).current(),
            final(self).tokens() == old(self).tokens(),
            final(self).text() == old(self).text(),
            final(self).pos() == if old(self).pos() < old(self).tokens().len() {
                old(self).pos() + 1
            } else {
                old(self).pos()
            },
    {
        proof {
            use_type_invariant(&*self);
        }
        if self.pos < self.tokens.len() {
            let i = self.pos;
            self.pos = self.pos + 1;
            &self.tokens[i]
        } else {
            &self.eof
        }
    }

    pub fn is_eof(&self) -> (b: bool)
        ensures
            b == (self.pos() >= self.tokens().len() || self.current().kind == Token::Eof),
    {
        proof {
            use_type_invariant(self);
        }
        self.pos >= self.tokens.len() || (match self.peek().kind {
            Token::Eof => true,
            _ => false,
        })
    }

    pub fn position(&self) -> (p: usize)
        ensures
            p == self.pos(),
    {
        self.pos
    }

    pub fn set_position(&mut self, pos: usize)
        ensures
            final(self).pos() == pos,
            final(self).tokens() == old(self).tokens(),
            final(self).text() == old(self).text(),
    {
        proof {
            use_type_invariant(&*self);
        }
        self.pos = pos;
    }

    /// Skips tokens up to and including the next `Newline` or `Eof`.
    pub fn skip_to_next_line(&mut self)
        ensures
            final(self).pos() == next_line_start(old(self).tokens(), old(self).pos()),
            final(self).tokens() == old(self).tokens(),
            final(self).text() == old(self).text(),
    {
        proof {
            use_type_invariant(&*self);
        }
        while self.pos < self.tokens.len()
            invariant
                ends_at_eof(self.tokens@),
                self.eof == eof_token(),
                self.tokens@ == old(self).tokens@,
                self.source == old(self).source,
                next_line_start(self.tokens@, self.pos as int) == next_line_start(
                    old(self).tokens@,
                    old(self).pos as int,
                ),
            decreases self.tokens@.len() - self.pos,
        {
            let stop = match self.tokens[self.pos].kind {
                Token::Newline | Token::Eof => true,
                _ => false,
            };
            self.pos = self.pos + 1;
            if stop {
                return ;
            }
        }
    }
}

} // verus!
