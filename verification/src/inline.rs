//! Inline tokenizer, called by the parser on the text of a block.

use vstd::prelude::*;

use crate::span::Span;
use crate::text::{
    lead_run, chars_of, contains_char, count_lead_run, find_char, find_seq, has_char, has_prefix,
    index_of, index_of_seq, is_alphanumeric, is_whitespace, skip, slice_of, starts_with, string_of,
    trim, trimmed, alnum_char,
};
use crate::tokens::{spec_keyword, Keyword, Spanned, Token};

verus! {

/// An inline token, by value.
pub ghost enum InlineTok {
    Tag(Keyword),
    UnknownTag(Seq<char>),
    TagArg(Seq<char>),
    Text(Seq<char>),
    InlineCode(Seq<char>),
    BoldDelim,
    ItalicDelim,
    StrikethroughDelim,
    Link(Seq<char>, Seq<char>, Option<Seq<char>>, Option<Seq<char>>),
    Image(Seq<char>, Seq<char>, Option<Seq<char>>),
    FootnoteRef(Seq<char>),
    LinkRef(Seq<char>, Seq<char>),
    HardBreak,
    Other,
}

pub open spec fn opt_chars(o: Option<String>) -> Option<Seq<char>> {
    match o {
        Some(s) => Some(s@),
        None => None,
    }
}

/// The value of an inline token.
pub open spec fn inline_view(t: Token) -> InlineTok {
    match t {
        Token::Tag(k) => InlineTok::Tag(k),
        Token::UnknownTag { name } => InlineTok::UnknownTag(name@),
        Token::TagArg(a) => InlineTok::TagArg(a@),
        Token::Text(x) => InlineTok::Text(x@),
        Token::InlineCode(c) => InlineTok::InlineCode(c@),
        Token::BoldDelim => InlineTok::BoldDelim,
        Token::ItalicDelim => InlineTok::ItalicDelim,
        Token::StrikethroughDelim => InlineTok::StrikethroughDelim,
        Token::Link { text, url, title, meta } => InlineTok::Link(text@, url@, opt_chars(title), opt_chars(meta)),
        Token::Image { alt, url, title } => InlineTok::Image(alt@, url@, opt_chars(title)),
        Token::FootnoteRef { label } => InlineTok::FootnoteRef(label@),
        Token::LinkRef { text, label } => InlineTok::LinkRef(text@, label@),
        Token::HardBreak => InlineTok::HardBreak,
        _ => InlineTok::Other,
    }
}

/// The values of a token stream.
pub open spec fn inline_views(ts: Seq<Spanned>) -> Seq<InlineTok> {
    ts.map_values(|t: Spanned| inline_view(t.kind))
}

/// The position of the `close` that balances an `open` seen before `pos`,
/// `depth` of them being open; a backslash skips the character after it.
pub open spec fn balance(t: Seq<char>, pos: int, depth: nat, open: char, close: char) -> Option<int>
    decreases t.len() - pos,
{
    if pos < 0 || pos >= t.len() {
        None
    } else if t[pos] == '\\' && pos + 1 < t.len() {
        balance(t, pos + 2, depth, open, close)
    } else if t[pos] == open {
        balance(t, pos + 1, depth + 1, open, close)
    } else if t[pos] == close {
        if depth <= 1 {
            Some(pos)
        } else {
            balance(t, pos + 1, (depth - 1) as nat, open, close)
        }
    } else {
        balance(t, pos + 1, depth, open, close)
    }
}

proof fn lemma_balance(t: Seq<char>, pos: int, depth: nat, open: char, close: char)
    requires
        0 <= pos,
    ensures
        balance(t, pos, depth, open, close) matches Some(p) ==> pos <= p < t.len() && t[p] == close,
    decreases t.len() - pos,
{
    if pos < t.len() {
        if t[pos] == '\\' && pos + 1 < t.len() {
            lemma_balance(t, pos + 2, depth, open, close);
        } else if t[pos] == open {
            lemma_balance(t, pos + 1, depth + 1, open, close);
        } else if t[pos] == close {
            if depth > 1 {
                lemma_balance(t, pos + 1, (depth - 1) as nat, open, close);
            }
        } else {
            lemma_balance(t, pos + 1, depth, open, close);
        }
    }
}

/// `[text](...)` at `start`: the link and the index past `)`.
pub open spec fn spec_link(t: Seq<char>, start: int) -> Option<(InlineTok, int)> {
    if !(0 <= start < t.len()) || t[start] != '[' {
        None
    } else {
        match balance(t, start + 1, 1, '[', ']') {
            None => None,
            Some(bc) => if bc + 1 >= t.len() || t[bc + 1] != '(' {
                None
            } else {
                match balance(t, bc + 2, 1, '(', ')') {
                    None => None,
                    Some(pc) => {
                        let p = link_paren(crate::text::trim(t.subrange(bc + 2, pc)));
                        Some((InlineTok::Link(t.subrange(start + 1, bc), p.0, p.1, p.2), pc + 1))
                    },
                }
            },
        }
    }
}

/// `![alt](...)` at `start`: the image and the index past `)`.
pub open spec fn spec_image(t: Seq<char>, start: int) -> Option<(InlineTok, int)> {
    if start + 1 >= t.len() {
        None
    } else {
        match spec_link(t, start + 1) {
            Some((InlineTok::Link(text, url, title, _), e)) => Some((InlineTok::Image(text, url, title), e)),
            _ => None,
        }
    }
}

/// A reference link at `start`: `[text][label]`, `[label][]` or `[label]`
/// (not followed by `(` or `[`).
pub open spec fn spec_link_ref(t: Seq<char>, start: int) -> Option<(InlineTok, int)> {
    if !(0 <= start < t.len()) || t[start] != '[' || (start + 1 < t.len() && t[start + 1] == '^') {
        None
    } else {
        match balance(t, start + 1, 1, '[', ']') {
            None => None,
            Some(p) => {
                let first = t.subrange(start + 1, p);
                let after = p + 1;
                if first.len() == 0 {
                    None
                } else if after < t.len() && t[after] == '[' && find_char(t.skip(after + 1), ']') is Some {
                    let close = find_char(t.skip(after + 1), ']')->0 as int;
                    let label = t.skip(after + 1).take(close);
                    Some(
                        (
                            InlineTok::LinkRef(first, if label.len() == 0 {
                                first
                            } else {
                                label
                            }),
                            after + 1 + close + 1,
                        ),
                    )
                } else if after >= t.len() || (t[after] != '(' && t[after] != '[') {
                    Some((InlineTok::LinkRef(first, first), after))
                } else {
                    None
                }
            },
        }
    }
}

/// The end of the first run of exactly `n` backticks at or after `i`: the
/// run's start and end.
pub open spec fn backtick_close(t: Seq<char>, i: int, n: nat) -> Option<(int, int)>
    decreases t.len() - i,
{
    if i < 0 || i >= t.len() {
        None
    } else if t[i] == '`' {
        let j = i + lead_run(t.skip(i), '`');
        if j - i == n {
            Some((i, j))
        } else if i < j <= t.len() {
            backtick_close(t, j, n)
        } else {
            None
        }
    } else {
        backtick_close(t, i + 1, n)
    }
}

/// A code span at `start`: the code (one space stripped from each end when
/// both are spaces and the code is not all spaces) and the index past the
/// closing run.
pub open spec fn spec_code_span(t: Seq<char>, start: int) -> Option<(Seq<char>, int)> {
    let n = lead_run(t.skip(start), '`');
    if n == 0 || start + n >= t.len() {
        None
    } else {
        match backtick_close(t, start + n, n) {
            None => None,
            Some((rs, re)) => {
                let code = t.subrange(start + n, rs);
                let all_spaces = lead_run(code, ' ') == code.len();
                Some(
                    (
                        if code.len() >= 2 && code[0] == ' ' && code.last() == ' ' && !all_spaces {
                            code.subrange(1, code.len() - 1)
                        } else {
                            code
                        },
                        re,
                    ),
                )
            },
        }
    }
}

/// Every inline token carries the block's span, and no text token is empty.
pub open spec fn inline_ok(toks: Seq<Spanned>, span: Span) -> bool {
    forall|i: int|
        0 <= i < toks.len() ==> (#[trigger] toks[i]).span == span && (toks[i].kind matches Token::Text(
            s,
        ) ==> s@.len() > 0)
}

/// Tokenizes inline content from raw text.
pub fn tokenize_inline(text: &str, span: Span) -> (out: Vec<Spanned>)
    ensures
        inline_ok(out@, span),
        inline_views(out@) == lex_inline(text@, 0, Seq::empty()),
{
    let t = chars_of(text);
    tokenize_inline_chars(&t, span)
}

/// Tokenizes inline content held as characters.
pub fn tokenize_inline_chars(t: &[char], span: Span) -> (out: Vec<Spanned>)
    ensures
        inline_ok(out@, span),
        inline_views(out@) == lex_inline(t@, 0, Seq::empty()),
{
    let mut out: Vec<Spanned> = Vec::new();
    assert(inline_views(out@) =~= Seq::empty());
    tokenize_inline_into(t, span, &mut out);
    assert(inline_views(out@) =~= lex_inline(t@, 0, Seq::empty()));
    out
}

fn push_tok(out: &mut Vec<Spanned>, kind: Token, span: Span)
    requires
        inline_ok(old(out)@, span),
        !(kind matches Token::Text(s) && s@.len() == 0),
    ensures
        inline_ok(final(out)@, span),
        final(out)@ == old(out)@.push(Spanned { kind, span }),
        inline_views(final(out)@) == inline_views(old(out)@).push(inline_view(kind)),
{
    out.push(Spanned { kind, span });
    assert(inline_views(final(out)@) =~= inline_views(old(out)@).push(inline_view(kind)));
    assert forall|i: int| 0 <= i < final(out)@.len() implies (#[trigger] final(out)@[i]).span == span
        && (final(out)@[i].kind matches Token::Text(s) ==> s@.len() > 0) by {
        if i < old(out)@.len() {
            assert(final(out)@[i] == old(out)@[i]);
        }
    }
}

/// Emits the pending text, if any, as a `Text` token.
fn flush_text_token(buf: &mut Vec<char>, span: Span, out: &mut Vec<Spanned>)
    requires
        inline_ok(old(out)@, span),
    ensures
        inline_ok(final(out)@, span),
        final(buf)@ == Seq::<char>::empty(),
        old(buf)@.len() == 0 ==> final(out)@ == old(out)@,
        old(buf)@.len() > 0 ==> final(out)@.len() == old(out)@.len() + 1 && final(out)@.take(
            old(out)@.len() as int,
        ) == old(out)@ && (final(out)@.last().kind matches Token::Text(s) && s@ == old(buf)@),
        inline_views(final(out)@) == inline_views(old(out)@) + text_toks(old(buf)@),
{
    if buf.len() > 0 {
        let s = string_of(buf);
        push_tok(out, Token::Text(s), span);
        assert(final(out)@.take(old(out)@.len() as int) =~= old(out)@);
        *buf = Vec::new();
    } else {
        assert(inline_views(old(out)@) + text_toks(old(buf)@) =~= inline_views(old(out)@));
        assert(buf@ =~= Seq::<char>::empty());
    }
}

/// Number of trailing spaces of `s`.
fn trailing_spaces(s: &[char]) -> (n: usize)
    ensures
        n <= s.len(),
        n == trail_spaces(s@, s.len() as int),
{
    let mut k: usize = 0;
    while k < s.len() && s[s.len() - 1 - k] == ' '
        invariant
            k <= s.len(),
            trail_spaces(s@, s.len() as int) == k + trail_spaces(s@, s.len() - k),
        decreases s.len() - k,
    {
        k += 1;
    }
    k
}

pub open spec fn is_escapable(c: char) -> bool {
    c == '#' || c == '[' || c == '*' || c == '~' || c == '`'
}

/// The text token that pending characters make: none when there are none.
pub open spec fn text_toks(cur: Seq<char>) -> Seq<InlineTok> {
    if cur.len() == 0 {
        Seq::empty()
    } else {
        seq![InlineTok::Text(cur)]
    }
}

/// The number of spaces that end the first `m` characters of `s`.
pub open spec fn trail_spaces(s: Seq<char>, m: int) -> nat
    decreases m,
{
    if 0 < m <= s.len() && s[m - 1] == ' ' {
        1 + trail_spaces(s, m - 1)
    } else {
        0
    }
}

/// The tag tokens read at `ns`: the tag, then its argument if it has one.
pub open spec fn tag_toks(t: Seq<char>, ns: int) -> Seq<InlineTok> {
    let (tok, arg, _) = spec_tag(t, ns);
    match arg {
        Some(a) => seq![tok, a],
        None => seq![tok],
    }
}

/// One step of the inline tokenizer at `i` (`0 <= i < t.len()`), `cur` being
/// the pending text: the tokens the step emits, the pending text after it,
/// and where the next step starts.  A step that emits a token first emits
/// the pending text.
pub open spec fn inline_step(t: Seq<char>, i: int, cur: Seq<char>) -> (Seq<InlineTok>, Seq<char>, int) {
    let ch = t[i];
    let has_next = i + 1 < t.len();
    if ch == '\\' && has_next {
        if is_escapable(t[i + 1]) {
            (Seq::empty(), cur.push(t[i + 1]), i + 2)
        } else if t[i + 1] == '\n' {
            (text_toks(cur).push(InlineTok::HardBreak), Seq::empty(), i + 2)
        } else {
            (Seq::empty(), cur.push('\\'), i + 1)
        }
    } else if ch == '\n' {
        let n = trail_spaces(cur, cur.len() as int);
        if n >= 2 {
            (text_toks(cur.take(cur.len() - n)).push(InlineTok::HardBreak), Seq::empty(), i + 1)
        } else {
            (Seq::empty(), cur.push('\n'), i + 1)
        }
    } else if ch == '`' && spec_code_span(t, i) is Some {
        let (code, end) = spec_code_span(t, i)->0;
        (text_toks(cur).push(InlineTok::InlineCode(code)), Seq::empty(), end)
    } else if ch == '*' && has_next && t[i + 1] == '*' {
        (text_toks(cur).push(InlineTok::BoldDelim), Seq::empty(), i + 2)
    } else if ch == '~' && has_next && t[i + 1] == '~' {
        (text_toks(cur).push(InlineTok::StrikethroughDelim), Seq::empty(), i + 2)
    } else if ch == '*' {
        (text_toks(cur).push(InlineTok::ItalicDelim), Seq::empty(), i + 1)
    } else if ch == '!' && has_next && t[i + 1] == '[' && spec_image(t, i) is Some {
        let (img, end) = spec_image(t, i)->0;
        (text_toks(cur).push(img), Seq::empty(), end)
    } else if ch == '<' && spec_autolink(t, i) is Some {
        let (c, u, end) = spec_autolink(t, i)->0;
        (text_toks(cur).push(InlineTok::Link(c, u, None, None)), Seq::empty(), end)
    } else if ch == '[' && has_next && t[i + 1] == '^' && spec_footnote_ref(t, i) is Some {
        let (label, end) = spec_footnote_ref(t, i)->0;
        (text_toks(cur).push(InlineTok::FootnoteRef(label)), Seq::empty(), end)
    } else if ch == '[' && spec_link(t, i) is Some {
        let (link, end) = spec_link(t, i)->0;
        (text_toks(cur).push(link), Seq::empty(), end)
    } else if ch == '[' && spec_link_ref(t, i) is Some {
        let (link, end) = spec_link_ref(t, i)->0;
        (text_toks(cur).push(link), Seq::empty(), end)
    } else if ch == '#' && has_next && (alnum_char(t[i + 1]) || t[i + 1] == '_') {
        (text_toks(cur) + tag_toks(t, i + 1), Seq::empty(), spec_tag(t, i + 1).2)
    } else {
        (Seq::empty(), cur.push(ch), i + 1)
    }
}

/// The tokens of `t` from `i` on, `cur` being the pending text.  Every step
/// moves forward (the functions that read each construct guarantee it), and
/// the pending text is emitted at the end.
pub open spec fn lex_inline(t: Seq<char>, i: int, cur: Seq<char>) -> Seq<InlineTok>
    decreases t.len() - i,
{
    if 0 <= i < t.len() {
        let (em, c2, j) = inline_step(t, i, cur);
        if i < j <= t.len() {
            em + lex_inline(t, j, c2)
        } else {
            text_toks(cur)
        }
    } else {
        text_toks(cur)
    }
}

/// No text token is empty, and no two text tokens stand side by side.
pub open spec fn text_merged(s: Seq<InlineTok>) -> bool {
    &&& forall|j: int|
        0 <= j < s.len() ==> (#[trigger] s[j] matches InlineTok::Text(x) ==> x.len() > 0)
    &&& forall|j: int| 0 <= j < s.len() - 1 ==> !(#[trigger] s[j] is Text && s[j + 1] is Text)
}

proof fn lemma_text_then(x: Seq<char>, rest: Seq<InlineTok>)
    requires
        text_merged(rest),
        rest.len() > 0,
        !(rest[0] is Text),
        forall|j: int| 0 <= j < rest.len() ==> !(#[trigger] rest[j] is Text),
    ensures
        text_merged(text_toks(x) + rest),
        !((text_toks(x) + rest).last() is Text),
{
    let s = text_toks(x) + rest;
    assert forall|j: int| 0 <= j < s.len() implies (#[trigger] s[j] matches InlineTok::Text(y)
        ==> y.len() > 0) by {
        if j >= text_toks(x).len() {
            assert(s[j] == rest[j - text_toks(x).len()]);
        }
    }
    assert forall|j: int| 0 <= j < s.len() - 1 implies !(#[trigger] s[j] is Text && s[j + 1] is Text) by {
        assert(s[j + 1] == rest[j + 1 - text_toks(x).len()]);
    }
    assert(s.last() == rest[rest.len() - 1]);
}

proof fn lemma_step_merged(t: Seq<char>, i: int, cur: Seq<char>)
    requires
        0 <= i < t.len(),
    ensures
        text_merged(inline_step(t, i, cur).0),
        inline_step(t, i, cur).0.len() > 0 ==> !(inline_step(t, i, cur).0.last() is Text),
{
    let ch = t[i];
    let has_next = i + 1 < t.len();
    let em = inline_step(t, i, cur).0;
    if em.len() > 0 {
        if ch == '#' && has_next && (alnum_char(t[i + 1]) || t[i + 1] == '_') && !(ch == '\\'
            && has_next) && !(ch == '\n') {
            lemma_text_then(cur, tag_toks(t, i + 1));
        } else {
            let x = em.last();
            assert(!(x is Text));
            if em.len() == 1 {
                assert(em == seq![x]);
            } else {
                assert(em =~= seq![em[0], x]);
            }
        }
    }
}

/// The inline tokenizer merges text: no text token it gives is empty, and
/// no two text tokens stand side by side.
pub proof fn lemma_inline_text_merged(t: Seq<char>, i: int, cur: Seq<char>)
    requires
        0 <= i,
    ensures
        text_merged(lex_inline(t, i, cur)),
    decreases t.len() - i,
{
    if i < t.len() {
        let (em, c2, j) = inline_step(t, i, cur);
        if i < j <= t.len() {
            lemma_step_merged(t, i, cur);
            lemma_inline_text_merged(t, j, c2);
            let rest = lex_inline(t, j, c2);
            let s = em + rest;
            assert forall|k: int| 0 <= k < s.len() implies (#[trigger] s[k] matches InlineTok::Text(y)
                ==> y.len() > 0) by {
                if k < em.len() {
                    assert(s[k] == em[k]);
                } else {
                    assert(s[k] == rest[k - em.len()]);
                }
            }
            assert forall|k: int| 0 <= k < s.len() - 1 implies !(#[trigger] s[k] is Text && s[k
                + 1] is Text) by {
                if k < em.len() - 1 {
                    assert(s[k] == em[k]);
                    assert(s[k + 1] == em[k + 1]);
                } else if k == em.len() - 1 {
                    assert(s[k] == em.last());
                } else {
                    assert(s[k] == rest[k - em.len()]);
                    assert(s[k + 1] == rest[k + 1 - em.len()]);
                }
            }
        }
    }
}

/// Taking one step of [`lex_inline`] moves its tokens to the output.
proof fn lemma_lex_step(t: Seq<char>, i: int, cur: Seq<char>, o: Seq<InlineTok>)
    requires
        0 <= i < t.len(),
        i < inline_step(t, i, cur).2 <= t.len(),
    ensures
        o + lex_inline(t, i, cur) == (o + inline_step(t, i, cur).0) + lex_inline(
            t,
            inline_step(t, i, cur).2,
            inline_step(t, i, cur).1,
        ),
{
    let (em, c2, j) = inline_step(t, i, cur);
    assert(o + (em + lex_inline(t, j, c2)) =~= (o + em) + lex_inline(t, j, c2));
}

fn tokenize_inline_into(t: &[char], span: Span, out: &mut Vec<Spanned>)
    requires
        inline_ok(old(out)@, span),
    ensures
        inline_ok(final(out)@, span),
        inline_views(final(out)@) == inline_views(old(out)@) + lex_inline(t@, 0, Seq::empty()),
{
    let ghost start = inline_views(out@);
    let mut i: usize = 0;
    let mut cur: Vec<char> = Vec::new();
    while i < t.len()
        invariant
            i <= t.len(),
            inline_ok(out@, span),
            inline_views(out@) + lex_inline(t@, i as int, cur@) == start + lex_inline(
                t@,
                0,
                Seq::empty(),
            ),
        decreases t.len() - i,
    {
        let ghost i0 = i as int;
        let ghost c0 = cur@;
        let ghost o0 = inline_views(out@);
        let ch = t[i];
        // Backslash escape, and a backslash before a line break
        if ch == '\\' && i + 1 < t.len() {
            let next = t[i + 1];
            if next == '#' || next == '[' || next == '*' || next == '~' || next == '`' {
                cur.push(next);
                i += 2;
                proof { lemma_lex_step(t@, i0, c0, o0); }
                continue ;
            }
            if next == '\n' {
                flush_text_token(&mut cur, span, out);
                push_tok(out, Token::HardBreak, span);
                i += 2;
                assert(inline_views(out@) =~= o0 + inline_step(t@, i0, c0).0);
                proof { lemma_lex_step(t@, i0, c0, o0); }
                continue ;
            }
            cur.push('\\');
            i += 1;
            proof { lemma_lex_step(t@, i0, c0, o0); }
            continue ;
        }
        // Line break: two or more trailing spaces make it a hard break
        if ch == '\n' {
            let n = trailing_spaces(&cur);
            if n >= 2 {
                let kept = slice_of(&cur, 0, cur.len() - n);
                cur = kept;
                flush_text_token(&mut cur, span, out);
                push_tok(out, Token::HardBreak, span);
                i += 1;
                assert(inline_views(out@) =~= o0 + inline_step(t@, i0, c0).0);
                proof { lemma_lex_step(t@, i0, c0, o0); }
                continue ;
            }
            cur.push('\n');
            i += 1;
            proof { lemma_lex_step(t@, i0, c0, o0); }
            continue ;
        }
        // Inline code
        if ch == '`' {
            if let Some((code, end)) = scan_backtick_code(t, i) {
                flush_text_token(&mut cur, span, out);
                push_tok(out, Token::InlineCode(string_of(&code)), span);
                i = end;
                assert(inline_views(out@) =~= o0 + inline_step(t@, i0, c0).0);
                proof { lemma_lex_step(t@, i0, c0, o0); }
                continue ;
            }
        }
        let next_is = |c: char| -> (b: bool)
            ensures
                b == (i + 1 < t.len() && t@[i + 1] == c),
            { i + 1 < t.len() && t[i + 1] == c };
        // Bold **
        if ch == '*' && next_is('*') {
            flush_text_token(&mut cur, span, out);
            push_tok(out, Token::BoldDelim, span);
            i += 2;
            assert(inline_views(out@) =~= o0 + inline_step(t@, i0, c0).0);
            proof { lemma_lex_step(t@, i0, c0, o0); }
            continue ;
        }
        // Strikethrough ~~
        if ch == '~' && next_is('~') {
            flush_text_token(&mut cur, span, out);
            push_tok(out, Token::StrikethroughDelim, span);
            i += 2;
            assert(inline_views(out@) =~= o0 + inline_step(t@, i0, c0).0);
            proof { lemma_lex_step(t@, i0, c0, o0); }
            continue ;
        }
        // Italic * (not **)
        if ch == '*' {
            flush_text_token(&mut cur, span, out);
            push_tok(out, Token::ItalicDelim, span);
            i += 1;
            assert(inline_views(out@) =~= o0 + inline_step(t@, i0, c0).0);
            proof { lemma_lex_step(t@, i0, c0, o0); }
            continue ;
        }
        // Image ![alt](url)
        if ch == '!' && next_is('[') {
            if let Some((img, end)) = try_image(t, i) {
                flush_text_token(&mut cur, span, out);
                push_tok(out, img, span);
                i = end;
                assert(inline_views(out@) =~= o0 + inline_step(t@, i0, c0).0);
                proof { lemma_lex_step(t@, i0, c0, o0); }
                continue ;
            }
        }
        // Autolink <url> or <email>
        if ch == '<' {
            if let Some((link, end)) = try_autolink(t, i) {
                flush_text_token(&mut cur, span, out);
                push_tok(out, link, span);
                i = end;
                assert(inline_views(out@) =~= o0 + inline_step(t@, i0, c0).0);
                proof { lemma_lex_step(t@, i0, c0, o0); }
                continue ;
            }
            cur.push('<');
            i += 1;
            proof { lemma_lex_step(t@, i0, c0, o0); }
            continue ;
        }
        // Footnote reference [^label]
        if ch == '[' && next_is('^') {
            if let Some((label, end)) = try_footnote_ref(t, i) {
                flush_text_token(&mut cur, span, out);
                push_tok(out, Token::FootnoteRef { label: string_of(&label) }, span);
                i = end;
                assert(inline_views(out@) =~= o0 + inline_step(t@, i0, c0).0);
                proof { lemma_lex_step(t@, i0, c0, o0); }
                continue ;
            }
        }
        // Inline link [text](url), then reference link [text][label] / [label]
        if ch == '[' {
            if let Some((link, end)) = try_link(t, i) {
                flush_text_token(&mut cur, span, out);
                push_tok(out, link, span);
                i = end;
                assert(inline_views(out@) =~= o0 + inline_step(t@, i0, c0).0);
                proof { lemma_lex_step(t@, i0, c0, o0); }
                continue ;
            }
            if let Some((r, end)) = try_link_ref(t, i) {
                flush_text_token(&mut cur, span, out);
                push_tok(out, r, span);
                i = end;
                assert(inline_views(out@) =~= o0 + inline_step(t@, i0, c0).0);
                proof { lemma_lex_step(t@, i0, c0, o0); }
                continue ;
            }
        }
        // Tag
        if ch == '#' {
            if i + 1 < t.len() && (is_alphanumeric(t[i + 1]) || t[i + 1] == '_') {
                flush_text_token(&mut cur, span, out);
                let (tok, arg, end) = tokenize_tag(t, i + 1);
                let ghost o1 = inline_views(out@);
                push_tok(out, tok, span);
                if let Some(a) = arg {
                    push_tok(out, a, span);
                    assert(inline_views(out@) =~= o1 + tag_toks(t@, i0 + 1));
                } else {
                    assert(inline_views(out@) =~= o1 + tag_toks(t@, i0 + 1));
                }
                i = end;
                assert(inline_views(out@) =~= o0 + inline_step(t@, i0, c0).0);
                proof { lemma_lex_step(t@, i0, c0, o0); }
                continue ;
            }
            cur.push('#');
            i += 1;
            proof { lemma_lex_step(t@, i0, c0, o0); }
            continue ;
        }
        cur.push(ch);
        i += 1;
        proof { lemma_lex_step(t@, i0, c0, o0); }
    }
    flush_text_token(&mut cur, span, out);
}

// ===========================================================================
// Inline helpers
// ===========================================================================
/// A code span opened by the backtick run at `start`: the code between it and
/// the next run of exactly as many backticks, and the index past that run.
/// One leading and one trailing space are stripped when both are present and
/// the code is not all spaces.
pub fn scan_backtick_code(t: &[char], start: usize) -> (r: Option<(Vec<char>, usize)>)
    requires
        start < t.len(),
    ensures
        r matches Some((_, end)) ==> start < end <= t.len(),
        r is Some ==> t@[start as int] == '`',
        match r {
            Some((code, end)) => spec_code_span(t@, start as int) == Some((code@, end as int)),
            None => spec_code_span(t@, start as int) is None,
        },
{
    let n = count_lead_run(&skip(t, start), '`');
    if n == 0 {
        return None;
    }
    let content_start = start + n;
    if content_start >= t.len() {
        return None;
    }
    assert(t@.skip(start as int)[0] == t@[start as int]);
    let mut i = content_start;
    while i < t.len()
        invariant
            start < content_start <= i <= t.len(),
            content_start == start + n,
            n > 0,
            n == lead_run(t@.skip(start as int), '`'),
            t@[start as int] == '`',
            backtick_close(t@, i as int, n as nat) == backtick_close(t@, content_start as int, n as nat),
        decreases t.len() - i,
    {
        if t[i] == '`' {
            let run_start = i;
            let run = count_lead_run(&skip(t, i), '`');
            assert(t@.skip(i as int)[0] == t@[i as int]);
            i = i + run;
            if run == n {
                let code = slice_of(t, content_start, run_start);
                let all_spaces = count_lead_run(&code, ' ') == code.len();
                let stripped = if code.len() >= 2 && code[0] == ' ' && code[code.len() - 1] == ' '
                    && !all_spaces {
                    slice_of(&code, 1, code.len() - 1)
                } else {
                    code
                };
                return Some((stripped, i));
            }
        } else {
            i += 1;
        }
    }
    None
}

/// `[^label]` with a non-empty label free of spaces: the label and the index
/// past the closing bracket.
pub open spec fn spec_footnote_ref(t: Seq<char>, start: int) -> Option<(Seq<char>, int)> {
    let rest = t.skip(start);
    if !starts_with(rest, "[^"@) {
        None
    } else {
        let after = rest.skip(2);
        match find_char(after, ']') {
            None => None,
            Some(end) => {
                let label = after.take(end as int);
                if label.len() == 0 || contains_char(label, ' ') {
                    None
                } else {
                    Some((label, start + 2 + end + 1))
                }
            },
        }
    }
}

pub fn try_footnote_ref(t: &[char], start: usize) -> (r: Option<(Vec<char>, usize)>)
    requires
        start <= t.len(),
    ensures
        r matches Some((l, e)) ==> spec_footnote_ref(t@, start as int) == Some((l@, e as int))
            && start < e <= t.len(),
        r is None ==> spec_footnote_ref(t@, start as int) is None,
{
    let rest = skip(t, start);
    if !has_prefix(&rest, &chars_of("[^")) {
        return None;
    }
    proof {
        reveal_strlit("[^");
    }
    let after = skip(&rest, 2);
    match index_of(&after, ']') {
        None => None,
        Some(end) => {
            let label = slice_of(&after, 0, end);
            assert(label@ == after@.take(end as int));
            if label.len() == 0 || has_char(&label, ' ') {
                None
            } else {
                Some((label, start + 2 + end + 1))
            }
        },
    }
}

/// `<uri>` (containing `://`) or `<email>` (containing `@`, not at either
/// end), free of spaces, line breaks and `<`.
pub open spec fn spec_autolink(t: Seq<char>, start: int) -> Option<(Seq<char>, Seq<char>, int)> {
    let rest = t.skip(start + 1);
    match find_char(rest, '>') {
        None => None,
        Some(end) => {
            let content = rest.take(end as int);
            if content.len() == 0 || contains_char(content, ' ') || contains_char(content, '\n')
                || contains_char(content, '<') {
                None
            } else {
                let is_uri = find_seq(content, "://"@) is Some;
                let is_email = !is_uri && contains_char(content, '@') && content[0] != '@'
                    && content.last() != '@';
                if !is_uri && !is_email {
                    None
                } else {
                    Some(
                        (
                            content,
                            if is_email {
                                "mailto:"@ + content
                            } else {
                                content
                            },
                            start + 1 + end + 1,
                        ),
                    )
                }
            }
        },
    }
}

pub fn try_autolink(t: &[char], start: usize) -> (r: Option<(Token, usize)>)
    requires
        start < t.len(),
    ensures
        r matches Some((tok, e)) ==> start < e <= t.len() && (spec_autolink(
            t@,
            start as int,
        ) matches Some((c, u, e2)) && e2 == e && (tok matches Token::Link { text, url, title, meta }
            && text@ == c && url@ == u && title is None && meta is None)),
        r is None ==> spec_autolink(t@, start as int) is None,
{
    let rest = skip(t, start + 1);
    let end = match index_of(&rest, '>') {
        Some(e) => e,
        None => {
            return None;
        },
    };
    let content = slice_of(&rest, 0, end);
    assert(content@ == rest@.take(end as int));
    if content.len() == 0 || has_char(&content, ' ') || has_char(&content, '\n') || has_char(
        &content,
        '<',
    ) {
        return None;
    }
    let is_uri = index_of_seq(&content, &chars_of("://")).is_some();
    let is_email = !is_uri && has_char(&content, '@') && content[0] != '@' && content[content.len()
        - 1] != '@';
    if !is_uri && !is_email {
        return None;
    }
    let url = if is_email {
        let mut u = chars_of("mailto:");
        let mut c2 = slice_of(&content, 0, content.len());
        u.append(&mut c2);
        u
    } else {
        slice_of(&content, 0, content.len())
    };
    Some(
        (
            Token::Link { text: string_of(&content), url: string_of(&url), title: None, meta: None },
            start + 1 + end + 1,
        ),
    )
}

/// `![alt](url ...)`: an inline link after the `!`, as an image.
pub fn try_image(t: &[char], start: usize) -> (r: Option<(Token, usize)>)
    requires
        start < t.len(),
    ensures
        r matches Some((tok, e)) ==> start < e <= t.len() && tok matches Token::Image { .. },
        match r {
            Some((tok, e)) => spec_image(t@, start as int) == Some((inline_view(tok), e as int)),
            None => spec_image(t@, start as int) is None,
        },
{
    if start + 1 >= t.len() {
        return None;
    }
    match try_link(t, start + 1) {
        Some((Token::Link { text, url, title, .. }, end)) => Some(
            (Token::Image { alt: text, url, title }, end),
        ),
        _ => None,
    }
}

/// `[text](url "title" [metadata])`, brackets and parentheses balanced,
/// backslash escapes skipped: the link and the index past `)`.
pub fn try_link(t: &[char], start: usize) -> (r: Option<(Token, usize)>)
    ensures
        r matches Some((tok, e)) ==> start < e <= t.len() && tok matches Token::Link { .. },
        r is Some ==> t@[start as int] == '[',
        match r {
            Some((tok, e)) => spec_link(t@, start as int) == Some((inline_view(tok), e as int)),
            None => spec_link(t@, start as int) is None,
        },
{
    if start >= t.len() || t[start] != '[' {
        return None;
    }
    let mut depth: usize = 1;
    let mut pos = start + 1;
    let mut bracket_close: usize = 0;
    loop
        invariant_except_break
            start < pos <= t.len(),
            1 <= depth <= pos - start,
            balance(t@, pos as int, depth as nat, '[', ']') == balance(t@, start + 1, 1, '[', ']'),
        ensures
            start < bracket_close < t.len(),
            balance(t@, start + 1, 1, '[', ']') == Some(bracket_close as int),
        decreases t.len() - pos,
    {
        if pos >= t.len() {
            return None;
        }
        if t[pos] == '\\' && pos + 1 < t.len() {
            pos += 2;
            continue ;
        }
        if t[pos] == '[' {
            depth += 1;
        } else if t[pos] == ']' {
            depth -= 1;
            if depth == 0 {
                bracket_close = pos;
                break ;
            }
        }
        pos += 1;
    }
    let link_text = slice_of(t, start + 1, bracket_close);
    pos = bracket_close + 1;
    if pos >= t.len() || t[pos] != '(' {
        return None;
    }
    let mut pdepth: usize = 1;
    pos = pos + 1;
    let mut paren_close: usize = 0;
    loop
        invariant_except_break
            bracket_close + 1 < pos <= t.len(),
            start < bracket_close < t.len(),
            1 <= pdepth <= pos - bracket_close,
            balance(t@, pos as int, pdepth as nat, '(', ')') == balance(t@, bracket_close + 2, 1, '(', ')'),
            balance(t@, start + 1, 1, '[', ']') == Some(bracket_close as int),
            t@[start as int] == '[',
            t@[bracket_close + 1] == '(',
        ensures
            start < bracket_close + 1 < paren_close < t.len(),
            balance(t@, bracket_close + 2, 1, '(', ')') == Some(paren_close as int),
        decreases t.len() - pos,
    {
        if pos >= t.len() {
            return None;
        }
        if t[pos] == '\\' && pos + 1 < t.len() {
            pos += 2;
            continue ;
        }
        if t[pos] == '(' {
            pdepth += 1;
        } else if t[pos] == ')' {
            pdepth -= 1;
            if pdepth == 0 {
                paren_close = pos;
                break ;
            }
        }
        pos += 1;
    }
    let inner = trimmed(&slice_of(t, bracket_close + 2, paren_close));
    let (url, title, meta) = parse_link_paren(&inner);
    Some(
        (
            Token::Link { text: string_of(&link_text), url, title, meta },
            paren_close + 1,
        ),
    )
}

/// The length of the destination at the start of a link's parentheses:
/// the characters before the first space, `"` or `[`.
pub open spec fn url_run(s: Seq<char>) -> nat
    decreases s.len(),
{
    if s.len() > 0 && s[0] != ' ' && s[0] != '"' && s[0] != '[' {
        1 + url_run(s.drop_first())
    } else {
        0
    }
}

/// The inside of a link's parentheses: the destination, the optional
/// `"title"` and the optional `[metadata]`.
pub open spec fn link_paren(inner: Seq<char>) -> (Seq<char>, Option<Seq<char>>, Option<Seq<char>>) {
    let t = crate::text::trim(inner);
    let u = url_run(t) as int;
    let url = t.take(u);
    let rest = crate::text::trim(t.skip(u));
    if rest.len() == 0 {
        (url, None, None)
    } else {
        let q = rest.skip(1);
        let (title, rest2) = if rest[0] == '"' {
            match crate::text::find_char(q, '"') {
                Some(e) => (Some(q.take(e as int)), crate::text::trim(q.skip(e + 1int))),
                None => (None, rest),
            }
        } else {
            (None, rest)
        };
        let meta = if rest2.len() > 0 && rest2[0] == '[' {
            match crate::text::find_char(rest2, ']') {
                Some(e) => if e >= 1 {
                    Some(rest2.subrange(1, e as int))
                } else {
                    None
                },
                None => None,
            }
        } else {
            None
        };
        (url, title, meta)
    }
}

pub open spec fn opt_string(o: Option<String>) -> Option<Seq<char>> {
    match o {
        Some(s) => Some(s@),
        None => None,
    }
}

/// Splits the inside of a link's parentheses into the destination, the
/// optional `"title"` and the optional `[metadata]` (see [`link_paren`]).
pub fn parse_link_paren(inner: &[char]) -> (r: (String, Option<String>, Option<String>))
    ensures
        (r.0@, opt_string(r.1), opt_string(r.2)) == link_paren(inner@),
{
    let inner = trimmed(inner);
    let mut url_end: usize = 0;
    assert(inner@.skip(0) =~= inner@);
    while url_end < inner.len() && inner[url_end] != ' ' && inner[url_end] != '"'
        && inner[url_end] != '['
        invariant
            url_end <= inner.len(),
            url_run(inner@) == url_end + url_run(inner@.skip(url_end as int)),
        decreases inner.len() - url_end,
    {
        assert(inner@.skip(url_end as int).drop_first() =~= inner@.skip(url_end + 1));
        url_end += 1;
    }
    assert(url_run(inner@.skip(url_end as int)) == 0);
    let url = string_of(&slice_of(&inner, 0, url_end));
    assert(inner@.subrange(0, url_end as int) =~= inner@.take(url_end as int));
    let rest = trimmed(&skip(&inner, url_end));
    if rest.len() == 0 {
        return (url, None, None);
    }
    let mut title: Option<String> = None;
    let mut rest2 = rest;
    if rest2.len() > 0 && rest2[0] == '"' {
        let after_quote = skip(&rest2, 1);
        if let Some(end) = index_of(&after_quote, '"') {
            title = Some(string_of(&slice_of(&after_quote, 0, end)));
            assert(after_quote@.subrange(0, end as int) =~= after_quote@.take(end as int));
            rest2 = trimmed(&skip(&after_quote, end + 1));
        }
    }
    let meta = if rest2.len() > 0 && rest2[0] == '[' {
        match index_of(&rest2, ']') {
            Some(end) => if end >= 1 {
                Some(string_of(&slice_of(&rest2, 1, end)))
            } else {
                None
            },
            None => None,
        }
    } else {
        None
    };
    (url, title, meta)
}

/// A reference link at `start`: full `[text][label]`, collapsed `[label][]`
/// or shortcut `[label]` (see [`spec_link_ref`]).
pub fn try_link_ref(t: &[char], start: usize) -> (r: Option<(Token, usize)>)
    ensures
        r matches Some((tok, e)) ==> start < e <= t.len() && tok matches Token::LinkRef { .. },
        match r {
            Some((tok, e)) => spec_link_ref(t@, start as int) == Some((inline_view(tok), e as int)),
            None => spec_link_ref(t@, start as int) is None,
        },
{
    if start >= t.len() || t[start] != '[' {
        return None;
    }
    if start + 1 < t.len() && t[start + 1] == '^' {
        return None;
    }
    let mut pos = start + 1;
    let mut depth: usize = 1;
    while pos < t.len() && depth > 0
        invariant
            start < pos <= t.len(),
            depth <= pos - start,
            depth > 0 ==> balance(t@, pos as int, depth as nat, '[', ']') == balance(t@, start + 1, 1, '[', ']'),
            depth == 0 ==> pos < t.len() && balance(t@, start + 1, 1, '[', ']') == Some(pos as int),
        decreases t.len() - pos, depth,
    {
        if t[pos] == '\\' && pos + 1 < t.len() {
            pos += 2;
            continue ;
        }
        if t[pos] == '[' {
            depth += 1;
        } else if t[pos] == ']' {
            depth -= 1;
        }
        if depth > 0 {
            pos += 1;
        }
    }
    if depth != 0 || pos >= t.len() {
        return None;
    }
    let first_text = slice_of(t, start + 1, pos);
    if first_text.len() == 0 {
        return None;
    }
    let after_first = pos + 1;
    // Full reference: [text][label]
    if after_first < t.len() && t[after_first] == '[' {
        let label_start = after_first + 1;
        let tail = skip(t, label_start);
        if let Some(close) = index_of(&tail, ']') {
            let label = slice_of(&tail, 0, close);
            assert(label@ == t@.skip(label_start as int).take(close as int));
            if label.len() == 0 {
                // Collapsed: [label][]
                return Some(
                    (
                        Token::LinkRef {
                            text: string_of(&first_text),
                            label: string_of(&first_text),
                        },
                        label_start + close + 1,
                    ),
                );
            }
            return Some(
                (
                    Token::LinkRef { text: string_of(&first_text), label: string_of(&label) },
                    label_start + close + 1,
                ),
            );
        }
    }
    // Shortcut reference: [label] not followed by ( or [
    if after_first >= t.len() || (t[after_first] != '(' && t[after_first] != '[') {
        return Some(
            (
                Token::LinkRef { text: string_of(&first_text), label: string_of(&first_text) },
                after_first,
            ),
        );
    }
    None
}

/// The end of a tag name starting at `pos`: alphanumerics, `-` and `_`.
pub open spec fn name_end(t: Seq<char>, pos: int) -> int
    decreases t.len() - pos,
{
    if 0 <= pos < t.len() && (alnum_char(t[pos]) || t[pos] == '-' || t[pos] == '_') {
        name_end(t, pos + 1)
    } else {
        pos
    }
}

/// A tag's argument read from `pos` after `acc`, up to the next `#` that
/// starts another tag (`\#` standing for `#`), and where it ends.
pub open spec fn tag_arg_from(t: Seq<char>, pos: int, acc: Seq<char>) -> (Seq<char>, int)
    decreases t.len() - pos,
{
    if pos < 0 || pos >= t.len() {
        (acc, pos)
    } else if t[pos] == '#' && pos + 1 < t.len() && (alnum_char(t[pos + 1]) || t[pos + 1] == '_') {
        (acc, pos)
    } else if t[pos] == '\\' {
        if pos + 1 < t.len() && t[pos + 1] == '#' {
            tag_arg_from(t, pos + 2, acc.push('#'))
        } else {
            tag_arg_from(t, pos + 1, acc.push('\\'))
        }
    } else {
        tag_arg_from(t, pos + 1, acc.push(t[pos]))
    }
}

/// A tag whose name starts at `ns`: its token, its argument token (when
/// the trimmed argument is not empty) and where it ends.
pub open spec fn spec_tag(t: Seq<char>, ns: int) -> (InlineTok, Option<InlineTok>, int) {
    let e = name_end(t, ns);
    let name = t.subrange(ns, e);
    let tok = match spec_keyword(name) {
        Some(k) => InlineTok::Tag(k),
        None => InlineTok::UnknownTag(name),
    };
    let r = if e < t.len() && t[e] == ' ' {
        tag_arg_from(t, e + 1, Seq::empty())
    } else {
        (Seq::empty(), e)
    };
    let ta = crate::text::trim(r.0);
    (tok, if ta.len() == 0 {
        None
    } else {
        Some(InlineTok::TagArg(ta))
    }, r.1)
}

/// Reads a tag whose name starts at `name_start`: the tag token, the
/// argument token when the argument is not blank, and the index past the
/// argument.  The argument runs from the space after the name to the next
/// `#` that starts another tag, with `\#` standing for `#`.
pub fn tokenize_tag(t: &[char], name_start: usize) -> (r: (Token, Option<Token>, usize))
    requires
        name_start <= t.len(),
    ensures
        name_start <= r.2 <= t.len(),
        r.0 matches Token::Tag(_) || r.0 matches Token::UnknownTag { .. },
        r.1 matches Some(a) ==> (a matches Token::TagArg(s) && s@.len() > 0),
        (inline_view(r.0), match r.1 {
            Some(a) => Some(inline_view(a)),
            None => None,
        }, r.2 as int) == spec_tag(t@, name_start as int),
{
    let mut pos = name_start;
    while pos < t.len() && (is_alphanumeric(t[pos]) || t[pos] == '-' || t[pos] == '_')
        invariant
            name_start <= pos <= t.len(),
            name_end(t@, pos as int) == name_end(t@, name_start as int),
        decreases t.len() - pos,
    {
        pos += 1;
    }
    assert(name_end(t@, pos as int) == pos as int);
    let name = slice_of(t, name_start, pos);
    let tok = match Keyword::from_chars(&name) {
        Some(kw) => Token::Tag(kw),
        None => Token::UnknownTag { name: string_of(&name) },
    };
    let mut arg: Vec<char> = Vec::new();
    let ghost e = pos as int;
    if pos < t.len() && t[pos] == ' ' {
        pos += 1;
        while pos < t.len()
            invariant
                name_start <= pos <= t.len(),
                e + 1 <= pos,
                tag_arg_from(t@, pos as int, arg@) == tag_arg_from(t@, e + 1, Seq::empty()),
            ensures
                name_start <= pos <= t.len(),
                tag_arg_from(t@, pos as int, arg@) == tag_arg_from(t@, e + 1, Seq::empty()),
                tag_arg_from(t@, pos as int, arg@) == (arg@, pos as int),
            decreases t.len() - pos,
        {
            let c = t[pos];
            if c == '#' && pos + 1 < t.len() && (is_alphanumeric(t[pos + 1]) || t[pos + 1] == '_') {
                break ;
            }
            if c == '\\' {
                if pos + 1 < t.len() && t[pos + 1] == '#' {
                    arg.push('#');
                    pos += 2;
                    continue ;
                }
                arg.push('\\');
                pos += 1;
                continue ;
            }
            arg.push(c);
            pos += 1;
        }
    }
    let trimmed_arg = trimmed(&arg);
    let arg_tok = if trimmed_arg.len() == 0 {
        None
    } else {
        Some(Token::TagArg(string_of(&trimmed_arg)))
    };
    (tok, arg_tok, pos)
}

} // verus!
