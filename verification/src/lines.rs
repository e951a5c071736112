//! Recognisers for the block-level line forms.
//!
//! Each recogniser has a specification over the line's characters and an
//! executable version proved equal to it.

use vstd::prelude::*;

use crate::text::{
    all_digits, chars_of, count_lead_digits, count_lead_run, count_lead_ws, ends_with,
    find_char, find_seq, has_char, has_prefix, has_suffix, index_of, index_of_seq, is_ascii_alnum,
    lead_digits, lead_run, lead_ws, same, skip, slice_of, starts_with, trim, trim_start,
    trimmed, trimmed_start, utf8_len, byte_len, contains_char, lowercase, to_lower,
};

verus! {

/// Byte length of the leading whitespace of a line.
pub open spec fn indent_bytes(text: Seq<char>) -> nat {
    utf8_len(text.take(lead_ws(text) as int))
}

/// `n`, capped at `usize::MAX`.
pub open spec fn sat(n: nat) -> nat {
    if n <= usize::MAX {
        n
    } else {
        usize::MAX as nat
    }
}

pub fn indent_width(text: &[char]) -> (n: usize)
    ensures
        n == sat(indent_bytes(text@)),
{
    let k = count_lead_ws(text);
    let lead = slice_of(text, 0, k);
    assert(lead@ == text@.take(k as int));
    byte_len(&lead)
}

// ---------------------------------------------------------------------------
// Setext underline
// ---------------------------------------------------------------------------
/// A setext underline: at most three leading spaces, then a run of `=`
/// (level 1) or `-` (level 2) and nothing else but surrounding whitespace.
pub open spec fn spec_setext(line: Seq<char>) -> Option<u8> {
    let indent = lead_run(line, ' ');
    let t = trim(line);
    if indent >= 4 || t.len() == 0 || (t[0] != '=' && t[0] != '-') || lead_run(t, t[0])
        != t.len() {
        None
    } else if t[0] == '=' {
        Some(1)
    } else {
        Some(2)
    }
}

pub fn try_setext_underline(line: &[char]) -> (r: Option<u8>)
    ensures
        r == spec_setext(line@),
{
    let indent = count_lead_run(line, ' ');
    if indent >= 4 {
        return None;
    }
    let t = trimmed(line);
    if t.len() == 0 {
        return None;
    }
    let first = t[0];
    if first != '=' && first != '-' {
        return None;
    }
    if count_lead_run(&t, first) != t.len() {
        return None;
    }
    Some(if first == '=' { 1 } else { 2 })
}

// ---------------------------------------------------------------------------
// ATX heading
// ---------------------------------------------------------------------------
/// `#`..`######` after at most three bytes of indentation, followed by a
/// space or the end of the line.
pub open spec fn spec_heading(text: Seq<char>) -> Option<u8> {
    let t = trim_start(text);
    let h = lead_run(t, '#');
    if indent_bytes(text) >= 4 {
        None
    } else if 1 <= h <= 6 && (h == t.len() || t[h as int] == ' ') {
        Some(h as u8)
    } else {
        None
    }
}

pub fn try_heading(text: &[char]) -> (r: Option<u8>)
    ensures
        r == spec_heading(text@),
        r matches Some(l) ==> 1 <= l <= 6,
{
    if indent_width(text) >= 4 {
        return None;
    }
    let t = trimmed_start(text);
    let h = count_lead_run(&t, '#');
    if 1 <= h && h <= 6 && (h == t.len() || t[h] == ' ') {
        Some(h as u8)
    } else {
        None
    }
}

// ---------------------------------------------------------------------------
// Code fence
// ---------------------------------------------------------------------------
/// A fence line: three or more backticks or tildes.  The result holds the
/// fence character, the fence length and the (trimmed) info string, which is
/// empty for a closing fence.
pub open spec fn spec_fence(t: Seq<char>) -> Option<(char, nat, Seq<char>)> {
    if t.len() == 0 || (t[0] != '`' && t[0] != '~') {
        None
    } else {
        let n = lead_run(t, t[0]);
        if n < 3 {
            None
        } else {
            Some((t[0], n, trim(t.skip(n as int))))
        }
    }
}

pub fn try_fence(t: &[char]) -> (r: Option<(char, usize, Vec<char>)>)
    ensures
        r matches Some((c, n, info)) ==> spec_fence(t@) == Some((c, n as nat, info@)),
        r is None ==> spec_fence(t@) is None,
{
    if t.len() == 0 || (t[0] != '`' && t[0] != '~') {
        return None;
    }
    let c = t[0];
    let n = count_lead_run(t, c);
    if n < 3 {
        return None;
    }
    let rest = skip(t, n);
    Some((c, n, trimmed(&rest)))
}

// ---------------------------------------------------------------------------
// HTML line
// ---------------------------------------------------------------------------
pub open spec fn is_tag_name_char(c: char) -> bool {
    is_ascii_alnum(c) || c == '-'
}

/// Number of tag-name characters at the start of `s`.
pub open spec fn lead_tag_name(s: Seq<char>) -> nat
    decreases s.len(),
{
    if s.len() > 0 && is_tag_name_char(s[0]) {
        1 + lead_tag_name(s.drop_first())
    } else {
        0
    }
}

pub proof fn lemma_lead_tag_name(s: Seq<char>, k: int)
    requires
        0 <= k <= s.len(),
        forall|i: int| 0 <= i < k ==> is_tag_name_char(#[trigger] s[i]),
        k == s.len() || !is_tag_name_char(s[k]),
    ensures
        lead_tag_name(s) == k,
    decreases k,
{
    if k > 0 {
        lemma_lead_tag_name(s.drop_first(), k - 1);
    }
}

/// `<name` or `</name` (name made of ASCII letters, digits and `-`); an
/// opening form followed by `://` or `@` is an autolink, not HTML.  The
/// result is whether the tag closes, and the tag name.
pub open spec fn spec_html(t: Seq<char>) -> Option<(bool, Seq<char>)> {
    if t.len() == 0 || t[0] != '<' {
        None
    } else {
        let rest = t.skip(1);
        let closing = rest.len() > 0 && rest[0] == '/';
        let start = if closing {
            rest.skip(1)
        } else {
            rest
        };
        let n = lead_tag_name(start);
        let after = start.skip(n as int);
        if n == 0 {
            None
        } else if !closing && (starts_with(after, "://"@) || (after.len() > 0 && after[0]
            == '@')) {
            None
        } else {
            Some((closing, start.take(n as int)))
        }
    }
}

pub fn try_html(t: &[char]) -> (r: Option<(bool, Vec<char>)>)
    ensures
        r matches Some((c, name)) ==> spec_html(t@) == Some((c, name@)),
        r is None ==> spec_html(t@) is None,
{
    if t.len() == 0 || t[0] != '<' {
        return None;
    }
    let rest = skip(t, 1);
    let closing = rest.len() > 0 && rest[0] == '/';
    let start = if closing {
        skip(&rest, 1)
    } else {
        rest
    };
    let mut n: usize = 0;
    while n < start.len() && (crate::text::ascii_alnum(start[n]) || start[n] == '-')
        invariant
            n <= start.len(),
            forall|i: int| 0 <= i < n ==> is_tag_name_char(#[trigger] start@[i]),
        decreases start.len() - n,
    {
        n += 1;
    }
    proof {
        lemma_lead_tag_name(start@, n as int);
    }
    if n == 0 {
        return None;
    }
    let after = skip(&start, n);
    if !closing && (has_prefix(&after, &chars_of("://")) || (after.len() > 0 && after[0] == '@')) {
        return None;
    }
    let name = slice_of(&start, 0, n);
    assert(name@ == start@.take(n as int));
    Some((closing, name))
}

// ---------------------------------------------------------------------------
// Horizontal rule
// ---------------------------------------------------------------------------
/// Three or more characters, the first `-`, `*` or `_`, every one of them that
/// character or a space.
pub open spec fn spec_hr(t: Seq<char>) -> bool {
    t.len() >= 3 && (t[0] == '-' || t[0] == '*' || t[0] == '_') && (forall|i: int|
        0 <= i < t.len() ==> #[trigger] t[i] == t[0] || t[i] == ' ')
}

pub fn is_horizontal_rule(t: &[char]) -> (b: bool)
    ensures
        b == spec_hr(t@),
{
    if t.len() < 3 {
        return false;
    }
    let first = t[0];
    if first != '-' && first != '*' && first != '_' {
        return false;
    }
    let mut i: usize = 0;
    while i < t.len()
        invariant
            i <= t.len(),
            first == t@[0],
            forall|j: int| 0 <= j < i ==> #[trigger] t@[j] == first || t@[j] == ' ',
        decreases t.len() - i,
    {
        if t[i] != first && t[i] != ' ' {
            return false;
        }
        i += 1;
    }
    true
}

// ---------------------------------------------------------------------------
// Callout
// ---------------------------------------------------------------------------
/// `> [!kind]` optionally followed by `[metadata]`.  The result holds the raw
/// kind and the trimmed metadata when it is non-empty.
pub open spec fn spec_callout_raw(t: Seq<char>) -> Option<(Seq<char>, Option<Seq<char>>)> {
    if t.len() == 0 || t[0] != '>' {
        None
    } else {
        let r = trim_start(t.skip(1));
        if !starts_with(r, "[!"@) {
            None
        } else {
            let r2 = r.skip(2);
            match find_char(r2, ']') {
                None => None,
                Some(end) => if end == 0 {
                    None
                } else {
                    let after = trim_start(r2.skip(end + 1 as int));
                    let meta = if after.len() > 0 && after[0] == '[' {
                        let m = after.skip(1);
                        match find_char(m, ']') {
                            Some(me) => if trim(m.take(me as int)).len() == 0 {
                                None
                            } else {
                                Some(trim(m.take(me as int)))
                            },
                            None => None,
                        }
                    } else {
                        None
                    };
                    Some((r2.take(end as int), meta))
                },
            }
        }
    }
}

pub fn try_callout(t: &[char]) -> (r: Option<(Vec<char>, Option<Vec<char>>)>)
    ensures
        r matches Some((k, m)) ==> spec_callout_raw(t@) matches Some((k2, m2)) && k@ == lowercase(
            k2,
        ) && (m matches Some(mm) ==> m2 == Some(mm@)) && (m is None ==> m2 is None),
        r is None ==> spec_callout_raw(t@) is None,
{
    if t.len() == 0 || t[0] != '>' {
        return None;
    }
    let r = trimmed_start(&skip(t, 1));
    if !has_prefix(&r, &chars_of("[!")) {
        return None;
    }
    proof {
        reveal_strlit("[!");
    }
    let r2 = skip(&r, 2);
    let end = match index_of(&r2, ']') {
        Some(e) => e,
        None => {
            return None;
        },
    };
    if end == 0 {
        return None;
    }
    let after = trimmed_start(&skip(&r2, end + 1));
    let mut meta: Option<Vec<char>> = None;
    if after.len() > 0 && after[0] == '[' {
        let m = skip(&after, 1);
        match index_of(&m, ']') {
            Some(me) => {
                let inner = slice_of(&m, 0, me);
                assert(inner@ == m@.take(me as int));
                let tm = trimmed(&inner);
                if tm.len() > 0 {
                    meta = Some(tm);
                }
            },
            None => {},
        }
    }
    let kind = slice_of(&r2, 0, end);
    assert(kind@ == r2@.take(end as int));
    Some((to_lower(&kind), meta))
}

// ---------------------------------------------------------------------------
// List item
// ---------------------------------------------------------------------------
/// Length of the number at the start of an ordered-list marker: the leading
/// digits, or zero when the line is nothing but digits.
pub open spec fn marker_digits(t: Seq<char>) -> nat {
    if lead_digits(t) == t.len() {
        0
    } else {
        lead_digits(t)
    }
}

/// `- `, `+ ` (any indent) or `* ` (indented) followed by content, or a number,
/// `. ` and content.  The result is the indent in bytes (capped at
/// `usize::MAX`) and whether the list is ordered.
pub open spec fn spec_list_item(text: Seq<char>) -> Option<(nat, bool)> {
    let indent = sat(indent_bytes(text));
    let t = trim_start(text);
    if (starts_with(t, "- "@) || starts_with(t, "+ "@)) && t.len() > 2 {
        Some((indent, false))
    } else if indent > 0 && starts_with(t, "* "@) && t.len() > 2 {
        Some((indent, false))
    } else {
        let d = marker_digits(t);
        if d > 0 && d < t.len() && starts_with(t.skip(d as int), ". "@) && t.len() - d > 2 {
            Some((indent, true))
        } else {
            None
        }
    }
}

pub fn try_list_item(text: &[char]) -> (r: Option<(usize, bool)>)
    ensures
        r matches Some((i, o)) ==> spec_list_item(text@) == Some((i as nat, o)),
        r is None ==> spec_list_item(text@) is None,
{
    let indent = indent_width(text);
    let t = trimmed_start(text);
    proof {
        reveal_strlit("- ");
        reveal_strlit("+ ");
        reveal_strlit("* ");
        reveal_strlit(". ");
    }
    if (has_prefix(&t, &chars_of("- ")) || has_prefix(&t, &chars_of("+ "))) && t.len() > 2 {
        return Some((indent, false));
    }
    if indent > 0 && has_prefix(&t, &chars_of("* ")) && t.len() > 2 {
        return Some((indent, false));
    }
    let ld = count_lead_digits(&t);
    let d = if ld == t.len() {
        0
    } else {
        ld
    };
    if d > 0 && d < t.len() {
        let after = skip(&t, d);
        if has_prefix(&after, &chars_of(". ")) && t.len() - d > 2 {
            return Some((indent, true));
        }
    }
    None
}

// ---------------------------------------------------------------------------
// Footnote and link definitions
// ---------------------------------------------------------------------------
/// `[^label]: ...` with a non-empty label free of spaces.
pub open spec fn spec_footnote_def(t: Seq<char>) -> Option<Seq<char>> {
    if !starts_with(t, "[^"@) {
        None
    } else {
        let rest = t.skip(2);
        match find_seq(rest, "]:"@) {
            None => None,
            Some(end) => {
                let label = rest.take(end as int);
                if label.len() == 0 || contains_char(label, ' ') {
                    None
                } else {
                    Some(label)
                }
            },
        }
    }
}

pub fn try_footnote_def(t: &[char]) -> (r: Option<Vec<char>>)
    ensures
        r matches Some(l) ==> spec_footnote_def(t@) == Some(l@),
        r is None ==> spec_footnote_def(t@) is None,
{
    if !has_prefix(t, &chars_of("[^")) {
        return None;
    }
    proof {
        reveal_strlit("[^");
    }
    let rest = skip(t, 2);
    match index_of_seq(&rest, &chars_of("]:")) {
        None => None,
        Some(end) => {
            let label = slice_of(&rest, 0, end);
            assert(label@ == rest@.take(end as int));
            if label.len() == 0 || has_char(&label, ' ') {
                None
            } else {
                Some(label)
            }
        },
    }
}

/// `[label]: destination` with a non-empty label not starting with `^` and a
/// space or tab after the colon.
pub open spec fn spec_link_def(t: Seq<char>) -> Option<Seq<char>> {
    if t.len() == 0 || t[0] != '[' {
        None
    } else {
        let rest = t.skip(1);
        if rest.len() > 0 && rest[0] == '^' {
            None
        } else {
            match find_seq(rest, "]:"@) {
                None => None,
                Some(end) => {
                    let label = rest.take(end as int);
                    let after = rest.skip(end + 2 as int);
                    if label.len() == 0 {
                        None
                    } else if after.len() == 0 || (after[0] != ' ' && after[0] != '\t') {
                        None
                    } else {
                        Some(label)
                    }
                },
            }
        }
    }
}

pub fn try_link_def(t: &[char]) -> (r: Option<Vec<char>>)
    ensures
        r matches Some(l) ==> spec_link_def(t@) == Some(l@),
        r is None ==> spec_link_def(t@) is None,
{
    if t.len() == 0 || t[0] != '[' {
        return None;
    }
    let rest = skip(t, 1);
    if rest.len() > 0 && rest[0] == '^' {
        return None;
    }
    proof {
        reveal_strlit("]:");
    }
    match index_of_seq(&rest, &chars_of("]:")) {
        None => None,
        Some(end) => {
            let label = slice_of(&rest, 0, end);
            assert(label@ == rest@.take(end as int));
            let after = skip(&rest, end + 2);
            if label.len() == 0 {
                None
            } else if after.len() == 0 || (after[0] != ' ' && after[0] != '\t') {
                None
            } else {
                Some(label)
            }
        },
    }
}

} // verus!

verus! {

// ---------------------------------------------------------------------------
// Block tags
// ---------------------------------------------------------------------------
pub open spec fn is_name_char(c: char) -> bool {
    crate::text::alnum_char(c) || c == '-' || c == '_'
}

/// Number of tag-name characters at the start of `s`.
pub open spec fn lead_name(s: Seq<char>) -> nat
    decreases s.len(),
{
    if s.len() > 0 && is_name_char(s[0]) {
        1 + lead_name(s.drop_first())
    } else {
        0
    }
}

pub proof fn lemma_lead_name(s: Seq<char>, k: int)
    requires
        0 <= k <= s.len(),
        forall|i: int| 0 <= i < k ==> is_name_char(#[trigger] s[i]),
        k == s.len() || !is_name_char(s[k]),
    ensures
        lead_name(s) == k,
    decreases k,
{
    if k > 0 {
        lemma_lead_name(s.drop_first(), k - 1);
    }
}

pub fn count_lead_name(s: &[char]) -> (n: usize)
    ensures
        n == lead_name(s@),
        n <= s.len(),
{
    let mut i: usize = 0;
    while i < s.len() && (crate::text::is_alphanumeric(s[i]) || s[i] == '-' || s[i] == '_')
        invariant
            i <= s.len(),
            forall|j: int| 0 <= j < i ==> is_name_char(#[trigger] s@[j]),
        decreases s.len() - i,
    {
        i += 1;
    }
    proof {
        lemma_lead_name(s@, i as int);
    }
    i
}

/// `#name [arg]` where `name` starts with a letter, digit or `_`: the name
/// (letters, digits, `-`, `_`) and the trimmed argument.
pub open spec fn spec_block_tag(t: Seq<char>) -> Option<(Seq<char>, Seq<char>)> {
    if t.len() < 2 || t[0] != '#' || t[1] == ' ' {
        None
    } else {
        let rest = t.skip(1);
        if !(crate::text::alnum_char(rest[0]) || rest[0] == '_') {
            None
        } else {
            let n = lead_name(rest);
            Some((rest.take(n as int), trim(rest.skip(n as int))))
        }
    }
}

pub fn try_block_tag(t: &[char]) -> (r: Option<(Vec<char>, Vec<char>)>)
    ensures
        r matches Some((n, a)) ==> spec_block_tag(t@) == Some((n@, a@)),
        r is None ==> spec_block_tag(t@) is None,
{
    if t.len() < 2 || t[0] != '#' || t[1] == ' ' {
        return None;
    }
    let rest = skip(t, 1);
    if !(crate::text::is_alphanumeric(rest[0]) || rest[0] == '_') {
        return None;
    }
    let n = count_lead_name(&rest);
    let name = slice_of(&rest, 0, n);
    assert(name@ == rest@.take(n as int));
    let arg = trimmed(&skip(&rest, n));
    Some((name, arg))
}

} // verus!
