//! Refiling: moving a heading's subtree to another place, in the same file
//! or in another one.
//!
//! A place is written `file:line` (a 1-based line number), `file::heading`
//! (the first heading whose text contains `heading`, case-insensitively) or
//! `file` (its end).

use vstd::prelude::*;

use crate::ast::{segs_text, Block};
use crate::text::{
    all_digits, append_chars, are_digits, chars_of, digits_value, find_seq, index_of_seq,
    lead_run, lowercase, parse_digits, skip, slice_of, starts_with, string_of, to_lower, trim,
    trim_start, trimmed, trimmed_start, decimal, decimal_chars,
};
use crate::words::{join_with, joined_with, views};

verus! {

/// Where in a file a refile reads or writes.
#[derive(Debug, Clone, PartialEq, Eq)]
pub enum LocationSpec {
    /// A 1-based line number.
    Line(u32),
    /// The first heading whose text contains this, case-insensitively.
    Heading(String),
    /// The end of the file.
    End,
}

/// A place, by its view.
pub enum LocationView {
    Line(nat),
    Heading(Seq<char>),
    End,
}

pub open spec fn location_view(l: LocationSpec) -> LocationView {
    match l {
        LocationSpec::Line(n) => LocationView::Line(n as nat),
        LocationSpec::Heading(h) => LocationView::Heading(h@),
        LocationSpec::End => LocationView::End,
    }
}

/// The index of the last `c` in `s`.
pub open spec fn last_index(s: Seq<char>, c: char) -> Option<int>
    decreases s.len(),
{
    if s.len() == 0 {
        None
    } else if s.last() == c {
        Some(s.len() - 1)
    } else {
        last_index(s.drop_last(), c)
    }
}

/// The line number after the last `:` of a place, when it is all digits.
pub open spec fn line_part(s: Seq<char>) -> Option<(Seq<char>, Seq<char>)> {
    match last_index(s, ':') {
        Some(k) => {
            let digits = s.skip(k + 1);
            if digits.len() > 0 && all_digits(digits) {
                Some((s.take(k), digits))
            } else {
                None
            }
        },
        None => None,
    }
}

/// A place parsed: `Err` holds the message for a line number too large
/// for a `u32`.
pub open spec fn parsed_spec(s: Seq<char>) -> Result<(Seq<char>, LocationView), Seq<char>> {
    match line_part(s) {
        Some((file, digits)) => if digits_value(digits) <= u32::MAX {
            Ok((file, LocationView::Line(digits_value(digits))))
        } else {
            Err("invalid line number: "@ + digits)
        },
        None => match find_seq(s, "::"@) {
            Some(m) => if m + 2 == s.len() {
                Ok((s.take(m as int), LocationView::End))
            } else {
                Ok((s.take(m as int), LocationView::Heading(s.skip(m + 2int))))
            },
            None => Ok((s, LocationView::End)),
        },
    }
}

fn last_colon(s: &Vec<char>) -> (r: Option<usize>)
    ensures
        r matches Some(k) ==> last_index(s@, ':') == Some(k as int) && k < s@.len(),
        r is None ==> last_index(s@, ':') is None,
{
    let mut i = s.len();
    assert(s@.take(s@.len() as int) =~= s@);
    while i > 0 && s[i - 1] != ':'
        invariant
            i <= s@.len(),
            last_index(s@.take(i as int), ':') == last_index(s@, ':'),
        decreases i,
    {
        assert(s@.take(i as int).drop_last() =~= s@.take(i - 1));
        i -= 1;
    }
    if i == 0 {
        None
    } else {
        assert(s@.take(i as int).last() == ':');
        Some(i - 1)
    }
}

/// Parses a place: `file:line`, `file::heading` or `file`.
pub fn parse_spec(spec: &str) -> (r: Result<(String, LocationSpec), String>)
    ensures
        match r {
            Ok((f, l)) => parsed_spec(spec@) == Ok::<(Seq<char>, LocationView), Seq<char>>(
                (f@, location_view(l)),
            ),
            Err(e) => parsed_spec(spec@) == Err::<(Seq<char>, LocationView), Seq<char>>(e@),
        },
{
    let s = chars_of(spec);
    proof {
        reveal_strlit("::");
    }
    let n = s.len();
    if let Some(k) = last_colon(&s) {
        assert(k < n);
        let digits = skip(&s, k + 1);
        if digits.len() > 0 && are_digits(&digits) {
            let file = slice_of(&s, 0, k);
            return match parse_digits(&digits) {
                Some(v) => {
                    if v <= 0xffff_ffffu64 {
                        Ok((string_of(&file), LocationSpec::Line(v as u32)))
                    } else {
                        let mut msg = chars_of("invalid line number: ");
                        proof {
                            reveal_strlit("invalid line number: ");
                        }
                        append_chars(&mut msg, &digits);
                        Err(string_of(&msg))
                    }
                },
                None => {
                    let mut msg = chars_of("invalid line number: ");
                    proof {
                        reveal_strlit("invalid line number: ");
                    }
                    append_chars(&mut msg, &digits);
                    Err(string_of(&msg))
                },
            };
        }
    }
    let sep = chars_of("::");
    match index_of_seq(&s, &sep) {
        Some(m) => {
            let file = slice_of(&s, 0, m);
            if m + 2 == s.len() {
                Ok((string_of(&file), LocationSpec::End))
            } else {
                Ok((string_of(&file), LocationSpec::Heading(string_of(&skip(&s, m + 2)))))
            }
        },
        None => Ok((string_of(&s), LocationSpec::End)),
    }
}

/// Whether a (left-trimmed) line reads as a heading: `#`, then a space or
/// another `#`.
pub open spec fn heading_like(t: Seq<char>) -> bool {
    t.len() >= 2 && t[0] == '#' && (t[1] == ' ' || t[1] == '#')
}

/// The 0-based line of a 1-based line number.
pub open spec fn line_index(n: nat) -> nat {
    if n == 0 {
        0
    } else {
        (n - 1) as nat
    }
}

/// Whether the text of the heading `h` contains `needle` (both lowercased).
pub open spec fn heading_matches(b: Block, needle: Seq<char>) -> bool {
    b matches Block::Heading(h) && find_seq(lowercase(trim(segs_text(h.content.segments@))), lowercase(needle)) is Some
}

/// The position of the first top-level heading that matches.
pub open spec fn first_match(bs: Seq<Block>, needle: Seq<char>) -> Option<int> {
    if exists|i: int| 0 <= i < bs.len() && #[trigger] heading_matches(bs[i], needle) {
        Some(choose|i: int| 0 <= i < bs.len() && #[trigger] heading_matches(bs[i], needle)
            && forall|j: int| 0 <= j < i ==> !#[trigger] heading_matches(bs[j], needle))
    } else {
        None
    }
}

/// Whether `i` is the first position at which a heading matches.
pub open spec fn is_first_match(bs: Seq<Block>, needle: Seq<char>, i: int) -> bool {
    &&& 0 <= i < bs.len()
    &&& heading_matches(bs[i], needle)
    &&& forall|j: int| 0 <= j < i ==> !#[trigger] heading_matches(bs[j], needle)
}

/// The 0-based line of the heading at position `i`.
pub open spec fn heading_line0(b: Block) -> nat {
    match b {
        Block::Heading(h) => line_index(h.span.line as nat),
        _ => 0,
    }
}

/// Finds the first top-level heading whose text contains `needle`.
fn find_matching_heading(blocks: &Vec<Block>, needle: &Vec<char>) -> (r: Option<usize>)
    ensures
        r matches Some(i) ==> is_first_match(blocks@, needle@, i as int),
        r is None ==> forall|j: int| 0 <= j < blocks@.len() ==> !#[trigger] heading_matches(blocks@[j], needle@),
{
    let lower = to_lower(needle);
    let mut i: usize = 0;
    while i < blocks.len()
        invariant
            i <= blocks@.len(),
            lower@ == lowercase(needle@),
            forall|j: int| 0 <= j < i ==> !#[trigger] heading_matches(blocks@[j], needle@),
        decreases blocks@.len() - i,
    {
        match &blocks[i] {
            Block::Heading(h) => {
                let text = chars_of(h.content.plain_text().as_str());
                let lt = to_lower(&text);
                if index_of_seq(&lt, &lower).is_some() {
                    return Some(i);
                }
            },
            _ => {},
        }
        i += 1;
    }
    None
}

/// What `find_heading` answers, by the view of the place.
pub open spec fn heading_found(
    bs: Seq<Block>,
    loc: LocationView,
    lines: Seq<Seq<char>>,
) -> Result<nat, Seq<char>> {
    match loc {
        LocationView::Line(n) => {
            let idx = line_index(n);
            if idx >= lines.len() {
                Err("line "@ + decimal(n) + " is past end of file"@)
            } else if !heading_like(trim_start(lines[idx as int])) {
                Err("line "@ + decimal(n) + " is not a heading: "@ + trim(lines[idx as int]))
            } else {
                Ok(idx)
            }
        },
        LocationView::Heading(text) => {
            if exists|i: int| is_first_match(bs, text, i) {
                Ok(heading_line0(bs[choose|i: int| is_first_match(bs, text, i)]))
            } else {
                Err("heading matching \""@ + text + "\" not found"@)
            }
        },
        LocationView::End => Err("source must specify a heading, not end of file"@),
    }
}

proof fn lemma_first_match_unique(bs: Seq<Block>, needle: Seq<char>, i: int, j: int)
    requires
        is_first_match(bs, needle, i),
        is_first_match(bs, needle, j),
    ensures
        i == j,
{
    if i < j {
        assert(!heading_matches(bs[i], needle));
    } else if j < i {
        assert(!heading_matches(bs[j], needle));
    }
}

fn line_number_text(n: u32) -> (r: Vec<char>)
    ensures
        r@ == "line "@ + decimal(n as nat),
{
    let mut r = chars_of("line ");
    append_chars(&mut r, &decimal_chars(n as u64));
    r
}

/// Finds the 0-based line of the heading a source place names.
pub fn find_heading(blocks: &Vec<Block>, loc: &LocationSpec, lines: &Vec<Vec<char>>) -> (r: Result<
    usize,
    String,
>)
    ensures
        match r {
            Ok(i) => heading_found(blocks@, location_view(*loc), views(lines@)) == Ok::<
                nat,
                Seq<char>,
            >(i as nat),
            Err(e) => heading_found(blocks@, location_view(*loc), views(lines@)) == Err::<
                nat,
                Seq<char>,
            >(e@),
        },
{
    proof {
        reveal_strlit("line ");
        reveal_strlit(" is past end of file");
        reveal_strlit(" is not a heading: ");
        reveal_strlit("heading matching \"");
        reveal_strlit("\" not found");
    }
    match loc {
        LocationSpec::Line(n) => {
            let idx: usize = if *n == 0 {
                0
            } else {
                (*n - 1) as usize
            };
            if idx >= lines.len() {
                let mut msg = line_number_text(*n);
                append_chars(&mut msg, &chars_of(" is past end of file"));
                return Err(string_of(&msg));
            }
            assert(views(lines@)[idx as int] == lines@[idx as int]@);
            let t = trimmed_start(&lines[idx]);
            if !(t.len() >= 2 && t[0] == '#' && (t[1] == ' ' || t[1] == '#')) {
                let mut msg = line_number_text(*n);
                append_chars(&mut msg, &chars_of(" is not a heading: "));
                append_chars(&mut msg, &trimmed(&lines[idx]));
                return Err(string_of(&msg));
            }
            Ok(idx)
        },
        LocationSpec::Heading(text) => {
            let needle = chars_of(text.as_str());
            match find_matching_heading(blocks, &needle) {
                Some(i) => {
                    proof {
                        let c = choose|k: int| is_first_match(blocks@, text@, k);
                        lemma_first_match_unique(blocks@, text@, c, i as int);
                    }
                    match &blocks[i] {
                        Block::Heading(h) => Ok(
                            if h.span.line == 0 {
                                0
                            } else {
                                (h.span.line - 1) as usize
                            },
                        ),
                        _ => Ok(0),
                    }
                },
                None => {
                    let mut msg = chars_of("heading matching \"");
                    append_chars(&mut msg, &needle);
                    append_chars(&mut msg, &chars_of("\" not found"));
                    Err(string_of(&msg))
                },
            }
        },
        LocationSpec::End => {
            proof {
                reveal_strlit("source must specify a heading, not end of file");
            }
            Err("source must specify a heading, not end of file".to_string())
        },
    }
}

/// The number of `#` that open a (left-trimmed) heading line, as a `u8`
/// (wrapping, as the count is cast).
pub fn detect_heading_level(line: &str) -> (r: u8)
    ensures
        r as nat == lead_run(trim_start(line@), '#') % 256,
{
    let t = trimmed_start(&chars_of(line));
    let n = crate::text::count_lead_run(&t, '#');
    (n % 256) as u8
}

/// The end (0-based, exclusive) of the subtree of the heading of `level`
/// on line `start`: the line of the next heading, after that one, at the
/// same or a higher level, or `total`.
pub open spec fn refile_subtree_end(
    bs: Seq<Block>,
    level: u8,
    start: nat,
    j: int,
    found: bool,
    total: nat,
) -> nat
    decreases bs.len() - j,
{
    if j < 0 || j >= bs.len() {
        total
    } else {
        match bs[j] {
            Block::Heading(h) => {
                let l0 = line_index(h.span.line as nat);
                if l0 == start {
                    refile_subtree_end(bs, level, start, j + 1, true, total)
                } else if found && h.level <= level {
                    l0
                } else {
                    refile_subtree_end(bs, level, start, j + 1, found, total)
                }
            },
            _ => refile_subtree_end(bs, level, start, j + 1, found, total),
        }
    }
}

/// The end (0-based, exclusive) of the subtree of the heading of `level`
/// on line `start`.
pub fn find_subtree_end(level: u8, start: usize, blocks: &Vec<Block>, total: usize) -> (r: usize)
    ensures
        r as nat == refile_subtree_end(blocks@, level, start as nat, 0, false, total as nat),
{
    let mut found = false;
    let mut j: usize = 0;
    while j < blocks.len()
        invariant
            j <= blocks@.len(),
            refile_subtree_end(blocks@, level, start as nat, j as int, found, total as nat)
                == refile_subtree_end(blocks@, level, start as nat, 0, false, total as nat),
        decreases blocks@.len() - j,
    {
        match &blocks[j] {
            Block::Heading(h) => {
                let l0: usize = if h.span.line == 0 {
                    0
                } else {
                    (h.span.line - 1) as usize
                };
                if l0 == start {
                    found = true;
                } else if found && h.level <= level {
                    return l0;
                }
            },
            _ => {},
        }
        j += 1;
    }
    total
}

/// What `find_heading_insert_point` answers.
pub open spec fn insert_point(bs: Seq<Block>, text: Seq<char>, total: nat) -> Result<
    nat,
    Seq<char>,
> {
    if exists|i: int| is_first_match(bs, text, i) {
        let b = bs[choose|i: int| is_first_match(bs, text, i)];
        Ok(refile_subtree_end(bs, b->Heading_0.level, heading_line0(b), 0, false, total))
    } else {
        Err("target heading matching \""@ + text + "\" not found"@)
    }
}

/// The line (0-based) at the end of the subtree of the first heading whose
/// text contains `heading_text`.
pub fn find_heading_insert_point(blocks: &Vec<Block>, heading_text: &str, total: usize) -> (r:
    Result<usize, String>)
    ensures
        match r {
            Ok(i) => insert_point(blocks@, heading_text@, total as nat) == Ok::<nat, Seq<char>>(
                i as nat,
            ),
            Err(e) => insert_point(blocks@, heading_text@, total as nat) == Err::<
                nat,
                Seq<char>,
            >(e@),
        },
{
    let needle = chars_of(heading_text);
    match find_matching_heading(blocks, &needle) {
        Some(i) => {
            proof {
                let c = choose|k: int| is_first_match(blocks@, heading_text@, k);
                lemma_first_match_unique(blocks@, heading_text@, c, i as int);
            }
            match &blocks[i] {
                Block::Heading(h) => {
                    let l0: usize = if h.span.line == 0 {
                        0
                    } else {
                        (h.span.line - 1) as usize
                    };
                    Ok(find_subtree_end(h.level, l0, blocks, total))
                },
                _ => Ok(0),
            }
        },
        None => {
            proof {
                reveal_strlit("target heading matching \"");
                reveal_strlit("\" not found");
            }
            let mut msg = chars_of("target heading matching \"");
            append_chars(&mut msg, &needle);
            append_chars(&mut msg, &chars_of("\" not found"));
            Err(string_of(&msg))
        },
    }
}

/// Where a target place puts a subtree, in a text of `total` lines.
pub open spec fn insert_line_of(bs: Seq<Block>, loc: LocationView, total: nat) -> Result<
    nat,
    Seq<char>,
> {
    match loc {
        LocationView::End => Ok(total),
        LocationView::Line(n) => Ok(if line_index(n) < total {
            line_index(n)
        } else {
            total
        }),
        LocationView::Heading(h) => insert_point(bs, h, total),
    }
}

/// Where a target place puts a subtree, in a text of `total` lines.
pub fn target_insert_line(blocks: &Vec<Block>, loc: &LocationSpec, total: usize) -> (r: Result<
    usize,
    String,
>)
    ensures
        match r {
            Ok(i) => insert_line_of(blocks@, location_view(*loc), total as nat) == Ok::<
                nat,
                Seq<char>,
            >(i as nat),
            Err(e) => insert_line_of(blocks@, location_view(*loc), total as nat) == Err::<
                nat,
                Seq<char>,
            >(e@),
        },
{
    match loc {
        LocationSpec::End => Ok(total),
        LocationSpec::Line(n) => {
            let idx: usize = if *n == 0 {
                0
            } else {
                (*n - 1) as usize
            };
            Ok(
                if idx < total {
                    idx
                } else {
                    total
                },
            )
        },
        LocationSpec::Heading(h) => find_heading_insert_point(blocks, h.as_str(), total),
    }
}

/// `ls` with a blank line and then `block` put in before line `at` (at the
/// end when `at` is past it).
pub open spec fn spliced(ls: Seq<Seq<char>>, at: int, block: Seq<Seq<char>>) -> Seq<Seq<char>> {
    let k = if at < ls.len() {
        at
    } else {
        ls.len() as int
    };
    ls.take(k) + seq![Seq::<char>::empty()] + block + ls.skip(k)
}

/// `ls` without the lines `lo..hi`.
pub open spec fn without(ls: Seq<Seq<char>>, lo: int, hi: int) -> Seq<Seq<char>> {
    ls.take(lo) + ls.skip(hi)
}

fn copy_line(v: &Vec<char>) -> (r: Vec<char>)
    ensures
        r@ == v@,
{
    let r = slice_of(v, 0, v.len());
    assert(v@.subrange(0, v@.len() as int) =~= v@);
    r
}

fn push_lines(out: &mut Vec<Vec<char>>, lines: &Vec<Vec<char>>, lo: usize, hi: usize)
    requires
        lo <= hi <= lines@.len(),
    ensures
        views(final(out)@) == views(old(out)@) + views(lines@).subrange(lo as int, hi as int),
{
    let ghost start = views(out@);
    let mut k = lo;
    while k < hi
        invariant
            lo <= k <= hi <= lines@.len(),
            views(out@) == start + views(lines@).subrange(lo as int, k as int),
        decreases hi - k,
    {
        let ghost before = views(out@);
        out.push(copy_line(&lines[k]));
        assert(views(out@) =~= before.push(lines@[k as int]@));
        assert(views(lines@).subrange(lo as int, k + 1) =~= views(lines@).subrange(
            lo as int,
            k as int,
        ).push(lines@[k as int]@));
        k += 1;
    }
}

fn splice_lines(ls: &Vec<Vec<char>>, at: usize, block: &Vec<Vec<char>>) -> (r: Vec<Vec<char>>)
    ensures
        views(r@) == spliced(views(ls@), at as int, views(block@)),
{
    let k = if at < ls.len() {
        at
    } else {
        ls.len()
    };
    let mut out: Vec<Vec<char>> = Vec::new();
    push_lines(&mut out, ls, 0, k);
    let ghost before = views(out@);
    out.push(Vec::new());
    assert(views(out@) =~= before.push(Seq::<char>::empty()));
    push_lines(&mut out, block, 0, block.len());
    push_lines(&mut out, ls, k, ls.len());
    assert(views(block@).subrange(0, block@.len() as int) =~= views(block@));
    assert(views(ls@).subrange(0, k as int) =~= views(ls@).take(k as int));
    assert(views(ls@).subrange(k as int, ls@.len() as int) =~= views(ls@).skip(k as int));
    assert(views(out@) =~= spliced(views(ls@), at as int, views(block@)));
    out
}

/// The text of `lines` without the subtree on lines `start..end`.
pub fn remove_subtree(lines: &Vec<Vec<char>>, start: usize, end: usize) -> (r: String)
    requires
        start <= end <= lines@.len(),
    ensures
        r@ == joined_with(without(views(lines@), start as int, end as int), '\n'),
{
    let mut out: Vec<Vec<char>> = Vec::new();
    push_lines(&mut out, lines, 0, start);
    push_lines(&mut out, lines, end, lines.len());
    assert(views(lines@).subrange(0, start as int) =~= views(lines@).take(start as int));
    assert(views(lines@).subrange(end as int, lines@.len() as int) =~= views(lines@).skip(
        end as int,
    ));
    assert(views(out@) =~= without(views(lines@), start as int, end as int));
    string_of(&join_with(&out, '\n'))
}

/// The text of `target` with a blank line and the subtree `lines[start..end]`
/// put in before line `at`.
pub fn insert_subtree(target: &Vec<Vec<char>>, at: usize, lines: &Vec<Vec<char>>, start: usize, end: usize) -> (r: String)
    requires
        start <= end <= lines@.len(),
    ensures
        r@ == joined_with(
            spliced(views(target@), at as int, views(lines@).subrange(start as int, end as int)),
            '\n',
        ),
{
    let mut block: Vec<Vec<char>> = Vec::new();
    push_lines(&mut block, lines, start, end);
    assert(views(block@) =~= views(lines@).subrange(start as int, end as int));
    let out = splice_lines(target, at, &block);
    string_of(&join_with(&out, '\n'))
}

/// Where a subtree lands in its own file once it is taken out: the target
/// line, moved up by the subtree's length when it lies after the subtree.
pub open spec fn adjusted_line(at: int, start: int, end: int) -> int {
    if at > start {
        at - (end - start)
    } else {
        at
    }
}

/// The text of `lines` with the subtree on lines `start..end` moved, after
/// a blank line, to line `at` of the text that remains.
pub fn move_subtree(lines: &Vec<Vec<char>>, start: usize, end: usize, at: usize) -> (r: String)
    requires
        start < end <= lines@.len(),
        at > start ==> at >= end - start,
    ensures
        r@ == joined_with(
            spliced(
                without(views(lines@), start as int, end as int),
                adjusted_line(at as int, start as int, end as int),
                views(lines@).subrange(start as int, end as int),
            ),
            '\n',
        ),
{
    let adjusted = if at > start {
        at - (end - start)
    } else {
        at
    };
    let mut rest: Vec<Vec<char>> = Vec::new();
    push_lines(&mut rest, lines, 0, start);
    push_lines(&mut rest, lines, end, lines.len());
    assert(views(lines@).subrange(0, start as int) =~= views(lines@).take(start as int));
    assert(views(lines@).subrange(end as int, lines@.len() as int) =~= views(lines@).skip(
        end as int,
    ));
    assert(views(rest@) =~= without(views(lines@), start as int, end as int));
    let mut block: Vec<Vec<char>> = Vec::new();
    push_lines(&mut block, lines, start, end);
    assert(views(block@) =~= views(lines@).subrange(start as int, end as int));
    let out = splice_lines(&rest, adjusted, &block);
    string_of(&join_with(&out, '\n'))
}

} // verus!
