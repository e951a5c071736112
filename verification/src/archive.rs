//! Archiving: moving the subtrees of headings marked `#archive` to an
//! archive file.

use vstd::prelude::*;

use crate::ast::{segs_tags, Block, Heading};
use crate::tags::TagKind;
use crate::text::{append_chars, chars_of, ends_with, string_of};
use crate::paths::{ext_dot, file_name_start};
use crate::words::{split_char, split_on, views};

verus! {

/// The 0-based index of a 1-based line number.
pub open spec fn line0(line: u32) -> int {
    if line == 0 {
        0
    } else {
        line - 1
    }
}

/// Whether a heading carries `#archive` among its own tags.
pub open spec fn tagged_archive(h: Heading) -> bool {
    exists|i: int|
        0 <= i < segs_tags(h.content.segments@).len() && segs_tags(h.content.segments@)[i].kind is Archive
}

/// Whether an `#archive` block tag follows position `j`, with only blank
/// lines and other block tags before it.
pub open spec fn archive_tag_from(bs: Seq<Block>, j: int) -> bool
    decreases bs.len() - j,
{
    if j < 0 || j >= bs.len() {
        false
    } else {
        match bs[j] {
            Block::BlockTag(t) => if t.kind is Archive {
                true
            } else {
                false
            },
            Block::BlankLine(_) => archive_tag_from(bs, j + 1),
            _ => false,
        }
    }
}

/// Whether the heading at position `i` is archived: by its own tag, or by
/// an `#archive` block tag right below it.
pub open spec fn archived_at(bs: Seq<Block>, i: int) -> bool {
    bs[i] matches Block::Heading(h) && (tagged_archive(h) || archive_tag_from(bs, i + 1))
}

/// The line (0-based, exclusive) where the subtree of a heading of `level`
/// at position `i` ends: the next heading at the same or a higher level,
/// or the end of the text.
pub open spec fn subtree_end_from(bs: Seq<Block>, level: u8, j: int, total: int) -> int
    decreases bs.len() - j,
{
    if j < 0 || j >= bs.len() {
        total
    } else {
        match bs[j] {
            Block::Heading(h) => if h.level <= level {
                line0(h.span.line)
            } else {
                subtree_end_from(bs, level, j + 1, total)
            },
            _ => subtree_end_from(bs, level, j + 1, total),
        }
    }
}

/// The line ranges of the archived subtrees among the top-level blocks.
pub open spec fn archived_ranges(bs: Seq<Block>, total: int) -> Seq<(int, int)>
    decreases bs.len(),
{
    archived_ranges_upto(bs, bs.len() as int, total)
}

pub open spec fn archived_ranges_upto(bs: Seq<Block>, n: int, total: int) -> Seq<(int, int)>
    decreases n,
{
    if n <= 0 {
        Seq::empty()
    } else {
        let rest = archived_ranges_upto(bs, n - 1, total);
        if n - 1 < bs.len() && archived_at(bs, n - 1) {
            match bs[n - 1] {
                Block::Heading(h) => rest.push(
                    (line0(h.span.line), subtree_end_from(bs, h.level, n, total)),
                ),
                _ => rest,
            }
        } else {
            rest
        }
    }
}

fn has_archive_tag(h: &Heading) -> (b: bool)
    ensures
        b == tagged_archive(*h),
{
    let tags = h.content.tags();
    let mut i: usize = 0;
    while i < tags.len()
        invariant
            i <= tags@.len(),
            tags@.len() == segs_tags(h.content.segments@).len(),
            forall|k: int|
                0 <= k < tags@.len() ==> *(#[trigger] tags@[k]) == segs_tags(h.content.segments@)[k],
            forall|k: int| 0 <= k < i ==> !(segs_tags(h.content.segments@)[k].kind is Archive),
        decreases tags@.len() - i,
    {
        match tags[i].kind {
            TagKind::Archive => {
                return true;
            },
            _ => {},
        }
        i += 1;
    }
    false
}

/// Whether the heading at position `idx` is archived.
pub fn is_archived_heading(blocks: &Vec<Block>, idx: usize) -> (b: bool)
    requires
        idx < blocks@.len(),
        blocks@[idx as int] is Heading,
    ensures
        b == archived_at(blocks@, idx as int),
{
    let tagged = match &blocks[idx] {
        Block::Heading(h) => has_archive_tag(h),
        _ => false,
    };
    if tagged {
        return true;
    }
    let n = blocks.len();
    let mut j = idx + 1;
    while j < n
        invariant
            n == blocks@.len(),
            idx < j <= blocks@.len(),
            !tagged_archive(blocks@[idx as int]->Heading_0),
            blocks@[idx as int] is Heading,
            archive_tag_from(blocks@, j as int) == archive_tag_from(blocks@, idx + 1),
        decreases blocks@.len() - j,
    {
        match &blocks[j] {
            Block::BlockTag(t) => {
                return match t.kind {
                    TagKind::Archive => true,
                    _ => false,
                };
            },
            Block::BlankLine(_) => {},
            _ => {
                return false;
            },
        }
        j += 1;
    }
    false
}

/// The line (0-based, exclusive) where the subtree of a heading of `level`
/// at position `idx` ends.
pub fn find_subtree_end(level: u8, blocks: &Vec<Block>, idx: usize, total: usize) -> (r: usize)
    requires
        idx < blocks@.len(),
    ensures
        r as int == subtree_end_from(blocks@, level, idx + 1, total as int),
{
    let n = blocks.len();
    let mut j = idx + 1;
    while j < n
        invariant
            n == blocks@.len(),
            idx < j <= blocks@.len(),
            subtree_end_from(blocks@, level, j as int, total as int) == subtree_end_from(
                blocks@,
                level,
                idx + 1,
                total as int,
            ),
        decreases blocks@.len() - j,
    {
        match &blocks[j] {
            Block::Heading(h) => {
                if h.level <= level {
                    return if h.span.line == 0 {
                        0
                    } else {
                        (h.span.line - 1) as usize
                    };
                }
            },
            _ => {},
        }
        j += 1;
    }
    total
}

/// The line ranges (0-based, end exclusive) of the archived subtrees.
pub fn find_archived_ranges(blocks: &Vec<Block>, total: usize) -> (r: Vec<(usize, usize)>)
    ensures
        r@.map_values(|p: (usize, usize)| (p.0 as int, p.1 as int)) == archived_ranges(
            blocks@,
            total as int,
        ),
{
    let mut out: Vec<(usize, usize)> = Vec::new();
    let mut i: usize = 0;
    while i < blocks.len()
        invariant
            i <= blocks@.len(),
            out@.map_values(|p: (usize, usize)| (p.0 as int, p.1 as int)) == archived_ranges_upto(
                blocks@,
                i as int,
                total as int,
            ),
        decreases blocks@.len() - i,
    {
        let ghost o = out@.map_values(|p: (usize, usize)| (p.0 as int, p.1 as int));
        match &blocks[i] {
            Block::Heading(h) => {
                if is_archived_heading(blocks, i) {
                    let start = if h.span.line == 0 {
                        0
                    } else {
                        (h.span.line - 1) as usize
                    };
                    let end = find_subtree_end(h.level, blocks, i, total);
                    out.push((start, end));
                    assert(out@.map_values(|p: (usize, usize)| (p.0 as int, p.1 as int)) =~= o.push(
                        (start as int, end as int),
                    ));
                }
            },
            _ => {},
        }
        i += 1;
    }
    out
}

/// Whether line `k` lies in one of the ranges.
pub open spec fn in_ranges(rs: Seq<(int, int)>, k: int) -> bool {
    exists|r: int| 0 <= r < rs.len() && #[trigger] in_range(rs[r], k)
}

/// Whether line `k` lies in the range `p`.
pub open spec fn in_range(p: (int, int), k: int) -> bool {
    p.0 <= k < p.1
}

/// The lines kept, each followed by a newline.
pub open spec fn kept_text(ls: Seq<Seq<char>>, rs: Seq<(int, int)>) -> Seq<char>
    decreases ls.len(),
{
    if ls.len() == 0 {
        Seq::empty()
    } else {
        kept_text(ls.drop_last(), rs) + if in_ranges(rs, ls.len() - 1) {
            Seq::empty()
        } else {
            ls.last() + seq!['\n']
        }
    }
}

/// `s` with newlines removed from its end until it ends with at most two.
pub open spec fn at_most_two_newlines(s: Seq<char>) -> Seq<char>
    decreases s.len(),
{
    if s.len() > 0 && ends_with(s, "\n\n\n"@) {
        at_most_two_newlines(s.drop_last())
    } else {
        s
    }
}

/// The lines `lo..hi` that exist, each followed by a newline.
pub open spec fn range_text(ls: Seq<Seq<char>>, lo: int, hi: int) -> Seq<char>
    decreases hi - lo,
{
    if lo >= hi {
        Seq::empty()
    } else {
        range_text(ls, lo, hi - 1) + if 0 <= hi - 1 < ls.len() {
            ls[hi - 1] + seq!['\n']
        } else {
            Seq::empty()
        }
    }
}

/// The archived text: the lines of each range, each range followed by a
/// blank line.
pub open spec fn archived_text(ls: Seq<Seq<char>>, rs: Seq<(int, int)>) -> Seq<char>
    decreases rs.len(),
{
    if rs.len() == 0 {
        Seq::empty()
    } else {
        archived_text(ls, rs.drop_last()) + range_text(ls, rs.last().0, rs.last().1) + seq!['\n']
    }
}

/// Splits a source text (at `\n`) into the archived text and the text that
/// remains.
pub fn split_archived(source: &str, ranges: &Vec<(usize, usize)>) -> (r: (String, String))
    ensures
        ({
            let ls = split_on(source@, '\n');
            let rs = ranges@.map_values(|p: (usize, usize)| (p.0 as int, p.1 as int));
            &&& r.0@ == archived_text(ls, rs)
            &&& r.1@ == at_most_two_newlines(kept_text(ls, rs))
        }),
{
    let lines = split_char(&chars_of(source), '\n');
    let ghost ls = views(lines@);
    let ghost rs = ranges@.map_values(|p: (usize, usize)| (p.0 as int, p.1 as int));
    let mut archived: Vec<char> = Vec::new();
    let mut r: usize = 0;
    while r < ranges.len()
        invariant
            r <= ranges@.len(),
            ls == views(lines@),
            rs == ranges@.map_values(|p: (usize, usize)| (p.0 as int, p.1 as int)),
            archived@ == archived_text(ls, rs.take(r as int)),
        decreases ranges@.len() - r,
    {
        assert(rs.take(r + 1).drop_last() =~= rs.take(r as int));
        let (lo, hi) = ranges[r];
        let ghost a0 = archived@;
        let mut k = lo;
        while k < hi
            invariant
                lo <= k,
                lo <= hi ==> k <= hi,
                lo > hi ==> k == lo,
                ls == views(lines@),
                archived@ == a0 + range_text(ls, lo as int, k as int),
            decreases hi - k,
        {
            if k < lines.len() {
                append_chars(&mut archived, &lines[k]);
                archived.push('\n');
            }
            k += 1;
        }
        if lo > hi {
            assert(range_text(ls, lo as int, hi as int) =~= Seq::<char>::empty());
            assert(range_text(ls, lo as int, k as int) =~= Seq::<char>::empty());
        }
        archived.push('\n');
        assert(archived@ =~= archived_text(ls, rs.take(r + 1)));
        r += 1;
    }
    assert(rs.take(ranges@.len() as int) =~= rs);
    let mut remaining: Vec<char> = Vec::new();
    let mut i: usize = 0;
    while i < lines.len()
        invariant
            i <= lines@.len(),
            ls == views(lines@),
            rs == ranges@.map_values(|p: (usize, usize)| (p.0 as int, p.1 as int)),
            remaining@ == kept_text(ls.take(i as int), rs),
        decreases lines@.len() - i,
    {
        assert(ls.take(i + 1).drop_last() =~= ls.take(i as int));
        let mut inside = false;
        let mut q: usize = 0;
        while q < ranges.len()
            invariant
                q <= ranges@.len(),
                rs == ranges@.map_values(|p: (usize, usize)| (p.0 as int, p.1 as int)),
                inside == in_ranges(rs.take(q as int), i as int),
            decreases ranges@.len() - q,
        {
            if ranges[q].0 <= i && i < ranges[q].1 {
                inside = true;
                assert(in_range(rs.take(q + 1)[q as int], i as int));
            }
            proof {
                if in_ranges(rs.take(q + 1), i as int) {
                    let x = choose|x: int| 0 <= x < q + 1 && #[trigger] in_range(rs.take(q + 1)[x], i as int);
                    if x < q {
                        assert(in_range(rs.take(q as int)[x], i as int));
                    }
                }
                if in_ranges(rs.take(q as int), i as int) {
                    let x = choose|x: int| 0 <= x < q && #[trigger] in_range(rs.take(q as int)[x], i as int);
                    assert(in_range(rs.take(q + 1)[x], i as int));
                }
            }
            q += 1;
        }
        assert(rs.take(ranges@.len() as int) =~= rs);
        if !inside {
            append_chars(&mut remaining, &lines[i]);
            remaining.push('\n');
        }
        assert(remaining@ =~= kept_text(ls.take(i + 1), rs));
        i += 1;
    }
    assert(ls.take(lines@.len() as int) =~= ls);
    proof {
        reveal_strlit("\n\n\n");
    }
    let ghost full = remaining@;
    loop
        invariant
            at_most_two_newlines(remaining@) == at_most_two_newlines(full),
        ensures
            at_most_two_newlines(remaining@) == at_most_two_newlines(full),
            at_most_two_newlines(remaining@) == remaining@,
        decreases remaining@.len(),
    {
        proof {
            reveal_strlit("\n\n\n");
        }
        let n = remaining.len();
        if n >= 3 && remaining[n - 1] == '\n' && remaining[n - 2] == '\n' && remaining[n - 3]
            == '\n' {
            assert(ends_with(remaining@, "\n\n\n"@)) by {
                assert(remaining@.skip(n - 3) =~= "\n\n\n"@);
            }
            remaining.pop();
        } else {
            assert(!ends_with(remaining@, "\n\n\n"@)) by {
                if ends_with(remaining@, "\n\n\n"@) {
                    assert(remaining@.skip(n - 3)[0] == remaining@[n - 3]);
                    assert(remaining@.skip(n - 3)[1] == remaining@[n - 2]);
                    assert(remaining@.skip(n - 3)[2] == remaining@[n - 1]);
                }
            }
            break ;
        }
    }
    (string_of(&archived), string_of(&remaining))
}

/// The archive file of a source file: in the same directory, its stem with
/// `suffix` appended, then its extension (`notes.md` → `notes_archive.md`;
/// an empty extension is dropped with its dot).
pub open spec fn archive_name(path: Seq<char>, suffix: Seq<char>) -> Seq<char> {
    let k = file_name_start(path);
    let dir = path.take(k);
    let name = path.skip(k);
    match ext_dot(name) {
        Some(d) => if d + 1 == name.len() {
            dir + name.take(d) + suffix
        } else {
            dir + name.take(d) + suffix + name.skip(d)
        },
        None => dir + name + suffix,
    }
}

/// The archive file of a source file.
pub fn archive_file_path(source: &str, suffix: &str) -> (r: String)
    ensures
        r@ == archive_name(source@, suffix@),
{
    let p = chars_of(source);
    let mut k = p.len();
    assert(p@.take(p@.len() as int) =~= p@);
    while k > 0 && p[k - 1] != '/'
        invariant
            k <= p@.len(),
            file_name_start(p@.take(k as int)) == file_name_start(p@),
        decreases k,
    {
        assert(p@.take(k as int).drop_last() =~= p@.take(k - 1));
        k -= 1;
    }
    assert(p@.take(p@.len() as int) =~= p@);
    assert(file_name_start(p@.take(k as int)) == k) by {
        if k > 0 {
            assert(p@.take(k as int).last() == '/');
        }
    }
    let dir = crate::text::slice_of(&p, 0, k);
    let name = crate::text::skip(&p, k);
    let mut d = name.len();
    assert(name@.take(name@.len() as int) =~= name@);
    while d > 1 && name[d - 1] != '.'
        invariant
            d <= name@.len(),
            ext_dot(name@.take(d as int)) == ext_dot(name@),
        decreases d,
    {
        assert(name@.take(d as int).drop_last() =~= name@.take(d - 1));
        d -= 1;
    }
    let found = d > 1;
    if found {
        assert(name@.take(d as int).last() == '.');
    }
    let mut out = dir;
    if found {
        assert(ext_dot(name@) == Some(d - 1));
        append_chars(&mut out, &crate::text::slice_of(&name, 0, d - 1));
        append_chars(&mut out, &chars_of(suffix));
        if d < name.len() {
            append_chars(&mut out, &crate::text::skip(&name, d - 1));
        }
    } else {
        assert(ext_dot(name@) is None);
        append_chars(&mut out, &name);
        append_chars(&mut out, &chars_of(suffix));
    }
    string_of(&out)
}

} // verus!
