//! Heading ids and `id:` cross-references.

use vstd::prelude::*;

use crate::ast::{Block, InlineSegment, StringMap};
use crate::text::{chars_of, has_prefix, skip, starts_with, string_of};

verus! {

/// The ids that `id:` links among `s` point to, in order, looking inside
/// emphasis.
pub open spec fn link_ids(s: Seq<InlineSegment>) -> Seq<Seq<char>>
    decreases s,
{
    if s.len() == 0 {
        Seq::empty()
    } else {
        link_ids(s.drop_last()) + seg_link_ids(s.last())
    }
}

pub open spec fn seg_link_ids(seg: InlineSegment) -> Seq<Seq<char>>
    decreases seg,
{
    match seg {
        InlineSegment::Link(l) => if starts_with(l.url@, "id:"@) {
            seq![l.url@.skip(3)]
        } else {
            Seq::empty()
        },
        InlineSegment::Bold(c) => link_ids(c.segments@),
        InlineSegment::Italic(c) => link_ids(c.segments@),
        InlineSegment::Strikethrough(c) => link_ids(c.segments@),
        _ => Seq::empty(),
    }
}

/// A reference: the id, the file and the line it stands on.
pub open spec fn ref_views(r: Seq<(String, String, u32)>) -> Seq<(Seq<char>, Seq<char>, u32)> {
    r.map_values(|x: (String, String, u32)| (x.0@, x.1@, x.2))
}

/// The references made by ids `ids` on `line` of `file`.
pub open spec fn refs_at(ids: Seq<Seq<char>>, file: Seq<char>, line: u32) -> Seq<
    (Seq<char>, Seq<char>, u32),
> {
    ids.map_values(|id: Seq<char>| (id, file, line))
}

/// Adds the `id:` links among `segments` to `refs`.
pub fn collect_link_refs(
    segments: &Vec<InlineSegment>,
    file: &str,
    line: u32,
    refs: &mut Vec<(String, String, u32)>,
)
    ensures
        ref_views(final(refs)@) == ref_views(old(refs)@) + refs_at(link_ids(segments@), file@, line),
    decreases segments@,
{
    let ghost o = ref_views(refs@);
    let mut i: usize = 0;
    while i < segments.len()
        invariant
            i <= segments@.len(),
            ref_views(refs@) == o + refs_at(link_ids(segments@.take(i as int)), file@, line),
        decreases segments@.len() - i,
    {
        proof {
            reveal_strlit("id:");
        }
        assert(segments@.take(i + 1).drop_last() =~= segments@.take(i as int));
        let ghost before = ref_views(refs@);
        match &segments[i] {
            InlineSegment::Link(l) => {
                let url = chars_of(l.url.as_str());
                if has_prefix(&url, &chars_of("id:")) {
                    let id = skip(&url, 3);
                    refs.push((string_of(&id), string_of(&chars_of(file)), line));
                    assert(ref_views(refs@) =~= before.push((id@, file@, line)));
                }
            },
            InlineSegment::Bold(c) => collect_link_refs(&c.segments, file, line, refs),
            InlineSegment::Italic(c) => collect_link_refs(&c.segments, file, line, refs),
            InlineSegment::Strikethrough(c) => collect_link_refs(&c.segments, file, line, refs),
            _ => {},
        }
        assert(refs_at(link_ids(segments@.take(i + 1)), file@, line) =~= refs_at(
            link_ids(segments@.take(i as int)),
            file@,
            line,
        ) + refs_at(seg_link_ids(segments@[i as int]), file@, line));
        i += 1;
    }
    assert(segments@.take(segments@.len() as int) =~= segments@);
}

/// The references in `blocks`: in heading and paragraph text, in the text of
/// top-level list items, and inside callouts.
pub open spec fn blocks_refs(bs: Seq<Block>, file: Seq<char>) -> Seq<(Seq<char>, Seq<char>, u32)>
    decreases bs,
{
    if bs.len() == 0 {
        Seq::empty()
    } else {
        blocks_refs(bs.drop_last(), file) + block_refs(bs.last(), file)
    }
}

pub open spec fn block_refs(b: Block, file: Seq<char>) -> Seq<(Seq<char>, Seq<char>, u32)>
    decreases b,
{
    match b {
        Block::Heading(h) => refs_at(link_ids(h.content.segments@), file, h.span.line),
        Block::Paragraph(p) => refs_at(link_ids(p.content.segments@), file, p.span.line),
        Block::Callout(c) => blocks_refs(c.content@, file),
        Block::List(l) => items_refs(l.items@, file),
        _ => Seq::empty(),
    }
}

pub open spec fn items_refs(items: Seq<crate::ast::ListItem>, file: Seq<char>) -> Seq<
    (Seq<char>, Seq<char>, u32),
>
    decreases items.len(),
{
    if items.len() == 0 {
        Seq::empty()
    } else {
        items_refs(items.drop_last(), file) + refs_at(
            link_ids(items.last().content.segments@),
            file,
            items.last().span.line,
        )
    }
}

/// The ids of a map, by value: id to (file, heading text).
pub open spec fn id_view(m: StringMap<(String, String)>) -> Map<Seq<char>, (Seq<char>, Seq<char>)> {
    m.to_map().map_values(|v: (String, String)| (v.0@, v.1@))
}

/// The ids once the headings of a block are indexed: a heading with an
/// `id` property maps it to the file and its text (a later heading with
/// the same id wins); callouts are searched in turn.
pub open spec fn block_ids(
    m: Map<Seq<char>, (Seq<char>, Seq<char>)>,
    b: Block,
    file: Seq<char>,
) -> Map<Seq<char>, (Seq<char>, Seq<char>)>
    decreases b,
{
    match b {
        Block::Heading(h) => match h.properties {
            Some(d) => if d.entries.to_map().contains_key("id"@) {
                m.insert(
                    d.entries.to_map()["id"@]@,
                    (file, crate::text::trim(crate::ast::segs_text(h.content.segments@))),
                )
            } else {
                m
            },
            None => m,
        },
        Block::Callout(c) => blocks_ids(m, c.content@, file),
        _ => m,
    }
}

/// The ids once the headings of blocks are indexed, in order.
pub open spec fn blocks_ids(
    m: Map<Seq<char>, (Seq<char>, Seq<char>)>,
    bs: Seq<Block>,
    file: Seq<char>,
) -> Map<Seq<char>, (Seq<char>, Seq<char>)>
    decreases bs,
{
    if bs.len() == 0 {
        m
    } else {
        block_ids(blocks_ids(m, bs.drop_last(), file), bs.last(), file)
    }
}

/// Collects the heading ids (the `id` property of a heading, mapped to the
/// file and the heading's text) and the `id:` references of `blocks`.
pub fn collect_ids_and_refs(
    blocks: &Vec<Block>,
    file: &str,
    ids: &mut StringMap<(String, String)>,
    refs: &mut Vec<(String, String, u32)>,
)
    ensures
        ref_views(final(refs)@) == ref_views(old(refs)@) + blocks_refs(blocks@, file@),
        id_view(*final(ids)) == blocks_ids(id_view(*old(ids)), blocks@, file@),
    decreases blocks@,
{
    let ghost o = ref_views(refs@);
    let ghost m0 = id_view(*ids);
    let mut i: usize = 0;
    while i < blocks.len()
        invariant
            i <= blocks@.len(),
            ref_views(refs@) == o + blocks_refs(blocks@.take(i as int), file@),
            id_view(*ids) == blocks_ids(m0, blocks@.take(i as int), file@),
        decreases blocks@.len() - i,
    {
        assert(blocks@.take(i + 1).drop_last() =~= blocks@.take(i as int));
        assert(blocks@.take(i + 1).last() == blocks@[i as int]);
        let ghost before = ref_views(refs@);
        let ghost mb = id_view(*ids);
        match &blocks[i] {
            Block::Heading(h) => {
                match &h.properties {
                    Some(d) => match d.entries.get("id") {
                        Some(id) => {
                            let text = h.content.plain_text();
                            let ghost tv = text@;
                            ids.insert(id.clone(), (string_of(&chars_of(file)), text));
                            assert(id_view(*ids) =~= mb.insert(id@, (file@, tv)));
                        },
                        None => {},
                    },
                    None => {},
                }
                collect_link_refs(&h.content.segments, file, h.span.line, refs);
            },
            Block::Paragraph(p) => {
                collect_link_refs(&p.content.segments, file, p.span.line, refs);
            },
            Block::Callout(c) => {
                assert(decreases_to!(blocks@ => blocks@[i as int]));
                collect_ids_and_refs(&c.content, file, ids, refs);
            },
            Block::List(l) => {
                let mut k: usize = 0;
                while k < l.items.len()
                    invariant
                        k <= l.items@.len(),
                        ref_views(refs@) == before + items_refs(l.items@.take(k as int), file@),
                    decreases l.items@.len() - k,
                {
                    assert(l.items@.take(k + 1).drop_last() =~= l.items@.take(k as int));
                    let item = &l.items[k];
                    collect_link_refs(&item.content.segments, file, item.span.line, refs);
                    k += 1;
                }
                assert(l.items@.take(l.items@.len() as int) =~= l.items@);
            },
            _ => {},
        }
        assert(id_view(*ids) == block_ids(mb, blocks@[i as int], file@));
        assert(ref_views(refs@) =~= before + block_refs(blocks@[i as int], file@));
        assert(blocks_refs(blocks@.take(i + 1), file@) == blocks_refs(blocks@.take(i as int), file@)
            + block_refs(blocks@[i as int], file@));
        assert(ref_views(refs@) =~= o + blocks_refs(blocks@.take(i + 1), file@));
        i += 1;
    }
    assert(blocks@.take(blocks@.len() as int) =~= blocks@);
}

} // verus!
