//! Todo lists: todo tags (built-in and custom states) and checkboxes.

use vstd::prelude::*;

use crate::ast::{segs_tags, segs_text, Block, Checkbox, Heading};
use crate::collect::{
    custom_state, lemma_str_lt_total, lemma_str_lt_trans, match_custom_state, state_views, str_less,
    str_lt, TagContext, TodoSequence,
};
use crate::lint::{location_parts, parse_location};
use crate::report::format_location;
use crate::tags::{PriorityLevel, TagKind};
use crate::text::{append_chars, chars_of, string_of, trim};

verus! {

/// A todo item.
pub struct TodoEntry {
    /// `TODO` or `DONE`.
    pub status: String,
    pub text: String,
    pub location: String,
    /// The text of the heading above it.
    pub heading: Option<String>,
    pub priority: Option<PriorityLevel>,
    /// Minutes of effort.
    pub effort: Option<u64>,
    pub inherited_tags: Vec<String>,
}

/// The status, text, priority and effort of an entry.
pub open spec fn entry_view(e: TodoEntry) -> (Seq<char>, Seq<char>, Option<PriorityLevel>, Option<
    u64,
>) {
    (e.status@, e.text@, e.priority, e.effort)
}

pub open spec fn entries_view(es: Seq<TodoEntry>) -> Seq<
    (Seq<char>, Seq<char>, Option<PriorityLevel>, Option<u64>),
> {
    es.map_values(|e: TodoEntry| entry_view(e))
}

/// Where an entry comes from: its `file:line` location, the text of the
/// heading above it, and the tags it inherits.
pub open spec fn entry_place(e: TodoEntry) -> (Seq<char>, Option<Seq<char>>, Seq<Seq<char>>) {
    (
        e.location@,
        match e.heading {
            Some(h) => Some(h@),
            None => None,
        },
        crate::collect::string_views(e.inherited_tags@),
    )
}

pub open spec fn entries_places(es: Seq<TodoEntry>) -> Seq<
    (Seq<char>, Option<Seq<char>>, Seq<Seq<char>>),
> {
    es.map_values(|e: TodoEntry| entry_place(e))
}

/// The place of the tag of a context, as an entry made from it records it.
pub open spec fn ctx_place<'a>(c: TagContext<'a>) -> (Seq<char>, Option<Seq<char>>, Seq<Seq<char>>) {
    (
        c.file@ + ":"@ + crate::text::decimal(c.tag.span.line as nat),
        match c.parent_heading {
            Some(h) => Some(trim(segs_text(h.content.segments@))),
            None => None,
        },
        crate::collect::string_views(c.inherited_tags@),
    )
}

/// The places of the todo items among the tags of a walk (the items of
/// [`todo_items`]), in order.
pub open spec fn todo_places<'a>(cs: Seq<TagContext<'a>>, seqs: Seq<Seq<(Seq<char>, bool)>>) -> Seq<
    (Seq<char>, Option<Seq<char>>, Seq<Seq<char>>),
>
    decreases cs.len(),
{
    if cs.len() == 0 {
        Seq::empty()
    } else {
        let c = cs[0];
        let rest = todo_places(cs.drop_first(), seqs);
        if c.is_archived {
            rest
        } else {
            match c.tag.kind {
                TagKind::Todo { .. } | TagKind::Done { .. } => seq![ctx_place(c)] + rest,
                TagKind::Unknown { name, .. } => if custom_state(name@, seqs) is Some {
                    seq![ctx_place(c)] + rest
                } else {
                    rest
                },
                _ => rest,
            }
        }
    }
}

/// An optional text, or the empty text.
pub open spec fn text_or_empty(t: Option<String>) -> Seq<char> {
    match t {
        Some(x) => x@,
        None => Seq::empty(),
    }
}

/// The todo items among the tags of a walk, in order.  A priority or effort
/// tag applies to the next todo item; tags under archived headings are
/// skipped; an unknown tag named like a custom state is an item of that
/// state, its text prefixed with `[STATE] `.
pub open spec fn todo_items<'a>(
    cs: Seq<TagContext<'a>>,
    seqs: Seq<Seq<(Seq<char>, bool)>>,
    prio: Option<PriorityLevel>,
    eff: Option<u64>,
) -> Seq<(Seq<char>, Seq<char>, Option<PriorityLevel>, Option<u64>)>
    decreases cs.len(),
{
    if cs.len() == 0 {
        Seq::empty()
    } else {
        let c = cs[0];
        let rest = cs.drop_first();
        if c.is_archived {
            todo_items(rest, seqs, prio, eff)
        } else {
            match c.tag.kind {
                TagKind::Priority { level } => todo_items(rest, seqs, Some(level), eff),
                TagKind::Effort { minutes } => todo_items(rest, seqs, prio, Some(minutes)),
                TagKind::Todo { text } => seq![("TODO"@, text_or_empty(text), prio, eff)]
                    + todo_items(rest, seqs, None, None),
                TagKind::Done { text } => seq![("DONE"@, text_or_empty(text), prio, eff)]
                    + todo_items(rest, seqs, None, None),
                TagKind::Unknown { name, value } => match custom_state(name@, seqs) {
                    Some((state, done)) => seq![
                        (
                            if done {
                                "DONE"@
                            } else {
                                "TODO"@
                            },
                            "["@ + state + "] "@ + text_or_empty(value),
                            prio,
                            eff,
                        ),
                    ] + todo_items(rest, seqs, None, None),
                    None => todo_items(rest, seqs, prio, eff),
                },
                _ => todo_items(rest, seqs, prio, eff),
            }
        }
    }
}

/// Every task is either open (`TODO`) or finished (`DONE`), and a context
/// under an archived heading gives no task: archived contexts can be
/// dropped without changing the list.
pub proof fn lemma_todo_items_status<'a>(
    cs: Seq<TagContext<'a>>,
    seqs: Seq<Seq<(Seq<char>, bool)>>,
    prio: Option<PriorityLevel>,
    eff: Option<u64>,
)
    ensures
        forall|k: int|
            0 <= k < todo_items(cs, seqs, prio, eff).len() ==> (#[trigger] todo_items(
                cs,
                seqs,
                prio,
                eff,
            )[k]).0 == "TODO"@ || todo_items(cs, seqs, prio, eff)[k].0 == "DONE"@,
        (forall|k: int| 0 <= k < cs.len() ==> (#[trigger] cs[k]).is_archived) ==> todo_items(
            cs,
            seqs,
            prio,
            eff,
        ).len() == 0,
    decreases cs.len(),
{
    if cs.len() > 0 {
        let c = cs[0];
        let rest = cs.drop_first();
        if forall|k: int| 0 <= k < cs.len() ==> (#[trigger] cs[k]).is_archived {
            assert forall|k: int| 0 <= k < rest.len() implies (#[trigger] rest[k]).is_archived by {
                assert(rest[k] == cs[k + 1]);
            }
        }
        lemma_todo_items_status(rest, seqs, prio, eff);
        lemma_todo_items_status(rest, seqs, None, None);
        match c.tag.kind {
            TagKind::Priority { level } => {
                lemma_todo_items_status(rest, seqs, Some(level), eff);
            },
            TagKind::Effort { minutes } => {
                lemma_todo_items_status(rest, seqs, prio, Some(minutes));
            },
            _ => {},
        }
        let all = todo_items(cs, seqs, prio, eff);
        assert forall|k: int| 0 <= k < all.len() implies (#[trigger] all[k]).0 == "TODO"@
            || all[k].0 == "DONE"@ by {
            if c.is_archived {
                assert(all[k] == todo_items(rest, seqs, prio, eff)[k]);
            } else {
                match c.tag.kind {
                    TagKind::Todo { .. } | TagKind::Done { .. } => {
                        if k > 0 {
                            assert(all[k] == todo_items(rest, seqs, None, None)[k - 1]);
                        }
                    },
                    TagKind::Unknown { name, value } => {
                        if custom_state(name@, seqs) is Some {
                            if k > 0 {
                                assert(all[k] == todo_items(rest, seqs, None, None)[k - 1]);
                            }
                        } else {
                            assert(all[k] == todo_items(rest, seqs, prio, eff)[k]);
                        }
                    },
                    TagKind::Priority { level } => {
                        assert(all[k] == todo_items(rest, seqs, Some(level), eff)[k]);
                    },
                    TagKind::Effort { minutes } => {
                        assert(all[k] == todo_items(rest, seqs, prio, Some(minutes))[k]);
                    },
                    _ => {
                        assert(all[k] == todo_items(rest, seqs, prio, eff)[k]);
                    },
                }
            }
        }
    }
}

fn copy_text(t: &Option<String>) -> (r: String)
    ensures
        r@ == text_or_empty(*t),
{
    match t {
        Some(x) => x.clone(),
        None => String::new(),
    }
}

fn copy_tags(v: &Vec<String>) -> (r: Vec<String>)
    ensures
        r@ == v@,
{
    let mut out: Vec<String> = Vec::new();
    let mut i: usize = 0;
    while i < v.len()
        invariant
            i <= v@.len(),
            out@ == v@.take(i as int),
        decreases v@.len() - i,
    {
        out.push(v[i].clone());
        assert(v@.take(i + 1) =~= v@.take(i as int).push(v@[i as int]));
        i += 1;
    }
    assert(v@.take(v@.len() as int) =~= v@);
    out
}

/// The todo items among the tags found by a walk.
pub fn todo_entries<'a>(contexts: &Vec<TagContext<'a>>, sequences: &Vec<TodoSequence>) -> (r: Vec<
    TodoEntry,
>)
    ensures
        entries_view(r@) == todo_items(
            contexts@,
            sequences@.map_values(|t: TodoSequence| state_views(t.states@)),
            None,
            None,
        ),
        entries_places(r@) == todo_places(
            contexts@,
            sequences@.map_values(|t: TodoSequence| state_views(t.states@)),
        ),
{
    let ghost seqs = sequences@.map_values(|t: TodoSequence| state_views(t.states@));
    let mut out: Vec<TodoEntry> = Vec::new();
    assert(entries_places(out@) + todo_places(contexts@, seqs) =~= todo_places(contexts@, seqs));
    let mut prio: Option<PriorityLevel> = None;
    let mut eff: Option<u64> = None;
    let mut i: usize = 0;
    assert(contexts@.skip(0) =~= contexts@);
    assert(entries_view(out@) + todo_items(contexts@, seqs, None, None) =~= todo_items(
        contexts@,
        seqs,
        None,
        None,
    ));
    while i < contexts.len()
        invariant
            i <= contexts@.len(),
            seqs == sequences@.map_values(|t: TodoSequence| state_views(t.states@)),
            entries_view(out@) + todo_items(contexts@.skip(i as int), seqs, prio, eff)
                == todo_items(contexts@, seqs, None, None),
            entries_places(out@) + todo_places(contexts@.skip(i as int), seqs) == todo_places(
                contexts@,
                seqs,
            ),
        decreases contexts@.len() - i,
    {
        proof {
            reveal_strlit("TODO");
            reveal_strlit("DONE");
        }
        let c = &contexts[i];
        let ghost rest = contexts@.skip(i as int);
        assert(rest[0] == *c);
        assert(rest.drop_first() =~= contexts@.skip(i + 1));
        let ghost o = entries_view(out@);
        let ghost op = entries_places(out@);
        if !c.is_archived {
            let heading = match c.parent_heading {
                Some(h) => Some(h.content.plain_text()),
                None => None,
            };
            let mut item: Option<(String, String)> = None;
            match &c.tag.kind {
                TagKind::Priority { level } => {
                    prio = Some(*level);
                },
                TagKind::Effort { minutes } => {
                    eff = Some(*minutes);
                },
                TagKind::Todo { text } => {
                    item = Some((string_of(&chars_of("TODO")), copy_text(text)));
                },
                TagKind::Done { text } => {
                    item = Some((string_of(&chars_of("DONE")), copy_text(text)));
                },
                TagKind::Unknown { name, value } => {
                    match match_custom_state(name.as_str(), sequences) {
                        Some((state, done)) => {
                            let status = if done {
                                chars_of("DONE")
                            } else {
                                chars_of("TODO")
                            };
                            let mut t = chars_of("[");
                            append_chars(&mut t, &chars_of(state.as_str()));
                            append_chars(&mut t, &chars_of("] "));
                            append_chars(&mut t, &chars_of(copy_text(value).as_str()));
                            item = Some((string_of(&status), string_of(&t)));
                        },
                        None => {},
                    }
                },
                _ => {},
            }
            match item {
                Some((status, text)) => {
                    let ghost ev = (status@, text@, prio, eff);
                    out.push(
                        TodoEntry {
                            status,
                            text,
                            location: format_location(c.file, &c.tag.span),
                            heading,
                            priority: prio,
                            effort: eff,
                            inherited_tags: copy_tags(&c.inherited_tags),
                        },
                    );
                    assert(entries_view(out@) =~= o.push(ev));
                    assert(entries_places(out@) =~= op.push(ctx_place(*c)));
                    prio = None;
                    eff = None;
                },
                None => {},
            }
        }
        i += 1;
    }
    assert(contexts@.skip(contexts@.len() as int) =~= Seq::<TagContext<'a>>::empty());
    assert(entries_view(out@) + Seq::empty() =~= entries_view(out@));
    assert(entries_places(out@) + Seq::empty() =~= entries_places(out@));
    out
}

// ===========================================================================
// Checkboxes
// ===========================================================================
/// Whether a heading carries `#archive`.
pub open spec fn archived_heading(h: Heading) -> bool {
    exists|i: int|
        0 <= i < segs_tags(h.content.segments@).len() && segs_tags(h.content.segments@)[i].kind is Archive
}

/// The status and text of a checkbox item.
pub open spec fn checkbox_item(item: crate::ast::ListItem) -> Option<(Seq<char>, Seq<char>)> {
    match item.checkbox {
        Some(Checkbox::Unchecked) => Some(("TODO"@, trim(segs_text(item.content.segments@)))),
        Some(Checkbox::Checked) => Some(("DONE"@, trim(segs_text(item.content.segments@)))),
        None => None,
    }
}

/// The checkbox items of a sequence of blocks, in order, looking into
/// callouts and nested lists.
pub open spec fn blocks_checkboxes(bs: Seq<Block>) -> Seq<(Seq<char>, Seq<char>)>
    decreases bs,
{
    if bs.len() == 0 {
        Seq::empty()
    } else {
        blocks_checkboxes(bs.drop_last()) + block_checkboxes(bs.last())
    }
}

pub open spec fn block_checkboxes(b: Block) -> Seq<(Seq<char>, Seq<char>)>
    decreases b,
{
    match b {
        Block::List(l) => items_checkboxes(l.items@),
        Block::Callout(c) => blocks_checkboxes(c.content@),
        _ => Seq::empty(),
    }
}

pub open spec fn items_checkboxes(items: Seq<crate::ast::ListItem>) -> Seq<(Seq<char>, Seq<char>)>
    decreases items,
{
    if items.len() == 0 {
        Seq::empty()
    } else {
        let it = items.last();
        items_checkboxes(items.drop_last()) + (match checkbox_item(it) {
            Some(x) => seq![x],
            None => Seq::empty(),
        }) + blocks_checkboxes(it.children@)
    }
}

/// The status and text of entries.
pub open spec fn status_text(es: Seq<TodoEntry>) -> Seq<(Seq<char>, Seq<char>)> {
    es.map_values(|e: TodoEntry| (e.status@, e.text@))
}

/// An entry by value: status, text, priority, effort, and where it comes
/// from (see [`entry_place`]).
pub open spec fn full_view(e: TodoEntry) -> (
    (Seq<char>, Seq<char>, Option<PriorityLevel>, Option<u64>),
    (Seq<char>, Option<Seq<char>>, Seq<Seq<char>>),
) {
    (entry_view(e), entry_place(e))
}

pub open spec fn full_views(es: Seq<TodoEntry>) -> Seq<
    (
        (Seq<char>, Seq<char>, Option<PriorityLevel>, Option<u64>),
        (Seq<char>, Option<Seq<char>>, Seq<Seq<char>>),
    ),
> {
    es.map_values(|e: TodoEntry| full_view(e))
}

/// The text of the heading a walk stands under, if any.
pub open spec fn heading_text_of(cur: Option<Heading>) -> Option<Seq<char>> {
    match cur {
        Some(h) => Some(trim(segs_text(h.content.segments@))),
        None => None,
    }
}

/// The checkbox entries of a block of `file`, the walk standing under
/// `cur`, and the heading it stands under after the block (a heading that
/// is not archived becomes the current one).  An entry has no priority,
/// effort or inherited tags.
pub open spec fn block_cb(b: Block, cur: Option<Heading>, file: Seq<char>) -> (
    Seq<
        (
            (Seq<char>, Seq<char>, Option<PriorityLevel>, Option<u64>),
            (Seq<char>, Option<Seq<char>>, Seq<Seq<char>>),
        ),
    >,
    Option<Heading>,
)
    decreases b,
{
    match b {
        Block::Heading(h) => (Seq::empty(), if archived_heading(h) {
            cur
        } else {
            Some(h)
        }),
        Block::List(l) => items_cb(l.items@, cur, file),
        Block::Callout(c) => blocks_cb(c.content@, cur, file),
        _ => (Seq::empty(), cur),
    }
}

pub open spec fn blocks_cb(bs: Seq<Block>, cur: Option<Heading>, file: Seq<char>) -> (
    Seq<
        (
            (Seq<char>, Seq<char>, Option<PriorityLevel>, Option<u64>),
            (Seq<char>, Option<Seq<char>>, Seq<Seq<char>>),
        ),
    >,
    Option<Heading>,
)
    decreases bs,
{
    if bs.len() == 0 {
        (Seq::empty(), cur)
    } else {
        let r1 = blocks_cb(bs.drop_last(), cur, file);
        let r2 = block_cb(bs.last(), r1.1, file);
        (r1.0 + r2.0, r2.1)
    }
}

pub open spec fn items_cb(items: Seq<crate::ast::ListItem>, cur: Option<Heading>, file: Seq<char>) -> (
    Seq<
        (
            (Seq<char>, Seq<char>, Option<PriorityLevel>, Option<u64>),
            (Seq<char>, Option<Seq<char>>, Seq<Seq<char>>),
        ),
    >,
    Option<Heading>,
)
    decreases items,
{
    if items.len() == 0 {
        (Seq::empty(), cur)
    } else {
        let r1 = items_cb(items.drop_last(), cur, file);
        let it = items.last();
        let own = match checkbox_item(it) {
            Some((st, tx)) => seq![
                (
                    (st, tx, None, None),
                    (
                        file + ":"@ + crate::text::decimal(it.span.line as nat),
                        heading_text_of(r1.1),
                        Seq::empty(),
                    ),
                ),
            ],
            None => Seq::empty(),
        };
        let r2 = blocks_cb(it.children@, r1.1, file);
        (r1.0 + own + r2.0, r2.1)
    }
}

/// The heading a walk stands under, by value.
pub open spec fn cur_view<'a>(c: Option<&'a Heading>) -> Option<Heading> {
    match c {
        Some(h) => Some(*h),
        None => None,
    }
}

fn heading_is_archived(h: &Heading) -> (b: bool)
    ensures
        b == archived_heading(*h),
{
    let tags = h.content.tags();
    let mut i: usize = 0;
    while i < tags.len()
        invariant
            i <= tags@.len(),
            tags@.len() == segs_tags(h.content.segments@).len(),
            forall|k: int|
                0 <= k < tags@.len() ==> *(#[trigger] tags@[k]) == segs_tags(h.content.segments@)[k],
            forall|k: int| 0 <= k < i ==> !(segs_tags(h.content.segments@)[k].kind is Archive),
        decreases tags@.len() - i,
    {
        match tags[i].kind {
            TagKind::Archive => {
                return true;
            },
            _ => {},
        }
        i += 1;
    }
    false
}

/// Adds the checkbox items of `blocks` to `out`; `current` is the last
/// heading met that is not archived.
pub fn collect_checkboxes<'a>(
    blocks: &'a Vec<Block>,
    file: &str,
    current: &mut Option<&'a Heading>,
    out: &mut Vec<TodoEntry>,
)
    ensures
        status_text(final(out)@) == status_text(old(out)@) + blocks_checkboxes(blocks@),
        full_views(final(out)@) == full_views(old(out)@) + blocks_cb(
            blocks@,
            cur_view(*old(current)),
            file@,
        ).0,
        cur_view(*final(current)) == blocks_cb(blocks@, cur_view(*old(current)), file@).1,
    decreases blocks@, 0int,
{
    let ghost o = status_text(out@);
    let ghost fo = full_views(out@);
    let ghost c0 = cur_view(*current);
    let mut i: usize = 0;
    assert(blocks@.take(0) =~= Seq::<Block>::empty());
    assert(fo + Seq::empty() =~= fo);
    while i < blocks.len()
        invariant
            i <= blocks@.len(),
            status_text(out@) == o + blocks_checkboxes(blocks@.take(i as int)),
            full_views(out@) == fo + blocks_cb(blocks@.take(i as int), c0, file@).0,
            cur_view(*current) == blocks_cb(blocks@.take(i as int), c0, file@).1,
        decreases blocks@.len() - i,
    {
        assert(blocks@.take(i + 1).drop_last() =~= blocks@.take(i as int));
        assert(blocks@.take(i + 1).last() == blocks@[i as int]);
        let ghost before = status_text(out@);
        let ghost fb = full_views(out@);
        match &blocks[i] {
            Block::Heading(h) => {
                if !heading_is_archived(h) {
                    *current = Some(h);
                }
            },
            Block::List(l) => {
                assert(decreases_to!(blocks@ => blocks@[i as int]));
                collect_item_checkboxes(&l.items, file, current, out);
            },
            Block::Callout(c) => {
                assert(decreases_to!(blocks@ => blocks@[i as int]));
                collect_checkboxes(&c.content, file, current, out);
            },
            _ => {},
        }
        assert(status_text(out@) =~= before + block_checkboxes(blocks@[i as int]));
        assert(status_text(out@) =~= o + blocks_checkboxes(blocks@.take(i + 1)));
        assert(full_views(out@) =~= fb + block_cb(
            blocks@[i as int],
            blocks_cb(blocks@.take(i as int), c0, file@).1,
            file@,
        ).0);
        assert(full_views(out@) =~= fo + blocks_cb(blocks@.take(i + 1), c0, file@).0);
        i += 1;
    }
    assert(blocks@.take(blocks@.len() as int) =~= blocks@);
}

fn collect_item_checkboxes<'a>(
    items: &'a Vec<crate::ast::ListItem>,
    file: &str,
    current: &mut Option<&'a Heading>,
    out: &mut Vec<TodoEntry>,
)
    ensures
        status_text(final(out)@) == status_text(old(out)@) + items_checkboxes(items@),
        full_views(final(out)@) == full_views(old(out)@) + items_cb(
            items@,
            cur_view(*old(current)),
            file@,
        ).0,
        cur_view(*final(current)) == items_cb(items@, cur_view(*old(current)), file@).1,
    decreases items@, 0int,
{
    let ghost o = status_text(out@);
    let ghost fo = full_views(out@);
    let ghost c0 = cur_view(*current);
    let mut i: usize = 0;
    assert(items@.take(0) =~= Seq::<crate::ast::ListItem>::empty());
    assert(fo + Seq::empty() =~= fo);
    while i < items.len()
        invariant
            i <= items@.len(),
            status_text(out@) == o + items_checkboxes(items@.take(i as int)),
            full_views(out@) == fo + items_cb(items@.take(i as int), c0, file@).0,
            cur_view(*current) == items_cb(items@.take(i as int), c0, file@).1,
        decreases items@.len() - i,
    {
        proof {
            reveal_strlit("TODO");
            reveal_strlit("DONE");
        }
        assert(items@.take(i + 1).drop_last() =~= items@.take(i as int));
        let item = &items[i];
        assert(items@.take(i + 1).last() == items@[i as int]);
        let ghost before = status_text(out@);
        let ghost fb = full_views(out@);
        let status = match &item.checkbox {
            Some(Checkbox::Unchecked) => Some(chars_of("TODO")),
            Some(Checkbox::Checked) => Some(chars_of("DONE")),
            None => None,
        };
        match status {
            Some(s) => {
                let heading = match *current {
                    Some(h) => Some(h.content.plain_text()),
                    None => None,
                };
                let text = item.content.plain_text();
                let ghost ev = (s@, text@);
                out.push(
                    TodoEntry {
                        status: string_of(&s),
                        text,
                        location: format_location(file, &item.span),
                        heading,
                        priority: None,
                        effort: None,
                        inherited_tags: Vec::new(),
                    },
                );
                assert(status_text(out@) =~= before.push(ev));
                assert(crate::collect::string_views(out@.last().inherited_tags@) =~= Seq::<
                    Seq<char>,
                >::empty());
                assert(full_views(out@) =~= fb.push(full_view(out@.last())));
            },
            None => {},
        }
        let ghost mid = status_text(out@);
        let ghost fm = full_views(out@);
        let ghost r1 = items_cb(items@.take(i as int), c0, file@);
        assert(r1.1 == cur_view(*current));
        let ghost own = match checkbox_item(items@[i as int]) {
            Some((st, tx)) => seq![
                (
                    (st, tx, None::<PriorityLevel>, None::<u64>),
                    (
                        file@ + ":"@ + crate::text::decimal(items@[i as int].span.line as nat),
                        heading_text_of(r1.1),
                        Seq::<Seq<char>>::empty(),
                    ),
                ),
            ],
            None => Seq::empty(),
        };
        assert(fm =~= fb + own);
        assert(decreases_to!(items@ => items@[i as int]));
        collect_checkboxes(&item.children, file, current, out);
        assert(full_views(out@) =~= fm + blocks_cb(item.children@, r1.1, file@).0);
        assert(status_text(out@) =~= o + items_checkboxes(items@.take(i + 1)));
        assert(full_views(out@) =~= fo + items_cb(items@.take(i + 1), c0, file@).0);
        i += 1;
    }
    assert(items@.take(items@.len() as int) =~= items@);
}

// ===========================================================================
// Ordering
// ===========================================================================
/// The rank of a priority: none first, then A, B, C, then custom levels by
/// letter.
pub open spec fn priority_rank(p: Option<PriorityLevel>) -> int {
    match p {
        None => 0,
        Some(PriorityLevel::A) => 1,
        Some(PriorityLevel::B) => 2,
        Some(PriorityLevel::C) => 3,
        Some(PriorityLevel::Custom(c)) => 4 + c as int,
    }
}

/// The sort key of an entry: open items first, then by priority.
pub open spec fn entry_key(e: TodoEntry) -> (int, int) {
    (if e.status@ == "TODO"@ {
        0int
    } else {
        1int
    }, priority_rank(e.priority))
}

/// `a` sorts strictly before `b`.
pub open spec fn key_lt(a: (int, int), b: (int, int)) -> bool {
    a.0 < b.0 || (a.0 == b.0 && a.1 < b.1)
}

/// `a` sorts strictly before `b`: open items first, then by priority, then
/// by location (file, then line).
pub open spec fn entry_lt(a: TodoEntry, b: TodoEntry) -> bool {
    let (fa, la) = location_parts(a.location@);
    let (fb, lb) = location_parts(b.location@);
    key_lt(entry_key(a), entry_key(b)) || (entry_key(a) == entry_key(b) && (str_lt(fa, fb) || (fa
        == fb && la < lb)))
}

proof fn lemma_entry_lt_order(a: TodoEntry, b: TodoEntry, c: TodoEntry)
    ensures
        !entry_lt(a, a),
        entry_lt(a, b) && entry_lt(b, c) ==> entry_lt(a, c),
{
    let (fa, _) = location_parts(a.location@);
    let (fb, _) = location_parts(b.location@);
    let (fc, _) = location_parts(c.location@);
    lemma_str_lt_total(fa, fa);
    if str_lt(fa, fb) && str_lt(fb, fc) {
        lemma_str_lt_trans(fa, fb, fc);
    }
}

/// Which of two entries sorts first: an open item (`TODO`) before any other,
/// and among items of the same status priority `A` before `B`, `B` before
/// `C`, and an item without a priority before all three.
pub proof fn lemma_entry_order(a: TodoEntry, b: TodoEntry)
    ensures
        a.status@ == "TODO"@ && b.status@ != "TODO"@ ==> entry_lt(a, b) && !entry_lt(b, a),
        a.status@ == b.status@ && a.priority == Some(PriorityLevel::A) && b.priority == Some(
            PriorityLevel::B,
        ) ==> entry_lt(a, b) && !entry_lt(b, a),
        a.status@ == b.status@ && a.priority == Some(PriorityLevel::B) && b.priority == Some(
            PriorityLevel::C,
        ) ==> entry_lt(a, b) && !entry_lt(b, a),
        a.status@ == b.status@ && a.priority == Some(PriorityLevel::A) && b.priority == Some(
            PriorityLevel::C,
        ) ==> entry_lt(a, b) && !entry_lt(b, a),
        a.status@ == b.status@ && a.priority is None && b.priority is Some ==> entry_lt(a, b)
            && !entry_lt(b, a),
{
}

/// In a sorted list, an open item never comes after one that is not open,
/// and among items of the same status, priority `B` never comes after `C`
/// nor `A` after `B`.
pub proof fn lemma_sorted_priorities(es: Seq<TodoEntry>, i: int, j: int)
    requires
        sorted_entries(es),
        0 <= i < j < es.len(),
    ensures
        !(es[j].status@ == "TODO"@ && es[i].status@ != "TODO"@),
        es[i].status@ == es[j].status@ ==> !(es[i].priority == Some(PriorityLevel::C)
            && es[j].priority == Some(PriorityLevel::B)),
        es[i].status@ == es[j].status@ ==> !(es[i].priority == Some(PriorityLevel::B)
            && es[j].priority == Some(PriorityLevel::A)),
{
    lemma_entry_order(es[j], es[i]);
}

/// No entry sorts strictly before an entry before it.
pub open spec fn sorted_entries(es: Seq<TodoEntry>) -> bool {
    forall|i: int, j: int| 0 <= i < j < es.len() ==> !entry_lt(#[trigger] es[j], #[trigger] es[i])
}

/// Whether `a` sorts strictly before `b`.
fn entry_less(a: &TodoEntry, b: &TodoEntry) -> (r: bool)
    ensures
        r == entry_lt(*a, *b),
{
    let ka = key_of(a);
    let kb = key_of(b);
    if ka.0 != kb.0 {
        return ka.0 < kb.0;
    }
    if ka.1 != kb.1 {
        return ka.1 < kb.1;
    }
    let (fa, la) = parse_location(a.location.as_str());
    let (fb, lb) = parse_location(b.location.as_str());
    let ca = chars_of(fa.as_str());
    let cb = chars_of(fb.as_str());
    if str_less(&ca, &cb) {
        return true;
    }
    crate::text::same(&ca, &cb) && la < lb
}

fn key_of(e: &TodoEntry) -> (r: (u8, u64))
    ensures
        r.0 as int == entry_key(*e).0,
        r.1 as int == entry_key(*e).1,
{
    proof {
        reveal_strlit("TODO");
    }
    let s = if crate::text::same(&chars_of(e.status.as_str()), &chars_of("TODO")) {
        0
    } else {
        1
    };
    let p: u64 = match e.priority {
        None => 0,
        Some(PriorityLevel::A) => 1,
        Some(PriorityLevel::B) => 2,
        Some(PriorityLevel::C) => 3,
        Some(PriorityLevel::Custom(c)) => 4 + (c as u32) as u64,
    };
    (s, p)
}

/// The position after the leading entries that `x` does not sort before.
pub open spec fn insert_pos(s: Seq<TodoEntry>, x: TodoEntry) -> int
    decreases s.len(),
{
    if s.len() == 0 {
        0
    } else if entry_lt(x, s[0]) {
        0
    } else {
        1 + insert_pos(s.skip(1), x)
    }
}

/// `x` put in after every entry that it does not sort before.
pub open spec fn insert_entry(s: Seq<TodoEntry>, x: TodoEntry) -> Seq<TodoEntry> {
    let p = insert_pos(s, x);
    s.take(p) + seq![x] + s.skip(p)
}

/// The entries sorted by [`entry_lt`] (status, priority, then location),
/// entries that rank the same keeping their order.
pub open spec fn stable_sorted(s: Seq<TodoEntry>) -> Seq<TodoEntry>
    decreases s.len(),
{
    if s.len() == 0 {
        s
    } else {
        insert_entry(stable_sorted(s.drop_last()), s.last())
    }
}

/// Sorts entries, open items first, then by priority, then by location
/// (file, then line); entries that rank the same keep their order.
pub fn sort_entries(entries: Vec<TodoEntry>) -> (r: Vec<TodoEntry>)
    ensures
        r@ == stable_sorted(entries@),
        sorted_entries(r@),
        r@.to_multiset() == entries@.to_multiset(),
{
    let ghost e0 = entries@;
    let mut input = entries;
    let mut out: Vec<TodoEntry> = Vec::new();
    let ghost mut taken: Seq<TodoEntry> = Seq::empty();
    proof {
        vstd::seq_lib::to_multiset_len(out@);
        assert(e0 =~= taken + input@);
        assert(out@ =~= stable_sorted(taken));
    }
    while input.len() > 0
        invariant
            sorted_entries(out@),
            e0 == taken + input@,
            out@.to_multiset() == taken.to_multiset(),
            out@ == stable_sorted(taken),
        decreases input@.len(),
    {
        let x = input.remove(0);
        let mut p: usize = 0;
        assert(out@.skip(0) =~= out@);
        loop
            invariant_except_break
                p <= out@.len(),
                forall|k: int| 0 <= k < p ==> !entry_lt(x, #[trigger] out@[k]),
                insert_pos(out@, x) == p + insert_pos(out@.skip(p as int), x),
            ensures
                p <= out@.len(),
                forall|k: int| 0 <= k < p ==> !entry_lt(x, #[trigger] out@[k]),
                p < out@.len() ==> entry_lt(x, out@[p as int]),
                insert_pos(out@, x) == p,
            decreases out@.len() - p,
        {
            if p >= out.len() {
                assert(out@.skip(p as int).len() == 0);
                break ;
            }
            assert(out@.skip(p as int)[0] == out@[p as int]);
            if entry_less(&x, &out[p]) {
                break ;
            }
            assert(out@.skip(p as int).skip(1) =~= out@.skip(p + 1));
            p += 1;
        }
        let ghost o = out@;
        let ghost xv = x;
        proof {
            vstd::seq_lib::to_multiset_insert(o, p as int, xv);
            vstd::seq_lib::to_multiset_build(taken, xv);
        }
        out.insert(p, x);
        proof {
            assert(out@ == o.insert(p as int, xv));
            assert forall|i: int, j: int| 0 <= i < j < out@.len() implies !entry_lt(
                #[trigger] out@[j],
                #[trigger] out@[i],
            ) by {
                if j < p {
                    assert(out@[i] == o[i] && out@[j] == o[j]);
                } else if j == p {
                    assert(out@[i] == o[i]);
                } else if i == p {
                    assert(out@[j] == o[j - 1]);
                    assert(out@[i] == xv);
                    lemma_entry_lt_order(o[j - 1], xv, o[p as int]);
                    if j - 1 > p {
                        assert(!entry_lt(o[j - 1], o[p as int]));
                    }
                } else if i < p {
                    assert(out@[i] == o[i] && out@[j] == o[j - 1]);
                } else {
                    assert(out@[i] == o[i - 1] && out@[j] == o[j - 1]);
                }
            }
            assert(taken.push(xv).drop_last() =~= taken);
            assert(out@ =~= insert_entry(o, xv));
            taken = taken.push(xv);
        }
    }
    assert(taken =~= e0);
    out
}

} // verus!
