//! The document tree.

use vstd::prelude::*;

use crate::span::Span;
use crate::tags::Tag;
use crate::text::{chars_of, push_char, same, string_of, trim, trimmed};

verus! {

/// `serde_yaml::Value`, the parsed frontmatter data.
#[verifier::external_type_specification]
#[verifier::external_body]
pub struct ExYamlValue(serde_yaml::Value);

// ===========================================================================
// String-keyed map
// ===========================================================================
/// A map from strings to values that keeps its entries in insertion order.
#[derive(Debug, Clone, PartialEq)]
pub struct StringMap<V> {
    entries: Vec<(String, V)>,
}

/// Index of the first entry with key `k`, if any.
pub open spec fn key_index<V>(es: Seq<(String, V)>, k: Seq<char>) -> Option<int> {
    if exists|i: int| 0 <= i < es.len() && (#[trigger] es[i]).0@ == k {
        Some(
            choose|i: int|
                0 <= i < es.len() && (#[trigger] es[i]).0@ == k && forall|j: int|
                    0 <= j < i ==> (#[trigger] es[j]).0@ != k,
        )
    } else {
        None
    }
}

/// The map that a list of entries denotes: each key maps to the value of its
/// first entry.
pub open spec fn entries_map<V>(es: Seq<(String, V)>) -> Map<Seq<char>, V> {
    Map::new(|k: Seq<char>| key_index(es, k) is Some, |k: Seq<char>| es[key_index(es, k)->0].1)
}

pub proof fn lemma_key_index<V>(es: Seq<(String, V)>, k: Seq<char>, i: int)
    requires
        0 <= i < es.len(),
        es[i].0@ == k,
        forall|j: int| 0 <= j < i ==> (#[trigger] es[j]).0@ != k,
    ensures
        key_index(es, k) == Some(i),
{
    let c = choose|c: int|
        0 <= c < es.len() && (#[trigger] es[c]).0@ == k && forall|j: int|
            0 <= j < c ==> (#[trigger] es[j]).0@ != k;
    assert(0 <= c < es.len() && es[c].0@ == k && forall|j: int|
        0 <= j < c ==> (#[trigger] es[j]).0@ != k);
    if c < i {
        assert(es[c].0@ != k);
    } else if c > i {
        assert(es[i].0@ != k);
    }
}

pub proof fn lemma_key_index_some<V>(es: Seq<(String, V)>, k: Seq<char>)
    requires
        key_index(es, k) is Some,
    ensures
        0 <= key_index(es, k)->0 < es.len(),
        es[key_index(es, k)->0].0@ == k,
        forall|j: int| 0 <= j < key_index(es, k)->0 ==> (#[trigger] es[j]).0@ != k,
{
    let w = choose|i: int| 0 <= i < es.len() && (#[trigger] es[i]).0@ == k;
    lemma_first_exists(es, k, w);
}

proof fn lemma_first_exists<V>(es: Seq<(String, V)>, k: Seq<char>, w: int)
    requires
        0 <= w < es.len(),
        es[w].0@ == k,
    ensures
        exists|i: int|
            0 <= i < es.len() && (#[trigger] es[i]).0@ == k && forall|j: int|
                0 <= j < i ==> (#[trigger] es[j]).0@ != k,
    decreases w,
{
    if exists|j: int| 0 <= j < w && (#[trigger] es[j]).0@ == k {
        let j = choose|j: int| 0 <= j < w && (#[trigger] es[j]).0@ == k;
        lemma_first_exists(es, k, j);
    } else {
        assert(forall|j: int| 0 <= j < w ==> (#[trigger] es[j]).0@ != k);
    }
}

impl<V> StringMap<V> {
    /// The entries, in insertion order.
    pub closed spec fn entries(&self) -> Seq<(String, V)> {
        self.entries@
    }

    /// The map from key text to value.
    pub open spec fn to_map(&self) -> Map<Seq<char>, V> {
        entries_map(self.entries())
    }

    pub fn new() -> (m: Self)
        ensures
            m.entries().len() == 0,
            m.to_map() == Map::<Seq<char>, V>::empty(),
    {
        let m = StringMap { entries: Vec::new() };
        assert(m.to_map() =~= Map::<Seq<char>, V>::empty());
        m
    }

    pub fn len(&self) -> (n: usize)
        ensures
            n == self.entries().len(),
    {
        self.entries.len()
    }

    pub fn is_empty(&self) -> (b: bool)
        ensures
            b == (self.entries().len() == 0),
    {
        self.entries.len() == 0
    }

    fn find(&self, key: &[char]) -> (r: Option<usize>)
        ensures
            r matches Some(i) ==> key_index(self.entries(), key@) == Some(i as int) && i
                < self.entries().len(),
            r is None ==> key_index(self.entries(), key@) is None,
    {
        let mut i: usize = 0;
        while i < self.entries.len()
            invariant
                i <= self.entries@.len(),
                forall|j: int| 0 <= j < i ==> (#[trigger] self.entries@[j]).0@ != key@,
            decreases self.entries@.len() - i,
        {
            let k = chars_of(self.entries[i].0.as_str());
            if same(&k, key) {
                proof {
                    lemma_key_index(self.entries@, key@, i as int);
                }
                return Some(i);
            }
            i += 1;
        }
        None
    }

    /// The value stored under `key`.
    pub fn get(&self, key: &str) -> (r: Option<&V>)
        ensures
            r matches Some(v) ==> self.to_map().contains_key(key@) && *v == self.to_map()[key@],
            r is None ==> !self.to_map().contains_key(key@),
    {
        let k = chars_of(key);
        match self.find(&k) {
            Some(i) => Some(&self.entries[i].1),
            None => None,
        }
    }

    pub fn contains_key(&self, key: &str) -> (b: bool)
        ensures
            b == self.to_map().contains_key(key@),
    {
        let k = chars_of(key);
        self.find(&k).is_some()
    }

    /// Stores `value` under `key`, replacing an earlier value.
    pub fn insert(&mut self, key: String, value: V)
        ensures
            final(self).to_map() == old(self).to_map().insert(key@, value),
    {
        let k = chars_of(key.as_str());
        let ghost e0 = self.entries@;
        let ghost kv = key@;
        match self.find(&k) {
            Some(i) => {
                self.entries.set(i, (key, value));
                proof {
                    lemma_map_after_set(e0, self.entries@, i as int, kv, value);
                }
            },
            None => {
                self.entries.push((key, value));
                proof {
                    lemma_map_after_push(e0, self.entries@, kv, value);
                }
            },
        }
    }

    /// The key of the entry at position `i`, in insertion order.
    pub fn key_at(&self, i: usize) -> (k: &String)
        requires
            i < self.entries().len(),
        ensures
            *k == self.entries()[i as int].0,
    {
        &self.entries[i].0
    }

    /// The value of the entry at position `i`, in insertion order.
    pub fn value_at(&self, i: usize) -> (v: &V)
        requires
            i < self.entries().len(),
        ensures
            *v == self.entries()[i as int].1,
    {
        &self.entries[i].1
    }

    /// Stores `value` under `key` unless the key is already present.
    pub fn insert_if_absent(&mut self, key: String, value: V)
        ensures
            old(self).to_map().contains_key(key@) ==> final(self).to_map() == old(self).to_map(),
            !old(self).to_map().contains_key(key@) ==> final(self).to_map() == old(
                self,
            ).to_map().insert(key@, value),
    {
        if !self.contains_key(key.as_str()) {
            self.insert(key, value);
        }
    }
}

pub proof fn lemma_map_after_set<V>(
    e0: Seq<(String, V)>,
    e1: Seq<(String, V)>,
    i: int,
    k: Seq<char>,
    v: V,
)
    requires
        key_index(e0, k) == Some(i),
        e1 == e0.update(i, e1[i]),
        e1[i].0@ == k,
        e1[i].1 == v,
    ensures
        entries_map(e1) == entries_map(e0).insert(k, v),
{
    lemma_key_index_some(e0, k);
    let m1 = entries_map(e1);
    let m0 = entries_map(e0);
    assert forall|q: Seq<char>| #[trigger] m1.contains_key(q) == m0.insert(k, v).contains_key(q) by {
        if q == k {
            assert(e1[i].0@ == q);
        } else {
            if key_index(e0, q) is Some {
                lemma_key_index_some(e0, q);
                let j = key_index(e0, q)->0;
                assert(e1[j].0@ == q);
            }
            if key_index(e1, q) is Some {
                lemma_key_index_some(e1, q);
                let j = key_index(e1, q)->0;
                assert(e0[j].0@ == q);
            }
        }
    }
    assert forall|q: Seq<char>| #[trigger] m1.contains_key(q) implies m1[q] == m0.insert(k, v)[q] by {
        if q == k {
            assert forall|j: int| 0 <= j < i implies (#[trigger] e1[j]).0@ != k by {
                assert(e1[j] == e0[j]);
            }
            lemma_key_index(e1, k, i);
        } else {
            lemma_key_index_some(e0, q);
            let j0 = key_index(e0, q)->0;
            assert(j0 != i);
            assert forall|j: int| 0 <= j < j0 implies (#[trigger] e1[j]).0@ != q by {
                if j != i {
                    assert(e1[j] == e0[j]);
                }
            }
            lemma_key_index(e1, q, j0);
        }
    }
    assert(m1 =~= m0.insert(k, v));
}

pub proof fn lemma_map_after_push<V>(e0: Seq<(String, V)>, e1: Seq<(String, V)>, k: Seq<char>, v: V)
    requires
        key_index(e0, k) is None,
        e1.len() == e0.len() + 1,
        e1.last().0@ == k,
        e1.last().1 == v,
        forall|j: int| 0 <= j < e0.len() ==> #[trigger] e1[j] == e0[j],
    ensures
        entries_map(e1) == entries_map(e0).insert(k, v),
{
    let m1 = entries_map(e1);
    let m0 = entries_map(e0);
    let n = e0.len() as int;
    assert forall|j: int| 0 <= j < n implies (#[trigger] e0[j]).0@ != k by {
        if e0[j].0@ == k {
            assert(key_index(e0, k) is Some);
        }
    }
    assert forall|q: Seq<char>| #[trigger] m1.contains_key(q) == m0.insert(k, v).contains_key(q) by {
        if q == k {
            assert(e1[n].0@ == q);
        } else {
            if key_index(e0, q) is Some {
                lemma_key_index_some(e0, q);
                let j = key_index(e0, q)->0;
                assert(e1[j].0@ == q);
            }
            if key_index(e1, q) is Some {
                lemma_key_index_some(e1, q);
                let j = key_index(e1, q)->0;
                if j < n {
                    assert(e0[j].0@ == q);
                }
            }
        }
    }
    assert forall|q: Seq<char>| #[trigger] m1.contains_key(q) implies m1[q] == m0.insert(k, v)[q] by {
        if q == k {
            assert forall|j: int| 0 <= j < n implies (#[trigger] e1[j]).0@ != k by {
                assert(e1[j] == e0[j]);
            }
            lemma_key_index(e1, k, n);
        } else {
            lemma_key_index_some(e0, q);
            let j0 = key_index(e0, q)->0;
            assert forall|j: int| 0 <= j < j0 implies (#[trigger] e1[j]).0@ != q by {
                assert(e1[j] == e0[j]);
            }
            assert(e1[j0] == e0[j0]);
            lemma_key_index(e1, q, j0);
        }
    }
    assert(m1 =~= m0.insert(k, v));
}

// ===========================================================================
// Document
// ===========================================================================
/// The root of a parsed morg-mode document.
///
/// `link_defs` maps normalised link labels to their destinations; it is
/// filled by the def-ref resolution pass that runs at the end of parsing.
#[derive(Debug)]
pub struct Document {
    pub frontmatter: Option<Frontmatter>,
    pub children: Vec<Block>,
    pub link_defs: StringMap<LinkTarget>,
}

/// The resolved destination of a link reference definition.
#[derive(Debug, Clone, PartialEq)]
pub struct LinkTarget {
    pub url: String,
    pub title: Option<String>,
}

#[derive(Debug)]
pub struct Frontmatter {
    pub raw: String,
    pub data: serde_yaml::Value,
    pub span: Span,
}

#[derive(Debug, PartialEq)]
pub enum Block {
    Heading(Heading),
    Paragraph(Paragraph),
    CodeBlock(CodeBlock),
    BlankLine(Span),
    BlockTag(Tag),
    Callout(Callout),
    Table(Table),
    HtmlBlock(HtmlBlock),
    List(List),
    HorizontalRule(Span),
    Comment(Comment),
    FootnoteDefinition(FootnoteDefinition),
    /// `[label]: url "title"`; read by the def-ref resolution pass and not
    /// rendered.
    LinkDefinition(LinkDefinition),
}

#[derive(Debug, Clone, PartialEq)]
pub struct Comment {
    pub text: String,
    pub span: Span,
}

#[derive(Debug, PartialEq)]
pub struct FootnoteDefinition {
    pub label: String,
    pub content: InlineContent,
    pub span: Span,
}

/// A link reference definition: `[label]: url "optional title"`.
#[derive(Debug, Clone, PartialEq)]
pub struct LinkDefinition {
    pub label: String,
    pub url: String,
    pub title: Option<String>,
    pub span: Span,
}

#[derive(Debug, PartialEq)]
pub struct Heading {
    pub level: u8,
    pub content: InlineContent,
    pub properties: Option<PropertyDrawer>,
    pub span: Span,
}

#[derive(Debug, Clone, PartialEq)]
pub struct PropertyDrawer {
    pub entries: StringMap<String>,
    pub span: Span,
}

#[derive(Debug, PartialEq)]
pub struct Paragraph {
    pub content: InlineContent,
    pub span: Span,
}

#[derive(Debug, Clone, PartialEq)]
pub struct CodeBlock {
    pub lang: Option<String>,
    pub tags: Vec<Tag>,
    pub attributes: StringMap<String>,
    pub body: String,
    pub span: Span,
}

#[derive(Debug, PartialEq)]
pub struct Callout {
    pub kind: String,
    pub tags: Vec<Tag>,
    pub attributes: StringMap<String>,
    pub content: Vec<Block>,
    pub span: Span,
}

#[derive(Debug, PartialEq)]
pub struct Table {
    pub headers: Vec<InlineContent>,
    pub alignments: Vec<Alignment>,
    pub rows: Vec<Vec<InlineContent>>,
    pub span: Span,
}

#[derive(Debug, Clone, Copy, PartialEq, Eq, Structural)]
pub enum Alignment {
    Left,
    Center,
    Right,
    /// No alignment given (`---`).
    Unspecified,
}

#[derive(Debug, Clone, PartialEq)]
pub struct HtmlBlock {
    pub raw: String,
    pub span: Span,
}

#[derive(Debug, PartialEq)]
pub struct List {
    pub kind: ListKind,
    pub items: Vec<ListItem>,
    pub span: Span,
}

#[derive(Debug, Clone, Copy, PartialEq, Eq, Structural)]
pub enum ListKind {
    Unordered,
    Ordered,
}

#[derive(Debug, PartialEq)]
pub struct ListItem {
    pub checkbox: Option<Checkbox>,
    pub content: InlineContent,
    pub description: Option<InlineContent>,
    pub children: Vec<Block>,
    pub indent: usize,
    pub span: Span,
}

#[derive(Debug, Clone, Copy, PartialEq, Eq, Structural)]
pub enum Checkbox {
    Unchecked,
    Checked,
}

#[derive(Debug, PartialEq)]
pub struct InlineContent {
    pub segments: Vec<InlineSegment>,
}

#[derive(Debug, PartialEq)]
pub enum InlineSegment {
    Text(String),
    Tag(Tag),
    Bold(InlineContent),
    Italic(InlineContent),
    Strikethrough(InlineContent),
    Code(String),
    Link(Link),
    Image(Image),
    HardBreak,
    FootnoteRef(String),
    /// An unresolved link reference: `[text][label]` or `[label]`.  The
    /// def-ref resolution pass turns it into a [`Link`] when a matching
    /// definition exists.
    LinkRef {
        /// Display text. For shortcut refs (`[label]`), same as `label`.
        text: String,
        /// The label used to look up [`Document::link_defs`].
        label: String,
    },
}

#[derive(Debug, Clone, PartialEq)]
pub struct Image {
    pub alt: String,
    pub url: String,
    pub title: Option<String>,
}

#[derive(Debug, Clone, PartialEq)]
pub struct Link {
    pub text: String,
    pub url: String,
    pub title: Option<String>,
    pub tags: Vec<Tag>,
    pub attributes: StringMap<String>,
}

// ===========================================================================
// Inline content queries
// ===========================================================================
/// The tags of a sequence of inline segments, in reading order, including
/// those nested in emphasis and those attached to links.
pub open spec fn segs_tags(s: Seq<InlineSegment>) -> Seq<Tag>
    decreases s,
{
    if s.len() == 0 {
        Seq::empty()
    } else {
        segs_tags(s.drop_last()) + seg_tags(s.last())
    }
}

pub open spec fn seg_tags(seg: InlineSegment) -> Seq<Tag>
    decreases seg,
{
    match seg {
        InlineSegment::Tag(t) => seq![t],
        InlineSegment::Bold(c) => segs_tags(c.segments@),
        InlineSegment::Italic(c) => segs_tags(c.segments@),
        InlineSegment::Strikethrough(c) => segs_tags(c.segments@),
        InlineSegment::Link(l) => l.tags@,
        _ => Seq::empty(),
    }
}

/// The text of a sequence of inline segments with all markup stripped.
pub open spec fn segs_text(s: Seq<InlineSegment>) -> Seq<char>
    decreases s,
{
    if s.len() == 0 {
        Seq::empty()
    } else {
        segs_text(s.drop_last()) + seg_text(s.last())
    }
}

pub open spec fn seg_text(seg: InlineSegment) -> Seq<char>
    decreases seg,
{
    match seg {
        InlineSegment::Text(t) => t@,
        InlineSegment::Code(c) => c@,
        InlineSegment::Tag(_) => Seq::empty(),
        InlineSegment::Bold(c) => segs_text(c.segments@),
        InlineSegment::Italic(c) => segs_text(c.segments@),
        InlineSegment::Strikethrough(c) => segs_text(c.segments@),
        InlineSegment::Link(l) => l.text@,
        InlineSegment::Image(i) => i.alt@,
        InlineSegment::HardBreak => seq!['\n'],
        InlineSegment::LinkRef { text, .. } => text@,
        InlineSegment::FootnoteRef(label) => "[^"@ + label@ + "]"@,
    }
}

impl InlineContent {
    /// Content made of one text segment.
    pub fn plain(text: &str) -> (c: Self)
        ensures
            c.segments@.len() == 1,
            c.segments@[0] matches InlineSegment::Text(t) && t@ == text@,
    {
        let mut segments: Vec<InlineSegment> = Vec::new();
        segments.push(InlineSegment::Text(string_of(&chars_of(text))));
        InlineContent { segments }
    }

    pub fn empty() -> (c: Self)
        ensures
            c.segments@.len() == 0,
    {
        InlineContent { segments: Vec::new() }
    }

    /// The tags of the content, in reading order, including those nested in
    /// emphasis and those attached to links.
    pub fn tags(&self) -> (r: Vec<&Tag>)
        ensures
            r@.len() == segs_tags(self.segments@).len(),
            forall|i: int| 0 <= i < r@.len() ==> *(#[trigger] r@[i]) == segs_tags(self.segments@)[i],
    {
        let mut result: Vec<&Tag> = Vec::new();
        collect_tags_from_segments(&self.segments, &mut result);
        assert forall|i: int| 0 <= i < result@.len() implies *(#[trigger] result@[i]) == segs_tags(
            self.segments@,
        )[i] by {
            assert(result@[0 + i] == result@[i]);
        }
        result
    }

    /// The text of the content with all markup stripped, trimmed.
    pub fn plain_text(&self) -> (s: String)
        ensures
            s@ == trim(segs_text(self.segments@)),
    {
        let mut out: Vec<char> = Vec::new();
        plain_text_segments(&self.segments, &mut out);
        string_of(&trimmed(&out))
    }
}

fn plain_text_segments(segments: &Vec<InlineSegment>, out: &mut Vec<char>)
    ensures
        final(out)@ == old(out)@ + segs_text(segments@),
    decreases segments@,
{
    let mut i: usize = 0;
    while i < segments.len()
        invariant
            i <= segments@.len(),
            out@ == old(out)@ + segs_text(segments@.take(i as int)),
        decreases segments@.len() - i,
    {
        assert(segments@.take(i + 1).drop_last() == segments@.take(i as int));
        let ghost before = out@;
        match &segments[i] {
            InlineSegment::Text(t) => append_str(out, t.as_str()),
            InlineSegment::Code(c) => append_str(out, c.as_str()),
            InlineSegment::Tag(_) => {},
            InlineSegment::Bold(inner) => {
                plain_text_segments(&inner.segments, out);
                assert(seg_text(segments@[i as int]) == segs_text(inner.segments@));
            },
            InlineSegment::Italic(inner) => {
                plain_text_segments(&inner.segments, out);
                assert(seg_text(segments@[i as int]) == segs_text(inner.segments@));
            },
            InlineSegment::Strikethrough(inner) => {
                plain_text_segments(&inner.segments, out);
                assert(seg_text(segments@[i as int]) == segs_text(inner.segments@));
            },
            InlineSegment::Link(link) => append_str(out, link.text.as_str()),
            InlineSegment::Image(img) => append_str(out, img.alt.as_str()),
            InlineSegment::HardBreak => out.push('\n'),
            InlineSegment::LinkRef { text, .. } => append_str(out, text.as_str()),
            InlineSegment::FootnoteRef(label) => {
                append_str(out, "[^");
                append_str(out, label.as_str());
                append_str(out, "]");
            },
        }
        assert(segs_text(segments@.take(i + 1)) == segs_text(segments@.take(i as int)) + seg_text(
            segments@[i as int],
        ));
        assert(out@ =~= old(out)@ + segs_text(segments@.take(i + 1)));
        i += 1;
    }
    assert(segments@.take(segments@.len() as int) == segments@);
}

/// Appends the characters of `s`.
pub fn append_str(out: &mut Vec<char>, s: &str)
    ensures
        final(out)@ == old(out)@ + s@,
{
    let mut v = chars_of(s);
    out.append(&mut v);
}

fn collect_tags_from_segments<'a>(segments: &'a Vec<InlineSegment>, out: &mut Vec<&'a Tag>)
    ensures
        final(out)@.len() == old(out)@.len() + segs_tags(segments@).len(),
        forall|i: int| 0 <= i < old(out)@.len() ==> #[trigger] final(out)@[i] == old(out)@[i],
        forall|i: int|
            0 <= i < segs_tags(segments@).len() ==> *(#[trigger] final(out)@[old(out)@.len() + i])
                == segs_tags(segments@)[i],
    decreases segments@,
{
    let mut i: usize = 0;
    while i < segments.len()
        invariant
            i <= segments@.len(),
            out@.len() == old(out)@.len() + segs_tags(segments@.take(i as int)).len(),
            forall|j: int| 0 <= j < old(out)@.len() ==> #[trigger] out@[j] == old(out)@[j],
            forall|j: int|
                0 <= j < segs_tags(segments@.take(i as int)).len() ==> *(#[trigger] out@[old(
                    out,
                )@.len() + j]) == segs_tags(segments@.take(i as int))[j],
        decreases segments@.len() - i,
    {
        assert(segments@.take(i + 1).drop_last() == segments@.take(i as int));
        let ghost before = out@;
        let ghost prev = segs_tags(segments@.take(i as int));
        match &segments[i] {
            InlineSegment::Tag(t) => {
                out.push(t);
            },
            InlineSegment::Bold(inner) => {
                collect_tags_from_segments(&inner.segments, out);
                assert(seg_tags(segments@[i as int]) == segs_tags(inner.segments@));
            },
            InlineSegment::Italic(inner) => {
                collect_tags_from_segments(&inner.segments, out);
                assert(seg_tags(segments@[i as int]) == segs_tags(inner.segments@));
            },
            InlineSegment::Strikethrough(inner) => {
                collect_tags_from_segments(&inner.segments, out);
                assert(seg_tags(segments@[i as int]) == segs_tags(inner.segments@));
            },
            InlineSegment::Link(link) => {
                let mut k: usize = 0;
                while k < link.tags.len()
                    invariant
                        k <= link.tags@.len(),
                        out@.len() == before.len() + k,
                        forall|j: int| 0 <= j < before.len() ==> #[trigger] out@[j] == before[j],
                        forall|j: int| 0 <= j < k ==> *(#[trigger] out@[before.len() + j]) == link.tags@[j],
                    decreases link.tags@.len() - k,
                {
                    out.push(&link.tags[k]);
                    k += 1;
                }
                assert(seg_tags(segments@[i as int]) == link.tags@);
            },
            _ => {},
        }
        let ghost now = segs_tags(segments@.take(i + 1));
        assert(now == prev + seg_tags(segments@[i as int]));
        assert forall|j: int| 0 <= j < now.len() implies *(#[trigger] out@[old(out)@.len() + j]) == now[j] by {
            if j < prev.len() {
                assert(out@[old(out)@.len() + j] == before[old(out)@.len() + j]);
            } else {
                assert(now[j] == seg_tags(segments@[i as int])[j - prev.len()]);
                assert(old(out)@.len() + j == before.len() + (j - prev.len()));
            }
        }
        i += 1;
    }
    assert(segments@.take(segments@.len() as int) == segments@);
}

} // verus!
