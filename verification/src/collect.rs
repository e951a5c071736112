//! Walking the tags of a document, with the tags each one inherits from
//! the headings above it and from the file's frontmatter.

use serde_yaml::Value as Yaml;
use vstd::prelude::*;

use crate::ast::{segs_tags, Block, Document, Heading};
use crate::tags::{Tag, TagKind};
use crate::text::{chars_of, same, string_of, to_upper, trim, trimmed, uppercase};
use crate::words::{split_char, split_on, views};

verus! {

// ===========================================================================
// Frontmatter values
// ===========================================================================
/// An item of a frontmatter sequence.
#[derive(Debug, PartialEq)]
pub enum YamlLeaf {
    Str(String),
    /// A nested sequence; `None` for an element that is not a string.
    List(Vec<Option<String>>),
    Other,
}

/// The value of a frontmatter key, as far as the library reads it.
#[derive(Debug, PartialEq)]
pub enum YamlItem {
    /// The text is not a YAML mapping, or has no such key.
    Absent,
    Str(String),
    List(Vec<YamlLeaf>),
    Other,
}

/// The value that `serde_yaml` finds under `key` when it reads `raw` as a
/// YAML mapping, converted to a [`YamlItem`].
pub uninterp spec fn yaml_lookup(raw: Seq<char>, key: Seq<char>) -> YamlItem;

/// Reads `raw` with `serde_yaml::from_str::<serde_yaml::Value>` and, when
/// the document is a mapping, converts the value under `key`
/// (`Mapping::get`): a string, or a sequence
/// whose strings and nested sequences of strings are kept.  The contract
/// claims only that the result depends on `raw` and `key` alone.
#[verifier::external_body]
fn frontmatter_value(raw: &str, key: &str) -> (r: YamlItem)
    ensures
        r == yaml_lookup(raw@, key@),
{
    let doc = serde_yaml::from_str::<Yaml>(raw).ok();
    let found = match &doc { Some(Yaml::Mapping(m)) => m.get(key), _ => None };
    match found {
        None => YamlItem::Absent,
        Some(Yaml::String(s)) => YamlItem::Str(s.clone()),
        Some(Yaml::Sequence(xs)) => YamlItem::List(xs.iter().map(|x| match x {
            Yaml::String(s) => YamlLeaf::Str(s.clone()),
            Yaml::Sequence(ys) => YamlLeaf::List(ys.iter().map(|y| y.as_str().map(String::from)).collect()),
            _ => YamlLeaf::Other,
        }).collect()),
        Some(_) => YamlItem::Other,
    }
}

/// The title of a document: the string under `title` in its frontmatter.
pub open spec fn title_of(doc: Document) -> Option<Seq<char>> {
    match doc.frontmatter {
        Some(fm) => match yaml_lookup(fm.raw@, "title"@) {
            YamlItem::Str(s) => Some(s@),
            _ => None,
        },
        None => None,
    }
}

/// The title of a document (see [`title_of`]).
pub fn document_title(doc: &Document) -> (r: Option<String>)
    ensures
        match r {
            Some(t) => title_of(*doc) == Some(t@),
            None => title_of(*doc) is None,
        },
{
    match &doc.frontmatter {
        Some(fm) => match frontmatter_value(fm.raw.as_str(), "title") {
            YamlItem::Str(s) => Some(s),
            _ => None,
        },
        None => None,
    }
}

/// The string items of a sequence, in order.
pub open spec fn leaf_strings(ls: Seq<YamlLeaf>) -> Seq<Seq<char>>
    decreases ls.len(),
{
    if ls.len() == 0 {
        Seq::empty()
    } else {
        let rest = leaf_strings(ls.drop_last());
        match ls.last() {
            YamlLeaf::Str(s) => rest.push(s@),
            _ => rest,
        }
    }
}

/// The non-empty trimmed pieces of a comma-separated list.
pub open spec fn comma_items(ps: Seq<Seq<char>>) -> Seq<Seq<char>>
    decreases ps.len(),
{
    if ps.len() == 0 {
        Seq::empty()
    } else {
        let rest = comma_items(ps.drop_last());
        if trim(ps.last()).len() > 0 {
            rest.push(trim(ps.last()))
        } else {
            rest
        }
    }
}

/// The tags that a frontmatter `tags:` value gives: the strings of a
/// sequence, or the items of a comma-separated string.
pub open spec fn tags_of_item(item: YamlItem) -> Seq<Seq<char>> {
    match item {
        YamlItem::List(ls) => leaf_strings(ls@),
        YamlItem::Str(s) => comma_items(split_on(s@, ',')),
        _ => Seq::empty(),
    }
}

/// The views of a vector of strings.
pub open spec fn string_views(v: Seq<String>) -> Seq<Seq<char>> {
    v.map_values(|s: String| s@)
}

/// The file-level tags of a document: its frontmatter's `tags` field, a
/// list or a comma-separated string.
pub fn file_tags(document: &Document) -> (r: Vec<String>)
    ensures
        string_views(r@) == match document.frontmatter {
            Some(fm) => tags_of_item(yaml_lookup(fm.raw@, "tags"@)),
            None => Seq::empty(),
        },
{
    let fm = match &document.frontmatter {
        Some(fm) => fm,
        None => {
            let r: Vec<String> = Vec::new();
            assert(string_views(r@) =~= Seq::<Seq<char>>::empty());
            return r;
        },
    };
    let item = frontmatter_value(fm.raw.as_str(), "tags");
    let mut out: Vec<String> = Vec::new();
    match &item {
        YamlItem::List(ls) => {
            let mut i: usize = 0;
            while i < ls.len()
                invariant
                    i <= ls@.len(),
                    string_views(out@) == leaf_strings(ls@.take(i as int)),
                decreases ls@.len() - i,
            {
                assert(ls@.take(i + 1).drop_last() =~= ls@.take(i as int));
                let ghost o = string_views(out@);
                match &ls[i] {
                    YamlLeaf::Str(s) => {
                        out.push(s.clone());
                        assert(string_views(out@) =~= o.push(s@));
                    },
                    _ => {},
                }
                i += 1;
            }
            assert(ls@.take(ls@.len() as int) =~= ls@);
        },
        YamlItem::Str(s) => {
            let pieces = split_char(&chars_of(s.as_str()), ',');
            let ghost ps = views(pieces@);
            let mut i: usize = 0;
            assert(string_views(out@) =~= comma_items(ps.take(0)));
            while i < pieces.len()
                invariant
                    i <= pieces@.len(),
                    ps == views(pieces@),
                    string_views(out@) == comma_items(ps.take(i as int)),
                decreases pieces@.len() - i,
            {
                assert(ps.take(i + 1).drop_last() =~= ps.take(i as int));
                let t = trimmed(&pieces[i]);
                if t.len() > 0 {
                    let ghost o = string_views(out@);
                    out.push(string_of(&t));
                    assert(string_views(out@) =~= o.push(t@));
                }
                i += 1;
            }
            assert(ps.take(ps.len() as int) =~= ps);
        },
        _ => {
            assert(string_views(out@) =~= Seq::<Seq<char>>::empty());
        },
    }
    out
}

// ===========================================================================
// Custom todo sequences
// ===========================================================================
/// A custom sequence of todo states, each with whether it counts as done.
#[derive(Debug)]
pub struct TodoSequence {
    pub states: Vec<(String, bool)>,
}

/// The states of a frontmatter sequence of state names: upper-cased, those
/// after a `|` marked done.
pub open spec fn states_of(names: Seq<Seq<char>>, past: bool) -> Seq<(Seq<char>, bool)>
    decreases names.len(),
{
    if names.len() == 0 {
        Seq::empty()
    } else if names[0] == "|"@ {
        states_of(names.drop_first(), true)
    } else {
        seq![(uppercase(names[0]), past)] + states_of(names.drop_first(), past)
    }
}

/// The views of the states of a sequence.
pub open spec fn state_views(s: Seq<(String, bool)>) -> Seq<(Seq<char>, bool)> {
    s.map_values(|p: (String, bool)| (p.0@, p.1))
}

/// All elements are strings.
pub open spec fn all_strings(xs: Seq<Option<String>>) -> bool {
    forall|i: int| 0 <= i < xs.len() ==> xs[i] is Some
}

/// The names of a sequence whose elements are all strings.
pub open spec fn names_of(xs: Seq<Option<String>>) -> Seq<Seq<char>> {
    xs.map_values(|x: Option<String>| x->0@)
}

/// The todo sequences that a frontmatter `todo_sequences:` value gives: one
/// per nested sequence of strings, in order.
pub open spec fn sequences_of(ls: Seq<YamlLeaf>) -> Seq<Seq<(Seq<char>, bool)>>
    decreases ls.len(),
{
    if ls.len() == 0 {
        Seq::empty()
    } else {
        let rest = sequences_of(ls.drop_last());
        match ls.last() {
            YamlLeaf::List(xs) => if all_strings(xs@) {
                rest.push(states_of(names_of(xs@), false))
            } else {
                rest
            },
            _ => rest,
        }
    }
}

fn states_from(xs: &Vec<Option<String>>) -> (r: Option<Vec<(String, bool)>>)
    ensures
        match r {
            Some(s) => all_strings(xs@) && state_views(s@) == states_of(names_of(xs@), false),
            None => !all_strings(xs@),
        },
{
    let ghost names = names_of(xs@);
    let mut states: Vec<(String, bool)> = Vec::new();
    let mut past = false;
    let mut i: usize = 0;
    assert(names.skip(0) =~= names);
    assert(state_views(states@) + states_of(names, false) =~= states_of(names, false));
    while i < xs.len()
        invariant
            i <= xs@.len(),
            names == names_of(xs@),
            forall|k: int| 0 <= k < i ==> xs@[k] is Some,
            state_views(states@) + states_of(names.skip(i as int), past) == states_of(names, false),
        decreases xs@.len() - i,
    {
        proof {
            reveal_strlit("|");
        }
        let ghost rest = names.skip(i as int);
        assert(rest.drop_first() =~= names.skip(i + 1));
        match &xs[i] {
            Some(s) => {
                assert(rest[0] == s@);
                let c = chars_of(s.as_str());
                if same(&c, &chars_of("|")) {
                    past = true;
                } else {
                    let ghost o = state_views(states@);
                    states.push((string_of(&to_upper(&c)), past));
                    assert(state_views(states@) =~= o.push((uppercase(s@), past)));
                    assert(o.push((uppercase(s@), past)) + states_of(names.skip(i + 1), past) =~= o
                        + (seq![(uppercase(s@), past)] + states_of(names.skip(i + 1), past)));
                }
            },
            None => {
                return None;
            },
        }
        i += 1;
    }
    assert(names.skip(xs@.len() as int) =~= Seq::<Seq<char>>::empty());
    assert(state_views(states@) + Seq::<(Seq<char>, bool)>::empty() =~= state_views(states@));
    Some(states)
}

/// The custom todo sequences declared in a document's frontmatter, e.g.
/// `todo_sequences: [["TODO", "NEXT", "|", "DONE"]]`.
pub fn todo_sequences(document: &Document) -> (r: Vec<TodoSequence>)
    ensures
        r@.map_values(|t: TodoSequence| state_views(t.states@)) == match document.frontmatter {
            Some(fm) => match yaml_lookup(fm.raw@, "todo_sequences"@) {
                YamlItem::List(ls) => sequences_of(ls@),
                _ => Seq::empty(),
            },
            None => Seq::empty(),
        },
{
    let mut out: Vec<TodoSequence> = Vec::new();
    let fm = match &document.frontmatter {
        Some(fm) => fm,
        None => {
            assert(out@.map_values(|t: TodoSequence| state_views(t.states@)) =~= Seq::<
                Seq<(Seq<char>, bool)>,
            >::empty());
            return out;
        },
    };
    let item = frontmatter_value(fm.raw.as_str(), "todo_sequences");
    match &item {
        YamlItem::List(ls) => {
            let mut i: usize = 0;
            while i < ls.len()
                invariant
                    i <= ls@.len(),
                    out@.map_values(|t: TodoSequence| state_views(t.states@)) == sequences_of(
                        ls@.take(i as int),
                    ),
                decreases ls@.len() - i,
            {
                assert(ls@.take(i + 1).drop_last() =~= ls@.take(i as int));
                let ghost o = out@.map_values(|t: TodoSequence| state_views(t.states@));
                match &ls[i] {
                    YamlLeaf::List(xs) => {
                        match states_from(xs) {
                            Some(states) => {
                                let ghost sv = state_views(states@);
                                out.push(TodoSequence { states });
                                assert(out@.map_values(|t: TodoSequence| state_views(t.states@))
                                    =~= o.push(sv));
                            },
                            None => {},
                        }
                    },
                    _ => {},
                }
                i += 1;
            }
            assert(ls@.take(ls@.len() as int) =~= ls@);
        },
        _ => {
            assert(out@.map_values(|t: TodoSequence| state_views(t.states@)) =~= Seq::<
                Seq<(Seq<char>, bool)>,
            >::empty());
        },
    }
    out
}

/// The first state, over all sequences in order, named `name` (compared in
/// upper case), with whether it counts as done.
pub open spec fn custom_state(name: Seq<char>, seqs: Seq<Seq<(Seq<char>, bool)>>) -> Option<
    (Seq<char>, bool),
>
    decreases seqs.len(),
{
    if seqs.len() == 0 {
        None
    } else {
        match first_state(uppercase(name), seqs[0]) {
            Some(s) => Some(s),
            None => custom_state(name, seqs.drop_first()),
        }
    }
}

/// The first state of `states` named `upper`.
pub open spec fn first_state(upper: Seq<char>, states: Seq<(Seq<char>, bool)>) -> Option<
    (Seq<char>, bool),
>
    decreases states.len(),
{
    if states.len() == 0 {
        None
    } else if states[0].0 == upper {
        Some(states[0])
    } else {
        first_state(upper, states.drop_first())
    }
}

/// Looks a tag name up among custom todo states, comparing in upper case;
/// the state's name and whether it counts as done.
pub fn match_custom_state(name: &str, sequences: &Vec<TodoSequence>) -> (r: Option<(String, bool)>)
    ensures
        match r {
            Some((n, d)) => custom_state(
                name@,
                sequences@.map_values(|t: TodoSequence| state_views(t.states@)),
            ) == Some((n@, d)),
            None => custom_state(
                name@,
                sequences@.map_values(|t: TodoSequence| state_views(t.states@)),
            ) is None,
        },
{
    let upper = to_upper(&chars_of(name));
    let ghost all = sequences@.map_values(|t: TodoSequence| state_views(t.states@));
    let mut i: usize = 0;
    assert(all.skip(0) =~= all);
    while i < sequences.len()
        invariant
            i <= sequences@.len(),
            all == sequences@.map_values(|t: TodoSequence| state_views(t.states@)),
            upper@ == uppercase(name@),
            custom_state(name@, all.skip(i as int)) == custom_state(name@, all),
        decreases sequences@.len() - i,
    {
        let states = &sequences[i].states;
        let ghost sv = state_views(states@);
        assert(all.skip(i as int)[0] == sv);
        assert(all.skip(i as int).drop_first() =~= all.skip(i + 1));
        let mut j: usize = 0;
        assert(sv.skip(0) =~= sv);
        while j < states.len()
            invariant
                j <= states@.len(),
                i < sequences@.len(),
                all == sequences@.map_values(|t: TodoSequence| state_views(t.states@)),
                upper@ == uppercase(name@),
                custom_state(name@, all.skip(i as int)) == custom_state(name@, all),
                all.skip(i as int)[0] == sv,
                sv == state_views(states@),
                first_state(upper@, sv.skip(j as int)) == first_state(upper@, sv),
            decreases states@.len() - j,
        {
            assert(sv.skip(j as int)[0] == (states@[j as int].0@, states@[j as int].1));
            assert(sv.skip(j as int).drop_first() =~= sv.skip(j + 1));
            if same(&chars_of(states[j].0.as_str()), &upper) {
                return Some((states[j].0.clone(), states[j].1));
            }
            j += 1;
        }
        assert(sv.skip(states@.len() as int) =~= Seq::<(Seq<char>, bool)>::empty());
        i += 1;
    }
    assert(all.skip(sequences@.len() as int) =~= Seq::<Seq<(Seq<char>, bool)>>::empty());
    None
}

// ===========================================================================
// Sorted tag lists
// ===========================================================================
/// `a` comes before `b` in the order of `String`: lexicographic by
/// character.
pub open spec fn str_lt(a: Seq<char>, b: Seq<char>) -> bool
    decreases a.len(),
{
    if a.len() == 0 {
        b.len() > 0
    } else if b.len() == 0 {
        false
    } else if a[0] != b[0] {
        (a[0] as int) < (b[0] as int)
    } else {
        str_lt(a.drop_first(), b.drop_first())
    }
}

pub proof fn lemma_str_lt_trans(a: Seq<char>, b: Seq<char>, c: Seq<char>)
    requires
        str_lt(a, b),
        str_lt(b, c),
    ensures
        str_lt(a, c),
    decreases a.len(),
{
    if a.len() > 0 && b.len() > 0 && c.len() > 0 && a[0] == b[0] && b[0] == c[0] {
        lemma_str_lt_trans(a.drop_first(), b.drop_first(), c.drop_first());
    }
}

pub proof fn lemma_str_lt_total(a: Seq<char>, b: Seq<char>)
    ensures
        str_lt(a, b) || str_lt(b, a) || a == b,
        !(str_lt(a, b) && str_lt(b, a)),
        !str_lt(a, a),
    decreases a.len(),
{
    if a.len() > 0 && b.len() > 0 && a[0] == b[0] {
        lemma_str_lt_total(a.drop_first(), b.drop_first());
        if a.drop_first() == b.drop_first() {
            assert(a =~= seq![a[0]] + a.drop_first());
            assert(b =~= seq![b[0]] + b.drop_first());
        }
    }
    if a.len() > 0 {
        lemma_str_lt_total(a.drop_first(), a.drop_first());
    }
    if a.len() == 0 && b.len() == 0 {
        assert(a =~= b);
    }

}

/// Whether `a` comes before `b` in the order of `String`.
pub fn str_less(a: &[char], b: &[char]) -> (r: bool)
    ensures
        r == str_lt(a@, b@),
{
    let mut i: usize = 0;
    assert(a@.skip(0) =~= a@);
    assert(b@.skip(0) =~= b@);
    while i < a.len() && i < b.len() && a[i] == b[i]
        invariant
            i <= a.len(),
            i <= b.len(),
            str_lt(a@.skip(i as int), b@.skip(i as int)) == str_lt(a@, b@),
        decreases a.len() - i,
    {
        assert(a@.skip(i as int).drop_first() =~= a@.skip(i + 1));
        assert(b@.skip(i as int).drop_first() =~= b@.skip(i + 1));
        i += 1;
    }
    if i == a.len() {
        i < b.len()
    } else if i == b.len() {
        false
    } else {
        let x = a[i];
        let y = b[i];
        assert(a@.skip(i as int)[0] == x && b@.skip(i as int)[0] == y);
        x < y
    }
}

/// Each element comes before the next: sorted, without duplicates.
pub open spec fn strictly_sorted(v: Seq<Seq<char>>) -> bool {
    forall|i: int, j: int| 0 <= i < j < v.len() ==> str_lt(#[trigger] v[i], #[trigger] v[j])
}

/// Adds `s` to a sorted list of strings unless it is already there.
fn insert_sorted(v: &mut Vec<String>, s: &String)
    requires
        strictly_sorted(string_views(old(v)@)),
    ensures
        strictly_sorted(string_views(final(v)@)),
        string_views(final(v)@).to_set() == string_views(old(v)@).to_set().insert(s@),
{
    let ghost sv = string_views(v@);
    let sc = chars_of(s.as_str());
    let mut p: usize = 0;
    loop
        invariant_except_break
            p <= v@.len(),
            sv == string_views(v@),
            sc@ == s@,
            forall|k: int| 0 <= k < p ==> str_lt(#[trigger] sv[k], s@),
        ensures
            p <= v@.len(),
            sv == string_views(v@),
            forall|k: int| 0 <= k < p ==> str_lt(#[trigger] sv[k], s@),
            p < v@.len() ==> !str_lt(sv[p as int], s@),
        decreases v@.len() - p,
    {
        if p >= v.len() {
            break ;
        }
        let vp = chars_of(v[p].as_str());
        assert(vp@ == sv[p as int]);
        if !str_less(&vp, &sc) {
            break ;
        }
        p += 1;
    }
    if p < v.len() && same(&chars_of(v[p].as_str()), &sc) {
        assert(sv[p as int] == s@);
        assert(sv.to_set().insert(s@) =~= sv.to_set());
        return ;
    }
    v.insert(p, s.clone());
    let ghost nv = string_views(v@);
    assert(nv =~= sv.insert(p as int, s@));
    proof {
        if p < sv.len() {
            lemma_str_lt_total(sv[p as int], s@);
            assert(str_lt(s@, sv[p as int]));
        }
        assert forall|i: int, j: int| 0 <= i < j < nv.len() implies str_lt(
            #[trigger] nv[i],
            #[trigger] nv[j],
        ) by {
            if j < p {
                assert(nv[i] == sv[i] && nv[j] == sv[j]);
            } else if j == p {
                assert(nv[i] == sv[i]);
            } else if i == p {
                assert(nv[j] == sv[j - 1]);
                if j - 1 > p {
                    lemma_str_lt_trans(s@, sv[p as int], sv[j - 1]);
                }
            } else if i < p {
                assert(nv[i] == sv[i] && nv[j] == sv[j - 1]);
            } else {
                assert(nv[i] == sv[i - 1] && nv[j] == sv[j - 1]);
            }
        }
        assert(nv.to_set() =~= sv.to_set().insert(s@)) by {
            assert forall|x: Seq<char>| nv.to_set().contains(x) implies sv.to_set().insert(
                s@,
            ).contains(x) by {
                let k = choose|k: int| 0 <= k < nv.len() && nv[k] == x;
                if k < p {
                    assert(sv[k] == x);
                } else if k > p {
                    assert(sv[k - 1] == x);
                }
            }
            assert forall|x: Seq<char>| sv.to_set().insert(s@).contains(x) implies nv.to_set().contains(
                x,
            ) by {
                if x == s@ {
                    assert(nv[p as int] == x);
                } else {
                    let k = choose|k: int| 0 <= k < sv.len() && sv[k] == x;
                    if k < p {
                        assert(nv[k] == x);
                    } else {
                        assert(nv[k + 1] == x);
                    }
                }
            }
        }
    }
}

/// A heading on the inheritance stack: its level, its own tags, and
/// whether it is archived.
pub struct StackEntry {
    pub level: u8,
    pub tags: Vec<String>,
    pub archived: bool,
}

/// All tags of the stack, in order.
pub open spec fn stack_tags(st: Seq<StackEntry>) -> Seq<Seq<char>>
    decreases st.len(),
{
    if st.len() == 0 {
        Seq::empty()
    } else {
        stack_tags(st.drop_last()) + string_views(st.last().tags@)
    }
}

/// Some heading of the stack is archived.
pub open spec fn stack_archived(st: Seq<StackEntry>) -> bool {
    exists|i: int| 0 <= i < st.len() && st[i].archived
}

/// The tags a block inherits, sorted and without duplicates, and whether
/// it lies under an archived heading.
pub fn compute_inherited(stack: &Vec<StackEntry>, file_tags: &Vec<String>) -> (r: (
    Vec<String>,
    bool,
))
    ensures
        strictly_sorted(string_views(r.0@)),
        string_views(r.0@).to_set() == (string_views(file_tags@) + stack_tags(stack@)).to_set(),
        r.1 == stack_archived(stack@),
{
    let mut tags: Vec<String> = Vec::new();
    let mut i: usize = 0;
    assert(string_views(file_tags@).take(0).to_set() =~= string_views(tags@).to_set());
    while i < file_tags.len()
        invariant
            i <= file_tags@.len(),
            strictly_sorted(string_views(tags@)),
            string_views(tags@).to_set() == string_views(file_tags@).take(i as int).to_set(),
        decreases file_tags@.len() - i,
    {
        insert_sorted(&mut tags, &file_tags[i]);
        assert(string_views(file_tags@).take(i + 1) =~= string_views(file_tags@).take(i as int).push(
            file_tags@[i as int]@,
        ));
        proof {
            let q = string_views(file_tags@).take(i as int);
            Seq::lemma_to_set_insert_commutes(q, file_tags@[i as int]@);
            assert(q.push(file_tags@[i as int]@) =~= q + seq![file_tags@[i as int]@]);
        }
        i += 1;
    }
    assert(string_views(file_tags@).take(file_tags@.len() as int) =~= string_views(file_tags@));
    let ghost ft = string_views(file_tags@);
    let mut archived = false;
    let mut k: usize = 0;
    assert(stack_tags(stack@.take(0)) =~= Seq::<Seq<char>>::empty());
    assert(ft + Seq::<Seq<char>>::empty() =~= ft);
    while k < stack.len()
        invariant
            k <= stack@.len(),
            strictly_sorted(string_views(tags@)),
            string_views(tags@).to_set() == (ft + stack_tags(stack@.take(k as int))).to_set(),
            archived == exists|j: int| 0 <= j < k && stack@[j].archived,
        decreases stack@.len() - k,
    {
        let e = &stack[k];
        let ghost pre = ft + stack_tags(stack@.take(k as int));
        assert(stack@.take(k + 1).drop_last() =~= stack@.take(k as int));
        let mut t: usize = 0;
        while t < e.tags.len()
            invariant
                t <= e.tags@.len(),
                strictly_sorted(string_views(tags@)),
                string_views(tags@).to_set() == (pre + string_views(e.tags@).take(t as int)).to_set(),
            decreases e.tags@.len() - t,
        {
            insert_sorted(&mut tags, &e.tags[t]);
            assert(pre + string_views(e.tags@).take(t + 1) =~= (pre + string_views(e.tags@).take(
                t as int,
            )).push(e.tags@[t as int]@));
            proof {
                let q = pre + string_views(e.tags@).take(t as int);
                Seq::lemma_to_set_insert_commutes(q, e.tags@[t as int]@);
                assert(q.push(e.tags@[t as int]@) =~= q + seq![e.tags@[t as int]@]);
            }
            t += 1;
        }
        assert(string_views(e.tags@).take(e.tags@.len() as int) =~= string_views(e.tags@));
        assert(ft + stack_tags(stack@.take(k + 1)) =~= pre + string_views(e.tags@));
        if e.archived {
            archived = true;
        }
        k += 1;
    }
    assert(stack@.take(stack@.len() as int) =~= stack@);
    (tags, archived)
}

// ===========================================================================
// Walking the tags of a document
// ===========================================================================
/// A tag found in a document, with where it stands.
pub struct TagContext<'a> {
    pub file: &'a str,
    pub tag: &'a Tag,
    pub parent_heading: Option<&'a Heading>,
    /// The tags inherited from the file and the enclosing headings, sorted
    /// and without duplicates.
    pub inherited_tags: Vec<String>,
    /// Whether an enclosing heading is archived.
    pub is_archived: bool,
}

/// The tags of a row of cells, in order.
pub open spec fn cells_tags(cells: Seq<crate::ast::InlineContent>) -> Seq<Tag>
    decreases cells.len(),
{
    if cells.len() == 0 {
        Seq::empty()
    } else {
        cells_tags(cells.drop_last()) + segs_tags(cells.last().segments@)
    }
}

/// The tags of the body rows of a table, in order.
pub open spec fn rows_tags(rows: Seq<Vec<crate::ast::InlineContent>>) -> Seq<Tag>
    decreases rows.len(),
{
    if rows.len() == 0 {
        Seq::empty()
    } else {
        rows_tags(rows.drop_last()) + cells_tags(rows.last()@)
    }
}

/// The tags that the walk visits in a block, in document order: those of
/// headings, paragraphs, block tags, code blocks, table cells and list
/// items, and of the blocks inside callouts and list items.
pub open spec fn block_walk_tags(b: Block) -> Seq<Tag>
    decreases b,
{
    match b {
        Block::Heading(h) => segs_tags(h.content.segments@),
        Block::Paragraph(p) => segs_tags(p.content.segments@),
        Block::BlockTag(t) => seq![t],
        Block::CodeBlock(cb) => cb.tags@,
        Block::Callout(c) => blocks_walk_tags(c.content@),
        Block::Table(t) => cells_tags(t.headers@) + rows_tags(t.rows@),
        Block::List(l) => items_walk_tags(l.items@),
        _ => Seq::empty(),
    }
}

pub open spec fn blocks_walk_tags(bs: Seq<Block>) -> Seq<Tag>
    decreases bs,
{
    if bs.len() == 0 {
        Seq::empty()
    } else {
        blocks_walk_tags(bs.drop_last()) + block_walk_tags(bs.last())
    }
}

pub open spec fn items_walk_tags(items: Seq<crate::ast::ListItem>) -> Seq<Tag>
    decreases items,
{
    if items.len() == 0 {
        Seq::empty()
    } else {
        items_walk_tags(items.drop_last()) + segs_tags(items.last().content.segments@)
            + blocks_walk_tags(items.last().children@)
    }
}

/// The tags of a list of contexts.
pub open spec fn context_tags<'a>(cs: Seq<TagContext<'a>>) -> Seq<Tag> {
    cs.map_values(|c: TagContext<'a>| *c.tag)
}

/// What a context says of where its tag stands: the heading above it, the
/// set of tags it inherits, and whether it is archived.
pub open spec fn ctx_meta<'a>(c: TagContext<'a>) -> (Option<Heading>, Set<Seq<char>>, bool) {
    (
        match c.parent_heading {
            Some(h) => Some(*h),
            None => None,
        },
        string_views(c.inherited_tags@).to_set(),
        c.is_archived,
    )
}

pub open spec fn context_metas<'a>(cs: Seq<TagContext<'a>>) -> Seq<
    (Option<Heading>, Set<Seq<char>>, bool),
> {
    cs.map_values(|c: TagContext<'a>| ctx_meta(c))
}

/// `n` copies of `m`.
pub open spec fn metas(n: nat, m: (Option<Heading>, Set<Seq<char>>, bool)) -> Seq<
    (Option<Heading>, Set<Seq<char>>, bool),
> {
    Seq::new(n, |i: int| m)
}

/// A heading stack by value: each heading's level, own tag names and
/// whether it is archived.
pub open spec fn stack_view(st: Seq<StackEntry>) -> Seq<(u8, Seq<Seq<char>>, bool)> {
    st.map_values(|e: StackEntry| (e.level, string_views(e.tags@), e.archived))
}

/// The tag names of a stack, in order.
pub open spec fn view_tags(sv: Seq<(u8, Seq<Seq<char>>, bool)>) -> Seq<Seq<char>>
    decreases sv.len(),
{
    if sv.len() == 0 {
        Seq::empty()
    } else {
        view_tags(sv.drop_last()) + sv.last().1
    }
}

/// Some heading of a stack is archived.
pub open spec fn view_archived(sv: Seq<(u8, Seq<Seq<char>>, bool)>) -> bool {
    exists|i: int| 0 <= i < sv.len() && (#[trigger] sv[i]).2
}

/// The stack without its trailing headings of level `level` or deeper.
pub open spec fn popped(sv: Seq<(u8, Seq<Seq<char>>, bool)>, level: u8) -> Seq<
    (u8, Seq<Seq<char>>, bool),
>
    decreases sv.len(),
{
    if sv.len() > 0 && sv.last().0 >= level {
        popped(sv.drop_last(), level)
    } else {
        sv
    }
}

/// The walk's state after heading `h`: `h` is the current heading, on top
/// of the enclosing headings of lower level.
pub open spec fn after_heading(
    st: (Option<Heading>, Seq<(u8, Seq<Seq<char>>, bool)>),
    h: Heading,
) -> (Option<Heading>, Seq<(u8, Seq<Seq<char>>, bool)>) {
    let ts = segs_tags(h.content.segments@);
    (Some(h), popped(st.1, h.level).push((h.level, own_tag_names(ts), has_archive_tag(ts))))
}

/// Where a tag stands in state `st` of a file with tags `ft`: under the
/// current heading, inheriting the file's tags and those of the stack,
/// archived when a heading of the stack is.
pub open spec fn meta_at(
    st: (Option<Heading>, Seq<(u8, Seq<Seq<char>>, bool)>),
    ft: Seq<Seq<char>>,
) -> (Option<Heading>, Set<Seq<char>>, bool) {
    (st.0, (ft + view_tags(st.1)).to_set(), view_archived(st.1))
}

/// The walk over a block from state `st`: where each visited tag stands
/// (in the order of [`block_walk_tags`]), and the state after it.
pub open spec fn block_walk(
    b: Block,
    st: (Option<Heading>, Seq<(u8, Seq<Seq<char>>, bool)>),
    ft: Seq<Seq<char>>,
) -> (Seq<(Option<Heading>, Set<Seq<char>>, bool)>, (Option<Heading>, Seq<(u8, Seq<Seq<char>>, bool)>))
    decreases b,
{
    match b {
        Block::Heading(h) => {
            let st2 = after_heading(st, h);
            (metas(segs_tags(h.content.segments@).len(), meta_at(st2, ft)), st2)
        },
        Block::Paragraph(p) => (metas(segs_tags(p.content.segments@).len(), meta_at(st, ft)), st),
        Block::BlockTag(_) => (metas(1, meta_at(st, ft)), st),
        Block::CodeBlock(cb) => (metas(cb.tags@.len(), meta_at(st, ft)), st),
        Block::Callout(c) => blocks_walk(c.content@, st, ft),
        Block::Table(t) => (
            metas(cells_tags(t.headers@).len() + rows_tags(t.rows@).len(), meta_at(st, ft)),
            st,
        ),
        Block::List(l) => items_walk(l.items@, st, meta_at(st, ft), ft),
        _ => (Seq::empty(), st),
    }
}

pub open spec fn blocks_walk(
    bs: Seq<Block>,
    st: (Option<Heading>, Seq<(u8, Seq<Seq<char>>, bool)>),
    ft: Seq<Seq<char>>,
) -> (Seq<(Option<Heading>, Set<Seq<char>>, bool)>, (Option<Heading>, Seq<(u8, Seq<Seq<char>>, bool)>))
    decreases bs,
{
    if bs.len() == 0 {
        (Seq::empty(), st)
    } else {
        let r1 = blocks_walk(bs.drop_last(), st, ft);
        let r2 = block_walk(bs.last(), r1.1, ft);
        (r1.0 + r2.0, r2.1)
    }
}

/// The walk over list items: an item's own tags stand under the current
/// heading with the inheritance `m` of the list, then its child blocks are
/// walked.
pub open spec fn items_walk(
    items: Seq<crate::ast::ListItem>,
    st: (Option<Heading>, Seq<(u8, Seq<Seq<char>>, bool)>),
    m: (Option<Heading>, Set<Seq<char>>, bool),
    ft: Seq<Seq<char>>,
) -> (Seq<(Option<Heading>, Set<Seq<char>>, bool)>, (Option<Heading>, Seq<(u8, Seq<Seq<char>>, bool)>))
    decreases items,
{
    if items.len() == 0 {
        (Seq::empty(), st)
    } else {
        let r1 = items_walk(items.drop_last(), st, m, ft);
        let it = items.last();
        let own = metas(segs_tags(it.content.segments@).len(), (r1.1.0, m.1, m.2));
        let r2 = blocks_walk(it.children@, r1.1, ft);
        (r1.0 + own + r2.0, r2.1)
    }
}

/// The walk's state by value.
pub open spec fn state_view<'a>(w: WalkState<'a>) -> (Option<Heading>, Seq<(u8, Seq<Seq<char>>, bool)>) {
    (
        match w.current_heading {
            Some(h) => Some(*h),
            None => None,
        },
        stack_view(w.stack@),
    )
}

proof fn lemma_stack_view(st: Seq<StackEntry>)
    ensures
        stack_tags(st) == view_tags(stack_view(st)),
        stack_archived(st) == view_archived(stack_view(st)),
    decreases st.len(),
{
    if st.len() > 0 {
        assert(stack_view(st.drop_last()) =~= stack_view(st).drop_last());
        lemma_stack_view(st.drop_last());
    }
    if stack_archived(st) {
        let i = choose|i: int| 0 <= i < st.len() && st[i].archived;
        assert(stack_view(st)[i].2);
    }
    if view_archived(stack_view(st)) {
        let i = choose|i: int| 0 <= i < stack_view(st).len() && (#[trigger] stack_view(st)[i]).2;
        assert(st[i].archived);
    }
}

/// The metas of contexts appended after `a`, then after `b`.
proof fn lemma_metas_trans<'a>(a: Seq<TagContext<'a>>, b: Seq<TagContext<'a>>, c: Seq<TagContext<'a>>)
    requires
        a.len() <= b.len() <= c.len(),
        c.take(b.len() as int) == b,
        b.take(a.len() as int) == a,
    ensures
        context_metas(c.skip(a.len() as int)) == context_metas(b.skip(a.len() as int))
            + context_metas(c.skip(b.len() as int)),
{
    assert(c.skip(a.len() as int) =~= b.skip(a.len() as int) + c.skip(b.len() as int));
    assert(context_metas(c.skip(a.len() as int)) =~= context_metas(b.skip(a.len() as int))
        + context_metas(c.skip(b.len() as int)));
}

/// A context found in `file`, with its inherited tags sorted and without
/// duplicates.
pub open spec fn context_ok<'a>(c: TagContext<'a>, file: &'a str) -> bool {
    c.file == file && strictly_sorted(string_views(c.inherited_tags@))
}

/// `new` extends `old` with contexts of `file` whose tags are `tags`.
pub open spec fn extends<'a>(
    old: Seq<TagContext<'a>>,
    new: Seq<TagContext<'a>>,
    tags: Seq<Tag>,
    file: &'a str,
) -> bool {
    &&& new.len() == old.len() + tags.len()
    &&& new.take(old.len() as int) == old
    &&& context_tags(new.skip(old.len() as int)) == tags
    &&& forall|i: int| old.len() <= i < new.len() ==> context_ok(#[trigger] new[i], file)
}

proof fn lemma_extends_trans<'a>(
    a: Seq<TagContext<'a>>,
    b: Seq<TagContext<'a>>,
    c: Seq<TagContext<'a>>,
    t1: Seq<Tag>,
    t2: Seq<Tag>,
    file: &'a str,
)
    requires
        extends(a, b, t1, file),
        extends(b, c, t2, file),
    ensures
        extends(a, c, t1 + t2, file),
{
    assert(c.take(a.len() as int) =~= b.take(b.len() as int).take(a.len() as int));
    assert forall|i: int| a.len() <= i < c.len() implies context_ok(#[trigger] c[i], file) by {
        if i < b.len() {
            assert(c.take(b.len() as int)[i] == c[i]);
            assert(b[i] == c[i]);
        }
    }
    let x = b.skip(a.len() as int);
    let y = c.skip(b.len() as int);
    assert(c.take(b.len() as int) == b);
    assert(c.skip(a.len() as int) =~= x + y);
    assert(context_tags(x + y) =~= context_tags(x) + context_tags(y));
    assert(c.len() == a.len() + (t1 + t2).len());
    assert(c.take(a.len() as int) =~= a);
    assert(context_tags(c.skip(a.len() as int)) == t1 + t2);
}

proof fn lemma_extends_refl<'a>(a: Seq<TagContext<'a>>, file: &'a str)
    ensures
        extends(a, a, Seq::empty(), file),
{
    assert(a.take(a.len() as int) =~= a);
    assert(context_tags(a.skip(a.len() as int)) =~= Seq::<Tag>::empty());
}

/// Copies a list of strings.
fn copy_strings(v: &Vec<String>) -> (r: Vec<String>)
    ensures
        string_views(r@) == string_views(v@),
{
    let mut out: Vec<String> = Vec::new();
    let mut i: usize = 0;
    while i < v.len()
        invariant
            i <= v@.len(),
            string_views(out@) =~= string_views(v@).take(i as int),
        decreases v@.len() - i,
    {
        let ghost o = string_views(out@);
        let c = v[i].clone();
        out.push(c);
        assert(string_views(out@) =~= o.push(v@[i as int]@));
        assert(string_views(v@).take(i + 1) =~= string_views(v@).take(i as int).push(v@[i as int]@));
        i += 1;
    }
    out
}

fn push_contexts<'a>(
    out: &mut Vec<TagContext<'a>>,
    file: &'a str,
    tags: &Vec<&'a Tag>,
    heading: Option<&'a Heading>,
    inherited: &Vec<String>,
    archived: bool,
)
    requires
        strictly_sorted(string_views(inherited@)),
    ensures
        extends(old(out)@, final(out)@, tags@.map_values(|t: &'a Tag| *t), file),
        context_metas(final(out)@.skip(old(out)@.len() as int)) == metas(
            tags@.len(),
            (
                match heading {
                    Some(h) => Some(*h),
                    None => None,
                },
                string_views(inherited@).to_set(),
                archived,
            ),
        ),
{
    let ghost o = out@;
    let ghost ts = tags@.map_values(|t: &'a Tag| *t);
    let ghost m = (
        match heading {
            Some(h) => Some(*h),
            None => None,
        },
        string_views(inherited@).to_set(),
        archived,
    );
    let mut i: usize = 0;
    proof {
        lemma_extends_refl(o, file);
        assert(ts.take(0) =~= Seq::<Tag>::empty());
        assert(context_metas(out@.skip(o.len() as int)) =~= metas(0, m));
    }
    while i < tags.len()
        invariant
            i <= tags@.len(),
            ts == tags@.map_values(|t: &'a Tag| *t),
            strictly_sorted(string_views(inherited@)),
            extends(o, out@, ts.take(i as int), file),
            context_metas(out@.skip(o.len() as int)) == metas(i as nat, m),
            m == (
                match heading {
                    Some(h) => Some(*h),
                    None => None,
                },
                string_views(inherited@).to_set(),
                archived,
            ),
        decreases tags@.len() - i,
    {
        let ghost mb = context_metas(out@.skip(o.len() as int));
        let ghost before = out@;
        out.push(
            TagContext {
                file,
                tag: tags[i],
                parent_heading: heading,
                inherited_tags: copy_strings(inherited),
                is_archived: archived,
            },
        );
        proof {
            assert(out@.take(before.len() as int) =~= before);
            assert(context_tags(out@.skip(before.len() as int)) =~= seq![ts[i as int]]);
            assert forall|k: int| before.len() <= k < out@.len() implies context_ok(
                #[trigger] out@[k],
                file,
            ) by {
                assert(k == before.len());
            }
            lemma_extends_trans(o, before, out@, ts.take(i as int), seq![ts[i as int]], file);
            assert(ts.take(i as int) + seq![ts[i as int]] =~= ts.take(i + 1));
            assert(out@.skip(o.len() as int) =~= before.skip(o.len() as int).push(out@.last()));
            let c = out@.last();
            assert(c.parent_heading == heading);
            assert(c.is_archived == archived);
            assert(string_views(c.inherited_tags@) == string_views(inherited@));
            assert(ctx_meta(c) == m);
            assert(context_metas(out@.skip(o.len() as int)) =~= mb.push(m));
            assert(mb.push(m) =~= metas((i + 1) as nat, m));
        }
        i += 1;
    }
    assert(ts.take(tags@.len() as int) =~= ts);
}

fn push_one_context<'a>(
    out: &mut Vec<TagContext<'a>>,
    file: &'a str,
    tag: &'a Tag,
    heading: Option<&'a Heading>,
    inherited: Vec<String>,
    archived: bool,
)
    requires
        strictly_sorted(string_views(inherited@)),
    ensures
        extends(old(out)@, final(out)@, seq![*tag], file),
        context_metas(final(out)@.skip(old(out)@.len() as int)) == metas(
            1,
            (
                match heading {
                    Some(h) => Some(*h),
                    None => None,
                },
                string_views(inherited@).to_set(),
                archived,
            ),
        ),
{
    let ghost before = out@;
    let ghost iv = string_views(inherited@);
    out.push(
        TagContext { file, tag, parent_heading: heading, inherited_tags: inherited, is_archived: archived },
    );
    assert(out@.take(before.len() as int) =~= before);
    assert(context_tags(out@.skip(before.len() as int)) =~= seq![*tag]);
    assert forall|k: int| before.len() <= k < out@.len() implies context_ok(#[trigger] out@[k], file) by {
        assert(k == before.len());
    }
    assert(out@.skip(before.len() as int) =~= seq![out@.last()]);
    assert(string_views(out@.last().inherited_tags@) == iv);
    assert(context_metas(out@.skip(before.len() as int)) =~= metas(1, ctx_meta(out@.last())));
}

/// The state of the walk: the heading under which the walk stands and the
/// stack of enclosing headings.
pub struct WalkState<'a> {
    pub current_heading: Option<&'a Heading>,
    pub stack: Vec<StackEntry>,
}

/// The names of the unknown (user) tags among `tags`, in order.
pub open spec fn own_tag_names(tags: Seq<Tag>) -> Seq<Seq<char>>
    decreases tags.len(),
{
    if tags.len() == 0 {
        Seq::empty()
    } else {
        let r = own_tag_names(tags.drop_last());
        match tags.last().kind {
            TagKind::Unknown { name, .. } => r.push(name@),
            _ => r,
        }
    }
}

/// Whether one of `tags` is `#archive`.
pub open spec fn has_archive_tag(tags: Seq<Tag>) -> bool {
    exists|i: int| 0 <= i < tags.len() && (#[trigger] tags[i]).kind is Archive
}

/// The names of the unknown (user) tags among `tags`, and whether one of
/// them is `#archive`.
fn heading_own_tags<'a>(tags: &Vec<&'a Tag>) -> (r: (Vec<String>, bool))
    ensures
        string_views(r.0@) == own_tag_names(tags@.map_values(|t: &'a Tag| *t)),
        r.1 == has_archive_tag(tags@.map_values(|t: &'a Tag| *t)),
{
    let ghost tv = tags@.map_values(|t: &'a Tag| *t);
    let mut names: Vec<String> = Vec::new();
    let mut archived = false;
    let mut i: usize = 0;
    while i < tags.len()
        invariant
            i <= tags@.len(),
            tv == tags@.map_values(|t: &'a Tag| *t),
            string_views(names@) == own_tag_names(tv.take(i as int)),
            archived == has_archive_tag(tv.take(i as int)),
        decreases tags@.len() - i,
    {
        let ghost nv = string_views(names@);
        assert(tv.take(i + 1).drop_last() =~= tv.take(i as int));
        assert(tv.take(i + 1).last() == *tags@[i as int]);
        match &tags[i].kind {
            TagKind::Unknown { name, .. } => {
                names.push(name.clone());
                assert(string_views(names@) =~= nv.push(name@));
            },
            TagKind::Archive => {
                archived = true;
            },
            _ => {},
        }
        proof {
            let t0 = tv.take(i as int);
            let t1 = tv.take(i + 1);
            if has_archive_tag(t0) {
                let j = choose|j: int| 0 <= j < t0.len() && (#[trigger] t0[j]).kind is Archive;
                assert(t1[j] == t0[j]);
            }
            if has_archive_tag(t1) && !(tags@[i as int].kind is Archive) {
                let j = choose|j: int| 0 <= j < t1.len() && (#[trigger] t1[j]).kind is Archive;
                assert(t0[j] == t1[j]);
            }
            if tags@[i as int].kind is Archive {
                assert(t1[i as int] == *tags@[i as int]);
            }
        }
        i += 1;
    }
    assert(tv.take(tv.len() as int) =~= tv);
    (names, archived)
}

fn walk_block<'a>(
    file: &'a str,
    block: &'a Block,
    state: &mut WalkState<'a>,
    file_tags: &Vec<String>,
    out: &mut Vec<TagContext<'a>>,
)
    ensures
        extends(old(out)@, final(out)@, block_walk_tags(*block), file),
        context_metas(final(out)@.skip(old(out)@.len() as int)) == block_walk(
            *block,
            state_view(*old(state)),
            string_views(file_tags@),
        ).0,
        state_view(*final(state)) == block_walk(
            *block,
            state_view(*old(state)),
            string_views(file_tags@),
        ).1,
    decreases block, 1int,
{
    let ghost o = out@;
    let ghost st0 = state_view(*state);
    let ghost ft = string_views(file_tags@);
    proof {
        lemma_stack_view(state.stack@);
    }
    match block {
        Block::Heading(h) => {
            let ghost sv0 = stack_view(state.stack@);
            while state.stack.len() > 0 && state.stack[state.stack.len() - 1].level >= h.level
                invariant
                    out@ == o,
                    popped(stack_view(state.stack@), h.level) == popped(sv0, h.level),
                decreases state.stack@.len(),
            {
                let ghost sv = stack_view(state.stack@);
                state.stack.pop();
                assert(stack_view(state.stack@) =~= sv.drop_last());
            }
            let tags = h.content.tags();
            assert(tags@.map_values(|t: &'a Tag| *t) =~= segs_tags(h.content.segments@));
            let (own, archived) = heading_own_tags(&tags);
            let ghost sv1 = stack_view(state.stack@);
            state.stack.push(StackEntry { level: h.level, tags: own, archived });
            state.current_heading = Some(h);
            assert(stack_view(state.stack@) =~= sv1.push((h.level, string_views(own@), archived)));
            assert(state_view(*state) == after_heading(st0, *h));
            let (inherited, arch) = compute_inherited(&state.stack, file_tags);
            proof {
                lemma_stack_view(state.stack@);
            }
            push_contexts(out, file, &tags, state.current_heading, &inherited, arch);
            assert(context_metas(out@.skip(o.len() as int)) =~= block_walk(*block, st0, ft).0);
        },
        Block::Paragraph(p) => {
            let (inherited, arch) = compute_inherited(&state.stack, file_tags);
            let tags = p.content.tags();
            push_contexts(out, file, &tags, state.current_heading, &inherited, arch);
            assert(tags@.map_values(|t: &'a Tag| *t) =~= segs_tags(p.content.segments@));
            assert(context_metas(out@.skip(o.len() as int)) =~= block_walk(*block, st0, ft).0);
        },
        Block::BlockTag(tag) => {
            let (inherited, arch) = compute_inherited(&state.stack, file_tags);
            push_one_context(out, file, tag, state.current_heading, inherited, arch);
            assert(context_metas(out@.skip(o.len() as int)) =~= block_walk(*block, st0, ft).0);
        },
        Block::CodeBlock(cb) => {
            let (inherited, arch) = compute_inherited(&state.stack, file_tags);
            let mut refs: Vec<&'a Tag> = Vec::new();
            let mut i: usize = 0;
            while i < cb.tags.len()
                invariant
                    i <= cb.tags@.len(),
                    refs@.map_values(|t: &'a Tag| *t) =~= cb.tags@.take(i as int),
                decreases cb.tags@.len() - i,
            {
                let ghost o = refs@.map_values(|t: &'a Tag| *t);
                let r: &'a Tag = &cb.tags[i];
                refs.push(r);
                assert(refs@.map_values(|t: &'a Tag| *t) =~= o.push(cb.tags@[i as int]));
                assert(cb.tags@.take(i + 1) =~= cb.tags@.take(i as int).push(cb.tags@[i as int]));
                i += 1;
            }
            assert(cb.tags@.take(cb.tags@.len() as int) =~= cb.tags@);
            push_contexts(out, file, &refs, state.current_heading, &inherited, arch);
            assert(context_metas(out@.skip(o.len() as int)) =~= block_walk(*block, st0, ft).0);
        },
        Block::Callout(c) => {
            walk_blocks(file, &c.content, state, file_tags, out);
        },
        Block::Table(t) => {
            let (inherited, arch) = compute_inherited(&state.stack, file_tags);
            let ghost mt = meta_at(st0, ft);
            let ghost o1 = out@;
            walk_cells(file, &t.headers, state.current_heading, &inherited, arch, out);
            let ghost o2 = out@;
            let mut r: usize = 0;
            proof {
                lemma_extends_refl(o2, file);
                assert(rows_tags(t.rows@.take(0)) =~= Seq::<Tag>::empty());
                assert(context_metas(out@.skip(o2.len() as int)) =~= metas(0, mt));
            }
            while r < t.rows.len()
                invariant
                    r <= t.rows@.len(),
                    strictly_sorted(string_views(inherited@)),
                    extends(o2, out@, rows_tags(t.rows@.take(r as int)), file),
                    mt == (
                        match state.current_heading {
                            Some(h) => Some(*h),
                            None => None,
                        },
                        string_views(inherited@).to_set(),
                        arch,
                    ),
                    context_metas(out@.skip(o2.len() as int)) == metas(
                        rows_tags(t.rows@.take(r as int)).len(),
                        mt,
                    ),
                decreases t.rows@.len() - r,
            {
                let ghost before = out@;
                walk_cells(file, &t.rows[r], state.current_heading, &inherited, arch, out);
                proof {
                    lemma_metas_trans(o2, before, out@);
                    assert(metas(rows_tags(t.rows@.take(r as int)).len(), mt) + metas(
                        cells_tags(t.rows@[r as int]@).len(),
                        mt,
                    ) =~= metas(
                        rows_tags(t.rows@.take(r as int)).len() + cells_tags(t.rows@[r as int]@).len(),
                        mt,
                    ));
                    lemma_extends_trans(
                        o2,
                        before,
                        out@,
                        rows_tags(t.rows@.take(r as int)),
                        cells_tags(t.rows@[r as int]@),
                        file,
                    );
                    assert(t.rows@.take(r + 1).drop_last() =~= t.rows@.take(r as int));
                }
                r += 1;
            }
            assert(t.rows@.take(t.rows@.len() as int) =~= t.rows@);
            proof {
                lemma_extends_trans(o1, o2, out@, cells_tags(t.headers@), rows_tags(t.rows@), file);
                lemma_metas_trans(o1, o2, out@);
                assert(context_metas(out@.skip(o.len() as int)) =~= metas(
                    cells_tags(t.headers@).len() + rows_tags(t.rows@).len(),
                    mt,
                ));
            }
        },
        Block::List(l) => {
            let (inherited, arch) = compute_inherited(&state.stack, file_tags);
            walk_items(file, &l.items, state, file_tags, &inherited, arch, out);
        },
        _ => {
            proof {
                lemma_extends_refl(o, file);
                assert(context_metas(out@.skip(o.len() as int)) =~= Seq::empty());
            }
        },
    }
}

fn walk_cells<'a>(
    file: &'a str,
    cells: &'a Vec<crate::ast::InlineContent>,
    heading: Option<&'a Heading>,
    inherited: &Vec<String>,
    archived: bool,
    out: &mut Vec<TagContext<'a>>,
)
    requires
        strictly_sorted(string_views(inherited@)),
    ensures
        extends(old(out)@, final(out)@, cells_tags(cells@), file),
        context_metas(final(out)@.skip(old(out)@.len() as int)) == metas(
            cells_tags(cells@).len(),
            (
                match heading {
                    Some(h) => Some(*h),
                    None => None,
                },
                string_views(inherited@).to_set(),
                archived,
            ),
        ),
{
    let ghost o = out@;
    let ghost m = (
        match heading {
            Some(h) => Some(*h),
            None => None,
        },
        string_views(inherited@).to_set(),
        archived,
    );
    let mut i: usize = 0;
    proof {
        lemma_extends_refl(o, file);
        assert(cells_tags(cells@.take(0)) =~= Seq::<Tag>::empty());
        assert(context_metas(out@.skip(o.len() as int)) =~= metas(0, m));
    }
    while i < cells.len()
        invariant
            i <= cells@.len(),
            strictly_sorted(string_views(inherited@)),
            extends(o, out@, cells_tags(cells@.take(i as int)), file),
            m == (
                match heading {
                    Some(h) => Some(*h),
                    None => None,
                },
                string_views(inherited@).to_set(),
                archived,
            ),
            context_metas(out@.skip(o.len() as int)) == metas(
                cells_tags(cells@.take(i as int)).len(),
                m,
            ),
        decreases cells@.len() - i,
    {
        let ghost before = out@;
        let tags = cells[i].tags();
        push_contexts(out, file, &tags, heading, inherited, archived);
        proof {
            assert(tags@.map_values(|t: &'a Tag| *t) =~= segs_tags(cells@[i as int].segments@));
            lemma_metas_trans(o, before, out@);
            assert(metas(cells_tags(cells@.take(i as int)).len(), m) + metas(tags@.len(), m)
                =~= metas(cells_tags(cells@.take(i as int)).len() + tags@.len(), m));
            lemma_extends_trans(
                o,
                before,
                out@,
                cells_tags(cells@.take(i as int)),
                segs_tags(cells@[i as int].segments@),
                file,
            );
            assert(cells@.take(i + 1).drop_last() =~= cells@.take(i as int));
        }
        i += 1;
    }
    assert(cells@.take(cells@.len() as int) =~= cells@);
}

fn walk_items<'a>(
    file: &'a str,
    items: &'a Vec<crate::ast::ListItem>,
    state: &mut WalkState<'a>,
    file_tags: &Vec<String>,
    inherited: &Vec<String>,
    archived: bool,
    out: &mut Vec<TagContext<'a>>,
)
    requires
        strictly_sorted(string_views(inherited@)),
    ensures
        extends(old(out)@, final(out)@, items_walk_tags(items@), file),
        ({
            let m = (
                state_view(*old(state)).0,
                string_views(inherited@).to_set(),
                archived,
            );
            let w = items_walk(items@, state_view(*old(state)), m, string_views(file_tags@));
            &&& context_metas(final(out)@.skip(old(out)@.len() as int)) == w.0
            &&& state_view(*final(state)) == w.1
        }),
    decreases items@, 0int,
{
    let ghost o = out@;
    let ghost st0 = state_view(*state);
    let ghost ft = string_views(file_tags@);
    let ghost m = (st0.0, string_views(inherited@).to_set(), archived);
    let mut i: usize = 0;
    proof {
        lemma_extends_refl(o, file);
        assert(items_walk_tags(items@.take(0)) =~= Seq::<Tag>::empty());
        assert(items@.take(0) =~= Seq::<crate::ast::ListItem>::empty());
        assert(context_metas(out@.skip(o.len() as int)) =~= Seq::empty());
    }
    while i < items.len()
        invariant
            i <= items@.len(),
            strictly_sorted(string_views(inherited@)),
            extends(o, out@, items_walk_tags(items@.take(i as int)), file),
            ft == string_views(file_tags@),
            m == (st0.0, string_views(inherited@).to_set(), archived),
            context_metas(out@.skip(o.len() as int)) == items_walk(items@.take(i as int), st0, m, ft).0,
            state_view(*state) == items_walk(items@.take(i as int), st0, m, ft).1,
        decreases items@.len() - i,
    {
        let ghost before = out@;
        let ghost s1 = state_view(*state);
        let item = &items[i];
        let tags = item.content.tags();
        push_contexts(out, file, &tags, state.current_heading, inherited, archived);
        let ghost mid = out@;
        assert(decreases_to!(items@ => items@[i as int]));
        walk_blocks(file, &item.children, state, file_tags, out);
        proof {
            assert(items@.take(i + 1).drop_last() =~= items@.take(i as int));
            assert(items@.take(i + 1).last() == items@[i as int]);
            assert(tags@.map_values(|t: &'a Tag| *t) =~= segs_tags(item.content.segments@));
            let ct = segs_tags(item.content.segments@);
            assert(tags@.map_values(|t: &'a Tag| *t) =~= ct);
            lemma_extends_trans(before, mid, out@, ct, blocks_walk_tags(item.children@), file);
            lemma_extends_trans(
                o,
                before,
                out@,
                items_walk_tags(items@.take(i as int)),
                ct + blocks_walk_tags(item.children@),
                file,
            );
            assert(items@.take(i + 1).drop_last() =~= items@.take(i as int));
            assert(items_walk_tags(items@.take(i as int)) + (ct + blocks_walk_tags(item.children@))
                =~= items_walk_tags(items@.take(i + 1)));
            lemma_metas_trans(before, mid, out@);
            lemma_metas_trans(o, before, out@);
            let r1 = items_walk(items@.take(i as int), st0, m, ft);
            assert(r1.1 == s1);
            assert(context_metas(out@.skip(o.len() as int)) =~= r1.0 + metas(
                ct.len(),
                (s1.0, m.1, m.2),
            ) + blocks_walk(item.children@, s1, ft).0);
        }
        i += 1;
    }
    assert(items@.take(items@.len() as int) =~= items@);
}

fn walk_blocks<'a>(
    file: &'a str,
    blocks: &'a Vec<Block>,
    state: &mut WalkState<'a>,
    file_tags: &Vec<String>,
    out: &mut Vec<TagContext<'a>>,
)
    ensures
        extends(old(out)@, final(out)@, blocks_walk_tags(blocks@), file),
        context_metas(final(out)@.skip(old(out)@.len() as int)) == blocks_walk(
            blocks@,
            state_view(*old(state)),
            string_views(file_tags@),
        ).0,
        state_view(*final(state)) == blocks_walk(
            blocks@,
            state_view(*old(state)),
            string_views(file_tags@),
        ).1,
    decreases blocks@, 0int,
{
    let ghost o = out@;
    let ghost st0 = state_view(*state);
    let ghost ft = string_views(file_tags@);
    let mut i: usize = 0;
    proof {
        lemma_extends_refl(o, file);
        assert(blocks_walk_tags(blocks@.take(0)) =~= Seq::<Tag>::empty());
        assert(blocks@.take(0) =~= Seq::<Block>::empty());
        assert(context_metas(out@.skip(o.len() as int)) =~= Seq::empty());
    }
    while i < blocks.len()
        invariant
            i <= blocks@.len(),
            extends(o, out@, blocks_walk_tags(blocks@.take(i as int)), file),
            ft == string_views(file_tags@),
            context_metas(out@.skip(o.len() as int)) == blocks_walk(blocks@.take(i as int), st0, ft).0,
            state_view(*state) == blocks_walk(blocks@.take(i as int), st0, ft).1,
        decreases blocks@.len() - i,
    {
        let ghost before = out@;
        assert(decreases_to!(blocks@ => blocks@[i as int]));
        walk_block(file, &blocks[i], state, file_tags, out);
        proof {
            assert(blocks@.take(i + 1).drop_last() =~= blocks@.take(i as int));
            assert(blocks@.take(i + 1).last() == blocks@[i as int]);
            lemma_metas_trans(o, before, out@);
            lemma_extends_trans(
                o,
                before,
                out@,
                blocks_walk_tags(blocks@.take(i as int)),
                block_walk_tags(blocks@[i as int]),
                file,
            );
            assert(blocks@.take(i + 1).drop_last() =~= blocks@.take(i as int));
        }
        i += 1;
    }
    assert(blocks@.take(blocks@.len() as int) =~= blocks@);
}

/// Walks the tags of a document in order, each with the heading above it,
/// the tags it inherits from the file and the enclosing headings, and
/// whether an enclosing heading is archived.
pub fn walk_tags<'a>(file: &'a str, document: &'a Document) -> (r: Vec<TagContext<'a>>)
    ensures
        context_tags(r@) == blocks_walk_tags(document.children@),
        forall|i: int| 0 <= i < r@.len() ==> context_ok(#[trigger] r@[i], file),
        context_metas(r@) == blocks_walk(
            document.children@,
            (None, Seq::empty()),
            file_tag_names(*document),
        ).0,
        forall|i: int, t: Seq<char>|
            0 <= i < r@.len() && file_tag_names(*document).contains(t) ==> #[trigger] string_views(
                r@[i].inherited_tags@,
            ).contains(t),
{
    let ftags = file_tags(document);
    let mut state = WalkState { current_heading: None, stack: Vec::new() };
    let mut out: Vec<TagContext<'a>> = Vec::new();
    assert(state_view(state) == (None::<Heading>, Seq::<(u8, Seq<Seq<char>>, bool)>::empty()));
    walk_blocks(file, &document.children, &mut state, &ftags, &mut out);
    assert(out@.skip(0) =~= out@);
    proof {
        let ft = file_tag_names(*document);
        lemma_blocks_walk_keeps(document.children@, (None, Seq::empty()), ft);
        assert forall|i: int, t: Seq<char>|
            0 <= i < out@.len() && ft.contains(t) implies #[trigger] string_views(
                out@[i].inherited_tags@,
            ).contains(t) by {
            assert(context_metas(out@)[i] == ctx_meta(out@[i]));
            assert(context_metas(out@)[i].1.contains(t));
        }
    }
    out
}

/// Every place in `ms` inherits the tags `ft`.
pub open spec fn keeps_tags(
    ms: Seq<(Option<Heading>, Set<Seq<char>>, bool)>,
    ft: Seq<Seq<char>>,
) -> bool {
    forall|i: int, t: Seq<char>| 0 <= i < ms.len() && ft.contains(t) ==> #[trigger] ms[i].1.contains(t)
}

proof fn lemma_meta_keeps(st: (Option<Heading>, Seq<(u8, Seq<Seq<char>>, bool)>), ft: Seq<Seq<char>>)
    ensures
        forall|t: Seq<char>| ft.contains(t) ==> #[trigger] meta_at(st, ft).1.contains(t),
{
    assert forall|t: Seq<char>| ft.contains(t) implies #[trigger] meta_at(st, ft).1.contains(t) by {
        let j = choose|j: int| 0 <= j < ft.len() && ft[j] == t;
        assert((ft + view_tags(st.1))[j] == t);
    }
}

proof fn lemma_keeps_concat(
    a: Seq<(Option<Heading>, Set<Seq<char>>, bool)>,
    b: Seq<(Option<Heading>, Set<Seq<char>>, bool)>,
    ft: Seq<Seq<char>>,
)
    requires
        keeps_tags(a, ft),
        keeps_tags(b, ft),
    ensures
        keeps_tags(a + b, ft),
{
    assert forall|i: int, t: Seq<char>| 0 <= i < (a + b).len() && ft.contains(t) implies #[trigger] (a
        + b)[i].1.contains(t) by {
        if i < a.len() {
            assert((a + b)[i] == a[i]);
        } else {
            assert((a + b)[i] == b[i - a.len()]);
        }
    }
}

proof fn lemma_block_walk_keeps(
    b: Block,
    st: (Option<Heading>, Seq<(u8, Seq<Seq<char>>, bool)>),
    ft: Seq<Seq<char>>,
)
    ensures
        keeps_tags(block_walk(b, st, ft).0, ft),
    decreases b, 1int,
{
    match b {
        Block::Heading(h) => lemma_meta_keeps(after_heading(st, h), ft),
        Block::Callout(c) => lemma_blocks_walk_keeps(c.content@, st, ft),
        Block::List(l) => {
            lemma_meta_keeps(st, ft);
            lemma_items_walk_keeps(l.items@, st, meta_at(st, ft), ft);
        },
        _ => lemma_meta_keeps(st, ft),
    }
}

proof fn lemma_blocks_walk_keeps(
    bs: Seq<Block>,
    st: (Option<Heading>, Seq<(u8, Seq<Seq<char>>, bool)>),
    ft: Seq<Seq<char>>,
)
    ensures
        keeps_tags(blocks_walk(bs, st, ft).0, ft),
    decreases bs, 0int,
{
    if bs.len() > 0 {
        assert(decreases_to!(bs => bs.last()));
        lemma_blocks_walk_keeps(bs.drop_last(), st, ft);
        let r1 = blocks_walk(bs.drop_last(), st, ft);
        lemma_block_walk_keeps(bs.last(), r1.1, ft);
        lemma_keeps_concat(r1.0, block_walk(bs.last(), r1.1, ft).0, ft);
    }
}

proof fn lemma_items_walk_keeps(
    items: Seq<crate::ast::ListItem>,
    st: (Option<Heading>, Seq<(u8, Seq<Seq<char>>, bool)>),
    m: (Option<Heading>, Set<Seq<char>>, bool),
    ft: Seq<Seq<char>>,
)
    requires
        forall|t: Seq<char>| ft.contains(t) ==> #[trigger] m.1.contains(t),
    ensures
        keeps_tags(items_walk(items, st, m, ft).0, ft),
    decreases items, 0int,
{
    if items.len() > 0 {
        assert(decreases_to!(items => items.last()));
        lemma_items_walk_keeps(items.drop_last(), st, m, ft);
        let r1 = items_walk(items.drop_last(), st, m, ft);
        let it = items.last();
        let own = metas(segs_tags(it.content.segments@).len(), (r1.1.0, m.1, m.2));
        lemma_blocks_walk_keeps(it.children@, r1.1, ft);
        lemma_keeps_concat(r1.0, own, ft);
        lemma_keeps_concat(r1.0 + own, blocks_walk(it.children@, r1.1, ft).0, ft);
    }
}

/// The tags that a document's frontmatter gives the whole file.
pub open spec fn file_tag_names(d: Document) -> Seq<Seq<char>> {
    match d.frontmatter {
        Some(fm) => tags_of_item(yaml_lookup(fm.raw@, "tags"@)),
        None => Seq::empty(),
    }
}

} // verus!
