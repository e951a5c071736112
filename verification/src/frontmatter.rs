//! Merging the frontmatter of several files into one value.
//!
//! Maps merge key by key, sequences concatenate, and anything else is
//! replaced by the value merged in.

use vstd::prelude::*;

verus! {

/// A frontmatter value: the data model of YAML and JSON documents, with
/// numbers kept as their text.
#[derive(Debug)]
pub enum JsonValue {
    Null,
    Bool(bool),
    Number(String),
    Str(String),
    Array(Vec<JsonValue>),
    Object(Vec<(String, JsonValue)>),
}

/// The mathematical view of a [`JsonValue`].
pub enum Json {
    Null,
    Bool(bool),
    Number(Seq<char>),
    Str(Seq<char>),
    Array(Seq<Json>),
    Object(Seq<(Seq<char>, Json)>),
}

pub open spec fn json(v: JsonValue) -> Json
    decreases v,
{
    match v {
        JsonValue::Null => Json::Null,
        JsonValue::Bool(b) => Json::Bool(b),
        JsonValue::Number(n) => Json::Number(n@),
        JsonValue::Str(s) => Json::Str(s@),
        JsonValue::Array(vs) => Json::Array(jsons(vs@)),
        JsonValue::Object(es) => Json::Object(entries_json(es@)),
    }
}

pub open spec fn jsons(vs: Seq<JsonValue>) -> Seq<Json>
    decreases vs,
{
    if vs.len() == 0 {
        Seq::empty()
    } else {
        jsons(vs.drop_last()).push(json(vs.last()))
    }
}

pub open spec fn entries_json(es: Seq<(String, JsonValue)>) -> Seq<(Seq<char>, Json)>
    decreases es,
{
    if es.len() == 0 {
        Seq::empty()
    } else {
        entries_json(es.drop_last()).push((es.last().0@, json(es.last().1)))
    }
}

/// Whether `i` is the first position of key `k` among the entries.
pub open spec fn is_key_at(es: Seq<(Seq<char>, Json)>, k: Seq<char>, i: int) -> bool {
    &&& 0 <= i < es.len()
    &&& es[i].0 == k
    &&& forall|j: int| 0 <= j < i ==> #[trigger] es[j].0 != k
}

/// The position of the first entry with key `k`.
pub open spec fn key_pos(es: Seq<(Seq<char>, Json)>, k: Seq<char>) -> Option<int> {
    if exists|i: int| is_key_at(es, k, i) {
        Some(choose|i: int| is_key_at(es, k, i))
    } else {
        None
    }
}

proof fn lemma_key_at_unique(es: Seq<(Seq<char>, Json)>, k: Seq<char>, i: int, j: int)
    requires
        is_key_at(es, k, i),
        is_key_at(es, k, j),
    ensures
        i == j,
{
    if i < j {
        assert(es[i].0 != k);
    } else if j < i {
        assert(es[j].0 != k);
    }
}

proof fn lemma_entries_json(es: Seq<(String, JsonValue)>)
    ensures
        entries_json(es).len() == es.len(),
        forall|i: int|
            0 <= i < es.len() ==> #[trigger] entries_json(es)[i] == (es[i].0@, json(es[i].1)),
    decreases es.len(),
{
    if es.len() > 0 {
        lemma_entries_json(es.drop_last());
    }
}

proof fn lemma_jsons(vs: Seq<JsonValue>)
    ensures
        jsons(vs).len() == vs.len(),
        forall|i: int| 0 <= i < vs.len() ==> #[trigger] jsons(vs)[i] == json(vs[i]),
    decreases vs.len(),
{
    if vs.len() > 0 {
        lemma_jsons(vs.drop_last());
    }
}

/// `overlay` merged into `base`: maps key by key (a new key goes last),
/// sequences concatenated, anything else replaced.
pub open spec fn merged(base: Json, overlay: Json) -> Json
    decreases overlay,
{
    match overlay {
        Json::Object(o) => match base {
            Json::Object(b) => Json::Object(merged_entries(b, o)),
            _ => overlay,
        },
        Json::Array(o) => match base {
            Json::Array(b) => Json::Array(b + o),
            _ => overlay,
        },
        _ => overlay,
    }
}

/// The entries `o` merged, in order, into the entries `b`.
pub open spec fn merged_entries(b: Seq<(Seq<char>, Json)>, o: Seq<(Seq<char>, Json)>) -> Seq<
    (Seq<char>, Json),
>
    decreases o,
{
    if o.len() == 0 {
        b
    } else {
        let acc = merged_entries(b, o.drop_last());
        let k = o.last().0;
        match key_pos(acc, k) {
            Some(i) => acc.update(i, (k, merged(acc[i].1, o.last().1))),
            None => acc.push((k, o.last().1)),
        }
    }
}

/// The keys of a map's entries.
pub open spec fn keys(es: Seq<(Seq<char>, Json)>) -> Set<Seq<char>> {
    Set::new(|k: Seq<char>| exists|i: int| 0 <= i < es.len() && #[trigger] es[i].0 == k)
}

/// Merging maps keeps every key of both and adds no other.
pub proof fn lemma_merge_keys(b: Seq<(Seq<char>, Json)>, o: Seq<(Seq<char>, Json)>)
    ensures
        keys(merged_entries(b, o)) == keys(b).union(keys(o)),
    decreases o.len(),
{
    if o.len() == 0 {
        assert(keys(o) =~= Set::<Seq<char>>::empty());
        assert(keys(b).union(keys(o)) =~= keys(b));
    } else {
        let p = o.drop_last();
        lemma_merge_keys(b, p);
        let acc = merged_entries(b, p);
        let k = o.last().0;
        assert(keys(o) =~= keys(p).insert(k)) by {
            assert forall|x: Seq<char>| keys(o).contains(x) implies keys(p).insert(k).contains(x) by {
                let i = choose|i: int| 0 <= i < o.len() && #[trigger] o[i].0 == x;
                if i < p.len() {
                    assert(p[i].0 == x);
                }
            }
            assert forall|x: Seq<char>| keys(p).insert(k).contains(x) implies keys(o).contains(x) by {
                if x == k {
                    assert(o[o.len() - 1].0 == x);
                } else {
                    let i = choose|i: int| 0 <= i < p.len() && #[trigger] p[i].0 == x;
                    assert(o[i].0 == x);
                }
            }
        }
        match key_pos(acc, k) {
            Some(i) => {
                let c = choose|i: int| is_key_at(acc, k, i);
                let r = acc.update(i, (k, merged(acc[i].1, o.last().1)));
                assert(keys(r) =~= keys(acc)) by {
                    assert forall|x: Seq<char>| keys(r).contains(x) implies keys(acc).contains(x) by {
                        let j = choose|j: int| 0 <= j < r.len() && #[trigger] r[j].0 == x;
                        assert(acc[j].0 == x);
                    }
                    assert forall|x: Seq<char>| keys(acc).contains(x) implies keys(r).contains(x) by {
                        let j = choose|j: int| 0 <= j < acc.len() && #[trigger] acc[j].0 == x;
                        assert(r[j].0 == x);
                    }
                }
                assert(keys(acc).contains(k)) by {
                    assert(acc[c].0 == k);
                }
                assert(keys(b).union(keys(o)) =~= keys(acc));
            },
            None => {
                let r = acc.push((k, o.last().1));
                assert(keys(r) =~= keys(acc).insert(k)) by {
                    assert forall|x: Seq<char>| keys(r).contains(x) implies keys(acc).insert(k).contains(x) by {
                        let j = choose|j: int| 0 <= j < r.len() && #[trigger] r[j].0 == x;
                        if j < acc.len() {
                            assert(acc[j].0 == x);
                        }
                    }
                    assert forall|x: Seq<char>| keys(acc).insert(k).contains(x) implies keys(r).contains(x) by {
                        if x == k {
                            assert(r[acc.len() as int].0 == x);
                        } else {
                            let j = choose|j: int| 0 <= j < acc.len() && #[trigger] acc[j].0 == x;
                            assert(r[j].0 == x);
                        }
                    }
                }
                assert(keys(b).union(keys(o)) =~= keys(acc).insert(k));
            },
        }
    }
}

fn copy_string(s: &String) -> (r: String)
    ensures
        r@ == s@,
{
    s.clone()
}

/// A copy of a value.
pub fn copy_value(v: &JsonValue) -> (r: JsonValue)
    ensures
        json(r) == json(*v),
    decreases v,
{
    match v {
        JsonValue::Null => JsonValue::Null,
        JsonValue::Bool(b) => JsonValue::Bool(*b),
        JsonValue::Number(n) => JsonValue::Number(copy_string(n)),
        JsonValue::Str(s) => JsonValue::Str(copy_string(s)),
        JsonValue::Array(vs) => {
            let mut out: Vec<JsonValue> = Vec::new();
            let mut i: usize = 0;
            while i < vs.len()
                invariant
                    i <= vs@.len(),
                    *v == JsonValue::Array(*vs),
                    jsons(out@) == jsons(vs@.take(i as int)),
                decreases vs@.len() - i,
            {
                assert(decreases_to!(*v => (*v)->Array_0));
                assert(decreases_to!(*vs => vs@));
                assert(decreases_to!(vs@ => vs@[i as int]));
                assert(decreases_to!(*v => vs@[i as int]));
                let c = copy_value(&vs[i]);
                let ghost before = out@;
                out.push(c);
                assert(out@.drop_last() =~= before);
                assert(vs@.take(i + 1).drop_last() =~= vs@.take(i as int));
                i += 1;
            }
            assert(vs@.take(vs@.len() as int) =~= vs@);
            JsonValue::Array(out)
        },
        JsonValue::Object(es) => {
            let mut out: Vec<(String, JsonValue)> = Vec::new();
            let mut i: usize = 0;
            while i < es.len()
                invariant
                    i <= es@.len(),
                    *v == JsonValue::Object(*es),
                    entries_json(out@) == entries_json(es@.take(i as int)),
                decreases es@.len() - i,
            {
                assert(decreases_to!(*v => (*v)->Object_0));
                assert(decreases_to!(*es => es@));
                assert(decreases_to!(es@ => es@[i as int]));
                assert(decreases_to!(es@[i as int] => es@[i as int].1));
                assert(decreases_to!(*v => es@[i as int].1));
                let c = copy_value(&es[i].1);
                let k = copy_string(&es[i].0);
                let ghost before = out@;
                out.push((k, c));
                assert(out@.drop_last() =~= before);
                assert(es@.take(i + 1).drop_last() =~= es@.take(i as int));
                i += 1;
            }
            assert(es@.take(es@.len() as int) =~= es@);
            JsonValue::Object(out)
        },
    }
}

fn find_key(es: &Vec<(String, JsonValue)>, k: &String) -> (r: Option<usize>)
    ensures
        r matches Some(i) ==> key_pos(entries_json(es@), k@) == Some(i as int) && i < es@.len(),
        r is None ==> key_pos(entries_json(es@), k@) is None,
{
    proof {
        lemma_entries_json(es@);
    }
    let ghost ej = entries_json(es@);
    let mut i: usize = 0;
    while i < es.len()
        invariant
            i <= es@.len(),
            ej == entries_json(es@),
            ej.len() == es@.len(),
            forall|t: int| 0 <= t < es@.len() ==> #[trigger] ej[t] == (es@[t].0@, json(es@[t].1)),
            forall|j: int| 0 <= j < i ==> #[trigger] ej[j].0 != k@,
        decreases es@.len() - i,
    {
        if es[i].0 == *k {
            proof {
                assert(ej[i as int].0 == k@);
                assert(is_key_at(ej, k@, i as int));
                let c = choose|x: int| is_key_at(ej, k@, x);
                lemma_key_at_unique(ej, k@, c, i as int);
            }
            return Some(i);
        }
        assert(ej[i as int].0 != k@);
        i += 1;
    }
    proof {
        if exists|x: int| is_key_at(ej, k@, x) {
            let c = choose|x: int| is_key_at(ej, k@, x);
            assert(ej[c].0 != k@);
        }
    }
    None
}

/// Merges `overlay` into `base` (see [`merged`]).
pub fn merge_value(base: JsonValue, overlay: &JsonValue) -> (r: JsonValue)
    ensures
        json(r) == merged(json(base), json(*overlay)),
    decreases overlay,
{
    match overlay {
        JsonValue::Object(o) => match base {
            JsonValue::Object(b) => {
                let ghost b0 = entries_json(b@);
                let ghost o0 = entries_json(o@);
                proof {
                    lemma_entries_json(o@);
                }
                let mut acc = b;
                let mut i: usize = 0;
                assert(o0.take(0) =~= Seq::<(Seq<char>, Json)>::empty());
                while i < o.len()
                    invariant
                        i <= o@.len(),
                        *overlay == JsonValue::Object(*o),
                        o0 == entries_json(o@),
                        o0.len() == o@.len(),
                        forall|t: int| 0 <= t < o@.len() ==> #[trigger] o0[t] == (o@[t].0@, json(o@[t].1)),
                        entries_json(acc@) == merged_entries(b0, o0.take(i as int)),
                    decreases o@.len() - i,
                {
                    let ghost a0 = entries_json(acc@);
                    assert(o0.take(i + 1).drop_last() =~= o0.take(i as int));
                    assert(o0.take(i + 1).last() == o0[i as int]);
                    proof {
                        lemma_entries_json(acc@);
                    }
                    match find_key(&acc, &o[i].0) {
                        Some(j) => {
                            let (k, v) = acc.remove(j);
                            assert(decreases_to!(*overlay => (*overlay)->Object_0));
                            assert(decreases_to!(*o => o@));
                            assert(decreases_to!(o@ => o@[i as int]));
                            assert(decreases_to!(o@[i as int] => o@[i as int].1));
                            assert(decreases_to!(*overlay => o@[i as int].1));
                            let nv = merge_value(v, &o[i].1);
                            acc.insert(j, (k, nv));
                            proof {
                                lemma_entries_json(acc@);
                                assert(is_key_at(a0, o0[i as int].0, j as int));
                                assert(entries_json(acc@) =~= a0.update(
                                    j as int,
                                    (o0[i as int].0, merged(a0[j as int].1, o0[i as int].1)),
                                ));
                            }
                        },
                        None => {
                            let k = copy_string(&o[i].0);
                            let c = copy_value(&o[i].1);
                            let ghost before = acc@;
                            acc.push((k, c));
                            assert(acc@.drop_last() =~= before);
                        },
                    }
                    i += 1;
                }
                assert(o0.take(o@.len() as int) =~= o0);
                JsonValue::Object(acc)
            },
            _ => copy_value(overlay),
        },
        JsonValue::Array(o) => match base {
            JsonValue::Array(b) => {
                let ghost b0 = jsons(b@);
                let ghost o0 = jsons(o@);
                proof {
                    lemma_jsons(o@);
                }
                let mut acc = b;
                let mut i: usize = 0;
                while i < o.len()
                    invariant
                        i <= o@.len(),
                        o0 == jsons(o@),
                        o0.len() == o@.len(),
                        forall|t: int| 0 <= t < o@.len() ==> #[trigger] o0[t] == json(o@[t]),
                        jsons(acc@) == b0 + o0.take(i as int),
                    decreases o@.len() - i,
                {
                    let c = copy_value(&o[i]);
                    let ghost before = acc@;
                    acc.push(c);
                    assert(acc@.drop_last() =~= before);
                    assert(b0 + o0.take(i + 1) =~= (b0 + o0.take(i as int)).push(o0[i as int]));
                    i += 1;
                }
                assert(o0.take(o@.len() as int) =~= o0);
                JsonValue::Array(acc)
            },
            _ => copy_value(overlay),
        },
        _ => copy_value(overlay),
    }
}

/// Merges `overlay` into `base` in place (see [`merged`]).
pub fn deep_merge(base: &mut JsonValue, overlay: &JsonValue)
    ensures
        json(*final(base)) == merged(json(*old(base)), json(*overlay)),
{
    let mut taken = JsonValue::Null;
    std::mem::swap(&mut taken, base);
    *base = merge_value(taken, overlay);
}

} // verus!
