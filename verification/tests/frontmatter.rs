use morg::frontmatter::{deep_merge, JsonValue};

fn convert(v: &serde_yaml::Value) -> JsonValue {
    match v {
        serde_yaml::Value::Null => JsonValue::Null,
        serde_yaml::Value::Bool(b) => JsonValue::Bool(*b),
        serde_yaml::Value::Number(n) => JsonValue::Number(n.to_string()),
        serde_yaml::Value::String(s) => JsonValue::Str(s.clone()),
        serde_yaml::Value::Sequence(items) => JsonValue::Array(items.iter().map(convert).collect()),
        serde_yaml::Value::Mapping(m) => JsonValue::Object(
            m.iter()
                .map(|(k, v)| {
                    let key = match k {
                        serde_yaml::Value::String(s) => s.clone(),
                        other => serde_yaml::to_string(other).unwrap().trim().to_string(),
                    };
                    (key, convert(v))
                })
                .collect(),
        ),
        serde_yaml::Value::Tagged(t) => convert(&t.value),
    }
}

fn json(s: &str) -> JsonValue {
    let yaml_val: serde_yaml::Value = serde_yaml::from_str(s).unwrap();
    convert(&yaml_val)
}

fn get<'a>(v: &'a JsonValue, key: &str) -> &'a JsonValue {
    match v {
        JsonValue::Object(es) => &es.iter().find(|(k, _)| k == key).unwrap().1,
        _ => panic!("not a map"),
    }
}

fn number(v: &JsonValue) -> String {
    match v {
        JsonValue::Number(n) => n.clone(),
        _ => panic!("not a number"),
    }
}

fn text(v: &JsonValue) -> String {
    match v {
        JsonValue::Str(s) => s.clone(),
        _ => panic!("not a string"),
    }
}

#[test]
fn test_deep_merge_maps() {
    let mut base = json("a: 1\nb: 2");
    let overlay = json("b: 3\nc: 4");
    deep_merge(&mut base, &overlay);

    assert_eq!(number(get(&base, "a")), "1");
    assert_eq!(number(get(&base, "b")), "3");
    assert_eq!(number(get(&base, "c")), "4");
}

#[test]
fn test_deep_merge_sequences() {
    let mut base = json("tags:\n  - a\n  - b");
    let overlay = json("tags:\n  - c");
    deep_merge(&mut base, &overlay);

    match get(&base, "tags") {
        JsonValue::Array(tags) => assert_eq!(tags.len(), 3),
        _ => panic!("not a sequence"),
    }
}

#[test]
fn test_deep_merge_nested() {
    let mut base = json("meta:\n  author: Alice\n  version: 1");
    let overlay = json("meta:\n  version: 2\n  license: MIT");
    deep_merge(&mut base, &overlay);

    assert_eq!(text(get(get(&base, "meta"), "author")), "Alice");
    assert_eq!(number(get(get(&base, "meta"), "version")), "2");
    assert_eq!(text(get(get(&base, "meta"), "license")), "MIT");
}

#[test]
fn deep_merge_replaces_mismatched_kinds() {
    let mut base = json("a: [1, 2]\nb: x");
    let overlay = json("a: 5\nb: [y]");
    deep_merge(&mut base, &overlay);
    assert_eq!(number(get(&base, "a")), "5");
    match get(&base, "b") {
        JsonValue::Array(items) => assert_eq!(items.len(), 1),
        _ => panic!("not a sequence"),
    }
}

#[test]
fn deep_merge_keeps_every_key() {
    let mut base = json("x: 1\ny: 2");
    let overlay = json("y: 3\nz: 4");
    deep_merge(&mut base, &overlay);
    match &base {
        JsonValue::Object(es) => {
            let keys: Vec<&str> = es.iter().map(|(k, _)| k.as_str()).collect();
            assert_eq!(keys, vec!["x", "y", "z"]);
        }
        _ => panic!("not a map"),
    }
}

#[test]
fn deep_merge_into_scalar() {
    let mut base = JsonValue::Null;
    let overlay = json("k: v");
    deep_merge(&mut base, &overlay);
    assert_eq!(text(get(&base, "k")), "v");
}
