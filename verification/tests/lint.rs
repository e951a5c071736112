use morg::lint::{lint_document, parse_location};
use morg::{parse_document, Date};

fn today() -> Date {
    Date { year: 2026, month: 4, day: 8 }
}

fn findings(src: &str) -> Vec<(String, String, String)> {
    let doc = parse_document(src).document;
    lint_document(&doc, "notes.md", today())
        .into_iter()
        .map(|w| (w.location, w.severity, w.message))
        .collect()
}

#[test]
fn lint_heading_level_jump() {
    let f = findings("# One\n\n### Three\n");
    assert_eq!(
        f,
        vec![(
            "notes.md:3".to_string(),
            "warn".to_string(),
            "heading level jumps from 1 to 3 (skipped level 2)".to_string()
        )]
    );
}

#[test]
fn lint_past_deadline_only() {
    let f = findings("#deadline 2026-04-01\n#deadline 2026-05-01\n#scheduled 2025-01-01T09:00\n");
    assert_eq!(f.len(), 2);
    assert_eq!(f[0].2, "past date: 2026-04-01");
    assert_eq!(f[1].2, "past date: 2025-01-01T09:00");
    assert_eq!(f[1].0, "notes.md:3");
}

#[test]
fn lint_tangle_without_file() {
    let f = findings("```rust #tangle\nfn main() {}\n```\n\n```\n#tangle\n```\n");
    assert_eq!(f[0].1, "error");
    assert_eq!(f[0].2, "#tangle tag without file= attribute");
}

#[test]
fn lint_tangle_without_language() {
    let f = findings("``` #tangle file=a.txt\nx\n```\n");
    assert_eq!(
        f,
        vec![(
            "notes.md:1".to_string(),
            "warn".to_string(),
            "tangled code block without language specifier".to_string()
        )]
    );
}

#[test]
fn lint_clean_document() {
    assert!(findings("# Title\n\n## Section\n\nText.\n").is_empty());
}

#[test]
fn lint_empty_heading() {
    let f = findings("#\n");
    assert!(f.iter().any(|w| w.2 == "empty heading"));
}

#[test]
fn location_round_trip() {
    assert_eq!(parse_location("a/b.md:12"), ("a/b.md".to_string(), 12));
    assert_eq!(parse_location("c:d:7"), ("c:d".to_string(), 7));
    assert_eq!(parse_location("nofile"), ("nofile".to_string(), 0));
    assert_eq!(parse_location("x:abc"), ("x".to_string(), 0));
}
