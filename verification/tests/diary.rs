use morg::diary::{
    fill_archive_pattern, fill_template, insert_todos, note_date, parse_date_parts,
    unchecked_todos,
};

#[test]
fn test_parse_date_parts() {
    assert_eq!(
        parse_date_parts("2026-04-05"),
        ("2026".into(), "04".into(), "05".into())
    );
    assert_eq!(
        parse_date_parts("2025-12-31"),
        ("2025".into(), "12".into(), "31".into())
    );
    assert_eq!(
        parse_date_parts("bad"),
        ("bad".into(), "01".into(), "01".into())
    );
}

#[test]
fn note_date_valid() {
    let content = "---\ndate: 2026-04-05\nweek: 14\n---\n# Hello\n";
    assert_eq!(note_date(content), Some("2026-04-05".to_string()));
}

#[test]
fn note_date_no_frontmatter() {
    assert_eq!(note_date("# Just a heading\nSome text.\n"), None);
}

#[test]
fn note_date_no_date_field() {
    assert_eq!(note_date("---\ntitle: Note\nweek: 14\n---\n# Hello\n"), None);
}

#[test]
fn rotated_note_carries_unchecked_todos() {
    let template =
        "---\ndate: YYYY-MM-DD\nweek: WW\ncreated: HH:MM\n---\n\n## TODOs\n\n- [ ]\n- [ ]\n- [ ]\n";
    let old = "---\ndate: 2026-04-05\n---\n\n## TODOs\n\n- [ ] Buy milk\n- [x] Send email\n- [ ] Fix bug\n";
    let todos = unchecked_todos(old);
    assert_eq!(todos, vec!["- [ ] Buy milk".to_string(), "- [ ] Fix bug".to_string()]);
    let note = fill_template(template, "2026-04-06", "15", "09:30");
    let note = insert_todos(&note, &todos);
    assert!(note.contains("date: 2026-04-06"));
    assert!(note.contains("week: 15"));
    assert!(note.contains("created: 09:30"));
    assert!(note.contains("- [ ] Buy milk"));
    assert!(note.contains("- [ ] Fix bug"));
    assert!(!note.contains("Send email"));
    assert!(!note.contains("- [ ]\n- [ ]\n- [ ]"));
}

#[test]
fn rotated_note_without_todos_keeps_placeholders() {
    let template = "---\ndate: YYYY-MM-DD\n---\n\n## TODOs\n\n- [ ]\n- [ ]\n- [ ]\n";
    let note = fill_template(template, "2026-04-06", "15", "10:00");
    let note = insert_todos(&note, &Vec::new());
    assert!(note.contains("- [ ]\n- [ ]\n- [ ]"));
}

#[test]
fn todos_inserted_after_heading_without_placeholders() {
    let note = "# Day\n\n## TODOs\n\nrest\n";
    let todos = vec!["- [ ] Follow up".to_string()];
    assert_eq!(
        insert_todos(note, &todos),
        "# Day\n\n## TODOs\n\n- [ ] Follow up\nrest\n"
    );
}

#[test]
fn unchecked_todo_needs_text() {
    assert!(unchecked_todos("- [ ] \n  - [ ] indented\n").len() == 1);
}

#[test]
fn archive_pattern_filled() {
    assert_eq!(fill_archive_pattern("{year}/{month}", "2026", "04", "05"), "2026/04");
    assert_eq!(fill_archive_pattern("{day}.md", "2026", "04", "05"), "05.md");
}
