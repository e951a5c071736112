use morg::collect::{
    compute_inherited, file_tags, match_custom_state, todo_sequences, walk_tags, StackEntry,
    TodoSequence,
};
use morg::{parse_document, TagKind};

#[test]
fn custom_state_matches_case_insensitively() {
    let seqs = vec![TodoSequence {
        states: vec![
            ("TODO".to_string(), false),
            ("NEXT".to_string(), false),
            ("DONE".to_string(), true),
        ],
    }];
    assert_eq!(match_custom_state("next", &seqs), Some(("NEXT".to_string(), false)));
    assert_eq!(match_custom_state("Done", &seqs), Some(("DONE".to_string(), true)));
    assert_eq!(match_custom_state("later", &seqs), None);
}

#[test]
fn todo_sequences_from_frontmatter() {
    let src = "---\ntodo_sequences: [[\"todo\", \"wait\", \"|\", \"done\"]]\n---\n# H\n";
    let doc = parse_document(src).document;
    let seqs = todo_sequences(&doc);
    assert_eq!(seqs.len(), 1);
    assert_eq!(
        seqs[0].states,
        vec![
            ("TODO".to_string(), false),
            ("WAIT".to_string(), false),
            ("DONE".to_string(), true)
        ]
    );
}

#[test]
fn file_tags_from_list_and_string() {
    let doc = parse_document("---\ntags: [work, home]\n---\n").document;
    assert_eq!(file_tags(&doc), vec!["work".to_string(), "home".to_string()]);
    let doc = parse_document("---\ntags: \"a, b ,, c\"\n---\n").document;
    assert_eq!(file_tags(&doc), vec!["a".to_string(), "b".to_string(), "c".to_string()]);
    let doc = parse_document("# No frontmatter\n").document;
    assert!(file_tags(&doc).is_empty());
}

#[test]
fn inherited_tags_sorted_and_deduplicated() {
    let stack = vec![
        StackEntry { level: 1, tags: vec!["zeta".to_string(), "alpha".to_string()], archived: false },
        StackEntry { level: 2, tags: vec!["alpha".to_string()], archived: true },
    ];
    let (tags, archived) = compute_inherited(&stack, &vec!["mid".to_string()]);
    assert_eq!(tags, vec!["alpha".to_string(), "mid".to_string(), "zeta".to_string()]);
    assert!(archived);
}

#[test]
fn walk_visits_every_tag_with_inheritance() {
    let src = "---\ntags: [proj]\n---\n# Top #work\n\nText #todo write.\n\n## Sub #archive\n\n#deadline 2026-04-10\n\n# Other\n\n- item #todo\n";
    let doc = parse_document(src).document;
    let ctxs = walk_tags("notes.md", &doc);
    let kinds: Vec<String> = ctxs
        .iter()
        .map(|c| match &c.tag.kind {
            TagKind::Unknown { name, .. } => name.clone(),
            TagKind::Todo { .. } => "todo".to_string(),
            TagKind::Archive => "archive".to_string(),
            TagKind::Deadline { .. } => "deadline".to_string(),
            _ => "other".to_string(),
        })
        .collect();
    assert_eq!(kinds, vec!["work", "todo", "archive", "deadline", "todo"]);
    assert_eq!(ctxs[1].inherited_tags, vec!["proj".to_string(), "work".to_string()]);
    assert!(!ctxs[1].is_archived);
    assert!(ctxs[3].is_archived);
    assert_eq!(ctxs[4].inherited_tags, vec!["proj".to_string()]);
    assert!(!ctxs[4].is_archived);
    assert!(ctxs.iter().all(|c| c.file == "notes.md"));
}
