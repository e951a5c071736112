use morg::{parse_document, Block, Checkbox, InlineSegment, Tag, TagKind};
use morg::span::Span;


#[test]
fn test_v2_full_document() {
    let src = "---\ntitle: Test\n---\n\n# Heading\n\nSome text with #todo inline tag.\n\n```rust #tangle file=main.rs\nfn main() {}\n```\n\n#deadline 2026-04-10\n";
    let result = parse_document(src);
    assert!(result.errors.is_empty(), "errors: {:?}", result.errors);

    let doc = &result.document;
    assert!(doc.frontmatter.is_some());

    let has_heading = doc.children.iter().any(|b| matches!(b, Block::Heading(h) if h.level == 1));
    assert!(has_heading, "should have heading");

    let code_block = doc.children.iter().find_map(|b| match b {
        Block::CodeBlock(cb) => Some(cb),
        _ => None,
    });
    assert!(code_block.is_some(), "should have code block");
    let cb = code_block.unwrap();
    assert_eq!(cb.lang.as_deref(), Some("rust"));
    assert!(cb.tags.iter().any(|t| matches!(t.kind, TagKind::Tangle)));
    assert_eq!(cb.attributes.get("file").map(|s| s.as_str()), Some("main.rs"));
    assert_eq!(cb.body, "fn main() {}");

    let has_deadline = doc.children.iter().any(|b| {
        matches!(b, Block::BlockTag(Tag { kind: TagKind::Deadline { .. }, .. }))
    });
    assert!(has_deadline, "should have deadline");
}

#[test]
fn test_v2_inline_tags() {
    let src = "some text #todo fix this\n";
    let result = parse_document(src);
    assert!(result.errors.is_empty());

    let para = result.document.children.iter().find_map(|b| match b {
        Block::Paragraph(p) => Some(p),
        _ => None,
    }).unwrap();

    let tags: Vec<_> = para.content.tags();
    assert_eq!(tags.len(), 1);
    assert!(matches!(tags[0].kind, TagKind::Todo { .. }));
}

#[test]
fn test_v2_bold_italic() {
    let src = "**bold** and *italic* text\n";
    let result = parse_document(src);
    assert!(result.errors.is_empty());

    let para = result.document.children.iter().find_map(|b| match b {
        Block::Paragraph(p) => Some(p),
        _ => None,
    }).unwrap();

    assert!(para.content.segments.iter().any(|s| matches!(s, InlineSegment::Bold(_))));
    assert!(para.content.segments.iter().any(|s| matches!(s, InlineSegment::Italic(_))));
}

#[test]
fn test_v2_link() {
    let src = "[click](https://example.com)\n";
    let result = parse_document(src);
    assert!(result.errors.is_empty());

    let para = result.document.children.iter().find_map(|b| match b {
        Block::Paragraph(p) => Some(p),
        _ => None,
    }).unwrap();

    assert!(para.content.segments.iter().any(|s| matches!(s, InlineSegment::Link(_))));
}

#[test]
fn test_v2_table() {
    let src = "| a | b |\n|---|---|\n| 1 | 2 |\n";
    let result = parse_document(src);
    assert!(result.errors.is_empty());

    let table = result.document.children.iter().find_map(|b| match b {
        Block::Table(t) => Some(t),
        _ => None,
    });
    assert!(table.is_some());
    let t = table.unwrap();
    assert_eq!(t.headers.len(), 2);
    assert_eq!(t.rows.len(), 1);
}

#[test]
fn test_v2_callout() {
    let src = "> [!note]\n> This is a note.\n> With two lines.\n\nRegular text.\n";
    let result = parse_document(src);
    assert!(result.errors.is_empty(), "errors: {:?}", result.errors);

    let callout = result.document.children.iter().find_map(|b| match b {
        Block::Callout(c) => Some(c),
        _ => None,
    });
    assert!(callout.is_some());
    assert_eq!(callout.unwrap().kind, "note");
}

#[test]
fn test_v2_list_with_checkboxes() {
    let src = "- [ ] Unchecked task\n- [x] Checked task\n- Regular item\n";
    let result = parse_document(src);
    assert!(result.errors.is_empty());

    let list = result.document.children.iter().find_map(|b| match b {
        Block::List(l) => Some(l),
        _ => None,
    });
    let l = list.unwrap();
    assert_eq!(l.items.len(), 3);
    assert_eq!(l.items[0].checkbox, Some(Checkbox::Unchecked));
    assert_eq!(l.items[1].checkbox, Some(Checkbox::Checked));
    assert_eq!(l.items[2].checkbox, None);
}

#[test]
fn test_v2_property_drawer() {
    let src = "## My Task\n\n#properties\nid = abc-123\neffort = 2h30m\n#end\n\nContent.\n";
    let result = parse_document(src);
    assert!(result.errors.is_empty(), "errors: {:?}", result.errors);

    let h = result.document.children.iter().find_map(|b| match b {
        Block::Heading(h) => Some(h),
        _ => None,
    }).unwrap();
    assert!(h.properties.is_some());
    let props = h.properties.as_ref().unwrap();
    assert_eq!(props.entries.get("id").map(|s| s.as_str()), Some("abc-123"));
}

#[test]
fn test_v2_clock_tags() {
    let src = "#clock-in 2026-04-03T09:00\n#clock-out 2026-04-03T10:30\n#clock 1h30m\n";
    let result = parse_document(src);
    assert!(result.errors.is_empty());

    let tags: Vec<_> = result.document.children.iter()
        .filter_map(|b| match b { Block::BlockTag(t) => Some(t), _ => None })
        .collect();
    assert_eq!(tags.len(), 3);
    assert!(matches!(tags[0].kind, TagKind::ClockIn { .. }));
    assert!(matches!(tags[1].kind, TagKind::ClockOut { .. }));
    assert!(matches!(tags[2].kind, TagKind::Clock(_)));
}

#[test]
fn test_v2_comments() {
    let src = "// this is a comment\n\nText.\n";
    let result = parse_document(src);
    assert!(result.errors.is_empty());

    let has_comment = result.document.children.iter().any(|b| matches!(b, Block::Comment(_)));
    assert!(has_comment);
}

#[test]
fn test_v2_horizontal_rule() {
    let src = "Text above.\n\n***\n\nText below.\n";
    let result = parse_document(src);
    assert!(result.errors.is_empty());

    let has_hr = result.document.children.iter().any(|b| matches!(b, Block::HorizontalRule(_)));
    assert!(has_hr);
}

#[test]
fn test_v2_footnote() {
    let src = "[^1]: This is a footnote.\n";
    let result = parse_document(src);
    assert!(result.errors.is_empty());

    let has_fn = result.document.children.iter().any(|b| matches!(b, Block::FootnoteDefinition(_)));
    assert!(has_fn);
}

#[test]
fn test_v2_html_block() {
    let src = "<div class=\"container\">\n  <p>Hello</p>\n</div>\n";
    let result = parse_document(src);

    let html = result.document.children.iter().find_map(|b| match b {
        Block::HtmlBlock(h) => Some(h),
        _ => None,
    });
    assert!(html.is_some());
    assert!(html.unwrap().raw.contains("<div"));
}

#[test]
fn test_v2_unclosed_fence_recovery() {
    let src = "```rust\nfn main() {}\n\n# Next heading\n";
    let result = parse_document(src);
    assert!(!result.errors.is_empty());
    assert!(!result.document.children.is_empty());
}

#[test]
fn test_v2_nested_list() {
    let src = "- Parent one\n  - Child A\n  - Child B\n- Parent two\n  - Child C\n    - Grandchild\n";
    let result = parse_document(src);
    assert!(result.errors.is_empty(), "errors: {:?}", result.errors);

    let list = result.document.children.iter().find_map(|b| match b {
        Block::List(l) => Some(l),
        _ => None,
    }).expect("should have a list");

    // Two top-level items
    assert_eq!(list.items.len(), 2, "should have 2 top-level items");

    // First parent has 2 children
    assert_eq!(list.items[0].content.plain_text(), "Parent one");
    assert_eq!(list.items[0].children.len(), 1, "parent one should have 1 child block (nested list)");
    if let Block::List(child_list) = &list.items[0].children[0] {
        assert_eq!(child_list.items.len(), 2, "child list should have 2 items");
        assert_eq!(child_list.items[0].content.plain_text(), "Child A");
        assert_eq!(child_list.items[1].content.plain_text(), "Child B");
    } else {
        panic!("expected nested list");
    }

    // Second parent has 1 child with its own grandchild
    assert_eq!(list.items[1].content.plain_text(), "Parent two");
    if let Block::List(child_list) = &list.items[1].children[0] {
        assert_eq!(child_list.items.len(), 1);
        assert_eq!(child_list.items[0].content.plain_text(), "Child C");
        // Child C has a grandchild
        assert_eq!(child_list.items[0].children.len(), 1);
        if let Block::List(grandchild_list) = &child_list.items[0].children[0] {
            assert_eq!(grandchild_list.items.len(), 1);
            assert_eq!(grandchild_list.items[0].content.plain_text(), "Grandchild");
        } else {
            panic!("expected grandchild list");
        }
    } else {
        panic!("expected nested list for parent two");
    }
}

#[test]
fn test_v2_nested_checkbox_list() {
    let src = "- [ ] Parent task\n  - [x] Subtask done\n  - [ ] Subtask pending\n";
    let result = parse_document(src);
    assert!(result.errors.is_empty());

    let list = result.document.children.iter().find_map(|b| match b {
        Block::List(l) => Some(l),
        _ => None,
    }).unwrap();

    assert_eq!(list.items.len(), 1);
    assert_eq!(list.items[0].checkbox, Some(Checkbox::Unchecked));

    if let Block::List(child_list) = &list.items[0].children[0] {
        assert_eq!(child_list.items.len(), 2);
        assert_eq!(child_list.items[0].checkbox, Some(Checkbox::Checked));
        assert_eq!(child_list.items[1].checkbox, Some(Checkbox::Unchecked));
    } else {
        panic!("expected nested list");
    }
}

#[test]
fn span_merge_takes_the_column_of_the_smaller_start() {
    let a = Span::new(10, 12, 2, 7);
    let b = Span::new(3, 5, 2, 2);
    assert_eq!(a.merge(b), Span::new(3, 12, 2, 2));
    assert_eq!(
        Span::new(0, 5, 1, 1).merge(Span::new(10, 20, 3, 4)),
        Span::new(0, 20, 1, 1)
    );
}

#[test]
fn span_merge_on_equal_starts_takes_the_earlier_line() {
    let a = Span::new(0, 1, 1, 1);
    let b = Span::new(0, 1, 2, 5);
    assert_eq!(a.merge(b), Span::new(0, 1, 1, 1));
    assert_eq!(b.merge(a), Span::new(0, 1, 1, 1));
}
