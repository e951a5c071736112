use morg::tangle::{
    collect_named_blocks, collect_tangle_blocks, detect_heredoc_start, expand_noweb,
    parse_noweb_ref, render_callout_content, tangled_content,
};
use morg::{parse_document, StringMap};

#[test]
fn test_noweb_simple_expansion() {
    let mut named = StringMap::new();
    named.insert("imports".to_string(), "use std::io;".to_string());

    let input = "<<imports>>\n\nfn main() {}";
    let result = expand_noweb(input, &named);
    assert_eq!(result, "use std::io;\n\nfn main() {}");
}

#[test]
fn test_noweb_indentation() {
    let mut named = StringMap::new();
    named.insert(
        "body".to_string(),
        "println!(\"hello\");\nprintln!(\"world\");".to_string(),
    );

    let input = "fn main() {\n    <<body>>\n}";
    let result = expand_noweb(input, &named);
    assert_eq!(
        result,
        "fn main() {\n    println!(\"hello\");\n    println!(\"world\");\n}"
    );
}

#[test]
fn test_noweb_recursive() {
    let mut named = StringMap::new();
    named.insert("inner".to_string(), "x + 1".to_string());
    named.insert("outer".to_string(), "let y = <<inner>>;".to_string());

    let input = "<<outer>>";
    let result = expand_noweb(input, &named);
    assert_eq!(result, "let y = x + 1;");
}

#[test]
fn test_noweb_circular() {
    let mut named = StringMap::new();
    named.insert("a".to_string(), "<<b>>".to_string());
    named.insert("b".to_string(), "<<a>>".to_string());

    let input = "<<a>>";
    let result = expand_noweb(input, &named);
    assert!(result.contains("<<a>>") || result.contains("<<b>>"));
}

#[test]
fn test_noweb_unresolved() {
    let named = StringMap::new();
    let input = "<<missing>>";
    let result = expand_noweb(input, &named);
    assert_eq!(result, "<<missing>>");
}

#[test]
fn test_parse_noweb_ref() {
    assert_eq!(
        parse_noweb_ref("<<imports>>"),
        Some(("".to_string(), "imports".to_string()))
    );
    assert_eq!(
        parse_noweb_ref("    <<body>>"),
        Some(("    ".to_string(), "body".to_string()))
    );
    assert_eq!(parse_noweb_ref("not a ref"), None);
    assert_eq!(parse_noweb_ref("<<>>"), None);
}

#[test]
fn test_allow_trailing_newline_adds_newline() {
    let named = StringMap::new();
    let body = "line one\nline two";
    let mut content = expand_noweb(body, &named);
    assert!(!content.ends_with('\n'), "sanity: no trailing newline yet");
    content.push('\n');
    assert!(content.ends_with('\n'));
    assert_eq!(content, "line one\nline two\n");
}

#[test]
fn test_no_trailing_newline_by_default() {
    let named = StringMap::new();
    let body = "line one\nline two";
    let content = expand_noweb(body, &named);
    assert!(
        !content.ends_with('\n'),
        "default should have no trailing newline"
    );
}

#[test]
fn test_heredoc_content_not_expanded() {
    let mut named = StringMap::new();
    named.insert("content".to_string(), "EXPANDED".to_string());

    let input = "cat <<EOF\n<<content>>\nEOF";
    let result = expand_noweb(input, &named);
    assert!(
        result.contains("<<content>>"),
        "heredoc body should not be noweb-expanded, got: {result:?}"
    );
    assert!(
        !result.contains("EXPANDED"),
        "noweb must not expand inside heredoc, got: {result:?}"
    );
}

#[test]
fn test_heredoc_end_marker_restored() {
    let mut named = StringMap::new();
    named.insert("value".to_string(), "42".to_string());

    let input = "cat <<EOF\nliteral\nEOF\n<<value>>";
    let result = expand_noweb(input, &named);
    assert!(
        result.contains("42"),
        "noweb should expand after heredoc ends, got: {result:?}"
    );
    assert!(
        result.contains("literal"),
        "heredoc body should be preserved, got: {result:?}"
    );
}

#[test]
fn test_noweb_ref_not_confused_with_heredoc() {
    let mut named = StringMap::new();
    named.insert("greet".to_string(), "hello".to_string());

    let input = "<<greet>>";
    let result = expand_noweb(input, &named);
    assert_eq!(result, "hello");
}

#[test]
fn test_detect_heredoc_start() {
    assert_eq!(detect_heredoc_start("cat <<EOF"), Some("EOF".to_string()));
    assert_eq!(detect_heredoc_start("cat <<-EOF"), Some("EOF".to_string()));
    assert_eq!(detect_heredoc_start("<<greet>>"), None);
    assert_eq!(detect_heredoc_start("echo hello"), None);
}

#[test]
fn heredoc_quoted_marker() {
    assert_eq!(detect_heredoc_start("cat <<'END'"), Some("END".to_string()));
    assert_eq!(detect_heredoc_start("cat <<\"END\""), Some("END".to_string()));
}

#[test]
fn noweb_inline_reference_in_line() {
    let mut named = StringMap::new();
    named.insert("n".to_string(), "7".to_string());
    assert_eq!(expand_noweb("let x = <<n>> + 1;", &named), "let x = 7 + 1;");
}

#[test]
fn noweb_keeps_trailing_newline_of_input() {
    let named = StringMap::new();
    assert_eq!(expand_noweb("a\nb\n", &named), "a\nb\n");
}

#[test]
fn named_blocks_and_tangle_targets_from_document() {
    let src = "```rust name=imports\nuse std::io;\n```\n\n```rust #tangle file=main.rs\n<<imports>>\nfn main() {}\n```\n";
    let doc = parse_document(src).document;
    let mut named = StringMap::new();
    collect_named_blocks(&doc.children, &mut named);
    assert_eq!(named.get("imports").map(|s| s.as_str()), Some("use std::io;"));
    let mut blocks = Vec::new();
    collect_tangle_blocks(&doc.children, "src", None, "notes.md", &mut blocks);
    assert_eq!(blocks.len(), 1);
    assert_eq!(blocks[0].target, "src/main.rs");
    assert_eq!(blocks[0].line, 5);
    let content = tangled_content(&blocks, &named);
    assert_eq!(content, "use std::io;\nfn main() {}");
}

#[test]
fn tangle_target_uses_output_dir() {
    let src = "```sh #tangle file=run.sh allow-trailing-newline=true\necho hi\n```\n";
    let doc = parse_document(src).document;
    let mut blocks = Vec::new();
    collect_tangle_blocks(&doc.children, "src", Some("out"), "notes.md", &mut blocks);
    assert_eq!(blocks.len(), 1);
    assert_eq!(blocks[0].target, "out/run.sh");
    assert!(blocks[0].allow_trailing_newline);
    let named = StringMap::new();
    assert_eq!(tangled_content(&blocks, &named), "echo hi\n");
}

#[test]
fn tangled_callout_renders_plain_text() {
    let src = "> [!note][#tangle file=notes.txt]\n> First line.\n> Second line.\n";
    let doc = parse_document(src).document;
    let mut blocks = Vec::new();
    collect_tangle_blocks(&doc.children, "", None, "notes.md", &mut blocks);
    assert_eq!(blocks.len(), 1);
    assert_eq!(blocks[0].target, "notes.txt");
    match &doc.children[0] {
        morg::Block::Callout(c) => {
            assert_eq!(render_callout_content(&c.content), "First line.\nSecond line.");
        }
        other => panic!("expected callout, got {other:?}"),
    }
}
