use morg::lexer::{tokenize_inline, Lexer};
use morg::tokens::{Keyword, Token};
use morg::Span;


fn block_tokens(source: &str) -> Vec<Token> {
    Lexer::new(source)
        .token_list()
        .iter()
        .map(|s| s.kind.clone())
        .filter(|t| !matches!(t, Token::Newline | Token::Eof))
        .collect()
}

fn inline_tokens(text: &str) -> Vec<Token> {
    tokenize_inline(text, Span::empty(1, 1))
        .into_iter()
        .map(|s| s.kind)
        .collect()
}

// Block-level tests

#[test]
fn test_heading() {
    let tokens = block_tokens("# Hello world");
    assert!(matches!(&tokens[0], Token::Heading { level: 1 }));
    assert!(matches!(&tokens[1], Token::RawLine(_)));
}

#[test]
fn test_code_fence() {
    let tokens = block_tokens("```rust #tangle file=main.rs");
    assert!(
        matches!(&tokens[0], Token::FencedCodeOpen { info, .. } if info == "rust #tangle file=main.rs")
    );
}

#[test]
fn test_block_tag() {
    let tokens = block_tokens("#deadline 2026-04-10");
    assert!(matches!(&tokens[0], Token::Tag(Keyword::Deadline)));
    assert!(matches!(&tokens[1], Token::TagArg(a) if a == "2026-04-10"));
}

#[test]
fn test_list_item() {
    let tokens = block_tokens("- [ ] Task item");
    assert!(matches!(
        &tokens[0],
        Token::ListMarker {
            ordered: false,
            indent: 0
        }
    ));
    assert!(matches!(&tokens[1], Token::RawLine(_)));
}

#[test]
fn test_properties() {
    let tokens = block_tokens("#properties");
    assert!(matches!(&tokens[0], Token::PropertiesOpen));
}

#[test]
fn test_comment() {
    let tokens = block_tokens("// this is a comment");
    assert!(matches!(&tokens[0], Token::LineComment));
    assert!(matches!(&tokens[1], Token::RawLine(_)));
}

#[test]
fn test_horizontal_rule() {
    let tokens = block_tokens("***");
    assert!(matches!(&tokens[0], Token::HorizontalRule));
}

#[test]
fn test_frontmatter() {
    let tokens = block_tokens("---");
    assert!(matches!(&tokens[0], Token::FrontmatterDelim));
}

#[test]
fn test_blank_line() {
    let tokens = block_tokens("");
    assert!(matches!(&tokens[0], Token::BlankLine));
}

#[test]
fn test_unknown_tag() {
    let tokens = block_tokens("#custom value");
    assert!(matches!(&tokens[0], Token::UnknownTag { name } if name == "custom"));
    assert!(matches!(&tokens[1], Token::TagArg(a) if a == "value"));
}

// Inline tokenizer tests

#[test]
fn test_inline_tag() {
    let tokens = inline_tokens("some text #todo fix this");
    assert!(matches!(&tokens[0], Token::Text(t) if t == "some text "));
    assert!(matches!(&tokens[1], Token::Tag(Keyword::Todo)));
    assert!(matches!(&tokens[2], Token::TagArg(a) if a == "fix this"));
}

#[test]
fn test_inline_bold_italic() {
    let tokens = inline_tokens("**bold** and *italic*");
    assert!(matches!(&tokens[0], Token::BoldDelim));
    assert!(matches!(&tokens[1], Token::Text(t) if t == "bold"));
    assert!(matches!(&tokens[2], Token::BoldDelim));
    assert!(matches!(&tokens[3], Token::Text(t) if t == " and "));
    assert!(matches!(&tokens[4], Token::ItalicDelim));
    assert!(matches!(&tokens[5], Token::Text(t) if t == "italic"));
    assert!(matches!(&tokens[6], Token::ItalicDelim));
}

#[test]
fn test_inline_code() {
    let tokens = inline_tokens("use `println!` here");
    assert!(matches!(&tokens[0], Token::Text(t) if t == "use "));
    assert!(matches!(&tokens[1], Token::InlineCode(c) if c == "println!"));
    assert!(matches!(&tokens[2], Token::Text(t) if t == " here"));
}

#[test]
fn test_inline_link() {
    let tokens = inline_tokens("[click](https://example.com)");
    assert!(
        matches!(&tokens[0], Token::Link { text, url, .. } if text == "click" && url == "https://example.com")
    );
}

#[test]
fn test_inline_footnote_ref() {
    let tokens = inline_tokens("text[^1] more");
    assert!(matches!(&tokens[0], Token::Text(t) if t == "text"));
    assert!(matches!(&tokens[1], Token::FootnoteRef { label } if label == "1"));
    assert!(matches!(&tokens[2], Token::Text(t) if t == " more"));
}

#[test]
fn test_inline_escaped_hash() {
    let tokens = inline_tokens(r"price \#100");
    assert!(matches!(&tokens[0], Token::Text(t) if t == "price #100"));
}

// Double-backtick code spans
#[test]
fn test_inline_double_backtick_code() {
    let tokens = inline_tokens("use ``code with `backtick` inside`` here");
    assert!(matches!(&tokens[0], Token::Text(t) if t == "use "));
    assert!(matches!(&tokens[1], Token::InlineCode(c) if c == "code with `backtick` inside"));
    assert!(matches!(&tokens[2], Token::Text(t) if t == " here"));
}
#[test]
fn test_inline_triple_backtick_code() {
    let tokens = inline_tokens("``` `` ```");
    assert!(matches!(&tokens[0], Token::InlineCode(c) if c == "``"));
}
#[test]
fn test_inline_backtick_space_stripping() {
    let tokens = inline_tokens("`` `foo` ``");
    assert!(matches!(&tokens[0], Token::InlineCode(c) if c == "`foo`"));
}
#[test]
fn test_inline_backtick_no_strip_all_spaces() {
    let tokens = inline_tokens("``  ``");
    assert!(matches!(&tokens[0], Token::InlineCode(c) if c == "  "));
}
// Autolinks
#[test]
fn test_inline_autolink_url() {
    let tokens = inline_tokens("visit <https://example.com> now");
    assert!(matches!(&tokens[0], Token::Text(t) if t == "visit "));
    assert!(
        matches!(&tokens[1], Token::Link { text, url, .. } if text == "https://example.com" && url == "https://example.com")
    );
    assert!(matches!(&tokens[2], Token::Text(t) if t == " now"));
}
#[test]
fn test_inline_autolink_email() {
    let tokens = inline_tokens("email <user@example.com> please");
    assert!(
        matches!(&tokens[1], Token::Link { text, url, .. } if text == "user@example.com" && url == "mailto:user@example.com")
    );
}
#[test]
fn test_html_tag_not_autolink() {
    let tokens = inline_tokens("some <b>bold</b> text");
    let has_link = tokens.iter().any(|t| matches!(t, Token::Link { .. }));
    assert!(!has_link);
}
// Images
#[test]
fn test_inline_image() {
    let tokens = inline_tokens("![alt text](image.png)");
    assert!(
        matches!(&tokens[0], Token::Image { alt, url, .. } if alt == "alt text" && url == "image.png")
    );
}
#[test]
fn test_inline_image_with_title() {
    let tokens = inline_tokens(r#"![photo](pic.jpg "My Photo")"#);
    assert!(matches!(&tokens[0], Token::Image { alt, url, title, .. }
        if alt == "photo" && url == "pic.jpg" && title.as_deref() == Some("My Photo")));
}

// Link reference definitions (block-level)
#[test]
fn test_block_link_def() {
    let tokens = block_tokens("[foo]: /url");
    assert!(matches!(&tokens[0], Token::LinkDefStart { label } if label == "foo"));
    assert!(matches!(&tokens[1], Token::RawLine(_)));
}

#[test]
fn test_block_link_def_not_footnote() {
    let tokens = block_tokens("[^note]: footnote");
    assert!(matches!(&tokens[0], Token::FootnoteDefStart { label } if label == "note"));
}

// Link references (inline)
#[test]
fn test_inline_link_ref_shortcut() {
    let tokens = inline_tokens("see [foo] here");
    assert!(matches!(&tokens[0], Token::Text(t) if t == "see "));
    assert!(
        matches!(&tokens[1], Token::LinkRef { text, label } if text == "foo" && label == "foo")
    );
    assert!(matches!(&tokens[2], Token::Text(t) if t == " here"));
}

#[test]
fn test_inline_link_ref_full() {
    let tokens = inline_tokens("[click here][foo]");
    assert!(
        matches!(&tokens[0], Token::LinkRef { text, label } if text == "click here" && label == "foo")
    );
}

#[test]
fn test_inline_link_ref_collapsed() {
    let tokens = inline_tokens("[foo][]");
    assert!(
        matches!(&tokens[0], Token::LinkRef { text, label } if text == "foo" && label == "foo")
    );
}

#[test]
fn test_inline_link_preferred_over_ref() {
    // [text](url) should be a Link, not a LinkRef
    let tokens = inline_tokens("[foo](https://example.com)");
    assert!(matches!(&tokens[0], Token::Link { text, .. } if text == "foo"));
}

// Setext headings (block-level lookahead)
#[test]
fn test_setext_h1() {
    let tokens = block_tokens("Heading\n===");
    assert!(matches!(&tokens[0], Token::Heading { level: 1 }));
    assert!(matches!(&tokens[1], Token::RawLine(t) if t == "Heading"));
}

#[test]
fn test_setext_h2() {
    let tokens = block_tokens("Heading\n---");
    assert!(matches!(&tokens[0], Token::Heading { level: 2 }));
    assert!(matches!(&tokens[1], Token::RawLine(t) if t == "Heading"));
}

#[test]
fn test_setext_single_char() {
    let tokens = block_tokens("Heading\n=");
    assert!(matches!(&tokens[0], Token::Heading { level: 1 }));
}

#[test]
fn test_setext_not_in_frontmatter() {
    // Inside frontmatter, --- should close frontmatter, not create a setext heading
    let tokens = block_tokens("---\ntitle: Test\n---");
    assert!(matches!(&tokens[0], Token::FrontmatterDelim));
    // title: Test should be raw content, not a heading
    let has_heading = tokens.iter().any(|t| matches!(t, Token::Heading { .. }));
    assert!(
        !has_heading,
        "should not produce heading inside frontmatter"
    );
}

#[test]
fn test_setext_with_leading_spaces() {
    let tokens = block_tokens("Heading\n   ===");
    assert!(matches!(&tokens[0], Token::Heading { level: 1 }));
}

#[test]
fn test_setext_4_spaces_not_valid() {
    // 4+ leading spaces on underline → not a setext heading
    let tokens = block_tokens("Heading\n    ===");
    let has_heading = tokens.iter().any(|t| matches!(t, Token::Heading { .. }));
    assert!(
        !has_heading,
        "4-space indented underline should not be setext"
    );
}

// Indented code blocks
#[test]
fn test_indented_code_line() {
    let tokens = block_tokens("    code here");
    assert!(matches!(&tokens[0], Token::IndentedCodeLine));
    assert!(matches!(&tokens[1], Token::RawLine(t) if t == "    code here"));
}

#[test]
fn test_tab_indented_code_line() {
    let tokens = block_tokens("\tcode here");
    assert!(matches!(&tokens[0], Token::IndentedCodeLine));
}

#[test]
fn test_3_spaces_not_code() {
    let tokens = block_tokens("   not code");
    assert!(!tokens.iter().any(|t| matches!(t, Token::IndentedCodeLine)));
}

#[test]
fn test_4_spaces_before_heading_is_code_not_heading() {
    let tokens = block_tokens("    # not a heading");
    assert!(matches!(&tokens[0], Token::IndentedCodeLine));
    assert!(!tokens.iter().any(|t| matches!(t, Token::Heading { .. })));
}

#[test]
fn setext_lookahead_is_off_inside_a_bare_fence() {
    let toks = block_tokens("```\nfoo\n===\n```");
    assert!(!toks.iter().any(|t| matches!(t, Token::Heading { .. })));
}

#[test]
fn raw_lines_carry_whole_source_lines() {
    let source = "# Title\nsome text\n===\n- item\n    code\n";
    let lines: Vec<&str> = source.split('\n').collect();
    let raws: Vec<String> = block_tokens(source)
        .into_iter()
        .filter_map(|t| match t {
            Token::RawLine(r) => Some(r),
            _ => None,
        })
        .collect();
    assert_eq!(raws, vec!["# Title", "some text", "- item", "    code"]);
    for r in &raws {
        assert!(lines.contains(&r.as_str()));
    }
}

#[test]
fn inline_text_tokens_are_merged_and_nonempty() {
    let toks = inline_tokens("a\\*b **c** \\\\d *e*");
    assert!(matches!(&toks[0], Token::Text(s) if s == "a*b "));
    for w in toks.windows(2) {
        assert!(!(matches!(w[0], Token::Text(_)) && matches!(w[1], Token::Text(_))));
    }
    for t in &toks {
        if let Token::Text(s) = t {
            assert!(!s.is_empty());
        }
    }
}

#[test]
fn token_lines_start_at_one_and_never_fall() {
    let source = "---\ntitle: x\n---\n# A\ntext\n===\n\n- item\n```\ncode\n```\n";
    let lexer = Lexer::new(source);
    let tokens = lexer.token_list();
    assert_eq!(tokens[0].span.line, 1);
    for w in tokens.windows(2) {
        assert!(w[0].span.line <= w[1].span.line);
    }
    assert!(matches!(tokens.last().unwrap().kind, Token::Eof));
}

#[test]
fn link_readers_past_the_end_find_nothing() {
    let t: Vec<char> = "[a](b)".chars().collect();
    assert!(morg::inline::try_link(&t, 6).is_none());
    assert!(morg::inline::try_link_ref(&t, 6).is_none());
    assert!(morg::inline::try_link(&t, 0).is_some());
}
