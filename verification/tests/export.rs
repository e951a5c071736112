use morg::export::{escape_html, render_document, slug};
use morg::parse_document;


/// Parse markdown source and render to HTML fragment.
fn export(src: &str) -> String {
    let result = parse_document(src);
    assert!(
        result.errors.is_empty(),
        "parse errors: {:?}",
        result.errors
    );
    render_document(&result.document)
}

// --- Link reference definitions: resolved links in export output ---

#[test]
fn export_link_ref_shortcut() {
    let html = export("[foo]: /url\n\nSee [foo] for details.\n");
    assert!(
        html.contains(r#"<a href="/url">foo</a>"#),
        "shortcut ref should render as <a>: {html}"
    );
}

#[test]
fn export_link_ref_full() {
    let html = export("[foo]: /url\n\n[click here][foo]\n");
    assert!(
        html.contains(r#"<a href="/url">click here</a>"#),
        "full ref should render with display text: {html}"
    );
}

#[test]
fn export_link_ref_collapsed() {
    let html = export("[foo]: /url\n\n[foo][]\n");
    assert!(
        html.contains(r#"<a href="/url">foo</a>"#),
        "collapsed ref should render as <a>: {html}"
    );
}

#[test]
fn export_link_ref_with_title() {
    let html = export("[foo]: /url \"My Title\"\n\n[foo]\n");
    assert!(
        html.contains(r#"title="My Title""#),
        "title should appear in the anchor: {html}"
    );
    assert!(
        html.contains(r#"href="/url""#),
        "url should appear in the anchor: {html}"
    );
}

#[test]
fn export_link_ref_unresolved_is_plain_text() {
    let html = export("See [undefined] here.\n");
    // Unresolved ref should NOT produce an <a> tag
    assert!(
        !html.contains("<a "),
        "unresolved ref should not produce a link: {html}"
    );
    assert!(
        html.contains("undefined"),
        "unresolved ref text should appear: {html}"
    );
}

#[test]
fn export_link_ref_case_insensitive() {
    let html = export("[Foo]: /url\n\n[foo] and [FOO]\n");
    let link_count = html.matches(r#"<a href="/url">"#).count();
    assert_eq!(link_count, 2, "both case variants should resolve: {html}");
}

#[test]
fn export_link_def_produces_no_output() {
    let html = export("[foo]: /url\n\nParagraph.\n");
    // The definition itself should not render as visible text
    assert!(
        !html.contains("[foo]:"),
        "link definition should not appear in output: {html}"
    );
    assert!(
        !html.contains("/url</"),
        "link definition URL should not appear as raw text: {html}"
    );
}

#[test]
fn export_multiple_link_defs() {
    let html = export("[a]: /a\n[b]: /b\n\nSee [a] and [b].\n");
    assert!(html.contains(r#"<a href="/a">a</a>"#), "ref [a]: {html}");
    assert!(html.contains(r#"<a href="/b">b</a>"#), "ref [b]: {html}");
}

#[test]
fn export_link_ref_in_heading() {
    let html = export("[foo]: /url\n\n# See [foo]\n");
    assert!(
        html.contains(r#"<a href="/url">foo</a>"#),
        "link ref in heading should resolve: {html}"
    );
    // Should be inside an <h1>
    assert!(html.contains("<h1"), "heading should render: {html}");
}

#[test]
fn export_link_ref_in_list() {
    let html = export("[foo]: /url\n\n- Item with [foo]\n");
    assert!(
        html.contains(r#"<a href="/url">foo</a>"#),
        "link ref in list item should resolve: {html}"
    );
}

#[test]
fn export_link_ref_in_bold() {
    let html = export("[foo]: /url\n\n**bold [foo] text**\n");
    assert!(
        html.contains(r#"<a href="/url">foo</a>"#),
        "link ref inside bold should resolve: {html}"
    );
}

// --- Verify other inline elements still export correctly ---

#[test]
fn export_inline_link() {
    let html = export("[click](https://example.com)\n");
    assert!(html.contains(r#"<a href="https://example.com">click</a>"#));
}

#[test]
fn export_image() {
    let html = export("![alt](img.png)\n");
    assert!(html.contains(r#"<img src="img.png" alt="alt"/>"#));
}

#[test]
fn export_autolink() {
    let html = export("<https://example.com>\n");
    assert!(html.contains(r#"<a href="https://example.com">https://example.com</a>"#));
}

#[test]
fn export_hard_break() {
    let html = export("line one  \nline two\n");
    assert!(html.contains("<br />"), "hard break: {html}");
}

#[test]
fn export_image_with_title() {
    let html = export("![photo](pic.jpg \"My Photo\")\n");
    assert!(html.contains(r#"title="My Photo""#));
    assert!(html.contains(r#"src="pic.jpg""#));
}

#[test]
fn export_code_span() {
    let html = export("Use `println!` here\n");
    assert!(html.contains("<code>println!</code>"));
}

#[test]
fn export_double_backtick_code() {
    let html = export("Use ``code with `tick` inside`` here\n");
    assert!(html.contains("<code>code with `tick` inside</code>"));
}

// --- Integration: full document with link refs ---

#[test]
fn export_full_document_with_link_refs() {
    let src = r#"# Documentation

[rust]: https://www.rust-lang.org "The Rust Language"
[morg]: /morg

This project is built with [rust]. See the [morg] docs.

## Links

- [Official site][rust]
- [Our docs][morg]

Check [rust][] for the latest release.
"#;
    let html = export(src);
    // All three ref forms should resolve to the Rust URL
    let rust_count = html.matches(r#"href="https://www.rust-lang.org""#).count();
    assert!(
        rust_count >= 3,
        "all [rust] refs should resolve ({rust_count} found): {html}"
    );
    // Title should be present
    assert!(
        html.contains(r#"title="The Rust Language""#),
        "title should propagate: {html}"
    );
    // morg refs should resolve
    assert!(
        html.matches(r#"href="/morg""#).count() >= 2,
        "all [morg] refs should resolve: {html}"
    );
    // Link definitions should not appear as visible text
    assert!(
        !html.contains("[rust]:"),
        "defs should be invisible: {html}"
    );
    assert!(
        !html.contains("[morg]:"),
        "defs should be invisible: {html}"
    );
}

// --- Setext headings ---

#[test]
fn export_setext_h1() {
    let html = export("My Title\n========\n");
    assert!(html.contains("<h1"), "setext = should produce h1: {html}");
    assert!(html.contains("My Title"), "heading text: {html}");
}

#[test]
fn export_setext_h2() {
    let html = export("Subtitle\n--------\n");
    assert!(html.contains("<h2"), "setext - should produce h2: {html}");
    assert!(html.contains("Subtitle"), "heading text: {html}");
}

#[test]
fn export_setext_dashes_after_paragraph_is_h2() {
    let html = export("Some text\n---\n");
    assert!(
        html.contains("<h2"),
        "--- after text should be setext h2, not <hr>: {html}"
    );
    assert!(!html.contains("<hr"), "should not produce <hr>: {html}");
}

// --- Indented code blocks ---

#[test]
fn export_indented_code_block() {
    let html = export("    code here\n");
    assert!(
        html.contains("<pre><code>"),
        "should produce code block: {html}"
    );
    assert!(html.contains("code here"), "code content: {html}");
}

#[test]
fn export_indented_code_block_strips_indent() {
    let html = export("    hello world\n");
    // The 4-space indent should be stripped from the output
    assert!(
        html.contains("hello world"),
        "indent should be stripped: {html}"
    );
    // Should NOT start with 4 spaces inside <code>
    assert!(
        !html.contains("<code>    "),
        "prefix should not appear in output: {html}"
    );
}

#[test]
fn export_escapes_html_text() {
    assert_eq!(escape_html("a < b & \"c\" > d"), "a &lt; b &amp; &quot;c&quot; &gt; d");
}

#[test]
fn export_heading_slug() {
    assert_eq!(slug("Hello, World!"), "hello--world");
    let html = export("# Hello World\n");
    assert!(html.contains("<h1 id=\"hello-world\">Hello World</h1>"), "{html}");
}

#[test]
fn export_footnotes_section() {
    let html = export("Text[^1].\n\n[^1]: The note.\n");
    assert!(html.contains("<sup><a id=\"fnref-1\" href=\"#fn-1\">1</a></sup>"), "{html}");
    assert!(html.contains("<section class=\"footnotes\">"), "{html}");
    assert!(html.contains("<li id=\"fn-1\"><p>The note."), "{html}");
}

#[test]
fn export_table_alignment() {
    let html = export("| a | b |\n|:--|--:|\n| 1 | 2 |\n");
    assert!(html.contains("<th style=\"text-align:left\">a</th>"), "{html}");
    assert!(html.contains("<td style=\"text-align:right\">2</td>"), "{html}");
}

#[test]
fn export_callout_and_tags() {
    let html = export("> [!note]\n> Inside.\n\n#deadline 2026-04-10\n");
    assert!(html.contains("<blockquote class=\"callout callout-note\">"), "{html}");
    assert!(html.contains("<p class=\"callout-title\">Note</p>"), "{html}");
    assert!(html.contains("<strong>DEADLINE:</strong> 2026-04-10"), "{html}");
}

#[test]
fn export_checkbox_list() {
    let html = export("- [x] done\n- [ ] open\n");
    assert!(html.contains("<li><input type=\"checkbox\" checked disabled> done</li>"), "{html}");
    assert!(html.contains("<li><input type=\"checkbox\" disabled> open</li>"), "{html}");
}

#[test]
fn export_comments_and_blank_lines_render_nothing() {
    let plain = export("para\n");
    let with_silent = export("para\n\n\n// note\n\n[x]: /y\n");
    assert_eq!(plain, with_silent);
}
