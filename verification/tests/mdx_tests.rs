//! Tests for the MDX documentation sanitizer and the link JSON rendering.

use cargo_doc_docusaurus::mdx::{format_links_as_json, sanitize_docs_for_mdx};

#[test]
fn test_sanitize_docs_for_mdx_inline_html() {
    // Test case: HTML tag inline with text (the problematic case)
    let input = "Identifies the sender of the message.\n<details><summary>JSON schema</summary>\n\n```json\n{\n  \"type\": \"string\"\n}\n```\n\n</details>";
    let result = sanitize_docs_for_mdx(input);

    // Should have blank line before <details>
    assert!(
        result.contains("message.\n\n<details>"),
        "Expected blank line before <details>, got:\n{}",
        result
    );
}

#[test]
fn test_sanitize_docs_for_mdx_already_separated() {
    // Test case: HTML already properly separated
    let input = "Some text.\n\n<details><summary>Info</summary>\nContent\n</details>\n\nMore text.";
    let result = sanitize_docs_for_mdx(input);

    // Should preserve the existing separation
    assert!(
        result.contains("text.\n\n<details>"),
        "Should preserve existing blank lines"
    );
}

#[test]
fn test_sanitize_docs_for_mdx_no_html() {
    let input = "Just some regular markdown text.\nWith multiple lines.";
    let result = sanitize_docs_for_mdx(input);

    assert_eq!(result, input, "Plain text should be unchanged");
}

#[test]
fn test_sanitize_docs_for_mdx_inline_html_tags() {
    let input = "Use the `<code>` tag for inline code.";
    let result = sanitize_docs_for_mdx(input);

    assert_eq!(result, input, "Inline HTML should be unchanged");
}

#[test]
fn test_format_links_empty() {
    let links: Vec<(String, String)> = Vec::new();
    assert_eq!(format_links_as_json(&links), "[]");
}

#[test]
fn test_format_links_escaping() {
    let links = vec![(String::from("Type\"A\""), String::from("/docs/a\\b"))];
    let out = format_links_as_json(&links);
    assert_eq!(out, "[{\"text\": \"Type\\\"A\\\"\", \"href\": \"/docs/a\\\\b\"}]");
}
