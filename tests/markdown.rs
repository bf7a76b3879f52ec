use scratch_notes::markdown::{
    extract_title, extract_title_from_id, generate_preview, is_effectively_empty,
    sanitize_filename, strip_frontmatter, strip_markdown,
};

#[test]
fn title_from_heading() {
    assert_eq!(extract_title("# Hello\n\nBody"), "Hello");
}

#[test]
fn title_skips_frontmatter() {
    let content = "---\ntitle: x\ntags: [a]\n---\n# Real Title\nbody";
    assert_eq!(extract_title(content), "Real Title");
}

#[test]
fn title_from_first_line_is_cut_to_fifty_chars() {
    let line = "a".repeat(80);
    let content = format!("\n\n   {}\nsecond", line);
    assert_eq!(extract_title(&content), "a".repeat(50));
}

#[test]
fn title_of_blank_text_is_untitled() {
    assert_eq!(extract_title(""), "Untitled");
    assert_eq!(extract_title("  \n\t\n\u{feff}\n"), "Untitled");
}

#[test]
fn title_of_empty_heading_falls_back_to_line() {
    assert_eq!(extract_title("# \u{feff}\nnext"), "# \u{feff}");
    assert_eq!(extract_title("#\nnext"), "#");
}

#[test]
fn frontmatter_is_stripped_with_crlf() {
    assert_eq!(strip_frontmatter("---\r\na: 1\r\n---\r\nbody"), "body");
    assert_eq!(strip_frontmatter("  ---\na\n---\nbody"), "body");
    assert_eq!(strip_frontmatter("---\nunclosed"), "---\nunclosed");
    assert_eq!(strip_frontmatter("plain"), "plain");
}

#[test]
fn preview_skips_title_and_strips_markup() {
    let content = "# Title\n\n## **Bold** and *it* with `code` and [link](http://x) ![img](a.png)";
    assert_eq!(generate_preview(content), "Bold and it with code and link img");
}

#[test]
fn preview_is_cut_to_hundred_chars() {
    let content = format!("# T\n{}", "b".repeat(150));
    assert_eq!(generate_preview(&content), "b".repeat(100));
}

#[test]
fn preview_of_single_line_is_empty() {
    assert_eq!(generate_preview("# Only"), "");
    assert_eq!(generate_preview(""), "");
}

#[test]
fn preview_after_frontmatter() {
    assert_eq!(generate_preview("---\na: b\n---\n# T\n\n- [ ] task one"), "task one");
}

#[test]
fn markdown_markers_removed() {
    assert_eq!(strip_markdown("### Heading"), "Heading");
    assert_eq!(strip_markdown("~~gone~~ text"), "gone text");
    assert_eq!(strip_markdown("__under__ and _em_"), "under and em");
    assert_eq!(strip_markdown("- item"), "item");
    assert_eq!(strip_markdown("12. twelfth"), "twelfth");
    assert_eq!(strip_markdown("- [x] done"), "done");
    assert_eq!(strip_markdown("**unclosed"), "**unclosed");
    assert_eq!(strip_markdown("a ** b"), "a ** b");
    assert_eq!(strip_markdown("[](empty)"), "[](empty)");
    assert_eq!(strip_markdown("![](pic.png)"), "");
}

#[test]
fn effectively_empty_text() {
    assert!(is_effectively_empty(" \u{a0}\u{feff}\t"));
    assert!(is_effectively_empty(""));
    assert!(!is_effectively_empty(" x "));
}

#[test]
fn filename_sanitizing() {
    assert_eq!(sanitize_filename("a/b\\c:d*e?f\"g<h>i|j"), "a-b-c-d-e-f-g-h-i-j");
    assert_eq!(sanitize_filename("  My\u{a0}Note  "), "MyNote");
    assert_eq!(sanitize_filename("   "), "Untitled");
    assert_eq!(sanitize_filename("\u{feff}"), "Untitled");
}

#[test]
fn display_title_from_id() {
    assert_eq!(extract_title_from_id("folder/my-first_note"), "My First Note");
    assert_eq!(extract_title_from_id("untitled"), "Untitled");
    assert_eq!(extract_title_from_id("a--b"), "A B");
    assert_eq!(extract_title_from_id("dir/"), "");
}

#[test]
fn title_prefers_later_heading() {
    assert_eq!(extract_title("intro\n# Title"), "Title");
    assert_eq!(extract_title("a\n# T"), "T");
    assert_eq!(extract_title("---\nx: y\n---\nfirst line\n\n# Heading\n# Second"), "Heading");
    assert_eq!(extract_title("plain\n#not a heading"), "plain");
}
