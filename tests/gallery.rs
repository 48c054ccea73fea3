use kaku::preview::{clean_markdown, generate_preview, PREVIEW_LENGTH};

#[test]
fn test_generate_preview() {
    let content = "# Title\n\nThis is a paragraph.\n\n- List item 1\n- List item 2";
    let preview = generate_preview(content, 100);
    assert!(preview.contains("Title"));
    assert!(preview.contains("This is a paragraph"));
    assert!(preview.contains("List item 1"));
}

#[test]
fn test_generate_preview_truncate() {
    let content = "This is a very long text that should be truncated. ".repeat(20);
    let preview = generate_preview(&content, 50);
    assert!(preview.len() <= 53);
    assert!(preview.ends_with("..."));
}

#[test]
fn test_clean_markdown_heading() {
    assert_eq!(clean_markdown("# Heading"), "Heading");
    assert_eq!(clean_markdown("## Subheading"), "Subheading");
}

#[test]
fn test_clean_markdown_bold() {
    assert_eq!(clean_markdown("This is **bold** text"), "This is bold text");
}

#[test]
fn test_clean_markdown_link() {
    assert_eq!(clean_markdown("[link text](http://example.com)"), "link text");
}

#[test]
fn test_clean_markdown_code() {
    assert_eq!(clean_markdown("Some `code` here"), "Some code here");
}

#[test]
fn preview_exact_text_joins_lines_with_spaces() {
    let content = "# Title\n\nFirst line\nSecond line";
    assert_eq!(generate_preview(content, 100), "Title First line Second line");
}

#[test]
fn preview_skips_fenced_code() {
    let content = "Before\n```\nlet x = 1;\n```\nAfter";
    assert_eq!(generate_preview(content, 100), "Before After");
}

#[test]
fn preview_cut_exactly_at_limit() {
    assert_eq!(generate_preview("abcdef", 3), "abc...");
    assert_eq!(generate_preview("abc", 3), "abc");
}

#[test]
fn preview_of_empty_body_is_empty() {
    assert_eq!(generate_preview("", PREVIEW_LENGTH), "");
    assert_eq!(PREVIEW_LENGTH, 400);
}

#[test]
fn clean_markdown_list_number_and_quote() {
    assert_eq!(clean_markdown("1. first"), "first");
    assert_eq!(clean_markdown("1234. not a list"), "1234. not a list");
    assert_eq!(clean_markdown("> quoted"), "quoted");
    assert_eq!(clean_markdown("* star item"), "star item");
    assert_eq!(clean_markdown("__under__ score"), "under score");
}

#[test]
fn clean_markdown_image_keeps_bang_before_alt() {
    assert_eq!(clean_markdown("![alt](img.png)"), "!alt");
}
