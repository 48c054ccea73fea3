use kaku::wiki::{extract_context, extract_wiki_links};

#[test]
fn test_extract_simple_link() {
    let content = "This is a [[Test Note]] in text.";
    let links = extract_wiki_links(content);
    assert_eq!(links.len(), 1);
    assert_eq!(links[0].title, "Test Note");
    assert!(links[0].display.is_none());
}

#[test]
fn test_extract_aliased_link() {
    let content = "Check out [[Project X|the project]] for details.";
    let links = extract_wiki_links(content);
    assert_eq!(links.len(), 1);
    assert_eq!(links[0].title, "Project X");
    assert_eq!(links[0].display, Some("the project".to_string()));
}

#[test]
fn test_extract_multiple_links() {
    let content = "See [[Note A]] and [[Note B|B]] for more.";
    let links = extract_wiki_links(content);
    assert_eq!(links.len(), 2);
    assert_eq!(links[0].title, "Note A");
    assert_eq!(links[1].title, "Note B");
    assert_eq!(links[1].display, Some("B".to_string()));
}

#[test]
fn test_extract_no_links() {
    let content = "This text has no wiki links.";
    let links = extract_wiki_links(content);
    assert!(links.is_empty());
}

#[test]
fn test_extract_incomplete_link() {
    let content = "This [[incomplete link should not match.";
    let links = extract_wiki_links(content);
    assert!(links.is_empty());
}

#[test]
fn test_extract_context() {
    let content = "Some text before [[Test Link]] and some text after.";
    let context = extract_context(content, 17, 15);
    assert!(context.contains("Test Link"));
    assert!(context.contains("before"));
    assert!(context.contains("after"));
}

#[test]
fn link_positions_are_character_offsets() {
    let links = extract_wiki_links("ああ[[X]]");
    assert_eq!(links.len(), 1);
    assert_eq!(links[0].position, 2);
}

#[test]
fn link_across_line_break_is_not_a_link() {
    assert!(extract_wiki_links("[[Broken\nTitle]]").is_empty());
    assert!(extract_wiki_links("[[]]").is_empty());
}

#[test]
fn context_exact_with_ellipses() {
    let content = "0123456789[[Link]]abcdefghij";
    assert_eq!(extract_context(content, 10, 5), "...56789[[Link]]abcdefghij");
    assert_eq!(extract_context("a\n\n  b", 0, 10), "a b");
    assert_eq!(extract_context("0123456789", 0, 2), "0123456789");
    assert_eq!(extract_context(&"x".repeat(50), 0, 2), format!("{}...", "x".repeat(22)));
}

#[test]
fn lone_bracket_stays_in_title() {
    let links = extract_wiki_links("[[a]b]]");
    assert_eq!(links.len(), 1);
    assert_eq!(links[0].title, "a]b");
    let links = extract_wiki_links("[[x|y]z]]");
    assert_eq!(links[0].display, Some("y]z".to_string()));
}
