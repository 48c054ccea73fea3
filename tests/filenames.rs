use kaku::filename::HeadingFilenameStrategy;
use kaku::note::Note;

#[test]
fn test_generate_from_h1() {
    let strategy = HeadingFilenameStrategy::new();
    let mut note = Note::new();
    note.content = "# 買い物リスト\n\nアイテム".to_string();
    let filename = strategy.generate(&note, &vec![]);
    assert_eq!(filename, "買い物リスト");
}

#[test]
fn test_generate_fallback_to_uid() {
    let strategy = HeadingFilenameStrategy::new();
    let note = Note::new();
    let filename = strategy.generate(&note, &vec![]);
    assert_eq!(filename, note.metadata.uid);
}

#[test]
fn test_sanitize_forbidden_chars() {
    let sanitized = HeadingFilenameStrategy::sanitize("test/file:name*?.md");
    assert_eq!(sanitized, "test_file_name__.md");
}

#[test]
fn test_truncate_long_name() {
    let long_name = "あ".repeat(250);
    let truncated = HeadingFilenameStrategy::truncate(&long_name, 200);
    assert_eq!(truncated.chars().count(), 200);
    assert!(truncated.ends_with("..."));
}

#[test]
fn test_make_unique() {
    let existing = vec!["/path/to/テスト.md".to_string(), "/path/to/テスト_2.md".to_string()];
    let unique = HeadingFilenameStrategy::make_unique("テスト", &existing);
    assert_eq!(unique, "テスト_3");
}

#[test]
fn make_unique_keeps_free_base() {
    let existing = vec!["/notes/other.md".to_string()];
    assert_eq!(HeadingFilenameStrategy::make_unique("free", &existing), "free");
}

#[test]
fn sanitize_all_forbidden() {
    assert_eq!(HeadingFilenameStrategy::sanitize("a\\b\"c<d>e|f"), "a_b_c_d_e_f");
}

#[test]
fn truncate_short_name_unchanged() {
    assert_eq!(HeadingFilenameStrategy::truncate("short", 200), "short");
    assert_eq!(HeadingFilenameStrategy::truncate("abcdef", 5), "ab...");
}

#[test]
fn colliding_headings_get_distinct_names() {
    let strategy = HeadingFilenameStrategy::new();
    let mut a = Note::new();
    a.content = "# Same\n\nfirst".to_string();
    let mut b = Note::new();
    b.content = "## Same\n\nsecond".to_string();
    let first = strategy.generate(&a, &vec![]);
    let existing = vec![format!("/notes/{}.md", first)];
    let second = strategy.generate(&b, &existing);
    assert_eq!(first, "Same");
    assert_eq!(second, "Same_2");
}
