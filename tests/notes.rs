use kaku::note::{Note, NoteMetadata, NoteParseError};
use kaku::timestamp::{parse_datetime, Timestamp};

#[test]
fn test_new_note() {
    let note = Note::new();
    assert!(!note.metadata.uid.is_empty());
    assert!(note.content.is_empty());
    assert!(!note.is_dirty);
}

#[test]
fn test_note_roundtrip() {
    let mut note = Note::new();
    note.update_content("# テストメモ\n\nこれはテストです。".to_string());
    let file_content = note.to_file_content();
    let parsed = Note::from_file_content(&file_content).unwrap();
    assert_eq!(note.metadata.uid, parsed.metadata.uid);
    assert_eq!(note.metadata.title, Some("テストメモ".to_string()));
    assert_eq!(parsed.metadata.title, Some("テストメモ".to_string()));
    assert_eq!(note.content, parsed.content);
}

#[test]
fn test_extract_heading_h1() {
    let mut note = Note::new();
    note.content = "# 買い物リスト\n\n- 牛乳\n- パン".to_string();
    assert_eq!(note.extract_heading(), Some("買い物リスト".to_string()));
}

#[test]
fn test_extract_heading_h2() {
    let mut note = Note::new();
    note.content = "## 2026年の目標\n\n目標を書く".to_string();
    assert_eq!(note.extract_heading(), Some("2026年の目標".to_string()));
}

#[test]
fn test_extract_heading_none() {
    let mut note = Note::new();
    note.content = "見出しなしのメモ".to_string();
    assert_eq!(note.extract_heading(), None);
}

#[test]
fn test_update_content_marks_dirty() {
    let mut note = Note::new();
    assert!(!note.is_dirty);
    note.update_content("新しい内容".to_string());
    assert!(note.is_dirty);
    note.mark_saved();
    assert!(!note.is_dirty);
}

#[test]
fn new_note_uid_is_digits_of_valid_length() {
    let note = Note::new();
    assert!(note.metadata.uid.chars().all(|c| c.is_ascii_digit()));
    assert!(note.metadata.uid.len() >= 15 && note.metadata.uid.len() <= 20);
    assert!(kaku::validate::validate_uid(&note.metadata.uid).is_ok());
}

#[test]
fn roundtrip_keeps_tags_and_unicode_body() {
    let mut note = Note::with_uid("20260101120000123".to_string());
    note.update_content("## 見出し 🎉\n\nbody with [[Link]] and #タグ".to_string());
    note.update_tags(vec!["work".to_string(), "日本語".to_string()]);
    let text = note.to_file_content();
    let parsed = Note::from_file_content(&text).unwrap();
    assert_eq!(parsed.metadata.uid, "20260101120000123");
    assert_eq!(parsed.metadata.title, Some("見出し 🎉".to_string()));
    assert_eq!(parsed.metadata.tags, vec!["work".to_string(), "日本語".to_string()]);
    assert_eq!(parsed.content, note.content);
    assert_eq!(parsed.metadata.created_at, note.metadata.created_at);
    assert_eq!(parsed.metadata.updated_at, note.metadata.updated_at);
}

#[test]
fn file_format_is_exact() {
    let t = Timestamp { year: 2025, month: 12, day: 15, hour: 2, minute: 42, second: 38 };
    let note = Note {
        metadata: NoteMetadata { uid: "20251215024238000".to_string(), title: Some("T".to_string()), tags: vec!["a".to_string()], created_at: t, updated_at: t },
        content: "# T\n".to_string(),
        is_dirty: false,
    };
    assert_eq!(
        note.to_file_content(),
        "---\nuid: 20251215024238000\ntitle: T\ntags:\n  - a\ncreated_at: 2025-12-15 02:42:38\nupdated_at: 2025-12-15 02:42:38\n---\n\n# T\n"
    );
}

#[test]
fn parse_errors() {
    assert_eq!(Note::from_file_content("no fence").err(), Some(NoteParseError::MissingFrontMatter));
    assert_eq!(Note::from_file_content("---\nuid: 1\n").err(), Some(NoteParseError::InvalidFrontMatter));
    assert_eq!(Note::from_file_content("---\nuid: 1\n---\nbody").err(), Some(NoteParseError::InvalidFrontMatter));
    assert!(Note::has_front_matter("---\nx\n---"));
    assert!(!Note::has_front_matter("x\n---"));
}

#[test]
fn yaml_inline_tags_and_legacy_dates() {
    let yaml = "uid: 42\ntags: [a, , b ]\ncreated_at: 2024-01-02T03:04:05Z\nupdated_at: 2024-01-02T05:04:05+02:00";
    let m = NoteMetadata::from_yaml(yaml).unwrap();
    assert_eq!(m.uid, "42");
    assert_eq!(m.tags, vec!["a".to_string(), "b".to_string()]);
    assert_eq!(m.created_at, Timestamp { year: 2024, month: 1, day: 2, hour: 3, minute: 4, second: 5 });
    assert_eq!(m.updated_at, Timestamp { year: 2024, month: 1, day: 2, hour: 3, minute: 4, second: 5 });
    assert!(m.title.is_none());
    assert!(NoteMetadata::from_yaml("uid: 1\ncreated_at: 2024-02-30 00:00:00\nupdated_at: 2024-01-01 00:00:00").is_err());
}

#[test]
fn parse_datetime_plain_and_invalid() {
    assert_eq!(parse_datetime("2025-12-15 02:42:38"), Some(Timestamp { year: 2025, month: 12, day: 15, hour: 2, minute: 42, second: 38 }));
    assert_eq!(parse_datetime("2024-02-29 00:00:00").map(|t| t.day), Some(29));
    assert_eq!(parse_datetime("2023-02-29 00:00:00"), None);
    assert_eq!(parse_datetime("garbage"), None);
}

#[test]
fn hashtags_and_all_tags() {
    let mut note = Note::with_uid("20260101000000".to_string());
    note.content = "#Rust is fun #rust #日本語 a#b\n#tag-1".to_string();
    note.metadata.tags = vec!["Zeta".to_string(), "RUST".to_string()];
    assert_eq!(note.extract_hashtags(), vec!["rust".to_string(), "日本語".to_string(), "tag-1".to_string()]);
    assert_eq!(note.all_tags(), vec!["RUST".to_string(), "Zeta".to_string(), "tag-1".to_string(), "日本語".to_string()]);
}

#[test]
fn update_content_same_text_changes_nothing() {
    let mut note = Note::with_uid("20260101000000".to_string());
    note.content = "same".to_string();
    let before = note.metadata.updated_at;
    note.update_content("same".to_string());
    assert!(!note.is_dirty);
    assert_eq!(note.metadata.updated_at, before);
}

#[test]
fn with_title_sets_heading() {
    let note = Note::with_title("Plan");
    assert_eq!(note.content, "# Plan\n\n");
    assert_eq!(note.metadata.title, Some("Plan".to_string()));
    assert!(note.is_dirty);
}

#[test]
fn body_and_dash_tags_round_trip_exactly() {
    let mut note = Note::with_uid("20260101000000".to_string());
    note.content = "\n\nstarts with blank lines".to_string();
    note.metadata.tags = vec!["- a".to_string(), "b".to_string()];
    let parsed = Note::from_file_content(&note.to_file_content()).unwrap();
    assert_eq!(parsed.content, note.content);
    assert_eq!(parsed.metadata.tags, note.metadata.tags);
}
