use kaku::index::{compute_hash, IndexedNote, NoteIndex};
use kaku::timestamp::{now, Timestamp};

fn create_test_note(uid: &str, title: &str, content: &str) -> IndexedNote {
    let (t, _) = now();
    IndexedNote {
        uid: uid.to_string(),
        title: title.to_string(),
        content: content.to_string(),
        file_path: format!("/test/{}.md", uid),
        content_hash: compute_hash(content),
        created_at: t,
        updated_at: t,
    }
}

fn at(day: u32) -> Timestamp {
    Timestamp { year: 2026, month: 1, day, hour: 0, minute: 0, second: 0 }
}

#[test]
fn test_upsert_and_list() {
    let mut index = NoteIndex::new();
    let note1 = create_test_note("001", "Test Note 1", "# Test Note 1\n\nContent");
    let note2 = create_test_note("002", "Test Note 2", "# Test Note 2\n\nMore content");
    index.upsert_note(&note1).unwrap();
    index.upsert_note(&note2).unwrap();
    let (items, total) = index.list_notes(0, 10);
    assert_eq!(total, 2);
    assert_eq!(items.len(), 2);
}

#[test]
fn sqlite_index_test_find_by_title() {
    let mut index = NoteIndex::new();
    let note = create_test_note("001", "My Unique Title", "Content");
    index.upsert_note(&note).unwrap();
    let found = index.find_by_title("My Unique Title");
    assert_eq!(found, Some("001".to_string()));
    let found = index.find_by_title("my unique title");
    assert_eq!(found, Some("001".to_string()));
    let found = index.find_by_title("Nonexistent");
    assert!(found.is_none());
}

#[test]
fn test_backlinks() {
    let mut index = NoteIndex::new();
    let note1 = create_test_note("001", "Target Note", "# Target Note\n\nThis is the target.");
    let note2 = create_test_note("002", "Source Note", "# Source Note\n\nLink to [[Target Note]].");
    index.upsert_note(&note1).unwrap();
    index.upsert_note(&note2).unwrap();
    let backlinks = index.get_backlinks("001");
    assert_eq!(backlinks.len(), 1);
    assert_eq!(backlinks[0].source_uid, "002");
    assert_eq!(backlinks[0].source_title, "Source Note");
}

#[test]
fn test_delete_note() {
    let mut index = NoteIndex::new();
    let note = create_test_note("001", "To Delete", "Content");
    index.upsert_note(&note).unwrap();
    assert_eq!(index.count(), 1);
    index.delete_note("001");
    assert_eq!(index.count(), 0);
}

#[test]
fn test_needs_update() {
    let mut index = NoteIndex::new();
    let note = create_test_note("001", "Test", "Content");
    index.upsert_note(&note).unwrap();
    assert!(!index.needs_update("001", &note.content_hash));
    assert!(index.needs_update("001", "different_hash"));
    assert!(index.needs_update("999", "any_hash"));
}

#[test]
fn sqlite_index_test_pagination() {
    let mut index = NoteIndex::new();
    for i in 0..10 {
        let note = create_test_note(&format!("{:03}", i), &format!("Note {}", i), &format!("Content {}", i));
        index.upsert_note(&note).unwrap();
    }
    let (items, total) = index.list_notes(0, 3);
    assert_eq!(total, 10);
    assert_eq!(items.len(), 3);
    let (items, _) = index.list_notes(3, 3);
    assert_eq!(items.len(), 3);
    let (items, _) = index.list_notes(9, 10);
    assert_eq!(items.len(), 1);
}

#[test]
fn listing_is_newest_first_and_gallery_filters_tags() {
    let mut index = NoteIndex::new();
    for (uid, day) in [("a", 3u32), ("b", 9), ("c", 5)] {
        let mut n = create_test_note(uid, uid, "x");
        n.updated_at = at(day);
        n.created_at = at(10 - day);
        let tags = if uid == "c" { vec!["work".to_string()] } else { vec![] };
        index.upsert_note_with_gallery(&n, "p", &tags).unwrap();
    }
    let uids: Vec<String> = index.list_all_notes().into_iter().map(|i| i.uid).collect();
    assert_eq!(uids, vec!["b", "c", "a"]);
    let by_created: Vec<String> = index.list_gallery_notes(true, None).into_iter().map(|g| g.uid).collect();
    assert_eq!(by_created, vec!["a", "c", "b"]);
    let work: Vec<String> = index.list_gallery_notes(false, Some("work")).into_iter().map(|g| g.uid).collect();
    assert_eq!(work, vec!["c"]);
    assert!(index.list_gallery_notes(false, Some("Work")).is_empty());
}

#[test]
fn upsert_replaces_row_and_refuses_shared_path() {
    let mut index = NoteIndex::new();
    let mut n = create_test_note("a", "A", "x");
    n.created_at = at(1);
    index.upsert_note(&n).unwrap();
    let mut again = create_test_note("a", "A2", "y");
    again.created_at = at(7);
    index.upsert_note(&again).unwrap();
    assert_eq!(index.list_gallery_notes(true, None)[0].created_at, at(7));
    assert_eq!(index.find_by_title("A"), None);
    assert_eq!(index.find_by_title("a2"), Some("a".to_string()));
    let mut clash = create_test_note("b", "B", "z");
    clash.file_path = again.file_path.clone();
    assert!(index.upsert_note(&clash).is_err());
    assert_eq!(index.count(), 1);
}

#[test]
fn orphans_removed_and_rebuild() {
    let mut index = NoteIndex::new();
    index.upsert_note(&create_test_note("a", "A", "x")).unwrap();
    index.upsert_note(&create_test_note("b", "B", "[[A]]")).unwrap();
    assert_eq!(index.get_backlinks("a").len(), 1);
    let removed = index.remove_orphans(&vec!["/test/a.md".to_string()]);
    assert_eq!(removed, 1);
    assert_eq!(index.count(), 1);
    assert!(index.get_backlinks("a").is_empty());
    assert!(!index.needs_rebuild());
    index.rebuild_full(&vec![create_test_note("x", "X", ""), create_test_note("y", "Y", "")]).unwrap();
    assert_eq!(index.count(), 2);
    assert!(index.get_path("a").is_none());
    assert_eq!(index.get_path("x"), Some("/test/x.md".to_string()));
}

#[test]
fn hash_is_blake3_hex_and_sensitive() {
    let h = compute_hash("abc");
    assert_eq!(h, "6437b3ac38465133ffb63b75273a8db548c558465d79db03fd359c6cd5bd9d85");
    assert_ne!(compute_hash("abd"), h);
    assert_eq!(compute_hash("abc"), h);
}

#[test]
fn rebuild_full_fails_on_shared_path_and_keeps_last_note() {
    let mut index = NoteIndex::new();
    let a = create_test_note("a", "A", "x");
    let mut b = create_test_note("b", "B", "y");
    b.file_path = a.file_path.clone();
    assert!(index.rebuild_full(&vec![a, b]).is_err());
    let mut a2 = create_test_note("a", "A2", "z");
    a2.file_path = "/test/other.md".to_string();
    index.rebuild_full(&vec![create_test_note("a", "A", "x"), a2]).unwrap();
    assert_eq!(index.get_path("a"), Some("/test/other.md".to_string()));
}
