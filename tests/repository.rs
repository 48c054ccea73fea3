use kaku::note::Note;
use kaku::repository::{HybridRepository, RepositoryError, ScannedFile};

/// The notes directory, kept in memory for the tests.
struct Disk {
    files: Vec<(String, String)>,
}

impl Disk {
    fn new() -> Disk {
        Disk { files: Vec::new() }
    }
    fn paths(&self) -> Vec<String> {
        self.files.iter().map(|(p, _)| p.clone()).collect()
    }
    fn write(&mut self, path: &str, text: String) {
        self.files.retain(|(p, _)| p != path);
        self.files.push((path.to_string(), text));
    }
    fn read(&self, path: &str) -> Option<String> {
        self.files.iter().find(|(p, _)| p == path).map(|(_, t)| t.clone())
    }
    fn delete(&mut self, path: &str) {
        self.files.retain(|(p, _)| p != path);
    }
    fn has_file(&self, path: &str) -> bool {
        self.read(path).is_some()
    }
    fn scan(&self) -> Vec<ScannedFile> {
        self.files.iter().map(|(p, t)| ScannedFile { path: p.clone(), content: Some(t.clone()) }).collect()
    }
}

fn create_test_repo() -> (HybridRepository, Disk) {
    (HybridRepository::new("/notes".to_string()), Disk::new())
}

fn save(repo: &mut HybridRepository, disk: &mut Disk, note: &Note) -> String {
    let path = repo.resolve_or_generate_path(note, &disk.paths());
    disk.write(&path, note.to_file_content());
    repo.record_save(note, &path).unwrap()
}

fn load(repo: &HybridRepository, disk: &Disk, uid: &str) -> Result<Note, RepositoryError> {
    let path = repo.load_path(uid)?;
    let text = disk.read(&path).ok_or(RepositoryError::not_found(uid))?;
    HybridRepository::parse_loaded(&text, &path)
}

fn note_with(uid: &str, content: &str) -> Note {
    let mut n = Note::with_uid(uid.to_string());
    n.content = content.to_string();
    n
}

#[test]
fn hybrid_repository_test_save_and_load() {
    let (mut repo, mut disk) = create_test_repo();
    let mut note = Note::new();
    note.content = "# テストメモ\n\n本文".to_string();
    let path = save(&mut repo, &mut disk, &note);
    assert!(disk.has_file(&path));
    let loaded = load(&repo, &disk, &note.metadata.uid).unwrap();
    assert_eq!(note.content, loaded.content);
}

#[test]
fn hybrid_repository_test_list_all() {
    let (mut repo, mut disk) = create_test_repo();
    for i in 0..3 {
        let note = note_with(&format!("2026010100000{}", i), &format!("# メモ {}\n\n本文", i));
        save(&mut repo, &mut disk, &note);
    }
    let items = repo.list_all();
    assert_eq!(items.len(), 3);
}

#[test]
fn test_delete() {
    let (mut repo, mut disk) = create_test_repo();
    let mut note = Note::new();
    note.content = "# 削除テスト\n\n本文".to_string();
    let path = save(&mut repo, &mut disk, &note);
    assert!(disk.has_file(&path));
    assert_eq!(repo.list_all().len(), 1);
    let p = repo.begin_delete(&note.metadata.uid).unwrap();
    disk.delete(&p);
    assert!(!disk.has_file(&path));
    assert_eq!(repo.list_all().len(), 0);
}

#[test]
fn hybrid_repository_test_find_by_title() {
    let (mut repo, mut disk) = create_test_repo();
    let mut note = Note::new();
    note.content = "# ユニークタイトル\n\n本文".to_string();
    save(&mut repo, &mut disk, &note);
    let found = repo.find_by_title("ユニークタイトル");
    assert!(found.is_some());
    assert_eq!(found.unwrap().uid, note.metadata.uid);
    let found = repo.find_by_title("ユニークタイトル");
    assert!(found.is_some());
    let found = repo.find_by_title("存在しない");
    assert!(found.is_none());
}

#[test]
fn hybrid_repository_test_pagination() {
    let (mut repo, mut disk) = create_test_repo();
    for i in 0..10 {
        let note = note_with(&format!("202601010000{:02}", i), &format!("# メモ {}\n\n本文", i));
        save(&mut repo, &mut disk, &note);
    }
    let (items, total) = repo.list_paginated(0, 3);
    assert_eq!(total, 10);
    assert_eq!(items.len(), 3);
    let (items, _) = repo.list_paginated(3, 3);
    assert_eq!(items.len(), 3);
    let (items, _) = repo.list_paginated(9, 10);
    assert_eq!(items.len(), 1);
}

#[test]
fn test_equivalence_with_file_repo() {
    let (mut repo, mut disk) = create_test_repo();
    let mut note = Note::new();
    note.content = "# テスト\n\nContent".to_string();
    save(&mut repo, &mut disk, &note);
    let list = repo.list_all();
    assert_eq!(list.len(), 1);
    assert_eq!(list[0].uid, note.metadata.uid);
    assert_eq!(list[0].title, "テスト");
}

#[test]
fn missing_and_broken_notes() {
    let (mut repo, mut disk) = create_test_repo();
    assert!(matches!(repo.load_path("20260101000000"), Err(RepositoryError::NotFound { .. })));
    let note = note_with("20260101000000", "# A");
    let path = save(&mut repo, &mut disk, &note);
    disk.write(&path, "not a note".to_string());
    assert!(matches!(load(&repo, &disk, "20260101000000"), Err(RepositoryError::Parse { .. })));
    assert!(matches!(repo.begin_delete("20269999999999"), Err(RepositoryError::NotFound { .. })));
}

#[test]
fn sync_twice_is_idempotent() {
    let (mut repo, mut disk) = create_test_repo();
    disk.write("/notes/a.md", note_with("20260101000001", "# A\n\nx").to_file_content());
    disk.write("/notes/b.md", note_with("20260101000002", "# B\n\n[[A]]").to_file_content());
    disk.write("/notes/junk.md", "no front matter".to_string());
    let first = repo.sync_index(&disk.scan()).unwrap();
    assert_eq!(first.updated, 2);
    assert_eq!(first.removed, 0);
    let second = repo.sync_index(&disk.scan()).unwrap();
    assert_eq!((second.added, second.updated, second.removed), (0, 0, 0));
}

#[test]
fn sync_picks_up_file_written_behind_the_index() {
    let (mut repo, mut disk) = create_test_repo();
    save(&mut repo, &mut disk, &note_with("20260101000001", "# First"));
    disk.write("/notes/late.md", note_with("20260101000009", "# Late Note\n\nbody").to_file_content());
    assert!(repo.find_by_title("late note").is_none());
    let res = repo.sync_index(&disk.scan()).unwrap();
    assert_eq!(res.updated, 1);
    assert_eq!(repo.find_by_title("Late Note").unwrap().uid, "20260101000009");
    assert!(repo.list_all().iter().any(|i| i.uid == "20260101000009"));
}

#[test]
fn sync_removes_index_row_of_deleted_file() {
    let (mut repo, mut disk) = create_test_repo();
    let p = save(&mut repo, &mut disk, &note_with("20260101000001", "# Gone"));
    save(&mut repo, &mut disk, &note_with("20260101000002", "# Stays"));
    disk.delete(&p);
    let res = repo.sync_index(&disk.scan()).unwrap();
    assert_eq!(res.removed, 1);
    assert!(repo.list_all().iter().all(|i| i.uid != "20260101000001"));
    assert_eq!(repo.list_all().len(), 1);
}

#[test]
fn colliding_heading_names_get_distinct_paths() {
    let (mut repo, mut disk) = create_test_repo();
    let a = note_with("20260101000001", "# Same\n\none");
    let b = note_with("20260101000002", "# Same\n\ntwo");
    let pa = save(&mut repo, &mut disk, &a);
    let pb = save(&mut repo, &mut disk, &b);
    assert_eq!(pa, "/notes/Same.md");
    assert_eq!(pb, "/notes/Same_2.md");
    assert_eq!(load(&repo, &disk, "20260101000001").unwrap().content, "# Same\n\none");
    assert_eq!(load(&repo, &disk, "20260101000002").unwrap().content, "# Same\n\ntwo");
}

#[test]
fn initialize_only_when_empty() {
    let (mut repo, mut disk) = create_test_repo();
    disk.write("/notes/a.md", note_with("20260101000001", "# A").to_file_content());
    assert!(repo.initialize(&disk.scan()).unwrap().is_some());
    assert!(repo.initialize(&disk.scan()).unwrap().is_none());
}

#[test]
fn save_keeps_existing_path_and_gallery_has_tags() {
    let (mut repo, mut disk) = create_test_repo();
    let mut n = note_with("20260101000001", "# Title\n\n#idea body");
    let p1 = save(&mut repo, &mut disk, &n);
    n.update_content("# Renamed\n\n#idea body".to_string());
    let p2 = save(&mut repo, &mut disk, &n);
    assert_eq!(p1, p2);
    let g = repo.list_gallery(false, Some("idea"));
    assert_eq!(g.len(), 1);
    assert_eq!(g[0].title, "Renamed");
    assert_eq!(g[0].preview, "Renamed idea body");
}

#[test]
fn sync_reindexes_moved_file_and_counts_removals() {
    let (mut repo, mut disk) = create_test_repo();
    let n = note_with("20260101000001", "# Moved");
    let p = save(&mut repo, &mut disk, &n);
    let text = disk.read(&p).unwrap();
    disk.delete(&p);
    disk.write("/notes/elsewhere.md", text);
    let first = repo.sync_index(&disk.scan()).unwrap();
    assert_eq!((first.updated, first.removed), (1, 0));
    assert_eq!(repo.get_path("20260101000001"), Some("/notes/elsewhere.md".to_string()));
    let second = repo.sync_index(&disk.scan()).unwrap();
    assert_eq!((second.updated, second.removed), (0, 0));
}

#[test]
fn record_save_refuses_path_of_another_note() {
    let (mut repo, mut disk) = create_test_repo();
    let a = note_with("20260101000001", "# A");
    let pa = save(&mut repo, &mut disk, &a);
    let b = note_with("20260101000002", "# B");
    assert!(matches!(repo.record_save(&b, &pa), Err(RepositoryError::Storage { .. })));
}
