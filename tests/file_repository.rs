use kaku::file_repository::FileNoteRepository;
use kaku::index::NoteListItem;
use kaku::note::Note;
use kaku::repository::ScannedFile;

struct Dir {
    files: Vec<(String, String)>,
}

impl Dir {
    fn paths(&self) -> Vec<String> {
        self.files.iter().map(|(p, _)| p.clone()).collect()
    }
    fn write(&mut self, path: &str, text: String) {
        self.files.retain(|(p, _)| p != path);
        self.files.push((path.to_string(), text));
    }
    fn read(&self, path: &str) -> Option<String> {
        self.files.iter().find(|(p, _)| p == path).map(|(_, t)| t.clone())
    }
    fn remove(&mut self, path: &str) {
        self.files.retain(|(p, _)| p != path);
    }
    fn scan(&self) -> Vec<ScannedFile> {
        self.files.iter().map(|(p, t)| ScannedFile { path: p.clone(), content: Some(t.clone()) }).collect()
    }
}

fn create_test_repo() -> (FileNoteRepository, Dir) {
    (FileNoteRepository::new("/notes".to_string()), Dir { files: Vec::new() })
}

fn save(repo: &mut FileNoteRepository, dir: &mut Dir, note: &Note) -> String {
    let path = repo.resolve_path(note, &dir.paths());
    dir.write(&path, note.to_file_content());
    repo.record_save(note, &path);
    path
}

fn load(repo: &mut FileNoteRepository, dir: &Dir, uid: &str) -> Option<Note> {
    let path = match repo.get_path(uid) {
        Some(p) => p,
        None => repo.discover(&dir.scan(), uid)?,
    };
    Note::from_file_content(&dir.read(&path)?).ok()
}

fn list_all(repo: &mut FileNoteRepository, dir: &Dir) -> Vec<NoteListItem> {
    match repo.cached_list() {
        Some(items) => items,
        None => repo.list_from_scan(&dir.scan()),
    }
}

fn delete(repo: &mut FileNoteRepository, dir: &mut Dir, uid: &str) {
    let path = repo.load_path(uid).unwrap();
    dir.remove(&path);
    repo.record_delete(uid);
}

fn note_with(uid: &str, content: &str) -> Note {
    let mut n = Note::with_uid(uid.to_string());
    n.content = content.to_string();
    n
}

#[test]
fn file_repository_test_save_and_load() {
    let (mut repo, mut dir) = create_test_repo();
    let mut note = Note::new();
    note.content = "# テストメモ\n\n本文".to_string();
    let path = save(&mut repo, &mut dir, &note);
    assert!(dir.read(&path).is_some());
    let loaded = load(&mut repo, &dir, &note.metadata.uid).unwrap();
    assert_eq!(note.content, loaded.content);
}

#[test]
fn file_repository_test_list_all() {
    let (mut repo, mut dir) = create_test_repo();
    for i in 0..3 {
        let note = note_with(&format!("2026010100000{}", i), &format!("# メモ {}\n\n本文", i));
        save(&mut repo, &mut dir, &note);
    }
    let items = list_all(&mut repo, &dir);
    assert_eq!(items.len(), 3);
}

#[test]
fn test_list_cache_optimization() {
    let (mut repo, mut dir) = create_test_repo();
    assert!(repo.list_cache_dirty());
    let note1 = note_with("20260101000001", "# メモ 1\n\n本文");
    save(&mut repo, &mut dir, &note1);
    let items1 = list_all(&mut repo, &dir);
    assert_eq!(items1.len(), 1);
    assert!(!repo.list_cache_dirty());
    let items2 = list_all(&mut repo, &dir);
    assert_eq!(items1.len(), items2.len());
    assert_eq!(items1[0].uid, items2[0].uid);
    let note2 = note_with("20260101000002", "# メモ 2\n\n本文");
    save(&mut repo, &mut dir, &note2);
    assert!(!repo.list_cache_dirty());
    let items3 = list_all(&mut repo, &dir);
    assert_eq!(items3.len(), 2);
    delete(&mut repo, &mut dir, &note1.metadata.uid);
    assert!(!repo.list_cache_dirty());
    let items4 = list_all(&mut repo, &dir);
    assert_eq!(items4.len(), 1);
    assert_eq!(items4[0].uid, note2.metadata.uid);
}

#[test]
fn cache_miss_discovers_file_written_elsewhere() {
    let (mut repo, mut dir) = create_test_repo();
    dir.write("/notes/x.md", note_with("20260101000007", "# X").to_file_content());
    assert!(repo.get_path("20260101000007").is_none());
    let n = load(&mut repo, &dir, "20260101000007").unwrap();
    assert_eq!(n.content, "# X");
    assert_eq!(repo.get_path("20260101000007"), Some("/notes/x.md".to_string()));
    assert!(repo.discover(&dir.scan(), "20269999999999").is_none());
}

#[test]
fn rebuild_cache_marks_listing_stale() {
    let (mut repo, mut dir) = create_test_repo();
    save(&mut repo, &mut dir, &note_with("20260101000001", "# A"));
    let _ = list_all(&mut repo, &dir);
    repo.rebuild_cache(&dir.scan());
    assert!(repo.list_cache_dirty());
    assert_eq!(repo.get_path("20260101000001"), Some("/notes/A.md".to_string()));
}
