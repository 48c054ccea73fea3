//! The hybrid note repository: the note files are the source of truth and
//! the index a derived, rebuildable projection of them. Reading and writing
//! files happens around this type; it decides paths, keeps the index in step
//! with every write, and reconciles the index with a scan of the directory.
use vstd::prelude::*;
use crate::filename::HeadingFilenameStrategy;
use crate::index::{blake3_hex, compute_hash, orphan_keys, stale, TitleEntry, GalleryNote, IndexError, IndexRow, IndexedNote, NoteIndex, NoteListItem};
use crate::note::{first_heading, parse_file, strs, MetaModel, Note, NoteParseError};
use crate::preview::{generate_preview, PREVIEW_LENGTH};
use crate::text::{append_all, chars_of, lower_of, string_of};

verus! {

/// A failure of the content store.
#[derive(Debug, PartialEq, Eq)]
pub enum StorageError {
    NotFound(String),
    Io(String),
    PermissionDenied(String),
    CreateDirFailed(String),
}

/// A failure of the repository.
#[derive(Debug, PartialEq, Eq)]
pub enum RepositoryError {
    /// No note has this id.
    NotFound { uid: String },
    /// The content store or the index failed during the named operation.
    Storage { context: String, source: StorageError },
    /// A file exists but does not hold a note.
    Parse { context: String, path: Option<String> },
    /// No file name could be derived.
    FilenameGeneration { reason: String },
}

impl RepositoryError {
    pub fn not_found(uid: &str) -> (r: RepositoryError)
        ensures
            r matches RepositoryError::NotFound { uid: u } && u@ == uid@,
    {
        RepositoryError::NotFound { uid: String::from_str(uid) }
    }

    pub fn storage(context: &str, source: StorageError) -> (r: RepositoryError)
        ensures
            r matches RepositoryError::Storage { context: c, source: s } && c@ == context@ && s == source,
    {
        RepositoryError::Storage { context: String::from_str(context), source }
    }

    pub fn parse(context: &str, path: Option<String>) -> (r: RepositoryError)
        ensures
            r matches RepositoryError::Parse { context: c, path: p } && c@ == context@ && p == path,
    {
        RepositoryError::Parse { context: String::from_str(context), path }
    }
}

/// An index failure as a storage failure.
pub fn storage_error_from_index(e: IndexError) -> (r: StorageError)
    ensures
        r matches StorageError::Io(_),
{
    match e {
        IndexError::DataInconsistency => StorageError::Io(String::from_str("index refused the write: file path already indexed for another note")),
    }
}

/// A file found by a directory scan, with its text where it could be read.
pub struct ScannedFile {
    pub path: String,
    pub content: Option<String>,
}

/// What a reconciliation pass did.
#[derive(Debug, PartialEq, Eq, Structural)]
pub struct SyncResult {
    pub added: usize,
    pub updated: usize,
    pub removed: usize,
}

/// The note a scanned file holds, if it could be read and parsed.
pub open spec fn parsed(f: ScannedFile) -> Option<(MetaModel, Seq<char>)> {
    match f.content {
        Some(c) => match parse_file(c@) {
            Ok(x) => Some(x),
            Err(_) => None,
        },
        None => None,
    }
}

pub open spec fn file_uid(f: ScannedFile) -> Seq<char> {
    (parsed(f)->0).0.uid
}

pub open spec fn file_hash(f: ScannedFile) -> Seq<char> {
    blake3_hex(f.content->0@)
}

pub open spec fn scanned_paths(files: Seq<ScannedFile>) -> Seq<Seq<char>> {
    files.map_values(|f: ScannedFile| f.path@)
}

/// No two readable notes of the scan share an id.
pub open spec fn distinct_uids(files: Seq<ScannedFile>) -> bool {
    forall|i: int, j: int| 0 <= i < j < files.len() && parsed(files[i]) is Some && parsed(files[j]) is Some ==> file_uid(#[trigger] files[i]) != file_uid(#[trigger] files[j])
}

/// Every readable note of the scan is indexed with its file's hash and path.
pub open spec fn in_sync(rows: Map<Seq<char>, IndexRow>, files: Seq<ScannedFile>) -> bool {
    forall|i: int| 0 <= i < files.len() && parsed(#[trigger] files[i]) is Some ==> {
        &&& rows.contains_key(file_uid(files[i]))
        &&& rows[file_uid(files[i])].content_hash@ == file_hash(files[i])
        &&& rows[file_uid(files[i])].file_path@ == files[i].path@
    }
}

/// Every indexed note points at a scanned file.
pub open spec fn covered(rows: Map<Seq<char>, IndexRow>, files: Seq<ScannedFile>) -> bool {
    forall|k: Seq<char>| #[trigger] rows.contains_key(k) ==> scanned_paths(files).contains(rows[k].file_path@)
}

/// The index must take the note of a file again: it is not indexed, or was
/// indexed from other text or from another path.
pub open spec fn stale_at(rows: Map<Seq<char>, IndexRow>, uid: Seq<char>, hash: Seq<char>, path: Seq<char>) -> bool {
    stale(rows, uid, hash) || rows[uid].file_path@ != path
}

pub open spec fn file_stale(rows: Map<Seq<char>, IndexRow>, f: ScannedFile) -> bool {
    stale_at(rows, file_uid(f), file_hash(f), f.path@)
}

/// Some readable file before position `i` holds note `k`.
pub open spec fn scanned_before(files: Seq<ScannedFile>, i: int, k: Seq<char>) -> bool {
    exists|q: int| 0 <= q < i && parsed(#[trigger] files[q]) is Some && file_uid(files[q]) == k
}

/// Some readable file of the scan holds note `k`.
pub open spec fn scanned_uid(files: Seq<ScannedFile>, k: Seq<char>) -> bool {
    scanned_before(files, files.len() as int, k)
}

/// Readable file `q` is the last before position `i` that holds its note.
pub open spec fn last_before(files: Seq<ScannedFile>, q: int, i: int) -> bool {
    &&& 0 <= q < i
    &&& parsed(files[q]) is Some
    &&& forall|p: int| q < p < i && parsed(#[trigger] files[p]) is Some ==> file_uid(files[p]) != file_uid(files[q])
}

/// No two scanned files share a path, as in a directory listing.
pub open spec fn distinct_paths(files: Seq<ScannedFile>) -> bool {
    forall|i: int, j: int| 0 <= i < j < files.len() ==> (#[trigger] files[i]).path@ != (#[trigger] files[j]).path@
}

/// Indexed notes that the scan holds neither by id nor by path: the rows a
/// pass removes.
pub open spec fn vanished(rows: Map<Seq<char>, IndexRow>, files: Seq<ScannedFile>) -> Set<Seq<char>> {
    Set::new(|k: Seq<char>| rows.contains_key(k) && !scanned_uid(files, k) && !scanned_paths(files).contains(rows[k].file_path@))
}

/// A pass succeeds: the scan's paths are distinct and no note is indexed
/// under the path of a readable file that holds another note.
pub open spec fn sync_can_succeed(rows: Map<Seq<char>, IndexRow>, files: Seq<ScannedFile>) -> bool {
    &&& distinct_paths(files)
    &&& forall|i: int, k: Seq<char>| 0 <= i < files.len() && parsed(#[trigger] files[i]) is Some && #[trigger] rows.contains_key(k)
        && k != file_uid(files[i]) ==> rows[k].file_path@ != files[i].path@
}

/// What a successful reconciliation pass over `files` guarantees of the
/// index before (`before`) and after it (`after`, `titles`):
/// - every row points at a scanned file, and holds an old note or a
///   scanned one; notes the scan does not hold keep their rows unchanged;
/// - the last file holding each note has it indexed under its path with its
///   hash, and, where it had to be indexed again, with its title;
/// - the notes removed are exactly those that vanished;
/// - where everything was in step, nothing changed;
/// - no row of another note sits on a scanned note's path;
/// - with distinct ids and paths, each note indexed again is found by its
///   case-folded title, pointing at a note with that title.
pub open spec fn sync_outcome(before: Map<Seq<char>, IndexRow>, after: Map<Seq<char>, IndexRow>, titles: Map<Seq<char>, TitleEntry>, files: Seq<ScannedFile>, res: SyncResult) -> bool {
    &&& res.added == 0
    &&& covered(after, files)
    &&& forall|k: Seq<char>| #[trigger] after.contains_key(k) ==> before.contains_key(k) || scanned_uid(files, k)
    &&& forall|k: Seq<char>| #[trigger] after.contains_key(k) && !scanned_uid(files, k) ==> before.contains_key(k) && after[k] == before[k]
    &&& forall|i: int| #[trigger] last_before(files, i, files.len() as int) ==> {
        &&& after.contains_key(file_uid(files[i]))
        &&& after[file_uid(files[i])].file_path@ == files[i].path@
        &&& after[file_uid(files[i])].content_hash@ == file_hash(files[i])
    }
    &&& distinct_uids(files) ==> forall|i: int| 0 <= i < files.len() && parsed(#[trigger] files[i]) is Some && file_stale(before, files[i])
        ==> after[file_uid(files[i])].title@ == file_title(files[i])
    &&& res.removed == vanished(before, files).len()
    &&& in_sync(before, files) ==> res.updated == 0
    &&& in_sync(before, files) && covered(before, files) ==> after == before
    &&& distinct_paths(files) ==> forall|i: int, k: Seq<char>| 0 <= i < files.len() && parsed(#[trigger] files[i]) is Some && #[trigger] after.contains_key(k)
        && k != file_uid(files[i]) ==> after[k].file_path@ != files[i].path@
    &&& distinct_uids(files) && distinct_paths(files) ==> forall|i: int| 0 <= i < files.len() && parsed(#[trigger] files[i]) is Some && file_stale(before, files[i]) ==> {
        &&& titles.contains_key(lower_of(file_title(files[i])))
        &&& after.contains_key(titles[lower_of(file_title(files[i]))].uid@)
        &&& lower_of(after[titles[lower_of(file_title(files[i]))].uid@].title@) == lower_of(file_title(files[i]))
    }
}

/// The title under which a readable file is listed.
pub open spec fn file_title(f: ScannedFile) -> Seq<char> {
    display_title((parsed(f)->0).1, file_uid(f))
}

/// A second reconciliation pass over unchanged files, right after a
/// successful one, succeeds, re-indexes nothing and removes nothing.
pub proof fn lemma_sync_idempotent(
    rows0: Map<Seq<char>, IndexRow>,
    rows1: Map<Seq<char>, IndexRow>,
    titles1: Map<Seq<char>, TitleEntry>,
    rows2: Map<Seq<char>, IndexRow>,
    titles2: Map<Seq<char>, TitleEntry>,
    files: Seq<ScannedFile>,
    first: SyncResult,
    second: SyncResult,
)
    requires
        sync_outcome(rows0, rows1, titles1, files, first),
        distinct_uids(files),
        distinct_paths(files),
    ensures
        sync_can_succeed(rows1, files),
        sync_outcome(rows1, rows2, titles2, files, second) ==> second.updated == 0 && second.removed == 0 && rows2 == rows1,
{
    assert forall|i: int| 0 <= i < files.len() && parsed(#[trigger] files[i]) is Some implies {
        &&& rows1.contains_key(file_uid(files[i]))
        &&& rows1[file_uid(files[i])].content_hash@ == file_hash(files[i])
        &&& rows1[file_uid(files[i])].file_path@ == files[i].path@
    } by {
        assert(last_before(files, i, files.len() as int));
    }
    assert(in_sync(rows1, files));
    assert(vanished(rows1, files) =~= Set::<Seq<char>>::empty());
}

/// After a pass, no indexed note points at a file that the scan did not
/// find, and a note whose file is gone (and which no scanned file holds)
/// is no longer indexed.
pub proof fn lemma_sync_removes_orphans(
    rows0: Map<Seq<char>, IndexRow>,
    rows1: Map<Seq<char>, IndexRow>,
    titles1: Map<Seq<char>, TitleEntry>,
    files: Seq<ScannedFile>,
    res: SyncResult,
    gone: Seq<char>,
    uid: Seq<char>,
)
    requires
        sync_outcome(rows0, rows1, titles1, files, res),
        !scanned_paths(files).contains(gone),
        !scanned_uid(files, uid),
        rows0.contains_key(uid) ==> rows0[uid].file_path@ == gone,
    ensures
        forall|k: Seq<char>| #[trigger] rows1.contains_key(k) ==> rows1[k].file_path@ != gone,
        !rows1.contains_key(uid),
        rows0.contains_key(uid) ==> vanished(rows0, files).contains(uid),
{
}

/// A file written without indexing it (as after a crash between the write
/// and the index update) is indexed by the next pass under its path, with
/// its hash and its title; the title lookup finds it where no other
/// indexed note has the same case-folded title.
pub proof fn lemma_sync_indexes_unindexed_file(
    rows0: Map<Seq<char>, IndexRow>,
    rows1: Map<Seq<char>, IndexRow>,
    titles1: Map<Seq<char>, TitleEntry>,
    files: Seq<ScannedFile>,
    res: SyncResult,
    i: int,
)
    requires
        sync_outcome(rows0, rows1, titles1, files, res),
        distinct_uids(files),
        distinct_paths(files),
        0 <= i < files.len(),
        parsed(files[i]) is Some,
        file_stale(rows0, files[i]),
    ensures
        rows1.contains_key(file_uid(files[i])),
        rows1[file_uid(files[i])].file_path@ == files[i].path@,
        rows1[file_uid(files[i])].content_hash@ == file_hash(files[i]),
        rows1[file_uid(files[i])].title@ == file_title(files[i]),
        titles1.contains_key(lower_of(file_title(files[i]))),
        (forall|k: Seq<char>| #[trigger] rows1.contains_key(k) && k != file_uid(files[i]) ==> lower_of(rows1[k].title@) != lower_of(file_title(files[i])))
            ==> titles1[lower_of(file_title(files[i]))].uid@ == file_uid(files[i]),
{
    assert(last_before(files, i, files.len() as int));
    let t = lower_of(file_title(files[i]));
    let k = titles1[t].uid@;
    if (forall|k2: Seq<char>| #[trigger] rows1.contains_key(k2) && k2 != file_uid(files[i]) ==> lower_of(rows1[k2].title@) != t) {
        assert(rows1.contains_key(k));
    }
}

proof fn lemma_last_exists(files: Seq<ScannedFile>, q: int, i: int)
    requires
        0 <= q < i <= files.len(),
        parsed(files[q]) is Some,
    ensures
        exists|p: int| 0 <= p < i && file_uid(files[p]) == file_uid(files[q]) && #[trigger] last_before(files, p, i),
    decreases i - q,
{
    if exists|p: int| q < p < i && parsed(#[trigger] files[p]) is Some && file_uid(files[p]) == file_uid(files[q]) {
        let p = choose|p: int| q < p < i && parsed(#[trigger] files[p]) is Some && file_uid(files[p]) == file_uid(files[q]);
        lemma_last_exists(files, p, i);
    } else {
        assert(last_before(files, q, i));
    }
}

/// An unreadable file changes none of the loop facts of a pass.
proof fn lemma_unparsed_step(files: Seq<ScannedFile>, i: int)
    requires
        0 <= i < files.len(),
        parsed(files[i]) is None,
    ensures
        forall|k: Seq<char>| #[trigger] scanned_before(files, i + 1, k) == scanned_before(files, i, k),
        forall|q: int| #[trigger] last_before(files, q, i + 1) ==> last_before(files, q, i),
{
    assert forall|k: Seq<char>| scanned_before(files, i + 1, k) == scanned_before(files, i, k) by {
        if scanned_before(files, i + 1, k) {
            let q = choose|q: int| 0 <= q < i + 1 && parsed(#[trigger] files[q]) is Some && file_uid(files[q]) == k;
            assert(q < i);
        }
    }
}

fn scan_paths(files: &Vec<ScannedFile>) -> (r: Vec<String>)
    ensures
        strs(r@) == scanned_paths(files@),
{
    let mut out: Vec<String> = Vec::new();
    let mut i: usize = 0;
    while i < files.len()
        invariant
            i <= files@.len(),
            strs(out@) == scanned_paths(files@).take(i as int),
        decreases files.len() - i,
    {
        let ghost o0 = out@;
        out.push(files[i].path.clone());
        proof {
            assert(strs(out@) =~= strs(o0).push(files@[i as int].path@));
            assert(scanned_paths(files@).take(i + 1) =~= scanned_paths(files@).take(i as int).push(files@[i as int].path@));
        }
        i = i + 1;
    }
    proof {
        assert(scanned_paths(files@).take(files@.len() as int) =~= scanned_paths(files@));
    }
    out
}

/// Two different notes saved through the repository never share a file:
/// the index refuses a path another note holds, so the rows of two saved
/// notes point at different files, each loadable by its id.
pub proof fn lemma_saved_notes_have_distinct_files(repo: HybridRepository, u1: Seq<char>, u2: Seq<char>)
    requires
        repo.wf(),
        repo.idx().rows().contains_key(u1),
        repo.idx().rows().contains_key(u2),
        u1 != u2,
    ensures
        repo.idx().rows()[u1].file_path@ != repo.idx().rows()[u2].file_path@,
        repo.idx().rows()[u1].uid@ == u1,
        repo.idx().rows()[u2].uid@ == u2,
{
    crate::index::lemma_index_facts(repo.idx());
}

/// The title a listing shows: the first heading, or the id.
pub open spec fn display_title(body: Seq<char>, uid: Seq<char>) -> Seq<char> {
    match first_heading(body) {
        Some(h) => h,
        None => uid,
    }
}

/// The hybrid repository's own state: the index and the notes directory.
pub struct HybridRepository {
    index: NoteIndex,
    base_dir: String,
}

impl HybridRepository {
    pub closed spec fn idx(&self) -> NoteIndex {
        self.index
    }

    pub closed spec fn dir(&self) -> Seq<char> {
        self.base_dir@
    }

    pub open spec fn wf(&self) -> bool {
        self.idx().wf()
    }

    /// A repository over `base_dir` with an empty index.
    pub fn new(base_dir: String) -> (r: HybridRepository)
        ensures
            r.wf(),
            r.idx().rows().len() == 0,
            r.dir() == base_dir@,
    {
        HybridRepository { index: NoteIndex::new(), base_dir }
    }

    /// The index.
    pub fn index(&self) -> (r: &NoteIndex)
        ensures
            *r == self.idx(),
    {
        &self.index
    }

    /// The notes directory.
    pub fn base_dir(&self) -> (r: &str)
        ensures
            r@ == self.dir(),
    {
        self.base_dir.as_str()
    }

    /// Indexes `note`, read from or written to `path` with the file text
    /// `text`: its row (title from its first heading, else its id; the hash
    /// of `text`; a preview; its merged tags), title entry and edges.
    fn index_note(&mut self, note: &Note, path: &str, text: &str) -> (r: Result<(), RepositoryError>)
        requires
            old(self).wf(),
        ensures
            final(self).wf(),
            final(self).dir() == old(self).dir(),
            r is Ok ==> final(self).idx().rows() == old(self).idx().rows().insert(note.metadata.uid@, final(self).idx().rows()[note.metadata.uid@]),
            r is Ok ==> final(self).idx().rows()[note.metadata.uid@].content_hash@ == blake3_hex(text@),
            r is Ok ==> final(self).idx().rows()[note.metadata.uid@].file_path@ == path@,
            r is Ok ==> final(self).idx().rows()[note.metadata.uid@].title@ == display_title(note.content@, note.metadata.uid@),
            r is Err ==> final(self).idx().rows() == old(self).idx().rows(),
            r is Err ==> final(self).idx().titles() == old(self).idx().titles(),
            r matches Err(e) ==> e is Storage,
            r is Err <==> crate::index::path_taken(old(self).idx().rows(), note.metadata.uid@, path@),
            r is Ok ==> final(self).idx().rows()[note.metadata.uid@].preview@ == crate::preview::preview_text(note.content@, PREVIEW_LENGTH as int),
            r is Ok ==> strs(final(self).idx().rows()[note.metadata.uid@].tags@).to_multiset()
                == crate::note::all_tags_of(strs(note.metadata.tags@), note.content@).to_multiset(),
            r is Ok ==> crate::note::sorted_strs(strs(final(self).idx().rows()[note.metadata.uid@].tags@)),
            r is Ok ==> final(self).idx().titles().contains_key(lower_of(display_title(note.content@, note.metadata.uid@)))
                && final(self).idx().titles()[lower_of(display_title(note.content@, note.metadata.uid@))].uid@ == note.metadata.uid@,
            r is Ok ==> forall|t: Seq<char>| #[trigger] old(self).idx().titles().contains_key(t) && t != lower_of(display_title(note.content@, note.metadata.uid@))
                && old(self).idx().titles()[t].uid@ != note.metadata.uid@ ==> final(self).idx().titles().contains_key(t) && final(self).idx().titles()[t] == old(self).idx().titles()[t],
    {
        let title = match note.extract_heading() {
            Some(h) => h,
            None => note.metadata.uid.clone(),
        };
        let entry = IndexedNote {
            uid: note.metadata.uid.clone(),
            title,
            content: note.content.clone(),
            file_path: String::from_str(path),
            content_hash: compute_hash(text),
            created_at: note.metadata.created_at,
            updated_at: note.metadata.updated_at,
        };
        let preview = generate_preview(note.content.as_str(), PREVIEW_LENGTH);
        let tags = note.all_tags();
        match self.index.upsert_note_with_gallery(&entry, preview.as_str(), &tags) {
            Ok(()) => Ok(()),
            Err(e) => Err(RepositoryError::storage("index_upsert", storage_error_from_index(e))),
        }
    }

    /// The file `note` is kept in: the indexed path, or else
    /// `<dir>/<name>.md` with a name from its heading that is not the stem
    /// of any of `existing_files` (the files already in the directory).
    pub fn resolve_or_generate_path(&self, note: &Note, existing_files: &Vec<String>) -> (r: String)
        requires
            self.wf(),
        ensures
            self.idx().rows().contains_key(note.metadata.uid@) ==> r@ == self.idx().rows()[note.metadata.uid@].file_path@,
            !self.idx().rows().contains_key(note.metadata.uid@) ==> exists|n: Seq<char>|
                crate::filename::picked_name(crate::filename::base_name(first_heading(note.content@), note.metadata.uid@), crate::filename::stems(strs(existing_files@)), n)
                && r@ == self.dir() + seq!['/'] + n + seq!['.', 'm', 'd'],
    {
        match self.index.get_path(note.metadata.uid.as_str()) {
            Some(p) => p,
            None => {
                let strategy = HeadingFilenameStrategy::new();
                let name = strategy.generate(note, existing_files);
                let mut out = chars_of(self.base_dir.as_str());
                out.push('/');
                let n = chars_of(name.as_str());
                append_all(&mut out, &n);
                out.push('.');
                out.push('m');
                out.push('d');
                proof {
                    assert(out@ =~= self.dir() + seq!['/'] + name@ + seq!['.', 'm', 'd']);
                }
                string_of(out.as_slice())
            },
        }
    }

    /// Records a note whose file text `note.to_file_content()` was just
    /// written to `path`: the index now holds it under that path with that
    /// text's hash. Returns the path.
    pub fn record_save(&mut self, note: &Note, path: &str) -> (r: Result<String, RepositoryError>)
        requires
            old(self).wf(),
        ensures
            final(self).wf(),
            r is Err <==> crate::index::path_taken(old(self).idx().rows(), note.metadata.uid@, path@),
            r matches Err(e) ==> e is Storage && final(self).idx().rows() == old(self).idx().rows(),
            r matches Ok(p) ==> p@ == path@
                && final(self).idx().rows() == old(self).idx().rows().insert(note.metadata.uid@, final(self).idx().rows()[note.metadata.uid@])
                && final(self).idx().rows()[note.metadata.uid@].file_path@ == path@
                && final(self).idx().rows()[note.metadata.uid@].content_hash@ == blake3_hex(crate::note::file_text(note.metadata@, note.content@))
                && final(self).idx().rows()[note.metadata.uid@].title@ == display_title(note.content@, note.metadata.uid@)
                && final(self).idx().rows()[note.metadata.uid@].preview@ == crate::preview::preview_text(note.content@, PREVIEW_LENGTH as int)
                && strs(final(self).idx().rows()[note.metadata.uid@].tags@).to_multiset()
                    == crate::note::all_tags_of(strs(note.metadata.tags@), note.content@).to_multiset()
                && crate::note::sorted_strs(strs(final(self).idx().rows()[note.metadata.uid@].tags@)),
    {
        let text = note.to_file_content();
        match self.index_note(note, path, text.as_str()) {
            Ok(()) => Ok(String::from_str(path)),
            Err(e) => Err(e),
        }
    }

    /// The file of note `uid`, or `NotFound`.
    pub fn load_path(&self, uid: &str) -> (r: Result<String, RepositoryError>)
        requires
            self.wf(),
        ensures
            match r {
                Ok(p) => self.idx().rows().contains_key(uid@) && p@ == self.idx().rows()[uid@].file_path@,
                Err(e) => !self.idx().rows().contains_key(uid@) && e is NotFound,
            },
    {
        match self.index.get_path(uid) {
            Some(p) => Ok(p),
            None => Err(RepositoryError::not_found(uid)),
        }
    }

    /// Reads the note in the text of its file; a file that is not a note
    /// gives `Parse` with its path.
    pub fn parse_loaded(content: &str, path: &str) -> (r: Result<Note, RepositoryError>)
        ensures
            match r {
                Ok(n) => parse_file(content@) == Ok::<(MetaModel, Seq<char>), NoteParseError>((n.metadata@, n.content@)),
                Err(e) => parse_file(content@) is Err && e is Parse,
            },
    {
        match Note::from_file_content(content) {
            Ok(n) => Ok(n),
            Err(_) => Err(RepositoryError::parse("Invalid note format", Some(String::from_str(path)))),
        }
    }

    /// Removes note `uid` from the index and returns its file, which the
    /// caller deletes next; `NotFound` where it is not indexed.
    pub fn begin_delete(&mut self, uid: &str) -> (r: Result<String, RepositoryError>)
        requires
            old(self).wf(),
        ensures
            final(self).wf(),
            match r {
                Ok(p) => old(self).idx().rows().contains_key(uid@) && p@ == old(self).idx().rows()[uid@].file_path@
                    && final(self).idx().rows() == old(self).idx().rows().remove(uid@),
                Err(e) => !old(self).idx().rows().contains_key(uid@) && e is NotFound && final(self).idx().rows() == old(self).idx().rows()
                    && final(self).idx().titles() == old(self).idx().titles() && final(self).idx().edges() == old(self).idx().edges(),
            },
            r is Ok ==> final(self).idx().titles() == crate::keyed::restrict(old(self).idx().titles(), crate::index::title_not_of(uid@))
                && final(self).idx().edges() == crate::keyed::keep(old(self).idx().edges(), crate::index::not_from(uid@)),
    {
        let path = self.load_path(uid)?;
        self.index.delete_note(uid);
        Ok(path)
    }

    /// The path of note `uid`.
    pub fn get_path(&self, uid: &str) -> (r: Option<String>)
        requires
            self.wf(),
        ensures
            match r {
                Some(p) => self.idx().rows().contains_key(uid@) && p@ == self.idx().rows()[uid@].file_path@,
                None => !self.idx().rows().contains_key(uid@),
            },
    {
        self.index.get_path(uid)
    }

    /// Every note, newest update first (see [`NoteIndex::list_all_notes`]).
    pub fn list_all(&self) -> (r: Vec<NoteListItem>)
        requires
            self.wf(),
        ensures
            r@.len() == self.idx().rows().len(),
            forall|j: int| 0 <= j < r@.len() ==> crate::index::from_some_row(self.idx().rows(), #[trigger] r@[j]),
            forall|k: Seq<char>| self.idx().rows().contains_key(k) ==> #[trigger] crate::index::shows_row(r@, self.idx().rows()[k]),
            forall|i: int, j: int| 0 <= i < j < r@.len() ==> !crate::index::ts_lt((#[trigger] r@[i]).updated_at, (#[trigger] r@[j]).updated_at),
            forall|i: int, j: int| 0 <= i < j < r@.len() ==> (#[trigger] r@[i]).uid@ != (#[trigger] r@[j]).uid@,
            forall|q: int| 0 <= q < r@.len() ==> crate::index::item_matches(#[trigger] r@[q], self.idx().row_order(false)[q]),
    {
        self.index.list_all_notes()
    }

    /// One page of the listing and the number of notes.
    pub fn list_paginated(&self, offset: usize, limit: usize) -> (r: (Vec<NoteListItem>, usize))
        requires
            self.wf(),
        ensures
            r.1 == self.idx().rows().len(),
            r.0@.len() == (if offset >= r.1 { 0 } else if limit < r.1 - offset { limit as int } else { r.1 - offset }),
            forall|j: int| 0 <= j < r.0@.len() ==> crate::index::from_some_row(self.idx().rows(), #[trigger] r.0@[j]),
            forall|i: int, j: int| 0 <= i < j < r.0@.len() ==> !crate::index::ts_lt((#[trigger] r.0@[i]).updated_at, (#[trigger] r.0@[j]).updated_at),
            forall|i: int, j: int| 0 <= i < j < r.0@.len() ==> (#[trigger] r.0@[i]).uid@ != (#[trigger] r.0@[j]).uid@,
            forall|q: int| 0 <= q < r.0@.len() ==> crate::index::item_matches(#[trigger] r.0@[q], self.idx().row_order(false)[offset + q]),
    {
        self.index.list_notes(offset, limit)
    }

    /// The note whose case-folded title is the case-folded `title`.
    pub fn find_by_title(&self, title: &str) -> (r: Option<NoteListItem>)
        requires
            self.wf(),
        ensures
            match r {
                Some(it) => self.idx().titles().contains_key(crate::text::lower_of(title@))
                    && it.uid@ == self.idx().titles()[crate::text::lower_of(title@)].uid@
                    && self.idx().rows().contains_key(it.uid@)
                    && crate::index::item_matches(it, self.idx().rows()[it.uid@]),
                None => !self.idx().titles().contains_key(crate::text::lower_of(title@))
                    || !self.idx().rows().contains_key(self.idx().titles()[crate::text::lower_of(title@)].uid@),
            },
    {
        match self.index.find_by_title(title) {
            Some(uid) => self.index.get_note_by_uid(uid.as_str()),
            None => None,
        }
    }

    /// Reconciles the index with a scan of the notes directory: each file
    /// that holds a note is indexed again unless the index already has it
    /// with the same content hash under the same path, then every indexed
    /// note whose file was not in the scan is removed. Counts the notes
    /// indexed again and the notes removed (see [`sync_outcome`]); succeeds
    /// where [`sync_can_succeed`] holds, and otherwise fails only where the
    /// index refuses a path that another note holds.
    #[verifier::rlimit(100)]
    #[verifier::spinoff_prover]
    pub fn sync_index(&mut self, files: &Vec<ScannedFile>) -> (r: Result<SyncResult, RepositoryError>)
        requires
            old(self).wf(),
        ensures
            final(self).wf(),
            final(self).dir() == old(self).dir(),
            r matches Ok(res) ==> sync_outcome(old(self).idx().rows(), final(self).idx().rows(), final(self).idx().titles(), files@, res),
            sync_can_succeed(old(self).idx().rows(), files@) ==> r is Ok,
            r matches Err(e) ==> e is Storage,
    {
        let ghost old_rows = self.index.rows();
        let mut updated: usize = 0;
        let mut i: usize = 0;
        while i < files.len()
            invariant
                self.wf(),
                self.dir() == old(self).dir(),
                old_rows == old(self).idx().rows(),
                i <= files@.len(),
                updated <= i,
                forall|k: Seq<char>| #[trigger] old_rows.contains_key(k) ==> self.idx().rows().contains_key(k),
                forall|k: Seq<char>| #[trigger] self.idx().rows().contains_key(k) ==> old_rows.contains_key(k) || scanned_before(files@, i as int, k),
                forall|k: Seq<char>| #[trigger] self.idx().rows().contains_key(k) && !scanned_before(files@, i as int, k)
                    ==> self.idx().rows()[k] == old_rows[k],
                forall|q: int| #[trigger] last_before(files@, q, i as int) ==> {
                    &&& self.idx().rows().contains_key(file_uid(files@[q]))
                    &&& self.idx().rows()[file_uid(files@[q])].file_path@ == files@[q].path@
                    &&& self.idx().rows()[file_uid(files@[q])].content_hash@ == file_hash(files@[q])
                },
                distinct_uids(files@) ==> forall|q: int| 0 <= q < i && parsed(#[trigger] files@[q]) is Some && file_stale(old_rows, files@[q])
                    ==> self.idx().rows()[file_uid(files@[q])].title@ == file_title(files@[q]),
                in_sync(old_rows, files@) ==> self.idx().rows() == old_rows && updated == 0,
                distinct_paths(files@) ==> forall|q: int, k: Seq<char>| 0 <= q < i && parsed(#[trigger] files@[q]) is Some
                    && #[trigger] self.idx().rows().contains_key(k) && k != file_uid(files@[q]) ==> self.idx().rows()[k].file_path@ != files@[q].path@,
                distinct_uids(files@) && distinct_paths(files@) ==> forall|q: int| 0 <= q < i && parsed(#[trigger] files@[q]) is Some && file_stale(old_rows, files@[q]) ==> {
                    &&& self.idx().titles().contains_key(lower_of(file_title(files@[q])))
                    &&& scanned_before(files@, i as int, self.idx().titles()[lower_of(file_title(files@[q]))].uid@)
                },
                sync_can_succeed(old_rows, files@) ==> distinct_paths(files@),
            decreases files.len() - i,
        {
            let f = &files[i];
            let ghost rows0 = self.index.rows();
            let ghost titles0 = self.index.titles();
            proof {
                crate::index::lemma_index_facts(self.index);
            }
            match &f.content {
                Some(text) => {
                    match Note::from_file_content(text.as_str()) {
                        Ok(note) => {
                            let hash = compute_hash(text.as_str());
                            let uid = note.metadata.uid.as_str();
                            let moved = match self.index.get_path(uid) {
                                Some(p) => !crate::index::str_eq(p.as_str(), f.path.as_str()),
                                None => true,
                            };
                            let ghost u = note.metadata.uid@;
                            proof {
                                assert(parsed(files@[i as int]) is Some);
                                assert(file_uid(files@[i as int]) == u);
                                assert(file_title(files@[i as int]) == display_title(note.content@, u));
                                assert(file_hash(files@[i as int]) == hash@);
                                if sync_can_succeed(old_rows, files@) {
                                    assert(!crate::index::path_taken(rows0, u, f.path@)) by {
                                        if crate::index::path_taken(rows0, u, f.path@) {
                                            let k = choose|k: Seq<char>| rows0.contains_key(k) && k != u && (#[trigger] rows0[k]).file_path@ == f.path@;
                                            if scanned_before(files@, i as int, k) {
                                                let q0 = choose|q: int| 0 <= q < i && parsed(#[trigger] files@[q]) is Some && file_uid(files@[q]) == k;
                                                lemma_last_exists(files@, q0, i as int);
                                                let q = choose|q: int| 0 <= q < i && file_uid(files@[q]) == k && #[trigger] last_before(files@, q, i as int);
                                                assert(files@[q].path@ != files@[i as int].path@);
                                            } else {
                                                assert(old_rows.contains_key(k));
                                            }
                                        }
                                    }
                                }
                            }
                            let needs = moved || self.index.needs_update(uid, hash.as_str());
                            proof {
                                assert(needs == file_stale(rows0, files@[i as int]));
                            }
                            if needs {
                                match self.index_note(&note, f.path.as_str(), text.as_str()) {
                                    Ok(()) => {},
                                    Err(e) => {
                                        return Err(e);
                                    },
                                }
                                updated = updated + 1;
                            }
                            proof {
                                let ti = lower_of(file_title(files@[i as int]));
                                let cur = self.idx().rows();
                                if needs {
                                    assert(cur[u].title@ == file_title(files@[i as int]));
                                    assert(cur == rows0.insert(u, cur[u]));
                                } else {
                                    assert(cur == rows0);
                                }
                                assert(cur.contains_key(u) && cur[u].file_path@ == f.path@ && cur[u].content_hash@ == hash@);
                                crate::index::lemma_index_facts(self.index);
                                assert forall|k: Seq<char>| #[trigger] old_rows.contains_key(k) implies cur.contains_key(k) by {
                                    assert(rows0.contains_key(k));
                                }
                                assert forall|k: Seq<char>| #[trigger] cur.contains_key(k) implies old_rows.contains_key(k) || scanned_before(files@, i + 1, k) by {
                                    if k != u {
                                        assert(rows0.contains_key(k));
                                        if scanned_before(files@, i as int, k) {
                                            let q = choose|q: int| 0 <= q < i && parsed(#[trigger] files@[q]) is Some && file_uid(files@[q]) == k;
                                            assert(0 <= q < i + 1);
                                        }
                                    } else {
                                        assert(0 <= i < i + 1 && parsed(files@[i as int]) is Some && file_uid(files@[i as int]) == k);
                                    }
                                }
                                assert forall|k: Seq<char>| #[trigger] cur.contains_key(k) && !scanned_before(files@, i + 1, k) implies cur[k] == old_rows[k] by {
                                    assert(k != u);
                                    assert(!scanned_before(files@, i as int, k)) by {
                                        if scanned_before(files@, i as int, k) {
                                            let q = choose|q: int| 0 <= q < i && parsed(#[trigger] files@[q]) is Some && file_uid(files@[q]) == k;
                                            assert(0 <= q < i + 1);
                                        }
                                    }
                                }
                                assert forall|q: int| #[trigger] last_before(files@, q, i + 1) implies {
                                    &&& cur.contains_key(file_uid(files@[q]))
                                    &&& cur[file_uid(files@[q])].file_path@ == files@[q].path@
                                    &&& cur[file_uid(files@[q])].content_hash@ == file_hash(files@[q])
                                } by {
                                    if q < i {
                                        assert(file_uid(files@[q]) != u);
                                        assert(last_before(files@, q, i as int));
                                    }
                                }
                                if distinct_uids(files@) {
                                    assert forall|q: int| 0 <= q < i + 1 && parsed(#[trigger] files@[q]) is Some && file_stale(old_rows, files@[q])
                                        implies cur[file_uid(files@[q])].title@ == file_title(files@[q]) by {
                                        if q < i {
                                            assert(file_uid(files@[q]) != u);
                                        } else {
                                            assert(!scanned_before(files@, i as int, u)) by {
                                                if scanned_before(files@, i as int, u) {
                                                    let p = choose|p: int| 0 <= p < i && parsed(#[trigger] files@[p]) is Some && file_uid(files@[p]) == u;
                                                    assert(file_uid(files@[p]) != file_uid(files@[i as int]));
                                                }
                                            }
                                            if rows0.contains_key(u) {
                                                assert(rows0[u] == old_rows[u]);
                                            } else {
                                                assert(!old_rows.contains_key(u));
                                            }
                                            assert(file_stale(rows0, files@[i as int]));
                                            assert(needs);
                                        }
                                    }
                                }
                                if in_sync(old_rows, files@) {
                                    assert(cur == old_rows);
                                }
                                if distinct_paths(files@) {
                                    assert forall|q: int, k: Seq<char>| 0 <= q < i + 1 && parsed(#[trigger] files@[q]) is Some
                                        && #[trigger] cur.contains_key(k) && k != file_uid(files@[q]) implies cur[k].file_path@ != files@[q].path@ by {
                                        if q < i {
                                            if k == u {
                                                assert(files@[q].path@ != files@[i as int].path@);
                                            } else {
                                                assert(rows0.contains_key(k));
                                            }
                                        } else {
                                            assert(cur[u].file_path@ == f.path@);
                                        }
                                    }
                                }
                                if distinct_uids(files@) && distinct_paths(files@) {
                                    assert forall|q: int| 0 <= q < i + 1 && parsed(#[trigger] files@[q]) is Some && file_stale(old_rows, files@[q]) implies {
                                        &&& self.idx().titles().contains_key(lower_of(file_title(files@[q])))
                                        &&& scanned_before(files@, i + 1, self.idx().titles()[lower_of(file_title(files@[q]))].uid@)
                                    } by {
                                        if q < i {
                                            let tq = lower_of(file_title(files@[q]));
                                            let v = titles0[tq].uid@;
                                            let w = choose|w: int| 0 <= w < i && parsed(#[trigger] files@[w]) is Some && file_uid(files@[w]) == v;
                                            if self.idx().titles() == titles0 {
                                                assert(0 <= w < i + 1);
                                            } else {
                                                if tq == ti {
                                                    assert(0 <= i < i + 1 && parsed(files@[i as int]) is Some && file_uid(files@[i as int]) == u);
                                                } else {
                                                    assert(v != u) by {
                                                        assert(file_uid(files@[w]) != file_uid(files@[i as int]));
                                                    }
                                                    assert(0 <= w < i + 1);
                                                }
                                            }
                                        } else {
                                            assert(!scanned_before(files@, i as int, u)) by {
                                                if scanned_before(files@, i as int, u) {
                                                    let p = choose|p: int| 0 <= p < i && parsed(#[trigger] files@[p]) is Some && file_uid(files@[p]) == u;
                                                    assert(file_uid(files@[p]) != file_uid(files@[i as int]));
                                                }
                                            }
                                            if rows0.contains_key(u) {
                                                assert(rows0[u] == old_rows[u]);
                                            }
                                            assert(0 <= i < i + 1 && parsed(files@[i as int]) is Some && file_uid(files@[i as int]) == u);
                                        }
                                    }
                                }
                            }
                        },
                        Err(_) => {
                            proof {
                                assert(parsed(files@[i as int]) is None);
                                lemma_unparsed_step(files@, i as int);
                            }
                        },
                    }
                },
                None => {
                    proof {
                        assert(parsed(files@[i as int]) is None);
                        lemma_unparsed_step(files@, i as int);
                    }
                },
            }
            i = i + 1;
        }
        let paths = scan_paths(files);
        let ghost mid = self.index.rows();
        let ghost mid_titles = self.index.titles();
        let removed = self.index.remove_orphans(&paths);
        proof {
            let fin = self.idx().rows();
            let o = orphan_keys(mid, scanned_paths(files@));
            crate::index::lemma_index_facts(self.index);
            assert forall|k: Seq<char>| #[trigger] mid.contains_key(k) && scanned_uid(files@, k) implies scanned_paths(files@).contains(mid[k].file_path@) by {
                let q0 = choose|q: int| 0 <= q < files@.len() && parsed(#[trigger] files@[q]) is Some && file_uid(files@[q]) == k;
                lemma_last_exists(files@, q0, files@.len() as int);
                let q = choose|q: int| 0 <= q < files@.len() && file_uid(files@[q]) == k && #[trigger] last_before(files@, q, files@.len() as int);
                assert(scanned_paths(files@)[q] == files@[q].path@);
            }
            assert(o =~= vanished(old_rows, files@));
            assert forall|k: Seq<char>| #[trigger] fin.contains_key(k) implies scanned_paths(files@).contains(fin[k].file_path@) by {
                assert(mid.contains_key(k) && !o.contains(k));
            }
            assert forall|i: int| #[trigger] last_before(files@, i, files@.len() as int) implies fin.contains_key(file_uid(files@[i])) by {
                assert(scanned_paths(files@)[i] == files@[i].path@);
                assert(!o.contains(file_uid(files@[i])));
            }
            if in_sync(old_rows, files@) && covered(old_rows, files@) {
                assert(o =~= Set::<Seq<char>>::empty());
                assert(fin =~= mid);
            }
            if distinct_uids(files@) {
                assert forall|q: int| 0 <= q < files@.len() && parsed(#[trigger] files@[q]) is Some && file_stale(old_rows, files@[q])
                    implies fin[file_uid(files@[q])].title@ == file_title(files@[q]) by {
                    assert(last_before(files@, q, files@.len() as int));
                    assert(scanned_paths(files@)[q] == files@[q].path@);
                    assert(!o.contains(file_uid(files@[q])));
                }
            }
            if distinct_uids(files@) && distinct_paths(files@) {
                assert forall|q: int| 0 <= q < files@.len() && parsed(#[trigger] files@[q]) is Some && file_stale(old_rows, files@[q]) implies
                    self.idx().titles().contains_key(lower_of(file_title(files@[q]))) by {
                    let tq = lower_of(file_title(files@[q]));
                    let v = mid_titles[tq].uid@;
                    assert(mid.contains_key(v));
                    assert(scanned_uid(files@, v));
                    assert(!o.contains(v));
                }
            }
        }
        Ok(SyncResult { added: 0, updated, removed })
    }

    /// Builds the index from the files at startup, only where it is empty.
    /// Returns what the pass did, or `None` where none was needed.
    pub fn initialize(&mut self, files: &Vec<ScannedFile>) -> (r: Result<Option<SyncResult>, RepositoryError>)
        requires
            old(self).wf(),
        ensures
            final(self).wf(),
            old(self).idx().rows().len() != 0 ==> r == Ok::<Option<SyncResult>, RepositoryError>(None) && final(self).idx().rows() == old(self).idx().rows(),
            old(self).idx().rows().len() == 0 && sync_can_succeed(old(self).idx().rows(), files@) ==> r is Ok,
            old(self).idx().rows().len() == 0 ==> r is Ok ==> r->Ok_0 is Some,
            r matches Ok(Some(res)) ==> sync_outcome(old(self).idx().rows(), final(self).idx().rows(), final(self).idx().titles(), files@, res),
            r matches Err(e) ==> e is Storage,
    {
        if self.index.needs_rebuild() {
            let res = self.sync_index(files)?;
            Ok(Some(res))
        } else {
            Ok(None)
        }
    }

    /// The gallery listing (see [`NoteIndex::list_gallery_notes`]).
    pub fn list_gallery(&self, sort_by_created: bool, tag_filter: Option<&str>) -> (r: Vec<GalleryNote>)
        requires
            self.wf(),
        ensures
            forall|j: int| 0 <= j < r@.len() ==> crate::index::gallery_from_row(self.idx().rows(), crate::index::opt_seq(tag_filter), #[trigger] r@[j]),
            forall|k: Seq<char>| self.idx().rows().contains_key(k) && crate::index::passes(self.idx().rows()[k], crate::index::opt_seq(tag_filter))
                ==> #[trigger] crate::index::gallery_shows(r@, self.idx().rows()[k]),
            forall|i: int, j: int| 0 <= i < j < r@.len() ==> (#[trigger] r@[i]).uid@ != (#[trigger] r@[j]).uid@,
    {
        self.index.list_gallery_notes(sort_by_created, tag_filter)
    }
}

} // verus!
