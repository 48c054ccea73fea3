//! The file-system-only repository: no index, only an in-memory map from
//! note id to file and a cached listing. Writes update both caches; a miss
//! is answered from a scan of the directory, which fills the caches again.
//! Entries are never invalidated on their own, so files changed by other
//! tools show up at the next scan.
use vstd::prelude::*;
use crate::filename::HeadingFilenameStrategy;
use crate::index::{str_eq, ts_lt, NoteListItem};
use crate::keyed::{keyed, lemma_keyed_domain, lemma_keyed_push, lemma_keyed_remove, lemma_keyed_update, lemma_keyed_value, unique_keys};
use crate::note::Note;
use crate::repository::{display_title, file_uid, parsed, ScannedFile};
use crate::text::{append_all, chars_of, string_of};

verus! {

/// An entry of the path cache.
pub struct PathEntry {
    pub uid: String,
    pub path: String,
}

pub open spec fn path_key() -> spec_fn(PathEntry) -> Seq<char> {
    |e: PathEntry| e.uid@
}

/// The listing entry of a note kept at `path`.
pub open spec fn entry_for(it: NoteListItem, uid: Seq<char>, body: Seq<char>, path: Seq<char>, updated: crate::timestamp::Timestamp) -> bool {
    &&& it.uid@ == uid
    &&& it.title@ == display_title(body, uid)
    &&& it.path@ == path
    &&& it.updated_at == updated
}

/// Listing entries newest first.
pub open spec fn items_newest_first(v: Seq<NoteListItem>) -> bool {
    forall|i: int, j: int| 0 <= i < j < v.len() ==> !ts_lt((#[trigger] v[i]).updated_at, (#[trigger] v[j]).updated_at)
}

/// The repository's caches and its directory.
pub struct FileNoteRepository {
    base_dir: String,
    path_cache: Vec<PathEntry>,
    list_cache: Vec<NoteListItem>,
    list_cache_dirty: bool,
}

impl FileNoteRepository {
    /// The path cache: note id to file.
    pub closed spec fn paths(&self) -> Map<Seq<char>, PathEntry> {
        keyed(self.path_cache@, path_key())
    }

    /// The cached listing.
    pub closed spec fn listing(&self) -> Seq<NoteListItem> {
        self.list_cache@
    }

    /// The cached listing must be built again before it is used.
    pub closed spec fn dirty(&self) -> bool {
        self.list_cache_dirty
    }

    pub closed spec fn wf(&self) -> bool {
        &&& unique_keys(self.path_cache@, path_key())
        &&& items_newest_first(self.list_cache@)
    }

    /// A repository over `base_dir` with empty caches, the listing to be
    /// built at first use.
    pub fn new(base_dir: String) -> (r: FileNoteRepository)
        ensures
            r.wf(),
            r.paths().len() == 0,
            r.dirty(),
            r.dir() == base_dir@,
    {
        FileNoteRepository { base_dir, path_cache: Vec::new(), list_cache: Vec::new(), list_cache_dirty: true }
    }

    /// The notes directory.
    pub closed spec fn dir(&self) -> Seq<char> {
        self.base_dir@
    }

    pub fn base_dir(&self) -> (r: &str)
        ensures
            r@ == self.dir(),
    {
        self.base_dir.as_str()
    }

    fn path_pos(&self, uid: &str) -> (r: Option<usize>)
        requires
            self.wf(),
        ensures
            match r {
                Some(i) => i < self.path_cache@.len() && self.path_cache@[i as int].uid@ == uid@ && self.paths().contains_key(uid@) && self.paths()[uid@] == self.path_cache@[i as int],
                None => !self.paths().contains_key(uid@),
            },
    {
        let mut i: usize = 0;
        while i < self.path_cache.len()
            invariant
                self.wf(),
                i <= self.path_cache@.len(),
                forall|j: int| 0 <= j < i ==> (#[trigger] self.path_cache@[j]).uid@ != uid@,
            decreases self.path_cache.len() - i,
        {
            if str_eq(self.path_cache[i].uid.as_str(), uid) {
                proof {
                    lemma_keyed_value(self.path_cache@, path_key(), i as int);
                }
                return Some(i);
            }
            i = i + 1;
        }
        proof {
            lemma_keyed_domain(self.path_cache@, path_key(), uid@);
        }
        None
    }

    /// The cached file of note `uid`.
    pub fn get_path(&self, uid: &str) -> (r: Option<String>)
        requires
            self.wf(),
        ensures
            match r {
                Some(p) => self.paths().contains_key(uid@) && p@ == self.paths()[uid@].path@,
                None => !self.paths().contains_key(uid@),
            },
    {
        match self.path_pos(uid) {
            Some(i) => Some(self.path_cache[i].path.clone()),
            None => None,
        }
    }

    /// Records that note `uid` is kept in `path`.
    fn remember(&mut self, uid: &str, path: &str)
        requires
            old(self).wf(),
        ensures
            final(self).wf(),
            final(self).paths().contains_key(uid@),
            final(self).paths() == old(self).paths().insert(uid@, final(self).paths()[uid@]),
            final(self).paths()[uid@].path@ == path@,
            final(self).listing() == old(self).listing(),
            final(self).dirty() == old(self).dirty(),
    {
        let e = PathEntry { uid: String::from_str(uid), path: String::from_str(path) };
        let ghost ev = e;
        let ghost p0 = self.path_cache@;
        match self.path_pos(uid) {
            Some(i) => {
                self.path_cache.set(i, e);
                proof {
                    lemma_keyed_update(p0, path_key(), i as int, ev);
                    lemma_keyed_value(self.path_cache@, path_key(), i as int);
                }
            },
            None => {
                self.path_cache.push(e);
                proof {
                    lemma_keyed_push(p0, path_key(), ev);
                    lemma_keyed_value(self.path_cache@, path_key(), p0.len() as int);
                }
            },
        }
    }

    /// Forgets where note `uid` is kept.
    fn forget_path(&mut self, uid: &str)
        requires
            old(self).wf(),
        ensures
            final(self).wf(),
            final(self).paths() == old(self).paths().remove(uid@),
            final(self).listing() == old(self).listing(),
            final(self).dirty() == old(self).dirty(),
    {
        match self.path_pos(uid) {
            Some(i) => {
                let ghost p0 = self.path_cache@;
                self.path_cache.remove(i);
                proof {
                    lemma_keyed_remove(p0, path_key(), i as int);
                }
            },
            None => {
                proof {
                    assert(self.paths() =~= old(self).paths().remove(uid@));
                }
            },
        }
    }

    /// Fills the path cache from a scan of the directory (the last file
    /// read for an id wins) and marks the listing for rebuilding.
    pub fn rebuild_cache(&mut self, files: &Vec<ScannedFile>)
        requires
            old(self).wf(),
        ensures
            final(self).wf(),
            final(self).dirty(),
            forall|k: Seq<char>| final(self).paths().contains_key(k) <==> exists|i: int| 0 <= i < files@.len() && parsed(#[trigger] files@[i]) is Some && file_uid(files@[i]) == k,
    {
        self.path_cache = Vec::new();
        let mut i: usize = 0;
        while i < files.len()
            invariant
                self.wf(),
                i <= files@.len(),
                forall|k: Seq<char>| self.paths().contains_key(k) <==> exists|q: int| 0 <= q < i && parsed(#[trigger] files@[q]) is Some && file_uid(files@[q]) == k,
            decreases files.len() - i,
        {
            let ghost m0 = self.paths();
            match &files[i].content {
                Some(text) => match Note::from_file_content(text.as_str()) {
                    Ok(note) => {
                        self.remember(note.metadata.uid.as_str(), files[i].path.as_str());
                        proof {
                            assert(parsed(files@[i as int]) is Some);
                            assert forall|k: Seq<char>| self.paths().contains_key(k) <==> exists|q: int| 0 <= q < i + 1 && parsed(#[trigger] files@[q]) is Some && file_uid(files@[q]) == k by {
                                if k != note.metadata.uid@ && self.paths().contains_key(k) {
                                    assert(m0.contains_key(k));
                                }
                            }
                        }
                    },
                    Err(_) => {},
                },
                None => {},
            }
            i = i + 1;
        }
        let ghost before = self.paths();
        self.list_cache_dirty = true;
        proof {
            assert(self.paths() == before);
        }
    }

    /// Whether the cached listing must be built again before it is used.
    pub fn list_cache_dirty(&self) -> (r: bool)
        ensures
            r == self.dirty(),
    {
        self.list_cache_dirty
    }

    /// The cached listing, where it is up to date and not empty.
    pub fn cached_list(&self) -> (r: Option<Vec<NoteListItem>>)
        ensures
            match r {
                Some(v) => !self.dirty() && self.listing().len() > 0 && v@.len() == self.listing().len()
                    && forall|j: int| 0 <= j < v@.len() ==> item_matches_item(#[trigger] v@[j], self.listing()[j]),
                None => self.dirty() || self.listing().len() == 0,
            },
    {
        if self.list_cache_dirty || self.list_cache.len() == 0 {
            return None;
        }
        let mut out: Vec<NoteListItem> = Vec::new();
        let mut i: usize = 0;
        while i < self.list_cache.len()
            invariant
                i <= self.list_cache@.len(),
                out@.len() == i,
                forall|j: int| 0 <= j < i ==> item_matches_item(#[trigger] out@[j], self.list_cache@[j]),
            decreases self.list_cache.len() - i,
        {
            out.push(copy_item(&self.list_cache[i]));
            i = i + 1;
        }
        Some(out)
    }
}

pub open spec fn file_body(f: ScannedFile) -> Seq<char> {
    (parsed(f)->0).1
}

pub open spec fn file_updated(f: ScannedFile) -> crate::timestamp::Timestamp {
    (parsed(f)->0).0.updated_at
}

/// The entry shows readable file `i` of the scan.
pub open spec fn shows_file(it: NoteListItem, files: Seq<ScannedFile>, i: int) -> bool {
    &&& 0 <= i < files.len()
    &&& parsed(files[i]) is Some
    &&& entry_for(it, file_uid(files[i]), file_body(files[i]), files[i].path@, file_updated(files[i]))
}

/// Some entry shows readable file `i`.
pub open spec fn file_listed(v: Seq<NoteListItem>, files: Seq<ScannedFile>, i: int) -> bool {
    exists|j: int| 0 <= j < v.len() && shows_file(#[trigger] v[j], files, i)
}

/// The entry shows some readable file.
pub open spec fn from_some_file(it: NoteListItem, files: Seq<ScannedFile>) -> bool {
    exists|i: int| #[trigger] shows_file(it, files, i)
}

fn entry_of(note: &Note, path: &str) -> (r: NoteListItem)
    ensures
        entry_for(r, note.metadata.uid@, note.content@, path@, note.metadata.updated_at),
{
    let title = match note.extract_heading() {
        Some(h) => h,
        None => note.metadata.uid.clone(),
    };
    NoteListItem { uid: note.metadata.uid.clone(), title, path: String::from_str(path), updated_at: note.metadata.updated_at }
}

fn copy_items(v: &Vec<NoteListItem>) -> (r: Vec<NoteListItem>)
    ensures
        r@.len() == v@.len(),
        forall|j: int| 0 <= j < v@.len() ==> item_matches_item(#[trigger] r@[j], v@[j]),
{
    let mut out: Vec<NoteListItem> = Vec::new();
    let mut i: usize = 0;
    while i < v.len()
        invariant
            i <= v@.len(),
            out@.len() == i,
            forall|j: int| 0 <= j < i ==> item_matches_item(#[trigger] out@[j], v@[j]),
        decreases v.len() - i,
    {
        out.push(copy_item(&v[i]));
        i = i + 1;
    }
    out
}

impl FileNoteRepository {
    /// Lists the notes of a scan of the directory, newest update first (title
    /// from the first heading, else the id), remembers where each is kept,
    /// and keeps the listing as the up-to-date cache.
    pub fn list_from_scan(&mut self, files: &Vec<ScannedFile>) -> (r: Vec<NoteListItem>)
        requires
            old(self).wf(),
        ensures
            final(self).wf(),
            !final(self).dirty(),
            items_newest_first(r@),
            forall|j: int| 0 <= j < r@.len() ==> from_some_file(#[trigger] r@[j], files@),
            forall|i: int| 0 <= i < files@.len() && parsed(#[trigger] files@[i]) is Some ==> file_listed(r@, files@, i),
            final(self).listing().len() == r@.len(),
            forall|j: int| 0 <= j < r@.len() ==> item_matches_item(#[trigger] final(self).listing()[j], r@[j]),
    {
        let mut items: Vec<NoteListItem> = Vec::new();
        let mut i: usize = 0;
        while i < files.len()
            invariant
                self.wf(),
                i <= files@.len(),
                items_newest_first(items@),
                forall|j: int| 0 <= j < items@.len() ==> from_some_file(#[trigger] items@[j], files@),
                forall|q: int| 0 <= q < i && parsed(#[trigger] files@[q]) is Some ==> file_listed(items@, files@, q),
            decreases files.len() - i,
        {
            match &files[i].content {
                Some(text) => match Note::from_file_content(text.as_str()) {
                    Ok(note) => {
                        let it = entry_of(&note, files[i].path.as_str());
                        self.remember(note.metadata.uid.as_str(), files[i].path.as_str());
                        let ghost v0 = items@;
                        let ghost itv = it;
                        proof {
                            assert(parsed(files@[i as int]) is Some);
                            assert(shows_file(itv, files@, i as int));
                        }
                        insert_newest_first(&mut items, it);
                        proof {
                            let p = choose|p: int| 0 <= p <= v0.len() && items@ == v0.insert(p, itv);
                            assert(items@[p] == itv);
                            assert forall|j: int| 0 <= j < items@.len() implies from_some_file(#[trigger] items@[j], files@) by {
                                if j < p {
                                    assert(items@[j] == v0[j]);
                                } else if j == p {
                                    assert(shows_file(items@[j], files@, i as int));
                                } else {
                                    assert(items@[j] == v0[j - 1]);
                                }
                            }
                            assert forall|q: int| 0 <= q < i + 1 && parsed(#[trigger] files@[q]) is Some implies file_listed(items@, files@, q) by {
                                if q < i {
                                    let j = choose|j: int| 0 <= j < v0.len() && shows_file(#[trigger] v0[j], files@, q);
                                    if j < p {
                                        assert(items@[j] == v0[j]);
                                    } else {
                                        assert(items@[j + 1] == v0[j]);
                                    }
                                } else {
                                    assert(shows_file(items@[p], files@, q));
                                }
                            }
                        }
                    },
                    Err(_) => {
                        proof {
                            assert(parsed(files@[i as int]) is None);
                        }
                    },
                },
                None => {},
            }
            i = i + 1;
        }
        let cache = copy_items(&items);
        proof {
            assert forall|a: int, b: int| 0 <= a < b < cache@.len() implies !ts_lt((#[trigger] cache@[a]).updated_at, (#[trigger] cache@[b]).updated_at) by {
                assert(item_matches_item(cache@[a], items@[a]));
                assert(item_matches_item(cache@[b], items@[b]));
            }
        }
        self.list_cache = cache;
        self.list_cache_dirty = false;
        items
    }

    /// The file `note` goes to: the cached path, or else `<dir>/<name>.md`
    /// with a name from its heading that is not the stem of any of
    /// `existing_files`.
    pub fn resolve_path(&self, note: &Note, existing_files: &Vec<String>) -> (r: String)
        requires
            self.wf(),
        ensures
            self.paths().contains_key(note.metadata.uid@) ==> r@ == self.paths()[note.metadata.uid@].path@,
    {
        match self.get_path(note.metadata.uid.as_str()) {
            Some(p) => p,
            None => {
                let strategy = HeadingFilenameStrategy::new();
                let name = strategy.generate(note, existing_files);
                let mut out = chars_of(self.base_dir.as_str());
                out.push('/');
                let n = chars_of(name.as_str());
                append_all(&mut out, &n);
                out.push('.');
                out.push('m');
                out.push('d');
                string_of(out.as_slice())
            },
        }
    }

    /// Records a note just written to `path`: the path cache points at it,
    /// and an up-to-date listing shows it in place of its former entry.
    pub fn record_save(&mut self, note: &Note, path: &str)
        requires
            old(self).wf(),
        ensures
            final(self).wf(),
            final(self).paths().contains_key(note.metadata.uid@),
            final(self).paths()[note.metadata.uid@].path@ == path@,
            final(self).dirty() == old(self).dirty(),
            !final(self).dirty() ==> exists|j: int| 0 <= j < final(self).listing().len() && entry_for(#[trigger] final(self).listing()[j], note.metadata.uid@, note.content@, path@, note.metadata.updated_at),
            !final(self).dirty() ==> forall|j: int| 0 <= j < old(self).listing().len() && (#[trigger] old(self).listing()[j]).uid@ != note.metadata.uid@
                ==> final(self).listing().contains(old(self).listing()[j]),
    {
        self.remember(note.metadata.uid.as_str(), path);
        if !self.list_cache_dirty {
            let ghost l0 = self.list_cache@;
            self.drop_listed(note.metadata.uid.as_str());
            let ghost l1 = self.list_cache@;
            let it = entry_of(note, path);
            let ghost itv = it;
            insert_newest_first(&mut self.list_cache, it);
            proof {
                let p = choose|p: int| 0 <= p <= l1.len() && self.list_cache@ == l1.insert(p, itv);
                assert(self.list_cache@[p] == itv);
                assert(entry_for(self.listing()[p], note.metadata.uid@, note.content@, path@, note.metadata.updated_at));
                assert forall|j: int| 0 <= j < l0.len() && (#[trigger] l0[j]).uid@ != note.metadata.uid@ implies self.list_cache@.contains(l0[j]) by {
                    assert(l1.contains(l0[j]));
                    let q = choose|q: int| 0 <= q < l1.len() && l1[q] == l0[j];
                    if q < p {
                        assert(self.list_cache@[q] == l1[q]);
                    } else {
                        assert(self.list_cache@[q + 1] == l1[q]);
                    }
                }
            }
        }
    }

    /// The cached file of note `uid`, or `NotFound`.
    pub fn load_path(&self, uid: &str) -> (r: Result<String, crate::repository::RepositoryError>)
        requires
            self.wf(),
        ensures
            match r {
                Ok(p) => self.paths().contains_key(uid@) && p@ == self.paths()[uid@].path@,
                Err(e) => !self.paths().contains_key(uid@) && e is NotFound,
            },
    {
        match self.get_path(uid) {
            Some(p) => Ok(p),
            None => Err(crate::repository::RepositoryError::not_found(uid)),
        }
    }

    /// After a cache miss: reads the scan in order, remembering where each
    /// readable note is kept, until the note `uid` turns up; returns its
    /// file.
    pub fn discover(&mut self, files: &Vec<ScannedFile>, uid: &str) -> (r: Option<String>)
        requires
            old(self).wf(),
        ensures
            final(self).wf(),
            final(self).dirty() == old(self).dirty(),
            final(self).listing() == old(self).listing(),
            match r {
                Some(p) => exists|i: int| 0 <= i < files@.len() && parsed(#[trigger] files@[i]) is Some && file_uid(files@[i]) == uid@ && files@[i].path@ == p@,
                None => forall|i: int| 0 <= i < files@.len() && parsed(#[trigger] files@[i]) is Some ==> file_uid(files@[i]) != uid@,
            },
            r matches Some(p) ==> final(self).paths().contains_key(uid@) && final(self).paths()[uid@].path@ == p@,
    {
        let mut i: usize = 0;
        while i < files.len()
            invariant
                self.wf(),
                self.dirty() == old(self).dirty(),
                self.listing() == old(self).listing(),
                i <= files@.len(),
                forall|q: int| 0 <= q < i && parsed(#[trigger] files@[q]) is Some ==> file_uid(files@[q]) != uid@,
            decreases files.len() - i,
        {
            match &files[i].content {
                Some(text) => match Note::from_file_content(text.as_str()) {
                    Ok(note) => {
                        self.remember(note.metadata.uid.as_str(), files[i].path.as_str());
                        proof {
                            assert(parsed(files@[i as int]) is Some);
                        }
                        if str_eq(note.metadata.uid.as_str(), uid) {
                            return Some(files[i].path.clone());
                        }
                    },
                    Err(_) => {},
                },
                None => {},
            }
            i = i + 1;
        }
        None
    }

    /// Records that the file of note `uid` was deleted: the path cache and
    /// an up-to-date listing no longer hold it.
    pub fn record_delete(&mut self, uid: &str)
        requires
            old(self).wf(),
        ensures
            final(self).wf(),
            final(self).paths() == old(self).paths().remove(uid@),
            final(self).dirty() == old(self).dirty(),
            !final(self).dirty() ==> forall|j: int| 0 <= j < final(self).listing().len() ==> (#[trigger] final(self).listing()[j]).uid@ != uid@,
    {
        self.forget_path(uid);
        if !self.list_cache_dirty {
            self.drop_listed(uid);
        }
    }

    /// Removes the listing entries of note `uid`, keeping the order.
    fn drop_listed(&mut self, uid: &str)
        requires
            old(self).wf(),
        ensures
            final(self).wf(),
            final(self).paths() == old(self).paths(),
            final(self).dirty() == old(self).dirty(),
            forall|j: int| 0 <= j < final(self).listing().len() ==> (#[trigger] final(self).listing()[j]).uid@ != uid@,
            forall|j: int| 0 <= j < old(self).listing().len() && (#[trigger] old(self).listing()[j]).uid@ != uid@ ==> final(self).listing().contains(old(self).listing()[j]),
    {
        let mut out: Vec<NoteListItem> = Vec::new();
        let ghost mut idx: Seq<int> = Seq::empty();
        let mut i: usize = 0;
        let ghost l0 = self.list_cache@;
        while i < self.list_cache.len()
            invariant
                self.wf(),
                self.list_cache@ == l0,
                l0 == old(self).listing(),
                i <= l0.len(),
                idx.len() == out@.len(),
                forall|a: int| 0 <= a < idx.len() ==> 0 <= #[trigger] idx[a] < i && out@[a] == l0[idx[a]],
                forall|a: int, b: int| 0 <= a < b < idx.len() ==> #[trigger] idx[a] < #[trigger] idx[b],
                forall|j: int| 0 <= j < i && (#[trigger] l0[j]).uid@ != uid@ ==> exists|a: int| 0 <= a < idx.len() && idx[a] == j,
                forall|a: int| 0 <= a < out@.len() ==> (#[trigger] out@[a]).uid@ != uid@,
            decreases l0.len() - i,
        {
            if !str_eq(self.list_cache[i].uid.as_str(), uid) {
                let ghost i0 = idx;
                out.push(copy_item(&self.list_cache[i]));
                proof {
                    idx = i0.push(i as int);
                    assert forall|j: int| 0 <= j < i + 1 && (#[trigger] l0[j]).uid@ != uid@ implies exists|a: int| 0 <= a < idx.len() && idx[a] == j by {
                        if j < i {
                            let a = choose|a: int| 0 <= a < i0.len() && i0[a] == j;
                            assert(idx[a] == j);
                        } else {
                            assert(idx[i0.len() as int] == j);
                        }
                    }
                }
            }
            i = i + 1;
        }
        proof {
            assert forall|a: int, b: int| 0 <= a < b < out@.len() implies !ts_lt((#[trigger] out@[a]).updated_at, (#[trigger] out@[b]).updated_at) by {
                assert(idx[a] < idx[b]);
            }
            assert forall|j: int| 0 <= j < l0.len() && (#[trigger] l0[j]).uid@ != uid@ implies out@.contains(l0[j]) by {
                let a = choose|a: int| 0 <= a < idx.len() && idx[a] == j;
                assert(out@[a] == l0[j]);
            }
        }
        self.list_cache = out;
    }
}

/// Two listing entries show the same note the same way.
pub open spec fn item_matches_item(a: NoteListItem, b: NoteListItem) -> bool {
    &&& a.uid@ == b.uid@
    &&& a.title@ == b.title@
    &&& a.path@ == b.path@
    &&& a.updated_at == b.updated_at
}

fn copy_item(it: &NoteListItem) -> (r: NoteListItem)
    ensures
        r == *it,
        item_matches_item(r, *it),
{
    NoteListItem { uid: it.uid.clone(), title: it.title.clone(), path: it.path.clone(), updated_at: it.updated_at }
}

/// Inserts `it` into a listing kept newest first, after the entries that are
/// not older than it.
fn insert_newest_first(v: &mut Vec<NoteListItem>, it: NoteListItem)
    requires
        items_newest_first(old(v)@),
    ensures
        items_newest_first(final(v)@),
        exists|p: int| 0 <= p <= old(v)@.len() && final(v)@ == old(v)@.insert(p, it),
{
    let mut p: usize = 0;
    while p < v.len() && !ts_less_item(&v[p], &it)
        invariant
            p <= v@.len(),
            forall|q: int| 0 <= q < p ==> !ts_lt((#[trigger] v@[q]).updated_at, it.updated_at),
        decreases v.len() - p,
    {
        p = p + 1;
    }
    let ghost v0 = v@;
    let ghost itv = it;
    v.insert(p, it);
    proof {
        assert(v@ == v0.insert(p as int, itv));
        assert forall|a: int, b: int| 0 <= a < b < v@.len() implies !ts_lt((#[trigger] v@[a]).updated_at, (#[trigger] v@[b]).updated_at) by {
            if b == p {
                assert(v@[a] == v0[a]);
            } else if a == p {
                assert(v@[b] == v0[b - 1]);
                if p < v0.len() {
                    assert(ts_lt(v0[p as int].updated_at, itv.updated_at));
                    if b - 1 > p {
                        assert(!ts_lt(v0[p as int].updated_at, v0[b - 1].updated_at));
                    }
                }
            } else {
                let a2 = if a < p { a } else { a - 1 };
                let b2 = if b < p { b } else { b - 1 };
                assert(v@[a] == v0[a2]);
                assert(v@[b] == v0[b2]);
            }
        }
    }
}

fn ts_less_item(a: &NoteListItem, b: &NoteListItem) -> (r: bool)
    ensures
        r == ts_lt(a.updated_at, b.updated_at),
{
    let x = a.updated_at;
    let y = b.updated_at;
    if x.year != y.year {
        x.year < y.year
    } else if x.month != y.month {
        x.month < y.month
    } else if x.day != y.day {
        x.day < y.day
    } else if x.hour != y.hour {
        x.hour < y.hour
    } else if x.minute != y.minute {
        x.minute < y.minute
    } else {
        x.second < y.second
    }
}

} // verus!
