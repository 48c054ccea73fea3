//! The secondary index: a rebuildable projection of the note files holding,
//! per note, its metadata row (with a content hash, a preview and its tags),
//! a case-folded title lookup and the backlink edges of its body.
use vstd::prelude::*;
use crate::keyed::{keep, keyed, lemma_keyed_domain, lemma_keyed_keep, lemma_keyed_push, lemma_keyed_remove, lemma_keyed_update, lemma_keyed_value, restrict, unique_keys};
use crate::note::{copy_strings, strs};
use crate::text::{lower_of, lowercase};
use crate::timestamp::{Timestamp, now};
use crate::wiki::{extract_wiki_links, links_view, wiki_links, LinkModel};

verus! {

/// What the index stores of a note when it is indexed.
pub struct IndexedNote {
    pub uid: String,
    pub title: String,
    pub content: String,
    pub file_path: String,
    pub content_hash: String,
    pub created_at: Timestamp,
    pub updated_at: Timestamp,
}

/// A note as the gallery lists it: preview and tags already at hand.
pub struct GalleryNote {
    pub uid: String,
    pub title: String,
    pub preview: String,
    pub tags: Vec<String>,
    pub created_at: Timestamp,
    pub updated_at: Timestamp,
}

/// A note as a listing shows it.
pub struct NoteListItem {
    pub uid: String,
    pub title: String,
    pub path: String,
    pub updated_at: Timestamp,
}

/// A note that links to another.
pub struct IndexedBacklink {
    pub source_uid: String,
    pub source_title: String,
}

/// A row of the notes table.
pub struct IndexRow {
    pub uid: String,
    pub title: String,
    pub file_path: String,
    pub content_hash: String,
    pub created_at: Timestamp,
    pub updated_at: Timestamp,
    pub indexed_at: Timestamp,
    pub preview: String,
    pub tags: Vec<String>,
}

/// An entry of the title lookup.
pub struct TitleEntry {
    pub title_normalized: String,
    pub uid: String,
}

/// A link from a note to a (case-folded) title.
pub struct BacklinkEdge {
    pub source_uid: String,
    pub target_title: String,
    pub position: usize,
}

/// The mathematical value of an edge.
pub struct EdgeModel {
    pub source: Seq<char>,
    pub target: Seq<char>,
    pub position: int,
}

impl View for BacklinkEdge {
    type V = EdgeModel;

    open spec fn view(&self) -> EdgeModel {
        EdgeModel { source: self.source_uid@, target: self.target_title@, position: self.position as int }
    }
}

/// Why the index refused an operation.
#[derive(Debug, PartialEq, Eq, Structural)]
pub enum IndexError {
    /// Another note is already indexed under the same file path.
    DataInconsistency,
}

pub open spec fn row_key() -> spec_fn(IndexRow) -> Seq<char> {
    |r: IndexRow| r.uid@
}

pub open spec fn title_key() -> spec_fn(TitleEntry) -> Seq<char> {
    |e: TitleEntry| e.title_normalized@
}

pub open spec fn edges_view(v: Seq<BacklinkEdge>) -> Seq<EdgeModel> {
    v.map_values(|e: BacklinkEdge| e@)
}

/// The edges a body gives its note: one per wiki link, to the case-folded
/// link title.
pub open spec fn note_edges(uid: Seq<char>, content: Seq<char>) -> Seq<EdgeModel> {
    wiki_links(content).map_values(|l: LinkModel| EdgeModel { source: uid, target: lower_of(l.title), position: l.position })
}

pub open spec fn not_from(uid: Seq<char>) -> spec_fn(EdgeModel) -> bool {
    |e: EdgeModel| e.source != uid
}

pub open spec fn title_not_of(uid: Seq<char>) -> spec_fn(TitleEntry) -> bool {
    |e: TitleEntry| e.uid@ != uid
}

/// Some note other than `uid` is indexed under `path`.
pub open spec fn path_taken(rows: Map<Seq<char>, IndexRow>, uid: Seq<char>, path: Seq<char>) -> bool {
    exists|k: Seq<char>| rows.contains_key(k) && k != uid && (#[trigger] rows[k]).file_path@ == path
}

/// The index: notes rows, title lookup and backlink edges.
pub struct NoteIndex {
    rows: Vec<IndexRow>,
    titles: Vec<TitleEntry>,
    edges: Vec<BacklinkEdge>,
}

impl NoteIndex {
    /// The rows by note id.
    pub closed spec fn rows(&self) -> Map<Seq<char>, IndexRow> {
        keyed(self.rows@, row_key())
    }

    /// The title lookup: case-folded title to entry.
    pub closed spec fn titles(&self) -> Map<Seq<char>, TitleEntry> {
        keyed(self.titles@, title_key())
    }

    /// The backlink edges, in order of insertion.
    pub closed spec fn edges(&self) -> Seq<EdgeModel> {
        edges_view(self.edges@)
    }

    /// The rows in listing order: newest first by creation or update time,
    /// rows with equal times in the order they were first indexed.
    pub closed spec fn row_order(&self, by_created: bool) -> Seq<IndexRow> {
        newest_order(row_times(self.rows@, by_created)).map_values(|p: (Timestamp, usize)| self.rows@[p.1 as int])
    }

    /// Each row is stored once under its id, each title once, and no two rows
    /// share a file path.
    pub closed spec fn wf(&self) -> bool {
        &&& unique_keys(self.rows@, row_key())
        &&& unique_keys(self.titles@, title_key())
        &&& forall|i: int, j: int| 0 <= i < j < self.rows@.len() ==> (#[trigger] self.rows@[i]).file_path@ != (#[trigger] self.rows@[j]).file_path@
        &&& forall|t: Seq<char>| #[trigger] self.titles().contains_key(t) ==> self.rows().contains_key(self.titles()[t].uid@)
            && lower_of(self.rows()[self.titles()[t].uid@].title@) == t
        &&& forall|e: EdgeModel| #[trigger] self.edges().contains(e) ==> self.rows().contains_key(e.source)
    }

    /// An empty index.
    pub fn new() -> (r: NoteIndex)
        ensures
            r.wf(),
            r.rows() == Map::<Seq<char>, IndexRow>::empty(),
            r.titles() == Map::<Seq<char>, TitleEntry>::empty(),
            r.edges() == Seq::<EdgeModel>::empty(),
    {
        let r = NoteIndex { rows: Vec::new(), titles: Vec::new(), edges: Vec::new() };
        proof {
            assert(edges_view(r.edges@) =~= Seq::<EdgeModel>::empty());
        }
        r
    }

    /// Position of the row of `uid`, if any.
    fn row_pos(&self, uid: &str) -> (r: Option<usize>)
        requires
            self.wf(),
        ensures
            match r {
                Some(i) => i < self.rows@.len() && self.rows@[i as int].uid@ == uid@ && self.rows().contains_key(uid@) && self.rows()[uid@] == self.rows@[i as int],
                None => !self.rows().contains_key(uid@),
            },
    {
        let mut i: usize = 0;
        while i < self.rows.len()
            invariant
                self.wf(),
                i <= self.rows@.len(),
                forall|j: int| 0 <= j < i ==> (#[trigger] self.rows@[j]).uid@ != uid@,
            decreases self.rows.len() - i,
        {
            if str_eq(self.rows[i].uid.as_str(), uid) {
                proof {
                    lemma_keyed_value(self.rows@, row_key(), i as int);
                }
                return Some(i);
            }
            i = i + 1;
        }
        proof {
            lemma_keyed_domain(self.rows@, row_key(), uid@);
        }
        None
    }

    /// Position of the title entry for `t`, if any.
    fn title_pos(&self, t: &str) -> (r: Option<usize>)
        requires
            self.wf(),
        ensures
            match r {
                Some(i) => i < self.titles@.len() && self.titles@[i as int].title_normalized@ == t@,
                None => !self.titles().contains_key(t@),
            },
    {
        let mut i: usize = 0;
        while i < self.titles.len()
            invariant
                i <= self.titles@.len(),
                forall|j: int| 0 <= j < i ==> (#[trigger] self.titles@[j]).title_normalized@ != t@,
            decreases self.titles.len() - i,
        {
            if str_eq(self.titles[i].title_normalized.as_str(), t) {
                return Some(i);
            }
            i = i + 1;
        }
        proof {
            lemma_keyed_domain(self.titles@, title_key(), t@);
        }
        None
    }

    /// The number of indexed notes.
    pub fn count(&self) -> (r: usize)
        requires
            self.wf(),
        ensures
            r == self.rows().len(),
    {
        proof {
            lemma_keyed_len(self.rows@, row_key());
        }
        self.rows.len()
    }

    /// True exactly when no note is indexed: the signal for a full scan at
    /// startup.
    pub fn needs_rebuild(&self) -> (r: bool)
        requires
            self.wf(),
        ensures
            r == (self.rows().len() == 0),
    {
        self.count() == 0
    }

    /// The file path of note `uid`.
    pub fn get_path(&self, uid: &str) -> (r: Option<String>)
        requires
            self.wf(),
        ensures
            match r {
                Some(p) => self.rows().contains_key(uid@) && p@ == self.rows()[uid@].file_path@,
                None => !self.rows().contains_key(uid@),
            },
    {
        match self.row_pos(uid) {
            Some(i) => Some(self.rows[i].file_path.clone()),
            None => None,
        }
    }

    /// True when note `uid` is not indexed or was indexed with another
    /// content hash.
    pub fn needs_update(&self, uid: &str, content_hash: &str) -> (r: bool)
        requires
            self.wf(),
        ensures
            r == stale(self.rows(), uid@, content_hash@),
    {
        match self.row_pos(uid) {
            Some(i) => !str_eq(self.rows[i].content_hash.as_str(), content_hash),
            None => true,
        }
    }

    /// The id indexed under the case-folded `title`.
    pub fn find_by_title(&self, title: &str) -> (r: Option<String>)
        requires
            self.wf(),
        ensures
            match r {
                Some(u) => self.titles().contains_key(lower_of(title@)) && u@ == self.titles()[lower_of(title@)].uid@,
                None => !self.titles().contains_key(lower_of(title@)),
            },
    {
        let t = lowercase(title);
        match self.title_pos(t.as_str()) {
            Some(i) => {
                proof {
                    lemma_keyed_value(self.titles@, title_key(), i as int);
                }
                Some(self.titles[i].uid.clone())
            },
            None => None,
        }
    }

    /// The listing entry of note `uid`.
    pub fn get_note_by_uid(&self, uid: &str) -> (r: Option<NoteListItem>)
        requires
            self.wf(),
        ensures
            match r {
                Some(it) => self.rows().contains_key(uid@) && item_matches(it, self.rows()[uid@]) && it.uid@ == uid@,
                None => !self.rows().contains_key(uid@),
            },
    {
        match self.row_pos(uid) {
            Some(i) => Some(item_of_row(&self.rows[i])),
            None => None,
        }
    }
}

impl NoteIndex {
    /// Removes the edges whose source is `uid`.
    fn drop_edges_of(&mut self, uid: &str)
        requires
            old(self).wf(),
        ensures
            final(self).wf(),
            final(self).rows@ == old(self).rows@,
            final(self).titles@ == old(self).titles@,
            final(self).edges() == keep(old(self).edges(), not_from(uid@)),
    {
        let mut out: Vec<BacklinkEdge> = Vec::new();
        let mut i: usize = 0;
        let ghost old_edges = self.edges@;
        proof {
            assert(edges_view(old_edges.take(0)) =~= Seq::<EdgeModel>::empty());
            assert(edges_view(out@) =~= Seq::<EdgeModel>::empty());
        }
        while i < self.edges.len()
            invariant
                self.edges@ == old_edges,
                i <= old_edges.len(),
                edges_view(out@) == keep(edges_view(old_edges.take(i as int)), not_from(uid@)),
            decreases self.edges.len() - i,
        {
            proof {
                assert(edges_view(old_edges.take(i + 1)) =~= edges_view(old_edges.take(i as int)).push(old_edges[i as int]@));
                assert(edges_view(old_edges.take(i + 1)).drop_last() =~= edges_view(old_edges.take(i as int)));
            }
            if !str_eq(self.edges[i].source_uid.as_str(), uid) {
                let e = BacklinkEdge { source_uid: self.edges[i].source_uid.clone(), target_title: self.edges[i].target_title.clone(), position: self.edges[i].position };
                let ghost o0 = out@;
                out.push(e);
                proof {
                    assert(edges_view(out@) =~= edges_view(o0).push(old_edges[i as int]@));
                }
            }
            i = i + 1;
        }
        proof {
            assert(old_edges.take(old_edges.len() as int) =~= old_edges);
        }
        self.edges = out;
        proof {
            assert(self.rows() == old(self).rows());
            assert(self.titles() == old(self).titles());
            assert forall|e: EdgeModel| #[trigger] self.edges().contains(e) implies self.rows().contains_key(e.source) by {
                crate::keyed::lemma_keep_contains(old(self).edges(), not_from(uid@), e);
            }
        }
    }

    /// Removes the title entries that point at `uid`.
    fn drop_titles_of(&mut self, uid: &str)
        requires
            old(self).wf(),
        ensures
            final(self).wf(),
            final(self).rows@ == old(self).rows@,
            final(self).edges@ == old(self).edges@,
            final(self).titles() == restrict(old(self).titles(), title_not_of(uid@)),
            final(self).titles@ == keep(old(self).titles@, title_not_of(uid@)),
    {
        let mut out: Vec<TitleEntry> = Vec::new();
        let mut i: usize = 0;
        let ghost old_titles = self.titles@;
        proof {
            assert(out@ =~= keep(old_titles.take(0), title_not_of(uid@)));
        }
        while i < self.titles.len()
            invariant
                self.titles@ == old_titles,
                i <= old_titles.len(),
                out@ == keep(old_titles.take(i as int), title_not_of(uid@)),
            decreases self.titles.len() - i,
        {
            proof {
                assert(old_titles.take(i + 1).drop_last() =~= old_titles.take(i as int));
            }
            if !str_eq(self.titles[i].uid.as_str(), uid) {
                let e = TitleEntry { title_normalized: self.titles[i].title_normalized.clone(), uid: self.titles[i].uid.clone() };
                out.push(e);
            }
            i = i + 1;
        }
        proof {
            assert(old_titles.take(old_titles.len() as int) =~= old_titles);
            lemma_keyed_keep(old_titles, title_key(), title_not_of(uid@));
        }
        self.titles = out;
        proof {
            assert(self.rows() == old(self).rows());
            assert(self.edges() == old(self).edges());
            assert forall|t: Seq<char>| #[trigger] self.titles().contains_key(t) implies self.rows().contains_key(self.titles()[t].uid@)
                && lower_of(self.rows()[self.titles()[t].uid@].title@) == t by {
                assert(old(self).titles().contains_key(t));
            }
        }
    }

    /// Removes note `uid` from the index: its title entry, its edges and its
    /// row. Nothing happens where it is not indexed.
    pub fn delete_note(&mut self, uid: &str)
        requires
            old(self).wf(),
        ensures
            final(self).wf(),
            final(self).rows() == old(self).rows().remove(uid@),
            final(self).titles() == restrict(old(self).titles(), title_not_of(uid@)),
            final(self).edges() == keep(old(self).edges(), not_from(uid@)),
            !old(self).rows().contains_key(uid@) ==> final(self).titles() == old(self).titles() && final(self).edges() == old(self).edges(),
    {
        proof {
            if !old(self).rows().contains_key(uid@) {
                assert forall|i: int| 0 <= i < old(self).edges().len() implies not_from(uid@)(#[trigger] old(self).edges()[i]) by {
                    assert(old(self).edges().contains(old(self).edges()[i]));
                }
                crate::keyed::lemma_keep_all(old(self).edges(), not_from(uid@));
                assert(restrict(old(self).titles(), title_not_of(uid@)) =~= old(self).titles());
            }
        }
        self.drop_titles_of(uid);
        self.drop_edges_of(uid);
        match self.row_pos(uid) {
            Some(i) => {
                let ghost r0 = self.rows@;
                self.rows.remove(i);
                proof {
                    lemma_keyed_remove(r0, row_key(), i as int);
                    assert forall|a: int, b: int| 0 <= a < b < self.rows@.len() implies (#[trigger] self.rows@[a]).file_path@ != (#[trigger] self.rows@[b]).file_path@ by {
                        let a2 = if a < i { a } else { a + 1 };
                        let b2 = if b < i { b } else { b + 1 };
                        assert(self.rows@[a] == r0[a2]);
                        assert(self.rows@[b] == r0[b2]);
                    }
                    assert forall|e: EdgeModel| #[trigger] self.edges().contains(e) implies self.rows().contains_key(e.source) by {
                        crate::keyed::lemma_keep_contains(old(self).edges(), not_from(uid@), e);
                    }
                }
            },
            None => {
                proof {
                    assert(self.rows() =~= old(self).rows().remove(uid@));
                }
            },
        }
    }

    /// Whether a note other than `uid` is indexed under `path`.
    fn path_in_use(&self, uid: &str, path: &str) -> (r: bool)
        requires
            self.wf(),
        ensures
            r == path_taken(self.rows(), uid@, path@),
    {
        let mut i: usize = 0;
        while i < self.rows.len()
            invariant
                self.wf(),
                i <= self.rows@.len(),
                forall|j: int| 0 <= j < i ==> (#[trigger] self.rows@[j]).uid@ == uid@ || self.rows@[j].file_path@ != path@,
            decreases self.rows.len() - i,
        {
            if !str_eq(self.rows[i].uid.as_str(), uid) && str_eq(self.rows[i].file_path.as_str(), path) {
                proof {
                    lemma_keyed_value(self.rows@, row_key(), i as int);
                    let k = self.rows@[i as int].uid@;
                    assert(self.rows().contains_key(k) && k != uid@ && self.rows()[k].file_path@ == path@);
                }
                return true;
            }
            i = i + 1;
        }
        proof {
            if path_taken(self.rows(), uid@, path@) {
                let k = choose|k: Seq<char>| self.rows().contains_key(k) && k != uid@ && (#[trigger] self.rows()[k]).file_path@ == path@;
                lemma_keyed_domain(self.rows@, row_key(), k);
                let j = choose|j: int| 0 <= j < self.rows@.len() && row_key()(#[trigger] self.rows@[j]) == k;
                lemma_keyed_value(self.rows@, row_key(), j);
            }
        }
        false
    }

    /// Appends the edges of `content`, owned by `uid`.
    fn add_edges(&mut self, uid: &str, content: &str)
        requires
            old(self).wf(),
            old(self).rows().contains_key(uid@),
        ensures
            final(self).wf(),
            final(self).rows@ == old(self).rows@,
            final(self).titles@ == old(self).titles@,
            final(self).edges() == old(self).edges() + note_edges(uid@, content@),
    {
        let links = extract_wiki_links(content);
        let ghost e0 = self.edges();
        let mut j: usize = 0;
        proof {
            assert(e0 + note_edges(uid@, content@).take(0) =~= e0);
        }
        while j < links.len()
            invariant
                self.wf(),
                self.rows().contains_key(uid@),
                self.rows@ == old(self).rows@,
                self.titles@ == old(self).titles@,
                e0 == old(self).edges(),
                links_view(links@) == wiki_links(content@),
                j <= links@.len(),
                self.edges() == e0 + note_edges(uid@, content@).take(j as int),
            decreases links.len() - j,
        {
            let l = &links[j];
            let t = lowercase(l.title.as_str());
            let e = BacklinkEdge { source_uid: String::from_str(uid), target_title: t, position: l.position };
            let ghost before = self.edges@;
            assert(forall|x: EdgeModel| #[trigger] edges_view(before).contains(x) ==> self.rows().contains_key(x.source));
            assert(forall|t: Seq<char>| #[trigger] self.titles().contains_key(t) ==> self.rows().contains_key(self.titles()[t].uid@)
                && lower_of(self.rows()[self.titles()[t].uid@].title@) == t);
            assert(forall|a: int, b: int| 0 <= a < b < self.rows@.len() ==> (#[trigger] self.rows@[a]).file_path@ != (#[trigger] self.rows@[b]).file_path@);
            let ghost tm = self.titles();
            let ghost rm = self.rows();
            let ghost tv = self.titles@;
            let ghost rv = self.rows@;
            self.edges.push(e);
            assert(self.titles@ == tv && self.rows@ == rv);
            assert(self.titles() == tm && self.rows() == rm);
            proof {
                assert(links_view(links@)[j as int] == links@[j as int]@);
                assert(edges_view(self.edges@) =~= edges_view(before).push(e@));
                assert(note_edges(uid@, content@).take(j + 1) =~= note_edges(uid@, content@).take(j as int).push(e@));
                assert(self.edges() =~= e0 + note_edges(uid@, content@).take(j + 1));
                assert forall|x: EdgeModel| #[trigger] self.edges().contains(x) implies self.rows().contains_key(x.source) by {
                    let w = choose|w: int| 0 <= w < self.edges().len() && self.edges()[w] == x;
                    if w < before.len() {
                        assert(edges_view(before)[w] == x);
                        assert(edges_view(before).contains(x));
                    } else {
                        assert(x == e@);
                    }
                }
            }
            j = j + 1;
        }
        proof {
            assert(note_edges(uid@, content@).take(links@.len() as int) =~= note_edges(uid@, content@));
        }
    }

    /// Points the case-folded `title` at `uid`, replacing what it pointed at.
    fn set_title(&mut self, title: &str, uid: &str)
        requires
            old(self).wf(),
            old(self).rows().contains_key(uid@),
            lower_of(old(self).rows()[uid@].title@) == lower_of(title@),
        ensures
            final(self).wf(),
            final(self).rows@ == old(self).rows@,
            final(self).edges@ == old(self).edges@,
            final(self).titles() == old(self).titles().insert(lower_of(title@), final(self).titles()[lower_of(title@)]),
            final(self).titles()[lower_of(title@)].uid@ == uid@,
    {
        let t = lowercase(title);
        let e = TitleEntry { title_normalized: t, uid: String::from_str(uid) };
        let ghost t0 = self.titles@;
        match self.title_pos(e.title_normalized.as_str()) {
            Some(i) => {
                let ghost ev = e;
                self.titles.set(i, e);
                proof {
                    lemma_keyed_update(t0, title_key(), i as int, ev);
                    assert(self.titles@ == t0.update(i as int, ev));
                    lemma_keyed_value(self.titles@, title_key(), i as int);
                }
            },
            None => {
                let ghost ev = e;
                self.titles.push(e);
                proof {
                    lemma_keyed_push(t0, title_key(), ev);
                }
            },
        }
        proof {
            assert(self.rows() == old(self).rows());
            assert(self.edges() == old(self).edges());
            assert forall|k: Seq<char>| #[trigger] self.titles().contains_key(k) implies self.rows().contains_key(self.titles()[k].uid@)
                && lower_of(self.rows()[self.titles()[k].uid@].title@) == k by {
                if k != lower_of(title@) {
                    assert(old(self).titles().contains_key(k));
                }
            }
        }
    }

    /// Indexes a note: writes its row in full, replaces its edges with those of its body and points
    /// its case-folded title at it. Refused, with nothing changed, where
    /// another note is indexed under the same file path.
    pub fn upsert_note_with_gallery(&mut self, note: &IndexedNote, preview: &str, tags: &Vec<String>) -> (r: Result<(), IndexError>)
        requires
            old(self).wf(),
        ensures
            final(self).wf(),
            r is Err <==> path_taken(old(self).rows(), note.uid@, note.file_path@),
            r is Err ==> final(self).rows() == old(self).rows() && final(self).titles() == old(self).titles() && final(self).edges() == old(self).edges(),
            r is Ok ==> {
                &&& final(self).rows() == old(self).rows().insert(note.uid@, final(self).rows()[note.uid@])
                &&& row_written(final(self).rows()[note.uid@], *note, preview@, strs(tags@))
                &&& final(self).titles() == restrict(old(self).titles(), title_not_of(note.uid@)).insert(lower_of(note.title@), final(self).titles()[lower_of(note.title@)])
                &&& final(self).titles()[lower_of(note.title@)].uid@ == note.uid@
                &&& final(self).edges() == keep(old(self).edges(), not_from(note.uid@)) + note_edges(note.uid@, note.content@)
            },
    {
        if self.path_in_use(note.uid.as_str(), note.file_path.as_str()) {
            return Err(IndexError::DataInconsistency);
        }
        self.drop_edges_of(note.uid.as_str());
        self.drop_titles_of(note.uid.as_str());
        let ghost mid_titles = self.titles();
        let ghost mid_edges = self.edges();
        let (indexed_at, _) = now();
        let pos = self.row_pos(note.uid.as_str());
        let created_at = note.created_at;
        let row = IndexRow {
            uid: note.uid.clone(),
            title: note.title.clone(),
            file_path: note.file_path.clone(),
            content_hash: note.content_hash.clone(),
            created_at,
            updated_at: note.updated_at,
            indexed_at,
            preview: String::from_str(preview),
            tags: copy_strings(tags),
        };
        let ghost rv = row;
        let ghost r0 = self.rows@;
        match pos {
            Some(i) => {
                self.rows.set(i, row);
                proof {
                    lemma_keyed_update(r0, row_key(), i as int, rv);
                    lemma_keyed_value(self.rows@, row_key(), i as int);
                    assert forall|a: int, b: int| 0 <= a < b < self.rows@.len() implies (#[trigger] self.rows@[a]).file_path@ != (#[trigger] self.rows@[b]).file_path@ by {
                        if a == i || b == i {
                            let o = if a == i { b } else { a };
                            lemma_keyed_value(r0, row_key(), o);
                            assert(r0[o].uid@ != note.uid@);
                        }
                    }
                }
            },
            None => {
                self.rows.push(row);
                proof {
                    lemma_keyed_push(r0, row_key(), rv);
                    lemma_keyed_value(self.rows@, row_key(), r0.len() as int);
                    assert forall|a: int, b: int| 0 <= a < b < self.rows@.len() implies (#[trigger] self.rows@[a]).file_path@ != (#[trigger] self.rows@[b]).file_path@ by {
                        if b == r0.len() {
                            lemma_keyed_value(r0, row_key(), a);
                            assert(r0[a].uid@ != note.uid@);
                        }
                    }
                }
            },
        }
        proof {
            assert forall|t: Seq<char>| #[trigger] self.titles().contains_key(t) implies self.rows().contains_key(self.titles()[t].uid@)
                && lower_of(self.rows()[self.titles()[t].uid@].title@) == t by {
                assert(self.titles()[t].uid@ != note.uid@);
            }
            assert forall|e: EdgeModel| #[trigger] self.edges().contains(e) implies self.rows().contains_key(e.source) by {
                crate::keyed::lemma_keep_contains(old(self).edges(), not_from(note.uid@), e);
            }
        }
        self.add_edges(note.uid.as_str(), note.content.as_str());
        self.set_title(note.title.as_str(), note.uid.as_str());
        Ok(())
    }

    /// Indexes a note with no preview and no tags.
    pub fn upsert_note(&mut self, note: &IndexedNote) -> (r: Result<(), IndexError>)
        requires
            old(self).wf(),
        ensures
            final(self).wf(),
            r is Err <==> path_taken(old(self).rows(), note.uid@, note.file_path@),
            r is Ok ==> final(self).rows().contains_key(note.uid@) && final(self).rows()[note.uid@].content_hash@ == note.content_hash@,
            r is Ok ==> final(self).rows().dom() == old(self).rows().dom().insert(note.uid@),
            r is Ok ==> final(self).rows() == old(self).rows().insert(note.uid@, final(self).rows()[note.uid@]),
            r is Ok ==> row_written(final(self).rows()[note.uid@], *note, Seq::empty(), Seq::empty()),
    {
        let none: Vec<String> = Vec::new();
        let empty = String::new();
        let r = self.upsert_note_with_gallery(note, empty.as_str(), &none);
        proof {
            assert(strs(none@) =~= Seq::<Seq<char>>::empty());
            if r is Ok {
                assert(self.rows().dom() =~= old(self).rows().dom().insert(note.uid@));
            }
        }
        r
    }
}

/// `a` is earlier than `b`.
pub open spec fn ts_lt(a: Timestamp, b: Timestamp) -> bool {
    if a.year != b.year {
        a.year < b.year
    } else if a.month != b.month {
        a.month < b.month
    } else if a.day != b.day {
        a.day < b.day
    } else if a.hour != b.hour {
        a.hour < b.hour
    } else if a.minute != b.minute {
        a.minute < b.minute
    } else {
        a.second < b.second
    }
}

fn ts_less(a: &Timestamp, b: &Timestamp) -> (r: bool)
    ensures
        r == ts_lt(*a, *b),
{
    if a.year != b.year {
        a.year < b.year
    } else if a.month != b.month {
        a.month < b.month
    } else if a.day != b.day {
        a.day < b.day
    } else if a.hour != b.hour {
        a.hour < b.hour
    } else if a.minute != b.minute {
        a.minute < b.minute
    } else {
        a.second < b.second
    }
}

/// Row position `i` occurs in the ordering `r`.
pub open spec fn listed(r: Seq<(Timestamp, usize)>, i: int) -> bool {
    exists|j: int| 0 <= j < r.len() && (#[trigger] r[j]).1 == i
}

/// Newest first: no entry is earlier than one after it.
pub open spec fn newest_first(v: Seq<(Timestamp, usize)>) -> bool {
    forall|i: int, j: int| 0 <= i < j < v.len() ==> !ts_lt(#[trigger] v[i].0, #[trigger] v[j].0)
}

/// Where `x` goes in a newest-first list: before the first entry older
/// than it.
pub open spec fn ins_pos(s: Seq<(Timestamp, usize)>, x: (Timestamp, usize)) -> int
    decreases s.len(),
{
    if s.len() == 0 {
        0
    } else if ts_lt(s[0].0, x.0) {
        0
    } else {
        1 + ins_pos(s.drop_first(), x)
    }
}

proof fn lemma_ins_pos(s: Seq<(Timestamp, usize)>, x: (Timestamp, usize), p: int)
    requires
        0 <= p <= s.len(),
        forall|q: int| 0 <= q < p ==> !ts_lt(#[trigger] s[q].0, x.0),
        p == s.len() || ts_lt(s[p].0, x.0),
    ensures
        ins_pos(s, x) == p,
    decreases s.len(),
{
    if s.len() > 0 && p > 0 {
        assert forall|q: int| 0 <= q < p - 1 implies !ts_lt(#[trigger] s.drop_first()[q].0, x.0) by {
            assert(s.drop_first()[q] == s[q + 1]);
        }
        if p < s.len() {
            assert(s.drop_first()[p - 1] == s[p]);
        }
        lemma_ins_pos(s.drop_first(), x, p - 1);
    }
}

/// The newest-first order in which entries are inserted one by one, each
/// after those not older than it.
pub open spec fn newest_order(v: Seq<(Timestamp, usize)>) -> Seq<(Timestamp, usize)>
    decreases v.len(),
{
    if v.len() == 0 {
        Seq::empty()
    } else {
        let s = newest_order(v.drop_last());
        s.insert(ins_pos(s, v.last()), v.last())
    }
}

/// The entries `(time, position)` of the rows, by creation or update time.
pub open spec fn row_times(rows: Seq<IndexRow>, by_created: bool) -> Seq<(Timestamp, usize)> {
    Seq::new(rows.len(), |j: int| (sort_time(rows[j], by_created), j as usize))
}

/// The same entries, newest first; entries with equal times keep their order.
fn sort_newest_first(v: &Vec<(Timestamp, usize)>) -> (r: Vec<(Timestamp, usize)>)
    requires
        forall|a: int, b: int| 0 <= a < b < v@.len() ==> (#[trigger] v@[a]).1 != (#[trigger] v@[b]).1,
    ensures
        r@ == newest_order(v@),
        r@.to_multiset() == v@.to_multiset(),
        newest_first(r@),
        forall|a: int, b: int| 0 <= a < b < r@.len() ==> (#[trigger] r@[a]).1 != (#[trigger] r@[b]).1,
{
    broadcast use vstd::seq_lib::to_multiset_insert;
    let mut out: Vec<(Timestamp, usize)> = Vec::new();
    let mut i: usize = 0;
    proof {
        assert(v@.take(0) =~= Seq::<(Timestamp, usize)>::empty());
    }
    while i < v.len()
        invariant
            i <= v@.len(),
            out@.to_multiset() == v@.take(i as int).to_multiset(),
            newest_first(out@),
            forall|a: int, b: int| 0 <= a < b < v@.len() ==> (#[trigger] v@[a]).1 != (#[trigger] v@[b]).1,
            forall|a: int| 0 <= a < out@.len() ==> exists|j: int| 0 <= j < i && #[trigger] out@[a] == v@[j],
            forall|a: int, b: int| 0 <= a < b < out@.len() ==> (#[trigger] out@[a]).1 != (#[trigger] out@[b]).1,
            out@ == newest_order(v@.take(i as int)),
        decreases v.len() - i,
    {
        let x = v[i];
        let mut p: usize = 0;
        while p < out.len() && !ts_less(&out[p].0, &x.0)
            invariant
                p <= out@.len(),
                forall|q: int| 0 <= q < p ==> !ts_lt(#[trigger] out@[q].0, x.0),
            decreases out.len() - p,
        {
            p = p + 1;
        }
        let ghost o0 = out@;
        proof {
            lemma_ins_pos(o0, x, p as int);
            assert(v@.take(i + 1).drop_last() =~= v@.take(i as int));
            assert(v@.take(i + 1).last() == x);
        }
        out.insert(p, x);
        proof {
            assert forall|a: int| 0 <= a < out@.len() implies exists|j: int| 0 <= j < i + 1 && #[trigger] out@[a] == v@[j] by {
                if a < p {
                    assert(out@[a] == o0[a]);
                } else if a == p {
                    assert(out@[a] == v@[i as int]);
                } else {
                    assert(out@[a] == o0[a - 1]);
                }
            }
            assert forall|a: int, b: int| 0 <= a < b < out@.len() implies (#[trigger] out@[a]).1 != (#[trigger] out@[b]).1 by {
                if a == p || b == p {
                    let o = if a == p { b } else { a };
                    let o2 = if o < p { o } else { o - 1 };
                    assert(out@[o] == o0[o2]);
                    let j = choose|j: int| 0 <= j < i && #[trigger] o0[o2] == v@[j];
                    assert(v@[j].1 != v@[i as int].1);
                } else {
                    let a2 = if a < p { a } else { a - 1 };
                    let b2 = if b < p { b } else { b - 1 };
                    assert(out@[a] == o0[a2]);
                    assert(out@[b] == o0[b2]);
                }
            }
            assert(v@.take(i + 1) =~= v@.take(i as int).push(x));
            vstd::seq_lib::to_multiset_build(v@.take(i as int), x);
            vstd::seq_lib::to_multiset_insert(o0, p as int, x);
            assert forall|a: int, b: int| 0 <= a < b < out@.len() implies !ts_lt(#[trigger] out@[a].0, #[trigger] out@[b].0) by {
                if b == p {
                    assert(out@[a] == o0[a]);
                } else if a == p {
                    assert(out@[b] == o0[b - 1]);
                    assert(ts_lt(o0[p as int].0, x.0));
                    if b - 1 > p {
                        assert(!ts_lt(o0[p as int].0, o0[b - 1].0));
                    }
                } else {
                    let a2 = if a < p { a } else { a - 1 };
                    let b2 = if b < p { b } else { b - 1 };
                    assert(out@[a] == o0[a2]);
                    assert(out@[b] == o0[b2]);
                }
            }
        }
        i = i + 1;
    }
    proof {
        assert(v@.take(v@.len() as int) =~= v@);
    }
    out
}

/// The gallery entry shows the row's id, title, preview, tags and times.
pub open spec fn gallery_matches(g: GalleryNote, row: IndexRow) -> bool {
    &&& g.uid@ == row.uid@
    &&& g.title@ == row.title@
    &&& g.preview@ == row.preview@
    &&& strs(g.tags@) == strs(row.tags@)
    &&& g.created_at == row.created_at
    &&& g.updated_at == row.updated_at
}

/// The time a listing sorts by.
pub open spec fn sort_time(row: IndexRow, by_created: bool) -> Timestamp {
    if by_created {
        row.created_at
    } else {
        row.updated_at
    }
}

/// The row passes the tag filter: no filter, or a tag equal to it.
pub open spec fn passes(row: IndexRow, filter: Option<Seq<char>>) -> bool {
    match filter {
        None => true,
        Some(f) => strs(row.tags@).contains(f),
    }
}

impl NoteIndex {
    /// Row positions, newest first by creation or update time.
    fn order(&self, by_created: bool) -> (r: Vec<(Timestamp, usize)>)
        ensures
            newest_first(r@),
            forall|j: int| 0 <= j < r@.len() ==> (#[trigger] r@[j]).1 < self.rows@.len() && r@[j].0 == sort_time(self.rows@[r@[j].1 as int], by_created),
            forall|i: int| 0 <= i < self.rows@.len() ==> #[trigger] listed(r@, i),
            r@.len() == self.rows@.len(),
            forall|a: int, b: int| 0 <= a < b < r@.len() ==> (#[trigger] r@[a]).1 != (#[trigger] r@[b]).1,
            r@ == newest_order(row_times(self.rows@, by_created)),
    {
        broadcast use vstd::seq_lib::to_multiset_contains, vstd::seq_lib::to_multiset_len;
        let mut pairs: Vec<(Timestamp, usize)> = Vec::new();
        let mut i: usize = 0;
        while i < self.rows.len()
            invariant
                i <= self.rows@.len(),
                pairs@.len() == i,
                forall|j: int| 0 <= j < i ==> (#[trigger] pairs@[j]) == (sort_time(self.rows@[j], by_created), j as usize),
            decreases self.rows.len() - i,
        {
            let t = if by_created { self.rows[i].created_at } else { self.rows[i].updated_at };
            pairs.push((t, i));
            i = i + 1;
        }
        let r = sort_newest_first(&pairs);
        proof {
            assert(pairs@ =~= row_times(self.rows@, by_created));
            assert forall|j: int| 0 <= j < r@.len() implies (#[trigger] r@[j]).1 < self.rows@.len() && r@[j].0 == sort_time(self.rows@[r@[j].1 as int], by_created) by {
                assert(r@.contains(r@[j]));
                assert(r@.to_multiset().count(r@[j]) > 0);
                assert(pairs@.contains(r@[j]));
            }
            assert forall|i: int| 0 <= i < self.rows@.len() implies #[trigger] listed(r@, i) by {
                assert(pairs@.contains(pairs@[i]));
                assert(pairs@.to_multiset().count(pairs@[i]) > 0);
                assert(r@.contains(pairs@[i]));
            }
            assert(r@.len() == r@.to_multiset().len());
        }
        r
    }

    /// One page of the listing, newest update first: at most `limit` entries
    /// after skipping `offset`, and the number of notes in all. The full
    /// listing (offset zero, a limit of at least the count) holds every note.
    pub fn list_notes(&self, offset: usize, limit: usize) -> (r: (Vec<NoteListItem>, usize))
        requires
            self.wf(),
        ensures
            r.1 == self.rows().len(),
            r.0@.len() == (if offset >= r.1 { 0 } else if limit < r.1 - offset { limit as int } else { r.1 - offset }),
            forall|j: int| 0 <= j < r.0@.len() ==> from_some_row(self.rows(), #[trigger] r.0@[j]),
            forall|i: int, j: int| 0 <= i < j < r.0@.len() ==> !ts_lt((#[trigger] r.0@[i]).updated_at, (#[trigger] r.0@[j]).updated_at),
            offset == 0 && limit >= r.1 ==> forall|k: Seq<char>| self.rows().contains_key(k) ==> #[trigger] shows_row(r.0@, self.rows()[k]),
            forall|i: int, j: int| 0 <= i < j < r.0@.len() ==> (#[trigger] r.0@[i]).uid@ != (#[trigger] r.0@[j]).uid@,
            self.row_order(false).len() == r.1,
            forall|q: int| 0 <= q < r.0@.len() ==> item_matches(#[trigger] r.0@[q], self.row_order(false)[offset + q]),
    {
        let ord = self.order(false);
        let total = self.count();
        let mut items: Vec<NoteListItem> = Vec::new();
        let end = if offset >= ord.len() { ord.len() } else if limit < ord.len() - offset { offset + limit } else { ord.len() };
        let mut j = if offset < ord.len() { offset } else { ord.len() };
        let start = j;
        while j < end
            invariant
                self.wf(),
                start <= j <= end <= ord@.len(),
                ord@.len() == self.rows@.len(),
                items@.len() == j - start,
                forall|q: int| 0 <= q < ord@.len() ==> (#[trigger] ord@[q]).1 < self.rows@.len() && ord@[q].0 == sort_time(self.rows@[ord@[q].1 as int], false),
                forall|q: int| 0 <= q < items@.len() ==> item_matches(#[trigger] items@[q], self.rows@[ord@[start + q].1 as int]),
                forall|a: int, b: int| 0 <= a < b < ord@.len() ==> (#[trigger] ord@[a]).1 != (#[trigger] ord@[b]).1,
            decreases end - j,
        {
            let idx = ord[j].1;
            items.push(item_of_row(&self.rows[idx]));
            j = j + 1;
        }
        proof {
            lemma_keyed_len(self.rows@, row_key());
            assert forall|q: int| 0 <= q < items@.len() implies from_some_row(self.rows(), #[trigger] items@[q]) by {
                let ri = ord@[start + q].1 as int;
                lemma_keyed_value(self.rows@, row_key(), ri);
                let k = self.rows@[ri].uid@;
                assert(self.rows().contains_key(k) && item_matches(items@[q], self.rows()[k]));
            }
            assert forall|a: int, b: int| 0 <= a < b < items@.len() implies !ts_lt((#[trigger] items@[a]).updated_at, (#[trigger] items@[b]).updated_at) by {
                assert(!ts_lt(ord@[start + a].0, ord@[start + b].0));
            }
            assert forall|q: int| 0 <= q < items@.len() implies item_matches(#[trigger] items@[q], self.row_order(false)[offset + q]) by {
                assert(start == offset);
                assert(self.row_order(false)[offset + q] == self.rows@[ord@[start + q].1 as int]);
            }
            assert forall|a: int, b: int| 0 <= a < b < items@.len() implies (#[trigger] items@[a]).uid@ != (#[trigger] items@[b]).uid@ by {
                assert(item_matches(items@[a], self.rows@[ord@[start + a].1 as int]));
                assert(item_matches(items@[b], self.rows@[ord@[start + b].1 as int]));
                assert(ord@[start + a].1 != ord@[start + b].1);
                let x = ord@[start + a].1 as int;
                let y = ord@[start + b].1 as int;
                if x < y {
                    assert(row_key()(self.rows@[x]) != row_key()(self.rows@[y]));
                } else {
                    assert(row_key()(self.rows@[y]) != row_key()(self.rows@[x]));
                }
            }
            if offset == 0 && limit >= total {
                assert forall|k: Seq<char>| self.rows().contains_key(k) implies #[trigger] shows_row(items@, self.rows()[k]) by {
                    lemma_keyed_domain(self.rows@, row_key(), k);
                    let i = choose|i: int| 0 <= i < self.rows@.len() && row_key()(#[trigger] self.rows@[i]) == k;
                    lemma_keyed_value(self.rows@, row_key(), i);
                    assert(listed(ord@, i));
                    let q = choose|q: int| 0 <= q < ord@.len() && (#[trigger] ord@[q]).1 == i;
                    assert(item_matches(items@[q], self.rows()[k]));
                }
            }
        }
        (items, total)
    }

    /// Every note, newest update first.
    pub fn list_all_notes(&self) -> (r: Vec<NoteListItem>)
        requires
            self.wf(),
        ensures
            r@.len() == self.rows().len(),
            forall|j: int| 0 <= j < r@.len() ==> from_some_row(self.rows(), #[trigger] r@[j]),
            forall|k: Seq<char>| self.rows().contains_key(k) ==> #[trigger] shows_row(r@, self.rows()[k]),
            forall|i: int, j: int| 0 <= i < j < r@.len() ==> !ts_lt((#[trigger] r@[i]).updated_at, (#[trigger] r@[j]).updated_at),
            forall|i: int, j: int| 0 <= i < j < r@.len() ==> (#[trigger] r@[i]).uid@ != (#[trigger] r@[j]).uid@,
            forall|q: int| 0 <= q < r@.len() ==> item_matches(#[trigger] r@[q], self.row_order(false)[q]),
    {
        let n = self.count();
        let (items, _) = self.list_notes(0, n);
        items
    }
}

/// The gallery entry shows some indexed row that passes the filter.
pub open spec fn gallery_from_row(rows: Map<Seq<char>, IndexRow>, filter: Option<Seq<char>>, g: GalleryNote) -> bool {
    exists|k: Seq<char>| rows.contains_key(k) && passes(rows[k], filter) && gallery_matches(g, #[trigger] rows[k])
}

/// Some gallery entry shows `row`.
pub open spec fn gallery_shows(items: Seq<GalleryNote>, row: IndexRow) -> bool {
    exists|j: int| 0 <= j < items.len() && gallery_matches(#[trigger] items[j], row)
}

pub open spec fn gallery_time(g: GalleryNote, by_created: bool) -> Timestamp {
    if by_created {
        g.created_at
    } else {
        g.updated_at
    }
}

pub open spec fn opt_seq(o: Option<&str>) -> Option<Seq<char>> {
    match o {
        Some(s) => Some(s@),
        None => None,
    }
}

/// Whether `tags` holds a tag equal to `t`.
fn has_tag(tags: &Vec<String>, t: &str) -> (r: bool)
    ensures
        r == strs(tags@).contains(t@),
{
    let mut i: usize = 0;
    while i < tags.len()
        invariant
            i <= tags@.len(),
            forall|j: int| 0 <= j < i ==> tags@[j]@ != t@,
        decreases tags.len() - i,
    {
        if str_eq(tags[i].as_str(), t) {
            proof {
                assert(strs(tags@)[i as int] == t@);
            }
            return true;
        }
        i = i + 1;
    }
    proof {
        if strs(tags@).contains(t@) {
            let j = choose|j: int| 0 <= j < strs(tags@).len() && strs(tags@)[j] == t@;
            assert(tags@[j]@ == t@);
        }
    }
    false
}

/// Some edge from an indexed note `source` points at `target`.
pub open spec fn links_to(rows: Map<Seq<char>, IndexRow>, edges: Seq<EdgeModel>, source: Seq<char>, target: Seq<char>) -> bool {
    rows.contains_key(source) && exists|q: int| 0 <= q < edges.len() && (#[trigger] edges[q]).source == source && edges[q].target == target
}

/// Some backlink in `r` comes from `source`.
pub open spec fn lists_source(r: Seq<IndexedBacklink>, source: Seq<char>) -> bool {
    exists|j: int| 0 <= j < r.len() && (#[trigger] r[j]).source_uid@ == source
}

/// The file path of the row is among `existing`.
pub open spec fn present(existing: Seq<Seq<char>>) -> spec_fn(IndexRow) -> bool {
    |row: IndexRow| existing.contains(row.file_path@)
}

/// What `blake3::hash` followed by `to_hex` gives for the UTF-8 bytes of a
/// text: 64 lowercase hexadecimal digits.
pub uninterp spec fn blake3_hex(s: Seq<char>) -> Seq<char>;

/// A lowercase hexadecimal digit.
pub open spec fn lower_hex_digit(c: char) -> bool {
    ('0' <= c && c <= '9') || ('a' <= c && c <= 'f')
}

/// Relies on `blake3::hash` and `Hash::to_hex`: the hexadecimal BLAKE3
/// digest of the text's UTF-8 bytes, a function of the text alone, written
/// as 64 lowercase hexadecimal digits (two per byte of the 32-byte digest).
#[verifier::external_body]
pub fn compute_hash(content: &str) -> (r: String)
    ensures
        r@ == blake3_hex(content@),
        r@.len() == 64,
        forall|i: int| 0 <= i < 64 ==> lower_hex_digit(#[trigger] r@[i]),
{
    blake3::hash(content.as_bytes()).to_hex().to_string()
}

impl NoteIndex {
    /// The gallery listing: every note whose tags hold `tag_filter` (every
    /// note without one), newest first by creation time or by update time.
    pub fn list_gallery_notes(&self, sort_by_created: bool, tag_filter: Option<&str>) -> (r: Vec<GalleryNote>)
        requires
            self.wf(),
        ensures
            forall|j: int| 0 <= j < r@.len() ==> gallery_from_row(self.rows(), opt_seq(tag_filter), #[trigger] r@[j]),
            forall|k: Seq<char>| self.rows().contains_key(k) && passes(self.rows()[k], opt_seq(tag_filter)) ==> #[trigger] gallery_shows(r@, self.rows()[k]),
            forall|i: int, j: int| 0 <= i < j < r@.len() ==> !ts_lt(gallery_time(#[trigger] r@[i], sort_by_created), gallery_time(#[trigger] r@[j], sort_by_created)),
            forall|i: int, j: int| 0 <= i < j < r@.len() ==> (#[trigger] r@[i]).uid@ != (#[trigger] r@[j]).uid@,
    {
        let ord = self.order(sort_by_created);
        let mut items: Vec<GalleryNote> = Vec::new();
        let ghost mut picked: Seq<int> = Seq::empty();
        let mut j: usize = 0;
        while j < ord.len()
            invariant
                self.wf(),
                j <= ord@.len(),
                ord@.len() == self.rows@.len(),
                newest_first(ord@),
                forall|q: int| 0 <= q < ord@.len() ==> (#[trigger] ord@[q]).1 < self.rows@.len() && ord@[q].0 == sort_time(self.rows@[ord@[q].1 as int], sort_by_created),
                picked.len() == items@.len(),
                forall|q: int| 0 <= q < picked.len() ==> 0 <= #[trigger] picked[q] < j,
                forall|a: int, b: int| 0 <= a < b < picked.len() ==> picked[a] < picked[b],
                forall|q: int| 0 <= q < items@.len() ==> gallery_matches(#[trigger] items@[q], self.rows@[ord@[picked[q]].1 as int]) && passes(self.rows@[ord@[picked[q]].1 as int], opt_seq(tag_filter)),
                forall|q: int| 0 <= q < j && passes(self.rows@[ord@[q].1 as int], opt_seq(tag_filter)) ==> exists|p: int| 0 <= p < picked.len() && #[trigger] picked[p] == q,
            decreases ord.len() - j,
        {
            let row = &self.rows[ord[j].1];
            let keep_it = match tag_filter {
                Some(f) => has_tag(&row.tags, f),
                None => true,
            };
            if keep_it {
                let g = GalleryNote {
                    uid: row.uid.clone(),
                    title: row.title.clone(),
                    preview: row.preview.clone(),
                    tags: copy_strings(&row.tags),
                    created_at: row.created_at,
                    updated_at: row.updated_at,
                };
                let ghost i0 = items@;
                let ghost p0 = picked;
                items.push(g);
                proof {
                    picked = picked.push(j as int);
                    assert(picked[picked.len() - 1] == j);
                    assert(gallery_matches(items@[i0.len() as int], self.rows@[ord@[j as int].1 as int]));
                    assert forall|q: int| 0 <= q < items@.len() implies gallery_matches(#[trigger] items@[q], self.rows@[ord@[picked[q]].1 as int]) && passes(self.rows@[ord@[picked[q]].1 as int], opt_seq(tag_filter)) by {
                        if q < i0.len() {
                            assert(items@[q] == i0[q]);
                            assert(picked[q] == p0[q]);
                        }
                    }
                    assert forall|q: int| 0 <= q < j + 1 && passes(self.rows@[ord@[q].1 as int], opt_seq(tag_filter)) implies exists|p: int| 0 <= p < picked.len() && #[trigger] picked[p] == q by {
                        if q < j {
                            let p = choose|p: int| 0 <= p < p0.len() && #[trigger] p0[p] == q;
                            assert(picked[p] == p0[p]);
                        } else {
                            assert(picked[p0.len() as int] == q);
                        }
                    }
                }
            } else {
                proof {
                    assert forall|q: int| 0 <= q < j + 1 && passes(self.rows@[ord@[q].1 as int], opt_seq(tag_filter)) implies exists|p: int| 0 <= p < picked.len() && #[trigger] picked[p] == q by {
                        if q < j {
                        }
                    }
                }
            }
            j = j + 1;
        }
        proof {
            assert forall|q: int| 0 <= q < items@.len() implies gallery_from_row(self.rows(), opt_seq(tag_filter), #[trigger] items@[q]) by {
                assert(gallery_matches(items@[q], self.rows@[ord@[picked[q]].1 as int]));
                let pq = picked[q];
                assert(0 <= pq < ord@.len());
                assert(ord@[pq].1 < self.rows@.len());
                let ri = ord@[pq].1 as int;
                assert(gallery_matches(items@[q], self.rows@[ri]) && passes(self.rows@[ri], opt_seq(tag_filter)));
                lemma_keyed_value(self.rows@, row_key(), ri);
                let k = self.rows@[ri].uid@;
                assert(self.rows().contains_key(k) && passes(self.rows()[k], opt_seq(tag_filter)) && gallery_matches(items@[q], self.rows()[k]));
            }
            assert forall|k: Seq<char>| self.rows().contains_key(k) && passes(self.rows()[k], opt_seq(tag_filter)) implies #[trigger] gallery_shows(items@, self.rows()[k]) by {
                lemma_keyed_domain(self.rows@, row_key(), k);
                let i = choose|i: int| 0 <= i < self.rows@.len() && row_key()(#[trigger] self.rows@[i]) == k;
                lemma_keyed_value(self.rows@, row_key(), i);
                assert(listed(ord@, i));
                let q = choose|q: int| 0 <= q < ord@.len() && (#[trigger] ord@[q]).1 == i;
                let p = choose|p: int| 0 <= p < picked.len() && #[trigger] picked[p] == q;
                assert(gallery_matches(items@[p], self.rows()[k]));
            }
            assert forall|a: int, b: int| 0 <= a < b < items@.len() implies !ts_lt(gallery_time(#[trigger] items@[a], sort_by_created), gallery_time(#[trigger] items@[b], sort_by_created)) by {
                assert(picked[a] < picked[b]);
                assert(!ts_lt(ord@[picked[a]].0, ord@[picked[b]].0));
            }
            assert forall|a: int, b: int| 0 <= a < b < items@.len() implies (#[trigger] items@[a]).uid@ != (#[trigger] items@[b]).uid@ by {
                assert(picked[a] < picked[b]);
                let pa = picked[a];
                let pb = picked[b];
                assert(ord@[pa].1 != ord@[pb].1);
                assert(gallery_matches(items@[a], self.rows@[ord@[pa].1 as int]));
                assert(gallery_matches(items@[b], self.rows@[ord@[pb].1 as int]));
                let x = ord@[pa].1 as int;
                let y = ord@[pb].1 as int;
                if x < y {
                    assert(row_key()(self.rows@[x]) != row_key()(self.rows@[y]));
                } else {
                    assert(row_key()(self.rows@[y]) != row_key()(self.rows@[x]));
                }
            }
        }
        items
    }

    /// The notes that link to note `uid`: each note with an edge to its
    /// case-folded title, once. Empty where `uid` is not indexed.
    pub fn get_backlinks(&self, uid: &str) -> (r: Vec<IndexedBacklink>)
        requires
            self.wf(),
        ensures
            !self.rows().contains_key(uid@) ==> r@.len() == 0,
            self.rows().contains_key(uid@) ==> {
                let t = lower_of(self.rows()[uid@].title@);
                &&& forall|j: int| 0 <= j < r@.len() ==> links_to(self.rows(), self.edges(), (#[trigger] r@[j]).source_uid@, t)
                    && r@[j].source_title@ == self.rows()[r@[j].source_uid@].title@
                &&& forall|s: Seq<char>| links_to(self.rows(), self.edges(), s, t) ==> #[trigger] lists_source(r@, s)
                &&& forall|a: int, b: int| 0 <= a < b < r@.len() ==> (#[trigger] r@[a]).source_uid@ != (#[trigger] r@[b]).source_uid@
            },
    {
        let mut out: Vec<IndexedBacklink> = Vec::new();
        let pos = match self.row_pos(uid) {
            Some(p) => p,
            None => {
                return out;
            },
        };
        let t = lowercase(self.rows[pos].title.as_str());
        let mut q: usize = 0;
        while q < self.edges.len()
            invariant
                self.wf(),
                self.rows().contains_key(uid@),
                t@ == lower_of(self.rows()[uid@].title@),
                q <= self.edges@.len(),
                forall|j: int| 0 <= j < out@.len() ==> links_to(self.rows(), self.edges(), (#[trigger] out@[j]).source_uid@, t@)
                    && out@[j].source_title@ == self.rows()[out@[j].source_uid@].title@,
                forall|e: int| 0 <= e < q && self.rows().contains_key(self.edges()[e].source) && (#[trigger] self.edges()[e]).target == t@ ==> lists_source(out@, self.edges()[e].source),
                forall|a: int, b: int| 0 <= a < b < out@.len() ==> (#[trigger] out@[a]).source_uid@ != (#[trigger] out@[b]).source_uid@,
            decreases self.edges.len() - q,
        {
            proof {
                assert(self.edges()[q as int] == self.edges@[q as int]@);
            }
            if str_eq(self.edges[q].target_title.as_str(), t.as_str()) {
                let src = self.edges[q].source_uid.as_str();
                match self.row_pos(src) {
                    Some(sp) => {
                        let mut seen = false;
                        let mut a: usize = 0;
                        while a < out.len()
                            invariant
                                a <= out@.len(),
                                seen == exists|b: int| 0 <= b < a && (#[trigger] out@[b]).source_uid@ == src@,
                            decreases out.len() - a,
                        {
                            if str_eq(out[a].source_uid.as_str(), src) {
                                seen = true;
                            }
                            a = a + 1;
                        }
                        if !seen {
                            let b = IndexedBacklink { source_uid: String::from_str(src), source_title: self.rows[sp].title.clone() };
                            let ghost o0 = out@;
                            out.push(b);
                            proof {
                                assert(links_to(self.rows(), self.edges(), src@, t@));
                                assert(out@[o0.len() as int].source_uid@ == src@);
                                assert forall|e: int| 0 <= e < q && self.rows().contains_key(self.edges()[e].source) && (#[trigger] self.edges()[e]).target == t@ implies lists_source(out@, self.edges()[e].source) by {
                                    assert(lists_source(o0, self.edges()[e].source));
                                    let w = choose|w: int| 0 <= w < o0.len() && (#[trigger] o0[w]).source_uid@ == self.edges()[e].source;
                                    assert(out@[w] == o0[w]);
                                }
                            }
                        }
                        proof {
                            assert(lists_source(out@, src@));
                        }
                    },
                    None => {},
                }
            }
            q = q + 1;
        }
        proof {
            assert forall|s: Seq<char>| links_to(self.rows(), self.edges(), s, t@) implies #[trigger] lists_source(out@, s) by {
                let e = choose|e: int| 0 <= e < self.edges().len() && (#[trigger] self.edges()[e]).source == s && self.edges()[e].target == t@;
            }
        }
        out
    }
}

/// A title entry that points outside `ids`.
pub open spec fn title_outside(ids: Set<Seq<char>>) -> spec_fn(TitleEntry) -> bool {
    |e: TitleEntry| !ids.contains(e.uid@)
}

/// Ids of the rows whose file is not among `existing`.
pub open spec fn orphan_keys(rows: Map<Seq<char>, IndexRow>, existing: Seq<Seq<char>>) -> Set<Seq<char>> {
    Set::new(|k: Seq<char>| rows.contains_key(k) && !existing.contains(rows[k].file_path@))
}

impl NoteIndex {
    /// Ids of the rows whose file path is not among `existing`.
    fn orphans(&self, existing: &Vec<String>) -> (r: Vec<String>)
        requires
            self.wf(),
        ensures
            strs(r@).to_set() == orphan_keys(self.rows(), strs(existing@)),
    {
        let mut out: Vec<String> = Vec::new();
        let mut i: usize = 0;
        while i < self.rows.len()
            invariant
                self.wf(),
                i <= self.rows@.len(),
                forall|q: int| 0 <= q < i ==> (!strs(existing@).contains((#[trigger] self.rows@[q]).file_path@) <==> strs(out@).contains(self.rows@[q].uid@)),
                forall|x: Seq<char>| #[trigger] strs(out@).contains(x) ==> exists|q: int| 0 <= q < i && (#[trigger] self.rows@[q]).uid@ == x && !strs(existing@).contains(self.rows@[q].file_path@),
            decreases self.rows.len() - i,
        {
            let ghost o0 = out@;
            if !has_tag(existing, self.rows[i].file_path.as_str()) {
                out.push(self.rows[i].uid.clone());
                proof {
                    assert(strs(out@) =~= strs(o0).push(self.rows@[i as int].uid@));
                }
            }
            proof {
                assert forall|q: int| 0 <= q < i + 1 implies (!strs(existing@).contains((#[trigger] self.rows@[q]).file_path@) <==> strs(out@).contains(self.rows@[q].uid@)) by {
                    if q < i {
                        if strs(out@).contains(self.rows@[q].uid@) && !strs(o0).contains(self.rows@[q].uid@) {
                            assert(self.rows@[q].uid@ == self.rows@[i as int].uid@);
                        }
                        if strs(o0).contains(self.rows@[q].uid@) {
                            let w = choose|w: int| 0 <= w < strs(o0).len() && strs(o0)[w] == self.rows@[q].uid@;
                            assert(strs(out@)[w] == strs(o0)[w]);
                        }
                    } else {
                        if strs(out@).contains(self.rows@[q].uid@) && strs(o0).contains(self.rows@[q].uid@) {
                            let q2 = choose|q2: int| 0 <= q2 < i && (#[trigger] self.rows@[q2]).uid@ == self.rows@[q].uid@ && !strs(existing@).contains(self.rows@[q2].file_path@);
                            assert(row_key()(self.rows@[q2]) != row_key()(self.rows@[q]));
                        }
                        if !strs(existing@).contains(self.rows@[q].file_path@) {
                            assert(strs(out@)[strs(out@).len() - 1] == self.rows@[q].uid@);
                        }
                    }
                }
                assert forall|x: Seq<char>| #[trigger] strs(out@).contains(x) implies exists|q: int| 0 <= q < i + 1 && (#[trigger] self.rows@[q]).uid@ == x && !strs(existing@).contains(self.rows@[q].file_path@) by {
                    let w = choose|w: int| 0 <= w < strs(out@).len() && strs(out@)[w] == x;
                    if w < o0.len() {
                        assert(strs(o0)[w] == x);
                        assert(strs(o0).contains(x));
                    } else {
                        assert(self.rows@[i as int].uid@ == x);
                    }
                }
            }
            i = i + 1;
        }
        proof {
            assert forall|k: Seq<char>| strs(out@).to_set().contains(k) <==> orphan_keys(self.rows(), strs(existing@)).contains(k) by {
                if strs(out@).contains(k) {
                    let q = choose|q: int| 0 <= q < self.rows@.len() && (#[trigger] self.rows@[q]).uid@ == k && !strs(existing@).contains(self.rows@[q].file_path@);
                    lemma_keyed_value(self.rows@, row_key(), q);
                }
                if orphan_keys(self.rows(), strs(existing@)).contains(k) {
                    lemma_keyed_domain(self.rows@, row_key(), k);
                    let q = choose|q: int| 0 <= q < self.rows@.len() && row_key()(#[trigger] self.rows@[q]) == k;
                    lemma_keyed_value(self.rows@, row_key(), q);
                }
            }
            assert(strs(out@).to_set() =~= orphan_keys(self.rows(), strs(existing@)));
        }
        out
    }

    /// Removes every note whose file path is not among `existing` (with its
    /// title entry and edges) and returns how many were removed.
    pub fn remove_orphans(&mut self, existing: &Vec<String>) -> (r: usize)
        requires
            old(self).wf(),
        ensures
            final(self).wf(),
            final(self).rows() == old(self).rows().remove_keys(orphan_keys(old(self).rows(), strs(existing@))),
            r == old(self).rows().len() - final(self).rows().len(),
            r == orphan_keys(old(self).rows(), strs(existing@)).len(),
            forall|t: Seq<char>| #[trigger] old(self).titles().contains_key(t) && !orphan_keys(old(self).rows(), strs(existing@)).contains(old(self).titles()[t].uid@)
                ==> final(self).titles().contains_key(t) && final(self).titles()[t] == old(self).titles()[t],
            final(self).titles() == restrict(old(self).titles(), title_outside(orphan_keys(old(self).rows(), strs(existing@)))),
            forall|e: EdgeModel| #[trigger] final(self).edges().contains(e) <==> (old(self).edges().contains(e) && !orphan_keys(old(self).rows(), strs(existing@)).contains(e.source)),
    {
        let orph = self.orphans(existing);
        let before = self.count();
        let ghost r0 = self.rows();
        let ghost t0 = self.titles();
        let ghost e0 = self.edges();
        let mut j: usize = 0;
        proof {
            assert(strs(orph@).take(0).to_set() =~= Set::<Seq<char>>::empty());
            assert(forall|e: EdgeModel| !(#[trigger] strs(orph@).take(0).contains(e.source)));
            assert(self.rows() =~= r0.remove_keys(Set::<Seq<char>>::empty()));
        }
        while j < orph.len()
            invariant
                self.wf(),
                j <= orph@.len(),
                self.rows() == r0.remove_keys(strs(orph@).take(j as int).to_set()),
                t0 == old(self).titles(),
                forall|t: Seq<char>| #[trigger] t0.contains_key(t) && !strs(orph@).take(j as int).contains(t0[t].uid@)
                    ==> self.titles().contains_key(t) && self.titles()[t] == t0[t],
                forall|t: Seq<char>| #[trigger] self.titles().contains_key(t) ==> t0.contains_key(t) && self.titles()[t] == t0[t],
                e0 == old(self).edges(),
                forall|e: EdgeModel| #[trigger] self.edges().contains(e) <==> (e0.contains(e) && !strs(orph@).take(j as int).contains(e.source)),
            decreases orph.len() - j,
        {
            let ghost tj = self.titles();
            let ghost ej = self.edges();
            self.delete_note(orph[j].as_str());
            proof {
                assert forall|t: Seq<char>| #[trigger] t0.contains_key(t) && !strs(orph@).take(j + 1).contains(t0[t].uid@)
                    implies self.titles().contains_key(t) && self.titles()[t] == t0[t] by {
                    assert(strs(orph@).take(j + 1)[j as int] == orph@[j as int]@);
                    if strs(orph@).take(j as int).contains(t0[t].uid@) {
                        let w = choose|w: int| 0 <= w < j && strs(orph@).take(j as int)[w] == t0[t].uid@;
                        assert(strs(orph@).take(j + 1)[w] == t0[t].uid@);
                    }
                    assert(t0[t].uid@ != orph@[j as int]@);
                    assert(tj.contains_key(t) && tj[t] == t0[t]);
                }
                assert(strs(orph@).take(j + 1) =~= strs(orph@).take(j as int).push(orph@[j as int]@));
                let sj = strs(orph@).take(j as int);
                let sj1 = strs(orph@).take(j + 1);
                assert(sj1 == sj.push(orph@[j as int]@));
                assert forall|e: EdgeModel| #[trigger] self.edges().contains(e) <==> (e0.contains(e) && !sj1.contains(e.source)) by {
                    crate::keyed::lemma_keep_contains(ej, not_from(orph@[j as int]@), e);
                    if sj1.contains(e.source) && !sj.contains(e.source) {
                        let w = choose|w: int| 0 <= w < sj1.len() && #[trigger] sj1[w] == e.source;
                        if w < sj.len() {
                            assert(sj[w] == e.source);
                        }
                    }
                    if sj.contains(e.source) {
                        let w = choose|w: int| 0 <= w < sj.len() && #[trigger] sj[w] == e.source;
                        assert(sj1[w] == e.source);
                    }
                }
                strs(orph@).take(j as int).lemma_push_to_set_commute(orph@[j as int]@);
                assert(self.rows() =~= r0.remove_keys(strs(orph@).take(j + 1).to_set()));
            }
            j = j + 1;
        }
        proof {
            assert(strs(orph@).take(orph@.len() as int) =~= strs(orph@));
            lemma_keyed_len(self.rows@, row_key());
            lemma_keyed_len(old(self).rows@, row_key());
            assert(self.rows().dom().subset_of(r0.dom()));
            vstd::set_lib::lemma_len_subset(self.rows().dom(), r0.dom());
            let o = orphan_keys(r0, strs(existing@));
            assert(o.subset_of(r0.dom()));
            vstd::set_lib::lemma_set_subset_finite(r0.dom(), o);
            assert(self.rows().dom() =~= r0.dom().difference(o));
            vstd::set_lib::lemma_set_disjoint_lens(self.rows().dom(), o);
            assert(self.rows().dom() + o =~= r0.dom());
            assert forall|t: Seq<char>| #[trigger] t0.contains_key(t) && !orphan_keys(r0, strs(existing@)).contains(t0[t].uid@)
                implies self.titles().contains_key(t) && self.titles()[t] == t0[t] by {
                if strs(orph@).contains(t0[t].uid@) {
                    assert(strs(orph@).to_set().contains(t0[t].uid@));
                }
            }
            lemma_index_facts(*self);
            assert(self.titles() =~= restrict(t0, title_outside(orphan_keys(r0, strs(existing@))))) by {
                assert forall|t: Seq<char>| #[trigger] self.titles().contains_key(t) implies !orphan_keys(r0, strs(existing@)).contains(self.titles()[t].uid@) by {
                    assert(self.rows().contains_key(self.titles()[t].uid@));
                }
            }
            assert forall|e: EdgeModel| #[trigger] self.edges().contains(e) <==> (e0.contains(e) && !orphan_keys(r0, strs(existing@)).contains(e.source)) by {
                if strs(orph@).contains(e.source) {
                    assert(strs(orph@).to_set().contains(e.source));
                }
                if orphan_keys(r0, strs(existing@)).contains(e.source) {
                    assert(strs(orph@).to_set().contains(e.source));
                }
            }
        }
        let after = self.count();
        before - after
    }

    /// Empties the index and indexes each of `notes` in turn, without
    /// previews or tags. It fails exactly where some note meets an earlier
    /// one of another id that holds its file path (see [`clashes`]); on
    /// success each id holds the row of its last note.
    pub fn rebuild_full(&mut self, notes: &Vec<IndexedNote>) -> (r: Result<(), IndexError>)
        requires
            old(self).wf(),
        ensures
            final(self).wf(),
            r is Err <==> exists|j: int| 0 <= j < notes@.len() && #[trigger] clashes(notes@, j),
            r is Ok ==> forall|k: Seq<char>| final(self).rows().contains_key(k) <==> exists|i: int| 0 <= i < notes@.len() && (#[trigger] notes@[i]).uid@ == k,
            r is Ok ==> forall|i: int| 0 <= i < notes@.len() && #[trigger] latest_before(notes@, i, notes@.len() as int)
                ==> row_written(final(self).rows()[notes@[i].uid@], notes@[i], Seq::empty(), Seq::empty()),
    {
        *self = NoteIndex::new();
        let mut i: usize = 0;
        while i < notes.len()
            invariant
                self.wf(),
                i <= notes@.len(),
                forall|k: Seq<char>| self.rows().contains_key(k) <==> exists|q: int| 0 <= q < i && (#[trigger] notes@[q]).uid@ == k,
                forall|q: int| 0 <= q < i && #[trigger] latest_before(notes@, q, i as int)
                    ==> row_written(self.rows()[notes@[q].uid@], notes@[q], Seq::empty(), Seq::empty()),
                forall|j: int| 0 <= j < i ==> !#[trigger] clashes(notes@, j),
            decreases notes.len() - i,
        {
            let ghost m0 = self.rows();
            proof {
                assert(path_taken(m0, notes@[i as int].uid@, notes@[i as int].file_path@) <==> clashes(notes@, i as int)) by {
                    let n = notes@[i as int];
                    if path_taken(m0, n.uid@, n.file_path@) {
                        let k = choose|k: Seq<char>| m0.contains_key(k) && k != n.uid@ && (#[trigger] m0[k]).file_path@ == n.file_path@;
                        let q0 = choose|q: int| 0 <= q < i && (#[trigger] notes@[q]).uid@ == k;
                        lemma_latest(notes@, q0, i as int);
                        let q = choose|q: int| 0 <= q < i && notes@[q].uid@ == k && #[trigger] latest_before(notes@, q, i as int);
                        assert(latest_before(notes@, q, i as int) && notes@[q].uid@ != n.uid@ && notes@[q].file_path@ == n.file_path@);
                    }
                    if clashes(notes@, i as int) {
                        let q = choose|q: int| 0 <= q < i && #[trigger] latest_before(notes@, q, i as int) && notes@[q].uid@ != n.uid@
                            && notes@[q].file_path@ == n.file_path@;
                        assert(m0.contains_key(notes@[q].uid@));
                    }
                }
            }
            match self.upsert_note(&notes[i]) {
                Ok(()) => {},
                Err(e) => {
                    return Err(e);
                },
            }
            proof {
                let n = notes@[i as int];
                assert forall|k: Seq<char>| self.rows().contains_key(k) <==> exists|q: int| 0 <= q < i + 1 && (#[trigger] notes@[q]).uid@ == k by {
                    if k != n.uid@ && self.rows().contains_key(k) {
                        assert(m0.contains_key(k));
                    }
                }
                assert forall|q: int| 0 <= q < i + 1 && #[trigger] latest_before(notes@, q, i + 1)
                    implies row_written(self.rows()[notes@[q].uid@], notes@[q], Seq::empty(), Seq::empty()) by {
                    if q < i {
                        assert(notes@[q].uid@ != n.uid@);
                        assert(latest_before(notes@, q, i as int));
                    }
                }
            }
            i = i + 1;
        }
        Ok(())
    }
}

/// Note `i` is the last note of its id before position `j`.
pub open spec fn latest_before(notes: Seq<IndexedNote>, i: int, j: int) -> bool {
    &&& 0 <= i < j
    &&& forall|q: int| i < q < j ==> (#[trigger] notes[q]).uid@ != notes[i].uid@
}

/// Note `j` meets the last earlier note of another id with the same file
/// path.
pub open spec fn clashes(notes: Seq<IndexedNote>, j: int) -> bool {
    exists|i: int| 0 <= i < j && #[trigger] latest_before(notes, i, j) && notes[i].uid@ != notes[j].uid@ && notes[i].file_path@ == notes[j].file_path@
}

proof fn lemma_latest(notes: Seq<IndexedNote>, q: int, j: int)
    requires
        0 <= q < j <= notes.len(),
    ensures
        exists|p: int| 0 <= p < j && notes[p].uid@ == notes[q].uid@ && #[trigger] latest_before(notes, p, j),
    decreases j - q,
{
    if exists|p: int| q < p < j && (#[trigger] notes[p]).uid@ == notes[q].uid@ {
        let p = choose|p: int| q < p < j && (#[trigger] notes[p]).uid@ == notes[q].uid@;
        lemma_latest(notes, p, j);
    } else {
        assert(latest_before(notes, q, j));
    }
}

/// The row an upsert writes for `note`.
pub open spec fn row_written(row: IndexRow, note: IndexedNote, preview: Seq<char>, tags: Seq<Seq<char>>) -> bool {
    &&& row.uid@ == note.uid@
    &&& row.title@ == note.title@
    &&& row.file_path@ == note.file_path@
    &&& row.content_hash@ == note.content_hash@
    &&& row.created_at == note.created_at
    &&& row.updated_at == note.updated_at
    &&& row.preview@ == preview
    &&& strs(row.tags@) == tags
    &&& row.indexed_at.valid()
}

/// Some entry of the listing shows `row`.
pub open spec fn shows_row(items: Seq<NoteListItem>, row: IndexRow) -> bool {
    exists|j: int| 0 <= j < items.len() && item_matches(#[trigger] items[j], row)
}

/// The entry shows some indexed row.
pub open spec fn from_some_row(rows: Map<Seq<char>, IndexRow>, it: NoteListItem) -> bool {
    exists|k: Seq<char>| rows.contains_key(k) && item_matches(it, #[trigger] rows[k])
}

/// The index must take note `uid` again for a file with this hash: it is
/// not indexed, or was indexed with another hash.
pub open spec fn stale(rows: Map<Seq<char>, IndexRow>, uid: Seq<char>, hash: Seq<char>) -> bool {
    !rows.contains_key(uid) || rows[uid].content_hash@ != hash
}

/// The hash is a function of the text alone, so a file whose text is what
/// was indexed does not need indexing again, whatever else about the file
/// (its modification time) changed.
pub proof fn lemma_unchanged_text_not_stale(rows: Map<Seq<char>, IndexRow>, uid: Seq<char>, indexed_text: Seq<char>, current_text: Seq<char>)
    requires
        rows.contains_key(uid),
        rows[uid].content_hash@ == blake3_hex(indexed_text),
        current_text == indexed_text,
    ensures
        !stale(rows, uid, blake3_hex(current_text)),
{
}

/// What a well-formed index guarantees: each row is stored under its id and
/// no two rows share a file path; each title entry is stored under its
/// case-folded title and points at an indexed note with that title; each
/// edge leaves an indexed note.
pub proof fn lemma_index_facts(ix: NoteIndex)
    requires
        ix.wf(),
    ensures
        forall|k: Seq<char>| #[trigger] ix.rows().contains_key(k) ==> ix.rows()[k].uid@ == k,
        forall|k1: Seq<char>, k2: Seq<char>| ix.rows().contains_key(k1) && ix.rows().contains_key(k2) && k1 != k2
            ==> (#[trigger] ix.rows()[k1]).file_path@ != (#[trigger] ix.rows()[k2]).file_path@,
        forall|t: Seq<char>| #[trigger] ix.titles().contains_key(t) ==> ix.titles()[t].title_normalized@ == t
            && ix.rows().contains_key(ix.titles()[t].uid@) && lower_of(ix.rows()[ix.titles()[t].uid@].title@) == t,
        forall|e: EdgeModel| #[trigger] ix.edges().contains(e) ==> ix.rows().contains_key(e.source),
{
    assert forall|k: Seq<char>| #[trigger] ix.rows().contains_key(k) implies ix.rows()[k].uid@ == k by {
        lemma_keyed_domain(ix.rows@, row_key(), k);
        let i = choose|i: int| 0 <= i < ix.rows@.len() && row_key()(#[trigger] ix.rows@[i]) == k;
        lemma_keyed_value(ix.rows@, row_key(), i);
    }
    assert forall|k1: Seq<char>, k2: Seq<char>| ix.rows().contains_key(k1) && ix.rows().contains_key(k2) && k1 != k2
        implies (#[trigger] ix.rows()[k1]).file_path@ != (#[trigger] ix.rows()[k2]).file_path@ by {
        lemma_keyed_domain(ix.rows@, row_key(), k1);
        lemma_keyed_domain(ix.rows@, row_key(), k2);
        let i1 = choose|i: int| 0 <= i < ix.rows@.len() && row_key()(#[trigger] ix.rows@[i]) == k1;
        let i2 = choose|i: int| 0 <= i < ix.rows@.len() && row_key()(#[trigger] ix.rows@[i]) == k2;
        lemma_keyed_value(ix.rows@, row_key(), i1);
        lemma_keyed_value(ix.rows@, row_key(), i2);
        if i1 < i2 {
            assert(ix.rows@[i1].file_path@ != ix.rows@[i2].file_path@);
        } else {
            assert(ix.rows@[i2].file_path@ != ix.rows@[i1].file_path@);
        }
    }
    assert forall|t: Seq<char>| #[trigger] ix.titles().contains_key(t) implies ix.titles()[t].title_normalized@ == t by {
        lemma_keyed_domain(ix.titles@, title_key(), t);
        let i = choose|i: int| 0 <= i < ix.titles@.len() && title_key()(#[trigger] ix.titles@[i]) == t;
        lemma_keyed_value(ix.titles@, title_key(), i);
    }
}

/// The listing entry shows the row's id, title, path and update time.
pub open spec fn item_matches(it: NoteListItem, row: IndexRow) -> bool {
    &&& it.uid@ == row.uid@
    &&& it.title@ == row.title@
    &&& it.path@ == row.file_path@
    &&& it.updated_at == row.updated_at
}

fn item_of_row(row: &IndexRow) -> (r: NoteListItem)
    ensures
        item_matches(r, *row),
{
    NoteListItem { uid: row.uid.clone(), title: row.title.clone(), path: row.file_path.clone(), updated_at: row.updated_at }
}

/// Whether two strings hold the same characters.
pub fn str_eq(a: &str, b: &str) -> (r: bool)
    ensures
        r == (a@ == b@),
{
    let x = crate::text::chars_of(a);
    let y = crate::text::chars_of(b);
    if x.len() != y.len() {
        return false;
    }
    let mut i: usize = 0;
    while i < x.len()
        invariant
            x@ == a@,
            y@ == b@,
            x.len() == y.len(),
            i <= x.len(),
            forall|j: int| 0 <= j < i ==> x@[j] == y@[j],
        decreases x.len() - i,
    {
        if x[i] != y[i] {
            return false;
        }
        i = i + 1;
    }
    proof {
        assert(x@ =~= y@);
    }
    true
}

pub proof fn lemma_keyed_len<T>(v: Seq<T>, key: spec_fn(T) -> Seq<char>)
    requires
        unique_keys(v, key),
    ensures
        keyed(v, key).len() == v.len(),
        keyed(v, key).dom().finite(),
    decreases v.len(),
{
    if v.len() > 0 {
        let d = v.drop_last();
        assert(unique_keys(d, key)) by {
            assert forall|a: int, b: int| 0 <= a < b < d.len() implies key(#[trigger] d[a]) != key(#[trigger] d[b]) by {
                assert(key(v[a]) != key(v[b]));
            }
        }
        lemma_keyed_len(d, key);
        lemma_keyed_domain(d, key, key(v.last()));
        if exists|j: int| 0 <= j < d.len() && key(#[trigger] d[j]) == key(v.last()) {
            let j = choose|j: int| 0 <= j < d.len() && key(#[trigger] d[j]) == key(v.last());
            assert(key(v[j]) != key(v[v.len() - 1]));
        }
    }
}

} // verus!
