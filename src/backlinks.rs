//! The in-memory backlink graph: for each case-folded title, the notes whose
//! bodies link to it, kept in step with every save and delete, and the
//! context snippets shown for each backlink.
use vstd::prelude::*;
use crate::index::str_eq;
use crate::keyed::{keep, keyed, lemma_keyed_domain, lemma_keyed_push, lemma_keyed_remove, lemma_keyed_update, lemma_keyed_value, unique_keys};
use crate::text::{lower_of, lowercase};
use crate::wiki::{context_snippet, extract_context, extract_wiki_links, links_view, wiki_links, BacklinkInfo, LinkModel};

verus! {

/// Characters of context on each side of a link.
pub const CONTEXT_CHARS: usize = 40;

/// A note as the graph caches it.
pub struct GraphNote {
    pub uid: String,
    pub title: String,
    pub content: String,
}

/// A link from `source` to the case-folded title `target`.
pub struct GraphEdge {
    pub target: String,
    pub source: String,
}

pub open spec fn note_key() -> spec_fn(GraphNote) -> Seq<char> {
    |n: GraphNote| n.uid@
}

/// The body links to the case-folded title `t`.
pub open spec fn links_to_title(content: Seq<char>, t: Seq<char>) -> bool {
    exists|i: int| 0 <= i < wiki_links(content).len() && lower_of((#[trigger] wiki_links(content)[i]).title) == t
}

/// Offset of the first link of `links` to the case-folded title `t`, or 0.
pub open spec fn first_link_position(links: Seq<LinkModel>, t: Seq<char>) -> int
    decreases links.len(),
{
    if links.len() == 0 {
        0
    } else if lower_of(links[0].title) == t {
        links[0].position
    } else {
        first_link_position(links.drop_first(), t)
    }
}

/// The graph: cached notes and the links between them.
pub struct BacklinkIndex {
    notes: Vec<GraphNote>,
    links: Vec<GraphEdge>,
}

impl BacklinkIndex {
    /// The cached notes by id.
    pub closed spec fn notes(&self) -> Map<Seq<char>, GraphNote> {
        keyed(self.notes@, note_key())
    }

    /// Some edge goes from `u` to `t`.
    pub closed spec fn linked(&self, t: Seq<char>, u: Seq<char>) -> bool {
        edge_pairs(self.links@).contains((t, u))
    }

    /// Each note is cached once, and the edges are exactly the links of the
    /// cached bodies.
    pub closed spec fn wf(&self) -> bool {
        &&& unique_keys(self.notes@, note_key())
        &&& forall|t: Seq<char>, u: Seq<char>| #[trigger] self.linked(t, u) <==> (self.notes().contains_key(u) && links_to_title(self.notes()[u].content@, t))
    }

    /// An empty graph.
    pub fn new() -> (r: BacklinkIndex)
        ensures
            r.wf(),
            r.notes() == Map::<Seq<char>, GraphNote>::empty(),
    {
        BacklinkIndex { notes: Vec::new(), links: Vec::new() }
    }

    fn note_pos(&self, uid: &str) -> (r: Option<usize>)
        requires
            unique_keys(self.notes@, note_key()),
        ensures
            match r {
                Some(i) => i < self.notes@.len() && self.notes@[i as int].uid@ == uid@ && self.notes().contains_key(uid@) && self.notes()[uid@] == self.notes@[i as int],
                None => !self.notes().contains_key(uid@),
            },
    {
        let mut i: usize = 0;
        while i < self.notes.len()
            invariant
                unique_keys(self.notes@, note_key()),
                i <= self.notes@.len(),
                forall|j: int| 0 <= j < i ==> (#[trigger] self.notes@[j]).uid@ != uid@,
            decreases self.notes.len() - i,
        {
            if str_eq(self.notes[i].uid.as_str(), uid) {
                proof {
                    lemma_keyed_value(self.notes@, note_key(), i as int);
                }
                return Some(i);
            }
            i = i + 1;
        }
        proof {
            lemma_keyed_domain(self.notes@, note_key(), uid@);
        }
        None
    }

    /// Removes the edges that leave `uid`.
    fn remove_links_from(&mut self, uid: &str)
        ensures
            final(self).notes@ == old(self).notes@,
            edge_pairs(final(self).links@) == keep(edge_pairs(old(self).links@), not_source(uid@)),
            forall|t: Seq<char>, u: Seq<char>| #[trigger] final(self).linked(t, u) <==> (old(self).linked(t, u) && u != uid@),
    {
        let mut out: Vec<GraphEdge> = Vec::new();
        let mut i: usize = 0;
        proof {
            assert(edge_pairs(out@) =~= keep(edge_pairs(self.links@).take(0), not_source(uid@)));
        }
        while i < self.links.len()
            invariant
                i <= self.links@.len(),
                self.links@ == old(self).links@,
                self.notes@ == old(self).notes@,
                edge_pairs(out@) == keep(edge_pairs(self.links@).take(i as int), not_source(uid@)),
            decreases self.links.len() - i,
        {
            proof {
                assert(edge_pairs(self.links@).take(i + 1).drop_last() =~= edge_pairs(self.links@).take(i as int));
                assert(edge_pairs(self.links@).take(i + 1).last() == (self.links@[i as int].target@, self.links@[i as int].source@));
            }
            if !str_eq(self.links[i].source.as_str(), uid) {
                let e = GraphEdge { target: self.links[i].target.clone(), source: self.links[i].source.clone() };
                let ghost o0 = out@;
                out.push(e);
                proof {
                    assert(edge_pairs(out@) =~= edge_pairs(o0).push((e.target@, e.source@)));
                }
            }
            i = i + 1;
        }
        proof {
            assert(edge_pairs(self.links@).take(i as int) =~= edge_pairs(self.links@));
        }
        self.links = out;
        proof {
            assert forall|t: Seq<char>, u: Seq<char>| #[trigger] self.linked(t, u) <==> (old(self).linked(t, u) && u != uid@) by {
                crate::keyed::lemma_keep_contains(edge_pairs(old(self).links@), not_source(uid@), (t, u));
            }
        }
    }
}

impl BacklinkIndex {
    /// Adds the edges of `content`, leaving `uid`.
    fn add_links(&mut self, uid: &str, content: &str)
        ensures
            final(self).notes@ == old(self).notes@,
            forall|t: Seq<char>, u: Seq<char>| #[trigger] edge_pairs(final(self).links@).contains((t, u)) <==> (edge_pairs(old(self).links@).contains((t, u)) || (u == uid@ && links_to_title(content@, t))),
    {
        let links = extract_wiki_links(content);
        let mut j: usize = 0;
        while j < links.len()
            invariant
                self.notes@ == old(self).notes@,
                links_view(links@) == wiki_links(content@),
                j <= links@.len(),
                forall|t: Seq<char>, u: Seq<char>| #[trigger] edge_pairs(self.links@).contains((t, u)) <==> (edge_pairs(old(self).links@).contains((t, u))
                    || (u == uid@ && exists|q: int| 0 <= q < j && lower_of((#[trigger] wiki_links(content@)[q]).title) == t)),
            decreases links.len() - j,
        {
            let t = lowercase(links[j].title.as_str());
            let ghost l0 = self.links@;
            assert(forall|tt: Seq<char>, u: Seq<char>| #[trigger] edge_pairs(l0).contains((tt, u)) <==> (edge_pairs(old(self).links@).contains((tt, u))
                || (u == uid@ && exists|q: int| 0 <= q < j && lower_of((#[trigger] wiki_links(content@)[q]).title) == tt)));
            self.links.push(GraphEdge { target: t, source: String::from_str(uid) });
            proof {
                assert(links_view(links@)[j as int] == links@[j as int]@);
                assert(edge_pairs(self.links@) =~= edge_pairs(l0).push((t@, uid@)));
                assert forall|tt: Seq<char>, u: Seq<char>| #[trigger] edge_pairs(self.links@).contains((tt, u)) <==> (edge_pairs(old(self).links@).contains((tt, u))
                    || (u == uid@ && exists|q: int| 0 <= q < j + 1 && lower_of((#[trigger] wiki_links(content@)[q]).title) == tt)) by {
                    let before = edge_pairs(l0).contains((tt, u));
                    if u == uid@ && (exists|q: int| 0 <= q < j + 1 && lower_of((#[trigger] wiki_links(content@)[q]).title) == tt) {
                        let q = choose|q: int| 0 <= q < j + 1 && lower_of((#[trigger] wiki_links(content@)[q]).title) == tt;
                        if q == j {
                            assert(edge_pairs(self.links@)[l0.len() as int] == (tt, u));
                        } else {
                            assert(before);
                        }
                    }
                    if edge_pairs(self.links@).contains((tt, u)) && !before {
                        let w = choose|w: int| 0 <= w < edge_pairs(self.links@).len() && edge_pairs(self.links@)[w] == (tt, u);
                        if w < l0.len() {
                            assert(edge_pairs(l0)[w] == (tt, u));
                        } else {
                            assert(lower_of(wiki_links(content@)[j as int].title) == tt);
                        }
                    }
                    if edge_pairs(l0).contains((tt, u)) {
                        let w = choose|w: int| 0 <= w < edge_pairs(l0).len() && edge_pairs(l0)[w] == (tt, u);
                        assert(edge_pairs(self.links@)[w] == (tt, u));
                    }
                    if self.linked(tt, u) && !edge_pairs(l0).contains((tt, u)) {
                        let w = choose|w: int| 0 <= w < edge_pairs(self.links@).len() && edge_pairs(self.links@)[w] == (tt, u);
                        if w < l0.len() {
                            assert(edge_pairs(l0)[w] == (tt, u));
                        }
                    }
                    if u == uid@ && lower_of(wiki_links(content@)[j as int].title) == tt {
                        assert(edge_pairs(self.links@)[l0.len() as int] == (tt, u));
                    }
                }
            }
            j = j + 1;
        }
    }

    /// Caches `uid` with `title` and `content` and replaces its edges with
    /// the links of `content`.
    pub fn index_note(&mut self, uid: &str, title: &str, content: &str)
        requires
            old(self).wf(),
        ensures
            final(self).wf(),
            final(self).notes().contains_key(uid@),
            final(self).notes() == old(self).notes().insert(uid@, final(self).notes()[uid@]),
            final(self).notes()[uid@].title@ == title@,
            final(self).notes()[uid@].content@ == content@,
    {
        self.remove_links_from(uid);
        let entry = GraphNote { uid: String::from_str(uid), title: String::from_str(title), content: String::from_str(content) };
        let ghost ev = entry;
        let ghost n0 = self.notes@;
        let ghost links_mid = self.links@;
        match self.note_pos(uid) {
            Some(i) => {
                self.notes.set(i, entry);
                proof {
                    lemma_keyed_update(n0, note_key(), i as int, ev);
                    lemma_keyed_value(self.notes@, note_key(), i as int);
                }
            },
            None => {
                self.notes.push(entry);
                proof {
                    lemma_keyed_push(n0, note_key(), ev);
                    lemma_keyed_value(self.notes@, note_key(), n0.len() as int);
                }
            },
        }
        let ghost s2 = self.links@;
        self.add_links(uid, content);
        proof {
            assert forall|t: Seq<char>, u: Seq<char>| #[trigger] self.linked(t, u) <==> (self.notes().contains_key(u) && links_to_title(self.notes()[u].content@, t)) by {
                assert(edge_pairs(self.links@).contains((t, u)) <==> (edge_pairs(s2).contains((t, u)) || (u == uid@ && links_to_title(content@, t))));
                assert(edge_pairs(s2).contains((t, u)) <==> (edge_pairs(old(self).links@).contains((t, u)) && u != uid@)) by {
                    crate::keyed::lemma_keep_contains(edge_pairs(old(self).links@), not_source(uid@), (t, u));
                }
                assert(old(self).linked(t, u) <==> (old(self).notes().contains_key(u) && links_to_title(old(self).notes()[u].content@, t)));
            }
        }
    }

    /// Forgets note `uid`: its edges and its cached title and body.
    pub fn remove_note(&mut self, uid: &str)
        requires
            old(self).wf(),
        ensures
            final(self).wf(),
            final(self).notes() == old(self).notes().remove(uid@),
    {
        self.remove_links_from(uid);
        match self.note_pos(uid) {
            Some(i) => {
                let ghost n0 = self.notes@;
                self.notes.remove(i);
                proof {
                    lemma_keyed_remove(n0, note_key(), i as int);
                }
            },
            None => {
                proof {
                    assert(self.notes() =~= old(self).notes().remove(uid@));
                }
            },
        }
        proof {
            assert forall|t: Seq<char>, u: Seq<char>| #[trigger] self.linked(t, u) <==> (self.notes().contains_key(u) && links_to_title(self.notes()[u].content@, t)) by {
                assert(edge_pairs(self.links@).contains((t, u)) <==> (edge_pairs(old(self).links@).contains((t, u)) && u != uid@)) by {
                    crate::keyed::lemma_keep_contains(edge_pairs(old(self).links@), not_source(uid@), (t, u));
                }
                assert(old(self).linked(t, u) <==> (old(self).notes().contains_key(u) && links_to_title(old(self).notes()[u].content@, t)));
            }
        }
    }
}

/// Some entry of `r` comes from `u`.
pub open spec fn lists(r: Seq<BacklinkInfo>, u: Seq<char>) -> bool {
    exists|j: int| 0 <= j < r.len() && (#[trigger] r[j]).source_uid@ == u
}

/// The backlink shown for a note `n` that links to the case-folded title
/// `t`: its id and title, and the context of its first such link.
pub open spec fn shows_backlink(b: BacklinkInfo, n: GraphNote, t: Seq<char>) -> bool {
    &&& b.source_uid@ == n.uid@
    &&& b.source_title@ == n.title@
    &&& b.context@ == context_snippet(n.content@, first_link_position(wiki_links(n.content@), t), CONTEXT_CHARS as int)
}

/// Offset of the first link of `links` to `t` (see [`first_link_position`]).
fn first_position(links: &Vec<crate::wiki::ExtractedLink>, t: &str) -> (r: usize)
    ensures
        r as int == first_link_position(links_view(links@), t@),
{
    let mut i: usize = 0;
    proof {
        assert(links_view(links@).subrange(0, links@.len() as int) =~= links_view(links@));
    }
    while i < links.len()
        invariant
            i <= links@.len(),
            first_link_position(links_view(links@), t@) == first_link_position(links_view(links@).subrange(i as int, links@.len() as int), t@),
        decreases links.len() - i,
    {
        let l = lowercase(links[i].title.as_str());
        proof {
            assert(links_view(links@).subrange(i as int, links@.len() as int)[0] == links@[i as int]@);
            assert(links_view(links@).subrange(i as int, links@.len() as int).drop_first() =~= links_view(links@).subrange(i + 1, links@.len() as int));
        }
        if str_eq(l.as_str(), t) {
            return links[i].position;
        }
        i = i + 1;
    }
    proof {
        assert(links_view(links@).subrange(i as int, links@.len() as int) =~= Seq::<LinkModel>::empty());
    }
    0
}

impl BacklinkIndex {
    /// The notes that link to `title` (compared case-folded), once each,
    /// with their titles and the context of their first such link.
    pub fn get_backlinks(&self, title: &str) -> (r: Vec<BacklinkInfo>)
        requires
            self.wf(),
        ensures
            forall|j: int| 0 <= j < r@.len() ==> self.notes().contains_key((#[trigger] r@[j]).source_uid@)
                && links_to_title(self.notes()[r@[j].source_uid@].content@, lower_of(title@))
                && shows_backlink(r@[j], self.notes()[r@[j].source_uid@], lower_of(title@)),
            forall|u: Seq<char>| self.notes().contains_key(u) && links_to_title(self.notes()[u].content@, lower_of(title@)) ==> #[trigger] lists(r@, u),
            forall|a: int, b: int| 0 <= a < b < r@.len() ==> (#[trigger] r@[a]).source_uid@ != (#[trigger] r@[b]).source_uid@,
    {
        let t = lowercase(title);
        let mut out: Vec<BacklinkInfo> = Vec::new();
        let mut i: usize = 0;
        while i < self.links.len()
            invariant
                self.wf(),
                t@ == lower_of(title@),
                i <= self.links@.len(),
                forall|j: int| 0 <= j < out@.len() ==> self.notes().contains_key((#[trigger] out@[j]).source_uid@)
                    && links_to_title(self.notes()[out@[j].source_uid@].content@, t@)
                    && shows_backlink(out@[j], self.notes()[out@[j].source_uid@], t@),
                forall|w: int| 0 <= w < i && (#[trigger] edge_pairs(self.links@)[w]).0 == t@ ==> lists(out@, edge_pairs(self.links@)[w].1),
                forall|a: int, b: int| 0 <= a < b < out@.len() ==> (#[trigger] out@[a]).source_uid@ != (#[trigger] out@[b]).source_uid@,
            decreases self.links.len() - i,
        {
            proof {
                assert(edge_pairs(self.links@)[i as int] == (self.links@[i as int].target@, self.links@[i as int].source@));
            }
            if str_eq(self.links[i].target.as_str(), t.as_str()) {
                let src = self.links[i].source.as_str();
                let mut seen = false;
                let mut a: usize = 0;
                while a < out.len()
                    invariant
                        a <= out@.len(),
                        seen == exists|b: int| 0 <= b < a && (#[trigger] out@[b]).source_uid@ == src@,
                    decreases out.len() - a,
                {
                    if str_eq(out[a].source_uid.as_str(), src) {
                        seen = true;
                    }
                    a = a + 1;
                }
                if !seen {
                    proof {
                        assert(edge_pairs(self.links@).contains((t@, src@)));
                        assert(self.linked(t@, src@));
                    }
                    match self.note_pos(src) {
                        Some(p) => {
                            let n = &self.notes[p];
                            let links = extract_wiki_links(n.content.as_str());
                            let pos = first_position(&links, t.as_str());
                            let ctx = extract_context(n.content.as_str(), pos, CONTEXT_CHARS);
                            let b = BacklinkInfo { source_uid: String::from_str(src), source_title: n.title.clone(), context: ctx };
                            let ghost o0 = out@;
                            out.push(b);
                            proof {
                                assert(self.notes()[src@] == self.notes@[p as int]);
                                assert(shows_backlink(out@[o0.len() as int], self.notes()[src@], t@));
                                assert forall|w: int| 0 <= w < i + 1 && (#[trigger] edge_pairs(self.links@)[w]).0 == t@ implies lists(out@, edge_pairs(self.links@)[w].1) by {
                                    if w < i {
                                        let q = choose|q: int| 0 <= q < o0.len() && (#[trigger] o0[q]).source_uid@ == edge_pairs(self.links@)[w].1;
                                        assert(out@[q] == o0[q]);
                                    } else {
                                        assert(out@[o0.len() as int].source_uid@ == src@);
                                    }
                                }
                            }
                        },
                        None => {},
                    }
                }
            }
            i = i + 1;
        }
        proof {
            assert forall|u: Seq<char>| self.notes().contains_key(u) && links_to_title(self.notes()[u].content@, lower_of(title@)) implies #[trigger] lists(out@, u) by {
                assert(self.linked(t@, u));
                let w = choose|w: int| 0 <= w < edge_pairs(self.links@).len() && edge_pairs(self.links@)[w] == (t@, u);
            }
        }
        out
    }

    /// The backlinks of the cached note `uid` (see [`get_backlinks`]);
    /// none where it is not cached.
    pub fn get_backlinks_for_uid(&self, uid: &str) -> (r: Vec<BacklinkInfo>)
        requires
            self.wf(),
        ensures
            !self.notes().contains_key(uid@) ==> r@.len() == 0,
            self.notes().contains_key(uid@) ==> {
                let t = lower_of(self.notes()[uid@].title@);
                &&& forall|j: int| 0 <= j < r@.len() ==> self.notes().contains_key((#[trigger] r@[j]).source_uid@)
                    && links_to_title(self.notes()[r@[j].source_uid@].content@, t)
                    && shows_backlink(r@[j], self.notes()[r@[j].source_uid@], t)
                &&& forall|u: Seq<char>| self.notes().contains_key(u) && links_to_title(self.notes()[u].content@, t) ==> #[trigger] lists(r@, u)
                &&& forall|a: int, b: int| 0 <= a < b < r@.len() ==> (#[trigger] r@[a]).source_uid@ != (#[trigger] r@[b]).source_uid@
            },
    {
        match self.note_pos(uid) {
            Some(p) => self.get_backlinks(self.notes[p].title.as_str()),
            None => Vec::new(),
        }
    }

    /// Rebuilds the graph from the given notes, each indexed in turn: each
    /// id keeps the title and body of its last note.
    pub fn rebuild(&mut self, notes: &Vec<GraphNote>)
        ensures
            final(self).wf(),
            forall|k: Seq<char>| final(self).notes().contains_key(k) <==> exists|i: int| 0 <= i < notes@.len() && (#[trigger] notes@[i]).uid@ == k,
            forall|i: int| #[trigger] last_of(notes@, i, notes@.len() as int) ==> final(self).notes()[notes@[i].uid@].title@ == notes@[i].title@
                && final(self).notes()[notes@[i].uid@].content@ == notes@[i].content@,
    {
        *self = BacklinkIndex::new();
        let mut i: usize = 0;
        while i < notes.len()
            invariant
                self.wf(),
                i <= notes@.len(),
                forall|k: Seq<char>| self.notes().contains_key(k) <==> exists|q: int| 0 <= q < i && (#[trigger] notes@[q]).uid@ == k,
                forall|q: int| #[trigger] last_of(notes@, q, i as int) ==> self.notes()[notes@[q].uid@].title@ == notes@[q].title@
                    && self.notes()[notes@[q].uid@].content@ == notes@[q].content@,
            decreases notes.len() - i,
        {
            let ghost m0 = self.notes();
            self.index_note(notes[i].uid.as_str(), notes[i].title.as_str(), notes[i].content.as_str());
            proof {
                assert forall|q: int| #[trigger] last_of(notes@, q, i + 1) implies self.notes()[notes@[q].uid@].title@ == notes@[q].title@
                    && self.notes()[notes@[q].uid@].content@ == notes@[q].content@ by {
                    if q < i {
                        assert(notes@[q].uid@ != notes@[i as int].uid@);
                        assert(last_of(notes@, q, i as int));
                    }
                }
                assert forall|k: Seq<char>| self.notes().contains_key(k) <==> exists|q: int| 0 <= q < i + 1 && (#[trigger] notes@[q]).uid@ == k by {
                    if k != notes@[i as int].uid@ && self.notes().contains_key(k) {
                        assert(m0.contains_key(k));
                    }
                }
            }
            i = i + 1;
        }
    }
}

/// Note `i` is the last of its id before position `j`.
pub open spec fn last_of(notes: Seq<GraphNote>, i: int, j: int) -> bool {
    &&& 0 <= i < j
    &&& forall|q: int| i < q < j ==> (#[trigger] notes[q]).uid@ != notes[i].uid@
}

/// With notes `a` (titled `t` up to case) and `b` (whose body links to
/// `t`) and no other note linking to `t`, exactly `b` links to `a`'s title:
/// the backlinks of `a` are `b` alone.
pub proof fn lemma_backlink_pair(g: BacklinkIndex, a: Seq<char>, b: Seq<char>, t: Seq<char>)
    requires
        g.wf(),
        g.notes().contains_key(a),
        g.notes().contains_key(b),
        lower_of(g.notes()[a].title@) == t,
        links_to_title(g.notes()[b].content@, t),
        forall|u: Seq<char>| #[trigger] g.notes().contains_key(u) && u != b ==> !links_to_title(g.notes()[u].content@, t),
    ensures
        forall|u: Seq<char>| #[trigger] g.linked(t, u) <==> u == b,
{
}

/// Once a note is indexed again with a body that has no link to the
/// case-folded title `t`, it is not among the notes linking to `t`.
pub proof fn lemma_unlinked_after_reindex(g: BacklinkIndex, uid: Seq<char>, content: Seq<char>, t: Seq<char>)
    requires
        g.wf(),
        g.notes().contains_key(uid),
        g.notes()[uid].content@ == content,
        !links_to_title(content, t),
    ensures
        !g.linked(t, uid),
{
}

/// After a note is indexed with a body that links to the case-folded title
/// `t`, it is among the notes linking to `t`.
pub proof fn lemma_linked_after_index(g: BacklinkIndex, uid: Seq<char>, t: Seq<char>)
    requires
        g.wf(),
        g.notes().contains_key(uid),
        links_to_title(g.notes()[uid].content@, t),
    ensures
        g.linked(t, uid),
{
}

pub open spec fn edge_pairs(v: Seq<GraphEdge>) -> Seq<(Seq<char>, Seq<char>)> {
    v.map_values(|e: GraphEdge| (e.target@, e.source@))
}

pub open spec fn not_source(uid: Seq<char>) -> spec_fn((Seq<char>, Seq<char>)) -> bool {
    |e: (Seq<char>, Seq<char>)| e.1 != uid
}

} // verus!
