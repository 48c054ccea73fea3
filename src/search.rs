//! Search over the notes: a case-folded substring match against each title
//! and against the first bytes of each body (after its front matter), scored
//! with the title weighted above the body, with match ranges for titles and
//! a preview window for bodies.
use vstd::prelude::*;
use vstd::utf8::{decode_utf8, valid_utf8};
use crate::index::NoteListItem;
use crate::repository::RepositoryError;
use crate::text::{chars_of, string_of, trim, trim_span};

verus! {

/// Bytes of a body searched, from its start after the front matter.
pub const MAX_CONTENT_SEARCH_BYTES: usize = 4096;

/// Characters shown on each side of a body match.
pub const PREVIEW_CONTEXT_CHARS: usize = 30;

/// Results returned when the caller names no limit.
pub const DEFAULT_LIMIT: usize = 50;

/// Most results ever returned.
pub const MAX_LIMIT: usize = 100;

/// Points for a title match.
pub const TITLE_POINTS: u32 = 200;

/// Points for a body match.
pub const BODY_POINTS: u32 = 100;

/// A note that matched a query.
pub struct SearchResult {
    pub uid: String,
    pub title: String,
    pub score: u32,
    /// Where the query occurs in the title, in characters.
    pub title_matches: Vec<MatchRange>,
    /// The body around its first match.
    pub content_preview: Option<ContentPreview>,
}

/// A range of characters, end exclusive.
#[derive(Debug, Clone, Copy, PartialEq, Eq, Structural)]
pub struct MatchRange {
    pub start: u32,
    pub end: u32,
}

/// A window of body text around a match, and where the match stands in it
/// (in characters).
pub struct ContentPreview {
    pub text: String,
    pub match_start: u32,
    pub match_end: u32,
}

/// Why a search failed.
pub enum SearchError {
    Repository(RepositoryError),
    Io(String),
}

/// What `char::to_lowercase` gives first for a character: its case-folded
/// form for matching.
pub uninterp spec fn folded(c: char) -> char;

/// Relies on `char::to_lowercase`, whose first character depends on `c`
/// alone.
#[verifier::external_body]
fn fold_char(c: char) -> (r: char)
    ensures
        r == folded(c),
{
    c.to_lowercase().next().unwrap_or(c)
}

/// The text `str::from_utf8` accepts of the longest valid UTF-8 prefix of
/// some bytes.
pub uninterp spec fn utf8_prefix(b: Seq<u8>) -> Seq<char>;

/// `t` is the text of a valid UTF-8 prefix of `b`.
pub open spec fn decodes_valid_prefix(b: Seq<u8>, t: Seq<char>) -> bool {
    exists|k: int| 0 <= k <= b.len() && valid_utf8(#[trigger] b.take(k)) && t == decode_utf8(b.take(k))
}

/// Relies on `std::str::from_utf8` and `Utf8Error::valid_up_to`: the text
/// of the longest valid UTF-8 prefix, all of it where the bytes are valid.
#[verifier::external_body]
fn decode_prefix(b: &[u8]) -> (r: String)
    ensures
        r@ == utf8_prefix(b@),
        valid_utf8(b@) ==> r@ == decode_utf8(b@),
        decodes_valid_prefix(b@, r@),
        r@.len() <= b@.len(),
{
    let valid = match std::str::from_utf8(b) {
        Ok(s) => s,
        Err(e) => match std::str::from_utf8(&b[..e.valid_up_to()]) {
            Ok(s) => s,
            Err(_) => "",
        },
    };
    valid.to_string()
}

/// `q` occurs in `text` at `i`, up to case.
pub open spec fn folds_at(text: Seq<char>, i: int, q: Seq<char>) -> bool {
    &&& 0 <= i
    &&& i + q.len() <= text.len()
    &&& forall|k: int| 0 <= k < q.len() ==> folded(#[trigger] text[i + k]) == folded(q[k])
}

/// The first position at or after `from` where `q` occurs up to case.
pub open spec fn first_fold(text: Seq<char>, q: Seq<char>, from: int) -> Option<int>
    decreases text.len() + 1 - from,
{
    if from < 0 || from + q.len() > text.len() {
        None
    } else if folds_at(text, from, q) {
        Some(from)
    } else {
        first_fold(text, q, from + 1)
    }
}

/// The non-overlapping occurrences of a non-empty `q` in `text` from `from`,
/// leftmost first, as character ranges.
pub open spec fn fold_ranges(text: Seq<char>, q: Seq<char>, from: int) -> Seq<(int, int)>
    decreases text.len() + 1 - from
    via fold_ranges_decreases
{
    if q.len() == 0 {
        Seq::empty()
    } else {
        match first_fold(text, q, from) {
            None => Seq::empty(),
            Some(i) => seq![(i, i + q.len())] + fold_ranges(text, q, i + q.len()),
        }
    }
}

proof fn lemma_first_fold_at_or_after(text: Seq<char>, q: Seq<char>, from: int)
    requires
        first_fold(text, q, from) is Some,
    ensures
        from <= first_fold(text, q, from)->0,
        folds_at(text, first_fold(text, q, from)->0, q),
    decreases text.len() + 1 - from,
{
    if !(from < 0 || from + q.len() > text.len()) && !folds_at(text, from, q) {
        lemma_first_fold_at_or_after(text, q, from + 1);
    }
}

#[via_fn]
proof fn fold_ranges_decreases(text: Seq<char>, q: Seq<char>, from: int) {
    if q.len() > 0 && first_fold(text, q, from) is Some {
        lemma_first_fold_at_or_after(text, q, from);
    }
}

pub open spec fn dashes() -> Seq<u8> {
    seq![45u8, 45u8, 45u8]
}

pub open spec fn closing_fence() -> Seq<u8> {
    seq![10u8, 45u8, 45u8, 45u8]
}

pub open spec fn bytes_at(s: Seq<u8>, i: int, p: Seq<u8>) -> bool {
    0 <= i && i + p.len() <= s.len() && s.subrange(i, i + p.len()) == p
}

/// The first position at or after `from` where `p` occurs in `s`.
pub open spec fn find_bytes(s: Seq<u8>, from: int, p: Seq<u8>) -> Option<int>
    decreases s.len() + 1 - from,
{
    if from < 0 || from + p.len() > s.len() {
        None
    } else if bytes_at(s, from, p) {
        Some(from)
    } else {
        find_bytes(s, from + 1, p)
    }
}

/// Where the body starts: after a front matter that opens with `---` and
/// closes with the first later line starting with `---`, that line
/// included, where text follows it.
pub open spec fn body_start(b: Seq<u8>) -> int {
    if bytes_at(b, 0, dashes()) {
        match find_bytes(b, 3, closing_fence()) {
            Some(e) => match find_bytes(b, e + 4, seq![10u8]) {
                Some(n) => if n + 1 < b.len() { n + 1 } else { 0 },
                None => 0,
            },
            None => 0,
        }
    } else {
        0
    }
}

/// The searched text of a file: the first [`MAX_CONTENT_SEARCH_BYTES`]
/// bytes of its body, decoded up to the last valid UTF-8 boundary.
pub open spec fn searched_text(b: Seq<u8>) -> Seq<char> {
    let body = b.subrange(body_start(b), b.len() as int);
    utf8_prefix(body.take(if body.len() < MAX_CONTENT_SEARCH_BYTES { body.len() as int } else { MAX_CONTENT_SEARCH_BYTES as int }))
}

/// The score of a note: points for a title match plus points for a body
/// match.
pub open spec fn note_score(title_hit: bool, body_hit: bool) -> int {
    (if title_hit { TITLE_POINTS as int } else { 0 }) + (if body_hit { BODY_POINTS as int } else { 0 })
}

/// A title match outscores a body match.
pub proof fn lemma_title_outranks_body()
    ensures
        note_score(true, false) > note_score(false, true),
{
}

pub open spec fn ellipsis() -> Seq<char> {
    seq!['.', '.', '.']
}

/// The preview window around a match at `f` of length `qlen`: up to
/// [`PREVIEW_CONTEXT_CHARS`] characters before it and after its first
/// character, with `...` on each side where the text goes on.
pub open spec fn preview_window(text: Seq<char>, f: int, qlen: int) -> (Seq<char>, int, int) {
    let start = if f > PREVIEW_CONTEXT_CHARS { f - PREVIEW_CONTEXT_CHARS } else { 0 };
    let end = if f + PREVIEW_CONTEXT_CHARS + 1 < text.len() { f + PREVIEW_CONTEXT_CHARS + 1 } else { text.len() as int };
    let prefix = if start > 0 { ellipsis() } else { Seq::empty() };
    let suffix = if end < text.len() { ellipsis() } else { Seq::empty() };
    let shown = if qlen < end - f { qlen } else { end - f };
    (prefix + text.subrange(start, end) + suffix, f - start + prefix.len(), f - start + prefix.len() + shown)
}

pub open spec fn folded_seq(s: Seq<char>) -> Seq<char> {
    s.map_values(|c: char| folded(c))
}

fn fold_all(v: &Vec<char>) -> (r: Vec<char>)
    ensures
        r@ == folded_seq(v@),
{
    let mut out: Vec<char> = Vec::new();
    let mut i: usize = 0;
    while i < v.len()
        invariant
            i <= v@.len(),
            out@ == folded_seq(v@.take(i as int)),
        decreases v.len() - i,
    {
        out.push(fold_char(v[i]));
        proof {
            assert(folded_seq(v@.take(i + 1)) =~= folded_seq(v@.take(i as int)).push(folded(v@[i as int])));
        }
        i = i + 1;
    }
    proof {
        assert(v@.take(v@.len() as int) =~= v@);
    }
    out
}

/// The first position at or after `from` where the folded query `fq`
/// occurs in the folded text `ft` (see [`first_fold`]).
fn first_match(ft: &Vec<char>, fq: &Vec<char>, from: usize, text: Ghost<Seq<char>>, q: Ghost<Seq<char>>) -> (r: Option<usize>)
    requires
        ft@ == folded_seq(text@),
        fq@ == folded_seq(q@),
    ensures
        match r {
            Some(i) => first_fold(text@, q@, from as int) == Some(i as int),
            None => first_fold(text@, q@, from as int) is None,
        },
{
    let mut i = from;
    while i <= ft.len() && fq.len() <= ft.len() - i
        invariant
            ft@ == folded_seq(text@),
            fq@ == folded_seq(q@),
            from <= i,
            first_fold(text@, q@, from as int) == first_fold(text@, q@, i as int),
        decreases ft.len() + 1 - i,
    {
        let mut k: usize = 0;
        while k < fq.len() && ft[i + k] == fq[k]
            invariant
                i + fq.len() <= ft.len(),
                k <= fq@.len(),
                forall|j: int| 0 <= j < k ==> ft@[i + j] == fq@[j],
            decreases fq.len() - k,
        {
            k = k + 1;
        }
        proof {
            assert forall|j: int| 0 <= j < k implies folded(#[trigger] text@[i + j]) == folded(q@[j]) by {
                assert(ft@[i + j] == fq@[j]);
            }
        }
        if k == fq.len() {
            return Some(i);
        }
        proof {
            assert(!folds_at(text@, i as int, q@)) by {
                assert(ft@[i + k] != fq@[k as int]);
            }
        }
        i = i + 1;
    }
    None
}

pub open spec fn ranges_view(v: Seq<MatchRange>) -> Seq<(int, int)> {
    v.map_values(|m: MatchRange| (m.start as int, m.end as int))
}

/// What a note scores for a query, given the text searched of its file.
pub open spec fn hits(title: Seq<char>, text: Option<Seq<char>>, q: Seq<char>) -> (bool, bool) {
    (first_fold(title, q, 0) is Some, text is Some && first_fold(text->0, q, 0) is Some)
}

/// The searched text of a file's bytes, none for a missing or empty file.
pub open spec fn text_of(body: Option<Vec<u8>>) -> Option<Seq<char>> {
    match body {
        Some(b) => if b@.len() == 0 { None } else { Some(searched_text(b@)) },
        None => None,
    }
}

/// The result of a note for the query `q`, given its file's bytes.
pub open spec fn result_matches(r: SearchResult, note: NoteListItem, body: Option<Vec<u8>>, q: Seq<char>) -> bool {
    let (th, bh) = hits(note.title@, text_of(body), q);
    &&& th || bh
    &&& r.uid@ == note.uid@
    &&& r.title@ == note.title@
    &&& r.score as int == note_score(th, bh)
    &&& note.title@.len() <= u32::MAX ==> ranges_view(r.title_matches@) == fold_ranges(note.title@, q, 0)
    &&& match r.content_preview {
        Some(p) => bh && {
            let w = preview_window(text_of(body)->0, first_fold(text_of(body)->0, q, 0)->0, q.len() as int);
            &&& p.text@ == w.0
            &&& p.match_start as int == w.1
            &&& p.match_end as int == w.2
        },
        None => !bh,
    }
}

pub struct SearchService;

impl SearchService {
    /// The non-overlapping occurrences of the non-empty query `q` in
    /// `title`, up to case, as character ranges (see [`fold_ranges`]).
    pub fn extract_match_ranges(q: &Vec<char>, title: &str) -> (r: Vec<MatchRange>)
        requires
            q@.len() > 0,
        ensures
            title@.len() <= u32::MAX ==> ranges_view(r@) == fold_ranges(title@, q@, 0),
    {
        let t = chars_of(title);
        let mut out: Vec<MatchRange> = Vec::new();
        if t.len() > u32::MAX as usize {
            return out;
        }
        let ft = fold_all(&t);
        let fq = fold_all(q);
        let mut from: usize = 0;
        proof {
            assert(ranges_view(out@) + fold_ranges(title@, q@, 0) =~= fold_ranges(title@, q@, 0));
        }
        while from <= t.len()
            invariant
                t@ == title@,
                t@.len() <= u32::MAX,
                ft@ == folded_seq(title@),
                fq@ == folded_seq(q@),
                q@.len() > 0,
                ranges_view(out@) + fold_ranges(title@, q@, from as int) == fold_ranges(title@, q@, 0),
            decreases t.len() + 1 - from,
        {
            match first_match(&ft, &fq, from, Ghost(title@), Ghost(q@)) {
                Some(i) => {
                    proof {
                        lemma_first_fold_at_or_after(title@, q@, from as int);
                    }
                    let m = MatchRange { start: i as u32, end: (i + q.len()) as u32 };
                    let ghost o0 = out@;
                    out.push(m);
                    proof {
                        assert(ranges_view(out@) =~= ranges_view(o0).push((i as int, i + q@.len())));
                        assert(ranges_view(out@) + fold_ranges(title@, q@, i + q@.len()) =~= ranges_view(o0) + (seq![(i as int, i + q@.len())] + fold_ranges(title@, q@, i + q@.len())));
                    }
                    from = i + q.len();
                },
                None => {
                    proof {
                        assert(ranges_view(out@) + fold_ranges(title@, q@, from as int) =~= ranges_view(out@));
                    }
                    return out;
                },
            }
        }
        proof {
            assert(fold_ranges(title@, q@, from as int) =~= Seq::<(int, int)>::empty());
            assert(ranges_view(out@) + fold_ranges(title@, q@, from as int) =~= ranges_view(out@));
        }
        out
    }

    /// The preview window of `text` around a match at `f` of a query of
    /// `qlen` characters (see [`preview_window`]).
    pub fn generate_preview(text: &Vec<char>, f: usize, qlen: usize) -> (r: ContentPreview)
        requires
            f < text@.len() <= MAX_CONTENT_SEARCH_BYTES,
        ensures
            ({
                let w = preview_window(text@, f as int, qlen as int);
                &&& r.text@ == w.0
                &&& r.match_start as int == w.1
                &&& r.match_end as int == w.2
            }),
    {
        let n = text.len();
        let start = if f > PREVIEW_CONTEXT_CHARS { f - PREVIEW_CONTEXT_CHARS } else { 0 };
        let end = if f + PREVIEW_CONTEXT_CHARS + 1 < n { f + PREVIEW_CONTEXT_CHARS + 1 } else { n };
        let mut out: Vec<char> = Vec::new();
        let plen: usize = if start > 0 { 3 } else { 0 };
        if start > 0 {
            out.push('.');
            out.push('.');
            out.push('.');
        }
        crate::text::append_span(&mut out, text, start, end);
        if end < n {
            out.push('.');
            out.push('.');
            out.push('.');
        }
        let shown = if qlen < end - f { qlen } else { end - f };
        proof {
            let w = preview_window(text@, f as int, qlen as int);
            assert(out@ =~= w.0);
        }
        ContentPreview {
            text: string_of(out.as_slice()),
            match_start: (f - start + plen) as u32,
            match_end: (f - start + plen + shown) as u32,
        }
    }

    /// The bytes after a front matter that opens with `---` and closes at
    /// the first line starting with `---` (see [`body_start`]).
    pub fn skip_front_matter(content: &[u8]) -> (r: &[u8])
        ensures
            r@ == content@.subrange(body_start(content@), content@.len() as int),
    {
        let n = content.len();
        let mut start: usize = 0;
        if n >= 3 && content[0] == 45u8 && content[1] == 45u8 && content[2] == 45u8 {
            proof {
                assert(content@.subrange(0, 3) =~= dashes());
            }
            let mut i: usize = 3;
            let mut found = false;
            while i < n && n - i >= 4 && !found
                invariant
                    3 <= i <= n,
                    n == content@.len(),
                    !found ==> find_bytes(content@, 3, closing_fence()) == find_bytes(content@, i as int, closing_fence()),
                    found ==> find_bytes(content@, 3, closing_fence()) == Some((i - 1) as int) && i >= 4 && i + 3 <= n,
                decreases n - i + (if found { 0int } else { 1int }),
            {
                if content[i] == 10u8 && content[i + 1] == 45u8 && content[i + 2] == 45u8 && content[i + 3] == 45u8 {
                    proof {
                        assert(content@.subrange(i as int, i + 4) =~= closing_fence());
                    }
                    found = true;
                } else {
                    proof {
                        if bytes_at(content@, i as int, closing_fence()) {
                            assert(content@.subrange(i as int, i + 4)[0] == content@[i as int]);
                            assert(content@.subrange(i as int, i + 4)[1] == content@[i + 1]);
                            assert(content@.subrange(i as int, i + 4)[2] == content@[i + 2]);
                            assert(content@.subrange(i as int, i + 4)[3] == content@[i + 3]);
                        }
                    }
                }
                i = i + 1;
            }
            if found {
                let e = i - 1;
                let mut j: usize = e + 4;
                while j < n && content[j] != 10u8
                    invariant
                        e + 4 <= j <= n,
                        n == content@.len(),
                        find_bytes(content@, e + 4, seq![10u8]) == find_bytes(content@, j as int, seq![10u8]),
                    decreases n - j,
                {
                    proof {
                        if bytes_at(content@, j as int, seq![10u8]) {
                            assert(content@.subrange(j as int, j + 1)[0] == content@[j as int]);
                        }
                    }
                    j = j + 1;
                }
                if j < n {
                    proof {
                        assert(content@.subrange(j as int, j + 1) =~= seq![10u8]);
                    }
                    if j + 1 < n {
                        start = j + 1;
                    }
                }
            }
        } else {
            proof {
                if bytes_at(content@, 0, dashes()) {
                    assert(content@.subrange(0, 3)[0] == content@[0]);
                    assert(content@.subrange(0, 3)[1] == content@[1]);
                    assert(content@.subrange(0, 3)[2] == content@[2]);
                }
            }
        }
        vstd::slice::slice_subrange(content, start, n)
    }
}

impl SearchService {
    /// The searched text of a file's bytes (see [`searched_text`]).
    fn searched(b: &Vec<u8>) -> (r: Vec<char>)
        ensures
            r@ == searched_text(b@),
            r@.len() <= MAX_CONTENT_SEARCH_BYTES,
    {
        let body = Self::skip_front_matter(b.as_slice());
        let n = if body.len() < MAX_CONTENT_SEARCH_BYTES { body.len() } else { MAX_CONTENT_SEARCH_BYTES };
        let window = vstd::slice::slice_subrange(body, 0, n);
        proof {
            assert(window@ =~= body@.take(n as int));
        }
        let s = decode_prefix(window);
        chars_of(s.as_str())
    }

    /// Matches one note against the non-empty query `q`: its title, and the
    /// searched text of its file's bytes where they could be read. `None`
    /// where neither matches.
    pub fn match_note(q: &Vec<char>, note: &NoteListItem, body: &Option<Vec<u8>>) -> (r: Option<SearchResult>)
        requires
            q@.len() > 0,
        ensures
            match r {
                Some(res) => result_matches(res, *note, *body, q@),
                None => !hits(note.title@, text_of(*body), q@).0 && !hits(note.title@, text_of(*body), q@).1,
            },
    {
        let t = chars_of(note.title.as_str());
        let ft = fold_all(&t);
        let fq = fold_all(q);
        let title_hit = first_match(&ft, &fq, 0, Ghost(note.title@), Ghost(q@)).is_some();
        let mut preview: Option<ContentPreview> = None;
        let mut body_hit = false;
        match body {
            Some(b) => {
                if b.len() > 0 {
                    let text = Self::searched(b);
                    let ftext = fold_all(&text);
                    match first_match(&ftext, &fq, 0, Ghost(text@), Ghost(q@)) {
                        Some(f) => {
                            proof {
                                lemma_first_fold_at_or_after(text@, q@, 0);
                            }
                            body_hit = true;
                            preview = Some(Self::generate_preview(&text, f, q.len()));
                        },
                        None => {},
                    }
                }
            },
            None => {},
        }
        if !title_hit && !body_hit {
            return None;
        }
        let score: u32 = (if title_hit { TITLE_POINTS } else { 0 }) + (if body_hit { BODY_POINTS } else { 0 });
        Some(SearchResult {
            uid: note.uid.clone(),
            title: note.title.clone(),
            score,
            title_matches: Self::extract_match_ranges(q, note.title.as_str()),
            content_preview: preview,
        })
    }
}

/// The number of results asked for: the limit given or
/// [`DEFAULT_LIMIT`], at most [`MAX_LIMIT`].
pub open spec fn effective_limit(limit: Option<usize>) -> int {
    let l = match limit {
        Some(l) => l as int,
        None => DEFAULT_LIMIT as int,
    };
    if l < MAX_LIMIT { l } else { MAX_LIMIT as int }
}

/// Note `i` matches the query.
pub open spec fn note_hits(notes: Seq<NoteListItem>, bodies: Seq<Option<Vec<u8>>>, q: Seq<char>, i: int) -> bool {
    hits(notes[i].title@, text_of(bodies[i]), q).0 || hits(notes[i].title@, text_of(bodies[i]), q).1
}

/// `src` names the note of each result, each note at most once; each result
/// is that note's match; where fewer results than `lim` came back for a
/// non-empty query, every matching note has one; and no matching note left
/// out scores above a result.
pub open spec fn results_from(r: Seq<SearchResult>, src: Seq<int>, notes: Seq<NoteListItem>, bodies: Seq<Option<Vec<u8>>>, q: Seq<char>, lim: int) -> bool {
    &&& src.len() == r.len()
    &&& forall|j: int| 0 <= j < r.len() ==> 0 <= #[trigger] src[j] < notes.len() && result_matches(r[j], notes[src[j]], bodies[src[j]], q)
    &&& r.len() < lim && q.len() > 0 ==> forall|i: int| 0 <= i < notes.len() && #[trigger] note_hits(notes, bodies, q, i) ==> returned(src, i)
    &&& forall|a: int, b: int| 0 <= a < b < src.len() ==> #[trigger] src[a] != #[trigger] src[b]
    &&& q.len() > 0 ==> forall|i: int, a: int| 0 <= i < notes.len() && #[trigger] note_hits(notes, bodies, q, i) && !returned(src, i) && 0 <= a < r.len()
        ==> (#[trigger] r[a]).score as int >= note_score(hits(notes[i].title@, text_of(bodies[i]), q).0, hits(notes[i].title@, text_of(bodies[i]), q).1)
}

/// Some result comes from note `i`.
pub open spec fn returned(src: Seq<int>, i: int) -> bool {
    exists|j: int| 0 <= j < src.len() && src[j] == i
}

impl SearchService {
    /// Searches the listed notes for the trimmed `query`, where `bodies[i]`
    /// holds the bytes of the file of `notes[i]` if it could be read. An
    /// empty query finds nothing. Results are ordered by score, highest
    /// first (ties in listing order), and cut to the limit; where fewer
    /// than the limit come back, every matching note is among them.
    pub fn search(query: &str, limit: Option<usize>, notes: &Vec<NoteListItem>, bodies: &Vec<Option<Vec<u8>>>) -> (r: Vec<SearchResult>)
        requires
            notes@.len() == bodies@.len(),
        ensures
            trim(query@).len() == 0 ==> r@.len() == 0,
            r@.len() <= effective_limit(limit),
            exists|src: Seq<int>| #[trigger] results_from(r@, src, notes@, bodies@, trim(query@), effective_limit(limit)),
            forall|a: int, b: int| 0 <= a < b < r@.len() ==> (#[trigger] r@[a]).score >= (#[trigger] r@[b]).score,
    {
        let lim0 = match limit {
            Some(l) => l,
            None => DEFAULT_LIMIT,
        };
        let lim = if lim0 < MAX_LIMIT { lim0 } else { MAX_LIMIT };
        let v = chars_of(query);
        let (a, b) = trim_span(&v, 0, v.len());
        let mut q: Vec<char> = Vec::new();
        crate::text::append_span(&mut q, &v, a, b);
        proof {
            assert(v@.subrange(0, v@.len() as int) =~= v@);
        }
        let mut out: Vec<SearchResult> = Vec::new();
        let ghost mut src: Seq<int> = Seq::empty();
        if q.len() == 0 {
            proof {
                assert(results_from(out@, src, notes@, bodies@, trim(query@), effective_limit(limit)));
            }
            return out;
        }
        let mut i: usize = 0;
        while i < notes.len()
            invariant
                notes@.len() == bodies@.len(),
                q@ == trim(query@),
                q@.len() > 0,
                i <= notes@.len(),
                src.len() == out@.len(),
                forall|j: int| 0 <= j < out@.len() ==> 0 <= #[trigger] src[j] < i && result_matches(out@[j], notes@[src[j]], bodies@[src[j]], q@),
                forall|a: int, b: int| 0 <= a < b < src.len() ==> #[trigger] src[a] != #[trigger] src[b],
                forall|k: int| 0 <= k < i && #[trigger] note_hits(notes@, bodies@, q@, k) ==> returned(src, k),
                forall|x: int, y: int| 0 <= x < y < out@.len() ==> (#[trigger] out@[x]).score >= (#[trigger] out@[y]).score,
            decreases notes.len() - i,
        {
            match Self::match_note(&q, &notes[i], &bodies[i]) {
                Some(res) => {
                    let sc = res.score;
                    let mut p: usize = 0;
                    while p < out.len() && out[p].score >= sc
                        invariant
                            p <= out@.len(),
                            forall|x: int| 0 <= x < p ==> (#[trigger] out@[x]).score >= sc,
                        decreases out.len() - p,
                    {
                        p = p + 1;
                    }
                    let ghost o0 = out@;
                    let ghost s0 = src;
                    let ghost rv = res;
                    out.insert(p, res);
                    proof {
                        src = s0.insert(p as int, i as int);
                        assert forall|a: int, b: int| 0 <= a < b < src.len() implies #[trigger] src[a] != #[trigger] src[b] by {
                            let a2 = if a < p { a } else { a - 1 };
                            let b2 = if b < p { b } else { b - 1 };
                            if a != p && b != p {
                                assert(src[a] == s0[a2] && src[b] == s0[b2]);
                            } else if a == p {
                                assert(src[b] == s0[b2]);
                            } else {
                                assert(src[a] == s0[a2]);
                            }
                        }
                        assert forall|j: int| 0 <= j < out@.len() implies 0 <= #[trigger] src[j] < i + 1 && result_matches(out@[j], notes@[src[j]], bodies@[src[j]], q@) by {
                            if j < p {
                                assert(out@[j] == o0[j] && src[j] == s0[j]);
                            } else if j == p {
                                assert(out@[j] == rv && src[j] == i);
                            } else {
                                assert(out@[j] == o0[j - 1] && src[j] == s0[j - 1]);
                            }
                        }
                        assert forall|k: int| 0 <= k < i + 1 && #[trigger] note_hits(notes@, bodies@, q@, k) implies returned(src, k) by {
                            if k < i {
                                let j = choose|j: int| 0 <= j < s0.len() && s0[j] == k;
                                if j < p {
                                    assert(src[j] == k);
                                } else {
                                    assert(src[j + 1] == k);
                                }
                            } else {
                                assert(src[p as int] == k);
                            }
                        }
                        assert forall|x: int, y: int| 0 <= x < y < out@.len() implies (#[trigger] out@[x]).score >= (#[trigger] out@[y]).score by {
                            if y == p {
                                assert(out@[x] == o0[x]);
                            } else if x == p {
                                assert(out@[y] == o0[y - 1]);
                                if p < o0.len() {
                                    assert(o0[p as int].score < sc);
                                }
                            } else {
                                let x2 = if x < p { x } else { x - 1 };
                                let y2 = if y < p { y } else { y - 1 };
                                assert(out@[x] == o0[x2]);
                                assert(out@[y] == o0[y2]);
                            }
                        }
                    }
                },
                None => {
                    proof {
                        assert(!note_hits(notes@, bodies@, q@, i as int));
                    }
                },
            }
            i = i + 1;
        }
        let ghost full = out@;
        let ghost full_src = src;
        proof {
            assert forall|i: int, a: int| 0 <= i < notes@.len() && #[trigger] note_hits(notes@, bodies@, q@, i) && !returned(src, i) && 0 <= a < out@.len()
                implies (#[trigger] out@[a]).score as int >= note_score(hits(notes@[i].title@, text_of(bodies@[i]), q@).0, hits(notes@[i].title@, text_of(bodies@[i]), q@).1) by {
            }
        }
        if out.len() > lim {
            out.truncate(lim);
            proof {
                src = full_src.take(lim as int);
                assert forall|a: int, b: int| 0 <= a < b < src.len() implies #[trigger] src[a] != #[trigger] src[b] by {
                    assert(src[a] == full_src[a] && src[b] == full_src[b]);
                }
                assert forall|i: int, a: int| 0 <= i < notes@.len() && #[trigger] note_hits(notes@, bodies@, q@, i) && !returned(src, i) && 0 <= a < out@.len()
                    implies (#[trigger] out@[a]).score as int >= note_score(hits(notes@[i].title@, text_of(bodies@[i]), q@).0, hits(notes@[i].title@, text_of(bodies@[i]), q@).1) by {
                    assert(returned(full_src, i));
                    let j = choose|j: int| 0 <= j < full_src.len() && full_src[j] == i;
                    if j < lim {
                        assert(src[j] == i);
                    }
                    assert(out@[a] == full[a]);
                    assert(full[a].score >= full[j].score);
                }
                assert forall|j: int| 0 <= j < out@.len() implies 0 <= #[trigger] src[j] < notes@.len() && result_matches(out@[j], notes@[src[j]], bodies@[src[j]], q@) by {
                    assert(out@[j] == full[j]);
                }
                assert forall|x: int, y: int| 0 <= x < y < out@.len() implies (#[trigger] out@[x]).score >= (#[trigger] out@[y]).score by {
                    assert(out@[x] == full[x]);
                    assert(out@[y] == full[y]);
                }
            }
        }
        proof {
            assert(results_from(out@, src, notes@, bodies@, trim(query@), effective_limit(limit)));
        }
        out
    }
}

} // verus!
