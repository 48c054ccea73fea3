//! Wiki-style links: `[[Title]]` and `[[Title|Display]]`, found by a small
//! scanner over the characters of a note body, and the context snippet shown
//! around a link.
use vstd::prelude::*;
use crate::text::{append_all, append_span, chars_of, string_of, string_of_span, trim, trim_span};

verus! {

/// A backlink as presented to a reader: the linking note and a snippet.
pub struct BacklinkInfo {
    pub source_uid: String,
    pub source_title: String,
    pub context: String,
}

/// A link found in a body.
pub struct ExtractedLink {
    /// The target title, trimmed.
    pub title: String,
    /// The alias after `|`, trimmed.
    pub display: Option<String>,
    /// Character offset of the opening `[[`.
    pub position: usize,
}

/// The mathematical value of an [`ExtractedLink`].
pub struct LinkModel {
    pub title: Seq<char>,
    pub display: Option<Seq<char>>,
    pub position: int,
}

pub open spec fn opt_view(o: Option<String>) -> Option<Seq<char>> {
    match o {
        Some(s) => Some(s@),
        None => None,
    }
}

impl View for ExtractedLink {
    type V = LinkModel;

    open spec fn view(&self) -> LinkModel {
        LinkModel { title: self.title@, display: opt_view(self.display), position: self.position as int }
    }
}

pub open spec fn opt_trim(o: Option<Seq<char>>) -> Option<Seq<char>> {
    match o {
        Some(d) => Some(trim(d)),
        None => None,
    }
}

/// Reading inside a link that opened at `start`, at position `j`, with the
/// title and (after a `|`) the display text read so far. Returns the link, if
/// one was closed, and where scanning resumes.
pub open spec fn read_link(s: Seq<char>, start: int, j: int, title: Seq<char>, display: Option<Seq<char>>) -> (Option<LinkModel>, int)
    decreases s.len() - j,
{
    if j < 0 || j >= s.len() {
        (None, s.len() as int)
    } else {
        let c = s[j];
        if c == ']' && j + 1 < s.len() && s[j + 1] == ']' {
            if title.len() > 0 {
                (Some(LinkModel { title: trim(title), display: opt_trim(display), position: start }), j + 2)
            } else {
                (None, j + 2)
            }
        } else if c == '|' && display is None {
            read_link(s, start, j + 1, title, Some(Seq::empty()))
        } else if c == '\n' {
            (None, j + 1)
        } else if display is Some {
            read_link(s, start, j + 1, title, Some(display->0.push(c)))
        } else {
            read_link(s, start, j + 1, title.push(c), display)
        }
    }
}

pub proof fn lemma_read_link_advances(s: Seq<char>, start: int, j: int, title: Seq<char>, display: Option<Seq<char>>)
    requires
        0 <= j,
    ensures
        j < read_link(s, start, j, title, display).1 || (j >= s.len() && read_link(s, start, j, title, display).1 == s.len()),
        read_link(s, start, j, title, display).1 <= s.len(),
    decreases s.len() - j,
{
    if j < s.len() {
        let c = s[j];
        if c == ']' && j + 1 < s.len() && s[j + 1] == ']' {
        } else if c == '|' && display is None {
            lemma_read_link_advances(s, start, j + 1, title, Some(Seq::empty()));
        } else if c == '\n' {
        } else if display is Some {
            lemma_read_link_advances(s, start, j + 1, title, Some(display->0.push(c)));
        } else {
            lemma_read_link_advances(s, start, j + 1, title.push(c), display);
        }
    }
}

/// The links of `s` found by scanning from position `i`, in order.
pub open spec fn links_from(s: Seq<char>, i: int) -> Seq<LinkModel>
    decreases s.len() - i
    via links_from_decreases
{
    if i < 0 || i >= s.len() {
        Seq::empty()
    } else if s[i] == '[' && i + 1 < s.len() && s[i + 1] == '[' {
        let r = read_link(s, i, i + 2, Seq::empty(), None);
        match r.0 {
            Some(l) => seq![l] + links_from(s, r.1),
            None => links_from(s, r.1),
        }
    } else {
        links_from(s, i + 1)
    }
}

#[via_fn]
proof fn links_from_decreases(s: Seq<char>, i: int) {
    if 0 <= i < s.len() && s[i] == '[' && i + 1 < s.len() && s[i + 1] == '[' {
        lemma_read_link_advances(s, i, i + 2, Seq::empty(), None);
    }
}

/// The wiki links of a body, in order of appearance.
pub open spec fn wiki_links(s: Seq<char>) -> Seq<LinkModel> {
    links_from(s, 0)
}

pub open spec fn links_view(v: Seq<ExtractedLink>) -> Seq<LinkModel> {
    v.map_values(|l: ExtractedLink| l@)
}

/// Reads one link whose `[[` stands at `start`; see [`read_link`].
fn read_one(v: &Vec<char>, start: usize) -> (r: (Option<ExtractedLink>, usize))
    requires
        start + 2 <= v.len(),
    ensures
        ({
            let m = read_link(v@, start as int, start + 2, Seq::empty(), None);
            &&& r.1 as int == m.1
            &&& match r.0 {
                Some(l) => m.0 == Some(l@),
                None => m.0 is None,
            }
        }),
{
    let mut title: Vec<char> = Vec::new();
    let mut display: Vec<char> = Vec::new();
    let mut in_display = false;
    let mut j = start + 2;
    while j < v.len()
        invariant
            start + 2 <= j <= v.len(),
            !in_display ==> display@.len() == 0,
            read_link(v@, start as int, start + 2, Seq::empty(), None) == read_link(v@, start as int, j as int, title@, if in_display { Some(display@) } else { None }),
        decreases v.len() - j,
    {
        let c = v[j];
        let ghost disp = if in_display { Some(display@) } else { None };
        assert(disp is None <==> !in_display);
        if c == ']' && j + 1 < v.len() && v[j + 1] == ']' {
            {
                if title.len() > 0 {
                    let (a, b) = trim_span(&title, 0, title.len());
                    let t = string_of_span(&title, a, b);
                    let d = if in_display {
                        let (x, y) = trim_span(&display, 0, display.len());
                        Some(string_of_span(&display, x, y))
                    } else {
                        None
                    };
                    proof {
                        assert(title@.subrange(0, title@.len() as int) =~= title@);
                        assert(display@.subrange(0, display@.len() as int) =~= display@);
                    }
                    let link = ExtractedLink { title: t, display: d, position: start };
                    return (Some(link), j + 2);
                } else {
                    return (None, j + 2);
                }
            }
        } else if c == '|' && !in_display {
            assert(display@ =~= Seq::<char>::empty());
            in_display = true;
        } else if c == '\n' {
            assert(v@[j as int] == '\n');
            return (None, j + 1);
        } else if in_display {
            display.push(c);
        } else {
            title.push(c);
        }
        j = j + 1;
    }
    (None, v.len())
}

/// The wiki links of `content`, in order of appearance. A link must close
/// with `]]` before the end of its line; `|` separates an alias; a single
/// `]` is part of the text; a link with an empty title is skipped.
pub fn extract_wiki_links(content: &str) -> (r: Vec<ExtractedLink>)
    ensures
        links_view(r@) == wiki_links(content@),
{
    let v = chars_of(content);
    let mut links: Vec<ExtractedLink> = Vec::new();
    let mut i: usize = 0;
    while i < v.len()
        invariant
            i <= v.len(),
            v@ == content@,
            links_view(links@) + links_from(v@, i as int) == wiki_links(v@),
        decreases v.len() - i,
    {
        if v[i] == '[' && i + 1 < v.len() && v[i + 1] == '[' {
            let (found, next) = read_one(&v, i);
            proof {
                lemma_read_link_advances(v@, i as int, i + 2, Seq::empty(), None);
            }
            match found {
                Some(l) => {
                    let ghost before = links@;
                    links.push(l);
                    proof {
                        assert(links_view(links@) =~= links_view(before).push(l@));
                        assert(links_view(before).push(l@) + links_from(v@, next as int)
                            =~= links_view(before) + (seq![l@] + links_from(v@, next as int)));
                    }
                },
                None => {},
            }
            i = next;
        } else {
            i = i + 1;
        }
    }
    proof {
        assert(links_view(links@) + links_from(v@, i as int) =~= links_view(links@));
    }
    links
}

/// A line feed read as a space.
pub open spec fn flatten_char(c: char) -> char {
    if c == '\n' {
        ' '
    } else {
        c
    }
}

/// Line feeds turned into spaces and each run of spaces collapsed to one.
pub open spec fn squeeze(s: Seq<char>) -> Seq<char>
    decreases s.len(),
{
    if s.len() == 0 {
        Seq::empty()
    } else {
        let r = squeeze(s.drop_last());
        let c = flatten_char(s.last());
        if c == ' ' && r.len() > 0 && r.last() == ' ' {
            r
        } else {
            r.push(c)
        }
    }
}

pub open spec fn ellipsis() -> Seq<char> {
    seq!['.', '.', '.']
}

pub open spec fn min_int(a: int, b: int) -> int {
    if a < b {
        a
    } else {
        b
    }
}

/// Extra characters taken after the position, for the link itself.
pub const LINK_ALLOWANCE: usize = 20;

/// The snippet around character `position` of `s`: `radius` characters before
/// it and `radius` plus [`LINK_ALLOWANCE`] after, whitespace collapsed and
/// trimmed, with `...` on each side where the text was cut.
pub open spec fn context_snippet(s: Seq<char>, position: int, radius: int) -> Seq<char> {
    let p = min_int(position, s.len() as int);
    let start = if p - radius > 0 { p - radius } else { 0 };
    let end = min_int(p + radius + LINK_ALLOWANCE, s.len() as int);
    (if start > 0 { ellipsis() } else { Seq::empty() }) + trim(squeeze(s.subrange(start, end))) + (if end < s.len() { ellipsis() } else { Seq::empty() })
}

fn dots() -> (r: Vec<char>)
    ensures
        r@ == ellipsis(),
{
    let mut r: Vec<char> = Vec::new();
    r.push('.');
    r.push('.');
    r.push('.');
    proof {
        assert(r@ =~= ellipsis());
    }
    r
}

/// The context snippet around the character offset `position` of `content`
/// (see [`context_snippet`]).
pub fn extract_context(content: &str, position: usize, context_chars: usize) -> (r: String)
    ensures
        r@ == context_snippet(content@, position as int, context_chars as int),
{
    let v = chars_of(content);
    let n = v.len();
    let p = if position < n { position } else { n };
    let start = if p > context_chars { p - context_chars } else { 0 };
    let end = if context_chars >= n - p || LINK_ALLOWANCE >= n - p - context_chars {
        n
    } else {
        p + context_chars + LINK_ALLOWANCE
    };
    let mut out: Vec<char> = Vec::new();
    let mut k = start;
    while k < end
        invariant
            start <= k <= end <= n == v.len(),
            out@ == squeeze(v@.subrange(start as int, k as int)),
        decreases end - k,
    {
        let c = if v[k] == '\n' { ' ' } else { v[k] };
        proof {
            assert(v@.subrange(start as int, k + 1).drop_last() =~= v@.subrange(start as int, k as int));
        }
        if !(c == ' ' && out.len() > 0 && out[out.len() - 1] == ' ') {
            out.push(c);
        }
        k = k + 1;
    }
    let (a, b) = trim_span(&out, 0, out.len());
    proof {
        assert(out@.subrange(0, out@.len() as int) =~= out@);
    }
    let mut res: Vec<char> = Vec::new();
    if start > 0 {
        append_all(&mut res, &dots());
    }
    append_span(&mut res, &out, a, b);
    if end < n {
        append_all(&mut res, &dots());
    }
    proof {
        assert(res@ =~= (if start > 0 { ellipsis() } else { Seq::empty() }) + trim(squeeze(v@.subrange(start as int, end as int))) + (if end < n { ellipsis() } else { Seq::empty() }));
    }
    string_of(res.as_slice())
}

} // verus!
