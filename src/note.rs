//! Notes and their file format: `---\n<metadata>\n---\n\n<body>`, where the
//! metadata is read line by line (`uid:`, `title:`, `tags:`, `created_at:`,
//! `updated_at:`).
use vstd::prelude::*;
use crate::text::{chars_of, lower_of, white_space, find_chars, find_from, fold_lines, strip_cr, lemma_next_char_bounds, line_at, matches_at, next_char, starts_with, string_of_span, trim, trim_span};
use crate::timestamp::{Timestamp, compact_timestamp, decimal, push_compact, push_decimal, now, parse_datetime, parse_timestamp, push_timestamp, format_timestamp};

verus! {

/// Metadata of a note, kept in its front matter.
pub struct NoteMetadata {
    pub uid: String,
    pub title: Option<String>,
    pub tags: Vec<String>,
    pub created_at: Timestamp,
    pub updated_at: Timestamp,
}

/// A note: metadata and markdown body.
pub struct Note {
    pub metadata: NoteMetadata,
    pub content: String,
    /// Changed since it was last saved.
    pub is_dirty: bool,
}

/// Why a file could not be read as a note.
#[derive(Debug, PartialEq, Eq, Structural)]
pub enum NoteParseError {
    /// The file does not open with `---` and a line feed.
    MissingFrontMatter,
    /// The front matter is not closed, or lacks a required field.
    InvalidFrontMatter,
}

/// The metadata could not be read.
#[derive(Debug, PartialEq, Eq, Structural)]
pub enum Error {
    InvalidFormat,
}

/// The mathematical value of the metadata.
pub struct MetaModel {
    pub uid: Seq<char>,
    pub title: Option<Seq<char>>,
    pub tags: Seq<Seq<char>>,
    pub created_at: Timestamp,
    pub updated_at: Timestamp,
}

pub open spec fn opt_str(o: Option<String>) -> Option<Seq<char>> {
    match o {
        Some(s) => Some(s@),
        None => None,
    }
}

pub open spec fn strs(v: Seq<String>) -> Seq<Seq<char>> {
    v.map_values(|t: String| t@)
}

impl View for NoteMetadata {
    type V = MetaModel;

    open spec fn view(&self) -> MetaModel {
        MetaModel {
            uid: self.uid@,
            title: opt_str(self.title),
            tags: strs(self.tags@),
            created_at: self.created_at,
            updated_at: self.updated_at,
        }
    }
}

pub open spec fn key_uid() -> Seq<char> {
    seq!['u', 'i', 'd', ':']
}

pub open spec fn key_title() -> Seq<char> {
    seq!['t', 'i', 't', 'l', 'e', ':']
}

pub open spec fn key_tags() -> Seq<char> {
    seq!['t', 'a', 'g', 's', ':']
}

pub open spec fn key_created() -> Seq<char> {
    seq!['c', 'r', 'e', 'a', 't', 'e', 'd', '_', 'a', 't', ':']
}

pub open spec fn key_updated() -> Seq<char> {
    seq!['u', 'p', 'd', 'a', 't', 'e', 'd', '_', 'a', 't', ':']
}

pub open spec fn dash_space() -> Seq<char> {
    seq!['-', ' ']
}

/// `s` with every leading repetition of `p` removed, as
/// `str::trim_start_matches` does.
pub open spec fn strip_all(s: Seq<char>, p: Seq<char>) -> Seq<char>
    decreases s.len(),
{
    if p.len() > 0 && starts_with(s, p) {
        strip_all(s.subrange(p.len() as int, s.len() as int), p)
    } else {
        s
    }
}

/// The value after a key on a metadata line.
pub open spec fn value_after(t: Seq<char>, key: Seq<char>) -> Seq<char> {
    trim(strip_all(t, key))
}

/// The non-empty trimmed comma-separated items of `s` from position `i`.
pub open spec fn comma_items(s: Seq<char>, i: int) -> Seq<Seq<char>>
    decreases s.len() + 1 - i
    via comma_items_decreases
{
    if i < 0 || i >= s.len() {
        Seq::empty()
    } else {
        let k = next_char(s, i, ',');
        let item = trim(s.subrange(i, k));
        (if item.len() > 0 { seq![item] } else { Seq::empty() }) + comma_items(s, k + 1)
    }
}

#[via_fn]
proof fn comma_items_decreases(s: Seq<char>, i: int) {
    if 0 <= i < s.len() {
        lemma_next_char_bounds(s, i, ',');
    }
}

/// The tags of an inline list `[a, b]`.
pub open spec fn inline_tags(v: Seq<char>) -> Seq<Seq<char>> {
    if v.len() >= 2 {
        comma_items(v.subrange(1, v.len() - 1), 0)
    } else {
        Seq::empty()
    }
}

/// What has been read of the metadata so far.
pub struct YamlState {
    pub uid: Option<Seq<char>>,
    pub title: Option<Seq<char>>,
    pub tags: Seq<Seq<char>>,
    pub created: Option<Timestamp>,
    pub updated: Option<Timestamp>,
    /// Inside a multi-line `tags:` list.
    pub in_tags: bool,
}

pub open spec fn yaml_start() -> YamlState {
    YamlState { uid: None, title: None, tags: Seq::empty(), created: None, updated: None, in_tags: false }
}

/// A metadata line (already trimmed, `t`) read outside a tag list.
pub open spec fn yaml_field(st: YamlState, t: Seq<char>) -> YamlState {
    if starts_with(t, key_uid()) {
        YamlState { uid: Some(value_after(t, key_uid())), ..st }
    } else if starts_with(t, key_title()) {
        let v = value_after(t, key_title());
        if v.len() > 0 {
            YamlState { title: Some(v), ..st }
        } else {
            st
        }
    } else if starts_with(t, key_tags()) {
        let v = value_after(t, key_tags());
        if v.len() > 0 && v[0] == '[' && v.last() == ']' {
            YamlState { tags: inline_tags(v), ..st }
        } else if v.len() == 0 {
            YamlState { in_tags: true, ..st }
        } else {
            st
        }
    } else if starts_with(t, key_created()) {
        YamlState { created: parse_timestamp(value_after(t, key_created())), ..st }
    } else if starts_with(t, key_updated()) {
        YamlState { updated: parse_timestamp(value_after(t, key_updated())), ..st }
    } else {
        st
    }
}

/// One metadata line read: an item of a multi-line tag list, or a field.
pub open spec fn yaml_step(st: YamlState, line: Seq<char>) -> YamlState {
    let t = trim(line);
    if st.in_tags && starts_with(t, dash_space()) {
        let tag = trim(t.subrange(2, t.len() as int));
        if tag.len() > 0 {
            YamlState { tags: st.tags.push(tag), ..st }
        } else {
            st
        }
    } else {
        let indented = line.len() > 0 && (line[0] == ' ' || line[0] == '\t');
        let st2 = if st.in_tags && t.len() > 0 && !indented {
            YamlState { in_tags: false, ..st }
        } else {
            st
        };
        yaml_field(st2, t)
    }
}

pub open spec fn yaml_step_fn() -> spec_fn(YamlState, Seq<char>) -> YamlState {
    |st: YamlState, l: Seq<char>| yaml_step(st, l)
}

pub open spec fn yaml_read(s: Seq<char>) -> YamlState {
    fold_lines(s, 0, yaml_start(), yaml_step_fn())
}

/// The metadata that `s` describes, if it names an id and both timestamps.
pub open spec fn parse_yaml(s: Seq<char>) -> Option<MetaModel> {
    let st = yaml_read(s);
    if st.uid is Some && st.created is Some && st.updated is Some {
        Some(MetaModel { uid: st.uid->0, title: st.title, tags: st.tags, created_at: st.created->0, updated_at: st.updated->0 })
    } else {
        None
    }
}

/// Whether `v[a..b]` starts with `p`.
fn span_starts_with(v: &Vec<char>, a: usize, b: usize, p: &Vec<char>) -> (r: bool)
    requires
        a <= b <= v.len(),
    ensures
        r == starts_with(v@.subrange(a as int, b as int), p@),
{
    if p.len() > b - a {
        return false;
    }
    let r = matches_at(v, a, p);
    proof {
        assert(v@.subrange(a as int, b as int).subrange(0, p@.len() as int) =~= v@.subrange(a as int, a + p@.len()));
    }
    r
}

/// Where `v[a..b]` continues after every leading repetition of `p`.
fn strip_all_span(v: &Vec<char>, a: usize, b: usize, p: &Vec<char>) -> (r: usize)
    requires
        a <= b <= v.len(),
    ensures
        a <= r <= b,
        v@.subrange(r as int, b as int) == strip_all(v@.subrange(a as int, b as int), p@),
{
    let mut i = a;
    if p.len() == 0 {
        return a;
    }
    while span_starts_with(v, i, b, p)
        invariant
            a <= i <= b <= v.len(),
            p@.len() > 0,
            strip_all(v@.subrange(a as int, b as int), p@) == strip_all(v@.subrange(i as int, b as int), p@),
        decreases b - i,
    {
        proof {
            assert(v@.subrange(i as int, b as int).subrange(p@.len() as int, b - i) =~= v@.subrange(i + p@.len(), b as int));
        }
        i = i + p.len();
    }
    i
}

/// The trimmed value after `key` in `v[a..b]`, as a span.
fn value_span(v: &Vec<char>, a: usize, b: usize, key: &Vec<char>) -> (r: (usize, usize))
    requires
        a <= b <= v.len(),
    ensures
        a <= r.0 <= r.1 <= b,
        v@.subrange(r.0 as int, r.1 as int) == value_after(v@.subrange(a as int, b as int), key@),
{
    let s = strip_all_span(v, a, b, key);
    trim_span(v, s, b)
}

/// The items of an inline tag list between `lo` and `hi` (see [`comma_items`]).
fn read_comma_items(v: &Vec<char>, lo: usize, hi: usize) -> (r: Vec<String>)
    requires
        lo <= hi <= v.len(),
    ensures
        strs(r@) == comma_items(v@.subrange(lo as int, hi as int), 0),
{
    let mut out: Vec<String> = Vec::new();
    let mut i = lo;
    let ghost s = v@.subrange(lo as int, hi as int);
    proof {
        assert(strs(out@) =~= Seq::<Seq<char>>::empty());
    }
    while i < hi
        invariant
            lo <= i <= hi,
            hi <= v.len(),
            s == v@.subrange(lo as int, hi as int),
            strs(out@) + comma_items(s, i - lo) == comma_items(s, 0),
        decreases hi - i,
    {
        let mut k = i;
        while k < hi && v[k] != ','
            invariant
                i <= k <= hi <= v.len(),
                forall|j: int| i <= j < k ==> v@[j] != ',',
            decreases hi - k,
        {
            k = k + 1;
        }
        proof {
            lemma_next_char_bounds(s, i - lo, ',');
            lemma_next_char_sub(v@, lo as int, hi as int, i as int, k as int);
            assert(s.subrange(i - lo, k - lo) =~= v@.subrange(i as int, k as int));
        }
        let (a, b) = trim_span(v, i, k);
        let ghost before = out@;
        if b > a {
            out.push(string_of_span(v, a, b));
            proof {
                assert(strs(out@) =~= strs(before).push(v@.subrange(a as int, b as int)));
            }
        }
        proof {
            let item = trim(s.subrange(i - lo, k - lo));
            assert(strs(out@) =~= strs(before) + (if item.len() > 0 { seq![item] } else { Seq::empty() }));
            if k == hi {
                assert(comma_items(s, k + 1 - lo) == Seq::<Seq<char>>::empty());
                assert(strs(out@) + Seq::<Seq<char>>::empty() =~= strs(out@));
            }
        }
        if k < hi {
            i = k + 1;
        } else {
            i = hi;
        }
    }
    proof {
        if i == hi {
            assert(strs(out@) + Seq::<Seq<char>>::empty() =~= strs(out@));
        }
    }
    out
}

proof fn lemma_next_char_sub(v: Seq<char>, lo: int, hi: int, i: int, k: int)
    requires
        0 <= lo <= i <= k <= hi <= v.len(),
        forall|j: int| i <= j < k ==> v[j] != ',',
        k == hi || v[k] == ',',
    ensures
        next_char(v.subrange(lo, hi), i - lo, ',') == k - lo,
    decreases k - i,
{
    if i < k {
        lemma_next_char_sub(v, lo, hi, i + 1, k);
    }
}

/// Exec state of the metadata reader.
struct YamlReader {
    uid: Option<String>,
    title: Option<String>,
    tags: Vec<String>,
    created: Option<Timestamp>,
    updated: Option<Timestamp>,
    in_tags: bool,
}

impl View for YamlReader {
    type V = YamlState;

    closed spec fn view(&self) -> YamlState {
        YamlState {
            uid: opt_str(self.uid),
            title: opt_str(self.title),
            tags: strs(self.tags@),
            created: self.created,
            updated: self.updated,
            in_tags: self.in_tags,
        }
    }
}

/// Reads a timestamp value from `v[a..b]`.
fn timestamp_span(v: &Vec<char>, a: usize, b: usize) -> (r: Option<Timestamp>)
    requires
        a <= b <= v.len(),
    ensures
        r == parse_timestamp(v@.subrange(a as int, b as int)),
{
    let s = string_of_span(v, a, b);
    parse_datetime(s.as_str())
}

/// Applies [`yaml_field`] to the trimmed line `v[a..b]`.
fn read_field(st: &mut YamlReader, v: &Vec<char>, a: usize, b: usize)
    requires
        a <= b <= v.len(),
    ensures
        final(st)@ == yaml_field(old(st)@, v@.subrange(a as int, b as int)),
{
    let ku: Vec<char> = vec!['u', 'i', 'd', ':'];
    let kt: Vec<char> = vec!['t', 'i', 't', 'l', 'e', ':'];
    let kg: Vec<char> = vec!['t', 'a', 'g', 's', ':'];
    let kc: Vec<char> = vec!['c', 'r', 'e', 'a', 't', 'e', 'd', '_', 'a', 't', ':'];
    let kd: Vec<char> = vec!['u', 'p', 'd', 'a', 't', 'e', 'd', '_', 'a', 't', ':'];
    proof {
        assert(ku@ =~= key_uid());
        assert(kt@ =~= key_title());
        assert(kg@ =~= key_tags());
        assert(kc@ =~= key_created());
        assert(kd@ =~= key_updated());
    }
    if span_starts_with(v, a, b, &ku) {
        let (x, y) = value_span(v, a, b, &ku);
        st.uid = Some(string_of_span(v, x, y));
    } else if span_starts_with(v, a, b, &kt) {
        let (x, y) = value_span(v, a, b, &kt);
        if y > x {
            st.title = Some(string_of_span(v, x, y));
        }
    } else if span_starts_with(v, a, b, &kg) {
        let (x, y) = value_span(v, a, b, &kg);
        if y > x && v[x] == '[' && v[y - 1] == ']' {
            let inner = if y - x >= 2 {
                read_comma_items(v, x + 1, y - 1)
            } else {
                Vec::new()
            };
            proof {
                let w = v@.subrange(x as int, y as int);
                if y - x >= 2 {
                    assert(w.subrange(1, w.len() - 1) =~= v@.subrange(x + 1, y - 1));
                } else {
                    assert(strs(inner@) =~= Seq::<Seq<char>>::empty());
                }
            }
            st.tags = inner;
        } else if y == x {
            st.in_tags = true;
        }
    } else if span_starts_with(v, a, b, &kc) {
        let (x, y) = value_span(v, a, b, &kc);
        st.created = timestamp_span(v, x, y);
    } else if span_starts_with(v, a, b, &kd) {
        let (x, y) = value_span(v, a, b, &kd);
        st.updated = timestamp_span(v, x, y);
    }
}

/// Applies [`yaml_step`] to the line `v[i..e]`.
fn read_line(st: &mut YamlReader, v: &Vec<char>, i: usize, e: usize)
    requires
        i <= e <= v.len(),
    ensures
        final(st)@ == yaml_step(old(st)@, v@.subrange(i as int, e as int)),
{
    let (a, b) = trim_span(v, i, e);
    let ds: Vec<char> = vec!['-', ' '];
    proof {
        assert(ds@ =~= dash_space());
    }
    if st.in_tags && span_starts_with(v, a, b, &ds) {
        proof {
            assert(v@.subrange(a as int, b as int).subrange(2, b - a) =~= v@.subrange(a + 2, b as int));
        }
        let (x, y) = trim_span(v, a + 2, b);
        if y > x {
            let ghost before = st.tags@;
            st.tags.push(string_of_span(v, x, y));
            proof {
                assert(strs(st.tags@) =~= strs(before).push(v@.subrange(x as int, y as int)));
            }
        }
    } else {
        let indented = e > i && (v[i] == ' ' || v[i] == '\t');
        if st.in_tags && b > a && !indented {
            st.in_tags = false;
        }
        read_field(st, v, a, b);
    }
}

/// Reads the metadata lines of `v` (see [`parse_yaml`]).
fn read_yaml(v: &Vec<char>) -> (r: YamlReader)
    ensures
        r@ == yaml_read(v@),
{
    let mut st = YamlReader { uid: None, title: None, tags: Vec::new(), created: None, updated: None, in_tags: false };
    proof {
        assert(strs(st.tags@) =~= Seq::<Seq<char>>::empty());
        assert(st@ =~= yaml_start());
    }
    let mut i: usize = 0;
    while i < v.len()
        invariant
            i <= v.len(),
            yaml_read(v@) == fold_lines(v@, i as int, st@, yaml_step_fn()),
        decreases v.len() - i,
    {
        let (e, k) = line_at(v, i);
        let ghost prev = st@;
        read_line(&mut st, v, i, e);
        proof {
            assert(yaml_step_fn()(prev, strip_cr(v@.subrange(i as int, k as int))) == st@);
            assert(fold_lines(v@, i as int, prev, yaml_step_fn()) == fold_lines(v@, k + 1, st@, yaml_step_fn()));
        }
        if k < v.len() {
            i = k + 1;
        } else {
            i = v.len();
        }
    }
    st
}

pub open spec fn sp() -> Seq<char> {
    seq![' ']
}

pub open spec fn nl() -> Seq<char> {
    seq!['\n']
}

pub open spec fn tag_prefix() -> Seq<char> {
    seq![' ', ' ', '-', ' ']
}

/// The lines `  - t` of a tag list, joined by line feeds.
pub open spec fn tag_lines(tags: Seq<Seq<char>>) -> Seq<char>
    decreases tags.len(),
{
    if tags.len() == 0 {
        Seq::empty()
    } else if tags.len() == 1 {
        tag_prefix() + tags[0]
    } else {
        tag_lines(tags.drop_last()) + nl() + tag_prefix() + tags.last()
    }
}

pub open spec fn uid_block(m: MetaModel) -> Seq<char> {
    key_uid() + sp() + m.uid + nl()
}

pub open spec fn title_block(title: Option<Seq<char>>) -> Seq<char> {
    match title {
        Some(t) => key_title() + sp() + t + nl(),
        None => Seq::empty(),
    }
}

pub open spec fn tags_block(tags: Seq<Seq<char>>) -> Seq<char> {
    if tags.len() == 0 {
        Seq::empty()
    } else {
        key_tags() + nl() + tag_lines(tags) + nl()
    }
}

pub open spec fn dates_block(created: Timestamp, updated: Timestamp) -> Seq<char> {
    key_created() + sp() + format_timestamp(created) + nl() + key_updated() + sp() + format_timestamp(updated)
}

/// The metadata block as written: one `key: value` line per field, the
/// title only when present, the tags only when there are any.
pub open spec fn yaml_text(m: MetaModel) -> Seq<char> {
    uid_block(m) + title_block(m.title) + tags_block(m.tags) + dates_block(m.created_at, m.updated_at)
}

fn push_lit(dst: &mut Vec<char>, lit: &Vec<char>)
    ensures
        final(dst)@ == old(dst)@ + lit@,
{
    crate::text::append_all(dst, lit);
}

fn push_string(dst: &mut Vec<char>, s: &String)
    ensures
        final(dst)@ == old(dst)@ + s@,
{
    let v = chars_of(s.as_str());
    crate::text::append_all(dst, &v);
}

fn push_title(out: &mut Vec<char>, title: &Option<String>)
    ensures
        final(out)@ == old(out)@ + title_block(opt_str(*title)),
{
    let ghost start = out@;
    match title {
        Some(t) => {
            let kt: Vec<char> = vec!['t', 'i', 't', 'l', 'e', ':'];
            let spc: Vec<char> = vec![' '];
            let lf: Vec<char> = vec!['\n'];
            push_lit(out, &kt);
            push_lit(out, &spc);
            push_string(out, t);
            push_lit(out, &lf);
            proof {
                assert(kt@ =~= key_title());
                assert(out@ =~= start + title_block(opt_str(*title)));
            }
        },
        None => {
            proof {
                assert(out@ =~= start + Seq::<char>::empty());
            }
        },
    }
}

fn push_tags(out: &mut Vec<char>, tags: &Vec<String>)
    ensures
        final(out)@ == old(out)@ + tags_block(strs(tags@)),
{
    let ghost start = out@;
    if tags.len() > 0 {
        let kg: Vec<char> = vec!['t', 'a', 'g', 's', ':'];
        let tp: Vec<char> = vec![' ', ' ', '-', ' '];
        let lf: Vec<char> = vec!['\n'];
        push_lit(out, &kg);
        push_lit(out, &lf);
        let ghost list_start = out@;
        let mut i: usize = 0;
        proof {
            assert(tag_lines(strs(tags@).take(0)) =~= Seq::<char>::empty());
            assert(out@ =~= list_start + tag_lines(strs(tags@).take(0)));
        }
        while i < tags.len()
            invariant
                i <= tags@.len(),
                tp@ == tag_prefix(),
                lf@ == nl(),
                out@ == list_start + tag_lines(strs(tags@).take(i as int)),
            decreases tags.len() - i,
        {
            proof {
                assert(strs(tags@).take(i + 1).drop_last() =~= strs(tags@).take(i as int));
                assert(strs(tags@).take(i + 1).last() == tags@[i as int]@);
            }
            let ghost before = out@;
            if i > 0 {
                push_lit(out, &lf);
            }
            push_lit(out, &tp);
            push_string(out, &tags[i]);
            proof {
                if i == 0 {
                    assert(strs(tags@).take(1)[0] == tags@[0]@);
                    assert(out@ =~= list_start + tag_lines(strs(tags@).take(1)));
                } else {
                    assert(out@ =~= list_start + tag_lines(strs(tags@).take(i + 1)));
                }
            }
            i = i + 1;
        }
        push_lit(out, &lf);
        proof {
            assert(strs(tags@).take(tags@.len() as int) =~= strs(tags@));
            assert(kg@ =~= key_tags());
            assert(out@ =~= start + tags_block(strs(tags@)));
        }
    } else {
        proof {
            assert(out@ =~= start + Seq::<char>::empty());
        }
    }
}

fn push_dates(out: &mut Vec<char>, created: &Timestamp, updated: &Timestamp)
    ensures
        final(out)@ == old(out)@ + dates_block(*created, *updated),
{
    let ghost start = out@;
    let kc: Vec<char> = vec!['c', 'r', 'e', 'a', 't', 'e', 'd', '_', 'a', 't', ':'];
    let kd: Vec<char> = vec!['u', 'p', 'd', 'a', 't', 'e', 'd', '_', 'a', 't', ':'];
    let spc: Vec<char> = vec![' '];
    let lf: Vec<char> = vec!['\n'];
    push_lit(out, &kc);
    push_lit(out, &spc);
    push_timestamp(out, created);
    push_lit(out, &lf);
    push_lit(out, &kd);
    push_lit(out, &spc);
    push_timestamp(out, updated);
    proof {
        assert(kc@ =~= key_created());
        assert(kd@ =~= key_updated());
        assert(out@ =~= start + dates_block(*created, *updated));
    }
}

impl NoteMetadata {
    /// Metadata for a new note created now. Its id is the creation time as
    /// `YYYYMMDDHHMMSS` followed by the clock's nanoseconds modulo one
    /// million.
    pub fn new() -> (r: NoteMetadata)
        ensures
            exists|n: nat| n < 1000000 && r.uid@ == compact_timestamp(r.created_at) + decimal(n),
            r.created_at.valid(),
            r.updated_at == r.created_at,
            r.title is None,
            r.tags@.len() == 0,
    {
        let (t, nanos) = now();
        let mut id: Vec<char> = Vec::new();
        push_compact(&mut id, &t);
        push_decimal(&mut id, nanos % 1000000);
        proof {
            assert(id@ =~= compact_timestamp(t) + decimal((nanos % 1000000) as nat));
        }
        let uid = crate::text::string_of(id.as_slice());
        NoteMetadata { uid, title: None, tags: Vec::new(), created_at: t, updated_at: t }
    }

    /// Metadata for a new note with the given id, created now.
    pub fn with_uid(uid: String) -> (r: NoteMetadata)
        ensures
            r.uid@ == uid@,
            r.title is None,
            r.tags@.len() == 0,
            r.created_at == r.updated_at,
            r.created_at.valid(),
    {
        let (t, _) = now();
        NoteMetadata { uid, title: None, tags: Vec::new(), created_at: t, updated_at: t }
    }

    /// Reads front-matter metadata: `uid:`, `title:` (kept only when not
    /// empty), `tags:` as an inline `[a, b]` list or as `- a` lines below it,
    /// and `created_at:` / `updated_at:`. An id and both timestamps are
    /// required.
    pub fn from_yaml(yaml: &str) -> (r: Result<NoteMetadata, Error>)
        ensures
            match r {
                Ok(m) => parse_yaml(yaml@) == Some(m@),
                Err(_) => parse_yaml(yaml@) is None,
            },
    {
        let v = chars_of(yaml);
        let st = read_yaml(&v);
        match (st.uid, st.created, st.updated) {
            (Some(uid), Some(created_at), Some(updated_at)) => Ok(NoteMetadata { uid, title: st.title, tags: st.tags, created_at, updated_at }),
            _ => Err(Error::InvalidFormat),
        }
    }

    /// Appends the metadata block (see [`yaml_text`]).
    fn push_yaml(&self, out: &mut Vec<char>)
        ensures
            final(out)@ == old(out)@ + yaml_text(self@),
    {
        let ghost start = out@;
        let spc: Vec<char> = vec![' '];
        let lf: Vec<char> = vec!['\n'];
        let ku: Vec<char> = vec!['u', 'i', 'd', ':'];
        push_lit(out, &ku);
        push_lit(out, &spc);
        push_string(out, &self.uid);
        push_lit(out, &lf);
        let ghost a1 = out@;
        push_title(out, &self.title);
        let ghost a2 = out@;
        push_tags(out, &self.tags);
        let ghost a3 = out@;
        push_dates(out, &self.created_at, &self.updated_at);
        proof {
            assert(ku@ =~= key_uid());
            let m = self@;
            assert(a1 =~= start + uid_block(m));
            assert(out@ =~= start + (uid_block(m) + title_block(m.title) + tags_block(m.tags) + dates_block(m.created_at, m.updated_at)));
        }
    }

    /// The metadata block (see [`yaml_text`]).
    pub fn to_yaml(&self) -> (r: String)
        ensures
            r@ == yaml_text(self@),
    {
        let mut out: Vec<char> = Vec::new();
        self.push_yaml(&mut out);
        proof {
            assert(out@ =~= yaml_text(self@));
        }
        crate::text::string_of(out.as_slice())
    }
}

pub open spec fn fence_open() -> Seq<char> {
    seq!['-', '-', '-', '\n']
}

pub open spec fn fence_close() -> Seq<char> {
    seq!['\n', '-', '-', '-']
}

/// The file text of a note: opening fence, metadata, closing fence, a blank
/// line, then the body.
pub open spec fn file_text(m: MetaModel, body: Seq<char>) -> Seq<char> {
    fence_open() + yaml_text(m) + fence_close() + seq!['\n', '\n'] + body
}

/// What a file holds, read as a note: its metadata and body, or why not.
/// The body is what follows the closing fence line and the blank line after
/// it.
pub open spec fn parse_file(s: Seq<char>) -> Result<(MetaModel, Seq<char>), NoteParseError> {
    if !starts_with(s, fence_open()) {
        Err(NoteParseError::MissingFrontMatter)
    } else {
        match find_from(s, 4, fence_close()) {
            None => Err(NoteParseError::InvalidFrontMatter),
            Some(e) => match parse_yaml(s.subrange(4, e)) {
                None => Err(NoteParseError::InvalidFrontMatter),
                Some(m) => Ok((m, if e + 4 < s.len() { drop_fence_gap(s.subrange(e + 4, s.len() as int)) } else { Seq::empty() })),
            },
        }
    }
}

pub open spec fn heading_prefix_1() -> Seq<char> {
    seq!['#', ' ']
}

pub open spec fn heading_prefix_2() -> Seq<char> {
    seq!['#', '#', ' ']
}

/// The heading a trimmed line holds, if it is a level-1 or level-2 heading.
pub open spec fn line_heading(t: Seq<char>) -> Option<Seq<char>> {
    if starts_with(t, heading_prefix_1()) {
        Some(trim(t.subrange(2, t.len() as int)))
    } else if starts_with(t, heading_prefix_2()) {
        Some(trim(t.subrange(3, t.len() as int)))
    } else {
        None
    }
}

pub open spec fn heading_step_fn() -> spec_fn(Option<Seq<char>>, Seq<char>) -> Option<Seq<char>> {
    |acc: Option<Seq<char>>, l: Seq<char>| if acc is Some { acc } else { line_heading(trim(l)) }
}

/// The text of the first level-1 or level-2 heading of a body.
pub open spec fn first_heading(body: Seq<char>) -> Option<Seq<char>> {
    fold_lines(body, 0, None, heading_step_fn())
}

proof fn lemma_heading_found(s: Seq<char>, i: int, h: Seq<char>)
    ensures
        fold_lines(s, i, Some(h), heading_step_fn()) == Some(h),
    decreases s.len() + 1 - i,
{
    if 0 <= i < s.len() {
        lemma_next_char_bounds(s, i, '\n');
        let k = next_char(s, i, '\n');
        lemma_heading_found(s, k + 1, h);
    }
}

/// The heading of the trimmed line `v[a..b]`, as a span.
fn heading_of_span(v: &Vec<char>, a: usize, b: usize) -> (r: Option<(usize, usize)>)
    requires
        a <= b <= v.len(),
    ensures
        match r {
            Some(sp) => sp.0 <= sp.1 <= v.len() && line_heading(v@.subrange(a as int, b as int)) == Some(v@.subrange(sp.0 as int, sp.1 as int)),
            None => line_heading(v@.subrange(a as int, b as int)) is None,
        },
{
    let h1: Vec<char> = vec!['#', ' '];
    let h2: Vec<char> = vec!['#', '#', ' '];
    proof {
        assert(h1@ =~= heading_prefix_1());
        assert(h2@ =~= heading_prefix_2());
    }
    if span_starts_with(v, a, b, &h1) {
        let sp = trim_span(v, a + 2, b);
        proof {
            assert(v@.subrange(a as int, b as int).subrange(2, b - a) =~= v@.subrange(a + 2, b as int));
        }
        Some(sp)
    } else if span_starts_with(v, a, b, &h2) {
        let sp = trim_span(v, a + 3, b);
        proof {
            assert(v@.subrange(a as int, b as int).subrange(3, b - a) =~= v@.subrange(a + 3, b as int));
        }
        Some(sp)
    } else {
        None
    }
}

/// The first level-1 or level-2 heading of the body `v`.
pub fn heading_of(v: &Vec<char>) -> (r: Option<String>)
    ensures
        opt_str(r) == first_heading(v@),
{
    let mut i: usize = 0;
    while i < v.len()
        invariant
            i <= v.len(),
            first_heading(v@) == fold_lines(v@, i as int, None, heading_step_fn()),
        decreases v.len() - i,
    {
        let (e, k) = line_at(v, i);
        let (a, b) = trim_span(v, i, e);
        match heading_of_span(v, a, b) {
            Some((x, y)) => {
                proof {
                    lemma_heading_found(v@, k + 1, v@.subrange(x as int, y as int));
                }
                return Some(string_of_span(v, x, y));
            },
            None => {
                proof {
                    assert(heading_step_fn()(None, strip_cr(v@.subrange(i as int, k as int))) is None);
                    assert(fold_lines(v@, i as int, None, heading_step_fn()) == fold_lines(v@, k + 1, None, heading_step_fn()));
                }
            },
        }
        if k < v.len() {
            i = k + 1;
        } else {
            i = v.len();
        }
    }
    None
}

/// `r` without the line feed that ends the closing fence and the blank line
/// after it: at most two leading line feeds removed.
pub open spec fn drop_fence_gap(r: Seq<char>) -> Seq<char> {
    let r1 = if r.len() > 0 && r[0] == '\n' { r.drop_first() } else { r };
    if r1.len() > 0 && r1[0] == '\n' { r1.drop_first() } else { r1 }
}

/// Where the body starts in `v[a..]` (see [`drop_fence_gap`]).
fn skip_fence_gap(v: &Vec<char>, a: usize) -> (r: usize)
    requires
        a <= v.len(),
    ensures
        a <= r <= v.len(),
        v@.subrange(r as int, v.len() as int) == drop_fence_gap(v@.subrange(a as int, v.len() as int)),
{
    let mut i = a;
    if i < v.len() && v[i] == '\n' {
        i = i + 1;
    }
    let ghost mid = i;
    if i < v.len() && v[i] == '\n' {
        i = i + 1;
    }
    proof {
        let r = v@.subrange(a as int, v.len() as int);
        if a < v.len() && v@[a as int] == '\n' {
            assert(r.drop_first() =~= v@.subrange(a + 1, v.len() as int));
        }
        let r1 = v@.subrange(mid as int, v.len() as int);
        if mid < v.len() && v@[mid as int] == '\n' {
            assert(r1.drop_first() =~= v@.subrange(mid + 1, v.len() as int));
        }
    }
    i
}

/// A character that may stand in a hashtag: ASCII letters, digits, `_`,
/// `-`, hiragana, katakana and CJK unified ideographs.
pub open spec fn tag_char(c: char) -> bool {
    ('a' <= c && c <= 'z') || ('A' <= c && c <= 'Z') || ('0' <= c && c <= '9') || c == '_' || c == '-'
        || ('\u{3040}' <= c && c <= '\u{309F}') || ('\u{30A0}' <= c && c <= '\u{30FF}') || ('\u{4E00}' <= c && c <= '\u{9FFF}')
}

fn is_tag_char(c: char) -> (r: bool)
    ensures
        r == tag_char(c),
{
    ('a' <= c && c <= 'z') || ('A' <= c && c <= 'Z') || ('0' <= c && c <= '9') || c == '_' || c == '-'
        || ('\u{3040}' <= c && c <= '\u{309F}') || ('\u{30A0}' <= c && c <= '\u{30FF}') || ('\u{4E00}' <= c && c <= '\u{9FFF}')
}

/// End of the run of tag characters that starts at `i`.
pub open spec fn tag_run_end(s: Seq<char>, i: int) -> int
    decreases s.len() - i,
{
    if 0 <= i < s.len() && tag_char(s[i]) {
        tag_run_end(s, i + 1)
    } else {
        i
    }
}

proof fn lemma_tag_run_end(s: Seq<char>, i: int)
    requires
        0 <= i <= s.len(),
    ensures
        i <= tag_run_end(s, i) <= s.len(),
    decreases s.len() - i,
{
    if i < s.len() && tag_char(s[i]) {
        lemma_tag_run_end(s, i + 1);
    }
}

/// A hashtag starts at `i`: `#` at the start of the text or after
/// whitespace, followed by a tag character.
pub open spec fn hashtag_at(s: Seq<char>, i: int) -> bool {
    &&& 0 <= i && i + 1 < s.len()
    &&& s[i] == '#'
    &&& (i == 0 || white_space(s[i - 1]))
    &&& tag_char(s[i + 1])
}

/// The hashtags of `s` from position `i`, without their `#`, in order.
pub open spec fn hashtags_from(s: Seq<char>, i: int) -> Seq<Seq<char>>
    decreases s.len() - i
    via hashtags_from_decreases
{
    if i < 0 || i >= s.len() {
        Seq::empty()
    } else if hashtag_at(s, i) {
        let e = tag_run_end(s, i + 1);
        seq![s.subrange(i + 1, e)] + hashtags_from(s, e)
    } else {
        hashtags_from(s, i + 1)
    }
}

#[via_fn]
proof fn hashtags_from_decreases(s: Seq<char>, i: int) {
    if 0 <= i < s.len() && hashtag_at(s, i) {
        lemma_tag_run_end(s, i + 2);
        assert(tag_run_end(s, i + 1) == tag_run_end(s, i + 2));
    }
}

/// `v` without repeated entries, first occurrences kept.
pub open spec fn dedup(v: Seq<Seq<char>>) -> Seq<Seq<char>>
    decreases v.len(),
{
    if v.len() == 0 {
        Seq::empty()
    } else {
        let r = dedup(v.drop_last());
        if r.contains(v.last()) {
            r
        } else {
            r.push(v.last())
        }
    }
}

pub open spec fn lowered(v: Seq<Seq<char>>) -> Seq<Seq<char>> {
    v.map_values(|t: Seq<char>| lower_of(t))
}

/// The hashtags of a body, lowercased, each once, in order of appearance.
pub open spec fn body_hashtags(s: Seq<char>) -> Seq<Seq<char>> {
    dedup(lowered(hashtags_from(s, 0)))
}

/// `tags` with each of `extra` added unless a tag equal to it up to case is
/// already there.
pub open spec fn merge_tags(tags: Seq<Seq<char>>, extra: Seq<Seq<char>>) -> Seq<Seq<char>>
    decreases extra.len(),
{
    if extra.len() == 0 {
        tags
    } else {
        let r = merge_tags(tags, extra.drop_last());
        if exists|j: int| 0 <= j < r.len() && lower_of(#[trigger] r[j]) == lower_of(extra.last()) {
            r
        } else {
            r.push(extra.last())
        }
    }
}

/// Code-point order of strings, as `Ord for String` compares them.
pub open spec fn str_le(a: Seq<char>, b: Seq<char>) -> bool
    decreases a.len(),
{
    if a.len() == 0 {
        true
    } else if b.len() == 0 {
        false
    } else if a[0] != b[0] {
        (a[0] as u32) < (b[0] as u32)
    } else {
        str_le(a.drop_first(), b.drop_first())
    }
}

pub open spec fn sorted_strs(v: Seq<Seq<char>>) -> bool {
    forall|i: int, j: int| 0 <= i < j < v.len() ==> str_le(#[trigger] v[i], #[trigger] v[j])
}

/// Relies on `slice::sort` over `String`, whose order compares the UTF-8
/// bytes, that is the code points, lexicographically: the same strings,
/// in ascending order.
#[verifier::external_body]
fn sort_strings(v: &mut Vec<String>)
    ensures
        strs(final(v)@).to_multiset() == strs(old(v)@).to_multiset(),
        sorted_strs(strs(final(v)@)),
{
    v.sort();
}

pub open spec fn all_tags_of(tags: Seq<Seq<char>>, body: Seq<char>) -> Seq<Seq<char>> {
    merge_tags(tags, body_hashtags(body))
}

/// Whether `v` holds a string equal to `t`.
pub fn contains_string(v: &Vec<String>, t: &String) -> (r: bool)
    ensures
        r == strs(v@).contains(t@),
{
    let mut i: usize = 0;
    while i < v.len()
        invariant
            i <= v@.len(),
            forall|j: int| 0 <= j < i ==> v@[j]@ != t@,
        decreases v.len() - i,
    {
        if v[i] == *t {
            proof {
                assert(strs(v@)[i as int] == t@);
            }
            return true;
        }
        i = i + 1;
    }
    proof {
        if strs(v@).contains(t@) {
            let j = choose|j: int| 0 <= j < strs(v@).len() && strs(v@)[j] == t@;
            assert(v@[j]@ == t@);
        }
    }
    false
}

/// A copy of a list of strings.
pub fn copy_strings(v: &Vec<String>) -> (r: Vec<String>)
    ensures
        r@ == v@,
{
    let mut out: Vec<String> = Vec::new();
    let mut i: usize = 0;
    while i < v.len()
        invariant
            i <= v@.len(),
            out@ == v@.take(i as int),
        decreases v.len() - i,
    {
        out.push(v[i].clone());
        proof {
            assert(v@.take(i + 1) =~= v@.take(i as int).push(v@[i as int]));
        }
        i = i + 1;
    }
    proof {
        assert(v@.take(v@.len() as int) =~= v@);
    }
    out
}

/// The hashtags of the body `v` (see [`body_hashtags`]).
fn hashtags_of(v: &Vec<char>) -> (r: Vec<String>)
    ensures
        strs(r@) == body_hashtags(v@),
{
    let mut raw: Vec<String> = Vec::new();
    let mut out: Vec<String> = Vec::new();
    let mut i: usize = 0;
    proof {
        assert(strs(raw@) =~= Seq::<Seq<char>>::empty());
        assert(strs(out@) =~= Seq::<Seq<char>>::empty());
    }
    while i < v.len()
        invariant
            i <= v.len(),
            strs(raw@) + hashtags_from(v@, i as int) == hashtags_from(v@, 0),
            strs(out@) == dedup(lowered(strs(raw@))),
        decreases v.len() - i,
    {
        if v[i] == '#' && i + 1 < v.len() && (i == 0 || crate::text::is_white(v[i - 1])) && is_tag_char(v[i + 1]) {
            let mut e = i + 1;
            while e < v.len() && is_tag_char(v[e])
                invariant
                    i + 1 <= e <= v.len(),
                    tag_run_end(v@, i + 1) == tag_run_end(v@, e as int),
                decreases v.len() - e,
            {
                e = e + 1;
            }
            let tag = string_of_span(v, i + 1, e);
            let low = crate::text::lowercase(tag.as_str());
            let ghost raw0 = raw@;
            let ghost out0 = out@;
            raw.push(tag);
            proof {
                assert(strs(raw@) =~= strs(raw0).push(v@.subrange(i + 1, e as int)));
                assert(strs(raw0).push(v@.subrange(i + 1, e as int)) + hashtags_from(v@, e as int) =~= strs(raw0) + (seq![v@.subrange(i + 1, e as int)] + hashtags_from(v@, e as int)));
                assert(lowered(strs(raw@)).drop_last() =~= lowered(strs(raw0)));
            }
            if !contains_string(&out, &low) {
                out.push(low);
                proof {
                    assert(strs(out@) =~= strs(out0).push(low@));
                }
            }
            i = e;
        } else {
            i = i + 1;
        }
    }
    proof {
        assert(strs(raw@) + hashtags_from(v@, i as int) =~= strs(raw@));
    }
    out
}

impl Note {
    /// A new, empty note created now (see [`NoteMetadata::new`]).
    pub fn new() -> (r: Note)
        ensures
            exists|n: nat| n < 1000000 && r.metadata.uid@ == compact_timestamp(r.metadata.created_at) + decimal(n),
            r.metadata.created_at.valid(),
            r.metadata.updated_at == r.metadata.created_at,
            r.metadata.title is None,
            r.metadata.tags@.len() == 0,
            r.content@.len() == 0,
            !r.is_dirty,
    {
        Note { metadata: NoteMetadata::new(), content: String::new(), is_dirty: false }
    }

    /// A new note whose body opens with `# title` and whose title is `title`.
    pub fn with_title(title: &str) -> (r: Note)
        ensures
            r.content@ == seq!['#', ' '] + title@ + seq!['\n', '\n'],
            opt_str(r.metadata.title) == Some(title@),
            r.metadata.tags@.len() == 0,
            r.metadata.created_at.valid(),
            r.is_dirty,
    {
        let mut note = Note::new();
        let mut body: Vec<char> = vec!['#', ' '];
        let t = chars_of(title);
        crate::text::append_all(&mut body, &t);
        body.push('\n');
        body.push('\n');
        proof {
            assert(body@ =~= seq!['#', ' '] + title@ + seq!['\n', '\n']);
        }
        note.content = crate::text::string_of(body.as_slice());
        note.metadata.title = Some(String::from_str(title));
        note.is_dirty = true;
        note
    }

    /// A new, empty note with the given id.
    pub fn with_uid(uid: String) -> (r: Note)
        ensures
            r.metadata.uid@ == uid@,
            r.metadata.title is None,
            r.metadata.tags@.len() == 0,
            r.content@.len() == 0,
            !r.is_dirty,
    {
        Note { metadata: NoteMetadata::with_uid(uid), content: String::new(), is_dirty: false }
    }

    /// Reads a note from the text of its file (see [`parse_file`]).
    pub fn from_file_content(content: &str) -> (r: Result<Note, NoteParseError>)
        ensures
            match r {
                Ok(n) => parse_file(content@) == Ok::<(MetaModel, Seq<char>), NoteParseError>((n.metadata@, n.content@)) && !n.is_dirty,
                Err(e) => parse_file(content@) == Err::<(MetaModel, Seq<char>), NoteParseError>(e),
            },
    {
        let v = chars_of(content);
        let open: Vec<char> = vec!['-', '-', '-', '\n'];
        let close: Vec<char> = vec!['\n', '-', '-', '-'];
        proof {
            assert(open@ =~= fence_open());
            assert(close@ =~= fence_close());
        }
        if !span_starts_with(&v, 0, v.len(), &open) {
            proof {
                assert(v@.subrange(0, v@.len() as int) =~= v@);
            }
            return Err(NoteParseError::MissingFrontMatter);
        }
        proof {
            assert(v@.subrange(0, v@.len() as int) =~= v@);
        }
        let e = match find_chars(&v, 4, &close) {
            Some(e) => e,
            None => {
                return Err(NoteParseError::InvalidFrontMatter);
            },
        };
        proof {
            crate::text::lemma_find_from_found(v@, 4, close@);
        }
        let yaml = string_of_span(&v, 4, e);
        let metadata = match NoteMetadata::from_yaml(yaml.as_str()) {
            Ok(m) => m,
            Err(_) => {
                return Err(NoteParseError::InvalidFrontMatter);
            },
        };
        let body = if e + 4 < v.len() {
            let b = skip_fence_gap(&v, e + 4);
            string_of_span(&v, b, v.len())
        } else {
            String::new()
        };
        Ok(Note { metadata, content: body, is_dirty: false })
    }

    /// Whether `content` opens with a front-matter fence that is closed later.
    pub fn has_front_matter(content: &str) -> (r: bool)
        ensures
            r == (starts_with(content@, fence_open()) && find_from(content@, 4, fence_close()) is Some),
    {
        let v = chars_of(content);
        let open: Vec<char> = vec!['-', '-', '-', '\n'];
        let close: Vec<char> = vec!['\n', '-', '-', '-'];
        proof {
            assert(open@ =~= fence_open());
            assert(close@ =~= fence_close());
            assert(v@.subrange(0, v@.len() as int) =~= v@);
        }
        span_starts_with(&v, 0, v.len(), &open) && find_chars(&v, 4, &close).is_some()
    }

    /// The text of the note's file (see [`file_text`]).
    pub fn to_file_content(&self) -> (r: String)
        ensures
            r@ == file_text(self.metadata@, self.content@),
    {
        let mut out: Vec<char> = vec!['-', '-', '-', '\n'];
        proof {
            assert(out@ =~= fence_open());
        }
        self.metadata.push_yaml(&mut out);
        let tail: Vec<char> = vec!['\n', '-', '-', '-', '\n', '\n'];
        push_lit(&mut out, &tail);
        push_string(&mut out, &self.content);
        proof {
            assert(tail@ =~= fence_close() + seq!['\n', '\n']);
            assert(out@ =~= file_text(self.metadata@, self.content@));
        }
        crate::text::string_of(out.as_slice())
    }

    /// The text of the body's first level-1 or level-2 heading.
    pub fn extract_heading(&self) -> (r: Option<String>)
        ensures
            opt_str(r) == first_heading(self.content@),
    {
        let v = chars_of(self.content.as_str());
        heading_of(&v)
    }

    /// The note's id.
    pub fn uid(&self) -> (r: &str)
        ensures
            r@ == self.metadata.uid@,
    {
        self.metadata.uid.as_str()
    }

    /// Replaces the body. When it differs from the current one, the title is
    /// derived anew from its first heading, the update time is set to now
    /// and the note is marked changed; otherwise nothing changes.
    pub fn update_content(&mut self, content: String)
        ensures
            old(self).content@ == content@ ==> *final(self) == *old(self),
            old(self).content@ != content@ ==> {
                &&& final(self).content@ == content@
                &&& opt_str(final(self).metadata.title) == first_heading(content@)
                &&& final(self).metadata.uid == old(self).metadata.uid
                &&& final(self).metadata.tags == old(self).metadata.tags
                &&& final(self).metadata.created_at == old(self).metadata.created_at
                &&& final(self).metadata.updated_at.valid()
                &&& final(self).is_dirty
            },
    {
        if self.content != content {
            self.content = content;
            let (t, _) = now();
            self.metadata.updated_at = t;
            self.metadata.title = self.extract_heading();
            self.is_dirty = true;
        }
    }

    /// The hashtags of the body, lowercased, each once (see
    /// [`body_hashtags`]).
    pub fn extract_hashtags(&self) -> (r: Vec<String>)
        ensures
            strs(r@) == body_hashtags(self.content@),
    {
        let v = chars_of(self.content.as_str());
        hashtags_of(&v)
    }

    /// The front-matter tags merged with the body's hashtags (a hashtag
    /// equal to a tag up to case is not added again), in code-point order.
    pub fn all_tags(&self) -> (r: Vec<String>)
        ensures
            strs(r@).to_multiset() == all_tags_of(strs(self.metadata.tags@), self.content@).to_multiset(),
            sorted_strs(strs(r@)),
    {
        let mut all = copy_strings(&self.metadata.tags);
        let extra = self.extract_hashtags();
        let mut i: usize = 0;
        while i < extra.len()
            invariant
                i <= extra@.len(),
                strs(all@) == merge_tags(strs(self.metadata.tags@), strs(extra@).take(i as int)),
            decreases extra.len() - i,
        {
            let low = crate::text::lowercase(extra[i].as_str());
            let mut found = false;
            let mut j: usize = 0;
            while j < all.len()
                invariant
                    j <= all@.len(),
                    low@ == lower_of(extra@[i as int]@),
                    found == exists|q: int| 0 <= q < j && lower_of(#[trigger] strs(all@)[q]) == low@,
                decreases all.len() - j,
            {
                let l = crate::text::lowercase(all[j].as_str());
                if l == low {
                    found = true;
                }
                proof {
                    assert(strs(all@)[j as int] == all@[j as int]@);
                }
                j = j + 1;
            }
            proof {
                assert(strs(extra@).take(i + 1).drop_last() =~= strs(extra@).take(i as int));
                assert(strs(extra@).take(i + 1).last() == extra@[i as int]@);
            }
            if !found {
                let ghost a0 = all@;
                all.push(extra[i].clone());
                proof {
                    assert(strs(all@) =~= strs(a0).push(extra@[i as int]@));
                }
            }
            i = i + 1;
        }
        proof {
            assert(strs(extra@).take(extra@.len() as int) =~= strs(extra@));
        }
        sort_strings(&mut all);
        all
    }

    /// Marks the note as saved.
    pub fn mark_saved(&mut self)
        ensures
            final(self).metadata == old(self).metadata,
            final(self).content == old(self).content,
            !final(self).is_dirty,
    {
        self.is_dirty = false;
    }

    /// The tags of the front matter.
    pub fn tags(&self) -> (r: &[String])
        ensures
            r@ == self.metadata.tags@,
    {
        self.metadata.tags.as_slice()
    }

    /// Replaces the front-matter tags, sets the update time to now and marks
    /// the note changed.
    pub fn update_tags(&mut self, tags: Vec<String>)
        ensures
            final(self).metadata.tags == tags,
            final(self).metadata.uid == old(self).metadata.uid,
            final(self).metadata.title == old(self).metadata.title,
            final(self).metadata.created_at == old(self).metadata.created_at,
            final(self).metadata.updated_at.valid(),
            final(self).content == old(self).content,
            final(self).is_dirty,
    {
        self.metadata.tags = tags;
        let (t, _) = now();
        self.metadata.updated_at = t;
        self.is_dirty = true;
    }
}

} // verus!
