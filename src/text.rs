//! Character-level helpers shared by the parsers: conversions between
//! strings and character vectors, whitespace trimming, line splitting and
//! substring search, each with a specification over `Seq<char>`.
use vstd::prelude::*;

verus! {

/// What `str::to_lowercase` returns for a string.
pub uninterp spec fn lower_of(s: Seq<char>) -> Seq<char>;

/// What `str::to_uppercase` returns for a string.
pub uninterp spec fn upper_of(s: Seq<char>) -> Seq<char>;

/// The Unicode White_Space property, which `char::is_whitespace` tests:
/// tab to carriage return, space, next line, no-break space, ogham space
/// mark, the spaces from en quad to hair space, line and paragraph
/// separators, narrow no-break space, medium mathematical space and
/// ideographic space.
pub open spec fn white_space(c: char) -> bool {
    ('\u{9}' <= c && c <= '\u{d}') || c == ' ' || c == '\u{85}' || c == '\u{a0}' || c == '\u{1680}'
        || ('\u{2000}' <= c && c <= '\u{200a}') || c == '\u{2028}' || c == '\u{2029}' || c == '\u{202f}'
        || c == '\u{205f}' || c == '\u{3000}'
}

/// Relies on `str::chars`: the characters of the string, in order.
#[verifier::external_body]
pub fn chars_of(s: &str) -> (r: Vec<char>)
    ensures
        r@ == s@,
{
    s.chars().collect()
}

/// Relies on `FromIterator<&char> for String`: the string made of these characters.
#[verifier::external_body]
pub fn string_of(v: &[char]) -> (r: String)
    ensures
        r@ == v@,
{
    v.iter().collect()
}

/// Relies on `str::to_lowercase`: the result depends on the characters alone.
#[verifier::external_body]
pub fn lowercase(s: &str) -> (r: String)
    ensures
        r@ == lower_of(s@),
        s@.len() == 0 ==> r@.len() == 0,
{
    s.to_lowercase()
}

/// Relies on `str::to_uppercase`: the result depends on the characters alone.
#[verifier::external_body]
pub fn uppercase(s: &str) -> (r: String)
    ensures
        r@ == upper_of(s@),
        s@.len() == 0 ==> r@.len() == 0,
{
    s.to_uppercase()
}

/// Whether `c` is whitespace (see [`white_space`]).
pub fn is_white(c: char) -> (r: bool)
    ensures
        r == white_space(c),
{
    ('\u{9}' <= c && c <= '\u{d}') || c == ' ' || c == '\u{85}' || c == '\u{a0}' || c == '\u{1680}'
        || ('\u{2000}' <= c && c <= '\u{200a}') || c == '\u{2028}' || c == '\u{2029}' || c == '\u{202f}'
        || c == '\u{205f}' || c == '\u{3000}'
}

/// Leading whitespace removed.
pub open spec fn trim_start(s: Seq<char>) -> Seq<char>
    decreases s.len(),
{
    if s.len() > 0 && white_space(s[0]) {
        trim_start(s.drop_first())
    } else {
        s
    }
}

/// Trailing whitespace removed.
pub open spec fn trim_end(s: Seq<char>) -> Seq<char>
    decreases s.len(),
{
    if s.len() > 0 && white_space(s.last()) {
        trim_end(s.drop_last())
    } else {
        s
    }
}

/// Whitespace removed at both ends, as `str::trim` does.
pub open spec fn trim(s: Seq<char>) -> Seq<char> {
    trim_end(trim_start(s))
}

/// `p` occurs in `s` at position `i`.
pub open spec fn occurs_at(s: Seq<char>, i: int, p: Seq<char>) -> bool {
    0 <= i && i + p.len() <= s.len() && s.subrange(i, i + p.len()) == p
}

pub open spec fn starts_with(s: Seq<char>, p: Seq<char>) -> bool {
    occurs_at(s, 0, p)
}

/// `p` occurs in `s` at or after `from`.
pub open spec fn occurs_from(s: Seq<char>, from: int, p: Seq<char>) -> bool {
    exists|i: int| from <= i && #[trigger] occurs_at(s, i, p)
}

/// Position of the first occurrence of `p` in `s` at or after `from`, if any.
pub open spec fn find_from(s: Seq<char>, from: int, p: Seq<char>) -> Option<int>
    decreases s.len() + 1 - from,
{
    if from < 0 || from + p.len() > s.len() {
        None
    } else if occurs_at(s, from, p) {
        Some(from)
    } else {
        find_from(s, from + 1, p)
    }
}

/// Position of the first `c` in `s` at or after `from`, or `s.len()`.
pub open spec fn next_char(s: Seq<char>, from: int, c: char) -> int
    decreases s.len() - from,
{
    if from >= s.len() || from < 0 {
        s.len() as int
    } else if s[from] == c {
        from
    } else {
        next_char(s, from + 1, c)
    }
}

/// A line without its terminating carriage return, as `str::lines` yields it.
pub open spec fn strip_cr(l: Seq<char>) -> Seq<char> {
    if l.len() > 0 && l.last() == '\r' {
        l.drop_last()
    } else {
        l
    }
}

/// Folds `f` over the lines of `s` that start at or after position `i`
/// (`i` at the start of a line), splitting at line feeds as `str::lines`
/// does: a final line feed opens no further line.
pub open spec fn fold_lines<A>(s: Seq<char>, i: int, acc: A, f: spec_fn(A, Seq<char>) -> A) -> A
    decreases s.len() + 1 - i
    via fold_lines_decreases::<A>
{
    if i < 0 || i >= s.len() {
        acc
    } else {
        let k = next_char(s, i, '\n');
        fold_lines(s, k + 1, f(acc, strip_cr(s.subrange(i, k))), f)
    }
}

#[via_fn]
proof fn fold_lines_decreases<A>(s: Seq<char>, i: int, acc: A, f: spec_fn(A, Seq<char>) -> A) {
    if 0 <= i < s.len() {
        lemma_next_char_bounds(s, i, '\n');
    }
}

/// The lines of `s`, as `str::lines` yields them.
pub open spec fn lines(s: Seq<char>) -> Seq<Seq<char>> {
    fold_lines(s, 0, Seq::empty(), |acc: Seq<Seq<char>>, l: Seq<char>| acc.push(l))
}

/// The line that starts at `i`: where it ends, without a carriage return
/// (`r.0`), and where its line feed stands (`r.1`, or `v.len()`).
pub fn line_at(v: &Vec<char>, i: usize) -> (r: (usize, usize))
    requires
        i < v.len(),
    ensures
        i <= r.0 <= r.1 <= v.len(),
        r.1 as int == next_char(v@, i as int, '\n'),
        v@.subrange(i as int, r.0 as int) == strip_cr(v@.subrange(i as int, r.1 as int)),
{
    let k = find_char(v, i, '\n');
    if k > i && v[k - 1] == '\r' {
        proof {
            assert(v@.subrange(i as int, k - 1) =~= v@.subrange(i as int, k as int).drop_last());
        }
        (k - 1, k)
    } else {
        (k, k)
    }
}

pub proof fn lemma_next_char_bounds(s: Seq<char>, from: int, c: char)
    requires
        0 <= from,
    ensures
        from <= next_char(s, from, c) <= s.len() || (from > s.len() && next_char(s, from, c) == s.len()),
        next_char(s, from, c) < s.len() ==> s[next_char(s, from, c)] == c,
        forall|j: int| from <= j < next_char(s, from, c) ==> s[j] != c,
    decreases s.len() - from,
{
    if from < s.len() && s[from] != c {
        lemma_next_char_bounds(s, from + 1, c);
    }
}

/// Whether `p` occurs in `v` at position `i`.
pub fn matches_at(v: &Vec<char>, i: usize, p: &Vec<char>) -> (r: bool)
    ensures
        r == occurs_at(v@, i as int, p@),
{
    if i > v.len() || p.len() > v.len() - i {
        return false;
    }
    let mut k: usize = 0;
    while k < p.len()
        invariant
            i + p.len() <= v.len(),
            k <= p.len(),
            forall|j: int| 0 <= j < k ==> v@[i + j] == p@[j],
        decreases p.len() - k,
    {
        if v[i + k] != p[k] {
            assert(v@.subrange(i as int, i + p@.len())[k as int] != p@[k as int]);
            return false;
        }
        k = k + 1;
    }
    assert(v@.subrange(i as int, i + p@.len()) =~= p@);
    true
}

/// The first occurrence of `p` in `v` at or after `from`.
pub fn find_chars(v: &Vec<char>, from: usize, p: &Vec<char>) -> (r: Option<usize>)
    ensures
        r matches Some(i) ==> find_from(v@, from as int, p@) == Some(i as int),
        r is None ==> find_from(v@, from as int, p@) is None,
{
    let mut i = from;
    while i <= v.len() && p.len() <= v.len() - i
        invariant
            from <= i,
            find_from(v@, from as int, p@) == find_from(v@, i as int, p@),
        decreases v.len() + 1 - i,
    {
        assert(p@.len() == 0 ==> v@.subrange(i as int, i as int) =~= p@);
        if matches_at(v, i, p) {
            return Some(i);
        }
        i = i + 1;
    }
    None
}

pub proof fn lemma_find_from_found(s: Seq<char>, from: int, p: Seq<char>)
    requires
        find_from(s, from, p) is Some,
    ensures
        from <= find_from(s, from, p)->0,
        occurs_at(s, find_from(s, from, p)->0, p),
    decreases s.len() + 1 - from,
{
    if !(from < 0 || from + p.len() > s.len()) && !occurs_at(s, from, p) {
        lemma_find_from_found(s, from + 1, p);
    }
}

/// The first `c` in `v` at or after `from`, or `v.len()`.
pub fn find_char(v: &Vec<char>, from: usize, c: char) -> (r: usize)
    requires
        from <= v.len(),
    ensures
        r as int == next_char(v@, from as int, c),
        from <= r <= v.len(),
{
    let mut i = from;
    while i < v.len() && v[i] != c
        invariant
            from <= i <= v.len(),
            next_char(v@, from as int, c) == next_char(v@, i as int, c),
        decreases v.len() - i,
    {
        i = i + 1;
    }
    i
}

proof fn lemma_trim_start_step(v: Seq<char>, i: int, hi: int)
    requires
        0 <= i < hi <= v.len(),
    ensures
        v.subrange(i, hi).drop_first() == v.subrange(i + 1, hi),
        v.subrange(i, hi)[0] == v[i],
{
    assert(v.subrange(i, hi).drop_first() =~= v.subrange(i + 1, hi));
}

proof fn lemma_trim_end_step(v: Seq<char>, lo: int, j: int)
    requires
        0 <= lo < j <= v.len(),
    ensures
        v.subrange(lo, j).drop_last() == v.subrange(lo, j - 1),
        v.subrange(lo, j).last() == v[j - 1],
{
    assert(v.subrange(lo, j).drop_last() =~= v.subrange(lo, j - 1));
}

/// The bounds of `v[lo..hi]` with whitespace trimmed at both ends.
pub fn trim_span(v: &Vec<char>, lo: usize, hi: usize) -> (r: (usize, usize))
    requires
        lo <= hi <= v.len(),
    ensures
        lo <= r.0 <= r.1 <= hi,
        v@.subrange(r.0 as int, r.1 as int) == trim(v@.subrange(lo as int, hi as int)),
{
    let mut i = lo;
    while i < hi && is_white(v[i])
        invariant
            lo <= i <= hi <= v.len(),
            trim_start(v@.subrange(lo as int, hi as int)) == trim_start(v@.subrange(i as int, hi as int)),
        decreases hi - i,
    {
        proof {
            lemma_trim_start_step(v@, i as int, hi as int);
        }
        i = i + 1;
    }
    proof {
        if i < hi {
            lemma_trim_start_step(v@, i as int, hi as int);
        }
    }
    let mut j = hi;
    while j > i && is_white(v[j - 1])
        invariant
            lo <= i <= j <= hi <= v.len(),
            trim_end(v@.subrange(i as int, hi as int)) == trim_end(v@.subrange(i as int, j as int)),
        decreases j - i,
    {
        proof {
            lemma_trim_end_step(v@, i as int, j as int);
        }
        j = j - 1;
    }
    proof {
        if j > i {
            lemma_trim_end_step(v@, i as int, j as int);
        }
    }
    (i, j)
}

/// Appends `src[lo..hi]` to `dst`.
pub fn append_span(dst: &mut Vec<char>, src: &Vec<char>, lo: usize, hi: usize)
    requires
        lo <= hi <= src.len(),
    ensures
        final(dst)@ == old(dst)@ + src@.subrange(lo as int, hi as int),
{
    let mut k = lo;
    while k < hi
        invariant
            lo <= k <= hi <= src.len(),
            dst@ == old(dst)@ + src@.subrange(lo as int, k as int),
        decreases hi - k,
    {
        dst.push(src[k]);
        proof {
            assert(src@.subrange(lo as int, k + 1) =~= src@.subrange(lo as int, k as int).push(src@[k as int]));
        }
        k = k + 1;
    }
}

/// Appends all of `src` to `dst`.
pub fn append_all(dst: &mut Vec<char>, src: &Vec<char>)
    ensures
        final(dst)@ == old(dst)@ + src@,
{
    append_span(dst, src, 0, src.len());
    proof {
        assert(src@.subrange(0, src@.len() as int) =~= src@);
    }
}

/// The characters `v[lo..hi]` as a string.
pub fn string_of_span(v: &Vec<char>, lo: usize, hi: usize) -> (r: String)
    requires
        lo <= hi <= v.len(),
    ensures
        r@ == v@.subrange(lo as int, hi as int),
{
    let s = vstd::slice::slice_subrange(v.as_slice(), lo, hi);
    string_of(s)
}

} // verus!
