//! Plain-text previews of note bodies: markdown decoration removed line by
//! line, fenced code skipped, cut after a number of characters.
use vstd::prelude::*;
use crate::text::{append_span, chars_of, find_chars, find_from, fold_lines, is_white, line_at, lemma_find_from_found, starts_with, string_of, strip_cr, trim, trim_span, trim_start};

verus! {

/// Characters of a gallery preview.
pub const PREVIEW_LENGTH: usize = 400;

pub open spec fn hash_char() -> Seq<char> {
    seq!['#']
}

/// `s` without its leading `#` characters.
pub open spec fn strip_hashes(s: Seq<char>) -> Seq<char>
    decreases s.len(),
{
    if s.len() > 0 && s[0] == '#' {
        strip_hashes(s.drop_first())
    } else {
        s
    }
}

/// Heading marks removed: leading `#`s and the whitespace after them.
pub open spec fn drop_heading(s: Seq<char>) -> Seq<char> {
    if s.len() > 0 && s[0] == '#' {
        trim_start(strip_hashes(s))
    } else {
        s
    }
}

/// A bullet `- ` or `* ` removed.
pub open spec fn drop_bullet(s: Seq<char>) -> Seq<char> {
    if s.len() >= 2 && (s[0] == '-' || s[0] == '*') && s[1] == ' ' {
        s.subrange(2, s.len() as int)
    } else {
        s
    }
}

pub open spec fn ascii_digits(s: Seq<char>) -> bool {
    forall|i: int| 0 <= i < s.len() ==> '0' <= #[trigger] s[i] && s[i] <= '9'
}

pub open spec fn dot_space() -> Seq<char> {
    seq!['.', ' ']
}

/// A list number `12. ` of at most three digits removed, judged at the
/// first `. ` of the line.
pub open spec fn drop_number(s: Seq<char>) -> Seq<char> {
    match find_from(s, 0, dot_space()) {
        Some(p) => if p <= 3 && ascii_digits(s.subrange(0, p)) {
            s.subrange(p + 2, s.len() as int)
        } else {
            s
        },
        None => s,
    }
}

/// A quote mark `> ` removed.
pub open spec fn drop_quote(s: Seq<char>) -> Seq<char> {
    if s.len() >= 2 && s[0] == '>' && s[1] == ' ' {
        s.subrange(2, s.len() as int)
    } else {
        s
    }
}

/// Every doubled `c` removed, scanning from the left, as
/// `str::replace` with the two-character pattern and an empty replacement.
pub open spec fn drop_doubled(s: Seq<char>, c: char) -> Seq<char>
    decreases s.len(),
{
    if s.len() == 0 {
        s
    } else if s.len() >= 2 && s[0] == c && s[1] == c {
        drop_doubled(s.subrange(2, s.len() as int), c)
    } else {
        seq![s[0]] + drop_doubled(s.drop_first(), c)
    }
}

/// Every `c` removed.
pub open spec fn drop_char(s: Seq<char>, c: char) -> Seq<char>
    decreases s.len(),
{
    if s.len() == 0 {
        s
    } else if s.last() == c {
        drop_char(s.drop_last(), c)
    } else {
        drop_char(s.drop_last(), c).push(s.last())
    }
}

pub open spec fn link_close() -> Seq<char> {
    seq![']', '(']
}

/// Markdown links `[text](url)` replaced by their text, the first `[` first;
/// `skip` is 1 for links and 2 for images `![alt](url)`.
pub open spec fn unlink(s: Seq<char>, opener: Seq<char>, skip: int) -> Seq<char>
    decreases s.len()
    via unlink_decreases
{
    match find_from(s, 0, opener) {
        None => s,
        Some(st) => match find_from(s, st, link_close()) {
            None => s,
            Some(m) => match find_from(s, m, seq![')']) {
                None => s,
                Some(e) => if 0 < skip && st + skip <= m && m < e {
                    unlink(s.subrange(0, st) + s.subrange(st + skip, m) + s.subrange(e + 1, s.len() as int), opener, skip)
                } else {
                    s
                },
            },
        },
    }
}

#[via_fn]
proof fn unlink_decreases(s: Seq<char>, opener: Seq<char>, skip: int) {
    match find_from(s, 0, opener) {
        None => {},
        Some(st) => {
            lemma_find_from_found(s, 0, opener);
            match find_from(s, st, link_close()) {
                None => {},
                Some(m) => {
                    lemma_find_from_found(s, st, link_close());
                    match find_from(s, m, seq![')']) {
                        None => {},
                        Some(e) => {
                            lemma_find_from_found(s, m, seq![')']);
                        },
                    }
                },
            }
        },
    }
}

pub open spec fn link_open() -> Seq<char> {
    seq!['[']
}

pub open spec fn image_open() -> Seq<char> {
    seq!['!', '[']
}

/// A line of markdown as plain text: heading marks, a bullet, a list number
/// and a quote mark removed, then bold and italic doubles, backticks, links
/// and images.
pub open spec fn clean_line(s: Seq<char>) -> Seq<char> {
    let a = drop_quote(drop_number(drop_bullet(drop_heading(s))));
    let b = drop_char(drop_doubled(drop_doubled(a, '*'), '_'), '`');
    unlink(unlink(b, link_open(), 1), image_open(), 2)
}

fn sub_vec(v: &Vec<char>, lo: usize, hi: usize) -> (r: Vec<char>)
    requires
        lo <= hi <= v.len(),
    ensures
        r@ == v@.subrange(lo as int, hi as int),
{
    let mut r: Vec<char> = Vec::new();
    append_span(&mut r, v, lo, hi);
    r
}

fn exec_drop_heading(v: Vec<char>) -> (r: Vec<char>)
    ensures
        r@ == drop_heading(v@),
{
    if v.len() > 0 && v[0] == '#' {
        let mut i: usize = 0;
        proof {
            assert(v@.subrange(0, v@.len() as int) =~= v@);
        }
        while i < v.len() && v[i] == '#'
            invariant
                i <= v.len(),
                v@.len() > 0 && v@[0] == '#',
                strip_hashes(v@) == strip_hashes(v@.subrange(i as int, v@.len() as int)),
            decreases v.len() - i,
        {
            proof {
                assert(v@.subrange(i as int, v@.len() as int).drop_first() =~= v@.subrange(i + 1, v@.len() as int));
            }
            i = i + 1;
        }
        let mut j = i;
        while j < v.len() && is_white(v[j])
            invariant
                i <= j <= v.len(),
                trim_start(v@.subrange(i as int, v@.len() as int)) == trim_start(v@.subrange(j as int, v@.len() as int)),
            decreases v.len() - j,
        {
            proof {
                assert(v@.subrange(j as int, v@.len() as int).drop_first() =~= v@.subrange(j + 1, v@.len() as int));
            }
            j = j + 1;
        }
        sub_vec(&v, j, v.len())
    } else {
        v
    }
}

fn exec_drop_prefix2(v: Vec<char>, a: char, b: char, second: char) -> (r: Vec<char>)
    ensures
        r@ == if v@.len() >= 2 && (v@[0] == a || v@[0] == b) && v@[1] == second { v@.subrange(2, v@.len() as int) } else { v@ },
{
    if v.len() >= 2 && (v[0] == a || v[0] == b) && v[1] == second {
        sub_vec(&v, 2, v.len())
    } else {
        v
    }
}

fn exec_drop_number(v: Vec<char>) -> (r: Vec<char>)
    ensures
        r@ == drop_number(v@),
{
    let ds: Vec<char> = vec!['.', ' '];
    proof {
        assert(ds@ =~= dot_space());
    }
    match find_chars(&v, 0, &ds) {
        Some(p) => {
            proof {
                lemma_find_from_found(v@, 0, dot_space());
            }
            if p <= 3 {
                let mut k: usize = 0;
                while k < p
                    invariant
                        k <= p < v.len(),
                        find_from(v@, 0, dot_space()) == Some(p as int),
                        forall|q: int| 0 <= q < k ==> '0' <= #[trigger] v@[q] && v@[q] <= '9',
                    decreases p - k,
                {
                    if !('0' <= v[k] && v[k] <= '9') {
                        proof {
                            assert(v@.subrange(0, p as int)[k as int] == v@[k as int]);
                            assert(!ascii_digits(v@.subrange(0, p as int)));
                        }
                        return v;
                    }
                    k = k + 1;
                }
                proof {
                    assert forall|q: int| 0 <= q < p implies '0' <= #[trigger] v@.subrange(0, p as int)[q] && v@.subrange(0, p as int)[q] <= '9' by {
                        assert(v@.subrange(0, p as int)[q] == v@[q]);
                    }
                }
                sub_vec(&v, p + 2, v.len())
            } else {
                v
            }
        },
        None => v,
    }
}

fn exec_drop_doubled(v: &Vec<char>, c: char) -> (r: Vec<char>)
    ensures
        r@ == drop_doubled(v@, c),
{
    let mut out: Vec<char> = Vec::new();
    let mut i: usize = 0;
    proof {
        assert(v@.subrange(0, v@.len() as int) =~= v@);
        assert(out@ + drop_doubled(v@, c) =~= drop_doubled(v@, c));
    }
    while i < v.len()
        invariant
            i <= v.len(),
            out@ + drop_doubled(v@.subrange(i as int, v@.len() as int), c) == drop_doubled(v@, c),
        decreases v.len() - i,
    {
        let ghost rest = v@.subrange(i as int, v@.len() as int);
        if i + 1 < v.len() && v[i] == c && v[i + 1] == c {
            proof {
                assert(rest.subrange(2, rest.len() as int) =~= v@.subrange(i + 2, v@.len() as int));
            }
            i = i + 2;
        } else {
            let ghost o0 = out@;
            out.push(v[i]);
            proof {
                assert(rest.drop_first() =~= v@.subrange(i + 1, v@.len() as int));
                assert(out@ + drop_doubled(v@.subrange(i + 1, v@.len() as int), c) =~= o0 + (seq![rest[0]] + drop_doubled(rest.drop_first(), c)));
            }
            i = i + 1;
        }
    }
    proof {
        assert(v@.subrange(i as int, v@.len() as int) =~= Seq::<char>::empty());
        assert(out@ + Seq::<char>::empty() =~= out@);
    }
    out
}

fn exec_drop_char(v: &Vec<char>, c: char) -> (r: Vec<char>)
    ensures
        r@ == drop_char(v@, c),
{
    let mut out: Vec<char> = Vec::new();
    let mut i: usize = 0;
    while i < v.len()
        invariant
            i <= v.len(),
            out@ == drop_char(v@.take(i as int), c),
        decreases v.len() - i,
    {
        proof {
            assert(v@.take(i + 1).drop_last() =~= v@.take(i as int));
        }
        if v[i] != c {
            out.push(v[i]);
        }
        i = i + 1;
    }
    proof {
        assert(v@.take(v@.len() as int) =~= v@);
    }
    out
}

fn exec_unlink(v: Vec<char>, opener: &Vec<char>, skip: usize) -> (r: Vec<char>)
    requires
        skip == 1 || skip == 2,
    ensures
        r@ == unlink(v@, opener@, skip as int),
{
    let close: Vec<char> = vec![']', '('];
    let paren: Vec<char> = vec![')'];
    proof {
        assert(close@ =~= link_close());
        assert(paren@ =~= seq![')']);
    }
    let ghost v0 = v@;
    let mut cur = v;
    loop
        invariant
            close@ == link_close(),
            paren@ == seq![')'],
            skip == 1 || skip == 2,
            unlink(cur@, opener@, skip as int) == unlink(v0, opener@, skip as int),
            v0 == v@,
        decreases cur@.len(),
    {
        let st = match find_chars(&cur, 0, opener) {
            Some(x) => x,
            None => {
                proof {
                    assert(unlink(cur@, opener@, skip as int) == cur@);
                }
                return cur;
            },
        };
        proof {
            lemma_find_from_found(cur@, 0, opener@);
        }
        let m = match find_chars(&cur, st, &close) {
            Some(x) => x,
            None => {
                proof {
                    assert(find_from(cur@, 0, opener@) == Some(st as int));
                    assert(find_from(cur@, st as int, link_close()) is None);
                    assert(unlink(cur@, opener@, skip as int) == cur@);
                }
                return cur;
            },
        };
        proof {
            lemma_find_from_found(cur@, st as int, link_close());
        }
        let e = match find_chars(&cur, m, &paren) {
            Some(x) => x,
            None => {
                proof {
                    assert(find_from(cur@, 0, opener@) == Some(st as int));
                    assert(find_from(cur@, st as int, link_close()) == Some(m as int));
                    assert(find_from(cur@, m as int, seq![')']) is None);
                    assert(unlink(cur@, opener@, skip as int) == cur@);
                }
                return cur;
            },
        };
        proof {
            lemma_find_from_found(cur@, m as int, seq![')']);
        }
        if !(skip <= m && st <= m - skip && m < e) {
            return cur;
        }
        let mut next: Vec<char> = Vec::new();
        append_span(&mut next, &cur, 0, st);
        append_span(&mut next, &cur, st + skip, m);
        append_span(&mut next, &cur, e + 1, cur.len());
        proof {
            assert(next@ =~= cur@.subrange(0, st as int) + cur@.subrange(st + skip, m as int) + cur@.subrange(e + 1, cur@.len() as int));
        }
        cur = next;
    }
}

/// A line of markdown as plain text (see [`clean_line`]).
pub fn clean_markdown(line: &str) -> (r: String)
    ensures
        r@ == clean_line(line@),
{
    let v = chars_of(line);
    let a = exec_drop_heading(v);
    let a = exec_drop_prefix2(a, '-', '*', ' ');
    let a = exec_drop_number(a);
    let a = exec_drop_prefix2(a, '>', '>', ' ');
    let b = exec_drop_doubled(&a, '*');
    let b = exec_drop_doubled(&b, '_');
    let b = exec_drop_char(&b, '`');
    let lo: Vec<char> = vec!['['];
    let io: Vec<char> = vec!['!', '['];
    proof {
        assert(lo@ =~= link_open());
        assert(io@ =~= image_open());
    }
    let c = exec_unlink(b, &lo, 1);
    let c = exec_unlink(c, &io, 2);
    string_of(c.as_slice())
}

/// What has been written of a preview.
pub struct PreviewState {
    pub out: Seq<char>,
    pub in_code: bool,
    pub count: int,
    /// The length limit was reached and `...` written.
    pub done: bool,
}

pub open spec fn fence() -> Seq<char> {
    seq!['`', '`', '`']
}

pub open spec fn dots() -> Seq<char> {
    seq!['.', '.', '.']
}

/// Characters written one by one until the limit: at the limit `...` is
/// written instead and the preview is done.
pub open spec fn add_chars(st: PreviewState, cs: Seq<char>, max: int) -> PreviewState
    decreases cs.len(),
{
    if cs.len() == 0 || st.done {
        st
    } else if st.count >= max {
        PreviewState { out: st.out + dots(), done: true, ..st }
    } else {
        add_chars(PreviewState { out: st.out.push(cs[0]), count: st.count + 1, ..st }, cs.drop_first(), max)
    }
}

pub open spec fn ends_with_space(s: Seq<char>) -> bool {
    s.len() > 0 && s.last() == ' '
}

/// One line of the body added to the preview.
pub open spec fn preview_step(st: PreviewState, line: Seq<char>, max: int) -> PreviewState {
    let t = trim(line);
    if st.done {
        st
    } else if starts_with(t, fence()) {
        PreviewState { in_code: !st.in_code, ..st }
    } else if st.in_code {
        st
    } else if t.len() == 0 {
        if st.out.len() > 0 && !ends_with_space(st.out) {
            PreviewState { out: st.out.push(' '), count: st.count + 1, ..st }
        } else {
            st
        }
    } else {
        let s1 = add_chars(st, clean_line(t), max);
        if s1.done || ends_with_space(s1.out) {
            s1
        } else {
            PreviewState { out: s1.out.push(' '), count: s1.count + 1, ..s1 }
        }
    }
}

pub open spec fn preview_step_fn(max: int) -> spec_fn(PreviewState, Seq<char>) -> PreviewState {
    |st: PreviewState, l: Seq<char>| preview_step(st, l, max)
}

pub open spec fn preview_start() -> PreviewState {
    PreviewState { out: Seq::empty(), in_code: false, count: 0, done: false }
}

/// The preview of a body: its lines outside fenced code, cleaned of
/// markdown and joined by single spaces (a blank line also gives one), cut
/// with `...` after `max` characters, otherwise trimmed.
pub open spec fn preview_text(content: Seq<char>, max: int) -> Seq<char> {
    let st = fold_lines(content, 0, preview_start(), preview_step_fn(max));
    if st.done {
        st.out
    } else {
        trim(st.out)
    }
}

struct PreviewWriter {
    out: Vec<char>,
    in_code: bool,
    count: usize,
    done: bool,
}

impl PreviewWriter {
    closed spec fn model(&self) -> PreviewState {
        PreviewState { out: self.out@, in_code: self.in_code, count: self.count as int, done: self.done }
    }
}

fn write_chars(w: &mut PreviewWriter, cs: &Vec<char>, max: usize)
    requires
        old(w).count <= old(w).out@.len(),
    ensures
        final(w).model() == add_chars(old(w).model(), cs@, max as int),
        final(w).count <= final(w).out@.len(),
{
    let mut i: usize = 0;
    proof {
        assert(cs@.subrange(0, cs@.len() as int) =~= cs@);
    }
    while i < cs.len()
        invariant
            i <= cs@.len(),
            w.count <= w.out@.len(),
            add_chars(old(w).model(), cs@, max as int) == add_chars(w.model(), cs@.subrange(i as int, cs@.len() as int), max as int),
        decreases cs.len() - i,
    {
        if w.done {
            return;
        }
        proof {
            assert(cs@.subrange(i as int, cs@.len() as int).drop_first() =~= cs@.subrange(i + 1, cs@.len() as int));
        }
        if w.count >= max {
            let ghost o0 = w.out@;
            w.out.push('.');
            w.out.push('.');
            w.out.push('.');
            w.done = true;
            proof {
                assert(w.out@ =~= o0 + dots());
            }
            return;
        }
        w.out.push(cs[i]);
        w.count = w.count + 1;
        i = i + 1;
    }
    proof {
        assert(cs@.subrange(i as int, cs@.len() as int) =~= Seq::<char>::empty());
    }
}

/// Adds the line `v[i..e]` (see [`preview_step`]).
fn write_line(w: &mut PreviewWriter, v: &Vec<char>, i: usize, e: usize, max: usize)
    requires
        i <= e <= v.len(),
        old(w).count <= old(w).out@.len(),
    ensures
        final(w).model() == preview_step(old(w).model(), v@.subrange(i as int, e as int), max as int),
        final(w).count <= final(w).out@.len(),
{
    if w.done {
        return;
    }
    let (a, b) = trim_span(v, i, e);
    let f: Vec<char> = vec!['`', '`', '`'];
    proof {
        assert(f@ =~= fence());
    }
    if b - a >= 3 && crate::text::matches_at(v, a, &f) {
        proof {
            assert(v@.subrange(a as int, b as int).subrange(0, 3) =~= v@.subrange(a as int, a + 3));
        }
        w.in_code = !w.in_code;
        return;
    }
    proof {
        if starts_with(v@.subrange(a as int, b as int), fence()) {
            assert(v@.subrange(a as int, b as int).subrange(0, 3) =~= v@.subrange(a as int, a + 3));
        }
    }
    if w.in_code {
        return;
    }
    if a == b {
        if w.out.len() > 0 && w.out[w.out.len() - 1] != ' ' {
            w.out.push(' ');
            let n = w.out.len();
            proof {
                assert(w.count < n);
            }
            w.count = w.count + 1;
        }
        return;
    }
    let line = sub_vec(v, a, b);
    let t = string_of(line.as_slice());
    let clean = chars_of(clean_markdown(t.as_str()).as_str());
    write_chars(w, &clean, max);
    if !w.done && !(w.out.len() > 0 && w.out[w.out.len() - 1] == ' ') {
        w.out.push(' ');
        let n = w.out.len();
        proof {
            assert(w.count < n);
        }
        w.count = w.count + 1;
    }
}

/// The preview of `content`, at most `max_len` characters before `...`
/// (see [`preview_text`]).
pub fn generate_preview(content: &str, max_len: usize) -> (r: String)
    ensures
        r@ == preview_text(content@, max_len as int),
{
    let v = chars_of(content);
    let mut w = PreviewWriter { out: Vec::new(), in_code: false, count: 0, done: false };
    proof {
        assert(w.model() =~= preview_start());
    }
    let mut i: usize = 0;
    while i < v.len()
        invariant
            i <= v.len(),
            w.count <= w.out@.len(),
            fold_lines(v@, 0, preview_start(), preview_step_fn(max_len as int)) == fold_lines(v@, i as int, w.model(), preview_step_fn(max_len as int)),
        decreases v.len() - i,
    {
        let (e, k) = line_at(&v, i);
        let ghost prev = w.model();
        write_line(&mut w, &v, i, e, max_len);
        proof {
            assert(preview_step_fn(max_len as int)(prev, strip_cr(v@.subrange(i as int, k as int))) == w.model());
            assert(fold_lines(v@, i as int, prev, preview_step_fn(max_len as int)) == fold_lines(v@, k + 1, w.model(), preview_step_fn(max_len as int)));
        }
        if k < v.len() {
            i = k + 1;
        } else {
            i = v.len();
        }
    }
    if w.done {
        string_of(w.out.as_slice())
    } else {
        let (a, b) = trim_span(&w.out, 0, w.out.len());
        proof {
            assert(w.out@.subrange(0, w.out@.len() as int) =~= w.out@);
        }
        crate::text::string_of_span(&w.out, a, b)
    }
}

} // verus!
