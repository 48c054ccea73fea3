//! The note file format reads back what it writes: a note with well-formed
//! metadata and a body that does not open with a line feed is parsed from
//! its file text into the same metadata and body.
use vstd::prelude::*;
use crate::note::{drop_fence_gap, fence_close, fence_open, file_text, parse_file, NoteParseError, yaml_step, yaml_step_fn, yaml_start, yaml_read, parse_yaml, YamlState, dash_space, dates_block, key_created, key_tags, key_title, key_uid, key_updated, sp, strip_all, tag_lines, tag_prefix, tags_block, title_block, uid_block, value_after, yaml_text, MetaModel};
use crate::text::{find_from, occurs_at, fold_lines, lemma_next_char_bounds, next_char, starts_with, strip_cr, trim, trim_end, trim_start, white_space};
use crate::timestamp::{digit_char, digit_value, digits, fields_of, format_timestamp, is_digit_char, number, parse_timestamp, plain_shape, pow10, separator_at, Timestamp};

verus! {

proof fn lemma_next_char_shift(s: Seq<char>, off: int, j: int, c: char)
    requires
        0 <= off <= s.len(),
        0 <= j,
    ensures
        next_char(s, off + j, c) == off + next_char(s.subrange(off, s.len() as int), j, c),
    decreases s.len() - off - j,
{
    let t = s.subrange(off, s.len() as int);
    if off + j < s.len() && s[off + j] != c {
        assert(t[j] == s[off + j]);
        lemma_next_char_shift(s, off, j + 1, c);
    } else if off + j < s.len() {
        assert(t[j] == s[off + j]);
    }
}

proof fn lemma_fold_shift<A>(s: Seq<char>, off: int, j: int, acc: A, f: spec_fn(A, Seq<char>) -> A)
    requires
        0 <= off <= s.len(),
        0 <= j,
    ensures
        fold_lines(s, off + j, acc, f) == fold_lines(s.subrange(off, s.len() as int), j, acc, f),
    decreases s.len() + 1 - off - j,
{
    let t = s.subrange(off, s.len() as int);
    if off + j < s.len() {
        lemma_next_char_shift(s, off, j, '\n');
        lemma_next_char_bounds(s, off + j, '\n');
        let k = next_char(s, off + j, '\n');
        assert(s.subrange(off + j, k) =~= t.subrange(j, k - off));
        lemma_fold_shift(s, off, k + 1 - off, f(acc, strip_cr(s.subrange(off + j, k))), f);
    }
}

/// The lines joined by line feeds.
pub open spec fn join_lines(ls: Seq<Seq<char>>) -> Seq<char>
    decreases ls.len(),
{
    if ls.len() == 0 {
        Seq::empty()
    } else if ls.len() == 1 {
        ls[0]
    } else {
        ls[0] + seq!['\n'] + join_lines(ls.drop_first())
    }
}

/// Folds `f` over a list of lines.
pub open spec fn fold_seq<A>(ls: Seq<Seq<char>>, acc: A, f: spec_fn(A, Seq<char>) -> A) -> A
    decreases ls.len(),
{
    if ls.len() == 0 {
        acc
    } else {
        fold_seq(ls.drop_first(), f(acc, ls[0]), f)
    }
}

/// A line that reads back as itself: no line feed, no final carriage
/// return, not empty.
pub open spec fn plain_line(l: Seq<char>) -> bool {
    &&& l.len() > 0
    &&& forall|i: int| 0 <= i < l.len() ==> #[trigger] l[i] != '\n'
    &&& l.last() != '\r'
}

proof fn lemma_no_newline(l: Seq<char>, from: int)
    requires
        0 <= from <= l.len(),
        forall|i: int| 0 <= i < l.len() ==> #[trigger] l[i] != '\n',
    ensures
        next_char(l, from, '\n') == l.len(),
    decreases l.len() - from,
{
    if from < l.len() {
        lemma_no_newline(l, from + 1);
    }
}

/// Reading the lines of joined plain lines folds over those lines.
pub proof fn lemma_fold_join<A>(ls: Seq<Seq<char>>, acc: A, f: spec_fn(A, Seq<char>) -> A)
    requires
        ls.len() > 0,
        forall|i: int| 0 <= i < ls.len() ==> plain_line(#[trigger] ls[i]),
    ensures
        fold_lines(join_lines(ls), 0, acc, f) == fold_seq(ls, acc, f),
    decreases ls.len(),
{
    let l = ls[0];
    assert(plain_line(l));
    assert(strip_cr(l) == l);
    if ls.len() == 1 {
        let s = join_lines(ls);
        lemma_no_newline(l, 0);
        assert(s.subrange(0, l.len() as int) =~= l);
        assert(s == l);
        assert(fold_lines(s, l.len() as int + 1, f(acc, l), f) == f(acc, l));
        assert(fold_lines(s, 0, acc, f) == fold_lines(s, l.len() as int + 1, f(acc, strip_cr(s.subrange(0, l.len() as int))), f));
        assert(fold_seq(ls.drop_first(), f(acc, l), f) == f(acc, l));
    } else {
        let rest = ls.drop_first();
        assert forall|i: int| 0 <= i < rest.len() implies plain_line(#[trigger] rest[i]) by {
            assert(rest[i] == ls[i + 1]);
        }
        let s = join_lines(ls);
        let r = join_lines(rest);
        assert(s == l + seq!['\n'] + r);
        lemma_newline_after(l, r);
        assert(s.subrange(0, l.len() as int) =~= l);
        lemma_fold_shift(s, l.len() as int + 1, 0, f(acc, l), f);
        assert(s.subrange(l.len() as int + 1, s.len() as int) =~= r);
        lemma_fold_join(rest, f(acc, l), f);
        assert(fold_lines(s, 0, acc, f) == fold_lines(s, l.len() as int + 1, f(acc, strip_cr(s.subrange(0, l.len() as int))), f));
    }
}

proof fn lemma_newline_after(l: Seq<char>, r: Seq<char>)
    requires
        forall|i: int| 0 <= i < l.len() ==> #[trigger] l[i] != '\n',
    ensures
        next_char(l + seq!['\n'] + r, 0, '\n') == l.len(),
{
    let s = l + seq!['\n'] + r;
    assert forall|i: int| 0 <= i < l.len() implies #[trigger] s[i] != '\n' by {
        assert(s[i] == l[i]);
    }
    lemma_first_newline(s, 0, l.len() as int);
}

proof fn lemma_first_newline(s: Seq<char>, from: int, k: int)
    requires
        0 <= from <= k < s.len(),
        s[k] == '\n',
        forall|i: int| 0 <= i < k ==> #[trigger] s[i] != '\n',
    ensures
        next_char(s, from, '\n') == k,
    decreases k - from,
{
    if from < k {
        lemma_first_newline(s, from + 1, k);
    }
}

/// No whitespace at either end.
pub open spec fn trimmed(s: Seq<char>) -> bool {
    s.len() == 0 || (!white_space(s[0]) && !white_space(s.last()))
}

proof fn lemma_trim_id(s: Seq<char>)
    requires
        trimmed(s),
    ensures
        trim(s) == s,
{
}

/// `s` does not start with `p` where they differ at `i`.
proof fn lemma_not_starts(s: Seq<char>, p: Seq<char>, i: int)
    requires
        0 <= i < p.len(),
        i < s.len() ==> s[i] != p[i],
    ensures
        !starts_with(s, p),
{
    if p.len() <= s.len() {
        assert(s.subrange(0, p.len() as int)[i] == s[i]);
    }
}

proof fn lemma_starts(p: Seq<char>, x: Seq<char>)
    ensures
        starts_with(p + x, p),
{
    assert((p + x).subrange(0, p.len() as int) =~= p);
}

/// A `key: value` line reads as its key and value: it is its own trim, it
/// starts with the key, and the value after the key is the value.
proof fn lemma_key_line(key: Seq<char>, v: Seq<char>)
    requires
        key.len() > 0,
        !white_space(key[0]),
        !white_space(key.last()),
        key[0] != ' ',
        trimmed(v),
    ensures
        trim(key + sp() + v) == (if v.len() > 0 { key + sp() + v } else { key }),
        starts_with(trim(key + sp() + v), key),
        value_after(trim(key + sp() + v), key) == v,
{
    let line = key + sp() + v;
    assert(line[0] == key[0]);
    assert(trim_start(line) == line);
    if v.len() > 0 {
        assert(line.last() == v.last());
        assert(trim_end(line) == line);
        lemma_starts(key, sp() + v);
        assert(key + sp() + v == key + (sp() + v));
        lemma_strip_once(key, sp() + v);
        assert((sp() + v).drop_first() =~= v);
        assert(trim_start(sp() + v) == trim_start(v));
        assert(trim(sp() + v) == v);
    } else {
        assert(line.drop_last() =~= key);
        assert(trim_end(line) == trim_end(key));
        assert(trim_end(key) == key);
        lemma_starts(key, Seq::empty());
        assert(key + Seq::<char>::empty() =~= key);
        lemma_strip_once(key, Seq::empty());
    }
}

/// Stripping a key once leaves the rest when the rest does not start with
/// it again.
proof fn lemma_strip_once(key: Seq<char>, rest: Seq<char>)
    requires
        key.len() > 0,
        rest.len() == 0 || rest[0] != key[0] || !starts_with(rest, key),
    ensures
        strip_all(key + rest, key) == rest,
{
    lemma_starts(key, rest);
    assert((key + rest).subrange(key.len() as int, (key + rest).len() as int) =~= rest);
    if rest.len() > 0 && rest[0] != key[0] {
        lemma_not_starts(rest, key, 0);
    }
    if rest.len() == 0 {
        lemma_not_starts(rest, key, 0);
    }
    assert(!starts_with(rest, key));
    assert(strip_all(rest, key) == rest);
    assert(strip_all(key + rest, key) == strip_all(rest, key));
}

/// Folding over two lists of lines in turn.
proof fn lemma_fold_seq_concat<A>(a: Seq<Seq<char>>, b: Seq<Seq<char>>, acc: A, f: spec_fn(A, Seq<char>) -> A)
    ensures
        fold_seq(a + b, acc, f) == fold_seq(b, fold_seq(a, acc, f), f),
    decreases a.len(),
{
    if a.len() == 0 {
        assert(a + b =~= b);
    } else {
        assert((a + b).drop_first() =~= a.drop_first() + b);
        assert((a + b)[0] == a[0]);
        lemma_fold_seq_concat(a.drop_first(), b, f(acc, a[0]), f);
    }
}

/// Joining two non-empty lists of lines.
proof fn lemma_join_concat(a: Seq<Seq<char>>, b: Seq<Seq<char>>)
    requires
        a.len() > 0,
        b.len() > 0,
    ensures
        join_lines(a + b) == join_lines(a) + seq!['\n'] + join_lines(b),
    decreases a.len(),
{
    if a.len() == 1 {
        assert((a + b).drop_first() =~= b);
        assert((a + b)[0] == a[0]);
    } else {
        assert((a + b).drop_first() =~= a.drop_first() + b);
        assert((a + b)[0] == a[0]);
        lemma_join_concat(a.drop_first(), b);
    }
}

pub open spec fn uid_line(m: MetaModel) -> Seq<char> {
    key_uid() + sp() + m.uid
}

pub open spec fn title_line(t: Seq<char>) -> Seq<char> {
    key_title() + sp() + t
}

pub open spec fn tag_line(t: Seq<char>) -> Seq<char> {
    tag_prefix() + t
}

pub open spec fn created_line(m: MetaModel) -> Seq<char> {
    key_created() + sp() + format_timestamp(m.created_at)
}

pub open spec fn updated_line(m: MetaModel) -> Seq<char> {
    key_updated() + sp() + format_timestamp(m.updated_at)
}

pub open spec fn title_lines(title: Option<Seq<char>>) -> Seq<Seq<char>> {
    match title {
        Some(t) => seq![title_line(t)],
        None => Seq::empty(),
    }
}

pub open spec fn tag_line_list(tags: Seq<Seq<char>>) -> Seq<Seq<char>> {
    tags.map_values(|t: Seq<char>| tag_line(t))
}

pub open spec fn tag_block_lines(tags: Seq<Seq<char>>) -> Seq<Seq<char>> {
    if tags.len() == 0 {
        Seq::empty()
    } else {
        seq![key_tags()] + tag_line_list(tags)
    }
}

/// The lines of the metadata block.
pub open spec fn yaml_lines(m: MetaModel) -> Seq<Seq<char>> {
    seq![uid_line(m)] + title_lines(m.title) + tag_block_lines(m.tags) + seq![created_line(m), updated_line(m)]
}

proof fn lemma_tag_lines_join(tags: Seq<Seq<char>>)
    requires
        tags.len() > 0,
    ensures
        tag_lines(tags) == join_lines(tag_line_list(tags)),
    decreases tags.len(),
{
    if tags.len() == 1 {
        assert(tag_line_list(tags) =~= seq![tag_line(tags[0])]);
    } else {
        let d = tags.drop_last();
        lemma_tag_lines_join(d);
        assert(tag_line_list(tags) =~= tag_line_list(d) + seq![tag_line(tags.last())]);
        lemma_join_concat(tag_line_list(d), seq![tag_line(tags.last())]);
    }
}

/// The metadata block is its lines joined by line feeds.
#[verifier::rlimit(60)]
#[verifier::spinoff_prover]
proof fn lemma_yaml_is_joined_lines(m: MetaModel)
    ensures
        yaml_text(m) == join_lines(yaml_lines(m)),
{
    let d = seq![created_line(m), updated_line(m)];
    assert(join_lines(d) == created_line(m) + seq!['\n'] + updated_line(m)) by {
        assert(d.drop_first() =~= seq![updated_line(m)]);
        assert(join_lines(seq![updated_line(m)]) == updated_line(m));
        assert(d[0] == created_line(m));
    }
    assert(dates_block(m.created_at, m.updated_at) =~= join_lines(d));
    let g = tag_block_lines(m.tags);
    let gd = g + d;
    if m.tags.len() > 0 {
        lemma_tag_lines_join(m.tags);
        lemma_join_concat(seq![key_tags()], tag_line_list(m.tags));
        assert(seq![key_tags()] + tag_line_list(m.tags) == g);
        lemma_join_concat(g, d);
        assert(tags_block(m.tags) + dates_block(m.created_at, m.updated_at) =~= join_lines(gd));
    } else {
        assert(gd =~= d);
        assert(tags_block(m.tags) + dates_block(m.created_at, m.updated_at) =~= join_lines(gd));
    }
    let t = title_lines(m.title);
    let tgd = t + gd;
    match m.title {
        Some(tt) => {
            lemma_join_concat(t, gd);
            assert(tgd == t + gd);
            assert(title_block(m.title) + (tags_block(m.tags) + dates_block(m.created_at, m.updated_at)) =~= join_lines(tgd));
        },
        None => {
            assert(tgd =~= gd);
            assert(title_block(m.title) + (tags_block(m.tags) + dates_block(m.created_at, m.updated_at)) =~= join_lines(tgd));
        },
    }
    lemma_join_concat(seq![uid_line(m)], tgd);
    assert(yaml_lines(m) =~= seq![uid_line(m)] + tgd);
    assert(uid_block(m) =~= uid_line(m) + seq!['\n']);
    assert(yaml_text(m) =~= join_lines(yaml_lines(m)));
}

proof fn lemma_digits_are_digits(n: int, w: nat)
    ensures
        digits(n, w).len() == w,
        forall|i: int| 0 <= i < w ==> is_digit_char(#[trigger] digits(n, w)[i]),
    decreases w,
{
    if w > 0 {
        lemma_digits_are_digits(n / 10, (w - 1) as nat);
        let d = n % 10;
        assert(is_digit_char(digit_char(d)));
    }
}

proof fn lemma_digit_round_trip(d: int)
    requires
        0 <= d < 10,
    ensures
        digit_value(digit_char(d)) == d,
{
}

proof fn lemma_number_of_digits(n: int, w: nat)
    requires
        0 <= n < pow10(w),
    ensures
        number(digits(n, w)) == n,
    decreases w,
{
    if w == 0 {
        assert(n == 0);
    } else {
        let q = n / 10;
        let r = n % 10;
        assert(pow10(w) == 10 * pow10((w - 1) as nat));
        assert(0 <= q < pow10((w - 1) as nat)) by (nonlinear_arith)
            requires
                0 <= n < 10 * pow10((w - 1) as nat),
                q == n / 10;
        lemma_number_of_digits(q, (w - 1) as nat);
        lemma_digit_round_trip(r);
        let ds = digits(n, w);
        assert(ds.drop_last() =~= digits(q, (w - 1) as nat));
        assert(ds.last() == digit_char(r));
        assert(n == q * 10 + r);
    }
}

/// A valid timestamp reads back from its text form.
pub proof fn lemma_timestamp_round_trip(t: Timestamp)
    requires
        t.valid(),
    ensures
        parse_timestamp(format_timestamp(t)) == Some(t),
{
    let f = format_timestamp(t);
    let y = digits(t.year as int, 4);
    let mo = digits(t.month as int, 2);
    let d = digits(t.day as int, 2);
    let h = digits(t.hour as int, 2);
    let mi = digits(t.minute as int, 2);
    let se = digits(t.second as int, 2);
    lemma_digits_are_digits(t.year as int, 4);
    lemma_digits_are_digits(t.month as int, 2);
    lemma_digits_are_digits(t.day as int, 2);
    lemma_digits_are_digits(t.hour as int, 2);
    lemma_digits_are_digits(t.minute as int, 2);
    lemma_digits_are_digits(t.second as int, 2);
    assert(f.len() == 19);
    assert forall|i: int| 0 <= i < 19 implies match separator_at(i) {
        Some(c) => f[i] == c,
        None => is_digit_char(#[trigger] f[i]),
    } by {
        if i < 4 {
            assert(f[i] == y[i]);
        } else if i == 4 {
        } else if i < 7 {
            assert(f[i] == mo[i - 5]);
        } else if i == 7 {
        } else if i < 10 {
            assert(f[i] == d[i - 8]);
        } else if i == 10 {
        } else if i < 13 {
            assert(f[i] == h[i - 11]);
        } else if i == 13 {
        } else if i < 16 {
            assert(f[i] == mi[i - 14]);
        } else if i == 16 {
        } else {
            assert(f[i] == se[i - 17]);
        }
    }
    assert(plain_shape(f));
    assert(f.subrange(0, 4) =~= y);
    assert(f.subrange(5, 7) =~= mo);
    assert(f.subrange(8, 10) =~= d);
    assert(f.subrange(11, 13) =~= h);
    assert(f.subrange(14, 16) =~= mi);
    assert(f.subrange(17, 19) =~= se);
    assert(pow10(4) == 10000 && pow10(2) == 100) by {
        reveal_with_fuel(pow10, 5);
    }
    lemma_number_of_digits(t.year as int, 4);
    lemma_number_of_digits(t.month as int, 2);
    lemma_number_of_digits(t.day as int, 2);
    lemma_number_of_digits(t.hour as int, 2);
    lemma_number_of_digits(t.minute as int, 2);
    lemma_number_of_digits(t.second as int, 2);
    assert(fields_of(f) == t);
}

pub open spec fn no_newline(s: Seq<char>) -> bool {
    forall|i: int| 0 <= i < s.len() ==> #[trigger] s[i] != '\n'
}

/// A metadata value that reads back as itself: trimmed, on one line.
pub open spec fn field_ok(s: Seq<char>) -> bool {
    trimmed(s) && no_newline(s)
}

/// Metadata that the file format reads back unchanged: an id, a title
/// (where there is one, not empty) and tags (not empty), each trimmed and on
/// one line, and valid timestamps.
pub open spec fn meta_ok(m: MetaModel) -> bool {
    &&& field_ok(m.uid)
    &&& (m.title matches Some(t) ==> t.len() > 0 && field_ok(t))
    &&& forall|i: int| 0 <= i < m.tags.len() ==> (#[trigger] m.tags[i]).len() > 0 && field_ok(m.tags[i])
    &&& m.created_at.valid()
    &&& m.updated_at.valid()
}

proof fn lemma_format_ok(t: Timestamp)
    ensures
        field_ok(format_timestamp(t)),
        format_timestamp(t).len() == 19,
        is_digit_char(format_timestamp(t)[0]),
        is_digit_char(format_timestamp(t).last()),
{
    let f = format_timestamp(t);
    lemma_digits_are_digits(t.year as int, 4);
    lemma_digits_are_digits(t.month as int, 2);
    lemma_digits_are_digits(t.day as int, 2);
    lemma_digits_are_digits(t.hour as int, 2);
    lemma_digits_are_digits(t.minute as int, 2);
    lemma_digits_are_digits(t.second as int, 2);
    assert(f[0] == digits(t.year as int, 4)[0]);
    assert(f[18] == digits(t.second as int, 2)[1]);
    assert forall|i: int| 0 <= i < f.len() implies #[trigger] f[i] != '\n' by {
        if i < 4 {
            assert(f[i] == digits(t.year as int, 4)[i]);
        } else if 5 <= i < 7 {
            assert(f[i] == digits(t.month as int, 2)[i - 5]);
        } else if 8 <= i < 10 {
            assert(f[i] == digits(t.day as int, 2)[i - 8]);
        } else if 11 <= i < 13 {
            assert(f[i] == digits(t.hour as int, 2)[i - 11]);
        } else if 14 <= i < 16 {
            assert(f[i] == digits(t.minute as int, 2)[i - 14]);
        } else if 17 <= i < 19 {
            assert(f[i] == digits(t.second as int, 2)[i - 17]);
        }
    }
}

proof fn lemma_step_uid(st: YamlState, m: MetaModel)
    requires
        !st.in_tags,
        field_ok(m.uid),
    ensures
        yaml_step(st, uid_line(m)) == (YamlState { uid: Some(m.uid), ..st }),
{
    lemma_key_line(key_uid(), m.uid);
}

proof fn lemma_step_title(st: YamlState, t: Seq<char>)
    requires
        !st.in_tags,
        t.len() > 0,
        field_ok(t),
    ensures
        yaml_step(st, title_line(t)) == (YamlState { title: Some(t), ..st }),
{
    lemma_key_line(key_title(), t);
    let line = trim(title_line(t));
    assert(line[0] == 't');
    lemma_not_starts(line, key_uid(), 0);
}

proof fn lemma_step_tags_header(st: YamlState)
    requires
        !st.in_tags,
    ensures
        yaml_step(st, key_tags()) == (YamlState { in_tags: true, ..st }),
{
    let k = key_tags();
    assert(trimmed(k));
    lemma_trim_id(k);
    lemma_not_starts(k, key_uid(), 0);
    lemma_not_starts(k, key_title(), 1);
    lemma_starts(k, Seq::empty());
    assert(k + Seq::<char>::empty() =~= k);
    lemma_strip_once(k, Seq::empty());
    assert(trim(Seq::<char>::empty()) =~= Seq::<char>::empty());
}

proof fn lemma_step_tag(st: YamlState, tag: Seq<char>)
    requires
        st.in_tags,
        tag.len() > 0,
        field_ok(tag),
    ensures
        yaml_step(st, tag_line(tag)) == (YamlState { tags: st.tags.push(tag), ..st }),
{
    let a = tag_line(tag);
    let b = seq![' ', '-', ' '] + tag;
    let c = dash_space() + tag;
    assert(a.drop_first() =~= b);
    assert(b.drop_first() =~= c);
    assert(a[0] == ' ' && b[0] == ' ' && c[0] == '-');
    assert(trim_start(c) == c);
    assert(trim_start(b) == trim_start(b.drop_first()));
    assert(trim_start(b) == c);
    assert(trim_start(a) == trim_start(a.drop_first()));
    assert(trim_start(a) == c);
    assert(c.last() == tag.last());
    assert(trim_end(c) == c);
    lemma_starts(dash_space(), tag);
    assert(c.subrange(2, c.len() as int) =~= tag);
    lemma_trim_id(tag);
}

proof fn lemma_step_created(st: YamlState, m: MetaModel)
    requires
        m.created_at.valid(),
    ensures
        yaml_step(st, created_line(m)) == (YamlState { in_tags: false, created: Some(m.created_at), ..st }),
{
    lemma_format_ok(m.created_at);
    lemma_key_line(key_created(), format_timestamp(m.created_at));
    let line = trim(created_line(m));
    assert(line[0] == 'c');
    assert(created_line(m)[0] == 'c');
    lemma_not_starts(line, dash_space(), 0);
    lemma_not_starts(line, key_uid(), 0);
    lemma_not_starts(line, key_title(), 0);
    lemma_not_starts(line, key_tags(), 0);
    lemma_timestamp_round_trip(m.created_at);
}

proof fn lemma_step_updated(st: YamlState, m: MetaModel)
    requires
        !st.in_tags,
        m.updated_at.valid(),
    ensures
        yaml_step(st, updated_line(m)) == (YamlState { updated: Some(m.updated_at), ..st }),
{
    lemma_format_ok(m.updated_at);
    lemma_key_line(key_updated(), format_timestamp(m.updated_at));
    let line = trim(updated_line(m));
    assert(line[0] == 'u' && line[1] == 'p');
    lemma_not_starts(line, key_uid(), 1);
    lemma_not_starts(line, key_title(), 0);
    lemma_not_starts(line, key_tags(), 0);
    lemma_not_starts(line, key_created(), 0);
    lemma_timestamp_round_trip(m.updated_at);
}

proof fn lemma_fold_tags(st: YamlState, tags: Seq<Seq<char>>)
    requires
        st.in_tags,
        forall|i: int| 0 <= i < tags.len() ==> (#[trigger] tags[i]).len() > 0 && field_ok(tags[i]),
    ensures
        fold_seq(tag_line_list(tags), st, yaml_step_fn()) == (YamlState { tags: st.tags + tags, ..st }),
    decreases tags.len(),
{
    if tags.len() == 0 {
        assert(st.tags + tags =~= st.tags);
        assert(tag_line_list(tags) =~= Seq::<Seq<char>>::empty());
    } else {
        let t0 = tags[0];
        let rest = tags.drop_first();
        lemma_step_tag(st, t0);
        let st1 = YamlState { tags: st.tags.push(t0), ..st };
        assert(tag_line_list(tags)[0] == tag_line(t0));
        assert(tag_line_list(tags).drop_first() =~= tag_line_list(rest));
        assert forall|i: int| 0 <= i < rest.len() implies (#[trigger] rest[i]).len() > 0 && field_ok(rest[i]) by {
            assert(rest[i] == tags[i + 1]);
        }
        lemma_fold_tags(st1, rest);
        assert(st.tags.push(t0) + rest =~= st.tags + tags);
    }
}

proof fn lemma_key_line_plain(key: Seq<char>, v: Seq<char>)
    requires
        key.len() > 0,
        no_newline(key),
        field_ok(v),
        v.len() == 0 || v.last() != '\r',
    ensures
        plain_line(key + sp() + v),
{
    let l = key + sp() + v;
    assert forall|i: int| 0 <= i < l.len() implies #[trigger] l[i] != '\n' by {
        if i < key.len() {
            assert(l[i] == key[i]);
        } else if i == key.len() {
        } else {
            assert(l[i] == v[i - key.len() - 1]);
        }
    }
}

/// Every line of the metadata block of well-formed metadata is plain.
proof fn lemma_yaml_lines_plain(m: MetaModel)
    requires
        meta_ok(m),
    ensures
        forall|i: int| 0 <= i < yaml_lines(m).len() ==> plain_line(#[trigger] yaml_lines(m)[i]),
{
    lemma_key_line_plain(key_uid(), m.uid);
    lemma_format_ok(m.created_at);
    lemma_format_ok(m.updated_at);
    lemma_key_line_plain(key_created(), format_timestamp(m.created_at));
    lemma_key_line_plain(key_updated(), format_timestamp(m.updated_at));
    match m.title {
        Some(t) => {
            lemma_key_line_plain(key_title(), t);
        },
        None => {},
    }
    let ls = yaml_lines(m);
    let t = title_lines(m.title);
    let g = tag_block_lines(m.tags);
    assert forall|i: int| 0 <= i < ls.len() implies plain_line(#[trigger] ls[i]) by {
        if i == 0 {
        } else if i < 1 + t.len() {
            assert(ls[i] == t[i - 1]);
        } else if i < 1 + t.len() + g.len() {
            assert(ls[i] == g[i - 1 - t.len()]);
            let j = i - 1 - t.len();
            if j == 0 {
                assert(g[0] == key_tags());
            } else {
                let tag = m.tags[j - 1];
                assert(g[j] == tag_line(tag));
                let l = tag_line(tag);
                assert forall|q: int| 0 <= q < l.len() implies #[trigger] l[q] != '\n' by {
                    if q >= 4 {
                        assert(l[q] == tag[q - 4]);
                    }
                }
            }
        } else {
            assert(ls[i] == seq![created_line(m), updated_line(m)][i - 1 - t.len() - g.len()]);
        }
    }
}

/// Reading the metadata block of well-formed metadata gives it back.
#[verifier::rlimit(60)]
#[verifier::spinoff_prover]
pub proof fn lemma_yaml_round_trip(m: MetaModel)
    requires
        meta_ok(m),
    ensures
        parse_yaml(yaml_text(m)) == Some(m),
{
    lemma_yaml_is_joined_lines(m);
    lemma_yaml_lines_plain(m);
    let f = yaml_step_fn();
    lemma_fold_join(yaml_lines(m), yaml_start(), f);
    let u = seq![uid_line(m)];
    let t = title_lines(m.title);
    let g = tag_block_lines(m.tags);
    let d = seq![created_line(m), updated_line(m)];
    assert(yaml_lines(m) == u + t + g + d);
    lemma_fold_seq_concat(u + t + g, d, yaml_start(), f);
    lemma_fold_seq_concat(u + t, g, yaml_start(), f);
    lemma_fold_seq_concat(u, t, yaml_start(), f);
    let s0 = yaml_start();
    lemma_step_uid(s0, m);
    let s1 = YamlState { uid: Some(m.uid), ..s0 };
    assert(fold_seq(u, s0, f) == s1) by {
        assert(u.drop_first() =~= Seq::<Seq<char>>::empty());
        assert(u[0] == uid_line(m));
        assert(f(s0, uid_line(m)) == s1);
        assert(fold_seq(Seq::<Seq<char>>::empty(), s1, f) == s1);
    }
    let s2 = YamlState { title: m.title, ..s1 };
    assert(fold_seq(t, s1, f) == s2) by {
        match m.title {
            Some(tt) => {
                lemma_step_title(s1, tt);
                assert(t.drop_first() =~= Seq::<Seq<char>>::empty());
                assert(t[0] == title_line(tt));
                assert(f(s1, title_line(tt)) == s2);
                assert(fold_seq(Seq::<Seq<char>>::empty(), s2, f) == s2);
            },
            None => {},
        }
    }
    let s3 = YamlState { tags: m.tags, in_tags: m.tags.len() > 0, ..s2 };
    assert(fold_seq(g, s2, f) == s3) by {
        if m.tags.len() > 0 {
            lemma_fold_seq_concat(seq![key_tags()], tag_line_list(m.tags), s2, f);
            lemma_step_tags_header(s2);
            let h = YamlState { in_tags: true, ..s2 };
            assert(fold_seq(seq![key_tags()], s2, f) == h) by {
                assert(seq![key_tags()].drop_first() =~= Seq::<Seq<char>>::empty());
                assert(seq![key_tags()][0] == key_tags());
                assert(f(s2, key_tags()) == h);
                assert(fold_seq(Seq::<Seq<char>>::empty(), h, f) == h);
            }
            lemma_fold_tags(h, m.tags);
            assert(Seq::<Seq<char>>::empty() + m.tags =~= m.tags);
        } else {
            assert(s2.tags == Seq::<Seq<char>>::empty());
            assert(m.tags =~= Seq::<Seq<char>>::empty());
        }
    }
    lemma_step_created(s3, m);
    let s4 = YamlState { in_tags: false, created: Some(m.created_at), ..s3 };
    lemma_step_updated(s4, m);
    let s5 = YamlState { updated: Some(m.updated_at), ..s4 };
    assert(fold_seq(d, s3, f) == s5) by {
        assert(d[0] == created_line(m));
        assert(d.drop_first() =~= seq![updated_line(m)]);
        assert(d.drop_first()[0] == updated_line(m));
        assert(d.drop_first().drop_first() =~= Seq::<Seq<char>>::empty());
        assert(f(s3, created_line(m)) == s4);
        assert(f(s4, updated_line(m)) == s5);
        assert(fold_seq(Seq::<Seq<char>>::empty(), s5, f) == s5);
        assert(fold_seq(d.drop_first(), s4, f) == s5);
    }
    assert(yaml_read(yaml_text(m)) == s5);
}

/// In joined plain lines that do not start with `-`, every line feed is
/// followed by something other than `-`.
proof fn lemma_join_newlines(ls: Seq<Seq<char>>, i: int)
    requires
        ls.len() > 0,
        forall|q: int| 0 <= q < ls.len() ==> plain_line(#[trigger] ls[q]) && ls[q][0] != '-',
        0 <= i < join_lines(ls).len(),
        join_lines(ls)[i] == '\n',
    ensures
        i + 1 < join_lines(ls).len(),
        join_lines(ls)[i + 1] != '-',
    decreases ls.len(),
{
    let l = ls[0];
    assert(plain_line(l));
    if ls.len() == 1 {
        assert(join_lines(ls) == l);
        assert(l[i] != '\n');
    } else {
        let rest = ls.drop_first();
        assert forall|q: int| 0 <= q < rest.len() implies plain_line(#[trigger] rest[q]) && rest[q][0] != '-' by {
            assert(rest[q] == ls[q + 1]);
        }
        let j = join_lines(rest);
        assert(join_lines(ls) == l + seq!['\n'] + j);
        if i < l.len() {
            assert(join_lines(ls)[i] == l[i]);
        } else if i == l.len() {
            assert(rest[0] == ls[1]);
            assert(plain_line(rest[0]));
            assert(j.len() > 0 && j[0] == rest[0][0]) by {
                if rest.len() == 1 {
                } else {
                    assert(j == rest[0] + seq!['\n'] + join_lines(rest.drop_first()));
                }
            }
            assert(join_lines(ls)[i + 1] == j[0]);
        } else {
            let i2 = i - l.len() - 1;
            assert(join_lines(ls)[i] == j[i2]);
            lemma_join_newlines(rest, i2);
            assert(join_lines(ls)[i + 1] == j[i2 + 1]);
        }
    }
}

proof fn lemma_find_first(s: Seq<char>, from: int, k: int, p: Seq<char>)
    requires
        0 <= from <= k,
        occurs_at(s, k, p),
        forall|i: int| from <= i < k ==> !#[trigger] occurs_at(s, i, p),
    ensures
        find_from(s, from, p) == Some(k),
    decreases k - from,
{
    if from < k {
        assert(!occurs_at(s, from, p));
        lemma_find_first(s, from + 1, k, p);
    }
}

/// A note file written from well-formed metadata and any body parses back
/// to the same metadata and body: id, title, tags, timestamps and body text
/// are kept exactly.
#[verifier::rlimit(60)]
#[verifier::spinoff_prover]
pub proof fn lemma_file_round_trip(m: MetaModel, body: Seq<char>)
    requires
        meta_ok(m),
    ensures
        parse_file(file_text(m, body)) == Ok::<(MetaModel, Seq<char>), NoteParseError>((m, body)),
{
    let y = yaml_text(m);
    let s = file_text(m, body);
    let k: int = 4 + y.len() as int;
    lemma_yaml_round_trip(m);
    lemma_yaml_is_joined_lines(m);
    lemma_yaml_lines_plain(m);
    let ls = yaml_lines(m);
    assert forall|q: int| 0 <= q < ls.len() implies plain_line(#[trigger] ls[q]) && ls[q][0] != '-' by {
        let t = title_lines(m.title);
        let g = tag_block_lines(m.tags);
        if q == 0 {
        } else if q < 1 + t.len() {
            assert(ls[q] == t[q - 1]);
        } else if q < 1 + t.len() + g.len() {
            assert(ls[q] == g[q - 1 - t.len()]);
            let j = q - 1 - t.len();
            if j > 0 {
                assert(g[j] == tag_line(m.tags[j - 1]));
            }
        } else {
            assert(ls[q] == seq![created_line(m), updated_line(m)][q - 1 - t.len() - g.len()]);
        }
    }
    assert(s == fence_open() + y + fence_close() + seq!['\n', '\n'] + body);
    assert(s.subrange(0, 4) =~= fence_open());
    assert(s.subrange(k, k + 4) =~= fence_close());
    assert forall|i: int| 4 <= i < k implies !#[trigger] occurs_at(s, i, fence_close()) by {
        if occurs_at(s, i, fence_close()) {
            assert(s.subrange(i, i + 4)[0] == s[i]);
            assert(s.subrange(i, i + 4)[1] == s[i + 1]);
            assert(s[i] == y[i - 4]);
            lemma_join_newlines(ls, i - 4);
            assert(s[i + 1] == y[i - 3]);
        }
    }
    lemma_find_first(s, 4, k, fence_close());
    assert(s.subrange(4, k) =~= y);
    let rest = s.subrange(k + 4, s.len() as int);
    assert(rest =~= seq!['\n', '\n'] + body);
    assert(drop_fence_gap(rest) =~= body) by {
        assert(rest.drop_first() =~= seq!['\n'] + body);
        assert((seq!['\n'] + body).drop_first() =~= body);
    }
}

} // verus!
