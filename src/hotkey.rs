//! Hotkey strings such as `Ctrl+Shift+M` in the form a window manager's
//! bind line takes: the modifiers as upper-case words separated by spaces,
//! and the key.
use vstd::prelude::*;
use crate::text::{append_all, chars_of, lower_of, lowercase, next_char, string_of, string_of_span, trim, trim_span, upper_of, uppercase};

verus! {

/// The parts of `s` between `+` signs from position `i`; an empty string
/// has one empty part, and a trailing `+` opens an empty last part.
pub open spec fn plus_parts(s: Seq<char>, i: int) -> Seq<Seq<char>>
    decreases s.len() + 1 - i
    via plus_parts_decreases
{
    if i < 0 || i > s.len() {
        Seq::empty()
    } else {
        let k = next_char(s, i, '+');
        seq![s.subrange(i, k)] + (if k < s.len() { plus_parts(s, k + 1) } else { Seq::empty() })
    }
}

#[via_fn]
proof fn plus_parts_decreases(s: Seq<char>, i: int) {
    if 0 <= i <= s.len() {
        crate::text::lemma_next_char_bounds(s, i, '+');
    }
}

/// The window manager's name for a modifier, given lowercased.
pub open spec fn modifier_word(m: Seq<char>) -> Seq<char> {
    if m == seq!['c', 't', 'r', 'l'] || m == seq!['c', 'o', 'n', 't', 'r', 'o', 'l'] {
        seq!['C', 'T', 'R', 'L']
    } else if m == seq!['s', 'h', 'i', 'f', 't'] {
        seq!['S', 'H', 'I', 'F', 'T']
    } else if m == seq!['a', 'l', 't'] {
        seq!['A', 'L', 'T']
    } else if m == seq!['s', 'u', 'p', 'e', 'r'] || m == seq!['m', 'e', 't', 'a'] || m == seq!['w', 'i', 'n'] {
        seq!['S', 'U', 'P', 'E', 'R']
    } else {
        upper_of(m)
    }
}

/// The words joined by single spaces.
pub open spec fn join_words(w: Seq<Seq<char>>) -> Seq<char>
    decreases w.len(),
{
    if w.len() == 0 {
        Seq::empty()
    } else if w.len() == 1 {
        w[0]
    } else {
        join_words(w.drop_last()) + seq![' '] + w.last()
    }
}

/// The modifiers of a hotkey, each trimmed, lowercased and named.
pub open spec fn modifier_words(parts: Seq<Seq<char>>) -> Seq<Seq<char>> {
    parts.map_values(|p: Seq<char>| modifier_word(lower_of(trim(p))))
}

/// The hotkey `Mod+...+Key` as the modifier words and the upper-case key.
pub open spec fn hotkey_words(s: Seq<char>) -> (Seq<char>, Seq<char>) {
    let parts = plus_parts(s, 0);
    (join_words(modifier_words(parts.drop_last())), upper_of(trim(parts.last())))
}

fn eq_chars(m: &Vec<char>, lit: &Vec<char>) -> (r: bool)
    ensures
        r == (m@ == lit@),
{
    if m.len() != lit.len() {
        return false;
    }
    let r = crate::text::matches_at(m, 0, lit);
    proof {
        assert(m@.subrange(0, lit@.len() as int) =~= m@);
    }
    r
}

/// The window manager's word for one modifier (see [`modifier_word`]).
fn modifier_of(part: &Vec<char>, a: usize, b: usize) -> (r: String)
    requires
        a <= b <= part.len(),
    ensures
        r@ == modifier_word(lower_of(trim(part@.subrange(a as int, b as int)))),
{
    let (x, y) = trim_span(part, a, b);
    let t = string_of_span(part, x, y);
    let low = lowercase(t.as_str());
    let m = chars_of(low.as_str());
    let ctrl: Vec<char> = vec!['c', 't', 'r', 'l'];
    let control: Vec<char> = vec!['c', 'o', 'n', 't', 'r', 'o', 'l'];
    let shift: Vec<char> = vec!['s', 'h', 'i', 'f', 't'];
    let alt: Vec<char> = vec!['a', 'l', 't'];
    let sup: Vec<char> = vec!['s', 'u', 'p', 'e', 'r'];
    let meta: Vec<char> = vec!['m', 'e', 't', 'a'];
    let win: Vec<char> = vec!['w', 'i', 'n'];
    proof {
        assert(ctrl@ =~= seq!['c', 't', 'r', 'l']);
        assert(control@ =~= seq!['c', 'o', 'n', 't', 'r', 'o', 'l']);
        assert(shift@ =~= seq!['s', 'h', 'i', 'f', 't']);
        assert(alt@ =~= seq!['a', 'l', 't']);
        assert(sup@ =~= seq!['s', 'u', 'p', 'e', 'r']);
        assert(meta@ =~= seq!['m', 'e', 't', 'a']);
        assert(win@ =~= seq!['w', 'i', 'n']);
    }
    let out: Vec<char> = if eq_chars(&m, &ctrl) || eq_chars(&m, &control) {
        vec!['C', 'T', 'R', 'L']
    } else if eq_chars(&m, &shift) {
        vec!['S', 'H', 'I', 'F', 'T']
    } else if eq_chars(&m, &alt) {
        vec!['A', 'L', 'T']
    } else if eq_chars(&m, &sup) || eq_chars(&m, &meta) || eq_chars(&m, &win) {
        vec!['S', 'U', 'P', 'E', 'R']
    } else {
        return uppercase(low.as_str());
    };
    proof {
        assert(out@ =~= modifier_word(lower_of(trim(part@.subrange(a as int, b as int)))));
    }
    string_of(out.as_slice())
}

/// Positions of the `+` signs of `v` bounding its parts (see
/// [`plus_parts`]): part `j` is `v[r[j].0..r[j].1]`.
fn part_spans(v: &Vec<char>) -> (r: Vec<(usize, usize)>)
    ensures
        r@.len() >= 1,
        r@.len() == plus_parts(v@, 0).len(),
        forall|j: int| 0 <= j < r@.len() ==> (#[trigger] r@[j]).0 <= r@[j].1 <= v@.len() && v@.subrange(r@[j].0 as int, r@[j].1 as int) == plus_parts(v@, 0)[j],
{
    let mut out: Vec<(usize, usize)> = Vec::new();
    let mut i: usize = 0;
    let ghost mut done: Seq<Seq<char>> = Seq::empty();
    loop
        invariant
            i <= v.len(),
            out@.len() == done.len(),
            done + plus_parts(v@, i as int) == plus_parts(v@, 0),
            forall|j: int| 0 <= j < out@.len() ==> (#[trigger] out@[j]).0 <= out@[j].1 <= v@.len() && v@.subrange(out@[j].0 as int, out@[j].1 as int) == done[j],
        decreases v.len() - i,
    {
        let k = crate::text::find_char(v, i, '+');
        let ghost d0 = done;
        out.push((i, k));
        proof {
            done = d0.push(v@.subrange(i as int, k as int));
            assert(forall|j: int| 0 <= j < out@.len() ==> (#[trigger] out@[j]).0 <= out@[j].1 <= v@.len() && v@.subrange(out@[j].0 as int, out@[j].1 as int) == done[j]);
        }
        if k < v.len() {
            proof {
                assert(d0 + plus_parts(v@, i as int) =~= done + plus_parts(v@, k + 1));
            }
            i = k + 1;
        } else {
            proof {
                assert(d0 + plus_parts(v@, i as int) =~= done);
                assert(done.len() >= 1);
            }
            return out;
        }
    }
}

/// The hotkey `Mod+...+Key` as window-manager modifier words joined by
/// spaces (`Ctrl`/`Control` as `CTRL`, `Super`/`Meta`/`Win` as `SUPER`,
/// others upper-cased) and the upper-cased key. Always `Some`: even an
/// empty string has a (empty) key.
pub fn parse_hotkey_to_hyprland(hotkey: &str) -> (r: Option<(String, String)>)
    ensures
        r matches Some(p) && p.0@ == hotkey_words(hotkey@).0 && p.1@ == hotkey_words(hotkey@).1,
{
    let v = chars_of(hotkey);
    let spans = part_spans(&v);
    let ghost parts = plus_parts(v@, 0);
    let last = spans.len() - 1;
    let (ka, kb) = spans[last];
    let (x, y) = trim_span(&v, ka, kb);
    let key_text = string_of_span(&v, x, y);
    let key = uppercase(key_text.as_str());
    let mut mods: Vec<char> = Vec::new();
    let mut j: usize = 0;
    proof {
        assert(join_words(modifier_words(parts.drop_last()).take(0)) =~= Seq::<char>::empty());
    }
    while j < last
        invariant
            last + 1 == spans@.len(),
            parts == plus_parts(v@, 0),
            spans@.len() == parts.len(),
            forall|q: int| 0 <= q < spans@.len() ==> (#[trigger] spans@[q]).0 <= spans@[q].1 <= v@.len() && v@.subrange(spans@[q].0 as int, spans@[q].1 as int) == parts[q],
            j <= last,
            mods@ == join_words(modifier_words(parts.drop_last()).take(j as int)),
        decreases last - j,
    {
        let (a, b) = spans[j];
        let w = modifier_of(&v, a, b);
        let wc = chars_of(w.as_str());
        proof {
            let ms = modifier_words(parts.drop_last());
            assert(ms.take(j + 1).drop_last() =~= ms.take(j as int));
            assert(ms.take(j + 1).last() == ms[j as int]);
            assert(parts.drop_last()[j as int] == parts[j as int]);
            if j == 0 {
                assert(ms.take(1)[0] == ms[0]);
            }
        }
        if j > 0 {
            mods.push(' ');
        }
        append_all(&mut mods, &wc);
        j = j + 1;
    }
    proof {
        assert(modifier_words(parts.drop_last()).take(last as int) =~= modifier_words(parts.drop_last()));
        assert(parts.last() == parts[last as int]);
    }
    Some((string_of(mods.as_slice()), key))
}

} // verus!
