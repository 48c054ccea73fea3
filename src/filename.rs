//! File names for notes: derived from the first heading, made safe for file
//! systems, shortened, and numbered when the name is taken.
use vstd::prelude::*;
use crate::note::{first_heading, strs, Note};
use crate::text::{append_all, chars_of, string_of};
use crate::timestamp::{compact_timestamp, decimal, now, push_compact, push_decimal};

verus! {

/// Longest name, in characters, taken from a heading.
pub const MAX_NAME_CHARS: usize = 200;

/// Highest number tried when a name is taken.
pub const MAX_SUFFIX: usize = 999;

pub open spec fn forbidden(c: char) -> bool {
    c == '/' || c == '\\' || c == ':' || c == '*' || c == '?' || c == '"' || c == '<' || c == '>' || c == '|'
}

/// Characters that file systems refuse replaced by `_`.
pub open spec fn sanitized(s: Seq<char>) -> Seq<char> {
    s.map_values(|c: char| if forbidden(c) { '_' } else { c })
}

/// At most `max` characters: a longer name keeps its first `max - 3` and
/// ends in `...`.
pub open spec fn truncated(s: Seq<char>, max: int) -> Seq<char> {
    if s.len() > max {
        s.take(max - 3) + seq!['.', '.', '.']
    } else {
        s
    }
}

/// The `i`-th name tried: the base itself, then `base_2`, `base_3`, ...
pub open spec fn candidate(base: Seq<char>, i: nat) -> Seq<char> {
    if i <= 1 {
        base
    } else {
        base + seq!['_'] + decimal(i)
    }
}

/// The first name from the `i`-th on that is not taken, if one up to
/// [`MAX_SUFFIX`] is free.
pub open spec fn free_from(base: Seq<char>, taken: Seq<Seq<char>>, i: nat) -> Option<Seq<char>>
    decreases MAX_SUFFIX + 1 - i,
{
    if i > MAX_SUFFIX {
        None
    } else if !taken.contains(candidate(base, i)) {
        Some(candidate(base, i))
    } else {
        free_from(base, taken, i + 1)
    }
}

/// The name `make_unique` picks, unless all numbered names are taken.
pub open spec fn unique_name(base: Seq<char>, taken: Seq<Seq<char>>) -> Option<Seq<char>> {
    free_from(base, taken, 1)
}

/// The base name for a note: its sanitized, shortened first heading, or
/// its id where it has none.
pub open spec fn base_name(heading: Option<Seq<char>>, uid: Seq<char>) -> Seq<char> {
    match heading {
        Some(h) => truncated(sanitized(h), MAX_NAME_CHARS as int),
        None => uid,
    }
}

/// What `Path::file_stem` gives for a path, as text where it is valid
/// UTF-8.
pub uninterp spec fn path_stem(p: Seq<char>) -> Option<Seq<char>>;

/// Relies on `std::path::Path::file_stem` and `OsStr::to_str`: the file
/// name without its extension, a function of the path alone.
#[verifier::external_body]
fn file_stem(path: &str) -> (r: Option<String>)
    ensures
        match r {
            Some(s) => path_stem(path@) == Some(s@),
            None => path_stem(path@) is None,
        },
{
    match std::path::Path::new(path).file_stem() {
        Some(stem) => match stem.to_str() {
            Some(s) => Some(s.to_string()),
            None => None,
        },
        None => None,
    }
}

/// The stems of the paths that have one, in order.
pub open spec fn stems(paths: Seq<Seq<char>>) -> Seq<Seq<char>>
    decreases paths.len(),
{
    if paths.len() == 0 {
        Seq::empty()
    } else {
        match path_stem(paths.last()) {
            Some(s) => stems(paths.drop_last()).push(s),
            None => stems(paths.drop_last()),
        }
    }
}

fn stems_of(paths: &Vec<String>) -> (r: Vec<String>)
    ensures
        strs(r@) == stems(strs(paths@)),
{
    let mut out: Vec<String> = Vec::new();
    let mut i: usize = 0;
    while i < paths.len()
        invariant
            i <= paths@.len(),
            strs(out@) == stems(strs(paths@).take(i as int)),
        decreases paths.len() - i,
    {
        proof {
            assert(strs(paths@).take(i + 1).drop_last() =~= strs(paths@).take(i as int));
            assert(strs(paths@).take(i + 1).last() == paths@[i as int]@);
        }
        match file_stem(paths[i].as_str()) {
            Some(st) => {
                let ghost o0 = out@;
                out.push(st);
                proof {
                    assert(strs(out@) =~= strs(o0).push(st@));
                }
            },
            None => {},
        }
        i = i + 1;
    }
    proof {
        assert(strs(paths@).take(paths@.len() as int) =~= strs(paths@));
    }
    out
}

/// `n` is the name `make_unique` picks for `base` among `taken`: the first
/// free numbered candidate, else the base followed by a time.
pub open spec fn picked_name(base: Seq<char>, taken: Seq<Seq<char>>, n: Seq<char>) -> bool {
    match unique_name(base, taken) {
        Some(u) => n == u,
        None => exists|t: crate::timestamp::Timestamp| n == base + seq!['_'] + compact_timestamp(t),
    }
}

/// Names notes after their first level-1 or level-2 heading.
pub struct HeadingFilenameStrategy;

impl HeadingFilenameStrategy {
    pub fn new() -> (r: HeadingFilenameStrategy) {
        HeadingFilenameStrategy
    }

    /// Replaces each of `/ \\ : * ? " < > |` by `_`.
    pub fn sanitize(name: &str) -> (r: String)
        ensures
            r@ == sanitized(name@),
    {
        let v = chars_of(name);
        let mut out: Vec<char> = Vec::new();
        let mut i: usize = 0;
        while i < v.len()
            invariant
                i <= v@.len(),
                out@ == sanitized(v@.take(i as int)),
            decreases v.len() - i,
        {
            let c = v[i];
            let forbidden_char = c == '/' || c == '\\' || c == ':' || c == '*' || c == '?' || c == '"' || c == '<' || c == '>' || c == '|';
            out.push(if forbidden_char { '_' } else { c });
            proof {
                assert(sanitized(v@.take(i + 1)) =~= sanitized(v@.take(i as int)).push(if forbidden(c) { '_' } else { c }));
            }
            i = i + 1;
        }
        proof {
            assert(v@.take(v@.len() as int) =~= v@);
        }
        string_of(out.as_slice())
    }

    /// Shortens `name` to `max_chars` characters (see [`truncated`]).
    pub fn truncate(name: &str, max_chars: usize) -> (r: String)
        requires
            max_chars >= 3,
        ensures
            r@ == truncated(name@, max_chars as int),
    {
        let v = chars_of(name);
        if v.len() > max_chars {
            let mut out: Vec<char> = Vec::new();
            crate::text::append_span(&mut out, &v, 0, max_chars - 3);
            out.push('.');
            out.push('.');
            out.push('.');
            proof {
                assert(out@ =~= v@.take(max_chars - 3) + seq!['.', '.', '.']);
            }
            string_of(out.as_slice())
        } else {
            String::from_str(name)
        }
    }

    /// A name that is not the stem of any of `existing_files`: `base`
    /// itself if free, else the first free of `base_2` to `base_999`, else
    /// `base_` followed by the current time.
    pub fn make_unique(base_name: &str, existing_files: &Vec<String>) -> (r: String)
        ensures
            match unique_name(base_name@, stems(strs(existing_files@))) {
                Some(n) => r@ == n,
                None => exists|t: crate::timestamp::Timestamp| r@ == base_name@ + seq!['_'] + compact_timestamp(t),
            },
    {
        let taken = stems_of(existing_files);
        let base = chars_of(base_name);
        let mut i: usize = 1;
        while i <= MAX_SUFFIX
            invariant
                1 <= i <= MAX_SUFFIX + 1,
                base@ == base_name@,
                strs(taken@) == stems(strs(existing_files@)),
                unique_name(base_name@, strs(taken@)) == free_from(base_name@, strs(taken@), i as nat),
            decreases MAX_SUFFIX + 1 - i,
        {
            let mut cand: Vec<char> = Vec::new();
            append_all(&mut cand, &base);
            if i > 1 {
                cand.push('_');
                push_decimal(&mut cand, i as u32);
            }
            proof {
                assert(cand@ =~= candidate(base_name@, i as nat));
            }
            let name = string_of(cand.as_slice());
            if !crate::note::contains_string(&taken, &name) {
                return name;
            }
            i = i + 1;
        }
        let (t, _) = now();
        let mut cand: Vec<char> = Vec::new();
        append_all(&mut cand, &base);
        cand.push('_');
        push_compact(&mut cand, &t);
        proof {
            assert(cand@ =~= base_name@ + seq!['_'] + compact_timestamp(t));
        }
        string_of(cand.as_slice())
    }

    /// The file name (without extension) for `note`, not the stem of any
    /// of `existing_files` (see [`picked_name`]).
    pub fn generate(&self, note: &Note, existing_files: &Vec<String>) -> (r: String)
        ensures
            picked_name(base_name(first_heading(note.content@), note.metadata.uid@), stems(strs(existing_files@)), r@),
    {
        let base = match note.extract_heading() {
            Some(h) => {
                let s = Self::sanitize(h.as_str());
                Self::truncate(s.as_str(), MAX_NAME_CHARS)
            },
            None => note.metadata.uid.clone(),
        };
        Self::make_unique(base.as_str(), existing_files)
    }
}

/// A name that `make_unique` picks from its numbered candidates is not
/// among the taken names.
pub proof fn lemma_unique_name_is_free(base: Seq<char>, taken: Seq<Seq<char>>)
    requires
        unique_name(base, taken) is Some,
    ensures
        !taken.contains(unique_name(base, taken)->0),
{
    lemma_free_from_is_free(base, taken, 1);
}

proof fn lemma_free_from_is_free(base: Seq<char>, taken: Seq<Seq<char>>, i: nat)
    requires
        free_from(base, taken, i) is Some,
    ensures
        !taken.contains(free_from(base, taken, i)->0),
    decreases MAX_SUFFIX + 1 - i,
{
    if i <= MAX_SUFFIX && taken.contains(candidate(base, i)) {
        lemma_free_from_is_free(base, taken, i + 1);
    }
}

/// Two notes whose names collide get different file names: once the first
/// note's name is taken, the name picked for the second differs from it.
pub proof fn lemma_colliding_names_differ(base: Seq<char>, taken: Seq<Seq<char>>)
    requires
        unique_name(base, taken) is Some,
        unique_name(base, taken.push(unique_name(base, taken)->0)) is Some,
    ensures
        unique_name(base, taken.push(unique_name(base, taken)->0))->0 != unique_name(base, taken)->0,
{
    let first = unique_name(base, taken)->0;
    let t2 = taken.push(first);
    lemma_unique_name_is_free(base, t2);
    assert(t2[taken.len() as int] == first);
    assert(t2.contains(first));
}

} // verus!
