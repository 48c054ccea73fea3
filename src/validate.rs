//! Checks on what a caller hands the engine: note ids, body sizes and tag
//! lists.
use vstd::prelude::*;
use vstd::string::*;

verus! {

/// Shortest accepted id, in bytes.
pub const MIN_UID_LEN: usize = 14;

/// Longest accepted id, in bytes.
pub const MAX_UID_LEN: usize = 26;

/// Largest accepted body, in bytes.
pub const MAX_CONTENT_SIZE: usize = 10485760;

/// Most tags a note may carry.
pub const MAX_TAGS: usize = 50;

/// Longest accepted tag, in bytes.
pub const MAX_TAG_LEN: usize = 100;

pub open spec fn is_digit(c: char) -> bool {
    '0' <= c && c <= '9'
}

/// A well-formed note id: 14 to 26 ASCII digits.
pub open spec fn valid_uid(s: Seq<char>, byte_len: int) -> bool {
    &&& MIN_UID_LEN <= byte_len <= MAX_UID_LEN
    &&& forall|i: int| 0 <= i < s.len() ==> is_digit(#[trigger] s[i])
}

/// Accepts a note id made of 14 to 26 ASCII digits, which keeps ids usable
/// as file names.
pub fn validate_uid(uid: &str) -> (r: Result<(), String>)
    ensures
        r is Ok <==> valid_uid(uid@, uid.len() as int),
{
    let n = uid.len();
    if n < MIN_UID_LEN || n > MAX_UID_LEN {
        return Err(String::from_str("Invalid UID length (expected 14-26 characters)"));
    }
    let m = uid.unicode_len();
    let mut i: usize = 0;
    while i < m
        invariant
            m == uid@.len(),
            i <= m,
            forall|j: int| 0 <= j < i ==> is_digit(#[trigger] uid@[j]),
        decreases m - i,
    {
        let c = uid.get_char(i);
        if !('0' <= c && c <= '9') {
            return Err(String::from_str("Invalid character in UID (digits only)"));
        }
        i = i + 1;
    }
    Ok(())
}

/// Accepts a body of at most [`MAX_CONTENT_SIZE`] bytes.
pub fn validate_content(content: &str) -> (r: Result<(), String>)
    ensures
        r is Ok <==> content.len() <= MAX_CONTENT_SIZE,
{
    if content.len() > MAX_CONTENT_SIZE {
        Err(String::from_str("Content too large (max 10485760 bytes)"))
    } else {
        Ok(())
    }
}

/// A tag of 1 to [`MAX_TAG_LEN`] bytes.
pub open spec fn valid_tag(t: String) -> bool {
    0 < (vstd::utf8::encode_utf8(t@).len() as usize) <= MAX_TAG_LEN
}

/// Accepts at most [`MAX_TAGS`] tags, each non-empty and at most
/// [`MAX_TAG_LEN`] bytes long.
pub fn validate_tags(tags: &[String]) -> (r: Result<(), String>)
    ensures
        r is Ok <==> (tags@.len() <= MAX_TAGS && forall|i: int| 0 <= i < tags@.len() ==> valid_tag(#[trigger] tags@[i])),
{
    if tags.len() > MAX_TAGS {
        return Err(String::from_str("Too many tags (max 50)"));
    }
    let mut i: usize = 0;
    while i < tags.len()
        invariant
            i <= tags@.len(),
            forall|j: int| 0 <= j < i ==> valid_tag(#[trigger] tags@[j]),
        decreases tags.len() - i,
    {
        let t = tags[i].as_str();
        if t.len() > MAX_TAG_LEN {
            return Err(String::from_str("Tag too long (max 100 bytes)"));
        }
        if t.len() == 0 {
            return Err(String::from_str("Empty tag not allowed"));
        }
        i = i + 1;
    }
    Ok(())
}

} // verus!
