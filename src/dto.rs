//! Shapes in which notes, listings, backlinks and tags are handed to a user
//! interface, with timestamps as `YYYY-MM-DD HH:MM:SS` text.
use vstd::prelude::*;
use crate::index::{GalleryNote, NoteListItem};
use crate::note::{strs, Note};
use crate::timestamp::{format_timestamp, push_timestamp, Timestamp};
use crate::wiki::BacklinkInfo;

verus! {

/// A backlink for display.
pub struct BacklinkDto {
    pub uid: String,
    pub title: String,
    pub context: String,
}

impl From<BacklinkInfo> for BacklinkDto {
    fn from(info: BacklinkInfo) -> (r: BacklinkDto) {
        BacklinkDto { uid: info.source_uid, title: info.source_title, context: info.context }
    }
}

impl vstd::std_specs::convert::FromSpecImpl<BacklinkInfo> for BacklinkDto {
    open spec fn obeys_from_spec() -> bool {
        true
    }

    open spec fn from_spec(info: BacklinkInfo) -> BacklinkDto {
        BacklinkDto { uid: info.source_uid, title: info.source_title, context: info.context }
    }
}

/// The text form of a timestamp.
pub fn timestamp_text(t: &Timestamp) -> (r: String)
    ensures
        r@ == format_timestamp(*t),
{
    let mut out: Vec<char> = Vec::new();
    push_timestamp(&mut out, t);
    proof {
        assert(out@ =~= format_timestamp(*t));
    }
    crate::text::string_of(out.as_slice())
}

/// A note for display.
pub struct NoteDto {
    pub uid: String,
    pub content: String,
    pub created_at: String,
    pub updated_at: String,
    pub is_dirty: bool,
}

impl NoteDto {
    pub fn from(note: Note) -> (r: NoteDto)
        ensures
            r.uid@ == note.metadata.uid@,
            r.content@ == note.content@,
            r.created_at@ == format_timestamp(note.metadata.created_at),
            r.updated_at@ == format_timestamp(note.metadata.updated_at),
            r.is_dirty == note.is_dirty,
    {
        let created_at = timestamp_text(&note.metadata.created_at);
        let updated_at = timestamp_text(&note.metadata.updated_at);
        NoteDto { uid: note.metadata.uid, content: note.content, created_at, updated_at, is_dirty: note.is_dirty }
    }
}

/// A listing entry for display.
pub struct NoteListItemDto {
    pub uid: String,
    pub title: String,
    pub updated_at: String,
}

impl NoteListItemDto {
    pub fn from(item: NoteListItem) -> (r: NoteListItemDto)
        ensures
            r.uid@ == item.uid@,
            r.title@ == item.title@,
            r.updated_at@ == format_timestamp(item.updated_at),
    {
        let updated_at = timestamp_text(&item.updated_at);
        NoteListItemDto { uid: item.uid, title: item.title, updated_at }
    }
}

/// A gallery entry for display.
pub struct NoteGalleryItemDto {
    pub uid: String,
    pub title: String,
    /// The body with markdown removed, cut after 400 characters.
    pub preview: String,
    /// Front-matter tags merged with the body's hashtags.
    pub tags: Vec<String>,
    pub created_at: String,
    pub updated_at: String,
}

impl NoteGalleryItemDto {
    pub fn from(note: GalleryNote) -> (r: NoteGalleryItemDto)
        ensures
            r.uid@ == note.uid@,
            r.title@ == note.title@,
            r.preview@ == note.preview@,
            r.tags@ == note.tags@,
            r.created_at@ == format_timestamp(note.created_at),
            r.updated_at@ == format_timestamp(note.updated_at),
    {
        let created_at = timestamp_text(&note.created_at);
        let updated_at = timestamp_text(&note.updated_at);
        NoteGalleryItemDto { uid: note.uid, title: note.title, preview: note.preview, tags: note.tags, created_at, updated_at }
    }
}

/// Order of the gallery.
#[derive(Debug, Clone, Copy, PartialEq, Eq, Structural)]
pub enum GallerySortOrder {
    UpdatedAt,
    CreatedAt,
}

impl Default for GallerySortOrder {
    fn default() -> (r: GallerySortOrder)
        ensures
            r == GallerySortOrder::UpdatedAt,
    {
        GallerySortOrder::UpdatedAt
    }
}

impl GallerySortOrder {
    /// Whether the gallery sorts by creation time.
    pub fn by_created(&self) -> (r: bool)
        ensures
            r == (*self == GallerySortOrder::CreatedAt),
    {
        match self {
            GallerySortOrder::CreatedAt => true,
            GallerySortOrder::UpdatedAt => false,
        }
    }
}

/// The tags of a note for display.
pub struct NoteTagsDto {
    /// Tags of the front matter.
    pub frontmatter_tags: Vec<String>,
    /// Hashtags of the body.
    pub hashtags: Vec<String>,
    /// Both, merged.
    pub all_tags: Vec<String>,
}

impl NoteTagsDto {
    pub fn from(note: &Note) -> (r: NoteTagsDto)
        ensures
            r.frontmatter_tags@ == note.metadata.tags@,
            strs(r.hashtags@) == crate::note::body_hashtags(note.content@),
            strs(r.all_tags@).to_multiset() == crate::note::all_tags_of(strs(note.metadata.tags@), note.content@).to_multiset(),
    {
        NoteTagsDto {
            frontmatter_tags: crate::note::copy_strings(&note.metadata.tags),
            hashtags: note.extract_hashtags(),
            all_tags: note.all_tags(),
        }
    }
}

} // verus!
