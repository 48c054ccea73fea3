//! Storage-and-indexing engine for short markdown notes: the note file
//! format, wiki-link extraction and the backlink graph, the rebuildable
//! secondary index and its reconciliation with the files, and search.
use vstd::prelude::*;

pub mod text;
pub mod wiki;
pub mod validate;
pub mod timestamp;
pub mod note;
pub mod keyed;
pub mod index;
pub mod preview;
pub mod filename;
pub mod repository;
pub mod file_repository;
pub mod backlinks;
pub mod search;
pub mod hotkey;
pub mod dto;
pub mod events;
pub mod settings;
pub mod window;
pub mod storage;
pub mod format_laws;

verus! {

} // verus!
