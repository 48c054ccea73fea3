//! The content store's and the settings store's own state: which file the
//! settings live in. Reading and writing files happens around the library.
use vstd::prelude::*;

verus! {

/// The file-system content store: atomic writes by a temporary file and a
/// rename, reads and deletes that fail on a missing file, and a listing
/// that is empty for a missing directory.
pub struct FileStorage;

impl FileStorage {
    pub fn new() -> (r: FileStorage) {
        FileStorage
    }
}

/// Settings kept in one file.
pub struct FileSettingsRepository {
    config_path: String,
}

impl FileSettingsRepository {
    pub closed spec fn path(&self) -> Seq<char> {
        self.config_path@
    }

    /// Settings kept in `config_path`.
    pub fn with_path(config_path: String) -> (r: FileSettingsRepository)
        ensures
            r.path() == config_path@,
    {
        FileSettingsRepository { config_path }
    }

    /// The settings file.
    pub fn config_path(&self) -> (r: &str)
        ensures
            r@ == self.path(),
    {
        self.config_path.as_str()
    }
}

} // verus!
