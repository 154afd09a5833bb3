//! The data records shared by every backend: a file as a backend reports it,
//! and the error kinds of the whole crate.

use vstd::prelude::*;

verus! {

/// Why an operation failed.  A failure aborts the whole operation and is
/// reported once; nothing retries.
#[derive(Clone, Copy, Debug, PartialEq, Eq, Structural)]
pub enum DropletError {
    /// The path or file is absent from the source.
    NotFound,
    /// An underlying read failed.
    IoError,
    /// An archive's structural metadata cannot be parsed.
    FormatError,
    /// An archive entry uses a compression method this crate does not handle.
    UnsupportedFormat,
    /// An archive-declared checksum did not match the streamed data.
    IntegrityError,
    /// An invalid start/end range was requested.
    RangeError,
    /// No backend recognizes the given source path.
    BackendUnavailable,
}

/// One file as a backend reports it: its path relative to the source root,
/// its permission bits, and its size in bytes (the uncompressed size for
/// archive backends).
#[derive(Clone, Debug)]
pub struct VersionFile {
    pub relative_filename: String,
    pub permission: u32,
    pub size: u64,
}

/// The mathematical view of a `VersionFile`.
pub ghost struct VersionFileModel {
    pub name: Seq<char>,
    pub permission: u32,
    pub size: u64,
}

impl View for VersionFile {
    type V = VersionFileModel;

    open spec fn view(&self) -> VersionFileModel {
        VersionFileModel {
            name: self.relative_filename@,
            permission: self.permission,
            size: self.size,
        }
    }
}

/// The mathematical view of a file listing.
pub open spec fn file_models(files: Seq<VersionFile>) -> Seq<VersionFileModel> {
    files.map_values(|f: VersionFile| f@)
}

/// The first file of a listing bearing the given name.
pub open spec fn spec_lookup(files: Seq<VersionFileModel>, name: Seq<char>) -> Option<
    VersionFileModel,
>
    decreases files.len(),
{
    if files.len() == 0 {
        None
    } else if files.first().name == name {
        Some(files.first())
    } else {
        spec_lookup(files.drop_first(), name)
    }
}

} // verus!
