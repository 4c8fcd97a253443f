//! Error taxonomy of the library.

use vstd::prelude::*;

verus! {

/// The three fields of a provenance record.
#[derive(Clone, Copy, Debug, PartialEq, Eq, Structural)]
pub enum ConfigField {
    Url,
    Rev,
    UpstreamPath,
}

/// Every failure the library's operations can report.
#[derive(Clone, Copy, Debug, PartialEq, Eq, Structural)]
pub enum SubcopyError {
    /// A network transfer (clone or fetch) failed.
    Transport,
    /// An existing mirror path does not hold a usable repository.
    CorruptMirror,
    /// The requested upstream path is absent from the resolved tree, or
    /// names an object that is neither a file nor a directory.
    PathNotFound,
    /// An entry name or destination path is not valid UTF-8.
    NonUtf8Name,
    /// The destination path does not resolve inside the enclosing
    /// repository's working directory.
    OutsideRepository,
    /// A complete provenance record was required but the named field is
    /// absent.
    MissingField(ConfigField),
    /// The interactive operation handed to a session failed.
    Subprocess,
}

} // verus!
