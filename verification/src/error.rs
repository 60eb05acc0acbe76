//! The ways an operation of the library can fail.

use vstd::prelude::*;

verus! {

/// Why an operation was refused. Every failure is final: nothing is retried,
/// and an operation that fails has changed nothing.
#[derive(Clone, Copy, Debug, PartialEq, Eq, Structural)]
pub enum Error {
    /// The filesystem could not be read, written or listed, or a snapshot is
    /// too large to be stored.
    Io,
    /// Stored bytes are not a snapshot: they do not decompress, a line is
    /// malformed, an escape sequence or an algorithm name is unknown, the
    /// embedded timestamp is not the expected one, or a file in the store
    /// directory does not carry a canonical name.
    Format,
    /// The digest of the bytes read differs from the one in the file's name.
    ChecksumMismatch,
    /// A snapshot is not newer than the latest one in the store.
    Causality,
    /// A path is not tracked, lies outside the data root or is not text.
    Path,
    /// The name of a checksum function is not known.
    Config,
}

impl Error {
    /// A one-line description for the user.
    pub fn message(&self) -> (text: String)
        ensures
            text@ == (match *self {
                Error::Io => "i/o error"@,
                Error::Format => "invalid index file"@,
                Error::ChecksumMismatch => "checksum mismatch for index file"@,
                Error::Causality => "a newer snapshot exists. did we go back into the future?"@,
                Error::Path => "invalid path"@,
                Error::Config => "invalid checksum function"@,
            }),
    {
        match self {
            Error::Io => "i/o error".to_owned(),
            Error::Format => "invalid index file".to_owned(),
            Error::ChecksumMismatch => "checksum mismatch for index file".to_owned(),
            Error::Causality => "a newer snapshot exists. did we go back into the future?".to_owned(),
            Error::Path => "invalid path".to_owned(),
            Error::Config => "invalid checksum function".to_owned(),
        }
    }
}

} // verus!
