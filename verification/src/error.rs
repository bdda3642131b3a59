use vstd::prelude::*;

verus! {

/// Error taxonomy of the library.
///
/// Low-level codec failures are reported as `FormatError`; an index file whose
/// version field is not the supported one is `UnsupportedVersion`; a missing
/// object is `NotFound`; a malformed hash string or path is `InvalidArgument`;
/// a failed decompression of stored object data is `Corrupt`.
#[derive(Debug, Clone, PartialEq, Eq, Structural)]
pub enum GitError {
    /// An object or file was absent.
    NotFound,
    /// Malformed bytes: bad magic, wrong length, missing delimiter.
    FormatError,
    /// The index file declares a version this library does not support.
    UnsupportedVersion,
    /// An object header carried a type tag that is not `blob`, `tree` or
    /// `commit`.
    UnknownType,
    /// Stored object data could not be decompressed.
    Corrupt,
    /// A hash string or a path argument was invalid.
    InvalidArgument,
}

impl GitError {
    /// A short human-readable description, for callers that print errors.
    pub fn message(&self) -> (r: &'static str)
        ensures
            r@ == self.spec_message(),
    {
        match self {
            GitError::NotFound => "object not found",
            GitError::FormatError => "malformed data",
            GitError::UnknownType => "unknown object type",
            GitError::UnsupportedVersion => "unsupported index version",
            GitError::Corrupt => "corrupt object data",
            GitError::InvalidArgument => "invalid argument",
        }
    }

    pub open spec fn spec_message(self) -> Seq<char> {
        match self {
            GitError::NotFound => "object not found"@,
            GitError::FormatError => "malformed data"@,
            GitError::UnknownType => "unknown object type"@,
            GitError::UnsupportedVersion => "unsupported index version"@,
            GitError::Corrupt => "corrupt object data"@,
            GitError::InvalidArgument => "invalid argument"@,
        }
    }
}

} // verus!
