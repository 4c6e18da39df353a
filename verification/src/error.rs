//! The ways in which hashing a tree or verifying a manifest can fail.

use vstd::prelude::*;

verus! {

/// What went wrong with one file, one manifest line, or a whole run.
#[derive(Clone, Copy, Debug, PartialEq, Eq, Structural)]
pub enum HushError {
    /// A size such as `50MB` has no digits, an unknown unit, or names no usable
    /// block length.
    InvalidSizeLiteral,
    /// A manifest names a file that is absent under the work directory.
    FileNotFound,
    /// The root is not a component-wise prefix of a file's path.
    PathNotRelocatable,
    /// A manifest line lacks `?` or `*`.
    ManifestMalformed,
    /// The digest computed for a file differs from the one recorded.
    DigestMismatch,
    /// A file could not be read.
    IoFailure,
    /// Fewer results were produced than files were discovered.
    PartialCompletion,
}

/// The description of an error in diagnostics.
pub open spec fn message_of(e: HushError) -> Seq<char> {
    match e {
        HushError::InvalidSizeLiteral => "invalid size literal"@,
        HushError::FileNotFound => "file not found"@,
        HushError::PathNotRelocatable => "path is not under the root"@,
        HushError::ManifestMalformed => "malformed manifest line"@,
        HushError::DigestMismatch => "digest mismatch"@,
        HushError::IoFailure => "input/output failure"@,
        HushError::PartialCompletion => "not every file was hashed"@,
    }
}

impl HushError {
    /// A short description for diagnostics.
    pub fn message(&self) -> (text: &'static str)
        ensures
            text@ == message_of(*self),
    {
        match self {
            HushError::InvalidSizeLiteral => "invalid size literal",
            HushError::FileNotFound => "file not found",
            HushError::PathNotRelocatable => "path is not under the root",
            HushError::ManifestMalformed => "malformed manifest line",
            HushError::DigestMismatch => "digest mismatch",
            HushError::IoFailure => "input/output failure",
            HushError::PartialCompletion => "not every file was hashed",
        }
    }
}

} // verus!
