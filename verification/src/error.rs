//! The ways in which an operation of the virtual file system can fail.

use vstd::prelude::*;

verus! {

/// Why an operation could not be carried out.
#[derive(Clone, Copy, Debug, PartialEq, Eq, Structural)]
pub enum VfsError {
    /// A key is bound to nothing: in the file system, or inside an archive.
    NotFound,
    /// The bytes of an archive of a known format could not be decoded.
    Io,
    /// The first bytes of an archive announce none of the supported formats.
    UnsupportedFormat,
    /// The compressed body of an archived file could not be expanded.
    DecompressionFailed,
    /// The operation is defined for archived files only and was asked of a loose one.
    InvalidState,
}

impl VfsError {
    /// A short description of the failure.
    pub fn message(&self) -> (text: &'static str)
        ensures
            text@ == match *self {
                VfsError::NotFound => "entry not found"@,
                VfsError::Io => "archive could not be read"@,
                VfsError::UnsupportedFormat => "unsupported archive format"@,
                VfsError::DecompressionFailed => "archived file could not be decompressed"@,
                VfsError::InvalidState => "loose files have no parent archive"@,
            },
    {
        match self {
            VfsError::NotFound => "entry not found",
            VfsError::Io => "archive could not be read",
            VfsError::UnsupportedFormat => "unsupported archive format",
            VfsError::DecompressionFailed => "archived file could not be decompressed",
            VfsError::InvalidState => "loose files have no parent archive",
        }
    }
}

} // verus!
