//! The ways in which reading, converting or writing an archive fails.
use vstd::prelude::*;

verus! {

/// Why an operation on an archive failed.
#[derive(Debug, Clone, Copy, PartialEq, Eq, Structural)]
pub enum MstError {
    /// The version word is none of the known revisions.
    UnknownVersion,
    /// The version word names no known platform.
    UnknownPlatform,
    /// An entry table stands beside a version word of another revision.
    LayoutMismatch,
    /// A conversion was asked for between revisions that have none. Every
    /// pair of known revisions has one, so no operation gives this error.
    InvalidConversion,
    /// The input ended early, or a content source could not be read in full.
    Io,
}

impl MstError {
    /// A text for the user.
    pub fn message(&self) -> (text: &'static str)
        ensures
            text@ == (match *self {
                MstError::UnknownVersion => "not a known Mst version"@,
                MstError::UnknownPlatform => "not a known Mst platform"@,
                MstError::LayoutMismatch => "Mst version does not match the version of its entries"@,
                MstError::InvalidConversion => "no conversion between these Mst versions"@,
                MstError::Io => "failed to read the whole of a file"@,
            }),
    {
        match self {
            MstError::UnknownVersion => "not a known Mst version",
            MstError::UnknownPlatform => "not a known Mst platform",
            MstError::LayoutMismatch => "Mst version does not match the version of its entries",
            MstError::InvalidConversion => "no conversion between these Mst versions",
            MstError::Io => "failed to read the whole of a file",
        }
    }
}

} // verus!
