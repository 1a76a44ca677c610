//! The ways in which reading, writing and listing objects can fail.

use crate::objects::Kind;
use vstd::prelude::*;

verus! {

/// A failed operation of the store.
#[derive(Debug, Clone, Copy, PartialEq, Eq, Structural)]
pub enum Error {
    /// An underlying stream failed: a stored object could not be
    /// decompressed, or an object could not be compressed.
    Io,
    /// The header is malformed: no NUL byte within the header bound, no
    /// space between kind and size, or a size that is no decimal `u64`.
    Format,
    /// The payload is shorter than the size that the header declares.
    SizeMismatch { expected: u64, actual: u64 },
    /// The header is well formed but names a kind that is not known.
    UnsupportedKind,
    /// No object can be stored under the given name: it is not the full
    /// hexadecimal form of a digest.
    NotFound,
    /// An object was printed without asking for the pretty form.
    ModeRequired,
    /// The object is of a kind that the operation cannot handle.
    UnexpectedKind { found: Kind },
    /// A tree payload does not split into whole entries.
    MalformedTree,
    /// A tree was asked for a directory in which nothing is tracked.
    EmptyTree,
}

/// The text that describes an error.
pub open spec fn description(error: Error) -> Seq<char> {
    match error {
        Error::Io => "stream failure while reading or writing an object"@,
        Error::Format => "object file header is malformed"@,
        Error::SizeMismatch { .. } => "object file was not the expected size"@,
        Error::UnsupportedKind => "object file header names an unknown kind"@,
        Error::NotFound => "no object under that name"@,
        Error::ModeRequired => "mode must be given without -p, and we don't support mode"@,
        Error::UnexpectedKind { .. } => "object is not of the kind this operation handles"@,
        Error::MalformedTree => "invalid tree entry"@,
        Error::EmptyTree => "asked to make tree object for empty tree"@,
    }
}

impl Error {
    /// A one-line description for messages.
    pub fn describe(&self) -> (text: &'static str)
        ensures
            text@ == description(*self),
    {
        match self {
            Error::Io => "stream failure while reading or writing an object",
            Error::Format => "object file header is malformed",
            Error::SizeMismatch { .. } => "object file was not the expected size",
            Error::UnsupportedKind => "object file header names an unknown kind",
            Error::NotFound => "no object under that name",
            Error::ModeRequired => "mode must be given without -p, and we don't support mode",
            Error::UnexpectedKind { .. } => "object is not of the kind this operation handles",
            Error::MalformedTree => "invalid tree entry",
            Error::EmptyTree => "asked to make tree object for empty tree",
        }
    }
}

} // verus!
