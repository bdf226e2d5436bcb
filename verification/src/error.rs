//! The failures that the library reports.

use vstd::prelude::*;

verus! {

/// Why a hash, or a prefix of one, names no object.
#[derive(Clone, Copy, Debug, PartialEq, Eq, Structural)]
pub enum HashFault {
    /// The prefix has fewer than six characters.
    TooShort,
    /// No stored object begins with the prefix.
    NotFound,
    /// More than one stored object begins with the prefix.
    Ambiguous,
    /// The object that was found is of another kind than the one asked for.
    WrongKind,
}

/// A failure of the library. Each one is final: nothing is retried.
#[derive(Clone, Copy, Debug, PartialEq, Eq, Structural)]
pub enum Error {
    /// The hash names no object.
    InvalidHash(HashFault),
    /// The stored bytes are no valid compressed stream.
    CorruptStream,
    /// The payload of a tree is no sequence of tree entries.
    MalformedTree,
    /// The tag of an object is none of `blob`, `tree`, `commit`.
    UnknownObjectType,
    /// The space or the NUL that ends an object's header is missing.
    TruncatedHeader,
    /// The compressor could not write its output.
    Io,
}

impl Error {
    /// A short description for a person to read.
    pub fn message(&self) -> (text: &'static str)
        ensures
            text@ == self.message_text(),
    {
        match self {
            Error::InvalidHash(HashFault::TooShort) => "Invalid hash: fewer than six characters",
            Error::InvalidHash(HashFault::NotFound) => "Invalid hash: no such object",
            Error::InvalidHash(HashFault::Ambiguous) => "Invalid hash: more than one object",
            Error::InvalidHash(HashFault::WrongKind) => "Invalid hash: object of another kind",
            Error::CorruptStream => "Corrupt compressed stream",
            Error::MalformedTree => "Invalid tree line",
            Error::UnknownObjectType => "Invalid object type",
            Error::TruncatedHeader => "Failed to read object header",
            Error::Io => "Input or output failed",
        }
    }

    /// The text of [`Error::message`].
    pub open spec fn message_text(&self) -> Seq<char> {
        match self {
            Error::InvalidHash(HashFault::TooShort) => "Invalid hash: fewer than six characters"@,
            Error::InvalidHash(HashFault::NotFound) => "Invalid hash: no such object"@,
            Error::InvalidHash(HashFault::Ambiguous) => "Invalid hash: more than one object"@,
            Error::InvalidHash(HashFault::WrongKind) => "Invalid hash: object of another kind"@,
            Error::CorruptStream => "Corrupt compressed stream"@,
            Error::MalformedTree => "Invalid tree line"@,
            Error::UnknownObjectType => "Invalid object type"@,
            Error::TruncatedHeader => "Failed to read object header"@,
            Error::Io => "Input or output failed"@,
        }
    }
}

} // verus!
