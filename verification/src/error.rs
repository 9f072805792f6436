//! Error values shared by the store engine, the wire codec and the command
//! layer.

use vstd::prelude::*;

verus! {

/// The reason a call failed.
#[derive(Debug)]
pub enum ErrorKind {
    /// An I/O failure, reported by the unverified shell around the library.
    Io(String),
    /// The key asked for does not exist (an error only for `remove`).
    KeyNotFound,
    /// Malformed wire data.
    Protocol(String),
    /// A stored or received record has a variant inconsistent with its role.
    UnexpectedCommandType,
    /// A failure described only by a message.
    StringError(String),
    /// The first byte of a wire item is not a known type mark.
    UnexpectedRespMark(u8),
    /// The end of the input stream was reached.
    EOS,
}

/// An error carrying one [`ErrorKind`].
#[derive(Debug)]
pub struct Error {
    kind: ErrorKind,
}

impl Error {
    /// The kind of failure this error reports, for use in contracts.
    pub closed spec fn skind(&self) -> ErrorKind {
        self.kind
    }

    /// Wraps a kind into an error.
    pub fn new(kind: ErrorKind) -> (r: Error)
        ensures
            r.skind() == kind,
    {
        Error { kind }
    }

    /// The kind of failure this error reports.
    pub fn kind(&self) -> (r: &ErrorKind)
        ensures
            *r == self.skind(),
    {
        &self.kind
    }
}

} // verus!
