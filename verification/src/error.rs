//! The errors that the streams and the multiplexer hand to their users.
use vstd::prelude::*;

verus! {

/// What kind of failure an error reports.
#[derive(Eq, PartialEq, Structural, Debug, Clone, Copy)]
pub enum ErrorKind {
    /// The peer sent something the protocol does not allow here.
    InvalidData,
    /// The operation cannot go on without blocking.
    WouldBlock,
    /// Anything else.
    Other,
}

/// An error: its kind and its description.
#[derive(Debug)]
pub struct Error {
    pub kind: ErrorKind,
    pub message: String,
}

/// The error for a failure that carries no information of its own.
pub fn unknown(_cause: ()) -> (e: Error)
    ensures
        e.kind == ErrorKind::Other,
        e.message@ == "Unknown error"@,
{
    Error { kind: ErrorKind::Other, message: "Unknown error".to_owned() }
}

/// The error of kind `Other` that describes a failure of some other part,
/// with that part's own description.
pub fn other(description: String) -> (e: Error)
    ensures
        e.kind == ErrorKind::Other,
        e.message@ == description@,
{
    Error { kind: ErrorKind::Other, message: description }
}

} // verus!
