//! The error values the library surfaces to its callers.

use vstd::prelude::*;

verus! {

/// What went wrong.
#[derive(Debug, Copy, Clone, PartialEq, Eq, Structural)]
pub enum ErrorKind {
    /// The syntax of the expression is invalid.
    InvalidExpression,
    /// The expression is too long.
    LimitExceeded,
    /// The requested rewrite law is not implemented.
    UnsupportedOperation,
    /// Unexpected error.
    Unexpected,
}

/// An error with a human-readable message; for a parse failure the message
/// holds the offending remaining input.
#[derive(Debug)]
pub struct Error {
    pub message: String,
    pub kind: ErrorKind,
}

impl Error {
    pub fn new(message: String, kind: ErrorKind) -> (r: Error)
        ensures
            r.message@ == message@,
            r.kind == kind,
    {
        Error { message, kind }
    }
}

} // verus!
