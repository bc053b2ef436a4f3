//! Input/output failures, as plain values.

use vstd::prelude::*;

verus! {

/// The nature of an input/output failure.
#[derive(Debug, Clone, Copy, PartialEq, Eq, Structural)]
pub enum IoErrorKind {
    /// The stream ended before what was announced.
    UnexpectedEof,
    /// The data cannot be decoded.
    InvalidInput,
    /// The result would be larger than what is allowed.
    OutOfMemory,
    /// Anything else.
    Other,
}

/// An input/output failure: its nature, and what to tell the user.
#[derive(Debug, Clone)]
pub struct IoError {
    pub kind: IoErrorKind,
    pub message: String,
}

impl IoError {
    pub fn new(kind: IoErrorKind, message: &str) -> (error: Self)
        ensures
            error.kind == kind,
            error.message@ == message@,
    {
        IoError { kind, message: message.to_string() }
    }
}

} // verus!
