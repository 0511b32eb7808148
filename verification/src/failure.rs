//! The errors that the library itself raises, as plain values.

use crate::text::concat;
use vstd::prelude::*;

verus! {

/// What kind of error a [`Failure`] is; the kinds are those of `std::io::ErrorKind`.
#[derive(Debug, Clone, Copy, PartialEq, Eq, Structural)]
pub enum FailureKind {
    InvalidInput,
    NotFound,
    Unsupported,
    Other,
}

/// An error with its kind and the text that the user is shown.
#[derive(Debug)]
pub struct Failure {
    pub kind: FailureKind,
    pub message: String,
}

impl Failure {
    /// Whether this is the error of kind `kind` that says `message`.
    pub open spec fn says(&self, kind: FailureKind, message: Seq<char>) -> bool {
        self.kind == kind && self.message@ == message
    }

    /// An error of kind `kind` that says `message`.
    pub fn new(kind: FailureKind, message: &str) -> (failure: Failure)
        ensures
            failure.says(kind, message@),
    {
        Failure { kind, message: message.to_owned() }
    }
}

/// The error that a backend reports, as text, becomes a [`Failure`] of no particular kind.
pub fn to_io(text: &str) -> (failure: Failure)
    ensures
        failure.says(FailureKind::Other, text@),
{
    Failure::new(FailureKind::Other, text)
}

/// The text of [`not_found`].
pub open spec fn not_found_text(path: Seq<char>) -> Seq<char> {
    "path not found in volume: "@ + path
}

/// No file or directory of the volume has this path.
pub fn not_found(path: &str) -> (failure: Failure)
    ensures
        failure.says(FailureKind::NotFound, not_found_text(path@)),
{
    Failure { kind: FailureKind::NotFound, message: concat("path not found in volume: ", path) }
}

} // verus!
