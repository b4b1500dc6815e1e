//! The failure taxonomy shared by every fallible operation of the client.
//!
//! There is no exception-like control flow: a fallible operation returns
//! `Result<_, GedsError>` and the caller inspects it.  The kind classifies
//! the failure; the message is human-readable context.

use vstd::prelude::*;

verus! {

/// Why an operation failed.
///
/// `Unavailable` is reserved for a metadata service or backing store that
/// cannot be reached, and `PartialFailure` for a bulk operation whose backing
/// collaborator fails partway through; the in-memory metadata model kept by
/// [`crate::client::GEDS`] never produces either, since it validates a bulk
/// operation before applying any of its single-key steps.
#[derive(Clone, Copy, Debug, PartialEq, Eq, Structural)]
pub enum GedsErrorKind {
    /// The bucket or key does not exist.
    NotFound,
    /// A create without `overwrite` hit an existing key, or a rename or copy
    /// would land on an existing key.
    AlreadyExists,
    /// The operation is not valid in the current lifecycle state, such as a
    /// write after seal or any call outside the started window.
    InvalidState,
    /// A position or length lies beyond the object size or the addressable
    /// range.
    OutOfRange,
    /// The cache budget is exceeded and no eviction or flush can free enough
    /// space.
    ResourceExhausted,
    /// The metadata service or the backing store cannot be reached.
    Unavailable,
    /// A bulk prefix operation stopped partway; completed steps stay applied.
    PartialFailure,
}

/// A structured failure: a kind plus a human-readable message.
#[derive(Debug)]
pub struct GedsError {
    pub kind: GedsErrorKind,
    pub message: String,
}

impl GedsError {
    /// Build an error of the given kind.
    pub fn new(kind: GedsErrorKind, message: String) -> (r: GedsError)
        ensures
            r.kind == kind,
            r.message@ == message@,
    {
        GedsError { kind, message }
    }

    /// The failure kind, for callers that dispatch on it.
    pub fn kind(&self) -> (r: GedsErrorKind)
        ensures
            r == self.kind,
    {
        self.kind
    }

    /// The human-readable message.
    pub fn message(&self) -> (r: &str)
        ensures
            r@ == self.message@,
    {
        self.message.as_str()
    }
}

} // verus!
