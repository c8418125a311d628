//! The one error that a filesystem primitive can report.

use vstd::prelude::*;

verus! {

/// Why a filesystem primitive failed.
#[derive(Clone, Copy, Debug, PartialEq, Eq, Structural)]
pub enum IoErrorKind {
    /// The target, or a directory leading to it, does not exist.
    NotFound,
    /// The host refused access to the target.
    PermissionDenied,
    /// The target exists and the primitive needed it to be absent.
    AlreadyExists,
    /// Any other cause.
    Other,
}

/// A failed filesystem primitive, with its cause.
#[derive(Clone, Copy, Debug, PartialEq, Eq, Structural)]
pub struct IoError {
    pub kind: IoErrorKind,
}

impl IoError {
    /// An error with the given cause.
    pub fn new(kind: IoErrorKind) -> (e: IoError)
        ensures
            e.kind == kind,
    {
        IoError { kind }
    }

    /// The cause of this error.
    pub fn kind(&self) -> (k: IoErrorKind)
        ensures
            k == self.kind,
    {
        self.kind
    }
}

} // verus!
