//! The error taxonomy: every fault while building an index is an I/O fault.

use vstd::prelude::*;

verus! {

/// The single error kind of this library.
///
/// Every failure mode while scanning the archive — a transport failure, a
/// seek past the end of the store, or a malformed header field — is equally
/// fatal, so one kind carries them all, with a human-readable description.
/// A lookup miss is not an error; it is an absent result.
#[derive(Debug)]
pub enum TardexError {
    IoError(String),
}

impl TardexError {
    /// A human-readable description of the fault.
    pub fn message(&self) -> (m: &String) {
        match self {
            TardexError::IoError(m) => m,
        }
    }
}

} // verus!
