//! Immutable per-entry facts captured from the archive's header.

use vstd::prelude::*;
use crate::error::TardexError;
use crate::scan::TarRecord;

verus! {

/// The header-declared facts of one archived file: size in bytes and last
/// modification time in seconds since the epoch. Captured once when the
/// index is built; never recomputed.
#[derive(Clone, Copy, Debug, PartialEq, Eq, Structural)]
pub struct Metadata {
    mtime: u64,
    len: u64,
}

impl Metadata {
    /// The declared modification time, in seconds since the epoch.
    pub closed spec fn spec_mtime(&self) -> u64 {
        self.mtime
    }

    /// The declared size in bytes.
    pub closed spec fn spec_len(&self) -> u64 {
        self.len
    }

    /// Capture the declared size and modification time of one descriptor.
    /// A descriptor whose numeric fields could not be decoded marks data
    /// corruption, so it is an error here, never skipped silently.
    pub fn from_header(header: &TarRecord) -> (r: Result<Metadata, TardexError>)
        ensures
            match r {
                Ok(m) => {
                    &&& header.size is Some
                    &&& header.mtime is Some
                    &&& m.spec_len() == header.size.unwrap()
                    &&& m.spec_mtime() == header.mtime.unwrap()
                },
                Err(e) => {
                    &&& header.size is None || header.mtime is None
                    &&& e matches TardexError::IoError(_)
                },
            },
    {
        let len: u64 = match header.size {
            Some(s) => s,
            None => {
                return Err(TardexError::IoError("malformed size field in header".to_owned()));
            },
        };
        let mtime: u64 = match header.mtime {
            Some(t) => t,
            None => {
                return Err(TardexError::IoError("malformed mtime field in header".to_owned()));
            },
        };
        Ok(Metadata { mtime, len })
    }

    /// The declared modification time, in seconds since the epoch.
    pub fn mtime(&self) -> (r: u64)
        ensures
            r == self.spec_mtime(),
    {
        self.mtime
    }

    /// The declared size in bytes.
    pub fn len(&self) -> (r: u64)
        ensures
            r == self.spec_len(),
    {
        self.len
    }
}

} // verus!
