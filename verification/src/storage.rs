//! The underlying byte store that an archive is read from.

use vstd::prelude::*;
use std::sync::Arc;

verus! {

/// A handle on the archive's underlying byte store.
///
/// Handles are cheap to duplicate, every duplicate sees the same bytes, and
/// each reader keeps its own cursor state, so duplicates never disturb one
/// another. The index and every entry hold their own duplicate.
pub struct Storage {
    bytes: Arc<Vec<u8>>,
}

impl View for Storage {
    type V = Seq<u8>;

    closed spec fn view(&self) -> Seq<u8> {
        self.bytes@
    }
}

impl Storage {
    /// Wrap a fully materialized archive image.
    pub fn new(bytes: Vec<u8>) -> (s: Storage)
        ensures
            s@ == bytes@,
    {
        Storage { bytes: Arc::new(bytes) }
    }

    /// Duplicate the handle; the duplicate holds exactly the same bytes.
    pub fn dup(&self) -> (r: Storage)
        ensures
            r@ == self@,
    {
        Storage { bytes: self.bytes.clone() }
    }

    /// Number of bytes in the store.
    pub fn len(&self) -> (n: usize)
        ensures
            n == self@.len(),
    {
        self.bytes.len()
    }

    /// Borrow the stored bytes.
    pub(crate) fn raw(&self) -> (r: &Vec<u8>)
        ensures
            r@ == self@,
    {
        &self.bytes
    }

    /// The byte at position `i`.
    pub fn byte_at(&self, i: usize) -> (b: u8)
        requires
            i < self@.len(),
        ensures
            b == self@[i as int],
    {
        self.bytes[i]
    }
}

} // verus!
