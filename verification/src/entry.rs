//! A bounded, independently seekable reader over one archived file.

use vstd::prelude::*;
use crate::error::TardexError;
use crate::meta::Metadata;
use crate::storage::Storage;

verus! {

/// The mathematical content of an entry: its byte range within the store,
/// the bytes of that range, and the header-declared facts.
#[verifier::ext_equal]
pub ghost struct EntryModel {
    pub start: u64,
    pub len: u64,
    pub mtime: u64,
    pub content: Seq<u8>,
}

/// One archived file: a byte range over a private duplicate of the
/// underlying storage, plus its metadata.
///
/// An entry delivers at most `metadata().len()` bytes, even where the
/// store extends further; once they are delivered, further reads yield
/// zero bytes (end of data, never an error). Entries never share cursor
/// state: every duplicate owns its own storage handle and position.
pub struct Entry {
    store: Storage,
    start: u64,
    pos: u64,
    meta: Metadata,
}

impl Entry {
    /// The bytes of the store this entry reads from.
    pub closed spec fn store_view(&self) -> Seq<u8> {
        self.store@
    }

    /// The absolute offset of the entry's data within the store.
    pub closed spec fn spec_start(&self) -> u64 {
        self.start
    }

    /// How many bytes of the range were already delivered.
    pub closed spec fn spec_pos(&self) -> u64 {
        self.pos
    }

    /// The entry's metadata.
    pub closed spec fn spec_meta(&self) -> Metadata {
        self.meta
    }

    /// Validity: the declared range lies within the store, and the cursor
    /// lies within the range.
    pub open spec fn wf(&self) -> bool {
        &&& self.spec_start() + self.spec_meta().spec_len() <= self.store_view().len()
        &&& self.spec_pos() <= self.spec_meta().spec_len()
    }

    /// The bytes of the entry's full range.
    pub open spec fn content(&self) -> Seq<u8> {
        self.store_view().subrange(
            self.spec_start() as int,
            self.spec_start() + self.spec_meta().spec_len(),
        )
    }

    /// The entry's mathematical content; the cursor is not part of it.
    pub open spec fn model(&self) -> EntryModel {
        EntryModel {
            start: self.spec_start(),
            len: self.spec_meta().spec_len(),
            mtime: self.spec_meta().spec_mtime(),
            content: self.content(),
        }
    }

    /// How many bytes are still to be delivered.
    pub open spec fn remaining(&self) -> int {
        self.spec_meta().spec_len() - self.spec_pos()
    }

    /// Bind a fresh duplicate of the storage to the byte range declared by
    /// `meta`, starting at `file_pos`. A range that reaches past the end
    /// of the store marks a truncated or corrupt archive and is an error.
    pub(crate) fn in_tarball(tarball_reader: Storage, file_pos: u64, meta: Metadata) -> (r: Result<
        Entry,
        TardexError,
    >)
        ensures
            match r {
                Ok(e) => {
                    &&& file_pos + meta.spec_len() <= tarball_reader@.len()
                    &&& e.wf()
                    &&& e.store_view() == tarball_reader@
                    &&& e.spec_start() == file_pos
                    &&& e.spec_pos() == 0
                    &&& e.spec_meta() == meta
                },
                Err(e) => {
                    &&& file_pos + meta.spec_len() > tarball_reader@.len()
                    &&& e matches TardexError::IoError(_)
                },
            },
    {
        let n: u64 = tarball_reader.len() as u64;
        if meta.len() > n || file_pos > n - meta.len() {
            return Err(TardexError::IoError("entry range reaches past the end of the archive".to_owned()));
        }
        Ok(Entry { store: tarball_reader, start: file_pos, pos: 0, meta })
    }

    /// The immutable size/mtime pair; no I/O.
    pub fn metadata(&self) -> (m: Metadata)
        ensures
            m == self.spec_meta(),
    {
        self.meta
    }

    /// Sequential bounded read: fill `buf` from the front with the next
    /// bytes of the range, and say how many were produced. Zero bytes are
    /// produced once the range is exhausted — end of data, not an error —
    /// and bytes of `buf` beyond the count are left as they were.
    pub fn read(&mut self, buf: &mut Vec<u8>) -> (n: usize)
        requires
            old(self).wf(),
        ensures
            final(self).wf(),
            final(self).model() == old(self).model(),
            n as int == vstd::math::min(old(buf)@.len() as int, old(self).remaining()),
            final(self).spec_pos() == old(self).spec_pos() + n,
            final(buf)@.len() == old(buf)@.len(),
            forall|i: int|
                0 <= i < n ==> final(buf)@[i] == old(self).content()[old(self).spec_pos() + i],
            forall|i: int| n <= i < old(buf)@.len() ==> final(buf)@[i] == old(buf)@[i],
    {
        let slen: usize = self.store.len();
        let rem: u64 = self.meta.len() - self.pos;
        let want: usize = buf.len();
        let n: usize = if (want as u64) <= rem {
            want
        } else {
            rem as usize
        };
        let base: u64 = self.start + self.pos;
        let mut i: usize = 0;
        while i < n
            invariant
                *self == *old(self),
                old(self).wf(),
                i <= n,
                n as int == vstd::math::min(old(buf)@.len() as int, old(self).remaining()),
                base == old(self).spec_start() + old(self).spec_pos(),
                buf@.len() == old(buf)@.len(),
                forall|j: int|
                    0 <= j < i ==> buf@[j] == old(self).content()[old(self).spec_pos() + j],
                forall|j: int| i <= j < buf@.len() ==> buf@[j] == old(buf)@[j],
                slen == old(self).store_view().len(),
            decreases n - i,
        {
            let idx: usize = (base + i as u64) as usize;
            let b: u8 = self.store.byte_at(idx);
            buf[i] = b;
            i = i + 1;
        }
        self.pos = self.pos + n as u64;
        n
    }

    /// Read the rest of the range to completion and hand the bytes back;
    /// afterwards the cursor stands at the end of the range.
    pub fn read_to_end(&mut self) -> (out: Vec<u8>)
        requires
            old(self).wf(),
        ensures
            final(self).wf(),
            final(self).model() == old(self).model(),
            final(self).spec_pos() == final(self).spec_meta().spec_len(),
            out@ == old(self).content().subrange(
                old(self).spec_pos() as int,
                old(self).content().len() as int,
            ),
    {
        let mut out: Vec<u8> = Vec::new();
        while self.pos < self.meta.len()
            invariant
                self.wf(),
                self.store_view() == old(self).store_view(),
                self.spec_start() == old(self).spec_start(),
                self.spec_meta() == old(self).spec_meta(),
                old(self).spec_pos() <= self.spec_pos(),
                self.spec_pos() == old(self).spec_pos() + out@.len(),
                out@ == old(self).content().subrange(
                    old(self).spec_pos() as int,
                    self.spec_pos() as int,
                ),
            decreases self.spec_meta().spec_len() - self.spec_pos(),
        {
            let slen: usize = self.store.len();
            let idx: usize = (self.start + self.pos) as usize;
            let b: u8 = self.store.byte_at(idx);
            out.push(b);
            self.pos = self.pos + 1;
            proof {
                assert(old(self).content().subrange(
                    old(self).spec_pos() as int,
                    self.spec_pos() as int,
                ) =~= old(self).content().subrange(
                    old(self).spec_pos() as int,
                    self.spec_pos() - 1,
                ).push(b));
            }
        }
        out
    }
}

/// An entry's range holds exactly `metadata().len()` bytes: reading it to
/// completion delivers that many, no read ever passes the declared end,
/// and a cursor standing at the end has nothing left to deliver.
pub proof fn lemma_entry_exhaustion(e: Entry)
    requires
        e.wf(),
    ensures
        e.content().len() == e.spec_meta().spec_len(),
        e.remaining() == e.spec_meta().spec_len() - e.spec_pos(),
        0 <= e.remaining() <= e.spec_meta().spec_len(),
        e.spec_pos() == e.spec_meta().spec_len() ==> e.remaining() == 0,
{
}

/// Entries of one model hold the same byte content: a duplicate delivers
/// the same bytes as its original, however the two cursors move
/// thereafter.
pub proof fn lemma_same_model_same_content(a: Entry, b: Entry)
    requires
        a.model() == b.model(),
    ensures
        a.content() == b.content(),
        a.spec_meta().spec_len() == b.spec_meta().spec_len(),
        a.spec_meta().spec_mtime() == b.spec_meta().spec_mtime(),
{
    assert(a.model().content == b.model().content);
    assert(a.model().len == b.model().len);
    assert(a.model().mtime == b.model().mtime);
}

impl Clone for Entry {
    /// Duplicate the entry: the duplicate owns a fresh duplicate of the
    /// storage handle and always starts reading from the beginning of the
    /// range, however much the original had already consumed. Duplication
    /// clones the *range*, not the read position, and the two cursors are
    /// independent thereafter.
    fn clone(&self) -> (r: Self)
        ensures
            r.model() == self.model(),
            r.spec_pos() == 0,
            self.wf() ==> r.wf(),
    {
        Entry { store: self.store.dup(), start: self.start, pos: 0, meta: self.meta }
    }
}

} // verus!
