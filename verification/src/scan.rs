//! The archive-format collaborator: one sequential scan of the byte store
//! that yields an entry descriptor per archive record.
//!
//! The tar record grammar itself is not re-implemented here; the scan is
//! delegated to the `tar` crate behind one trusted boundary, and everything
//! downstream works on the plain descriptors it hands back.

use vstd::prelude::*;
use crate::error::TardexError;
use crate::storage::Storage;

verus! {

/// The type-flag byte of a regular file in a tar header (ASCII `'0'`).
/// Records whose flag differs (directories, links, specials) contribute no
/// index entry.
pub const REGULAR_TYPE: u8 = 48;

/// The mathematical content of one entry descriptor: the normalized path,
/// the raw type-flag byte, the absolute offset of the record's data within
/// the stream, and the header-declared size and modification time (absent
/// where the numeric field was malformed).
#[verifier::ext_equal]
pub ghost struct RecordModel {
    pub path: Seq<char>,
    pub type_byte: u8,
    pub offset: u64,
    pub size: Option<u64>,
    pub mtime: Option<u64>,
}

/// One entry descriptor as the scan hands it back.
pub struct TarRecord {
    pub path: String,
    pub type_byte: u8,
    pub offset: u64,
    pub size: Option<u64>,
    pub mtime: Option<u64>,
}

impl View for TarRecord {
    type V = RecordModel;

    open spec fn view(&self) -> RecordModel {
        RecordModel {
            path: self.path@,
            type_byte: self.type_byte,
            offset: self.offset,
            size: self.size,
            mtime: self.mtime,
        }
    }
}

/// The descriptor models of a descriptor vector, in the same order.
pub open spec fn models(recs: Seq<TarRecord>) -> Seq<RecordModel> {
    recs.map_values(|t: TarRecord| t@)
}

/// The descriptor stream that a well-formed scan of an archive image
/// yields, or `None` where the walk aborts on a malformed record. The
/// stream is a function of the archive bytes alone.
pub uninterp spec fn tar_scan(bytes: Seq<u8>) -> Option<Seq<RecordModel>>;

/// Walk the archive once, in stream order, and hand back one descriptor
/// per record.
///
/// Relies on `tar::Archive::entries` and the per-entry accessors
/// `tar::Entry::path`, `tar::Entry::raw_file_position`,
/// `tar::Header::entry_type` (with `tar::EntryType::as_byte`),
/// `tar::Header::size` and `tar::Header::mtime`: the walk reads the
/// 512-byte headers sequentially, so its outcome depends on the archive
/// bytes alone, which `tar_scan` names; a read failure or a header that
/// cannot be decoded aborts the walk with an error.
#[verifier::external_body]
pub(crate) fn scan_archive(store: &Storage) -> (r: Result<Vec<TarRecord>, TardexError>)
    ensures
        match r {
            Ok(recs) => tar_scan(store@) == Some(models(recs@)),
            Err(_) => tar_scan(store@) is None,
        },
{
    let mut archive = tar::Archive::new(std::io::Cursor::new(store.raw().as_slice()));
    let err = |e: std::io::Error| TardexError::IoError(e.to_string());
    let mut out: Vec<TarRecord> = Vec::new();
    for entry in archive.entries().map_err(err)? {
        let entry = entry.map_err(err)?;
        let path = entry.path().map_err(err)?;
        out.push(TarRecord {
            path: path.to_string_lossy().into_owned(),
            type_byte: entry.header().entry_type().as_byte(),
            offset: entry.raw_file_position(),
            size: entry.header().size().ok(),
            mtime: entry.header().mtime().ok(),
        });
    }
    Ok(out)
}

} // verus!
