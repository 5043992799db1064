//! Indexed, random-access reading of files stored inside a sequential
//! tar-formatted byte stream.
//!
//! A [`Tardex`](index::Tardex) is built by one pass over the archive: the
//! tar-format collaborator yields a stream of entry descriptors, regular
//! files are kept, and each becomes an [`Entry`](entry::Entry) — a bounded,
//! independently seekable reader over the file's byte range. Lookups are by
//! archive path; enumeration is in strict lexical path order.

pub mod entry;
pub mod error;
pub mod index;
pub mod meta;
pub mod order;
pub mod scan;
pub mod storage;

pub use entry::Entry;
pub use error::TardexError;
pub use index::Tardex;
pub use meta::Metadata;
pub use scan::TarRecord;
pub use storage::Storage;
