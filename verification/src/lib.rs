//! A verified core for a broadcast-catalog index.
//!
//! The library ingests a framed JSON stream of show records, packs the
//! variable-length string fields into compressed blobs, and maintains a
//! relational index with a full-text title table.  The ingestion logic,
//! the framing parser, and the read paths are verified; calls into the
//! SQL engine, the compression codec, and the JSON decoder go through
//! trusted items whose contracts state what those crates document.

pub mod compressor;
pub mod database;
pub mod item;
pub mod laws;
pub mod parser;
pub mod queries;
pub mod store;
pub mod text;

use vstd::prelude::*;

verus! {

/// The failure modes of parsing, ingestion and the read paths.
#[derive(Debug, Clone, PartialEq, Eq)]
pub enum Error {
    MalformedHeader,
    MalformedItem,
    MalformedLastItem,
    UnexpectedEnd,
    BadDate,
    BadTime,
    BadUrlSuffix,
    JsonError,
    IoError,
    HttpError,
    SqlError,
    CompressError,
    DecompressError,
    MissingBlob(i64),
    EmbeddedNul,
    UnknownFrameSize,
}

} // verus!
