//! An append-only, segmented log store.
//!
//! Clients append opaque records (base64 text) and replay them by a global
//! byte offset, the "shard iterator". The log is kept as an ordered list of
//! segments; each segment holds a contiguous slice of the log as
//! newline-delimited lines. A single writer appends to the tail segment and
//! rolls over to a fresh segment once the tail grows past a size threshold;
//! readers scan records starting at any offset, crossing segment boundaries,
//! and never read past the published safe boundary.
//!
//! The modules, bottom up:
//! - [`framing`]: the byte-level model of a log: newline-framed lines and the
//!   records they carry.
//! - [`record`]: the record payload type and its validation.
//! - [`segname`]: decimal segment file names and their parsing.
//! - [`catalog`]: the segment catalog, mapping global offsets to segments.
//! - [`store`]: the in-memory image of the segment files and its arithmetic.
//! - [`writer`]: the append engine with the rollover policy.
//! - [`reader`]: the offset-addressed scan reader.
//! - [`controller`]: the stream controller tying the parts together.

use vstd::prelude::*;

pub mod catalog;
pub mod controller;
pub mod framing;
pub mod reader;
pub mod record;
pub mod segname;
pub mod store;
pub mod writer;

verus! {

/// The error taxonomy of the store.
#[derive(Debug, Clone, Copy, PartialEq, Eq, Structural)]
pub enum CoreError {
    /// The payload failed UTF-8 or base64 validation; nothing was mutated.
    InvalidRecord,
    /// A filesystem operation failed; surfaced to the caller unchanged.
    Io,
    /// The segment directory holds no segment at all.
    NotInitialized,
    /// A file in the segment directory does not carry a decimal segment name,
    /// or the segment contents do not line up into a contiguous log.
    CorruptCatalog,
    /// The mount path exists and is not a directory.
    PathConflict,
}

/// A plain-text reply sent back to a client by a protocol adapter.
#[derive(Debug)]
pub struct Response(pub String);

} // verus!
