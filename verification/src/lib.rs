//! A single-node, disk-backed key-value store with a log-structured storage
//! model: every mutation is appended to a log as an immutable record, an
//! in-memory index maps each live key to the location of its latest record,
//! and compaction periodically rewrites the log to drop superseded records.
//!
//! The library works on the log as a byte buffer; the surrounding binary owns
//! the file handles and keeps the buffer and the data file in step.

use vstd::prelude::*;

pub mod codec;
pub mod index;
pub mod protocol;
pub mod store;

verus! {

/// The error taxonomy of the store.
#[derive(Debug, Clone, Copy, PartialEq, Eq, Structural)]
pub enum KvError {
    /// A disk or filesystem failure, reported by the surrounding binary.
    IoError,
    /// A record failed to decode during replay or lookup.
    CorruptRecord,
    /// An index entry resolved to a record that is not a live value.
    CorruptState,
    /// A removal was asked of a key that is not present.
    KeyNotFound,
}

} // verus!
