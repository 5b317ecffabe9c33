//! An embeddable, persistent, ordered key-value store organized as a
//! log-structured merge tree.
//!
//! Writes go to an in-memory ordered buffer (the memtable); when the buffer
//! exceeds its byte budget it is flushed as an immutable sorted string table
//! (SST) appended to an ordered catalog.  Reads consult the memtable first
//! and then the catalog from newest to oldest.  Compaction merges adjacent
//! SSTs pairwise, newer entries winning over older ones.
//!
//! Deletions are recorded as a tombstone: the fixed sentinel value
//! `~tombstone~` stored in place of a user value.
//!
//! The engine itself works on in-memory values; reading and writing the SST
//! file images, and scanning a directory for them on restart, is left to the
//! embedding program.

use vstd::prelude::*;

pub mod codec;
pub mod compact;
pub mod order;
pub mod recs;
pub mod sstable;
pub mod store;

verus! {

/// The failures the engine distinguishes.
#[derive(Clone, Copy, Debug, PartialEq, Eq, Structural)]
pub enum RkvError {
    /// A file image is truncated, overrun by a length field, or otherwise
    /// not a well-formed SST.
    Corrupt,
    /// A single key-value pair is larger than the memtable byte budget.
    PairLargerThanBudget,
}

} // verus!
