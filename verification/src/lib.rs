//! A key-value store built as a log-structured merge tree.
//!
//! Writes go to a checksummed log and to a sorted in-memory table; the table is
//! flushed to immutable sorted files, and compaction folds those files into one.
//! Everything here computes on plain values: what has to be read or written is
//! handed out as an action, and what came of it is handed back.
use vstd::prelude::*;

pub mod bytes;
pub mod client;
pub mod raft;
pub mod server;
pub mod storage;
pub mod text;

pub use storage::{StorageConfig, StorageEngine, StorageError};

verus! {

} // verus!
