//! Entries of the replicated log.
use vstd::prelude::*;

verus! {

/// A command in the replicated log.
#[derive(Clone, Debug, PartialEq, Eq)]
pub struct LogEntry {
    pub index: u64,
    pub term: u64,
    pub command: Vec<u8>,
}

} // verus!
