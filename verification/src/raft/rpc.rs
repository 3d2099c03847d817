//! The messages between nodes.
use vstd::prelude::*;

verus! {

/// A candidate asks for a vote.
#[derive(Clone, Debug, PartialEq, Eq)]
pub struct RequestVoteRequest {
    pub term: u64,
    pub candidate_id: String,
    pub last_log_index: u64,
    pub last_log_term: u64,
}

/// The answer to a request for a vote.
#[derive(Clone, Copy, Debug, PartialEq, Eq, Structural)]
pub struct RequestVoteResponse {
    pub term: u64,
    pub vote_granted: bool,
}

/// A leader brings entries, or shows that it is there.
#[derive(Clone, Debug, PartialEq, Eq)]
pub struct AppendEntriesRequest {
    pub term: u64,
    pub leader_id: String,
    pub prev_log_index: u64,
    pub prev_log_term: u64,
    pub leader_commit: u64,
}

/// The answer to a leader.
#[derive(Clone, Copy, Debug, PartialEq, Eq, Structural)]
pub struct AppendEntriesResponse {
    pub term: u64,
    pub success: bool,
}

} // verus!
