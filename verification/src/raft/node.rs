//! What a node is and what it remembers.
use vstd::prelude::*;

verus! {

/// The part that a node plays.
#[derive(Clone, Copy, Debug, PartialEq, Eq, Structural)]
pub enum Role {
    Follower,
    Candidate,
    Leader,
}

/// What a node keeps over a restart.
#[derive(Clone, Debug, PartialEq, Eq)]
pub struct PersistentState {
    pub current_term: u64,
    pub voted_for: Option<String>,
}

impl Default for PersistentState {
    /// The state of a node that has seen no term and voted for nobody.
    fn default() -> (state: Self)
        ensures
            state.current_term == 0,
            state.voted_for is None,
    {
        PersistentState { current_term: 0, voted_for: None }
    }
}

} // verus!
