//! The types of a replicated log.
use vstd::prelude::*;

pub mod log;
pub mod node;
pub mod rpc;

verus! {

} // verus!
