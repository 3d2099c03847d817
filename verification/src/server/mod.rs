//! What the server answers.
use vstd::prelude::*;

pub mod dashboard;
pub mod grpc;

verus! {

} // verus!
