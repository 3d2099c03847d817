//! The command line client.
use vstd::prelude::*;

pub mod cli;

verus! {

} // verus!
