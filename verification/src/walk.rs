//! Walking a directory tree: configuration, entries, errors and the decisions
//! of the workers.
use vstd::prelude::*;

pub mod config;
pub mod decisions;
pub mod entry;
pub mod error;
pub mod reach;
pub mod search;
pub mod steps;
pub mod walker;
pub mod whole;
pub mod worker;

verus! {

} // verus!
