//! Scanning: adding up what a walk finds.
use vstd::prelude::*;

pub mod aggregator;
pub mod config;
pub mod dedup;
pub mod laws;
pub mod names;
pub mod outcome;
pub mod places;
pub mod progress;
pub mod scanner;
pub mod tree;

verus! {

} // verus!
