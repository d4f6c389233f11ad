//! What is asked of a scan, and what it prints.
use vstd::prelude::*;

pub mod human;
pub mod json;
pub mod ncdu;
pub mod numbers;
pub mod options;
pub mod ranking;
pub mod shown;

verus! {

} // verus!
