//! hokori: the decisions of a parallel disk usage scanner, verified.
//!
//! The crate turns raw directory listings into entries, decides what a walk
//! does next, adds up what a scan has seen and prepares the reports. System
//! calls, threads and printing live outside of it: they hand plain values in
//! and take plain values back.
use vstd::prelude::*;

pub mod bytes;
pub mod paths;
pub mod report;
pub mod scan;
pub mod seqs;
pub mod sys;
pub mod text;
pub mod walk;

verus! {

} // verus!
