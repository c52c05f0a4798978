//! Streaming quality-control statistics over four-line sequencing records.
//!
//! The library splits a byte stream into records, feeds every record to a
//! fixed set of running statistics, and reports each statistic as exact
//! ratios of integers.
use vstd::prelude::*;

pub mod record;
pub mod stats;
pub mod runner;
pub mod laws;
pub mod cli;

verus! {

} // verus!
