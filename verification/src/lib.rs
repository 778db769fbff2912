//! Triage of domain indicators: normalization, syntax validation, suspicion
//! heuristics, allowlisting, and the CSV report built from the results.
use vstd::prelude::*;

pub mod cli;
pub mod domain;
pub mod text;
pub mod report;
pub mod validate;

verus! {

} // verus!
