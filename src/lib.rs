//! Ranked-choice contest analysis: normalization of raw ballots, instant-runoff tabulation
//! with round-by-round transfers, and the contest report (pairwise preferences, Smith set,
//! Condorcet winner, transfer tables, ranking distribution).
use vstd::prelude::*;

pub mod formats;
pub mod model;
pub mod normalizer;
pub mod report;
pub mod seqs;
pub mod tabulator;

verus! {

} // verus!
