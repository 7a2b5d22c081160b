//! Text statistics: word, character and line counts, and a case-insensitive
//! word-frequency table with a ranked report.
use vstd::prelude::*;

pub mod options;
pub mod rank;
pub mod stats;
pub mod tally;
pub mod text;

verus! {

} // verus!
