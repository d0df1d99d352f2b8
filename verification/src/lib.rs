//! Line-level time profiler for bash scripts: trace parsing, attribution,
//! and the text renderings of a profile.

pub mod binary64;
pub mod cli;
pub mod collapse;
pub mod jsonout;
pub mod profile;
pub mod ps4;
pub mod report;
pub mod runner;
pub mod sorted;
pub mod tally;
pub mod trace;
pub mod text;

use vstd::prelude::*;

verus! {

/// Crate version, printed by `--version` and embedded in reports.
pub const VERSION: &'static str = "0.1.0";

} // verus!
