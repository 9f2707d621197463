//! Build-dependency churn analysis: given a build dependency graph and a
//! per-file commit history, compute how many distinct commits force each
//! target to rebuild, how far the effect spreads, and which immediate
//! dependencies of a target would save the most rebuild triggers if removed.

pub mod analyzer;
pub mod bazel;
pub mod chars;
pub mod collections;
pub mod errors;
pub mod git;
pub mod laws;
pub mod most_unique_triggers;
pub mod reach;
pub mod trigger_scores;
