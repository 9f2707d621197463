//! Errors of the analysis.
//!
//! A label referenced anywhere during a computation but absent from the
//! dependency graph is fatal: the graph is inconsistent, and the whole
//! calculation aborts with `NotFound`. A dependency chain that leads back to
//! itself violates the assumption that the graph is acyclic and aborts with
//! `CycleDetected`. `Inconsistent` stands for an internal table missing an
//! entry it must hold; the contracts of this crate prove it is never
//! returned, and the variant remains as part of the error model.

use vstd::prelude::*;

verus! {

#[derive(Debug)]
pub enum AnalysisError {
    /// The label is referenced but missing from the dependency graph.
    NotFound(String),
    /// The label transitively depends on itself.
    CycleDetected(String),
    /// An internal table lacks an entry it must hold; never produced.
    Inconsistent(String),
}

impl AnalysisError {
    /// The label the error is about.
    pub fn label(&self) -> (r: &String)
        ensures
            match self {
                AnalysisError::NotFound(l) => r == l,
                AnalysisError::CycleDetected(l) => r == l,
                AnalysisError::Inconsistent(l) => r == l,
            },
    {
        match self {
            AnalysisError::NotFound(l) => l,
            AnalysisError::CycleDetected(l) => l,
            AnalysisError::Inconsistent(l) => l,
        }
    }
}

} // verus!
