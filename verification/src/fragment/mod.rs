//! RECAP fragmentation: the graph of fragments that bond-cleaving reaction
//! rules derive from a molecule.
//!
//! [`recap_decompose`] starts a decomposition, which asks the caller for the
//! chemistry it needs and ends in a [`RecapResult`], whose leaves are the
//! fragments that were cleaved no further.

pub mod decompose;
pub mod engine;
pub mod filter;
pub mod graph;
pub mod laws;
pub mod leaves;
pub mod order;
pub mod rules;
pub mod run;

pub use decompose::{recap_decompose, Decomposition, Request};
pub use leaves::RecapResult;
