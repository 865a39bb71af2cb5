//! Reconstruction of a causal graph from compiler instrumentation events,
//! and structural comparison of two such graphs.
//!
//! The crate infers hierarchy and reference edges from an event sequence,
//! collapses no-op nodes, answers structural queries (roots, children,
//! leaves), resolves literal source text for spans, and reports the ordered
//! list of divergent node pairs between two graphs.

pub mod cli;
pub mod diff;
pub mod graph;
pub mod sourcemap;
pub mod text;
pub mod trace;
