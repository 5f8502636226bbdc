//! Analysis core of a static checker for a circuit-description language.
//!
//! The crate models component bodies as a small statement IR, partitions a
//! statement sequence into a control-flow graph of basic blocks, rewrites the
//! graph into static-single-assignment form, and runs a fixpoint dataflow
//! analysis that computes, for every variable, the set of variables it is
//! directly or transitively constrained with.

pub mod cfg;
pub mod constraint_analysis;
pub mod errors;
pub mod ir;
pub mod laws;
pub mod ssa;
pub mod var_set;
