//! Constraint propagation over the derivations of a module: which
//! dimensions each variable may be split along once some variables are
//! fixed.

pub mod context;
pub mod bfs;
pub mod enumerate;
pub mod laws;
pub mod fusion;
pub mod vargraph;
pub mod visit_laws;
