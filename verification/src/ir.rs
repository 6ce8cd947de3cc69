//! The HLO intermediate representation and the analyses over it.

pub mod error;
pub mod text;
pub mod strmap;
pub mod split;
pub mod hlo_ast;
pub mod derive;
pub mod graph;
pub mod graph_build;
pub mod graph_laws;
pub mod propagate;
pub mod prune;
pub mod conductor;
pub mod ungraph;
