//! Pruning of the parameter search.

pub mod param_priority;
