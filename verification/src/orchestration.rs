//! Orchestration of synchronous pipelines: reading a plan out of the
//! planning matrix.

pub mod orchestrate;
pub mod orchestrate_sync;
