//! Parallelism strategies: the integer sizing of gradient accumulation.

pub mod gradient_accumulation;
