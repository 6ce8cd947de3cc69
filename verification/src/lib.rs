//! Hybrid parallelism planning for deep-learning models: an HLO
//! intermediate representation with split derivation and constraint
//! propagation, plus the integer parts of the pipeline planner.
#![allow(non_snake_case)]

pub mod input;
pub mod ir;
pub mod orchestration;
pub mod parallelism;
