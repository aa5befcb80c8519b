//! A stochastic binary branching process: tree generation, measurement,
//! per-generation structural encoding, drawing and sample statistics.

pub mod tree;
pub mod encode;
pub mod generate;
pub mod stats;
pub mod render;
