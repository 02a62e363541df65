//! Control-flow graph construction for functions of a linear instruction stream.
//!
//! `program` holds the instruction model; `cfg` partitions a function's
//! instructions into basic blocks, names each block, and computes the
//! successor edges between blocks; `laws` states and proves what holds of
//! every graph built this way.

pub mod program;
pub mod cfg;
pub mod laws;
