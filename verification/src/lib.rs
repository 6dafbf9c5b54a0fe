//! Intermediate-representation core for a compiler: a per-function graph of
//! basic blocks joined by control-flow edges, carrying SSA values, phi nodes,
//! and deduplicated computed operations.

pub mod assoc;
pub mod function;
pub mod nif;
pub mod pattern;
pub mod process;
pub mod term;
pub mod trace;
