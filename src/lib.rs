//! A directed graph of identified values, with a line-oriented text format
//! and a cycle-safe depth-first traversal.

pub mod decimal;
pub mod text;
pub mod codec;
pub mod graph;
pub mod traverse;
pub mod round_trip;
