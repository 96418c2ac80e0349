//! Runtime core of a grammar-driven, branching parse automaton built on
//! persistent sequences.

pub mod chain;
pub mod discard;
pub mod list;
pub mod parse_machine;
