//! Reverse-mode automatic differentiation over scalar nodes held in an arena.
//!
//! Nodes are addressed by their index in a [`value::Graph`]; operands always
//! have smaller indices than the node built from them, so the graph is acyclic
//! by construction. Numbers are stored as IEEE 754 single-precision bit
//! patterns: the library decides structure, ordering and derivative rules,
//! while the caller performs the floating-point arithmetic.

pub mod value;
pub mod backward;
pub mod graph;
