//! Generic algorithmic data structures for range-query and connectivity
//! problems: a point-update range-fold segment tree, an immutable range-fold
//! sparse table, and a weighted disjoint-set structure with potential
//! propagation, together with a binary-search helper, string algorithms and a
//! small graph toolkit.

pub mod algebra;
pub mod data_structure;
pub mod general;
pub mod graph;
pub mod prelude;
pub mod string;
