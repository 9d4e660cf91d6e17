//! The three core structures: point-update range-fold segment tree, immutable
//! range-fold sparse table, and weighted disjoint set with potential
//! propagation.

pub mod segment_tree;
pub mod sparse_table;
pub mod union_find;
