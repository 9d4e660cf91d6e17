//! General-purpose helpers: binary search over partitioned ranges.

pub mod binary_search;
