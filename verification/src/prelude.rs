//! Convenient re-exports of the most used items.

pub use crate::data_structure::segment_tree::SegmentTree;
pub use crate::data_structure::sparse_table::SparseTable;
pub use crate::data_structure::union_find::UnionFind;
pub use crate::graph::adjacency_list::AdjListGraph;
pub use crate::graph::edge_impl;
pub use crate::graph::shortest_path;
pub use crate::graph::Edge;
pub use crate::graph::Graph;
pub use crate::graph::WeightedEdge;
