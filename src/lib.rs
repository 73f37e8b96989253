//! Topological ordering of a directed graph by depth-first search.
//!
//! Vertices are the integers `0..n`; a graph maps a vertex to the ordered
//! list of its successors. The order produced is the reverse of the order
//! in which a depth-first traversal finishes the vertices.

pub mod graph;
pub mod traversal;
pub mod properties;
pub mod sort;

pub use sort::{dfs, topological_sort};
