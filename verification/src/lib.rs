//! Classic data-structure exercises, verified: a dense adjacency-matrix graph
//! with a storage-agnostic breadth-first traversal, stack variants with a
//! bracket-matching application, a two-sum lookup, and a square-matrix
//! rotation.

pub mod bfs;
pub mod graph;
pub mod list;
pub mod reach;
pub mod stack;
pub mod utils;
