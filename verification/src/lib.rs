//! An in-memory approximate nearest-neighbour index over fixed-dimensional
//! vectors, built as a multi-layer proximity graph.
pub mod distance;
pub mod hnsw;
pub mod laws;
pub mod level;
pub mod list;
pub mod node;
pub mod rand;
pub mod store;
