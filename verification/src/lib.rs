//! An in-memory undirected weighted graph backed by a dense, row-major
//! adjacency matrix.
//!
//! Vertices are identified by dense zero-based indices and each carries one
//! `u64` value. Edge weights are `usize` entries of a flat square matrix; a
//! zero entry means "no edge", any positive entry is the weight of an edge.
//!
//! Bounds policy: construction is validated and returns a `Result`; every
//! other operation that takes a vertex index demands a valid one in its
//! `requires` clause, so a verified caller can never fault. The one
//! exception, kept on purpose, is `Graph::get_vertex_value`, which checks its
//! index at run time and answers `None` out of range.

pub mod graph;
pub mod model;

pub use graph::EdgeCost;
pub use graph::Graph;
pub use graph::GraphError;
pub use graph::VertexIndex;
