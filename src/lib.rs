//! An in-memory undirected graph with caller-chosen vertex payloads and edge
//! weights, addressed through owner-tagged vertex handles.
pub mod bulk;
pub mod connectivity;
pub mod graph;
mod identity;

pub use graph::{eIter, Graph, GraphError, VIter, VRef, Vertex};
