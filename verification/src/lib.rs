//! An in-memory directed graph with `u32` node identifiers and generic edge
//! payloads, together with a line-oriented text encoding of the whole graph.
//!
//! The graph keeps an adjacency list per node.  Mutations follow the strict
//! policy: inserting a duplicate node, relating nodes that do not exist, or
//! inserting a duplicate relation is reported through [`graph::GraphError`]
//! rather than carried out.  Deletions are idempotent and never fail.

pub mod bfs;
pub mod graph;
pub mod num;
pub mod ser;
pub mod text;
pub mod value;
