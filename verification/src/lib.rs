//! An in-memory directed acyclic graph of "depends-on" relationships.
//!
//! Nodes are caller-supplied identifiers; edges record that one node
//! directly depends on another.  The graph rejects self-loops and any
//! edge that would close a cycle, answers direct and transitive
//! dependency queries, and removes a node only once nothing depends on
//! it any more.

pub mod graph;
pub mod id;
pub mod laws;
pub mod reach;

pub use graph::Error;
pub use graph::Graph;
pub use id::NodeId;
