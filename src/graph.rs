//! Directed graphs whose nodes are known by name.
pub mod digraph;
pub mod node;

use vstd::prelude::*;

pub use digraph::DiGraph;
pub use node::DiNode;

verus! {

/// What can go wrong when a graph is read.
#[derive(Debug)]
pub enum GraphError {
    /// A name that no node of the graph carries.
    UnknownNode(String),
}

} // verus!
