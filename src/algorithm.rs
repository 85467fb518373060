pub mod adjacency;
pub mod completeness;
pub mod state;
pub mod topsort;
pub mod isomorphism;
