pub mod algorithm;
pub mod graph;
