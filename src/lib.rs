//! Single-pair shortest distances in weighted undirected graphs.
pub mod graph;
pub mod laws;
pub mod load;
pub mod search;
