//! Directed-graph analytics: an adjacency model built from an edge list,
//! breadth-first reachability, and degree-centrality aggregation.

pub mod centrality;
pub mod graph;
pub mod traversal;
