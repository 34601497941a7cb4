//! Centrality rankings over a directed citation graph: the graph store, the
//! ranking container, in-degree centrality, and the stopping rule of the
//! PageRank iteration.
pub mod centrality;
pub mod decimal;
pub mod degree_centrality;
pub mod network;
pub mod pagerank;
