//! Connectivity metrics over an undirected graph of social connections:
//! hop distances from a node, shortest paths between two nodes, and the
//! mean and median of all pairwise hop distances.

pub mod bfs;
pub mod edge_list;
pub mod graph;
pub mod laws;
pub mod path;
pub mod stats;
