//! One-sided crossing minimization for two-layer bipartite graphs.
//!
//! The top layer and the bottom layer of a graph are drawn on two parallel
//! lines. This crate counts the edge crossings of such a drawing and reorders
//! the nodes with the median and barycenter heuristics to reduce them. Node
//! coordinates are exact rational numbers, so every ordering decision is
//! reproducible and every function carries a machine-checked contract.

pub mod abscissa;
pub mod sort_key;
pub mod ranking;
pub mod algo_utils;
pub mod graph_base;
pub mod bipartite_graph;
pub mod graphs;
pub mod crossings;
pub mod algorithms;
pub mod decimal;
pub mod parser;
pub mod run_output;
