//! Graph representations better suited to solving than the exchanged one.

pub mod abscissa_graph;
