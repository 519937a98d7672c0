//! An undirected graph over string-identified nodes, built from
//! comma-separated records, with its degree distribution, its two-hop
//! neighbour counts, and what a power-law fit of the distribution is
//! computed from.

pub mod model;
pub mod counting;
pub mod histogram;
pub mod graph;
pub mod ingest;
pub mod power_law;

pub use graph::Graph;
