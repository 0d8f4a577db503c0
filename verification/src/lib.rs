//! A maze/route-finding kernel: an undirected weighted graph of labeled
//! locations, some marked as exits, with exhaustive enumeration of every
//! simple (cycle-free) path from a chosen start vertex to any exit.

pub mod error;
pub mod graph;
pub mod algo;
pub mod import;
