//! Classic graph algorithms on in-memory directed graphs: shortest paths,
//! maximum flow and topological ordering, each with a proved contract.

pub mod max_flow;
pub mod shpaths;
pub mod sort;

pub use max_flow::{augment, bfs, edmonds_karp};
pub use shpaths::Graph;
pub use sort::topological_sort;
