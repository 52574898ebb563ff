//! Graph topologies and the metrics used to compare them.
//!
//! A graph on `n` nodes is held as a dense `n × n` adjacency matrix of
//! booleans: `adj[i][j]` is `true` exactly when there is an edge from `i`
//! to `j`.
pub mod graph;
pub mod metric_laws;
pub mod metrics;
pub mod names;
pub mod random;
pub mod rewiring;
pub mod shapes;
pub mod topology;

pub use graph::count_edges;
pub use metrics::{
    bfs_distances, local_clustering_coefficient, neighbors, path_metrics, Fraction, PathLength,
};
pub use names::parse_topology;
pub use topology::{generate, random_graph_from_draws, small_world_from_draws, Topology};
