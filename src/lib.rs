//! A latency model for a quorum-replicated cluster spread over several regions.

pub mod cluster;
pub mod laws;
pub mod model;
pub mod rank;
pub mod report;

pub use cluster::{Cluster, ClusterError, Destination};
pub use model::Region;
pub use report::{all_paths, avg_paths, is_local, round_duration_ms, Path};
