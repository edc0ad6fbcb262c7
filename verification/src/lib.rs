//! Order statistics over collections of three-attribute records.
//!
//! The crate selects the k-th smallest value of one attribute of a collection
//! of [`Cluster`] records by randomized partitioning, without sorting the
//! collection, and sorts a collection ascending by any one attribute.

pub mod cluster;
pub mod order;
pub mod partition;
pub mod select;
pub mod sort;

pub use cluster::{Cluster, Delta};
pub use partition::{partition, partition_at, random_partition};
pub use select::{find_kth, SelectError};
pub use sort::{sort_by_delta, sort_by_delta0, sort_by_delta1, sort_by_delta2};
