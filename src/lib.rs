//! Verified core of a family of cluster nodes: the request replies of the
//! node protocol, cluster membership, a gossiped grow-only set and the
//! engine that disseminates it (full state, or retry until acknowledged), a
//! grow-only counter, a partitioned append log with poll and commit, and the
//! compare-and-swap offset allocator that lets several nodes share one log.

pub mod broadcast;
pub mod cluster;
pub mod counter;
pub mod engine;
pub mod log;
pub mod outbox;
pub mod protocol;
pub mod shared_log;

pub use protocol::{Body, Message};
