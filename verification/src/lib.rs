//! An in-memory key/value store distributed across a set of in-process nodes
//! arranged on a consistent-hash ring, with configurable replication and
//! per-key time-to-live.
//!
//! The cluster is a sequential engine: every operation takes the current time
//! as an explicit millisecond count, and the background work of the system
//! (draining replica mailboxes, eagerly expiring entries) is exposed as step
//! functions that a host runtime calls on its own cadence.

pub mod api;
pub mod cluster;
pub mod hash;
pub mod laws;
pub mod node;
pub mod ring;
pub mod store;
pub mod ttl_queue;

pub use api::ApiResponse;
pub use api::GetResponse;
pub use api::SetRequest;
pub use cluster::KVCluster;
pub use cluster::KVError;
pub use node::KVNode;
pub use node::KVOperation;
pub use node::MAILBOX_CAPACITY;
