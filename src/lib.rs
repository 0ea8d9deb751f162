//! Cluster-aware routing for a key/value store speaking a Redis-like
//! protocol: hash slots, routing keys, the slot table, node registry
//! decisions, pool lifecycle, and an in-memory protocol simulator.
pub mod slot;
pub mod words;
pub mod command;
pub mod reply;
pub mod error;
pub mod assoc;
pub mod shards;
pub mod router;
pub mod mock;
pub mod pool;
