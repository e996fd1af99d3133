//! A byte-keyed store held in memory, mirrored to a durable collection by
//! whole snapshots.

pub mod batch;
pub mod bytes;
pub mod cold;
pub mod hot_store;
pub mod laws;
pub mod mirror;
