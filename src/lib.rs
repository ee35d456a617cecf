//! Path ORAM: a client that hides which logical addresses it touches from a
//! block-storage server holding a binary tree of fixed-size buckets.
//!
//! - `geometry`: index arithmetic of the implicit-heap bucket tree.
//! - `wire`: blocks and the records exchanged with the store.
//! - `store`: the bucket store, read and overwritten whole by bucket index.
//! - `client`: the ORAM handler with its position map, stash and eviction.
pub mod client;
pub mod geometry;
pub mod store;
pub mod wire;
