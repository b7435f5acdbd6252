//! Dump and restore tooling for a lease-aware, networked key-value
//! coordination store.
//!
//! A dump pulls every remote entry (optionally scoped to a key prefix),
//! keeps an entry only if the operator asked for all of them or the entry
//! carries no lease, and lands the survivors in a durable, ordered local
//! snapshot as one atomic batch.  A restore replays a snapshot back into
//! the remote store, one permanent write per key, aborting on the first
//! failed write.  Print and read render either side as text.
//!
//! The remote client and the process entry point live outside this crate;
//! they hand the engine plain entry lists and take plain results back.

pub mod bytes;
pub mod engine;
pub mod entry;
pub mod errors;
pub mod laws;
pub mod policy;
pub mod remote;
pub mod render;
pub mod snapshot;
pub mod writes;
