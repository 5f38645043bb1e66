//! Storage core for a multi-device synchronization server.
//!
//! Clients push append-only streams of encrypted records, partitioned by
//! (host, tag); other devices pull the deltas they are missing. This crate
//! holds the verified core: the record store semantics (idempotent batch
//! ingest, cursor-based range reads, authoritative status aggregation), the
//! derived per-stream index cache with its monotonicity invariant, and the
//! small decision functions that a storage engine needs around its queries.

pub mod engine;
pub mod error;
pub mod laws;
pub mod model;
pub mod record;
pub mod settings;
pub mod status;
pub mod store;
pub mod token;
