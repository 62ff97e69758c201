//! Verified core of an event-driven semantic-indexing pipeline.
//!
//! A document moves through three stages: an ingestion endpoint assigns it a
//! 128-bit identifier and publishes a "received" event; an embedding worker
//! turns the content into a fixed-length vector and publishes a "vectorized"
//! event under the same identifier; an indexing worker upserts the vector into
//! a point store keyed by a lossless encoding of the identifier. This crate
//! holds the event contracts, the wire codec, and each stage's per-message
//! decision logic, with proofs that the identifier survives every hop intact.

pub mod codec;
pub mod embedding;
pub mod events;
pub mod ident;
pub mod indexing;
pub mod ingestion;
pub mod numtok;
pub mod text;
