//! Verified core of an access-log ingestion pipeline.
//!
//! Raw proxy log lines are parsed into structured access records
//! (`read_logs`), batches of records are persisted with insert-or-ignore
//! semantics into an in-memory relation (`store`), and read-side
//! aggregates (top destination domains, per-day counts) are computed
//! from that relation.  The queue transport, the HTTP layer and the
//! on-disk database live outside this crate; they exchange plain
//! strings and records with the functions here.

pub mod model;
pub mod scan;
pub mod read_logs;
pub mod dates;
pub mod store;
pub mod ingest;
