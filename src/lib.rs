//! Snapshot reconstruction core of an accounts database: the bounded wire
//! codec for the accounts-db record of a snapshot, the merge of a full and an
//! incremental snapshot, and the planner that assigns non-colliding storage
//! identifiers and decides which append-vec files are renamed.
pub mod types;
pub mod merge;
pub mod remap;
pub mod laws;
pub mod codec;
pub mod reconstruct;

