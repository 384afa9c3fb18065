//! A content-addressed, deduplicating storage engine core: fixed-size
//! chunking, a content-addressed blob store, canonical Merkle node
//! encoding, a write-ahead log, an append-only snapshot index, a bounded
//! read cache, and mount-state coordination.

pub mod cache;
pub mod chunker;
pub mod codec;
pub mod config;
pub mod engine;
pub mod errors;
pub mod hashing;
pub mod merkle;
pub mod order;
pub mod snapshot;
pub mod storage;
pub mod wal;
