//! Verified core of a file-tree checksum tool: it sizes per-thread I/O
//! buffers against available memory, hashes file contents with xxh3-128 in a
//! streaming or a single-read mode, accumulates per-worker records, and merges
//! them into one deterministic, totally ordered result set.

pub mod budget;
pub mod hashing;
pub mod records;
pub mod worker;
pub mod config;
