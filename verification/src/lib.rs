//! An embedded vector database core: named collections of dense vectors
//! with payloads, brute-force top-k similarity search under three metrics,
//! exact-match payload filtering, and an append-only write-ahead log that
//! is replayed on restart.
//!
//! Vectors and scores are 32-bit floating-point values, handled throughout
//! as their bit patterns; the `fbits` module carries out the arithmetic in
//! verified integer code. Transports, configuration loading and file I/O
//! live outside the library and drive it through plain values.

pub mod catalog;
pub mod fbits;
pub mod index;
pub mod state;
pub mod types;
pub mod wal;
