//! A trace-driven model of a set-associative cache.
//!
//! The model stores no data: it only tracks which blocks would be resident
//! and counts hits, misses and evictions as accesses are replayed.

pub mod address;
pub mod cache;
pub mod engine;
pub mod policy;
pub mod replay;
pub mod set;
pub mod trace;
