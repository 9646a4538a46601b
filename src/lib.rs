//! A file-backed key-value store built from an append-only data log, a
//! hash-chained index and an explicit batch-commit durability boundary.

pub mod types;
pub mod log;
pub mod index;
pub mod engine;
