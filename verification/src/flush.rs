//! Flushing sealed memtables.

pub mod manager;
