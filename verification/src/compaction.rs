//! Compaction of a partition's segments. The library keeps the list of the
//! partitions that ask for it, hands the notes out to the workers, and
//! merges the segments of a partition for them.

pub mod manager;
pub mod merge;
