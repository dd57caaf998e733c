//! The options of a keyspace and of its partitions.

use vstd::prelude::*;

verus! {

/// The default of [`Config::max_journaling_size_in_bytes`]: 128 MiB.
pub const DEFAULT_MAX_JOURNALING_SIZE: u32 = 134_217_728;

/// The default of [`CreateOptions::max_memtable_size`]: 8 MiB.
pub const DEFAULT_MAX_MEMTABLE_SIZE: u32 = 8_388_608;

/// How a partition's segments are merged. The library hands the choice through
/// to the compaction workers.
#[derive(Clone, Copy, Debug, PartialEq, Eq, Structural)]
pub enum CompactionStrategy {
    Leveled,
    Tiered,
}

/// The options of a keyspace.
#[derive(Clone, Copy, Debug, PartialEq, Eq, Structural)]
pub struct Config {
    /// The size of all journals together from which on writes are halted.
    /// At two thirds of it the keyspace starts to flush idle partitions.
    pub max_journaling_size_in_bytes: u32,
}

/// The options that a partition is created with.
#[derive(Clone, Copy, Debug, PartialEq, Eq, Structural)]
pub struct CreateOptions {
    /// The size of the active memtable above which it is rotated.
    pub max_memtable_size: u32,
    /// The block size of the segments.
    pub block_size: u32,
    /// The number of levels of the tree.
    pub level_count: u8,
    /// The size ratio between two levels.
    pub level_ratio: u8,
    /// How the segments are merged.
    pub compaction_strategy: CompactionStrategy,
}

impl Default for Config {
    fn default() -> (r: Self)
        ensures
            r.max_journaling_size_in_bytes == DEFAULT_MAX_JOURNALING_SIZE,
    {
        Config { max_journaling_size_in_bytes: DEFAULT_MAX_JOURNALING_SIZE }
    }
}

impl Config {
    /// The default options.
    pub fn new() -> (r: Self)
        ensures
            r.max_journaling_size_in_bytes == DEFAULT_MAX_JOURNALING_SIZE,
    {
        Config { max_journaling_size_in_bytes: DEFAULT_MAX_JOURNALING_SIZE }
    }

    /// Sets the size of all journals together from which on writes are halted.
    pub fn max_journaling_size(self, bytes: u32) -> (r: Self)
        ensures
            r.max_journaling_size_in_bytes == bytes,
    {
        Config { max_journaling_size_in_bytes: bytes }
    }
}

impl Default for CreateOptions {
    fn default() -> (r: Self)
        ensures
            r == (CreateOptions {
                max_memtable_size: DEFAULT_MAX_MEMTABLE_SIZE,
                block_size: 4096,
                level_count: 7,
                level_ratio: 8,
                compaction_strategy: CompactionStrategy::Leveled,
            }),
    {
        CreateOptions {
            max_memtable_size: DEFAULT_MAX_MEMTABLE_SIZE,
            block_size: 4096,
            level_count: 7,
            level_ratio: 8,
            compaction_strategy: CompactionStrategy::Leveled,
        }
    }
}

impl CreateOptions {
    /// Sets the size of the active memtable above which it is rotated.
    pub fn max_memtable_size(self, bytes: u32) -> (r: Self)
        ensures
            r == (CreateOptions { max_memtable_size: bytes, ..self }),
    {
        CreateOptions { max_memtable_size: bytes, ..self }
    }

    /// Sets the block size of the segments.
    pub fn block_size(self, bytes: u32) -> (r: Self)
        ensures
            r == (CreateOptions { block_size: bytes, ..self }),
    {
        CreateOptions { block_size: bytes, ..self }
    }

    /// Sets the number of levels of the tree.
    pub fn level_count(self, n: u8) -> (r: Self)
        ensures
            r == (CreateOptions { level_count: n, ..self }),
    {
        CreateOptions { level_count: n, ..self }
    }

    /// Sets the size ratio between two levels.
    pub fn level_ratio(self, n: u8) -> (r: Self)
        ensures
            r == (CreateOptions { level_ratio: n, ..self }),
    {
        CreateOptions { level_ratio: n, ..self }
    }

    /// Sets how the segments are merged.
    pub fn compaction_strategy(self, strategy: CompactionStrategy) -> (r: Self)
        ensures
            r == (CreateOptions { compaction_strategy: strategy, ..self }),
    {
        CreateOptions { compaction_strategy: strategy, ..self }
    }
}

} // verus!
