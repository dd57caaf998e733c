//! The write path of a log-structured key-value store.
//!
//! A keyspace holds named partitions that share one journal. A write is
//! journaled, then taken by the active memtable of its partition. A memtable
//! that has grown too large is sealed and queued for its flush, and the
//! journal is sealed with it. A sealed journal is kept until every partition
//! that wrote to it has its share on disk.
//!
//! The library decides and keeps the books; it does no input or output. The
//! program around it appends the records to the journal files, writes the
//! segments, sleeps where a writer has to wait, and tells the library how
//! that went. Its workers ask the library for the memtables to flush and for
//! the segments to merge.
//!
//! The state of a keyspace has a mathematical value, [`keyspace::KeyspaceView`],
//! and each operation says what it does to that value. On these values the
//! library proves what holds whatever a keyspace goes through:
//!
//! - a reader finds under a key the value of the newest version that it
//!   sees, unless that version is a tombstone ([`history`], [`tree_inner`]);
//! - a scan yields each key under which the reader finds a value, once, in
//!   the order of the keys, and the same pairs from both ends ([`range`]);
//! - every sealed memtable is queued for its flush ([`queued`]);
//! - each memtable that is sealed wakes a flush worker once, and each note
//!   that the compaction manager takes wakes a compaction worker once
//!   ([`signal`]);
//! - a compaction changes nothing of what a partition holds
//!   ([`compaction::merge`]);
//! - the journals that are kept on disk suffice to give every partition back
//!   as it was, at whatever moment the keyspace goes down, and however often
//!   ([`durability`], [`reopen`]).

pub mod batch;
pub mod compaction;
pub mod config;
pub mod directory;
pub mod durability;
pub mod error;
pub mod flush;
pub mod history;
pub mod id;
pub mod journal;
pub mod keyspace;
pub mod memtable;
pub mod names;
pub mod partition;
pub mod queued;
pub mod range;
pub mod recovery;
pub mod reopen;
pub mod signal;
pub mod snapshot;
pub mod tree_inner;
pub mod value;

pub use batch::Batch;
pub use config::{Config, CreateOptions as PartitionCreateOptions};
pub use error::{Error, Result};
pub use keyspace::Keyspace;
pub use partition::PartitionHandle;
pub use snapshot::Snapshot;
pub use value::{UserKey, UserValue, Value, ValueType};
