//! The errors of a keyspace.

use vstd::prelude::*;

verus! {

/// `std::io::Error`: the error of an input or output operation, as the caller
/// that did the operation hands it in. The library looks at nothing in it.
#[verifier::external_type_specification]
#[verifier::external_body]
pub struct ExIoError(std::io::Error);

/// A logical error of a partition's tree.
#[derive(Clone, Copy, Debug, PartialEq, Eq, Structural)]
pub enum StorageError {
    /// The keyspace has no partition of that name: it was deleted, or never opened.
    PartitionNotFound,
    /// The name cannot be that of a partition.
    InvalidPartitionName,
    /// Every sequence number has been given out.
    SeqNoExhausted,
}

/// Why a journal could not be replayed.
#[derive(Clone, Copy, Debug, PartialEq, Eq, Structural)]
pub enum RecoveryError {
    /// A record that is not the last of its shard is damaged.
    DamagedRecord,
    /// A shard does not start with the version that this library writes.
    InvalidVersion,
}

/// Errors that may occur in the storage engine.
#[derive(Debug)]
pub enum Error {
    /// Error inside a partition's tree.
    Storage(StorageError),
    /// I/O error.
    Io(std::io::Error),
    /// A journal holds a record that cannot be read and that no crash explains.
    JournalRecovery(RecoveryError),
    /// A lock was poisoned: a writer panicked while it held it.
    Poisoned,
}

impl From<std::io::Error> for Error {
    fn from(inner: std::io::Error) -> (r: Self) {
        Error::Io(inner)
    }
}

impl vstd::std_specs::convert::FromSpecImpl<std::io::Error> for Error {
    open spec fn obeys_from_spec() -> bool {
        true
    }

    open spec fn from_spec(inner: std::io::Error) -> Self {
        Error::Io(inner)
    }
}

impl From<StorageError> for Error {
    fn from(inner: StorageError) -> (r: Self) {
        Error::Storage(inner)
    }
}

impl vstd::std_specs::convert::FromSpecImpl<StorageError> for Error {
    open spec fn obeys_from_spec() -> bool {
        true
    }

    open spec fn from_spec(inner: StorageError) -> Self {
        Error::Storage(inner)
    }
}

impl From<RecoveryError> for Error {
    fn from(inner: RecoveryError) -> (r: Self) {
        Error::JournalRecovery(inner)
    }
}

impl vstd::std_specs::convert::FromSpecImpl<RecoveryError> for Error {
    open spec fn obeys_from_spec() -> bool {
        true
    }

    open spec fn from_spec(inner: RecoveryError) -> Self {
        Error::JournalRecovery(inner)
    }
}

/// Result helper type.
pub type Result<T> = std::result::Result<T, Error>;

} // verus!
