//! Snapshots: readers that see a partition as it was at one moment.

use crate::error::{Error, StorageError};
use crate::history::{lemma_later_write_unseen, visible, History};
use crate::keyspace::Keyspace;
use crate::partition::{not_found, PartitionHandle};
use crate::range::{has_key, is_scan, Range, Selection};
use crate::value::{SeqNo, Stored, UserValue};
use vstd::prelude::*;

verus! {

/// What a reader finds under `key` that sees the versions with sequence
/// numbers below `instant`.
pub open spec fn visible_before(h: History, key: Seq<u8>, instant: SeqNo) -> Option<Seq<u8>> {
    if instant == 0 {
        None
    } else {
        visible(h, key, (instant - 1) as SeqNo)
    }
}

/// `out` is what a reader that sees the versions with sequence numbers below
/// `instant` sees among the selected keys.
pub open spec fn is_scan_before(
    out: Seq<(Seq<u8>, Seq<u8>)>,
    h: History,
    instant: SeqNo,
    selection: Selection,
) -> bool {
    if instant == 0 {
        out.len() == 0
    } else {
        is_scan(out, h, (instant - 1) as SeqNo, selection)
    }
}

/// A version that is written at or after the moment of a snapshot does not
/// change what the snapshot finds under any key.
pub proof fn lemma_snapshot_get_stable(
    h: History,
    id: (Seq<u8>, SeqNo),
    stored: Stored,
    key: Seq<u8>,
    instant: SeqNo,
)
    requires
        id.1 >= instant,
    ensures
        visible_before(h.insert(id, stored), key, instant) == visible_before(h, key, instant),
{
    if instant > 0 {
        lemma_later_write_unseen(h, id, stored, key, (instant - 1) as SeqNo);
    }
}

/// A version that is written at or after the moment of a snapshot does not
/// change what a scan of the snapshot yields.
pub proof fn lemma_snapshot_scan_stable(
    out: Seq<(Seq<u8>, Seq<u8>)>,
    h: History,
    id: (Seq<u8>, SeqNo),
    stored: Stored,
    instant: SeqNo,
    selection: Selection,
)
    requires
        id.1 >= instant,
        is_scan_before(out, h, instant, selection),
    ensures
        is_scan_before(out, h.insert(id, stored), instant, selection),
{
    if instant > 0 {
        let snapshot = (instant - 1) as SeqNo;
        let g = h.insert(id, stored);
        assert forall|key: Seq<u8>| visible(g, key, snapshot) == visible(h, key, snapshot) by {
            lemma_later_write_unseen(h, id, stored, key, snapshot);
        }
        assert forall|key: Seq<u8>|
            selection.selects(key) && (#[trigger] visible(g, key, snapshot)) is Some implies has_key(
            out,
            key,
        ) by {
            assert(visible(h, key, snapshot) is Some);
        }
    }
}

/// A reader that sees a partition as it was when the snapshot was opened.
#[derive(Debug)]
pub struct Snapshot {
    pub(crate) partition: PartitionHandle,
    pub(crate) instant: SeqNo,
}

impl Snapshot {
    /// The name of the partition that the snapshot reads.
    pub closed spec fn partition(&self) -> Seq<char> {
        self.partition@
    }

    /// The sequence number that was due when the snapshot was opened. The
    /// snapshot sees the versions with lower sequence numbers.
    pub closed spec fn instant(&self) -> SeqNo {
        self.instant
    }

    /// The sequence number that was due when the snapshot was opened.
    pub fn seqno(&self) -> (r: SeqNo)
        ensures
            r == self.instant(),
    {
        self.instant
    }

    /// Retrieves an item from the snapshot.
    ///
    /// # Errors
    ///
    /// Will return `PartitionNotFound` if the keyspace has no such partition,
    /// and fails on no other input.
    pub fn get(&self, keyspace: &Keyspace, key: &[u8]) -> (r: Result<Option<UserValue>, Error>)
        requires
            keyspace.wf(),
        ensures
            match r {
                Ok(Some(value)) => keyspace@.has_partition(self.partition()) && visible_before(
                    keyspace@.history(self.partition()),
                    key@,
                    self.instant(),
                ) == Some(value@),
                Ok(None) => keyspace@.has_partition(self.partition()) && visible_before(
                    keyspace@.history(self.partition()),
                    key@,
                    self.instant(),
                ) is None,
                Err(_) => not_found(keyspace@, self.partition(), r),
            },
    {
        match keyspace.position(&self.partition.name) {
            None => Err(Error::Storage(StorageError::PartitionNotFound)),
            Some(i) => if self.instant == 0 {
                Ok(None)
            } else {
                Ok(keyspace.partitions[i].tree.get(key, self.instant - 1))
            },
        }
    }

    /// Gathers the pairs of the snapshot whose keys `selection` selects.
    ///
    /// # Errors
    ///
    /// Will return `PartitionNotFound` if the keyspace has no such partition,
    /// and fails on no other input.
    pub fn select(&self, keyspace: &Keyspace, selection: &Selection) -> (r: Result<Range, Error>)
        requires
            keyspace.wf(),
        ensures
            match r {
                Ok(range) => keyspace@.has_partition(self.partition()) && range.wf()
                    && is_scan_before(
                    range@,
                    keyspace@.history(self.partition()),
                    self.instant(),
                    *selection,
                ),
                Err(_) => not_found(keyspace@, self.partition(), r),
            },
    {
        match keyspace.position(&self.partition.name) {
            None => Err(Error::Storage(StorageError::PartitionNotFound)),
            Some(i) => if self.instant == 0 {
                Ok(Range::new(Vec::new()))
            } else {
                Ok(Range::new(keyspace.partitions[i].tree.scan(self.instant - 1, selection)))
            },
        }
    }

    /// Returns an iterator that scans through the entire snapshot.
    ///
    /// # Errors
    ///
    /// Will return `PartitionNotFound` if the keyspace has no such partition,
    /// and fails on no other input.
    pub fn iter(&self, keyspace: &Keyspace) -> (r: Result<Range, Error>)
        requires
            keyspace.wf(),
        ensures
            match r {
                Ok(range) => {
                    &&& keyspace@.has_partition(self.partition())
                    &&& range.wf()
                    &&& exists|selection: Selection|
                        (forall|key: Seq<u8>| selection.selects(key)) && #[trigger] is_scan_before(
                            range@,
                            keyspace@.history(self.partition()),
                            self.instant(),
                            selection,
                        )
                },
                Err(_) => not_found(keyspace@, self.partition(), r),
            },
    {
        let selection = Selection::all();
        self.select(keyspace, &selection)
    }
}

impl PartitionHandle {
    /// Opens a snapshot of this partition: a reader that sees the versions
    /// that were written before this moment, and none that is written later.
    ///
    /// # Errors
    ///
    /// Will return `PartitionNotFound` if the keyspace has no such partition,
    /// and fails on no other input.
    pub fn snapshot(&self, keyspace: &Keyspace) -> (r: Result<Snapshot, Error>)
        requires
            keyspace.wf(),
        ensures
            match r {
                Ok(snapshot) => {
                    &&& keyspace@.has_partition(self@)
                    &&& snapshot.partition() == self@
                    &&& snapshot.instant() == keyspace@.seqno
                },
                Err(_) => not_found(keyspace@, self@, r),
            },
    {
        match keyspace.position(&self.name) {
            None => Err(Error::Storage(StorageError::PartitionNotFound)),
            Some(_) => Ok(Snapshot { partition: self.clone(), instant: keyspace.instant() }),
        }
    }
}

} // verus!
