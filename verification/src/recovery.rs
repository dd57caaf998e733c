//! Reopening a keyspace: reading the journals back and replaying them.

use crate::error::{Error, RecoveryError, StorageError};
use crate::flush::manager::{Task, TaskView};
use crate::history::{below, lemma_fold_items_below};
use crate::id::generate_segment_id;
use crate::journal::manager::seqno_views;
use crate::journal::record::{
    decode, frame, frame_size, lemma_frame_len, lemma_parse_frame, lemma_parse_torn, parse,
    record_views, Decoded, JournalRecord, Parsed, RecordView, JOURNAL_VERSION,
};
use crate::keyspace::{Keyspace, KeyspaceView};
use crate::memtable::item_views;
use crate::partition::{
    active_seqnos, is_segment_id, is_valid_name, rotation_views, PartitionHandle, Rotation,
    RotationView,
};
use crate::value::{SeqNo, Stored, Value, ValueView};
use vstd::prelude::*;

verus! {

/// The records that stand in `b`, frame after frame, and the number of bytes
/// that they take, or `None` if `b` is damaged.
///
/// The bytes are read up to the first frame whose end is missing, or whose
/// checksum is wrong while nothing follows it: such a frame is what a crash
/// in the middle of a write leaves. A frame that is wrong in another way, or
/// that something follows, is damage.
pub open spec fn frames(b: Seq<u8>) -> Option<(Seq<RecordView>, int)>
    decreases b.len(),
{
    match parse(b) {
        Parsed::Record(r, n) => if 0 < n <= b.len() {
            match frames(b.skip(n)) {
                Some((rest, len)) => Some((seq![r] + rest, n + len)),
                None => None,
            }
        } else {
            None
        },
        Parsed::Truncated => Some((Seq::empty(), 0)),
        Parsed::Damaged(n) => if n == b.len() {
            Some((Seq::empty(), 0))
        } else {
            None
        },
        Parsed::Garbled => None,
    }
}

/// `frames`, with `done` records and `len` bytes before them.
pub open spec fn after(done: Seq<RecordView>, len: int, rest: Option<(Seq<RecordView>, int)>) -> Option<
    (Seq<RecordView>, int),
> {
    match rest {
        Some((more, n)) => Some((done + more, len + n)),
        None => None,
    }
}

/// The frames of the records, one after the other.
pub open spec fn journal_bytes(records: Seq<RecordView>) -> Seq<u8>
    decreases records.len(),
{
    if records.len() == 0 {
        Seq::empty()
    } else {
        frame(records.first()) + journal_bytes(records.drop_first())
    }
}

/// Reading back the frame of a valid record gives the record, and then what
/// reading the bytes behind the frame gives.
pub proof fn lemma_frames_step(r: RecordView, rest: Seq<u8>)
    requires
        r.is_valid(),
    ensures
        frames(frame(r) + rest) == after(seq![r], r.len(), frames(rest)),
        frame(r).len() == r.len(),
{
    let b = frame(r) + rest;
    lemma_frame_len(r);
    lemma_parse_frame(r, rest);
    assert(parse(b) == Parsed::Record(r, r.len()));
    assert(0 < r.len() <= b.len());
    assert(b.skip(r.len()) =~= rest);
}

/// Reading back the frames of valid records gives the records, and then
/// what reading the bytes behind them gives.
pub proof fn lemma_frames_of_journal(records: Seq<RecordView>, tail: Seq<u8>)
    requires
        forall|i: int| 0 <= i < records.len() ==> (#[trigger] records[i]).is_valid(),
    ensures
        frames(journal_bytes(records) + tail) == after(
            records,
            journal_bytes(records).len() as int,
            frames(tail),
        ),
    decreases records.len(),
{
    if records.len() == 0 {
        assert(journal_bytes(records) + tail =~= tail);
        match frames(tail) {
            Some((more, n)) => {
                assert(records + more =~= more);
            },
            None => {},
        }
    } else {
        let r = records.first();
        let rest = records.drop_first();
        let behind = journal_bytes(rest) + tail;
        assert(r.is_valid());
        assert forall|i: int| 0 <= i < rest.len() implies (#[trigger] rest[i]).is_valid() by {
            assert(rest[i] == records[i + 1]);
        }
        lemma_frames_step(r, behind);
        lemma_frames_of_journal(rest, tail);
        assert(journal_bytes(records) + tail =~= frame(r) + behind);
        assert(journal_bytes(records).len() == r.len() + journal_bytes(rest).len());
        match frames(tail) {
            Some((more, n)) => {
                assert(seq![r] + (rest + more) =~= records + more);
            },
            None => {},
        }
    }
}

/// A journal file whose last write was cut short by a crash holds, when it
/// is read back, the records that were written in full, and nothing of the
/// record that was not.
pub proof fn lemma_torn_journal(records: Seq<RecordView>, torn: RecordView, cut: int)
    requires
        forall|i: int| 0 <= i < records.len() ==> (#[trigger] records[i]).is_valid(),
        torn.is_valid(),
        0 <= cut < torn.len(),
    ensures
        shard_contents(seq![JOURNAL_VERSION] + journal_bytes(records) + frame(torn).take(cut)) == Ok::<
            (Seq<RecordView>, int),
            RecoveryError,
        >((records, 1 + journal_bytes(records).len() as int)),
{
    let tail = frame(torn).take(cut);
    let b = seq![JOURNAL_VERSION] + journal_bytes(records) + tail;
    lemma_parse_torn(torn, cut);
    lemma_frames_of_journal(records, tail);
    assert(b.skip(1) =~= journal_bytes(records) + tail);
    assert(records + Seq::<RecordView>::empty() =~= records);
}

/// A journal file holds, when it is read back, the records that were written to it.
pub proof fn lemma_whole_journal(records: Seq<RecordView>)
    requires
        forall|i: int| 0 <= i < records.len() ==> (#[trigger] records[i]).is_valid(),
    ensures
        shard_contents(seq![JOURNAL_VERSION] + journal_bytes(records)) == Ok::<
            (Seq<RecordView>, int),
            RecoveryError,
        >((records, 1 + journal_bytes(records).len() as int)),
{
    let b = seq![JOURNAL_VERSION] + journal_bytes(records);
    lemma_frames_of_journal(records, Seq::empty());
    assert(b.skip(1) =~= journal_bytes(records) + Seq::<u8>::empty());
    assert(records + Seq::<RecordView>::empty() =~= records);
}

/// What a shard of a journal holds: its records, and the number of bytes up
/// to the end of the last of them. What follows them was torn by a crash.
#[derive(Debug)]
pub struct Shard {
    pub records: Vec<JournalRecord>,
    pub valid_len: usize,
}

/// What stands in the file of a shard, or the error that reading it gives.
pub open spec fn shard_contents(b: Seq<u8>) -> Result<(Seq<RecordView>, int), RecoveryError> {
    if b.len() == 0 {
        Ok((Seq::empty(), 0))
    } else if b[0] != JOURNAL_VERSION {
        Err(RecoveryError::InvalidVersion)
    } else {
        match frames(b.skip(1)) {
            Some((records, len)) => Ok((records, 1 + len)),
            None => Err(RecoveryError::DamagedRecord),
        }
    }
}

/// Reads the file of a shard of a journal.
///
/// Fails with `InvalidVersion` if the file does not start with
/// [`JOURNAL_VERSION`], and with `DamagedRecord` if a frame is damaged in a
/// way that a crash in the middle of a write does not explain.
pub fn read_shard(bytes: &[u8]) -> (r: Result<Shard, RecoveryError>)
    ensures
        match r {
            Ok(shard) => shard_contents(bytes@) == Ok::<(Seq<RecordView>, int), RecoveryError>(
                (record_views(shard.records@), shard.valid_len as int),
            ) && shard.valid_len <= bytes@.len() && forall|i: int|
                0 <= i < shard.records@.len() ==> (#[trigger] shard.records@[i])@.is_valid(),
            Err(e) => shard_contents(bytes@) == Err::<(Seq<RecordView>, int), RecoveryError>(e),
        },
{
    let mut records: Vec<JournalRecord> = Vec::new();
    if bytes.len() == 0 {
        assert(record_views(records@) =~= Seq::empty());
        return Ok(Shard { records, valid_len: 0 });
    }
    if bytes[0] != JOURNAL_VERSION {
        return Err(RecoveryError::InvalidVersion);
    }
    let ghost b = bytes@.skip(1);
    let mut pos: usize = 1;
    proof {
        assert(record_views(records@) =~= Seq::empty());
        assert(b.skip(0) =~= b);
        assert(after(Seq::empty(), 0, frames(b)) == frames(b)) by {
            match frames(b) {
                Some((more, n)) => {
                    assert(Seq::<RecordView>::empty() + more =~= more);
                },
                None => {},
            }
        }
    }
    loop
        invariant
            1 <= pos <= bytes@.len(),
            bytes@[0] == JOURNAL_VERSION,
            b == bytes@.skip(1),
            frames(b) == after(record_views(records@), pos - 1, frames(b.skip(pos - 1))),
            forall|i: int| 0 <= i < records@.len() ==> (#[trigger] records@[i])@.is_valid(),
        decreases bytes@.len() - pos,
    {
        let ghost here = b.skip(pos - 1);
        let ghost done = record_views(records@);
        assert(here =~= bytes@.skip(pos as int));
        match decode(bytes, pos) {
            Decoded::Record(record, end) => {
                proof {
                    let n = end - pos;
                    assert(here.skip(n) =~= b.skip(end - 1));
                    match frames(b.skip(end - 1)) {
                        Some((more, len)) => {
                            assert(done + (seq![record@] + more) =~= done.push(record@) + more);
                        },
                        None => {},
                    }
                }
                records.push(record);
                assert(record_views(records@) =~= done.push(record@));
                pos = end;
            },
            Decoded::Truncated => {
                assert(done + Seq::<RecordView>::empty() =~= done);
                return Ok(Shard { records, valid_len: pos });
            },
            Decoded::Damaged(end) => {
                if end == bytes.len() {
                    assert(done + Seq::<RecordView>::empty() =~= done);
                    return Ok(Shard { records, valid_len: pos });
                } else {
                    return Err(RecoveryError::DamagedRecord);
                }
            },
            Decoded::Garbled => {
                return Err(RecoveryError::DamagedRecord);
            },
        }
    }
}

/// The sequence number that is due once `seqno` has been seen, if `next` was due before.
pub open spec fn after_seqno(next: SeqNo, seqno: SeqNo) -> SeqNo {
    if seqno >= next {
        (seqno + 1) as SeqNo
    } else {
        next
    }
}

/// The sequence number that is due once the items have been seen, if `next` was due before.
pub open spec fn after_items(next: SeqNo, items: Seq<ValueView>) -> SeqNo
    decreases items.len(),
{
    if items.len() == 0 {
        next
    } else {
        after_seqno(after_items(next, items.drop_last()), items.last().seqno)
    }
}

/// Whether one of the items has the highest sequence number that there is.
pub open spec fn items_exhaust(items: Seq<ValueView>) -> bool {
    exists|i: int| 0 <= i < items.len() && (#[trigger] items[i]).seqno == u64::MAX
}

/// Whether one of the records has the highest sequence number that there is.
pub open spec fn records_exhaust(records: Seq<RecordView>) -> bool {
    exists|i: int| 0 <= i < records.len() && (#[trigger] records[i]).seqno == u64::MAX
}

/// Once items have been seen, the sequence number that is due is above
/// theirs, and no lower than before.
pub proof fn lemma_after_items(next: SeqNo, items: Seq<ValueView>)
    requires
        !items_exhaust(items),
    ensures
        after_items(next, items) >= next,
        forall|i: int| 0 <= i < items.len() ==> (#[trigger] items[i]).seqno < after_items(next, items),
    decreases items.len(),
{
    if items.len() > 0 {
        let shorter = items.drop_last();
        assert forall|i: int| 0 <= i < shorter.len() implies (#[trigger] shorter[i]).seqno
            != u64::MAX by {
            assert(shorter[i] == items[i]);
        }
        lemma_after_items(next, shorter);
        assert(items.last() == items[items.len() - 1]);
        assert forall|i: int| 0 <= i < items.len() implies (#[trigger] items[i]).seqno
            < after_items(next, items) by {
            if i < shorter.len() {
                assert(shorter[i] == items[i]);
            }
        }
    }
}

impl KeyspaceView {
    /// The keyspace after a segment that holds `items` was put behind the
    /// segments of the partition `name`.
    pub open spec fn restore_segment(
        self,
        name: Seq<char>,
        id: Seq<char>,
        items: Seq<ValueView>,
    ) -> KeyspaceView {
        KeyspaceView {
            seqno: after_items(self.seqno, items),
            ..self.with_tree(name, self.tree(name).restore(id, items))
        }
    }

    /// The keyspace after one record of a journal was replayed: the record
    /// counts for the size of the active journal, the sequence number that
    /// is due moves past that of the record, and the partition of the
    /// record, if the keyspace has it, takes the version.
    pub open spec fn replay_one(self, r: RecordView) -> KeyspaceView {
        let seen = KeyspaceView {
            seqno: after_seqno(self.seqno, r.seqno),
            journals: self.journals.written(r.len()),
            ..self
        };
        if self.has_partition(r.partition) {
            seen.with_tree(r.partition, self.tree(r.partition).write(r.version()))
        } else {
            seen
        }
    }

    /// The keyspace after the records of a journal were replayed in their order.
    pub open spec fn replay(self, records: Seq<RecordView>) -> KeyspaceView
        decreases records.len(),
    {
        if records.len() == 0 {
            self
        } else {
            self.replay(records.drop_last()).replay_one(records.last())
        }
    }

    /// The keyspace after the active memtable of the partition `name` was
    /// sealed under `id` and queued for its flush, without a rotation of the
    /// journal. The flush semaphore is released once.
    pub open spec fn seal_memtable(self, name: Seq<char>, id: Seq<char>) -> KeyspaceView {
        let tree = self.tree(name);
        KeyspaceView {
            flushes: self.flushes.enqueue(
                name,
                TaskView { id, partition: name, versions: tree.active },
            ),
            flush_signals: self.flush_signals + 1,
            ..self.with_tree(name, tree.seal(id))
        }
    }

    /// The keyspace after the active memtables of its first `n` partitions
    /// were sealed, if `rotations` tells of these seals: one for each
    /// partition whose active memtable is not empty, in the order of the
    /// partitions, each for the journal `journal_id`.
    pub open spec fn seal_first(
        self,
        n: nat,
        journal_id: Seq<char>,
        rotations: Seq<RotationView>,
    ) -> Option<KeyspaceView>
        decreases n,
    {
        if n == 0 {
            if rotations.len() == 0 {
                Some(self)
            } else {
                None
            }
        } else {
            let p = self.partitions[n - 1];
            if p.tree.active == Map::<(Seq<u8>, SeqNo), Stored>::empty() {
                self.seal_first((n - 1) as nat, journal_id, rotations)
            } else if rotations.len() == 0 || rotations.last().partition != p.name
                || rotations.last().journal_id != journal_id {
                None
            } else {
                match self.seal_first((n - 1) as nat, journal_id, rotations.drop_last()) {
                    Some(sealed) => Some(sealed.seal_memtable(p.name, rotations.last().memtable_id)),
                    None => None,
                }
            }
        }
    }

    /// The keyspace after a sealed journal was replayed in full, if
    /// `rotations` tells of the seals: the journal is entered with the highest
    /// sequence numbers that the partitions have in memory, and every active
    /// memtable that is not empty is sealed and queued for its flush.
    pub open spec fn seal_replayed(
        self,
        journal_id: Seq<char>,
        rotations: Seq<RotationView>,
    ) -> Option<KeyspaceView> {
        match self.seal_first(self.partitions.len(), journal_id, rotations) {
            Some(sealed) => Some(
                KeyspaceView {
                    journals: self.journals.rotate(journal_id, active_seqnos(self.partitions)),
                    ..sealed
                },
            ),
            None => None,
        }
    }
}

/// Sealing the first partitions leaves the others, the names, the journals,
/// the sequence number and every history as they were.
pub proof fn lemma_seal_first_keeps(
    pre: KeyspaceView,
    n: nat,
    journal_id: Seq<char>,
    rotations: Seq<RotationView>,
)
    requires
        pre.wf(),
        n <= pre.partitions.len(),
        pre.seal_first(n, journal_id, rotations) is Some,
    ensures
        ({
            let post = pre.seal_first(n, journal_id, rotations)->0;
            &&& post.wf()
            &&& post.names() == pre.names()
            &&& post.seqno == pre.seqno
            &&& post.config == pre.config
            &&& post.journals == pre.journals
            &&& post.compactions == pre.compactions
            &&& post.partitions.len() == pre.partitions.len()
            &&& forall|i: int|
                0 <= i < pre.partitions.len() ==> (#[trigger] post.partitions[i]).tree.history()
                    == pre.partitions[i].tree.history()
            &&& forall|i: int|
                n <= i < pre.partitions.len() ==> (#[trigger] post.partitions[i])
                    == pre.partitions[i]
        }),
    decreases n,
{
    if n > 0 {
        let p = pre.partitions[n - 1];
        if p.tree.active == Map::<(Seq<u8>, SeqNo), Stored>::empty() {
            lemma_seal_first_keeps(pre, (n - 1) as nat, journal_id, rotations);
        } else {
            lemma_seal_first_keeps(pre, (n - 1) as nat, journal_id, rotations.drop_last());
            let mid = pre.seal_first((n - 1) as nat, journal_id, rotations.drop_last())->0;
            lemma_seal_memtable_keeps(mid, n - 1, rotations.last().memtable_id);
            assert(mid.partitions[n - 1] == p);
        }
    }
}

/// Sealing the active memtable of one partition leaves the other
/// partitions, the names, the journals, the sequence number and every
/// history as they were.
pub proof fn lemma_seal_memtable_keeps(pre: KeyspaceView, i: int, id: Seq<char>)
    requires
        pre.wf(),
        0 <= i < pre.partitions.len(),
    ensures
        ({
            let post = pre.seal_memtable(pre.partitions[i].name, id);
            &&& post.wf()
            &&& post.names() == pre.names()
            &&& post.partitions.len() == pre.partitions.len()
            &&& forall|k: int|
                0 <= k < pre.partitions.len() ==> (#[trigger] post.partitions[k]).tree.history()
                    == pre.partitions[k].tree.history()
            &&& forall|k: int|
                0 <= k < pre.partitions.len() && k != i ==> (#[trigger] post.partitions[k])
                    == pre.partitions[k]
        }),
{
    let name = pre.partitions[i].name;
    let post = pre.seal_memtable(name, id);
    assert(pre.names()[i] == name);
    assert(pre.index_of(name) == i);
    pre.tree(name).lemma_seal_history(id);
    assert(post.names() =~= pre.names());
    assert forall|k: int| 0 <= k < post.partitions.len() implies {
        &&& is_valid_name((#[trigger] post.partitions[k]).name)
        &&& below(post.partitions[k].tree.history(), post.seqno as int)
    } by {
        assert(pre.names()[k] == pre.partitions[k].name);
    }
}

impl Keyspace {
    /// Puts a segment that holds `items`, written out under `id` before the
    /// keyspace was closed, behind the segments of the partition. The
    /// sequence number that is due moves past those of the items.
    ///
    /// Fails with `PartitionNotFound` if the keyspace has no such partition,
    /// and else with `SeqNoExhausted` if an item has the highest sequence
    /// number that there is; neither changes the keyspace.
    pub fn restore_segment(
        &mut self,
        partition: &PartitionHandle,
        id: String,
        items: &Vec<Value>,
    ) -> (r: Result<(), Error>)
        requires
            old(self).wf(),
        ensures
            final(self).wf(),
            match r {
                Ok(_) => {
                    &&& old(self)@.has_partition(partition@)
                    &&& !items_exhaust(item_views(items@))
                    &&& final(self)@ == old(self)@.restore_segment(
                        partition@,
                        id@,
                        item_views(items@),
                    )
                },
                Err(Error::Storage(StorageError::PartitionNotFound)) => {
                    &&& !old(self)@.has_partition(partition@)
                    &&& final(self)@ == old(self)@
                },
                Err(Error::Storage(StorageError::SeqNoExhausted)) => {
                    &&& old(self)@.has_partition(partition@)
                    &&& items_exhaust(item_views(items@))
                    &&& final(self)@ == old(self)@
                },
                Err(_) => false,
            },
    {
        let i = match self.position(&partition.name) {
            None => {
                return Err(Error::Storage(StorageError::PartitionNotFound));
            },
            Some(i) => i,
        };
        proof {
            crate::queued::lemma_restore_segment_queued(self@, partition@, id@, item_views(items@));
        }
        let ghost views = item_views(items@);
        let ghost start = self@;
        let mut next: SeqNo = self.seqno;
        let mut k: usize = 0;
        proof {
            assert(views.take(0) =~= Seq::empty());
        }
        while k < items.len()
            invariant
                k <= items.len(),
                self.inv(),
                self@ == start,
                start.queued(),
                start.has_partition(partition@),
                views == item_views(items@),
                next == after_items(self.seqno, views.take(k as int)),
                forall|j: int| 0 <= j < k ==> (#[trigger] views[j]).seqno != u64::MAX,
            decreases items.len() - k,
        {
            proof {
                assert(views.take(k + 1).drop_last() =~= views.take(k as int));
                assert(views.take(k + 1).last() == views[k as int]);
            }
            let seqno = items[k].seqno;
            if seqno == u64::MAX {
                assert(views[k as int].seqno == u64::MAX);
                return Err(Error::Storage(StorageError::SeqNoExhausted));
            }
            if seqno >= next {
                next = seqno + 1;
            }
            k += 1;
        }
        proof {
            assert(views.take(k as int) =~= views);
            lemma_after_items(self.seqno, views);
        }
        let ghost before = self.partitions@;
        let ghost pre = old(self)@;
        self.partitions[i].tree.restore_segment(id, items);
        self.seqno = next;
        proof {
            let tree = pre.tree(partition@).restore(id@, views);
            assert(self@.partitions =~= pre.with_tree(partition@, tree).partitions);
            assert(self@.names() =~= pre.names());
            lemma_restore_below(pre.tree(partition@), id@, views, next as int);
            assert forall|j: int| 0 <= j < self.partitions@.len() implies (
            #[trigger] self.partitions@[j]).wf() by {
                if j != i {
                    assert(self.partitions@[j] == before[j]);
                }
            }
            assert forall|j: int| 0 <= j < self@.partitions.len() implies {
                &&& is_valid_name((#[trigger] self@.partitions[j]).name)
                &&& below(self@.partitions[j].tree.history(), self@.seqno as int)
            } by {
                assert(below(pre.partitions[j].tree.history(), pre.seqno as int));
                if j != i {
                    assert(self@.partitions[j] == pre.partitions[j]);
                } else {
                    assert(pre.partitions[j].name == partition@);
                }
            }
        }
        Ok(())
    }
}

/// A tree whose versions and whose new items are below a bound stays below
/// the bound when it takes the items as a segment.
pub proof fn lemma_restore_below(
    tree: crate::tree_inner::TreeView,
    id: Seq<char>,
    items: Seq<ValueView>,
    bound: int,
)
    requires
        below(tree.history(), bound),
        forall|i: int| 0 <= i < items.len() ==> (#[trigger] items[i]).seqno < bound,
    ensures
        below(tree.restore(id, items).history(), bound),
{
    if items.len() > 0 {
        let run = tree.restore(id, items).segments.last();
        lemma_fold_items_below(Map::empty(), items, bound);
        assert(tree.restore(id, items).segments.drop_last() =~= tree.segments);
        let h = tree.restore(id, items).history();
        assert forall|v: (Seq<u8>, SeqNo)| #[trigger] h.contains_key(v) implies v.1 < bound by {
            if !run.versions.contains_key(v) {
                assert(tree.history().contains_key(v));
            }
        }
    }
}

/// Replaying a record whose sequence number is not the highest that there
/// is leaves the keyspace well-formed, with the partitions it had.
pub proof fn lemma_replay_one_keeps(pre: KeyspaceView, r: RecordView)
    requires
        pre.wf(),
        r.seqno < u64::MAX,
    ensures
        pre.replay_one(r).wf(),
        pre.replay_one(r).names() == pre.names(),
        pre.replay_one(r).partitions.len() == pre.partitions.len(),
        pre.replay_one(r).seqno >= pre.seqno,
        pre.replay_one(r).seqno > r.seqno,
{
    let post = pre.replay_one(r);
    assert(post.names() =~= pre.names());
    if pre.has_partition(r.partition) {
        pre.tree(r.partition).lemma_write_history(r.version());
    }
    assert forall|k: int| 0 <= k < post.partitions.len() implies {
        &&& is_valid_name((#[trigger] post.partitions[k]).name)
        &&& below(post.partitions[k].tree.history(), post.seqno as int)
    } by {
        assert(pre.names()[k] == pre.partitions[k].name);
        assert(below(pre.partitions[k].tree.history(), pre.seqno as int));
    }
}

/// Replaying the record of a write does to the history of its partition and
/// to the sequence number that is due what the write did.
pub proof fn lemma_replay_is_write(pre: KeyspaceView, r: RecordView)
    requires
        pre.wf(),
        pre.has_partition(r.partition),
        r.seqno == pre.seqno,
        r.seqno < u64::MAX,
    ensures
        pre.replay_one(r).partitions == pre.write(r.partition, r.version()).partitions,
        pre.replay_one(r).seqno == pre.write(r.partition, r.version()).seqno,
        pre.replay_one(r).journals == pre.write(r.partition, r.version()).journals,
        pre.replay_one(r) == pre.write(r.partition, r.version()),
{
}

impl Keyspace {
    /// Replays the records of a journal in their order: each record counts
    /// for the size of the active journal, moves the sequence number that is
    /// due past its own, and is written to the active memtable of its
    /// partition if the keyspace has that partition.
    ///
    /// Fails with `SeqNoExhausted`, and changes nothing, if a record has the
    /// highest sequence number that there is; it fails on no other input.
    pub fn replay(&mut self, records: &Vec<JournalRecord>) -> (r: Result<(), Error>)
        requires
            old(self).wf(),
        ensures
            final(self).wf(),
            match r {
                Ok(_) => {
                    &&& !records_exhaust(record_views(records@))
                    &&& final(self)@ == old(self)@.replay(record_views(records@))
                },
                Err(e) => {
                    &&& records_exhaust(record_views(records@))
                    &&& e == Error::Storage(StorageError::SeqNoExhausted)
                    &&& final(self)@ == old(self)@
                },
            },
            final(self)@.names() == old(self)@.names(),
    {
        let ghost views = record_views(records@);
        let ghost start = self@;
        let mut k: usize = 0;
        while k < records.len()
            invariant
                k <= records.len(),
                self.inv(),
                start.queued(),
                self@ == start,
                views == record_views(records@),
                forall|j: int| 0 <= j < k ==> (#[trigger] views[j]).seqno != u64::MAX,
            decreases records.len() - k,
        {
            if records[k].seqno == u64::MAX {
                assert(views[k as int].seqno == u64::MAX);
                return Err(Error::Storage(StorageError::SeqNoExhausted));
            }
            k += 1;
        }
        k = 0;
        proof {
            assert(views.take(0) =~= Seq::empty());
        }
        while k < records.len()
            invariant
                k <= records.len(),
                self.inv(),
                views == record_views(records@),
                forall|j: int| 0 <= j < records.len() ==> (#[trigger] views[j]).seqno != u64::MAX,
                self@ == start.replay(views.take(k as int)),
                self@.names() == start.names(),
            decreases records.len() - k,
        {
            let record = &records[k];
            let ghost pre = self@;
            let ghost r = record@;
            proof {
                assert(views.take(k + 1).drop_last() =~= views.take(k as int));
                assert(views.take(k + 1).last() == views[k as int]);
                assert(views[k as int] == r);
                lemma_replay_one_keeps(pre, r);
            }
            let found = self.position(&record.partition);
            if record.seqno >= self.seqno {
                self.seqno = record.seqno + 1;
            }
            let name_len = record.partition.as_str().unicode_len();
            self.journal_manager.record_write(
                frame_size(name_len, record.key.len(), record.value.len()),
            );
            match found {
                Some(i) => {
                    let ghost before = self.partitions@;
                    let item = Value::new(
                        vstd::slice::slice_to_vec(record.key.as_slice()),
                        vstd::slice::slice_to_vec(record.value.as_slice()),
                        record.seqno,
                        record.value_type,
                    );
                    self.partitions[i].tree.append(item);
                    proof {
                        assert(self@.partitions =~= pre.replay_one(r).partitions);
                        assert forall|j: int| 0 <= j < self.partitions@.len() implies (
                        #[trigger] self.partitions@[j]).wf() by {
                            if j != i {
                                assert(self.partitions@[j] == before[j]);
                            }
                        }
                    }
                },
                None => {},
            }
            assert(self@ == pre.replay_one(r));
            k += 1;
        }
        proof {
            assert(views.take(k as int) =~= views);
            crate::queued::lemma_replay_queued(start, views);
        }
        Ok(())
    }

    /// Ends the replay of a sealed journal: the journal is entered under
    /// `journal_id` with the highest sequence numbers that the partitions
    /// have in memory, and every active memtable that is not empty is sealed
    /// under a newly generated identifier and queued for its flush. Returns
    /// the seals, in the order of the partitions.
    pub fn seal_replayed(&mut self, journal_id: String) -> (r: Vec<Rotation>)
        requires
            old(self).wf(),
        ensures
            final(self).wf(),
            old(self)@.seal_replayed(journal_id@, rotation_views(r@)) == Some(final(self)@),
            forall|k: int|
                0 <= k < r@.len() ==> is_segment_id((#[trigger] rotation_views(r@)[k]).memtable_id),
            final(self)@.names() == old(self)@.names(),
            forall|i: int|
                0 <= i < old(self)@.partitions.len() ==> (
                #[trigger] final(self)@.partitions[i]).tree.history()
                    == old(self)@.partitions[i].tree.history(),
    {
        let seqnos = self.memtable_seqnos();
        let ghost start = self@;
        let mut out: Vec<Rotation> = Vec::new();
        let mut i: usize = 0;
        assert(rotation_views(out@) =~= Seq::empty());
        while i < self.partitions.len()
            invariant
                i <= self.partitions.len(),
                self.inv(),
                start.wf(),
                start.partitions.len() == self.partitions@.len(),
                start.seal_first(i as nat, journal_id@, rotation_views(out@)) == Some(self@),
                forall|k: int|
                    0 <= k < out@.len() ==> is_segment_id(
                        (#[trigger] rotation_views(out@)[k]).memtable_id,
                    ),
            decreases self.partitions.len() - i,
        {
            let ghost pre = self@;
            let ghost done = rotation_views(out@);
            proof {
                lemma_seal_first_keeps(start, i as nat, journal_id@, done);
                assert(pre.partitions[i as int] == start.partitions[i as int]);
                self.lemma_names();
                assert(pre.names()[i as int] == pre.partitions[i as int].name);
                assert(pre.index_of(pre.partitions[i as int].name) == i);
            }
            let id = generate_segment_id();
            let ghost before = self.partitions@;
            match self.partitions[i].tree.seal_active(id.clone()) {
                None => {
                    proof {
                        assert(self.partitions@ =~= before.update(i as int, self.partitions@[i as int]));
                        assert(self@.partitions =~= pre.partitions);
                    }
                },
                Some(memtable) => {
                    let name = self.partitions[i].name.clone();
                    proof {
                        let tree = pre.tree(name@);
                        assert(self@.partitions =~= pre.with_tree(name@, tree.seal(id@)).partitions);
                        lemma_seal_memtable_keeps(pre, i as int, id@);
                        assert forall|k: int| 0 <= k < self.partitions@.len() implies (
                        #[trigger] self.partitions@[k]).wf() by {
                            if k != i {
                                assert(self.partitions@[k] == before[k]);
                            }
                        }
                    }
                    self.flush_manager.enqueue_task(
                        name.clone(),
                        Task {
                            id: id.clone(),
                            sealed_memtable: memtable,
                            partition: PartitionHandle { name: name.clone() },
                        },
                    );
                    self.flush_signal.raise();
                    out.push(
                        Rotation { partition: name, memtable_id: id, journal_id: journal_id.clone() },
                    );
                    proof {
                        let after = rotation_views(out@);
                        assert(after =~= done.push(out@[out@.len() - 1]@));
                        assert(after.drop_last() =~= done);
                        assert(self@ == pre.seal_memtable(pre.partitions[i as int].name, id@));
                        assert forall|k: int| 0 <= k < out@.len() implies is_segment_id(
                            (#[trigger] rotation_views(out@)[k]).memtable_id,
                        ) by {
                            if k < done.len() {
                                assert(after[k] == done[k]);
                            }
                        }
                    }
                },
            }
            i += 1;
        }
        proof {
            lemma_seal_first_keeps(start, i as nat, journal_id@, rotation_views(out@));
        }
        let ghost id = journal_id@;
        self.journal_manager.rotate_journal(journal_id, seqnos);
        proof {
            crate::queued::lemma_seal_replayed_queued(start, id, rotation_views(out@));
        }
        out
    }
}

/// The records stand in the order of their sequence numbers.
pub open spec fn by_seqno(records: Seq<RecordView>) -> bool {
    forall|i: int, j: int|
        0 <= i < j < records.len() ==> (#[trigger] records[i]).seqno <= (#[trigger] records[j]).seqno
}

/// Puts the records of the shards of a journal into the order of their
/// sequence numbers.
pub fn sort_by_seqno(records: Vec<JournalRecord>) -> (r: Vec<JournalRecord>)
    ensures
        by_seqno(record_views(r@)),
        record_views(r@).to_multiset() == record_views(records@).to_multiset(),
        r@.len() == records@.len(),
{
    let mut rest = records;
    let mut out: Vec<JournalRecord> = Vec::new();
    let ghost all = record_views(records@).to_multiset();
    proof {
        broadcast use vstd::seq_lib::group_to_multiset_ensures;

        assert(record_views(out@) =~= Seq::empty());
        assert(record_views(out@).to_multiset() =~= vstd::multiset::Multiset::empty());
        assert(record_views(rest@).to_multiset().add(record_views(out@).to_multiset()) =~= all);
    }
    while rest.len() > 0
        invariant
            by_seqno(record_views(out@)),
            record_views(rest@).to_multiset().add(record_views(out@).to_multiset()) == all,
            rest@.len() + out@.len() == records@.len(),
        decreases rest.len(),
    {
        let ghost before_rest = record_views(rest@);
        let ghost before_out = record_views(out@);
        let record = rest.pop().unwrap();
        proof {
            broadcast use vstd::seq_lib::group_to_multiset_ensures;

            assert(before_rest =~= record_views(rest@).push(record@));
        }
        let mut p: usize = 0;
        while p < out.len() && out[p].seqno < record.seqno
            invariant
                p <= out.len(),
                before_out == record_views(out@),
                forall|i: int| 0 <= i < p ==> (#[trigger] before_out[i]).seqno < record.seqno,
            decreases out.len() - p,
        {
            p += 1;
        }
        out.insert(p, record);
        proof {
            broadcast use vstd::seq_lib::group_to_multiset_ensures;

            let after = record_views(out@);
            assert(after =~= before_out.insert(p as int, record@));
            assert(after.remove(p as int) =~= before_out);
            assert(after.to_multiset().remove(after[p as int]) == before_out.to_multiset());
            assert(after.to_multiset() =~= before_out.to_multiset().insert(record@));
            assert(record_views(rest@).to_multiset().add(after.to_multiset()) =~= all);
            assert forall|i: int, j: int| 0 <= i < j < after.len() implies (
            #[trigger] after[i]).seqno <= (#[trigger] after[j]).seqno by {
                if j < p {
                    assert(after[i] == before_out[i] && after[j] == before_out[j]);
                } else if i < p && j == p {
                    assert(after[i] == before_out[i]);
                } else if i < p && j > p {
                    assert(after[i] == before_out[i] && after[j] == before_out[j - 1]);
                } else if i == p {
                    assert(after[j] == before_out[j - 1]);
                    if j - 1 > p {
                        assert(before_out[p as int].seqno <= before_out[j - 1].seqno);
                    }
                } else {
                    assert(after[i] == before_out[i - 1] && after[j] == before_out[j - 1]);
                }
            }
        }
    }
    proof {
        broadcast use vstd::seq_lib::group_to_multiset_ensures;

        assert(record_views(rest@) =~= Seq::empty());
        assert(record_views(rest@).to_multiset() =~= vstd::multiset::Multiset::empty());
        assert(vstd::multiset::Multiset::<RecordView>::empty().add(
            record_views(out@).to_multiset(),
        ) =~= record_views(out@).to_multiset());
    }
    out
}

} // verus!
