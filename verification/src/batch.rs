//! Batches: several mutations that are journaled and applied together.

use crate::error::{Error, StorageError};
use crate::history::below;
use crate::journal::record::{frame_size, JournalRecord, RecordView};
use crate::keyspace::{Keyspace, KeyspaceView};
use crate::partition::{
    is_valid_name, lemma_checked_keeps, lemma_write_keeps, PartitionHandle, PartitionKey,
    WriteOutcome,
};
use crate::value::{
    SeqNo, UserKey, UserValue, Value, ValueType, ValueView, MAX_KEY_LEN, MAX_VALUE_LEN,
};
use vstd::prelude::*;

verus! {

/// One mutation of a batch.
#[derive(Debug)]
pub struct Item {
    /// The name of the partition that the mutation goes to.
    pub partition: PartitionKey,
    pub key: UserKey,
    pub value: UserValue,
    pub value_type: ValueType,
}

/// The mathematical value of an [`Item`].
pub struct ItemView {
    pub partition: Seq<char>,
    pub key: Seq<u8>,
    pub value: Seq<u8>,
    pub value_type: ValueType,
}

impl View for Item {
    type V = ItemView;

    open spec fn view(&self) -> ItemView {
        ItemView {
            partition: self.partition@,
            key: self.key@,
            value: self.value@,
            value_type: self.value_type,
        }
    }
}

impl ItemView {
    /// The version that the mutation writes under the sequence number `seqno`.
    pub open spec fn version(self, seqno: SeqNo) -> ValueView {
        ValueView { key: self.key, value: self.value, seqno, value_type: self.value_type }
    }

    /// The record of the mutation under the sequence number `seqno`.
    pub open spec fn record(self, seqno: SeqNo) -> RecordView {
        RecordView {
            partition: self.partition,
            key: self.key,
            value: self.value,
            value_type: self.value_type,
            seqno,
        }
    }

    /// The key and the value are no longer than a key and a value may be.
    pub open spec fn fits(self) -> bool {
        self.key.len() <= MAX_KEY_LEN && self.value.len() <= MAX_VALUE_LEN
    }
}

/// The views of a list of items.
pub open spec fn item_views(s: Seq<Item>) -> Seq<ItemView> {
    s.map_values(|i: Item| i@)
}

/// The names of a list of strings.
pub open spec fn string_views(s: Seq<String>) -> Seq<Seq<char>> {
    s.map_values(|n: String| n@)
}

/// The partitions that the items go to, each once, in the order in which they first occur.
pub open spec fn touched(items: Seq<ItemView>) -> Seq<Seq<char>>
    decreases items.len(),
{
    if items.len() == 0 {
        Seq::empty()
    } else {
        let before = touched(items.drop_last());
        if before.contains(items.last().partition) {
            before
        } else {
            before.push(items.last().partition)
        }
    }
}

/// The records of the items, under sequence numbers that count up from `first`.
pub open spec fn records_of(items: Seq<ItemView>, first: SeqNo) -> Seq<RecordView> {
    Seq::new(items.len(), |i: int| items[i].record((first + i) as SeqNo))
}

impl KeyspaceView {
    /// Whether the keyspace has the partitions that the items go to.
    pub open spec fn has_all(self, items: Seq<ItemView>) -> bool {
        forall|i: int| 0 <= i < items.len() ==> self.has_partition((#[trigger] items[i]).partition)
    }

    /// The keyspace after the items were journaled and written one after
    /// the other, each under the sequence number that was due.
    pub open spec fn apply_batch(self, items: Seq<ItemView>) -> KeyspaceView
        decreases items.len(),
    {
        if items.len() == 0 {
            self
        } else {
            let before = self.apply_batch(items.drop_last());
            before.write(items.last().partition, items.last().version(before.seqno))
        }
    }

    /// The keyspace after a check of the partition `name` for an overflow
    /// that had the outcome `outcome`.
    pub open spec fn after_check(self, name: Seq<char>, outcome: WriteOutcome) -> KeyspaceView {
        self.overflow(
            name,
            self.tree(name).active_size,
            crate::partition::rotation_views(outcome.rotations@),
        )->0.throttle(name)
    }

    /// The keyspace after the partitions `names` were checked for an
    /// overflow one after the other, with the outcomes `outcomes`.
    pub open spec fn after_checks(
        self,
        names: Seq<Seq<char>>,
        outcomes: Seq<WriteOutcome>,
    ) -> KeyspaceView
        decreases names.len(),
    {
        if names.len() == 0 || outcomes.len() != names.len() {
            self
        } else {
            self.after_checks(names.drop_last(), outcomes.drop_last()).after_check(
                names.last(),
                outcomes.last(),
            )
        }
    }

    /// `outcomes` are the outcomes of checking the partitions `names` for an
    /// overflow one after the other.
    pub open spec fn checks_ok(self, names: Seq<Seq<char>>, outcomes: Seq<WriteOutcome>) -> bool
        decreases names.len(),
    {
        if outcomes.len() != names.len() {
            false
        } else if names.len() == 0 {
            true
        } else {
            let before = self.after_checks(names.drop_last(), outcomes.drop_last());
            &&& self.checks_ok(names.drop_last(), outcomes.drop_last())
            &&& before.checked(
                names.last(),
                before.tree(names.last()).active_size,
                outcomes.last(),
                before.after_check(names.last(), outcomes.last()),
            )
        }
    }
}

/// Every partition that a batch touches is the partition of one of its items.
pub proof fn lemma_touched(items: Seq<ItemView>, j: int) -> (i: int)
    requires
        0 <= j < touched(items).len(),
    ensures
        0 <= i < items.len(),
        items[i].partition == touched(items)[j],
    decreases items.len(),
{
    let before = touched(items.drop_last());
    if j < before.len() {
        let i = lemma_touched(items.drop_last(), j);
        assert(items.drop_last()[i] == items[i]);
        i
    } else {
        items.len() - 1
    }
}

impl KeyspaceView {
    /// `post` and `r` are what the commit of a batch leaves of the keyspace
    /// and returns, where `journaled` tells whether the records of the batch
    /// reached the journal.
    ///
    /// The commit fails with `PartitionNotFound` if the keyspace lacks a
    /// partition that the batch writes to, and else with `SeqNoExhausted` if
    /// there are not enough sequence numbers left; neither changes the
    /// keyspace. Else it uses up one sequence number for each item, and
    /// fails with the error of the journal if there was one, in which case
    /// no memtable is touched. Else every item is written, and then each
    /// partition that the batch wrote to is checked once for an overflow.
    pub open spec fn committed(
        self,
        items: Seq<ItemView>,
        journaled: Result<(), std::io::Error>,
        r: Result<BatchOutcome, Error>,
        post: KeyspaceView,
    ) -> bool {
        match r {
            Ok(outcome) => {
                &&& self.has_all(items)
                &&& self.seqno + items.len() <= u64::MAX
                &&& items.len() > 0 ==> journaled is Ok
                &&& string_views(outcome.partitions@) == touched(items)
                &&& self.apply_batch(items).checks_ok(touched(items), outcome.outcomes@)
                &&& post == self.apply_batch(items).after_checks(
                    touched(items),
                    outcome.outcomes@,
                )
            },
            Err(Error::Storage(StorageError::PartitionNotFound)) => {
                &&& !self.has_all(items)
                &&& post == self
            },
            Err(Error::Storage(StorageError::SeqNoExhausted)) => {
                &&& self.has_all(items)
                &&& self.seqno + items.len() > u64::MAX
                &&& post == self
            },
            Err(Error::Io(e)) => {
                &&& self.has_all(items)
                &&& self.seqno + items.len() <= u64::MAX
                &&& items.len() > 0
                &&& journaled == Err::<(), std::io::Error>(e)
                &&& post == (KeyspaceView { seqno: (self.seqno + items.len()) as SeqNo, ..self })
            },
            Err(_) => false,
        }
    }
}

/// Writing a batch to partitions that the keyspace has, with enough sequence
/// numbers left, leaves a well-formed keyspace with the same partitions.
pub proof fn lemma_apply_batch_keeps(pre: KeyspaceView, items: Seq<ItemView>)
    requires
        pre.wf(),
        pre.has_all(items),
        pre.seqno + items.len() <= u64::MAX,
    ensures
        pre.apply_batch(items).wf(),
        pre.apply_batch(items).names() == pre.names(),
        pre.apply_batch(items).seqno == pre.seqno + items.len(),
    decreases items.len(),
{
    if items.len() > 0 {
        let shorter = items.drop_last();
        assert forall|i: int| 0 <= i < shorter.len() implies pre.has_partition(
            (#[trigger] shorter[i]).partition,
        ) by {
            assert(shorter[i] == items[i]);
        }
        lemma_apply_batch_keeps(pre, shorter);
        let before = pre.apply_batch(shorter);
        assert(items.last() == items[items.len() - 1]);
        lemma_write_keeps(before, items.last().partition, items.last().version(before.seqno));
    }
}

/// A batch of writes: insertions and removals that are journaled together
/// and applied together, under sequence numbers that follow each other.
#[derive(Debug)]
pub struct Batch {
    items: Vec<Item>,
}

impl View for Batch {
    type V = Seq<ItemView>;

    closed spec fn view(&self) -> Seq<ItemView> {
        item_views(self.items@)
    }
}

/// What a writer has to do once its batch is written.
#[derive(Debug)]
pub struct BatchOutcome {
    /// The partitions that the batch wrote to, each once, in the order in
    /// which they first occur in the batch.
    pub partitions: Vec<PartitionKey>,
    /// For each of these partitions, what is left to do for it.
    pub outcomes: Vec<WriteOutcome>,
}

impl Batch {
    /// The keys and the values of the batch are no longer than they may be.
    pub closed spec fn wf(&self) -> bool {
        forall|i: int| 0 <= i < self@.len() ==> (#[trigger] self@[i]).fits()
    }

    /// An empty batch.
    pub fn new() -> (r: Self)
        ensures
            r.wf(),
            r@ == Seq::<ItemView>::empty(),
    {
        let r = Batch { items: Vec::new() };
        assert(r@ =~= Seq::empty());
        r
    }

    /// The number of mutations in the batch.
    pub fn len(&self) -> (r: usize)
        ensures
            r == self@.len(),
    {
        self.items.len()
    }

    /// Whether the batch holds no mutation.
    pub fn is_empty(&self) -> (r: bool)
        ensures
            r == (self@.len() == 0),
    {
        self.items.len() == 0
    }

    /// Adds the insertion of a key-value pair into the partition.
    pub fn insert(&mut self, partition: &PartitionHandle, key: &[u8], value: &[u8])
        requires
            old(self).wf(),
            key@.len() <= MAX_KEY_LEN,
            value@.len() <= MAX_VALUE_LEN,
        ensures
            final(self).wf(),
            final(self)@ == old(self)@.push(
                ItemView {
                    partition: partition@,
                    key: key@,
                    value: value@,
                    value_type: ValueType::Value,
                },
            ),
    {
        self.items.push(
            Item {
                partition: partition.name.clone(),
                key: vstd::slice::slice_to_vec(key),
                value: vstd::slice::slice_to_vec(value),
                value_type: ValueType::Value,
            },
        );
        proof {
            let added = ItemView {
                partition: partition@,
                key: key@,
                value: value@,
                value_type: ValueType::Value,
            };
            assert(self@ =~= old(self)@.push(added));
            assert forall|i: int| 0 <= i < self@.len() implies (#[trigger] self@[i]).fits() by {
                if i < old(self)@.len() {
                    assert(self@[i] == old(self)@[i]);
                }
            }
        }
    }

    /// Adds the removal of a key from the partition.
    pub fn remove(&mut self, partition: &PartitionHandle, key: &[u8])
        requires
            old(self).wf(),
            key@.len() <= MAX_KEY_LEN,
        ensures
            final(self).wf(),
            final(self)@ == old(self)@.push(
                ItemView {
                    partition: partition@,
                    key: key@,
                    value: Seq::empty(),
                    value_type: ValueType::Tombstone,
                },
            ),
    {
        let nothing: Vec<u8> = Vec::new();
        assert(nothing@ =~= Seq::empty());
        self.items.push(
            Item {
                partition: partition.name.clone(),
                key: vstd::slice::slice_to_vec(key),
                value: nothing,
                value_type: ValueType::Tombstone,
            },
        );
        proof {
            let added = ItemView {
                partition: partition@,
                key: key@,
                value: Seq::empty(),
                value_type: ValueType::Tombstone,
            };
            assert(self@ =~= old(self)@.push(added));
            assert forall|i: int| 0 <= i < self@.len() implies (#[trigger] self@[i]).fits() by {
                if i < old(self)@.len() {
                    assert(self@[i] == old(self)@[i]);
                }
            }
        }
    }

    /// The records of the batch, for the journal, under sequence numbers
    /// that count up from `first`. Returns `None` if there are not enough
    /// sequence numbers from `first` on.
    pub fn records(&self, first: SeqNo) -> (r: Option<Vec<JournalRecord>>)
        ensures
            r is Some <==> first + self@.len() <= u64::MAX,
            r matches Some(records) ==> crate::journal::record::record_views(records@)
                == records_of(self@, first),
    {
        if self.items.len() as u64 > u64::MAX - first {
            return None;
        }
        let mut out: Vec<JournalRecord> = Vec::new();
        let mut i: usize = 0;
        let ghost all = records_of(self@, first);
        assert(crate::journal::record::record_views(out@) =~= all.take(0));
        while i < self.items.len()
            invariant
                i <= self.items.len(),
                first + self.items@.len() <= u64::MAX,
                all == records_of(self@, first),
                crate::journal::record::record_views(out@) == all.take(i as int),
            decreases self.items.len() - i,
        {
            let item = &self.items[i];
            let ghost before = crate::journal::record::record_views(out@);
            out.push(
                JournalRecord {
                    partition: item.partition.clone(),
                    key: vstd::slice::slice_to_vec(item.key.as_slice()),
                    value: vstd::slice::slice_to_vec(item.value.as_slice()),
                    value_type: item.value_type,
                    seqno: first + i as u64,
                },
            );
            proof {
                assert(self@[i as int] == item@);
                assert(crate::journal::record::record_views(out@) =~= before.push(all[i as int]));
                assert(before.push(all[i as int]) =~= all.take(i + 1));
            }
            i += 1;
        }
        assert(all.take(i as int) =~= all);
        Some(out)
    }

    /// The records of the batch, for the journal, under the sequence
    /// numbers that are due.
    ///
    /// # Errors
    ///
    /// Will return `PartitionNotFound` if the keyspace lacks a partition that
    /// the batch writes to, and else `SeqNoExhausted` if there are not enough
    /// sequence numbers left: the errors with which the commit itself would fail.
    pub fn journal_records(&self, keyspace: &Keyspace) -> (r: Result<Vec<JournalRecord>, Error>)
        requires
            keyspace.wf(),
            self.wf(),
        ensures
            match r {
                Ok(records) => {
                    &&& keyspace@.has_all(self@)
                    &&& keyspace@.seqno + self@.len() <= u64::MAX
                    &&& crate::journal::record::record_views(records@) == records_of(
                        self@,
                        keyspace@.seqno,
                    )
                    &&& forall|i: int| 0 <= i < records@.len() ==> (#[trigger] records@[i])@.is_valid()
                },
                Err(Error::Storage(StorageError::PartitionNotFound)) => !keyspace@.has_all(self@),
                Err(Error::Storage(StorageError::SeqNoExhausted)) => keyspace@.has_all(self@)
                    && keyspace@.seqno + self@.len() > u64::MAX,
                Err(_) => false,
            },
    {
        let mut k: usize = 0;
        let ghost items = self@;
        while k < self.items.len()
            invariant
                k <= self.items.len(),
                items == self@,
                keyspace.wf(),
                forall|j: int|
                    0 <= j < k ==> keyspace@.has_partition((#[trigger] items[j]).partition)
                        && is_valid_name(items[j].partition),
            decreases self.items.len() - k,
        {
            match keyspace.position(&self.items[k].partition) {
                None => {
                    assert(!keyspace@.has_partition(items[k as int].partition));
                    return Err(Error::Storage(StorageError::PartitionNotFound));
                },
                Some(i) => {
                    assert(is_valid_name(keyspace@.partitions[i as int].name));
                },
            }
            k += 1;
        }
        match self.records(keyspace.instant()) {
            None => Err(Error::Storage(StorageError::SeqNoExhausted)),
            Some(records) => {
                proof {
                    let views = crate::journal::record::record_views(records@);
                    assert(views.len() == records@.len());
                    assert(views.len() == items.len());
                    assert forall|i: int| 0 <= i < records@.len() implies (
                    #[trigger] records@[i])@.is_valid() by {
                        assert(views[i] == records@[i]@);
                        assert(self@[i].fits());
                        assert(keyspace@.has_partition(items[i].partition) && is_valid_name(
                            items[i].partition,
                        ));
                    }
                }
                Ok(records)
            },
        }
    }

    /// The partitions that the batch writes to, each once, in the order in
    /// which they first occur.
    pub fn partitions(&self) -> (r: Vec<PartitionKey>)
        ensures
            string_views(r@) == touched(self@),
    {
        let mut out: Vec<PartitionKey> = Vec::new();
        let mut i: usize = 0;
        let ghost all = self@;
        proof {
            assert(all.take(0) =~= Seq::empty());
            assert(string_views(out@) =~= Seq::empty());
        }
        while i < self.items.len()
            invariant
                i <= self.items.len(),
                all == self@,
                string_views(out@) == touched(all.take(i as int)),
            decreases self.items.len() - i,
        {
            let name = &self.items[i].partition;
            proof {
                assert(all.take(i + 1).drop_last() =~= all.take(i as int));
                assert(all.take(i + 1).last() == self.items@[i as int]@);
            }
            let ghost before = string_views(out@);
            let mut known = false;
            let mut j: usize = 0;
            while j < out.len()
                invariant
                    j <= out.len(),
                    before == string_views(out@),
                    known <==> exists|k: int| 0 <= k < j && before[k] == name@,
                decreases out.len() - j,
            {
                if out[j] == *name {
                    assert(before[j as int] == name@);
                    known = true;
                }
                j += 1;
            }
            assert(known == before.contains(name@));
            if !known {
                out.push(name.clone());
                assert(string_views(out@) =~= before.push(name@));
            }
            i += 1;
        }
        proof {
            assert(all.take(i as int) =~= all);
        }
        out
    }

    /// Writes the batch: each item under its own sequence number, the
    /// numbers following each other from [`Keyspace::instant`] on.
    ///
    /// The caller appends the records of the batch, as [`Batch::records`]
    /// gives them for [`Keyspace::instant`], to one shard of the journal
    /// first, and tells in `journaled` how that went. The outcome tells what
    /// is left for it to do.
    ///
    /// # Errors
    ///
    /// Will return the error of the journal if there was one, and
    /// `PartitionNotFound` or `SeqNoExhausted` as [`KeyspaceView::committed`] says.
    pub fn commit(self, keyspace: &mut Keyspace, journaled: Result<(), std::io::Error>) -> (r: Result<
        BatchOutcome,
        Error,
    >)
        requires
            old(keyspace).wf(),
            self.wf(),
        ensures
            final(keyspace).wf(),
            old(keyspace)@.committed(self@, journaled, r, final(keyspace)@),
    {
        let n = self.items.len();
        let ghost items = self@;
        let ghost pre = keyspace@;
        let mut k: usize = 0;
        while k < n
            invariant
                k <= n,
                n == self.items@.len(),
                items == self@,
                keyspace.inv(),
                keyspace@ == pre,
                pre.queued(),
                forall|j: int| 0 <= j < k ==> pre.has_partition((#[trigger] items[j]).partition),
            decreases n - k,
        {
            if keyspace.position(&self.items[k].partition).is_none() {
                assert(!pre.has_partition(items[k as int].partition));
                return Err(Error::Storage(StorageError::PartitionNotFound));
            }
            k += 1;
        }
        if n as u64 > u64::MAX - keyspace.seqno {
            return Err(Error::Storage(StorageError::SeqNoExhausted));
        }
        if n == 0 {
            let partitions: Vec<PartitionKey> = Vec::new();
            let outcomes: Vec<WriteOutcome> = Vec::new();
            assert(string_views(partitions@) =~= touched(items));
            return Ok(BatchOutcome { partitions, outcomes });
        }
        match journaled {
            Err(e) => {
                keyspace.seqno = keyspace.seqno + n as u64;
                proof {
                    assert(keyspace@.partitions == pre.partitions);
                    assert forall|j: int| 0 <= j < keyspace@.partitions.len() implies {
                        &&& is_valid_name((#[trigger] keyspace@.partitions[j]).name)
                        &&& below(keyspace@.partitions[j].tree.history(), keyspace@.seqno as int)
                    } by {
                        assert(below(pre.partitions[j].tree.history(), pre.seqno as int));
                    }
                    crate::queued::lemma_same_queued(pre, keyspace@);
                }
                return Err(Error::Io(e));
            },
            Ok(_) => {},
        }
        k = 0;
        proof {
            assert(items.take(0) =~= Seq::empty());
        }
        while k < n
            invariant
                k <= n,
                n == self.items@.len(),
                items == self@,
                self.wf(),
                pre.wf(),
                pre.has_all(items),
                pre.seqno + n <= u64::MAX,
                keyspace.inv(),
                keyspace@ == pre.apply_batch(items.take(k as int)),
            decreases n - k,
        {
            let item = &self.items[k];
            let ghost before = keyspace@;
            let ghost done = items.take(k as int);
            proof {
                assert(items.take(k + 1).drop_last() =~= done);
                assert(items.take(k + 1).last() == item@);
                assert(items[k as int] == item@);
                assert forall|j: int| 0 <= j < done.len() implies pre.has_partition(
                    (#[trigger] done[j]).partition,
                ) by {
                    assert(done[j] == items[j]);
                }
                lemma_apply_batch_keeps(pre, done);
                assert(pre.has_partition(item@.partition));
                assert(before.has_partition(item@.partition));
                lemma_write_keeps(before, item@.partition, item@.version(before.seqno));
            }
            let i = match keyspace.position(&item.partition) {
                Some(i) => i,
                None => 0,
            };
            let seqno = keyspace.seqno;
            keyspace.seqno = seqno + 1;
            let name_len = item.partition.as_str().unicode_len();
            keyspace.journal_manager.record_write(
                frame_size(name_len, item.key.len(), item.value.len()),
            );
            let ghost parts = keyspace.partitions@;
            keyspace.partitions[i].tree.append(
                Value::new(
                    vstd::slice::slice_to_vec(item.key.as_slice()),
                    vstd::slice::slice_to_vec(item.value.as_slice()),
                    seqno,
                    item.value_type,
                ),
            );
            proof {
                let after = before.write(item@.partition, item@.version(before.seqno));
                assert(self@[k as int].fits());
                assert(keyspace@.partitions =~= after.partitions);
                assert(keyspace@ == after);
                assert forall|j: int| 0 <= j < keyspace.partitions@.len() implies (
                #[trigger] keyspace.partitions@[j]).wf() by {
                    if j != i {
                        assert(keyspace.partitions@[j] == parts[j]);
                    }
                }
            }
            k += 1;
        }
        proof {
            assert(items.take(k as int) =~= items);
            lemma_apply_batch_keeps(pre, items);
        }
        let ghost applied = keyspace@;
        let partitions = self.partitions();
        let ghost names = string_views(partitions@);
        let mut outcomes: Vec<WriteOutcome> = Vec::new();
        let mut p: usize = 0;
        proof {
            assert(names.take(0) =~= Seq::empty());
            assert(outcomes@.take(0) =~= outcomes@);
        }
        while p < partitions.len()
            invariant
                p <= partitions.len(),
                outcomes@.len() == p,
                names == string_views(partitions@),
                names == touched(items),
                pre.has_all(items),
                applied.names() == pre.names(),
                keyspace.inv(),
                keyspace@.names() == applied.names(),
                applied.checks_ok(names.take(p as int), outcomes@),
                keyspace@ == applied.after_checks(names.take(p as int), outcomes@),
            decreases partitions.len() - p,
        {
            let ghost before = keyspace@;
            let ghost done = outcomes@;
            proof {
                let j = lemma_touched(items, p as int);
                assert(pre.has_partition(items[j].partition));
                assert(before.has_partition(names[p as int]));
            }
            let i = match keyspace.position(&partitions[p]) {
                Some(i) => i,
                None => 0,
            };
            let size = keyspace.partitions[i].tree.active_size();
            let outcome = keyspace.overflow_at(i, size);
            proof {
                lemma_checked_keeps(before, names[p as int], size, outcome, keyspace@);
                assert(names.take(p + 1).drop_last() =~= names.take(p as int));
                assert(names.take(p + 1).last() == names[p as int]);
            }
            outcomes.push(outcome);
            proof {
                assert(outcomes@.drop_last() =~= done);
                assert(outcomes@.last() == outcome);
            }
            p += 1;
        }
        proof {
            assert(names.take(p as int) =~= names);
            crate::queued::lemma_apply_batch_queued(pre, items);
            assert forall|j: int| 0 <= j < names.len() implies applied.has_partition(
                #[trigger] names[j],
            ) by {
                let i = lemma_touched(items, j);
                assert(pre.has_partition(items[i].partition));
            }
            crate::queued::lemma_checks_queued(applied, names, outcomes@);
        }
        Ok(BatchOutcome { partitions, outcomes })
    }
}

} // verus!
