//! The keyspace: the partitions, the journals they share, and the managers
//! that coordinate flushes and compactions.

use crate::compaction::manager::CompactionManager;
use crate::config::{Config, CreateOptions};
use crate::error::{Error, StorageError};
use crate::flush::manager::{
    collected, min, queue_names, queue_views, FlushManager, FlushManagerView, FlushQueue, TaskView,
};
use crate::history::{below, History};
use crate::journal::manager::{released, JournalManager, JournalManagerView};
use crate::names::{find, lemma_find, names};
use crate::batch::{Batch, ItemView};
use crate::partition::{is_valid_name, PartitionHandle, PartitionHandleInner, PartitionView};
use crate::signal::Signal;
use crate::tree_inner::{max_lsn, RunView, TreeInner, TreeView};
use crate::value::SeqNo;
use std::sync::Arc;
use std_semaphore::Semaphore;
use vstd::prelude::*;

verus! {

/// The views of a list of partitions.
pub open spec fn partition_views(s: Seq<PartitionHandleInner>) -> Seq<PartitionView> {
    s.map_values(|p: PartitionHandleInner| p@)
}

/// The names of a list of partitions.
pub open spec fn partition_names(s: Seq<PartitionView>) -> Seq<Seq<char>> {
    s.map_values(|p: PartitionView| p.name)
}

/// The flush tasks that stand for the sealed memtables of a partition.
pub open spec fn tasks_for(p: PartitionView) -> Seq<TaskView> {
    p.tree.sealed.map_values(
        |r: RunView| TaskView { id: r.id, partition: p.name, versions: r.versions },
    )
}

/// The mathematical value of a keyspace.
pub struct KeyspaceView {
    /// The options of the keyspace.
    pub config: Config,
    /// The sequence number that the next mutation gets.
    pub seqno: SeqNo,
    /// The partitions, in the order in which they were opened.
    pub partitions: Seq<PartitionView>,
    /// The journals.
    pub journals: JournalManagerView,
    /// The flush tasks and the list of rotations.
    pub flushes: FlushManagerView,
    /// The partitions that wait for a compaction.
    pub compactions: Seq<Seq<char>>,
    /// The semaphore on which the flush workers wait.
    pub flush_semaphore: Semaphore,
    /// How often the flush semaphore was released: once for each memtable
    /// that was sealed.
    pub flush_signals: nat,
    /// The semaphore on which the compaction workers wait.
    pub compaction_semaphore: Semaphore,
    /// How often the compaction semaphore was released: once for each
    /// notification of the compaction manager.
    pub compaction_signals: nat,
}

impl KeyspaceView {
    /// The names of the partitions.
    pub open spec fn names(self) -> Seq<Seq<char>> {
        partition_names(self.partitions)
    }

    /// Whether the keyspace has a partition of that name.
    pub open spec fn has_partition(self, name: Seq<char>) -> bool {
        self.names().contains(name)
    }

    /// The position of the partition of that name.
    pub open spec fn index_of(self, name: Seq<char>) -> int {
        self.names().index_of(name)
    }

    /// The partition of that name.
    pub open spec fn partition(self, name: Seq<char>) -> PartitionView {
        self.partitions[self.index_of(name)]
    }

    /// The tree of the partition of that name.
    pub open spec fn tree(self, name: Seq<char>) -> TreeView {
        self.partition(name).tree
    }

    /// Every version that the partition of that name holds.
    pub open spec fn history(self, name: Seq<char>) -> History {
        self.tree(name).history()
    }

    /// The keyspace with `tree` in place of the tree of the partition `name`.
    pub open spec fn with_tree(self, name: Seq<char>, tree: TreeView) -> KeyspaceView {
        KeyspaceView {
            partitions: self.partitions.update(
                self.index_of(name),
                PartitionView { tree, ..self.partition(name) },
            ),
            ..self
        }
    }

    /// No two partitions have the same name, each name is valid, and every
    /// version that a partition holds has a sequence number that was given out.
    pub open spec fn wf(self) -> bool {
        &&& self.names().no_duplicates()
        &&& forall|i: int|
            0 <= i < self.partitions.len() ==> {
                &&& is_valid_name((#[trigger] self.partitions[i]).name)
                &&& below(self.partitions[i].tree.history(), self.seqno as int)
            }
    }

    /// Every sealed memtable is queued for its flush, and nothing else is:
    /// the tasks that are queued for a partition are those of its sealed
    /// memtables, in the order in which they were sealed; no partition has
    /// two queues; and a queue that is not that of a partition is empty.
    pub open spec fn queued(self) -> bool {
        &&& queue_names(self.flushes.queues).no_duplicates()
        &&& forall|i: int|
            0 <= i < self.partitions.len() ==> self.flushes.tasks_of(
                (#[trigger] self.partitions[i]).name,
            ) == tasks_for(self.partitions[i])
        &&& forall|q: int|
            0 <= q < self.flushes.queues.len() ==> self.has_partition(
                (#[trigger] self.flushes.queues[q]).name,
            ) || self.flushes.queues[q].tasks.len() == 0
    }

    /// A keyspace without partitions, at sequence number `seqno`, which
    /// wakes its workers through the two semaphores and has not woken one yet.
    pub open spec fn empty(
        config: Config,
        seqno: SeqNo,
        flush_semaphore: Semaphore,
        compaction_semaphore: Semaphore,
    ) -> KeyspaceView {
        KeyspaceView {
            config,
            seqno,
            partitions: Seq::empty(),
            journals: JournalManagerView { active_size: 0, sealed: Seq::empty() },
            flushes: FlushManagerView { queues: Seq::empty(), lru: Seq::empty() },
            compactions: Seq::empty(),
            flush_semaphore,
            flush_signals: 0,
            compaction_semaphore,
            compaction_signals: 0,
        }
    }

    /// The keyspace after a partition was opened: a partition that is there
    /// stays as it is, a new one comes last and is empty.
    pub open spec fn open_partition(self, name: Seq<char>, config: CreateOptions) -> KeyspaceView {
        if self.has_partition(name) {
            self
        } else {
            KeyspaceView {
                partitions: self.partitions.push(
                    PartitionView { name, tree: TreeInner::new_view(), config },
                ),
                ..self
            }
        }
    }

    /// The keyspace after the partition `name` was deleted: it leaves the
    /// list of partitions, the flush manager and the compaction manager, and
    /// no journal is kept for it any more.
    pub open spec fn delete_partition(self, name: Seq<char>) -> KeyspaceView {
        KeyspaceView {
            partitions: self.partitions.remove(self.index_of(name)),
            journals: self.journals.compact(name, u64::MAX),
            flushes: self.flushes.remove_partition(name),
            compactions: self.compactions.filter(|n: Seq<char>| n != name),
            ..self
        }
    }
}

/// What a flush worker has to do once the keyspace has taken note of its flush.
#[derive(Debug)]
pub struct FlushOutcome {
    /// The number of sealed memtables that have become segments.
    pub flushed: usize,
    /// The identifiers of the sealed journals that no partition needs any
    /// more; their directories are to be deleted.
    pub deleted_journals: Vec<String>,
}

impl KeyspaceView {
    /// The number of sealed memtables of the partition `name` that a flush
    /// of `count` of them turns into segments: no more than are sealed, and
    /// no more than are queued.
    pub open spec fn flushable(self, name: Seq<char>, count: int) -> int {
        min(count, min(self.tree(name).sealed.len() as int, self.flushes.tasks_of(name).len() as int))
    }

    /// The journals after the partition `name`, whose tree is now `tree`,
    /// has everything on disk that its segments hold.
    pub open spec fn persisted(self, name: Seq<char>, tree: TreeView) -> JournalManagerView {
        match max_lsn(tree.segments) {
            Some(lsn) => self.journals.compact(name, lsn),
            None => self.journals,
        }
    }

    /// The keyspace after the `count` oldest sealed memtables of the
    /// partition `name` were written out: they become segments, their tasks
    /// leave the queue, the partition moves to the end of the list of
    /// rotations, the journals that no partition needs any more are dropped,
    /// and the compaction manager takes note of the partition and wakes a
    /// compaction worker.
    pub open spec fn flush(self, name: Seq<char>, count: int) -> KeyspaceView {
        let n = self.flushable(name, count);
        let tree = self.tree(name).flush(n);
        KeyspaceView {
            journals: self.persisted(name, tree),
            flushes: self.flushes.dequeue(name, n),
            compactions: self.compactions.push(name),
            compaction_signals: self.compaction_signals + 1,
            ..self.with_tree(name, tree)
        }
    }

    /// The identifiers of the journals that a flush releases.
    pub open spec fn flush_releases(self, name: Seq<char>, count: int) -> Seq<Seq<char>> {
        match max_lsn(self.tree(name).flush(self.flushable(name, count)).segments) {
            Some(lsn) => released(self.journals.sealed, name, lsn),
            None => Seq::empty(),
        }
    }
}

/// The keyspace is the top-level container of the partitions.
pub struct Keyspace {
    pub(crate) config: Config,
    pub(crate) partitions: Vec<PartitionHandleInner>,
    pub(crate) journal_manager: JournalManager,
    pub(crate) flush_manager: FlushManager,
    pub(crate) compaction_manager: CompactionManager,
    pub(crate) seqno: SeqNo,
    pub(crate) flush_signal: Signal,
}

impl Keyspace {
    /// The mathematical value of the keyspace.
    pub open(crate) spec fn view(&self) -> KeyspaceView {
        KeyspaceView {
            config: self.config,
            seqno: self.seqno,
            partitions: partition_views(self.partitions@),
            journals: self.journal_manager@,
            flushes: self.flush_manager@,
            compactions: self.compaction_manager@,
            flush_semaphore: self.flush_signal.semaphore(),
            flush_signals: self.flush_signal.raised(),
            compaction_semaphore: self.compaction_manager.semaphore(),
            compaction_signals: self.compaction_manager.signals(),
        }
    }

    /// The value of the keyspace and each of its parts are well-formed.
    pub open(crate) spec fn inv(&self) -> bool {
        &&& self@.wf()
        &&& self.flush_manager.wf()
        &&& forall|i: int| 0 <= i < self.partitions@.len() ==> (#[trigger] self.partitions@[i]).wf()
    }

    /// The keyspace and each of its parts are well-formed, and every sealed
    /// memtable is queued for its flush.
    pub open(crate) spec fn wf(&self) -> bool {
        &&& self.inv()
        &&& self@.queued()
    }

    /// A well-formed keyspace has a well-formed value, in which every sealed
    /// memtable is queued for its flush.
    pub proof fn lemma_wf(&self)
        requires
            self.wf(),
        ensures
            self@.wf(),
            self@.queued(),
    {
    }

    pub(crate) proof fn lemma_names(&self)
        ensures
            self@.names() == names(self.partitions@),
    {
        assert(self@.names() =~= names(self.partitions@));
    }

    /// Opens a keyspace without partitions, whose first mutation gets the
    /// sequence number `seqno`. The keyspace makes the two semaphores on
    /// which its workers wait, each with the count zero.
    pub fn create(config: Config, seqno: SeqNo) -> (r: Self)
        ensures
            r.wf(),
            r@ == KeyspaceView::empty(
                config,
                seqno,
                r@.flush_semaphore,
                r@.compaction_semaphore,
            ),
    {
        let r = Keyspace {
            config,
            partitions: Vec::new(),
            journal_manager: JournalManager::new(),
            flush_manager: FlushManager::default(),
            compaction_manager: CompactionManager::new(),
            seqno,
            flush_signal: Signal::new(),
        };
        proof {
            assert(r@.partitions =~= Seq::empty());
            assert(r@.names() =~= Seq::empty());
            crate::queued::lemma_empty_queued(r@);
        }
        r
    }

    /// The semaphore that is released once for each memtable that is sealed.
    /// The flush workers wait on it.
    pub fn flush_semaphore(&self) -> (r: Arc<Semaphore>)
        ensures
            *r == self@.flush_semaphore,
    {
        self.flush_signal.handle()
    }

    /// The semaphore that is released once for each notification of the
    /// compaction manager. The compaction workers wait on it.
    pub fn compaction_semaphore(&self) -> (r: Arc<Semaphore>)
        ensures
            *r == self@.compaction_semaphore,
    {
        self.compaction_manager.handle()
    }

    /// The options of the keyspace.
    pub fn config(&self) -> (r: Config)
        ensures
            r == self@.config,
    {
        self.config
    }

    /// The current sequence number: the one that the next mutation gets.
    pub fn instant(&self) -> (r: SeqNo)
        ensures
            r == self@.seqno,
    {
        self.seqno
    }

    /// Starts a batch of writes.
    pub fn batch(&self) -> (r: Batch)
        ensures
            r.wf(),
            r@ == Seq::<ItemView>::empty(),
    {
        Batch::new()
    }

    /// The number of partitions.
    pub fn partition_count(&self) -> (r: usize)
        ensures
            r == self@.partitions.len(),
    {
        self.partitions.len()
    }

    /// The position of the partition of that name.
    pub(crate) fn position(&self, name: &String) -> (r: Option<usize>)
        requires
            self.inv(),
        ensures
            r is Some <==> self@.has_partition(name@),
            r matches Some(i) ==> i == self@.index_of(name@) && i < self.partitions@.len()
                && self.partitions@[i as int].name@ == name@,
    {
        let r = find(&self.partitions, name);
        proof {
            self.lemma_names();
            lemma_find(self.partitions@, name@, r);
        }
        r
    }

    /// Tells whether the keyspace has a partition of that name.
    pub fn partition_exists(&self, name: &str) -> (r: bool)
        requires
            self.wf(),
        ensures
            r == self@.has_partition(name@),
    {
        let name = name.to_owned();
        self.position(&name).is_some()
    }

    /// Opens the partition of that name, and creates it if there is none.
    ///
    /// Fails with `InvalidPartitionName` if the name is not valid, and on no other input.
    pub fn open_partition(&mut self, name: &str, options: CreateOptions) -> (r: Result<
        PartitionHandle,
        Error,
    >)
        requires
            old(self).wf(),
        ensures
            final(self).wf(),
            match r {
                Ok(handle) => {
                    &&& is_valid_name(name@)
                    &&& handle@ == name@
                    &&& final(self)@ == old(self)@.open_partition(name@, options)
                    &&& final(self)@.has_partition(name@)
                },
                Err(e) => {
                    &&& !is_valid_name(name@)
                    &&& e == Error::Storage(StorageError::InvalidPartitionName)
                    &&& final(self)@ == old(self)@
                },
            },
    {
        proof {
            crate::queued::lemma_open_partition_queued(self@, name@, options);
        }
        let owned = name.to_owned();
        let created = match PartitionHandleInner::create_new(owned.clone(), options) {
            Ok(created) => created,
            Err(e) => {
                return Err(e);
            },
        };
        if self.position(&owned).is_none() {
            let ghost before = self.partitions@;
            self.partitions.push(created);
            proof {
                let added = PartitionView { name: name@, tree: TreeInner::new_view(), config: options };
                assert(self@.partitions =~= old(self)@.partitions.push(added));
                let all = self@.names();
                assert(all =~= old(self)@.names().push(name@));
                assert forall|a: int, b: int|
                    0 <= a < all.len() && 0 <= b < all.len() && a != b implies all[a] != all[b] by {
                    if a < before.len() {
                        assert(old(self)@.names().contains(all[a]));
                    }
                    if b < before.len() {
                        assert(old(self)@.names().contains(all[b]));
                    }
                }
                assert(all[before.len() as int] == name@);
                assert forall|i: int| 0 <= i < self.partitions@.len() implies (
                #[trigger] self.partitions@[i]).wf() by {
                    if i < before.len() {
                        assert(self.partitions@[i] == before[i]);
                    }
                }
                assert forall|i: int| 0 <= i < self@.partitions.len() implies {
                    &&& is_valid_name((#[trigger] self@.partitions[i]).name)
                    &&& below(self@.partitions[i].tree.history(), self@.seqno as int)
                } by {
                    if i < before.len() {
                        assert(self@.partitions[i] == old(self)@.partitions[i]);
                    } else {
                        assert(self@.partitions[i].tree.history() =~= Map::empty());
                    }
                }
            }
        }
        Ok(PartitionHandle { name: owned })
    }

    /// Deletes the partition. Returns the identifiers of the sealed journals
    /// that no partition needs any more; their directories and that of the
    /// partition are to be deleted.
    ///
    /// Fails with `PartitionNotFound` if the keyspace has no such partition, and on no other input.
    pub fn delete_partition(&mut self, handle: PartitionHandle) -> (r: Result<Vec<String>, Error>)
        requires
            old(self).wf(),
        ensures
            final(self).wf(),
            match r {
                Ok(deleted) => {
                    &&& old(self)@.has_partition(handle@)
                    &&& final(self)@ == old(self)@.delete_partition(handle@)
                    &&& !final(self)@.has_partition(handle@)
                    &&& deleted@.map_values(|s: String| s@) == crate::journal::manager::released(
                        old(self)@.journals.sealed,
                        handle@,
                        u64::MAX,
                    )
                },
                Err(e) => {
                    &&& !old(self)@.has_partition(handle@)
                    &&& e == Error::Storage(StorageError::PartitionNotFound)
                    &&& final(self)@ == old(self)@
                },
            },
    {
        match self.position(&handle.name) {
            None => Err(Error::Storage(StorageError::PartitionNotFound)),
            Some(i) => {
                proof {
                    crate::queued::lemma_delete_partition_queued(self@, handle@);
                }
                let ghost before = self.partitions@;
                self.partitions.remove(i);
                self.flush_manager.remove_partition(&handle.name);
                self.compaction_manager.remove_partition(&handle.name);
                let deleted = self.journal_manager.compact(&handle.name, u64::MAX);
                proof {
                    assert(self@.partitions =~= old(self)@.partitions.remove(i as int));
                    let all = self@.names();
                    assert(all =~= old(self)@.names().remove(i as int));
                    crate::names::lemma_without(old(self)@.names(), handle@);
                    assert forall|k: int| 0 <= k < self.partitions@.len() implies (
                    #[trigger] self.partitions@[k]).wf() by {
                        if k < i {
                            assert(self.partitions@[k] == before[k]);
                        } else {
                            assert(self.partitions@[k] == before[k + 1]);
                        }
                    }
                    assert forall|k: int| 0 <= k < self@.partitions.len() implies {
                        &&& is_valid_name((#[trigger] self@.partitions[k]).name)
                        &&& below(self@.partitions[k].tree.history(), self@.seqno as int)
                    } by {
                        if k < i {
                            assert(self@.partitions[k] == old(self)@.partitions[k]);
                        } else {
                            assert(self@.partitions[k] == old(self)@.partitions[k + 1]);
                        }
                    }
                }
                Ok(deleted)
            },
        }
    }

    /// Returns a list of flush tasks per partition: up to `limit` tasks in
    /// all, the oldest of each queue, gathered queue by queue.
    pub fn collect_flush_tasks(&self, limit: usize) -> (r: Vec<FlushQueue>)
        requires
            self.wf(),
        ensures
            queue_views(r@) == collected(self@.flushes.queues, limit as int),
            forall|i: int| 0 <= i < r@.len() ==> (#[trigger] r@[i]).wf(),
    {
        self.flush_manager.collect_tasks(limit)
    }

    /// Takes note that the `count` oldest sealed memtables of the partition
    /// were written out as segments. The partition moves to the end of the
    /// list of rotations, also where nothing was written out, and one
    /// compaction worker is woken.
    ///
    /// Fails with `PartitionNotFound` if the keyspace has no such partition,
    /// and on no other input.
    pub fn flush_completed(&mut self, partition: &PartitionHandle, count: usize) -> (r: Result<
        FlushOutcome,
        Error,
    >)
        requires
            old(self).wf(),
        ensures
            final(self).wf(),
            match r {
                Ok(outcome) => {
                    &&& old(self)@.has_partition(partition@)
                    &&& final(self)@ == old(self)@.flush(partition@, count as int)
                    &&& outcome.flushed == old(self)@.flushable(partition@, count as int)
                    &&& outcome.deleted_journals@.map_values(|s: String| s@) == old(
                        self,
                    )@.flush_releases(partition@, count as int)
                },
                Err(e) => {
                    &&& !old(self)@.has_partition(partition@)
                    &&& e == Error::Storage(StorageError::PartitionNotFound)
                    &&& final(self)@ == old(self)@
                },
            },
            final(self)@.names() == old(self)@.names(),
            forall|i: int|
                0 <= i < old(self)@.partitions.len() ==> (
                #[trigger] final(self)@.partitions[i]).tree.history()
                    == old(self)@.partitions[i].tree.history(),
    {
        let i = match self.position(&partition.name) {
            None => {
                return Err(Error::Storage(StorageError::PartitionNotFound));
            },
            Some(i) => i,
        };
        proof {
            crate::queued::lemma_flush_queued(self@, partition@, count as int);
        }
        let sealed = self.partitions[i].tree.sealed_count();
        let queued = self.flush_manager.queued(&partition.name);
        let n: usize = if count <= sealed && count <= queued {
            count
        } else if sealed <= queued {
            sealed
        } else {
            queued
        };
        let ghost before = self.partitions@;
        let ghost pre = old(self)@;
        self.partitions[i].tree.register_segments(n);
        proof {
            let tree = pre.tree(partition@).flush(n as int);
            pre.tree(partition@).lemma_flush_history(n as int);
            assert(self@.partitions =~= pre.with_tree(partition@, tree).partitions);
            assert(self@.names() =~= pre.names());
            assert forall|k: int| 0 <= k < self.partitions@.len() implies (
            #[trigger] self.partitions@[k]).wf() by {
                if k != i {
                    assert(self.partitions@[k] == before[k]);
                }
            }
            assert forall|k: int| 0 <= k < self@.partitions.len() implies {
                &&& is_valid_name((#[trigger] self@.partitions[k]).name)
                &&& below(self@.partitions[k].tree.history(), self@.seqno as int)
            } by {
                if k != i {
                    assert(self@.partitions[k] == pre.partitions[k]);
                } else {
                    assert(pre.partitions[k].name == partition@);
                }
            }
        }
        let deleted_journals = match self.partitions[i].tree.get_segment_lsn() {
            Some(lsn) => self.journal_manager.compact(&partition.name, lsn),
            None => {
                let none: Vec<String> = Vec::new();
                assert(none@.map_values(|s: String| s@) =~= Seq::empty());
                none
            },
        };
        self.flush_manager.dequeue_tasks(partition.name.clone(), n);
        self.compaction_manager.notify(partition.clone());
        Ok(FlushOutcome { flushed: n, deleted_journals })
    }
}

} // verus!
