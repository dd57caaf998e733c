//! Access to the partitions of a keyspace.

use crate::config::CreateOptions;
use crate::error::{Error, StorageError};
use crate::flush::manager::{Task, TaskView};
use crate::history::{below, highest, lemma_highest_is, History};
use crate::id::{generate_segment_id, segment_id, Timestamp};
use crate::journal::manager::{clamp, seqno_views, PartitionSeqNo, SeqNoView};
use crate::journal::record::{frame_len, frame_size, JournalRecord, RecordView};
use crate::keyspace::{Keyspace, KeyspaceView};
use crate::memtable::MemTable;
use crate::names::Named;
use crate::range::{
    after_start, before_end, has_prefix, is_first, is_last, is_scan, live_keys, option_pair_view,
    Bound, Range, Selection,
};
use crate::tree_inner::{TreeInner, TreeView};
use crate::history::visible;
use crate::value::{
    SeqNo, Stored, UserKey, UserValue, Value, ValueType, ValueView, MAX_KEY_LEN, MAX_VALUE_LEN,
};
use std::sync::Arc;
use vstd::prelude::*;

verus! {

/// The name of a partition.
pub type PartitionKey = String;

/// Access to a keyspace partition.
///
/// A handle stands for the partition of its name. It is cheap to duplicate,
/// and two handles are equal if and only if they name the same partition.
#[derive(Debug, Eq, Hash)]
pub struct PartitionHandle {
    /// Partition name
    pub name: PartitionKey,
}

impl PartialEq for PartitionHandle {
    /// Compares the names.
    fn eq(&self, other: &Self) -> (r: bool) {
        self.name == other.name
    }
}

impl vstd::std_specs::cmp::PartialEqSpecImpl for PartitionHandle {
    open spec fn obeys_eq_spec() -> bool {
        true
    }

    /// Two handles are equal if and only if their names are.
    open spec fn eq_spec(&self, other: &Self) -> bool {
        self.name@ == other.name@
    }
}

impl View for PartitionHandle {
    type V = Seq<char>;

    open spec fn view(&self) -> Seq<char> {
        self.name@
    }
}

impl Named for PartitionHandle {
    open spec fn name_view(&self) -> Seq<char> {
        self.name@
    }

    fn name(&self) -> (r: &String) {
        &self.name
    }
}

impl Clone for PartitionHandle {
    fn clone(&self) -> (r: Self)
        ensures
            r@ == self@,
    {
        PartitionHandle { name: self.name.clone() }
    }
}

/// The longest name that a partition can have.
pub const MAX_NAME_LEN: usize = 255;

/// Whether `c` may stand in the name of a partition: a printable ASCII character.
pub open spec fn is_name_char(c: char) -> bool {
    32 <= c as u32 <= 126
}

/// Whether `name` can be the name of a partition: between 1 and 255
/// printable ASCII characters.
pub open spec fn is_valid_name(name: Seq<char>) -> bool {
    &&& 1 <= name.len() <= MAX_NAME_LEN
    &&& forall|i: int| 0 <= i < name.len() ==> is_name_char(#[trigger] name[i])
}

/// Tells whether `name` can be the name of a partition.
pub fn check_name(name: &str) -> (r: bool)
    ensures
        r == is_valid_name(name@),
{
    let n = name.unicode_len();
    if n < 1 || n > MAX_NAME_LEN {
        return false;
    }
    let mut i: usize = 0;
    while i < n
        invariant
            i <= n,
            n == name@.len(),
            forall|j: int| 0 <= j < i ==> is_name_char(#[trigger] name@[j]),
        decreases n - i,
    {
        let c = name.get_char(i);
        if (c as u32) < 32 || (c as u32) > 126 {
            return false;
        }
        i += 1;
    }
    true
}

/// A partition of a keyspace: its name, its tree and the options it was created with.
pub struct PartitionHandleInner {
    /// Partition name
    pub name: PartitionKey,
    /// The tree that holds the partition's data.
    pub tree: TreeInner,
    /// The options that the partition was created with; `max_memtable_size`
    /// is the size of the active memtable above which it is rotated.
    pub config: CreateOptions,
}

/// The mathematical value of a partition.
pub struct PartitionView {
    pub name: Seq<char>,
    pub tree: TreeView,
    pub config: CreateOptions,
}

impl View for PartitionHandleInner {
    type V = PartitionView;

    open spec fn view(&self) -> PartitionView {
        PartitionView { name: self.name@, tree: self.tree@, config: self.config }
    }
}

impl Named for PartitionHandleInner {
    open spec fn name_view(&self) -> Seq<char> {
        self.name@
    }

    fn name(&self) -> (r: &String) {
        &self.name
    }
}

impl PartitionHandleInner {
    /// The partition has a valid name and a well-formed tree.
    pub open spec fn wf(&self) -> bool {
        &&& is_valid_name(self.name@)
        &&& self.tree.wf()
    }

    /// Creates a new, empty partition.
    ///
    /// Fails with `InvalidPartitionName` if the name is not valid, and on no other input.
    pub fn create_new(name: PartitionKey, config: CreateOptions) -> (r: Result<Self, Error>)
        ensures
            match r {
                Ok(partition) => {
                    &&& is_valid_name(name@)
                    &&& partition.wf()
                    &&& partition@ == (PartitionView {
                        name: name@,
                        tree: TreeInner::new_view(),
                        config,
                    })
                },
                Err(e) => !is_valid_name(name@) && e == Error::Storage(
                    StorageError::InvalidPartitionName,
                ),
            },
    {
        if check_name(name.as_str()) {
            Ok(PartitionHandleInner { name, tree: TreeInner::new(), config })
        } else {
            Err(Error::Storage(StorageError::InvalidPartitionName))
        }
    }
}

/// A rotation that took place: the memtable of `partition` was sealed under
/// `memtable_id`, and the journal that was active was sealed under
/// `journal_id`. What is left to do is to rename the directory of the active
/// journal to `journal_id` and to start a new active journal.
#[derive(Debug)]
pub struct Rotation {
    pub partition: PartitionKey,
    pub memtable_id: String,
    pub journal_id: String,
}

/// The mathematical value of a [`Rotation`].
pub struct RotationView {
    pub partition: Seq<char>,
    pub memtable_id: Seq<char>,
    pub journal_id: Seq<char>,
}

impl View for Rotation {
    type V = RotationView;

    open spec fn view(&self) -> RotationView {
        RotationView {
            partition: self.partition@,
            memtable_id: self.memtable_id@,
            journal_id: self.journal_id@,
        }
    }
}

/// The views of a list of rotations.
pub open spec fn rotation_views(s: Seq<Rotation>) -> Seq<RotationView> {
    s.map_values(|r: Rotation| r@)
}

/// Whether `id` is an identifier as they are generated: that of some time and some number.
pub open spec fn is_segment_id(id: Seq<char>) -> bool {
    exists|t: Timestamp, random: u32| t.is_calendar() && id == #[trigger] segment_id(t, random)
}

/// For each partition whose active memtable is not empty, the highest
/// sequence number in that memtable.
pub open spec fn active_seqnos(parts: Seq<PartitionView>) -> Seq<SeqNoView>
    decreases parts.len(),
{
    if parts.len() == 0 {
        Seq::empty()
    } else {
        let rest = active_seqnos(parts.drop_last());
        let p = parts.last();
        if p.tree.active == Map::<(Seq<u8>, SeqNo), Stored>::empty() {
            rest
        } else {
            rest.push(SeqNoView { partition: p.name, lsn: highest(p.tree.active) })
        }
    }
}

/// The number of partitions whose active memtable is not empty.
pub open spec fn unsealed_count(parts: Seq<PartitionView>) -> nat
    decreases parts.len(),
{
    if parts.len() == 0 {
        0
    } else {
        unsealed_count(parts.drop_last()) + if parts.last().tree.active == Map::<
            (Seq<u8>, SeqNo),
            Stored,
        >::empty() {
            0nat
        } else {
            1nat
        }
    }
}

/// Emptying the active memtable of one partition takes one off the number of
/// partitions whose active memtable is not empty.
pub proof fn lemma_unsealed_count_update(parts: Seq<PartitionView>, i: int, p: PartitionView)
    requires
        0 <= i < parts.len(),
        parts[i].tree.active != Map::<(Seq<u8>, SeqNo), Stored>::empty(),
        p.tree.active == Map::<(Seq<u8>, SeqNo), Stored>::empty(),
    ensures
        unsealed_count(parts.update(i, p)) + 1 == unsealed_count(parts),
    decreases parts.len(),
{
    let updated = parts.update(i, p);
    if i == parts.len() - 1 {
        assert(updated.drop_last() =~= parts.drop_last());
    } else {
        assert(updated.drop_last() =~= parts.drop_last().update(i, p));
        lemma_unsealed_count_update(parts.drop_last(), i, p);
    }
}

impl KeyspaceView {
    /// The keyspace after one sequence number was given out.
    pub open spec fn next_seqno(self) -> KeyspaceView {
        KeyspaceView { seqno: (self.seqno + 1) as u64, ..self }
    }

    /// The keyspace after the version `v` was journaled and written to the
    /// partition `name` under the sequence number that was due.
    pub open spec fn write(self, name: Seq<char>, v: ValueView) -> KeyspaceView {
        KeyspaceView {
            journals: self.journals.written(frame_len(name.len(), v.key.len(), v.value.len())),
            ..self.with_tree(name, self.tree(name).write(v)).next_seqno()
        }
    }

    /// Whether the partition `name` exists and has something in its active memtable.
    pub open spec fn sealable(self, name: Seq<char>) -> bool {
        &&& self.has_partition(name)
        &&& self.tree(name).active != Map::<(Seq<u8>, SeqNo), Stored>::empty()
    }

    /// The keyspace after a rotation of the partition `name`, for a memtable
    /// that holds `versions`: the active journal is sealed under `journal_id`
    /// with the highest sequence numbers that the partitions have in memory,
    /// the sealed memtable is queued for its flush, and the flush semaphore
    /// is released once.
    pub open spec fn register_rotation(
        self,
        name: Seq<char>,
        memtable_id: Seq<char>,
        versions: History,
        journal_id: Seq<char>,
    ) -> KeyspaceView {
        KeyspaceView {
            journals: self.journals.rotate(
                journal_id,
                active_seqnos(self.partitions).push(
                    SeqNoView { partition: name, lsn: highest(versions) },
                ),
            ),
            flushes: self.flushes.enqueue(
                name,
                TaskView { id: memtable_id, partition: name, versions },
            ),
            flush_signals: self.flush_signals + 1,
            ..self
        }
    }

    /// The keyspace after the active memtable of the partition `name` was
    /// sealed under `memtable_id` and the active journal under `journal_id`.
    pub open spec fn seal(
        self,
        name: Seq<char>,
        memtable_id: Seq<char>,
        journal_id: Seq<char>,
    ) -> KeyspaceView {
        let tree = self.tree(name);
        self.with_tree(name, tree.seal(memtable_id)).register_rotation(
            name,
            memtable_id,
            tree.active,
            journal_id,
        )
    }

    /// The size of all journals together.
    pub open spec fn journal_size(self) -> u64 {
        clamp(self.journals.bytes())
    }

    /// Whether the journals take more than two thirds of what they may take.
    pub open spec fn over_two_thirds(self) -> bool {
        3 * self.journal_size() > 2 * self.config.max_journaling_size_in_bytes
    }

    /// Whether the journals take more than they may take.
    pub open spec fn over_limit(self) -> bool {
        self.journal_size() > self.config.max_journaling_size_in_bytes
    }
}

impl Keyspace {
    /// For each partition whose active memtable is not empty, the highest
    /// sequence number in that memtable.
    pub(crate) fn memtable_seqnos(&self) -> (r: Vec<PartitionSeqNo>)
        requires
            self.inv(),
        ensures
            seqno_views(r@) == active_seqnos(self@.partitions),
    {
        let mut out: Vec<PartitionSeqNo> = Vec::new();
        let mut i: usize = 0;
        let ghost parts = self@.partitions;
        proof {
            assert(parts.take(0) =~= Seq::empty());
            assert(seqno_views(out@) =~= Seq::empty());
        }
        while i < self.partitions.len()
            invariant
                self.inv(),
                parts == self@.partitions,
                i <= self.partitions.len(),
                seqno_views(out@) == active_seqnos(parts.take(i as int)),
            decreases self.partitions.len() - i,
        {
            let partition = &self.partitions[i];
            let ghost before = seqno_views(out@);
            proof {
                assert(parts.take(i + 1).drop_last() =~= parts.take(i as int));
                assert(parts.take(i + 1).last() == partition@);
            }
            match partition.tree.get_memtable_lsn() {
                Some(lsn) => {
                    proof {
                        lemma_highest_is(partition@.tree.active, lsn);
                        let key = choose|key: Seq<u8>| #[trigger]
                            partition@.tree.active.contains_key((key, lsn));
                        assert(partition@.tree.active.contains_key((key, lsn)));
                    }
                    out.push(
                        PartitionSeqNo {
                            partition: PartitionHandle { name: partition.name.clone() },
                            lsn,
                        },
                    );
                    assert(seqno_views(out@) =~= before.push(
                        SeqNoView { partition: partition@.name, lsn },
                    ));
                },
                None => {},
            }
            i += 1;
        }
        proof {
            assert(parts.take(i as int) =~= parts);
        }
        out
    }

    /// Seals the active journal for a rotation of the partition at position
    /// `i`, whose memtable has just been sealed, queues the memtable for its
    /// flush and wakes a flush worker.
    pub(crate) fn register_rotation(
        &mut self,
        i: usize,
        memtable_id: String,
        memtable: Arc<MemTable>,
        journal_id: String,
    )
        requires
            old(self).inv(),
            i < old(self).partitions@.len(),
            memtable.wf(),
            memtable@.len() > 0,
        ensures
            final(self).inv(),
            final(self)@ == old(self)@.register_rotation(
                old(self).partitions@[i as int].name@,
                memtable_id@,
                memtable.versions(),
                journal_id@,
            ),
    {
        let name = self.partitions[i].name.clone();
        let mut seqnos = self.memtable_seqnos();
        let ghost others = seqno_views(seqnos@);
        let lsn = match memtable.get_lsn() {
            Some(lsn) => lsn,
            None => 0,
        };
        proof {
            lemma_highest_is(memtable.versions(), lsn);
        }
        seqnos.push(PartitionSeqNo { partition: PartitionHandle { name: name.clone() }, lsn });
        assert(seqno_views(seqnos@) =~= others.push(SeqNoView { partition: name@, lsn }));
        self.journal_manager.rotate_journal(journal_id, seqnos);
        self.flush_manager.enqueue_task(
            name.clone(),
            Task {
                id: memtable_id,
                sealed_memtable: memtable,
                partition: PartitionHandle { name },
            },
        );
        self.flush_signal.raise();
    }

    /// Seals the active memtable of the partition at position `i` under
    /// `memtable_id` and the active journal under `journal_id`. Returns
    /// `false`, and changes nothing, if the active memtable is empty.
    pub(crate) fn seal_at(&mut self, i: usize, memtable_id: String, journal_id: String) -> (r: bool)
        requires
            old(self).inv(),
            i < old(self).partitions@.len(),
        ensures
            final(self).inv(),
            r == old(self)@.sealable(old(self).partitions@[i as int].name@),
            r ==> final(self)@ == old(self)@.seal(
                old(self).partitions@[i as int].name@,
                memtable_id@,
                journal_id@,
            ),
            !r ==> final(self)@ == old(self)@,
            unsealed_count(final(self)@.partitions) + (if r {
                1nat
            } else {
                0nat
            }) == unsealed_count(old(self)@.partitions),
    {
        let ghost name = self.partitions@[i as int].name@;
        let ghost before = self.partitions@;
        proof {
            self.lemma_names();
            assert(self@.names()[i as int] == name);
            assert(self@.index_of(name) == i);
        }
        let kept = memtable_id.clone();
        match self.partitions[i].tree.seal_active(kept) {
            None => {
                proof {
                    assert(self.partitions@ =~= before.update(i as int, self.partitions@[i as int]));
                    assert(self@.partitions =~= old(self)@.partitions);
                }
                false
            },
            Some(memtable) => {
                proof {
                    let tree = old(self)@.tree(name);
                    assert(self@.partitions =~= old(self)@.partitions.update(
                        i as int,
                        PartitionView { tree: tree.seal(memtable_id@), ..old(self)@.partition(name) },
                    ));
                    assert(self@.names() =~= old(self)@.names());
                    tree.lemma_seal_history(memtable_id@);
                    assert forall|k: int| 0 <= k < self.partitions@.len() implies (
                    #[trigger] self.partitions@[k]).wf() by {
                        if k != i {
                            assert(self.partitions@[k] == before[k]);
                        }
                    }
                    assert forall|k: int| 0 <= k < self@.partitions.len() implies {
                        &&& crate::partition::is_valid_name((#[trigger] self@.partitions[k]).name)
                        &&& below(self@.partitions[k].tree.history(), self@.seqno as int)
                    } by {
                        if k != i {
                            assert(self@.partitions[k] == old(self)@.partitions[k]);
                        } else {
                            assert(old(self)@.partitions[k].name == name);
                        }
                    }
                    lemma_unsealed_count_update(
                        old(self)@.partitions,
                        i as int,
                        self@.partitions[i as int],
                    );
                }
                self.register_rotation(i, memtable_id, memtable, journal_id);
                true
            },
        }
    }
}

/// What a writer has to do once its write is done.
#[derive(Debug)]
pub struct WriteOutcome {
    /// The rotations that took place, in their order. For each of them the
    /// directory of the active journal is to be renamed and a new active
    /// journal started.
    pub rotations: Vec<Rotation>,
    /// The journals take more than they may: the writer is to sleep for
    /// [`WRITE_HALT_MILLIS`] and to call [`Keyspace::check_write_halt`], until
    /// that returns an outcome that is not halted.
    pub halted: bool,
    /// Some partition has more than [`STALL_SEGMENTS`] segments in its first
    /// level: the writer is to sleep for [`WRITE_STALL_MILLIS`] and to call
    /// [`PartitionHandle::check_write_stall`], until that returns `false`.
    pub stalled: bool,
    /// The milliseconds that the writer is to sleep before it goes on.
    pub throttle_millis: u64,
}

/// The number of segments in the first level of a partition above which
/// its writers are slowed down.
pub const THROTTLE_SEGMENTS: usize = 16;

/// The number of segments in the first level of a partition above which
/// its writers are slowed down more.
pub const HEAVY_THROTTLE_SEGMENTS: usize = 18;

/// The number of segments in the first level of a partition above which
/// writers wait for the compaction.
pub const STALL_SEGMENTS: usize = 20;

/// The milliseconds that a writer sleeps between two looks at the size of the journals.
pub const WRITE_HALT_MILLIS: u64 = 500;

/// The milliseconds that a writer sleeps between two looks at the first levels.
pub const WRITE_STALL_MILLIS: u64 = 1000;

impl KeyspaceView {
    /// The keyspace after the compaction manager took note of the partition
    /// `name` and released the compaction semaphore once.
    pub open spec fn notify(self, name: Seq<char>) -> KeyspaceView {
        KeyspaceView {
            compactions: self.compactions.push(name),
            compaction_signals: self.compaction_signals + 1,
            ..self
        }
    }

    /// The keyspace after the head of the list of rotations moved to its end.
    pub open spec fn rotate_lru(self) -> KeyspaceView {
        KeyspaceView { flushes: self.flushes.rotate_lru(), ..self }
    }

    /// The keyspace after the rotations that a rotation of the partition
    /// `name` sets off, if `rotations` are these rotations.
    ///
    /// A partition that does not exist, or whose active memtable is empty, is
    /// not rotated. After each rotation, if the journals take more than two
    /// thirds of what they may take, the partition that has gone longest
    /// without a rotation moves to the end of the list of rotations and is
    /// rotated next.
    pub open spec fn cascade(self, name: Seq<char>, rotations: Seq<RotationView>) -> Option<
        KeyspaceView,
    >
        decreases rotations.len(),
    {
        if !self.sealable(name) {
            if rotations.len() == 0 {
                Some(self)
            } else {
                None
            }
        } else if rotations.len() == 0 || rotations[0].partition != name {
            None
        } else {
            let next = self.seal(name, rotations[0].memtable_id, rotations[0].journal_id);
            if next.over_two_thirds() && next.flushes.lru.len() > 0 {
                next.rotate_lru().cascade(next.flushes.lru.first(), rotations.drop_first())
            } else if rotations.len() == 1 {
                Some(next)
            } else {
                None
            }
        }
    }

    /// The keyspace after one round of a write halt, if `rotations` are the
    /// rotations of that round: while the journals take more than they may,
    /// the partition that has gone longest without a rotation is rotated.
    pub open spec fn relieve(self, rotations: Seq<RotationView>) -> Option<KeyspaceView> {
        if self.over_limit() && self.flushes.lru.len() > 0 {
            self.rotate_lru().cascade(self.flushes.lru.first(), rotations)
        } else if rotations.len() == 0 {
            Some(self)
        } else {
            None
        }
    }

    /// Whether some partition has more than [`STALL_SEGMENTS`] segments in its first level.
    pub open spec fn write_stalled(self) -> bool {
        exists|i: int|
            0 <= i < self.partitions.len() && (#[trigger] self.partitions[i]).tree.segments.len()
                > STALL_SEGMENTS
    }

    /// The milliseconds that a writer of the partition `name` is to sleep.
    pub open spec fn throttle_millis(self, name: Seq<char>) -> u64 {
        let n = self.tree(name).segments.len();
        if n > HEAVY_THROTTLE_SEGMENTS {
            500
        } else if n > THROTTLE_SEGMENTS {
            100
        } else {
            0
        }
    }

    /// The keyspace after a writer of the partition `name` was slowed down:
    /// the compaction manager takes note of the partition if its first level
    /// has more than [`THROTTLE_SEGMENTS`] segments.
    pub open spec fn throttle(self, name: Seq<char>) -> KeyspaceView {
        if self.tree(name).segments.len() > THROTTLE_SEGMENTS {
            self.notify(name)
        } else {
            self
        }
    }

    /// The keyspace after the active memtable of the partition `name` was
    /// found to have grown to `size`, if `rotations` are the rotations that
    /// this set off: a memtable above the partition's limit is rotated, and
    /// the compaction manager takes note of the partition if writes are
    /// stalled then.
    pub open spec fn overflow(
        self,
        name: Seq<char>,
        size: u32,
        rotations: Seq<RotationView>,
    ) -> Option<KeyspaceView> {
        if size > self.partition(name).config.max_memtable_size {
            match self.cascade(name, rotations) {
                Some(next) => Some(
                    if next.write_stalled() {
                        next.notify(name)
                    } else {
                        next
                    },
                ),
                None => None,
            }
        } else if rotations.len() == 0 {
            Some(self)
        } else {
            None
        }
    }

    /// `post` and `outcome` are what a check of the partition `name` for an
    /// overflow of its active memtable, found to be of size `size`, leaves of
    /// the keyspace and tells the writer.
    pub open spec fn checked(
        self,
        name: Seq<char>,
        size: u32,
        outcome: WriteOutcome,
        post: KeyspaceView,
    ) -> bool {
        let rotations = rotation_views(outcome.rotations@);
        let over = size > self.partition(name).config.max_memtable_size;
        &&& self.overflow(name, size, rotations) matches Some(mid) && post == mid.throttle(name)
            && outcome.stalled == (over && mid.write_stalled())
        &&& outcome.halted == (rotations.len() > 0 && post.over_limit())
        &&& outcome.throttle_millis == post.throttle_millis(name)
        &&& forall|i: int|
            0 <= i < rotations.len() ==> is_segment_id((#[trigger] rotations[i]).memtable_id)
                && is_segment_id(rotations[i].journal_id)
    }
}

/// A cascade leaves the partitions' names, options, segments and histories as they were.
pub proof fn lemma_cascade_keeps(pre: KeyspaceView, name: Seq<char>, rotations: Seq<RotationView>)
    requires
        pre.wf(),
        pre.cascade(name, rotations) is Some,
    ensures
        ({
            let post = pre.cascade(name, rotations)->0;
            &&& post.wf()
            &&& post.names() == pre.names()
            &&& post.seqno == pre.seqno
            &&& post.config == pre.config
            &&& post.compactions == pre.compactions
            &&& post.journals.bytes() == pre.journals.bytes()
            &&& forall|i: int|
                0 <= i < pre.partitions.len() ==> {
                    &&& (#[trigger] post.partitions[i]).tree.history()
                        == pre.partitions[i].tree.history()
                    &&& post.partitions[i].tree.segments == pre.partitions[i].tree.segments
                    &&& post.partitions[i].config == pre.partitions[i].config
                }
        }),
    decreases rotations.len(),
{
    if pre.sealable(name) {
        let next = pre.seal(name, rotations[0].memtable_id, rotations[0].journal_id);
        lemma_seal_keeps(pre, name, rotations[0].memtable_id, rotations[0].journal_id);
        if next.over_two_thirds() && next.flushes.lru.len() > 0 {
            lemma_cascade_keeps(next.rotate_lru(), next.flushes.lru.first(), rotations.drop_first());
        }
    }
}

/// A rotation leaves the partitions' names, options, segments and histories
/// as they were, and the journals at their size.
pub proof fn lemma_seal_keeps(
    pre: KeyspaceView,
    name: Seq<char>,
    memtable_id: Seq<char>,
    journal_id: Seq<char>,
)
    requires
        pre.wf(),
        pre.has_partition(name),
    ensures
        ({
            let post = pre.seal(name, memtable_id, journal_id);
            &&& post.wf()
            &&& post.names() == pre.names()
            &&& post.seqno == pre.seqno
            &&& post.config == pre.config
            &&& post.compactions == pre.compactions
            &&& post.journals.bytes() == pre.journals.bytes()
            &&& forall|i: int|
                0 <= i < pre.partitions.len() ==> {
                    &&& (#[trigger] post.partitions[i]).tree.history()
                        == pre.partitions[i].tree.history()
                    &&& post.partitions[i].tree.segments == pre.partitions[i].tree.segments
                    &&& post.partitions[i].config == pre.partitions[i].config
                }
        }),
{
    let post = pre.seal(name, memtable_id, journal_id);
    let i = pre.index_of(name);
    let tree = pre.tree(name);
    tree.lemma_seal_history(memtable_id);
    assert(post.names() =~= pre.names());
    pre.journals.lemma_rotate_bytes(
        journal_id,
        active_seqnos(pre.with_tree(name, tree.seal(memtable_id)).partitions).push(
            SeqNoView { partition: name, lsn: highest(tree.active) },
        ),
    );
    assert forall|k: int| 0 <= k < post.partitions.len() implies {
        &&& crate::partition::is_valid_name((#[trigger] post.partitions[k]).name)
        &&& below(post.partitions[k].tree.history(), post.seqno as int)
    } by {
        assert(pre.names()[k] == pre.partitions[k].name);
    }
}

impl Keyspace {
    /// Rotates the partition at position `i` under newly generated
    /// identifiers. Returns `None`, and changes nothing, if the active
    /// memtable of the partition is empty.
    pub(crate) fn rotate_at(&mut self, i: usize) -> (r: Option<Rotation>)
        requires
            old(self).inv(),
            i < old(self).partitions@.len(),
        ensures
            final(self).inv(),
            r is Some <==> old(self)@.sealable(old(self).partitions@[i as int].name@),
            match r {
                Some(rotation) => {
                    &&& rotation@.partition == old(self).partitions@[i as int].name@
                    &&& is_segment_id(rotation@.memtable_id)
                    &&& is_segment_id(rotation@.journal_id)
                    &&& final(self)@ == old(self)@.seal(
                        rotation@.partition,
                        rotation@.memtable_id,
                        rotation@.journal_id,
                    )
                    &&& unsealed_count(final(self)@.partitions) + 1 == unsealed_count(
                        old(self)@.partitions,
                    )
                },
                None => final(self)@ == old(self)@,
            },
    {
        proof {
            self.lemma_names();
            assert(self@.names()[i as int] == self.partitions@[i as int].name@);
        }
        match self.partitions[i].tree.get_memtable_lsn() {
            None => {
                return None;
            },
            Some(lsn) => {
                proof {
                    let active = self.partitions@[i as int]@.tree.active;
                    let key = choose|key: Seq<u8>| #[trigger] active.contains_key((key, lsn));
                    assert(active.contains_key((key, lsn)));
                }
            },
        }
        let memtable_id = generate_segment_id();
        let journal_id = generate_segment_id();
        let rotation = Rotation {
            partition: self.partitions[i].name.clone(),
            memtable_id: memtable_id.clone(),
            journal_id: journal_id.clone(),
        };
        let sealed = self.seal_at(i, memtable_id, journal_id);
        Some(rotation)
    }
}

impl Keyspace {
    /// The size of all journals together.
    pub fn journal_size(&self) -> (r: u64)
        ensures
            r == self@.journal_size(),
    {
        self.journal_manager.disk_space_used()
    }

    /// Tells whether the journals take more than two thirds of what they may take.
    pub fn over_two_thirds(&self) -> (r: bool)
        ensures
            r == self@.over_two_thirds(),
    {
        let size: u128 = self.journal_manager.disk_space_used() as u128;
        let max: u128 = self.config.max_journaling_size_in_bytes as u128;
        3 * size > 2 * max
    }

    /// Tells whether the journals take more than they may take.
    pub fn over_limit(&self) -> (r: bool)
        ensures
            r == self@.over_limit(),
    {
        self.journal_manager.disk_space_used() > self.config.max_journaling_size_in_bytes as u64
    }

    /// Tells whether some partition has more than [`STALL_SEGMENTS`]
    /// segments in its first level.
    pub fn write_stalled(&self) -> (r: bool)
        ensures
            r == self@.write_stalled(),
    {
        let mut i: usize = 0;
        while i < self.partitions.len()
            invariant
                i <= self.partitions.len(),
                forall|k: int|
                    0 <= k < i ==> (#[trigger] self@.partitions[k]).tree.segments.len()
                        <= STALL_SEGMENTS,
            decreases self.partitions.len() - i,
        {
            if self.partitions[i].tree.first_level_segment_count() > STALL_SEGMENTS {
                assert(self@.partitions[i as int].tree.segments.len() > STALL_SEGMENTS);
                return true;
            }
            i += 1;
        }
        false
    }

    /// Rotates the partition at position `i`, and after it, as long as the
    /// journals take more than two thirds of what they may take, the
    /// partitions that have gone longest without a rotation.
    pub(crate) fn cascade_at(&mut self, i: usize) -> (r: Vec<Rotation>)
        requires
            old(self).inv(),
            i < old(self).partitions@.len(),
        ensures
            final(self).inv(),
            old(self)@.cascade(old(self).partitions@[i as int].name@, rotation_views(r@)) == Some(
                final(self)@,
            ),
            r@.len() > 0 <==> old(self)@.sealable(old(self).partitions@[i as int].name@),
            forall|k: int|
                0 <= k < r@.len() ==> is_segment_id((#[trigger] rotation_views(r@)[k]).memtable_id)
                    && is_segment_id(rotation_views(r@)[k].journal_id),
        decreases unsealed_count(old(self)@.partitions),
    {
        let ghost name = self.partitions@[i as int].name@;
        match self.rotate_at(i) {
            None => {
                let r: Vec<Rotation> = Vec::new();
                assert(rotation_views(r@) =~= Seq::empty());
                r
            },
            Some(rotation) => {
                let ghost sealed = self@;
                let ghost first = rotation@;
                if self.over_two_thirds() {
                    match self.flush_manager.get_least_recently_used_partition() {
                        Some(next) => {
                            assert(self@ == sealed.rotate_lru());
                            assert(sealed.wf());
                            assert(self@.partitions == sealed.partitions);
                            assert(self@.names() == sealed.names());
                            assert(self@.seqno == sealed.seqno);
                            assert(self@.wf());
                            match self.position(&next.name) {
                                Some(j) => {
                                    let ghost mid = self@;
                                    let mut rest = self.cascade_at(j);
                                    let ghost tail = rotation_views(rest@);
                                    rest.insert(0, rotation);
                                    proof {
                                        let all = rotation_views(rest@);
                                        assert(all =~= seq![first] + tail);
                                        assert(all.drop_first() =~= tail);
                                        assert(mid == sealed.rotate_lru());
                                        assert(all[0] == first);
                                        assert(mid.cascade(next@, tail) == Some(self@));
                                    }
                                    rest
                                },
                                None => {
                                    let mut r: Vec<Rotation> = Vec::new();
                                    r.push(rotation);
                                    proof {
                                        let all = rotation_views(r@);
                                        assert(all =~= seq![first]);
                                        assert(all.drop_first() =~= Seq::empty());
                                        assert(self@ == sealed.rotate_lru());
                                        assert(!self@.sealable(next@));
                                        assert(self@.cascade(next@, all.drop_first()) == Some(
                                            self@,
                                        ));
                                    }
                                    r
                                },
                            }
                        },
                        None => {
                            let mut r: Vec<Rotation> = Vec::new();
                            r.push(rotation);
                            assert(rotation_views(r@) =~= seq![first]);
                            assert(rotation_views(r@)[0] == first);
                            r
                        },
                    }
                } else {
                    let mut r: Vec<Rotation> = Vec::new();
                    r.push(rotation);
                    assert(rotation_views(r@) =~= seq![first]);
                    assert(rotation_views(r@)[0] == first);
                    r
                }
            },
        }
    }

    /// One round of a write halt. If the journals take more than they may,
    /// the partition that has gone longest without a rotation is rotated, and
    /// the outcome is halted: the writer is to sleep and to call this again.
    pub fn check_write_halt(&mut self) -> (r: WriteOutcome)
        requires
            old(self).wf(),
        ensures
            final(self).wf(),
            old(self)@.relieve(rotation_views(r.rotations@)) == Some(final(self)@),
            r.halted == old(self)@.over_limit(),
            !r.stalled,
            r.throttle_millis == 0,
            forall|k: int|
                0 <= k < r.rotations@.len() ==> is_segment_id(
                    (#[trigger] rotation_views(r.rotations@)[k]).memtable_id,
                ) && is_segment_id(rotation_views(r.rotations@)[k].journal_id),
            final(self)@.names() == old(self)@.names(),
            forall|i: int|
                0 <= i < old(self)@.partitions.len() ==> (
                #[trigger] final(self)@.partitions[i]).tree.history()
                    == old(self)@.partitions[i].tree.history(),
    {
        let halted = self.over_limit();
        let mut rotations: Vec<Rotation> = Vec::new();
        assert(rotation_views(rotations@) =~= Seq::empty());
        let ghost pre = self@;
        if halted {
            match self.flush_manager.get_least_recently_used_partition() {
                Some(next) => {
                    assert(self@ == old(self)@.rotate_lru());
                    assert(self@.wf());
                    match self.position(&next.name) {
                        Some(j) => {
                            let ghost rotated = self@;
                            rotations = self.cascade_at(j);
                            proof {
                                lemma_cascade_keeps(rotated, next@, rotation_views(rotations@));
                            }
                        },
                        None => {},
                    }
                },
                None => {},
            }
        }
        proof {
            crate::queued::lemma_relieve_queued(pre, rotation_views(rotations@));
        }
        WriteOutcome { rotations, halted, stalled: false, throttle_millis: 0 }
    }

    /// Takes note that the partition at position `i` needs a compaction.
    pub(crate) fn notify_at(&mut self, i: usize)
        requires
            old(self).inv(),
            i < old(self).partitions@.len(),
        ensures
            final(self).inv(),
            final(self)@ == old(self)@.notify(old(self).partitions@[i as int].name@),
    {
        let name = self.partitions[i].name.clone();
        self.compaction_manager.notify(PartitionHandle { name });
    }

    /// Checks the partition at position `i` for an overflow of its active
    /// memtable, found to be of size `size`.
    pub(crate) fn overflow_at(&mut self, i: usize, size: u32) -> (r: WriteOutcome)
        requires
            old(self).inv(),
            i < old(self).partitions@.len(),
        ensures
            final(self).inv(),
            old(self)@.checked(old(self).partitions@[i as int].name@, size, r, final(self)@),
    {
        let ghost name = self.partitions@[i as int].name@;
        proof {
            self.lemma_names();
            assert(self@.names()[i as int] == name);
            assert(self@.index_of(name) == i);
        }
        let mut rotations: Vec<Rotation> = Vec::new();
        let mut stalled = false;
        assert(rotation_views(rotations@) =~= Seq::empty());
        if size > self.partitions[i].config.max_memtable_size {
            rotations = self.cascade_at(i);
            proof {
                lemma_cascade_keeps(old(self)@, name, rotation_views(rotations@));
            }
            stalled = self.write_stalled();
            if stalled {
                self.notify_at(i);
            }
        }
        proof {
            self.lemma_names();
            assert(self@.names() == old(self)@.names());
        }
        let halted = rotations.len() > 0 && self.over_limit();
        let segments = self.partitions[i].tree.first_level_segment_count();
        let mut throttle_millis: u64 = 0;
        if segments > THROTTLE_SEGMENTS {
            self.notify_at(i);
            throttle_millis = if segments > HEAVY_THROTTLE_SEGMENTS {
                500
            } else {
                100
            };
        }
        WriteOutcome { rotations, halted, stalled, throttle_millis }
    }
}

impl KeyspaceView {
    /// `post` and `r` are what a write of the version `v` to the partition
    /// `name` leaves of the keyspace and returns, where `journaled` tells
    /// whether the record of the write reached the journal.
    ///
    /// The write fails with `PartitionNotFound` if the keyspace has no such
    /// partition, and else with `SeqNoExhausted` if no sequence number is
    /// left; neither changes the keyspace. Else it uses up one sequence
    /// number, and fails with the error of the journal if there was one, in
    /// which case no memtable is touched.
    pub open spec fn written(
        self,
        name: Seq<char>,
        v: ValueView,
        journaled: Result<(), std::io::Error>,
        r: Result<WriteOutcome, Error>,
        post: KeyspaceView,
    ) -> bool {
        match r {
            Ok(outcome) => {
                &&& self.has_partition(name)
                &&& self.seqno < u64::MAX
                &&& journaled is Ok
                &&& self.write(name, v).checked(
                    name,
                    self.write(name, v).tree(name).active_size,
                    outcome,
                    post,
                )
            },
            Err(Error::Storage(StorageError::PartitionNotFound)) => {
                &&& !self.has_partition(name)
                &&& post == self
            },
            Err(Error::Storage(StorageError::SeqNoExhausted)) => {
                &&& self.has_partition(name)
                &&& self.seqno == u64::MAX
                &&& post == self
            },
            Err(Error::Io(e)) => {
                &&& self.has_partition(name)
                &&& self.seqno < u64::MAX
                &&& journaled == Err::<(), std::io::Error>(e)
                &&& post == self.next_seqno()
            },
            Err(_) => false,
        }
    }
}

/// A write adds its version to the history of its partition, leaves the
/// other partitions as they were and uses up one sequence number.
pub proof fn lemma_write_keeps(pre: KeyspaceView, name: Seq<char>, v: ValueView)
    requires
        pre.wf(),
        pre.has_partition(name),
        pre.seqno < u64::MAX,
        v.seqno == pre.seqno,
    ensures
        ({
            let post = pre.write(name, v);
            &&& post.wf()
            &&& post.names() == pre.names()
            &&& post.seqno == pre.seqno + 1
            &&& post.history(name) == pre.history(name).insert(v.id(), v.stored())
            &&& forall|i: int|
                0 <= i < pre.partitions.len() && i != pre.index_of(name) ==> (
                #[trigger] post.partitions[i]) == pre.partitions[i]
        }),
{
    let post = pre.write(name, v);
    let i = pre.index_of(name);
    pre.tree(name).lemma_write_history(v);
    assert(post.names() =~= pre.names());
    assert forall|k: int| 0 <= k < post.partitions.len() implies {
        &&& crate::partition::is_valid_name((#[trigger] post.partitions[k]).name)
        &&& below(post.partitions[k].tree.history(), post.seqno as int)
    } by {
        assert(pre.names()[k] == pre.partitions[k].name);
        assert(below(pre.partitions[k].tree.history(), pre.seqno as int));
    }
}

/// A write to a keyspace whose journals take no more than they may leaves
/// journals that take no more than that and the record of the write.
pub proof fn lemma_write_bounded(
    pre: KeyspaceView,
    name: Seq<char>,
    v: ValueView,
    journaled: Result<(), std::io::Error>,
    r: Result<WriteOutcome, Error>,
    post: KeyspaceView,
)
    requires
        pre.wf(),
        v.seqno == pre.seqno,
        !pre.over_limit(),
        pre.written(name, v, journaled, r, post),
    ensures
        post.journals.bytes() <= pre.config.max_journaling_size_in_bytes + frame_len(
            name.len(),
            v.key.len(),
            v.value.len(),
        ),
        r is Ok ==> post.journals.bytes() <= pre.journals.bytes() + frame_len(
            name.len(),
            v.key.len(),
            v.value.len(),
        ),
        r is Err ==> post.journals.bytes() == pre.journals.bytes(),
{
    crate::journal::manager::lemma_sealed_bytes_nonnegative(pre.journals.sealed);
    if r is Ok {
        let w = pre.write(name, v);
        lemma_write_keeps(pre, name, v);
        lemma_checked_keeps(w, name, w.tree(name).active_size, r->Ok_0, post);
    }
}

/// Rotations change nothing of what a reader finds in any partition.
pub proof fn lemma_rotation_unseen(
    pre: KeyspaceView,
    name: Seq<char>,
    rotations: Seq<RotationView>,
    other: Seq<char>,
)
    requires
        pre.wf(),
        pre.cascade(name, rotations) is Some,
        pre.has_partition(other),
    ensures
        pre.cascade(name, rotations)->0.has_partition(other),
        pre.cascade(name, rotations)->0.history(other) == pre.history(other),
{
    lemma_cascade_keeps(pre, name, rotations);
    let post = pre.cascade(name, rotations)->0;
    assert(post.partitions[pre.index_of(other)].tree.history() == pre.partitions[pre.index_of(
        other,
    )].tree.history());
}

/// A check for an overflow leaves the partitions' names and histories and
/// the sequence number as they were.
pub proof fn lemma_checked_keeps(
    pre: KeyspaceView,
    name: Seq<char>,
    size: u32,
    outcome: WriteOutcome,
    post: KeyspaceView,
)
    requires
        pre.wf(),
        pre.has_partition(name),
        pre.checked(name, size, outcome, post),
    ensures
        post.wf(),
        post.names() == pre.names(),
        post.seqno == pre.seqno,
        post.journals.bytes() == pre.journals.bytes(),
        forall|i: int|
            0 <= i < pre.partitions.len() ==> (#[trigger] post.partitions[i]).tree.history()
                == pre.partitions[i].tree.history(),
{
    let rotations = rotation_views(outcome.rotations@);
    let mid = pre.overflow(name, size, rotations)->0;
    if size > pre.partition(name).config.max_memtable_size {
        lemma_cascade_keeps(pre, name, rotations);
        let next = pre.cascade(name, rotations)->0;
        assert(mid.partitions == next.partitions);
    }
    assert(post.partitions == mid.partitions);
    assert(post.names() == pre.names());
    assert forall|k: int| 0 <= k < post.partitions.len() implies {
        &&& crate::partition::is_valid_name((#[trigger] post.partitions[k]).name)
        &&& below(post.partitions[k].tree.history(), post.seqno as int)
    } by {
        assert(pre.names()[k] == pre.partitions[k].name);
        assert(post.names()[k] == post.partitions[k].name);
    }
}

impl Keyspace {
    /// Writes a version of `key` to the partition `name`, under the sequence
    /// number that is due, and checks the partition's active memtable for an
    /// overflow.
    pub(crate) fn apply(
        &mut self,
        name: &String,
        key: &[u8],
        value: &[u8],
        value_type: ValueType,
        journaled: Result<(), std::io::Error>,
    ) -> (r: Result<WriteOutcome, Error>)
        requires
            old(self).inv(),
            key@.len() <= MAX_KEY_LEN,
            value@.len() <= MAX_VALUE_LEN,
        ensures
            final(self).inv(),
            old(self)@.written(
                name@,
                ValueView { key: key@, value: value@, seqno: old(self)@.seqno, value_type },
                journaled,
                r,
                final(self)@,
            ),
            final(self)@.names() == old(self)@.names(),
    {
        let i = match self.position(name) {
            None => {
                return Err(Error::Storage(StorageError::PartitionNotFound));
            },
            Some(i) => i,
        };
        if self.seqno == u64::MAX {
            return Err(Error::Storage(StorageError::SeqNoExhausted));
        }
        let seqno = self.seqno;
        let ghost v = ValueView { key: key@, value: value@, seqno, value_type };
        self.seqno = seqno + 1;
        proof {
            assert(self@.partitions == old(self)@.partitions);
            assert forall|k: int| 0 <= k < self@.partitions.len() implies {
                &&& crate::partition::is_valid_name((#[trigger] self@.partitions[k]).name)
                &&& below(self@.partitions[k].tree.history(), self@.seqno as int)
            } by {
                assert(below(old(self)@.partitions[k].tree.history(), old(self)@.seqno as int));
            }
        }
        match journaled {
            Err(e) => {
                return Err(Error::Io(e));
            },
            Ok(_) => {},
        }
        let name_len = self.partitions[i].name.as_str().unicode_len();
        self.journal_manager.record_write(frame_size(name_len, key.len(), value.len()));
        let item = Value::new(
            vstd::slice::slice_to_vec(key),
            vstd::slice::slice_to_vec(value),
            seqno,
            value_type,
        );
        let ghost before = self.partitions@;
        let size = self.partitions[i].tree.append(item);
        proof {
            let pre = old(self)@;
            lemma_write_keeps(pre, name@, v);
            assert(self@.partitions =~= pre.write(name@, v).partitions);
            assert(self@ == pre.write(name@, v));
            assert forall|k: int| 0 <= k < self.partitions@.len() implies (
            #[trigger] self.partitions@[k]).wf() by {
                if k != i {
                    assert(self.partitions@[k] == before[k]);
                }
            }
        }
        let ghost written = self@;
        let outcome = self.overflow_at(i, size);
        proof {
            lemma_checked_keeps(written, name@, size, outcome, self@);
        }
        Ok(outcome)
    }
}

impl PartitionHandle {
    /// The record of the next write to this partition, for the journal: that
    /// of the version of `key` with the sequence number that is due.
    ///
    /// # Errors
    ///
    /// Will return `PartitionNotFound` if the keyspace has no such partition,
    /// and else `SeqNoExhausted` if no sequence number is left: the errors
    /// with which the write itself would fail.
    pub fn journal_record(
        &self,
        keyspace: &Keyspace,
        key: &[u8],
        value: &[u8],
        value_type: ValueType,
    ) -> (r: Result<JournalRecord, Error>)
        requires
            keyspace.wf(),
            key@.len() <= MAX_KEY_LEN,
            value@.len() <= MAX_VALUE_LEN,
        ensures
            match r {
                Ok(record) => {
                    &&& keyspace@.has_partition(self@)
                    &&& keyspace@.seqno < u64::MAX
                    &&& record@.is_valid()
                    &&& record@ == (RecordView {
                        partition: self@,
                        key: key@,
                        value: value@,
                        value_type,
                        seqno: keyspace@.seqno,
                    })
                },
                Err(Error::Storage(StorageError::PartitionNotFound)) => !keyspace@.has_partition(
                    self@,
                ),
                Err(Error::Storage(StorageError::SeqNoExhausted)) => keyspace@.has_partition(self@)
                    && keyspace@.seqno == u64::MAX,
                Err(_) => false,
            },
    {
        match keyspace.position(&self.name) {
            None => Err(Error::Storage(StorageError::PartitionNotFound)),
            Some(i) => {
                if keyspace.instant() == u64::MAX {
                    return Err(Error::Storage(StorageError::SeqNoExhausted));
                }
                assert(is_valid_name(keyspace@.partitions[i as int].name));
                Ok(
                    JournalRecord {
                        partition: self.name.clone(),
                        key: vstd::slice::slice_to_vec(key),
                        value: vstd::slice::slice_to_vec(value),
                        value_type,
                        seqno: keyspace.instant(),
                    },
                )
            },
        }
    }

    /// Inserts a key-value pair into the partition.
    ///
    /// Keys may be up to 65536 bytes long, values up to 2^32 bytes.
    /// Shorter keys and values result in better performance.
    ///
    /// If the key already exists, the item will be overwritten.
    ///
    /// The caller appends the record of the insertion, with the sequence
    /// number [`Keyspace::instant`], to the journal first, and tells in
    /// `journaled` how that went. The outcome tells what is left for it to do.
    ///
    /// # Errors
    ///
    /// Will return the error of the journal if there was one, and
    /// `PartitionNotFound` or `SeqNoExhausted` as [`KeyspaceView::written`] says.
    pub fn insert(
        &self,
        keyspace: &mut Keyspace,
        key: &[u8],
        value: &[u8],
        journaled: Result<(), std::io::Error>,
    ) -> (r: Result<WriteOutcome, Error>)
        requires
            old(keyspace).wf(),
            key@.len() <= MAX_KEY_LEN,
            value@.len() <= MAX_VALUE_LEN,
        ensures
            final(keyspace).wf(),
            old(keyspace)@.written(
                self@,
                ValueView {
                    key: key@,
                    value: value@,
                    seqno: old(keyspace)@.seqno,
                    value_type: ValueType::Value,
                },
                journaled,
                r,
                final(keyspace)@,
            ),
            r is Ok ==> final(keyspace)@.history(self@) == old(keyspace)@.history(self@).insert(
                (key@, old(keyspace)@.seqno),
                Stored { value: value@, value_type: ValueType::Value },
            ),
            final(keyspace)@.names() == old(keyspace)@.names(),
    {
        let r = keyspace.apply(&self.name, key, value, ValueType::Value, journaled);
        proof {
            crate::queued::lemma_written_queued(
                old(keyspace)@,
                self@,
                ValueView {
                    key: key@,
                    value: value@,
                    seqno: old(keyspace)@.seqno,
                    value_type: ValueType::Value,
                },
                journaled,
                r,
                keyspace@,
            );
            if r is Ok {
                let pre = old(keyspace)@;
                let v = ValueView {
                    key: key@,
                    value: value@,
                    seqno: pre.seqno,
                    value_type: ValueType::Value,
                };
                let w = pre.write(self@, v);
                lemma_write_keeps(pre, self@, v);
                lemma_checked_keeps(w, self@, w.tree(self@).active_size, r->Ok_0, keyspace@);
                assert(w.names()[pre.index_of(self@)] == self@);
            }
        }
        r
    }

    /// Removes an item from the partition.
    ///
    /// The key may be up to 65536 bytes long.
    /// Shorter keys result in better performance.
    ///
    /// The caller appends the record of the removal, with the sequence
    /// number [`Keyspace::instant`], to the journal first, and tells in
    /// `journaled` how that went. The outcome tells what is left for it to do.
    ///
    /// # Errors
    ///
    /// Will return the error of the journal if there was one, and
    /// `PartitionNotFound` or `SeqNoExhausted` as [`KeyspaceView::written`] says.
    pub fn remove(
        &self,
        keyspace: &mut Keyspace,
        key: &[u8],
        journaled: Result<(), std::io::Error>,
    ) -> (r: Result<WriteOutcome, Error>)
        requires
            old(keyspace).wf(),
            key@.len() <= MAX_KEY_LEN,
        ensures
            final(keyspace).wf(),
            old(keyspace)@.written(
                self@,
                ValueView {
                    key: key@,
                    value: Seq::empty(),
                    seqno: old(keyspace)@.seqno,
                    value_type: ValueType::Tombstone,
                },
                journaled,
                r,
                final(keyspace)@,
            ),
            r is Ok ==> final(keyspace)@.history(self@) == old(keyspace)@.history(self@).insert(
                (key@, old(keyspace)@.seqno),
                Stored { value: Seq::empty(), value_type: ValueType::Tombstone },
            ),
            final(keyspace)@.names() == old(keyspace)@.names(),
    {
        let nothing: Vec<u8> = Vec::new();
        let r = keyspace.apply(&self.name, key, nothing.as_slice(), ValueType::Tombstone, journaled);
        proof {
            assert(nothing@ =~= Seq::empty());
            crate::queued::lemma_written_queued(
                old(keyspace)@,
                self@,
                ValueView {
                    key: key@,
                    value: Seq::empty(),
                    seqno: old(keyspace)@.seqno,
                    value_type: ValueType::Tombstone,
                },
                journaled,
                r,
                keyspace@,
            );
            if r is Ok {
                let pre = old(keyspace)@;
                let v = ValueView {
                    key: key@,
                    value: Seq::empty(),
                    seqno: pre.seqno,
                    value_type: ValueType::Tombstone,
                };
                let w = pre.write(self@, v);
                lemma_write_keeps(pre, self@, v);
                lemma_checked_keeps(w, self@, w.tree(self@).active_size, r->Ok_0, keyspace@);
                assert(w.names()[pre.index_of(self@)] == self@);
            }
        }
        r
    }

    /// Seals the active memtable of the partition, and the active journal
    /// with it, and queues the memtable for its flush. While the journals
    /// take more than two thirds of what they may take, the partitions that
    /// have gone longest without a rotation are rotated as well.
    ///
    /// A partition whose active memtable is empty is left as it is.
    ///
    /// # Errors
    ///
    /// Will return `PartitionNotFound` if the keyspace has no such partition,
    /// and fails on no other input.
    pub fn rotate_memtable(&self, keyspace: &mut Keyspace) -> (r: Result<WriteOutcome, Error>)
        requires
            old(keyspace).wf(),
        ensures
            final(keyspace).wf(),
            match r {
                Ok(outcome) => {
                    &&& old(keyspace)@.has_partition(self@)
                    &&& old(keyspace)@.cascade(self@, rotation_views(outcome.rotations@)) == Some(
                        final(keyspace)@,
                    )
                    &&& outcome.rotations@.len() > 0 <==> old(keyspace)@.sealable(self@)
                    &&& outcome.halted == (outcome.rotations@.len() > 0
                        && final(keyspace)@.over_limit())
                    &&& !outcome.stalled
                    &&& outcome.throttle_millis == 0
                    &&& forall|k: int|
                        0 <= k < outcome.rotations@.len() ==> is_segment_id(
                            (#[trigger] rotation_views(outcome.rotations@)[k]).memtable_id,
                        ) && is_segment_id(rotation_views(outcome.rotations@)[k].journal_id)
                },
                Err(e) => {
                    &&& !old(keyspace)@.has_partition(self@)
                    &&& e == Error::Storage(StorageError::PartitionNotFound)
                    &&& final(keyspace)@ == old(keyspace)@
                },
            },
            final(keyspace)@.names() == old(keyspace)@.names(),
            forall|i: int|
                0 <= i < old(keyspace)@.partitions.len() ==> (
                #[trigger] final(keyspace)@.partitions[i]).tree.history()
                    == old(keyspace)@.partitions[i].tree.history(),
    {
        match keyspace.position(&self.name) {
            None => Err(Error::Storage(StorageError::PartitionNotFound)),
            Some(i) => {
                let rotations = keyspace.cascade_at(i);
                proof {
                    lemma_cascade_keeps(old(keyspace)@, self@, rotation_views(rotations@));
                    crate::queued::lemma_cascade_queued(
                        old(keyspace)@,
                        self@,
                        rotation_views(rotations@),
                    );
                }
                let halted = rotations.len() > 0 && keyspace.over_limit();
                Ok(WriteOutcome { rotations, halted, stalled: false, throttle_millis: 0 })
            },
        }
    }

    /// One round of a write stall. If some partition has more than
    /// [`STALL_SEGMENTS`] segments in its first level, the compaction manager
    /// takes note of this partition and `true` is returned: the writer is to
    /// sleep and to call this again.
    ///
    /// # Errors
    ///
    /// Will return `PartitionNotFound` if the keyspace has no such partition,
    /// and fails on no other input.
    pub fn check_write_stall(&self, keyspace: &mut Keyspace) -> (r: Result<bool, Error>)
        requires
            old(keyspace).wf(),
        ensures
            final(keyspace).wf(),
            match r {
                Ok(stalled) => {
                    &&& old(keyspace)@.has_partition(self@)
                    &&& stalled == old(keyspace)@.write_stalled()
                    &&& final(keyspace)@ == if stalled {
                        old(keyspace)@.notify(self@)
                    } else {
                        old(keyspace)@
                    }
                },
                Err(e) => {
                    &&& !old(keyspace)@.has_partition(self@)
                    &&& e == Error::Storage(StorageError::PartitionNotFound)
                    &&& final(keyspace)@ == old(keyspace)@
                },
            },
    {
        match keyspace.position(&self.name) {
            None => Err(Error::Storage(StorageError::PartitionNotFound)),
            Some(i) => {
                let stalled = keyspace.write_stalled();
                if stalled {
                    keyspace.notify_at(i);
                }
                proof {
                    crate::queued::lemma_same_queued(old(keyspace)@, keyspace@);
                }
                Ok(stalled)
            },
        }
    }

    /// Checks the partition for an overflow of its active memtable, found to
    /// be of size `size`: a memtable above the partition's limit is rotated.
    /// The outcome tells the writer how long to wait.
    ///
    /// # Errors
    ///
    /// Will return `PartitionNotFound` if the keyspace has no such partition,
    /// and fails on no other input.
    pub fn check_memtable_overflow(&self, keyspace: &mut Keyspace, size: u32) -> (r: Result<
        WriteOutcome,
        Error,
    >)
        requires
            old(keyspace).wf(),
        ensures
            final(keyspace).wf(),
            match r {
                Ok(outcome) => {
                    &&& old(keyspace)@.has_partition(self@)
                    &&& old(keyspace)@.checked(self@, size, outcome, final(keyspace)@)
                },
                Err(e) => {
                    &&& !old(keyspace)@.has_partition(self@)
                    &&& e == Error::Storage(StorageError::PartitionNotFound)
                    &&& final(keyspace)@ == old(keyspace)@
                },
            },
            final(keyspace)@.names() == old(keyspace)@.names(),
    {
        match keyspace.position(&self.name) {
            None => Err(Error::Storage(StorageError::PartitionNotFound)),
            Some(i) => {
                let outcome = keyspace.overflow_at(i, size);
                proof {
                    lemma_checked_keeps(old(keyspace)@, self@, size, outcome, keyspace@);
                    crate::queued::lemma_checked_queued(
                        old(keyspace)@,
                        self@,
                        size,
                        outcome,
                        keyspace@,
                    );
                }
                Ok(outcome)
            },
        }
    }
}

/// The error of a read: the keyspace has no such partition.
pub open spec fn not_found<T>(keyspace: KeyspaceView, name: Seq<char>, r: Result<T, Error>) -> bool {
    r matches Err(e) && e == Error::Storage(StorageError::PartitionNotFound)
        && !keyspace.has_partition(name)
}

impl PartitionHandle {
    /// Retrieves an item from the partition: the value of the newest version
    /// of `key`, unless that version is a tombstone.
    ///
    /// # Errors
    ///
    /// Will return `PartitionNotFound` if the keyspace has no such partition,
    /// and fails on no other input.
    pub fn get(&self, keyspace: &Keyspace, key: &[u8]) -> (r: Result<Option<UserValue>, Error>)
        requires
            keyspace.wf(),
        ensures
            match r {
                Ok(Some(value)) => keyspace@.has_partition(self@) && visible(
                    keyspace@.history(self@),
                    key@,
                    u64::MAX,
                ) == Some(value@),
                Ok(None) => keyspace@.has_partition(self@) && visible(
                    keyspace@.history(self@),
                    key@,
                    u64::MAX,
                ) is None,
                Err(_) => not_found(keyspace@, self@, r),
            },
    {
        match keyspace.position(&self.name) {
            None => Err(Error::Storage(StorageError::PartitionNotFound)),
            Some(i) => Ok(keyspace.partitions[i].tree.get(key, u64::MAX)),
        }
    }

    /// Returns `true` if the partition contains the specified key.
    ///
    /// # Errors
    ///
    /// Will return `PartitionNotFound` if the keyspace has no such partition,
    /// and fails on no other input.
    pub fn contains_key(&self, keyspace: &Keyspace, key: &[u8]) -> (r: Result<bool, Error>)
        requires
            keyspace.wf(),
        ensures
            match r {
                Ok(found) => keyspace@.has_partition(self@) && found == visible(
                    keyspace@.history(self@),
                    key@,
                    u64::MAX,
                ) is Some,
                Err(_) => not_found(keyspace@, self@, r),
            },
    {
        match self.get(keyspace, key) {
            Ok(item) => Ok(item.is_some()),
            Err(e) => Err(e),
        }
    }

    /// Returns the first key-value pair in the partition.
    /// The key in this pair is the minimum key in the partition.
    ///
    /// # Errors
    ///
    /// Will return `PartitionNotFound` if the keyspace has no such partition,
    /// and fails on no other input.
    pub fn first_key_value(&self, keyspace: &Keyspace) -> (r: Result<
        Option<(UserKey, UserValue)>,
        Error,
    >)
        requires
            keyspace.wf(),
        ensures
            match r {
                Ok(pair) => keyspace@.has_partition(self@) && is_first(
                    keyspace@.history(self@),
                    u64::MAX,
                    option_pair_view(pair),
                ),
                Err(_) => not_found(keyspace@, self@, r),
            },
    {
        match keyspace.position(&self.name) {
            None => Err(Error::Storage(StorageError::PartitionNotFound)),
            Some(i) => Ok(keyspace.partitions[i].tree.first_key_value(u64::MAX)),
        }
    }

    /// Returns the last key-value pair in the partition.
    /// The key in this pair is the maximum key in the partition.
    ///
    /// # Errors
    ///
    /// Will return `PartitionNotFound` if the keyspace has no such partition,
    /// and fails on no other input.
    pub fn last_key_value(&self, keyspace: &Keyspace) -> (r: Result<
        Option<(UserKey, UserValue)>,
        Error,
    >)
        requires
            keyspace.wf(),
        ensures
            match r {
                Ok(pair) => keyspace@.has_partition(self@) && is_last(
                    keyspace@.history(self@),
                    u64::MAX,
                    option_pair_view(pair),
                ),
                Err(_) => not_found(keyspace@, self@, r),
            },
    {
        match keyspace.position(&self.name) {
            None => Err(Error::Storage(StorageError::PartitionNotFound)),
            Some(i) => Ok(keyspace.partitions[i].tree.last_key_value(u64::MAX)),
        }
    }

    /// Returns `true` if the partition is empty.
    ///
    /// # Errors
    ///
    /// Will return `PartitionNotFound` if the keyspace has no such partition,
    /// and fails on no other input.
    pub fn is_empty(&self, keyspace: &Keyspace) -> (r: Result<bool, Error>)
        requires
            keyspace.wf(),
        ensures
            match r {
                Ok(empty) => keyspace@.has_partition(self@) && empty == (forall|key: Seq<u8>|
                    (#[trigger] visible(keyspace@.history(self@), key, u64::MAX)) is None),
                Err(_) => not_found(keyspace@, self@, r),
            },
    {
        match self.first_key_value(keyspace) {
            Ok(pair) => Ok(pair.is_none()),
            Err(e) => Err(e),
        }
    }

    /// Scans the entire partition, returning the amount of items: the number
    /// of keys whose newest version is a value.
    ///
    /// # Errors
    ///
    /// Will return `PartitionNotFound` if the keyspace has no such partition,
    /// and fails on no other input.
    pub fn len(&self, keyspace: &Keyspace) -> (r: Result<usize, Error>)
        requires
            keyspace.wf(),
        ensures
            match r {
                Ok(n) => {
                    &&& keyspace@.has_partition(self@)
                    &&& live_keys(keyspace@.history(self@), u64::MAX).finite()
                    &&& n == live_keys(keyspace@.history(self@), u64::MAX).len()
                },
                Err(_) => not_found(keyspace@, self@, r),
            },
    {
        match keyspace.position(&self.name) {
            None => Err(Error::Storage(StorageError::PartitionNotFound)),
            Some(i) => Ok(keyspace.partitions[i].tree.len(u64::MAX)),
        }
    }

    /// Gathers the pairs of the partition whose keys `selection` selects.
    pub fn select(&self, keyspace: &Keyspace, selection: &Selection) -> (r: Result<Range, Error>)
        requires
            keyspace.wf(),
        ensures
            match r {
                Ok(range) => keyspace@.has_partition(self@) && range.wf() && is_scan(
                    range@,
                    keyspace@.history(self@),
                    u64::MAX,
                    *selection,
                ),
                Err(_) => not_found(keyspace@, self@, r),
            },
    {
        match keyspace.position(&self.name) {
            None => Err(Error::Storage(StorageError::PartitionNotFound)),
            Some(i) => Ok(Range::new(keyspace.partitions[i].tree.scan(u64::MAX, selection))),
        }
    }

    /// Returns an iterator that scans through the entire partition.
    ///
    /// Avoid using this function, or limit it as otherwise it may scan a lot of items.
    ///
    /// # Errors
    ///
    /// Will return `PartitionNotFound` if the keyspace has no such partition,
    /// and fails on no other input.
    pub fn iter(&self, keyspace: &Keyspace) -> (r: Result<Range, Error>)
        requires
            keyspace.wf(),
        ensures
            match r {
                Ok(range) => {
                    &&& keyspace@.has_partition(self@)
                    &&& range.wf()
                    &&& exists|selection: Selection|
                        (forall|key: Seq<u8>| selection.selects(key)) && #[trigger] is_scan(
                            range@,
                            keyspace@.history(self@),
                            u64::MAX,
                            selection,
                        )
                },
                Err(_) => not_found(keyspace@, self@, r),
            },
    {
        let selection = Selection::all();
        self.select(keyspace, &selection)
    }

    /// Returns an iterator over a range of items.
    ///
    /// Avoid using full or unbounded ranges as they may scan a lot of items (unless limited).
    ///
    /// # Errors
    ///
    /// Will return `PartitionNotFound` if the keyspace has no such partition,
    /// and fails on no other input.
    pub fn range(&self, keyspace: &Keyspace, start: Bound, end: Bound) -> (r: Result<Range, Error>)
        requires
            keyspace.wf(),
        ensures
            match r {
                Ok(range) => {
                    &&& keyspace@.has_partition(self@)
                    &&& range.wf()
                    &&& exists|selection: Selection|
                        (forall|key: Seq<u8>|
                            selection.selects(key) <==> after_start(start, key) && before_end(
                                end,
                                key,
                            )) && #[trigger] is_scan(
                            range@,
                            keyspace@.history(self@),
                            u64::MAX,
                            selection,
                        )
                },
                Err(_) => not_found(keyspace@, self@, r),
            },
    {
        let selection = Selection::range(start, end);
        self.select(keyspace, &selection)
    }

    /// Returns an iterator over a prefixed set of items.
    ///
    /// Avoid using an empty prefix as it may scan a lot of items (unless limited).
    ///
    /// # Errors
    ///
    /// Will return `PartitionNotFound` if the keyspace has no such partition,
    /// and fails on no other input.
    pub fn prefix(&self, keyspace: &Keyspace, prefix: &[u8]) -> (r: Result<Range, Error>)
        requires
            keyspace.wf(),
        ensures
            match r {
                Ok(range) => {
                    &&& keyspace@.has_partition(self@)
                    &&& range.wf()
                    &&& exists|selection: Selection|
                        (forall|key: Seq<u8>| selection.selects(key) <==> has_prefix(key, prefix@))
                            && #[trigger] is_scan(
                            range@,
                            keyspace@.history(self@),
                            u64::MAX,
                            selection,
                        )
                },
                Err(_) => not_found(keyspace@, self@, r),
            },
    {
        let selection = Selection::prefix(vstd::slice::slice_to_vec(prefix));
        self.select(keyspace, &selection)
    }

    /// Approximates the amount of items in the partition.
    ///
    /// For update -or delete-heavy workloads, this value will
    /// diverge from the real value, but is a O(1) operation.
    ///
    /// For insert-only workloads (e.g. logs, time series)
    /// this value is reliable.
    ///
    /// # Errors
    ///
    /// Will return `PartitionNotFound` if the keyspace has no such partition,
    /// and fails on no other input.
    pub fn approximate_len(&self, keyspace: &Keyspace) -> (r: Result<u64, Error>)
        requires
            keyspace.wf(),
        ensures
            match r {
                Ok(n) => keyspace@.has_partition(self@) && n == clamp(keyspace@.tree(self@).items()),
                Err(_) => not_found(keyspace@, self@, r),
            },
    {
        match keyspace.position(&self.name) {
            None => Err(Error::Storage(StorageError::PartitionNotFound)),
            Some(i) => Ok(keyspace.partitions[i].tree.approximate_len()),
        }
    }

    /// Returns the disk space usage of this partition: the approximate
    /// number of bytes of its segments.
    ///
    /// # Errors
    ///
    /// Will return `PartitionNotFound` if the keyspace has no such partition,
    /// and fails on no other input.
    pub fn disk_space(&self, keyspace: &Keyspace) -> (r: Result<u64, Error>)
        requires
            keyspace.wf(),
        ensures
            match r {
                Ok(n) => keyspace@.has_partition(self@) && n == clamp(
                    keyspace@.tree(self@).disk_space(),
                ),
                Err(_) => not_found(keyspace@, self@, r),
            },
    {
        match keyspace.position(&self.name) {
            None => Err(Error::Storage(StorageError::PartitionNotFound)),
            Some(i) => Ok(keyspace.partitions[i].tree.disk_space()),
        }
    }

    /// The number of segments of the partition.
    ///
    /// # Errors
    ///
    /// Will return `PartitionNotFound` if the keyspace has no such partition,
    /// and fails on no other input.
    pub fn segment_count(&self, keyspace: &Keyspace) -> (r: Result<usize, Error>)
        requires
            keyspace.wf(),
        ensures
            match r {
                Ok(n) => keyspace@.has_partition(self@) && n == keyspace@.tree(
                    self@,
                ).segments.len(),
                Err(_) => not_found(keyspace@, self@, r),
            },
    {
        match keyspace.position(&self.name) {
            None => Err(Error::Storage(StorageError::PartitionNotFound)),
            Some(i) => Ok(keyspace.partitions[i].tree.segment_count()),
        }
    }
}

} // verus!
