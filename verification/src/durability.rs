//! What the journals on disk are good for: that a replay of them gives back
//! every version that the memtables held.
//!
//! The library does not hold the journals; the program around it writes
//! them. This module says what stands in them if the program appends the
//! record of each write to the active journal, seals the active journal at
//! each rotation, and deletes the journals that a flush releases, and proves
//! that the journals that are kept always suffice.

use crate::history::{below, highest, is_highest, lemma_highest_is, History};
use crate::journal::manager::{kept, pending, still_needed, JournalView, SeqNoView};
use crate::journal::record::RecordView;
use crate::keyspace::KeyspaceView;
use crate::batch::{lemma_apply_batch_keeps, lemma_touched, records_of, touched, ItemView};
use crate::config::CreateOptions;
use crate::error::Error;
use crate::partition::{
    active_seqnos, is_valid_name, lemma_checked_keeps, lemma_seal_keeps, lemma_write_keeps,
    rotation_views, PartitionView, RotationView, WriteOutcome,
};
use crate::recovery::{lemma_replay_one_keeps, lemma_seal_first_keeps, records_exhaust};
use crate::tree_inner::{max_lsn, merge_runs, RunView, TreeView};
use crate::value::{SeqNo, Stored, ValueView};
use vstd::prelude::*;

verus! {

/// The journals as they stand on disk: the records of the active journal,
/// and those of each sealed journal, the oldest journal first.
pub struct Disk {
    pub active: Seq<RecordView>,
    pub sealed: Seq<Seq<RecordView>>,
}

/// The history `h` after the records that go to the partition `name` were
/// replayed over it in their order.
pub open spec fn replayed(h: History, records: Seq<RecordView>, name: Seq<char>) -> History
    decreases records.len(),
{
    if records.len() == 0 {
        h
    } else {
        let before = replayed(h, records.drop_last(), name);
        let r = records.last();
        if r.partition == name {
            before.insert(r.version().id(), r.version().stored())
        } else {
            before
        }
    }
}

/// The history `h` after the journals were replayed over it in their order.
pub open spec fn replayed_all(h: History, journals: Seq<Seq<RecordView>>, name: Seq<char>) -> History
    decreases journals.len(),
{
    if journals.len() == 0 {
        h
    } else {
        replayed(replayed_all(h, journals.drop_last(), name), journals.last(), name)
    }
}

/// Whether one of the records writes the version `id` of the partition `name`.
pub open spec fn writes(records: Seq<RecordView>, name: Seq<char>, id: (Seq<u8>, SeqNo)) -> bool {
    exists|i: int|
        0 <= i < records.len() && (#[trigger] records[i]).partition == name
            && records[i].version().id() == id
}

/// Whether one of the journals holds a record that writes the version `id`
/// of the partition `name`.
pub open spec fn writes_any(
    journals: Seq<Seq<RecordView>>,
    name: Seq<char>,
    id: (Seq<u8>, SeqNo),
) -> bool {
    exists|j: int| 0 <= j < journals.len() && writes(#[trigger] journals[j], name, id)
}

impl Disk {
    /// A disk without journals.
    pub open spec fn empty() -> Disk {
        Disk { active: Seq::empty(), sealed: Seq::empty() }
    }

    /// The disk after a record was appended to the active journal.
    pub open spec fn append(self, r: RecordView) -> Disk {
        Disk { active: self.active.push(r), ..self }
    }

    /// The disk after the active journal was sealed and a new one started.
    pub open spec fn seal(self) -> Disk {
        Disk { active: Seq::empty(), sealed: self.sealed.push(self.active) }
    }

    /// Whether a journal on the disk holds a record that writes the version
    /// `id` of the partition `name`.
    pub open spec fn holds(self, name: Seq<char>, id: (Seq<u8>, SeqNo)) -> bool {
        writes(self.active, name, id) || writes_any(self.sealed, name, id)
    }

    /// Whether `r` stands in a journal on the disk.
    pub open spec fn has(self, r: RecordView) -> bool {
        self.active.contains(r) || exists|j: int|
            0 <= j < self.sealed.len() && (#[trigger] self.sealed[j]).contains(r)
    }

    /// What a replay of the journals, the sealed ones in their order and
    /// then the active one, gives the partition `name`.
    pub open spec fn recovered(self, name: Seq<char>) -> History {
        replayed(replayed_all(Map::empty(), self.sealed, name), self.active, name)
    }
}

/// A replay changes a history only where a record writes.
pub proof fn lemma_replayed_elsewhere(
    h: History,
    records: Seq<RecordView>,
    name: Seq<char>,
    id: (Seq<u8>, SeqNo),
)
    requires
        !writes(records, name, id),
    ensures
        replayed(h, records, name).contains_key(id) == h.contains_key(id),
        replayed(h, records, name).contains_key(id) ==> replayed(h, records, name)[id] == h[id],
    decreases records.len(),
{
    if records.len() > 0 {
        let shorter = records.drop_last();
        if writes(shorter, name, id) {
            let i = choose|i: int|
                0 <= i < shorter.len() && (#[trigger] shorter[i]).partition == name
                    && shorter[i].version().id() == id;
            assert(records[i] == shorter[i]);
        }
        lemma_replayed_elsewhere(h, shorter, name, id);
        assert(records[records.len() - 1] == records.last());
    }
}

/// A replay leaves under a version what the last record that writes it holds.
pub proof fn lemma_replayed_here(
    h: History,
    records: Seq<RecordView>,
    name: Seq<char>,
    id: (Seq<u8>, SeqNo),
    stored: Stored,
)
    requires
        writes(records, name, id),
        forall|i: int|
            0 <= i < records.len() && (#[trigger] records[i]).partition == name
                && records[i].version().id() == id ==> records[i].version().stored() == stored,
    ensures
        replayed(h, records, name).contains_key(id),
        replayed(h, records, name)[id] == stored,
    decreases records.len(),
{
    let shorter = records.drop_last();
    let r = records.last();
    assert(records[records.len() - 1] == r);
    if r.partition == name && r.version().id() == id {
    } else {
        let i = choose|i: int|
            0 <= i < records.len() && (#[trigger] records[i]).partition == name
                && records[i].version().id() == id;
        assert(shorter[i] == records[i]);
        assert forall|k: int|
            0 <= k < shorter.len() && (#[trigger] shorter[k]).partition == name
                && shorter[k].version().id() == id implies shorter[k].version().stored()
            == stored by {
            assert(shorter[k] == records[k]);
        }
        lemma_replayed_here(h, shorter, name, id, stored);
    }
}

/// A replay of journals changes a history only where a record writes.
pub proof fn lemma_replayed_all_elsewhere(
    h: History,
    journals: Seq<Seq<RecordView>>,
    name: Seq<char>,
    id: (Seq<u8>, SeqNo),
)
    requires
        !writes_any(journals, name, id),
    ensures
        replayed_all(h, journals, name).contains_key(id) == h.contains_key(id),
        replayed_all(h, journals, name).contains_key(id) ==> replayed_all(h, journals, name)[id]
            == h[id],
    decreases journals.len(),
{
    if journals.len() > 0 {
        let shorter = journals.drop_last();
        if writes_any(shorter, name, id) {
            let j = choose|j: int| 0 <= j < shorter.len() && writes(#[trigger] shorter[j], name, id);
            assert(journals[j] == shorter[j]);
        }
        lemma_replayed_all_elsewhere(h, shorter, name, id);
        assert(journals[journals.len() - 1] == journals.last());
        lemma_replayed_elsewhere(replayed_all(h, shorter, name), journals.last(), name, id);
    }
}

/// A replay of journals leaves under a version what the records that write it hold.
pub proof fn lemma_replayed_all_here(
    h: History,
    journals: Seq<Seq<RecordView>>,
    name: Seq<char>,
    id: (Seq<u8>, SeqNo),
    stored: Stored,
)
    requires
        writes_any(journals, name, id),
        forall|j: int, i: int|
            0 <= j < journals.len() && 0 <= i < journals[j].len() && (
            #[trigger] journals[j][i]).partition == name && journals[j][i].version().id() == id
                ==> journals[j][i].version().stored() == stored,
    ensures
        replayed_all(h, journals, name).contains_key(id),
        replayed_all(h, journals, name)[id] == stored,
    decreases journals.len(),
{
    let shorter = journals.drop_last();
    let last = journals.last();
    let n = journals.len() - 1;
    assert(journals[n] == last);
    assert forall|i: int|
        0 <= i < last.len() && (#[trigger] last[i]).partition == name && last[i].version().id()
            == id implies last[i].version().stored() == stored by {
        assert(journals[n][i] == last[i]);
    }
    if writes(last, name, id) {
        lemma_replayed_here(replayed_all(h, shorter, name), last, name, id, stored);
    } else {
        let j = choose|j: int| 0 <= j < journals.len() && writes(#[trigger] journals[j], name, id);
        assert(shorter[j] == journals[j]);
        assert forall|k: int, i: int|
            0 <= k < shorter.len() && 0 <= i < shorter[k].len() && (
            #[trigger] shorter[k][i]).partition == name && shorter[k][i].version().id() == id
            implies shorter[k][i].version().stored() == stored by {
            assert(shorter[k] == journals[k]);
        }
        lemma_replayed_all_here(h, shorter, name, id, stored);
        lemma_replayed_elsewhere(replayed_all(h, shorter, name), last, name, id);
    }
}

/// What the memtables of a tree hold, the active one and the sealed ones.
pub open spec fn memtables(tree: TreeView) -> History {
    merge_runs(tree.sealed).union_prefer_right(tree.active)
}

/// What the segments of a tree hold.
pub open spec fn on_disk(tree: TreeView) -> History {
    merge_runs(tree.segments)
}

/// Whether the version stands in a memtable of the tree and in no segment.
pub open spec fn fresh(tree: TreeView, id: (Seq<u8>, SeqNo)) -> bool {
    memtables(tree).contains_key(id) && !on_disk(tree).contains_key(id)
}

/// Every sequence number in `a` is below every sequence number in `b`.
pub open spec fn run_before(a: History, b: History) -> bool {
    forall|x: (Seq<u8>, SeqNo), y: (Seq<u8>, SeqNo)|
        #[trigger] a.contains_key(x) && #[trigger] b.contains_key(y) ==> x.1 < y.1
}

/// None of the runs is empty.
pub open spec fn nonempty(runs: Seq<RunView>) -> bool {
    forall|a: int|
        0 <= a < runs.len() ==> (#[trigger] runs[a]).versions != Map::<
            (Seq<u8>, SeqNo),
            Stored,
        >::empty()
}

/// The memtables of the tree hold rising sequence numbers: each sealed
/// memtable holds lower ones than those sealed after it and than the active
/// memtable. No sealed memtable and no segment is empty.
pub open spec fn layered(tree: TreeView) -> bool {
    &&& forall|a: int, b: int|
        0 <= a < b < tree.sealed.len() ==> run_before(
            (#[trigger] tree.sealed[a]).versions,
            (#[trigger] tree.sealed[b]).versions,
        )
    &&& forall|a: int|
        0 <= a < tree.sealed.len() ==> run_before((#[trigger] tree.sealed[a]).versions, tree.active)
    &&& nonempty(tree.sealed)
    &&& nonempty(tree.segments)
}

/// A version that stands in a memtable and in no segment has a sequence
/// number above those of the versions in the segments.
pub open spec fn above_segments(tree: TreeView) -> bool {
    forall|id: (Seq<u8>, SeqNo), y: (Seq<u8>, SeqNo)|
        #[trigger] memtables(tree).contains_key(id) && !on_disk(tree).contains_key(id)
            && #[trigger] on_disk(tree).contains_key(y) ==> y.1 < id.1
}

/// A version that stands in a memtable and in a segment is the same in both.
pub open spec fn agree(tree: TreeView) -> bool {
    forall|id: (Seq<u8>, SeqNo)|
        #[trigger] memtables(tree).contains_key(id) && on_disk(tree).contains_key(id)
            ==> memtables(tree)[id] == on_disk(tree)[id]
}

/// The layers of the tree are in order.
pub open spec fn ordered(tree: TreeView) -> bool {
    &&& layered(tree)
    &&& above_segments(tree)
    &&& agree(tree)
}

/// Whether the entries of a sealed journal keep the journal for the record:
/// one of them names the partition of the record with a sequence number that
/// is not below that of the record.
pub open spec fn covered(seqnos: Seq<SeqNoView>, r: RecordView) -> bool {
    exists|e: int|
        0 <= e < seqnos.len() && (#[trigger] seqnos[e]).partition == r.partition && seqnos[e].lsn
            >= r.seqno
}

/// Whether the version that the record wrote stands in a memtable of its
/// partition and in no segment: the journal is all that would give it back.
pub open spec fn in_memory(ks: KeyspaceView, r: RecordView) -> bool {
    ks.has_partition(r.partition) && fresh(ks.tree(r.partition), r.version().id())
}

/// The record was written under a sequence number that was given out, and
/// its partition, if the keyspace still has it, holds what the record wrote.
pub open spec fn sound(ks: KeyspaceView, r: RecordView) -> bool {
    &&& r.seqno < ks.seqno
    &&& ks.has_partition(r.partition) ==> {
        &&& ks.history(r.partition).contains_key(r.version().id())
        &&& ks.history(r.partition)[r.version().id()] == r.version().stored()
    }
}

/// The journals on the disk suffice for the keyspace.
///
/// Every record is sound. The versions that the records of the active
/// journal wrote stand in active memtables. A sealed journal with a record
/// of a version that stands in a memtable and in no segment has an entry
/// that keeps it. Every version that stands in a memtable and in no segment
/// was written by a record of a journal that is still there. And the layers
/// of each tree are in order.
pub open spec fn safe(ks: KeyspaceView, disk: Disk) -> bool {
    &&& ks.wf()
    &&& disk.sealed.len() == ks.journals.sealed.len()
    &&& forall|r: RecordView| #[trigger] disk.has(r) ==> sound(ks, r)
    &&& forall|i: int|
        0 <= i < disk.active.len() && ks.has_partition((#[trigger] disk.active[i]).partition)
            ==> ks.tree(disk.active[i].partition).active.contains_key(
            disk.active[i].version().id(),
        )
    &&& forall|j: int, i: int|
        0 <= j < disk.sealed.len() && 0 <= i < disk.sealed[j].len() && in_memory(
            ks,
            #[trigger] disk.sealed[j][i],
        ) ==> covered(ks.journals.sealed[j].seqnos, disk.sealed[j][i])
    &&& forall|p: int, id: (Seq<u8>, SeqNo)|
        0 <= p < ks.partitions.len() && #[trigger] memtables(ks.partitions[p].tree).contains_key(id)
            && !on_disk(ks.partitions[p].tree).contains_key(id) ==> disk.holds(
            ks.partitions[p].name,
            id,
        )
    &&& forall|p: int| 0 <= p < ks.partitions.len() ==> ordered((#[trigger] ks.partitions[p]).tree)
}

/// Replaying the journals that are on disk over the segments of a partition
/// gives the partition back as it was: every version that it held, and no other.
pub proof fn lemma_recovery(ks: KeyspaceView, disk: Disk, name: Seq<char>)
    requires
        safe(ks, disk),
        ks.has_partition(name),
    ensures
        merge_runs(ks.tree(name).segments).union_prefer_right(disk.recovered(name)) == ks.history(
            name,
        ),
{
    let tree = ks.tree(name);
    let p = ks.index_of(name);
    let segments = merge_runs(tree.segments);
    let memory = memtables(tree);
    let recovered = disk.recovered(name);
    let history = ks.history(name);
    let sealed_part = replayed_all(Map::empty(), disk.sealed, name);
    assert(ks.names()[p] == name);
    assert(ks.partitions[p].name == name);
    assert(history =~= segments.union_prefer_right(memory));
    assert forall|id: (Seq<u8>, SeqNo)|
        #![trigger recovered.contains_key(id)]
        #![trigger history.contains_key(id)]
        {
            &&& recovered.contains_key(id) ==> history.contains_key(id) && recovered[id]
                == history[id]
            &&& memory.contains_key(id) && !segments.contains_key(id) ==> recovered.contains_key(
                id,
            )
        } by {
        let stored = history[id];
        if writes_any(disk.sealed, name, id) || writes(disk.active, name, id) {
            assert forall|j: int, i: int|
                0 <= j < disk.sealed.len() && 0 <= i < disk.sealed[j].len() && (
                #[trigger] disk.sealed[j][i]).partition == name
                    && disk.sealed[j][i].version().id() == id implies disk.sealed[j][i].version().stored()
                == stored by {
                let r = disk.sealed[j][i];
                assert(disk.sealed[j].contains(r));
                assert(disk.has(r));
                assert(sound(ks, r));
            }
            assert forall|i: int|
                0 <= i < disk.active.len() && (#[trigger] disk.active[i]).partition == name
                    && disk.active[i].version().id() == id implies disk.active[i].version().stored()
                == stored by {
                let r = disk.active[i];
                assert(disk.active.contains(r));
                assert(disk.has(r));
                assert(sound(ks, r));
            }
            if writes_any(disk.sealed, name, id) {
                lemma_replayed_all_here(Map::empty(), disk.sealed, name, id, stored);
                let j = choose|j: int|
                    0 <= j < disk.sealed.len() && writes(#[trigger] disk.sealed[j], name, id);
                let i = choose|i: int|
                    0 <= i < disk.sealed[j].len() && (#[trigger] disk.sealed[j][i]).partition
                        == name && disk.sealed[j][i].version().id() == id;
                let r = disk.sealed[j][i];
                assert(disk.sealed[j].contains(r));
                assert(disk.has(r));
                assert(sound(ks, r));
            }
            if writes(disk.active, name, id) {
                lemma_replayed_here(sealed_part, disk.active, name, id, stored);
                let i = choose|i: int|
                    0 <= i < disk.active.len() && (#[trigger] disk.active[i]).partition == name
                        && disk.active[i].version().id() == id;
                let r = disk.active[i];
                assert(disk.active.contains(r));
                assert(disk.has(r));
                assert(sound(ks, r));
            } else {
                lemma_replayed_elsewhere(sealed_part, disk.active, name, id);
            }
        } else {
            lemma_replayed_all_elsewhere(Map::empty(), disk.sealed, name, id);
            lemma_replayed_elsewhere(sealed_part, disk.active, name, id);
            if memory.contains_key(id) {
                assert(memtables(ks.partitions[p].tree).contains_key(id));
                assert(ordered(ks.partitions[p].tree));
                if !segments.contains_key(id) {
                    assert(disk.holds(ks.partitions[p].name, id));
                }
            }
        }
    }
    assert(ordered(ks.partitions[p].tree));
    assert(segments.union_prefer_right(recovered) =~= history);
}

/// A history that holds something has a highest sequence number.
pub proof fn lemma_highest_exists(h: History, id: (Seq<u8>, SeqNo))
    requires
        h.contains_key(id),
    ensures
        is_highest(h, highest(h)),
        highest(h) >= id.1,
    decreases u64::MAX - id.1,
{
    if forall|other: (Seq<u8>, SeqNo)| #[trigger] h.contains_key(other) ==> other.1 <= id.1 {
        assert(h.contains_key((id.0, id.1)));
        assert(is_highest(h, id.1));
        lemma_highest_is(h, id.1);
    } else {
        let other = choose|other: (Seq<u8>, SeqNo)| #[trigger] h.contains_key(other) && other.1 > id.1;
        lemma_highest_exists(h, other);
    }
}

/// What a run of a list holds, the list holds.
pub proof fn lemma_merge_has(runs: Seq<RunView>, k: int, id: (Seq<u8>, SeqNo))
    requires
        0 <= k < runs.len(),
        runs[k].versions.contains_key(id),
    ensures
        merge_runs(runs).contains_key(id),
    decreases runs.len(),
{
    if k < runs.len() - 1 {
        assert(runs.drop_last()[k] == runs[k]);
        lemma_merge_has(runs.drop_last(), k, id);
    }
}

/// What a list of runs holds, one of its runs holds.
pub proof fn lemma_merge_from(runs: Seq<RunView>, id: (Seq<u8>, SeqNo)) -> (k: int)
    requires
        merge_runs(runs).contains_key(id),
    ensures
        0 <= k < runs.len(),
        runs[k].versions.contains_key(id),
    decreases runs.len(),
{
    if runs.last().versions.contains_key(id) {
        runs.len() - 1
    } else {
        let k = lemma_merge_from(runs.drop_last(), id);
        assert(runs.drop_last()[k] == runs[k]);
        k
    }
}

/// The highest sequence number of a list of runs, none of them empty, is
/// that of a version in one of the runs.
pub proof fn lemma_max_lsn(runs: Seq<RunView>) -> (at: (int, Seq<u8>))
    requires
        runs.len() > 0,
        forall|a: int|
            0 <= a < runs.len() ==> (#[trigger] runs[a]).versions != Map::<
                (Seq<u8>, SeqNo),
                Stored,
            >::empty(),
    ensures
        max_lsn(runs) is Some,
        0 <= at.0 < runs.len(),
        runs[at.0].versions.contains_key((at.1, max_lsn(runs)->0)),
    decreases runs.len(),
{
    let last = runs.last();
    assert(runs[runs.len() - 1] == last);
    assert(exists|id: (Seq<u8>, SeqNo)| last.versions.contains_key(id)) by {
        if forall|id: (Seq<u8>, SeqNo)| !last.versions.contains_key(id) {
            assert(last.versions =~= Map::empty());
        }
    }
    let id = choose|id: (Seq<u8>, SeqNo)| last.versions.contains_key(id);
    lemma_highest_exists(last.versions, id);
    let here = highest(last.versions);
    let key = choose|key: Seq<u8>| #[trigger] last.versions.contains_key((key, here));
    if runs.len() == 1 {
        assert(runs.drop_last().len() == 0);
        (runs.len() - 1, key)
    } else {
        let shorter = runs.drop_last();
        assert forall|a: int| 0 <= a < shorter.len() implies (#[trigger] shorter[a]).versions
            != Map::<(Seq<u8>, SeqNo), Stored>::empty() by {
            assert(shorter[a] == runs[a]);
        }
        let before = lemma_max_lsn(shorter);
        assert(shorter[before.0] == runs[before.0]);
        if max_lsn(shorter)->0 > here {
            before
        } else {
            (runs.len() - 1, key)
        }
    }
}

/// Each partition whose active memtable holds something has its entry
/// among the sequence numbers that the partitions have in memory.
pub proof fn lemma_active_seqnos_has(parts: Seq<PartitionView>, p: int) -> (e: int)
    requires
        0 <= p < parts.len(),
        parts[p].tree.active != Map::<(Seq<u8>, SeqNo), Stored>::empty(),
    ensures
        0 <= e < active_seqnos(parts).len(),
        active_seqnos(parts)[e] == (SeqNoView {
            partition: parts[p].name,
            lsn: highest(parts[p].tree.active),
        }),
    decreases parts.len(),
{
    if p == parts.len() - 1 {
        active_seqnos(parts).len() - 1
    } else {
        assert(parts.drop_last()[p] == parts[p]);
        lemma_active_seqnos_has(parts.drop_last(), p)
    }
}

/// An entry that is still needed stays among the entries of its journal.
pub proof fn lemma_pending_has(
    seqnos: Seq<SeqNoView>,
    name: Seq<char>,
    persisted: SeqNo,
    e: int,
) -> (at: int)
    requires
        0 <= e < seqnos.len(),
        still_needed(seqnos[e], name, persisted),
    ensures
        0 <= at < pending(seqnos, name, persisted).len(),
        pending(seqnos, name, persisted)[at] == seqnos[e],
    decreases seqnos.len(),
{
    if e == seqnos.len() - 1 {
        pending(seqnos, name, persisted).len() - 1
    } else {
        assert(seqnos.drop_last()[e] == seqnos[e]);
        lemma_pending_has(seqnos.drop_last(), name, persisted, e)
    }
}

/// In a well-formed keyspace each partition is found under its name.
pub proof fn lemma_lookup(ks: KeyspaceView)
    requires
        ks.wf(),
    ensures
        forall|p: int|
            0 <= p < ks.partitions.len() ==> ks.has_partition((#[trigger] ks.partitions[p]).name)
                && ks.index_of(ks.partitions[p].name) == p,
        forall|name: Seq<char>| #[trigger]
            ks.has_partition(name) ==> 0 <= ks.index_of(name) < ks.partitions.len()
                && ks.partitions[ks.index_of(name)].name == name,
{
    assert forall|p: int| 0 <= p < ks.partitions.len() implies ks.has_partition(
        (#[trigger] ks.partitions[p]).name,
    ) && ks.index_of(ks.partitions[p].name) == p by {
        assert(ks.names()[p] == ks.partitions[p].name);
    }
    assert forall|name: Seq<char>| #[trigger] ks.has_partition(name) implies 0 <= ks.index_of(name)
        < ks.partitions.len() && ks.partitions[ks.index_of(name)].name == name by {
        assert(ks.names()[ks.index_of(name)] == name);
    }
}

/// An empty keyspace needs no journal.
pub proof fn lemma_safe_empty(ks: KeyspaceView)
    requires
        ks.partitions.len() == 0,
        ks.journals.sealed.len() == 0,
    ensures
        safe(ks, Disk::empty()),
{
    assert(ks.names() =~= Seq::empty());
    let disk = Disk::empty();
    assert forall|r: RecordView| #[trigger] disk.has(r) implies sound(ks, r) by {
        assert(!disk.active.contains(r));
    }
}

/// What a layer of a tree holds, the tree holds.
pub proof fn lemma_layer_in_history(tree: TreeView, id: (Seq<u8>, SeqNo))
    ensures
        on_disk(tree).contains_key(id) ==> tree.history().contains_key(id),
        memtables(tree).contains_key(id) ==> tree.history().contains_key(id),
        forall|a: int|
            0 <= a < tree.sealed.len() && (#[trigger] tree.sealed[a]).versions.contains_key(id)
                ==> memtables(tree).contains_key(id),
        forall|a: int|
            0 <= a < tree.segments.len() && (#[trigger] tree.segments[a]).versions.contains_key(id)
                ==> on_disk(tree).contains_key(id),
{
    assert forall|a: int|
        0 <= a < tree.sealed.len() && (#[trigger] tree.sealed[a]).versions.contains_key(
            id,
        ) implies memtables(tree).contains_key(id) by {
        lemma_merge_has(tree.sealed, a, id);
    }
    assert forall|a: int|
        0 <= a < tree.segments.len() && (#[trigger] tree.segments[a]).versions.contains_key(
            id,
        ) implies on_disk(tree).contains_key(id) by {
        lemma_merge_has(tree.segments, a, id);
    }
}

/// A write under a sequence number above all that the tree holds leaves the
/// layers of the tree in order.
pub proof fn lemma_write_ordered(tree: TreeView, v: ValueView)
    requires
        ordered(tree),
        below(tree.history(), v.seqno as int),
    ensures
        ordered(tree.write(v)),
        memtables(tree.write(v)) == memtables(tree).insert(v.id(), v.stored()),
        on_disk(tree.write(v)) == on_disk(tree),
        !on_disk(tree).contains_key(v.id()),
{
    let after = tree.write(v);
    assert(memtables(after) =~= memtables(tree).insert(v.id(), v.stored()));
    lemma_layer_in_history(tree, v.id());
    assert forall|a: int| 0 <= a < after.sealed.len() implies run_before(
        (#[trigger] after.sealed[a]).versions,
        after.active,
    ) by {
        assert forall|x: (Seq<u8>, SeqNo), y: (Seq<u8>, SeqNo)| #[trigger]
            after.sealed[a].versions.contains_key(x) && #[trigger] after.active.contains_key(
                y,
            ) implies x.1 < y.1 by {
            if y == v.id() {
                lemma_layer_in_history(tree, x);
            } else {
                assert(tree.active.contains_key(y));
                assert(run_before(tree.sealed[a].versions, tree.active));
            }
        }
    }
    assert forall|id: (Seq<u8>, SeqNo), y: (Seq<u8>, SeqNo)|
        #[trigger] memtables(after).contains_key(id) && !on_disk(after).contains_key(id)
            && #[trigger] on_disk(after).contains_key(y) implies y.1 < id.1 by {
        if id == v.id() {
            lemma_layer_in_history(tree, y);
        } else {
            assert(memtables(tree).contains_key(id));
        }
    }
    assert forall|id: (Seq<u8>, SeqNo)|
        #[trigger] memtables(after).contains_key(id) && on_disk(after).contains_key(
            id,
        ) implies memtables(after)[id] == on_disk(after)[id] by {
        assert(id != v.id());
        assert(memtables(tree).contains_key(id));
    }
}

/// Sealing an active memtable that holds something leaves the layers of
/// the tree in order, and the memtables holding what they held.
pub proof fn lemma_seal_ordered(tree: TreeView, id: Seq<char>)
    requires
        ordered(tree),
        tree.active != Map::<(Seq<u8>, SeqNo), Stored>::empty(),
    ensures
        ordered(tree.seal(id)),
        memtables(tree.seal(id)) == memtables(tree),
        on_disk(tree.seal(id)) == on_disk(tree),
{
    let after = tree.seal(id);
    let run = tree.active_run(id);
    assert(tree.sealed.push(run).drop_last() =~= tree.sealed);
    assert(memtables(after) =~= memtables(tree));
    assert forall|a: int, b: int| 0 <= a < b < after.sealed.len() implies run_before(
        (#[trigger] after.sealed[a]).versions,
        (#[trigger] after.sealed[b]).versions,
    ) by {
        assert(after.sealed[a] == tree.sealed[a]);
        if b < tree.sealed.len() {
            assert(after.sealed[b] == tree.sealed[b]);
        } else {
            assert(run_before(tree.sealed[a].versions, tree.active));
        }
    }
    assert forall|a: int| 0 <= a < after.sealed.len() implies (#[trigger] after.sealed[a]).versions
        != Map::<(Seq<u8>, SeqNo), Stored>::empty() by {
        if a < tree.sealed.len() {
            assert(after.sealed[a] == tree.sealed[a]);
        }
    }
}

/// A flush leaves the layers of the tree in order. What still stands in a
/// memtable stood in one before, with the same content. What stands in a
/// memtable and in no segment after the flush did so before.
pub proof fn lemma_flush_ordered(tree: TreeView, n: int)
    requires
        ordered(tree),
        0 <= n <= tree.sealed.len(),
    ensures
        ordered(tree.flush(n)),
        forall|id: (Seq<u8>, SeqNo)| #[trigger]
            memtables(tree.flush(n)).contains_key(id) ==> memtables(tree).contains_key(id)
                && memtables(tree)[id] == memtables(tree.flush(n))[id],
        forall|id: (Seq<u8>, SeqNo)| #[trigger]
            on_disk(tree).contains_key(id) ==> on_disk(tree.flush(n)).contains_key(id),
{
    let after = tree.flush(n);
    let moved = tree.sealed.take(n);
    let rest = tree.sealed.skip(n);
    crate::tree_inner::lemma_merge_runs_concat(tree.segments, moved);
    crate::tree_inner::lemma_merge_runs_concat(moved, rest);
    assert(moved + rest =~= tree.sealed);
    // A version in a memtable that is left does not stand in a memtable that was flushed.
    assert forall|id: (Seq<u8>, SeqNo)| #[trigger]
        memtables(after).contains_key(id) implies !merge_runs(moved).contains_key(id)
        && memtables(tree).contains_key(id) && memtables(tree)[id] == memtables(after)[id] by {
        if merge_runs(moved).contains_key(id) {
            let k = lemma_merge_from(moved, id);
            assert(moved[k] == tree.sealed[k]);
            if after.active.contains_key(id) {
                assert(run_before(tree.sealed[k].versions, tree.active));
            } else {
                let m = lemma_merge_from(rest, id);
                assert(rest[m] == tree.sealed[n + m]);
                assert(run_before(tree.sealed[k].versions, tree.sealed[n + m].versions));
            }
        }
    }
    assert forall|a: int, b: int| 0 <= a < b < after.sealed.len() implies run_before(
        (#[trigger] after.sealed[a]).versions,
        (#[trigger] after.sealed[b]).versions,
    ) by {
        assert(after.sealed[a] == tree.sealed[n + a]);
        assert(after.sealed[b] == tree.sealed[n + b]);
    }
    assert forall|a: int| 0 <= a < after.sealed.len() implies run_before(
        (#[trigger] after.sealed[a]).versions,
        after.active,
    ) by {
        assert(after.sealed[a] == tree.sealed[n + a]);
    }
    assert forall|a: int| 0 <= a < after.sealed.len() implies (#[trigger] after.sealed[a]).versions
        != Map::<(Seq<u8>, SeqNo), Stored>::empty() by {
        assert(after.sealed[a] == tree.sealed[n + a]);
    }
    assert forall|a: int| 0 <= a < after.segments.len() implies (
    #[trigger] after.segments[a]).versions != Map::<(Seq<u8>, SeqNo), Stored>::empty() by {
        if a < tree.segments.len() {
            assert(after.segments[a] == tree.segments[a]);
        } else {
            assert(after.segments[a] == tree.sealed[a - tree.segments.len()]);
        }
    }
    assert forall|id: (Seq<u8>, SeqNo), y: (Seq<u8>, SeqNo)|
        #[trigger] memtables(after).contains_key(id) && !on_disk(after).contains_key(id)
            && #[trigger] on_disk(after).contains_key(y) implies y.1 < id.1 by {
        if merge_runs(moved).contains_key(y) {
            let k = lemma_merge_from(moved, y);
            assert(moved[k] == tree.sealed[k]);
            if after.active.contains_key(id) {
                assert(run_before(tree.sealed[k].versions, tree.active));
            } else {
                let m = lemma_merge_from(rest, id);
                assert(rest[m] == tree.sealed[n + m]);
                assert(run_before(tree.sealed[k].versions, tree.sealed[n + m].versions));
            }
        } else {
            assert(on_disk(tree).contains_key(y));
            assert(memtables(tree).contains_key(id));
        }
    }
    assert forall|id: (Seq<u8>, SeqNo)|
        #[trigger] memtables(after).contains_key(id) && on_disk(after).contains_key(
            id,
        ) implies memtables(after)[id] == on_disk(after)[id] by {
        assert(!merge_runs(moved).contains_key(id));
        assert(on_disk(tree).contains_key(id));
        assert(memtables(tree).contains_key(id));
    }
}

/// After a flush, what stands in a memtable and in no segment has a
/// sequence number above the highest that the segments hold.
pub proof fn lemma_fresh_above_persisted(tree: TreeView, id: (Seq<u8>, SeqNo))
    requires
        ordered(tree),
        fresh(tree, id),
        max_lsn(tree.segments) is Some,
    ensures
        id.1 > max_lsn(tree.segments)->0,
{
    assert(tree.segments.len() > 0) by {
        if tree.segments.len() == 0 {
            assert(max_lsn(tree.segments) is None);
        }
    }
    let at = lemma_max_lsn(tree.segments);
    let top = (at.1, max_lsn(tree.segments)->0);
    lemma_merge_has(tree.segments, at.0, top);
}

/// The record of the write of the version `v` to the partition `name`.
pub open spec fn record_of(name: Seq<char>, v: ValueView) -> RecordView {
    RecordView {
        partition: name,
        key: v.key,
        value: v.value,
        value_type: v.value_type,
        seqno: v.seqno,
    }
}

/// Putting another tree in the place of a partition's tree leaves the names
/// and the other trees as they were.
pub proof fn lemma_with_tree(pre: KeyspaceView, name: Seq<char>, tree: TreeView)
    requires
        pre.wf(),
        pre.has_partition(name),
    ensures
        pre.with_tree(name, tree).names() == pre.names(),
        pre.with_tree(name, tree).partitions.len() == pre.partitions.len(),
        pre.with_tree(name, tree).tree(name) == tree,
        forall|other: Seq<char>|
            other != name && pre.has_partition(other) ==> #[trigger] pre.with_tree(name, tree).tree(
                other,
            ) == pre.tree(other),
        forall|p: int|
            0 <= p < pre.partitions.len() ==> (#[trigger] pre.with_tree(name, tree).partitions[p]).name
                == pre.partitions[p].name,
        forall|p: int|
            0 <= p < pre.partitions.len() && p != pre.index_of(name) ==> (#[trigger] pre.with_tree(
                name,
                tree,
            ).partitions[p]) == pre.partitions[p],
        pre.with_tree(name, tree).partitions[pre.index_of(name)].tree == tree,
{
    let post = pre.with_tree(name, tree);
    lemma_lookup(pre);
    assert(post.names() =~= pre.names());
    assert forall|other: Seq<char>| other != name && pre.has_partition(other) implies #[trigger]
        post.tree(other) == pre.tree(other) by {
        assert(pre.index_of(other) != pre.index_of(name));
    }
}

/// A write whose record is appended to the active journal leaves journals that suffice.
pub proof fn lemma_write_safe(pre: KeyspaceView, disk: Disk, name: Seq<char>, v: ValueView)
    requires
        safe(pre, disk),
        pre.has_partition(name),
        pre.seqno < u64::MAX,
        v.seqno == pre.seqno,
    ensures
        safe(pre.write(name, v), disk.append(record_of(name, v))),
{
    let post = pre.write(name, v);
    let r = record_of(name, v);
    let after = disk.append(r);
    let i = pre.index_of(name);
    let tree = pre.tree(name);
    lemma_write_keeps(pre, name, v);
    lemma_lookup(pre);
    lemma_lookup(post);
    lemma_with_tree(pre, name, tree.write(v));
    tree.lemma_write_history(v);
    assert(post.partitions == pre.with_tree(name, tree.write(v)).partitions);
    assert(post.tree(name) == tree.write(v));
    assert forall|other: Seq<char>| other != name && pre.has_partition(other) implies #[trigger]
        post.tree(other) == pre.tree(other) by {
        assert(pre.with_tree(name, tree.write(v)).tree(other) == pre.tree(other));
    }
    assert(ordered(pre.partitions[i].tree));
    assert(below(pre.partitions[i].tree.history(), pre.seqno as int));
    lemma_write_ordered(tree, v);
    assert forall|x: RecordView| #[trigger] after.has(x) implies sound(post, x) by {
        if x != r {
            if after.active.contains(x) {
                let k = choose|k: int| 0 <= k < after.active.len() && after.active[k] == x;
                assert(disk.active[k] == x);
                assert(disk.active.contains(x));
            }
            assert(disk.has(x));
            assert(sound(pre, x));
        }
    }
    assert forall|k: int|
        0 <= k < after.active.len() && post.has_partition(
            (#[trigger] after.active[k]).partition,
        ) implies post.tree(after.active[k].partition).active.contains_key(
        after.active[k].version().id(),
    ) by {
        if k < disk.active.len() {
            let x = disk.active[k];
            assert(after.active[k] == x);
            assert(disk.active.contains(x));
            assert(disk.has(x));
            assert(sound(pre, x));
        }
    }
    assert forall|j: int, k: int|
        0 <= j < after.sealed.len() && 0 <= k < after.sealed[j].len() && in_memory(
            post,
            #[trigger] after.sealed[j][k],
        ) implies covered(post.journals.sealed[j].seqnos, after.sealed[j][k]) by {
        let x = disk.sealed[j][k];
        assert(disk.sealed[j].contains(x));
        assert(disk.has(x));
        assert(sound(pre, x));
        assert(in_memory(pre, x));
    }
    assert forall|p: int, id: (Seq<u8>, SeqNo)|
        0 <= p < post.partitions.len() && #[trigger] memtables(post.partitions[p].tree).contains_key(
            id,
        ) && !on_disk(post.partitions[p].tree).contains_key(id) implies after.holds(
        post.partitions[p].name,
        id,
    ) by {
        if p == i && id == v.id() {
            assert(after.active[after.active.len() - 1] == r);
            assert(writes(after.active, name, id));
        } else {
            if p != i {
                assert(post.partitions[p] == pre.partitions[p]);
            }
            assert(memtables(pre.partitions[p].tree).contains_key(id));
            let n = pre.partitions[p].name;
            assert(disk.holds(n, id));
            if writes(disk.active, n, id) {
                let k = choose|k: int|
                    0 <= k < disk.active.len() && (#[trigger] disk.active[k]).partition == n
                        && disk.active[k].version().id() == id;
                assert(after.active[k] == disk.active[k]);
            }
        }
    }
    assert forall|p: int| 0 <= p < post.partitions.len() implies ordered(
        (#[trigger] post.partitions[p]).tree,
    ) by {
        if p != i {
            assert(post.partitions[p] == pre.partitions[p]);
        }
    }
}

/// A write whose record did not reach the journal uses up a sequence number
/// and leaves journals that suffice.
pub proof fn lemma_failed_write_safe(pre: KeyspaceView, disk: Disk)
    requires
        safe(pre, disk),
        pre.seqno < u64::MAX,
    ensures
        safe(pre.next_seqno(), disk),
{
    let post = pre.next_seqno();
    assert(post.names() == pre.names());
    assert forall|k: int| 0 <= k < post.partitions.len() implies {
        &&& crate::partition::is_valid_name((#[trigger] post.partitions[k]).name)
        &&& below(post.partitions[k].tree.history(), post.seqno as int)
    } by {
        assert(below(pre.partitions[k].tree.history(), pre.seqno as int));
    }
    assert forall|x: RecordView| #[trigger] disk.has(x) implies sound(post, x) by {
        assert(sound(pre, x));
    }
    assert forall|j: int, k: int|
        0 <= j < disk.sealed.len() && 0 <= k < disk.sealed[j].len() && in_memory(
            post,
            #[trigger] disk.sealed[j][k],
        ) implies covered(post.journals.sealed[j].seqnos, disk.sealed[j][k]) by {
        assert(in_memory(pre, disk.sealed[j][k]));
    }
}

/// A rotation that seals the active journal on disk leaves journals that suffice.
pub proof fn lemma_seal_safe(
    pre: KeyspaceView,
    disk: Disk,
    name: Seq<char>,
    memtable_id: Seq<char>,
    journal_id: Seq<char>,
)
    requires
        safe(pre, disk),
        pre.sealable(name),
    ensures
        safe(pre.seal(name, memtable_id, journal_id), disk.seal()),
{
    let post = pre.seal(name, memtable_id, journal_id);
    let after = disk.seal();
    let i = pre.index_of(name);
    let tree = pre.tree(name);
    let sealed_tree = tree.seal(memtable_id);
    let mid = pre.with_tree(name, sealed_tree);
    lemma_seal_keeps(pre, name, memtable_id, journal_id);
    lemma_lookup(pre);
    lemma_lookup(post);
    lemma_with_tree(pre, name, sealed_tree);
    assert(ordered(pre.partitions[i].tree));
    lemma_seal_ordered(tree, memtable_id);
    tree.lemma_seal_history(memtable_id);
    assert(post.partitions == mid.partitions);
    assert(post.tree(name) == sealed_tree);
    assert forall|other: Seq<char>| other != name && pre.has_partition(other) implies #[trigger]
        post.tree(other) == pre.tree(other) by {
        assert(mid.tree(other) == pre.tree(other));
    }
    let seqnos = active_seqnos(mid.partitions).push(
        SeqNoView { partition: name, lsn: highest(tree.active) },
    );
    let last = disk.sealed.len() as int;
    assert(post.journals.sealed[last].seqnos == seqnos);
    assert(after.sealed[last] == disk.active);
    assert forall|x: RecordView| #[trigger] after.has(x) implies sound(post, x) by {
        if exists|j: int| 0 <= j < after.sealed.len() && (#[trigger] after.sealed[j]).contains(x) {
            let j = choose|j: int|
                0 <= j < after.sealed.len() && (#[trigger] after.sealed[j]).contains(x);
            if j < last {
                assert(disk.sealed[j] == after.sealed[j]);
            } else {
                assert(disk.active.contains(x));
            }
        }
        assert(disk.has(x));
        assert(sound(pre, x));
        if x.partition != name && pre.has_partition(x.partition) {
            assert(post.tree(x.partition) == pre.tree(x.partition));
        }
    }
    assert forall|j: int, k: int|
        0 <= j < after.sealed.len() && 0 <= k < after.sealed[j].len() && in_memory(
            post,
            #[trigger] after.sealed[j][k],
        ) implies covered(post.journals.sealed[j].seqnos, after.sealed[j][k]) by {
        let x = after.sealed[j][k];
        if x.partition != name {
            assert(post.tree(x.partition) == pre.tree(x.partition));
        }
        assert(in_memory(pre, x));
        if j < last {
            assert(disk.sealed[j] == after.sealed[j]);
            assert(post.journals.sealed[j] == pre.journals.sealed[j]);
        } else {
            assert(disk.active[k] == x);
            let id = x.version().id();
            assert(pre.tree(x.partition).active.contains_key(id));
            if x.partition == name {
                lemma_highest_exists(tree.active, id);
                assert(seqnos[seqnos.len() - 1].partition == name);
            } else {
                let q = pre.index_of(x.partition);
                assert(mid.partitions[q] == pre.partitions[q]);
                let e = lemma_active_seqnos_has(mid.partitions, q);
                lemma_highest_exists(pre.partitions[q].tree.active, id);
                assert(seqnos[e] == active_seqnos(mid.partitions)[e]);
            }
        }
    }
    assert forall|p: int, id: (Seq<u8>, SeqNo)|
        0 <= p < post.partitions.len() && #[trigger] memtables(post.partitions[p].tree).contains_key(
            id,
        ) && !on_disk(post.partitions[p].tree).contains_key(id) implies after.holds(
        post.partitions[p].name,
        id,
    ) by {
        if p != i {
            assert(post.partitions[p] == pre.partitions[p]);
        }
        assert(memtables(pre.partitions[p].tree).contains_key(id));
        let n = pre.partitions[p].name;
        assert(disk.holds(n, id));
        if writes(disk.active, n, id) {
            assert(writes(after.sealed[last], n, id));
        } else {
            let j = choose|j: int| 0 <= j < disk.sealed.len() && writes(#[trigger] disk.sealed[j], n, id);
            assert(after.sealed[j] == disk.sealed[j]);
        }
    }
    assert forall|p: int| 0 <= p < post.partitions.len() implies ordered(
        (#[trigger] post.partitions[p]).tree,
    ) by {
        if p != i {
            assert(post.partitions[p] == pre.partitions[p]);
        }
    }
}

/// Moving the head of the list of rotations to its end leaves journals that suffice.
pub proof fn lemma_rotate_lru_safe(pre: KeyspaceView, disk: Disk)
    requires
        safe(pre, disk),
    ensures
        safe(pre.rotate_lru(), disk),
{
    lemma_same_data_safe(pre, pre.rotate_lru(), disk);
}

/// A notification of the compaction manager leaves journals that suffice.
pub proof fn lemma_notify_safe(pre: KeyspaceView, disk: Disk, name: Seq<char>)
    requires
        safe(pre, disk),
    ensures
        safe(pre.notify(name), disk),
{
    lemma_same_data_safe(pre, pre.notify(name), disk);
}

/// Journals that suffice for a keyspace suffice for one with the same
/// partitions, the same journals and the same sequence number.
pub proof fn lemma_same_data_safe(pre: KeyspaceView, post: KeyspaceView, disk: Disk)
    requires
        safe(pre, disk),
        post.partitions == pre.partitions,
        post.journals == pre.journals,
        post.seqno == pre.seqno,
    ensures
        safe(post, disk),
{
    assert(post.names() == pre.names());
    assert forall|x: RecordView| #[trigger] disk.has(x) implies sound(post, x) by {
        assert(sound(pre, x));
    }
    assert forall|j: int, k: int|
        0 <= j < disk.sealed.len() && 0 <= k < disk.sealed[j].len() && in_memory(
            post,
            #[trigger] disk.sealed[j][k],
        ) implies covered(post.journals.sealed[j].seqnos, disk.sealed[j][k]) by {
        assert(in_memory(pre, disk.sealed[j][k]));
    }
}

/// The disk after the active journal was sealed `n` times.
pub open spec fn sealed_times(disk: Disk, n: nat) -> Disk
    decreases n,
{
    if n == 0 {
        disk
    } else {
        sealed_times(disk.seal(), (n - 1) as nat)
    }
}

/// The rotations that a rotation sets off, each of which seals the active
/// journal on disk, leave journals that suffice.
pub proof fn lemma_cascade_safe(
    pre: KeyspaceView,
    disk: Disk,
    name: Seq<char>,
    rotations: Seq<RotationView>,
)
    requires
        safe(pre, disk),
        pre.cascade(name, rotations) is Some,
    ensures
        safe(pre.cascade(name, rotations)->0, sealed_times(disk, rotations.len())),
    decreases rotations.len(),
{
    if pre.sealable(name) {
        let next = pre.seal(name, rotations[0].memtable_id, rotations[0].journal_id);
        lemma_seal_safe(pre, disk, name, rotations[0].memtable_id, rotations[0].journal_id);
        if next.over_two_thirds() && next.flushes.lru.len() > 0 {
            lemma_rotate_lru_safe(next, disk.seal());
            lemma_cascade_safe(
                next.rotate_lru(),
                disk.seal(),
                next.flushes.lru.first(),
                rotations.drop_first(),
            );
        } else {
            assert(sealed_times(disk.seal(), 0) == disk.seal());
        }
    }
}

/// The records of the sealed journals that are kept once the partition
/// `name` has everything up to `persisted` on disk.
pub open spec fn kept_logs(
    sealed: Seq<JournalView>,
    logs: Seq<Seq<RecordView>>,
    name: Seq<char>,
    persisted: SeqNo,
) -> Seq<Seq<RecordView>>
    decreases sealed.len(),
{
    if sealed.len() == 0 || logs.len() != sealed.len() {
        Seq::empty()
    } else {
        let rest = kept_logs(sealed.drop_last(), logs.drop_last(), name, persisted);
        if pending(sealed.last().seqnos, name, persisted).len() == 0 {
            rest
        } else {
            rest.push(logs.last())
        }
    }
}

impl Disk {
    /// The disk after the journals that a flush of the partition `name`
    /// released were deleted.
    pub open spec fn flushed(self, ks: KeyspaceView, name: Seq<char>, count: int) -> Disk {
        match max_lsn(ks.tree(name).flush(ks.flushable(name, count)).segments) {
            Some(lsn) => Disk {
                sealed: kept_logs(ks.journals.sealed, self.sealed, name, lsn),
                ..self
            },
            None => self,
        }
    }
}

/// Each journal that is kept is one of the journals that were there, with
/// the entries that are still needed and with its records.
pub proof fn lemma_kept_from(
    sealed: Seq<JournalView>,
    logs: Seq<Seq<RecordView>>,
    name: Seq<char>,
    persisted: SeqNo,
    at: int,
) -> (j: int)
    requires
        logs.len() == sealed.len(),
        0 <= at < kept(sealed, name, persisted).len(),
    ensures
        kept(sealed, name, persisted).len() == kept_logs(sealed, logs, name, persisted).len(),
        0 <= j < sealed.len(),
        kept(sealed, name, persisted)[at].seqnos == pending(sealed[j].seqnos, name, persisted),
        kept_logs(sealed, logs, name, persisted)[at] == logs[j],
    decreases sealed.len(),
{
    lemma_kept_len(sealed, logs, name, persisted);
    let rest = kept(sealed.drop_last(), name, persisted);
    if at < rest.len() {
        let j = lemma_kept_from(sealed.drop_last(), logs.drop_last(), name, persisted, at);
        assert(sealed.drop_last()[j] == sealed[j]);
        assert(logs.drop_last()[j] == logs[j]);
        j
    } else {
        sealed.len() - 1
    }
}

/// As many records are kept as journals.
pub proof fn lemma_kept_len(
    sealed: Seq<JournalView>,
    logs: Seq<Seq<RecordView>>,
    name: Seq<char>,
    persisted: SeqNo,
)
    requires
        logs.len() == sealed.len(),
    ensures
        kept(sealed, name, persisted).len() == kept_logs(sealed, logs, name, persisted).len(),
    decreases sealed.len(),
{
    if sealed.len() > 0 {
        lemma_kept_len(sealed.drop_last(), logs.drop_last(), name, persisted);
    }
}

/// A journal that has an entry that is still needed is kept, with its records.
pub proof fn lemma_kept_has(
    sealed: Seq<JournalView>,
    logs: Seq<Seq<RecordView>>,
    name: Seq<char>,
    persisted: SeqNo,
    j: int,
) -> (at: int)
    requires
        logs.len() == sealed.len(),
        0 <= j < sealed.len(),
        pending(sealed[j].seqnos, name, persisted).len() > 0,
    ensures
        0 <= at < kept_logs(sealed, logs, name, persisted).len(),
        kept_logs(sealed, logs, name, persisted)[at] == logs[j],
    decreases sealed.len(),
{
    if j == sealed.len() - 1 {
        kept_logs(sealed, logs, name, persisted).len() - 1
    } else {
        assert(sealed.drop_last()[j] == sealed[j]);
        assert(logs.drop_last()[j] == logs[j]);
        lemma_kept_has(sealed.drop_last(), logs.drop_last(), name, persisted, j)
    }
}

/// A flush, after which the journals that it released are deleted, leaves
/// journals that suffice.
pub proof fn lemma_flush_safe(pre: KeyspaceView, disk: Disk, name: Seq<char>, count: int)
    requires
        safe(pre, disk),
        pre.has_partition(name),
        count >= 0,
    ensures
        safe(pre.flush(name, count), disk.flushed(pre, name, count)),
{
    let post = pre.flush(name, count);
    let after = disk.flushed(pre, name, count);
    let i = pre.index_of(name);
    let tree = pre.tree(name);
    let n = pre.flushable(name, count);
    let flushed_tree = tree.flush(n);
    let mid = pre.with_tree(name, flushed_tree);
    lemma_lookup(pre);
    lemma_with_tree(pre, name, flushed_tree);
    tree.lemma_flush_history(n);
    assert(ordered(pre.partitions[i].tree));
    lemma_flush_ordered(tree, n);
    assert(post.partitions == mid.partitions);
    assert(post.names() == pre.names());
    assert forall|k: int| 0 <= k < post.partitions.len() implies {
        &&& crate::partition::is_valid_name((#[trigger] post.partitions[k]).name)
        &&& below(post.partitions[k].tree.history(), post.seqno as int)
    } by {
        assert(below(pre.partitions[k].tree.history(), pre.seqno as int));
        if k != i {
            assert(post.partitions[k] == pre.partitions[k]);
        }
    }
    lemma_lookup(post);
    assert(post.tree(name) == flushed_tree);
    assert forall|other: Seq<char>| other != name && pre.has_partition(other) implies #[trigger]
        post.tree(other) == pre.tree(other) by {
        assert(mid.tree(other) == pre.tree(other));
    }
    // What stands in a memtable and in no segment after the flush did so before.
    assert forall|x: RecordView| in_memory(post, x) implies in_memory(pre, x) by {
        if x.partition != name {
            assert(post.tree(x.partition) == pre.tree(x.partition));
        }
    }
    let persisted = max_lsn(flushed_tree.segments);
    if persisted is Some {
        let lsn = persisted->0;
        lemma_kept_len(pre.journals.sealed, disk.sealed, name, lsn);
        // An entry that kept a journal for a record of a version that still
        // stands in a memtable and in no segment is still needed.
        assert forall|j: int, k: int|
            0 <= j < disk.sealed.len() && 0 <= k < disk.sealed[j].len() && in_memory(
                post,
                #[trigger] disk.sealed[j][k],
            ) implies covered(pending(pre.journals.sealed[j].seqnos, name, lsn), disk.sealed[j][k]) by {
            let x = disk.sealed[j][k];
            assert(in_memory(pre, x));
            let seqnos = pre.journals.sealed[j].seqnos;
            assert(covered(seqnos, x));
            let e = choose|e: int|
                0 <= e < seqnos.len() && (#[trigger] seqnos[e]).partition == x.partition
                    && seqnos[e].lsn >= x.seqno;
            if x.partition == name {
                lemma_fresh_above_persisted(flushed_tree, x.version().id());
            }
            let at = lemma_pending_has(seqnos, name, lsn, e);
            assert(pending(seqnos, name, lsn)[at] == seqnos[e]);
        }
        assert forall|x: RecordView| #[trigger] after.has(x) implies sound(post, x) by {
            if exists|j: int| 0 <= j < after.sealed.len() && (#[trigger] after.sealed[j]).contains(x) {
                let at = choose|j: int|
                    0 <= j < after.sealed.len() && (#[trigger] after.sealed[j]).contains(x);
                let j = lemma_kept_from(pre.journals.sealed, disk.sealed, name, lsn, at);
                assert(disk.sealed[j].contains(x));
            }
            assert(disk.has(x));
            assert(sound(pre, x));
            if x.partition != name && pre.has_partition(x.partition) {
                assert(post.tree(x.partition) == pre.tree(x.partition));
            }
        }
        assert forall|at: int, k: int|
            0 <= at < after.sealed.len() && 0 <= k < after.sealed[at].len() && in_memory(
                post,
                #[trigger] after.sealed[at][k],
            ) implies covered(post.journals.sealed[at].seqnos, after.sealed[at][k]) by {
            let j = lemma_kept_from(pre.journals.sealed, disk.sealed, name, lsn, at);
            assert(after.sealed[at][k] == disk.sealed[j][k]);
        }
        assert forall|p: int, id: (Seq<u8>, SeqNo)|
            0 <= p < post.partitions.len() && #[trigger] memtables(
                post.partitions[p].tree,
            ).contains_key(id) && !on_disk(post.partitions[p].tree).contains_key(
                id,
            ) implies after.holds(post.partitions[p].name, id) by {
            let owner = pre.partitions[p].name;
            if p != i {
                assert(post.partitions[p] == pre.partitions[p]);
            }
            assert(memtables(pre.partitions[p].tree).contains_key(id));
            assert(!on_disk(pre.partitions[p].tree).contains_key(id));
            assert(disk.holds(owner, id));
            if !writes(disk.active, owner, id) {
                let j = choose|j: int|
                    0 <= j < disk.sealed.len() && writes(#[trigger] disk.sealed[j], owner, id);
                let k = choose|k: int|
                    0 <= k < disk.sealed[j].len() && (#[trigger] disk.sealed[j][k]).partition
                        == owner && disk.sealed[j][k].version().id() == id;
                let x = disk.sealed[j][k];
                assert(post.tree(owner) == post.partitions[p].tree);
                assert(in_memory(post, x));
                assert(covered(pending(pre.journals.sealed[j].seqnos, name, lsn), x));
                let at = lemma_kept_has(pre.journals.sealed, disk.sealed, name, lsn, j);
                assert(writes(after.sealed[at], owner, id));
            }
        }
    } else {
        assert forall|x: RecordView| #[trigger] after.has(x) implies sound(post, x) by {
            assert(sound(pre, x));
            if x.partition != name && pre.has_partition(x.partition) {
                assert(post.tree(x.partition) == pre.tree(x.partition));
            }
        }
        assert forall|p: int, id: (Seq<u8>, SeqNo)|
            0 <= p < post.partitions.len() && #[trigger] memtables(
                post.partitions[p].tree,
            ).contains_key(id) && !on_disk(post.partitions[p].tree).contains_key(
                id,
            ) implies after.holds(post.partitions[p].name, id) by {
            if p != i {
                assert(post.partitions[p] == pre.partitions[p]);
            }
            assert(memtables(pre.partitions[p].tree).contains_key(id));
            assert(!on_disk(pre.partitions[p].tree).contains_key(id));
        }
    }
    assert forall|k: int|
        0 <= k < after.active.len() && post.has_partition(
            (#[trigger] after.active[k]).partition,
        ) implies post.tree(after.active[k].partition).active.contains_key(
        after.active[k].version().id(),
    ) by {
        let x = disk.active[k];
        assert(disk.active.contains(x));
        assert(disk.has(x));
        assert(sound(pre, x));
        if x.partition != name {
            assert(post.tree(x.partition) == pre.tree(x.partition));
        }
    }
    assert forall|p: int| 0 <= p < post.partitions.len() implies ordered(
        (#[trigger] post.partitions[p]).tree,
    ) by {
        if p != i {
            assert(post.partitions[p] == pre.partitions[p]);
        }
    }
}

/// Opening a partition of which no journal on disk holds a record leaves
/// journals that suffice.
pub proof fn lemma_open_partition_safe(
    pre: KeyspaceView,
    disk: Disk,
    name: Seq<char>,
    options: CreateOptions,
)
    requires
        safe(pre, disk),
        is_valid_name(name),
        !pre.has_partition(name) ==> forall|r: RecordView| #[trigger]
            disk.has(r) ==> r.partition != name,
    ensures
        safe(pre.open_partition(name, options), disk),
{
    let post = pre.open_partition(name, options);
    if !pre.has_partition(name) {
        let n = pre.partitions.len() as int;
        lemma_lookup(pre);
        assert(post.names() =~= pre.names().push(name));
        assert forall|a: int, b: int|
            0 <= a < post.names().len() && 0 <= b < post.names().len() && a != b implies post.names()[a]
            != post.names()[b] by {
            if a < n {
                assert(pre.names().contains(post.names()[a]));
            }
            if b < n {
                assert(pre.names().contains(post.names()[b]));
            }
        }
        assert forall|k: int| 0 <= k < post.partitions.len() implies {
            &&& is_valid_name((#[trigger] post.partitions[k]).name)
            &&& below(post.partitions[k].tree.history(), post.seqno as int)
        } by {
            if k < n {
                assert(post.partitions[k] == pre.partitions[k]);
            } else {
                assert(post.partitions[k].tree.history() =~= Map::empty());
            }
        }
        lemma_lookup(post);
        assert forall|other: Seq<char>| pre.has_partition(other) implies post.has_partition(other)
            && #[trigger] post.tree(other) == pre.tree(other) by {
            let k = pre.index_of(other);
            assert(post.names()[k] == other);
            assert(post.partitions[k] == pre.partitions[k]);
        }
        assert forall|other: Seq<char>| #[trigger]
            post.has_partition(other) implies other == name || pre.has_partition(other) by {
            let k = post.index_of(other);
            if k < n {
                assert(pre.names()[k] == other);
            }
        }
        assert forall|x: RecordView| #[trigger] disk.has(x) implies sound(post, x) by {
            assert(sound(pre, x));
            if pre.has_partition(x.partition) {
                assert(post.tree(x.partition) == pre.tree(x.partition));
            }
        }
        assert forall|k: int|
            0 <= k < disk.active.len() && post.has_partition(
                (#[trigger] disk.active[k]).partition,
            ) implies post.tree(disk.active[k].partition).active.contains_key(
            disk.active[k].version().id(),
        ) by {
            let x = disk.active[k];
            assert(disk.active.contains(x));
            assert(disk.has(x));
            assert(pre.has_partition(x.partition));
            assert(post.tree(x.partition) == pre.tree(x.partition));
        }
        assert forall|j: int, k: int|
            0 <= j < disk.sealed.len() && 0 <= k < disk.sealed[j].len() && in_memory(
                post,
                #[trigger] disk.sealed[j][k],
            ) implies covered(post.journals.sealed[j].seqnos, disk.sealed[j][k]) by {
            let x = disk.sealed[j][k];
            assert(disk.sealed[j].contains(x));
            assert(disk.has(x));
            assert(pre.has_partition(x.partition));
            assert(post.tree(x.partition) == pre.tree(x.partition));
            assert(in_memory(pre, x));
        }
        assert forall|p: int, id: (Seq<u8>, SeqNo)|
            0 <= p < post.partitions.len() && #[trigger] memtables(
                post.partitions[p].tree,
            ).contains_key(id) && !on_disk(post.partitions[p].tree).contains_key(
                id,
            ) implies disk.holds(post.partitions[p].name, id) by {
            if p < n {
                assert(post.partitions[p] == pre.partitions[p]);
                assert(memtables(pre.partitions[p].tree).contains_key(id));
            } else {
                assert(memtables(post.partitions[p].tree) =~= Map::empty());
            }
        }
        assert forall|p: int| 0 <= p < post.partitions.len() implies ordered(
            (#[trigger] post.partitions[p]).tree,
        ) by {
            if p < n {
                assert(post.partitions[p] == pre.partitions[p]);
            } else {
                assert(memtables(post.partitions[p].tree) =~= Map::empty());
                assert(on_disk(post.partitions[p].tree) =~= Map::empty());
            }
        }
    }
}

impl Disk {
    /// The disk after the journals that the deletion of the partition
    /// `name` released were deleted.
    pub open spec fn deleted(self, ks: KeyspaceView, name: Seq<char>) -> Disk {
        Disk { sealed: kept_logs(ks.journals.sealed, self.sealed, name, u64::MAX), ..self }
    }
}

/// Deleting a partition, after which the journals that this released are
/// deleted, leaves journals that suffice.
pub proof fn lemma_delete_partition_safe(pre: KeyspaceView, disk: Disk, name: Seq<char>)
    requires
        safe(pre, disk),
        pre.has_partition(name),
    ensures
        safe(pre.delete_partition(name), disk.deleted(pre, name)),
{
    let post = pre.delete_partition(name);
    let after = disk.deleted(pre, name);
    let i = pre.index_of(name);
    lemma_lookup(pre);
    assert(post.names() =~= pre.names().remove(i));
    crate::names::lemma_without(pre.names(), name);
    assert(post.names() == crate::names::without(pre.names(), name));
    assert forall|k: int| 0 <= k < post.partitions.len() implies (#[trigger] post.partitions[k])
        == pre.partitions[if k < i {
        k
    } else {
        k + 1
    }] by {}
    assert forall|k: int| 0 <= k < post.partitions.len() implies {
        &&& is_valid_name((#[trigger] post.partitions[k]).name)
        &&& below(post.partitions[k].tree.history(), post.seqno as int)
    } by {
        let k0 = if k < i {
            k
        } else {
            k + 1
        };
        assert(post.partitions[k] == pre.partitions[k0]);
        assert(below(pre.partitions[k0].tree.history(), pre.seqno as int));
    }
    lemma_lookup(post);
    assert forall|other: Seq<char>| #[trigger] post.has_partition(other) implies other != name
        && pre.has_partition(other) && post.tree(other) == pre.tree(other) by {
        let k = post.index_of(other);
        let k0 = if k < i {
            k
        } else {
            k + 1
        };
        assert(post.partitions[k] == pre.partitions[k0]);
        assert(pre.partitions[k0].name == other);
    }
    lemma_kept_len(pre.journals.sealed, disk.sealed, name, u64::MAX);
    assert forall|x: RecordView| in_memory(post, x) implies in_memory(pre, x) && x.partition
        != name by {}
    assert forall|j: int, k: int|
        0 <= j < disk.sealed.len() && 0 <= k < disk.sealed[j].len() && in_memory(
            post,
            #[trigger] disk.sealed[j][k],
        ) implies covered(
        pending(pre.journals.sealed[j].seqnos, name, u64::MAX),
        disk.sealed[j][k],
    ) by {
        let x = disk.sealed[j][k];
        assert(in_memory(pre, x));
        let seqnos = pre.journals.sealed[j].seqnos;
        assert(covered(seqnos, x));
        let e = choose|e: int|
            0 <= e < seqnos.len() && (#[trigger] seqnos[e]).partition == x.partition
                && seqnos[e].lsn >= x.seqno;
        let at = lemma_pending_has(seqnos, name, u64::MAX, e);
        assert(pending(seqnos, name, u64::MAX)[at] == seqnos[e]);
    }
    assert forall|x: RecordView| #[trigger] after.has(x) implies sound(post, x) by {
        if exists|j: int| 0 <= j < after.sealed.len() && (#[trigger] after.sealed[j]).contains(x) {
            let at = choose|j: int|
                0 <= j < after.sealed.len() && (#[trigger] after.sealed[j]).contains(x);
            let j = lemma_kept_from(pre.journals.sealed, disk.sealed, name, u64::MAX, at);
            assert(disk.sealed[j].contains(x));
        }
        assert(disk.has(x));
        assert(sound(pre, x));
    }
    assert forall|k: int|
        0 <= k < after.active.len() && post.has_partition(
            (#[trigger] after.active[k]).partition,
        ) implies post.tree(after.active[k].partition).active.contains_key(
        after.active[k].version().id(),
    ) by {
        let x = disk.active[k];
        assert(disk.active.contains(x));
    }
    assert forall|at: int, k: int|
        0 <= at < after.sealed.len() && 0 <= k < after.sealed[at].len() && in_memory(
            post,
            #[trigger] after.sealed[at][k],
        ) implies covered(post.journals.sealed[at].seqnos, after.sealed[at][k]) by {
        let j = lemma_kept_from(pre.journals.sealed, disk.sealed, name, u64::MAX, at);
        assert(after.sealed[at][k] == disk.sealed[j][k]);
    }
    assert forall|p: int, id: (Seq<u8>, SeqNo)|
        0 <= p < post.partitions.len() && #[trigger] memtables(post.partitions[p].tree).contains_key(
            id,
        ) && !on_disk(post.partitions[p].tree).contains_key(id) implies after.holds(
        post.partitions[p].name,
        id,
    ) by {
        let p0 = if p < i {
            p
        } else {
            p + 1
        };
        assert(post.partitions[p] == pre.partitions[p0]);
        let owner = pre.partitions[p0].name;
        assert(memtables(pre.partitions[p0].tree).contains_key(id));
        assert(disk.holds(owner, id));
        if !writes(disk.active, owner, id) {
            let j = choose|j: int|
                0 <= j < disk.sealed.len() && writes(#[trigger] disk.sealed[j], owner, id);
            let k = choose|k: int|
                0 <= k < disk.sealed[j].len() && (#[trigger] disk.sealed[j][k]).partition == owner
                    && disk.sealed[j][k].version().id() == id;
            let x = disk.sealed[j][k];
            assert(post.has_partition(owner));
            assert(post.tree(owner) == post.partitions[p].tree);
            assert(in_memory(post, x));
            assert(covered(pending(pre.journals.sealed[j].seqnos, name, u64::MAX), x));
            let at = lemma_kept_has(pre.journals.sealed, disk.sealed, name, u64::MAX, j);
            assert(writes(after.sealed[at], owner, id));
        }
    }
    assert forall|p: int| 0 <= p < post.partitions.len() implies ordered(
        (#[trigger] post.partitions[p]).tree,
    ) by {
        let p0 = if p < i {
            p
        } else {
            p + 1
        };
        assert(post.partitions[p] == pre.partitions[p0]);
    }
}

/// A check for an overflow, each rotation of which seals the active journal
/// on disk, leaves journals that suffice.
pub proof fn lemma_checked_safe(
    pre: KeyspaceView,
    disk: Disk,
    name: Seq<char>,
    size: u32,
    outcome: WriteOutcome,
    post: KeyspaceView,
)
    requires
        safe(pre, disk),
        pre.has_partition(name),
        pre.checked(name, size, outcome, post),
    ensures
        safe(post, sealed_times(disk, outcome.rotations@.len())),
{
    let rotations = rotation_views(outcome.rotations@);
    let after = sealed_times(disk, rotations.len());
    let mid = pre.overflow(name, size, rotations)->0;
    if size > pre.partition(name).config.max_memtable_size {
        lemma_cascade_safe(pre, disk, name, rotations);
        let next = pre.cascade(name, rotations)->0;
        if next.write_stalled() {
            lemma_notify_safe(next, after, name);
        }
    }
    if mid.tree(name).segments.len() > crate::partition::THROTTLE_SEGMENTS {
        lemma_notify_safe(mid, after, name);
    }
}

/// The disk after a write with the result `r`: the record of the write is
/// appended to the active journal if it reached the journal, and the active
/// journal is sealed once for each rotation that the write set off.
pub open spec fn disk_after_write(
    disk: Disk,
    name: Seq<char>,
    v: ValueView,
    r: Result<WriteOutcome, Error>,
) -> Disk {
    match r {
        Ok(outcome) => sealed_times(disk.append(record_of(name, v)), outcome.rotations@.len()),
        Err(_) => disk,
    }
}

/// A write, whatever its result, leaves journals that suffice: if the
/// journals on disk sufficed before the write, and the program around the
/// library appends the record, seals the active journal at each rotation
/// and does no more, then the journals on disk suffice after it.
pub proof fn lemma_written_safe(
    pre: KeyspaceView,
    disk: Disk,
    name: Seq<char>,
    v: ValueView,
    journaled: Result<(), std::io::Error>,
    r: Result<WriteOutcome, Error>,
    post: KeyspaceView,
)
    requires
        safe(pre, disk),
        v.seqno == pre.seqno,
        pre.written(name, v, journaled, r, post),
    ensures
        safe(post, disk_after_write(disk, name, v, r)),
{
    match r {
        Ok(outcome) => {
            let w = pre.write(name, v);
            lemma_write_safe(pre, disk, name, v);
            lemma_write_keeps(pre, name, v);
            lemma_lookup(pre);
            assert(w.has_partition(name));
            lemma_checked_safe(
                w,
                disk.append(record_of(name, v)),
                name,
                w.tree(name).active_size,
                outcome,
                post,
            );
        },
        Err(Error::Io(_)) => {
            lemma_failed_write_safe(pre, disk);
        },
        Err(_) => {},
    }
}

/// One round of a write halt, each rotation of which seals the active
/// journal on disk, leaves journals that suffice.
pub proof fn lemma_relieve_safe(pre: KeyspaceView, disk: Disk, rotations: Seq<RotationView>)
    requires
        safe(pre, disk),
        pre.relieve(rotations) is Some,
    ensures
        safe(pre.relieve(rotations)->0, sealed_times(disk, rotations.len())),
{
    if pre.over_limit() && pre.flushes.lru.len() > 0 {
        lemma_rotate_lru_safe(pre, disk);
        lemma_cascade_safe(pre.rotate_lru(), disk, pre.flushes.lru.first(), rotations);
    }
}

/// Replaying records over a history is laying what they write over it.
pub proof fn lemma_replayed_union(h: History, records: Seq<RecordView>, name: Seq<char>)
    ensures
        replayed(h, records, name) == h.union_prefer_right(replayed(Map::empty(), records, name)),
    decreases records.len(),
{
    if records.len() == 0 {
        assert(h.union_prefer_right(Map::empty()) =~= h);
    } else {
        lemma_replayed_union(h, records.drop_last(), name);
        assert(replayed(h, records, name) =~= h.union_prefer_right(
            replayed(Map::empty(), records, name),
        ));
    }
}

/// Replaying journals over a history is laying what they write over it.
pub proof fn lemma_replayed_all_union(h: History, journals: Seq<Seq<RecordView>>, name: Seq<char>)
    ensures
        replayed_all(h, journals, name) == h.union_prefer_right(
            replayed_all(Map::empty(), journals, name),
        ),
    decreases journals.len(),
{
    if journals.len() == 0 {
        assert(h.union_prefer_right(Map::empty()) =~= h);
    } else {
        let shorter = journals.drop_last();
        lemma_replayed_all_union(h, shorter, name);
        lemma_replayed_union(replayed_all(h, shorter, name), journals.last(), name);
        lemma_replayed_union(replayed_all(Map::empty(), shorter, name), journals.last(), name);
        assert(replayed_all(h, journals, name) =~= h.union_prefer_right(
            replayed_all(Map::empty(), journals, name),
        ));
    }
}

/// The replay of a journal by a keyspace gives each partition what the
/// records of the journal write to it.
pub proof fn lemma_replay_history(pre: KeyspaceView, records: Seq<RecordView>, name: Seq<char>)
    requires
        pre.wf(),
        pre.has_partition(name),
        !records_exhaust(records),
    ensures
        pre.replay(records).wf(),
        pre.replay(records).names() == pre.names(),
        pre.replay(records).history(name) == replayed(pre.history(name), records, name),
    decreases records.len(),
{
    if records.len() > 0 {
        let shorter = records.drop_last();
        let r = records.last();
        assert(records[records.len() - 1] == r);
        assert(r.seqno != u64::MAX);
        assert forall|i: int| 0 <= i < shorter.len() implies (#[trigger] shorter[i]).seqno
            != u64::MAX by {
            assert(shorter[i] == records[i]);
        }
        lemma_replay_history(pre, shorter, name);
        let before = pre.replay(shorter);
        lemma_replay_one_keeps(before, r);
        lemma_lookup(before);
        if before.has_partition(r.partition) {
            lemma_with_tree(before, r.partition, before.tree(r.partition).write(r.version()));
            before.tree(r.partition).lemma_write_history(r.version());
            let seen = KeyspaceView {
                seqno: crate::recovery::after_seqno(before.seqno, r.seqno),
                journals: before.journals.written(r.len()),
                ..before
            };
            assert(seen.names() == before.names());
            assert(seen.with_tree(r.partition, before.tree(r.partition).write(r.version())).partitions
                == before.with_tree(
                r.partition,
                before.tree(r.partition).write(r.version()),
            ).partitions);
        }
    }
}

/// The keyspace from which the replay of the journal at position `j` starts.
pub open spec fn replay_start(start: KeyspaceView, ends: Seq<KeyspaceView>, j: int) -> KeyspaceView {
    if j == 0 {
        start
    } else {
        ends[j - 1]
    }
}

/// Whether `post` comes from `pre` by the replay of the records of one
/// sealed journal and the sealing of what was replayed.
pub open spec fn is_replay_step(
    pre: KeyspaceView,
    records: Seq<RecordView>,
    post: KeyspaceView,
) -> bool {
    exists|id: Seq<char>, rotations: Seq<RotationView>|
        #[trigger] pre.replay(records).seal_replayed(id, rotations) == Some(post)
}

/// Whether `ends` are the keyspaces that a replay of the sealed journals
/// goes through: each comes from the one before it, or from `start`, by the
/// replay of one journal and the sealing of what was replayed.
pub open spec fn replays(
    start: KeyspaceView,
    journals: Seq<Seq<RecordView>>,
    ends: Seq<KeyspaceView>,
) -> bool {
    &&& ends.len() == journals.len()
    &&& forall|j: int|
        0 <= j < journals.len() ==> is_replay_step(
            #[trigger] replay_start(start, ends, j),
            journals[j],
            ends[j],
        )
}

/// The keyspace that the replay of the sealed journals ends with.
pub open spec fn replay_end(start: KeyspaceView, ends: Seq<KeyspaceView>) -> KeyspaceView {
    if ends.len() == 0 {
        start
    } else {
        ends.last()
    }
}

/// The replay of sealed journals by a keyspace gives each partition what
/// the records of the journals write to it.
pub proof fn lemma_replays_history(
    start: KeyspaceView,
    journals: Seq<Seq<RecordView>>,
    ends: Seq<KeyspaceView>,
    name: Seq<char>,
)
    requires
        start.wf(),
        start.has_partition(name),
        replays(start, journals, ends),
        forall|j: int| 0 <= j < journals.len() ==> !records_exhaust(#[trigger] journals[j]),
    ensures
        replay_end(start, ends).wf(),
        replay_end(start, ends).names() == start.names(),
        replay_end(start, ends).history(name) == replayed_all(start.history(name), journals, name),
    decreases journals.len(),
{
    if journals.len() > 0 {
        let n = journals.len() - 1;
        let shorter = journals.drop_last();
        let before_ends = ends.drop_last();
        assert forall|j: int| 0 <= j < shorter.len() implies is_replay_step(
            #[trigger] replay_start(start, before_ends, j),
            shorter[j],
            before_ends[j],
        ) by {
            assert(shorter[j] == journals[j]);
            assert(before_ends[j] == ends[j]);
            if j > 0 {
                assert(before_ends[j - 1] == ends[j - 1]);
            }
            assert(replay_start(start, before_ends, j) == replay_start(start, ends, j));
            assert(is_replay_step(replay_start(start, ends, j), journals[j], ends[j]));
        }
        assert forall|j: int| 0 <= j < shorter.len() implies !records_exhaust(
            #[trigger] shorter[j],
        ) by {
            assert(shorter[j] == journals[j]);
        }
        lemma_replays_history(start, shorter, before_ends, name);
        let before = replay_end(start, before_ends);
        assert(before == replay_start(start, ends, n));
        assert(is_replay_step(replay_start(start, ends, n), journals[n], ends[n]));
        let (id, rotations) = choose|id: Seq<char>, rotations: Seq<RotationView>|
            #[trigger] before.replay(journals[n]).seal_replayed(id, rotations) == Some(ends[n]);
        let replayed_one = before.replay(journals[n]);
        lemma_replay_history(before, journals[n], name);
        lemma_seal_first_keeps(replayed_one, replayed_one.partitions.len(), id, rotations);
        let sealed = replayed_one.seal_first(replayed_one.partitions.len(), id, rotations)->0;
        let last = ends[n];
        assert(last.partitions == sealed.partitions);
        assert(last.names() == sealed.names());
        lemma_lookup(replayed_one);
        assert(last.history(name) == replayed_one.history(name));
        assert forall|k: int| 0 <= k < last.partitions.len() implies {
            &&& is_valid_name((#[trigger] last.partitions[k]).name)
            &&& below(last.partitions[k].tree.history(), last.seqno as int)
        } by {
            assert(below(sealed.partitions[k].tree.history(), sealed.seqno as int));
        }
        assert(journals.last() == journals[n]);
    }
}

/// Reopening gives every partition back as it was when the keyspace went
/// down, at whatever moment that was.
///
/// Let the journals on disk suffice for the keyspace `crashed`. Let `start`
/// be a keyspace whose partition `name` holds what the segments of that
/// partition held, let `ends` be the keyspaces that the replay of the sealed
/// journals on disk goes through from there, and let the active journal be
/// replayed last. Then the partition holds every version that it held in
/// `crashed`, and no other.
pub proof fn lemma_reopen(
    crashed: KeyspaceView,
    disk: Disk,
    start: KeyspaceView,
    ends: Seq<KeyspaceView>,
    name: Seq<char>,
)
    requires
        safe(crashed, disk),
        crashed.has_partition(name),
        start.wf(),
        start.has_partition(name),
        start.history(name) == merge_runs(crashed.tree(name).segments),
        replays(start, disk.sealed, ends),
    ensures
        replay_end(start, ends).replay(disk.active).history(name) == crashed.history(name),
{
    assert forall|j: int| 0 <= j < disk.sealed.len() implies !records_exhaust(
        #[trigger] disk.sealed[j],
    ) by {
        if records_exhaust(disk.sealed[j]) {
            let i = choose|i: int|
                0 <= i < disk.sealed[j].len() && (#[trigger] disk.sealed[j][i]).seqno == u64::MAX;
            let x = disk.sealed[j][i];
            assert(disk.sealed[j].contains(x));
            assert(disk.has(x));
            assert(sound(crashed, x));
        }
    }
    assert(!records_exhaust(disk.active)) by {
        if records_exhaust(disk.active) {
            let i = choose|i: int|
                0 <= i < disk.active.len() && (#[trigger] disk.active[i]).seqno == u64::MAX;
            let x = disk.active[i];
            assert(disk.active.contains(x));
            assert(disk.has(x));
            assert(sound(crashed, x));
        }
    }
    lemma_replays_history(start, disk.sealed, ends, name);
    let end = replay_end(start, ends);
    assert(end.names().contains(name));
    lemma_replay_history(end, disk.active, name);
    let segments = merge_runs(crashed.tree(name).segments);
    lemma_replayed_all_union(segments, disk.sealed, name);
    lemma_replayed_union(replayed_all(segments, disk.sealed, name), disk.active, name);
    lemma_replayed_union(replayed_all(Map::empty(), disk.sealed, name), disk.active, name);
    lemma_recovery(crashed, disk, name);
    assert(replayed(replayed_all(segments, disk.sealed, name), disk.active, name)
        =~= segments.union_prefer_right(disk.recovered(name)));
}

/// The disk after the records were appended to the active journal in their order.
pub open spec fn appended(disk: Disk, records: Seq<RecordView>) -> Disk
    decreases records.len(),
{
    if records.len() == 0 {
        disk
    } else {
        appended(disk, records.drop_last()).append(records.last())
    }
}

/// The disk after the active journal was sealed once for each rotation of
/// each of the outcomes.
pub open spec fn sealed_for(disk: Disk, outcomes: Seq<WriteOutcome>) -> Disk
    decreases outcomes.len(),
{
    if outcomes.len() == 0 {
        disk
    } else {
        sealed_times(sealed_for(disk, outcomes.drop_last()), outcomes.last().rotations@.len())
    }
}

/// The items of a batch, written one after the other while their records
/// are appended to the active journal, leave journals that suffice.
pub proof fn lemma_apply_batch_safe(pre: KeyspaceView, disk: Disk, items: Seq<ItemView>)
    requires
        safe(pre, disk),
        pre.has_all(items),
        pre.seqno + items.len() <= u64::MAX,
    ensures
        safe(pre.apply_batch(items), appended(disk, records_of(items, pre.seqno))),
    decreases items.len(),
{
    if items.len() > 0 {
        let shorter = items.drop_last();
        let item = items.last();
        assert(items[items.len() - 1] == item);
        assert forall|i: int| 0 <= i < shorter.len() implies pre.has_partition(
            (#[trigger] shorter[i]).partition,
        ) by {
            assert(shorter[i] == items[i]);
        }
        lemma_apply_batch_safe(pre, disk, shorter);
        lemma_apply_batch_keeps(pre, shorter);
        let before = pre.apply_batch(shorter);
        let records = records_of(items, pre.seqno);
        assert(records.drop_last() =~= records_of(shorter, pre.seqno));
        assert(records.last() == record_of(item.partition, item.version(before.seqno)));
        assert(before.names().contains(item.partition));
        lemma_write_safe(
            before,
            appended(disk, records_of(shorter, pre.seqno)),
            item.partition,
            item.version(before.seqno),
        );
    }
}

/// The checks for an overflow that follow a batch, each rotation of which
/// seals the active journal on disk, leave journals that suffice.
pub proof fn lemma_checks_safe(
    pre: KeyspaceView,
    disk: Disk,
    names: Seq<Seq<char>>,
    outcomes: Seq<WriteOutcome>,
)
    requires
        safe(pre, disk),
        forall|i: int| 0 <= i < names.len() ==> pre.has_partition(#[trigger] names[i]),
        pre.checks_ok(names, outcomes),
    ensures
        safe(pre.after_checks(names, outcomes), sealed_for(disk, outcomes)),
        pre.after_checks(names, outcomes).names() == pre.names(),
    decreases names.len(),
{
    if names.len() > 0 {
        let shorter = names.drop_last();
        assert forall|i: int| 0 <= i < shorter.len() implies pre.has_partition(
            #[trigger] shorter[i],
        ) by {
            assert(shorter[i] == names[i]);
        }
        lemma_checks_safe(pre, disk, shorter, outcomes.drop_last());
        let before = pre.after_checks(shorter, outcomes.drop_last());
        let name = names.last();
        assert(names[names.len() - 1] == name);
        assert(before.names().contains(name));
        let after = before.after_check(name, outcomes.last());
        lemma_checked_safe(
            before,
            sealed_for(disk, outcomes.drop_last()),
            name,
            before.tree(name).active_size,
            outcomes.last(),
            after,
        );
        lemma_checked_keeps(before, name, before.tree(name).active_size, outcomes.last(), after);
    }
}

/// A batch that is committed, with its records appended to the active
/// journal and the active journal sealed at each rotation, leaves journals
/// that suffice.
pub proof fn lemma_batch_safe(
    pre: KeyspaceView,
    disk: Disk,
    items: Seq<ItemView>,
    outcomes: Seq<WriteOutcome>,
)
    requires
        safe(pre, disk),
        pre.has_all(items),
        pre.seqno + items.len() <= u64::MAX,
        pre.apply_batch(items).checks_ok(touched(items), outcomes),
    ensures
        safe(
            pre.apply_batch(items).after_checks(touched(items), outcomes),
            sealed_for(appended(disk, records_of(items, pre.seqno)), outcomes),
        ),
{
    lemma_apply_batch_safe(pre, disk, items);
    lemma_apply_batch_keeps(pre, items);
    let applied = pre.apply_batch(items);
    let names = touched(items);
    assert forall|j: int| 0 <= j < names.len() implies applied.has_partition(#[trigger] names[j]) by {
        let i = lemma_touched(items, j);
        assert(pre.has_partition(items[i].partition));
    }
    lemma_checks_safe(applied, appended(disk, records_of(items, pre.seqno)), names, outcomes);
}

} // verus!
