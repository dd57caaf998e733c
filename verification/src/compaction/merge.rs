//! What a compaction worker asks of the keyspace: the partition that has
//! waited longest for a compaction, and the merge of its oldest segments.
//!
//! A compaction changes how the versions of a partition are laid out in
//! segments and nothing of what the partition holds.

use crate::durability::{
    lemma_lookup, lemma_same_data_safe, lemma_with_tree, memtables, nonempty, on_disk, ordered,
    safe, sound, Disk,
};
use crate::error::{Error, StorageError};
use crate::history::below;
use crate::id::generate_segment_id;
use crate::journal::record::RecordView;
use crate::keyspace::{Keyspace, KeyspaceView};
use crate::partition::{is_segment_id, is_valid_name, PartitionHandle};
use crate::tree_inner::{id_views, merge_runs, merged_run, run_ids, Compaction, RunView};
use crate::value::{SeqNo, Stored};
use vstd::prelude::*;

verus! {

impl KeyspaceView {
    /// The keyspace after a compaction worker took the oldest note off the
    /// list of the compaction manager.
    pub open spec fn take_note(self) -> KeyspaceView {
        KeyspaceView { compactions: self.compactions.drop_first(), ..self }
    }

    /// The keyspace after a compaction of at most `count` segments of the
    /// partition `name`: its oldest segments give way to one segment, under
    /// `id`, that holds what they held.
    pub open spec fn compact(self, name: Seq<char>, count: int, id: Seq<char>) -> KeyspaceView {
        self.with_tree(name, self.tree(name).compact(count, id))
    }
}

/// A compaction leaves every partition with what it held, under its name
/// and with its memtables, and the journals, the queues, the notes and the
/// sequence number as they were. Where it merges segments, the partition has
/// fewer of them afterwards.
pub proof fn lemma_compact_keeps(pre: KeyspaceView, name: Seq<char>, count: int, id: Seq<char>)
    requires
        pre.wf(),
        pre.has_partition(name),
    ensures
        ({
            let post = pre.compact(name, count, id);
            let n = pre.tree(name).mergeable(count);
            &&& post.wf()
            &&& post.names() == pre.names()
            &&& post.tree(name).segments.len() == pre.tree(name).segments.len() - n + if n == 0 {
                0int
            } else {
                1int
            }
            &&& forall|i: int|
                0 <= i < pre.partitions.len() ==> {
                    &&& (#[trigger] post.partitions[i]).name == pre.partitions[i].name
                    &&& post.partitions[i].config == pre.partitions[i].config
                    &&& post.partitions[i].tree.history() == pre.partitions[i].tree.history()
                    &&& post.partitions[i].tree.active == pre.partitions[i].tree.active
                    &&& post.partitions[i].tree.sealed == pre.partitions[i].tree.sealed
                    &&& merge_runs(post.partitions[i].tree.segments) == merge_runs(
                        pre.partitions[i].tree.segments,
                    )
                }
        }),
{
    let post = pre.compact(name, count, id);
    let tree = pre.tree(name).compact(count, id);
    let at = pre.index_of(name);
    lemma_lookup(pre);
    lemma_with_tree(pre, name, tree);
    pre.tree(name).lemma_compact_history(count, id);
    assert forall|i: int| 0 <= i < pre.partitions.len() implies {
        &&& (#[trigger] post.partitions[i]).name == pre.partitions[i].name
        &&& post.partitions[i].config == pre.partitions[i].config
        &&& post.partitions[i].tree.history() == pre.partitions[i].tree.history()
        &&& post.partitions[i].tree.active == pre.partitions[i].tree.active
        &&& post.partitions[i].tree.sealed == pre.partitions[i].tree.sealed
        &&& merge_runs(post.partitions[i].tree.segments) == merge_runs(
            pre.partitions[i].tree.segments,
        )
    } by {
        if i != at {
            assert(post.partitions[i] == pre.partitions[i]);
        }
    }
    assert forall|k: int| 0 <= k < post.partitions.len() implies {
        &&& is_valid_name((#[trigger] post.partitions[k]).name)
        &&& below(post.partitions[k].tree.history(), post.seqno as int)
    } by {
        assert(post.partitions[k].name == pre.partitions[k].name);
    }
}

/// A compaction leaves every sealed memtable queued for its flush.
pub proof fn lemma_compact_queued(pre: KeyspaceView, name: Seq<char>, count: int, id: Seq<char>)
    requires
        pre.wf(),
        pre.queued(),
        pre.has_partition(name),
    ensures
        pre.compact(name, count, id).queued(),
{
    lemma_compact_keeps(pre, name, count, id);
    crate::queued::lemma_same_queued(pre, pre.compact(name, count, id));
}

/// The run that a merge of runs leaves holds a version if one of them does.
pub proof fn lemma_merged_nonempty(runs: Seq<RunView>, id: Seq<char>)
    requires
        runs.len() > 0,
        nonempty(runs),
    ensures
        merged_run(runs, id).versions != Map::<(Seq<u8>, SeqNo), Stored>::empty(),
{
    let last = runs.last().versions;
    if merge_runs(runs) == Map::<(Seq<u8>, SeqNo), Stored>::empty() {
        assert forall|k: (Seq<u8>, SeqNo)| !last.contains_key(k) by {
            if last.contains_key(k) {
                assert(merge_runs(runs).contains_key(k));
            }
        }
        assert(last =~= Map::empty());
    }
}

/// Journals that suffice for a keyspace suffice for it after a compaction:
/// a compaction takes nothing from the segments that a journal would have
/// to give back.
pub proof fn lemma_compact_safe(
    pre: KeyspaceView,
    disk: Disk,
    name: Seq<char>,
    count: int,
    id: Seq<char>,
)
    requires
        safe(pre, disk),
        pre.has_partition(name),
    ensures
        safe(pre.compact(name, count, id), disk),
{
    let post = pre.compact(name, count, id);
    let at = pre.index_of(name);
    lemma_compact_keeps(pre, name, count, id);
    lemma_lookup(pre);
    lemma_lookup(post);
    assert forall|p: int| 0 <= p < pre.partitions.len() implies memtables(
        (#[trigger] post.partitions[p]).tree,
    ) == memtables(pre.partitions[p].tree) && on_disk(post.partitions[p].tree) == on_disk(
        pre.partitions[p].tree,
    ) by {}
    assert forall|r: RecordView| #[trigger] disk.has(r) implies sound(post, r) by {
        assert(sound(pre, r));
        if post.has_partition(r.partition) {
            let p = pre.index_of(r.partition);
            assert(post.index_of(r.partition) == p);
            assert(post.partitions[p].tree.history() == pre.partitions[p].tree.history());
        }
    }
    assert forall|i: int|
        0 <= i < disk.active.len() && post.has_partition(
            (#[trigger] disk.active[i]).partition,
        ) implies post.tree(disk.active[i].partition).active.contains_key(
        disk.active[i].version().id(),
    ) by {
        let p = pre.index_of(disk.active[i].partition);
        assert(post.index_of(disk.active[i].partition) == p);
        assert(post.partitions[p].tree.active == pre.partitions[p].tree.active);
    }
    assert forall|j: int, i: int|
        0 <= j < disk.sealed.len() && 0 <= i < disk.sealed[j].len() && crate::durability::in_memory(
            post,
            #[trigger] disk.sealed[j][i],
        ) implies crate::durability::covered(post.journals.sealed[j].seqnos, disk.sealed[j][i]) by {
        let r = disk.sealed[j][i];
        let p = pre.index_of(r.partition);
        assert(post.index_of(r.partition) == p);
        assert(memtables(post.partitions[p].tree) == memtables(pre.partitions[p].tree));
        assert(on_disk(post.partitions[p].tree) == on_disk(pre.partitions[p].tree));
        assert(crate::durability::in_memory(pre, r));
    }
    assert forall|p: int, v: (Seq<u8>, SeqNo)|
        0 <= p < post.partitions.len() && #[trigger] memtables(post.partitions[p].tree).contains_key(
            v,
        ) && !on_disk(post.partitions[p].tree).contains_key(v) implies disk.holds(
        post.partitions[p].name,
        v,
    ) by {
        assert(memtables(pre.partitions[p].tree).contains_key(v));
        assert(post.partitions[p].name == pre.partitions[p].name);
    }
    assert forall|p: int| 0 <= p < post.partitions.len() implies ordered(
        (#[trigger] post.partitions[p]).tree,
    ) by {
        assert(ordered(pre.partitions[p].tree));
        if p == at {
            let tree = pre.partitions[p].tree;
            let n = tree.mergeable(count);
            if n > 0 {
                let runs = tree.segments.take(n);
                assert forall|a: int| 0 <= a < runs.len() implies (#[trigger] runs[a]).versions
                    != Map::<(Seq<u8>, SeqNo), Stored>::empty() by {
                    assert(runs[a] == tree.segments[a]);
                }
                lemma_merged_nonempty(runs, id);
                let after = post.partitions[p].tree.segments;
                assert forall|a: int| 0 <= a < after.len() implies (#[trigger] after[a]).versions
                    != Map::<(Seq<u8>, SeqNo), Stored>::empty() by {
                    if a > 0 {
                        assert(after[a] == tree.segments[a - 1 + n]);
                    }
                }
            }
        } else {
            assert(post.partitions[p] == pre.partitions[p]);
        }
    }
}

/// Journals that suffice for a keyspace suffice for it after a compaction
/// worker took a note.
pub proof fn lemma_take_note_safe(pre: KeyspaceView, disk: Disk)
    requires
        safe(pre, disk),
    ensures
        safe(pre.take_note(), disk),
{
    lemma_same_data_safe(pre, pre.take_note(), disk);
}

impl Keyspace {
    /// Takes the oldest note off the list of the compaction manager: the
    /// partition that has waited longest for a compaction, or `None` if no
    /// partition waits for one.
    pub fn next_compaction(&mut self) -> (r: Option<PartitionHandle>)
        requires
            old(self).wf(),
        ensures
            final(self).wf(),
            match r {
                Some(p) => {
                    &&& old(self)@.compactions.len() > 0
                    &&& p@ == old(self)@.compactions.first()
                    &&& final(self)@ == old(self)@.take_note()
                },
                None => old(self)@.compactions.len() == 0 && final(self)@ == old(self)@,
            },
    {
        let r = self.compaction_manager.pop();
        proof {
            crate::queued::lemma_same_queued(old(self)@, self@);
        }
        r
    }

    /// Merges the oldest segments of the partition, at most `count` of them,
    /// into one segment under a new identifier, and tells which segments gave
    /// way to which. Fewer than two segments are left as they are. Every
    /// partition holds afterwards what it held before.
    ///
    /// Fails with `PartitionNotFound` if the keyspace has no such partition,
    /// and on no other input.
    pub fn compact(&mut self, partition: &PartitionHandle, count: usize) -> (r: Result<
        Compaction,
        Error,
    >)
        requires
            old(self).wf(),
        ensures
            final(self).wf(),
            match r {
                Ok(done) => {
                    let tree = old(self)@.tree(partition@);
                    let n = tree.mergeable(count as int);
                    &&& old(self)@.has_partition(partition@)
                    &&& id_views(done.replaced@) == run_ids(tree.segments.take(n))
                    &&& match done.segment {
                        Some(run) => {
                            &&& n >= 2
                            &&& is_segment_id(run.id@)
                            &&& run.wf()
                            &&& run@ == merged_run(tree.segments.take(n), run.id@)
                            &&& final(self)@ == old(self)@.compact(
                                partition@,
                                count as int,
                                run.id@,
                            )
                        },
                        None => n == 0 && final(self)@ == old(self)@,
                    }
                },
                Err(e) => {
                    &&& !old(self)@.has_partition(partition@)
                    &&& e == Error::Storage(StorageError::PartitionNotFound)
                    &&& final(self)@ == old(self)@
                },
            },
    {
        let i = match self.position(&partition.name) {
            None => {
                return Err(Error::Storage(StorageError::PartitionNotFound));
            },
            Some(i) => i,
        };
        let id = generate_segment_id();
        let ghost pre = old(self)@;
        let ghost before = self.partitions@;
        proof {
            lemma_compact_keeps(pre, partition@, count as int, id@);
            lemma_compact_queued(pre, partition@, count as int, id@);
            lemma_lookup(pre);
        }
        let done = self.partitions[i].tree.merge_segments(count, id);
        proof {
            let tree = pre.tree(partition@).compact(count as int, id@);
            assert(self@.partitions =~= pre.with_tree(partition@, tree).partitions);
            assert forall|k: int| 0 <= k < self.partitions@.len() implies (
            #[trigger] self.partitions@[k]).wf() by {
                if k != i {
                    assert(self.partitions@[k] == before[k]);
                }
            }
            if pre.tree(partition@).mergeable(count as int) == 0 {
                assert(self@.partitions =~= pre.partitions);
            }
        }
        Ok(done)
    }
}

} // verus!
