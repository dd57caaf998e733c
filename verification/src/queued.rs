//! Every sealed memtable is queued for its flush.
//!
//! A rotation seals a memtable and queues its flush task in one step, and a
//! flush takes both away in one step. This module proves that whatever a
//! keyspace goes through, the tasks in its flush queues are those of its
//! sealed memtables.

use crate::batch::{lemma_apply_batch_keeps, ItemView};
use crate::config::CreateOptions;
use crate::error::Error;
use crate::flush::manager::{queue_names, TaskView};
use crate::journal::record::RecordView;
use crate::keyspace::{tasks_for, KeyspaceView};
use crate::partition::{
    lemma_checked_keeps, lemma_seal_keeps, lemma_write_keeps, rotation_views, RotationView,
    WriteOutcome, THROTTLE_SEGMENTS,
};
use crate::recovery::{lemma_replay_one_keeps, lemma_seal_first_keeps, records_exhaust};

use crate::value::{SeqNo, Stored, ValueView};
use vstd::prelude::*;

verus! {

/// In a well-formed keyspace each partition is found under its name.
proof fn lemma_found(ks: KeyspaceView)
    requires
        ks.wf(),
    ensures
        forall|p: int|
            0 <= p < ks.partitions.len() ==> ks.has_partition((#[trigger] ks.partitions[p]).name)
                && ks.index_of(ks.partitions[p].name) == p,
        forall|name: Seq<char>| #[trigger]
            ks.has_partition(name) ==> 0 <= ks.index_of(name) < ks.partitions.len()
                && ks.partitions[ks.index_of(name)].name == name,
{
    assert forall|p: int| 0 <= p < ks.partitions.len() implies ks.has_partition(
        (#[trigger] ks.partitions[p]).name,
    ) && ks.index_of(ks.partitions[p].name) == p by {
        assert(ks.names()[p] == ks.partitions[p].name);
    }
    assert forall|name: Seq<char>| #[trigger] ks.has_partition(name) implies 0 <= ks.index_of(name)
        < ks.partitions.len() && ks.partitions[ks.index_of(name)].name == name by {
        assert(ks.names()[ks.index_of(name)] == name);
    }
}

/// A keyspace without partitions and without queues has nothing to queue.
pub proof fn lemma_empty_queued(ks: KeyspaceView)
    requires
        ks.partitions.len() == 0,
        ks.flushes.queues.len() == 0,
    ensures
        ks.queued(),
{
    assert(queue_names(ks.flushes.queues) =~= Seq::empty());
}

/// What leaves the names of the partitions, their sealed memtables and the
/// queues as they were leaves every sealed memtable queued.
pub proof fn lemma_same_queued(pre: KeyspaceView, post: KeyspaceView)
    requires
        pre.queued(),
        post.flushes.queues == pre.flushes.queues,
        post.partitions.len() == pre.partitions.len(),
        forall|i: int|
            0 <= i < pre.partitions.len() ==> (#[trigger] post.partitions[i]).name
                == pre.partitions[i].name && post.partitions[i].tree.sealed
                == pre.partitions[i].tree.sealed,
    ensures
        post.queued(),
{
    assert(post.names() =~= pre.names());
    assert forall|i: int| 0 <= i < post.partitions.len() implies post.flushes.tasks_of(
        (#[trigger] post.partitions[i]).name,
    ) == tasks_for(post.partitions[i]) by {
        assert(pre.flushes.tasks_of(pre.partitions[i].name) == tasks_for(pre.partitions[i]));
    }
}

/// A write leaves every sealed memtable queued.
pub proof fn lemma_write_queued(pre: KeyspaceView, name: Seq<char>, v: ValueView)
    requires
        pre.wf(),
        pre.queued(),
        pre.has_partition(name),
    ensures
        pre.write(name, v).queued(),
{
    lemma_found(pre);
    lemma_same_queued(pre, pre.write(name, v));
}

/// Opening a partition leaves every sealed memtable queued.
pub proof fn lemma_open_partition_queued(pre: KeyspaceView, name: Seq<char>, options: CreateOptions)
    requires
        pre.wf(),
        pre.queued(),
    ensures
        pre.open_partition(name, options).queued(),
{
    let post = pre.open_partition(name, options);
    if !pre.has_partition(name) {
        let n = pre.partitions.len() as int;
        assert(post.names() =~= pre.names().push(name));
        assert forall|i: int| 0 <= i < post.partitions.len() implies post.flushes.tasks_of(
            (#[trigger] post.partitions[i]).name,
        ) == tasks_for(post.partitions[i]) by {
            if i < n {
                assert(post.partitions[i] == pre.partitions[i]);
            } else {
                assert(tasks_for(post.partitions[i]) =~= Seq::empty());
                if post.flushes.has_queue(name) {
                    let q = post.flushes.queue_index(name);
                    assert(queue_names(pre.flushes.queues)[q] == name);
                    assert(pre.flushes.queues[q].name == name);
                    assert(post.flushes.tasks_of(name) =~= Seq::empty());
                }
            }
        }
        assert forall|q: int| 0 <= q < post.flushes.queues.len() implies post.has_partition(
            (#[trigger] post.flushes.queues[q]).name,
        ) || post.flushes.queues[q].tasks.len() == 0 by {
            let owner = pre.flushes.queues[q].name;
            if pre.has_partition(owner) {
                let k = pre.names().index_of(owner);
                assert(post.names()[k] == owner);
            }
        }
    }
}

/// Sealing the active memtable of a partition and queuing it for its flush
/// leaves every sealed memtable queued.
pub proof fn lemma_seal_memtable_queued(pre: KeyspaceView, name: Seq<char>, id: Seq<char>)
    requires
        pre.wf(),
        pre.queued(),
        pre.sealable(name),
    ensures
        pre.seal_memtable(name, id).queued(),
{
    let post = pre.seal_memtable(name, id);
    let i = pre.index_of(name);
    let tree = pre.tree(name);
    let task = TaskView { id, partition: name, versions: tree.active };
    lemma_found(pre);
    pre.flushes.lemma_enqueue(name, task);
    assert(post.names() =~= pre.names());
    assert forall|k: int| 0 <= k < post.partitions.len() implies post.flushes.tasks_of(
        (#[trigger] post.partitions[k]).name,
    ) == tasks_for(post.partitions[k]) by {
        assert(pre.flushes.tasks_of(pre.partitions[k].name) == tasks_for(pre.partitions[k]));
        if k == i {
            assert(tasks_for(post.partitions[k]) =~= tasks_for(pre.partitions[k]).push(task));
        } else {
            assert(post.partitions[k] == pre.partitions[k]);
            assert(pre.partitions[k].name != name);
        }
    }
    assert forall|q: int| 0 <= q < post.flushes.queues.len() implies post.has_partition(
        (#[trigger] post.flushes.queues[q]).name,
    ) || post.flushes.queues[q].tasks.len() == 0 by {
        if post.flushes.queues[q].name != name {
            assert(post.flushes.queues[q] == pre.flushes.queues[q]);
        }
    }
}

/// A rotation leaves every sealed memtable queued.
pub proof fn lemma_seal_queued(
    pre: KeyspaceView,
    name: Seq<char>,
    memtable_id: Seq<char>,
    journal_id: Seq<char>,
)
    requires
        pre.wf(),
        pre.queued(),
        pre.sealable(name),
    ensures
        pre.seal(name, memtable_id, journal_id).queued(),
{
    lemma_seal_memtable_queued(pre, name, memtable_id);
    lemma_same_queued(pre.seal_memtable(name, memtable_id), pre.seal(name, memtable_id, journal_id));
}

/// The rotations that a rotation sets off leave every sealed memtable queued.
pub proof fn lemma_cascade_queued(pre: KeyspaceView, name: Seq<char>, rotations: Seq<RotationView>)
    requires
        pre.wf(),
        pre.queued(),
        pre.cascade(name, rotations) is Some,
    ensures
        pre.cascade(name, rotations)->0.queued(),
    decreases rotations.len(),
{
    if pre.sealable(name) {
        let next = pre.seal(name, rotations[0].memtable_id, rotations[0].journal_id);
        lemma_seal_queued(pre, name, rotations[0].memtable_id, rotations[0].journal_id);
        lemma_seal_keeps(pre, name, rotations[0].memtable_id, rotations[0].journal_id);
        if next.over_two_thirds() && next.flushes.lru.len() > 0 {
            lemma_same_queued(next, next.rotate_lru());
            assert(next.rotate_lru().names() == next.names());
            assert(next.rotate_lru().wf());
            lemma_cascade_queued(next.rotate_lru(), next.flushes.lru.first(), rotations.drop_first());
        }
    }
}

/// One round of a write halt leaves every sealed memtable queued.
pub proof fn lemma_relieve_queued(pre: KeyspaceView, rotations: Seq<RotationView>)
    requires
        pre.wf(),
        pre.queued(),
        pre.relieve(rotations) is Some,
    ensures
        pre.relieve(rotations)->0.queued(),
{
    if pre.over_limit() && pre.flushes.lru.len() > 0 {
        lemma_same_queued(pre, pre.rotate_lru());
        assert(pre.rotate_lru().names() == pre.names());
        assert(pre.rotate_lru().wf());
        lemma_cascade_queued(pre.rotate_lru(), pre.flushes.lru.first(), rotations);
    }
}

/// A check for an overflow leaves every sealed memtable queued.
pub proof fn lemma_checked_queued(
    pre: KeyspaceView,
    name: Seq<char>,
    size: u32,
    outcome: WriteOutcome,
    post: KeyspaceView,
)
    requires
        pre.wf(),
        pre.queued(),
        pre.checked(name, size, outcome, post),
    ensures
        post.queued(),
{
    let rotations = rotation_views(outcome.rotations@);
    let mid = pre.overflow(name, size, rotations)->0;
    if size > pre.partition(name).config.max_memtable_size {
        lemma_cascade_queued(pre, name, rotations);
        let next = pre.cascade(name, rotations)->0;
        if next.write_stalled() {
            lemma_same_queued(next, next.notify(name));
        }
    }
    if mid.tree(name).segments.len() > THROTTLE_SEGMENTS {
        lemma_same_queued(mid, mid.notify(name));
    }
}

/// The tasks that are queued for a partition are those of its sealed memtables.
pub proof fn lemma_tasks_of(ks: KeyspaceView, name: Seq<char>)
    requires
        ks.wf(),
        ks.queued(),
        ks.has_partition(name),
    ensures
        ks.flushes.tasks_of(name) == tasks_for(ks.partition(name)),
        ks.flushes.tasks_of(name).len() == ks.tree(name).sealed.len(),
{
    lemma_found(ks);
}

/// A flush leaves every sealed memtable queued.
pub proof fn lemma_flush_queued(pre: KeyspaceView, name: Seq<char>, count: int)
    requires
        pre.wf(),
        pre.queued(),
        pre.has_partition(name),
        count >= 0,
    ensures
        pre.flush(name, count).queued(),
{
    let post = pre.flush(name, count);
    let i = pre.index_of(name);
    let n = pre.flushable(name, count);
    lemma_found(pre);
    lemma_tasks_of(pre, name);
    pre.flushes.lemma_dequeue(name, n);
    assert(post.names() =~= pre.names());
    assert forall|k: int| 0 <= k < post.partitions.len() implies post.flushes.tasks_of(
        (#[trigger] post.partitions[k]).name,
    ) == tasks_for(post.partitions[k]) by {
        assert(pre.flushes.tasks_of(pre.partitions[k].name) == tasks_for(pre.partitions[k]));
        if k == i {
            assert(tasks_for(post.partitions[k]) =~= tasks_for(pre.partitions[k]).skip(n));
        } else {
            assert(post.partitions[k] == pre.partitions[k]);
            assert(pre.partitions[k].name != name);
        }
    }
    assert forall|q: int| 0 <= q < post.flushes.queues.len() implies post.has_partition(
        (#[trigger] post.flushes.queues[q]).name,
    ) || post.flushes.queues[q].tasks.len() == 0 by {
        if post.flushes.queues[q].name != name {
            assert(post.flushes.queues[q] == pre.flushes.queues[q]);
        }
    }
}

/// Deleting a partition leaves every sealed memtable queued.
pub proof fn lemma_delete_partition_queued(pre: KeyspaceView, name: Seq<char>)
    requires
        pre.wf(),
        pre.queued(),
        pre.has_partition(name),
    ensures
        pre.delete_partition(name).queued(),
{
    let post = pre.delete_partition(name);
    let i = pre.index_of(name);
    lemma_found(pre);
    pre.flushes.lemma_remove_partition(name);
    assert(post.names() =~= pre.names().remove(i));
    assert forall|k: int| 0 <= k < post.partitions.len() implies post.flushes.tasks_of(
        (#[trigger] post.partitions[k]).name,
    ) == tasks_for(post.partitions[k]) by {
        let k0 = if k < i {
            k
        } else {
            k + 1
        };
        assert(post.partitions[k] == pre.partitions[k0]);
        assert(pre.flushes.tasks_of(pre.partitions[k0].name) == tasks_for(pre.partitions[k0]));
        assert(pre.names()[k0] == pre.partitions[k0].name);
    }
    assert forall|q: int| 0 <= q < post.flushes.queues.len() implies post.has_partition(
        (#[trigger] post.flushes.queues[q]).name,
    ) || post.flushes.queues[q].tasks.len() == 0 by {
        let x = post.flushes.queues[q];
        assert(pre.flushes.queues.contains(x));
        let k = choose|k: int| 0 <= k < pre.flushes.queues.len() && pre.flushes.queues[k] == x;
        assert(pre.has_partition(pre.flushes.queues[k].name) || pre.flushes.queues[k].tasks.len()
            == 0);
        if pre.has_partition(x.name) {
            let p = pre.index_of(x.name);
            let p1 = if p < i {
                p
            } else {
                p - 1
            };
            assert(post.names()[p1] == x.name);
        }
    }
}

/// The replay of a record leaves every sealed memtable queued.
pub proof fn lemma_replay_one_queued(pre: KeyspaceView, r: RecordView)
    requires
        pre.wf(),
        pre.queued(),
    ensures
        pre.replay_one(r).queued(),
{
    lemma_found(pre);
    lemma_same_queued(pre, pre.replay_one(r));
}

/// The replay of a journal leaves every sealed memtable queued.
pub proof fn lemma_replay_queued(pre: KeyspaceView, records: Seq<RecordView>)
    requires
        pre.wf(),
        pre.queued(),
        !records_exhaust(records),
    ensures
        pre.replay(records).wf(),
        pre.replay(records).queued(),
    decreases records.len(),
{
    if records.len() > 0 {
        let shorter = records.drop_last();
        assert(records[records.len() - 1] == records.last());
        assert forall|i: int| 0 <= i < shorter.len() implies (#[trigger] shorter[i]).seqno
            != u64::MAX by {
            assert(shorter[i] == records[i]);
        }
        lemma_replay_queued(pre, shorter);
        lemma_replay_one_keeps(pre.replay(shorter), records.last());
        lemma_replay_one_queued(pre.replay(shorter), records.last());
    }
}

/// Taking a segment back leaves every sealed memtable queued.
pub proof fn lemma_restore_segment_queued(
    pre: KeyspaceView,
    name: Seq<char>,
    id: Seq<char>,
    items: Seq<ValueView>,
)
    requires
        pre.wf(),
        pre.queued(),
        pre.has_partition(name),
    ensures
        pre.restore_segment(name, id, items).queued(),
{
    lemma_found(pre);
    lemma_same_queued(pre, pre.restore_segment(name, id, items));
}

/// Sealing what was replayed leaves every sealed memtable queued.
pub proof fn lemma_seal_first_queued(
    pre: KeyspaceView,
    n: nat,
    journal_id: Seq<char>,
    rotations: Seq<RotationView>,
)
    requires
        pre.wf(),
        pre.queued(),
        n <= pre.partitions.len(),
        pre.seal_first(n, journal_id, rotations) is Some,
    ensures
        pre.seal_first(n, journal_id, rotations)->0.queued(),
    decreases n,
{
    if n > 0 {
        let p = pre.partitions[n - 1];
        if p.tree.active == Map::<(Seq<u8>, SeqNo), Stored>::empty() {
            lemma_seal_first_queued(pre, (n - 1) as nat, journal_id, rotations);
        } else {
            lemma_seal_first_queued(pre, (n - 1) as nat, journal_id, rotations.drop_last());
            lemma_seal_first_keeps(pre, (n - 1) as nat, journal_id, rotations.drop_last());
            let mid = pre.seal_first((n - 1) as nat, journal_id, rotations.drop_last())->0;
            assert(mid.partitions[n - 1] == p);
            lemma_found(mid);
            lemma_seal_memtable_queued(mid, p.name, rotations.last().memtable_id);
        }
    }
}

/// Ending the replay of a sealed journal leaves every sealed memtable queued.
pub proof fn lemma_seal_replayed_queued(
    pre: KeyspaceView,
    journal_id: Seq<char>,
    rotations: Seq<RotationView>,
)
    requires
        pre.wf(),
        pre.queued(),
        pre.seal_replayed(journal_id, rotations) is Some,
    ensures
        pre.seal_replayed(journal_id, rotations)->0.queued(),
{
    lemma_seal_first_queued(pre, pre.partitions.len(), journal_id, rotations);
    let sealed = pre.seal_first(pre.partitions.len(), journal_id, rotations)->0;
    lemma_same_queued(sealed, pre.seal_replayed(journal_id, rotations)->0);
}

/// Writing the items of a batch leaves every sealed memtable queued.
pub proof fn lemma_apply_batch_queued(pre: KeyspaceView, items: Seq<ItemView>)
    requires
        pre.wf(),
        pre.queued(),
        pre.has_all(items),
        pre.seqno + items.len() <= u64::MAX,
    ensures
        pre.apply_batch(items).queued(),
    decreases items.len(),
{
    if items.len() > 0 {
        let shorter = items.drop_last();
        let item = items.last();
        assert(items[items.len() - 1] == item);
        assert forall|i: int| 0 <= i < shorter.len() implies pre.has_partition(
            (#[trigger] shorter[i]).partition,
        ) by {
            assert(shorter[i] == items[i]);
        }
        lemma_apply_batch_queued(pre, shorter);
        lemma_apply_batch_keeps(pre, shorter);
        let before = pre.apply_batch(shorter);
        assert(before.names().contains(item.partition));
        lemma_write_queued(before, item.partition, item.version(before.seqno));
    }
}

/// The checks for an overflow that follow a batch leave every sealed memtable queued.
pub proof fn lemma_checks_queued(
    pre: KeyspaceView,
    names: Seq<Seq<char>>,
    outcomes: Seq<WriteOutcome>,
)
    requires
        pre.wf(),
        pre.queued(),
        forall|i: int| 0 <= i < names.len() ==> pre.has_partition(#[trigger] names[i]),
        pre.checks_ok(names, outcomes),
    ensures
        pre.after_checks(names, outcomes).wf(),
        pre.after_checks(names, outcomes).queued(),
        pre.after_checks(names, outcomes).names() == pre.names(),
    decreases names.len(),
{
    if names.len() > 0 {
        let shorter = names.drop_last();
        assert forall|i: int| 0 <= i < shorter.len() implies pre.has_partition(
            #[trigger] shorter[i],
        ) by {
            assert(shorter[i] == names[i]);
        }
        lemma_checks_queued(pre, shorter, outcomes.drop_last());
        let before = pre.after_checks(shorter, outcomes.drop_last());
        let name = names.last();
        assert(names[names.len() - 1] == name);
        assert(before.names().contains(name));
        let after = before.after_check(name, outcomes.last());
        lemma_checked_queued(before, name, before.tree(name).active_size, outcomes.last(), after);
        lemma_checked_keeps(before, name, before.tree(name).active_size, outcomes.last(), after);
    }
}

/// A write, whatever its result, leaves every sealed memtable queued.
pub proof fn lemma_written_queued(
    pre: KeyspaceView,
    name: Seq<char>,
    v: ValueView,
    journaled: Result<(), std::io::Error>,
    r: Result<WriteOutcome, Error>,
    post: KeyspaceView,
)
    requires
        pre.wf(),
        pre.queued(),
        v.seqno == pre.seqno,
        pre.written(name, v, journaled, r, post),
    ensures
        post.queued(),
{
    match r {
        Ok(outcome) => {
            let w = pre.write(name, v);
            lemma_write_queued(pre, name, v);
            lemma_write_keeps(pre, name, v);
            lemma_checked_queued(w, name, w.tree(name).active_size, outcome, post);
        },
        Err(Error::Io(_)) => {
            lemma_same_queued(pre, pre.next_seqno());
        },
        Err(_) => {},
    }
}

/// A flush turns as many sealed memtables into segments as it is asked to, if
/// there are that many: for each sealed memtable there is a task.
pub proof fn lemma_flushable(ks: KeyspaceView, name: Seq<char>, count: int)
    requires
        ks.wf(),
        ks.queued(),
        ks.has_partition(name),
    ensures
        ks.flushable(name, count) == crate::flush::manager::min(
            count,
            ks.tree(name).sealed.len() as int,
        ),
{
    lemma_tasks_of(ks, name);
}

} // verus!
