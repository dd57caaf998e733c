//! Reopening leaves journals that suffice.
//!
//! When a keyspace is reopened, its journals are replayed into new
//! memtables, and stay on disk until these are flushed. This module proves
//! that if the journals sufficed for the keyspace that went down, they
//! suffice for the keyspace that comes up, so that it may go down again at
//! any moment.

use crate::durability::nonempty;
use crate::durability::{
    agree, covered, in_memory, lemma_highest_exists, lemma_active_seqnos_has, lemma_lookup,
    lemma_seal_ordered, lemma_with_tree, memtables, on_disk, ordered, run_before, safe, sound,
    writes, writes_any, Disk,
};
use crate::history::below;
use crate::journal::manager::SeqNoView;
use crate::journal::record::RecordView;
use crate::keyspace::KeyspaceView;
use crate::partition::{active_seqnos, is_valid_name, RotationView};
use crate::durability::{
    is_replay_step, kept_logs, lemma_kept_from, lemma_kept_len, replay_end, replay_start, replays,
    sealed_times,
};
use crate::journal::manager::JournalView;
use crate::recovery::{lemma_replay_one_keeps, lemma_seal_first_keeps};
use crate::tree_inner::TreeView;
use crate::value::{SeqNo, Stored, ValueView};
use vstd::prelude::*;

verus! {

/// The records of each journal have lower sequence numbers than those of
/// the journals after it.
pub open spec fn journals_in_order(journals: Seq<Seq<RecordView>>) -> bool {
    forall|j1: int, j2: int, i1: int, i2: int|
        0 <= j1 < j2 < journals.len() && 0 <= i1 < journals[j1].len() && 0 <= i2
            < journals[j2].len() ==> (#[trigger] journals[j1][i1]).seqno < (
        #[trigger] journals[j2][i2]).seqno
}

/// The journals on disk are in the order of their sequence numbers: the
/// records of each sealed journal have lower ones than those of the journals
/// after it, and than those of the active journal.
pub open spec fn journal_order(disk: Disk) -> bool {
    &&& journals_in_order(disk.sealed)
    &&& forall|j: int, i: int, k: int|
        0 <= j < disk.sealed.len() && 0 <= i < disk.sealed[j].len() && 0 <= k < disk.active.len()
            ==> (#[trigger] disk.sealed[j][i]).seqno < (#[trigger] disk.active[k]).seqno
}

/// Appending a record with a sequence number above those of the sealed
/// journals keeps the journals in order.
pub proof fn lemma_append_order(disk: Disk, r: RecordView)
    requires
        journal_order(disk),
        forall|j: int, i: int|
            0 <= j < disk.sealed.len() && 0 <= i < disk.sealed[j].len() ==> (
            #[trigger] disk.sealed[j][i]).seqno < r.seqno,
    ensures
        journal_order(disk.append(r)),
{
    let after = disk.append(r);
    assert forall|j: int, i: int, k: int|
        0 <= j < after.sealed.len() && 0 <= i < after.sealed[j].len() && 0 <= k
            < after.active.len() implies (#[trigger] after.sealed[j][i]).seqno < (
    #[trigger] after.active[k]).seqno by {
        if k < disk.active.len() {
            assert(after.active[k] == disk.active[k]);
        }
    }
}

/// Sealing the active journal keeps the journals in order.
pub proof fn lemma_seal_order(disk: Disk)
    requires
        journal_order(disk),
    ensures
        journal_order(disk.seal()),
{
    let after = disk.seal();
    let last = disk.sealed.len() as int;
    assert forall|j1: int, j2: int, i1: int, i2: int|
        0 <= j1 < j2 < after.sealed.len() && 0 <= i1 < after.sealed[j1].len() && 0 <= i2
            < after.sealed[j2].len() implies (#[trigger] after.sealed[j1][i1]).seqno < (
    #[trigger] after.sealed[j2][i2]).seqno by {
        assert(after.sealed[j1] == disk.sealed[j1]);
        if j2 < last {
            assert(after.sealed[j2] == disk.sealed[j2]);
        } else {
            assert(after.sealed[j2][i2] == disk.active[i2]);
        }
    }
}

/// A write, whose record is appended to the active journal, keeps the
/// journals in order.
pub proof fn lemma_write_order(pre: KeyspaceView, disk: Disk, r: RecordView)
    requires
        safe(pre, disk),
        journal_order(disk),
        r.seqno == pre.seqno,
    ensures
        journal_order(disk.append(r)),
{
    assert forall|j: int, i: int|
        0 <= j < disk.sealed.len() && 0 <= i < disk.sealed[j].len() implies (
    #[trigger] disk.sealed[j][i]).seqno < r.seqno by {
        let x = disk.sealed[j][i];
        assert(disk.sealed[j].contains(x));
        assert(disk.has(x));
        assert(sound(pre, x));
    }
    lemma_append_order(disk, r);
    let after = disk.append(r);
    assert forall|j: int, i: int, k: int|
        0 <= j < after.sealed.len() && 0 <= i < after.sealed[j].len() && 0 <= k
            < after.active.len() implies (#[trigger] after.sealed[j][i]).seqno < (
    #[trigger] after.active[k]).seqno by {
        if k < disk.active.len() {
            assert(after.active[k] == disk.active[k]);
        }
    }
}

/// The versions that a memtable of the keyspace holds were written by
/// records of the journals: those of a sealed memtable by records of sealed
/// journals, those of an active memtable by records of the active journal.
pub open spec fn replayed_from(ks: KeyspaceView, disk: Disk) -> bool {
    &&& forall|p: int, a: int, x: (Seq<u8>, SeqNo)|
        0 <= p < ks.partitions.len() && 0 <= a < ks.partitions[p].tree.sealed.len()
            && #[trigger] ks.partitions[p].tree.sealed[a].versions.contains_key(x) ==> writes_any(
            disk.sealed,
            ks.partitions[p].name,
            x,
        )
    &&& forall|p: int, x: (Seq<u8>, SeqNo)|
        0 <= p < ks.partitions.len() && #[trigger] ks.partitions[p].tree.active.contains_key(x)
            ==> writes(disk.active, ks.partitions[p].name, x)
}

/// Replaying a version into a tree leaves its layers in order, if the
/// version is newer than what the sealed memtables hold, and either newer
/// than what the segments hold or the same as what they hold under it.
pub proof fn lemma_replay_ordered(tree: TreeView, v: ValueView)
    requires
        ordered(tree),
        forall|a: int, x: (Seq<u8>, SeqNo)|
            0 <= a < tree.sealed.len() && #[trigger] tree.sealed[a].versions.contains_key(x)
                ==> x.1 < v.seqno,
        !on_disk(tree).contains_key(v.id()) ==> forall|y: (Seq<u8>, SeqNo)| #[trigger]
            on_disk(tree).contains_key(y) ==> y.1 < v.seqno,
        on_disk(tree).contains_key(v.id()) ==> on_disk(tree)[v.id()] == v.stored(),
    ensures
        ordered(tree.write(v)),
        memtables(tree.write(v)) == memtables(tree).insert(v.id(), v.stored()),
        on_disk(tree.write(v)) == on_disk(tree),
{
    let after = tree.write(v);
    assert(memtables(after) =~= memtables(tree).insert(v.id(), v.stored()));
    assert forall|a: int| 0 <= a < after.sealed.len() implies run_before(
        (#[trigger] after.sealed[a]).versions,
        after.active,
    ) by {
        assert forall|x: (Seq<u8>, SeqNo), y: (Seq<u8>, SeqNo)| #[trigger]
            after.sealed[a].versions.contains_key(x) && #[trigger] after.active.contains_key(
                y,
            ) implies x.1 < y.1 by {
            if y != v.id() {
                assert(tree.active.contains_key(y));
                assert(run_before(tree.sealed[a].versions, tree.active));
            }
        }
    }
    assert forall|id: (Seq<u8>, SeqNo), y: (Seq<u8>, SeqNo)|
        #[trigger] memtables(after).contains_key(id) && !on_disk(after).contains_key(id)
            && #[trigger] on_disk(after).contains_key(y) implies y.1 < id.1 by {
        if id != v.id() {
            assert(memtables(tree).contains_key(id));
        }
    }
    assert forall|id: (Seq<u8>, SeqNo)|
        #[trigger] memtables(after).contains_key(id) && on_disk(after).contains_key(
            id,
        ) implies memtables(after)[id] == on_disk(after)[id] by {
        if id != v.id() {
            assert(memtables(tree).contains_key(id));
        }
    }
}

/// The replay of one record of a journal, which joins the journals that
/// were replayed, leaves journals that suffice.
///
/// The record has to agree with the records of the same version that were
/// replayed before it, to be newer than the records of the sealed journals,
/// and to be either newer than what the segments of its partition hold or
/// the same as what they hold under its version.
pub proof fn lemma_replay_one_safe(pre: KeyspaceView, disk: Disk, r: RecordView)
    requires
        safe(pre, disk),
        replayed_from(pre, disk),
        r.seqno < u64::MAX,
        pre.has_partition(r.partition) ==> forall|x: RecordView| #[trigger]
            disk.has(x) && x.partition == r.partition && x.version().id() == r.version().id()
                ==> x.version().stored() == r.version().stored(),
        forall|j: int, i: int|
            0 <= j < disk.sealed.len() && 0 <= i < disk.sealed[j].len() ==> (
            #[trigger] disk.sealed[j][i]).seqno < r.seqno,
        pre.has_partition(r.partition) && !on_disk(pre.tree(r.partition)).contains_key(
            r.version().id(),
        ) ==> forall|y: (Seq<u8>, SeqNo)| #[trigger]
            on_disk(pre.tree(r.partition)).contains_key(y) ==> y.1 < r.seqno,
        pre.has_partition(r.partition) && on_disk(pre.tree(r.partition)).contains_key(
            r.version().id(),
        ) ==> on_disk(pre.tree(r.partition))[r.version().id()] == r.version().stored(),
    ensures
        safe(pre.replay_one(r), disk.append(r)),
        replayed_from(pre.replay_one(r), disk.append(r)),
        pre.replay_one(r).names() == pre.names(),
        forall|p: int|
            0 <= p < pre.partitions.len() ==> (#[trigger] pre.replay_one(r).partitions[p]).tree.segments
                == pre.partitions[p].tree.segments,
        pre.replay_one(r).journals.sealed == pre.journals.sealed,
{
    let post = pre.replay_one(r);
    let after = disk.append(r);
    let v = r.version();
    lemma_replay_one_keeps(pre, r);
    lemma_lookup(pre);
    lemma_lookup(post);
    if pre.has_partition(r.partition) {
        let name = r.partition;
        let i = pre.index_of(name);
        let tree = pre.tree(name);
        lemma_with_tree(pre, name, tree.write(v));
        tree.lemma_write_history(v);
        let seen = KeyspaceView {
            seqno: crate::recovery::after_seqno(pre.seqno, r.seqno),
            journals: pre.journals.written(r.len()),
            ..pre
        };
        assert(seen.names() == pre.names());
        assert(post.partitions == pre.with_tree(name, tree.write(v)).partitions);
        assert(post.tree(name) == tree.write(v));
        assert forall|other: Seq<char>| other != name && pre.has_partition(other) implies #[trigger]
            post.tree(other) == pre.tree(other) by {
            assert(pre.with_tree(name, tree.write(v)).tree(other) == pre.tree(other));
        }
        assert(ordered(pre.partitions[i].tree));
        assert forall|a: int, x: (Seq<u8>, SeqNo)|
            0 <= a < tree.sealed.len() && #[trigger] tree.sealed[a].versions.contains_key(
                x,
            ) implies x.1 < v.seqno by {
            assert(pre.partitions[i].tree.sealed[a].versions.contains_key(x));
            assert(writes_any(disk.sealed, name, x));
            let j = choose|j: int| 0 <= j < disk.sealed.len() && writes(#[trigger] disk.sealed[j], name, x);
            let k = choose|k: int|
                0 <= k < disk.sealed[j].len() && (#[trigger] disk.sealed[j][k]).partition == name
                    && disk.sealed[j][k].version().id() == x;
            assert(disk.sealed[j][k].seqno < r.seqno);
        }
        lemma_replay_ordered(tree, v);
        assert forall|x: RecordView| #[trigger] after.has(x) implies sound(post, x) by {
            if x != r {
                if after.active.contains(x) {
                    let k = choose|k: int| 0 <= k < after.active.len() && after.active[k] == x;
                    assert(disk.active[k] == x);
                    assert(disk.active.contains(x));
                }
                assert(disk.has(x));
                assert(sound(pre, x));
            }
        }
        assert forall|k: int|
            0 <= k < after.active.len() && post.has_partition(
                (#[trigger] after.active[k]).partition,
            ) implies post.tree(after.active[k].partition).active.contains_key(
            after.active[k].version().id(),
        ) by {
            if k < disk.active.len() {
                let x = disk.active[k];
                assert(after.active[k] == x);
            }
        }
        assert forall|j: int, k: int|
            0 <= j < after.sealed.len() && 0 <= k < after.sealed[j].len() && in_memory(
                post,
                #[trigger] after.sealed[j][k],
            ) implies covered(post.journals.sealed[j].seqnos, after.sealed[j][k]) by {
            let x = disk.sealed[j][k];
            assert(x.seqno < r.seqno);
            assert(in_memory(pre, x));
        }
        assert forall|p: int, id: (Seq<u8>, SeqNo)|
            0 <= p < post.partitions.len() && #[trigger] memtables(
                post.partitions[p].tree,
            ).contains_key(id) && !on_disk(post.partitions[p].tree).contains_key(
                id,
            ) implies after.holds(post.partitions[p].name, id) by {
            if p == i && id == v.id() {
                assert(after.active[after.active.len() - 1] == r);
                assert(writes(after.active, name, id));
            } else {
                if p != i {
                    assert(post.partitions[p] == pre.partitions[p]);
                }
                assert(memtables(pre.partitions[p].tree).contains_key(id));
                let n = pre.partitions[p].name;
                assert(disk.holds(n, id));
                if writes(disk.active, n, id) {
                    let k = choose|k: int|
                        0 <= k < disk.active.len() && (#[trigger] disk.active[k]).partition == n
                            && disk.active[k].version().id() == id;
                    assert(after.active[k] == disk.active[k]);
                }
            }
        }
        assert forall|p: int| 0 <= p < post.partitions.len() implies ordered(
            (#[trigger] post.partitions[p]).tree,
        ) by {
            if p != i {
                assert(post.partitions[p] == pre.partitions[p]);
            }
        }
        assert forall|p: int, x: (Seq<u8>, SeqNo)|
            0 <= p < post.partitions.len() && #[trigger] post.partitions[p].tree.active.contains_key(
                x,
            ) implies writes(after.active, post.partitions[p].name, x) by {
            if p == i && x == v.id() {
                assert(after.active[after.active.len() - 1] == r);
            } else {
                if p != i {
                    assert(post.partitions[p] == pre.partitions[p]);
                }
                let n = pre.partitions[p].name;
                assert(pre.partitions[p].tree.active.contains_key(x));
                assert(writes(disk.active, n, x));
                let k = choose|k: int|
                    0 <= k < disk.active.len() && (#[trigger] disk.active[k]).partition == n
                        && disk.active[k].version().id() == x;
                assert(after.active[k] == disk.active[k]);
            }
        }
        assert forall|p: int, a: int, x: (Seq<u8>, SeqNo)|
            0 <= p < post.partitions.len() && 0 <= a < post.partitions[p].tree.sealed.len()
                && #[trigger] post.partitions[p].tree.sealed[a].versions.contains_key(
                x,
            ) implies writes_any(after.sealed, post.partitions[p].name, x) by {
            if p != i {
                assert(post.partitions[p] == pre.partitions[p]);
            }
            assert(pre.partitions[p].tree.sealed[a].versions.contains_key(x));
        }
    } else {
        assert(post.partitions == pre.partitions);
        assert forall|x: RecordView| #[trigger] after.has(x) implies sound(post, x) by {
            if x != r {
                if after.active.contains(x) {
                    let k = choose|k: int| 0 <= k < after.active.len() && after.active[k] == x;
                    assert(disk.active[k] == x);
                    assert(disk.active.contains(x));
                }
                assert(disk.has(x));
                assert(sound(pre, x));
            }
        }
        assert forall|k: int|
            0 <= k < after.active.len() && post.has_partition(
                (#[trigger] after.active[k]).partition,
            ) implies post.tree(after.active[k].partition).active.contains_key(
            after.active[k].version().id(),
        ) by {
            if k < disk.active.len() {
                assert(after.active[k] == disk.active[k]);
            }
        }
        assert forall|j: int, k: int|
            0 <= j < after.sealed.len() && 0 <= k < after.sealed[j].len() && in_memory(
                post,
                #[trigger] after.sealed[j][k],
            ) implies covered(post.journals.sealed[j].seqnos, after.sealed[j][k]) by {
            assert(in_memory(pre, disk.sealed[j][k]));
        }
        assert forall|p: int, id: (Seq<u8>, SeqNo)|
            0 <= p < post.partitions.len() && #[trigger] memtables(
                post.partitions[p].tree,
            ).contains_key(id) && !on_disk(post.partitions[p].tree).contains_key(
                id,
            ) implies after.holds(post.partitions[p].name, id) by {
            let n = pre.partitions[p].name;
            assert(disk.holds(n, id));
            if writes(disk.active, n, id) {
                let k = choose|k: int|
                    0 <= k < disk.active.len() && (#[trigger] disk.active[k]).partition == n
                        && disk.active[k].version().id() == id;
                assert(after.active[k] == disk.active[k]);
            }
        }
        assert forall|p: int, x: (Seq<u8>, SeqNo)|
            0 <= p < post.partitions.len() && #[trigger] post.partitions[p].tree.active.contains_key(
                x,
            ) implies writes(after.active, post.partitions[p].name, x) by {
            let n = pre.partitions[p].name;
            assert(writes(disk.active, n, x));
            let k = choose|k: int|
                0 <= k < disk.active.len() && (#[trigger] disk.active[k]).partition == n
                    && disk.active[k].version().id() == x;
            assert(after.active[k] == disk.active[k]);
        }
    }
}

/// Whether `after` is `before` with its active memtable sealed, if that
/// memtable held something, and else `before` itself.
pub open spec fn sealed_as(before: TreeView, after: TreeView) -> bool {
    if before.active == Map::<(Seq<u8>, SeqNo), Stored>::empty() {
        after == before
    } else {
        exists|id: Seq<char>| after == #[trigger] before.seal(id)
    }
}

/// Sealing the first partitions seals the active memtable of each of them
/// that holds something, and leaves the other trees as they were.
pub proof fn lemma_seal_first_trees(
    pre: KeyspaceView,
    n: nat,
    journal_id: Seq<char>,
    rotations: Seq<RotationView>,
)
    requires
        pre.wf(),
        n <= pre.partitions.len(),
        pre.seal_first(n, journal_id, rotations) is Some,
    ensures
        ({
            let post = pre.seal_first(n, journal_id, rotations)->0;
            &&& post.partitions.len() == pre.partitions.len()
            &&& forall|k: int|
                0 <= k < n ==> (#[trigger] post.partitions[k]).name == pre.partitions[k].name
                    && sealed_as(pre.partitions[k].tree, post.partitions[k].tree)
            &&& forall|k: int|
                n <= k < pre.partitions.len() ==> (#[trigger] post.partitions[k])
                    == pre.partitions[k]
        }),
    decreases n,
{
    lemma_seal_first_keeps(pre, n, journal_id, rotations);
    if n > 0 {
        let p = pre.partitions[n - 1];
        if p.tree.active == Map::<(Seq<u8>, SeqNo), Stored>::empty() {
            lemma_seal_first_trees(pre, (n - 1) as nat, journal_id, rotations);
        } else {
            let shorter = rotations.drop_last();
            lemma_seal_first_trees(pre, (n - 1) as nat, journal_id, shorter);
            lemma_seal_first_keeps(pre, (n - 1) as nat, journal_id, shorter);
            let mid = pre.seal_first((n - 1) as nat, journal_id, shorter)->0;
            let id = rotations.last().memtable_id;
            let post = mid.seal_memtable(p.name, id);
            assert(mid.partitions[n - 1] == p);
            lemma_lookup(mid);
            lemma_with_tree(mid, p.name, mid.tree(p.name).seal(id));
            assert(mid.index_of(p.name) == n - 1);
            assert(post.partitions == mid.with_tree(p.name, mid.tree(p.name).seal(id)).partitions);
            assert(post.partitions[n - 1].tree == p.tree.seal(id));
            assert forall|k: int| 0 <= k < n implies (#[trigger] post.partitions[k]).name
                == pre.partitions[k].name && sealed_as(
                pre.partitions[k].tree,
                post.partitions[k].tree,
            ) by {
                if k < n - 1 {
                    assert(post.partitions[k] == mid.partitions[k]);
                }
            }
            assert forall|k: int| n <= k < pre.partitions.len() implies (
            #[trigger] post.partitions[k]) == pre.partitions[k] by {
                assert(post.partitions[k] == mid.partitions[k]);
            }
        }
    }
}

/// Sealing what was replayed from a journal, while the journal joins the
/// sealed journals, leaves journals that suffice.
pub proof fn lemma_seal_replayed_safe(
    pre: KeyspaceView,
    disk: Disk,
    journal_id: Seq<char>,
    rotations: Seq<RotationView>,
)
    requires
        safe(pre, disk),
        replayed_from(pre, disk),
        pre.seal_replayed(journal_id, rotations) is Some,
    ensures
        safe(pre.seal_replayed(journal_id, rotations)->0, disk.seal()),
        replayed_from(pre.seal_replayed(journal_id, rotations)->0, disk.seal()),
        pre.seal_replayed(journal_id, rotations)->0.names() == pre.names(),
        forall|p: int|
            0 <= p < pre.partitions.len() ==> (#[trigger] pre.seal_replayed(
                journal_id,
                rotations,
            )->0.partitions[p]).tree.segments == pre.partitions[p].tree.segments,
{
    let n = pre.partitions.len();
    let post = pre.seal_replayed(journal_id, rotations)->0;
    let sealed = pre.seal_first(n, journal_id, rotations)->0;
    let after = disk.seal();
    let last = disk.sealed.len() as int;
    lemma_seal_first_keeps(pre, n, journal_id, rotations);
    lemma_seal_first_trees(pre, n, journal_id, rotations);
    lemma_lookup(pre);
    assert(post.partitions == sealed.partitions);
    assert(post.names() == pre.names());
    assert forall|k: int| 0 <= k < post.partitions.len() implies {
        &&& is_valid_name((#[trigger] post.partitions[k]).name)
        &&& below(post.partitions[k].tree.history(), post.seqno as int)
    } by {
        assert(below(sealed.partitions[k].tree.history(), sealed.seqno as int));
    }
    lemma_lookup(post);
    // Each tree holds in its memtables and in its segments what it held.
    assert forall|p: int| 0 <= p < n implies {
        &&& memtables((#[trigger] post.partitions[p]).tree) == memtables(pre.partitions[p].tree)
        &&& on_disk(post.partitions[p].tree) == on_disk(pre.partitions[p].tree)
        &&& post.partitions[p].tree.segments == pre.partitions[p].tree.segments
        &&& ordered(post.partitions[p].tree)
        &&& post.partitions[p].tree.active == Map::<(Seq<u8>, SeqNo), Stored>::empty()
        &&& post.partitions[p].name == pre.partitions[p].name
    } by {
        let before = pre.partitions[p].tree;
        let tree = post.partitions[p].tree;
        assert(ordered(before));
        assert(sealed_as(before, tree));
        if before.active != Map::<(Seq<u8>, SeqNo), Stored>::empty() {
            let id = choose|id: Seq<char>| tree == #[trigger] before.seal(id);
            lemma_seal_ordered(before, id);
        }
    }
    assert forall|name: Seq<char>| #[trigger] pre.has_partition(name) implies post.has_partition(
        name,
    ) && memtables(post.tree(name)) == memtables(pre.tree(name)) && on_disk(post.tree(name))
        == on_disk(pre.tree(name)) && post.history(name) == pre.history(name) by {
        let p = pre.index_of(name);
        assert(post.names()[p] == name);
        assert(memtables(post.partitions[p].tree) == memtables(pre.partitions[p].tree));
    }
    assert(after.sealed[last] == disk.active);
    assert forall|x: RecordView| #[trigger] after.has(x) implies sound(post, x) by {
        if exists|j: int| 0 <= j < after.sealed.len() && (#[trigger] after.sealed[j]).contains(x) {
            let j = choose|j: int|
                0 <= j < after.sealed.len() && (#[trigger] after.sealed[j]).contains(x);
            if j < last {
                assert(disk.sealed[j] == after.sealed[j]);
            } else {
                assert(disk.active.contains(x));
            }
        }
        assert(disk.has(x));
        assert(sound(pre, x));
    }
    let seqnos = active_seqnos(pre.partitions);
    assert(post.journals.sealed[last].seqnos == seqnos);
    assert forall|j: int, k: int|
        0 <= j < after.sealed.len() && 0 <= k < after.sealed[j].len() && in_memory(
            post,
            #[trigger] after.sealed[j][k],
        ) implies covered(post.journals.sealed[j].seqnos, after.sealed[j][k]) by {
        let x = after.sealed[j][k];
        assert(in_memory(pre, x));
        if j < last {
            assert(disk.sealed[j] == after.sealed[j]);
            assert(post.journals.sealed[j] == pre.journals.sealed[j]);
        } else {
            assert(disk.active[k] == x);
            let id = x.version().id();
            let q = pre.index_of(x.partition);
            assert(pre.tree(x.partition).active.contains_key(id));
            let e = lemma_active_seqnos_has(pre.partitions, q);
            lemma_highest_exists(pre.partitions[q].tree.active, id);
        }
    }
    assert forall|p: int, id: (Seq<u8>, SeqNo)|
        0 <= p < post.partitions.len() && #[trigger] memtables(post.partitions[p].tree).contains_key(
            id,
        ) && !on_disk(post.partitions[p].tree).contains_key(id) implies after.holds(
        post.partitions[p].name,
        id,
    ) by {
        assert(memtables(pre.partitions[p].tree).contains_key(id));
        let owner = pre.partitions[p].name;
        assert(disk.holds(owner, id));
        if writes(disk.active, owner, id) {
            assert(writes(after.sealed[last], owner, id));
        } else {
            let j = choose|j: int|
                0 <= j < disk.sealed.len() && writes(#[trigger] disk.sealed[j], owner, id);
            assert(after.sealed[j] == disk.sealed[j]);
        }
    }
    assert forall|p: int, a: int, x: (Seq<u8>, SeqNo)|
        0 <= p < post.partitions.len() && 0 <= a < post.partitions[p].tree.sealed.len()
            && #[trigger] post.partitions[p].tree.sealed[a].versions.contains_key(
            x,
        ) implies writes_any(after.sealed, post.partitions[p].name, x) by {
        let before = pre.partitions[p].tree;
        let tree = post.partitions[p].tree;
        let owner = pre.partitions[p].name;
        assert(sealed_as(before, tree));
        if a < before.sealed.len() {
            if before.active != Map::<(Seq<u8>, SeqNo), Stored>::empty() {
                let id = choose|id: Seq<char>| tree == #[trigger] before.seal(id);
                assert(tree.sealed[a] == before.sealed[a]);
            }
            assert(before.sealed[a].versions.contains_key(x));
            assert(writes_any(disk.sealed, owner, x));
            let j = choose|j: int|
                0 <= j < disk.sealed.len() && writes(#[trigger] disk.sealed[j], owner, x);
            assert(after.sealed[j] == disk.sealed[j]);
        } else {
            let id = choose|id: Seq<char>| tree == #[trigger] before.seal(id);
            assert(tree.sealed[a].versions == before.active);
            assert(pre.partitions[p].tree.active.contains_key(x));
            assert(writes(disk.active, owner, x));
            assert(writes(after.sealed[last], owner, x));
        }
    }
}

/// The keyspace has the partitions of `crashed`, and the segments of each
/// hold what they hold there; no segment is empty.
pub open spec fn same_segments(ks: KeyspaceView, crashed: KeyspaceView) -> bool {
    &&& ks.names() == crashed.names()
    &&& ks.partitions.len() == crashed.partitions.len()
    &&& forall|p: int|
        0 <= p < ks.partitions.len() ==> on_disk((#[trigger] ks.partitions[p]).tree) == on_disk(
            crashed.partitions[p].tree,
        ) && nonempty(ks.partitions[p].tree.segments)
}

/// The keyspace holds nothing in memory and knows of no sealed journal.
pub open spec fn blank(ks: KeyspaceView) -> bool {
    &&& ks.journals.sealed.len() == 0
    &&& forall|p: int|
        0 <= p < ks.partitions.len() ==> (#[trigger] ks.partitions[p]).tree.sealed.len() == 0
            && ks.partitions[p].tree.active == Map::<(Seq<u8>, SeqNo), Stored>::empty()
}

/// A keyspace that holds nothing in memory, and in its segments what the
/// keyspace that went down held in its segments, needs no journal.
pub proof fn lemma_start_safe(start: KeyspaceView, crashed: KeyspaceView, whole: Disk)
    requires
        safe(crashed, whole),
        start.wf(),
        blank(start),
        same_segments(start, crashed),
    ensures
        safe(start, Disk::empty()),
        replayed_from(start, Disk::empty()),
{
    let disk = Disk::empty();
    assert forall|r: RecordView| #[trigger] disk.has(r) implies sound(start, r) by {
        assert(!disk.active.contains(r));
    }
    assert forall|p: int| 0 <= p < start.partitions.len() implies ordered(
        (#[trigger] start.partitions[p]).tree,
    ) && memtables(start.partitions[p].tree) == Map::<(Seq<u8>, SeqNo), Stored>::empty() by {
        let tree = start.partitions[p].tree;
        assert(tree.sealed =~= Seq::empty());
        assert(memtables(tree) =~= Map::empty());
    }
}

/// The replay of the first `k` records of a journal, after the replay of
/// the sealed journals before it, leaves journals that suffice: the sealed
/// journals and what was replayed of this one.
pub proof fn lemma_replay_safe(
    start: KeyspaceView,
    sealed: Seq<Seq<RecordView>>,
    journal: Seq<RecordView>,
    k: int,
    crashed: KeyspaceView,
    whole: Disk,
)
    requires
        safe(crashed, whole),
        forall|i: int| 0 <= i < journal.len() ==> whole.has(#[trigger] journal[i]),
        forall|j: int, i: int|
            0 <= j < sealed.len() && 0 <= i < sealed[j].len() ==> whole.has(
                #[trigger] sealed[j][i],
            ),
        forall|j: int, i: int, i2: int|
            0 <= j < sealed.len() && 0 <= i < sealed[j].len() && 0 <= i2 < journal.len() ==> (
            #[trigger] sealed[j][i]).seqno < (#[trigger] journal[i2]).seqno,
        safe(start, Disk { sealed, active: Seq::empty() }),
        replayed_from(start, Disk { sealed, active: Seq::empty() }),
        same_segments(start, crashed),
        0 <= k <= journal.len(),
    ensures
        safe(start.replay(journal.take(k)), Disk { sealed, active: journal.take(k) }),
        replayed_from(start.replay(journal.take(k)), Disk { sealed, active: journal.take(k) }),
        same_segments(start.replay(journal.take(k)), crashed),
        start.replay(journal.take(k)).journals.sealed == start.journals.sealed,
    decreases k,
{
    if k == 0 {
        assert(journal.take(0) =~= Seq::empty());
    } else {
        lemma_replay_safe(start, sealed, journal, k - 1, crashed, whole);
        let shorter = journal.take(k - 1);
        let pre = start.replay(shorter);
        let disk = Disk { sealed, active: shorter };
        let r = journal[k - 1];
        assert(journal.take(k).drop_last() =~= shorter);
        assert(journal.take(k).last() == r);
        assert(disk.append(r).active =~= journal.take(k));
        assert(whole.has(r));
        assert(sound(crashed, r));
        lemma_lookup(pre);
        lemma_lookup(crashed);
        let name = r.partition;
        let id = r.version().id();
        if pre.has_partition(name) {
            let p = pre.index_of(name);
            assert(crashed.names()[p] == name);
            assert(crashed.index_of(name) == p);
            let tree = crashed.partitions[p].tree;
            assert(on_disk(pre.partitions[p].tree) == on_disk(tree));
            assert(ordered(tree));
            assert(crashed.history(name) =~= on_disk(tree).union_prefer_right(memtables(tree)));
            assert forall|x: RecordView| #[trigger]
                disk.has(x) && x.partition == name && x.version().id() == id implies x.version().stored()
                == r.version().stored() by {
                if disk.active.contains(x) {
                    let i = choose|i: int| 0 <= i < disk.active.len() && disk.active[i] == x;
                    assert(journal[i] == x);
                } else {
                    let j = choose|j: int|
                        0 <= j < disk.sealed.len() && (#[trigger] disk.sealed[j]).contains(x);
                    let i = choose|i: int| 0 <= i < sealed[j].len() && sealed[j][i] == x;
                    assert(whole.has(sealed[j][i]));
                }
                assert(whole.has(x));
                assert(sound(crashed, x));
            }
        }
        lemma_replay_one_safe(pre, disk, r);
        assert(Disk { sealed, active: journal.take(k) } == disk.append(r));
        let post = pre.replay_one(r);
        assert forall|p: int| 0 <= p < post.partitions.len() implies on_disk(
            (#[trigger] post.partitions[p]).tree,
        ) == on_disk(crashed.partitions[p].tree) && nonempty(post.partitions[p].tree.segments) by {
            assert(post.partitions[p].tree.segments == pre.partitions[p].tree.segments);
            assert(on_disk(pre.partitions[p].tree) == on_disk(crashed.partitions[p].tree));
        }
    }
}

/// The replay of the first `j` sealed journals leaves journals that
/// suffice: those that were replayed.
pub proof fn lemma_replays_safe(
    start: KeyspaceView,
    ends: Seq<KeyspaceView>,
    j: int,
    crashed: KeyspaceView,
    whole: Disk,
)
    requires
        safe(crashed, whole),
        journal_order(whole),
        start.wf(),
        blank(start),
        same_segments(start, crashed),
        replays(start, whole.sealed, ends),
        0 <= j <= whole.sealed.len(),
    ensures
        safe(
            replay_start(start, ends, j),
            Disk { sealed: whole.sealed.take(j), active: Seq::empty() },
        ),
        replayed_from(
            replay_start(start, ends, j),
            Disk { sealed: whole.sealed.take(j), active: Seq::empty() },
        ),
        same_segments(replay_start(start, ends, j), crashed),
    decreases j,
{
    if j == 0 {
        lemma_start_safe(start, crashed, whole);
        assert(whole.sealed.take(0) =~= Seq::empty());
        assert(Disk { sealed: whole.sealed.take(0), active: Seq::<RecordView>::empty() }
            == Disk::empty());
    } else {
        lemma_replays_safe(start, ends, j - 1, crashed, whole);
        let before = replay_start(start, ends, j - 1);
        let journal = whole.sealed[j - 1];
        let sealed = whole.sealed.take(j - 1);
        assert(is_replay_step(before, journal, ends[j - 1]));
        let (id, rotations) = choose|id: Seq<char>, rotations: Seq<RotationView>|
            #[trigger] before.replay(journal).seal_replayed(id, rotations) == Some(ends[j - 1]);
        assert forall|i: int| 0 <= i < journal.len() implies whole.has(#[trigger] journal[i]) by {
            assert(whole.sealed[j - 1].contains(journal[i]));
        }
        assert forall|a: int, i: int|
            0 <= a < sealed.len() && 0 <= i < sealed[a].len() implies whole.has(
            #[trigger] sealed[a][i],
        ) by {
            assert(whole.sealed[a].contains(sealed[a][i]));
        }
        assert forall|a: int, i: int, i2: int|
            0 <= a < sealed.len() && 0 <= i < sealed[a].len() && 0 <= i2 < journal.len() implies (
        #[trigger] sealed[a][i]).seqno < (#[trigger] journal[i2]).seqno by {
            assert(whole.sealed[a][i].seqno < whole.sealed[j - 1][i2].seqno);
        }
        lemma_replay_safe(before, sealed, journal, journal.len() as int, crashed, whole);
        assert(journal.take(journal.len() as int) =~= journal);
        let replayed = before.replay(journal);
        let disk = Disk { sealed, active: journal };
        lemma_seal_replayed_safe(replayed, disk, id, rotations);
        assert(disk.seal().sealed =~= whole.sealed.take(j));
        assert(disk.seal() == Disk { sealed: whole.sealed.take(j), active: Seq::empty() });
        let end = ends[j - 1];
        assert forall|p: int| 0 <= p < end.partitions.len() implies on_disk(
            (#[trigger] end.partitions[p]).tree,
        ) == on_disk(crashed.partitions[p].tree) && nonempty(end.partitions[p].tree.segments) by {
            assert(end.partitions[p].tree.segments == replayed.partitions[p].tree.segments);
            assert(on_disk(replayed.partitions[p].tree) == on_disk(crashed.partitions[p].tree));
        }
    }
}

/// Reopening leaves journals that suffice.
///
/// Let the journals on disk suffice for the keyspace `crashed`, and let
/// them be in the order of their sequence numbers. Let `start` be a keyspace
/// with the partitions of `crashed`, each with the segments that it has
/// there, and with nothing in memory; let `ends` be the keyspaces that the
/// replay of the sealed journals on disk goes through from there; and let
/// the active journal be replayed last. Then the journals on disk suffice
/// for the keyspace that comes out.
pub proof fn lemma_reopen_safe(
    crashed: KeyspaceView,
    whole: Disk,
    start: KeyspaceView,
    ends: Seq<KeyspaceView>,
)
    requires
        safe(crashed, whole),
        journal_order(whole),
        start.wf(),
        blank(start),
        same_segments(start, crashed),
        replays(start, whole.sealed, ends),
    ensures
        safe(replay_end(start, ends).replay(whole.active), whole),
        same_segments(replay_end(start, ends).replay(whole.active), crashed),
{
    let n = whole.sealed.len() as int;
    lemma_replays_safe(start, ends, n, crashed, whole);
    let end = replay_end(start, ends);
    assert(end == replay_start(start, ends, n));
    assert(whole.sealed.take(n) =~= whole.sealed);
    assert forall|i: int| 0 <= i < whole.active.len() implies whole.has(
        #[trigger] whole.active[i],
    ) by {
        assert(whole.active.contains(whole.active[i]));
    }
    assert forall|a: int, i: int|
        0 <= a < whole.sealed.len() && 0 <= i < whole.sealed[a].len() implies whole.has(
        #[trigger] whole.sealed[a][i],
    ) by {
        assert(whole.sealed[a].contains(whole.sealed[a][i]));
    }
    lemma_replay_safe(end, whole.sealed, whole.active, whole.active.len() as int, crashed, whole);
    assert(whole.active.take(whole.active.len() as int) =~= whole.active);
    assert(Disk { sealed: whole.sealed, active: whole.active } == whole);
}

/// Sealing the active journal several times keeps the journals in order.
pub proof fn lemma_sealed_times_order(disk: Disk, n: nat)
    requires
        journal_order(disk),
    ensures
        journal_order(sealed_times(disk, n)),
    decreases n,
{
    if n > 0 {
        lemma_seal_order(disk);
        lemma_sealed_times_order(disk.seal(), (n - 1) as nat);
    }
}

/// The journals that are kept are in the order in which they were.
pub proof fn lemma_kept_order(
    sealed: Seq<JournalView>,
    logs: Seq<Seq<RecordView>>,
    name: Seq<char>,
    persisted: SeqNo,
)
    requires
        logs.len() == sealed.len(),
        journals_in_order(logs),
    ensures
        journals_in_order(kept_logs(sealed, logs, name, persisted)),
    decreases sealed.len(),
{
    if sealed.len() > 0 {
        let shorter = logs.drop_last();
        assert forall|j1: int, j2: int, i1: int, i2: int|
            0 <= j1 < j2 < shorter.len() && 0 <= i1 < shorter[j1].len() && 0 <= i2
                < shorter[j2].len() implies (#[trigger] shorter[j1][i1]).seqno < (
        #[trigger] shorter[j2][i2]).seqno by {
            assert(shorter[j1] == logs[j1] && shorter[j2] == logs[j2]);
        }
        lemma_kept_order(sealed.drop_last(), shorter, name, persisted);
        lemma_kept_len(sealed.drop_last(), shorter, name, persisted);
        let rest = kept_logs(sealed.drop_last(), shorter, name, persisted);
        let kept = kept_logs(sealed, logs, name, persisted);
        assert forall|j1: int, j2: int, i1: int, i2: int|
            0 <= j1 < j2 < kept.len() && 0 <= i1 < kept[j1].len() && 0 <= i2
                < kept[j2].len() implies (#[trigger] kept[j1][i1]).seqno < (
        #[trigger] kept[j2][i2]).seqno by {
            assert(kept[j1] == rest[j1]);
            if j2 < rest.len() {
                assert(kept[j2] == rest[j2]);
            } else {
                let j = lemma_kept_from(sealed.drop_last(), shorter, name, persisted, j1);
                assert(rest[j1] == shorter[j]);
                assert(shorter[j] == logs[j]);
                assert(kept[j2] == logs[logs.len() - 1]);
                assert(logs[j][i1].seqno < logs[logs.len() - 1][i2].seqno);
            }
        }
    }
}

/// Deleting the journals that a flush released keeps the journals in order.
pub proof fn lemma_flushed_order(ks: KeyspaceView, disk: Disk, name: Seq<char>, count: int)
    requires
        journal_order(disk),
        disk.sealed.len() == ks.journals.sealed.len(),
    ensures
        journal_order(disk.flushed(ks, name, count)),
{
    let after = disk.flushed(ks, name, count);
    if after != disk {
        let lsn = crate::tree_inner::max_lsn(
            ks.tree(name).flush(ks.flushable(name, count)).segments,
        )->0;
        lemma_kept_order(ks.journals.sealed, disk.sealed, name, lsn);
        lemma_kept_len(ks.journals.sealed, disk.sealed, name, lsn);
        assert forall|j: int, i: int, k: int|
            0 <= j < after.sealed.len() && 0 <= i < after.sealed[j].len() && 0 <= k
                < after.active.len() implies (#[trigger] after.sealed[j][i]).seqno < (
        #[trigger] after.active[k]).seqno by {
            let j0 = lemma_kept_from(ks.journals.sealed, disk.sealed, name, lsn, j);
            assert(after.sealed[j][i] == disk.sealed[j0][i]);
        }
    }
}

/// Deleting the journals that the deletion of a partition released keeps
/// the journals in order.
pub proof fn lemma_deleted_order(ks: KeyspaceView, disk: Disk, name: Seq<char>)
    requires
        journal_order(disk),
        disk.sealed.len() == ks.journals.sealed.len(),
    ensures
        journal_order(disk.deleted(ks, name)),
{
    let after = disk.deleted(ks, name);
    lemma_kept_order(ks.journals.sealed, disk.sealed, name, u64::MAX);
    lemma_kept_len(ks.journals.sealed, disk.sealed, name, u64::MAX);
    assert forall|j: int, i: int, k: int|
        0 <= j < after.sealed.len() && 0 <= i < after.sealed[j].len() && 0 <= k
            < after.active.len() implies (#[trigger] after.sealed[j][i]).seqno < (
    #[trigger] after.active[k]).seqno by {
        let j0 = lemma_kept_from(ks.journals.sealed, disk.sealed, name, u64::MAX, j);
        assert(after.sealed[j][i] == disk.sealed[j0][i]);
    }
}

} // verus!
