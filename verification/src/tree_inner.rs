//! The tree of one partition: the active memtable that takes the writes, the
//! sealed memtables that wait for their flush, and the segments that the
//! flushes left.

use crate::history::{found, lemma_found_union, lemma_found_visible, newer_of, visible, History};
use crate::id::{generate_segment_id, segment_id, Timestamp};
use crate::history::{fold_items, lemma_fold_items_union};
use crate::memtable::{built_len, built_size, item_views, size_after, MemTable};
use crate::journal::manager::clamp;
use crate::range::{
    is_first, is_last, is_scan, lemma_scan_all, live_keys, option_pair_view, pair_views, scan,
    Selection,
};
use crate::value::{option_view, SeqNo, Stored, UserKey, UserValue, Value, ValueType, ValueView};
use std::sync::Arc;
use vstd::prelude::*;

verus! {

/// `Arc::clone` hands out another pointer to the same value.
#[verifier::external_body]
pub(crate) fn share<T>(a: &Arc<T>) -> (r: Arc<T>)
    ensures
        r == *a,
{
    Arc::clone(a)
}

/// A memtable that takes no more writes, under the identifier it was sealed
/// with. It is a sealed memtable while it waits for its flush, and stands for
/// the segment that the flush wrote from then on.
pub struct SortedRun {
    pub id: String,
    pub items: Arc<MemTable>,
}

/// The mathematical value of a [`SortedRun`].
pub struct RunView {
    pub id: Seq<char>,
    /// What the run holds.
    pub versions: History,
    /// The number of items of the run.
    pub len: nat,
    /// The approximate number of bytes of the run.
    pub size: u32,
}

impl View for SortedRun {
    type V = RunView;

    open spec fn view(&self) -> RunView {
        RunView {
            id: self.id@,
            versions: self.items.versions(),
            len: self.items@.len(),
            size: self.items.size(),
        }
    }
}

impl SortedRun {
    /// The run is sorted and holds at least one item.
    pub open spec fn wf(&self) -> bool {
        &&& self.items.wf()
        &&& self.items@.len() > 0
    }
}

/// The views of a list of runs.
pub open spec fn run_views(runs: Seq<SortedRun>) -> Seq<RunView> {
    runs.map_values(|r: SortedRun| r@)
}

/// What a list of runs holds, the oldest run first: where two runs hold the
/// same version, the later run's counts.
pub open spec fn merge_runs(runs: Seq<RunView>) -> History
    decreases runs.len(),
{
    if runs.len() == 0 {
        Map::empty()
    } else {
        merge_runs(runs.drop_last()).union_prefer_right(runs.last().versions)
    }
}

/// The number of items of a list of runs.
pub open spec fn run_items(runs: Seq<RunView>) -> int
    decreases runs.len(),
{
    if runs.len() == 0 {
        0
    } else {
        run_items(runs.drop_last()) + runs.last().len
    }
}

/// The approximate number of bytes of a list of runs.
pub open spec fn run_bytes(runs: Seq<RunView>) -> int
    decreases runs.len(),
{
    if runs.len() == 0 {
        0
    } else {
        run_bytes(runs.drop_last()) + runs.last().size
    }
}

/// A list of runs has no negative number of items or bytes.
pub proof fn lemma_runs_nonnegative(runs: Seq<RunView>)
    ensures
        run_items(runs) >= 0,
        run_bytes(runs) >= 0,
    decreases runs.len(),
{
    if runs.len() > 0 {
        lemma_runs_nonnegative(runs.drop_last());
    }
}

/// Counts the items and the bytes of a list of runs.
fn measure_runs(runs: &Vec<SortedRun>) -> (r: (u64, u64))
    ensures
        r.0 == clamp(run_items(run_views(runs@))),
        r.1 == clamp(run_bytes(run_views(runs@))),
{
    let mut items: u64 = 0;
    let mut bytes: u64 = 0;
    let mut i: usize = 0;
    let ghost views = run_views(runs@);
    proof {
        assert(views.take(0) =~= Seq::<RunView>::empty());
    }
    while i < runs.len()
        invariant
            i <= runs.len(),
            views == run_views(runs@),
            items == clamp(run_items(views.take(i as int))),
            bytes == clamp(run_bytes(views.take(i as int))),
        decreases runs.len() - i,
    {
        proof {
            assert(views.take(i + 1).drop_last() =~= views.take(i as int));
            assert(views.take(i + 1).last() == runs@[i as int]@);
            lemma_runs_nonnegative(views.take(i as int));
        }
        items = items.saturating_add(runs[i].items.len() as u64);
        bytes = bytes.saturating_add(runs[i].items.approximate_size() as u64);
        i += 1;
    }
    proof {
        assert(views.take(i as int) =~= views);
    }
    (items, bytes)
}

/// The highest sequence number in a list of runs, none of which is empty, or
/// `None` for an empty list.
pub open spec fn max_lsn(runs: Seq<RunView>) -> Option<SeqNo>
    decreases runs.len(),
{
    if runs.len() == 0 {
        None
    } else {
        let here = crate::history::highest(runs.last().versions);
        match max_lsn(runs.drop_last()) {
            Some(before) => Some(
                if before > here {
                    before
                } else {
                    here
                },
            ),
            None => Some(here),
        }
    }
}

/// What two lists of runs hold, one after the other.
pub proof fn lemma_merge_runs_concat(a: Seq<RunView>, b: Seq<RunView>)
    ensures
        merge_runs(a + b) == merge_runs(a).union_prefer_right(merge_runs(b)),
    decreases b.len(),
{
    if b.len() == 0 {
        assert(a + b =~= a);
        assert(merge_runs(a).union_prefer_right(merge_runs(b)) =~= merge_runs(a));
    } else {
        assert((a + b).drop_last() =~= a + b.drop_last());
        lemma_merge_runs_concat(a, b.drop_last());
        assert(merge_runs(a + b) =~= merge_runs(a).union_prefer_right(merge_runs(b)));
    }
}

/// The identifiers of a list of runs.
pub open spec fn run_ids(runs: Seq<RunView>) -> Seq<Seq<char>> {
    runs.map_values(|r: RunView| r.id)
}

/// The approximate number of bytes of a list of runs as a `u32`, which
/// stops at the largest `u32`.
pub open spec fn merged_size(runs: Seq<RunView>) -> u32 {
    if run_bytes(runs) > u32::MAX {
        u32::MAX
    } else {
        run_bytes(runs) as u32
    }
}

/// The run that a merge of `runs` leaves under the identifier `id`: it holds
/// what the runs held together, each version once.
pub open spec fn merged_run(runs: Seq<RunView>, id: Seq<char>) -> RunView {
    RunView {
        id,
        versions: merge_runs(runs),
        len: merge_runs(runs).dom().len(),
        size: merged_size(runs),
    }
}

/// The mathematical value of a tree.
pub struct TreeView {
    /// What the active memtable holds.
    pub active: History,
    /// The number of items of the active memtable.
    pub active_len: nat,
    /// The approximate size of the active memtable.
    pub active_size: u32,
    /// The sealed memtables, the oldest first.
    pub sealed: Seq<RunView>,
    /// The segments, the oldest first.
    pub segments: Seq<RunView>,
}

impl TreeView {
    /// The number of items that the tree holds in its memtables and
    /// segments. A version that stands in two of them counts twice.
    pub open spec fn items(self) -> int {
        self.active_len + run_items(self.sealed) + run_items(self.segments)
    }

    /// The approximate number of bytes of the segments.
    pub open spec fn disk_space(self) -> int {
        run_bytes(self.segments)
    }

    /// Every version that the tree holds.
    pub open spec fn history(self) -> History {
        merge_runs(self.segments).union_prefer_right(merge_runs(self.sealed)).union_prefer_right(
            self.active,
        )
    }

    /// The active memtable as a run with the identifier `id`.
    pub open spec fn active_run(self, id: Seq<char>) -> RunView {
        RunView { id, versions: self.active, len: self.active_len, size: self.active_size }
    }

    /// The tree after `v` was written to its active memtable.
    pub open spec fn write(self, v: ValueView) -> TreeView {
        TreeView {
            active: self.active.insert(v.id(), v.stored()),
            active_len: if self.active.contains_key(v.id()) {
                self.active_len
            } else {
                self.active_len + 1
            },
            active_size: size_after(self.active_size, v.key.len(), v.value.len()),
            ..self
        }
    }

    /// The tree after its active memtable was sealed under `id`. An empty
    /// active memtable is not sealed.
    pub open spec fn seal(self, id: Seq<char>) -> TreeView {
        if self.active == Map::<(Seq<u8>, SeqNo), Stored>::empty() {
            self
        } else {
            TreeView {
                active: Map::empty(),
                active_len: 0,
                active_size: 0,
                sealed: self.sealed.push(self.active_run(id)),
                ..self
            }
        }
    }

    /// The tree after its `count` oldest sealed memtables were flushed.
    pub open spec fn flush(self, count: int) -> TreeView {
        TreeView {
            sealed: self.sealed.skip(count),
            segments: self.segments + self.sealed.take(count),
            ..self
        }
    }

    /// The number of segments that a compaction of at most `count` segments
    /// merges: as many of the oldest as there are, and none where that
    /// would be fewer than two.
    pub open spec fn mergeable(self, count: int) -> int {
        let n = if count <= self.segments.len() {
            count
        } else {
            self.segments.len() as int
        };
        if n < 2 {
            0
        } else {
            n
        }
    }

    /// The tree after a compaction of at most `count` segments: the oldest
    /// segments give way to one segment, under `id`, that holds what they held.
    pub open spec fn compact(self, count: int, id: Seq<char>) -> TreeView {
        let n = self.mergeable(count);
        if n == 0 {
            self
        } else {
            TreeView {
                segments: seq![merged_run(self.segments.take(n), id)] + self.segments.skip(n),
                ..self
            }
        }
    }

    /// The tree after a segment that holds `items` was put behind its
    /// segments. A segment without items is left out.
    pub open spec fn restore(self, id: Seq<char>, items: Seq<ValueView>) -> TreeView {
        if items.len() == 0 {
            self
        } else {
            TreeView {
                segments: self.segments.push(
                    RunView {
                        id,
                        versions: fold_items(Map::empty(), items),
                        len: built_len(items),
                        size: built_size(items),
                    },
                ),
                ..self
            }
        }
    }

    /// A tree that holds nothing but segments holds, after it took one more
    /// segment, the items of that segment as well.
    pub proof fn lemma_restore_history(self, id: Seq<char>, items: Seq<ValueView>)
        requires
            self.sealed.len() == 0,
            self.active == Map::<(Seq<u8>, SeqNo), Stored>::empty(),
        ensures
            self.restore(id, items).history() == fold_items(self.history(), items),
    {
        lemma_fold_items_union(self.history(), items);
        if items.len() > 0 {
            let run = RunView {
                id,
                versions: fold_items(Map::empty(), items),
                len: built_len(items),
                size: built_size(items),
            };
            assert(self.segments.push(run).drop_last() =~= self.segments);
            assert(self.restore(id, items).history() =~= self.history().union_prefer_right(
                run.versions,
            ));
        }
    }

    /// A write adds one version to the tree and leaves the others as they were.
    pub proof fn lemma_write_history(self, v: ValueView)
        ensures
            self.write(v).history() == self.history().insert(v.id(), v.stored()),
    {
        assert(self.write(v).history() =~= self.history().insert(v.id(), v.stored()));
    }

    /// Sealing the active memtable changes nothing of what the tree holds.
    pub proof fn lemma_seal_history(self, id: Seq<char>)
        ensures
            self.seal(id).history() == self.history(),
    {
        let run = self.active_run(id);
        assert(self.sealed.push(run).drop_last() =~= self.sealed);
        assert(self.seal(id).history() =~= self.history());
    }

    /// A compaction changes nothing of what the segments hold together, and
    /// so nothing of what the tree holds. It leaves fewer segments wherever it
    /// merges any.
    pub proof fn lemma_compact_history(self, count: int, id: Seq<char>)
        ensures
            merge_runs(self.compact(count, id).segments) == merge_runs(self.segments),
            self.compact(count, id).history() == self.history(),
            self.compact(count, id).segments.len() == self.segments.len() - self.mergeable(count)
                + if self.mergeable(count) == 0 {
                0int
            } else {
                1int
            },
    {
        let n = self.mergeable(count);
        if n > 0 {
            let old_runs = self.segments.take(n);
            let rest = self.segments.skip(n);
            let run = merged_run(old_runs, id);
            assert(seq![run].drop_last() =~= Seq::<RunView>::empty());
            assert(merge_runs(Seq::<RunView>::empty()) =~= Map::empty());
            assert(seq![run].last() == run);
            assert(merge_runs(seq![run]) =~= merge_runs(old_runs));
            lemma_merge_runs_concat(seq![run], rest);
            lemma_merge_runs_concat(old_runs, rest);
            assert(old_runs + rest =~= self.segments);
        }
    }

    /// A flush changes nothing of what the tree holds.
    pub proof fn lemma_flush_history(self, count: int)
        requires
            0 <= count <= self.sealed.len(),
        ensures
            self.flush(count).history() == self.history(),
    {
        lemma_merge_runs_concat(self.segments, self.sealed.take(count));
        lemma_merge_runs_concat(self.sealed.take(count), self.sealed.skip(count));
        assert(self.sealed.take(count) + self.sealed.skip(count) =~= self.sealed);
        assert(self.flush(count).history() =~= self.history());
    }
}

/// Of the answers of an older and of a newer layer to one lookup, the one that counts.
fn pick_newer<'a>(older: Option<&'a Value>, newer: Option<&'a Value>) -> (r: Option<&'a Value>)
    ensures
        option_view(r) == newer_of(option_view(older), option_view(newer)),
{
    match (older, newer) {
        (Some(x), Some(y)) => if x.seqno > y.seqno {
            older
        } else {
            newer
        },
        (Some(_), None) => older,
        (None, _) => newer,
    }
}

/// Looks `key` up in a list of runs.
fn lookup_runs<'a>(runs: &'a Vec<SortedRun>, key: &[u8], snapshot: SeqNo) -> (r: Option<&'a Value>)
    requires
        forall|i: int| 0 <= i < runs@.len() ==> (#[trigger] runs@[i]).wf(),
    ensures
        found(merge_runs(run_views(runs@)), key@, snapshot, option_view(r)),
{
    let mut best: Option<&'a Value> = None;
    let mut i: usize = 0;
    let ghost views = run_views(runs@);
    proof {
        assert(views.take(0) =~= Seq::<RunView>::empty());
        crate::history::lemma_newest_none(merge_runs(views.take(0)), key@, snapshot);
    }
    while i < runs.len()
        invariant
            i <= runs.len(),
            views == run_views(runs@),
            forall|j: int| 0 <= j < runs@.len() ==> (#[trigger] runs@[j]).wf(),
            found(merge_runs(views.take(i as int)), key@, snapshot, option_view(best)),
        decreases runs.len() - i,
    {
        let here = runs[i].items.get(key, snapshot);
        proof {
            assert(views.take(i + 1).drop_last() =~= views.take(i as int));
            assert(views.take(i + 1).last() == runs@[i as int]@);
            lemma_found_union(
                merge_runs(views.take(i as int)),
                runs@[i as int]@.versions,
                key@,
                snapshot,
                option_view(best),
                option_view(here),
            );
        }
        best = pick_newer(best, here);
        i += 1;
    }
    proof {
        assert(views.take(i as int) =~= views);
    }
    best
}

/// What a compaction did to a tree.
pub struct Compaction {
    /// The identifiers of the segments that were merged, the oldest first.
    pub replaced: Vec<String>,
    /// The segment that holds their items now, or `None` if no segment was merged.
    pub segment: Option<SortedRun>,
}

/// The views of a list of identifiers.
pub open spec fn id_views(ids: Seq<String>) -> Seq<Seq<char>> {
    ids.map_values(|id: String| id@)
}

/// The identifiers of a list of runs.
fn ids_of(runs: &Vec<SortedRun>) -> (r: Vec<String>)
    ensures
        id_views(r@) == run_ids(run_views(runs@)),
{
    let mut out: Vec<String> = Vec::new();
    let mut i: usize = 0;
    while i < runs.len()
        invariant
            i <= runs.len(),
            id_views(out@) == run_ids(run_views(runs@)).take(i as int),
        decreases runs.len() - i,
    {
        let ghost before = id_views(out@);
        out.push(runs[i].id.clone());
        assert(id_views(out@) =~= before.push(runs@[i as int].id@));
        assert(run_ids(run_views(runs@)).take(i + 1) =~= before.push(runs@[i as int].id@));
        i += 1;
    }
    assert(run_ids(run_views(runs@)).take(i as int) =~= run_ids(run_views(runs@)));
    out
}

/// The tree of one partition.
pub struct TreeInner {
    /// The memtable that takes the writes.
    pub(crate) active_memtable: MemTable,
    /// Memtables that are being flushed, the oldest first.
    pub(crate) immutable_memtables: Vec<SortedRun>,
    /// The segments of the first level, the oldest first.
    pub(crate) levels: Vec<SortedRun>,
}

impl View for TreeInner {
    type V = TreeView;

    closed spec fn view(&self) -> TreeView {
        TreeView {
            active: self.active_memtable.versions(),
            active_len: self.active_memtable@.len(),
            active_size: self.active_memtable.size(),
            sealed: run_views(self.immutable_memtables@),
            segments: run_views(self.levels@),
        }
    }
}

impl TreeInner {
    /// Every memtable and every segment of the tree is sorted, and none but
    /// the active memtable is empty.
    pub closed spec fn wf(&self) -> bool {
        &&& self.active_memtable.wf()
        &&& forall|i: int|
            0 <= i < self.immutable_memtables@.len() ==> (#[trigger] self.immutable_memtables@[i]).wf()
        &&& forall|i: int| 0 <= i < self.levels@.len() ==> (#[trigger] self.levels@[i]).wf()
    }

    /// The value of a tree that holds nothing.
    pub open spec fn new_view() -> TreeView {
        TreeView {
            active: Map::empty(),
            active_len: 0,
            active_size: 0,
            sealed: Seq::empty(),
            segments: Seq::empty(),
        }
    }

    /// A tree that holds nothing.
    pub fn new() -> (r: Self)
        ensures
            r.wf(),
            r@ == Self::new_view(),
    {
        let r = TreeInner {
            active_memtable: MemTable::new(),
            immutable_memtables: Vec::new(),
            levels: Vec::new(),
        };
        assert(r@.sealed =~= Seq::empty());
        assert(r@.segments =~= Seq::empty());
        r
    }

    /// Writes a version to the active memtable and returns the memtable's new approximate size.
    pub fn append(&mut self, item: Value) -> (size: u32)
        requires
            old(self).wf(),
        ensures
            final(self).wf(),
            final(self)@ == old(self)@.write(item@),
            size == final(self)@.active_size,
    {
        self.active_memtable.insert(item)
    }

    /// Looks up what a reader at `snapshot` finds under `key`.
    pub fn get(&self, key: &[u8], snapshot: SeqNo) -> (r: Option<UserValue>)
        requires
            self.wf(),
        ensures
            match r {
                Some(v) => visible(self@.history(), key@, snapshot) == Some(v@),
                None => visible(self@.history(), key@, snapshot) is None,
            },
    {
        let in_segments = lookup_runs(&self.levels, key, snapshot);
        let in_sealed = lookup_runs(&self.immutable_memtables, key, snapshot);
        let in_active = self.active_memtable.get(key, snapshot);
        let frozen = pick_newer(in_segments, in_sealed);
        let best = pick_newer(frozen, in_active);
        proof {
            lemma_found_union(
                merge_runs(self@.segments),
                merge_runs(self@.sealed),
                key@,
                snapshot,
                option_view(in_segments),
                option_view(in_sealed),
            );
            lemma_found_union(
                merge_runs(self@.segments).union_prefer_right(merge_runs(self@.sealed)),
                self@.active,
                key@,
                snapshot,
                option_view(frozen),
                option_view(in_active),
            );
            lemma_found_visible(self@.history(), key@, snapshot, option_view(best));
        }
        match best {
            Some(v) => match v.value_type {
                ValueType::Value => Some(vstd::slice::slice_to_vec(v.value.as_slice())),
                ValueType::Tombstone => None,
            },
            None => None,
        }
    }

    /// The highest sequence number in the active memtable, or `None` if it is empty.
    pub fn get_memtable_lsn(&self) -> (r: Option<SeqNo>)
        requires
            self.wf(),
        ensures
            match r {
                Some(h) => crate::history::is_highest(self@.active, h),
                None => self@.active == Map::<(Seq<u8>, SeqNo), Stored>::empty(),
            },
    {
        let r = self.active_memtable.get_lsn();
        proof {
            if r is None {
                assert(self@.active =~= Map::empty());
            }
        }
        r
    }

    /// Seals the active memtable under `id` and puts an empty one in its
    /// place. Returns the sealed memtable, or `None` if the active memtable was
    /// empty, in which case nothing changes.
    pub fn seal_active(&mut self, id: String) -> (r: Option<Arc<MemTable>>)
        requires
            old(self).wf(),
        ensures
            final(self).wf(),
            final(self)@ == old(self)@.seal(id@),
            r is None <==> old(self)@.active == Map::<(Seq<u8>, SeqNo), Stored>::empty(),
            r matches Some(m) ==> m.wf() && m.versions() == old(self)@.active && m@.len() > 0,
            old(self)@.active_len > 0 <==> old(self)@.active != Map::<
                (Seq<u8>, SeqNo),
                Stored,
            >::empty(),
    {
        if self.active_memtable.is_empty() {
            proof {
                assert(self@.active =~= Map::empty());
            }
            return None;
        }
        proof {
            self.active_memtable.lemma_sorted();
            crate::history::lemma_versions_at(self.active_memtable@, 0);
        }
        let mut yanked = MemTable::new();
        std::mem::swap(&mut self.active_memtable, &mut yanked);
        let sealed = Arc::new(yanked);
        let handed_out = share(&sealed);
        self.immutable_memtables.push(SortedRun { id, items: sealed });
        proof {
            assert(self@.sealed =~= old(self)@.sealed.push(old(self)@.active_run(id@)));
        }
        Some(handed_out)
    }

    /// Seals the active memtable under a newly generated identifier. Returns
    /// the identifier and the sealed memtable, or `None` if the active
    /// memtable was empty, in which case nothing changes.
    pub fn rotate_memtable(&mut self) -> (r: Option<(String, Arc<MemTable>)>)
        requires
            old(self).wf(),
        ensures
            final(self).wf(),
            r is None <==> old(self)@.active == Map::<(Seq<u8>, SeqNo), Stored>::empty(),
            r is None ==> final(self)@ == old(self)@,
            r matches Some((id, m)) ==> {
                &&& final(self)@ == old(self)@.seal(id@)
                &&& m.wf()
                &&& m.versions() == old(self)@.active
                &&& m@.len() > 0
                &&& exists|t: Timestamp, random: u32|
                    t.is_calendar() && id@ == #[trigger] segment_id(t, random)
            },
    {
        if self.active_memtable.is_empty() {
            proof {
                assert(self@.active =~= Map::empty());
            }
            return None;
        }
        let id = generate_segment_id();
        let kept = id.clone();
        match self.seal_active(id) {
            Some(m) => Some((kept, m)),
            None => None,
        }
    }

    /// Turns the `count` oldest sealed memtables into segments, once a flush
    /// has written them out; all of them, if there are no more than `count`.
    pub fn register_segments(&mut self, count: usize)
        requires
            old(self).wf(),
        ensures
            final(self).wf(),
            final(self)@ == old(self)@.flush(
                if count <= old(self)@.sealed.len() {
                    count as int
                } else {
                    old(self)@.sealed.len() as int
                },
            ),
    {
        let n: usize = if count <= self.immutable_memtables.len() {
            count
        } else {
            self.immutable_memtables.len()
        };
        let mut rest = self.immutable_memtables.split_off(n);
        std::mem::swap(&mut self.immutable_memtables, &mut rest);
        let ghost before = self.levels@;
        let ghost moved = rest@;
        self.levels.append(&mut rest);
        proof {
            assert(moved =~= old(self).immutable_memtables@.take(n as int));
            assert(self.levels@ =~= before + moved);
            assert(self@.segments =~= old(self)@.segments + old(self)@.sealed.take(n as int));
            assert(self@.sealed =~= old(self)@.sealed.skip(n as int));
        }
    }

    /// Merges the oldest segments, at most `count` of them, into one segment
    /// under `id`, as a compaction does. Fewer than two segments are left as
    /// they are. What the tree holds stays what it was.
    pub fn merge_segments(&mut self, count: usize, id: String) -> (r: Compaction)
        requires
            old(self).wf(),
        ensures
            final(self).wf(),
            final(self)@ == old(self)@.compact(count as int, id@),
            id_views(r.replaced@) == run_ids(
                old(self)@.segments.take(old(self)@.mergeable(count as int)),
            ),
            match r.segment {
                Some(run) => {
                    &&& old(self)@.mergeable(count as int) >= 2
                    &&& run.wf()
                    &&& run@ == merged_run(
                        old(self)@.segments.take(old(self)@.mergeable(count as int)),
                        id@,
                    )
                },
                None => old(self)@.mergeable(count as int) == 0,
            },
    {
        let n: usize = if count <= self.levels.len() {
            count
        } else {
            self.levels.len()
        };
        if n < 2 {
            let replaced: Vec<String> = Vec::new();
            assert(id_views(replaced@) =~= run_ids(old(self)@.segments.take(0)));
            return Compaction { replaced, segment: None };
        }
        let ghost all = self.levels@;
        let mut rest = self.levels.split_off(n);
        let ghost merged_runs = self.levels@;
        let ghost views = run_views(merged_runs);
        proof {
            assert(merged_runs =~= all.take(n as int));
            assert(rest@ =~= all.skip(n as int));
            assert(views =~= old(self)@.segments.take(n as int));
            assert(run_views(rest@) =~= old(self)@.segments.skip(n as int));
            assert forall|i: int| 0 <= i < merged_runs.len() implies (#[trigger] merged_runs[i]).wf() by {
                assert(merged_runs[i] == all[i]);
            }
        }
        let mut table = MemTable::new();
        absorb_runs(&mut table, &self.levels);
        let measured = measure_runs(&self.levels);
        let size: u32 = if measured.1 > 4294967295 {
            u32::MAX
        } else {
            measured.1 as u32
        };
        let replaced = ids_of(&self.levels);
        let table = table.resized(size);
        proof {
            lemma_runs_nonnegative(views);
            table.lemma_len();
            assert(Map::<(Seq<u8>, SeqNo), Stored>::empty().union_prefer_right(merge_runs(views))
                =~= merge_runs(views));
            // The last of the merged runs holds an item, so the merged run does.
            let last = merged_runs[n - 1];
            assert(last.wf());
            assert(views.last() == last@);
            last.items.lemma_sorted();
            crate::history::lemma_versions_at(last.items@, 0);
            assert(merge_runs(views).contains_key(last.items@[0].id()));
            let k = crate::history::lemma_versions_index(table@, last.items@[0].id());
        }
        let items = Arc::new(table);
        let run = SortedRun { id: id.clone(), items: share(&items) };
        let mut levels: Vec<SortedRun> = Vec::new();
        levels.push(SortedRun { id, items });
        levels.append(&mut rest);
        self.levels = levels;
        proof {
            assert(self.levels@ =~= seq![run] + all.skip(n as int));
            assert(self@.segments =~= seq![run@] + old(self)@.segments.skip(n as int));
            assert forall|i: int| 0 <= i < self.levels@.len() implies (#[trigger] self.levels@[i]).wf() by {
                if i > 0 {
                    assert(self.levels@[i] == all[i - 1 + n]);
                }
            }
        }
        Compaction { replaced, segment: Some(run) }
    }

    /// The approximate size of the active memtable.
    pub fn active_size(&self) -> (r: u32)
        ensures
            r == self@.active_size,
    {
        self.active_memtable.approximate_size()
    }

    /// The number of segments in the first level.
    pub fn first_level_segment_count(&self) -> (r: usize)
        ensures
            r == self@.segments.len(),
    {
        self.levels.len()
    }

    /// The number of segments in the tree.
    pub fn segment_count(&self) -> (r: usize)
        ensures
            r == self@.segments.len(),
    {
        self.levels.len()
    }

    /// The number of sealed memtables that wait for their flush.
    pub fn sealed_count(&self) -> (r: usize)
        ensures
            r == self@.sealed.len(),
    {
        self.immutable_memtables.len()
    }

    /// Approximates the amount of items in the tree: the number of items in
    /// its memtables and segments, as far as a `u64` can count them.
    pub fn approximate_len(&self) -> (r: u64)
        ensures
            r == clamp(self@.items()),
    {
        let sealed = measure_runs(&self.immutable_memtables);
        let segments = measure_runs(&self.levels);
        proof {
            lemma_runs_nonnegative(self@.sealed);
            lemma_runs_nonnegative(self@.segments);
        }
        (self.active_memtable.len() as u64).saturating_add(sealed.0).saturating_add(segments.0)
    }

    /// The approximate number of bytes of the segments, as far as a `u64` can count them.
    pub fn disk_space(&self) -> (r: u64)
        ensures
            r == clamp(self@.disk_space()),
    {
        measure_runs(&self.levels).1
    }

    /// The number of keys under which a reader at `snapshot` finds a value.
    pub fn len(&self, snapshot: SeqNo) -> (r: usize)
        requires
            self.wf(),
        ensures
            live_keys(self@.history(), snapshot).finite(),
            r == live_keys(self@.history(), snapshot).len(),
    {
        let selection = Selection::all();
        let out = self.scan(snapshot, &selection);
        proof {
            lemma_scan_all(pair_views(out@), self@.history(), snapshot, selection);
        }
        out.len()
    }

    /// The pair with the lowest key that a reader at `snapshot` sees.
    pub fn first_key_value(&self, snapshot: SeqNo) -> (r: Option<(UserKey, UserValue)>)
        requires
            self.wf(),
        ensures
            is_first(self@.history(), snapshot, option_pair_view(r)),
    {
        let selection = Selection::all();
        let mut out = self.scan(snapshot, &selection);
        proof {
            lemma_scan_all(pair_views(out@), self@.history(), snapshot, selection);
        }
        if out.len() == 0 {
            None
        } else {
            Some(out.remove(0))
        }
    }

    /// The pair with the highest key that a reader at `snapshot` sees.
    pub fn last_key_value(&self, snapshot: SeqNo) -> (r: Option<(UserKey, UserValue)>)
        requires
            self.wf(),
        ensures
            is_last(self@.history(), snapshot, option_pair_view(r)),
    {
        let selection = Selection::all();
        let mut out = self.scan(snapshot, &selection);
        proof {
            lemma_scan_all(pair_views(out@), self@.history(), snapshot, selection);
        }
        out.pop()
    }

    /// Puts a segment that holds `items`, written out under `id` before the
    /// keyspace was closed, behind the segments. A segment without items is left out.
    pub fn restore_segment(&mut self, id: String, items: &Vec<Value>)
        requires
            old(self).wf(),
        ensures
            final(self).wf(),
            final(self)@ == old(self)@.restore(id@, item_views(items@)),
    {
        if items.len() > 0 {
            let table = MemTable::from_items(items);
            self.levels.push(SortedRun { id, items: Arc::new(table) });
            assert(self@.segments =~= old(self)@.restore(id@, item_views(items@)).segments);
        }
    }

    /// The highest sequence number in the segments, or `None` if the tree has no segment.
    pub fn get_segment_lsn(&self) -> (r: Option<SeqNo>)
        requires
            self.wf(),
        ensures
            r == max_lsn(self@.segments),
    {
        let mut best: Option<SeqNo> = None;
        let mut i: usize = 0;
        let ghost views = self@.segments;
        proof {
            assert(views.take(0) =~= Seq::<RunView>::empty());
        }
        while i < self.levels.len()
            invariant
                self.wf(),
                i <= self.levels.len(),
                views == self@.segments,
                best == max_lsn(views.take(i as int)),
            decreases self.levels.len() - i,
        {
            proof {
                assert(views.take(i + 1).drop_last() =~= views.take(i as int));
                assert(views.take(i + 1).last() == self.levels@[i as int]@);
                assert(self.levels@[i as int].wf());
            }
            let here = match self.levels[i].items.get_lsn() {
                Some(lsn) => lsn,
                None => 0,
            };
            proof {
                crate::history::lemma_highest_is(self.levels@[i as int]@.versions, here);
            }
            best = match best {
                Some(before) => Some(
                    if before > here {
                        before
                    } else {
                        here
                    },
                ),
                None => Some(here),
            };
            i += 1;
        }
        proof {
            assert(views.take(i as int) =~= views);
        }
        best
    }

    /// A memtable that holds every version of the tree.
    pub(crate) fn merged(&self) -> (r: MemTable)
        requires
            self.wf(),
        ensures
            r.wf(),
            r.versions() == self@.history(),
    {
        let mut out = MemTable::new();
        absorb_runs(&mut out, &self.levels);
        absorb_runs(&mut out, &self.immutable_memtables);
        out.absorb(&self.active_memtable);
        proof {
            assert(Map::<(Seq<u8>, SeqNo), Stored>::empty().union_prefer_right(
                merge_runs(self@.segments),
            ) =~= merge_runs(self@.segments));
        }
        out
    }

    /// Gathers what a reader at `snapshot` sees of the tree among the
    /// selected keys, in the order of the keys.
    pub fn scan(&self, snapshot: SeqNo, selection: &Selection) -> (r: Vec<(UserKey, UserValue)>)
        requires
            self.wf(),
        ensures
            is_scan(pair_views(r@), self@.history(), snapshot, *selection),
    {
        let all = self.merged();
        scan(&all, snapshot, selection)
    }
}

/// Puts every item of every run into the memtable, the later runs over the earlier.
fn absorb_runs(out: &mut MemTable, runs: &Vec<SortedRun>)
    requires
        old(out).wf(),
        forall|i: int| 0 <= i < runs@.len() ==> (#[trigger] runs@[i]).wf(),
    ensures
        final(out).wf(),
        final(out).versions() == old(out).versions().union_prefer_right(
            merge_runs(run_views(runs@)),
        ),
{
    let ghost base = out.versions();
    let ghost views = run_views(runs@);
    let mut i: usize = 0;
    proof {
        assert(views.take(0) =~= Seq::<RunView>::empty());
        assert(base.union_prefer_right(merge_runs(views.take(0))) =~= base);
    }
    while i < runs.len()
        invariant
            i <= runs.len(),
            views == run_views(runs@),
            forall|k: int| 0 <= k < runs@.len() ==> (#[trigger] runs@[k]).wf(),
            out.wf(),
            out.versions() == base.union_prefer_right(merge_runs(views.take(i as int))),
        decreases runs.len() - i,
    {
        proof {
            assert(views.take(i + 1).drop_last() =~= views.take(i as int));
            assert(views.take(i + 1).last() == runs@[i as int]@);
            assert(base.union_prefer_right(merge_runs(views.take(i as int))).union_prefer_right(
                runs@[i as int]@.versions,
            ) =~= base.union_prefer_right(merge_runs(views.take(i + 1))));
        }
        out.absorb(&runs[i].items);
        i += 1;
    }
    proof {
        assert(views.take(i as int) =~= views);
    }
}

} // verus!
