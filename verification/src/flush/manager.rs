//! The queues of flush tasks, one per partition, and the list that says which
//! partition has gone longest without a rotation.

use crate::history::History;
use crate::memtable::MemTable;
use crate::names::{find, lemma_find, lemma_without, names, refreshed, without, Named};
use crate::partition::{PartitionHandle, PartitionKey};
use crate::tree_inner::share;
use std::sync::Arc;
use vstd::prelude::*;

verus! {

/// The order to flush one sealed memtable.
#[derive(Debug)]
pub struct Task {
    /// ID of memtable
    pub id: String,
    /// Memtable to flush
    pub sealed_memtable: Arc<MemTable>,
    /// Partition
    pub partition: PartitionHandle,
}

/// The mathematical value of a [`Task`].
pub struct TaskView {
    pub id: Seq<char>,
    pub partition: Seq<char>,
    pub versions: History,
}

impl View for Task {
    type V = TaskView;

    open spec fn view(&self) -> TaskView {
        TaskView {
            id: self.id@,
            partition: self.partition@,
            versions: self.sealed_memtable.versions(),
        }
    }
}

impl Task {
    /// The memtable of the task is sorted and holds at least one item.
    pub open spec fn wf(&self) -> bool {
        &&& self.sealed_memtable.wf()
        &&& self.sealed_memtable@.len() > 0
    }
}

/// The views of a list of tasks.
pub open spec fn task_views(tasks: Seq<Arc<Task>>) -> Seq<TaskView> {
    tasks.map_values(|t: Arc<Task>| t@)
}

/// The partitions in the order of their last rotation, the one that has
/// waited longest first.
#[derive(Debug)]
pub struct LruList {
    items: Vec<PartitionHandle>,
}

impl View for LruList {
    type V = Seq<Seq<char>>;

    closed spec fn view(&self) -> Seq<Seq<char>> {
        names(self.items@)
    }
}

impl LruList {
    /// No partition is listed twice.
    pub open spec fn wf(&self) -> bool {
        self@.no_duplicates()
    }

    /// An empty list.
    pub fn new() -> (r: Self)
        ensures
            r.wf(),
            r@ == Seq::<Seq<char>>::empty(),
    {
        let r = LruList { items: Vec::new() };
        assert(r@ =~= Seq::empty());
        r
    }

    /// Takes the partition of that name off the list.
    pub fn remove_partition(&mut self, name: &String)
        requires
            old(self).wf(),
        ensures
            final(self).wf(),
            final(self)@ == without(old(self)@, name@),
    {
        let found = find(&self.items, name);
        proof {
            lemma_find(self.items@, name@, found);
            lemma_without(self@, name@);
        }
        match found {
            Some(i) => {
                self.items.remove(i);
                assert(self@ =~= old(self)@.remove(i as int));
            },
            None => {},
        }
    }

    /// Moves the partition to the end of the list, or adds it there.
    pub fn refresh(&mut self, partition: PartitionHandle)
        requires
            old(self).wf(),
        ensures
            final(self).wf(),
            final(self)@ == refreshed(old(self)@, partition@),
    {
        self.remove_partition(&partition.name);
        proof {
            lemma_without(old(self)@, partition@);
        }
        let ghost before = self@;
        self.items.push(partition);
        assert(self@ =~= before.push(partition@));
    }

    /// Hands out the partition at the head of the list and moves it to the end.
    pub fn get_least_recently_used(&mut self) -> (r: Option<PartitionHandle>)
        requires
            old(self).wf(),
        ensures
            final(self).wf(),
            match r {
                Some(p) => old(self)@.len() > 0 && p@ == old(self)@.first() && final(self)@
                    == old(self)@.drop_first().push(p@),
                None => old(self)@.len() == 0 && final(self)@ == old(self)@,
            },
    {
        if self.items.len() == 0 {
            None
        } else {
            let front = self.items.remove(0);
            assert(self@ =~= old(self)@.drop_first());
            proof {
                let rest = old(self)@.drop_first();
                assert(rest.no_duplicates());
                if rest.contains(front@) {
                    let k = rest.index_of(front@);
                    assert(old(self)@[k + 1] == front@);
                    assert(old(self)@[0] == front@);
                }
            }
            self.refresh(front.clone());
            Some(front)
        }
    }
}

/// The flush tasks of one partition, the oldest first.
#[derive(Debug)]
pub struct FlushQueue {
    pub name: PartitionKey,
    pub tasks: Vec<Arc<Task>>,
}

/// The mathematical value of a [`FlushQueue`].
pub struct QueueView {
    pub name: Seq<char>,
    pub tasks: Seq<TaskView>,
}

impl View for FlushQueue {
    type V = QueueView;

    open spec fn view(&self) -> QueueView {
        QueueView { name: self.name@, tasks: task_views(self.tasks@) }
    }
}

impl Named for FlushQueue {
    open spec fn name_view(&self) -> Seq<char> {
        self.name@
    }

    fn name(&self) -> (r: &String) {
        &self.name
    }
}

impl FlushQueue {
    /// Each task of the queue holds a sorted memtable that is not empty.
    pub open spec fn wf(&self) -> bool {
        forall|i: int| 0 <= i < self.tasks@.len() ==> (#[trigger] self.tasks@[i]).wf()
    }
}

/// The views of a list of queues.
pub open spec fn queue_views(queues: Seq<FlushQueue>) -> Seq<QueueView> {
    queues.map_values(|q: FlushQueue| q@)
}

/// The names of a list of queues.
pub open spec fn queue_names(queues: Seq<QueueView>) -> Seq<Seq<char>> {
    queues.map_values(|q: QueueView| q.name)
}

/// The mathematical value of a [`FlushManager`].
pub struct FlushManagerView {
    /// The queues, in the order in which they were first used.
    pub queues: Seq<QueueView>,
    /// The partitions by their last rotation, the one that has waited longest first.
    pub lru: Seq<Seq<char>>,
}

/// The smaller of two numbers.
pub open spec fn min(a: int, b: int) -> int {
    if a <= b {
        a
    } else {
        b
    }
}

/// The tasks that a walk through `queues` gathers when it may take `limit` of
/// them: from each queue in turn as many of its oldest tasks as the limit
/// still allows. A queue from which nothing is taken is left out.
pub open spec fn collected(queues: Seq<QueueView>, limit: int) -> Seq<QueueView>
    decreases queues.len(),
{
    if queues.len() == 0 || limit <= 0 {
        Seq::empty()
    } else {
        let q = queues.first();
        let n = min(q.tasks.len() as int, limit);
        let rest = collected(queues.drop_first(), limit - n);
        if n == 0 {
            rest
        } else {
            seq![QueueView { name: q.name, tasks: q.tasks.take(n) }] + rest
        }
    }
}

/// The number of tasks in a list of queues.
pub open spec fn task_count(queues: Seq<QueueView>) -> int
    decreases queues.len(),
{
    if queues.len() == 0 {
        0
    } else {
        queues.first().tasks.len() + task_count(queues.drop_first())
    }
}

/// A list of queues holds no negative number of tasks.
pub proof fn lemma_task_count_nonnegative(queues: Seq<QueueView>)
    ensures
        task_count(queues) >= 0,
    decreases queues.len(),
{
    if queues.len() > 0 {
        lemma_task_count_nonnegative(queues.drop_first());
    }
}

/// A walk through the queues gathers as many tasks as it may take, or all
/// that there are if there are fewer.
pub proof fn lemma_collected_count(queues: Seq<QueueView>, limit: int)
    requires
        limit >= 0,
    ensures
        task_count(collected(queues, limit)) == min(limit, task_count(queues)),
    decreases queues.len(),
{
    lemma_task_count_nonnegative(queues);
    if queues.len() == 0 || limit <= 0 {
        assert(task_count(Seq::<QueueView>::empty()) == 0);
    } else {
        let q = queues.first();
        let n = min(q.tasks.len() as int, limit);
        let rest = collected(queues.drop_first(), limit - n);
        lemma_collected_count(queues.drop_first(), limit - n);
        lemma_task_count_nonnegative(queues.drop_first());
        if n > 0 {
            let group = QueueView { name: q.name, tasks: q.tasks.take(n) };
            let all = seq![group] + rest;
            assert(all.first() == group);
            assert(all.drop_first() =~= rest);
        }
    }
}

impl FlushManagerView {
    /// Whether there is a queue for the partition.
    pub open spec fn has_queue(self, name: Seq<char>) -> bool {
        queue_names(self.queues).contains(name)
    }

    /// The position of the partition's queue.
    pub open spec fn queue_index(self, name: Seq<char>) -> int {
        queue_names(self.queues).index_of(name)
    }

    /// The tasks that are queued for the partition.
    pub open spec fn tasks_of(self, name: Seq<char>) -> Seq<TaskView> {
        if self.has_queue(name) {
            self.queues[self.queue_index(name)].tasks
        } else {
            Seq::empty()
        }
    }

    /// The manager after `task` was queued for the partition `name`.
    pub open spec fn enqueue(self, name: Seq<char>, task: TaskView) -> FlushManagerView {
        if self.has_queue(name) {
            let i = self.queue_index(name);
            FlushManagerView {
                queues: self.queues.update(
                    i,
                    QueueView { name, tasks: self.queues[i].tasks.push(task) },
                ),
                ..self
            }
        } else {
            FlushManagerView {
                queues: self.queues.push(QueueView { name, tasks: seq![task] }),
                ..self
            }
        }
    }

    /// The manager after the `count` oldest tasks of the partition `name` were
    /// taken off its queue. The partition moves to the end of the list of
    /// rotations, or is added there, whatever its queue holds. A partition
    /// without a queue gets an empty one.
    pub open spec fn dequeue(self, name: Seq<char>, count: int) -> FlushManagerView {
        FlushManagerView {
            queues: if self.has_queue(name) {
                let i = self.queue_index(name);
                self.queues.update(i, QueueView { name, tasks: self.queues[i].tasks.skip(count) })
            } else {
                self.queues.push(QueueView { name, tasks: Seq::empty() })
            },
            lru: refreshed(self.lru, name),
        }
    }

    /// The manager after the partition `name` was dropped from it.
    pub open spec fn remove_partition(self, name: Seq<char>) -> FlushManagerView {
        FlushManagerView {
            queues: if self.has_queue(name) {
                self.queues.remove(self.queue_index(name))
            } else {
                self.queues
            },
            lru: without(self.lru, name),
        }
    }

    /// The manager after the head of the list of rotations moved to its end.
    pub open spec fn rotate_lru(self) -> FlushManagerView {
        if self.lru.len() == 0 {
            self
        } else {
            FlushManagerView { lru: self.lru.drop_first().push(self.lru.first()), ..self }
        }
    }
}

impl FlushManagerView {
    /// Queuing a task for a partition adds it to the tasks of that partition
    /// and leaves the tasks of the others as they were.
    pub proof fn lemma_enqueue(self, name: Seq<char>, task: TaskView)
        requires
            queue_names(self.queues).no_duplicates(),
        ensures
            queue_names(self.enqueue(name, task).queues).no_duplicates(),
            self.enqueue(name, task).tasks_of(name) == self.tasks_of(name).push(task),
            forall|other: Seq<char>|
                other != name ==> #[trigger] self.enqueue(name, task).tasks_of(other)
                    == self.tasks_of(other),
            forall|q: int|
                0 <= q < self.enqueue(name, task).queues.len() ==> (#[trigger] self.enqueue(
                    name,
                    task,
                ).queues[q]).name == name || (q < self.queues.len() && self.enqueue(
                    name,
                    task,
                ).queues[q] == self.queues[q]),
            self.enqueue(name, task).lru == self.lru,
    {
        let post = self.enqueue(name, task);
        let old_names = queue_names(self.queues);
        let new_names = queue_names(post.queues);
        if self.has_queue(name) {
            let i = self.queue_index(name);
            assert(old_names[i] == name);
            assert(new_names =~= old_names);
            assert(post.tasks_of(name) == self.tasks_of(name).push(task));
            assert forall|other: Seq<char>| other != name implies #[trigger] post.tasks_of(other)
                == self.tasks_of(other) by {
                if self.has_queue(other) {
                    let k = self.queue_index(other);
                    assert(old_names[k] == other);
                    assert(post.queues[k] == self.queues[k]);
                }
            }
        } else {
            assert(new_names =~= old_names.push(name));
            assert forall|a: int, b: int|
                0 <= a < new_names.len() && 0 <= b < new_names.len() && a != b implies new_names[a]
                != new_names[b] by {
                if a < old_names.len() {
                    assert(old_names.contains(new_names[a]));
                }
                if b < old_names.len() {
                    assert(old_names.contains(new_names[b]));
                }
            }
            let last = self.queues.len() as int;
            assert(new_names[last] == name);
            assert(new_names.index_of(name) == last);
            assert(self.tasks_of(name).push(task) =~= seq![task]);
            assert forall|other: Seq<char>| other != name implies #[trigger] post.tasks_of(other)
                == self.tasks_of(other) by {
                if self.has_queue(other) {
                    let k = self.queue_index(other);
                    assert(old_names[k] == other);
                    assert(new_names[k] == other);
                    assert(post.queues[k] == self.queues[k]);
                } else if post.has_queue(other) {
                    let k = post.queue_index(other);
                    assert(new_names[k] == other);
                    assert(old_names[k] == other);
                }
            }
        }
    }

    /// Taking tasks off the queue of a partition takes them off the tasks of
    /// that partition and leaves the tasks of the others as they were. The
    /// partition then stands last in the list of rotations, also where its
    /// queue was empty or missing.
    pub proof fn lemma_dequeue(self, name: Seq<char>, count: int)
        requires
            queue_names(self.queues).no_duplicates(),
            0 <= count <= self.tasks_of(name).len(),
        ensures
            self.dequeue(name, count).lru == without(self.lru, name).push(name),
            self.dequeue(name, count).lru.last() == name,
            queue_names(self.dequeue(name, count).queues).no_duplicates(),
            self.dequeue(name, count).tasks_of(name) == self.tasks_of(name).skip(count),
            forall|other: Seq<char>|
                other != name ==> #[trigger] self.dequeue(name, count).tasks_of(other)
                    == self.tasks_of(other),
            forall|q: int|
                0 <= q < self.dequeue(name, count).queues.len() ==> (#[trigger] self.dequeue(
                    name,
                    count,
                ).queues[q]).name == name || (q < self.queues.len() && self.dequeue(
                    name,
                    count,
                ).queues[q] == self.queues[q]),
    {
        let post = self.dequeue(name, count);
        let old_names = queue_names(self.queues);
        let new_names = queue_names(post.queues);
        if self.has_queue(name) {
            let i = self.queue_index(name);
            assert(old_names[i] == name);
            assert(new_names =~= old_names);
            assert forall|other: Seq<char>| other != name implies #[trigger] post.tasks_of(other)
                == self.tasks_of(other) by {
                if self.has_queue(other) {
                    let k = self.queue_index(other);
                    assert(old_names[k] == other);
                    assert(post.queues[k] == self.queues[k]);
                }
            }
        } else {
            assert(new_names =~= old_names.push(name));
            assert forall|a: int, b: int|
                0 <= a < new_names.len() && 0 <= b < new_names.len() && a != b implies new_names[a]
                != new_names[b] by {
                if a < old_names.len() {
                    assert(old_names.contains(new_names[a]));
                }
                if b < old_names.len() {
                    assert(old_names.contains(new_names[b]));
                }
            }
            let last = self.queues.len() as int;
            assert(new_names[last] == name);
            assert(new_names.index_of(name) == last);
            assert(self.tasks_of(name).skip(count) =~= Seq::empty());
            assert forall|other: Seq<char>| other != name implies #[trigger] post.tasks_of(other)
                == self.tasks_of(other) by {
                if self.has_queue(other) {
                    let k = self.queue_index(other);
                    assert(old_names[k] == other);
                    assert(new_names[k] == other);
                    assert(post.queues[k] == self.queues[k]);
                } else if post.has_queue(other) {
                    let k = post.queue_index(other);
                    assert(new_names[k] == other);
                    assert(old_names[k] == other);
                }
            }
        }
    }

    /// Dropping a partition leaves it without tasks and the tasks of the
    /// others as they were.
    pub proof fn lemma_remove_partition(self, name: Seq<char>)
        requires
            queue_names(self.queues).no_duplicates(),
        ensures
            queue_names(self.remove_partition(name).queues).no_duplicates(),
            self.remove_partition(name).tasks_of(name) == Seq::<TaskView>::empty(),
            forall|other: Seq<char>|
                other != name ==> #[trigger] self.remove_partition(name).tasks_of(other)
                    == self.tasks_of(other),
            forall|q: int|
                0 <= q < self.remove_partition(name).queues.len() ==> self.queues.contains(
                    #[trigger] self.remove_partition(name).queues[q],
                ) && self.remove_partition(name).queues[q].name != name,
    {
        let post = self.remove_partition(name);
        let old_names = queue_names(self.queues);
        let new_names = queue_names(post.queues);
        if self.has_queue(name) {
            let i = self.queue_index(name);
            assert(old_names[i] == name);
            assert(new_names =~= old_names.remove(i));
            lemma_without(old_names, name);
            assert(new_names == without(old_names, name));
            assert forall|other: Seq<char>| other != name implies #[trigger] post.tasks_of(other)
                == self.tasks_of(other) by {
                if self.has_queue(other) {
                    let k = self.queue_index(other);
                    assert(old_names[k] == other);
                    let k1 = if k < i {
                        k
                    } else {
                        k - 1
                    };
                    assert(new_names[k1] == other);
                    assert(post.queues[k1] == self.queues[k]);
                }
            }
            assert forall|q: int| 0 <= q < post.queues.len() implies self.queues.contains(
                #[trigger] post.queues[q],
            ) && post.queues[q].name != name by {
                let k = if q < i {
                    q
                } else {
                    q + 1
                };
                assert(self.queues[k] == post.queues[q]);
                assert(old_names[k] == post.queues[q].name);
            }
        } else {
            assert forall|q: int| 0 <= q < post.queues.len() implies self.queues.contains(
                #[trigger] post.queues[q],
            ) && post.queues[q].name != name by {
                assert(self.queues[q] == post.queues[q]);
                assert(old_names[q] == post.queues[q].name);
            }
        }
    }
}

/// The [`FlushManager`] stores a dictionary of queues, each queue
/// containing a list of flush tasks.
///
/// Each flush task references a sealed memtable and the given partition.
#[derive(Debug)]
pub struct FlushManager {
    pub(crate) queues: Vec<FlushQueue>,
    pub(crate) lru_list: LruList,
}

impl View for FlushManager {
    type V = FlushManagerView;

    closed spec fn view(&self) -> FlushManagerView {
        FlushManagerView { queues: queue_views(self.queues@), lru: self.lru_list@ }
    }
}

impl Default for FlushManager {
    fn default() -> (r: Self)
        ensures
            r.wf(),
            r@ == (FlushManagerView { queues: Seq::empty(), lru: Seq::empty() }),
    {
        let r = FlushManager { queues: Vec::new(), lru_list: LruList::new() };
        assert(r@.queues =~= Seq::empty());
        assert(queue_names(r@.queues) =~= Seq::empty());
        r
    }
}

impl FlushManager {
    /// No partition has two queues or stands twice in the list of rotations,
    /// and each task holds a sorted memtable that is not empty.
    pub closed spec fn wf(&self) -> bool {
        &&& queue_names(self@.queues).no_duplicates()
        &&& self.lru_list.wf()
        &&& forall|i: int| 0 <= i < self.queues@.len() ==> (#[trigger] self.queues@[i]).wf()
    }

    /// A well-formed manager has no two queues for one partition and lists no partition twice.
    pub proof fn lemma_wf(&self)
        requires
            self.wf(),
        ensures
            queue_names(self@.queues).no_duplicates(),
            self@.lru.no_duplicates(),
    {
    }

    proof fn lemma_names(&self)
        ensures
            queue_names(self@.queues) == names(self.queues@),
    {
        assert(queue_names(self@.queues) =~= names(self.queues@));
    }

    /// The number of tasks that are queued for the partition.
    pub fn queued(&self, name: &String) -> (r: usize)
        requires
            self.wf(),
        ensures
            r == self@.tasks_of(name@).len(),
    {
        let found = find(&self.queues, name);
        proof {
            self.lemma_names();
            lemma_find(self.queues@, name@, found);
        }
        match found {
            Some(i) => self.queues[i].tasks.len(),
            None => 0,
        }
    }

    /// Drops the queue of the partition and takes it off the list of rotations.
    pub fn remove_partition(&mut self, name: &String)
        requires
            old(self).wf(),
        ensures
            final(self).wf(),
            final(self)@ == old(self)@.remove_partition(name@),
    {
        self.lru_list.remove_partition(name);
        let found = find(&self.queues, name);
        proof {
            self.lemma_names();
            lemma_find(self.queues@, name@, found);
        }
        match found {
            Some(i) => {
                self.queues.remove(i);
                proof {
                    assert(self@.queues =~= old(self)@.queues.remove(i as int));
                    assert(queue_names(self@.queues) =~= queue_names(old(self)@.queues).remove(
                        i as int,
                    ));
                    lemma_without(queue_names(old(self)@.queues), name@);
                }
            },
            None => {},
        }
    }

    /// Hands out the partition that has gone longest without a rotation, and
    /// moves it to the end of the list.
    pub fn get_least_recently_used_partition(&mut self) -> (r: Option<PartitionHandle>)
        requires
            old(self).wf(),
        ensures
            final(self).wf(),
            final(self)@ == old(self)@.rotate_lru(),
            match r {
                Some(p) => old(self)@.lru.len() > 0 && p@ == old(self)@.lru.first(),
                None => old(self)@.lru.len() == 0,
            },
    {
        self.lru_list.get_least_recently_used()
    }

    /// Queues a task for the partition.
    pub fn enqueue_task(&mut self, partition_name: PartitionKey, task: Task)
        requires
            old(self).wf(),
            task.wf(),
        ensures
            final(self).wf(),
            final(self)@ == old(self)@.enqueue(partition_name@, task@),
    {
        let found = find(&self.queues, &partition_name);
        proof {
            self.lemma_names();
            lemma_find(self.queues@, partition_name@, found);
        }
        let ghost before = self.queues@;
        match found {
            Some(i) => {
                let mut queues: Vec<FlushQueue> = Vec::new();
                std::mem::swap(&mut self.queues, &mut queues);
                let mut queue = queues.remove(i);
                let ghost tasks = queue.tasks@;
                queue.tasks.push(Arc::new(task));
                queues.insert(i, queue);
                self.queues = queues;
                proof {
                    assert(task_views(tasks.push(Arc::new(task))) =~= task_views(tasks).push(task@));
                    assert(self@.queues =~= old(self)@.queues.update(
                        i as int,
                        QueueView {
                            name: partition_name@,
                            tasks: old(self)@.queues[i as int].tasks.push(task@),
                        },
                    ));
                    assert(queue_names(self@.queues) =~= queue_names(old(self)@.queues));
                    assert forall|k: int| 0 <= k < self.queues@.len() implies (
                    #[trigger] self.queues@[k]).wf() by {
                        if k != i {
                            assert(self.queues@[k] == before[k]);
                        } else {
                            assert(before[k].wf());
                        }
                    }
                }
            },
            None => {
                let mut tasks: Vec<Arc<Task>> = Vec::with_capacity(10);
                tasks.push(Arc::new(task));
                let ghost name = partition_name@;
                self.queues.push(FlushQueue { name: partition_name, tasks });
                proof {
                    assert(task_views(tasks@) =~= seq![task@]);
                    assert(self@.queues =~= old(self)@.queues.push(
                        QueueView { name, tasks: seq![task@] },
                    ));
                    let all = queue_names(self@.queues);
                    assert(all =~= queue_names(old(self)@.queues).push(name));
                    assert forall|a: int, b: int|
                        0 <= a < all.len() && 0 <= b < all.len() && a != b implies all[a]
                        != all[b] by {
                        if a < before.len() {
                            assert(before[a].name_view() != name);
                        }
                        if b < before.len() {
                            assert(before[b].name_view() != name);
                        }
                    }
                    assert forall|k: int| 0 <= k < self.queues@.len() implies (
                    #[trigger] self.queues@[k]).wf() by {
                        if k < before.len() {
                            assert(self.queues@[k] == before[k]);
                        }
                    }
                }
            },
        }
    }

    /// Returns a list of tasks per partition: up to `limit` tasks in all, the
    /// oldest of each queue, gathered queue by queue.
    pub fn collect_tasks(&self, limit: usize) -> (r: Vec<FlushQueue>)
        requires
            self.wf(),
        ensures
            queue_views(r@) == collected(self@.queues, limit as int),
            forall|i: int| 0 <= i < r@.len() ==> (#[trigger] r@[i]).wf(),
    {
        let mut out: Vec<FlushQueue> = Vec::new();
        let mut left: usize = limit;
        let mut i: usize = 0;
        let ghost all = self@.queues;
        proof {
            assert(all.skip(0) =~= all);
            assert(queue_views(out@) =~= Seq::empty());
        }
        while i < self.queues.len() && left > 0
            invariant
                self.wf(),
                all == self@.queues,
                i <= self.queues.len(),
                queue_views(out@) + collected(all.skip(i as int), left as int) == collected(
                    all,
                    limit as int,
                ),
                forall|k: int| 0 <= k < out@.len() ==> (#[trigger] out@[k]).wf(),
            decreases self.queues.len() - i,
        {
            let queue = &self.queues[i];
            let ghost rest = all.skip(i as int);
            let ghost done = queue_views(out@);
            assert(rest.first() == queue@);
            assert(rest.drop_first() =~= all.skip(i + 1));
            let n: usize = if queue.tasks.len() < left {
                queue.tasks.len()
            } else {
                left
            };
            if n > 0 {
                let mut taken: Vec<Arc<Task>> = Vec::new();
                let mut j: usize = 0;
                while j < n
                    invariant
                        j <= n <= queue.tasks.len(),
                        taken@.len() == j,
                        queue.wf(),
                        task_views(taken@) == task_views(queue.tasks@).take(j as int),
                        forall|k: int| 0 <= k < taken@.len() ==> (#[trigger] taken@[k]).wf(),
                    decreases n - j,
                {
                    let ghost before = taken@;
                    taken.push(share(&queue.tasks[j]));
                    proof {
                        assert(taken@[j as int] == queue.tasks@[j as int]);
                        assert(task_views(taken@) =~= task_views(queue.tasks@).take(j + 1));
                        assert forall|k: int| 0 <= k < taken@.len() implies (
                        #[trigger] taken@[k]).wf() by {
                            if k < j {
                                assert(taken@[k] == before[k]);
                            }
                        }
                    }
                    j += 1;
                }
                out.push(FlushQueue { name: queue.name.clone(), tasks: taken });
                proof {
                    let group = QueueView { name: queue@.name, tasks: queue@.tasks.take(n as int) };
                    assert(queue_views(out@) =~= done.push(group));
                    assert(done.push(group) + collected(all.skip(i + 1), left - n) =~= done + (
                    seq![group] + collected(all.skip(i + 1), left - n)));
                }
            }
            left = left - n;
            i += 1;
        }
        proof {
            assert(collected(all.skip(i as int), left as int) =~= Seq::empty());
            assert(queue_views(out@) + Seq::<QueueView>::empty() =~= queue_views(out@));
        }
        out
    }

    /// Takes the `cnt` oldest tasks off the queue of the partition, and moves
    /// the partition to the end of the list of rotations, whether or not its
    /// queue holds a task. A partition that had no queue gets an empty one.
    pub fn dequeue_tasks(&mut self, partition_name: PartitionKey, cnt: usize)
        requires
            old(self).wf(),
            cnt <= old(self)@.tasks_of(partition_name@).len(),
        ensures
            final(self).wf(),
            final(self)@ == old(self)@.dequeue(partition_name@, cnt as int),
    {
        let found = find(&self.queues, &partition_name);
        proof {
            self.lemma_names();
            lemma_find(self.queues@, partition_name@, found);
        }
        let ghost before = self.queues@;
        self.lru_list.refresh(PartitionHandle { name: partition_name.clone() });
        match found {
            Some(i) => {
                let mut queues: Vec<FlushQueue> = Vec::new();
                std::mem::swap(&mut self.queues, &mut queues);
                let mut queue = queues.remove(i);
                let ghost tasks = queue.tasks@;
                let mut rest = queue.tasks.split_off(cnt);
                std::mem::swap(&mut queue.tasks, &mut rest);
                queues.insert(i, queue);
                self.queues = queues;
                proof {
                    assert(self.queues@[i as int].tasks@ =~= tasks.skip(cnt as int));
                    assert(task_views(tasks.skip(cnt as int)) =~= task_views(tasks).skip(cnt as int));
                    assert(self@.queues =~= old(self)@.queues.update(
                        i as int,
                        QueueView {
                            name: partition_name@,
                            tasks: old(self)@.queues[i as int].tasks.skip(cnt as int),
                        },
                    ));
                    assert(queue_names(self@.queues) =~= queue_names(old(self)@.queues));
                    assert forall|k: int| 0 <= k < self.queues@.len() implies (
                    #[trigger] self.queues@[k]).wf() by {
                        if k != i {
                            assert(self.queues@[k] == before[k]);
                        } else {
                            assert(before[k].wf());
                            assert forall|m: int|
                                0 <= m < self.queues@[k].tasks@.len() implies (
                            #[trigger] self.queues@[k].tasks@[m]).wf() by {
                                assert(self.queues@[k].tasks@[m] == before[k].tasks@[m + cnt]);
                            }
                        }
                    }
                }
            },
            None => {
                let ghost name = partition_name@;
                self.queues.push(FlushQueue { name: partition_name, tasks: Vec::with_capacity(10) });
                proof {
                    assert(task_views(Seq::<Arc<Task>>::empty()) =~= Seq::empty());
                    assert(self@.queues =~= old(self)@.queues.push(
                        QueueView { name, tasks: Seq::empty() },
                    ));
                    let all = queue_names(self@.queues);
                    assert(all =~= queue_names(old(self)@.queues).push(name));
                    assert forall|a: int, b: int|
                        0 <= a < all.len() && 0 <= b < all.len() && a != b implies all[a]
                        != all[b] by {
                        if a < before.len() {
                            assert(before[a].name_view() != name);
                        }
                        if b < before.len() {
                            assert(before[b].name_view() != name);
                        }
                    }
                    assert forall|k: int| 0 <= k < self.queues@.len() implies (
                    #[trigger] self.queues@[k]).wf() by {
                        if k < before.len() {
                            assert(self.queues@[k] == before[k]);
                        }
                    }
                }
            },
        }
    }
}

} // verus!
