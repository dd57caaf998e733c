use fjall::flush::manager::{FlushManager, Task};
use fjall::memtable::MemTable;
use fjall::value::{Value, ValueType};
use fjall::PartitionHandle;
use std::sync::Arc;

fn handle(name: &str) -> PartitionHandle {
    PartitionHandle { name: name.to_string() }
}

fn task(partition: &str, id: &str) -> Task {
    let mut table = MemTable::new();
    table.insert(Value::new(b"k".to_vec(), b"v".to_vec(), 0, ValueType::Value));
    Task { id: id.to_string(), sealed_memtable: Arc::new(table), partition: handle(partition) }
}

fn ids(manager: &FlushManager, limit: usize) -> Vec<(String, Vec<String>)> {
    manager
        .collect_tasks(limit)
        .iter()
        .map(|q| (q.name.clone(), q.tasks.iter().map(|t| t.id.clone()).collect()))
        .collect()
}

#[test]
fn collect_walks_queues_up_to_limit() {
    let mut manager = FlushManager::default();
    manager.enqueue_task("a".to_string(), task("a", "a1"));
    manager.enqueue_task("b".to_string(), task("b", "b1"));
    manager.enqueue_task("a".to_string(), task("a", "a2"));
    manager.enqueue_task("a".to_string(), task("a", "a3"));

    assert_eq!(ids(&manager, 0), vec![]);
    assert_eq!(ids(&manager, 1), vec![("a".to_string(), vec!["a1".to_string()])]);
    assert_eq!(
        ids(&manager, 3),
        vec![("a".to_string(), vec!["a1".to_string(), "a2".to_string(), "a3".to_string()])]
    );
    assert_eq!(
        ids(&manager, 4),
        vec![
            ("a".to_string(), vec!["a1".to_string(), "a2".to_string(), "a3".to_string()]),
            ("b".to_string(), vec!["b1".to_string()]),
        ]
    );
    assert_eq!(ids(&manager, 100).len(), 2);
    // Collecting takes nothing off the queues.
    assert_eq!(manager.queued(&"a".to_string()), 3);
}

#[test]
fn dequeue_removes_oldest_tasks_and_refreshes_lru() {
    let mut manager = FlushManager::default();
    manager.enqueue_task("a".to_string(), task("a", "a1"));
    manager.enqueue_task("a".to_string(), task("a", "a2"));
    manager.enqueue_task("b".to_string(), task("b", "b1"));
    assert!(manager.get_least_recently_used_partition().is_none());

    manager.dequeue_tasks("a".to_string(), 1);
    assert_eq!(ids(&manager, 10)[0], ("a".to_string(), vec!["a2".to_string()]));
    manager.dequeue_tasks("b".to_string(), 1);
    assert_eq!(manager.queued(&"b".to_string()), 0);
    // A queue that was emptied yields no group.
    assert_eq!(ids(&manager, 10).len(), 1);

    // "a" was flushed first, so it has waited longest; asking moves it to the end.
    assert_eq!(manager.get_least_recently_used_partition().unwrap().name, "a");
    assert_eq!(manager.get_least_recently_used_partition().unwrap().name, "b");
    assert_eq!(manager.get_least_recently_used_partition().unwrap().name, "a");

    // A flush of "a" moves it behind "b"; the list is now b, a.
    manager.dequeue_tasks("a".to_string(), 1);
    assert_eq!(manager.get_least_recently_used_partition().unwrap().name, "b");
}

#[test]
fn dequeue_of_unknown_partition_makes_an_empty_queue() {
    let mut manager = FlushManager::default();
    manager.dequeue_tasks("x".to_string(), 0);
    assert_eq!(manager.queued(&"x".to_string()), 0);
    assert_eq!(ids(&manager, 10), vec![]);
    // The partition is listed for rotation all the same.
    assert_eq!(manager.get_least_recently_used_partition().unwrap().name, "x");
}

#[test]
fn dequeue_refreshes_the_named_partition_whatever_its_queue_holds() {
    let mut manager = FlushManager::default();
    manager.dequeue_tasks("p".to_string(), 0);
    manager.dequeue_tasks("q".to_string(), 0);
    manager.dequeue_tasks("r".to_string(), 0);
    // The list is p, q, r. The queue of "p" is empty; a dequeue moves "p" to the end.
    manager.dequeue_tasks("p".to_string(), 0);
    assert_eq!(manager.get_least_recently_used_partition().unwrap().name, "q");
    assert_eq!(manager.get_least_recently_used_partition().unwrap().name, "r");
    assert_eq!(manager.get_least_recently_used_partition().unwrap().name, "p");
    assert_eq!(manager.get_least_recently_used_partition().unwrap().name, "q");

    // The list is r, p, q. A task in the queue of "r" that carries the handle of
    // "q": the dequeue refreshes "r", the partition that was named.
    manager.enqueue_task("r".to_string(), task("q", "r1"));
    manager.dequeue_tasks("r".to_string(), 1);
    assert_eq!(manager.queued(&"r".to_string()), 0);
    assert_eq!(manager.get_least_recently_used_partition().unwrap().name, "p");
    assert_eq!(manager.get_least_recently_used_partition().unwrap().name, "q");
    assert_eq!(manager.get_least_recently_used_partition().unwrap().name, "r");
}

#[test]
fn remove_partition_erases_queue_and_lru_entry() {
    let mut manager = FlushManager::default();
    manager.enqueue_task("a".to_string(), task("a", "a1"));
    manager.enqueue_task("b".to_string(), task("b", "b1"));
    manager.dequeue_tasks("a".to_string(), 0);
    manager.dequeue_tasks("b".to_string(), 0);
    manager.remove_partition(&"a".to_string());
    assert_eq!(manager.queued(&"a".to_string()), 0);
    assert_eq!(ids(&manager, 10), vec![("b".to_string(), vec!["b1".to_string()])]);
    assert_eq!(manager.get_least_recently_used_partition().unwrap().name, "b");
    assert_eq!(manager.get_least_recently_used_partition().unwrap().name, "b");
}
