use fjall::compaction::manager::CompactionManager;
use fjall::error::StorageError;
use fjall::journal::record::{encode, JournalRecord, JOURNAL_VERSION};
use fjall::partition::WriteOutcome;
use fjall::recovery::read_shard;
use fjall::value::Value;
use fjall::{Config, Error, Keyspace, PartitionCreateOptions, PartitionHandle, ValueType};

/// What would stand on disk: the journals and the segments.
struct Disk {
    active: Vec<u8>,
    sealed: Vec<(String, Vec<u8>)>,
    segments: Vec<(String, String, Vec<Value>)>,
}

impl Disk {
    fn new() -> Self {
        Disk { active: vec![JOURNAL_VERSION], sealed: Vec::new(), segments: Vec::new() }
    }

    fn write(
        &mut self,
        keyspace: &mut Keyspace,
        p: &PartitionHandle,
        key: &[u8],
        value: Option<&[u8]>,
    ) {
        let record = JournalRecord {
            partition: p.name.clone(),
            key: key.to_vec(),
            value: value.unwrap_or(b"").to_vec(),
            value_type: if value.is_some() { ValueType::Value } else { ValueType::Tombstone },
            seqno: keyspace.instant(),
        };
        self.active.extend(encode(&record));
        let outcome = match value {
            Some(value) => p.insert(keyspace, key, value, Ok(())).unwrap(),
            None => p.remove(keyspace, key, Ok(())).unwrap(),
        };
        self.seal(&outcome);
    }

    fn seal(&mut self, outcome: &WriteOutcome) {
        for rotation in &outcome.rotations {
            let bytes = std::mem::replace(&mut self.active, vec![JOURNAL_VERSION]);
            self.sealed.push((rotation.journal_id.clone(), bytes));
        }
    }

    fn flush(&mut self, keyspace: &mut Keyspace) {
        for queue in keyspace.collect_flush_tasks(usize::MAX) {
            for task in &queue.tasks {
                let table = &task.sealed_memtable;
                let items = (0..table.len()).map(|i| table.item(i).duplicate()).collect();
                self.segments.push((queue.name.clone(), task.id.clone(), items));
            }
            let partition = PartitionHandle { name: queue.name.clone() };
            let outcome = keyspace.flush_completed(&partition, queue.tasks.len()).unwrap();
            assert_eq!(outcome.flushed, queue.tasks.len());
            for id in outcome.deleted_journals {
                let at = self.sealed.iter().position(|(sealed, _)| *sealed == id).unwrap();
                self.sealed.remove(at);
            }
        }
    }

    fn open(&self, names: &[&str]) -> Keyspace {
        let mut keyspace = Keyspace::create(Config::new(), 0);
        for name in names {
            keyspace.open_partition(name, PartitionCreateOptions::default()).unwrap();
        }
        for (partition, id, items) in &self.segments {
            let partition = PartitionHandle { name: partition.clone() };
            if keyspace.partition_exists(&partition.name) {
                keyspace.restore_segment(&partition, id.clone(), items).unwrap();
            }
        }
        for (id, bytes) in &self.sealed {
            keyspace.replay(&read_shard(bytes).unwrap().records).unwrap();
            keyspace.seal_replayed(id.clone());
        }
        keyspace.replay(&read_shard(&self.active).unwrap().records).unwrap();
        keyspace
    }
}

fn contents(keyspace: &Keyspace, name: &str) -> Vec<(Vec<u8>, Vec<u8>)> {
    PartitionHandle { name: name.to_string() }.iter(keyspace).unwrap().collect()
}

#[test]
fn reopened_keyspace_shows_what_was_written() {
    let mut disk = Disk::new();
    let mut keyspace = disk.open(&["a", "b"]);
    let a = PartitionHandle { name: "a".to_string() };
    let b = PartitionHandle { name: "b".to_string() };
    for round in 0..5u8 {
        for k in 0..20u8 {
            disk.write(&mut keyspace, &a, &[k], Some(&[round, k]));
            if k % 3 == round % 3 {
                disk.write(&mut keyspace, &b, &[k], Some(&[round]));
            } else {
                disk.write(&mut keyspace, &b, &[k], None);
            }
        }
        match round {
            0 => disk.seal(&a.rotate_memtable(&mut keyspace).unwrap()),
            1 => {
                disk.seal(&b.rotate_memtable(&mut keyspace).unwrap());
                disk.flush(&mut keyspace);
            }
            2 => disk.flush(&mut keyspace),
            3 => {
                disk.seal(&a.rotate_memtable(&mut keyspace).unwrap());
                disk.seal(&b.rotate_memtable(&mut keyspace).unwrap());
            }
            _ => {}
        }
        let reopened = disk.open(&["a", "b"]);
        assert_eq!(contents(&reopened, "a"), contents(&keyspace, "a"), "round {round}");
        assert_eq!(contents(&reopened, "b"), contents(&keyspace, "b"), "round {round}");
        assert_eq!(reopened.instant(), keyspace.instant());
        assert_eq!(reopened.journal_size(), keyspace.journal_size());
        // Reopening twice gives the same.
        let again = disk.open(&["a", "b"]);
        assert_eq!(contents(&again, "a"), contents(&reopened, "a"));
        assert_eq!(again.instant(), reopened.instant());
    }
    assert_eq!(contents(&keyspace, "a").len(), 20);
    assert!(!disk.segments.is_empty());
    assert!(!disk.sealed.is_empty());
}

#[test]
fn sealed_journals_are_queued_for_flush_on_reopen() {
    let mut disk = Disk::new();
    let mut keyspace = disk.open(&["a", "b"]);
    let a = PartitionHandle { name: "a".to_string() };
    let b = PartitionHandle { name: "b".to_string() };
    disk.write(&mut keyspace, &a, b"k", Some(b"v"));
    disk.write(&mut keyspace, &b, b"k", Some(b"v"));
    disk.seal(&a.rotate_memtable(&mut keyspace).unwrap());
    disk.write(&mut keyspace, &a, b"l", Some(b"w"));

    let mut reopened = disk.open(&["a", "b"]);
    // Both memtables that the sealed journal had fed are sealed now.
    let tasks = reopened.collect_flush_tasks(10);
    assert_eq!(tasks.len(), 2);
    assert_eq!(tasks[0].name, "a");
    assert_eq!(tasks[1].name, "b");
    assert_eq!(reopened.journal_size(), keyspace.journal_size());
    // Once both are flushed the journal can go.
    assert!(reopened.flush_completed(&a, 1).unwrap().deleted_journals.is_empty());
    assert_eq!(
        reopened.flush_completed(&b, 1).unwrap().deleted_journals,
        vec![disk.sealed[0].0.clone()]
    );
    assert_eq!(a.get(&reopened, b"l").unwrap(), Some(b"w".to_vec()));
    assert_eq!(a.get(&reopened, b"k").unwrap(), Some(b"v".to_vec()));
}

#[test]
fn torn_tail_is_dropped() {
    let mut disk = Disk::new();
    let mut keyspace = disk.open(&["p"]);
    let p = PartitionHandle { name: "p".to_string() };
    disk.write(&mut keyspace, &p, b"a", Some(b"1"));
    disk.write(&mut keyspace, &p, b"b", Some(b"2"));
    disk.active.pop();

    let mut reopened = disk.open(&["p"]);
    assert_eq!(contents(&reopened, "p"), vec![(b"a".to_vec(), b"1".to_vec())]);
    assert_eq!(reopened.instant(), 1);
    // The journal is cut back to its last whole record, and writes go on.
    let valid = read_shard(&disk.active).unwrap().valid_len;
    disk.active.truncate(valid);
    disk.write(&mut reopened, &p, b"c", Some(b"3"));
    let again = disk.open(&["p"]);
    assert_eq!(contents(&again, "p").len(), 2);
    assert_eq!(p.get(&again, b"c").unwrap(), Some(b"3".to_vec()));
    assert_eq!(p.get(&again, b"b").unwrap(), None);
}

#[test]
fn records_of_unknown_partitions_are_skipped() {
    let mut disk = Disk::new();
    let mut keyspace = disk.open(&["a", "gone"]);
    let a = PartitionHandle { name: "a".to_string() };
    let gone = PartitionHandle { name: "gone".to_string() };
    disk.write(&mut keyspace, &a, b"k", Some(b"v"));
    disk.write(&mut keyspace, &gone, b"k", Some(b"v"));
    let reopened = disk.open(&["a"]);
    assert_eq!(reopened.partition_count(), 1);
    assert_eq!(contents(&reopened, "a").len(), 1);
    // The sequence number moves past every record that was seen.
    assert_eq!(reopened.instant(), 2);
    assert_eq!(reopened.journal_size(), keyspace.journal_size());
}

#[test]
fn recovery_refuses_the_last_sequence_number() {
    let mut keyspace = Keyspace::create(Config::new(), 0);
    let p = keyspace.open_partition("p", PartitionCreateOptions::default()).unwrap();
    let record = |seqno| JournalRecord {
        partition: "p".to_string(),
        key: b"k".to_vec(),
        value: b"v".to_vec(),
        value_type: ValueType::Value,
        seqno,
    };
    let e = keyspace.replay(&vec![record(5), record(u64::MAX)]).unwrap_err();
    assert!(matches!(e, Error::Storage(StorageError::SeqNoExhausted)));
    assert_eq!(keyspace.instant(), 0);
    assert_eq!(p.len(&keyspace).unwrap(), 0);
    let items = vec![Value::new(b"k".to_vec(), b"v".to_vec(), u64::MAX, ValueType::Value)];
    let e = keyspace.restore_segment(&p, "id".to_string(), &items).unwrap_err();
    assert!(matches!(e, Error::Storage(StorageError::SeqNoExhausted)));
    let missing = PartitionHandle { name: "q".to_string() };
    let e = keyspace.restore_segment(&missing, "id".to_string(), &Vec::new()).unwrap_err();
    assert!(matches!(e, Error::Storage(StorageError::PartitionNotFound)));

    keyspace.replay(&vec![record(5), record(3)]).unwrap();
    assert_eq!(keyspace.instant(), 6);
    let items = vec![Value::new(b"j".to_vec(), b"v".to_vec(), 9, ValueType::Value)];
    keyspace.restore_segment(&p, "id".to_string(), &items).unwrap();
    assert_eq!(keyspace.instant(), 10);
    assert_eq!(p.len(&keyspace).unwrap(), 2);
    assert_eq!(p.segment_count(&keyspace).unwrap(), 1);
    // A segment without items is left out.
    keyspace.restore_segment(&p, "empty".to_string(), &Vec::new()).unwrap();
    assert_eq!(p.segment_count(&keyspace).unwrap(), 1);
}

#[test]
fn compaction_manager_queues_notifications() {
    let mut manager = CompactionManager::new();
    let semaphore = manager.handle();
    assert!(manager.pop().is_none());
    manager.notify(PartitionHandle { name: "a".to_string() });
    manager.notify(PartitionHandle { name: "b".to_string() });
    manager.notify(PartitionHandle { name: "a".to_string() });
    assert_eq!(manager.len(), 3);
    // Each notification released the semaphore once.
    semaphore.acquire();
    semaphore.acquire();
    semaphore.acquire();
    manager.remove_partition(&"a".to_string());
    assert_eq!(manager.len(), 1);
    assert_eq!(manager.pop().unwrap().name, "b");
    assert!(manager.pop().is_none());
}

#[test]
fn flush_notifies_compaction() {
    let mut keyspace = Keyspace::create(Config::new(), 0);
    let p = keyspace.open_partition("p", PartitionCreateOptions::default()).unwrap();
    p.insert(&mut keyspace, b"k", b"v", Ok(())).unwrap();
    p.rotate_memtable(&mut keyspace).unwrap();
    keyspace.flush_completed(&p, 1).unwrap();
    keyspace.compaction_semaphore().acquire();
    keyspace.flush_semaphore().acquire();
}

#[test]
fn replayed_seals_wake_flush_workers() {
    let mut disk = Disk::new();
    let mut keyspace = disk.open(&["a", "b"]);
    let a = PartitionHandle { name: "a".to_string() };
    let b = PartitionHandle { name: "b".to_string() };
    disk.write(&mut keyspace, &a, b"k", Some(b"1"));
    disk.write(&mut keyspace, &b, b"k", Some(b"2"));
    disk.seal(&a.rotate_memtable(&mut keyspace).unwrap());

    // The sealed journal holds a write of each partition: the replay seals
    // two memtables and releases the flush semaphore for each.
    let reopened = disk.open(&["a", "b"]);
    assert_eq!(reopened.collect_flush_tasks(10).len(), 2);
    let semaphore = reopened.flush_semaphore();
    semaphore.acquire();
    semaphore.acquire();
    // The replay wakes no compaction worker; a flush then wakes one.
    let mut reopened = reopened;
    reopened.flush_completed(&a, 1).unwrap();
    reopened.compaction_semaphore().acquire();
}

#[test]
fn flush_moves_the_partition_to_the_end_of_the_rotations() {
    let mut keyspace = Keyspace::create(Config::new().max_journaling_size(300), 0);
    let a = keyspace.open_partition("a", PartitionCreateOptions::default()).unwrap();
    let b = keyspace.open_partition("b", PartitionCreateOptions::default()).unwrap();
    // Neither partition has a sealed memtable: the flushes take nothing off
    // the queues, and still list the partitions for rotation.
    assert_eq!(keyspace.flush_completed(&a, 0).unwrap().flushed, 0);
    assert_eq!(keyspace.flush_completed(&b, 0).unwrap().flushed, 0);
    assert_eq!(keyspace.flush_completed(&a, 0).unwrap().flushed, 0);
    // The list is b, a.
    a.insert(&mut keyspace, b"k", b"v", Ok(())).unwrap();
    b.insert(&mut keyspace, b"k", b"v", Ok(())).unwrap();
    let outcome = a.insert(&mut keyspace, b"big", &[0; 300], Ok(())).unwrap();
    assert!(outcome.rotations.is_empty());
    assert!(keyspace.over_limit());

    // The halt rotates the partition that has waited longest, then the other.
    let outcome = keyspace.check_write_halt();
    assert!(outcome.halted);
    let rotated: Vec<&str> = outcome.rotations.iter().map(|r| r.partition.as_str()).collect();
    assert_eq!(rotated, vec!["b", "a"]);
    // Each rotation woke a flush worker.
    let semaphore = keyspace.flush_semaphore();
    semaphore.acquire();
    semaphore.acquire();
}
