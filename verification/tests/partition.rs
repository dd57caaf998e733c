use fjall::config::CompactionStrategy;
use fjall::error::StorageError;
use fjall::partition::{check_name, PartitionHandleInner, STALL_SEGMENTS};
use fjall::range::{Bound, Selection};
use fjall::{Config, Error, Keyspace, PartitionCreateOptions, PartitionHandle, ValueType};

fn keyspace() -> (Keyspace, PartitionHandle) {
    let mut keyspace = Keyspace::create(Config::new(), 0);
    let p = keyspace.open_partition("p", PartitionCreateOptions::default()).unwrap();
    (keyspace, p)
}

fn pair(key: &[u8], value: &[u8]) -> (Vec<u8>, Vec<u8>) {
    (key.to_vec(), value.to_vec())
}

fn is_storage(e: &Error, kind: StorageError) -> bool {
    matches!(e, Error::Storage(k) if *k == kind)
}

#[test]
fn basic_round_trip() {
    let (mut keyspace, p) = keyspace();
    p.insert(&mut keyspace, b"a", b"1", Ok(())).unwrap();
    p.insert(&mut keyspace, b"b", b"2", Ok(())).unwrap();
    p.insert(&mut keyspace, b"c", b"3", Ok(())).unwrap();

    assert_eq!(p.get(&keyspace, b"b").unwrap(), Some(b"2".to_vec()));
    assert_eq!(p.len(&keyspace).unwrap(), 3);
    assert_eq!(p.first_key_value(&keyspace).unwrap(), Some(pair(b"a", b"1")));
    assert_eq!(p.last_key_value(&keyspace).unwrap(), Some(pair(b"c", b"3")));
    assert!(!p.is_empty(&keyspace).unwrap());
    assert!(p.contains_key(&keyspace, b"a").unwrap());
    assert!(!p.contains_key(&keyspace, b"d").unwrap());
    assert_eq!(keyspace.instant(), 3);
}

#[test]
fn empty_partition_reads() {
    let (keyspace, p) = keyspace();
    assert!(p.is_empty(&keyspace).unwrap());
    assert_eq!(p.len(&keyspace).unwrap(), 0);
    assert_eq!(p.get(&keyspace, b"a").unwrap(), None);
    assert_eq!(p.first_key_value(&keyspace).unwrap(), None);
    assert_eq!(p.last_key_value(&keyspace).unwrap(), None);
    assert_eq!(p.iter(&keyspace).unwrap().collect(), vec![]);
    assert_eq!(p.approximate_len(&keyspace).unwrap(), 0);
    assert_eq!(p.disk_space(&keyspace).unwrap(), 0);
    assert_eq!(p.segment_count(&keyspace).unwrap(), 0);
}

#[test]
fn insert_overwrites_and_remove_shadows() {
    let (mut keyspace, p) = keyspace();
    p.insert(&mut keyspace, b"k", b"v", Ok(())).unwrap();
    assert_eq!(p.get(&keyspace, b"k").unwrap(), Some(b"v".to_vec()));
    p.insert(&mut keyspace, b"k", b"w", Ok(())).unwrap();
    assert_eq!(p.get(&keyspace, b"k").unwrap(), Some(b"w".to_vec()));
    assert_eq!(p.len(&keyspace).unwrap(), 1);
    p.remove(&mut keyspace, b"k", Ok(())).unwrap();
    assert_eq!(p.get(&keyspace, b"k").unwrap(), None);
    assert_eq!(p.len(&keyspace).unwrap(), 0);
    assert!(p.is_empty(&keyspace).unwrap());
    // Three versions are held, though none is visible.
    assert_eq!(p.approximate_len(&keyspace).unwrap(), 3);
    p.insert(&mut keyspace, b"k", b"x", Ok(())).unwrap();
    assert_eq!(p.get(&keyspace, b"k").unwrap(), Some(b"x".to_vec()));
}

#[test]
fn tombstone_shadows_across_rotation_and_flush() {
    let (mut keyspace, p) = keyspace();
    p.insert(&mut keyspace, b"k", b"v", Ok(())).unwrap();
    let outcome = p.rotate_memtable(&mut keyspace).unwrap();
    assert_eq!(outcome.rotations.len(), 1);
    assert_eq!(p.get(&keyspace, b"k").unwrap(), Some(b"v".to_vec()));
    p.remove(&mut keyspace, b"k", Ok(())).unwrap();
    assert_eq!(p.get(&keyspace, b"k").unwrap(), None);
    p.rotate_memtable(&mut keyspace).unwrap();
    assert_eq!(p.get(&keyspace, b"k").unwrap(), None);
    let flushed = keyspace.flush_completed(&p, 1).unwrap();
    assert_eq!(flushed.flushed, 1);
    assert_eq!(p.segment_count(&keyspace).unwrap(), 1);
    assert_eq!(p.get(&keyspace, b"k").unwrap(), None);
    keyspace.flush_completed(&p, 5).unwrap();
    assert_eq!(p.segment_count(&keyspace).unwrap(), 2);
    assert_eq!(p.get(&keyspace, b"k").unwrap(), None);
    assert_eq!(p.len(&keyspace).unwrap(), 0);
}

#[test]
fn len_counts_keys_whose_newest_version_is_a_value() {
    let (mut keyspace, p) = keyspace();
    for round in 0..4u8 {
        for k in 0..10u8 {
            p.insert(&mut keyspace, &[k], &[round], Ok(())).unwrap();
        }
        p.remove(&mut keyspace, &[round], Ok(())).unwrap();
        p.rotate_memtable(&mut keyspace).unwrap();
        if round % 2 == 1 {
            keyspace.flush_completed(&p, 1).unwrap();
        }
    }
    // Key 3 was removed last and not written again; 0, 1 and 2 were.
    assert_eq!(p.len(&keyspace).unwrap(), 9);
    assert_eq!(p.get(&keyspace, &[3]).unwrap(), None);
    assert_eq!(p.get(&keyspace, &[0]).unwrap(), Some(vec![3]));
    assert_eq!(p.iter(&keyspace).unwrap().len(), 9);
}

#[test]
fn iter_forward_and_backward_agree() {
    let (mut keyspace, p) = keyspace();
    for k in [5u8, 1, 9, 3, 7] {
        p.insert(&mut keyspace, &[k], &[k + 100], Ok(())).unwrap();
    }
    p.rotate_memtable(&mut keyspace).unwrap();
    p.insert(&mut keyspace, &[4], &[0], Ok(())).unwrap();
    p.remove(&mut keyspace, &[9], Ok(())).unwrap();

    let forward = p.iter(&keyspace).unwrap().collect();
    let keys: Vec<u8> = forward.iter().map(|(k, _)| k[0]).collect();
    assert_eq!(keys, vec![1, 3, 4, 5, 7]);
    let mut backward = p.iter(&keyspace).unwrap().collect_rev();
    backward.reverse();
    assert_eq!(forward, backward);

    let mut range = p.iter(&keyspace).unwrap();
    assert_eq!(range.next().unwrap().0, vec![1]);
    assert_eq!(range.next_back().unwrap().0, vec![7]);
    assert_eq!(range.next_back().unwrap().0, vec![5]);
    assert_eq!(range.len(), 2);
    assert_eq!(range.next().unwrap().0, vec![3]);
    assert_eq!(range.next().unwrap().0, vec![4]);
    assert!(range.next().is_none());
    assert!(range.next_back().is_none());
}

#[test]
fn range_and_prefix_select_keys() {
    let (mut keyspace, p) = keyspace();
    for key in ["a", "ab", "abc", "b", "f", "g"] {
        p.insert(&mut keyspace, key.as_bytes(), b"abc", Ok(())).unwrap();
    }
    let count = |start: Bound, end: Bound| p.range(&keyspace, start, end).unwrap().len();
    assert_eq!(count(Bound::Included(b"a".to_vec()), Bound::Included(b"f".to_vec())), 5);
    assert_eq!(count(Bound::Excluded(b"a".to_vec()), Bound::Excluded(b"f".to_vec())), 3);
    assert_eq!(count(Bound::Unbounded, Bound::Excluded(b"ab".to_vec())), 1);
    assert_eq!(count(Bound::Included(b"c".to_vec()), Bound::Unbounded), 2);
    assert_eq!(count(Bound::Included(b"z".to_vec()), Bound::Included(b"a".to_vec())), 0);
    assert_eq!(count(Bound::Unbounded, Bound::Unbounded), 6);

    assert_eq!(p.prefix(&keyspace, b"ab").unwrap().len(), 2);
    assert_eq!(p.prefix(&keyspace, b"").unwrap().len(), 6);
    assert_eq!(p.prefix(&keyspace, b"abcd").unwrap().len(), 0);
    let keys: Vec<Vec<u8>> =
        p.prefix(&keyspace, b"a").unwrap().collect().into_iter().map(|(k, _)| k).collect();
    assert_eq!(keys, vec![b"a".to_vec(), b"ab".to_vec(), b"abc".to_vec()]);

    let selection = Selection {
        start: Bound::Excluded(b"a".to_vec()),
        end: Bound::Unbounded,
        prefix: b"a".to_vec(),
    };
    assert!(selection.contains(b"ab"));
    assert!(!selection.contains(b"a"));
    assert!(!selection.contains(b"b"));
    assert_eq!(p.select(&keyspace, &selection).unwrap().len(), 2);
}

#[test]
fn partitions_are_independent() {
    let mut keyspace = Keyspace::create(Config::new(), 0);
    let a = keyspace.open_partition("a", PartitionCreateOptions::default()).unwrap();
    let b = keyspace.open_partition("b", PartitionCreateOptions::default()).unwrap();
    a.insert(&mut keyspace, b"k", b"in a", Ok(())).unwrap();
    b.insert(&mut keyspace, b"k", b"in b", Ok(())).unwrap();
    a.remove(&mut keyspace, b"k", Ok(())).unwrap();
    assert_eq!(a.get(&keyspace, b"k").unwrap(), None);
    assert_eq!(b.get(&keyspace, b"k").unwrap(), Some(b"in b".to_vec()));
    assert_eq!(keyspace.partition_count(), 2);
    // Opening again hands out the partition that is there.
    let again = keyspace.open_partition("b", PartitionCreateOptions::default()).unwrap();
    assert_eq!(keyspace.partition_count(), 2);
    assert_eq!(again.get(&keyspace, b"k").unwrap(), Some(b"in b".to_vec()));
    assert!(keyspace.partition_exists("a"));
    assert!(!keyspace.partition_exists("c"));
}

#[test]
fn partition_names() {
    assert!(check_name("default"));
    assert!(check_name("a b-c_d~!"));
    assert!(check_name(&"x".repeat(255)));
    assert!(!check_name(""));
    assert!(!check_name(&"x".repeat(256)));
    assert!(!check_name("tab\there"));
    assert!(!check_name("é"));
    let mut keyspace = Keyspace::create(Config::new(), 0);
    let e = keyspace.open_partition("", PartitionCreateOptions::default()).unwrap_err();
    assert!(is_storage(&e, StorageError::InvalidPartitionName));
    assert_eq!(keyspace.partition_count(), 0);
}

#[test]
fn deleted_partition_is_not_found() {
    let (mut keyspace, p) = keyspace();
    p.insert(&mut keyspace, b"k", b"v", Ok(())).unwrap();
    p.rotate_memtable(&mut keyspace).unwrap();
    let deleted = keyspace.delete_partition(p.clone()).unwrap();
    // The journal that was sealed for the rotation is needed by nobody else.
    assert_eq!(deleted.len(), 1);
    assert_eq!(keyspace.partition_count(), 0);
    assert_eq!(keyspace.collect_flush_tasks(10).len(), 0);

    let not_found = StorageError::PartitionNotFound;
    assert!(is_storage(&p.get(&keyspace, b"k").unwrap_err(), not_found));
    assert!(is_storage(&p.len(&keyspace).unwrap_err(), not_found));
    assert!(is_storage(&p.iter(&keyspace).unwrap_err(), not_found));
    assert!(is_storage(&p.insert(&mut keyspace, b"k", b"v", Ok(())).unwrap_err(), not_found));
    assert!(is_storage(&p.remove(&mut keyspace, b"k", Ok(())).unwrap_err(), not_found));
    assert!(is_storage(&p.rotate_memtable(&mut keyspace).unwrap_err(), not_found));
    assert!(is_storage(&p.check_write_stall(&mut keyspace).unwrap_err(), not_found));
    assert!(is_storage(&p.snapshot(&keyspace).unwrap_err(), not_found));
    assert!(is_storage(&keyspace.flush_completed(&p, 1).unwrap_err(), not_found));
    assert!(is_storage(&keyspace.delete_partition(p.clone()).unwrap_err(), not_found));
    // Nothing was written: the sequence number is where it was.
    assert_eq!(keyspace.instant(), 1);
}

#[test]
fn failed_journal_write_leaves_memtable_untouched() {
    let (mut keyspace, p) = keyspace();
    let failure = std::io::Error::new(std::io::ErrorKind::Other, "disk full");
    let e = p.insert(&mut keyspace, b"k", b"v", Err(failure)).unwrap_err();
    match e {
        Error::Io(inner) => assert_eq!(inner.to_string(), "disk full"),
        other => panic!("unexpected {other:?}"),
    }
    assert_eq!(p.get(&keyspace, b"k").unwrap(), None);
    assert_eq!(p.approximate_len(&keyspace).unwrap(), 0);
    assert_eq!(keyspace.journal_size(), 0);
    // The sequence number of the failed write is used up.
    assert_eq!(keyspace.instant(), 1);
}

#[test]
fn sequence_numbers_run_out() {
    let mut keyspace = Keyspace::create(Config::new(), u64::MAX - 1);
    let p = keyspace.open_partition("p", PartitionCreateOptions::default()).unwrap();
    let record = p.journal_record(&keyspace, b"a", b"1", ValueType::Value).unwrap();
    assert_eq!(record.seqno, u64::MAX - 1);
    assert_eq!(record.partition, "p");
    assert_eq!(record.key, b"a");
    assert_eq!(record.value, b"1");
    p.insert(&mut keyspace, b"a", b"1", Ok(())).unwrap();
    assert_eq!(keyspace.instant(), u64::MAX);
    let e = p.journal_record(&keyspace, b"b", b"2", ValueType::Value).unwrap_err();
    assert!(is_storage(&e, StorageError::SeqNoExhausted));
    let missing = PartitionHandle { name: "q".to_string() };
    let e = missing.journal_record(&keyspace, b"b", b"2", ValueType::Tombstone).unwrap_err();
    assert!(is_storage(&e, StorageError::PartitionNotFound));
    let e = p.insert(&mut keyspace, b"b", b"2", Ok(())).unwrap_err();
    assert!(is_storage(&e, StorageError::SeqNoExhausted));
    assert_eq!(p.len(&keyspace).unwrap(), 1);
}

#[test]
fn memtable_overflow_rotates() {
    let mut keyspace = Keyspace::create(Config::new(), 0);
    let options = PartitionCreateOptions::default().max_memtable_size(100);
    let p = keyspace.open_partition("p", options).unwrap();
    // Each item counts for 1 + 40 + 9 bytes.
    let first = p.insert(&mut keyspace, b"a", &[0; 40], Ok(())).unwrap();
    assert!(first.rotations.is_empty());
    let second = p.insert(&mut keyspace, b"b", &[0; 40], Ok(())).unwrap();
    assert!(second.rotations.is_empty());
    assert_eq!(keyspace.collect_flush_tasks(10).len(), 0);
    let third = p.insert(&mut keyspace, b"c", &[0; 40], Ok(())).unwrap();
    assert_eq!(third.rotations.len(), 1);
    assert_eq!(third.rotations[0].partition, "p");
    assert_ne!(third.rotations[0].memtable_id, third.rotations[0].journal_id);
    assert!(!third.halted);
    assert!(!third.stalled);
    assert_eq!(third.throttle_millis, 0);

    let tasks = keyspace.collect_flush_tasks(10);
    assert_eq!(tasks.len(), 1);
    assert_eq!(tasks[0].tasks[0].id, third.rotations[0].memtable_id);
    assert_eq!(tasks[0].tasks[0].sealed_memtable.len(), 3);
    // The flush worker was woken once.
    keyspace.flush_semaphore().acquire();
    assert_eq!(p.len(&keyspace).unwrap(), 3);
    // A fourth item starts a new memtable.
    let fourth = p.insert(&mut keyspace, b"d", &[0; 40], Ok(())).unwrap();
    assert!(fourth.rotations.is_empty());
}

#[test]
fn rotation_of_empty_memtable_does_nothing() {
    let (mut keyspace, p) = keyspace();
    let outcome = p.rotate_memtable(&mut keyspace).unwrap();
    assert!(outcome.rotations.is_empty());
    assert!(!outcome.halted);
    assert_eq!(keyspace.collect_flush_tasks(10).len(), 0);
    p.insert(&mut keyspace, b"k", b"v", Ok(())).unwrap();
    assert_eq!(p.rotate_memtable(&mut keyspace).unwrap().rotations.len(), 1);
    assert!(p.rotate_memtable(&mut keyspace).unwrap().rotations.is_empty());
}

#[test]
fn congested_first_level_slows_writers_down() {
    let (mut keyspace, p) = keyspace();
    let mut segments = 0;
    let mut write = |keyspace: &mut Keyspace, expected_millis: u64, expected_stall: bool| {
        let outcome = p.insert(keyspace, b"k", b"v", Ok(())).unwrap();
        assert_eq!(outcome.throttle_millis, expected_millis, "with {segments} segments");
        assert_eq!(p.check_write_stall(keyspace).unwrap(), expected_stall);
        p.rotate_memtable(keyspace).unwrap();
        keyspace.flush_completed(&p, 1).unwrap();
        segments += 1;
    };
    for _ in 0..=16 {
        write(&mut keyspace, 0, false);
    }
    // 17 and 18 segments: a short pause.
    write(&mut keyspace, 100, false);
    write(&mut keyspace, 100, false);
    // 19 and 20 segments: a longer one.
    write(&mut keyspace, 500, false);
    write(&mut keyspace, 500, false);
    // 21 segments: writers wait for the compaction.
    assert_eq!(p.segment_count(&keyspace).unwrap(), STALL_SEGMENTS + 1);
    write(&mut keyspace, 500, true);
}

#[test]
fn overflow_check_reports_stall_after_rotation() {
    let mut keyspace = Keyspace::create(Config::new(), 0);
    let options = PartitionCreateOptions::default().max_memtable_size(0);
    let p = keyspace.open_partition("p", options).unwrap();
    let q = keyspace.open_partition("q", PartitionCreateOptions::default()).unwrap();
    for _ in 0..21 {
        q.insert(&mut keyspace, b"k", b"v", Ok(())).unwrap();
        q.rotate_memtable(&mut keyspace).unwrap();
        keyspace.flush_completed(&q, 1).unwrap();
    }
    // "q" is congested; a write to "p" that rotates has to wait for it.
    let outcome = p.insert(&mut keyspace, b"k", b"v", Ok(())).unwrap();
    assert_eq!(outcome.rotations.len(), 1);
    assert!(outcome.stalled);
    assert_eq!(outcome.throttle_millis, 0);
    // A check without an overflow does not look at the other partitions.
    let outcome = p.check_memtable_overflow(&mut keyspace, 0).unwrap();
    assert!(outcome.rotations.is_empty());
    assert!(!outcome.stalled);
}

#[test]
fn create_new_makes_an_empty_partition() {
    let options = PartitionCreateOptions::default()
        .block_size(1024)
        .level_count(4)
        .level_ratio(2)
        .compaction_strategy(CompactionStrategy::Tiered);
    let e = PartitionHandleInner::create_new("one\nline".to_string(), options).err().unwrap();
    assert!(is_storage(&e, StorageError::InvalidPartitionName));
    let inner = PartitionHandleInner::create_new("p".to_string(), options).unwrap();
    assert_eq!(inner.name, "p");
    assert_eq!(inner.config.max_memtable_size, 8 * 1024 * 1024);
    assert_eq!(inner.config.block_size, 1024);
    assert_eq!(inner.config.level_count, 4);
    assert_eq!(inner.config.level_ratio, 2);
    assert_eq!(inner.config.compaction_strategy, CompactionStrategy::Tiered);
    assert_eq!(inner.tree.segment_count(), 0);
    assert_eq!(inner.tree.get_memtable_lsn(), None);
    let defaults = PartitionCreateOptions::default();
    assert_eq!(defaults.block_size, 4096);
    assert_eq!(defaults.level_count, 7);
    assert_eq!(defaults.level_ratio, 8);
    assert_eq!(defaults.compaction_strategy, CompactionStrategy::Leveled);
    assert_eq!(Config::default().max_journaling_size_in_bytes, 128 * 1024 * 1024);
}
