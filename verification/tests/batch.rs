use fjall::error::StorageError;
use fjall::{Batch, Config, Error, Keyspace, PartitionCreateOptions, PartitionHandle, ValueType};

fn keyspace() -> (Keyspace, PartitionHandle, PartitionHandle) {
    let mut keyspace = Keyspace::create(Config::new(), 10);
    let a = keyspace.open_partition("a", PartitionCreateOptions::default()).unwrap();
    let b = keyspace.open_partition("b", PartitionCreateOptions::default()).unwrap();
    (keyspace, a, b)
}

#[test]
fn batch_is_applied_with_contiguous_sequence_numbers() {
    let (mut keyspace, a, b) = keyspace();
    a.insert(&mut keyspace, b"old", b"x", Ok(())).unwrap();
    let mut batch = keyspace.batch();
    assert!(batch.is_empty());
    batch.insert(&a, b"k1", b"v1");
    batch.insert(&b, b"k2", b"v2");
    batch.remove(&a, b"old");
    batch.insert(&a, b"k1", b"v1 again");
    assert_eq!(batch.len(), 4);
    assert_eq!(batch.partitions(), vec!["a".to_string(), "b".to_string()]);

    let records = batch.journal_records(&keyspace).unwrap();
    let seqnos: Vec<u64> = records.iter().map(|r| r.seqno).collect();
    assert_eq!(seqnos, vec![11, 12, 13, 14]);
    assert_eq!(records[1].partition, "b");
    assert_eq!(records[2].value_type, ValueType::Tombstone);
    assert_eq!(records[3].value, b"v1 again");

    let outcome = batch.commit(&mut keyspace, Ok(())).unwrap();
    assert_eq!(outcome.partitions, vec!["a".to_string(), "b".to_string()]);
    assert_eq!(outcome.outcomes.len(), 2);
    assert!(outcome.outcomes.iter().all(|o| o.rotations.is_empty() && !o.halted && !o.stalled));
    assert_eq!(keyspace.instant(), 15);
    assert_eq!(a.get(&keyspace, b"k1").unwrap(), Some(b"v1 again".to_vec()));
    assert_eq!(a.get(&keyspace, b"old").unwrap(), None);
    assert_eq!(b.get(&keyspace, b"k2").unwrap(), Some(b"v2".to_vec()));
    // The first write of the batch can still be read at its sequence number.
    let tree = &keyspace;
    assert_eq!(a.snapshot(tree).unwrap().seqno(), 15);
}

#[test]
fn batch_fails_as_a_whole() {
    let (mut keyspace, a, b) = keyspace();
    let mut batch = Batch::new();
    batch.insert(&a, b"k1", b"v1");
    batch.insert(&b, b"k2", b"v2");
    let failure = std::io::Error::new(std::io::ErrorKind::Other, "no space");
    assert!(matches!(batch.commit(&mut keyspace, Err(failure)), Err(Error::Io(_))));
    assert_eq!(a.len(&keyspace).unwrap(), 0);
    assert_eq!(b.len(&keyspace).unwrap(), 0);
    assert_eq!(keyspace.instant(), 12);
    assert_eq!(keyspace.journal_size(), 0);

    let mut batch = Batch::new();
    batch.insert(&a, b"k1", b"v1");
    batch.insert(&PartitionHandle { name: "missing".to_string() }, b"k2", b"v2");
    let e = batch.journal_records(&keyspace).unwrap_err();
    assert!(matches!(e, Error::Storage(StorageError::PartitionNotFound)));
    let e = batch.commit(&mut keyspace, Ok(())).unwrap_err();
    assert!(matches!(e, Error::Storage(StorageError::PartitionNotFound)));
    assert_eq!(a.len(&keyspace).unwrap(), 0);
    assert_eq!(keyspace.instant(), 12);
}

#[test]
fn batch_needs_enough_sequence_numbers() {
    let mut keyspace = Keyspace::create(Config::new(), u64::MAX - 1);
    let a = keyspace.open_partition("a", PartitionCreateOptions::default()).unwrap();
    let mut batch = Batch::new();
    batch.insert(&a, b"k1", b"v1");
    batch.insert(&a, b"k2", b"v2");
    assert!(batch.records(keyspace.instant()).is_none());
    let e = batch.journal_records(&keyspace).unwrap_err();
    assert!(matches!(e, Error::Storage(StorageError::SeqNoExhausted)));
    let e = batch.commit(&mut keyspace, Ok(())).unwrap_err();
    assert!(matches!(e, Error::Storage(StorageError::SeqNoExhausted)));
    assert_eq!(keyspace.instant(), u64::MAX - 1);
    let mut batch = Batch::new();
    batch.insert(&a, b"k1", b"v1");
    assert_eq!(batch.records(keyspace.instant()).unwrap().len(), 1);
    batch.commit(&mut keyspace, Ok(())).unwrap();
    assert_eq!(a.get(&keyspace, b"k1").unwrap(), Some(b"v1".to_vec()));
}

#[test]
fn empty_batch_changes_nothing() {
    let (mut keyspace, _, _) = keyspace();
    let failure = std::io::Error::new(std::io::ErrorKind::Other, "unused");
    let outcome = Batch::new().commit(&mut keyspace, Err(failure)).unwrap();
    assert!(outcome.partitions.is_empty());
    assert!(outcome.outcomes.is_empty());
    assert_eq!(keyspace.instant(), 10);
}

#[test]
fn batch_checks_each_partition_once_for_overflow() {
    let mut keyspace = Keyspace::create(Config::new(), 0);
    let small = PartitionCreateOptions::default().max_memtable_size(50);
    let a = keyspace.open_partition("a", small).unwrap();
    let b = keyspace.open_partition("b", PartitionCreateOptions::default()).unwrap();
    let mut batch = Batch::new();
    for k in 0..10u8 {
        batch.insert(&a, &[k], &[0; 20]);
        batch.insert(&b, &[k], &[0; 20]);
    }
    let outcome = batch.commit(&mut keyspace, Ok(())).unwrap();
    assert_eq!(outcome.outcomes[0].rotations.len(), 1);
    assert_eq!(outcome.outcomes[0].rotations[0].partition, "a");
    assert!(outcome.outcomes[1].rotations.is_empty());
    let tasks = keyspace.collect_flush_tasks(10);
    assert_eq!(tasks.len(), 1);
    assert_eq!(tasks[0].tasks[0].sealed_memtable.len(), 10);
    assert_eq!(a.len(&keyspace).unwrap(), 10);
    assert_eq!(b.len(&keyspace).unwrap(), 10);
}
