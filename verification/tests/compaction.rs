use fjall::directory::{directory_of, partition_of};
use fjall::error::StorageError;
use fjall::journal::order::{lowest_seqno, sort_journals, SealedJournal};
use fjall::journal::record::JournalRecord;
use fjall::partition::STALL_SEGMENTS;
use fjall::{Config, Error, Keyspace, PartitionCreateOptions, PartitionHandle, ValueType};
use std::collections::hash_map::DefaultHasher;
use std::hash::{Hash, Hasher};

fn flushed(keyspace: &mut Keyspace, p: &PartitionHandle, key: &[u8], value: &[u8]) -> String {
    p.insert(keyspace, key, value, Ok(())).unwrap();
    let outcome = p.rotate_memtable(keyspace).unwrap();
    keyspace.flush_completed(p, 1).unwrap();
    outcome.rotations[0].memtable_id.clone()
}

fn hash_of(handle: &PartitionHandle) -> u64 {
    let mut hasher = DefaultHasher::new();
    handle.hash(&mut hasher);
    hasher.finish()
}

fn record(seqno: u64) -> JournalRecord {
    JournalRecord {
        partition: "p".to_string(),
        key: b"k".to_vec(),
        value: b"v".to_vec(),
        value_type: ValueType::Value,
        seqno,
    }
}

#[test]
fn handles_are_equal_by_name() {
    let a = PartitionHandle { name: "a".to_string() };
    let again = PartitionHandle { name: "a".to_string() };
    let b = PartitionHandle { name: "b".to_string() };
    assert!(a == again);
    assert!(again == a);
    assert!(a == a.clone());
    assert!(a != b);
    assert!(b != a);
    assert_eq!(hash_of(&a), hash_of(&again));
    assert_eq!(hash_of(&a), hash_of(&a.clone()));
}

#[test]
fn notes_are_taken_in_their_order() {
    let mut keyspace = Keyspace::create(Config::new(), 0);
    let a = keyspace.open_partition("a", PartitionCreateOptions::default()).unwrap();
    let b = keyspace.open_partition("b", PartitionCreateOptions::default()).unwrap();
    assert!(keyspace.next_compaction().is_none());
    flushed(&mut keyspace, &b, b"k", b"v");
    flushed(&mut keyspace, &a, b"k", b"v");
    flushed(&mut keyspace, &b, b"l", b"w");
    assert_eq!(keyspace.next_compaction().unwrap().name, "b");
    assert_eq!(keyspace.next_compaction().unwrap().name, "a");
    assert_eq!(keyspace.next_compaction().unwrap().name, "b");
    assert!(keyspace.next_compaction().is_none());
    // Taking a note changes nothing of what the partitions hold.
    assert_eq!(a.len(&keyspace).unwrap(), 1);
    assert_eq!(b.len(&keyspace).unwrap(), 2);
}

#[test]
fn compaction_merges_the_oldest_segments() {
    let mut keyspace = Keyspace::create(Config::new(), 0);
    let p = keyspace.open_partition("p", PartitionCreateOptions::default()).unwrap();
    let first = flushed(&mut keyspace, &p, b"a", b"1");
    let early = p.snapshot(&keyspace).unwrap();
    p.remove(&mut keyspace, b"a", Ok(())).unwrap();
    let second = flushed(&mut keyspace, &p, b"b", b"2");
    let third = flushed(&mut keyspace, &p, b"a", b"3");
    p.insert(&mut keyspace, b"c", b"4", Ok(())).unwrap();
    assert_eq!(p.segment_count(&keyspace).unwrap(), 3);
    let before: Vec<(Vec<u8>, Vec<u8>)> = p.iter(&keyspace).unwrap().collect();
    let seqno = keyspace.instant();
    let journals = keyspace.journal_size();

    let done = keyspace.compact(&p, 2).unwrap();
    assert_eq!(done.replaced, vec![first, second]);
    let run = done.segment.unwrap();
    assert!(!done.replaced.contains(&run.id));
    assert_ne!(run.id, third);
    // The new segment holds the three versions of the two that gave way.
    assert_eq!(run.items.len(), 3);
    assert_eq!(run.items.item(0).key, b"a".to_vec());
    assert_eq!(run.items.item(0).seqno, 1);
    assert_eq!(run.items.item(0).value_type, ValueType::Tombstone);
    assert_eq!(run.items.item(1).key, b"a".to_vec());
    assert_eq!(run.items.item(1).seqno, 0);
    assert_eq!(run.items.item(1).value, b"1".to_vec());
    assert_eq!(run.items.item(2).key, b"b".to_vec());
    assert_eq!(run.items.item(2).seqno, 2);

    assert_eq!(p.segment_count(&keyspace).unwrap(), 2);
    let after: Vec<(Vec<u8>, Vec<u8>)> = p.iter(&keyspace).unwrap().collect();
    assert_eq!(after, before);
    assert_eq!(p.get(&keyspace, b"a").unwrap(), Some(b"3".to_vec()));
    assert_eq!(p.get(&keyspace, b"b").unwrap(), Some(b"2".to_vec()));
    assert_eq!(p.get(&keyspace, b"c").unwrap(), Some(b"4".to_vec()));
    assert_eq!(p.len(&keyspace).unwrap(), 3);
    assert_eq!(keyspace.instant(), seqno);
    assert_eq!(keyspace.journal_size(), journals);
    // A reader at an old sequence number still sees what was there then.
    assert_eq!(early.get(&keyspace, b"a").unwrap(), Some(b"1".to_vec()));
    assert_eq!(early.get(&keyspace, b"b").unwrap(), None);
}

#[test]
fn compaction_leaves_fewer_than_two_segments_alone() {
    let mut keyspace = Keyspace::create(Config::new(), 0);
    let p = keyspace.open_partition("p", PartitionCreateOptions::default()).unwrap();
    let done = keyspace.compact(&p, 10).unwrap();
    assert!(done.replaced.is_empty());
    assert!(done.segment.is_none());
    flushed(&mut keyspace, &p, b"a", b"1");
    let done = keyspace.compact(&p, 10).unwrap();
    assert!(done.replaced.is_empty());
    assert!(done.segment.is_none());
    flushed(&mut keyspace, &p, b"b", b"2");
    // Two segments, but no more than one may be taken.
    for count in [0, 1] {
        let done = keyspace.compact(&p, count).unwrap();
        assert!(done.replaced.is_empty());
        assert!(done.segment.is_none());
    }
    assert_eq!(p.segment_count(&keyspace).unwrap(), 2);
    let done = keyspace.compact(&p, usize::MAX).unwrap();
    assert_eq!(done.replaced.len(), 2);
    assert_eq!(p.segment_count(&keyspace).unwrap(), 1);
    assert_eq!(p.len(&keyspace).unwrap(), 2);
}

#[test]
fn compaction_of_unknown_partition_fails() {
    let mut keyspace = Keyspace::create(Config::new(), 0);
    let p = PartitionHandle { name: "nowhere".to_string() };
    let error = keyspace.compact(&p, 2).err().unwrap();
    assert!(matches!(error, Error::Storage(StorageError::PartitionNotFound)));
}

#[test]
fn compaction_ends_a_write_stall() {
    let mut keyspace = Keyspace::create(Config::new(), 0);
    let p = keyspace.open_partition("p", PartitionCreateOptions::default()).unwrap();
    for i in 0..=STALL_SEGMENTS {
        flushed(&mut keyspace, &p, &[i as u8], b"v");
    }
    assert!(p.check_write_stall(&mut keyspace).unwrap());
    assert!(p.check_write_stall(&mut keyspace).unwrap());
    // Each flush and each round of the stall left a note and woke a worker.
    let semaphore = keyspace.compaction_semaphore();
    for _ in 0..STALL_SEGMENTS + 3 {
        semaphore.acquire();
    }
    let noted = keyspace.next_compaction().unwrap();
    assert_eq!(noted.name, "p");
    let done = keyspace.compact(&noted, usize::MAX).unwrap();
    assert_eq!(done.replaced.len(), STALL_SEGMENTS + 1);
    assert_eq!(done.segment.unwrap().items.len(), STALL_SEGMENTS + 1);
    assert_eq!(p.segment_count(&keyspace).unwrap(), 1);
    assert!(!p.check_write_stall(&mut keyspace).unwrap());
    assert_eq!(p.len(&keyspace).unwrap(), STALL_SEGMENTS + 1);
    let outcome = p.insert(&mut keyspace, b"after", b"stall", Ok(())).unwrap();
    assert_eq!(outcome.throttle_millis, 0);
    assert!(!outcome.stalled);
}

#[test]
fn lowest_seqno_of_records() {
    assert_eq!(lowest_seqno(&Vec::new()), None);
    assert_eq!(lowest_seqno(&vec![record(7)]), Some(7));
    assert_eq!(lowest_seqno(&vec![record(7), record(3), record(9)]), Some(3));
    assert_eq!(lowest_seqno(&vec![record(0), record(u64::MAX)]), Some(0));
}

#[test]
fn sealed_journals_are_replayed_by_sequence_number() {
    // The identifier of minute 36 sorts before that of minute 5.
    let late = SealedJournal { id: "11_010_5_1".to_string(), records: vec![record(40), record(38)] };
    let early = SealedJournal { id: "11_05_5_1".to_string(), records: vec![record(3), record(4)] };
    let middle = SealedJournal { id: "11_0z_5_1".to_string(), records: vec![record(5), record(37)] };
    let empty = SealedJournal { id: "11_0a_5_1".to_string(), records: Vec::new() };
    let sorted = sort_journals(vec![late, empty, middle, early]);
    let ids: Vec<&str> = sorted.iter().map(|j| j.id.as_str()).collect();
    assert_eq!(ids, vec!["11_0a_5_1", "11_05_5_1", "11_0z_5_1", "11_010_5_1"]);
    assert_eq!(sorted[3].records.len(), 2);
    assert_eq!(sorted[3].records[0].seqno, 40);
    assert!(sort_journals(Vec::new()).is_empty());
}

#[test]
fn directory_names_spell_partition_names() {
    assert_eq!(directory_of("p"), Some("70".to_string()));
    assert_eq!(directory_of("a/b"), Some("612f62".to_string()));
    assert_eq!(directory_of("../x"), Some("2e2e2f78".to_string()));
    assert_eq!(directory_of(" ~"), Some("207e".to_string()));
    assert_eq!(directory_of(""), None);
    assert_eq!(directory_of("tab\there"), None);
    assert_eq!(directory_of(&"x".repeat(256)), None);
    assert_eq!(directory_of(&"x".repeat(255)).unwrap().len(), 510);

    assert_eq!(partition_of("70"), Some("p".to_string()));
    assert_eq!(partition_of("612f62"), Some("a/b".to_string()));
    assert_eq!(partition_of("2e2e2f78"), Some("../x".to_string()));
    assert_eq!(partition_of(""), None);
    assert_eq!(partition_of("7"), None);
    assert_eq!(partition_of("612F62"), None);
    assert_eq!(partition_of("61zz"), None);
    // Two digits that spell no printable character.
    assert_eq!(partition_of("1f"), None);
    assert_eq!(partition_of("7f"), None);
    assert_eq!(partition_of("p"), None);
    for name in ["p", "default", "a b", "x.y/z", "~!@#$%^&*()"] {
        let dir = directory_of(name).unwrap();
        assert!(dir.chars().all(|c| c.is_ascii_digit() || ('a'..='f').contains(&c)));
        assert_eq!(partition_of(&dir), Some(name.to_string()));
    }
}

#[test]
fn records_tell_whether_they_can_be_written() {
    assert!(record(0).is_valid());
    let mut nameless = record(0);
    nameless.partition = String::new();
    assert!(!nameless.is_valid());
    let mut long = record(0);
    long.key = vec![0; 65537];
    assert!(!long.is_valid());
    long.key = vec![0; 65536];
    assert!(long.is_valid());
}
