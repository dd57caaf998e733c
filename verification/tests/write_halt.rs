use fjall::journal::record::frame_size;
use fjall::{Config, Keyspace, PartitionCreateOptions};

const MIB: u32 = 1024 * 1024;

#[test]
fn journal_size_counts_the_frames() {
    let mut keyspace = Keyspace::create(Config::new(), 0);
    let p = keyspace.open_partition("part", PartitionCreateOptions::default()).unwrap();
    p.insert(&mut keyspace, b"key", b"value", Ok(())).unwrap();
    assert_eq!(keyspace.journal_size(), 4 + 3 + 5 + 26);
    assert_eq!(keyspace.journal_size(), frame_size(4, 3, 5));
    p.remove(&mut keyspace, b"key", Ok(())).unwrap();
    assert_eq!(keyspace.journal_size(), 38 + 33);
    // A rotation seals the journal; it still takes its space.
    p.rotate_memtable(&mut keyspace).unwrap();
    assert_eq!(keyspace.journal_size(), 71);
    // The flush releases it.
    let outcome = keyspace.flush_completed(&p, 1).unwrap();
    assert_eq!(outcome.deleted_journals.len(), 1);
    assert_eq!(keyspace.journal_size(), 0);
}

#[test]
fn write_halt() {
    let config = Config::new().max_journaling_size(4 * MIB);
    let mut keyspace = Keyspace::create(config, 0);
    let options = PartitionCreateOptions::default().max_memtable_size(MIB);
    let idle = keyspace.open_partition("idle", options).unwrap();
    let busy = keyspace.open_partition("busy", options).unwrap();
    let value = vec![0u8; 256 * 1024];

    // The idle partition takes one write, is rotated and flushed once, so
    // that the list of rotations knows it, and takes another write.
    idle.insert(&mut keyspace, b"k", b"v", Ok(())).unwrap();
    idle.rotate_memtable(&mut keyspace).unwrap();
    keyspace.flush_completed(&idle, 1).unwrap();
    idle.insert(&mut keyspace, b"k", b"w", Ok(())).unwrap();
    assert_eq!(keyspace.collect_flush_tasks(100).len(), 0);

    // The busy partition is written to while no flush takes place.
    let mut drained = false;
    let mut halted = false;
    let mut key = 0u32;
    while !halted {
        assert!(key < 100, "no write halt");
        let before = keyspace.journal_size();
        let outcome = busy.insert(&mut keyspace, &key.to_be_bytes(), &value, Ok(())).unwrap();
        key += 1;
        // A write adds its own record to the journals, and nothing else.
        assert_eq!(keyspace.journal_size(), before + frame_size(4, 4, value.len()));
        if outcome.rotations.iter().any(|r| r.partition == "idle") {
            // The journals had grown past two thirds of what they may take.
            assert!(3 * keyspace.journal_size() > 2 * 4 * MIB as u64);
            drained = true;
        }
        if !outcome.rotations.is_empty() {
            assert_eq!(outcome.halted, keyspace.over_limit());
        } else {
            assert!(!outcome.halted);
        }
        halted = outcome.halted;
    }
    assert!(drained, "the idle partition was not rotated");
    assert!(keyspace.journal_size() > 4 * MIB as u64);
    // The halt came with the first rotation that found the journals over their limit.
    assert!(keyspace.journal_size() <= (4 + 1) * MIB as u64 + frame_size(4, 4, value.len()));

    // Nothing is flushed: the halt goes on.
    assert!(keyspace.check_write_halt().halted);
    assert!(keyspace.check_write_halt().halted);

    // The flushes drain the journals; the halt ends.
    let tasks = keyspace.collect_flush_tasks(100);
    assert_eq!(tasks.len(), 2);
    for queue in &tasks {
        let partition = queue.tasks[0].partition.clone();
        keyspace.flush_completed(&partition, queue.tasks.len()).unwrap();
    }
    busy.rotate_memtable(&mut keyspace).unwrap();
    keyspace.flush_completed(&busy, 1).unwrap();
    let outcome = keyspace.check_write_halt();
    assert!(!outcome.halted);
    assert!(outcome.rotations.is_empty());
    assert!(!keyspace.over_limit());
    // Subsequent writes succeed.
    let outcome = busy.insert(&mut keyspace, b"after", b"halt", Ok(())).unwrap();
    assert!(!outcome.halted);
    assert_eq!(busy.get(&keyspace, b"after").unwrap(), Some(b"halt".to_vec()));
    assert_eq!(idle.get(&keyspace, b"k").unwrap(), Some(b"w".to_vec()));
}

#[test]
fn two_thirds_threshold_is_exact() {
    // With a limit of 300 bytes, 200 bytes are two thirds: 201 are more.
    let config = Config::new().max_journaling_size(300);
    let mut keyspace = Keyspace::create(config, 0);
    let p = keyspace.open_partition("p", PartitionCreateOptions::default()).unwrap();
    // 1 + 1 + 172 + 26 = 200 bytes.
    p.insert(&mut keyspace, b"a", &[0; 172], Ok(())).unwrap();
    assert_eq!(keyspace.journal_size(), 200);
    assert!(!keyspace.over_two_thirds());
    let mut keyspace = Keyspace::create(config, 0);
    let p = keyspace.open_partition("p", PartitionCreateOptions::default()).unwrap();
    p.insert(&mut keyspace, b"a", &[0; 173], Ok(())).unwrap();
    assert_eq!(keyspace.journal_size(), 201);
    assert!(keyspace.over_two_thirds());
    assert!(!keyspace.over_limit());
    p.insert(&mut keyspace, b"b", &[0; 72], Ok(())).unwrap();
    assert_eq!(keyspace.journal_size(), 301);
    assert!(keyspace.over_limit());
}
