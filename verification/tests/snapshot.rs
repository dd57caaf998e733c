use fjall::tree_inner::TreeInner;
use fjall::value::{Value, ValueType};
use fjall::{Config, Keyspace, PartitionCreateOptions};

#[test]
fn snapshot_does_not_see_later_writes() {
    let mut keyspace = Keyspace::create(Config::new(), 0);
    let p = keyspace.open_partition("p", PartitionCreateOptions::default()).unwrap();
    let empty = p.snapshot(&keyspace).unwrap();
    assert_eq!(empty.seqno(), 0);
    p.insert(&mut keyspace, b"a", b"1", Ok(())).unwrap();
    p.insert(&mut keyspace, b"b", b"2", Ok(())).unwrap();
    let snapshot = p.snapshot(&keyspace).unwrap();
    assert_eq!(snapshot.seqno(), 2);
    p.insert(&mut keyspace, b"a", b"changed", Ok(())).unwrap();
    p.remove(&mut keyspace, b"b", Ok(())).unwrap();
    p.insert(&mut keyspace, b"c", b"3", Ok(())).unwrap();
    p.rotate_memtable(&mut keyspace).unwrap();
    keyspace.flush_completed(&p, 1).unwrap();

    assert_eq!(snapshot.get(&keyspace, b"a").unwrap(), Some(b"1".to_vec()));
    assert_eq!(snapshot.get(&keyspace, b"b").unwrap(), Some(b"2".to_vec()));
    assert_eq!(snapshot.get(&keyspace, b"c").unwrap(), None);
    assert_eq!(
        snapshot.iter(&keyspace).unwrap().collect(),
        vec![(b"a".to_vec(), b"1".to_vec()), (b"b".to_vec(), b"2".to_vec())]
    );
    assert_eq!(empty.get(&keyspace, b"a").unwrap(), None);
    assert_eq!(empty.iter(&keyspace).unwrap().len(), 0);
    assert_eq!(p.get(&keyspace, b"a").unwrap(), Some(b"changed".to_vec()));
    assert_eq!(p.len(&keyspace).unwrap(), 2);
}

#[test]
fn tree_get_at_sequence_number() {
    let mut tree = TreeInner::new();
    let put = |tree: &mut TreeInner, key: &[u8], value: &[u8], seqno: u64| {
        tree.append(Value::new(key.to_vec(), value.to_vec(), seqno, ValueType::Value))
    };
    assert_eq!(put(&mut tree, b"k", b"one", 1), 1 + 3 + 9);
    put(&mut tree, b"k", b"three", 3);
    assert!(tree.seal_active("first".to_string()).is_some());
    assert!(tree.seal_active("none".to_string()).is_none());
    tree.append(Value::new(b"k".to_vec(), Vec::new(), 5, ValueType::Tombstone));
    tree.register_segments(9);
    put(&mut tree, b"k", b"seven", 7);
    // An older version that arrives late is still the older version.
    put(&mut tree, b"k", b"two", 2);

    assert_eq!(tree.get(b"k", 0), None);
    assert_eq!(tree.get(b"k", 1), Some(b"one".to_vec()));
    assert_eq!(tree.get(b"k", 2), Some(b"two".to_vec()));
    assert_eq!(tree.get(b"k", 4), Some(b"three".to_vec()));
    assert_eq!(tree.get(b"k", 5), None);
    assert_eq!(tree.get(b"k", 6), None);
    assert_eq!(tree.get(b"k", 7), Some(b"seven".to_vec()));
    assert_eq!(tree.get(b"k", u64::MAX), Some(b"seven".to_vec()));
    assert_eq!(tree.len(4), 1);
    assert_eq!(tree.len(5), 0);
    assert_eq!(tree.get_memtable_lsn(), Some(7));
    assert_eq!(tree.get_segment_lsn(), Some(3));
    assert_eq!(tree.segment_count(), 1);
    assert_eq!(tree.first_level_segment_count(), 1);
    assert_eq!(tree.sealed_count(), 0);
    assert_eq!(tree.approximate_len(), 5);
    assert_eq!(tree.disk_space(), (1 + 3 + 9) + (1 + 5 + 9));
}

#[test]
fn tree_rotate_generates_an_id() {
    let mut tree = TreeInner::new();
    assert!(tree.rotate_memtable().is_none());
    tree.append(Value::new(b"k".to_vec(), b"v".to_vec(), 0, ValueType::Value));
    let (id, memtable) = tree.rotate_memtable().unwrap();
    assert_eq!(id.split('_').count(), 4);
    assert!(id.chars().all(|c| c == '_' || c.is_ascii_digit() || c.is_ascii_lowercase()));
    assert_eq!(memtable.len(), 1);
    assert_eq!(tree.sealed_count(), 1);
    assert_eq!(tree.active_size(), 0);
    assert_eq!(tree.get(b"k", 0), Some(b"v".to_vec()));
}
