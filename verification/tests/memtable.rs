use fjall::memtable::{bump_size, MemTable, ITEM_OVERHEAD};
use fjall::value::{compare_keys, version_before, KeyOrder, Value, ValueType};

fn value(key: &[u8], value: &[u8], seqno: u64) -> Value {
    Value::new(key.to_vec(), value.to_vec(), seqno, ValueType::Value)
}

fn tombstone(key: &[u8], seqno: u64) -> Value {
    Value::new(key.to_vec(), Vec::new(), seqno, ValueType::Tombstone)
}

#[test]
fn keys_are_ordered_byte_by_byte() {
    assert_eq!(compare_keys(b"abc", b"abd"), KeyOrder::Less);
    assert_eq!(compare_keys(b"abd", b"abc"), KeyOrder::Greater);
    assert_eq!(compare_keys(b"abc", b"abc"), KeyOrder::Equal);
    assert_eq!(compare_keys(b"ab", b"abc"), KeyOrder::Less);
    assert_eq!(compare_keys(b"abc", b"ab"), KeyOrder::Greater);
    assert_eq!(compare_keys(b"", b""), KeyOrder::Equal);
    assert_eq!(compare_keys(b"", b"\0"), KeyOrder::Less);
    assert_eq!(compare_keys(&[0xff], &[0x00, 0xff]), KeyOrder::Greater);
}

#[test]
fn versions_of_a_key_are_ordered_newest_first() {
    assert!(version_before(b"a", 5, b"a", 4));
    assert!(!version_before(b"a", 4, b"a", 5));
    assert!(!version_before(b"a", 4, b"a", 4));
    assert!(version_before(b"a", 0, b"b", 9));
    assert!(!version_before(b"b", 9, b"a", 0));
}

#[test]
fn memtable_get_returns_newest_version_at_snapshot() {
    let mut table = MemTable::new();
    assert!(table.is_empty());
    assert_eq!(table.get_lsn(), None);
    table.insert(value(b"k", b"v1", 1));
    table.insert(value(b"k", b"v3", 3));
    table.insert(tombstone(b"k", 5));
    table.insert(value(b"j", b"other", 2));
    table.insert(value(b"l", b"other", 4));

    assert_eq!(table.len(), 5);
    assert_eq!(table.get_lsn(), Some(5));
    assert!(table.get(b"k", 0).is_none());
    assert_eq!(table.get(b"k", 1).unwrap().value, b"v1");
    assert_eq!(table.get(b"k", 2).unwrap().value, b"v1");
    assert_eq!(table.get(b"k", 3).unwrap().value, b"v3");
    assert_eq!(table.get(b"k", 4).unwrap().seqno, 3);
    let newest = table.get(b"k", u64::MAX).unwrap();
    assert_eq!(newest.seqno, 5);
    assert_eq!(newest.value_type, ValueType::Tombstone);
    assert!(table.get(b"kk", u64::MAX).is_none());
    assert!(table.get(b"", u64::MAX).is_none());
    assert_eq!(table.get(b"j", u64::MAX).unwrap().value, b"other");
}

#[test]
fn memtable_holds_items_in_order() {
    let mut table = MemTable::new();
    table.insert(value(b"b", b"", 1));
    table.insert(value(b"a", b"", 2));
    table.insert(value(b"b", b"", 3));
    table.insert(value(b"ab", b"", 4));
    let order: Vec<(Vec<u8>, u64)> =
        (0..table.len()).map(|i| (table.item(i).key.clone(), table.item(i).seqno)).collect();
    assert_eq!(
        order,
        vec![(b"a".to_vec(), 2), (b"ab".to_vec(), 4), (b"b".to_vec(), 3), (b"b".to_vec(), 1)]
    );
}

#[test]
fn memtable_insert_replaces_same_version() {
    let mut table = MemTable::new();
    table.insert(value(b"k", b"old", 7));
    table.insert(value(b"k", b"new", 7));
    assert_eq!(table.len(), 1);
    assert_eq!(table.get(b"k", 7).unwrap().value, b"new");
}

#[test]
fn memtable_size_counts_key_value_and_overhead() {
    let mut table = MemTable::new();
    assert_eq!(table.approximate_size(), 0);
    let size = table.insert(value(b"abc", b"defgh", 0));
    assert_eq!(size as u64, 3 + 5 + ITEM_OVERHEAD);
    assert_eq!(table.approximate_size(), 17);
    let size = table.insert(tombstone(b"abc", 1));
    assert_eq!(size, 17 + 3 + 9);
}

#[test]
fn memtable_size_stops_at_the_largest_u32() {
    assert_eq!(bump_size(0, 0, 0), 9);
    assert_eq!(bump_size(u32::MAX - 9, 0, 0), u32::MAX);
    assert_eq!(bump_size(u32::MAX - 8, 0, 0), u32::MAX);
    assert_eq!(bump_size(u32::MAX, 10, 10), u32::MAX);
    assert_eq!(bump_size(5, usize::MAX, usize::MAX), u32::MAX);
}

#[test]
fn memtable_from_items_takes_them_in_turn() {
    let items = vec![value(b"a", b"1", 1), value(b"a", b"2", 1), value(b"b", b"3", 2)];
    let table = MemTable::from_items(&items);
    assert_eq!(table.len(), 2);
    assert_eq!(table.get(b"a", 1).unwrap().value, b"2");
    assert_eq!(table.get_lsn(), Some(2));
    assert_eq!(table.approximate_size(), 3 * 11);
}
