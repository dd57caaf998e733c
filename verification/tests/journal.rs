use fjall::error::RecoveryError;
use fjall::journal::manager::{JournalManager, PartitionSeqNo};
use fjall::journal::record::{
    check_frame, decode, encode, encode_body, frame_size, seal_frame, Decoded, JournalRecord,
    FRAME_OVERHEAD, JOURNAL_VERSION,
};
use fjall::recovery::{read_shard, sort_by_seqno};
use fjall::{PartitionHandle, ValueType};

fn record(partition: &str, key: &[u8], value: &[u8], seqno: u64) -> JournalRecord {
    JournalRecord {
        partition: partition.to_string(),
        key: key.to_vec(),
        value: value.to_vec(),
        value_type: ValueType::Value,
        seqno,
    }
}

fn same(a: &JournalRecord, b: &JournalRecord) -> bool {
    a.partition == b.partition
        && a.key == b.key
        && a.value == b.value
        && a.value_type == b.value_type
        && a.seqno == b.seqno
}

#[test]
fn frame_has_the_documented_layout() {
    let r = record("p", b"ab", b"xyz", 0x0102030405060708);
    let body = encode_body(&r);
    assert_eq!(
        body,
        vec![
            1, b'p', // name
            2, 0, 0, 0, b'a', b'b', // key
            0,    // kind
            3, 0, 0, 0, 0, 0, 0, 0, b'x', b'y', b'z', // value
            8, 7, 6, 5, 4, 3, 2, 1, // sequence number
        ]
    );
    let frame = encode(&r);
    assert_eq!(frame.len() as u64, 1 + 2 + 3 + FRAME_OVERHEAD);
    assert_eq!(frame_size(1, 2, 3), 32);
    assert_eq!(&frame[..frame.len() - 4], &body[..]);
    // The checksum is the CRC-32 of the body, lowest byte first.
    assert_eq!(&frame[frame.len() - 4..], &crc32fast::hash(&body).to_le_bytes());
    assert_ne!(&frame[frame.len() - 4..], &body[..4]);
}

#[test]
fn crc32_of_known_input() {
    let r = JournalRecord {
        partition: "1".to_string(),
        key: Vec::new(),
        value: Vec::new(),
        value_type: ValueType::Tombstone,
        seqno: 0,
    };
    let frame = encode(&r);
    assert_eq!(frame.len(), 27);
    let crc = u32::from_le_bytes([frame[23], frame[24], frame[25], frame[26]]);
    assert_eq!(crc, crc32fast::hash(&frame[..23]));
    assert_eq!(crc32fast::hash(b"123456789"), 0xcbf4_3926);
}

#[test]
fn seal_frame_appends_checksum() {
    assert_eq!(seal_frame(vec![9, 9], 0x0a0b0c0d), vec![9, 9, 0x0d, 0x0c, 0x0b, 0x0a]);
}

#[test]
fn check_frame_wants_matching_checksum_kind_and_name() {
    assert!(check_frame(7, 7, 0, b"name"));
    assert!(check_frame(7, 7, 1, b"a b~"));
    assert!(!check_frame(7, 8, 0, b"name"));
    assert!(!check_frame(7, 7, 2, b"name"));
    assert!(!check_frame(7, 7, 0, b""));
    assert!(!check_frame(7, 7, 0, b"na\nme"));
    assert!(!check_frame(7, 7, 0, &[0x80]));
    assert!(!check_frame(7, 7, 0, &[b'a'; 256]));
    assert!(check_frame(7, 7, 0, &[b'a'; 255]));
}

#[test]
fn decode_gives_back_what_encode_wrote() {
    let a = record("part", b"key", b"value", 42);
    let mut b = record("other", b"", b"", u64::MAX);
    b.value_type = ValueType::Tombstone;
    let mut bytes = vec![0xee];
    bytes.extend(encode(&a));
    let middle = bytes.len();
    bytes.extend(encode(&b));

    match decode(&bytes, 1) {
        Decoded::Record(r, end) => {
            assert!(same(&r, &a));
            assert_eq!(end, middle);
        }
        other => panic!("unexpected {other:?}"),
    }
    match decode(&bytes, middle) {
        Decoded::Record(r, end) => {
            assert!(same(&r, &b));
            assert_eq!(end, bytes.len());
        }
        other => panic!("unexpected {other:?}"),
    }
    assert!(matches!(decode(&bytes, bytes.len()), Decoded::Truncated));
    assert!(matches!(decode(&bytes, bytes.len() + 1), Decoded::Truncated));
}

#[test]
fn decode_tells_torn_from_damaged_from_garbled() {
    let frame = encode(&record("p", b"key", b"value", 1));
    for cut in 0..frame.len() {
        assert!(matches!(decode(&frame[..cut], 0), Decoded::Truncated), "cut at {cut}");
    }
    let mut flipped = frame.clone();
    flipped[7] ^= 1;
    assert!(matches!(decode(&flipped, 0), Decoded::Damaged(end) if end == frame.len()));
    let mut bad_kind = frame.clone();
    bad_kind[9] = 2;
    assert!(matches!(decode(&bad_kind, 0), Decoded::Damaged(_)));
    // A key length above the limit.
    let mut long_key = frame.clone();
    long_key[2..6].copy_from_slice(&65537u32.to_le_bytes());
    assert!(matches!(decode(&long_key, 0), Decoded::Garbled));
    // A value length above the limit.
    let mut long_value = frame.clone();
    long_value[10..18].copy_from_slice(&(4294967297u64).to_le_bytes());
    assert!(matches!(decode(&long_value, 0), Decoded::Garbled));
}

#[test]
fn read_shard_stops_at_torn_tail() {
    let a = record("p", b"a", b"1", 0);
    let b = record("p", b"b", b"2", 1);
    let mut bytes = vec![JOURNAL_VERSION];
    bytes.extend(encode(&a));
    let whole = bytes.len();
    let second = encode(&b);
    bytes.extend(&second[..second.len() - 1]);

    let shard = read_shard(&bytes).unwrap();
    assert_eq!(shard.records.len(), 1);
    assert!(same(&shard.records[0], &a));
    assert_eq!(shard.valid_len, whole);

    bytes.push(*second.last().unwrap());
    let shard = read_shard(&bytes).unwrap();
    assert_eq!(shard.records.len(), 2);
    assert_eq!(shard.valid_len, bytes.len());

    // A last record with a wrong checksum is taken for torn.
    let last = bytes.len() - 1;
    bytes[last] ^= 0xff;
    let shard = read_shard(&bytes).unwrap();
    assert_eq!(shard.records.len(), 1);
    assert_eq!(shard.valid_len, whole);
}

#[test]
fn read_shard_rejects_damage() {
    assert_eq!(read_shard(&[]).unwrap().records.len(), 0);
    assert_eq!(read_shard(&[JOURNAL_VERSION]).unwrap().valid_len, 1);
    assert_eq!(read_shard(&[JOURNAL_VERSION + 1]).unwrap_err(), RecoveryError::InvalidVersion);

    let mut bytes = vec![JOURNAL_VERSION];
    bytes.extend(encode(&record("p", b"a", b"1", 0)));
    bytes.extend(encode(&record("p", b"b", b"2", 1)));
    bytes[5] ^= 1;
    assert_eq!(read_shard(&bytes).unwrap_err(), RecoveryError::DamagedRecord);

    let mut garbled = vec![JOURNAL_VERSION, 1, b'p'];
    garbled.extend(u32::MAX.to_le_bytes());
    assert_eq!(read_shard(&garbled).unwrap_err(), RecoveryError::DamagedRecord);
}

fn seqno(partition: &str, lsn: u64) -> PartitionSeqNo {
    PartitionSeqNo { partition: PartitionHandle { name: partition.to_string() }, lsn }
}

#[test]
fn journal_manager_counts_bytes() {
    let mut manager = JournalManager::new();
    assert_eq!(manager.disk_space_used(), 0);
    manager.record_write(100);
    manager.record_write(20);
    assert_eq!(manager.disk_space_used(), 120);
    manager.rotate_journal("j1".to_string(), vec![seqno("a", 3)]);
    assert_eq!(manager.sealed_journal_count(), 1);
    assert_eq!(manager.disk_space_used(), 120);
    manager.record_write(5);
    assert_eq!(manager.disk_space_used(), 125);
    manager.record_write(u64::MAX);
    assert_eq!(manager.disk_space_used(), u64::MAX);
}

#[test]
fn journal_manager_releases_journal_when_every_partition_has_flushed() {
    let mut manager = JournalManager::new();
    manager.record_write(10);
    manager.rotate_journal("j1".to_string(), vec![seqno("a", 3), seqno("b", 4)]);
    manager.record_write(20);
    manager.rotate_journal("j2".to_string(), vec![seqno("a", 9)]);
    manager.record_write(40);

    // "a" has flushed up to 2: nothing is released.
    assert_eq!(manager.compact(&"a".to_string(), 2), Vec::<String>::new());
    // "a" has flushed up to 3: j1 still waits for "b".
    assert_eq!(manager.compact(&"a".to_string(), 3), Vec::<String>::new());
    assert_eq!(manager.sealed_journal_count(), 2);
    // "a" has flushed up to 9: j2 goes, though j1 before it stays.
    assert_eq!(manager.compact(&"a".to_string(), 9), vec!["j2".to_string()]);
    assert_eq!(manager.disk_space_used(), 50);
    // "b" has flushed up to 4: j1 goes too.
    assert_eq!(manager.compact(&"b".to_string(), 4), vec!["j1".to_string()]);
    assert_eq!(manager.sealed_journal_count(), 0);
    assert_eq!(manager.disk_space_used(), 40);
}

#[test]
fn records_of_shards_are_put_in_order() {
    let shard_a = vec![record("p", b"a", b"", 0), record("p", b"d", b"", 3), record("p", b"e", b"", 7)];
    let shard_b = vec![record("q", b"b", b"", 1), record("q", b"c", b"", 2), record("q", b"f", b"", 9)];
    let mut all = Vec::new();
    all.extend(shard_b);
    all.extend(shard_a);
    let sorted = sort_by_seqno(all);
    let seqnos: Vec<u64> = sorted.iter().map(|r| r.seqno).collect();
    assert_eq!(seqnos, vec![0, 1, 2, 3, 7, 9]);
    let keys: Vec<u8> = sorted.iter().map(|r| r.key[0]).collect();
    assert_eq!(keys, b"abcdef".to_vec());
    assert!(sort_by_seqno(Vec::new()).is_empty());
}
