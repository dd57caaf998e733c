use fjall::journal::record::{encode, JournalRecord, JOURNAL_VERSION};
use fjall::partition::WriteOutcome;
use fjall::recovery::read_shard;
use fjall::{Config, Keyspace, PartitionCreateOptions, PartitionHandle, ValueType};

const ITEM_COUNT: usize = 100;

/// The journals as they would stand on disk.
struct Disk {
    active: Vec<u8>,
    sealed: Vec<(String, Vec<u8>)>,
}

impl Disk {
    fn new() -> Self {
        Disk { active: vec![JOURNAL_VERSION], sealed: Vec::new() }
    }

    fn seal(&mut self, outcome: &WriteOutcome) {
        for rotation in &outcome.rotations {
            let bytes = std::mem::replace(&mut self.active, vec![JOURNAL_VERSION]);
            self.sealed.push((rotation.journal_id.clone(), bytes));
        }
    }
}

fn insert(keyspace: &mut Keyspace, disk: &mut Disk, tree: &PartitionHandle, key: &[u8], value: &[u8]) {
    let record = JournalRecord {
        partition: tree.name.clone(),
        key: key.to_vec(),
        value: value.to_vec(),
        value_type: ValueType::Value,
        seqno: keyspace.instant(),
    };
    disk.active.extend(encode(&record));
    let outcome = tree.insert(keyspace, key, value, Ok(())).unwrap();
    disk.seal(&outcome);
}

fn open(disk: &Disk) -> (Keyspace, Vec<PartitionHandle>) {
    let mut keyspace = Keyspace::create(Config::new(), 0);
    let partitions = vec![
        keyspace.open_partition("default1", PartitionCreateOptions::default()).unwrap(),
        keyspace.open_partition("default2", PartitionCreateOptions::default()).unwrap(),
        keyspace.open_partition("default3", PartitionCreateOptions::default()).unwrap(),
    ];
    for (id, bytes) in &disk.sealed {
        let shard = read_shard(bytes).unwrap();
        keyspace.replay(&shard.records).unwrap();
        keyspace.seal_replayed(id.clone());
    }
    let shard = read_shard(&disk.active).unwrap();
    assert_eq!(shard.valid_len, disk.active.len());
    keyspace.replay(&shard.records).unwrap();
    (keyspace, partitions)
}

fn random_value() -> Vec<u8> {
    format!("{:016x}{:016x}", rand::random::<u64>(), rand::random::<u64>()).into_bytes()
}

#[test]
fn tree_recover_sealed_journal() {
    let mut disk = Disk::new();

    {
        let (mut keyspace, partitions) = open(&disk);

        for tree in &partitions {
            for x in 0..ITEM_COUNT as u64 {
                let key = x.to_be_bytes();
                let value = random_value();
                insert(&mut keyspace, &mut disk, tree, &key, &value);
            }
        }

        for tree in &partitions {
            assert_eq!(tree.len(&keyspace).unwrap(), ITEM_COUNT);
            assert_eq!(tree.iter(&keyspace).unwrap().collect().len(), ITEM_COUNT);
            assert_eq!(tree.iter(&keyspace).unwrap().collect_rev().len(), ITEM_COUNT);
        }

        let outcome = partitions.first().unwrap().rotate_memtable(&mut keyspace).unwrap();
        assert_eq!(outcome.rotations.len(), 1);
        disk.seal(&outcome);

        for tree in &partitions {
            for x in 0..ITEM_COUNT as u64 {
                let key: [u8; 8] = (x + ITEM_COUNT as u64).to_be_bytes();
                let value = random_value();
                insert(&mut keyspace, &mut disk, tree, &key, &value);
            }
        }

        for tree in &partitions {
            assert_eq!(tree.len(&keyspace).unwrap(), ITEM_COUNT * 2);
            assert_eq!(tree.iter(&keyspace).unwrap().collect().len(), ITEM_COUNT * 2);
            assert_eq!(tree.iter(&keyspace).unwrap().collect_rev().len(), ITEM_COUNT * 2);
        }
    }

    for _ in 0..100 {
        let (keyspace, partitions) = open(&disk);

        for tree in &partitions {
            assert_eq!(tree.len(&keyspace).unwrap(), ITEM_COUNT * 2);
            assert_eq!(tree.iter(&keyspace).unwrap().collect().len(), ITEM_COUNT * 2);
            assert_eq!(tree.iter(&keyspace).unwrap().collect_rev().len(), ITEM_COUNT * 2);
        }
    }
}
