use lattice_core::entry::{ChainTip, Entry, EntryError};
use lattice_core::hlc::HLC;
use lattice_core::node_identity::NodeIdentity;
use lattice_core::proto::storage::{Operation, SignedEntry as WireSignedEntry};
use lattice_core::store::orphan_store::OrphanStore as WireOrphanStore;
use lattice_core::store::sigchain::orphan_store::{
    DagOrphanKey, OrphanKey, OrphanStore, OrphanStoreError,
};
use lattice_core::table::ByteTable;

#[test]
fn orphan_store_test_orphan_store_basic() {
    let mut store = OrphanStore::open();

    let prev_hash = [2u8; 32];
    let seq = 5u64;

    // Mock node/entry
    let node = NodeIdentity::generate();
    let author = node.public_key();
    // Use fake tip to simulate seq 4 -> seq 5
    let fake_tip = ChainTip { seq: 4, hash: prev_hash, hlc: HLC::default() };
    let entry = Entry::next_after(Some(&fake_tip))
        .timestamp(HLC::default())
        .store_id([1u8; 16].to_vec())
        .operation(Operation::put(b"key".to_vec(), b"val".to_vec()))
        .sign(&node);

    let entry_hash = entry.hash();

    // Insert with seq
    assert!(store.insert(&author, &prev_hash, &entry_hash, seq, &entry));

    // Find - returns (seq, entry, hash)
    let found = store.find_by_prev_hash(&author, &prev_hash).unwrap();
    assert_eq!(found.len(), 1);
    assert_eq!(found[0].0, seq);  // seq
    assert_eq!(found[0].1.author_id, author);  // entry
    assert_eq!(found[0].2, entry_hash);  // hash

    // Delete
    store.delete(&author, &prev_hash, &entry_hash);

    // Should be empty now
    let found = store.find_by_prev_hash(&author, &prev_hash).unwrap();
    assert_eq!(found.len(), 0);
}

#[test]
fn test_orphan_store_basic() {
    let mut store = WireOrphanStore::open();

    let author = [1u8; 32];
    let prev_hash = [2u8; 32];
    let entry_hash = [3u8; 32];
    let seq = 5u64;

    // Create a minimal SignedEntry for testing
    let entry = WireSignedEntry {
        author_id: author.to_vec(),
        entry_bytes: b"test".to_vec(),
        signature: vec![],
    };

    // Insert with seq
    store.insert(&author, &prev_hash, &entry_hash, seq, &entry);

    // Find - returns (seq, entry, hash)
    let found = store.find_by_prev_hash(&author, &prev_hash).unwrap();
    assert_eq!(found.len(), 1);
    assert_eq!(found[0].0, seq);  // seq
    assert_eq!(found[0].1.author_id, author.to_vec());  // entry
    assert_eq!(found[0].2, entry_hash);  // hash

    // Delete
    store.delete(&author, &prev_hash, &entry_hash);

    // Should be empty now
    let found = store.find_by_prev_hash(&author, &prev_hash).unwrap();
    assert_eq!(found.len(), 0);
}

#[test]
fn a_waiting_message_is_replaced_and_a_waiting_entry_is_not() {
    let node = NodeIdentity::from_signing_key([7u8; 32]);
    let author = node.public_key();
    let entry = Entry::next_after(None)
        .operation(Operation::put(b"key".to_vec(), b"val".to_vec()))
        .sign(&node);

    let mut entries = OrphanStore::open();
    assert!(entries.insert_at(&author, &[2u8; 32], &[3u8; 32], 5, &entry, 100));
    assert!(!entries.insert_at(&author, &[2u8; 32], &[3u8; 32], 6, &entry, 200));
    assert_eq!(entries.count(), 1);
    assert_eq!(entries.find_by_prev_hash(&author, &[2u8; 32]).unwrap()[0].0, 5);
    assert_eq!(entries.list_all().unwrap()[0].received_at, 100);

    let mut messages = WireOrphanStore::open();
    messages.insert(&author, &[2u8; 32], &[3u8; 32], 5, &entry.to_proto());
    messages.insert(&author, &[2u8; 32], &[3u8; 32], 6, &entry.to_proto());
    assert_eq!(messages.count(), 1);
    assert_eq!(messages.find_by_prev_hash(&author, &[2u8; 32]).unwrap()[0].0, 6);
    assert_eq!(messages.find_by_prev_hash(&author, &[9u8; 32]).unwrap().len(), 0);
}

#[test]
fn an_unsigned_message_waits_but_an_unsigned_entry_does_not() {
    let key = OrphanKey::new([1u8; 32], [2u8; 32], [3u8; 32]);
    let mut messages = WireOrphanStore::open();
    let unsigned = WireSignedEntry {
        author_id: vec![1u8; 32],
        entry_bytes: b"test".to_vec(),
        signature: vec![0u8; 64],
    };
    messages.insert(&key.author, &key.prev_hash, &key.entry_hash, 5, &unsigned);
    assert_eq!(messages.find_by_prev_hash(&key.author, &key.prev_hash).unwrap()[0].1, unsigned);

    let mut table = ByteTable::new();
    table.insert(&key.as_bytes(), messages.table().value_at(0).clone());
    let entries = OrphanStore::from_tables(table, ByteTable::new());
    assert!(matches!(
        entries.find_by_prev_hash(&key.author, &key.prev_hash),
        Err(OrphanStoreError::InvalidEntry(_))
    ));
}

#[test]
fn faulty_rows_are_reported() {
    let key = OrphanKey::new([1u8; 32], [2u8; 32], [3u8; 32]);

    let mut garbage = ByteTable::new();
    garbage.insert(&key.as_bytes(), vec![0xFF]);
    let store = WireOrphanStore::from_table(garbage);
    assert!(matches!(
        store.find_by_prev_hash(&key.author, &key.prev_hash),
        Err(OrphanStoreError::Decode(_))
    ));

    let mut empty = ByteTable::new();
    empty.insert(&key.as_bytes(), vec![]);
    let store = WireOrphanStore::from_table(empty);
    assert_eq!(
        store.find_by_prev_hash(&key.author, &key.prev_hash).err(),
        Some(OrphanStoreError::MissingEntry)
    );

    let mut stray = ByteTable::new();
    stray.insert(b"short", vec![]);
    let store = OrphanStore::from_tables(stray, ByteTable::new());
    assert_eq!(store.list_all().err(), Some(OrphanStoreError::InvalidKey));
    let start = "Decode error: failed to decode Protobuf message: ";
    assert_eq!(OrphanStoreError::InvalidKey.to_string(), format!("{start}Invalid key"));
    assert_eq!(OrphanStoreError::MissingEntry.to_string(), format!("{start}Missing entry"));
    let entry = EntryError::MissingTimestamp;
    assert_eq!(
        OrphanStoreError::InvalidEntry(entry).to_string(),
        format!("{start}{}", entry.to_string())
    );
}

#[test]
fn keys_are_read_back() {
    let key = OrphanKey::new([1u8; 32], [2u8; 32], [3u8; 32]);
    let bytes = key.as_bytes();
    assert_eq!(bytes[0], 1);
    assert_eq!(bytes[32], 2);
    assert_eq!(bytes[64], 3);
    assert_eq!(OrphanKey::from_bytes(&bytes), Some(key));
    assert_eq!(OrphanKey::from_bytes(&bytes[1..]), None);
    assert_eq!(OrphanKey::range_start([1u8; 32], [2u8; 32]).entry_hash, [0u8; 32]);
    assert_eq!(OrphanKey::range_end([1u8; 32], [2u8; 32]).entry_hash, [255u8; 32]);

    // The parent stands first, so that entries of one parent are neighbours.
    let dag = DagOrphanKey::new([4u8; 32], [5u8; 32], [6u8; 32]);
    let bytes = dag.as_bytes();
    assert_eq!(bytes[0], 5);
    assert_eq!(bytes[32], 4);
    assert_eq!(bytes[64], 6);
    assert_eq!(DagOrphanKey::from_bytes(&bytes), Some(dag));
}

#[test]
fn entries_wait_for_a_parent() {
    let node = NodeIdentity::from_signing_key([7u8; 32]);
    let entry = Entry::next_after(None)
        .operation(Operation::put(b"key".to_vec(), b"val".to_vec()))
        .sign(&node);
    let mut store = OrphanStore::open();
    assert!(store.insert_dag_orphan(b"key", &[5u8; 32], &entry.hash(), &entry));
    assert!(!store.insert_dag_orphan(b"key", &[5u8; 32], &entry.hash(), &entry));
    assert_eq!(store.count_dag_orphans(), 1);

    let found = store.find_dag_orphans_by_parent(&[5u8; 32]).unwrap();
    assert_eq!(found.len(), 1);
    assert_eq!(found[0].0, b"key".to_vec());
    assert_eq!(found[0].2, entry.hash());
    assert!(store.find_dag_orphans_by_parent(&[6u8; 32]).unwrap().is_empty());

    store.delete_dag_orphan(b"other", &[5u8; 32], &entry.hash());
    assert_eq!(store.count_dag_orphans(), 1);
    store.delete_dag_orphan(b"key", &[5u8; 32], &entry.hash());
    assert_eq!(store.count_dag_orphans(), 0);
}

#[test]
fn the_hash_of_a_waiting_message_is_read_from_its_key() {
    let key = OrphanKey::new([1u8; 32], [2u8; 32], [3u8; 32]);
    let entry = WireSignedEntry { author_id: vec![1; 32], entry_bytes: vec![9], signature: vec![] };
    let mut store = WireOrphanStore::open();
    store.insert(&key.author, &key.prev_hash, &key.entry_hash, 5, &entry);
    let mut long = key.as_bytes().to_vec();
    long.push(0);
    let mut table = ByteTable::new();
    table.insert(&long, store.table().value_at(0).clone());
    let found = WireOrphanStore::from_table(table)
        .find_by_prev_hash(&key.author, &key.prev_hash)
        .unwrap();
    assert_eq!(found.len(), 1);
    assert_eq!((found[0].0, found[0].2), (5, [3u8; 32]));
}

#[test]
fn a_deleted_entry_is_not_found() {
    let node = NodeIdentity::from_signing_key([1u8; 32]);
    let author = node.public_key();
    let prev = [2u8; 32];
    let tip = ChainTip { seq: 4, hash: prev, hlc: HLC::default() };
    let waiting = |value: &[u8]| {
        Entry::next_after(Some(&tip))
            .timestamp(HLC::default())
            .store_id([1u8; 16].to_vec())
            .operation(Operation::put(b"key".to_vec(), value.to_vec()))
            .sign(&node)
    };
    let (a, b) = (waiting(b"a"), waiting(b"b"));
    let mut store = OrphanStore::open();
    for e in [&a, &b] {
        assert!(store.insert_at(&author, &prev, &e.hash(), 5, e, 0));
        assert!(store.insert_at(&author, &[3u8; 32], &e.hash(), 5, e, 0));
    }
    let before = store.find_by_prev_hash(&author, &prev).unwrap();
    store.delete(&author, &prev, &a.hash());
    let rest: Vec<_> = before.into_iter().filter(|t| t.2 != a.hash()).collect();
    assert_eq!(rest.len(), 1);
    assert_eq!(store.find_by_prev_hash(&author, &prev).unwrap(), rest);
    assert_eq!(store.find_by_prev_hash(&author, &[3u8; 32]).unwrap().len(), 2);
    // Deleting it again changes nothing.
    store.delete(&author, &prev, &a.hash());
    assert_eq!(store.find_by_prev_hash(&author, &prev).unwrap(), rest);
    assert_eq!(store.count(), 3);
}
