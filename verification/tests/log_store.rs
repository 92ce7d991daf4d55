use lattice_core::clock::MockClock;
use lattice_core::head_records::pick_winner;
use lattice_core::hlc::HLC;
use lattice_core::log_store::Store;
use lattice_core::node_identity::NodeIdentity;
use lattice_core::proto::packed::{PackedHead, PackedHeadList};
use lattice_core::sigchain::SigChain;
use lattice_core::signed_entry::{hash_signed_entry, verify_signed_entry, EntryBuilder};
use lattice_core::table::ByteTable;

const TEST_STORE: [u8; 16] = [1u8; 16];

/// What is written to disk and read back.
fn copied(table: &ByteTable) -> ByteTable {
    let mut copy = ByteTable::new();
    for i in 0..table.len() {
        copy.insert(table.key_at(i), table.value_at(i).clone());
    }
    copy
}

fn reopened(store: &Store) -> Store {
    Store::from_tables(copied(store.kv_table()), copied(store.authors_table()))
}

#[test]
fn store_test_single_write_one_head() {
    let mut store = Store::open();
    let node = NodeIdentity::generate();
    let clock = MockClock::new(1000);

    let entry = EntryBuilder::new(1, HLC::now_with_clock(&clock))
        .store_id(TEST_STORE.to_vec())
        .prev_hash([0u8; 32].to_vec())
        .put(b"/key".to_vec(), b"value".to_vec())
        .sign(&node);

    store.apply_entry(&entry).unwrap();

    let heads = store.get_heads(b"/key").unwrap();
    assert_eq!(heads.len(), 1);
    assert_eq!(heads[0].value, b"value");
}

#[test]
fn store_test_deterministic_winner() {
    // Test pick_winner logic directly (no store needed)
    let heads = PackedHeadList {
        heads: vec![
            PackedHead {
                value: b"older".to_vec(),
                hlc: 100,
                author: [1u8; 32].to_vec(),
                hash: [1u8; 32].to_vec(),
                tombstone: false,
            },
            PackedHead {
                value: b"newer".to_vec(),
                hlc: 200,
                author: [2u8; 32].to_vec(),
                hash: [2u8; 32].to_vec(),
                tombstone: false,
            },
        ],
    };

    let winner = pick_winner(&heads.heads).unwrap();
    assert_eq!(winner.value, b"newer"); // Higher HLC wins
}

#[test]
fn store_test_concurrent_writes_multiple_heads() {
    let mut store = Store::open();
    let node = NodeIdentity::generate();
    let clock = MockClock::new(1000);

    // First write
    let entry1 = EntryBuilder::new(1, HLC::now_with_clock(&clock))
        .store_id(TEST_STORE.to_vec())
        .prev_hash([0u8; 32].to_vec())
        .parent_hashes(vec![]) // No parent
        .put(b"/key".to_vec(), b"v1".to_vec())
        .sign(&node);
    store.apply_entry(&entry1).unwrap();

    // Second write with SAME parent (simulates concurrent/offline write)
    let clock2 = MockClock::new(2000);
    let entry2 = EntryBuilder::new(2, HLC::now_with_clock(&clock2))
        .store_id(TEST_STORE.to_vec())
        .prev_hash(hash_signed_entry(&entry1).to_vec())
        .parent_hashes(vec![]) // Also no parent (doesn't know about entry1)
        .put(b"/key".to_vec(), b"v2".to_vec())
        .sign(&node);
    store.apply_entry(&entry2).unwrap();

    // Should have TWO heads now
    let heads = store.get_heads(b"/key").unwrap();
    assert_eq!(heads.len(), 2);
}

#[test]
fn store_test_merge_write_single_head() {
    let mut store = Store::open();
    let node = NodeIdentity::generate();

    // Create two heads
    let clock1 = MockClock::new(1000);
    let entry1 = EntryBuilder::new(1, HLC::now_with_clock(&clock1))
        .store_id(TEST_STORE.to_vec())
        .prev_hash([0u8; 32].to_vec())
        .put(b"/key".to_vec(), b"v1".to_vec())
        .sign(&node);
    store.apply_entry(&entry1).unwrap();

    let clock2 = MockClock::new(2000);
    let entry2 = EntryBuilder::new(2, HLC::now_with_clock(&clock2))
        .store_id(TEST_STORE.to_vec())
        .prev_hash(hash_signed_entry(&entry1).to_vec())
        .put(b"/key".to_vec(), b"v2".to_vec())
        .sign(&node);
    store.apply_entry(&entry2).unwrap();

    assert_eq!(store.get_heads(b"/key").unwrap().len(), 2);

    // Merge write citing BOTH heads as parents
    let hash1 = hash_signed_entry(&entry1);
    let hash2 = hash_signed_entry(&entry2);
    let clock3 = MockClock::new(3000);
    let entry3 = EntryBuilder::new(3, HLC::now_with_clock(&clock3))
        .store_id(TEST_STORE.to_vec())
        .prev_hash(hash2.to_vec())
        .parent_hashes(vec![hash1.to_vec(), hash2.to_vec()])
        .put(b"/key".to_vec(), b"merged".to_vec())
        .sign(&node);
    store.apply_entry(&entry3).unwrap();

    // Should now have ONE head
    let heads = store.get_heads(b"/key").unwrap();
    assert_eq!(heads.len(), 1);
    assert_eq!(heads[0].value, b"merged");
}

#[test]
fn store_test_delete_preserves_concurrent_heads() {
    let mut store = Store::open();
    let node = NodeIdentity::generate();

    // Create two concurrent heads
    let clock1 = MockClock::new(1000);
    let entry1 = EntryBuilder::new(1, HLC::now_with_clock(&clock1))
        .store_id(TEST_STORE.to_vec())
        .prev_hash([0u8; 32].to_vec())
        .put(b"/key".to_vec(), b"v1".to_vec())
        .sign(&node);
    store.apply_entry(&entry1).unwrap();

    let clock2 = MockClock::new(2000);
    let entry2 = EntryBuilder::new(2, HLC::now_with_clock(&clock2))
        .store_id(TEST_STORE.to_vec())
        .prev_hash(hash_signed_entry(&entry1).to_vec())
        // No parent_hashes = concurrent write
        .put(b"/key".to_vec(), b"v2".to_vec())
        .sign(&node);
    store.apply_entry(&entry2).unwrap();

    assert_eq!(store.get_heads(b"/key").unwrap().len(), 2);

    // Delete citing only entry1 as parent
    let hash1 = hash_signed_entry(&entry1);
    let clock3 = MockClock::new(3000);
    let entry3 = EntryBuilder::new(3, HLC::now_with_clock(&clock3))
        .store_id(TEST_STORE.to_vec())
        .prev_hash(hash1.to_vec())
        .parent_hashes(vec![hash1.to_vec()]) // Only cites entry1
        .delete(b"/key".to_vec())
        .sign(&node);
    store.apply_entry(&entry3).unwrap();

    // entry2 should survive (wasn't cited as parent), plus tombstone head
    let heads = store.get_heads(b"/key").unwrap();
    assert_eq!(heads.len(), 2, "Expected tombstone + v2, got {}", heads.len());

    // One should be a tombstone, one should be v2
    let has_tombstone = heads.iter().any(|h| h.tombstone);
    let has_v2 = heads.iter().any(|h| h.value == b"v2");
    assert!(has_tombstone);
    assert!(has_v2);
}

#[test]
fn store_test_delete_all_heads_removes_key() {
    let mut store = Store::open();
    let node = NodeIdentity::generate();

    // Create a single head
    let clock1 = MockClock::new(1000);
    let entry1 = EntryBuilder::new(1, HLC::now_with_clock(&clock1))
        .store_id(TEST_STORE.to_vec())
        .prev_hash([0u8; 32].to_vec())
        .put(b"/key".to_vec(), b"value".to_vec())
        .sign(&node);
    store.apply_entry(&entry1).unwrap();

    assert!(store.get(b"/key").unwrap().is_some());

    // Delete citing the only head
    let hash1 = hash_signed_entry(&entry1);
    let clock2 = MockClock::new(2000);
    let entry2 = EntryBuilder::new(2, HLC::now_with_clock(&clock2))
        .store_id(TEST_STORE.to_vec())
        .prev_hash(hash1.to_vec())
        .parent_hashes(vec![hash1.to_vec()])
        .delete(b"/key".to_vec())
        .sign(&node);
    store.apply_entry(&entry2).unwrap();

    // Key should show as deleted (tombstone wins)
    assert!(store.get(b"/key").unwrap().is_none());

    // Should have one tombstone head
    let heads = store.get_heads(b"/key").unwrap();
    assert_eq!(heads.len(), 1);
    assert!(heads[0].tombstone);
}

#[test]
fn store_test_concurrent_delete_and_put() {
    // This test demonstrates that concurrent delete and put should both exist as heads
    // Scenario:
    // 1. Initial: K = v1 (head H1)
    // 2. Alice (offline): Delete K citing H1
    // 3. Bob (offline): Put K = v2 citing H1 (doesn't know about delete)
    // 4. Result: Should have 2 heads (tombstone + v2), not just v2

    let mut store = Store::open();
    let alice = NodeIdentity::generate();
    let bob = NodeIdentity::generate();

    // Initial state: K = v1
    let clock1 = MockClock::new(1000);
    let entry1 = EntryBuilder::new(1, HLC::now_with_clock(&clock1))
        .store_id(TEST_STORE.to_vec())
        .prev_hash([0u8; 32].to_vec())
        .put(b"/key".to_vec(), b"v1".to_vec())
        .sign(&alice);
    store.apply_entry(&entry1).unwrap();
    let h1 = hash_signed_entry(&entry1);

    // Alice deletes K citing H1
    let clock2 = MockClock::new(2000);
    let entry2 = EntryBuilder::new(2, HLC::now_with_clock(&clock2))
        .store_id(TEST_STORE.to_vec())
        .prev_hash(h1.to_vec())
        .parent_hashes(vec![h1.to_vec()])
        .delete(b"/key".to_vec())
        .sign(&alice);
    store.apply_entry(&entry2).unwrap();

    // Bob (concurrently) puts K = v2 citing H1 (doesn't know about Alice's delete)
    let clock3 = MockClock::new(2500);
    let entry3 = EntryBuilder::new(1, HLC::now_with_clock(&clock3))
        .store_id(TEST_STORE.to_vec())
        .prev_hash([0u8; 32].to_vec())  // Bob's own chain
        .parent_hashes(vec![h1.to_vec()])  // Cites H1 as parent
        .put(b"/key".to_vec(), b"v2".to_vec())
        .sign(&bob);
    store.apply_entry(&entry3).unwrap();

    // Should have 2 heads: Alice's tombstone and Bob's v2
    let heads = store.get_heads(b"/key").unwrap();
    assert_eq!(heads.len(), 2, "Expected 2 heads (tombstone + put), got {}", heads.len());

    // One should be a tombstone, one should be v2
    let has_tombstone = heads.iter().any(|h| h.tombstone);
    let has_v2 = heads.iter().any(|h| h.value == b"v2");
    assert!(has_tombstone, "Expected a tombstone head");
    assert!(has_v2, "Expected a v2 head");
}

#[test]
fn store_test_two_authors_diverged_then_merge() {
    // Scenario:
    // 1. Alice creates K = v1 (head H1)
    // 2. Bob (offline, doesn't see H1) creates K = v2 (head H2)
    // 3. Result: 2 heads (conflict)
    // 4. Charlie (sees both) creates K = v3 citing H1 and H2
    // 5. Result: 1 head (merged)

    let mut store = Store::open();
    let alice = NodeIdentity::generate();
    let bob = NodeIdentity::generate();
    let charlie = NodeIdentity::generate();

    // Alice creates K = v1
    let clock1 = MockClock::new(1000);
    let entry1 = EntryBuilder::new(1, HLC::now_with_clock(&clock1))
        .store_id(TEST_STORE.to_vec())
        .prev_hash([0u8; 32].to_vec())
        .put(b"/key".to_vec(), b"alice_v1".to_vec())
        .sign(&alice);
    store.apply_entry(&entry1).unwrap();
    let h1 = hash_signed_entry(&entry1);

    // Bob (offline, no parent_hashes) creates K = v2
    let clock2 = MockClock::new(2000);
    let entry2 = EntryBuilder::new(1, HLC::now_with_clock(&clock2))
        .store_id(TEST_STORE.to_vec())
        .prev_hash([0u8; 32].to_vec())
        // No parent_hashes = concurrent/diverged
        .put(b"/key".to_vec(), b"bob_v2".to_vec())
        .sign(&bob);
    store.apply_entry(&entry2).unwrap();
    let h2 = hash_signed_entry(&entry2);

    // Should have 2 heads now
    let heads = store.get_heads(b"/key").unwrap();
    assert_eq!(heads.len(), 2, "Expected 2 diverged heads");

    // Verify deterministic winner (higher HLC wins)
    let value = store.get(b"/key").unwrap().unwrap();
    assert_eq!(value, b"bob_v2"); // Bob has higher HLC (2000 > 1000)

    // Charlie merges by citing both H1 and H2
    let clock3 = MockClock::new(3000);
    let entry3 = EntryBuilder::new(1, HLC::now_with_clock(&clock3))
        .store_id(TEST_STORE.to_vec())
        .prev_hash([0u8; 32].to_vec())
        .parent_hashes(vec![h1.to_vec(), h2.to_vec()])
        .put(b"/key".to_vec(), b"charlie_merged".to_vec())
        .sign(&charlie);
    store.apply_entry(&entry3).unwrap();

    // Should have 1 head now (merged)
    let heads = store.get_heads(b"/key").unwrap();
    assert_eq!(heads.len(), 1, "Expected 1 merged head");
    assert_eq!(heads[0].value, b"charlie_merged");
}

#[test]
fn store_test_apply_entry_is_idempotent() {
    // Applying the same entry twice should not duplicate the head
    // This is critical for log replay and network message deduplication

    let mut store = Store::open();
    let node = NodeIdentity::generate();

    let clock1 = MockClock::new(1000);
    let entry1 = EntryBuilder::new(1, HLC::now_with_clock(&clock1))
        .store_id(TEST_STORE.to_vec())
        .prev_hash([0u8; 32].to_vec())
        .put(b"/key".to_vec(), b"value".to_vec())
        .sign(&node);

    // Apply once
    store.apply_entry(&entry1).unwrap();
    assert_eq!(store.get_heads(b"/key").unwrap().len(), 1);

    // Apply again (e.g., log replay or duplicate message)
    store.apply_entry(&entry1).unwrap();
    assert_eq!(store.get_heads(b"/key").unwrap().len(), 1, "Duplicate entry should not create duplicate head");

    // Apply a third time for good measure
    store.apply_entry(&entry1).unwrap();
    assert_eq!(store.get_heads(b"/key").unwrap().len(), 1);
}

#[test]
fn store_test_sequential_writes_then_replay() {
    // Simulates: put a=1, put a=2, then replay from log
    // After replay, should have only 1 head (the latest)

    let mut store = Store::open();
    let node = NodeIdentity::generate();

    // First write: a = 1
    let clock1 = MockClock::new(1000);
    let entry1 = EntryBuilder::new(1, HLC::now_with_clock(&clock1))
        .store_id(TEST_STORE.to_vec())
        .prev_hash([0u8; 32].to_vec())
        .parent_hashes(vec![])  // No parents for first write
        .put(b"/key".to_vec(), b"1".to_vec())
        .sign(&node);
    store.apply_entry(&entry1).unwrap();
    let h1 = hash_signed_entry(&entry1);

    assert_eq!(store.get_heads(b"/key").unwrap().len(), 1);

    // Second write: a = 2, citing h1 as parent
    let clock2 = MockClock::new(2000);
    let entry2 = EntryBuilder::new(2, HLC::now_with_clock(&clock2))
        .store_id(TEST_STORE.to_vec())
        .prev_hash(h1.to_vec())
        .parent_hashes(vec![h1.to_vec()])  // Cites h1
        .put(b"/key".to_vec(), b"2".to_vec())
        .sign(&node);
    store.apply_entry(&entry2).unwrap();

    assert_eq!(store.get_heads(b"/key").unwrap().len(), 1, "After put 2, should have 1 head");

    // Now simulate log replay: clear state and re-apply both entries
    drop(store);
    let mut store = Store::open();

    // Check what parent_hashes entry2 actually has
    let decoded_entry2 = verify_signed_entry(&entry2).unwrap();
    assert_eq!(decoded_entry2.parent_hashes, vec![h1.to_vec()]);

    // Replay entry1
    store.apply_entry(&entry1).unwrap();
    assert_eq!(store.get_heads(b"/key").unwrap().len(), 1, "After replay entry1");

    // Replay entry2
    store.apply_entry(&entry2).unwrap();
    let heads = store.get_heads(b"/key").unwrap();
    assert_eq!(heads.len(), 1, "After replay entry2, should have 1 head, got {}: {:?}",
        heads.len(), heads.iter().map(|h| String::from_utf8_lossy(&h.value)).collect::<Vec<_>>());
}

#[test]
fn store_test_replay_to_existing_state_no_duplicates() {
    // This simulates: put a=1, put a=2, then restart and replay from log
    // The replay should skip already-applied entries

    let mut store = Store::open();
    let node = NodeIdentity::generate();
    let mut sigchain = SigChain::new(b"test.log".to_vec(), TEST_STORE, node.public_key());

    // First write: a = 1
    let clock1 = MockClock::new(1000);
    let entry1 = EntryBuilder::new(1, HLC::now_with_clock(&clock1))
        .store_id(TEST_STORE.to_vec())
        .prev_hash([0u8; 32].to_vec())
        .parent_hashes(vec![])
        .put(b"/key".to_vec(), b"1".to_vec())
        .sign(&node);
    sigchain.append(&entry1).unwrap();
    store.apply_entry(&entry1).unwrap();
    let h1 = hash_signed_entry(&entry1);

    // Second write: a = 2, citing h1 as parent
    let clock2 = MockClock::new(2000);
    let entry2 = EntryBuilder::new(2, HLC::now_with_clock(&clock2))
        .store_id(TEST_STORE.to_vec())
        .prev_hash(h1.to_vec())
        .parent_hashes(vec![h1.to_vec()])
        .put(b"/key".to_vec(), b"2".to_vec())
        .sign(&node);
    sigchain.append(&entry2).unwrap();
    store.apply_entry(&entry2).unwrap();

    assert_eq!(store.get_heads(b"/key").unwrap().len(), 1, "Before restart");
    let author = node.public_key();
    assert_eq!(store.author_state(&author).unwrap().seq, 2, "author seq should be 2");

    // Simulate restart: reopen state.db (persisted) and replay log
    let log = sigchain.entries();

    let mut store = reopened(&store);  // Reopen existing state
    assert_eq!(store.author_state(&author).unwrap().seq, 2, "author seq persisted");

    // Replay log - apply_head skips entries whose parents don't exist
    let replayed = store.replay_log(log).unwrap();
    assert_eq!(replayed, 2, "Replayed 2 entries from log");

    let final_heads = store.get_heads(b"/key").unwrap();
    assert_eq!(final_heads.len(), 1,
        "After replay, should have 1 head, got {}: {:?}",
        final_heads.len(),
        final_heads.iter().map(|h| String::from_utf8_lossy(&h.value)).collect::<Vec<_>>());
}

#[test]
fn store_test_fast_resume_on_restart() {
    // Fast resume: entries already applied are skipped based on per-author seq

    let mut store = Store::open();
    let node = NodeIdentity::generate();
    let author = node.public_key();
    let mut sigchain = SigChain::new(b"test.log".to_vec(), TEST_STORE, node.public_key());

    // Apply 3 entries with proper chaining
    for i in 1u64..=3 {
        let clock = MockClock::new(i * 1000);
        let prev = sigchain.last_hash().to_vec();
        let entry = EntryBuilder::new(i, HLC::now_with_clock(&clock))
            .store_id(TEST_STORE.to_vec())
            .prev_hash(prev)
            .put(format!("/key{}", i).into_bytes(), format!("v{}", i).into_bytes())
            .sign(&node);
        sigchain.append(&entry).unwrap();
        store.apply_entry(&entry).unwrap();
    }

    assert_eq!(store.author_state(&author).unwrap().seq, 3);
    assert_eq!(store.get_heads(b"/key3").unwrap().len(), 1);

    // Restart and replay - should skip all entries
    let log = sigchain.entries();

    let mut store = reopened(&store);
    let replayed = store.replay_log(log).unwrap();

    // All 3 entries were replayed but skipped (seq check)
    assert_eq!(replayed, 3, "Replayed 3 entries from log");
    assert_eq!(store.author_state(&author).unwrap().seq, 3, "seq unchanged");
    assert_eq!(store.get_heads(b"/key3").unwrap().len(), 1, "heads unchanged");
}

#[test]
fn store_test_partial_replay_after_crash() {
    // Simulates: log has 5 entries, state.db only has first 3 applied (crash)
    // Replay should apply entries 4 and 5

    let mut store = Store::open();
    let node = NodeIdentity::generate();
    let author = node.public_key();
    let mut sigchain = SigChain::new(b"test.log".to_vec(), TEST_STORE, node.public_key());

    // Write 5 entries to log with proper chaining
    for i in 1u64..=5 {
        let clock = MockClock::new(i * 1000);
        let prev = sigchain.last_hash().to_vec();
        let entry = EntryBuilder::new(i, HLC::now_with_clock(&clock))
            .store_id(TEST_STORE.to_vec())
            .prev_hash(prev)
            .put(format!("/key{}", i).into_bytes(), format!("v{}", i).into_bytes())
            .sign(&node);
        sigchain.append(&entry).unwrap();

        // Only apply first 3 to state.db (simulating crash after 3rd)
        if i <= 3 {
            store.apply_entry(&entry).unwrap();
        }
    }

    assert_eq!(store.author_state(&author).unwrap().seq, 3);
    assert!(store.get_heads(b"/key4").unwrap().is_empty(), "key4 not applied yet");

    // Simulate restart and replay
    let log = sigchain.entries();

    let mut store = reopened(&store);
    let replayed = store.replay_log(log).unwrap();

    assert_eq!(replayed, 5, "Replayed 5 entries from log");
    assert_eq!(store.author_state(&author).unwrap().seq, 5, "seq updated to 5");
    assert_eq!(store.get_heads(b"/key4").unwrap().len(), 1, "key4 now applied");
    assert_eq!(store.get_heads(b"/key5").unwrap().len(), 1, "key5 now applied");
}

#[test]
fn store_test_state_db_rollback_and_replay() {
    // Simulates:
    // 1. Apply entries 1-3
    // 2. Copy state.db (backup)
    // 3. Apply entries 4-5
    // 4. Restore state.db from backup
    // 5. Restart and replay - should apply entries 4-5

    let mut store = Store::open();
    let node = NodeIdentity::generate();
    let author = node.public_key();
    let mut sigchain = SigChain::new(b"test.log".to_vec(), TEST_STORE, node.public_key());

    // Apply first 3 entries
    for i in 1u64..=3 {
        let clock = MockClock::new(i * 1000);
        let prev = sigchain.last_hash().to_vec();
        let entry = EntryBuilder::new(i, HLC::now_with_clock(&clock))
            .store_id(TEST_STORE.to_vec())
            .prev_hash(prev)
            .put(format!("/key{}", i).into_bytes(), format!("v{}", i).into_bytes())
            .sign(&node);
        sigchain.append(&entry).unwrap();
        store.apply_entry(&entry).unwrap();
    }

    assert_eq!(store.author_state(&author).unwrap().seq, 3);

    // Close and backup state.db
    let backup = reopened(&store);

    // Reopen and apply entries 4-5
    let mut store = reopened(&store);
    for i in 4u64..=5 {
        let clock = MockClock::new(i * 1000);
        let prev = sigchain.last_hash().to_vec();
        let entry = EntryBuilder::new(i, HLC::now_with_clock(&clock))
            .store_id(TEST_STORE.to_vec())
            .prev_hash(prev)
            .put(format!("/key{}", i).into_bytes(), format!("v{}", i).into_bytes())
            .sign(&node);
        sigchain.append(&entry).unwrap();
        store.apply_entry(&entry).unwrap();
    }

    assert_eq!(store.author_state(&author).unwrap().seq, 5);
    assert_eq!(store.get_heads(b"/key5").unwrap().len(), 1);

    // Now restore state.db from backup (simulating crash/rollback)
    let log = sigchain.entries();

    // Restart and replay
    let mut store = backup;

    // State should be at seq 3 (restored from backup)
    assert_eq!(store.author_state(&author).unwrap().seq, 3, "Restored to seq 3");
    assert!(store.get_heads(b"/key4").unwrap().is_empty(), "key4 not in restored state");

    // Replay log - should apply entries 4 and 5
    let replayed = store.replay_log(log).unwrap();
    assert_eq!(replayed, 5, "Replayed 5 entries from log");

    // Now seq should be 5 and keys 4-5 should exist
    assert_eq!(store.author_state(&author).unwrap().seq, 5, "seq updated to 5");
    assert_eq!(store.get_heads(b"/key4").unwrap().len(), 1, "key4 now applied");
    assert_eq!(store.get_heads(b"/key5").unwrap().len(), 1, "key5 now applied");
}
