use lattice_core::clock::MockClock;
use lattice_core::entry::{ChainTip, Entry, SignedEntry};
use lattice_core::head::{pick_winner, Head};
use lattice_core::hlc::HLC;
use lattice_core::node_identity::NodeIdentity;
use lattice_core::proto::storage::Operation;
use lattice_core::store::error::StateError;
use lattice_core::store::log::Log;
use lattice_core::store::sigchain::SigChain;
use lattice_core::store::state::State;
use lattice_core::table::ByteTable;

const TEST_STORE: [u8; 16] = [1u8; 16];

fn new_log() -> Log {
    Log::open_or_create(b"test.log".to_vec(), None)
}

/// All entries of a log.
fn read_entries(log: &Log) -> Vec<SignedEntry> {
    log.read_all().into_iter().collect::<Result<Vec<_>, _>>().unwrap()
}

/// What is written to disk and read back.
fn copied(table: &ByteTable) -> ByteTable {
    let mut copy = ByteTable::new();
    for i in 0..table.len() {
        copy.insert(table.key_at(i), table.value_at(i).clone());
    }
    copy
}

fn reopened(state: &State) -> State {
    State::from_tables(copied(state.kv_table()), copied(state.tips_table()))
}

#[test]
fn state_test_single_write_one_head() {
    let mut state = State::open();
    let node = NodeIdentity::generate();
    let clock = MockClock::new(1000);

    let entry = Entry::next_after(None)
        .timestamp(HLC::now_with_clock(&clock))
        .store_id(TEST_STORE.to_vec())
        .operation(Operation::put(b"/key".to_vec(), b"value".to_vec()))
        .sign(&node);

    state.apply_entry(&entry).unwrap();

    let heads = state.get_heads(b"/key").unwrap();
    assert_eq!(heads.len(), 1);
    assert_eq!(heads[0].value, b"value");
}

#[test]
fn state_test_deterministic_winner() {
    // Test pick_winner logic directly (no store needed)
    let heads = vec![
        Head {
            value: b"older".to_vec(),
            hlc: HLC { wall_time: 100, counter: 0 },
            author: [1u8; 32],
            hash: [1u8; 32],
            tombstone: false,
        },
        Head {
            value: b"newer".to_vec(),
            hlc: HLC { wall_time: 200, counter: 0 },
            author: [2u8; 32],
            hash: [2u8; 32],
            tombstone: false,
        },
    ];

    let winner = pick_winner(&heads).unwrap();
    assert_eq!(winner.value, b"newer"); // Higher HLC wins
}

#[test]
fn state_test_concurrent_writes_multiple_heads() {
    let mut state = State::open();
    let node = NodeIdentity::generate();
    let clock = MockClock::new(1000);

    // First write
    let entry1 = Entry::next_after(None)
        .timestamp(HLC::now_with_clock(&clock))
        .store_id(TEST_STORE.to_vec())
        .operation(Operation::put(b"/key".to_vec(), b"v1".to_vec()))
        .sign(&node);
    state.apply_entry(&entry1).unwrap();

    // Second write with SAME parent (simulates concurrent/offline write)
    let clock2 = MockClock::new(2000);
    let entry2 = Entry::next_after(Some(&ChainTip::of_entry(&entry1)))
        .timestamp(HLC::now_with_clock(&clock2))
        .store_id(TEST_STORE.to_vec())
        .parent_hashes(vec![]) // Also no parent (doesn't know about entry1)
        .operation(Operation::put(b"/key".to_vec(), b"v2".to_vec()))
        .sign(&node);
    state.apply_entry(&entry2).unwrap();

    // Should have TWO heads now
    let heads = state.get_heads(b"/key").unwrap();
    assert_eq!(heads.len(), 2);
}

#[test]
fn state_test_merge_write_single_head() {
    let mut state = State::open();
    let node = NodeIdentity::generate();

    // Create two heads
    let clock1 = MockClock::new(1000);
    let entry1 = Entry::next_after(None)
        .timestamp(HLC::now_with_clock(&clock1))
        .store_id(TEST_STORE.to_vec())
        .parent_hashes(vec![])
        .operation(Operation::put(b"/key".to_vec(), b"v1".to_vec()))
        .sign(&node);
    state.apply_entry(&entry1).unwrap();

    let clock2 = MockClock::new(2000);
    let entry2 = Entry::next_after(Some(&ChainTip::of_entry(&entry1)))
        .timestamp(HLC::now_with_clock(&clock2))
        .store_id(TEST_STORE.to_vec())
        .parent_hashes(vec![])
        .operation(Operation::put(b"/key".to_vec(), b"v2".to_vec()))
        .sign(&node);
    state.apply_entry(&entry2).unwrap();

    assert_eq!(state.get_heads(b"/key").unwrap().len(), 2);

    // Merge write citing BOTH heads as parents
    let hash1 = entry1.hash();
    let hash2 = entry2.hash();
    let clock3 = MockClock::new(3000);
    let entry3 = Entry::next_after(Some(&ChainTip::of_entry(&entry2)))
        .timestamp(HLC::now_with_clock(&clock3))
        .store_id(TEST_STORE.to_vec())
        .parent_hashes(vec![hash1.to_vec(), hash2.to_vec()])
        .operation(Operation::put(b"/key".to_vec(), b"merged".to_vec()))
        .sign(&node);
    state.apply_entry(&entry3).unwrap();

    // Should now have ONE head
    let heads = state.get_heads(b"/key").unwrap();
    assert_eq!(heads.len(), 1);
    assert_eq!(heads[0].value, b"merged");
}

#[test]
fn state_test_delete_preserves_concurrent_heads() {
    let mut state = State::open();
    let node = NodeIdentity::generate();
    let node2 = NodeIdentity::generate();

    // Create two concurrent heads
    let clock1 = MockClock::new(1000);
    let entry1 = Entry::next_after(None)
        .timestamp(HLC::now_with_clock(&clock1))
        .store_id(TEST_STORE.to_vec())
        .operation(Operation::put(b"/key".to_vec(), b"v1".to_vec()))
        .sign(&node);
    state.apply_entry(&entry1).unwrap();

    let clock2 = MockClock::new(2000);
    let entry2 = Entry::next_after(None)
        .timestamp(HLC::now_with_clock(&clock2))
        .store_id(TEST_STORE.to_vec())
        .operation(Operation::put(b"/key".to_vec(), b"v2".to_vec()))
        .sign(&node2);
    state.apply_entry(&entry2).unwrap();

    assert_eq!(state.get_heads(b"/key").unwrap().len(), 2);

    // Delete citing only entry1 as parent
    // NOTE: Test used seq 3 manually, but citing entry1 (seq 1).
    // We replicate this by fabricating a tip at seq 2.
    let hash1 = entry1.hash();
    let clock3 = MockClock::new(3000);
    let fake_tip = ChainTip { seq: 2, hash: hash1, hlc: entry1.entry.timestamp };
    let entry3 = Entry::next_after(Some(&fake_tip))
        .timestamp(HLC::now_with_clock(&clock3))
        .store_id(TEST_STORE.to_vec())
        .parent_hashes(vec![hash1.to_vec()]) // Only cites entry1
        .operation(Operation::delete(b"/key".to_vec()))
        .sign(&node);
    state.apply_entry(&entry3).unwrap();

    // entry2 should survive (wasn't cited as parent), plus tombstone head
    let heads = state.get_heads(b"/key").unwrap();
    assert_eq!(heads.len(), 2, "Expected tombstone + v2, got {}", heads.len());

    // One should be a tombstone, one should be v2
    let has_tombstone = heads.iter().any(|h| h.tombstone);
    let has_v2 = heads.iter().any(|h| h.value == b"v2");
    assert!(has_tombstone);
    assert!(has_v2);
}

#[test]
fn state_test_delete_all_heads_removes_key() {
    let mut state = State::open();
    let node = NodeIdentity::generate();

    // Create a single head
    let clock1 = MockClock::new(1000);
    let entry1 = Entry::next_after(None)
        .timestamp(HLC::now_with_clock(&clock1))
        .store_id(TEST_STORE.to_vec())
        .operation(Operation::put(b"/key".to_vec(), b"value".to_vec()))
        .sign(&node);
    state.apply_entry(&entry1).unwrap();

    assert!(state.get(b"/key").unwrap().is_some());

    // Delete citing the only head
    let hash1 = entry1.hash();
    let clock2 = MockClock::new(2000);
    let entry2 = Entry::next_after(Some(&ChainTip::of_entry(&entry1)))
        .timestamp(HLC::now_with_clock(&clock2))
        .store_id(TEST_STORE.to_vec())
        .parent_hashes(vec![hash1.to_vec()])
        .operation(Operation::delete(b"/key".to_vec()))
        .sign(&node);
    state.apply_entry(&entry2).unwrap();

    // Key should show as deleted (tombstone wins)
    assert!(state.get(b"/key").unwrap().is_none());

    // Should have one tombstone head
    let heads = state.get_heads(b"/key").unwrap();
    assert_eq!(heads.len(), 1);
    assert!(heads[0].tombstone);
}

#[test]
fn state_test_concurrent_delete_and_put() {
    // This test demonstrates that concurrent delete and put should both exist as heads
    // Scenario:
    // 1. Initial: K = v1 (head H1)
    // 2. Alice (offline): Delete K citing H1
    // 3. Bob (offline): Put K = v2 citing H1 (doesn't know about delete)
    // 4. Result: Should have 2 heads (tombstone + v2), not just v2

    let mut state = State::open();
    let alice = NodeIdentity::generate();
    let bob = NodeIdentity::generate();

    // Initial state: K = v1
    let clock1 = MockClock::new(1000);
    let entry1 = Entry::next_after(None)
        .timestamp(HLC::now_with_clock(&clock1))
        .store_id(TEST_STORE.to_vec())
        .operation(Operation::put(b"/key".to_vec(), b"v1".to_vec()))
        .sign(&alice);
    state.apply_entry(&entry1).unwrap();
    let h1 = entry1.hash();

    // Alice deletes K citing H1
    let clock2 = MockClock::new(2000);
    let entry2 = Entry::next_after(Some(&ChainTip::of_entry(&entry1)))
        .timestamp(HLC::now_with_clock(&clock2))
        .store_id(TEST_STORE.to_vec())
        .operation(Operation::delete(b"/key".to_vec()))
        .sign(&alice);
    state.apply_entry(&entry2).unwrap();

    // Bob (concurrently) puts K = v2 citing H1 (doesn't know about Alice's delete)
    let clock3 = MockClock::new(2500);
    let entry3 = Entry::next_after(None)
        .timestamp(HLC::now_with_clock(&clock3))
        .store_id(TEST_STORE.to_vec())
        .parent_hashes(vec![h1.to_vec()])  // Cites H1 as parent
        .operation(Operation::put(b"/key".to_vec(), b"v2".to_vec()))
        .sign(&bob);
    state.apply_entry(&entry3).unwrap();

    // Should have 2 heads: Alice's tombstone and Bob's v2
    let heads = state.get_heads(b"/key").unwrap();
    assert_eq!(heads.len(), 2, "Expected 2 heads (tombstone + put), got {}", heads.len());

    // One should be a tombstone, one should be v2
    let has_tombstone = heads.iter().any(|h| h.tombstone);
    let has_v2 = heads.iter().any(|h| h.value == b"v2");
    assert!(has_tombstone, "Expected a tombstone head");
    assert!(has_v2, "Expected a v2 head");
}

#[test]
fn state_test_two_authors_diverged_then_merge() {
    // Scenario:
    // 1. Alice creates K = v1 (head H1)
    // 2. Bob (offline, doesn't see H1) creates K = v2 (head H2)
    // 3. Result: 2 heads (conflict)
    // 4. Charlie (sees both) creates K = v3 citing H1 and H2
    // 5. Result: 1 head (merged)

    let mut state = State::open();
    let alice = NodeIdentity::generate();
    let bob = NodeIdentity::generate();
    let charlie = NodeIdentity::generate();

    // Alice creates K = v1
    let clock1 = MockClock::new(1000);
    let entry1 = Entry::next_after(None)
        .timestamp(HLC::now_with_clock(&clock1))
        .store_id(TEST_STORE.to_vec())
        .operation(Operation::put(b"/key".to_vec(), b"alice_v1".to_vec()))
        .sign(&alice);
    state.apply_entry(&entry1).unwrap();
    let h1 = entry1.hash();

    // Bob (offline, no parent_hashes) creates K = v2
    let clock2 = MockClock::new(2000);
    let entry2 = Entry::next_after(None)
        .timestamp(HLC::now_with_clock(&clock2))
        .store_id(TEST_STORE.to_vec())
        // No parent_hashes = concurrent/diverged
        .operation(Operation::put(b"/key".to_vec(), b"bob_v2".to_vec()))
        .sign(&bob);
    state.apply_entry(&entry2).unwrap();
    let h2 = entry2.hash();

    // Should have 2 heads now
    let heads = state.get_heads(b"/key").unwrap();
    assert_eq!(heads.len(), 2, "Expected 2 diverged heads");

    // Verify deterministic winner (higher HLC wins)
    let value = state.get(b"/key").unwrap().unwrap();
    assert_eq!(value, b"bob_v2"); // Bob has higher HLC (2000 > 1000)

    // Charlie merges by citing both H1 and H2
    let clock3 = MockClock::new(3000);
    let entry3 = Entry::next_after(None)
        .timestamp(HLC::now_with_clock(&clock3))
        .store_id(TEST_STORE.to_vec())
        .parent_hashes(vec![h1.to_vec(), h2.to_vec()])
        .operation(Operation::put(b"/key".to_vec(), b"charlie_merged".to_vec()))
        .sign(&charlie);
    state.apply_entry(&entry3).unwrap();

    // Should have 1 head now (merged)
    let heads = state.get_heads(b"/key").unwrap();
    assert_eq!(heads.len(), 1, "Expected 1 merged head");
    assert_eq!(heads[0].value, b"charlie_merged");
}

#[test]
fn state_test_apply_entry_is_idempotent() {
    // Applying the same entry twice should not duplicate the head
    // This is critical for log replay and network message deduplication

    let mut state = State::open();
    let node = NodeIdentity::generate();

    let clock1 = MockClock::new(1000);
    let entry1 = Entry::next_after(None)
        .timestamp(HLC::now_with_clock(&clock1))
        .store_id(TEST_STORE.to_vec())
        .parent_hashes(vec![])
        .operation(Operation::put(b"/key".to_vec(), b"value".to_vec()))
        .sign(&node);

    // Apply once
    state.apply_entry(&entry1).unwrap();
    assert_eq!(state.get_heads(b"/key").unwrap().len(), 1);

    // Apply again - should get NotSuccessor error
    assert!(matches!(
        state.apply_entry(&entry1),
        Err(StateError::NotSuccessor { .. })
    ));
    assert_eq!(state.get_heads(b"/key").unwrap().len(), 1, "Duplicate entry should not create duplicate head");

    // Apply a third time - also NotSuccessor
    assert!(matches!(
        state.apply_entry(&entry1),
        Err(StateError::NotSuccessor { .. })
    ));
    assert_eq!(state.get_heads(b"/key").unwrap().len(), 1);
}

#[test]
fn state_test_sequential_writes_then_replay() {
    // Simulates: put a=1, put a=2, then replay from log
    // After replay, should have only 1 head (the latest)

    let mut state = State::open();
    let node = NodeIdentity::generate();

    // First write: a = 1
    let clock1 = MockClock::new(1000);
    let entry1 = Entry::next_after(None)
        .timestamp(HLC::now_with_clock(&clock1))
        .store_id(TEST_STORE.to_vec())
        .parent_hashes(vec![])
        .operation(Operation::put(b"/key".to_vec(), b"1".to_vec()))
        .sign(&node);
    state.apply_entry(&entry1).unwrap();
    let h1 = entry1.hash();

    assert_eq!(state.get_heads(b"/key").unwrap().len(), 1);

    // Second write: a = 2, citing h1 as parent
    let clock2 = MockClock::new(2000);
    let entry2 = Entry::next_after(Some(&ChainTip::of_entry(&entry1)))
        .timestamp(HLC::now_with_clock(&clock2))
        .store_id(TEST_STORE.to_vec())
        .parent_hashes(vec![h1.to_vec()])
        .operation(Operation::put(b"/key".to_vec(), b"2".to_vec()))
        .sign(&node);
    state.apply_entry(&entry2).unwrap();

    assert_eq!(state.get_heads(b"/key").unwrap().len(), 1, "After put 2, should have 1 head");

    // Now simulate log replay: clear state and re-apply both entries
    drop(state);
    let mut state = State::open();

    // Check what parent_hashes entry2 actually has
    let decoded_entry2 = SignedEntry::from_proto(&entry2.to_proto()).unwrap().entry;
    assert_eq!(decoded_entry2.parent_hashes, vec![h1]);

    // Replay entry1
    state.apply_entry(&entry1).unwrap();
    assert_eq!(state.get_heads(b"/key").unwrap().len(), 1, "After replay entry1");

    // Replay entry2
    state.apply_entry(&entry2).unwrap();
    let heads = state.get_heads(b"/key").unwrap();
    assert_eq!(heads.len(), 1, "After replay entry2, should have 1 head, got {}: {:?}",
        heads.len(), heads.iter().map(|h| String::from_utf8_lossy(&h.value)).collect::<Vec<_>>());
}

#[test]
fn state_test_replay_to_existing_state_no_duplicates() {
    // This simulates: put a=1, put a=2, then restart and replay from log
    // The replay should skip already-applied entries

    let mut state = State::open();
    let node = NodeIdentity::generate();
    let mut sigchain = SigChain::new(new_log(), TEST_STORE, node.public_key());

    // First write: a = 1
    let clock1 = MockClock::new(1000);
    let entry1 = Entry::next_after(None)
        .timestamp(HLC::now_with_clock(&clock1))
        .store_id(TEST_STORE.to_vec())
        .parent_hashes(vec![])
        .operation(Operation::put(b"/key".to_vec(), b"1".to_vec()))
        .sign(&node);
    sigchain.append(&entry1).unwrap();
    state.apply_entry(&entry1).unwrap();
    let h1 = entry1.hash();

    // Second write: a = 2, citing h1 as parent
    let clock2 = MockClock::new(2000);
    let entry2 = Entry::next_after(Some(&ChainTip::of_entry(&entry1)))
        .timestamp(HLC::now_with_clock(&clock2))
        .store_id(TEST_STORE.to_vec())
        .parent_hashes(vec![h1.to_vec()])
        .operation(Operation::put(b"/key".to_vec(), b"2".to_vec()))
        .sign(&node);
    sigchain.append(&entry2).unwrap();
    state.apply_entry(&entry2).unwrap();

    assert_eq!(state.get_heads(b"/key").unwrap().len(), 1, "Before restart");
    let author = node.public_key();
    assert_eq!(state.chain_tip(&author).unwrap().seq, 2, "author seq should be 2");

    // Simulate restart: reopen state.db (persisted) and replay log
    let log = sigchain.log();

    let mut state = reopened(&state);  // Reopen existing state
    assert_eq!(state.chain_tip(&author).unwrap().seq, 2, "author seq persisted");

    // Replay log - entries already applied, skip all
    let replayed = state.replay_entries(&log.read_all()).unwrap_or(0);
    assert_eq!(replayed, 0, "0 new entries (all skipped)");

    let final_heads = state.get_heads(b"/key").unwrap();
    assert_eq!(final_heads.len(), 1,
        "After replay, should have 1 head, got {}: {:?}",
        final_heads.len(),
        final_heads.iter().map(|h| String::from_utf8_lossy(&h.value)).collect::<Vec<_>>());
}

#[test]
fn state_test_fast_resume_on_restart() {
    // Fast resume: entries already applied are skipped based on per-author seq

    let mut state = State::open();
    let node = NodeIdentity::generate();
    let author = node.public_key();
    let mut sigchain = SigChain::new(new_log(), TEST_STORE, node.public_key());

    // Apply 3 entries with proper chaining
    for i in 1u64..=3 {
        let clock = MockClock::new(i * 1000);
        let entry = Entry::next_after(sigchain.tip().as_ref())
            .timestamp(HLC::now_with_clock(&clock))
            .store_id(TEST_STORE.to_vec())
            .parent_hashes(vec![])
            .operation(Operation::put(format!("/key{}", i).into_bytes(), format!("v{}", i).into_bytes()))
            .sign(&node);
        sigchain.append(&entry).unwrap();
        state.apply_entry(&entry).unwrap();
    }

    assert_eq!(state.chain_tip(&author).unwrap().seq, 3);
    assert_eq!(state.get_heads(b"/key3").unwrap().len(), 1);

    // Restart and replay - should skip all entries
    let log = sigchain.log();

    let mut state = reopened(&state);
    let replayed = state.replay_entries(&log.read_all()).unwrap_or(0);

    // All 3 entries were read but skipped (already applied)
    assert_eq!(replayed, 0, "0 new entries (all skipped)");
    assert_eq!(state.chain_tip(&author).unwrap().seq, 3, "seq unchanged");
    assert_eq!(state.get_heads(b"/key3").unwrap().len(), 1, "heads unchanged");
}

#[test]
fn state_test_partial_replay_after_crash() {
    // Simulates: log has 5 entries, state.db only has first 3 applied (crash)
    // Replay should apply entries 4 and 5

    let mut state = State::open();
    let node = NodeIdentity::generate();
    let author = node.public_key();
    let mut sigchain = SigChain::new(new_log(), TEST_STORE, node.public_key());

    // Write 5 entries to log with proper chaining
    for i in 1u64..=5 {
        let clock = MockClock::new(i * 1000);
        let entry = Entry::next_after(sigchain.tip().as_ref())
            .timestamp(HLC::now_with_clock(&clock))
            .store_id(TEST_STORE.to_vec())
            .parent_hashes(vec![])
            .operation(Operation::put(format!("/key{}", i).into_bytes(), format!("v{}", i).into_bytes()))
            .sign(&node);
        sigchain.append(&entry).unwrap();

        // Only apply first 3 to state.db (simulating crash after 3rd)
        if i <= 3 {
            state.apply_entry(&entry).unwrap();
        }
    }

    assert_eq!(state.chain_tip(&author).unwrap().seq, 3);
    assert!(state.get_heads(b"/key4").unwrap().is_empty(), "key4 not applied yet");

    // Simulate restart and replay
    let log = sigchain.log();

    let mut state = reopened(&state);
    let replayed = state.replay_entries(&log.read_all()).unwrap_or(0);

    assert_eq!(replayed, 2, "Only 2 new entries applied (3 skipped)");
    assert_eq!(state.chain_tip(&author).unwrap().seq, 5, "seq updated to 5");
    assert_eq!(state.get_heads(b"/key4").unwrap().len(), 1, "key4 now applied");
    assert_eq!(state.get_heads(b"/key5").unwrap().len(), 1, "key5 now applied");
}

#[test]
fn state_test_state_db_rollback_and_replay() {
    // Simulates:
    // 1. Apply entries 1-3
    // 2. Copy state.db (backup)
    // 3. Apply entries 4-5
    // 4. Restore state.db from backup
    // 5. Restart and replay - should apply entries 4-5

    let mut state = State::open();
    let node = NodeIdentity::generate();
    let author = node.public_key();
    let mut sigchain = SigChain::new(new_log(), TEST_STORE, node.public_key());

    // Apply first 3 entries
    for i in 1u64..=3 {
        let clock = MockClock::new(i * 1000);
        let entry = Entry::next_after(sigchain.tip().as_ref())
            .timestamp(HLC::now_with_clock(&clock))
            .store_id(TEST_STORE.to_vec())
            .parent_hashes(vec![])
            .operation(Operation::put(format!("/key{}", i).into_bytes(), format!("v{}", i).into_bytes()))
            .sign(&node);
        sigchain.append(&entry).unwrap();
        state.apply_entry(&entry).unwrap();
    }

    assert_eq!(state.chain_tip(&author).unwrap().seq, 3);

    // Close and backup state.db
    let backup = reopened(&state);

    // Reopen and apply entries 4-5
    let mut state = reopened(&state);
    for i in 4u64..=5 {
        let clock = MockClock::new(i * 1000);
        let entry = Entry::next_after(sigchain.tip().as_ref())
            .timestamp(HLC::now_with_clock(&clock))
            .store_id(TEST_STORE.to_vec())
            .parent_hashes(vec![])
            .operation(Operation::put(format!("/key{}", i).into_bytes(), format!("v{}", i).into_bytes()))
            .sign(&node);
        sigchain.append(&entry).unwrap();
        state.apply_entry(&entry).unwrap();
    }

    assert_eq!(state.chain_tip(&author).unwrap().seq, 5);
    assert_eq!(state.get_heads(b"/key5").unwrap().len(), 1);

    // Now restore state.db from backup (simulating crash/rollback)
    let log = sigchain.log();

    // Restart and replay
    let mut state = backup;

    // State should be at seq 3 (restored from backup)
    assert_eq!(state.chain_tip(&author).unwrap().seq, 3, "Restored to seq 3");
    assert!(state.get_heads(b"/key4").unwrap().is_empty(), "key4 not in restored state");

    // Replay log - should apply entries 4 and 5 (skip 1-3)
    let replayed = state.replay_entries(&log.read_all()).unwrap_or(0);
    assert_eq!(replayed, 2, "Only 2 new entries applied (3 skipped)");

    // Now seq should be 5 and keys 4-5 should exist
    assert_eq!(state.chain_tip(&author).unwrap().seq, 5, "seq updated to 5");
    assert_eq!(state.get_heads(b"/key4").unwrap().len(), 1, "key4 now applied");
    assert_eq!(state.get_heads(b"/key5").unwrap().len(), 1, "key5 now applied");
}

#[test]
fn state_test_needs_put_empty_heads() {
    // No heads = need put
    let heads: Vec<Head> = vec![];
    assert!(State::needs_put(&heads, b"value"));
}

#[test]
fn state_test_needs_put_same_value() {
    // Single head with same value = idempotent, no put needed
    let heads = vec![Head {
        value: b"hello".to_vec(),
        hlc: HLC { wall_time: 1000, counter: 0 },
        author: [1u8; 32],
        hash: [2u8; 32],
        tombstone: false,
    }];
    assert!(!State::needs_put(&heads, b"hello"));
}

#[test]
fn state_test_needs_put_different_value() {
    // Single head with different value = need put
    let heads = vec![Head {
        value: b"hello".to_vec(),
        hlc: HLC { wall_time: 1000, counter: 0 },
        author: [1u8; 32],
        hash: [2u8; 32],
        tombstone: false,
    }];
    assert!(State::needs_put(&heads, b"world"));
}

#[test]
fn state_test_needs_put_multiple_heads_winner_matches() {
    // Multiple heads where WINNER has our value = idempotent
    // Winner is highest HLC (1001), value "v2"
    let heads = vec![
        Head {
            value: b"v1".to_vec(),
            hlc: HLC { wall_time: 1000, counter: 0 },
            author: [1u8; 32],
            hash: [2u8; 32],
            tombstone: false,
        },
        Head {
            value: b"v2".to_vec(),
            hlc: HLC { wall_time: 1001, counter: 0 },  // Winner (highest HLC)
            author: [3u8; 32],
            hash: [4u8; 32],
            tombstone: false,
        },
    ];
    assert!(!State::needs_put(&heads, b"v2"));  // Winner has value = skip
    assert!(State::needs_put(&heads, b"v1"));   // Winner doesn't have value = put
}

#[test]
fn state_test_needs_delete_empty_heads() {
    // No heads = idempotent, no delete needed
    let heads: Vec<Head> = vec![];
    assert!(!State::needs_delete(&heads));
}

#[test]
fn state_test_needs_delete_with_heads() {
    // Has non-tombstone heads = need delete
    let heads = vec![Head {
        value: b"data".to_vec(),
        hlc: HLC { wall_time: 1000, counter: 0 },
        author: [1u8; 32],
        hash: [2u8; 32],
        tombstone: false,
    }];
    assert!(State::needs_delete(&heads));
}

#[test]
fn state_test_needs_delete_tombstone_is_winner() {
    // Winning head is already tombstone = no delete needed
    let heads = vec![Head {
        value: vec![],
        hlc: HLC { wall_time: 1000, counter: 0 },
        author: [1u8; 32],
        hash: [2u8; 32],
        tombstone: true,
    }];
    assert!(!State::needs_delete(&heads));
}


#[test]
fn state_test_conflict_deterministic_resolution() {
    // Test that two nodes writing the same key resolve deterministically

    let mut store_a = State::open();
    let mut store_b = State::open();
    let node_a = NodeIdentity::generate();
    let node_b = NodeIdentity::generate();

    // Both nodes write to the SAME key with different values
    // Use same HLC to force conflict (tie-break on author)
    let entry_a = Entry::next_after(None)
        .timestamp(HLC::now_with_clock(&MockClock::new(1000)))
        .store_id(TEST_STORE.to_vec())
        .parent_hashes(vec![])
        .operation(Operation::put(b"/shared_key".to_vec(), b"value_from_a".to_vec()))
        .sign(&node_a);
    store_a.apply_entry(&entry_a).unwrap();
    let mut log_a = new_log();
    log_a.append(&entry_a).unwrap();

    let entry_b = Entry::next_after(None)
        .timestamp(HLC::now_with_clock(&MockClock::new(1000)))  // Same HLC!
        .store_id(TEST_STORE.to_vec())
        .parent_hashes(vec![])
        .operation(Operation::put(b"/shared_key".to_vec(), b"value_from_b".to_vec()))
        .sign(&node_b);
    store_b.apply_entry(&entry_b).unwrap();
    let mut log_b = new_log();
    log_b.append(&entry_b).unwrap();

    // Before sync: A has A's value, B has B's value
    assert_eq!(store_a.get(b"/shared_key").unwrap(), Some(b"value_from_a".to_vec()));
    assert_eq!(store_b.get(b"/shared_key").unwrap(), Some(b"value_from_b".to_vec()));

    // Sync A → B and B → A
    for entry in read_entries(&log_a) {
        store_b.apply_entry(&entry).unwrap();
    }
    for entry in read_entries(&log_b) {
        store_a.apply_entry(&entry).unwrap();
    }

    // After sync: both should have SAME value (deterministic winner)
    let value_a = store_a.get(b"/shared_key").unwrap();
    let value_b = store_b.get(b"/shared_key").unwrap();
    assert_eq!(value_a, value_b, "Conflict should resolve deterministically");

    // Both should have 2 heads for this key (conflict)
    let heads_a = store_a.get_heads(b"/shared_key").unwrap();
    let heads_b = store_b.get_heads(b"/shared_key").unwrap();
    assert_eq!(heads_a.len(), 2, "Should have 2 heads (conflict)");
    assert_eq!(heads_b.len(), 2, "Should have 2 heads (conflict)");

    // Both stores have the same heads in same order (deterministic)
    assert_eq!(heads_a[0].value, heads_b[0].value, "Winner should be same");
    assert_eq!(heads_a[0].author, heads_b[0].author, "Winner author should be same");

    // Verify tie-breaker: winner is the one with higher author bytes (deterministic)
    // Since HLC is the same, the author with lexicographically higher bytes wins
    let winner_author = &heads_a[0].author;
    let loser_author = &heads_a[1].author;
    assert!(winner_author > loser_author, "Winner should have higher author bytes");
}

#[test]
fn state_test_hlc_tiebreak_explicit() {
    // Explicit test: equal HLC, winner determined by node ID (author bytes)

    let mut state = State::open();
    let node_low = NodeIdentity::generate();
    let node_high = NodeIdentity::generate();

    // Determine which node has "higher" author bytes
    let (high_node, low_node) = if node_high.public_key() > node_low.public_key() {
        (&node_high, &node_low)
    } else {
        (&node_low, &node_high)
    };

    // Both entries have SAME HLC
    let clock = MockClock::new(5000);

    let entry_low = Entry::next_after(None)
        .timestamp(HLC::now_with_clock(&clock))
        .store_id(TEST_STORE.to_vec())
        .parent_hashes(vec![])
        .operation(Operation::put(b"/tiebreak_key".to_vec(), b"from_low".to_vec()))
        .sign(low_node);
    state.apply_entry(&entry_low).unwrap();

    let entry_high = Entry::next_after(None)
        .timestamp(HLC::now_with_clock(&clock))
        .store_id(TEST_STORE.to_vec())
        .parent_hashes(vec![])
        .operation(Operation::put(b"/tiebreak_key".to_vec(), b"from_high".to_vec()))
        .sign(high_node);
    state.apply_entry(&entry_high).unwrap();

    // Winner should be the one with higher author bytes
    let value = state.get(b"/tiebreak_key").unwrap();
    assert_eq!(value, Some(b"from_high".to_vec()), "Higher author bytes should win");

    let heads = state.get_heads(b"/tiebreak_key").unwrap();
    assert_eq!(heads.len(), 2);
    assert_eq!(heads[0].value, b"from_high".to_vec(), "heads[0] should be winner");
    assert_eq!(heads[0].author, high_node.public_key());
}


/// Test what happens when entries are applied in "wrong" order.
/// This simulates the real sync bug where:
/// - Sync iterates by author
/// - Author A's entries (including merge) are sent first
/// - Author B and C's entries are sent after
/// - The merge entry arrives BEFORE the entries it merges!
#[test]
fn state_test_multinode_sync_wrong_order() {
    let mut state = State::open();

    // Create 3 nodes
    let node_a = NodeIdentity::generate();
    let node_b = NodeIdentity::generate();
    let node_c = NodeIdentity::generate();

    let clock = MockClock::new(1000);

    // Create entries (same as before)
    let entry_a = Entry::next_after(None)
        .timestamp(HLC::now_with_clock(&clock))
        .store_id(TEST_STORE.to_vec())
        .parent_hashes(vec![])
        .operation(Operation::put(b"/a".to_vec(), b"from_a".to_vec()))
        .sign(&node_a);

    let entry_b = Entry::next_after(None)
        .timestamp(HLC::now_with_clock(&clock))
        .store_id(TEST_STORE.to_vec())
        .parent_hashes(vec![])
        .operation(Operation::put(b"/a".to_vec(), b"from_b".to_vec()))
        .sign(&node_b);

    let entry_c = Entry::next_after(None)
        .timestamp(HLC::now_with_clock(&clock))
        .store_id(TEST_STORE.to_vec())
        .parent_hashes(vec![])
        .operation(Operation::put(b"/a".to_vec(), b"from_c".to_vec()))
        .sign(&node_c);

    // We need the hashes for parent_hashes - compute them
    let hash_a = entry_a.hash();
    let hash_b = entry_b.hash();
    let hash_c = entry_c.hash();

    let merge_entry = Entry::next_after(Some(&ChainTip::of_entry(&entry_a)))
        .timestamp(HLC::now_with_clock(&clock))
        .store_id(TEST_STORE.to_vec())
        .parent_hashes(vec![hash_a.to_vec(), hash_b.to_vec(), hash_c.to_vec()])
        .operation(Operation::put(b"/a".to_vec(), b"merged".to_vec()))
        .sign(&node_a);

    // Apply in WRONG order: A's chain first (entry_a + merge), then B, then C
    // This is what happens in sync when iterating by author
    state.apply_entry(&entry_a).unwrap();
    state.apply_entry(&merge_entry).unwrap();
    state.apply_entry(&entry_b).unwrap();
    state.apply_entry(&entry_c).unwrap();

    // Check final state
    let heads = state.get_heads(b"/a").unwrap();
    assert_eq!(heads.len(), 3,
        "Wrong order application creates 3 heads (expected - sync handles ordering)");
}

#[test]
fn state_test_list_by_prefix_filters_tombstones() {
    let mut state = State::open();
    let node = NodeIdentity::generate();

    // Create a key under /test/ prefix
    let clock1 = MockClock::new(1000);
    let entry1 = Entry::next_after(None)
        .timestamp(HLC::now_with_clock(&clock1))
        .store_id(TEST_STORE.to_vec())
        .parent_hashes(vec![])
        .operation(Operation::put(b"/test/key1".to_vec(), b"value1".to_vec()))
        .sign(&node);
    state.apply_entry(&entry1).unwrap();

    // Create another key
    let clock2 = MockClock::new(2000);
    let entry2 = Entry::next_after(Some(&ChainTip::of_entry(&entry1)))
        .timestamp(HLC::now_with_clock(&clock2))
        .store_id(TEST_STORE.to_vec())
        .parent_hashes(vec![])
        .operation(Operation::put(b"/test/key2".to_vec(), b"value2".to_vec()))
        .sign(&node);
    state.apply_entry(&entry2).unwrap();

    // Delete key1
    let clock3 = MockClock::new(3000);
    let entry3 = Entry::next_after(Some(&ChainTip::of_entry(&entry2)))
        .timestamp(HLC::now_with_clock(&clock3))
        .store_id(TEST_STORE.to_vec())
        .parent_hashes(vec![entry2.hash().to_vec()])
        .operation(Operation::delete(b"/test/key1".to_vec()))
        .sign(&node);
    state.apply_entry(&entry3).unwrap();

    // list_by_prefix without include_deleted should only show key2
    let entries = state.list_by_prefix(b"/test/", false).unwrap();
    assert_eq!(entries.len(), 1);
    assert_eq!(entries[0].0, b"/test/key2");

    // list_by_prefix with include_deleted should show both (key1 as tombstone)
    let entries_all = state.list_by_prefix(b"/test/", true).unwrap();
    assert_eq!(entries_all.len(), 2);

    // Verify list_all also respects the flag
    let all_entries = state.list_all(false).unwrap();
    assert_eq!(all_entries.len(), 1);

    let all_entries_incl_deleted = state.list_all(true).unwrap();
    assert_eq!(all_entries_incl_deleted.len(), 2);
}
