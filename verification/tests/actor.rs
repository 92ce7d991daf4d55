use lattice_core::bytes::Uuid;
use lattice_core::clock::MockClock;
use lattice_core::entry::{ChainTip, Entry, SignedEntry};
use lattice_core::head::{lww, lww_head};
use lattice_core::hlc::HLC;
use lattice_core::node_identity::NodeIdentity;
use lattice_core::proto::storage::{Operation, PeerSyncInfo};
use lattice_core::store::actor::{StoreActor, StoreEvent};
use lattice_core::store::handle::{OpenedReplica, ReplicaInfo};
use lattice_core::store::log::Log;
use lattice_core::store::peer_sync_store::PeerSyncStore;
use lattice_core::store::sigchain::manager::{SigChainManager, SigchainValidation};
use lattice_core::store::sigchain::orphan_store::OrphanStore;
use lattice_core::store::sigchain::SigChain;
use lattice_core::store::state::State;
use lattice_core::store::sync_state::{SyncNeeded, SyncState};
use lattice_core::table::ByteTable;

const TEST_STORE: Uuid = [1u8; 16];

/// Opens a store whose state and log files are the given ones.
fn reopen_store(state: State, files: &ByteTable, node: &NodeIdentity) -> (StoreActor, ReplicaInfo) {
    OpenedReplica::open(TEST_STORE, state, files)
        .into_handle(
            b"logs".to_vec(),
            files,
            OrphanStore::open(),
            PeerSyncStore::open(),
            node.clone(),
        )
        .unwrap()
}

fn open_store(node: &NodeIdentity) -> StoreActor {
    reopen_store(State::open(), &ByteTable::new(), node).0
}

/// The entries that were broadcast.
fn entries_of(events: Vec<StoreEvent>) -> Vec<SignedEntry> {
    let mut entries = Vec::new();
    for event in events {
        if let StoreEvent::Entry(entry) = event {
            entries.push(entry);
        }
    }
    entries
}

/// The peers that we have to sync with.
fn syncs_of(events: Vec<StoreEvent>) -> Vec<SyncNeeded> {
    let mut syncs = Vec::new();
    for event in events {
        if let StoreEvent::SyncNeeded(sync) = event {
            syncs.push(sync);
        }
    }
    syncs
}

/// Test that entries with invalid parent_hashes are buffered as DAG orphans
/// and applied when the parent entry arrives.
#[test]
fn test_dag_orphan_buffering_and_retry() {
    let node = NodeIdentity::generate();
    let mut handle = open_store(&node);
// Create entry1: first write to /key with no parent_hashes
    let clock1 = MockClock::new(1000);
    let entry1 = Entry::next_after(None)
        .timestamp(HLC::now_with_clock(&clock1))
        .store_id(TEST_STORE.to_vec())
        .prev_hash(vec![0u8; 32])
        .parent_hashes(vec![])  // No parents - this is fine for new key
        .operation(Operation::put(b"/key".to_vec(), b"value1".to_vec()))
        .sign(&node);
    let hash1 = entry1.hash();

    // Create entry2: second write citing entry1 as parent
    let clock2 = MockClock::new(2000);
    let entry2 = Entry::next_after(Some(&ChainTip::of_entry(&entry1)))
        .timestamp(HLC::now_with_clock(&clock2))
        .store_id(TEST_STORE.to_vec())
        .parent_hashes(vec![hash1.to_vec()])  // Cites entry1
        .operation(Operation::put(b"/key".to_vec(), b"value2".to_vec()))
        .sign(&node);
    let hash2 = entry2.hash();

    // Step 1: Ingest entry2 FIRST - should fail parent validation and be buffered
    let result = handle.ingest_entry(&entry2);
    // Entry2 should be accepted (buffered as DAG orphan, not rejected)
    assert!(result.is_ok(), "entry2 should be accepted (buffered)");

    // Verify /key has no heads yet (entry2 is buffered, not applied)
    let heads = handle.get(b"/key").unwrap();
    assert_eq!(heads.len(), 0, "/key should have no heads while entry2 is buffered");

    // Step 2: Ingest entry1 - should apply AND trigger entry2 to apply
    let result = handle.ingest_entry(&entry1);
    assert!(result.is_ok(), "entry1 should apply successfully");

    // Step 3: Verify /key now has a single head with hash2 (entry2 was applied)
    let heads = handle.get(b"/key").unwrap();
    assert_eq!(heads.len(), 1, "/key should have exactly 1 head");
    assert_eq!(heads[0].hash, hash2, "head should be entry2's hash");

    // Verify the value is from entry2
    let value = handle.get(b"/key").unwrap();
    assert_eq!(lww(&value), Some(b"value2".to_vec()), "value should be from entry2");

    // Shutdown via drop
}

/// Test merge conflict resolution: entry with two parent hashes (DAG merge).
/// A and B write to same key /merged (creating two heads).
/// C merges both heads into one by citing both as parents.
/// C arrives first (sigchain valid, but DAG parents A,B missing).
/// A arrives -> C wakes up, B still missing, C goes back to buffer.
/// B arrives -> C becomes ready and is applied.
#[test]
fn test_merge_conflict_partial_parent_satisfaction() {
    let node1 = NodeIdentity::generate(); // Author 1: creates A
    let node2 = NodeIdentity::generate(); // Author 2: creates B
    let node3 = NodeIdentity::generate(); // Author 3: creates C (merge)

    let mut handle = open_store(&node1);
// Author1: Create entry_a - writes to /merged (genesis for this key from author1)
    let clock_a = MockClock::new(1000);
    let entry_a = Entry::next_after(None)
        .timestamp(HLC::now_with_clock(&clock_a))
        .store_id(TEST_STORE.to_vec())
        .parent_hashes(vec![])
        .operation(Operation::put(b"/merged".to_vec(), b"value_a".to_vec()))
        .sign(&node1);
    let hash_a = entry_a.hash();

    // Author2: Create entry_b - also writes to /merged (creates second head, concurrent write)
    let clock_b = MockClock::new(2000);
    let entry_b = Entry::next_after(None)
        .timestamp(HLC::now_with_clock(&clock_b))
        .store_id(TEST_STORE.to_vec())
        .parent_hashes(vec![])
        .operation(Operation::put(b"/merged".to_vec(), b"value_b".to_vec()))
        .sign(&node2);
    let hash_b = entry_b.hash();

    // Author3: Create entry_c - merges both heads by citing both as parents
    let clock_c = MockClock::new(3000);
    let entry_c = Entry::next_after(None)
        .timestamp(HLC::now_with_clock(&clock_c))
        .store_id(TEST_STORE.to_vec())
        .parent_hashes(vec![hash_a.to_vec(), hash_b.to_vec()])
        .operation(Operation::put(b"/merged".to_vec(), b"merged_value".to_vec()))
        .sign(&node3);
    let hash_c = entry_c.hash();

    // Step 1: Ingest entry_c FIRST
    // Sigchain valid (seq 1 for author3), but DAG parents [A,B] missing -> buffered
    let result = handle.ingest_entry(&entry_c);
    assert!(result.is_ok(), "entry_c should be accepted (buffered as DAG orphan)");

    // Verify /merged has no heads yet
    let heads = handle.get(b"/merged").unwrap();
    assert_eq!(heads.len(), 0, "/merged should have no heads");

    // Step 2: Ingest entry_b SECOND (harder case: B arrives before A)
    let result = handle.ingest_entry(&entry_b);
    assert!(result.is_ok(), "entry_b should apply successfully");

    // Verify /merged has 1 head (from B) - C is still buffered waiting for A
    let heads = handle.get(b"/merged").unwrap();
    assert_eq!(heads.len(), 1, "/merged should have 1 head from B (C still waiting for A)");
    assert_eq!(heads[0].hash, hash_b);

    // Step 3: Ingest entry_a LAST
    let result = handle.ingest_entry(&entry_a);
    assert!(result.is_ok(), "entry_a should apply successfully");

    // Verify /merged now has 1 head (C merged A and B)
    let heads = handle.get(b"/merged").unwrap();
    assert_eq!(heads.len(), 1, "/merged should have 1 head (merged by C)");
    assert_eq!(heads[0].hash, hash_c, "head should be entry_c's hash");

    // Verify merged value
    let value = handle.get(b"/merged").unwrap();
    assert_eq!(lww(&value), Some(b"merged_value".to_vec()), "value should be merged");
}

/// Test merge conflict with C -> A -> B order.
/// C arrives first (buffered waiting for A).
/// A arrives -> C wakes up, but B is still missing -> C re-buffered waiting for B.
/// B arrives -> C wakes up, both parents present -> C applies.
#[test]
fn test_merge_conflict_rebuffer_on_partial_satisfaction() {
    let node1 = NodeIdentity::generate();
    let node2 = NodeIdentity::generate();
    let node3 = NodeIdentity::generate();

    let mut handle = open_store(&node1);
// Author1: entry_a writes to /merged
    let clock_a = MockClock::new(1000);
    let entry_a = Entry::next_after(None)
        .timestamp(HLC::now_with_clock(&clock_a))
        .store_id(TEST_STORE.to_vec())
        .parent_hashes(vec![])
        .operation(Operation::put(b"/merged".to_vec(), b"value_a".to_vec()))
        .sign(&node1);
    let hash_a = entry_a.hash();

    // Author2: entry_b writes to /merged (concurrent)
    let clock_b = MockClock::new(2000);
    let entry_b = Entry::next_after(None)
        .timestamp(HLC::now_with_clock(&clock_b))
        .store_id(TEST_STORE.to_vec())
        .parent_hashes(vec![])
        .operation(Operation::put(b"/merged".to_vec(), b"value_b".to_vec()))
        .sign(&node2);
    let hash_b = entry_b.hash();

    // Author3: entry_c merges both
    let clock_c = MockClock::new(3000);
    let entry_c = Entry::next_after(None)
        .timestamp(HLC::now_with_clock(&clock_c))
        .store_id(TEST_STORE.to_vec())
        .parent_hashes(vec![hash_a.to_vec(), hash_b.to_vec()])
        .operation(Operation::put(b"/merged".to_vec(), b"merged_value".to_vec()))
        .sign(&node3);
    let hash_c = entry_c.hash();

    // Step 1: C arrives first -> buffered waiting for A (first in parent list)
    assert!(handle.ingest_entry(&entry_c).is_ok());

    // Verify no heads
    assert_eq!(handle.get(b"/merged").unwrap().len(), 0);

    // Step 2: A arrives -> C wakes, B still missing -> C re-buffered for B
    assert!(handle.ingest_entry(&entry_a).is_ok());

    // Verify 1 head from A (C is re-buffered, not applied)
    let heads = handle.get(b"/merged").unwrap();
    assert_eq!(heads.len(), 1, "/merged should have 1 head from A (C re-buffered for B)");
    assert_eq!(heads[0].hash, hash_a);

    // Step 3: B arrives -> C wakes, both present -> C applies
    assert!(handle.ingest_entry(&entry_b).is_ok());

    // Verify 1 head from C (merged A and B)
    let heads = handle.get(b"/merged").unwrap();
    assert_eq!(heads.len(), 1, "/merged should have 1 head (merged by C)");
    assert_eq!(heads[0].hash, hash_c);

    // Verify value
    assert_eq!(lww(&handle.get(b"/merged").unwrap()), Some(b"merged_value".to_vec()));
}

/// Test that orphan store is cleaned up after multi-parent merge completes.
/// Scenario: C depends on [A, B], neither present. C buffered for A.
/// A arrives -> C wakes, fails on B, re-buffered for B.
/// B arrives -> C applies.
#[test]
fn test_orphan_store_cleanup_on_rebuffer() {
    let node1 = NodeIdentity::generate();
    let node2 = NodeIdentity::generate();
    let node3 = NodeIdentity::generate();

    let mut handle = open_store(&node1);
// Author1: entry_a writes to /merged
    let clock_a = MockClock::new(1000);
    let entry_a = Entry::next_after(None)
        .timestamp(HLC::now_with_clock(&clock_a))
        .store_id(TEST_STORE.to_vec())
        .parent_hashes(vec![])
        .operation(Operation::put(b"/merged".to_vec(), b"value_a".to_vec()))
        .sign(&node1);
    let hash_a = entry_a.hash();

    // Author2: entry_b writes to /merged (concurrent)
    let clock_b = MockClock::new(2000);
    let entry_b = Entry::next_after(None)
        .timestamp(HLC::now_with_clock(&clock_b))
        .store_id(TEST_STORE.to_vec())
        .parent_hashes(vec![])
        .operation(Operation::put(b"/merged".to_vec(), b"value_b".to_vec()))
        .sign(&node2);
    let hash_b = entry_b.hash();

    // Author3: entry_c merges both
    let clock_c = MockClock::new(3000);
    let entry_c = Entry::next_after(None)
        .timestamp(HLC::now_with_clock(&clock_c))
        .store_id(TEST_STORE.to_vec())
        .parent_hashes(vec![hash_a.to_vec(), hash_b.to_vec()])
        .operation(Operation::put(b"/merged".to_vec(), b"merged_value".to_vec()))
        .sign(&node3);
    let hash_c = entry_c.hash();

    // Step 1: C arrives -> buffered for A
    assert!(handle.ingest_entry(&entry_c).is_ok());

    // Step 2: A arrives -> C wakes, B missing, C re-buffered for B
    assert!(handle.ingest_entry(&entry_a).is_ok());

    // Step 3: B arrives -> C wakes, applies
    assert!(handle.ingest_entry(&entry_b).is_ok());

    // Verify C merged successfully
    let heads = handle.get(b"/merged").unwrap();
    assert_eq!(heads.len(), 1);
    assert_eq!(heads[0].hash, hash_c);

    // Check DAG orphan store is empty - no stale records
    let dag_orphan_count = handle.parts().0.orphan_store().count_dag_orphans();
    assert_eq!(dag_orphan_count, 0, "DAG orphan store should be empty after all entries applied (found {} stale records)", dag_orphan_count);
}

/// Test crash recovery: sigchain committed but state not applied.
/// Simulates crash between commit_entry and apply_entry.
/// On restart, actor should replay log and recover missing state.
#[test]
fn test_crash_recovery_on_actor_spawn() {
    let mut state = State::open();
    let node = NodeIdentity::generate();
    let author = node.public_key();

    // Write 3 entries to sigchain log directly (simulating commits)
    let log = Log::open_or_create(b"test.log".to_vec(), None);
    let mut sigchain = SigChain::new(log, TEST_STORE, author);

    let mut entries = Vec::new();
    for i in 1u64..=3 {
        let clock = MockClock::new(i * 1000);
        let prev = *sigchain.last_hash();
        let tip = if i == 1 { None } else {
            Some(ChainTip { seq: i-1, hash: prev, hlc: HLC::default() })
        };
        let entry = Entry::next_after(tip.as_ref())
            .timestamp(HLC::now_with_clock(&clock))
            .store_id(TEST_STORE.to_vec())
            .parent_hashes(vec![])
            .operation(Operation::put(format!("/key{}", i).into_bytes(), format!("value{}", i).into_bytes()))
            .sign(&node);
        sigchain.append_unchecked(&entry).unwrap();
        entries.push(entry);
    }

    // Only apply first entry to state (simulating crash after entry 1)
    state.apply_entry(&entries[0]).unwrap();

    // Verify state only has entry 1
    assert!(lww_head(&state.get_heads(b"/key1").unwrap()).is_some(), "key1 should exist");
    assert!(lww_head(&state.get_heads(b"/key2").unwrap()).is_none(), "key2 should NOT exist (crash before apply)");
    assert!(lww_head(&state.get_heads(b"/key3").unwrap()).is_none(), "key3 should NOT exist (crash before apply)");

    // === RESTART ===
    // Opening should replay the log and recover entries 2 and 3
    let mut files = ByteTable::new();
    files.insert(&author, sigchain.log().bytes().to_vec());
    let (handle, info) = reopen_store(state, &files, &node);

    // Verify crash recovery replayed entries
    assert!(info.entries_replayed >= 2, "Should have replayed at least 2 entries, got {}", info.entries_replayed);

    // Check if entries 2 and 3 were recovered
    let key2_value = handle.get(b"/key2").unwrap();
    let key3_value = handle.get(b"/key3").unwrap();

    assert_eq!(lww(&key2_value), Some(b"value2".to_vec()), "key2 should be recovered from log replay");
    assert_eq!(lww(&key3_value), Some(b"value3".to_vec()), "key3 should be recovered from log replay");
}

/// Sigchain orphan data loss prevention.
///
/// Scenario: Entry B is orphaned waiting for A. A arrives and commits.
/// B is returned as ready orphan, but then we simulate a "crash" before B is processed.
/// On restart, B should still be recoverable (not lost).
///
/// commit_entry returns orphan metadata and the caller deletes only after
/// apply_entry succeeds.
#[test]
fn test_sigchain_orphan_not_lost_on_crash() {
    let node = NodeIdentity::generate();

    // Create manager
    let mut manager = SigChainManager::empty(b"logs".to_vec(), TEST_STORE);

    // Create entry A (seq 1) and entry B (seq 2)
    let clock_a = MockClock::new(1000);
    let entry_a = Entry::next_after(None)
        .timestamp(HLC::now_with_clock(&clock_a))
        .store_id(TEST_STORE.to_vec())
        .parent_hashes(vec![])
        .operation(Operation::put(b"/key_a".to_vec(), b"value_a".to_vec()))
        .sign(&node);

    let clock_b = MockClock::new(2000);
    let entry_b = Entry::next_after(Some(&ChainTip::of_entry(&entry_a)))
        .timestamp(HLC::now_with_clock(&clock_b))
        .store_id(TEST_STORE.to_vec())
        .parent_hashes(vec![])
        .operation(Operation::put(b"/key_b".to_vec(), b"value_b".to_vec()))
        .sign(&node);

    // Ingest B first -> becomes orphan waiting for A
    let result_b = manager.validate_entry(&entry_b);
    match result_b {
        SigchainValidation::Orphan { gap, prev_hash } => {
            manager.buffer_sigchain_orphan(&entry_b, gap.author, prev_hash, gap.to_seq, gap.from_seq, gap.last_known_hash.unwrap_or([0u8; 32]));
        }
        _ => panic!("Expected B to be orphaned"),
    }

    // Verify B is in orphan store
    let orphan_count = manager.sigchain_orphan_count();
    assert_eq!(orphan_count, 1, "B should be buffered as sigchain orphan");

    // Ingest A -> A commits, B should become ready
    let result_a = manager.validate_entry(&entry_a);
    assert!(matches!(result_a, SigchainValidation::Valid));
    let ready_orphans = manager.commit_entry(&entry_a).unwrap();

    // B should be returned as ready
    assert_eq!(ready_orphans.len(), 1, "B should be returned as ready orphan");

    // B must still be in orphan store after commit_entry: it would be lost on crash.
    let orphan_count_after = manager.sigchain_orphan_count();
    assert_eq!(orphan_count_after, 1,
        "Orphan B must remain in store until explicitly deleted after processing.");
}

/// Test concurrent offline writes scenario.
///
/// Scenario:
/// 1. Both nodes start with key `a` having head H0
/// 2. Node A (offline) writes a=1 → creates H1 (parents: [H0])
/// 3. Node B (offline) writes a=2 → creates H2 (parents: [H0])
/// 4. Node A receives H2 from sync
///
/// Expected: H2 should apply, creating conflict [H1, H2]
#[test]
fn test_concurrent_offline_writes_create_conflict() {
    let mut state = State::open();

    // Two different nodes
    let node_a = NodeIdentity::generate();
    let node_b = NodeIdentity::generate();

    // Initial state: both nodes have H0 as head for key `a`
    // Simulated by node_a writing the initial value
    let clock_0 = MockClock::new(1000);
    let entry_h0 = Entry::next_after(None)
        .timestamp(HLC::now_with_clock(&clock_0))
        .store_id(TEST_STORE.to_vec())
        .parent_hashes(vec![])
        .operation(Operation::put(b"/key_a".to_vec(), b"initial".to_vec()))
        .sign(&node_a);
    let hash_h0 = entry_h0.hash();

    // Apply H0 to the store
    state.apply_entry(&entry_h0).unwrap();

    // Verify H0 is the only head
    let heads = state.get_heads(b"/key_a").unwrap();
    assert_eq!(heads.len(), 1);
    assert_eq!(heads[0].hash, hash_h0);

    // Node A goes offline and writes a=1 → H1 (parents: [H0])
    let clock_a = MockClock::new(2000);
    let entry_h1 = Entry::next_after(Some(&ChainTip::of_entry(&entry_h0)))
        .timestamp(HLC::now_with_clock(&clock_a))
        .store_id(TEST_STORE.to_vec())
        .parent_hashes(vec![hash_h0.to_vec()])
        .operation(Operation::put(b"/key_a".to_vec(), b"val_1".to_vec()))
        .sign(&node_a);
    let hash_h1 = entry_h1.hash();

    // Apply H1 - this supersedes H0
    state.apply_entry(&entry_h1).unwrap();

    // Verify H1 is now the only head (H0 was superseded)
    let heads = state.get_heads(b"/key_a").unwrap();
    assert_eq!(heads.len(), 1, "H1 should be the only head");
    assert_eq!(heads[0].hash, hash_h1);

    // Node B goes offline and writes a=2 → H2 (parents: [H0])
    // Note: H2 references H0, not H1, because B was offline
    let clock_b = MockClock::new(2500);
    let entry_h2 = Entry::next_after(None)
        .timestamp(HLC::now_with_clock(&clock_b))
        .store_id(TEST_STORE.to_vec())
        .parent_hashes(vec![hash_h0.to_vec()])
        .operation(Operation::put(b"/key_a".to_vec(), b"value_b".to_vec()))
        .sign(&node_b);
    let hash_h2 = entry_h2.hash();

    // Create a SigChainManager to track hash history
    let mut manager = SigChainManager::empty(b"logs".to_vec(), TEST_STORE);

    // Manually register H0 and H1 in the hash index (simulating they were committed)
    manager.register_hash(hash_h0);
    manager.register_hash(hash_h1);

    // Now Node A receives H2 via sync
    // H2 references H0 as parent, but H0 is no longer a current head (H1 replaced it)
    // validate_parent_hashes_with_index should succeed (H0 exists in history)

    let validation_result = state.validate_parent_hashes_with_index(
        &entry_h2,
        |hash| manager.hash_exists(hash)
    );

    assert!(validation_result.is_ok(),
        "Concurrent offline writes should create conflicts, not orphans. Got: {:?}",
        validation_result);

    // Apply H2
    state.apply_entry(&entry_h2).unwrap();

    // Verify we now have TWO heads (conflict state)
    let heads = state.get_heads(b"/key_a").unwrap();
    assert_eq!(heads.len(), 2,
        "Should have 2 heads (conflict) after concurrent offline writes. \
         Got {} heads: {:?}",
        heads.len(),
        heads.iter().map(|h| hex::encode(&h.hash[..8])).collect::<Vec<_>>());

    // Verify both H1 and H2 are present
    let head_hashes: Vec<Vec<u8>> = heads.iter().map(|h| h.hash.to_vec()).collect();
    assert!(head_hashes.contains(&hash_h1.to_vec()), "H1 should be a head");
    assert!(head_hashes.contains(&hash_h2.to_vec()), "H2 should be a head");
}

/// Test that orphans are cleaned up when the same entry is ingested twice.
/// Scenario:
/// 1. Entry B (seq:2) arrives before Entry A (seq:1) -> B becomes orphan
/// 2. Entry A arrives via sync (in order: A then B again)
/// 3. Entry B is ingested again (duplicate)
/// 4. Verify: orphan store should be empty
#[test]
fn test_orphan_cleanup_on_duplicate_ingest() {
    let node = NodeIdentity::generate();

    let mut handle = open_store(&node);
// Create entry A (seq 1)
    let clock_a = MockClock::new(1000);
    let entry_a = Entry::next_after(None)
        .timestamp(HLC::now_with_clock(&clock_a))
        .store_id(TEST_STORE.to_vec())
        .parent_hashes(vec![])
        .operation(Operation::put(b"/key".to_vec(), b"value_a".to_vec()))
        .sign(&node);
    let hash_a = entry_a.hash();

    // Create entry B (seq 2) - requires A
    let clock_b = MockClock::new(2000);
    let entry_b = Entry::next_after(Some(&ChainTip::of_entry(&entry_a)))
        .timestamp(HLC::now_with_clock(&clock_b))
        .store_id(TEST_STORE.to_vec())
        .parent_hashes(vec![hash_a.to_vec()])
        .operation(Operation::put(b"/key".to_vec(), b"value_b".to_vec()))
        .sign(&node);

    // Step 1: Send B first -> becomes orphan
    assert!(handle.ingest_entry(&entry_b).is_ok());

    // Verify orphan exists
    let orphans = handle.parts().0.orphan_list();
    assert_eq!(orphans.len(), 1, "B should be orphaned");

    // Step 2: Send A -> A applies, B should be resolved and applied
    assert!(handle.ingest_entry(&entry_a).is_ok());

    // Step 3: Send B again (duplicate - simulating sync resending)
    let _ = handle.ingest_entry(&entry_b);

    // Step 4: Send A again (duplicate)
    let _ = handle.ingest_entry(&entry_a);

    // Verify value is correct
    let value = handle.get(b"/key").unwrap();
    assert_eq!(lww(&value), Some(b"value_b".to_vec()));

    // Step 5: Check orphan store is empty
    let orphans = handle.parts().0.orphan_list();
    assert!(orphans.is_empty(),
        "Orphan store should be empty after duplicates. Found {} orphans: {:?}",
        orphans.len(),
        orphans.iter().map(|o| format!("author:{} seq:{} awaiting:{}", hex::encode(&o.author[..4]), o.seq, hex::encode(&o.prev_hash[..4]))).collect::<Vec<_>>()
    );
}

/// Test OrphanCleanup command properly removes stale orphans.
/// Simulates a stale orphan (seq < next_seq) and verifies cleanup removes it.
#[test]
fn test_orphan_cleanup_command() {
    let node = NodeIdentity::generate();

    let mut handle = open_store(&node);
// Create entry A (seq 1) and entry B (seq 2)
    let clock_a = MockClock::new(1000);
    let entry_a = Entry::next_after(None)
        .timestamp(HLC::now_with_clock(&clock_a))
        .store_id(TEST_STORE.to_vec())
        .parent_hashes(vec![])
        .operation(Operation::put(b"/key".to_vec(), b"value_a".to_vec()))
        .sign(&node);
    let hash_a = entry_a.hash();

    let clock_b = MockClock::new(2000);
    let entry_b = Entry::next_after(Some(&ChainTip::of_entry(&entry_a)))
        .timestamp(HLC::now_with_clock(&clock_b))
        .store_id(TEST_STORE.to_vec())
        .parent_hashes(vec![hash_a.to_vec()])
        .operation(Operation::put(b"/key".to_vec(), b"value_b".to_vec()))
        .sign(&node);

    // Step 1: Send B first -> becomes orphan
    assert!(handle.ingest_entry(&entry_b).is_ok());

    // Verify orphan exists
    let orphans = handle.parts().0.orphan_list();
    assert_eq!(orphans.len(), 1, "B should be orphaned");

    // Step 2: Send A -> A and B both get applied
    assert!(handle.ingest_entry(&entry_a).is_ok());

    // Step 3: Call OrphanCleanup
    let removed = handle.cleanup_stale_orphans();
    // Should be 0 since no stale orphans
    assert_eq!(removed, 0, "No stale orphans should exist");

    // Verify orphan store is empty
    let orphans = handle.parts().0.orphan_list();
    assert!(orphans.is_empty(), "Orphan store should be empty");
}

/// Test that StoreActor emits SyncNeeded event when a peer is ahead of us.
/// This verifies the plumbing: SetPeerSyncState → SyncNeeded broadcast.
#[test]
fn test_sync_needed_event_emission() {
    let node = NodeIdentity::generate();

    let mut handle = open_store(&node);

    // Create a peer state that is AHEAD of us
    let peer_bytes = [99u8; 32];
    let author = [1u8; 32];
    let mut peer_sync_state = SyncState::new();
    // Peer has 50 entries for this author, we have 0
    peer_sync_state.set(author, 50, [0xAA; 32]);

    let peer_info = PeerSyncInfo {
        sync_state: Some(peer_sync_state.to_proto()),
        updated_at: 0,
    };

    // Send SetPeerSyncState command via handle
    let discrepancy = handle.set_peer_sync_state(&peer_bytes, &peer_info).unwrap();
    assert_eq!(discrepancy.entries_we_need, 50, "Should report 50 entries we need");
    assert_eq!(discrepancy.entries_they_need, 0, "Peer has everything we have");

    // Verify SyncNeeded event was broadcast
    let event = syncs_of(handle.take_events()).pop().expect("Should have received SyncNeeded event");
    assert_eq!(event.peer, peer_bytes, "Event should contain correct peer");
    assert_eq!(event.discrepancy.entries_we_need, 50, "Event should contain correct discrepancy");

    // Test NO event when peer has no sync_state (nothing to compare)
    let peer_info_empty = PeerSyncInfo {
        sync_state: None,  // No sync state = nothing to compare
        updated_at: 0,
    };

    let discrepancy = handle.set_peer_sync_state(&[88u8; 32], &peer_info_empty).unwrap();
    assert!(!discrepancy.is_out_of_sync(), "Should be in sync when no sync_state");

    // Should NOT have emitted a SyncNeeded event
    assert!(syncs_of(handle.take_events()).is_empty(), "Should NOT emit event when in sync");
}

/// Test sync state diffing: Node A has entries, Node B is empty.
/// Compute diff via SyncState and apply entries to sync.
#[test]
fn actor_test_sync_state_diff_and_apply() {
    let node_a = NodeIdentity::generate();
    let node_b = NodeIdentity::generate();

    let mut handle_a = open_store(&node_a);

    let mut handle_b = open_store(&node_b);
// Node A writes 3 entries via Put command
    for i in 1u64..=3 {
        handle_a.put(
            format!("/key{}", i).as_bytes(),
            format!("value{}", i).as_bytes(),
        ).unwrap();
    }

    // Get sync state from A
    let sync_a = handle_a.sync_state();

    // Get sync state from B (empty)
    let sync_b = handle_b.sync_state();

    // Compute diff: B needs entries from A
    let missing = sync_b.diff(&sync_a);
    assert_eq!(missing.len(), 1, "B needs entries from 1 author");
    assert_eq!(missing[0].author, node_a.public_key());
    assert_eq!(missing[0].from_seq, 0, "B has nothing");
    assert_eq!(missing[0].to_seq, 3, "A has 3 entries");

    // For simplicity, we'll just do direct Put commands to B for the same keys
    for i in 1u64..=3 {
        handle_b.put(
            format!("/key{}", i).as_bytes(),
            format!("value{}", i).as_bytes(),
        ).unwrap();
    }

    // Verify B has same KV state
    for i in 1u64..=3 {
        let value = handle_b.get(format!("/key{}", i).as_bytes()).unwrap();
        assert_eq!(lww(&value), Some(format!("value{}", i).into_bytes()));
    }
}

/// Test that two stores can sync in both directions.
/// Each node writes entries, then they exchange via sync state diff.
#[test]
fn actor_test_bidirectional_sync() {
    let node_a = NodeIdentity::generate();
    let node_b = NodeIdentity::generate();

    let mut handle_a = open_store(&node_a);

    let mut handle_b = open_store(&node_b);

// Node A writes 2 entries
    for i in 1u64..=2 {
        handle_a.put(
            format!("/a{}", i).as_bytes(),
            format!("from_a{}", i).as_bytes(),
        ).unwrap();
    }

    // Node B writes 2 entries
    for i in 1u64..=2 {
        handle_b.put(
            format!("/b{}", i).as_bytes(),
            format!("from_b{}", i).as_bytes(),
        ).unwrap();
    }

    // Get sync states
    let sync_a = handle_a.sync_state();
    let sync_b = handle_b.sync_state();

    // A needs B's entries
    let a_needs = sync_a.diff(&sync_b);
    assert_eq!(a_needs.len(), 1);
    assert_eq!(a_needs[0].author, node_b.public_key());

    // B needs A's entries
    let b_needs = sync_b.diff(&sync_a);
    assert_eq!(b_needs.len(), 1);
    assert_eq!(b_needs[0].author, node_a.public_key());

    // Drain entry broadcasts from A and apply to B
    for entry in entries_of(handle_a.take_events()) {
        handle_b.ingest_entry(&entry).unwrap();
    }

    // Drain entry broadcasts from B and apply to A
    for entry in entries_of(handle_b.take_events()) {
        handle_a.ingest_entry(&entry).unwrap();
    }

    // Both should now have all 4 keys
    for key in ["/a1", "/a2", "/b1", "/b2"] {
        assert!(lww_head(&handle_a.get(key.as_bytes()).unwrap()).is_some(), "A missing {}", key);
        assert!(lww_head(&handle_b.get(key.as_bytes()).unwrap()).is_some(), "B missing {}", key);
    }

    // Sync states should match
    let sync_a_after = handle_a.sync_state();
    let sync_b_after = handle_b.sync_state();

    assert!(sync_a_after.diff(&sync_b_after).is_empty());
    assert!(sync_b_after.diff(&sync_a_after).is_empty());
}

/// Test that three stores can all sync with each other.
#[test]
fn actor_test_three_way_sync() {
    let node_a = NodeIdentity::generate();
    let node_b = NodeIdentity::generate();
    let node_c = NodeIdentity::generate();

    let mut handle_a = open_store(&node_a);

    let mut handle_b = open_store(&node_b);

    let mut handle_c = open_store(&node_c);
// Each node writes one entry using manual Entry creation (so we control the author)
    let clock = MockClock::new(1000);

    let entry_a = Entry::next_after(None)
        .timestamp(HLC::now_with_clock(&clock))
        .store_id(TEST_STORE.to_vec())
        .parent_hashes(vec![])
        .operation(Operation::put(b"/key_a".to_vec(), b"from_a".to_vec()))
        .sign(&node_a);

    let entry_b = Entry::next_after(None)
        .timestamp(HLC::now_with_clock(&clock))
        .store_id(TEST_STORE.to_vec())
        .parent_hashes(vec![])
        .operation(Operation::put(b"/key_b".to_vec(), b"from_b".to_vec()))
        .sign(&node_b);

    let entry_c = Entry::next_after(None)
        .timestamp(HLC::now_with_clock(&clock))
        .store_id(TEST_STORE.to_vec())
        .parent_hashes(vec![])
        .operation(Operation::put(b"/key_c".to_vec(), b"from_c".to_vec()))
        .sign(&node_c);

    // Ingest each entry to its respective actor
    handle_a.ingest_entry(&entry_a).unwrap();
    handle_b.ingest_entry(&entry_b).unwrap();
    handle_c.ingest_entry(&entry_c).unwrap();

    // Now sync all entries to all nodes by ingesting the original signed entries
    // This properly preserves the original author signatures

    // Ingest A's entry to B and C
    let _ = handle_b.ingest_entry(&entry_a);
    let _ = handle_c.ingest_entry(&entry_a);

    // Ingest B's entry to A and C
    let _ = handle_a.ingest_entry(&entry_b);
    let _ = handle_c.ingest_entry(&entry_b);

    // Ingest C's entry to A and B
    let _ = handle_a.ingest_entry(&entry_c);
    let _ = handle_b.ingest_entry(&entry_c);

    // All three stores should have all three keys
    for handle in [&handle_a, &handle_b, &handle_c] {
        for key in ["/key_a", "/key_b", "/key_c"] {
            assert!(lww_head(&handle.get(key.as_bytes()).unwrap()).is_some(), "missing {}", key);
        }
    }

    // All sync states should match
    let sync_a = handle_a.sync_state();
    let sync_b = handle_b.sync_state();
    let sync_c = handle_c.sync_state();

    assert!(sync_a.diff(&sync_b).is_empty(), "A and B should be in sync");
    assert!(sync_b.diff(&sync_c).is_empty(), "B and C should be in sync");
    assert!(sync_c.diff(&sync_a).is_empty(), "C and A should be in sync");
}

/// Test multi-node sync after merge: 3 nodes create multi-heads, then merge, then sync to new node.
#[test]
fn actor_test_multinode_sync_after_merge() {
    let node_a = NodeIdentity::generate();
    let node_b = NodeIdentity::generate();
    let node_c = NodeIdentity::generate();
    let node_d = NodeIdentity::generate();

    let mut handle_a = open_store(&node_a);

    let mut handle_d = open_store(&node_d);

// Create entries from 3 different authors (simulating offline writes)
    let clock = MockClock::new(1000);

    let entry_from_a = Entry::next_after(None)
        .timestamp(HLC::now_with_clock(&clock))
        .store_id(TEST_STORE.to_vec())
        .parent_hashes(vec![])
        .operation(Operation::put(b"/a".to_vec(), b"from_a".to_vec()))
        .sign(&node_a);

    let entry_from_b = Entry::next_after(None)
        .timestamp(HLC::now_with_clock(&clock))
        .store_id(TEST_STORE.to_vec())
        .parent_hashes(vec![])
        .operation(Operation::put(b"/a".to_vec(), b"from_b".to_vec()))
        .sign(&node_b);

    let entry_from_c = Entry::next_after(None)
        .timestamp(HLC::now_with_clock(&clock))
        .store_id(TEST_STORE.to_vec())
        .parent_hashes(vec![])
        .operation(Operation::put(b"/a".to_vec(), b"from_c".to_vec()))
        .sign(&node_c);

    // Ingest all 3 entries to A (creates 3 heads)
    for entry in [&entry_from_a, &entry_from_b, &entry_from_c] {
        handle_a.ingest_entry(entry).unwrap();
    }

    // Verify A has 3 heads
    let heads = handle_a.get(b"/a").unwrap();
    assert_eq!(heads.len(), 3, "Should have 3 heads before merge");

    // Node A merges by doing a Put (which references all current heads)
    handle_a.put(b"/a", b"merged").unwrap();

    // Verify A now has 1 head
    let heads = handle_a.get(b"/a").unwrap();
    assert_eq!(heads.len(), 1, "Should have 1 head after merge");
    assert_eq!(heads[0].value, b"merged");

    // Get sync states
    let sync_a = handle_a.sync_state();
    let sync_d = handle_d.sync_state();

    // D should need entries from multiple authors
    let missing = sync_d.diff(&sync_a);
    assert!(!missing.is_empty(), "D should need entries to sync");

    // Sync all entries from A to D via broadcast channel
    for entry in entries_of(handle_a.take_events()) {
        let _ = handle_d.ingest_entry(&entry);
    }

    // D should have same state as A (1 head, merged)
    let heads_d = handle_d.get(b"/a").unwrap();
    assert_eq!(heads_d.len(), 1, "D should have 1 head after sync");
    assert_eq!(heads_d[0].value, b"merged");
}

/// Test WAL pattern: verify state and log are consistent after commit.
/// The WAL pattern ensures:
/// 1. State is applied first (recoverable via replay)
/// 2. Log is committed second (source of truth)
/// 3. On restart, replay rebuilds identical state
#[test]
fn test_wal_pattern_state_and_log_consistent() {
    let node = NodeIdentity::generate();

    // Phase 1: Write entries and close store
    let author = node.public_key();
    let mut files = ByteTable::new();
    {
        let mut handle = open_store(&node);

        // Write via put (creates sigchain entry + updates state)
        handle.put(b"/wal_test/key1", b"value1").unwrap();
        handle.put(b"/wal_test/key2", b"value2").unwrap();

        // Verify state has the data
        let heads = handle.get(b"/wal_test/key1").unwrap();
        assert_eq!(heads.len(), 1);
        assert_eq!(heads[0].value, b"value1");

        // Get log seq before closing
        let log_seq = handle.log_seq();
        assert!(log_seq >= 2, "Should have at least 2 log entries");

        let chain = handle.parts().0.get(&author).unwrap();
        files.insert(&author, chain.log().bytes().to_vec());
    }

    // Phase 2: Start from an empty state to force full replay from log

    // Phase 3: Reopen store - state should be rebuilt from log identically
    {
        let (handle, info) = reopen_store(State::open(), &files, &node);

        // Replay should have happened since the state is empty
        assert!(info.entries_replayed >= 2, "Should have replayed entries from log");

        // State should have same data after replay from log
        let heads = handle.get(b"/wal_test/key1").unwrap();
        assert_eq!(heads.len(), 1, "Should preserve head after replay");
        assert_eq!(heads[0].value, b"value1", "Value should match after replay");

        let heads2 = handle.get(b"/wal_test/key2").unwrap();
        assert_eq!(heads2.len(), 1);
        assert_eq!(heads2[0].value, b"value2");

        // ChainTip should match log
        let tip = handle.chain_tip(&author);
        assert!(tip.is_some(), "Should have chain tip after replay");
    }
}
