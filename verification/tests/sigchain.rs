use lattice_core::clock::MockClock;
use lattice_core::entry::{EntryBuilder, SignedEntry};
use lattice_core::hlc::HLC;
use lattice_core::node_identity::NodeIdentity;
use lattice_core::proto::storage::{OpType, Operation, PutOp};
use lattice_core::sigchain::SigChain as RawChain;
use lattice_core::signed_entry::EntryBuilder as RawEntryBuilder;
use lattice_core::store::log::Log;
use lattice_core::store::sigchain::manager::{SigChainManager, SigchainValidation};
use lattice_core::store::sigchain::{SigChain, SigChainError};

const TEST_STORE: [u8; 16] = [1u8; 16];

fn new_log() -> Log {
    Log::open_or_create(b"test.log".to_vec(), None)
}

fn hash_of(entry: &SignedEntry) -> [u8; 32] {
    entry.hash()
}

#[test]
fn sigchain_test_new_sigchain() {
    let author = [1u8; 32];

    let chain = SigChain::new(new_log(), TEST_STORE, author);

    assert_eq!(chain.author_id(), &author);
    assert_eq!(chain.next_seq(), 1);
    assert_eq!(chain.last_hash(), &[0u8; 32]);
    assert!(chain.is_empty());
    assert_eq!(chain.len(), 0);
}

#[test]
fn test_new_sigchain() {
    let author = [1u8; 32];

    let chain = RawChain::new(b"test.log".to_vec(), TEST_STORE, author);

    assert_eq!(chain.author_id(), &author);
    assert_eq!(chain.next_seq(), 1);
    assert_eq!(chain.last_hash(), &[0u8; 32]);
    assert!(chain.is_empty());
    assert_eq!(chain.len(), 0);
}

#[test]
fn sigchain_test_append_entry() {
    let node = NodeIdentity::generate();
    let author = node.public_key();
    let mut chain = SigChain::new(new_log(), TEST_STORE, author);

    let clock = MockClock::new(1000);
    let entry = EntryBuilder::new(1, HLC::now_with_clock(&clock))
        .store_id(TEST_STORE.to_vec())
        .prev_hash([0u8; 32].to_vec())
        .operation(Operation::put(b"/key".to_vec(), b"value".to_vec()))
        .sign(&node);

    chain.append(&entry).unwrap();

    assert_eq!(chain.next_seq(), 2);
    assert_eq!(chain.len(), 1);
    assert!(!chain.is_empty());
}

#[test]
fn test_append_entry() {
    let node = NodeIdentity::generate();
    let author = node.public_key();
    let mut chain = RawChain::new(b"test.log".to_vec(), TEST_STORE, author);

    let clock = MockClock::new(1000);
    let entry = RawEntryBuilder::new(1, HLC::now_with_clock(&clock))
        .store_id(TEST_STORE.to_vec())
        .prev_hash([0u8; 32].to_vec())
        .put(b"/key".to_vec(), b"value".to_vec())
        .sign(&node);

    chain.append(&entry).unwrap();

    assert_eq!(chain.next_seq(), 2);
    assert_eq!(chain.len(), 1);
    assert!(!chain.is_empty());
}

#[test]
fn sigchain_test_append_multiple() {
    let node = NodeIdentity::generate();
    let author = node.public_key();
    let mut chain = SigChain::new(new_log(), TEST_STORE, author);
    let clock = MockClock::new(1000);

    for i in 1..=3 {
        let entry = EntryBuilder::new(i, HLC::now_with_clock(&clock))
            .store_id(TEST_STORE.to_vec())
            .prev_hash(chain.last_hash().to_vec())
            .operation(Operation::put(format!("/key/{}", i).into_bytes(), format!("value{}", i).into_bytes()))
            .sign(&node);
        chain.append(&entry).unwrap();
    }

    assert_eq!(chain.len(), 3);
    assert_eq!(chain.next_seq(), 4);
}

#[test]
fn test_append_multiple() {
    let node = NodeIdentity::generate();
    let author = node.public_key();
    let mut chain = RawChain::new(b"test.log".to_vec(), TEST_STORE, author);
    let clock = MockClock::new(1000);

    for i in 1..=3 {
        let entry = RawEntryBuilder::new(i, HLC::now_with_clock(&clock))
            .store_id(TEST_STORE.to_vec())
            .prev_hash(chain.last_hash().to_vec())
            .put(format!("/key/{}", i).into_bytes(), format!("value{}", i).into_bytes())
            .sign(&node);
        chain.append(&entry).unwrap();
    }

    assert_eq!(chain.len(), 3);
    assert_eq!(chain.next_seq(), 4);
}

#[test]
fn sigchain_test_from_log() {
    let node = NodeIdentity::generate();
    let author = node.public_key();
    let clock = MockClock::new(1000);

    // Write some entries
    let written = {
        let mut chain = SigChain::new(new_log(), TEST_STORE, author);
        for i in 1..=3 {
            let entry = EntryBuilder::new(i, HLC::now_with_clock(&clock))
                .store_id(TEST_STORE.to_vec())
                .prev_hash(chain.last_hash().to_vec())
                .operation(Operation::put(b"/key".to_vec(), b"val".to_vec()))
                .sign(&node);
            chain.append(&entry).unwrap();
        }
        chain.log().bytes().to_vec()
    };

    // Reload from log
    let log = Log::open(b"test.log".to_vec(), Some(written)).unwrap();
    let chain = SigChain::from_log(log, TEST_STORE, author).unwrap();

    assert_eq!(chain.len(), 3);
    assert_eq!(chain.next_seq(), 4);
}

#[test]
fn test_from_log() {
    let node = NodeIdentity::generate();
    let author = node.public_key();
    let clock = MockClock::new(1000);

    // Write some entries
    let written = {
        let mut chain = RawChain::new(b"test.log".to_vec(), TEST_STORE, author);
        for i in 1..=3 {
            let entry = RawEntryBuilder::new(i, HLC::now_with_clock(&clock))
                .store_id(TEST_STORE.to_vec())
                .prev_hash(chain.last_hash().to_vec())
                .put(b"/key".to_vec(), b"val".to_vec())
                .sign(&node);
            chain.append(&entry).unwrap();
        }
        chain.entries().clone()
    };

    // Reload from log
    let chain = RawChain::from_log(b"test.log".to_vec(), TEST_STORE, author, &written).unwrap();

    assert_eq!(chain.len(), 3);
    assert_eq!(chain.next_seq(), 4);
}

#[test]
fn sigchain_test_reject_wrong_sequence() {
    let node = NodeIdentity::generate();
    let author = node.public_key();
    let mut chain = SigChain::new(new_log(), TEST_STORE, author);
    let clock = MockClock::new(1000);

    // Try to append with wrong seq (2 instead of 1)
    let entry = EntryBuilder::new(2, HLC::now_with_clock(&clock))
        .store_id(TEST_STORE.to_vec())
        .prev_hash([0u8; 32].to_vec())
        .operation(Operation::put(b"/key".to_vec(), b"val".to_vec()))
        .sign(&node);

    let result = chain.append(&entry);

    assert!(matches!(result, Err(SigChainError::InvalidSequence { .. })));
}

#[test]
fn test_reject_wrong_sequence() {
    let node = NodeIdentity::generate();
    let author = node.public_key();
    let mut chain = RawChain::new(b"test.log".to_vec(), TEST_STORE, author);
    let clock = MockClock::new(1000);

    // Try to append with wrong seq (2 instead of 1)
    let entry = RawEntryBuilder::new(2, HLC::now_with_clock(&clock))
        .store_id(TEST_STORE.to_vec())
        .prev_hash([0u8; 32].to_vec())
        .put(b"/key".to_vec(), b"val".to_vec())
        .sign(&node);

    let result = chain.append(&entry);

    assert!(matches!(result, Err(SigChainError::InvalidSequence { .. })));
}

#[test]
fn sigchain_test_reject_wrong_prev_hash() {
    let node = NodeIdentity::generate();
    let author = node.public_key();
    let mut chain = SigChain::new(new_log(), TEST_STORE, author);
    let clock = MockClock::new(1000);

    // First entry
    let entry1 = EntryBuilder::new(1, HLC::now_with_clock(&clock))
        .store_id(TEST_STORE.to_vec())
        .prev_hash([0u8; 32].to_vec())
        .operation(Operation::put(b"/key".to_vec(), b"v1".to_vec()))
        .sign(&node);
    chain.append(&entry1).unwrap();

    // Second entry with wrong prev_hash
    let entry2 = EntryBuilder::new(2, HLC::now_with_clock(&clock))
        .store_id(TEST_STORE.to_vec())
        .prev_hash([99u8; 32].to_vec()) // Wrong!
        .operation(Operation::put(b"/key".to_vec(), b"v2".to_vec()))
        .sign(&node);

    let result = chain.append(&entry2);

    assert!(matches!(result, Err(SigChainError::InvalidPrevHash { .. })));
}

#[test]
fn test_reject_wrong_prev_hash() {
    let node = NodeIdentity::generate();
    let author = node.public_key();
    let mut chain = RawChain::new(b"test.log".to_vec(), TEST_STORE, author);
    let clock = MockClock::new(1000);

    // First entry
    let entry1 = RawEntryBuilder::new(1, HLC::now_with_clock(&clock))
        .store_id(TEST_STORE.to_vec())
        .prev_hash([0u8; 32].to_vec())
        .put(b"/key".to_vec(), b"v1".to_vec())
        .sign(&node);
    chain.append(&entry1).unwrap();

    // Second entry with wrong prev_hash
    let entry2 = RawEntryBuilder::new(2, HLC::now_with_clock(&clock))
        .store_id(TEST_STORE.to_vec())
        .prev_hash([99u8; 32].to_vec()) // Wrong!
        .put(b"/key".to_vec(), b"v2".to_vec())
        .sign(&node);

    let result = chain.append(&entry2);

    assert!(matches!(result, Err(SigChainError::InvalidPrevHash { .. })));
}

#[test]
fn sigchain_test_reject_wrong_author() {
    let node = NodeIdentity::generate();
    let other_author = [99u8; 32]; // Different author
    let mut chain = SigChain::new(new_log(), TEST_STORE, other_author);
    let clock = MockClock::new(1000);

    // Entry signed by node but chain expects other_author
    let entry = EntryBuilder::new(1, HLC::now_with_clock(&clock))
        .store_id(TEST_STORE.to_vec())
        .prev_hash([0u8; 32].to_vec())
        .operation(Operation::put(b"/key".to_vec(), b"val".to_vec()))
        .sign(&node);

    let result = chain.append(&entry);

    assert!(matches!(result, Err(SigChainError::WrongAuthor { .. })));
}

#[test]
fn test_reject_wrong_author() {
    let node = NodeIdentity::generate();
    let other_author = [99u8; 32]; // Different author
    let mut chain = RawChain::new(b"test.log".to_vec(), TEST_STORE, other_author);
    let clock = MockClock::new(1000);

    // Entry signed by node but chain expects other_author
    let entry = RawEntryBuilder::new(1, HLC::now_with_clock(&clock))
        .store_id(TEST_STORE.to_vec())
        .prev_hash([0u8; 32].to_vec())
        .put(b"/key".to_vec(), b"val".to_vec())
        .sign(&node);

    let result = chain.append(&entry);

    assert!(matches!(result, Err(SigChainError::WrongAuthor { .. })));
}

#[test]
fn test_build_and_append_entry() {
    let node = NodeIdentity::generate();
    let author = node.public_key();
    let mut chain = SigChain::new(new_log(), TEST_STORE, author);

    let ops = vec![Operation::put(b"/test".to_vec(), b"hello".to_vec())];

    // Build entry (doesn't append)
    let signed = chain.build_entry(&node, vec![], ops);

    // Manually append
    chain.append(&signed).unwrap();

    assert_eq!(chain.len(), 1);

    // Verify it was written
    let entries: Vec<_> = chain.log().read_all()
        .into_iter()
        .collect::<Result<Vec<_>, _>>()
        .unwrap();
    assert_eq!(entries.len(), 1);
    assert_eq!(entries[0].to_proto().entry_bytes, signed.to_proto().entry_bytes);
}

#[test]
fn sigchain_test_reject_wrong_store_id() {
    let node = NodeIdentity::generate();
    let author = node.public_key();
    let clock = MockClock::new(1000);

    let store_a = [0xAAu8; 16];
    let store_b = [0xBBu8; 16];

    // Create valid entry for store A
    let mut chain_a = SigChain::new(new_log(), store_a, author);
    let entry = EntryBuilder::new(1, HLC::now_with_clock(&clock))
        .store_id(store_a.to_vec())
        .prev_hash([0u8; 32].to_vec())
        .operation(Operation::put(b"/key".to_vec(), b"val".to_vec()))
        .sign(&node);
    chain_a.append(&entry).unwrap();

    // Try to replay that entry into store B's chain
    let mut chain_b = SigChain::new(new_log(), store_b, author);
    let result = chain_b.append(&entry);

    assert!(matches!(result, Err(SigChainError::WrongStoreId { .. })));
}

#[test]
fn test_reject_wrong_store_id() {
    let node = NodeIdentity::generate();
    let author = node.public_key();
    let clock = MockClock::new(1000);

    let store_a = [0xAAu8; 16];
    let store_b = [0xBBu8; 16];

    // Create valid entry for store A
    let mut chain_a = RawChain::new(b"test.log".to_vec(), store_a, author);
    let entry = RawEntryBuilder::new(1, HLC::now_with_clock(&clock))
        .store_id(store_a.to_vec())
        .prev_hash([0u8; 32].to_vec())
        .put(b"/key".to_vec(), b"val".to_vec())
        .sign(&node);
    chain_a.append(&entry).unwrap();

    // Try to replay that entry into store B's chain
    let mut chain_b = RawChain::new(b"test.log".to_vec(), store_b, author);
    let result = chain_b.append(&entry);

    assert!(matches!(result, Err(SigChainError::WrongStoreId { .. })));
}

/// Test that ingest() properly validates entries and updates state.
/// Orphan entries (with unknown prev_hash) should be buffered and applied
/// when their parent arrives.
#[test]
fn test_ingest_validates_and_buffers_orphans() {
    let node = NodeIdentity::generate();
    let clock = MockClock::new(1000);

    let mut manager = SigChainManager::empty(b"logs".to_vec(), TEST_STORE);

    // Create entry_1 (genesis)
    let entry_1 = EntryBuilder::new(1, HLC::now_with_clock(&clock))
        .store_id(TEST_STORE.to_vec())
        .prev_hash([0u8; 32].to_vec())
        .operation(Operation::put(b"/key".to_vec(), b"value1".to_vec()))
        .sign(&node);
    let hash_1 = hash_of(&entry_1);

    // Create entry_2 (child of entry_1)
    let entry_2 = EntryBuilder::new(2, HLC::now_with_clock(&clock))
        .store_id(TEST_STORE.to_vec())
        .prev_hash(hash_1.to_vec())
        .operation(Operation::put(b"/key".to_vec(), b"value2".to_vec()))
        .sign(&node);
    let hash_2 = hash_of(&entry_2);

    // Create entry_3 (child of entry_2)
    let entry_3 = EntryBuilder::new(3, HLC::now_with_clock(&clock))
        .store_id(TEST_STORE.to_vec())
        .prev_hash(hash_2.to_vec())
        .operation(Operation::put(b"/key".to_vec(), b"value3".to_vec()))
        .sign(&node);
    let hash_3 = hash_of(&entry_3);

    // Step 1: Ingest entry_1 -> should be Valid
    assert!(matches!(manager.validate_entry(&entry_1), SigchainValidation::Valid));
    let orphans = manager.commit_entry(&entry_1).unwrap();
    assert_eq!(orphans.len(), 0, "No orphans waiting for entry_1");

    // Verify in-memory chain state is updated
    let chain = manager.get(&node.public_key()).expect("chain should exist");
    assert_eq!(chain.next_seq(), 2, "After entry_1: next_seq should be 2");
    assert_eq!(chain.last_hash(), &hash_1, "After entry_1: last_hash should be hash_1");

    // Step 2: Ingest entry_3 (orphan - skipping entry_2)
    match manager.validate_entry(&entry_3) {
        SigchainValidation::Orphan { gap, prev_hash } => {
            manager.buffer_sigchain_orphan(
                &entry_3, gap.author, prev_hash, gap.to_seq, gap.from_seq,
                gap.last_known_hash.unwrap_or([0u8; 32])
            );
        }
        other => panic!("Expected Orphan, got {:?}", other),
    }

    // State should be unchanged
    let chain = manager.get(&node.public_key()).expect("chain should exist");
    assert_eq!(chain.next_seq(), 2, "After buffered entry_3: next_seq should still be 2");

    // Step 3: Ingest entry_2 -> should succeed AND trigger buffered entry_3
    assert!(matches!(manager.validate_entry(&entry_2), SigchainValidation::Valid));
    let orphans = manager.commit_entry(&entry_2).unwrap();
    assert_eq!(orphans.len(), 1, "entry_3 should be returned as ready orphan");

    // Process the returned orphan (entry_3)
    assert!(matches!(manager.validate_entry(&orphans[0].entry), SigchainValidation::Valid));
    let more_orphans = manager.commit_entry(&orphans[0].entry).unwrap();
    assert_eq!(more_orphans.len(), 0, "No more orphans");

    let chain = manager.get(&node.public_key()).expect("chain should exist");
    assert_eq!(chain.next_seq(), 4, "After entry_2+3: next_seq should be 4");
    assert_eq!(chain.last_hash(), &hash_3, "After entry_2+3: last_hash should be hash_3");
}

/// Test that gap events are emitted when orphans are buffered.
/// Simulates receiving entries out-of-order and verifies GapInfo is broadcast.
#[test]
fn test_gap_events_emitted_on_orphan() {
    let node = NodeIdentity::generate();
    let author = node.public_key();
    let clock = MockClock::new(1000);

    let mut manager = SigChainManager::empty(b"logs".to_vec(), TEST_STORE);


    // Create entries
    let entry_1 = EntryBuilder::new(1, HLC::now_with_clock(&clock))
        .store_id(TEST_STORE.to_vec())
        .prev_hash([0u8; 32].to_vec())
        .operation(Operation::put(b"/key".to_vec(), b"v1".to_vec()))
        .sign(&node);
    let hash_1 = hash_of(&entry_1);

    let entry_2 = EntryBuilder::new(2, HLC::now_with_clock(&clock))
        .store_id(TEST_STORE.to_vec())
        .prev_hash(hash_1.to_vec())
        .operation(Operation::put(b"/key".to_vec(), b"v2".to_vec()))
        .sign(&node);

    // Ingest entry_2 first (orphan - entry_1 missing)
    match manager.validate_entry(&entry_2) {
        SigchainValidation::Orphan { gap, prev_hash } => {
            manager.buffer_sigchain_orphan(
                &entry_2, gap.author, prev_hash, gap.to_seq, gap.from_seq,
                gap.last_known_hash.unwrap_or([0u8; 32])
            );
        }
        other => panic!("Expected Orphan, got {:?}", other),
    }

    // Should receive a gap event
    let gap = manager.take_gaps().pop().expect("Should receive gap event");
    assert_eq!(gap.author, author);
    assert_eq!(gap.from_seq, 1); // Chain expects seq 1
    assert_eq!(gap.to_seq, 2);   // We received seq 2

    // Now ingest entry_1 (parent arrives)
    assert!(matches!(manager.validate_entry(&entry_1), SigchainValidation::Valid));
    let orphans = manager.commit_entry(&entry_1).unwrap();
    assert_eq!(orphans.len(), 1, "entry_2 should be returned as ready");

    // Process the orphan
    assert!(matches!(manager.validate_entry(&orphans[0].entry), SigchainValidation::Valid));
    manager.commit_entry(&orphans[0].entry).unwrap();

    // No more gap events (gap was filled)
    assert!(manager.take_gaps().is_empty(), "No more gap events expected");
}

/// Test gap filling scenario: simulate two peers where peer B has gaps.
/// Peer A has entries 1,2,3. Peer B receives 3 first (orphan), then gets 1,2 via sync.
#[test]
fn test_two_peer_gap_fill_simulation() {
    let node = NodeIdentity::generate();
    let clock = MockClock::new(1000);

    // Peer A: Create and apply entries 1, 2, 3 in order
    let mut manager_a = SigChainManager::empty(b"logs".to_vec(), TEST_STORE);

    let entry_1 = EntryBuilder::new(1, HLC::now_with_clock(&clock))
        .store_id(TEST_STORE.to_vec())
        .prev_hash([0u8; 32].to_vec())
        .operation(Operation::put(b"/key".to_vec(), b"v1".to_vec()))
        .sign(&node);
    let hash_1 = hash_of(&entry_1);

    let entry_2 = EntryBuilder::new(2, HLC::now_with_clock(&clock))
        .store_id(TEST_STORE.to_vec())
        .prev_hash(hash_1.to_vec())
        .operation(Operation::put(b"/key".to_vec(), b"v2".to_vec()))
        .sign(&node);
    let hash_2 = hash_of(&entry_2);

    let entry_3 = EntryBuilder::new(3, HLC::now_with_clock(&clock))
        .store_id(TEST_STORE.to_vec())
        .prev_hash(hash_2.to_vec())
        .operation(Operation::put(b"/key".to_vec(), b"v3".to_vec()))
        .sign(&node);
    let hash_3 = hash_of(&entry_3);

    // Peer A applies all entries
    assert!(matches!(manager_a.validate_entry(&entry_1), SigchainValidation::Valid));
    manager_a.commit_entry(&entry_1).unwrap();
    assert!(matches!(manager_a.validate_entry(&entry_2), SigchainValidation::Valid));
    manager_a.commit_entry(&entry_2).unwrap();
    assert!(matches!(manager_a.validate_entry(&entry_3), SigchainValidation::Valid));
    manager_a.commit_entry(&entry_3).unwrap();

    let chain_a = manager_a.get(&node.public_key()).unwrap();
    assert_eq!(chain_a.next_seq(), 4);
    assert_eq!(chain_a.last_hash(), &hash_3);

    // Peer B: Receives entry_3 first (via gossip out-of-order)
    let mut manager_b = SigChainManager::empty(b"logs".to_vec(), TEST_STORE);

    // Entry 3 arrives first - should be buffered as orphan
    match manager_b.validate_entry(&entry_3) {
        SigchainValidation::Orphan { gap, prev_hash } => {
            manager_b.buffer_sigchain_orphan(
                &entry_3, gap.author, prev_hash, gap.to_seq, gap.from_seq,
                gap.last_known_hash.unwrap_or([0u8; 32])
            );
        }
        other => panic!("Expected Orphan for entry_3, got {:?}", other),
    }

    // Gap event should be emitted
    let gap = manager_b.take_gaps().pop().expect("Gap should be detected");
    assert_eq!(gap.from_seq, 1);
    assert_eq!(gap.to_seq, 3);

    // Simulate sync: Peer B gets entry 1 from Peer A
    assert!(matches!(manager_b.validate_entry(&entry_1), SigchainValidation::Valid));
    let orphans = manager_b.commit_entry(&entry_1).unwrap();
    assert_eq!(orphans.len(), 0, "No orphans waiting for entry 1");

    // Peer B gets entry 2 from Peer A - should trigger entry_3
    assert!(matches!(manager_b.validate_entry(&entry_2), SigchainValidation::Valid));
    let orphans = manager_b.commit_entry(&entry_2).unwrap();
    assert_eq!(orphans.len(), 1, "entry_3 should be returned as ready");

    // Process entry_3 (the orphan)
    assert!(matches!(manager_b.validate_entry(&orphans[0].entry), SigchainValidation::Valid));
    manager_b.commit_entry(&orphans[0].entry).unwrap();

    // Verify Peer B state matches Peer A
    let chain_b = manager_b.get(&node.public_key()).unwrap();
    assert_eq!(chain_b.next_seq(), 4);
    assert_eq!(chain_b.last_hash(), &hash_3);
}

#[test]
fn test_create_entry() {
    let node = NodeIdentity::generate();
    let author = node.public_key();
    let mut chain = RawChain::new(b"test.log".to_vec(), TEST_STORE, author);

    let ops = vec![
        Operation {
            op_type: Some(OpType::Put(PutOp {
                key: b"/test".to_vec(),
                value: b"hello".to_vec(),
            })),
        },
    ];

    let signed = chain.create_entry(&node, &ops).unwrap();

    assert_eq!(chain.len(), 1);

    // Verify it was written
    let entries = chain.entries();
    assert_eq!(entries.len(), 1);
    assert_eq!(entries[0].entry_bytes, signed.entry_bytes);
}
