use lattice_core::store::sync_state::SyncState;
use lattice_core::sync_state::SyncState as PlainSyncState;

#[test]
fn sync_state_test_diff_empty() {
    let a = SyncState::new();
    let b = SyncState::new();
    assert!(a.diff(&b).is_empty());
}

/// The same by sequence numbers alone.
#[test]
fn test_diff_empty() {
    let a = PlainSyncState::new();
    let b = PlainSyncState::new();
    assert!(a.diff(&b).is_empty());
}

#[test]
fn sync_state_test_diff_peer_ahead() {
    let mut a = SyncState::new();
    let mut b = SyncState::new();

    let author = [1u8; 32];
    let hash_a = [0xAA; 32];
    let hash_b = [0xBB; 32];

    a.set(author, 5, hash_a);
    b.set(author, 10, hash_b);

    let missing = a.diff(&b);
    assert_eq!(missing.len(), 1);
    assert_eq!(missing[0].author, author);
    assert_eq!(missing[0].from_seq, 5);
    assert_eq!(missing[0].from_hash, hash_a);  // Resume after our hash
    assert_eq!(missing[0].to_seq, 10);
}

/// The same by sequence numbers alone.
#[test]
fn test_diff_peer_ahead() {
    let mut a = PlainSyncState::new();
    let mut b = PlainSyncState::new();

    let author = [1u8; 32];
    let hash_a = [0xAA; 32];
    let hash_b = [0xBB; 32];

    a.set(author, 5, hash_a);
    b.set(author, 10, hash_b);

    let missing = a.diff(&b);
    assert_eq!(missing.len(), 1);
    assert_eq!(missing[0].author, author);
    assert_eq!(missing[0].from_seq, 5);
    assert_eq!(missing[0].from_hash, hash_a);  // Resume after our hash
    assert_eq!(missing[0].to_seq, 10);
}

#[test]
fn sync_state_test_diff_i_am_ahead() {
    let mut a = SyncState::new();
    let mut b = SyncState::new();

    let author = [1u8; 32];
    a.set(author, 10, [0xAA; 32]);
    b.set(author, 5, [0xBB; 32]);

    // I'm ahead, so I don't need anything from peer
    let missing = a.diff(&b);
    assert!(missing.is_empty());
}

/// The same by sequence numbers alone.
#[test]
fn test_diff_i_am_ahead() {
    let mut a = PlainSyncState::new();
    let mut b = PlainSyncState::new();

    let author = [1u8; 32];
    a.set(author, 10, [0xAA; 32]);
    b.set(author, 5, [0xBB; 32]);

    // I'm ahead, so I don't need anything from peer
    let missing = a.diff(&b);
    assert!(missing.is_empty());
}

#[test]
fn sync_state_test_diff_new_author() {
    let a = SyncState::new();
    let mut b = SyncState::new();

    let author = [2u8; 32];
    b.set(author, 3, [0xBB; 32]);

    // Peer has author I don't have
    let missing = a.diff(&b);
    assert_eq!(missing.len(), 1);
    assert_eq!(missing[0].from_seq, 0);
    assert_eq!(missing[0].from_hash, [0u8; 32]);  // Zero hash = read from start
    assert_eq!(missing[0].to_seq, 3);
}

/// The same by sequence numbers alone.
#[test]
fn test_diff_new_author() {
    let a = PlainSyncState::new();
    let mut b = PlainSyncState::new();

    let author = [2u8; 32];
    b.set(author, 3, [0xBB; 32]);

    // Peer has author I don't have
    let missing = a.diff(&b);
    assert_eq!(missing.len(), 1);
    assert_eq!(missing[0].from_seq, 0);
    assert_eq!(missing[0].from_hash, [0u8; 32]);  // Zero hash = read from start
    assert_eq!(missing[0].to_seq, 3);
}

#[test]
fn sync_state_test_merge() {
    let mut a = SyncState::new();
    let mut b = SyncState::new();

    let author1 = [1u8; 32];
    let author2 = [2u8; 32];

    a.set(author1, 10, [0xA1; 32]);
    a.set(author2, 5, [0xA2; 32]);

    b.set(author1, 5, [0xB1; 32]);   // a is ahead
    b.set(author2, 8, [0xB2; 32]);   // b is ahead

    a.merge(&b);
    assert_eq!(a.seq(&author1), 10);  // kept a's value
    assert_eq!(a.seq(&author2), 8);   // took b's value
}

/// The same by sequence numbers alone.
#[test]
fn test_merge() {
    let mut a = PlainSyncState::new();
    let mut b = PlainSyncState::new();

    let author1 = [1u8; 32];
    let author2 = [2u8; 32];

    a.set(author1, 10, [0xA1; 32]);
    a.set(author2, 5, [0xA2; 32]);

    b.set(author1, 5, [0xB1; 32]);   // a is ahead
    b.set(author2, 8, [0xB2; 32]);   // b is ahead

    a.merge(&b);
    assert_eq!(a.seq(&author1), 10);  // kept a's value
    assert_eq!(a.seq(&author2), 8);   // took b's value
}

/// Two forks of a chain have the same length and different last hashes: a fork is not
/// missed because the numbers match.
#[test]
fn test_multihead_sync_inconsistency() {
    let mut peer1_state = SyncState::new();
    let mut peer2_state = SyncState::new();
    let new_peer_state = SyncState::new();

    let author = [1u8; 32];

    // Both peers have seq=2, but different hashes (different forks)
    peer1_state.set(author, 2, [0xBB; 32]); // entry1 -> entry2
    peer2_state.set(author, 2, [0xCC; 32]); // entry1 -> entry3

    // New peer syncs with peer1 first
    let missing_from_peer1 = new_peer_state.diff(&peer1_state);
    assert_eq!(missing_from_peer1.len(), 1);
    assert_eq!(missing_from_peer1[0].to_seq, 2);

    // After applying peer1's entries, new peer has seq=2, hash=BB
    let mut after_peer1 = SyncState::new();
    after_peer1.set(author, 2, [0xBB; 32]);

    // Now sync with peer2, which has the other fork
    let missing_from_peer2 = after_peer1.diff(&peer2_state);

    assert!(!missing_from_peer2.is_empty(),
        "SyncState misses peer2's fork because seq numbers match");
}

/// Test that diff returns all authors, which can then be filtered by protocol layer.
/// This verifies the author_filter parameter in send_missing_entries works.
#[test]
fn test_diff_multiple_authors_for_filtering() {
    let mut my_state = SyncState::new();
    let mut peer_state = SyncState::new();

    let author_a = [0xAA; 32];
    let author_b = [0xBB; 32];
    let author_c = [0xCC; 32];

    // I have author_a at seq 5, nothing for b or c
    my_state.set(author_a, 5, [0x11; 32]);

    // Peer has all three authors ahead of me
    peer_state.set(author_a, 10, [0x22; 32]);
    peer_state.set(author_b, 3, [0x33; 32]);
    peer_state.set(author_c, 7, [0x44; 32]);

    // Full diff returns all three
    let full_diff = my_state.diff(&peer_state);
    assert_eq!(full_diff.len(), 3, "Should have 3 authors in diff");

    // Verify filter mechanism works (simulating protocol layer)
    let author_filter = [author_b];
    let filtered: Vec<_> = full_diff.iter()
        .filter(|r| author_filter.contains(&r.author))
        .collect();

    assert_eq!(filtered.len(), 1, "Should filter to just author_b");
    assert_eq!(filtered[0].author, author_b);
    assert_eq!(filtered[0].from_seq, 0);
    assert_eq!(filtered[0].to_seq, 3);
}

/// Test gap filling scenario: I have seq 1-5, I receive seq 8 (orphan).
/// Gap detection should request seq 6-8 from peers.
#[test]
fn test_gap_detection_sync_request() {
    let mut my_state = SyncState::new();
    let mut peer_state = SyncState::new();

    let author = [0x11; 32];

    // I have entries 1-5
    my_state.set(author, 5, [0xAA; 32]);

    // I received orphan at seq 8, so I know peer has at least seq 8
    // (In reality, we'd learn this from the GapInfo broadcast)
    peer_state.set(author, 8, [0xBB; 32]);

    // Diff should show I need seq 6-8
    let missing = my_state.diff(&peer_state);
    assert_eq!(missing.len(), 1);
    assert_eq!(missing[0].from_seq, 5);  // I have up to 5
    assert_eq!(missing[0].to_seq, 8);    // Peer has up to 8

    // The sync should fill entries 6, 7, 8 and resolve the orphan
}

/// Test calculate_discrepancy counts entries correctly.
/// from_seq = "I have up to X", to_seq = "peer has up to Y"
/// Missing entries = Y - X
#[test]
fn test_calculate_discrepancy() {
    let mut local = SyncState::new();
    let author_a = [1u8; 32];
    // Local has author A: entries 1..=5
    local.set(author_a, 5, [0xAA; 32]);

    let mut peer = SyncState::new();
    // Peer has author A: entries 1..=10 (we're missing 6,7,8,9,10 = 5 entries)
    peer.set(author_a, 10, [0xBB; 32]);
    // Peer has author B: entry 1 (we have nothing, missing 1 entry)
    let author_b = [2u8; 32];
    peer.set(author_b, 1, [0xCC; 32]);

    let discrepancy = local.calculate_discrepancy(&peer);

    // We need: Author A: 10-5=5, Author B: 1-0=1, Total: 6
    // They need: nothing (they have everything we have and more)
    assert_eq!(discrepancy.entries_we_need, 6, "Should correctly count entries we need");
    assert_eq!(discrepancy.entries_they_need, 0, "Peer has everything we have");
    assert!(discrepancy.is_out_of_sync(), "Should be out of sync");
}

#[test]
fn a_merge_closes_the_gap() {
    let mut a = SyncState::new();
    let mut b = SyncState::new();
    a.set([1u8; 32], 3, [1u8; 32]);
    b.set([1u8; 32], 7, [2u8; 32]);
    b.set([2u8; 32], 1, [3u8; 32]);
    assert_eq!(a.diff(&b).len(), 2);
    a.merge(&b);
    assert!(a.diff(&b).is_empty());
    assert!(b.diff(&a).is_empty());
    assert!(a.diff(&a).is_empty());
    // Merging again changes nothing.
    a.merge(&b);
    assert_eq!(a.seq(&[1u8; 32]), 7);
    assert_eq!(a.hash(&[1u8; 32]), [2u8; 32]);
    assert_eq!(a.get(&[9u8; 32]), None);
}

#[test]
fn the_common_time_is_the_earliest() {
    let mut s = SyncState::new();
    assert_eq!(s.common_hlc(), None);
    s.set_with_hlc([1u8; 32], 1, [0u8; 32], Some((50, 2)));
    s.set_with_hlc([2u8; 32], 1, [0u8; 32], Some((50, 1)));
    assert_eq!(s.common_hlc(), Some((50, 1)));
}

#[test]
fn a_state_is_sent_and_received() {
    let mut s = SyncState::new();
    s.set_with_hlc([1u8; 32], 4, [5u8; 32], Some((9, 1)));
    s.set([2u8; 32], 6, [7u8; 32]);
    let sent = s.to_proto();
    assert_eq!(sent.authors.len(), 2);
    let received = SyncState::from_proto(&sent);
    assert_eq!(received.seq(&[1u8; 32]), 4);
    assert_eq!(received.hash(&[2u8; 32]), [7u8; 32]);
    assert_eq!(received.authors().len(), s.authors().len());
    for author in [[1u8; 32], [2u8; 32]] {
        assert_eq!(received.get(&author), s.get(&author));
    }
    assert!(received.diff(&s).is_empty());
    assert!(s.diff(&received).is_empty());
}

#[test]
fn a_discrepancy_counts_both_ways() {
    let mut local = SyncState::new();
    let mut peer = SyncState::new();
    local.set([1u8; 32], 9, [1u8; 32]);
    peer.set([1u8; 32], 2, [2u8; 32]);
    peer.set([2u8; 32], 3, [3u8; 32]);
    let d = local.calculate_discrepancy(&peer);
    assert_eq!(d.entries_we_need, 3);
    assert_eq!(d.entries_they_need, 7);
    assert!(d.is_out_of_sync());
    let none = local.calculate_discrepancy(&local);
    assert!(!none.is_out_of_sync());
    // Numbers that do not fit make no discrepancy.
    let mut huge = SyncState::new();
    huge.set([3u8; 32], u64::MAX, [4u8; 32]);
    huge.set([4u8; 32], u64::MAX, [4u8; 32]);
    assert!(local.checked_discrepancy(&huge).is_none());
}
