use lattice_core::causal_iter::CausalEntryIter;
use lattice_core::clock::MockClock;
use lattice_core::hlc::HLC;
use lattice_core::node_identity::NodeIdentity;
use lattice_core::proto::storage::SignedEntry;
use lattice_core::signed_entry::EntryBuilder;
use std::collections::VecDeque;

fn make_entry(node: &NodeIdentity, seq: u64, time_ms: u64) -> SignedEntry {
    let clock = MockClock::new(time_ms);
    EntryBuilder::new(seq, HLC::now_with_clock(&clock))
        .store_id(vec![0u8; 16])
        .prev_hash(vec![0u8; 32])
        .put(b"/test".to_vec(), format!("seq{}", seq).into_bytes())
        .sign(node)
}

#[test]
fn test_empty_iter() {
    let iter = CausalEntryIter::new(vec![]);
    assert_eq!(iter.collect().len(), 0);
}

#[test]
fn test_single_queue() {
    let node = NodeIdentity::generate();
    let entries: VecDeque<_> = vec![make_entry(&node, 1, 1000), make_entry(&node, 2, 2000)].into();

    let iter = CausalEntryIter::new(vec![entries]);
    let result: Vec<_> = iter.collect();
    assert_eq!(result.len(), 2);
}

#[test]
fn test_merge_multiple_queues() {
    let node_a = NodeIdentity::generate();
    let node_b = NodeIdentity::generate();

    // Author A: entries at time 1000, 3000
    let queue_a: VecDeque<_> =
        vec![make_entry(&node_a, 1, 1000), make_entry(&node_a, 2, 3000)].into();

    // Author B: entries at time 2000
    let queue_b: VecDeque<_> = vec![make_entry(&node_b, 1, 2000)].into();

    let iter = CausalEntryIter::new(vec![queue_a, queue_b]);
    let result: Vec<_> = iter.collect();

    // Should be in HLC order: 1000, 2000, 3000
    assert_eq!(result.len(), 3);

    // Verify order by checking HLC values
    let hlcs: Vec<_> = result.iter().map(|e| CausalEntryIter::get_hlc(e)).collect();
    assert_eq!(hlcs[0].0, 1000);
    assert_eq!(hlcs[1].0, 2000);
    assert_eq!(hlcs[2].0, 3000);
}

#[test]
fn test_many_authors() {
    // Test with 10 authors
    let nodes: Vec<_> = (0..10).map(|_| NodeIdentity::generate()).collect();
    let queues: Vec<VecDeque<_>> = nodes
        .iter()
        .enumerate()
        .map(|(i, node)| vec![make_entry(node, 1, (i * 100 + 50) as u64)].into())
        .collect();

    let iter = CausalEntryIter::new(queues);
    let result: Vec<_> = iter.collect();

    assert_eq!(result.len(), 10);

    // Verify strictly increasing HLC order
    let hlcs: Vec<_> = result.iter().map(|e| CausalEntryIter::get_hlc(e).0).collect();
    for window in hlcs.windows(2) {
        assert!(window[0] < window[1], "HLCs should be strictly increasing");
    }
}

#[test]
fn entries_come_one_at_a_time() {
    let node = NodeIdentity::generate();
    let first = make_entry(&node, 1, 10);
    let second = make_entry(&node, 2, 20);
    let queue: VecDeque<_> = vec![first.clone(), second.clone()].into();
    let mut iter = CausalEntryIter::new(vec![VecDeque::new(), queue]);
    assert_eq!(iter.next(), Some(first));
    assert_eq!(iter.next(), Some(second));
    assert_eq!(iter.next(), None);
}

#[test]
fn an_entry_that_is_no_message_is_the_oldest() {
    let broken = SignedEntry { entry_bytes: vec![0xFF], signature: vec![], author_id: vec![] };
    assert_eq!(CausalEntryIter::get_hlc(&broken), (0, 0));
}
