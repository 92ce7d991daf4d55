use lattice_core::entry::{ChainTip, Entry, EntryError, SignedEntry};
use lattice_core::head::lww;
use lattice_core::hlc::HLC;
use lattice_core::message::decode;
use lattice_core::node_identity::{NodeError, NodeIdentity};
use lattice_core::proto::storage::{Operation, PeerSyncInfo};
use lattice_core::store::actor::command::{StoreCmd, StoreReply};
use lattice_core::store::actor::{StoreActor, StoreActorError, StoreEvent};
use lattice_core::store::error::{ParentValidationError, StateError, StoreError};
use lattice_core::store::handle::{log_checksum, OpenedReplica};
use lattice_core::store::log::{IoError, Log, LogError};
use lattice_core::store::peer_sync_store::PeerSyncStore;
use lattice_core::store::record_store::Store;
use lattice_core::store::sigchain::manager::{SigChainManager, SigchainValidation};
use lattice_core::store::sigchain::orphan_store::OrphanStore;
use lattice_core::store::sigchain::{SigChain, SigChainError};
use lattice_core::store::state::State;
use lattice_core::store::watch::{
    extract_literal_prefix, pattern_error, prefix_of_literals, WatchError, WatchEventKind,
    WatcherFilter,
};
use lattice_core::table::ByteTable;
use lattice_core::MAX_ENTRY_SIZE;

const STORE: [u8; 16] = [1u8; 16];

fn identity(secret: u8) -> NodeIdentity {
    NodeIdentity::from_signing_key([secret; 32])
}

fn new_actor(secret: u8) -> StoreActor {
    StoreActor::new(
        State::open(),
        SigChainManager::empty(b"logs".to_vec(), STORE),
        PeerSyncStore::open(),
        identity(secret),
    )
}

fn entry(
    node: &NodeIdentity,
    tip: Option<&SignedEntry>,
    time: u64,
    parents: Vec<[u8; 32]>,
    op: Operation,
) -> SignedEntry {
    let tip = tip.map(ChainTip::of_entry);
    Entry::next_after(tip.as_ref())
        .timestamp(HLC { wall_time: time, counter: 0 })
        .store_id(STORE.to_vec())
        .parent_hashes(parents.iter().map(|h| h.to_vec()).collect())
        .operation(op)
        .sign(node)
}

fn put(key: &[u8], value: &[u8]) -> Operation {
    Operation::put(key.to_vec(), value.to_vec())
}

// --- What holds of every store ---

#[test]
fn replicas_agree_whatever_the_order() {
    let (a, b, c) = (identity(1), identity(2), identity(3));
    let first = entry(&a, None, 10, vec![], put(b"/k", b"first"));
    let left = entry(&b, None, 20, vec![first.hash()], put(b"/k", b"left"));
    let right = entry(&c, None, 20, vec![first.hash()], put(b"/k", b"right"));
    let merged = entry(&a, Some(&first), 30, vec![left.hash(), right.hash()], put(b"/k", b"m"));
    let orders: Vec<Vec<&SignedEntry>> = vec![
        vec![&first, &left, &right, &merged],
        vec![&first, &right, &left, &merged],
        vec![&merged, &right, &left, &first],
        vec![&left, &merged, &first, &right],
    ];
    for order in orders {
        let mut store = new_actor(9);
        for e in order {
            store.ingest_entry(e).unwrap();
        }
        let heads = store.get(b"/k").unwrap();
        assert_eq!(heads.len(), 1);
        assert_eq!(heads[0].hash, merged.hash());
        assert_eq!(lww(&heads), Some(b"m".to_vec()));
        // An entry that waited for its predecessor and then for a parent is still
        // filed under the former, until that is cleaned up.
        store.cleanup_stale_orphans();
        let waiting = store.parts().0.orphan_store();
        assert_eq!((waiting.count(), waiting.count_dag_orphans()), (0, 0));
    }
}

#[test]
fn an_entry_waits_for_its_parent() {
    let (a, b) = (identity(1), identity(2));
    let parent = entry(&a, None, 10, vec![], put(b"/k", b"parent"));
    let child = entry(&b, None, 20, vec![parent.hash()], put(b"/k", b"child"));

    let mut late = new_actor(9);
    late.ingest_entry(&child).unwrap();
    assert!(late.get(b"/k").unwrap().is_empty());
    assert_eq!(late.parts().0.find_dag_orphans(&parent.hash()).len(), 1);
    late.ingest_entry(&parent).unwrap();

    let mut early = new_actor(9);
    early.ingest_entry(&parent).unwrap();
    early.ingest_entry(&child).unwrap();

    assert_eq!(late.get(b"/k").unwrap(), early.get(b"/k").unwrap());
    assert_eq!(late.get(b"/k").unwrap()[0].value, b"child");
    assert_eq!(late.parts().0.orphan_store().count_dag_orphans(), 0);
}

#[test]
fn an_entry_waits_for_all_its_parents() {
    let (a, b, c) = (identity(1), identity(2), identity(3));
    let left = entry(&a, None, 10, vec![], put(b"/k", b"left"));
    let right = entry(&b, None, 11, vec![], put(b"/k", b"right"));
    let merged = entry(&c, None, 20, vec![left.hash(), right.hash()], put(b"/k", b"m"));
    let mut store = new_actor(9);
    store.ingest_entry(&merged).unwrap();
    assert!(store.get(b"/k").unwrap().is_empty());
    assert_eq!(store.parts().0.find_dag_orphans(&left.hash()).len(), 1);
    store.ingest_entry(&left).unwrap();
    assert_eq!(store.get(b"/k").unwrap()[0].hash, left.hash());
    assert_eq!(store.parts().0.find_dag_orphans(&left.hash()).len(), 0);
    assert_eq!(store.parts().0.find_dag_orphans(&right.hash()).len(), 1);
    store.ingest_entry(&right).unwrap();
    let heads = store.get(b"/k").unwrap();
    assert_eq!(heads.len(), 1);
    assert_eq!(heads[0].hash, merged.hash());
    assert_eq!(store.parts().0.orphan_store().count_dag_orphans(), 0);
}

#[test]
fn a_duplicate_changes_nothing() {
    let a = identity(1);
    let e = entry(&a, None, 10, vec![], put(b"/k", b"v"));
    let mut store = new_actor(9);
    store.ingest_entry(&e).unwrap();
    let before = store.get(b"/k").unwrap();
    store.take_events();
    store.ingest_entry(&e).unwrap();
    assert_eq!(store.get(b"/k").unwrap(), before);
    assert!(store.take_events().is_empty());
}

#[test]
fn what_cannot_be_chained_is_refused() {
    let a = identity(1);
    let mut store = new_actor(9);
    let foreign = Entry::next_after(None)
        .store_id(vec![7u8; 16])
        .operation(put(b"/k", b"v"))
        .sign(&a);
    assert!(matches!(
        store.ingest_entry(&foreign),
        Err(StoreActorError::SigChain(SigChainError::WrongStoreId { .. }))
    ));
    let mut forged = entry(&a, None, 10, vec![], put(b"/k", b"v"));
    forged.signature[5] ^= 1;
    assert!(matches!(
        store.ingest_entry(&forged),
        Err(StoreActorError::State(StateError::Unauthorized(_)))
    ));
    assert!(store.get(b"/k").unwrap().is_empty());
}

#[test]
fn an_entry_that_is_too_large_is_not_chained() {
    let mut store = new_actor(1);
    let big = vec![0u8; MAX_ENTRY_SIZE];
    assert!(matches!(
        store.put(b"/k", &big),
        Err(StoreActorError::SigChain(SigChainError::Log(LogError::EntryTooLarge(_))))
    ));
    assert_eq!(store.log_seq(), 0);
}

#[test]
fn a_write_is_read_back_and_leaves_the_rest_alone() {
    let mut store = new_actor(1);
    store.put_at(b"/a", b"1", 1000, 1).unwrap();
    store.put_at(b"/b", b"2", 1001, 1).unwrap();
    assert_eq!(lww(&store.get(b"/a").unwrap()), Some(b"1".to_vec()));
    store.put_at(b"/b", b"3", 1002, 1).unwrap();
    assert_eq!(lww(&store.get(b"/a").unwrap()), Some(b"1".to_vec()));
    assert_eq!(lww(&store.get(b"/b").unwrap()), Some(b"3".to_vec()));
    assert_eq!(store.get(b"/b").unwrap().len(), 1);
    store.delete_at(b"/b", 1003, 1).unwrap();
    assert_eq!(lww(&store.get(b"/b").unwrap()), None);
    assert_eq!(store.get(b"/b").unwrap().len(), 1);
    assert_eq!(store.log_seq(), 4);
    assert_eq!(store.applied_seq(), 4);
}

#[test]
fn several_writes_stop_at_the_first_that_fails() {
    let mut store = new_actor(1);
    let writes = vec![
        (b"/a".to_vec(), b"1".to_vec()),
        (b"/b".to_vec(), vec![0u8; MAX_ENTRY_SIZE]),
        (b"/c".to_vec(), b"3".to_vec()),
    ];
    assert!(store.put_all_at(&writes, 1000, 1).is_err());
    assert_eq!(lww(&store.get(b"/a").unwrap()), Some(b"1".to_vec()));
    assert!(store.get(b"/c").unwrap().is_empty());
}

// --- Questions ---

#[test]
fn keys_are_listed_by_prefix_and_by_pattern() {
    let mut store = new_actor(1);
    for key in ["/a/1", "/a/2", "/b/1"] {
        store.put(key.as_bytes(), b"v").unwrap();
    }
    let names = |pairs: Vec<(Vec<u8>, Vec<lattice_core::head::Head>)>| {
        pairs.into_iter().map(|p| String::from_utf8(p.0).unwrap()).collect::<Vec<_>>()
    };
    assert_eq!(names(store.list().unwrap()), vec!["/a/1", "/a/2", "/b/1"]);
    assert_eq!(names(store.list_by_prefix(b"/a/").unwrap()), vec!["/a/1", "/a/2"]);
    assert_eq!(names(store.list_by_regex("^/./1$").unwrap()), vec!["/a/1", "/b/1"]);
    // A match may start anywhere in a key.
    assert_eq!(names(store.list_by_regex("a/1").unwrap()), vec!["/a/1"]);
    assert_eq!(names(store.watch("b/.").unwrap().1), vec!["/b/1"]);
    match store.list_by_regex("[") {
        Err(StateError::Conversion(why)) => assert!(why.starts_with("Invalid regex: ")),
        other => panic!("expected a conversion error, got {:?}", other),
    }
}

#[test]
fn commands_are_answered() {
    let mut store = new_actor(1);
    let me = identity(1).public_key();
    let done = store.handle(StoreCmd::Put { key: b"/k".to_vec(), value: b"v".to_vec() });
    assert!(matches!(done, StoreReply::Done(Ok(()))));
    match store.handle(StoreCmd::Get { key: b"/k".to_vec() }) {
        StoreReply::Heads(Ok(heads)) => assert_eq!(lww(&heads), Some(b"v".to_vec())),
        _ => panic!("expected heads"),
    }
    assert!(matches!(store.handle(StoreCmd::LogSeq), StoreReply::Number(1)));
    assert!(matches!(store.handle(StoreCmd::AppliedSeq), StoreReply::Number(1)));
    match store.handle(StoreCmd::ChainTip { author: me }) {
        StoreReply::Tip(Some(tip)) => assert_eq!(tip.seq, 1),
        _ => panic!("expected a tip"),
    }
    match store.handle(StoreCmd::LogPaths) {
        StoreReply::Paths(paths) => {
            assert_eq!(paths.len(), 1);
            assert_eq!(paths[0].0, format!("{}.log", hex::encode(me)));
            assert_eq!(paths[0].2, format!("logs/{}.log", hex::encode(me)).into_bytes());
        }
        _ => panic!("expected paths"),
    }
    match store.handle(StoreCmd::LogStats) {
        StoreReply::Stats(logs, bytes, waiting) => {
            assert_eq!((logs, waiting), (1, 0));
            assert!(bytes > 0);
        }
        _ => panic!("expected statistics"),
    }
    let range = StoreCmd::StreamEntriesInRange { author: me, from_seq: 1, to_seq: 1 };
    match store.handle(range) {
        StoreReply::Entries(entries) => assert_eq!(entries.len(), 1),
        _ => panic!("expected entries"),
    }
    store.put(b"/k", b"w").unwrap();
    store.put(b"/k", b"x").unwrap();
    let start = StoreCmd::StreamEntriesInRange { author: me, from_seq: 0, to_seq: 2 };
    match store.handle(start) {
        StoreReply::Entries(entries) => {
            assert_eq!(entries.iter().map(|e| e.entry.seq).collect::<Vec<_>>(), vec![1, 2]);
        }
        _ => panic!("expected entries"),
    }
    let bad = store.handle(StoreCmd::Watch { pattern: "(".to_string() });
    assert!(matches!(bad, StoreReply::Watching(Err(WatchError::InvalidRegex(_)))));
    assert!(matches!(store.handle(StoreCmd::OrphanCleanup), StoreReply::Removed(0)));
    assert!(matches!(store.handle(StoreCmd::SubscribeGaps), StoreReply::Subscribed));
    assert!(matches!(store.handle(StoreCmd::Shutdown), StoreReply::Stopped));
    let gone = store.handle(StoreCmd::Delete { key: b"/k".to_vec() });
    assert!(matches!(gone, StoreReply::Done(Ok(()))));
    let peer = store.handle(StoreCmd::GetPeerSyncState { peer: [2u8; 32] });
    assert!(matches!(peer, StoreReply::PeerInfo(None)));
}

#[test]
fn watchers_are_told_what_they_ask_for() {
    let mut store = new_actor(1);
    store.put(b"/a/1", b"v").unwrap();
    let (one, initial) = store.watch_by_prefix(b"/a/").unwrap();
    assert_eq!(initial.len(), 1);
    assert_eq!(initial[0].0, b"/a/1".to_vec());
    let (two, none) = store.watch("^/b/").unwrap();
    assert!(none.is_empty());
    assert_ne!(one, two);
    store.put(b"/a/2", b"w").unwrap();
    let told = store.take_watch_events(one);
    assert!(!told.is_empty());
    assert!(told.iter().all(|e| e.key == b"/a/2"));
    assert!(store.take_watch_events(two).is_empty());
    store.remove_watcher(one);
    store.delete(b"/a/2").unwrap();
    assert!(store.take_watch_events(one).is_empty());
    // Entries are told whether anybody watches or not.
    let events = store.take_events();
    let entries = events.iter().filter(|e| matches!(e, StoreEvent::Entry(_))).count();
    assert_eq!(entries, 3);
}

#[test]
fn a_deletion_is_told_as_one() {
    let mut store = new_actor(1);
    store.put(b"/a", b"v").unwrap();
    let (id, _) = store.watch("^/a$").unwrap();
    store.delete(b"/a").unwrap();
    assert!(store
        .take_watch_events(id)
        .iter()
        .all(|e| matches!(e.kind, WatchEventKind::Delete)));
}

#[test]
fn patterns_give_prefixes() {
    assert_eq!(extract_literal_prefix("^/nodes/"), Some(b"/nodes/".to_vec()));
    assert_eq!(extract_literal_prefix("^/nodes/[a-f0-9]+/status$"), Some(b"/nodes/".to_vec()));
    assert_eq!(extract_literal_prefix(".*"), None);
    assert_eq!(extract_literal_prefix("["), None);
    assert_eq!(
        prefix_of_literals(&vec![b"/a/b".to_vec(), b"/a/c".to_vec()]),
        Some(b"/a/".to_vec())
    );
    assert_eq!(prefix_of_literals(&vec![b"a".to_vec(), b"b".to_vec()]), None);
    assert_eq!(prefix_of_literals(&vec![]), None);
    assert!(pattern_error("^/a$").is_none());
    assert!(pattern_error("(").is_some());
    assert!(WatcherFilter::Prefix(b"/a".to_vec()).matches(b"/ab"));
    assert!(!WatcherFilter::Prefix(b"/a".to_vec()).matches(b"/"));
    assert!(WatcherFilter::Regex("^/a.$".to_string()).matches(b"/ab"));
    assert!(!WatcherFilter::Regex("^/a.$".to_string()).matches(b"/abc"));
    // A key that is no text is read as well as it can be.
    assert!(WatcherFilter::Regex("^/a".to_string()).matches(&[b'/', b'a', 0xFF]));
}

// --- Peers ---

#[test]
fn what_peers_said_is_kept() {
    let mut store = PeerSyncStore::open();
    let info = PeerSyncInfo { sync_state: None, updated_at: 5 };
    store.set_peer_sync_state(&[2u8; 32], &info);
    store.set_peer_sync_state(&[1u8; 32], &PeerSyncInfo { sync_state: None, updated_at: 4 });
    assert_eq!(store.get_peer_sync_state(&[2u8; 32]), Some(info));
    assert_eq!(store.get_peer_sync_state(&[3u8; 32]), None);
    let all = store.list_peer_sync_states();
    assert_eq!(all.len(), 2);
    assert_eq!(all[0].0, [1u8; 32]);
    assert_eq!(all[1].1.updated_at, 5);
}

// --- Chains ---

#[test]
fn a_chain_has_a_tip() {
    let node = identity(1);
    let log = Log::open_or_create(b"a.log".to_vec(), None);
    let mut chain = SigChain::new(log, STORE, node.public_key());
    assert!(chain.tip().is_none());
    let e = chain.build_entry_at(&node, vec![], vec![put(b"/k", b"v")], 77);
    chain.append(&e).unwrap();
    let tip = chain.tip().unwrap();
    assert_eq!(tip.seq, 1);
    assert_eq!(tip.hash, e.hash());
    assert_eq!(tip.hlc.wall_time, 77);
    // The next entry follows it.
    let next = chain.build_entry_at(&node, vec![], vec![put(b"/k", b"w")], 77);
    assert_eq!(next.entry.prev_hash, e.hash());
    assert_eq!(next.entry.seq, 2);
    assert!(next.entry.is_successor_of(&tip));
    assert_eq!(next.entry.timestamp, HLC { wall_time: 77, counter: 0 });
    // One that is built from the tip ticks past its time.
    let ticked = Entry::next_after_at(Some(&tip), 77).sign(&node);
    assert_eq!(ticked.entry.timestamp, HLC { wall_time: 77, counter: 1 });
    assert_eq!(Entry::next_after_at(Some(&tip), 78).sign(&node).entry.timestamp.counter, 0);
}

#[test]
fn chains_are_opened_from_their_files() {
    let node = identity(1);
    let log = Log::open_or_create(b"a.log".to_vec(), None);
    let mut chain = SigChain::new(log, STORE, node.public_key());
    let e = chain.build_entry_at(&node, vec![], vec![put(b"/k", b"v")], 77);
    chain.append(&e).unwrap();
    let mut files = ByteTable::new();
    files.insert(&node.public_key(), chain.log().bytes().to_vec());
    files.insert(b"not a key", vec![1, 2, 3]);

    let mut manager =
        SigChainManager::new(b"logs".to_vec(), STORE, &files, OrphanStore::open()).unwrap();
    assert!(manager.hash_exists(&e.hash()));
    assert_eq!(manager.validate_entry(&e), SigchainValidation::Duplicate);
    assert_eq!(manager.get(&node.public_key()).unwrap().next_seq(), 2);
    assert_eq!(manager.log_stats().0, 1);
    assert_eq!(manager.sync_state().seq(&node.public_key()), 1);

    // A log that holds another store's chain is an error.
    assert!(SigChainManager::new(b"logs".to_vec(), [2u8; 16], &files, OrphanStore::open()).is_err());
    // A replica leaves such a log alone when it recovers, and does not open then.
    let opened = OpenedReplica::open([2u8; 16], State::open(), &files);
    assert!(opened
        .into_handle(
            b"logs".to_vec(),
            &files,
            OrphanStore::open(),
            PeerSyncStore::open(),
            identity(1),
        )
        .is_err());
}

#[test]
fn a_log_gives_the_entries_of_a_range() {
    let node = identity(1);
    let log = Log::open_or_create(b"a.log".to_vec(), None);
    let mut chain = SigChain::new(log, STORE, node.public_key());
    for i in 0..5u8 {
        let e = chain.build_entry(&node, vec![], vec![put(b"/k", &[i])]);
        chain.append(&e).unwrap();
    }
    let seqs = |from: u64, to: u64| {
        chain.log().entries_in_range(from, to).iter().map(|e| e.entry.seq).collect::<Vec<_>>()
    };
    assert_eq!(seqs(2, 4), vec![2, 3, 4]);
    assert_eq!(seqs(4, 0), vec![4, 5]);
    assert_eq!(seqs(6, 9), Vec::<u64>::new());
    assert_eq!(seqs(0, 2), vec![1, 2]);
    assert_eq!(seqs(0, 0), vec![1, 2, 3, 4, 5]);
    assert_eq!(chain.log().read_all().len(), 5);
    let mut range = chain.log().iter_range(5, 5);
    assert_eq!(range.next().unwrap().unwrap().entry.seq, 5);
    assert!(range.next().is_none());
    assert_eq!(log_checksum(None), "????????");
    let hash = blake3::hash(chain.log().bytes());
    assert_eq!(log_checksum(Some(chain.log().bytes())), hex::encode(&hash.as_bytes()[..8]));
}

// --- State ---

#[test]
fn parents_are_validated() {
    let node = identity(1);
    let state = State::open();
    let e = entry(&node, None, 10, vec![[5u8; 32]], put(b"/k", b"v"));
    match state.validate_parent_hashes(&e) {
        Err(ParentValidationError::MissingParent { key, awaited_hash }) => {
            assert_eq!(key, b"/k".to_vec());
            assert_eq!(awaited_hash, vec![5u8; 32]);
        }
        other => panic!("expected a missing parent, got {:?}", other),
    }
    assert!(state.validate_parent_hashes_with_index(&e, |h| *h == [5u8; 32]).is_ok());
    assert!(state.validate_parent_hashes_with_index(&e, |_| false).is_err());
}

#[test]
fn faulty_tables_are_reported() {
    let mut kv = ByteTable::new();
    kv.insert(b"/k", vec![0xFF]);
    let state = State::from_tables(kv, ByteTable::new());
    assert!(matches!(state.get(b"/k"), Err(StateError::Decode(_))));
    assert!(matches!(state.list_all(true), Err(StateError::Decode(_))));
    let e = entry(&identity(1), None, 10, vec![], put(b"/k", b"v"));
    let mut state = state;
    assert!(matches!(state.apply_entry(&e), Err(StateError::Decode(_))));
    assert!(state.chain_tip(&identity(1).public_key()).is_none());
}

#[test]
fn a_replay_in_parts_is_a_replay_of_the_whole() {
    let node = identity(1);
    let mut entries = Vec::new();
    for i in 0..4u8 {
        let e = entry(&node, entries.last(), 10 + i as u64, vec![], put(b"/k", &[i]));
        entries.push(e);
    }
    let read = |from: usize, to: usize| -> Vec<Result<SignedEntry, LogError>> {
        entries[from..to].iter().cloned().map(Ok).collect()
    };
    let mut whole = State::open();
    assert_eq!(whole.replay_entries(&read(0, 4)).unwrap(), 4);
    let mut parts = State::open();
    assert_eq!(parts.replay_entries(&read(0, 2)).unwrap(), 2);
    assert_eq!(parts.replay_entries(&read(0, 4)).unwrap(), 2);
    assert_eq!(parts.get_heads(b"/k").unwrap(), whole.get_heads(b"/k").unwrap());
    // A faulty log changes nothing.
    let mut faulty = read(0, 2);
    faulty.push(Err(LogError::UnexpectedEof));
    let mut state = State::open();
    assert!(matches!(state.replay_entries(&faulty), Err(StateError::Log(LogError::UnexpectedEof))));
    assert!(state.get_heads(b"/k").unwrap().is_empty());
}

#[test]
fn an_entry_behind_a_gap_is_refused() {
    let node = identity(1);
    let far = ChainTip { seq: 4, hash: [7u8; 32], hlc: HLC { wall_time: 1, counter: 0 } };
    let e = Entry::next_after(Some(&far))
        .timestamp(HLC { wall_time: 10, counter: 0 })
        .store_id(STORE.to_vec())
        .operation(put(b"/k", b"v"))
        .sign(&node);
    let mut state = State::open();
    match state.apply_entry(&e) {
        Err(StateError::NotSuccessor { entry_seq, prev_hash, tip_hash }) => {
            assert_eq!(entry_seq, 5);
            assert_eq!(prev_hash, "0707070707070707");
            assert_eq!(tip_hash, "0000000000000000");
        }
        other => panic!("expected no successor, got {:?}", other),
    }
    assert!(state.get_heads(b"/k").unwrap().is_empty());
    assert!(state.chain_tip(&node.public_key()).is_none());
    // A replay passes it over.
    assert_eq!(state.replay_entries(&vec![Ok(e.clone())]).unwrap(), 0);
    assert!(state.get_heads(b"/k").unwrap().is_empty());

    let mut store = Store::open();
    assert!(matches!(
        store.apply_entry(&e),
        Err(StoreError::NotSuccessor { entry_seq: 5, .. })
    ));
    assert!(store.get_heads(b"/k").unwrap().is_empty());
    assert!(store.chain_tip(&node.public_key()).is_none());
}

#[test]
fn only_a_successor_is_applied() {
    let node = identity(1);
    let first = entry(&node, None, 10, vec![], put(b"/k", b"1"));
    let fork = entry(&node, None, 11, vec![], put(b"/k", b"fork"));
    let mut state = State::open();
    state.apply_entry(&first).unwrap();
    let start = hex::encode(&first.hash()[..8]);
    for refused in [&first, &fork] {
        match state.apply_entry(refused) {
            Err(StateError::NotSuccessor { entry_seq, prev_hash, tip_hash }) => {
                assert_eq!(entry_seq, 1);
                assert_eq!(prev_hash, "0000000000000000");
                assert_eq!(tip_hash, start);
            }
            other => panic!("expected no successor, got {:?}", other),
        }
        let heads = state.get_heads(b"/k").unwrap();
        assert_eq!(heads.len(), 1);
        assert_eq!(heads[0].hash, first.hash());
        assert_eq!(state.chain_tip(&node.public_key()).unwrap().hash, first.hash());
    }
}

#[test]
fn a_replay_takes_up_the_rest() {
    let node = identity(1);
    let mut entries: Vec<SignedEntry> = Vec::new();
    for i in 0..5u8 {
        let e = entry(&node, entries.last(), 10 + i as u64, vec![], put(b"/k", &[i]));
        entries.push(e);
    }
    let log: Vec<Result<SignedEntry, LogError>> = entries.iter().cloned().map(Ok).collect();
    let mut state = State::open();
    for e in &entries[..3] {
        state.apply_entry(e).unwrap();
    }
    assert_eq!(state.replay_entries(&log).unwrap(), 2);
    let tip = state.chain_tip(&node.public_key()).unwrap();
    assert_eq!((tip.seq, tip.hash), (5, entries[4].hash()));
    let heads = state.get_heads(b"/k").unwrap();
    assert_eq!(heads.len(), 5);
    assert_eq!(state.replay_entries(&log).unwrap(), 0);
    assert_eq!(state.get_heads(b"/k").unwrap(), heads);
    assert_eq!(state.chain_tip(&node.public_key()).unwrap().seq, 5);
}

// --- Errors ---

#[test]
fn store_errors_have_texts() {
    assert_eq!(
        StateError::NotSuccessor {
            entry_seq: 3,
            prev_hash: "aa".to_string(),
            tip_hash: "bb".to_string(),
        }
        .to_string(),
        "Entry not successor of tip (seq 3, prev_hash aa, tip_hash bb)"
    );
    assert_eq!(
        StateError::Log(LogError::HashMismatch).to_string(),
        "Log error: Hash mismatch: stored hash does not match computed hash"
    );
    assert_eq!(StateError::Unauthorized("x".to_string()).to_string(), "Unauthorized: x");
    assert_eq!(StateError::Conversion("x".to_string()).to_string(), "Conversion error: x");
    assert_eq!(StateError::Backend("x".to_string()).to_string(), "Backend error: x");
    assert_eq!(StateError::Io("x".to_string()).to_string(), "IO error: x");
    assert_eq!(StoreError::Database("x".to_string()).to_string(), "Database error: x");
    assert_eq!(StoreError::Commit("x".to_string()).to_string(), "Commit error: x");
    assert_eq!(
        ParentValidationError::MissingParent { key: vec![], awaited_hash: vec![] }.to_string(),
        "Missing parent hash for key"
    );
    assert_eq!(
        SigChainError::InvalidSequence { expected: 2, got: 7 }.to_string(),
        "Invalid sequence: expected 2, got 7"
    );
    assert_eq!(
        WatchError::InvalidRegex("x".to_string()).to_string(),
        "Invalid regex: x"
    );
    assert_eq!(
        EntryError::Signature(NodeError::InvalidSignature).to_string(),
        "Signature verification failed: Invalid signature"
    );
    let broken = decode::<PeerSyncInfo>(&[0x0F]).unwrap_err();
    assert_eq!(
        EntryError::Decode(broken).to_string(),
        "Proto decode error: failed to decode Protobuf message: invalid wire type value: 7"
    );
    assert!(LogError::Io(IoError::File).to_string().contains("file"));
}
