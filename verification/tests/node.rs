use lattice_core::daemon::{log_directives, log_level};
use lattice_core::head::{lww, lww_head};
use lattice_core::meta_store::MetaStore;
use lattice_core::node::{Node, NodeBuilder, NodeError};
use lattice_core::node_identity::{NodeIdentity, PeerStatus};
use lattice_core::store::peer_sync_store::PeerSyncStore;
use lattice_core::store::sigchain::orphan_store::OrphanStore;
use lattice_core::store::state::State;
use lattice_core::store::watch::WatchEventKind;
use lattice_core::table::ByteTable;
use lattice_core::token::Invite;

const NOW_MS: u64 = 1_700_000_000_000;
const NOW: u64 = 1_700_000_000;

fn new_node() -> Node {
    NodeBuilder::new().build(None, MetaStore::open()).expect("Failed to create node")
}

/// What is written to disk and read back.
fn copied(table: &ByteTable) -> ByteTable {
    let mut copy = ByteTable::new();
    for i in 0..table.len() {
        copy.insert(table.key_at(i), table.value_at(i).clone());
    }
    copy
}

fn reopened(meta: &MetaStore) -> MetaStore {
    let (stores, meshes, own) = meta.tables();
    MetaStore::from_tables(copied(stores), copied(meshes), copied(own))
}

#[test]
fn test_create_and_open_store() {
    let mut node = new_node();

    assert!(node.info().stores.is_empty());

    let store_id = node.create_store();

    // Verify it's in the list
    let stores = node.list_stores();
    assert!(stores.contains(&store_id));

    let (mut handle, _) = node
        .open_store(
            store_id,
            State::open(),
            &ByteTable::new(),
            OrphanStore::open(),
            PeerSyncStore::open(),
        )
        .expect("Failed to open store");
    handle.put(b"/key", b"value").expect("put failed");
    assert_eq!(lww(&handle.get(b"/key").unwrap()), Some(b"value".to_vec()));
}

#[test]
fn test_store_isolation() {
    let mut node = new_node();

    let store_a = node.create_store();
    let store_b = node.create_store();
    assert_ne!(store_a, store_b);

    let mut handle_a = node.new_store(store_a);
    handle_a.put(b"/key", b"from A").expect("put A");

    let handle_b = node.new_store(store_b);
    assert_eq!(lww(&handle_b.get(b"/key").unwrap()), None);

    assert_eq!(lww(&handle_a.get(b"/key").unwrap()), Some(b"from A".to_vec()));
}

#[test]
fn test_init_creates_root_store() {
    let mut node = new_node();

    // Initially no root store
    assert!(node.root_store().is_err());

    // Init creates root store
    let root_id = node.init().expect("init failed");
    assert_eq!(node.root_store_id(), Some(root_id));
}

#[test]
fn test_duplicate_init_fails() {
    let mut node = new_node();

    node.init().expect("first init");

    // Second init should fail
    match node.init() {
        Ok(_) => panic!("Expected AlreadyInitialized error"),
        Err(e) => match e {
            NodeError::AlreadyInitialized => (),
            _ => panic!("Expected AlreadyInitialized, got {:?}", e),
        },
    }
}

#[test]
fn test_root_store_in_info_after_init() {
    // First session: init
    let mut node = new_node();
    let root_id = node.init().expect("init");
    let meta = reopened(node.meta()); // End first session

    // Second session: root_store should persist
    let node = NodeBuilder::new().build(None, meta).expect("reload node");

    assert_eq!(node.root_store_id(), Some(root_id));
}

#[test]
fn test_idempotent_put_and_delete() {
    let mut node = new_node();
    node.init().expect("init");
    let mut store = node.into_root_store().unwrap();

    // Get baseline seq after init
    let baseline = store.log_seq();

    // Put twice with same value - second should be idempotent
    store.put(b"/key", b"value").expect("put 1");
    assert_eq!(store.log_seq(), baseline + 1);

    store.put(b"/key", b"value").expect("put 2");
    assert_eq!(store.log_seq(), baseline + 1, "Second put should be idempotent (no new entry)");

    // Delete twice - second should be idempotent
    store.delete(b"/key").expect("delete 1");
    assert_eq!(store.log_seq(), baseline + 2);

    store.delete(b"/key").expect("delete 2");
    assert_eq!(store.log_seq(), baseline + 2, "Second delete should be idempotent (no new entry)");
}

#[test]
fn test_set_name_updates_store() {
    let mut node = new_node();

    // Set initial name
    assert!(node.name().is_some());
    let initial_name = node.name().unwrap();

    // Init creates root store
    node.init().expect("init");

    // Verify initial name is in store
    let pubkey_hex = hex::encode(node.node_id());
    let name_key = format!("/nodes/{}/name", pubkey_hex);
    {
        let store = node.root_store().unwrap();
        let stored_name = lww(&store.get(name_key.as_bytes()).unwrap());
        assert_eq!(stored_name, Some(initial_name.as_bytes().to_vec()));
    }

    // Change name
    let new_name = "my-custom-name";
    node.set_name(new_name).expect("set_name");

    // Verify meta.db updated
    assert_eq!(node.name(), Some(new_name.to_string()));

    // Verify store updated
    {
        let store = node.root_store().unwrap();
        let stored_name = lww(&store.get(name_key.as_bytes()).unwrap());
        assert_eq!(stored_name, Some(new_name.as_bytes().to_vec()));
    }
}

#[test]
fn test_invite_peer() {
    let mut node = new_node();

    // Init first
    node.init().expect("init");

    // Invite a peer
    let peer_pubkey = [0u8; 32]; // Dummy pubkey
    node.invite_peer_at(peer_pubkey, NOW_MS, NOW).expect("invite");

    // Verify peer is Invited
    let peers =
        node.get_mesh().unwrap().list_peers(node.root_store().unwrap()).expect("list_peers");
    let invited = peers.iter().find(|p| p.pubkey == peer_pubkey);
    assert!(invited.is_some(), "Should find invited peer");
    assert_eq!(invited.unwrap().status, PeerStatus::Invited);
    assert_eq!(invited.unwrap().added_at, Some(NOW));
    assert_eq!(invited.unwrap().added_by, Some(hex::encode(node.node_id())));
}

#[test]
fn test_accept_join() {
    let mut node = new_node();

    // Init first
    let store_id = node.init().expect("init");

    // Invite a peer
    let peer_pubkey = [1u8; 32]; // Dummy pubkey
    node.invite_peer_at(peer_pubkey, NOW_MS, NOW).expect("invite");

    // Accept the join
    let acceptance = node.accept_join(&peer_pubkey, &store_id).expect("accept_join");
    assert_eq!(acceptance.store_id, store_id);

    // Peer should now be Active
    let peers =
        node.get_mesh().unwrap().list_peers(node.root_store().unwrap()).expect("list_peers");
    let peer = peers.iter().find(|p| p.pubkey == peer_pubkey);
    assert!(peer.is_some(), "Should find peer");
    assert_eq!(peer.unwrap().status, PeerStatus::Active);
}

#[test]
fn test_invite_join_sync_flow() {
    // Node A: creator, Node B: joiner
    let mut node_a = new_node();
    let mut node_b = new_node();

    // Step 1: Node A initializes
    let store_id = node_a.init().expect("A init");

    // Step 2: A invites B
    node_a.invite_peer_at(node_b.node_id(), NOW_MS, NOW).expect("invite B");

    // Verify B is invited
    let peers =
        node_a.get_mesh().unwrap().list_peers(node_a.root_store().unwrap()).expect("list peers");
    assert!(peers.iter().any(|p| p.status == PeerStatus::Invited));

    // Step 3: B "joins" (complete_join simulates receiving JoinResponse)
    let joined = node_b.new_store(store_id);
    node_b.complete_join(store_id, joined, None).expect("B join");

    // Verify B has the same store ID
    assert_eq!(node_b.root_store_id(), Some(store_id));

    // Step 4: A writes data
    let mut store_a = node_a.into_root_store().expect("A has root store");
    store_a.put(b"/key", b"from A").expect("A put");

    // Step 5: B writes data independently
    let mut store_b = node_b.into_root_store().expect("B has root store");
    store_b.put(b"/key", b"from B").expect("B put");

    // Each store has its own local state (not synced yet)
    let a_val = lww(&store_a.get(b"/key").expect("A get")).unwrap();
    let b_val = lww(&store_b.get(b"/key").expect("B get")).unwrap();

    // A sees "from A" (its own write wins locally)
    assert_eq!(a_val, b"from A".to_vec());
    // B sees "from B" (its own write wins locally)
    assert_eq!(b_val, b"from B".to_vec());
}

// === Watcher Tests ===

#[test]
fn test_watch_receives_put_event() {
    let mut node = new_node();
    node.init().expect("init");

    let mut store = node.into_root_store().unwrap();

    // Watch for keys starting with /test/
    let (rx, _initial) = store.watch("^/test/").expect("watch");

    // Write a matching key
    store.put(b"/test/key1", b"value1").expect("put");

    // Should receive the event
    let event = store.take_watch_events(rx).remove(0);
    assert_eq!(event.key, b"/test/key1");
    match event.kind {
        WatchEventKind::Update { heads } => {
            let value = lww_head(&heads).map(|h| h.value.as_slice()).unwrap_or(&[]);
            assert_eq!(value, b"value1");
        }
        _ => panic!("Expected Update event"),
    }
}

#[test]
fn test_watch_receives_delete_event() {
    let mut node = new_node();
    node.init().expect("init");

    let mut store = node.into_root_store().unwrap();

    // First put, then watch, then delete
    store.put(b"/test/key", b"value").expect("put");

    let (rx, _initial) = store.watch("^/test/").expect("watch");
    store.delete(b"/test/key").expect("delete");

    // Should receive delete event
    let event = store.take_watch_events(rx).remove(0);
    assert_eq!(event.key, b"/test/key");
    assert!(matches!(event.kind, WatchEventKind::Delete));
}

#[test]
fn test_watch_only_matching_keys() {
    let mut node = new_node();
    node.init().expect("init");

    let mut store = node.into_root_store().unwrap();

    // Watch only /nodes/
    let (rx, _initial) = store.watch("^/nodes/").expect("watch");

    // Write a non-matching key (should NOT trigger)
    store.put(b"/config/setting", b"value").expect("put config");

    // Write a matching key (should trigger)
    store.put(b"/nodes/abc/status", b"active").expect("put nodes");

    // Should only receive the nodes key
    let events = store.take_watch_events(rx);
    assert_eq!(events[0].key, b"/nodes/abc/status");
    assert!(events.iter().all(|e| e.key == b"/nodes/abc/status"));
}

#[test]
fn test_watch_complex_regex() {
    let mut node = new_node();
    node.init().expect("init");

    let mut store = node.into_root_store().unwrap();

    // Watch for peer status keys specifically
    let (rx, _initial) = store.watch("^/nodes/[a-f0-9]+/status$").expect("watch");

    // This should NOT match (name, not status)
    store.put(b"/nodes/abc123/name", b"Alice").expect("put name");

    // This SHOULD match (status)
    store.put(b"/nodes/abc123/status", b"active").expect("put status");

    // Should only receive the status key
    let events = store.take_watch_events(rx);
    assert!(events[0].key.ends_with(b"/status"));
    assert!(events.iter().all(|e| e.key.ends_with(b"/status")));
}

#[test]
fn test_watch_invalid_regex_fails() {
    let mut node = new_node();
    node.init().expect("init");

    let mut store = node.into_root_store().unwrap();

    // Invalid regex should return error
    let result = store.watch("[invalid(regex");
    assert!(result.is_err());
}

#[test]
fn test_watch_multiple_watchers() {
    let mut node = new_node();
    node.init().expect("init");

    let mut store = node.into_root_store().unwrap();

    // Two watchers with different patterns
    let (rx1, _initial1) = store.watch("^/nodes/").expect("watch 1");
    let (rx2, _initial2) = store.watch("^/config/").expect("watch 2");

    // Write to nodes (should trigger rx1 only)
    store.put(b"/nodes/test", b"value").expect("put nodes");

    // Write to config (should trigger rx2 only)
    store.put(b"/config/test", b"value").expect("put config");

    // rx1 should receive nodes event
    let event1 = store.take_watch_events(rx1).remove(0);
    assert!(event1.key.starts_with(b"/nodes/"));

    // rx2 should receive config event
    let event2 = store.take_watch_events(rx2).remove(0);
    assert!(event2.key.starts_with(b"/config/"));
}

#[test]
fn test_node_to_mesh_delegation() {
    let mut node = NodeBuilder::new()
        .with_data_dir(b"/tmp/lattice".to_vec())
        .build(None, MetaStore::open())
        .unwrap();
    let peer_pubkey = [2u8; 32];

    // 1. Before init, no meshes should exist
    assert!(node.mesh().is_none());

    // 2. Init creates a mesh
    let mesh_id = node.init().unwrap();
    assert_eq!(node.get_mesh().expect("mesh should exist").id(), mesh_id);

    // 3. Create invite token
    let token_string = node.create_invite_at(&[5u8; 32], NOW_MS, NOW).unwrap();
    let invite = Invite::parse(&token_string).unwrap();
    assert_eq!(invite.inviter, node.node_id());
    assert_eq!(invite.mesh_id, mesh_id);
    assert_eq!(invite.secret, vec![5u8; 32]);

    // 4. Accept Join via Node Facade with secret from token
    let acceptance = node
        .accept_secret_at(&peer_pubkey, &mesh_id, &invite.secret, NOW_MS + 1, NOW)
        .unwrap();
    assert_eq!(acceptance.store_id, mesh_id);

    // Verify status is Active
    let peers = node.get_mesh().unwrap().list_peers(node.root_store().unwrap()).unwrap();
    let active = peers.iter().find(|p| p.pubkey == peer_pubkey).expect("peer not found");
    assert_eq!(active.status, PeerStatus::Active);

    // 5. Revoke Peer via Mesh
    node.set_peer_status_at(&peer_pubkey, PeerStatus::Revoked, NOW_MS + 2, NOW).unwrap();
    let peers = node.get_mesh().unwrap().list_peers(node.root_store().unwrap()).unwrap();
    let revoked = peers.iter().find(|p| p.pubkey == peer_pubkey).expect("peer not found");
    assert_eq!(revoked.status, PeerStatus::Revoked);

    // The secret was good once.
    assert!(node
        .accept_secret_at(&[3u8; 32], &mesh_id, &invite.secret, NOW_MS + 3, NOW)
        .is_err());
}

#[test]
fn test_load_or_generate() {
    // First call: generates
    let node1 = NodeIdentity::load_or_generate(None).unwrap();
    let pk1 = node1.public_key();

    // Second call: loads existing
    let key_file = node1.signing_key().to_vec();
    let node2 = NodeIdentity::load_or_generate(Some(&key_file)).unwrap();
    let pk2 = node2.public_key();

    assert_eq!(pk1, pk2);
    assert_ne!(NodeIdentity::load_or_generate(None).unwrap().public_key(), pk1);
    assert!(NodeIdentity::load_or_generate(Some(&key_file[1..])).is_err());
}

#[test]
fn the_log_follows_the_verbosity() {
    assert_eq!(log_level(0), "info");
    assert_eq!(log_level(1), "debug");
    assert_eq!(log_level(2), "trace");
    assert_eq!(log_level(255), "trace");
    assert_eq!(log_directives(1, false)[0], "debug");
    assert_eq!(log_directives(1, false).len(), 4);
    assert_eq!(
        log_directives(1, true),
        vec!["iroh_net::magicsock=error", "iroh::magicsock=error", "swarm_discovery=error"]
    );
}
