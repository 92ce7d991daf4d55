use lattice_core::auth::{PeerEvent, PeerProvider};
use lattice_core::entry::{Entry, SignedEntry};
use lattice_core::head::lww;
use lattice_core::hlc::HLC;
use lattice_core::mesh::Mesh;
use lattice_core::meta_store::MetaStore;
use lattice_core::node::{parse_peer_status_key, NodeBuilder, NodeError, NodeEvent};
use lattice_core::node_identity::{NodeIdentity, PeerStatus};
use lattice_core::peer_manager::{prefix_of, Peer, PeerManager, PeerManagerError};
use lattice_core::proto::storage::{Operation, PeerSyncInfo};
use lattice_core::store::actor::StoreActor;
use lattice_core::store::authorized_store::AuthorizedStore;
use lattice_core::store::error::StateError;
use lattice_core::store::peer_sync_store::PeerSyncStore;
use lattice_core::store::sigchain::manager::SigChainManager;
use lattice_core::store::state::State;
use lattice_core::store::watch::{WatchEvent, WatchEventKind};
use lattice_core::token::{Invite, TOKEN_VERSION};

const STORE: [u8; 16] = [1u8; 16];
const NOW_MS: u64 = 1_700_000_000_000;
const NOW: u64 = 1_700_000_000;

fn new_actor(secret: u8) -> StoreActor {
    StoreActor::new(
        State::open(),
        SigChainManager::empty(b"logs".to_vec(), STORE),
        PeerSyncStore::open(),
        NodeIdentity::from_signing_key([secret; 32]),
    )
}

fn entry_of(secret: u8, key: &[u8], value: &[u8]) -> SignedEntry {
    Entry::next_after(None)
        .timestamp(HLC { wall_time: 1000, counter: 0 })
        .store_id(STORE.to_vec())
        .operation(Operation::put(key.to_vec(), value.to_vec()))
        .sign(&NodeIdentity::from_signing_key([secret; 32]))
}

fn status_event(pubkey: &[u8; 32], word: &[u8]) -> WatchEvent {
    let mut actor = new_actor(1);
    let (id, _) = actor.watch_by_prefix(b"/nodes/").unwrap();
    let key = format!("/nodes/{}/status", hex::encode(pubkey));
    actor.put(key.as_bytes(), word).unwrap();
    actor.take_watch_events(id).remove(0)
}

#[test]
fn a_secret_is_good_once() {
    let mut root = new_actor(1);
    let mut mesh = Mesh::create(STORE, &mut root).unwrap();
    let me = [9u8; 32];
    assert_eq!(mesh.id(), STORE);
    let token = mesh.create_invite_at(&mut root, me, b"secret", NOW_MS, NOW).unwrap();
    let invite = Invite::parse(&token).unwrap();
    assert_eq!(invite, Invite::new(me, STORE, b"secret".to_vec()));

    // The store holds the hash of the secret only.
    let hash = blake3::hash(b"secret");
    let key = format!("/invites/{}", hex::encode(hash.as_bytes()));
    assert_eq!(lww(&root.get(key.as_bytes()).unwrap()), Some(b"valid".to_vec()));

    assert_eq!(mesh.consume_invite_secret_at(&mut root, b"other", NOW_MS, NOW), Ok(false));
    assert_eq!(mesh.consume_invite_secret_at(&mut root, b"secret", NOW_MS, NOW), Ok(true));
    assert_eq!(mesh.consume_invite_secret_at(&mut root, b"secret", NOW_MS, NOW), Ok(false));
    assert_eq!(lww(&root.get(key.as_bytes()).unwrap()), None);
}

#[test]
fn a_random_secret_is_in_the_token() {
    let mut root = new_actor(1);
    let mut mesh = Mesh::create(STORE, &mut root).unwrap();
    let one = Invite::parse(&mesh.create_invite(&mut root, [9u8; 32]).unwrap()).unwrap();
    let two = Invite::parse(&mesh.create_invite(&mut root, [9u8; 32]).unwrap()).unwrap();
    assert_eq!(one.secret.len(), 32);
    assert_ne!(one.secret, two.secret);
    assert_eq!(mesh.consume_invite_secret(&mut root, &one.secret), Ok(true));
    assert_eq!(mesh.consume_invite_secret(&mut root, &two.secret), Ok(true));
}

#[test]
fn a_peer_is_invited_activated_and_revoked() {
    let mut root = new_actor(1);
    let mut mesh = Mesh::create(STORE, &mut root).unwrap();
    let peer = [7u8; 32];
    mesh.invite_peer_at(&mut root, peer, [9u8; 32], NOW_MS, NOW).unwrap();
    assert!(mesh.peer_manager().can_join(&peer));
    assert!(!mesh.peer_manager().can_connect(&peer));
    assert!(!mesh.peer_manager().can_accept_entry(&peer));
    assert_eq!(
        mesh.take_peer_events(),
        vec![PeerEvent::Added { pubkey: peer, status: PeerStatus::Invited }]
    );

    mesh.activate_peer(&mut root, &peer).unwrap();
    assert!(mesh.peer_manager().can_connect(&peer));
    assert!(mesh.peer_manager().can_accept_entry(&peer));
    assert_eq!(
        mesh.take_peer_events(),
        vec![PeerEvent::StatusChanged {
            pubkey: peer,
            old: PeerStatus::Invited,
            new: PeerStatus::Active,
        }]
    );

    // What a peer wrote before it was shut out is still part of the history.
    mesh.revoke_peer(&mut root, &peer).unwrap();
    assert!(!mesh.peer_manager().can_join(&peer));
    assert!(!mesh.peer_manager().can_connect(&peer));
    assert!(mesh.peer_manager().can_accept_entry(&peer));
    assert_eq!(mesh.list_peers(&root).unwrap()[0].status, PeerStatus::Revoked);
    assert_eq!(mesh.peer_manager().list_acceptable_authors(), vec![peer]);
}

#[test]
fn trusted_authors_write_until_they_are_cleared() {
    let mut manager = PeerManager::new(&vec![]);
    assert!(!manager.can_accept_entry(&[5u8; 32]));
    manager.set_bootstrap_authors(&vec![[5u8; 32]]);
    assert!(manager.can_accept_entry(&[5u8; 32]));
    assert!(manager.can_connect(&[5u8; 32]));
    assert!(!manager.can_join(&[5u8; 32]));
    assert!(manager.list_acceptable_authors().is_empty());
    manager.clear_bootstrap_authors();
    assert!(!manager.can_accept_entry(&[5u8; 32]));
}

#[test]
fn a_status_is_verified_against_what_is_expected() {
    let peer = [7u8; 32];
    let mut manager = PeerManager::new(&vec![]);
    manager.on_watch_event(&status_event(&peer, b"dormant"));
    assert_eq!(manager.get_peer_status(&peer), Some(PeerStatus::Dormant));
    assert!(manager.verify_peer_status(&peer, &[PeerStatus::Active, PeerStatus::Dormant]).is_ok());
    assert!(matches!(
        manager.verify_peer_status(&peer, &[PeerStatus::Active]),
        Err(StateError::Unauthorized(_))
    ));
    assert!(manager.verify_peer_status(&[8u8; 32], &[PeerStatus::Active]).is_err());
}

#[test]
fn status_changes_are_told_once() {
    let peer = [7u8; 32];
    let mut manager = PeerManager::new(&vec![]);
    manager.on_watch_events(&vec![
        status_event(&peer, b"invited"),
        status_event(&peer, b"invited"),
        status_event(&peer, b"active"),
    ]);
    assert_eq!(
        manager.take_events(),
        vec![
            PeerEvent::Added { pubkey: peer, status: PeerStatus::Invited },
            PeerEvent::StatusChanged {
                pubkey: peer,
                old: PeerStatus::Invited,
                new: PeerStatus::Active,
            },
        ]
    );
    assert!(manager.take_events().is_empty());

    let gone = WatchEvent {
        key: format!("/nodes/{}/status", hex::encode(peer)).into_bytes(),
        kind: WatchEventKind::Delete,
    };
    manager.on_watch_event(&gone);
    assert_eq!(manager.get_peer_status(&peer), None);
    assert_eq!(manager.take_events(), vec![PeerEvent::Removed { pubkey: peer }]);
}

#[test]
fn a_peer_is_saved_and_loaded() {
    let mut store = new_actor(1);
    let peer = Peer {
        pubkey: [7u8; 32],
        status: PeerStatus::Active,
        name: Some("Alice".to_string()),
        added_at: Some(12),
        added_by: Some([9u8; 32]),
    };
    store.put_all_at(&peer.save(), NOW_MS, NOW).unwrap();
    assert_eq!(PeerManager::get_peer(&store, [7u8; 32]).unwrap(), Some(peer.clone()));
    assert_eq!(PeerManager::get_peer(&store, [8u8; 32]).unwrap(), None);
    assert_eq!(prefix_of(&[7u8; 32]), format!("/nodes/{}/", hex::encode([7u8; 32])));
    let info = peer.to_info();
    assert_eq!(info.name, Some("Alice".to_string()));
    assert_eq!(info.added_by, Some(hex::encode([9u8; 32])));

    let mut invited = Peer::new_invited_at([7u8; 32], [9u8; 32], 55);
    assert_eq!(invited.status, PeerStatus::Invited);
    assert_eq!(invited.added_at, Some(55));
    invited = Peer::minimal([7u8; 32], PeerStatus::Dormant);
    assert_eq!(invited.name, None);
}

#[test]
fn a_status_key_is_taken_apart() {
    assert_eq!(parse_peer_status_key(b"/nodes/ab12/status"), Some("ab12".to_string()));
    assert_eq!(parse_peer_status_key(b"/nodes/AB12/status"), None);
    assert_eq!(parse_peer_status_key(b"/nodes//status"), None);
    assert_eq!(parse_peer_status_key(b"/nodes/ab12/name"), None);
    assert_eq!(parse_peer_status_key(&[0xFF, 0xFE]), None);
}

#[test]
fn peer_errors_have_texts() {
    assert_eq!(PeerManagerError::Store("x".to_string()).to_string(), "Store error: x");
    assert_eq!(PeerManagerError::LockPoisoned.to_string(), "Lock poisoned");
    assert_eq!(PeerManagerError::PeerNotFound("p".to_string()).to_string(), "Peer not found: p");
    assert_eq!(PeerManagerError::Unauthorized("u".to_string()).to_string(), "Unauthorized: u");
}

#[test]
fn a_token_is_base58_with_a_version_and_a_checksum() {
    let invite = Invite::new([1u8; 32], [2u8; 16], b"secret".to_vec());
    let text = invite.to_string();
    assert_eq!(Invite::parse(&text).unwrap(), invite);
    assert_eq!(invite.clone(), invite);
    let bytes = bs58::decode(&text).with_check(Some(TOKEN_VERSION)).into_vec().unwrap();
    assert_eq!(bytes[0], TOKEN_VERSION);

    // A changed character breaks the checksum.
    let mut broken = text.clone();
    let last = broken.pop().unwrap();
    broken.push(if last == '1' { '2' } else { '1' });
    assert!(Invite::parse(&broken).unwrap_err().starts_with("Invalid token: "));
    assert!(Invite::parse("0OIl").is_err());

    // A token of another version is refused.
    let other = bs58::encode(&bytes[1..]).with_check_version(TOKEN_VERSION + 1).into_string();
    assert!(Invite::parse(&other).is_err());

    // What stands behind the version has to be an invitation.
    assert!(Invite::from_versioned(Ok(vec![TOKEN_VERSION, 0xFF])).is_err());
    assert!(Invite::from_versioned(Ok(vec![TOKEN_VERSION])).is_err());
    assert_eq!(Invite::from_versioned(Ok(bytes)).unwrap(), invite);
    assert_eq!(
        Invite::from_versioned(Err("why".to_string())).unwrap_err(),
        "Invalid token: why"
    );
}

#[test]
fn strangers_change_nothing() {
    let author = NodeIdentity::from_signing_key([2u8; 32]).public_key();
    let entry = entry_of(2, b"/key", b"value");
    let mut store = AuthorizedStore::new(STORE, new_actor(1), PeerManager::new(&vec![]));
    assert_eq!(store.id(), STORE);
    match store.ingest_entry_at(&entry, NOW) {
        Err(StateError::Unauthorized(why)) => {
            assert_eq!(why, format!("Author {} not authorized", hex::encode(author)))
        }
        other => panic!("expected Unauthorized, got {:?}", other),
    }
    assert!(store.store().get(b"/key").unwrap().is_empty());

    let mut peers = PeerManager::new(&vec![]);
    peers.set_bootstrap_authors(&vec![author]);
    let mut store = AuthorizedStore::new(STORE, new_actor(1), peers);
    assert!(store.can_accept_entry(&author));
    store.ingest_entry(&entry).unwrap();
    assert_eq!(lww(&store.store().get(b"/key").unwrap()), Some(b"value".to_vec()));
    assert_eq!(store.sync_state().seq(&author), 1);
    assert_eq!(store.stream_entries_in_range(&author, 1, 9).len(), 1);
    let info = PeerSyncInfo { sync_state: None, updated_at: 3 };
    store.set_peer_sync_state(&[8u8; 32], &info).unwrap();
    assert_eq!(store.get_peer_sync_state(&[8u8; 32]), Some(info));

    // A signature that does not hold is refused before anything else.
    let mut forged = entry_of(2, b"/other", b"value");
    forged.signature[0] ^= 1;
    assert_eq!(
        store.ingest_entry_at(&forged, NOW).err(),
        Some(StateError::Unauthorized("Invalid signature".to_string()))
    );
}

#[test]
fn a_node_joins_one_mesh() {
    let mut node = NodeBuilder::new().build(None, MetaStore::open()).unwrap();
    node.join([3u8; 32], STORE).unwrap();
    assert_eq!(
        node.take_events(),
        vec![NodeEvent::JoinRequested { peer: [3u8; 32], mesh_id: STORE }]
    );
    match node.join([3u8; 32], STORE) {
        Err(NodeError::Validation(why)) => assert_eq!(
            why,
            "Join for mesh 01010101-0101-0101-0101-010101010101 is already in progress"
        ),
        other => panic!("expected Validation, got {:?}", other),
    }
    let store = node.new_store(STORE);
    node.process_join_response_at(
        STORE,
        store,
        &vec![vec![5u8; 32], vec![1, 2]],
        [3u8; 32],
        NOW_MS,
        NOW,
    )
    .unwrap();
    assert_eq!(node.root_store_id(), Some(STORE));
    // Of the authors that were named, the one that is a public key is trusted.
    assert!(node.peer_manager().unwrap().can_accept_entry(&[5u8; 32]));
    assert!(matches!(node.join([3u8; 32], STORE), Err(NodeError::AlreadyInitialized)));
    assert!(node
        .take_events()
        .contains(&NodeEvent::SyncWithPeer { store_id: STORE, peer: [3u8; 32] }));
}

#[test]
fn an_uninvited_peer_stays_out() {
    let mut node = NodeBuilder::new().build(None, MetaStore::open()).unwrap();
    assert!(node.accept_join(&[7u8; 32], &STORE).is_err());
    let id = node.init_at(STORE, NOW_MS, NOW).unwrap();
    assert_eq!(id, STORE);
    let before = node.root_store().unwrap().log_seq();
    assert!(node.accept_join_at(&[7u8; 32], &id, NOW_MS, NOW).is_err());
    assert!(node.accept_join_at(&[7u8; 32], &[2u8; 16], NOW_MS, NOW).is_err());
    assert!(node.accept_secret_at(&[7u8; 32], &id, b"guess", NOW_MS, NOW).is_err());
    assert_eq!(node.root_store().unwrap().log_seq(), before);
}

#[test]
fn a_node_takes_the_name_of_its_host() {
    let node = NodeBuilder::new().build_on(None, MetaStore::open(), Some("box".to_string()));
    assert_eq!(node.unwrap().name(), Some("box".to_string()));
    let node = NodeBuilder::new().build_on(None, MetaStore::open(), None);
    assert_eq!(node.unwrap().name(), Some("unknown".to_string()));
    // A node that has a key already keeps its name.
    let mut meta = MetaStore::open();
    meta.set_name("mine");
    let node = NodeBuilder::new().build_on(Some(&[4u8; 32]), meta, Some("box".to_string())).unwrap();
    assert_eq!(node.name(), Some("mine".to_string()));
    assert_eq!(node.signing_key(), &[4u8; 32]);
    // A key file that is no key is an error.
    assert!(matches!(
        NodeBuilder::new().build_on(Some(&[1, 2, 3]), MetaStore::open(), None),
        Err(NodeError::Node(_))
    ));
    let host = hostname::get().unwrap().to_string_lossy().into_owned();
    let node = NodeBuilder::new().build(None, MetaStore::open()).unwrap();
    assert_eq!(node.name(), Some(host));
}

#[test]
fn random_identifiers_are_of_version_four() {
    let mut node = NodeBuilder::new().build(None, MetaStore::open()).unwrap();
    let one = node.create_store();
    let two = node.create_store();
    assert_ne!(one, two);
    assert_eq!(one[6] >> 4, 4);
    assert_eq!(one[8] >> 6, 2);
    assert_eq!(node.list_stores().len(), 2);
}

#[test]
fn what_happens_now_happens_at_some_time() {
    let mut root = new_actor(1);
    let mut mesh = Mesh::create(STORE, &mut root).unwrap();
    mesh.invite_peer(&mut root, [7u8; 32], [9u8; 32]).unwrap();
    let peer = PeerManager::get_peer(&root, [7u8; 32]).unwrap().unwrap();
    assert_eq!(peer.status, PeerStatus::Invited);
    assert_eq!(peer.added_by, Some([9u8; 32]));
    assert!(peer.added_at.unwrap() > NOW);
    assert_eq!(Peer::new_invited([7u8; 32], [9u8; 32]).status, PeerStatus::Invited);

    let mut node = NodeBuilder::new().build(None, MetaStore::open()).unwrap();
    let store = node.new_store(STORE);
    node.process_join_response(STORE, store, &vec![vec![5u8; 32]], [3u8; 32]).unwrap();
    assert!(node.peer_manager().unwrap().can_connect(&[5u8; 32]));
    node.clear_bootstrap_authors().unwrap();
    assert!(!node.peer_manager().unwrap().can_connect(&[5u8; 32]));
}

#[test]
fn a_name_is_written_under_the_key_of_its_peer() {
    let (key, value) = PeerManager::set_peer_name(&[0xABu8; 32], "Bob");
    assert_eq!(key, format!("/nodes/{}/name", "ab".repeat(32)).into_bytes());
    assert_eq!(value, b"Bob".to_vec());
}

#[test]
fn the_first_entry_of_a_chain_names_no_other() {
    let first = entry_of(2, b"/key", b"value");
    assert!(first.entry.is_genesis());
    let tip = lattice_core::entry::ChainTip::of_entry(&first);
    let next = Entry::next_after(Some(&tip)).sign(&NodeIdentity::from_signing_key([2u8; 32]));
    assert!(!next.entry.is_genesis());
    // A parent that is no hash is not taken along.
    let odd = Entry::next_after(None)
        .parent_hashes(vec![vec![1, 2, 3], vec![4u8; 32]])
        .sign(&NodeIdentity::from_signing_key([2u8; 32]));
    assert_eq!(odd.entry.parent_hashes, vec![[4u8; 32]]);
}

#[test]
fn a_range_has_both_its_ends() {
    let me = NodeIdentity::from_signing_key([1u8; 32]).public_key();
    let mut actor = new_actor(1);
    for i in 0..5u8 {
        actor.put(b"/key", &[i]).unwrap();
    }
    let store = AuthorizedStore::new(STORE, actor, PeerManager::new(&vec![]));
    let seqs = |from: u64, to: u64| {
        let found = store.stream_entries_in_range(&me, from, to);
        found.iter().map(|e| e.entry.seq).collect::<Vec<_>>()
    };
    assert_eq!(seqs(0, 2), vec![1, 2]);
    assert_eq!(seqs(2, 4), vec![2, 3, 4]);
    assert_eq!(seqs(0, 0), vec![1, 2, 3, 4, 5]);
    assert_eq!(seqs(4, 0), vec![4, 5]);
}
