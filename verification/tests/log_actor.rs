use lattice_core::hlc::HLC;
use lattice_core::log_store::Store;
use lattice_core::node_identity::NodeIdentity;
use lattice_core::sigchain::{SigChain, SigChainManager};
use lattice_core::signed_entry::{hash_signed_entry, EntryBuilder};
use lattice_core::store::error::StoreError;
use lattice_core::store::sigchain::SigChainError;
use lattice_core::store_actor::{StoreActor, StoreActorError, StoreCmd, StoreReply};
use lattice_core::proto::storage::SignedEntry;

const STORE: [u8; 16] = [1u8; 16];

fn new_actor(secret: u8) -> StoreActor {
    StoreActor::new(
        STORE,
        Store::open(),
        b"logs".to_vec(),
        &vec![],
        NodeIdentity::from_signing_key([secret; 32]),
    )
}

fn first_entry(secret: u8, key: &[u8], value: &[u8]) -> SignedEntry {
    EntryBuilder::new(1, HLC { wall_time: 9, counter: 0 })
        .store_id(STORE.to_vec())
        .prev_hash(vec![0u8; 32])
        .put(key.to_vec(), value.to_vec())
        .sign(&NodeIdentity::from_signing_key([secret; 32]))
}

#[test]
fn writing_again_makes_no_entry() {
    let mut actor = new_actor(1);
    assert_eq!(actor.put_at(b"/k", b"v", 1000).unwrap(), 1);
    assert_eq!(actor.put_at(b"/k", b"v", 1001).unwrap(), 1);
    assert_eq!(actor.log_seq(), 1);
    assert_eq!(actor.put_at(b"/k", b"w", 1002).unwrap(), 2);
    assert_eq!(actor.get(b"/k").unwrap(), Some(b"w".to_vec()));
    assert_eq!(actor.get_heads(b"/k").unwrap().len(), 1);
    assert_eq!(actor.delete_at(b"/k", 1003).unwrap(), 3);
    assert_eq!(actor.delete_at(b"/k", 1004).unwrap(), 3);
    assert_eq!(actor.get(b"/k").unwrap(), None);
    assert_eq!(actor.applied_seq(), 3);
}

#[test]
fn entries_of_others_are_taken_in() {
    let mut actor = new_actor(1);
    let e = first_entry(2, b"/k", b"theirs");
    actor.apply_entry(&e, &vec![]).unwrap();
    assert_eq!(actor.get(b"/k").unwrap(), Some(b"theirs".to_vec()));
    let other = NodeIdentity::from_signing_key([2u8; 32]).public_key();
    assert_eq!(actor.author_state(&other).unwrap().seq, 1);
    assert_eq!(actor.sync_state().seq(&other), 1);
    // Applying it again changes nothing.
    actor.apply_entry(&e, &vec![]).unwrap();
    assert_eq!(actor.get_heads(b"/k").unwrap().len(), 1);
    // An entry without an author is refused.
    let mut nobody = first_entry(2, b"/k", b"x");
    nobody.author_id = vec![1, 2];
    match actor.apply_entry(&nobody, &vec![]) {
        Err(StoreError::SigChain(SigChainError::WrongAuthor { expected, got })) => {
            assert_eq!((expected.as_str(), got.as_str()), ("32 bytes", "2 bytes"))
        }
        other => panic!("expected WrongAuthor, got {:?}", other),
    }
}

#[test]
fn actor_commands_are_answered() {
    let mut actor = new_actor(1);
    let put = StoreCmd::Put { key: b"/k".to_vec(), value: b"v".to_vec() };
    assert!(matches!(actor.handle(put), StoreReply::Written(Ok(1))));
    match actor.handle(StoreCmd::Get { key: b"/k".to_vec() }) {
        StoreReply::Value(Ok(value)) => assert_eq!(value, Some(b"v".to_vec())),
        _ => panic!("expected a value"),
    }
    match actor.handle(StoreCmd::List) {
        StoreReply::Pairs(Ok(pairs)) => assert_eq!(pairs, vec![(b"/k".to_vec(), b"v".to_vec())]),
        _ => panic!("expected pairs"),
    }
    assert!(matches!(actor.handle(StoreCmd::LogSeq), StoreReply::Number(1)));
    assert!(matches!(actor.handle(StoreCmd::Shutdown), StoreReply::Stopped));
}

#[test]
fn a_stored_log_is_taken_up_again() {
    let node = NodeIdentity::from_signing_key([1u8; 32]);
    let mut chain = SigChain::new(b"a.log".to_vec(), STORE, node.public_key());
    let e = first_entry(1, b"/k", b"v");
    chain.append(&e).unwrap();
    let actor = StoreActor::new(STORE, Store::open(), b"logs".to_vec(), chain.entries(), node);
    assert_eq!(actor.log_seq(), 1);
    assert_eq!(actor.applied_seq(), 0);
}

#[test]
fn a_manager_keeps_one_chain_for_each_author() {
    let mut manager = SigChainManager::new(b"logs".to_vec(), STORE);
    assert_eq!(manager.logs_dir(), b"logs");
    let e = first_entry(2, b"/k", b"v");
    let author = NodeIdentity::from_signing_key([2u8; 32]).public_key();
    assert!(manager.get(&author).is_none());
    manager.get_or_create(&author, &vec![]);
    manager.append_to(&author, &e).unwrap();
    assert_eq!(manager.get(&author).unwrap().len(), 1);
    let name = format!("{}.log", hex::encode(author));
    assert_eq!(manager.get(&author).unwrap().log_path(), format!("logs/{name}").as_bytes());
    let mut nowhere = SigChainManager::new(vec![], STORE);
    nowhere.get_or_create(&author, &vec![]);
    assert_eq!(nowhere.get(&author).unwrap().log_path(), name.as_bytes());
    assert!(matches!(
        manager.append_to(&author, &e),
        Err(SigChainError::InvalidSequence { expected: 2, got: 1 })
    ));
    // What is synced is written to the log in any order.
    manager.append_entry(&e, &vec![]).unwrap();
    assert_eq!(manager.get(&author).unwrap().len(), 1);
    assert_eq!(manager.get(&author).unwrap().entries().len(), 2);
    manager.get_or_create(&[9u8; 32], &vec![]);
    assert!(manager.get(&[9u8; 32]).unwrap().is_empty());
    assert!(matches!(
        manager.append_to(&[9u8; 32], &e),
        Err(SigChainError::WrongAuthor { .. })
    ));
    // A message that is no entry is not chained.
    let broken = SignedEntry {
        entry_bytes: vec![0xFF],
        signature: vec![0u8; 64],
        author_id: author.to_vec(),
    };
    assert!(manager.append_to(&author, &broken).is_err());
}

#[test]
fn packed_times_keep_their_order() {
    let mut store = Store::open();
    let node = NodeIdentity::from_signing_key([1u8; 32]);
    let late = EntryBuilder::new(1, HLC { wall_time: 9, counter: 2 })
        .store_id(STORE.to_vec())
        .prev_hash(vec![0u8; 32])
        .put(b"/k".to_vec(), b"late".to_vec())
        .sign(&node);
    let early = EntryBuilder::new(1, HLC { wall_time: 9, counter: 1 })
        .store_id(STORE.to_vec())
        .prev_hash(vec![0u8; 32])
        .put(b"/k".to_vec(), b"early".to_vec())
        .sign(&NodeIdentity::from_signing_key([2u8; 32]));
    store.apply_entry(&late).unwrap();
    store.apply_entry(&early).unwrap();
    let heads = store.get_heads(b"/k").unwrap();
    assert_eq!(heads.len(), 2);
    assert!(heads.iter().any(|h| h.hlc == (9u64 << 16) + 2));
    assert_eq!(store.get(b"/k").unwrap(), Some(b"late".to_vec()));
}

#[test]
fn actor_errors_have_texts() {
    assert_eq!(
        StoreActorError::Store(StoreError::Table("x".to_string())).to_string(),
        "Store error: Table error: x"
    );
}

#[test]
fn entries_are_read_behind_a_hash() {
    let mut actor = new_actor(1);
    let me = NodeIdentity::from_signing_key([1u8; 32]).public_key();
    for i in 0..3u8 {
        actor.put_at(b"/k", &[i], 1000 + i as u64).unwrap();
    }
    let all = actor.entries_after(&me, None);
    assert_eq!(all.len(), 3);
    let behind = actor.entries_after(&me, Some(hash_signed_entry(&all[0])));
    assert_eq!(behind, all[1..].to_vec());
    assert!(actor.entries_after(&me, Some(hash_signed_entry(&all[2]))).is_empty());
    assert!(actor.entries_after(&me, Some([9u8; 32])).is_empty());
    assert!(actor.entries_after(&[7u8; 32], None).is_empty());
    // The log of an author who is not known comes with the command.
    let other = NodeIdentity::from_signing_key([2u8; 32]).public_key();
    let stored = vec![first_entry(2, b"/k", b"theirs")];
    let cmd = StoreCmd::ReadEntriesAfter { author: other, from_hash: None, stored: stored.clone() };
    match actor.handle(cmd) {
        StoreReply::Entries(found) => assert_eq!(found, stored),
        _ => panic!("expected entries"),
    }
    let from_hash = Some(hash_signed_entry(&all[1]));
    let cmd = StoreCmd::ReadEntriesAfter { author: me, from_hash, stored: vec![] };
    match actor.handle(cmd) {
        StoreReply::Entries(found) => assert_eq!(found, all[2..].to_vec()),
        _ => panic!("expected entries"),
    }
}
