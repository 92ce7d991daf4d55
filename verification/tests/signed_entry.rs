use lattice_core::clock::MockClock;
use lattice_core::entry::EntryError;
use lattice_core::hlc::HLC;
use lattice_core::node_identity::NodeIdentity;
use lattice_core::signed_entry::{
    hash_entry_bytes, hash_signed_entry, verify_signed_entry, EntryBuilder,
};

#[test]
fn test_entry_builder() {
    let clock = MockClock::new(1000);
    let hlc = HLC::now_with_clock(&clock);

    let entry = EntryBuilder::new(1, hlc)
        .put(b"/test/key".to_vec(), b"value".to_vec())
        .delete(b"/test/old".to_vec())
        .build();

    assert_eq!(entry.version, 1);
    assert_eq!(entry.seq, 1);
    assert_eq!(entry.ops.len(), 2);
}

#[test]
fn signed_entry_test_sign_and_verify() {
    let node = NodeIdentity::generate();
    let clock = MockClock::new(1000);
    let hlc = HLC::now_with_clock(&clock);

    let signed =
        EntryBuilder::new(1, hlc).put(b"/nodes/abc".to_vec(), b"test".to_vec()).sign(&node);

    assert_eq!(signed.author_id.len(), 32);
    assert_eq!(signed.signature.len(), 64);

    // Verify
    let entry = verify_signed_entry(&signed).unwrap();
    assert_eq!(entry.seq, 1);
    assert_eq!(entry.ops.len(), 1);
}

#[test]
fn test_verify_tampered_fails() {
    let node = NodeIdentity::generate();
    let clock = MockClock::new(1000);
    let hlc = HLC::now_with_clock(&clock);

    let mut signed =
        EntryBuilder::new(1, hlc).put(b"/key".to_vec(), b"value".to_vec()).sign(&node);

    // Tamper with entry bytes
    signed.entry_bytes[0] ^= 0xFF;

    assert!(verify_signed_entry(&signed).is_err());
}

#[test]
fn test_verify_wrong_key_fails() {
    let node1 = NodeIdentity::generate();
    let node2 = NodeIdentity::generate();
    let clock = MockClock::new(1000);
    let hlc = HLC::now_with_clock(&clock);

    let mut signed =
        EntryBuilder::new(1, hlc).put(b"/key".to_vec(), b"value".to_vec()).sign(&node1);

    // Replace author with different key
    signed.author_id = node2.public_key().to_vec();

    assert!(verify_signed_entry(&signed).is_err());
}

#[test]
fn test_hash_signed_entry() {
    let node = NodeIdentity::generate();
    let clock = MockClock::new(1000);
    let hlc = HLC::now_with_clock(&clock);

    let signed =
        EntryBuilder::new(1, hlc).put(b"/key".to_vec(), b"value".to_vec()).sign(&node);

    let hash = hash_signed_entry(&signed);
    assert_eq!(hash.len(), 32);

    // Same entry should produce same hash
    let hash2 = hash_signed_entry(&signed);
    assert_eq!(hash, hash2);
}

#[test]
fn test_prev_hash_chaining() {
    let node = NodeIdentity::generate();
    let clock = MockClock::new(1000);

    // First entry
    let entry1 = EntryBuilder::new(1, HLC::now_with_clock(&clock))
        .put(b"/key".to_vec(), b"v1".to_vec())
        .sign(&node);

    let hash1 = hash_signed_entry(&entry1);

    // Second entry links to first
    let entry2 = EntryBuilder::new(2, HLC::now_with_clock(&clock))
        .prev_hash(hash1.to_vec())
        .put(b"/key".to_vec(), b"v2".to_vec())
        .sign(&node);

    let decoded = verify_signed_entry(&entry2).unwrap();
    assert_eq!(decoded.prev_hash, hash1.to_vec());
}

#[test]
fn hashes_are_those_of_blake3() {
    let expected: [u8; 32] = blake3::hash(b"abc").into();
    assert_eq!(hash_entry_bytes(b"abc"), expected);
    let node = NodeIdentity::from_signing_key([1u8; 32]);
    let signed = EntryBuilder::new(1, HLC { wall_time: 5, counter: 0 })
        .put(b"/k".to_vec(), b"v".to_vec())
        .sign(&node);
    let bytes = lattice_core::message::encode(&signed);
    let expected: [u8; 32] = blake3::hash(&bytes).into();
    assert_eq!(hash_signed_entry(&signed), expected);
}

#[test]
fn every_fault_of_a_signature_has_its_error() {
    let node = NodeIdentity::from_signing_key([1u8; 32]);
    let good = EntryBuilder::new(1, HLC { wall_time: 5, counter: 0 }).sign(&node);
    let mut short_key = good.clone();
    short_key.author_id.pop();
    assert_eq!(
        verify_signed_entry(&short_key).err(),
        Some(EntryError::InvalidPublicKeyLength(31))
    );
    let mut short_signature = good.clone();
    short_signature.signature.pop();
    assert_eq!(
        verify_signed_entry(&short_signature).err(),
        Some(EntryError::InvalidSignatureLength(63))
    );
    // Signed bytes that are no entry.
    let mut garbage = good;
    garbage.entry_bytes = vec![0xFF];
    garbage.signature = node.sign(&[0xFF]).to_vec();
    assert!(matches!(verify_signed_entry(&garbage), Err(EntryError::Decode(_))));
}
