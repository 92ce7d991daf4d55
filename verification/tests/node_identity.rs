use lattice_core::node_identity::{NodeError, NodeIdentity, PeerStatus};

#[test]
fn test_generate() {
    let node = NodeIdentity::generate();
    let pk = node.public_key();
    assert_eq!(pk.len(), 32);
}

#[test]
fn node_identity_test_sign_and_verify() {
    let node = NodeIdentity::generate();
    let message = b"hello lattice";

    let signature = node.sign(message);
    assert!(node.verify(message, &signature).is_ok());
}

#[test]
fn test_verify_wrong_message() {
    let node = NodeIdentity::generate();
    let signature = node.sign(b"original");

    assert!(node.verify(b"tampered", &signature).is_err());
}

#[test]
fn test_verify_with_different_key() {
    let node1 = NodeIdentity::generate();
    let node2 = NodeIdentity::generate();

    let signature = node1.sign(b"message");
    assert!(node2.verify(b"message", &signature).is_err());
}

#[test]
fn test_save_and_load() {
    // What is kept in the key file is the secret key.
    let node1 = NodeIdentity::generate();
    let pk1 = node1.public_key();
    let file = node1.signing_key().to_vec();

    let node2 = NodeIdentity::from_key_file(&file).unwrap();
    let pk2 = node2.public_key();

    assert_eq!(pk1, pk2);
}

#[test]
fn test_verify_with_key_static() {
    let node = NodeIdentity::generate();
    let pk = node.verifying_key();
    let message = b"test message";

    let signature = node.sign(message);

    assert!(NodeIdentity::verify_with_key(&pk, message, &signature).is_ok());
}

#[test]
fn keys_and_signatures_are_those_of_ed25519() {
    let secret = [7u8; 32];
    let node = NodeIdentity::from_signing_key(secret);
    let reference = ed25519_dalek::SigningKey::from_bytes(&secret);
    assert_eq!(node.public_key(), reference.verifying_key().to_bytes());
    let expected = ed25519_dalek::Signer::sign(&reference, b"m").to_bytes();
    assert_eq!(node.sign(b"m"), expected);
    assert_ne!(NodeIdentity::generate().public_key(), NodeIdentity::generate().public_key());
}

#[test]
fn a_key_file_has_a_length() {
    assert_eq!(
        NodeIdentity::from_key_file(&[1, 2, 3]).err(),
        Some(NodeError::InvalidKeyLength(3))
    );
    assert!(NodeIdentity::from_key_file(&[0u8; 33]).is_err());
}

#[test]
fn a_key_that_is_no_point_verifies_nothing() {
    let node = NodeIdentity::generate();
    let signature = node.sign(b"m");
    let mut broken = [0xFFu8; 32];
    broken[31] = 0x7F;
    assert!(NodeIdentity::verify_with_key(&broken, b"m", &signature).is_err());
}

#[test]
fn statuses_have_words() {
    for (status, word) in [
        (PeerStatus::Invited, "invited"),
        (PeerStatus::Active, "active"),
        (PeerStatus::Dormant, "dormant"),
        (PeerStatus::Revoked, "revoked"),
    ] {
        assert_eq!(status.as_str(), word);
        assert_eq!(PeerStatus::from_str(word), Some(status));
    }
    assert_eq!(PeerStatus::from_str("Active"), None);
    assert_eq!(PeerStatus::from_str(""), None);
}

#[test]
fn a_generated_key_is_kept_in_a_key_file() {
    let node = NodeIdentity::generate();
    assert_eq!(node.signing_key().len(), 32);
    let again = NodeIdentity::load_or_generate(Some(node.signing_key())).unwrap();
    assert_eq!(again.public_key(), node.public_key());
}
