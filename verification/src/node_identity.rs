//! A node's key pair and the states that a peer can be in.
use crate::bytes::{to_array32, PubKey};
use crate::crypto;
use crate::crypto::{public_key_of, random_signing_key, sign_message, signature_is_valid};
use crate::text;
use crate::text::{decimal, str_eq};
use vstd::prelude::*;
use vstd::string::*;

verus! {

/// What can go wrong with a node's keys.
#[derive(Clone, Copy, Debug, PartialEq, Eq, Structural)]
pub enum NodeError {
    /// A key file does not hold 32 bytes.
    InvalidKeyLength(usize),
    /// A signature or the key it was made with is not valid.
    InvalidSignature,
}

impl NodeError {
    /// The text of the error.
    pub open spec fn text(self) -> Seq<char> {
        match self {
            NodeError::InvalidKeyLength(n) => "Invalid key length: expected 32 bytes, got "@
                + text::decimal_text(n as nat),
            NodeError::InvalidSignature => "Invalid signature"@,
        }
    }

    /// The text of the error.
    pub fn to_string(&self) -> (r: String)
        ensures
            r@ == self.text(),
    {
        match self {
            NodeError::InvalidKeyLength(n) => "Invalid key length: expected 32 bytes, got ".to_owned().concat(
                decimal(*n as u64).as_str(),
            ),
            NodeError::InvalidSignature => "Invalid signature".to_owned(),
        }
    }
}

/// A node's Ed25519 key pair, which is kept as its secret key.
pub struct NodeIdentity {
    secret: [u8; 32],
}

impl NodeIdentity {
    /// The 32 secret bytes.
    pub closed spec fn secret(&self) -> Seq<u8> {
        self.secret@
    }

    /// The public key, by which the node is known.
    pub open spec fn public(&self) -> Seq<u8> {
        crypto::ed25519_public(self.secret())
    }

    /// A node with a fresh random key pair.
    pub fn generate() -> (r: Self)
        ensures
            r.secret().len() == 32,
    {
        NodeIdentity { secret: random_signing_key() }
    }

    /// The node with the given secret key.
    pub fn from_signing_key(secret: [u8; 32]) -> (r: Self)
        ensures
            r.secret() == secret@,
    {
        NodeIdentity { secret }
    }

    /// The node whose secret key is the contents of a key file.
    pub fn from_key_file(bytes: &[u8]) -> (r: Result<Self, NodeError>)
        ensures
            match r {
                Ok(node) => bytes@.len() == 32 && node.secret() == bytes@,
                Err(e) => bytes@.len() != 32 && e == NodeError::InvalidKeyLength(
                    bytes@.len() as usize,
                ),
            },
    {
        if bytes.len() != 32 {
            Err(NodeError::InvalidKeyLength(bytes.len()))
        } else {
            Ok(NodeIdentity { secret: to_array32(bytes) })
        }
    }

    /// The node of a key file, or a new one where there is no such file.
    pub fn load_or_generate(key_file: Option<&[u8]>) -> (r: Result<Self, NodeError>)
        ensures
            match key_file {
                Some(bytes) => if bytes@.len() == 32 {
                    r matches Ok(node) && node.secret() == bytes@
                } else {
                    r matches Err(e) && e == NodeError::InvalidKeyLength(bytes@.len() as usize)
                },
                None => r matches Ok(node) && node.secret().len() == 32,
            },
    {
        match key_file {
            Some(bytes) => NodeIdentity::from_key_file(bytes),
            None => Ok(NodeIdentity::generate()),
        }
    }

    /// The secret key, as it is kept in a key file.
    pub fn signing_key(&self) -> (r: &[u8; 32])
        ensures
            r@ == self.secret(),
    {
        &self.secret
    }

    /// The key that the node's signatures are verified with.
    pub fn verifying_key(&self) -> (r: PubKey)
        ensures
            r@ == self.public(),
            crypto::ed25519_key_ok(r@),
    {
        public_key_of(&self.secret)
    }

    /// The public key, by which the node is known.
    pub fn public_key(&self) -> (r: PubKey)
        ensures
            r@ == self.public(),
            crypto::ed25519_key_ok(r@),
    {
        public_key_of(&self.secret)
    }

    /// Signs a message. The signature is accepted under the node's own key.
    pub fn sign(&self, message: &[u8]) -> (r: [u8; 64])
        ensures
            r@ == crypto::ed25519_signature(self.secret(), message@),
            crypto::ed25519_accepts(self.public(), message@, r@),
    {
        sign_message(&self.secret, message)
    }

    /// Whether the signature of the message is accepted under the node's key.
    pub fn verify(&self, message: &[u8], signature: &[u8; 64]) -> (r: Result<(), NodeError>)
        ensures
            r == if crypto::ed25519_accepts(self.public(), message@, signature@) {
                Ok(())
            } else {
                Err(NodeError::InvalidSignature)
            },
    {
        let key = self.verifying_key();
        NodeIdentity::verify_with_key(&key, message, signature)
    }

    /// Whether the signature of the message is accepted under the given key.
    pub fn verify_with_key(public_key: &PubKey, message: &[u8], signature: &[u8; 64]) -> (r: Result<
        (),
        NodeError,
    >)
        ensures
            r == if crypto::ed25519_accepts(public_key@, message@, signature@) {
                Ok(())
            } else {
                Err(NodeError::InvalidSignature)
            },
    {
        if signature_is_valid(public_key, message, signature) {
            Ok(())
        } else {
            Err(NodeError::InvalidSignature)
        }
    }
}

impl Clone for NodeIdentity {
    fn clone(&self) -> (r: Self)
        ensures
            r.secret() == self.secret(),
    {
        NodeIdentity { secret: self.secret }
    }
}

/// The states that a peer can be in.
#[derive(Debug, Clone, Copy, PartialEq, Eq, Structural, Hash)]
pub enum PeerStatus {
    /// The peer has been invited and has not joined yet.
    Invited,
    /// The peer takes part.
    Active,
    /// The peer is away for the time being.
    Dormant,
    /// The peer was shut out.
    Revoked,
}

impl PeerStatus {
    /// The word that the status is stored as.
    pub open spec fn word(self) -> Seq<char> {
        match self {
            PeerStatus::Invited => "invited"@,
            PeerStatus::Active => "active"@,
            PeerStatus::Dormant => "dormant"@,
            PeerStatus::Revoked => "revoked"@,
        }
    }

    /// The status that a word stands for.
    pub open spec fn of_word(word: Seq<char>) -> Option<PeerStatus> {
        if word == "invited"@ {
            Some(PeerStatus::Invited)
        } else if word == "active"@ {
            Some(PeerStatus::Active)
        } else if word == "dormant"@ {
            Some(PeerStatus::Dormant)
        } else if word == "revoked"@ {
            Some(PeerStatus::Revoked)
        } else {
            None
        }
    }

    /// The word that the status is stored as.
    pub fn as_str(&self) -> (r: &'static str)
        ensures
            r@ == self.word(),
    {
        match self {
            PeerStatus::Invited => "invited",
            PeerStatus::Active => "active",
            PeerStatus::Dormant => "dormant",
            PeerStatus::Revoked => "revoked",
        }
    }

    /// The status that a word stands for.
    pub fn from_str(s: &str) -> (r: Option<PeerStatus>)
        ensures
            r == PeerStatus::of_word(s@),
    {
        if str_eq(s, "invited") {
            Some(PeerStatus::Invited)
        } else if str_eq(s, "active") {
            Some(PeerStatus::Active)
        } else if str_eq(s, "dormant") {
            Some(PeerStatus::Dormant)
        } else if str_eq(s, "revoked") {
            Some(PeerStatus::Revoked)
        } else {
            None
        }
    }
}

/// Every status is read back from the word that it is stored as.
pub proof fn law_status_round_trip(status: PeerStatus)
    ensures
        PeerStatus::of_word(status.word()) == Some(status),
{
    reveal_strlit("invited");
    reveal_strlit("active");
    reveal_strlit("dormant");
    reveal_strlit("revoked");
    assert("invited"@[0] == 'i');
    assert("active"@[0] == 'a');
    assert("dormant"@[0] == 'd');
    assert("revoked"@[0] == 'r');
}

/// A word stands for a status only where it is that status's own word, and no two statuses
/// share one.
pub proof fn law_words_are_of_their_status(word: Seq<char>, a: PeerStatus, b: PeerStatus)
    ensures
        PeerStatus::of_word(word) matches Some(s) ==> word == s.word(),
        a.word() == b.word() ==> a == b,
        PeerStatus::of_word("invited"@) == Some(PeerStatus::Invited),
        PeerStatus::of_word("active"@) == Some(PeerStatus::Active),
        PeerStatus::of_word("dormant"@) == Some(PeerStatus::Dormant),
        PeerStatus::of_word("revoked"@) == Some(PeerStatus::Revoked),
{
    law_status_round_trip(a);
    law_status_round_trip(b);
    law_status_round_trip(PeerStatus::Invited);
    law_status_round_trip(PeerStatus::Active);
    law_status_round_trip(PeerStatus::Dormant);
    law_status_round_trip(PeerStatus::Revoked);
}

} // verus!
