//! Entries as messages: building, signing, verifying and hashing them.
use crate::bytes;
use crate::bytes::{to_array32, to_array64, to_vec, Digest, PubKey};
use crate::crypto;
use crate::crypto::{hash_bytes, key_is_valid, signature_is_valid};
use crate::entry;
use crate::entry::EntryError;
use crate::hlc::HLC;
use crate::message;
use crate::node_identity::{NodeError, NodeIdentity};
use crate::proto::storage as proto;
use crate::proto::storage::{
    Entry, EntryModel, Hlc, Operation, OperationModel, SignedEntry, SignedEntryModel,
};
use vstd::prelude::*;

verus! {

/// The entry that is signed with a secret key.
pub open spec fn signed(e: EntryModel, secret: Seq<u8>) -> SignedEntryModel {
    SignedEntryModel {
        entry_bytes: message::encoded::<Entry>(e),
        signature: crypto::ed25519_signature(secret, message::encoded::<Entry>(e)),
        author_id: crypto::ed25519_public(secret),
    }
}

/// The entry behind a signature that holds, or why there is none: the key is
/// looked at first, then the signature, and the entry last.
pub open spec fn checked(s: SignedEntryModel) -> Result<EntryModel, EntryError> {
    if s.author_id.len() != 32 {
        Err(EntryError::InvalidPublicKeyLength(s.author_id.len() as usize))
    } else if !crypto::ed25519_key_ok(s.author_id) {
        Err(EntryError::Signature(NodeError::InvalidSignature))
    } else if s.signature.len() != 64 {
        Err(EntryError::InvalidSignatureLength(s.signature.len() as usize))
    } else if !crypto::ed25519_accepts(s.author_id, s.entry_bytes, s.signature) {
        Err(EntryError::Signature(NodeError::InvalidSignature))
    } else {
        match message::decoded::<Entry>(s.entry_bytes) {
            Some(e) => Ok(e),
            None => Err(EntryError::Decode(message::decode_error::<Entry>(s.entry_bytes))),
        }
    }
}

/// Builds an entry.
pub struct EntryBuilder {
    entry: Entry,
}

impl View for EntryBuilder {
    type V = EntryModel;

    closed spec fn view(&self) -> EntryModel {
        self.entry@
    }
}

impl EntryBuilder {
    /// An entry without operations, parents and a store, which follows none.
    pub fn new(seq: u64, timestamp: HLC) -> (r: Self)
        ensures
            r@ == (EntryModel {
                version: 1,
                store_id: Seq::empty(),
                prev_hash: bytes::zeros(32),
                parent_hashes: Seq::empty(),
                seq,
                timestamp: Some(entry::stored_hlc(timestamp)),
                ops: Seq::empty(),
            }),
    {
        let zero: Digest = [0u8;32];
        let prev_hash = to_vec(zero.as_slice());
        let r = EntryBuilder {
            entry: Entry {
                version: 1,
                store_id: Vec::new(),
                prev_hash,
                parent_hashes: Vec::new(),
                seq,
                timestamp: Some(
                    Hlc { wall_time: timestamp.wall_time, counter: timestamp.counter },
                ),
                ops: Vec::new(),
            },
        };
        proof {
            assert(r@.prev_hash =~= bytes::zeros(32));
            assert(r@.parent_hashes =~= Seq::empty());
            assert(r@.ops =~= Seq::empty());
        }
        r
    }

    /// Sets the store.
    pub fn store_id(self, id: Vec<u8>) -> (r: Self)
        ensures
            r@ == (EntryModel { store_id: id@, ..self@ }),
    {
        let mut entry = self.entry;
        entry.store_id = id;
        EntryBuilder { entry }
    }

    /// Sets the hash of the entry before this one.
    pub fn prev_hash(self, hash: Vec<u8>) -> (r: Self)
        ensures
            r@ == (EntryModel { prev_hash: hash@, ..self@ }),
    {
        let mut entry = self.entry;
        entry.prev_hash = hash;
        EntryBuilder { entry }
    }

    /// Sets the hashes of the entries that this one supersedes.
    pub fn parent_hashes(self, hashes: Vec<Vec<u8>>) -> (r: Self)
        ensures
            r@ == (EntryModel { parent_hashes: message::byte_models(hashes@), ..self@ }),
    {
        let mut entry = self.entry;
        entry.parent_hashes = hashes;
        EntryBuilder { entry }
    }

    /// Adds an operation that sets `key` to `value`.
    pub fn put(self, key: Vec<u8>, value: Vec<u8>) -> (r: Self)
        ensures
            r@ == (EntryModel {
                ops: self@.ops.push(
                    OperationModel {
                        op_type: Some(
                            proto::OpTypeModel::Put(
                                proto::PutOpModel { key: key@, value: value@ },
                            ),
                        ),
                    },
                ),
                ..self@
            }),
    {
        self.operation(Operation::put(key, value))
    }

    /// Adds an operation that deletes `key`.
    pub fn delete(self, key: Vec<u8>) -> (r: Self)
        ensures
            r@ == (EntryModel {
                ops: self@.ops.push(
                    OperationModel {
                        op_type: Some(
                            proto::OpTypeModel::Delete(proto::DeleteOpModel { key: key@ }),
                        ),
                    },
                ),
                ..self@
            }),
    {
        self.operation(Operation::delete(key))
    }

    /// Adds an operation.
    pub fn operation(self, op: Operation) -> (r: Self)
        ensures
            r@ == (EntryModel { ops: self@.ops.push(op@), ..self@ }),
    {
        let mut entry = self.entry;
        let ghost before = entry.ops@;
        entry.ops.push(op);
        assert(message::models(entry.ops@) =~= message::models(before).push(op@));
        EntryBuilder { entry }
    }

    /// The entry.
    pub fn build(self) -> (r: Entry)
        ensures
            r@ == self@,
    {
        self.entry
    }

    /// The entry with the node's signature, which holds.
    pub fn sign(self, node: &NodeIdentity) -> (r: SignedEntry)
        ensures
            r@ == signed(self@, node.secret()),
            r@.entry_bytes.len() <= u64::MAX ==> checked(r@) == Ok::<EntryModel, EntryError>(
                self@,
            ),
    {
        let entry = self.build();
        sign_entry(&entry, node)
    }
}

/// Signs an entry. The signature holds.
pub fn sign_entry(entry: &Entry, node: &NodeIdentity) -> (r: SignedEntry)
    ensures
        r@ == signed(entry@, node.secret()),
        r@.entry_bytes.len() <= u64::MAX ==> checked(r@) == Ok::<EntryModel, EntryError>(entry@),
{
    let entry_bytes = message::encode(entry);
    let signature = node.sign(entry_bytes.as_slice());
    let author_id = node.public_key();
    proof {
        if entry_bytes@.len() <= u64::MAX {
            proto::law_entry_round_trip(entry@);
        }
    }
    SignedEntry {
        entry_bytes,
        signature: to_vec(signature.as_slice()),
        author_id: to_vec(author_id.as_slice()),
    }
}

/// The entry behind a signature that holds, or why there is none.
pub fn verify_signed_entry(signed: &SignedEntry) -> (r: Result<Entry, EntryError>)
    ensures
        match checked(signed@) {
            Ok(e) => r matches Ok(x) && x@ == e,
            Err(e) => r == Err::<Entry, EntryError>(e),
        },
{
    if signed.author_id.len() != 32 {
        return Err(EntryError::InvalidPublicKeyLength(signed.author_id.len()));
    }
    let public_key: PubKey = to_array32(signed.author_id.as_slice());
    if !key_is_valid(&public_key) {
        return Err(EntryError::Signature(NodeError::InvalidSignature));
    }
    if signed.signature.len() != 64 {
        return Err(EntryError::InvalidSignatureLength(signed.signature.len()));
    }
    let signature: [u8; 64] = to_array64(signed.signature.as_slice());
    if !signature_is_valid(&public_key, signed.entry_bytes.as_slice(), &signature) {
        return Err(EntryError::Signature(NodeError::InvalidSignature));
    }
    match message::decode::<Entry>(signed.entry_bytes.as_slice()) {
        Ok(entry) => Ok(entry),
        Err(e) => Err(EntryError::Decode(e)),
    }
}

/// The hash of a signed entry, by which later ones name it.
pub fn hash_signed_entry(signed: &SignedEntry) -> (r: Digest)
    ensures
        r@ == crypto::blake3_hash(message::encoded::<SignedEntry>(signed@)),
{
    let bytes = message::encode(signed);
    hash_bytes(bytes.as_slice())
}

/// The hash of the bytes of an entry.
pub fn hash_entry_bytes(entry_bytes: &[u8]) -> (r: Digest)
    ensures
        r@ == crypto::blake3_hash(entry_bytes@),
{
    hash_bytes(entry_bytes)
}

} // verus!
