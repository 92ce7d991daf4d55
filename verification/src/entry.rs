//! Entries of an author's chain, their signatures and the tip of a chain.
use crate::bytes;
use crate::bytes::{bytes_eq, to_array32, to_array64, to_vec, Digest, PubKey};
use crate::clock::{Clock, SystemClock};
use crate::crypto;
use crate::crypto::hash_bytes;
use crate::hlc::HLC;
use crate::message;
use crate::message::{DecodeError, Message};
use crate::node_identity::{NodeError, NodeIdentity};
use crate::proto::storage as proto;
use crate::proto::storage::{Hlc, Operation, OperationModel};
use crate::text;
use crate::text::decimal;
use crate::wire;
use vstd::prelude::*;
use vstd::string::*;

verus! {

/// What can be wrong with an encoded entry.
#[derive(Clone, Copy, Debug, PartialEq, Eq, Structural)]
pub enum EntryError {
    /// The signature does not hold.
    Signature(NodeError),
    /// The bytes are not an encoded entry.
    Decode(DecodeError),
    /// A signature has 64 bytes.
    InvalidSignatureLength(usize),
    /// A public key has 32 bytes.
    InvalidPublicKeyLength(usize),
    /// An entry has a timestamp.
    MissingTimestamp,
    /// The hash of the previous entry has 32 bytes.
    InvalidPrevHashLength(usize),
}

impl EntryError {
    /// The text of the error.
    pub open spec fn text(self) -> Seq<char> {
        match self {
            EntryError::Signature(e) => "Signature verification failed: "@ + e.text(),
            EntryError::Decode(e) => "Proto decode error: "@ + e.text(),
            EntryError::InvalidSignatureLength(n) =>
                "Invalid signature length: expected 64 bytes, got "@ + text::decimal_text(n as nat),
            EntryError::InvalidPublicKeyLength(n) =>
                "Invalid public key length: expected 32 bytes, got "@ + text::decimal_text(
                n as nat,
            ),
            EntryError::MissingTimestamp => "Missing timestamp in entry"@,
            EntryError::InvalidPrevHashLength(n) =>
                "Invalid previous hash length: expected 32 bytes, got "@ + text::decimal_text(
                n as nat,
            ),
        }
    }

    /// The text of the error.
    pub fn to_string(&self) -> (r: String)
        ensures
            r@ == self.text(),
    {
        match self {
            EntryError::Signature(e) => "Signature verification failed: ".to_owned().concat(
                e.to_string().as_str(),
            ),
            EntryError::Decode(e) => "Proto decode error: ".to_owned().concat(
                e.to_string().as_str(),
            ),
            EntryError::InvalidSignatureLength(n) =>
                "Invalid signature length: expected 64 bytes, got ".to_owned().concat(
                decimal(*n as u64).as_str(),
            ),
            EntryError::InvalidPublicKeyLength(n) =>
                "Invalid public key length: expected 32 bytes, got ".to_owned().concat(
                decimal(*n as u64).as_str(),
            ),
            EntryError::MissingTimestamp => "Missing timestamp in entry".to_owned(),
            EntryError::InvalidPrevHashLength(n) =>
                "Invalid previous hash length: expected 32 bytes, got ".to_owned().concat(
                decimal(*n as u64).as_str(),
            ),
        }
    }
}

/// An entry: the operations that its author performed at once, chained to the
/// author's previous entry and to the entries that they supersede.
#[derive(Debug, PartialEq, Eq)]
pub struct Entry {
    pub version: u32,
    pub store_id: Vec<u8>,
    pub prev_hash: Digest,
    pub parent_hashes: Vec<Digest>,
    pub seq: u64,
    pub timestamp: HLC,
    pub ops: Vec<Operation>,
}

/// The model of [`Entry`].
pub struct EntryModel {
    pub version: u32,
    pub store_id: Seq<u8>,
    pub prev_hash: Seq<u8>,
    pub parent_hashes: Seq<Seq<u8>>,
    pub seq: u64,
    pub timestamp: HLC,
    pub ops: Seq<OperationModel>,
}

/// An entry with its author's signature. The signature is over the entry's
/// encoding.
#[derive(Debug, PartialEq, Eq)]
pub struct SignedEntry {
    pub entry: Entry,
    pub signature: [u8; 64],
    pub author_id: PubKey,
}

/// The model of [`SignedEntry`].
pub struct SignedEntryModel {
    pub entry: EntryModel,
    pub signature: Seq<u8>,
    pub author_id: Seq<u8>,
}

/// The last entry of an author's chain.
#[derive(Clone, Copy, Debug, PartialEq, Eq)]
pub struct ChainTip {
    /// The entry's sequence number.
    pub seq: u64,
    /// The entry's hash.
    pub hash: Digest,
    /// The entry's timestamp.
    pub hlc: HLC,
}

/// The model of [`ChainTip`].
pub struct ChainTipModel {
    pub seq: u64,
    pub hash: Seq<u8>,
    pub hlc: HLC,
}

/// The models of a run of hashes.
pub open spec fn digests(hashes: Seq<Digest>) -> Seq<Seq<u8>> {
    hashes.map_values(|h: Digest| h@)
}

impl View for Entry {
    type V = EntryModel;

    open spec fn view(&self) -> EntryModel {
        EntryModel {
            version: self.version,
            store_id: self.store_id@,
            prev_hash: self.prev_hash@,
            parent_hashes: digests(self.parent_hashes@),
            seq: self.seq,
            timestamp: self.timestamp,
            ops: message::models(self.ops@),
        }
    }
}

impl View for SignedEntry {
    type V = SignedEntryModel;

    open spec fn view(&self) -> SignedEntryModel {
        SignedEntryModel {
            entry: self.entry@,
            signature: self.signature@,
            author_id: self.author_id@,
        }
    }
}

impl View for ChainTip {
    type V = ChainTipModel;

    open spec fn view(&self) -> ChainTipModel {
        ChainTipModel { seq: self.seq, hash: self.hash@, hlc: self.hlc }
    }
}

/// The model of a tip that may be missing.
pub open spec fn tip_model(tip: Option<&ChainTip>) -> Option<ChainTipModel> {
    match tip {
        Some(t) => Some(t@),
        None => None,
    }
}

/// A timestamp as it is stored.
pub open spec fn stored_hlc(hlc: HLC) -> Hlc {
    Hlc { wall_time: hlc.wall_time, counter: hlc.counter }
}

/// A timestamp as it was stored.
pub open spec fn loaded_hlc(hlc: Hlc) -> HLC {
    HLC { wall_time: hlc.wall_time, counter: hlc.counter }
}

impl EntryModel {
    /// The entry as a message.
    pub open spec fn to_proto(self) -> proto::EntryModel {
        proto::EntryModel {
            version: self.version,
            store_id: self.store_id,
            prev_hash: self.prev_hash,
            parent_hashes: self.parent_hashes,
            seq: self.seq,
            timestamp: Some(stored_hlc(self.timestamp)),
            ops: self.ops,
        }
    }

    /// The bytes that the author signs.
    pub open spec fn signed_bytes(self) -> Seq<u8> {
        message::encoded::<proto::Entry>(self.to_proto())
    }

    /// The entry that a message holds. A missing previous hash stands for none;
    /// parents that are not 32 bytes long are left out.
    pub open spec fn from_proto(p: proto::EntryModel) -> Result<EntryModel, EntryError> {
        if p.prev_hash.len() != 0 && p.prev_hash.len() != 32 {
            Err(EntryError::InvalidPrevHashLength(p.prev_hash.len() as usize))
        } else {
            match p.timestamp {
                None => Err(EntryError::MissingTimestamp),
                Some(t) => Ok(
                    EntryModel {
                        version: p.version,
                        store_id: p.store_id,
                        prev_hash: if p.prev_hash.len() == 0 {
                            bytes::zeros(32)
                        } else {
                            p.prev_hash
                        },
                        parent_hashes: p.parent_hashes.filter(|h: Seq<u8>| h.len() == 32),
                        seq: p.seq,
                        timestamp: loaded_hlc(t),
                        ops: p.ops,
                    },
                ),
            }
        }
    }

    /// The hashes have the length of a hash.
    pub open spec fn wf(self) -> bool {
        &&& self.prev_hash.len() == 32
        &&& forall|i: int|
            0 <= i < self.parent_hashes.len() ==> (#[trigger] self.parent_hashes[i]).len() == 32
    }
}

impl SignedEntryModel {
    /// The signed entry as a message.
    pub open spec fn to_proto(self) -> proto::SignedEntryModel {
        proto::SignedEntryModel {
            entry_bytes: self.entry.signed_bytes(),
            signature: self.signature,
            author_id: self.author_id,
        }
    }

    /// The signed entry's encoding.
    pub open spec fn encoding(self) -> Seq<u8> {
        message::encoded::<proto::SignedEntry>(self.to_proto())
    }

    /// The hash by which the entry is known.
    pub open spec fn hash(self) -> Seq<u8> {
        crypto::blake3_hash(self.encoding())
    }

    /// Whether the signature holds.
    pub open spec fn verified(self) -> bool {
        crypto::ed25519_accepts(self.author_id, self.entry.signed_bytes(), self.signature)
    }

    /// The tip of a chain that ends with this entry.
    pub open spec fn tip(self) -> ChainTipModel {
        ChainTipModel { seq: self.entry.seq, hash: self.hash(), hlc: self.entry.timestamp }
    }

    /// The signed entry that a message holds. The signature is checked against
    /// the bytes as they came, before they are decoded.
    pub open spec fn from_proto(p: proto::SignedEntryModel) -> Result<SignedEntryModel, EntryError> {
        if p.author_id.len() != 32 {
            Err(EntryError::InvalidPublicKeyLength(p.author_id.len() as usize))
        } else if p.signature.len() != 64 {
            Err(EntryError::InvalidSignatureLength(p.signature.len() as usize))
        } else if !crypto::ed25519_accepts(p.author_id, p.entry_bytes, p.signature) {
            Err(EntryError::Signature(NodeError::InvalidSignature))
        } else {
            match message::decoded::<proto::Entry>(p.entry_bytes) {
                None => Err(
                    EntryError::Decode(message::decode_error::<proto::Entry>(p.entry_bytes)),
                ),
                Some(e) => match EntryModel::from_proto(e) {
                    Err(e) => Err(e),
                    Ok(entry) => Ok(
                        SignedEntryModel {
                            entry,
                            signature: p.signature,
                            author_id: p.author_id,
                        },
                    ),
                },
            }
        }
    }

    /// The keys, hashes and the signature have their proper lengths.
    pub open spec fn wf(self) -> bool {
        &&& self.entry.wf()
        &&& self.signature.len() == 64
        &&& self.author_id.len() == 32
    }
}

impl ChainTipModel {
    /// The tip as a message.
    pub open spec fn to_proto(self) -> proto::ChainTipModel {
        proto::ChainTipModel { seq: self.seq, hash: self.hash, hlc: Some(stored_hlc(self.hlc)) }
    }

    /// The tip's encoding.
    pub open spec fn encoding(self) -> Seq<u8> {
        message::encoded::<proto::ChainTip>(self.to_proto())
    }

    /// The tip that a message holds. A missing timestamp stands for the earliest.
    pub open spec fn from_proto(p: proto::ChainTipModel) -> Result<ChainTipModel, EntryError> {
        if p.hash.len() != 32 {
            Err(EntryError::InvalidPrevHashLength(p.hash.len() as usize))
        } else {
            Ok(
                ChainTipModel {
                    seq: p.seq,
                    hash: p.hash,
                    hlc: match p.hlc {
                        Some(t) => loaded_hlc(t),
                        None => HLC { wall_time: 0, counter: 0 },
                    },
                },
            )
        }
    }

    /// The tip that is encoded in `b`.
    pub open spec fn of_bytes(b: Seq<u8>) -> Result<ChainTipModel, EntryError> {
        match message::decoded::<proto::ChainTip>(b) {
            Some(p) => ChainTipModel::from_proto(p),
            None => Err(EntryError::Decode(message::decode_error::<proto::ChainTip>(b))),
        }
    }
}

impl ChainTip {
    /// The tip that a message holds.
    pub fn from_proto(p: &proto::ChainTip) -> (r: Result<ChainTip, EntryError>)
        ensures
            match ChainTipModel::from_proto(p@) {
                Ok(m) => r matches Ok(tip) && tip@ == m,
                Err(e) => r == Err::<ChainTip, _>(e),
            },
    {
        if p.hash.len() != 32 {
            return Err(EntryError::InvalidPrevHashLength(p.hash.len()));
        }
        let hlc = match p.hlc {
            Some(t) => HLC { wall_time: t.wall_time, counter: t.counter },
            None => HLC { wall_time: 0, counter: 0 },
        };
        Ok(ChainTip { seq: p.seq, hash: to_array32(p.hash.as_slice()), hlc })
    }

    /// The tip that is encoded in `bytes`.
    pub fn decode(bytes: &[u8]) -> (r: Result<ChainTip, EntryError>)
        ensures
            match ChainTipModel::of_bytes(bytes@) {
                Ok(m) => r matches Ok(tip) && tip@ == m,
                Err(e) => r == Err::<ChainTip, _>(e),
            },
    {
        match message::decode::<proto::ChainTip>(bytes) {
            Ok(p) => ChainTip::from_proto(&p),
            Err(e) => Err(EntryError::Decode(e)),
        }
    }

    /// The tip's encoding.
    pub fn encode(&self) -> (r: Vec<u8>)
        ensures
            r@ == self@.encoding(),
    {
        let hlc = Hlc { wall_time: self.hlc.wall_time, counter: self.hlc.counter };
        let p = proto::ChainTip {
            seq: self.seq,
            hash: to_vec(self.hash.as_slice()),
            hlc: Some(hlc),
        };
        message::encode(&p)
    }

    /// The tip of a chain that ends with `entry`.
    pub fn of_entry(entry: &SignedEntry) -> (r: ChainTip)
        ensures
            r@ == entry@.tip(),
    {
        ChainTip { seq: entry.entry.seq, hash: entry.hash(), hlc: entry.entry.timestamp }
    }
}

/// A copy of a run of hashes.
pub fn copy_digests(hashes: &Vec<Digest>) -> (r: Vec<Digest>)
    ensures
        r@ == hashes@,
{
    let mut r: Vec<Digest> = Vec::new();
    let mut i: usize = 0;
    while i < hashes.len()
        invariant
            i <= hashes@.len(),
            r@ == hashes@.take(i as int),
        decreases hashes@.len() - i,
    {
        r.push(hashes[i]);
        i += 1;
        assert(hashes@.take(i as int) =~= hashes@.take(i - 1).push(hashes@[i - 1]));
    }
    assert(hashes@.take(i as int) =~= hashes@);
    r
}

/// Those of the byte strings that are 32 bytes long, in their order.
pub fn digests_of(items: &Vec<Vec<u8>>) -> (r: Vec<Digest>)
    ensures
        digests(r@) == message::byte_models(items@).filter(|h: Seq<u8>| h.len() == 32),
{
    let ghost all = message::byte_models(items@);
    let ghost keep = |h: Seq<u8>| h.len() == 32;
    let mut r: Vec<Digest> = Vec::new();
    let mut i: usize = 0;
    proof {
        reveal(Seq::filter);
        assert(all.take(0) =~= Seq::empty());
        assert(digests(r@) =~= all.take(0).filter(keep));
    }
    while i < items.len()
        invariant
            i <= items@.len(),
            all == message::byte_models(items@),
            keep == (|h: Seq<u8>| h.len() == 32),
            digests(r@) == all.take(i as int).filter(keep),
        decreases items@.len() - i,
    {
        let ghost before = r@;
        if items[i].len() == 32 {
            r.push(to_array32(items[i].as_slice()));
            assert(digests(r@) =~= digests(before).push(items@[i as int]@));
        }
        proof {
            reveal(Seq::filter);
            assert(all.take(i + 1).drop_last() =~= all.take(i as int));
            assert(all.take(i + 1).last() == items@[i as int]@);
        }
        i += 1;
    }
    assert(all.take(i as int) =~= all);
    r
}

impl Entry {
    /// A builder of the entry that follows `tip`, made when the wall clock reads
    /// `now_ms`. Without a tip, it is the first entry of a chain.
    pub fn next_after_at(tip: Option<&ChainTip>, now_ms: u64) -> (r: EntryBuilder)
        requires
            tip matches Some(t) ==> t.seq < u64::MAX,
        ensures
            r@ == next_start(tip_model(tip), now_ms),
    {
        match tip {
            Some(t) => EntryBuilder::new(t.seq + 1, t.hlc.tick_at(now_ms)).prev_hash(
                to_vec(t.hash.as_slice()),
            ),
            None => EntryBuilder::new(1, HLC { wall_time: now_ms, counter: 0 }),
        }
    }

    /// A builder of the entry that follows `tip`, made now. Without a tip, it is
    /// the first entry of a chain.
    pub fn next_after(tip: Option<&ChainTip>) -> (r: EntryBuilder)
        requires
            tip matches Some(t) ==> t.seq < u64::MAX,
        ensures
            exists|now_ms: u64| r@ == #[trigger] next_start(tip_model(tip), now_ms),
    {
        let now: u64 = SystemClock.now_ms();
        Entry::next_after_at(tip, now)
    }

    /// The entry as a message.
    pub fn to_proto(&self) -> (r: proto::Entry)
        ensures
            r@ == self@.to_proto(),
    {
        let mut parents: Vec<Vec<u8>> = Vec::new();
        let mut i: usize = 0;
        while i < self.parent_hashes.len()
            invariant
                i <= self.parent_hashes@.len(),
                parents@.len() == i,
                forall|k: int|
                    0 <= k < i ==> (#[trigger] parents@[k])@ == self.parent_hashes@[k]@,
            decreases self.parent_hashes@.len() - i,
        {
            parents.push(to_vec(self.parent_hashes[i].as_slice()));
            i += 1;
        }
        assert(message::byte_models(parents@) =~= self@.parent_hashes);
        let hlc = Hlc { wall_time: self.timestamp.wall_time, counter: self.timestamp.counter };
        proto::Entry {
            version: self.version,
            store_id: to_vec(self.store_id.as_slice()),
            prev_hash: to_vec(self.prev_hash.as_slice()),
            parent_hashes: parents,
            seq: self.seq,
            timestamp: Some(hlc),
            ops: message::duplicate_items(&self.ops),
        }
    }

    /// The entry that a message holds.
    pub fn from_proto(p: proto::Entry) -> (r: Result<Entry, EntryError>)
        ensures
            match EntryModel::from_proto(p@) {
                Ok(m) => r matches Ok(e) && e@ == m,
                Err(e) => r == Err::<Entry, _>(e),
            },
    {
        let prev_hash: Digest = if p.prev_hash.len() == 0 {
            let z: Digest = [0u8; 32];
            assert(z@ =~= bytes::zeros(32));
            z
        } else if p.prev_hash.len() == 32 {
            to_array32(p.prev_hash.as_slice())
        } else {
            return Err(EntryError::InvalidPrevHashLength(p.prev_hash.len()));
        };
        let parent_hashes = digests_of(&p.parent_hashes);
        match p.timestamp {
            None => Err(EntryError::MissingTimestamp),
            Some(t) => Ok(
                Entry {
                    version: p.version,
                    store_id: p.store_id,
                    prev_hash,
                    parent_hashes,
                    seq: p.seq,
                    timestamp: HLC { wall_time: t.wall_time, counter: t.counter },
                    ops: p.ops,
                },
            ),
        }
    }

    /// The bytes that the author signs.
    pub fn signed_bytes(&self) -> (r: Vec<u8>)
        ensures
            r@ == self@.signed_bytes(),
    {
        message::encode(&self.to_proto())
    }

    /// Signs the entry. The signature holds.
    pub fn sign(self, node: &NodeIdentity) -> (r: SignedEntry)
        ensures
            r@ == (SignedEntryModel {
                entry: self@,
                signature: crypto::ed25519_signature(node.secret(), self@.signed_bytes()),
                author_id: node.public(),
            }),
            r@.verified(),
    {
        let signed = self.signed_bytes();
        let signature = node.sign(signed.as_slice());
        SignedEntry { entry: self, signature, author_id: node.public_key() }
    }

    /// Whether the entry follows the one that the tip stands for.
    pub fn is_successor_of(&self, tip: &ChainTip) -> (r: bool)
        ensures
            r == (self@.prev_hash == tip@.hash),
    {
        bytes_eq(self.prev_hash.as_slice(), tip.hash.as_slice())
    }

    /// Whether the entry is the first of its chain.
    pub fn is_genesis(&self) -> (r: bool)
        ensures
            r == (self@.prev_hash == bytes::zeros(32)),
    {
        let z: Digest = [0u8; 32];
        assert(z@ =~= bytes::zeros(32));
        bytes_eq(self.prev_hash.as_slice(), z.as_slice())
    }
}

impl Clone for Entry {
    fn clone(&self) -> (r: Self)
        ensures
            r@ == self@,
    {
        Entry {
            version: self.version,
            store_id: to_vec(self.store_id.as_slice()),
            prev_hash: self.prev_hash,
            parent_hashes: copy_digests(&self.parent_hashes),
            seq: self.seq,
            timestamp: self.timestamp,
            ops: message::duplicate_items(&self.ops),
        }
    }
}

impl SignedEntry {
    /// Whether the signature holds over the entry's encoding.
    pub fn verify(&self) -> (r: Result<(), EntryError>)
        ensures
            r == if self@.verified() {
                Ok(())
            } else {
                Err(EntryError::Signature(NodeError::InvalidSignature))
            },
    {
        let signed = self.entry.signed_bytes();
        match NodeIdentity::verify_with_key(&self.author_id, signed.as_slice(), &self.signature) {
            Ok(()) => Ok(()),
            Err(e) => Err(EntryError::Signature(e)),
        }
    }

    /// The signed entry's encoding.
    pub fn encode(&self) -> (r: Vec<u8>)
        ensures
            r@ == self@.encoding(),
    {
        message::encode(&self.to_proto())
    }

    /// The hash by which the entry is known.
    pub fn hash(&self) -> (r: Digest)
        ensures
            r@ == self@.hash(),
    {
        hash_bytes(self.encode().as_slice())
    }

    /// The signed entry as a message.
    pub fn to_proto(&self) -> (r: proto::SignedEntry)
        ensures
            r@ == self@.to_proto(),
    {
        proto::SignedEntry {
            entry_bytes: self.entry.signed_bytes(),
            signature: to_vec(self.signature.as_slice()),
            author_id: to_vec(self.author_id.as_slice()),
        }
    }

    /// The signed entry that a message holds, with its signature checked.
    pub fn from_proto(p: &proto::SignedEntry) -> (r: Result<SignedEntry, EntryError>)
        ensures
            match SignedEntryModel::from_proto(p@) {
                Ok(m) => r matches Ok(s) && s@ == m,
                Err(e) => r == Err::<SignedEntry, _>(e),
            },
    {
        if p.author_id.len() != 32 {
            return Err(EntryError::InvalidPublicKeyLength(p.author_id.len()));
        }
        if p.signature.len() != 64 {
            return Err(EntryError::InvalidSignatureLength(p.signature.len()));
        }
        let author_id: PubKey = to_array32(p.author_id.as_slice());
        let signature: [u8; 64] = to_array64(p.signature.as_slice());
        match NodeIdentity::verify_with_key(&author_id, p.entry_bytes.as_slice(), &signature) {
            Ok(()) => {},
            Err(e) => {
                return Err(EntryError::Signature(e));
            },
        }
        match message::decode::<proto::Entry>(p.entry_bytes.as_slice()) {
            Err(e) => Err(EntryError::Decode(e)),
            Ok(e) => match Entry::from_proto(e) {
                Err(e) => Err(e),
                Ok(entry) => Ok(SignedEntry { entry, signature, author_id }),
            },
        }
    }
}

impl Clone for SignedEntry {
    fn clone(&self) -> (r: Self)
        ensures
            r@ == self@,
    {
        SignedEntry {
            entry: self.entry.clone(),
            signature: self.signature,
            author_id: self.author_id,
        }
    }
}

/// What a builder starts from.
pub open spec fn builder_start(seq: u64, timestamp: HLC) -> EntryModel {
    EntryModel {
        version: 1,
        store_id: Seq::empty(),
        prev_hash: bytes::zeros(32),
        parent_hashes: Seq::empty(),
        seq,
        timestamp,
        ops: Seq::empty(),
    }
}

/// What the entry that follows `tip` starts from when the wall clock reads
/// `now_ms`: the next sequence number, chained to the tip and ticked past its
/// timestamp. Without a tip, it is the first entry of a chain.
pub open spec fn next_start(tip: Option<ChainTipModel>, now_ms: u64) -> EntryModel {
    match tip {
        Some(t) => EntryModel {
            prev_hash: t.hash,
            ..builder_start((t.seq + 1) as u64, t.hlc.ticked(now_ms))
        },
        None => builder_start(1, HLC { wall_time: now_ms, counter: 0 }),
    }
}

/// Builds an entry step by step.
pub struct EntryBuilder {
    entry: Entry,
}

impl View for EntryBuilder {
    type V = EntryModel;

    closed spec fn view(&self) -> EntryModel {
        self.entry@
    }
}

impl EntryBuilder {
    /// Starts an entry without predecessor, parents and operations.
    pub fn new(seq: u64, timestamp: HLC) -> (r: Self)
        ensures
            r@ == builder_start(seq, timestamp),
    {
        let r = EntryBuilder {
            entry: Entry {
                version: 1,
                store_id: Vec::new(),
                prev_hash: [0u8; 32],
                parent_hashes: Vec::new(),
                seq,
                timestamp,
                ops: Vec::new(),
            },
        };
        assert(r@.prev_hash =~= bytes::zeros(32));
        assert(r@.parent_hashes =~= Seq::empty());
        assert(r@.ops =~= Seq::empty());
        r
    }

    /// Sets the store that the entry belongs to.
    pub fn store_id(self, id: Vec<u8>) -> (r: Self)
        ensures
            r@ == (EntryModel { store_id: id@, ..self@ }),
    {
        let mut entry = self.entry;
        entry.store_id = id;
        EntryBuilder { entry }
    }

    /// Sets the hash of the previous entry, if it is 32 bytes long.
    pub fn prev_hash(self, hash: Vec<u8>) -> (r: Self)
        ensures
            r@ == if hash@.len() == 32 {
                EntryModel { prev_hash: hash@, ..self@ }
            } else {
                self@
            },
    {
        let mut entry = self.entry;
        if hash.len() == 32 {
            entry.prev_hash = to_array32(hash.as_slice());
        }
        EntryBuilder { entry }
    }

    /// Sets the parents to those of the hashes that are 32 bytes long.
    pub fn parent_hashes(self, hashes: Vec<Vec<u8>>) -> (r: Self)
        ensures
            r@ == (EntryModel {
                parent_hashes: message::byte_models(hashes@).filter(|h: Seq<u8>| h.len() == 32),
                ..self@
            }),
    {
        let mut entry = self.entry;
        entry.parent_hashes = digests_of(&hashes);
        EntryBuilder { entry }
    }

    /// Appends an operation.
    pub fn operation(self, op: Operation) -> (r: Self)
        ensures
            r@ == (EntryModel { ops: self@.ops.push(op@), ..self@ }),
    {
        let mut entry = self.entry;
        let ghost x = op@;
        entry.ops.push(op);
        assert(message::models(entry.ops@) =~= self@.ops.push(x));
        EntryBuilder { entry }
    }

    /// Sets the timestamp.
    pub fn timestamp(self, timestamp: HLC) -> (r: Self)
        ensures
            r@ == (EntryModel { timestamp, ..self@ }),
    {
        let mut entry = self.entry;
        entry.timestamp = timestamp;
        EntryBuilder { entry }
    }

    /// The entry that was built.
    pub fn build(self) -> (r: Entry)
        ensures
            r@ == self@,
    {
        self.entry
    }

    /// The entry that was built, signed. The signature holds.
    pub fn sign(self, node: &NodeIdentity) -> (r: SignedEntry)
        ensures
            r@ == (SignedEntryModel {
                entry: self@,
                signature: crypto::ed25519_signature(node.secret(), self@.signed_bytes()),
                author_id: node.public(),
            }),
            r@.verified(),
    {
        self.entry.sign(node)
    }
}

/// The model of every signed entry is well formed.
pub proof fn law_models_are_well_formed(e: &SignedEntry)
    ensures
        e@.wf(),
{
    assert forall|i: int| 0 <= i < e@.entry.parent_hashes.len() implies (
    #[trigger] e@.entry.parent_hashes[i]).len() == 32 by {
        assert(e@.entry.parent_hashes[i] == e.entry.parent_hashes@[i]@);
    }
}

/// A filter that keeps every item changes nothing.
proof fn lemma_filter_all<A>(s: Seq<A>, keep: spec_fn(A) -> bool)
    requires
        forall|i: int| 0 <= i < s.len() ==> keep(#[trigger] s[i]),
    ensures
        s.filter(keep) == s,
    decreases s.len(),
{
    reveal(Seq::filter);
    if s.len() > 0 {
        assert forall|i: int| 0 <= i < s.len() - 1 implies keep(#[trigger] s.drop_last()[i]) by {
            assert(s.drop_last()[i] == s[i]);
        }
        lemma_filter_all(s.drop_last(), keep);
        assert(keep(s[s.len() - 1]));
        assert(s.drop_last().push(s.last()) =~= s);
    }
}

/// An entry converted to a message and back is the same entry.
pub proof fn law_entry_conversion(e: EntryModel)
    requires
        e.wf(),
    ensures
        EntryModel::from_proto(e.to_proto()) == Ok::<EntryModel, EntryError>(e),
{
    lemma_filter_all(e.parent_hashes, |h: Seq<u8>| h.len() == 32);
}

/// A signed entry whose signature holds is accepted again, and is the same, when
/// it comes back as a message.
pub proof fn law_signed_entry_accepted(s: SignedEntryModel)
    requires
        s.wf(),
        s.verified(),
        s.entry.signed_bytes().len() <= u64::MAX,
    ensures
        SignedEntryModel::from_proto(s.to_proto()) == Ok::<SignedEntryModel, EntryError>(s),
{
    proto::law_entry_round_trip(s.entry.to_proto());
    law_entry_conversion(s.entry);
}

/// The tip of a chain is read back from its encoding.
pub proof fn law_chain_tip_round_trip(tip: ChainTipModel)
    requires
        tip.hash.len() == 32,
    ensures
        ChainTipModel::of_bytes(tip.encoding()) == Ok::<ChainTipModel, EntryError>(tip),
{
    let p = tip.to_proto();
    let h = stored_hlc(tip.hlc);
    let s1 = wire::number_field(1, p.seq);
    let s2 = wire::bytes_field(2, p.hash);
    let s3 = message::message_field::<Hlc>(3, p.hlc);
    wire::lemma_fields_bytes_concat(s1, s2);
    wire::lemma_fields_bytes_concat(s1 + s2, s3);
    wire::lemma_number_field_len(1, p.seq);
    wire::lemma_fields_bytes_one(wire::item_field(2, p.hash));
    wire::lemma_fields_bytes_one(wire::item_field(3, message::encoded::<Hlc>(h)));
    wire::lemma_number_field_len(1, h.wall_time);
    wire::lemma_number_field_len(2, h.counter as u64);
    wire::lemma_fields_bytes_concat(
        wire::number_field(1, h.wall_time),
        wire::number_field(2, h.counter as u64),
    );
    wire::lemma_varint_len_max(18);
    wire::lemma_varint_len_max(26);
    wire::lemma_varint_len_max(p.hash.len());
    wire::lemma_varint_len_max(message::encoded::<Hlc>(h).len());
    proto::law_chain_tip_round_trip(p);
}

/// The entry behind a tip has the next number and names the tip's hash. Its timestamp is
/// later than the tip's and not earlier than the wall clock. Without a tip, it has the
/// number one, names no hash and has the time of the wall clock.
pub proof fn law_next_entry_follows_the_tip(tip: ChainTipModel, now_ms: u64)
    requires
        tip.seq < u64::MAX,
        tip.hlc != (HLC { wall_time: u64::MAX, counter: u32::MAX }),
    ensures
        ({
            let e = next_start(Some(tip), now_ms);
            &&& e.seq == tip.seq + 1
            &&& e.prev_hash == tip.hash
            &&& e.timestamp.wall_time >= now_ms
            &&& e.timestamp.wall_time > tip.hlc.wall_time || (e.timestamp.wall_time
                == tip.hlc.wall_time && e.timestamp.counter > tip.hlc.counter)
            &&& now_ms > tip.hlc.wall_time ==> e.timestamp.wall_time == now_ms
                && e.timestamp.counter == 0
            &&& e.ops.len() == 0 && e.parent_hashes.len() == 0
        }),
        ({
            let e = next_start(None, now_ms);
            &&& e.seq == 1
            &&& e.prev_hash == Seq::new(32, |i: int| 0u8)
            &&& e.timestamp.wall_time == now_ms
            &&& e.timestamp.counter == 0
            &&& e.ops.len() == 0 && e.parent_hashes.len() == 0
        }),
{
    assert(bytes::zeros(32) =~= Seq::new(32, |i: int| 0u8));
}

/// The tip that an entry makes has the entry's number, hash and timestamp.
pub proof fn law_tip_is_of_the_entry(e: SignedEntryModel)
    ensures
        e.tip().seq == e.entry.seq,
        e.tip().hash == crypto::blake3_hash(e.encoding()),
        e.tip().hlc.wall_time == e.entry.timestamp.wall_time,
        e.tip().hlc.counter == e.entry.timestamp.counter,
{
}

/// A signed entry is accepted only where its author's key accepts the signature of its
/// bytes; what is accepted then is what the bytes say.
pub proof fn law_accepted_entry_is_signed(p: proto::SignedEntryModel)
    ensures
        SignedEntryModel::from_proto(p) matches Ok(s) ==> {
            &&& p.author_id.len() == 32
            &&& p.signature.len() == 64
            &&& crypto::ed25519_accepts(p.author_id, p.entry_bytes, p.signature)
            &&& s.author_id == p.author_id
            &&& s.signature == p.signature
            &&& message::decoded::<proto::Entry>(p.entry_bytes) matches Some(e) && {
                &&& s.entry.version == e.version
                &&& s.entry.store_id == e.store_id
                &&& s.entry.seq == e.seq
                &&& s.entry.ops == e.ops
                &&& e.prev_hash.len() == 32 ==> s.entry.prev_hash == e.prev_hash
                &&& e.prev_hash.len() == 0 ==> s.entry.prev_hash == Seq::new(32, |i: int| 0u8)
                &&& e.prev_hash.len() == 0 || e.prev_hash.len() == 32
                &&& e.timestamp matches Some(t) && t.wall_time == s.entry.timestamp.wall_time
                    && t.counter == s.entry.timestamp.counter
            }
        },
        crypto::ed25519_accepts(p.author_id, p.entry_bytes, p.signature) && p.author_id.len() == 32
            && p.signature.len() == 64 ==> (message::decoded::<proto::Entry>(
            p.entry_bytes,
        ) matches Some(e) ==> ((e.prev_hash.len() == 0 || e.prev_hash.len() == 32) && e.timestamp
            is Some ==> SignedEntryModel::from_proto(p) is Ok)),
{
    assert(bytes::zeros(32) =~= Seq::new(32, |i: int| 0u8));
}

} // verus!
