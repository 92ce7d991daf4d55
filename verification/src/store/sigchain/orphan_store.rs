//! Entries that cannot be taken up yet: those whose predecessor in their
//! author's chain is missing, and those of which a parent is missing.
use crate::bytes;
use crate::bytes::{bytes_lt, to_array32, to_vec, Digest, PubKey};
use crate::clock::SystemClock;
use crate::crypto;
use crate::crypto::hash_bytes;
use crate::entry::{EntryError, SignedEntry, SignedEntryModel};
use crate::message;
use crate::message::DecodeError;
use crate::proto::storage as proto;
use crate::proto::storage::{
    DagOrphanedEntry, DagOrphanedEntryModel, OrphanedEntry, OrphanedEntryModel,
};
use crate::results;
use crate::sorting;
use crate::sorting::Ranked;
use crate::table;
use crate::table::ByteTable;
use crate::wire;
use vstd::prelude::*;
use vstd::string::*;

verus! {

// ---------------------------------------------------------------------------
// Keys
// ---------------------------------------------------------------------------

/// The key of an entry that waits for its predecessor. Keys of the same author
/// and predecessor stand side by side.
#[derive(Clone, Copy, Debug, PartialEq, Eq, PartialOrd, Ord)]
pub struct OrphanKey {
    pub author: PubKey,
    pub prev_hash: Digest,
    pub entry_hash: Digest,
}

/// The key of an entry that waits for a parent. Keys of the same parent stand
/// side by side.
#[derive(Clone, Copy, Debug, PartialEq, Eq, PartialOrd, Ord)]
pub struct DagOrphanKey {
    /// The parent that is missing.
    pub parent_hash: Digest,
    /// The hash of the key that the entry is about.
    pub key_hash: Digest,
    /// The hash of the entry.
    pub entry_hash: Digest,
}

/// Three hashes one behind the other.
pub open spec fn joined(a: Seq<u8>, b: Seq<u8>, c: Seq<u8>) -> Seq<u8> {
    a + b + c
}

/// A run of `n` bytes with all bits set.
pub open spec fn ones(n: nat) -> Seq<u8> {
    Seq::new(n, |i: int| 255u8)
}

/// Three hashes one behind the other.
fn join(a: &[u8; 32], b: &[u8; 32], c: &[u8; 32]) -> (r: [u8; 96])
    ensures
        r@ == joined(a@, b@, c@),
{
    let mut r: [u8; 96] = [0u8; 96];
    let mut i: usize = 0;
    while i < 32
        invariant
            i <= 32,
            forall|k: int| 0 <= k < i ==> r@[k] == a@[k],
            forall|k: int| 0 <= k < i ==> r@[32 + k] == b@[k],
            forall|k: int| 0 <= k < i ==> r@[64 + k] == c@[k],
        decreases 32 - i,
    {
        r[i] = a[i];
        r[32 + i] = b[i];
        r[64 + i] = c[i];
        i += 1;
    }
    assert forall|k: int| 0 <= k < 96 implies r@[k] == joined(a@, b@, c@)[k] by {
        if k >= 64 {
            assert(r@[64 + (k - 64)] == c@[k - 64]);
        } else if k >= 32 {
            assert(r@[32 + (k - 32)] == b@[k - 32]);
        }
    }
    assert(r@ =~= joined(a@, b@, c@));
    r
}

/// The 32 bytes of `b` from position `at` on.
fn part(b: &[u8], at: usize) -> (r: [u8; 32])
    requires
        at + 32 <= b@.len(),
    ensures
        r@ == b@.subrange(at as int, at + 32),
{
    let total: usize = b.len();
    assert(at + 32 <= total);
    to_array32(vstd::slice::slice_subrange(b, at, at + 32))
}

impl OrphanKey {
    /// The key of an entry.
    pub fn new(author: PubKey, prev_hash: Digest, entry_hash: Digest) -> (r: Self)
        ensures
            r.author == author,
            r.prev_hash == prev_hash,
            r.entry_hash == entry_hash,
    {
        OrphanKey { author, prev_hash, entry_hash }
    }

    /// The key's 96 bytes.
    pub open spec fn spec_bytes(self) -> Seq<u8> {
        joined(self.author@, self.prev_hash@, self.entry_hash@)
    }

    /// The key's 96 bytes.
    pub fn as_bytes(&self) -> (r: [u8; 96])
        ensures
            r@ == self.spec_bytes(),
    {
        join(&self.author, &self.prev_hash, &self.entry_hash)
    }

    /// The key that 96 bytes stand for.
    pub fn from_bytes(b: &[u8]) -> (r: Option<Self>)
        ensures
            match r {
                Some(k) => b@.len() == 96 && k.author@ == b@.subrange(0, 32) && k.prev_hash@
                    == b@.subrange(32, 64) && k.entry_hash@ == b@.subrange(64, 96),
                None => b@.len() != 96,
            },
            r matches Some(k) ==> k.spec_bytes() == b@,
    {
        if b.len() != 96 {
            return None;
        }
        let k = OrphanKey { author: part(b, 0), prev_hash: part(b, 32), entry_hash: part(b, 64) };
        assert(k.spec_bytes() =~= b@);
        Some(k)
    }

    /// The first key of an author and a predecessor.
    pub fn range_start(author: PubKey, prev_hash: Digest) -> (r: Self)
        ensures
            r.author == author,
            r.prev_hash == prev_hash,
            r.entry_hash@ == bytes::zeros(32),
    {
        let r = OrphanKey { author, prev_hash, entry_hash: [0u8; 32] };
        assert(r.entry_hash@ =~= bytes::zeros(32));
        r
    }

    /// The last key of an author and a predecessor.
    pub fn range_end(author: PubKey, prev_hash: Digest) -> (r: Self)
        ensures
            r.author == author,
            r.prev_hash == prev_hash,
            r.entry_hash@ == ones(32),
    {
        let r = OrphanKey { author, prev_hash, entry_hash: [255u8; 32] };
        assert(r.entry_hash@ =~= ones(32));
        r
    }
}

impl DagOrphanKey {
    /// The key of an entry.
    pub fn new(key_hash: Digest, parent_hash: Digest, entry_hash: Digest) -> (r: Self)
        ensures
            r.key_hash == key_hash,
            r.parent_hash == parent_hash,
            r.entry_hash == entry_hash,
    {
        DagOrphanKey { parent_hash, key_hash, entry_hash }
    }

    /// The key's 96 bytes.
    pub open spec fn spec_bytes(self) -> Seq<u8> {
        joined(self.parent_hash@, self.key_hash@, self.entry_hash@)
    }

    /// The key's 96 bytes.
    pub fn as_bytes(&self) -> (r: [u8; 96])
        ensures
            r@ == self.spec_bytes(),
    {
        join(&self.parent_hash, &self.key_hash, &self.entry_hash)
    }

    /// The key that 96 bytes stand for.
    pub fn from_bytes(b: &[u8]) -> (r: Option<Self>)
        ensures
            match r {
                Some(k) => b@.len() == 96 && k.parent_hash@ == b@.subrange(0, 32) && k.key_hash@
                    == b@.subrange(32, 64) && k.entry_hash@ == b@.subrange(64, 96),
                None => b@.len() != 96,
            },
            r matches Some(k) ==> k.spec_bytes() == b@,
    {
        if b.len() != 96 {
            return None;
        }
        let k = DagOrphanKey {
            parent_hash: part(b, 0),
            key_hash: part(b, 32),
            entry_hash: part(b, 64),
        };
        assert(k.spec_bytes() =~= b@);
        Some(k)
    }

    /// The first key of a parent.
    pub fn range_start_by_parent(parent_hash: Digest) -> (r: Self)
        ensures
            r.parent_hash == parent_hash,
            r.key_hash@ == bytes::zeros(32),
            r.entry_hash@ == bytes::zeros(32),
    {
        let r = DagOrphanKey { parent_hash, key_hash: [0u8; 32], entry_hash: [0u8; 32] };
        assert(r.key_hash@ =~= bytes::zeros(32));
        assert(r.entry_hash@ =~= bytes::zeros(32));
        r
    }

    /// The last key of a parent.
    pub fn range_end_by_parent(parent_hash: Digest) -> (r: Self)
        ensures
            r.parent_hash == parent_hash,
            r.key_hash@ == ones(32),
            r.entry_hash@ == ones(32),
    {
        let r = DagOrphanKey { parent_hash, key_hash: [255u8; 32], entry_hash: [255u8; 32] };
        assert(r.key_hash@ =~= ones(32));
        assert(r.entry_hash@ =~= ones(32));
        r
    }
}

/// The keys that start with the given bytes, and no others of their length, lie
/// between those bytes followed by zeros and those bytes followed by ones.
pub proof fn law_range_is_prefix(p: Seq<u8>, k: Seq<u8>, n: nat)
    requires
        k.len() == p.len() + n,
    ensures
        table::in_range(k, p + bytes::zeros(n), p + ones(n)) <==> k.take(p.len() as int) == p,
{
    let lo = p + bytes::zeros(n);
    let hi = p + ones(n);
    let m = p.len() as int;
    if k.take(m) == p {
        assert forall|i: int| 0 <= i < m implies k[i] == p[i] by {
            assert(k.take(m)[i] == k[i]);
        }
        bytes::lemma_lex_at(k, lo, m);
        bytes::lemma_lex_at(hi, k, m);
        assert(lo.skip(m) =~= bytes::zeros(n));
        assert(hi.skip(m) =~= ones(n));
        lemma_zeros_least(k.skip(m));
        lemma_ones_greatest(k.skip(m));
    } else {
        assert(p.take(m) =~= p);
        lemma_first_difference(k, p, m);
        let i = choose|i: int|
            0 <= i < m && k[i] != p[i] && forall|j: int| 0 <= j < i ==> k[j] == p[j];
        bytes::lemma_lex_at(k, lo, i);
        bytes::lemma_lex_at(hi, k, i);
        assert(k.skip(i)[0] == k[i]);
        assert(lo.skip(i)[0] == p[i]);
        assert(hi.skip(i)[0] == p[i]);
    }
}

proof fn lemma_zeros_least(s: Seq<u8>)
    ensures
        !bytes::lex_lt(s, bytes::zeros(s.len())),
    decreases s.len(),
{
    let z = bytes::zeros(s.len());
    if s.len() > 0 {
        lemma_zeros_least(s.drop_first());
        assert(z.drop_first() =~= bytes::zeros(s.drop_first().len()));
    }
}

proof fn lemma_ones_greatest(s: Seq<u8>)
    ensures
        !bytes::lex_lt(ones(s.len()), s),
    decreases s.len(),
{
    let z = ones(s.len());
    if s.len() > 0 {
        lemma_ones_greatest(s.drop_first());
        assert(z.drop_first() =~= ones(s.drop_first().len()));
    }
}

proof fn lemma_first_difference(k: Seq<u8>, p: Seq<u8>, m: int)
    requires
        0 <= m <= p.len(),
        m <= k.len(),
        k.take(m) != p.take(m),
    ensures
        exists|i: int| 0 <= i < m && k[i] != p[i] && forall|j: int| 0 <= j < i ==> k[j] == p[j],
    decreases m,
{
    if m == 0 {
        assert(k.take(0) =~= p.take(0));
    } else if k.take(m - 1) != p.take(m - 1) {
        lemma_first_difference(k, p, m - 1);
    } else {
        assert forall|j: int| 0 <= j < m - 1 implies k[j] == p[j] by {
            assert(k.take(m - 1)[j] == p.take(m - 1)[j]);
        }
        if k[m - 1] == p[m - 1] {
            assert(k.take(m) =~= p.take(m));
        }
    }
}

// ---------------------------------------------------------------------------
// Records
// ---------------------------------------------------------------------------

/// Why waiting entries cannot be read.
#[derive(Clone, Copy, Debug, PartialEq, Eq, Structural)]
pub enum OrphanStoreError {
    /// A value is not a message.
    Decode(DecodeError),
    /// A value holds no entry.
    MissingEntry,
    /// The entry of a value is not acceptable.
    InvalidEntry(EntryError),
    /// A key is not 96 bytes long.
    InvalidKey,
}

impl OrphanStoreError {
    /// The text of the error.
    pub open spec fn text(self) -> Seq<char> {
        match self {
            OrphanStoreError::Decode(e) => "Decode error: "@ + e.text(),
            OrphanStoreError::MissingEntry =>
                "Decode error: failed to decode Protobuf message: Missing entry"@,
            OrphanStoreError::InvalidEntry(e) =>
                "Decode error: failed to decode Protobuf message: "@ + e.text(),
            OrphanStoreError::InvalidKey =>
                "Decode error: failed to decode Protobuf message: Invalid key"@,
        }
    }

    /// The text of the error.
    pub fn to_string(&self) -> (r: String)
        ensures
            r@ == self.text(),
    {
        match self {
            OrphanStoreError::Decode(e) => "Decode error: ".to_owned().concat(
                e.to_string().as_str(),
            ),
            OrphanStoreError::MissingEntry =>
                "Decode error: failed to decode Protobuf message: Missing entry".to_owned(),
            OrphanStoreError::InvalidEntry(e) =>
                "Decode error: failed to decode Protobuf message: ".to_owned().concat(
                e.to_string().as_str(),
            ),
            OrphanStoreError::InvalidKey =>
                "Decode error: failed to decode Protobuf message: Invalid key".to_owned(),
        }
    }
}

/// A gap in an author's chain.
#[derive(Clone, Copy, Debug, PartialEq, Eq)]
pub struct GapInfo {
    /// The author whose chain has the gap.
    pub author: PubKey,
    /// The first sequence number that is missing.
    pub from_seq: u64,
    /// The sequence number of the entry that waits.
    pub to_seq: u64,
    /// The hash of the last entry before the gap.
    pub last_known_hash: Option<Digest>,
}

/// An entry that waits for its predecessor.
#[derive(Clone, Copy, Debug, PartialEq, Eq)]
pub struct OrphanInfo {
    /// The entry's author.
    pub author: PubKey,
    /// The entry's sequence number.
    pub seq: u64,
    /// The hash that the entry waits for.
    pub prev_hash: Digest,
    /// The hash of the entry.
    pub entry_hash: Digest,
    /// When the entry was received, in seconds since the Unix epoch.
    pub received_at: u64,
}

/// The model of [`OrphanInfo`].
pub struct OrphanInfoModel {
    pub author: Seq<u8>,
    pub seq: u64,
    pub prev_hash: Seq<u8>,
    pub entry_hash: Seq<u8>,
    pub received_at: u64,
}

impl View for OrphanInfo {
    type V = OrphanInfoModel;

    open spec fn view(&self) -> OrphanInfoModel {
        OrphanInfoModel {
            author: self.author@,
            seq: self.seq,
            prev_hash: self.prev_hash@,
            entry_hash: self.entry_hash@,
            received_at: self.received_at,
        }
    }
}

impl Ranked for OrphanInfo {
    /// Waiting entries are listed by their authors, and those of one author by
    /// their sequence numbers.
    open spec fn precedes(a: OrphanInfoModel, b: OrphanInfoModel) -> bool {
        bytes::lex_lt(a.author, b.author) || (a.author == b.author && a.seq < b.seq)
    }

    proof fn lemma_order(a: OrphanInfoModel, b: OrphanInfoModel, c: OrphanInfoModel) {
        bytes::lemma_lex_irreflexive(a.author);
        bytes::lemma_lex_total(a.author, b.author);
        bytes::lemma_lex_total(b.author, c.author);
        if bytes::lex_lt(a.author, b.author) && bytes::lex_lt(b.author, a.author) {
            bytes::lemma_lex_transitive(a.author, b.author, a.author);
        }
        if bytes::lex_lt(a.author, b.author) && bytes::lex_lt(b.author, c.author) {
            bytes::lemma_lex_transitive(a.author, b.author, c.author);
        }
        if bytes::lex_lt(b.author, a.author) && bytes::lex_lt(a.author, c.author) {
            bytes::lemma_lex_transitive(b.author, a.author, c.author);
        }
    }

    fn ranks_before(&self, other: &OrphanInfo) -> (r: bool) {
        proof {
            bytes::lemma_lex_total(self.author@, other.author@);
        }
        if bytes_lt(self.author.as_slice(), other.author.as_slice()) {
            true
        } else if bytes_lt(other.author.as_slice(), self.author.as_slice()) {
            proof {
                bytes::lemma_lex_irreflexive(self.author@);
            }
            false
        } else {
            self.seq < other.seq
        }
    }
}

/// What is stored of an entry that waits for its predecessor.
pub open spec fn orphan_value(seq: u64, e: SignedEntryModel, received_at: u64) -> Seq<u8> {
    message::encoded::<OrphanedEntry>(
        OrphanedEntryModel { seq, entry: Some(e.to_proto()), received_at },
    )
}

/// What is stored of an entry that waits for a parent.
pub open spec fn dag_orphan_value(key: Seq<u8>, e: SignedEntryModel) -> Seq<u8> {
    message::encoded::<DagOrphanedEntry>(DagOrphanedEntryModel { key, entry: Some(e.to_proto()) })
}

/// The waiting entry that is stored under a key: its sequence number, the entry
/// and its hash.
pub open spec fn orphan_at(m: Map<Seq<u8>, Seq<u8>>, k: Seq<u8>) -> Result<
    (u64, SignedEntryModel, Seq<u8>),
    OrphanStoreError,
> {
    match message::decoded::<OrphanedEntry>(m[k]) {
        None => Err(OrphanStoreError::Decode(message::decode_error::<OrphanedEntry>(m[k]))),
        Some(o) => match o.entry {
            None => Err(OrphanStoreError::MissingEntry),
            Some(p) => match SignedEntryModel::from_proto(p) {
                Err(e) => Err(OrphanStoreError::InvalidEntry(e)),
                Ok(e) => if k.len() != 96 {
                    Err(OrphanStoreError::InvalidKey)
                } else {
                    Ok((o.seq, e, k.subrange(64, 96)))
                },
            },
        },
    }
}

/// What is listed of the waiting entry that is stored under a key.
pub open spec fn orphan_info_at(m: Map<Seq<u8>, Seq<u8>>, k: Seq<u8>) -> Result<
    OrphanInfoModel,
    OrphanStoreError,
> {
    if k.len() != 96 {
        Err(OrphanStoreError::InvalidKey)
    } else {
        match message::decoded::<OrphanedEntry>(m[k]) {
            None => Err(OrphanStoreError::Decode(message::decode_error::<OrphanedEntry>(m[k]))),
            Some(o) => Ok(
                OrphanInfoModel {
                    author: k.subrange(0, 32),
                    seq: o.seq,
                    prev_hash: k.subrange(32, 64),
                    entry_hash: k.subrange(64, 96),
                    received_at: o.received_at,
                },
            ),
        }
    }
}

/// The entry waiting for a parent that is stored under a key: the key that it is
/// about, the entry and its hash.
pub open spec fn dag_orphan_at(m: Map<Seq<u8>, Seq<u8>>, k: Seq<u8>) -> Result<
    (Seq<u8>, SignedEntryModel, Seq<u8>),
    OrphanStoreError,
> {
    if k.len() != 96 {
        Err(OrphanStoreError::InvalidKey)
    } else {
        match message::decoded::<DagOrphanedEntry>(m[k]) {
            None => Err(OrphanStoreError::Decode(message::decode_error::<DagOrphanedEntry>(m[k]))),
            Some(o) => match o.entry {
                None => Err(OrphanStoreError::MissingEntry),
                Some(p) => match SignedEntryModel::from_proto(p) {
                    Err(e) => Err(OrphanStoreError::InvalidEntry(e)),
                    Ok(e) => Ok((o.key, e, k.subrange(64, 96))),
                },
            },
        }
    }
}

/// The model of an [`OrphanStore`].
#[verifier::ext_equal]
pub struct OrphanModel {
    /// What waits for a predecessor.
    pub orphans: Map<Seq<u8>, Seq<u8>>,
    /// What waits for a parent.
    pub dag: Map<Seq<u8>, Seq<u8>>,
}

/// The entries under the given keys.
pub open spec fn orphans_under(m: Map<Seq<u8>, Seq<u8>>, keys: Seq<Seq<u8>>) -> Result<
    Seq<(u64, SignedEntryModel, Seq<u8>)>,
    OrphanStoreError,
> {
    results::all_ok(keys.map_values(|k: Seq<u8>| orphan_at(m, k)))
}

/// The entries waiting for a parent under the given keys.
pub open spec fn dag_orphans_under(m: Map<Seq<u8>, Seq<u8>>, keys: Seq<Seq<u8>>) -> Result<
    Seq<(Seq<u8>, SignedEntryModel, Seq<u8>)>,
    OrphanStoreError,
> {
    results::all_ok(keys.map_values(|k: Seq<u8>| dag_orphan_at(m, k)))
}

/// What is listed of the entries under the given keys.
pub open spec fn infos_under(m: Map<Seq<u8>, Seq<u8>>, keys: Seq<Seq<u8>>) -> Result<
    Seq<OrphanInfoModel>,
    OrphanStoreError,
> {
    results::all_ok(keys.map_values(|k: Seq<u8>| orphan_info_at(m, k)))
}

/// The models of found entries.
pub open spec fn orphan_models(v: Seq<(u64, SignedEntry, Digest)>) -> Seq<
    (u64, SignedEntryModel, Seq<u8>),
> {
    v.map_values(|t: (u64, SignedEntry, Digest)| (t.0, t.1@, t.2@))
}

/// The models of found entries that wait for a parent.
pub open spec fn dag_orphan_models(v: Seq<(Vec<u8>, SignedEntry, Digest)>) -> Seq<
    (Seq<u8>, SignedEntryModel, Seq<u8>),
> {
    v.map_values(|t: (Vec<u8>, SignedEntry, Digest)| (t.0@, t.1@, t.2@))
}

/// A stored entry is read back, provided its signature holds.
pub proof fn law_orphan_is_read_back(
    m: Map<Seq<u8>, Seq<u8>>,
    k: Seq<u8>,
    seq: u64,
    e: SignedEntryModel,
    received_at: u64,
)
    requires
        m.dom().contains(k),
        k.len() == 96,
        m[k] == orphan_value(seq, e, received_at),
        e.wf(),
        e.verified(),
        m[k].len() <= u64::MAX,
    ensures
        orphan_at(m, k) == Ok::<(u64, SignedEntryModel, Seq<u8>), OrphanStoreError>(
            (seq, e, k.subrange(64, 96)),
        ),
{
    let o = OrphanedEntryModel { seq, entry: Some(e.to_proto()), received_at };
    proto::law_orphaned_entry_round_trip(o);
    let s1 = wire::number_field(1, seq);
    let s2 = message::message_field::<proto::SignedEntry>(2, o.entry);
    let s3 = wire::number_field(3, received_at);
    let fields = s1 + s2 + s3;
    assert(fields[s1.len() as int] == s2[0]);
    message::lemma_payload_within(fields, s1.len() as int);
    lemma_entry_bytes_within(e);
    crate::entry::law_signed_entry_accepted(e);
}

/// A stored entry that waits for a parent is read back, provided its signature
/// holds.
pub proof fn law_dag_orphan_is_read_back(
    m: Map<Seq<u8>, Seq<u8>>,
    k: Seq<u8>,
    key: Seq<u8>,
    e: SignedEntryModel,
)
    requires
        m.dom().contains(k),
        k.len() == 96,
        m[k] == dag_orphan_value(key, e),
        e.wf(),
        e.verified(),
        m[k].len() <= u64::MAX,
    ensures
        dag_orphan_at(m, k) == Ok::<(Seq<u8>, SignedEntryModel, Seq<u8>), OrphanStoreError>(
            (key, e, k.subrange(64, 96)),
        ),
{
    let o = DagOrphanedEntryModel { key, entry: Some(e.to_proto()) };
    proto::law_dag_orphaned_entry_round_trip(o);
    let s1 = wire::bytes_field(1, key);
    let s2 = message::message_field::<proto::SignedEntry>(2, o.entry);
    let fields = s1 + s2;
    assert(fields[s1.len() as int] == s2[0]);
    message::lemma_payload_within(fields, s1.len() as int);
    lemma_entry_bytes_within(e);
    crate::entry::law_signed_entry_accepted(e);
}

/// The signed bytes of an entry are no longer than the encoding of the signed
/// entry.
pub proof fn lemma_entry_bytes_within(e: SignedEntryModel)
    ensures
        e.entry.signed_bytes().len() <= e.encoding().len(),
{
    let p = e.to_proto();
    let s1 = wire::bytes_field(1, p.entry_bytes);
    let s2 = wire::bytes_field(2, p.signature);
    let s3 = wire::bytes_field(3, p.author_id);
    if p.entry_bytes.len() > 0 {
        assert((s1 + s2 + s3)[0] == s1[0]);
        message::lemma_payload_within(s1 + s2 + s3, 0);
    }
}

/// What waits for a predecessor is found by its author and that predecessor,
/// where all that waits for it can be read.
pub proof fn law_orphan_is_found(
    m: Map<Seq<u8>, Seq<u8>>,
    keys: Seq<Seq<u8>>,
    author: Seq<u8>,
    prev_hash: Seq<u8>,
    k: Seq<u8>,
)
    requires
        keys.contains(k),
        k.len() == 96,
        author.len() == 32,
        prev_hash.len() == 32,
        k.take(64) == author + prev_hash,
    ensures
        orphans_under(
            m,
            table::keys_between(
                keys,
                joined(author, prev_hash, bytes::zeros(32)),
                joined(author, prev_hash, ones(32)),
            ),
        ) matches Ok(found) ==> orphan_at(m, k) is Ok && found.contains(orphan_at(m, k)->Ok_0),
{
    let lo = joined(author, prev_hash, bytes::zeros(32));
    let hi = joined(author, prev_hash, ones(32));
    let keep = |x: Seq<u8>| table::in_range(x, lo, hi);
    law_range_is_prefix(author + prev_hash, k, 32);
    let ks = table::keys_between(keys, lo, hi);
    keys.lemma_filter_contains(keep, keys.index_of(k));
    assert(ks.contains(k));
    let i = ks.index_of(k);
    let items = ks.map_values(|x: Seq<u8>| orphan_at(m, x));
    assert(items[i] == orphan_at(m, k));
    results::lemma_all_ok(items);
    if let Ok(found) = results::all_ok(items) {
        assert(items[i] == Ok::<(u64, SignedEntryModel, Seq<u8>), OrphanStoreError>(found[i]));
    }
}

/// The entries of an author that wait for a predecessor.
pub open spec fn waiting_for(m: Map<Seq<u8>, Seq<u8>>, author: Seq<u8>, prev_hash: Seq<u8>) -> Result<
    Seq<(u64, SignedEntryModel, Seq<u8>)>,
    OrphanStoreError,
> {
    orphans_under(
        m,
        table::keys_between(
            table::sorted_keys(m.dom()),
            joined(author, prev_hash, bytes::zeros(32)),
            joined(author, prev_hash, ones(32)),
        ),
    )
}

/// Once a record has been deleted, a lookup by its author and predecessor gives what it
/// gave before, in the same order, without that entry. Lookups by another author or
/// predecessor give what they gave, and so does a lookup where there was no such record.
/// A record that was added and deleted again leaves no trace.
pub proof fn law_deleted_orphan_is_gone(
    m: Map<Seq<u8>, Seq<u8>>,
    author: Seq<u8>,
    prev_hash: Seq<u8>,
    entry_hash: Seq<u8>,
    value: Seq<u8>,
)
    requires
        table::lists(table::sorted_keys(m.dom()), m.dom()),
        author.len() == 32,
        prev_hash.len() == 32,
        entry_hash.len() == 32,
    ensures
        ({
            let k = joined(author, prev_hash, entry_hash);
            let after = m.remove(k);
            &&& waiting_for(m, author, prev_hash) matches Ok(found) ==> waiting_for(
                after,
                author,
                prev_hash,
            ) == Ok::<Seq<(u64, SignedEntryModel, Seq<u8>)>, OrphanStoreError>(
                found.filter(|t: (u64, SignedEntryModel, Seq<u8>)| t.2 != entry_hash),
            )
            &&& forall|a: Seq<u8>, p: Seq<u8>|
                a.len() == 32 && p.len() == 32 && (a != author || p != prev_hash)
                    ==> #[trigger] waiting_for(after, a, p) == waiting_for(m, a, p)
            &&& forall|x: Seq<u8>| x != k ==> after.dom().contains(x) == m.dom().contains(x)
                && #[trigger] after[x] == m[x]
            &&& !m.dom().contains(k) ==> after == m && m.insert(k, value).remove(k) == m
        }),
{
    let k = joined(author, prev_hash, entry_hash);
    let after = m.remove(k);
    let keys = table::sorted_keys(m.dom());
    let others = |x: Seq<u8>| x != k;
    assert(after.dom() =~= m.dom().remove(k));
    table::lemma_sorted_without(m.dom(), k);
    assert forall|a: Seq<u8>, p: Seq<u8>|
        a.len() == 32 && p.len() == 32 && (a != author || p != prev_hash) implies
        #[trigger] waiting_for(after, a, p) == waiting_for(m, a, p) by {
        lemma_lookup_without(m, k, a, p);
        let lo = joined(a, p, bytes::zeros(32));
        let hi = joined(a, p, ones(32));
        let ks = table::keys_between(keys, lo, hi);
        law_range_is_prefix(a + p, k, 32);
        assert(lo =~= (a + p) + bytes::zeros(32));
        assert(hi =~= (a + p) + ones(32));
        assert(!table::in_range(k, lo, hi)) by {
            assert(k.take(64) =~= author + prev_hash);
            assert((author + prev_hash).take(32) =~= author && (a + p).take(32) =~= a);
            assert((author + prev_hash).skip(32) =~= prev_hash && (a + p).skip(32) =~= p);
        }
        table::lemma_keep_all_but(keys, lo, hi, k);
    }
    if let Ok(found) = waiting_for(m, author, prev_hash) {
        lemma_lookup_without(m, k, author, prev_hash);
        let lo = joined(author, prev_hash, bytes::zeros(32));
        let hi = joined(author, prev_hash, ones(32));
        let inside = |x: Seq<u8>| table::in_range(x, lo, hi);
        let ks = table::keys_between(keys, lo, hi);
        let f = |x: Seq<u8>| orphan_at(m, x);
        let items = ks.map_values(f);
        let keep_value = |t: (u64, SignedEntryModel, Seq<u8>)| t.2 != entry_hash;
        results::lemma_all_ok(items);
        assert forall|i: int| 0 <= i < ks.len() implies others(#[trigger] ks[i]) == keep_value(
            f(ks[i])->Ok_0,
        ) by {
            let x = ks[i];
            assert(items[i] == f(x));
            assert(x.len() == 96);
            keys.lemma_filter_pred(inside, i);
            law_range_is_prefix(author + prev_hash, x, 32);
            assert(lo =~= (author + prev_hash) + bytes::zeros(32));
            assert(hi =~= (author + prev_hash) + ones(32));
            assert(x.take(64) == author + prev_hash);
            assert(k.subrange(64, 96) =~= entry_hash);
            if x.subrange(64, 96) == entry_hash {
                assert(x =~= x.take(64) + x.subrange(64, 96));
                assert(k =~= (author + prev_hash) + entry_hash);
            }
        }
        results::lemma_all_ok_filter(ks, f, others, keep_value);
    }
    if !m.dom().contains(k) {
        assert(after =~= m);
        assert(m.insert(k, value).remove(k) =~= m);
    }
}

/// A lookup after a record has been deleted looks at the other keys.
proof fn lemma_lookup_without(
    m: Map<Seq<u8>, Seq<u8>>,
    k: Seq<u8>,
    author: Seq<u8>,
    prev_hash: Seq<u8>,
)
    requires
        table::lists(table::sorted_keys(m.dom()), m.dom()),
    ensures
        ({
            let lo = joined(author, prev_hash, bytes::zeros(32));
            let hi = joined(author, prev_hash, ones(32));
            let ks = table::keys_between(table::sorted_keys(m.dom()), lo, hi);
            waiting_for(m.remove(k), author, prev_hash) == results::all_ok(
                ks.filter(|x: Seq<u8>| x != k).map_values(|x: Seq<u8>| orphan_at(m, x)),
            )
        }),
{
    let after = m.remove(k);
    let keys = table::sorted_keys(m.dom());
    let lo = joined(author, prev_hash, bytes::zeros(32));
    let hi = joined(author, prev_hash, ones(32));
    let inside = |x: Seq<u8>| table::in_range(x, lo, hi);
    let others = |x: Seq<u8>| x != k;
    assert(after.dom() =~= m.dom().remove(k));
    table::lemma_sorted_without(m.dom(), k);
    table::lemma_filters_commute(keys, others, inside);
    let ks = keys.filter(inside).filter(others);
    let a = ks.map_values(|x: Seq<u8>| orphan_at(after, x));
    let b = ks.map_values(|x: Seq<u8>| orphan_at(m, x));
    assert forall|i: int| 0 <= i < ks.len() implies a[i] == b[i] by {
        keys.filter(inside).lemma_filter_pred(others, i);
        assert(after[ks[i]] == m[ks[i]]);
    }
    assert(a =~= b);
}

// ---------------------------------------------------------------------------
// The store
// ---------------------------------------------------------------------------

/// The entries that wait, in two ordered tables.
pub struct OrphanStore {
    orphans: ByteTable,
    dag: ByteTable,
}

impl View for OrphanStore {
    type V = OrphanModel;

    closed spec fn view(&self) -> OrphanModel {
        OrphanModel { orphans: self.orphans@, dag: self.dag@ }
    }
}

impl OrphanStore {
    /// The tables are well formed.
    pub closed spec fn wf(&self) -> bool {
        self.orphans.wf() && self.dag.wf()
    }

    /// The keys of what waits for a predecessor, in ascending order.
    pub open spec fn keys(&self) -> Seq<Seq<u8>> {
        table::sorted_keys(self@.orphans.dom())
    }

    /// The keys of what waits for a parent, in ascending order.
    pub open spec fn dag_keys(&self) -> Seq<Seq<u8>> {
        table::sorted_keys(self@.dag.dom())
    }

    /// The tables list their keys in ascending order.
    proof fn lemma_keys(&self)
        requires
            self.wf(),
        ensures
            self.keys() == self.orphans.keys(),
            self.dag_keys() == self.dag.keys(),
    {
        self.orphans.lemma_keys();
        self.dag.lemma_keys();
    }

    /// What waits is finitely much, and has an order.
    pub proof fn lemma_listed(&self)
        requires
            self.wf(),
        ensures
            self@.orphans.dom().finite(),
            self@.dag.dom().finite(),
            table::lists(self.keys(), self@.orphans.dom()),
            table::lists(self.dag_keys(), self@.dag.dom()),
    {
        self.orphans.lemma_len();
        self.dag.lemma_len();
        self.orphans.lemma_keys();
        self.dag.lemma_keys();
    }

    /// A store in which nothing waits.
    pub fn open() -> (r: Self)
        ensures
            r.wf(),
            r@.orphans == Map::<Seq<u8>, Seq<u8>>::empty(),
            r@.dag == Map::<Seq<u8>, Seq<u8>>::empty(),
    {
        OrphanStore { orphans: ByteTable::new(), dag: ByteTable::new() }
    }

    /// The store with the given tables.
    pub fn from_tables(orphans: ByteTable, dag: ByteTable) -> (r: Self)
        requires
            orphans.wf(),
            dag.wf(),
        ensures
            r.wf(),
            r@.orphans == orphans@,
            r@.dag == dag@,
    {
        OrphanStore { orphans, dag }
    }

    /// The table of what waits for a predecessor.
    pub fn orphans_table(&self) -> (r: &ByteTable)
        requires
            self.wf(),
        ensures
            r.wf(),
            r@ == self@.orphans,
    {
        &self.orphans
    }

    /// The table of what waits for a parent.
    pub fn dag_table(&self) -> (r: &ByteTable)
        requires
            self.wf(),
        ensures
            r.wf(),
            r@ == self@.dag,
    {
        &self.dag
    }

    /// Keeps an entry, received at the given time, that waits for its
    /// predecessor: whether it was new. An entry that is kept already stays as
    /// it is.
    pub fn insert_at(
        &mut self,
        author: &PubKey,
        prev_hash: &Digest,
        entry_hash: &Digest,
        seq: u64,
        entry: &SignedEntry,
        received_at: u64,
    ) -> (r: bool)
        requires
            old(self).wf(),
        ensures
            final(self).wf(),
            r == !old(self)@.orphans.dom().contains(joined(author@, prev_hash@, entry_hash@)),
            final(self)@.dag == old(self)@.dag,
            final(self)@.orphans == if r {
                old(self)@.orphans.insert(
                    joined(author@, prev_hash@, entry_hash@),
                    orphan_value(seq, entry@, received_at),
                )
            } else {
                old(self)@.orphans
            },
    {
        let key = OrphanKey::new(*author, *prev_hash, *entry_hash).as_bytes();
        if self.orphans.contains(key.as_slice()) {
            return false;
        }
        let record = OrphanedEntry { seq, entry: Some(entry.to_proto()), received_at };
        self.orphans.insert(key.as_slice(), message::encode(&record));
        true
    }

    /// Keeps an entry, received now, that waits for its predecessor: whether it
    /// was new.
    pub fn insert(
        &mut self,
        author: &PubKey,
        prev_hash: &Digest,
        entry_hash: &Digest,
        seq: u64,
        entry: &SignedEntry,
    ) -> (r: bool)
        requires
            old(self).wf(),
        ensures
            final(self).wf(),
            r == !old(self)@.orphans.dom().contains(joined(author@, prev_hash@, entry_hash@)),
            final(self)@.dag == old(self)@.dag,
            !r ==> final(self)@.orphans == old(self)@.orphans,
            r ==> exists|received_at: u64|
                final(self)@.orphans == old(self)@.orphans.insert(
                    joined(author@, prev_hash@, entry_hash@),
                    #[trigger] orphan_value(seq, entry@, received_at),
                ),
    {
        let now: u64 = SystemClock.now_secs();
        self.insert_at(author, prev_hash, entry_hash, seq, entry, now)
    }

    /// The entries of an author that wait for the given predecessor: their
    /// sequence numbers, the entries and their hashes.
    pub fn find_by_prev_hash(&self, author: &PubKey, prev_hash: &Digest) -> (r: Result<
        Vec<(u64, SignedEntry, Digest)>,
        OrphanStoreError,
    >)
        requires
            self.wf(),
        ensures
            match waiting_for(self@.orphans, author@, prev_hash@) {
                Ok(found) => r matches Ok(v) && orphan_models(v@) == found,
                Err(e) => r == Err::<Vec<(u64, SignedEntry, Digest)>, OrphanStoreError>(e),
            },
    {
        proof {
            self.lemma_keys();
        }
        let start = OrphanKey::range_start(*author, *prev_hash).as_bytes();
        let end = OrphanKey::range_end(*author, *prev_hash).as_bytes();
        let (from, to) = self.orphans.range(start.as_slice(), end.as_slice());
        let ghost ks = self.orphans.keys().subrange(from as int, to as int);
        let ghost m = self@.orphans;
        let ghost items = ks.map_values(|k: Seq<u8>| orphan_at(m, k));
        let mut out: Vec<(u64, SignedEntry, Digest)> = Vec::new();
        let mut i: usize = from;
        proof {
            assert(items.take(0) =~= Seq::empty());
            assert(orphan_models(out@) =~= Seq::empty());
        }
        while i < to
            invariant
                self.wf(),
                from <= i <= to <= self.orphans.keys().len(),
                ks == self.orphans.keys().subrange(from as int, to as int),
                ks == table::keys_between(
                    self.keys(),
                    joined(author@, prev_hash@, bytes::zeros(32)),
                    joined(author@, prev_hash@, ones(32)),
                ),
                m == self@.orphans,
                items == ks.map_values(|k: Seq<u8>| orphan_at(m, k)),
                results::all_ok(items.take(i - from)) == Ok::<
                    Seq<(u64, SignedEntryModel, Seq<u8>)>,
                    OrphanStoreError,
                >(orphan_models(out@)),
            decreases to - i,
        {
            let ghost before = out@;
            let found = read_orphan(
                self.orphans.key_at(i).as_slice(),
                self.orphans.value_at(i).as_slice(),
                Ghost(m),
            );
            proof {
                assert(items[i - from] == orphan_at(m, ks[i - from]));
                results::lemma_next(items, i - from);
            }
            match found {
                Ok(t) => {
                    let ghost x = (t.0, t.1@, t.2@);
                    out.push(t);
                    assert(orphan_models(out@) =~= orphan_models(before).push(x));
                },
                Err(e) => {
                    proof {
                        results::lemma_error_stays(items, i - from + 1);
                    }
                    return Err(e);
                },
            }
            i += 1;
        }
        assert(items.take(i - from) =~= items);
        Ok(out)
    }

    /// Drops an entry that waited for its predecessor.
    pub fn delete(&mut self, author: &PubKey, prev_hash: &Digest, entry_hash: &Digest)
        requires
            old(self).wf(),
        ensures
            final(self).wf(),
            final(self)@.orphans == old(self)@.orphans.remove(
                joined(author@, prev_hash@, entry_hash@),
            ),
            final(self)@.dag == old(self)@.dag,
    {
        let key = OrphanKey::new(*author, *prev_hash, *entry_hash).as_bytes();
        let _ = self.orphans.remove(key.as_slice());
    }

    /// How many entries wait for their predecessors.
    pub fn count(&self) -> (r: usize)
        requires
            self.wf(),
        ensures
            self@.orphans.dom().finite(),
            r == self@.orphans.dom().len(),
    {
        proof {
            self.orphans.lemma_len();
        }
        self.orphans.len()
    }

    /// How many entries wait for a parent.
    pub fn count_dag_orphans(&self) -> (r: usize)
        requires
            self.wf(),
        ensures
            self@.dag.dom().finite(),
            r == self@.dag.dom().len(),
    {
        proof {
            self.dag.lemma_len();
        }
        self.dag.len()
    }

    /// All entries that wait for their predecessors, by author and sequence
    /// number.
    pub fn list_all(&self) -> (r: Result<Vec<OrphanInfo>, OrphanStoreError>)
        requires
            self.wf(),
        ensures
            match infos_under(self@.orphans, self.keys()) {
                Ok(infos) => r matches Ok(v) && message::models(v@) == sorting::sorted::<
                    OrphanInfo,
                >(infos),
                Err(e) => r == Err::<Vec<OrphanInfo>, OrphanStoreError>(e),
            },
    {
        proof {
            self.lemma_keys();
        }
        let ghost ks = self.orphans.keys();
        let ghost m = self@.orphans;
        let ghost items = ks.map_values(|k: Seq<u8>| orphan_info_at(m, k));
        let mut out: Vec<OrphanInfo> = Vec::new();
        let mut i: usize = 0;
        proof {
            assert(items.take(0) =~= Seq::empty());
            assert(message::models(out@) =~= Seq::empty());
        }
        while i < self.orphans.len()
            invariant
                self.wf(),
                i <= ks.len(),
                ks == self.orphans.keys(),
                ks == self.keys(),
                m == self@.orphans,
                items == ks.map_values(|k: Seq<u8>| orphan_info_at(m, k)),
                results::all_ok(items.take(i as int)) == Ok::<
                    Seq<OrphanInfoModel>,
                    OrphanStoreError,
                >(message::models(out@)),
            decreases ks.len() - i,
        {
            let ghost before = out@;
            let found = read_info(
                self.orphans.key_at(i).as_slice(),
                self.orphans.value_at(i).as_slice(),
                Ghost(m),
            );
            proof {
                assert(items[i as int] == orphan_info_at(m, ks[i as int]));
                results::lemma_next(items, i as int);
            }
            match found {
                Ok(info) => {
                    out.push(info);
                    assert(message::models(out@) =~= message::models(before).push(info@));
                },
                Err(e) => {
                    proof {
                        results::lemma_error_stays(items, i + 1);
                    }
                    return Err(e);
                },
            }
            i += 1;
        }
        assert(items.take(i as int) =~= items);
        Ok(sorting::sort(out))
    }

    /// Keeps an entry about `key` that waits for a parent: whether it was new. An
    /// entry that is kept already stays as it is.
    pub fn insert_dag_orphan(
        &mut self,
        key: &[u8],
        parent_hash: &Digest,
        entry_hash: &Digest,
        entry: &SignedEntry,
    ) -> (r: bool)
        requires
            old(self).wf(),
        ensures
            final(self).wf(),
            r == !old(self)@.dag.dom().contains(
                joined(parent_hash@, crypto::blake3_hash(key@), entry_hash@),
            ),
            final(self)@.orphans == old(self)@.orphans,
            final(self)@.dag == if r {
                old(self)@.dag.insert(
                    joined(parent_hash@, crypto::blake3_hash(key@), entry_hash@),
                    dag_orphan_value(key@, entry@),
                )
            } else {
                old(self)@.dag
            },
    {
        let dag_key = DagOrphanKey::new(hash_bytes(key), *parent_hash, *entry_hash).as_bytes();
        if self.dag.contains(dag_key.as_slice()) {
            return false;
        }
        let record = DagOrphanedEntry { key: to_vec(key), entry: Some(entry.to_proto()) };
        self.dag.insert(dag_key.as_slice(), message::encode(&record));
        true
    }

    /// The entries that wait for the given parent: the keys that they are about,
    /// the entries and their hashes.
    pub fn find_dag_orphans_by_parent(&self, parent_hash: &Digest) -> (r: Result<
        Vec<(Vec<u8>, SignedEntry, Digest)>,
        OrphanStoreError,
    >)
        requires
            self.wf(),
        ensures
            match dag_orphans_under(
                self@.dag,
                table::keys_between(
                    self.dag_keys(),
                    joined(parent_hash@, bytes::zeros(32), bytes::zeros(32)),
                    joined(parent_hash@, ones(32), ones(32)),
                ),
            ) {
                Ok(found) => r matches Ok(v) && dag_orphan_models(v@) == found,
                Err(e) => r == Err::<Vec<(Vec<u8>, SignedEntry, Digest)>, OrphanStoreError>(e),
            },
    {
        proof {
            self.lemma_keys();
        }
        let start = DagOrphanKey::range_start_by_parent(*parent_hash).as_bytes();
        let end = DagOrphanKey::range_end_by_parent(*parent_hash).as_bytes();
        let (from, to) = self.dag.range(start.as_slice(), end.as_slice());
        let ghost ks = self.dag.keys().subrange(from as int, to as int);
        let ghost m = self@.dag;
        let ghost items = ks.map_values(|k: Seq<u8>| dag_orphan_at(m, k));
        let mut out: Vec<(Vec<u8>, SignedEntry, Digest)> = Vec::new();
        let mut i: usize = from;
        proof {
            assert(items.take(0) =~= Seq::empty());
            assert(dag_orphan_models(out@) =~= Seq::empty());
        }
        while i < to
            invariant
                self.wf(),
                from <= i <= to <= self.dag.keys().len(),
                ks == self.dag.keys().subrange(from as int, to as int),
                ks == table::keys_between(
                    self.dag_keys(),
                    joined(parent_hash@, bytes::zeros(32), bytes::zeros(32)),
                    joined(parent_hash@, ones(32), ones(32)),
                ),
                m == self@.dag,
                items == ks.map_values(|k: Seq<u8>| dag_orphan_at(m, k)),
                results::all_ok(items.take(i - from)) == Ok::<
                    Seq<(Seq<u8>, SignedEntryModel, Seq<u8>)>,
                    OrphanStoreError,
                >(dag_orphan_models(out@)),
            decreases to - i,
        {
            let ghost before = out@;
            let found = read_dag_orphan(
                self.dag.key_at(i).as_slice(),
                self.dag.value_at(i).as_slice(),
                Ghost(m),
            );
            proof {
                assert(items[i - from] == dag_orphan_at(m, ks[i - from]));
                results::lemma_next(items, i - from);
            }
            match found {
                Ok(t) => {
                    let ghost x = (t.0@, t.1@, t.2@);
                    out.push(t);
                    assert(dag_orphan_models(out@) =~= dag_orphan_models(before).push(x));
                },
                Err(e) => {
                    proof {
                        results::lemma_error_stays(items, i - from + 1);
                    }
                    return Err(e);
                },
            }
            i += 1;
        }
        assert(items.take(i - from) =~= items);
        Ok(out)
    }

    /// Drops an entry about `key` that waited for a parent.
    pub fn delete_dag_orphan(&mut self, key: &[u8], parent_hash: &Digest, entry_hash: &Digest)
        requires
            old(self).wf(),
        ensures
            final(self).wf(),
            final(self)@.dag == old(self)@.dag.remove(
                joined(parent_hash@, crypto::blake3_hash(key@), entry_hash@),
            ),
            final(self)@.orphans == old(self)@.orphans,
    {
        let dag_key = DagOrphanKey::new(hash_bytes(key), *parent_hash, *entry_hash).as_bytes();
        let _ = self.dag.remove(dag_key.as_slice());
    }
}

/// Reads the waiting entry of one row.
fn read_orphan(key: &[u8], value: &[u8], Ghost(m): Ghost<Map<Seq<u8>, Seq<u8>>>) -> (r: Result<
    (u64, SignedEntry, Digest),
    OrphanStoreError,
>)
    requires
        m[key@] == value@,
    ensures
        match orphan_at(m, key@) {
            Ok(x) => r matches Ok(t) && x == (t.0, t.1@, t.2@),
            Err(e) => r == Err::<(u64, SignedEntry, Digest), OrphanStoreError>(e),
        },
{
    let orphaned = match message::decode::<OrphanedEntry>(value) {
        Ok(o) => o,
        Err(e) => {
            return Err(OrphanStoreError::Decode(e));
        },
    };
    let p = match &orphaned.entry {
        Some(p) => p,
        None => {
            return Err(OrphanStoreError::MissingEntry);
        },
    };
    let signed = match SignedEntry::from_proto(p) {
        Ok(s) => s,
        Err(e) => {
            return Err(OrphanStoreError::InvalidEntry(e));
        },
    };
    match OrphanKey::from_bytes(key) {
        Some(k) => Ok((orphaned.seq, signed, k.entry_hash)),
        None => Err(OrphanStoreError::InvalidKey),
    }
}

/// Reads what is listed of one row.
fn read_info(key: &[u8], value: &[u8], Ghost(m): Ghost<Map<Seq<u8>, Seq<u8>>>) -> (r: Result<
    OrphanInfo,
    OrphanStoreError,
>)
    requires
        m[key@] == value@,
    ensures
        match orphan_info_at(m, key@) {
            Ok(x) => r matches Ok(t) && x == t@,
            Err(e) => r == Err::<OrphanInfo, OrphanStoreError>(e),
        },
{
    let k = match OrphanKey::from_bytes(key) {
        Some(k) => k,
        None => {
            return Err(OrphanStoreError::InvalidKey);
        },
    };
    match message::decode::<OrphanedEntry>(value) {
        Ok(o) => Ok(
            OrphanInfo {
                author: k.author,
                seq: o.seq,
                prev_hash: k.prev_hash,
                entry_hash: k.entry_hash,
                received_at: o.received_at,
            },
        ),
        Err(e) => Err(OrphanStoreError::Decode(e)),
    }
}

/// Reads the entry waiting for a parent of one row.
fn read_dag_orphan(key: &[u8], value: &[u8], Ghost(m): Ghost<Map<Seq<u8>, Seq<u8>>>) -> (r: Result<
    (Vec<u8>, SignedEntry, Digest),
    OrphanStoreError,
>)
    requires
        m[key@] == value@,
    ensures
        match dag_orphan_at(m, key@) {
            Ok(x) => r matches Ok(t) && x == (t.0@, t.1@, t.2@),
            Err(e) => r == Err::<(Vec<u8>, SignedEntry, Digest), OrphanStoreError>(e),
        },
{
    let k = match DagOrphanKey::from_bytes(key) {
        Some(k) => k,
        None => {
            return Err(OrphanStoreError::InvalidKey);
        },
    };
    let orphaned = match message::decode::<DagOrphanedEntry>(value) {
        Ok(o) => o,
        Err(e) => {
            return Err(OrphanStoreError::Decode(e));
        },
    };
    let p = match &orphaned.entry {
        Some(p) => p,
        None => {
            return Err(OrphanStoreError::MissingEntry);
        },
    };
    match SignedEntry::from_proto(p) {
        Ok(s) => Ok((orphaned.key, s, k.entry_hash)),
        Err(e) => Err(OrphanStoreError::InvalidEntry(e)),
    }
}

/// What is found by an author and a predecessor is exactly what is filed under a name of
/// full length that starts with the two.
pub proof fn law_lookup_is_by_author_and_predecessor(
    m: Map<Seq<u8>, Seq<u8>>,
    author: Seq<u8>,
    prev_hash: Seq<u8>,
    t: (u64, SignedEntryModel, Seq<u8>),
)
    requires
        table::lists(table::sorted_keys(m.dom()), m.dom()),
        author.len() == 32,
        prev_hash.len() == 32,
    ensures
        waiting_for(m, author, prev_hash) matches Ok(found) ==> (found.contains(t) <==> exists|
            k: Seq<u8>,
        | #[trigger]
            m.dom().contains(k) && k.len() == 96 && k.take(64) == author + prev_hash && orphan_at(
                m,
                k,
            ) == Ok::<(u64, SignedEntryModel, Seq<u8>), OrphanStoreError>(t)),
{
    let keys = table::sorted_keys(m.dom());
    let lo = joined(author, prev_hash, bytes::zeros(32));
    let hi = joined(author, prev_hash, ones(32));
    let keep = |x: Seq<u8>| table::in_range(x, lo, hi);
    let ks = table::keys_between(keys, lo, hi);
    let items = ks.map_values(|x: Seq<u8>| orphan_at(m, x));
    results::lemma_all_ok(items);
    assert(lo =~= (author + prev_hash) + bytes::zeros(32));
    assert(hi =~= (author + prev_hash) + ones(32));
    if let Ok(found) = waiting_for(m, author, prev_hash) {
        if found.contains(t) {
            let i = found.index_of(t);
            assert(items[i] == Ok::<(u64, SignedEntryModel, Seq<u8>), OrphanStoreError>(found[i]));
            let k = ks[i];
            assert(items[i] == orphan_at(m, k));
            keys.lemma_filter_pred(keep, i);
            keys.lemma_filter_contains_rev(keep, k);
            law_range_is_prefix(author + prev_hash, k, 32);
            assert(m.dom().contains(k));
        }
        assert forall|k: Seq<u8>| #[trigger]
            m.dom().contains(k) && k.len() == 96 && k.take(64) == author + prev_hash && orphan_at(
                m,
                k,
            ) == Ok::<(u64, SignedEntryModel, Seq<u8>), OrphanStoreError>(t) implies found.contains(
            t,
        ) by {
            assert(keys.contains(k));
            law_orphan_is_found(m, keys, author, prev_hash, k);
        }
    }
}

/// What is listed of a record is the author, the predecessor and the hash from its name, and
/// the number and the time that it holds.
pub proof fn law_listed_as_filed(
    m: Map<Seq<u8>, Seq<u8>>,
    author: Seq<u8>,
    prev_hash: Seq<u8>,
    e: SignedEntryModel,
    seq: u64,
    received_at: u64,
)
    requires
        author.len() == 32,
        prev_hash.len() == 32,
        e.hash().len() == 32,
        m[author + prev_hash + e.hash()] == orphan_value(seq, e, received_at),
        orphan_value(seq, e, received_at).len() <= u64::MAX,
    ensures
        orphan_info_at(m, author + prev_hash + e.hash()) matches Ok(info) && info.author == author
            && info.prev_hash == prev_hash && info.entry_hash == e.hash() && info.seq == seq
            && info.received_at == received_at,
{
    let k = author + prev_hash + e.hash();
    proto::law_orphaned_entry_round_trip(
        OrphanedEntryModel { seq, entry: Some(e.to_proto()), received_at },
    );
    assert(k.subrange(0, 32) =~= author);
    assert(k.subrange(32, 64) =~= prev_hash);
    assert(k.subrange(64, 96) =~= e.hash());
}

/// Listed records come by author, and of one author by number.
pub proof fn law_listed_by_author_and_number(infos: Seq<OrphanInfoModel>)
    ensures
        ({
            let r = crate::sorting::sorted::<OrphanInfo>(infos);
            &&& r.to_multiset() == infos.to_multiset()
            &&& forall|i: int, j: int|
                0 <= i < j < r.len() && (#[trigger] r[i]).author == (#[trigger] r[j]).author
                    ==> r[i].seq <= r[j].seq
            &&& forall|i: int, j: int|
                0 <= i < j < r.len() && (#[trigger] r[i]).author != (#[trigger] r[j]).author
                    ==> bytes::lex_lt(r[i].author, r[j].author)
        }),
{
    crate::sorting::law_sorted::<OrphanInfo>(infos);
    let r = crate::sorting::sorted::<OrphanInfo>(infos);
    assert forall|i: int, j: int| 0 <= i < j < r.len() && (#[trigger] r[i]).author != (
    #[trigger] r[j]).author implies bytes::lex_lt(r[i].author, r[j].author) by {
        assert(!<OrphanInfo as crate::sorting::Ranked>::precedes(r[j], r[i]));
        bytes::lemma_lex_total(r[i].author, r[j].author);
    }
    assert forall|i: int, j: int| 0 <= i < j < r.len() && (#[trigger] r[i]).author == (
    #[trigger] r[j]).author implies r[i].seq <= r[j].seq by {
        assert(!<OrphanInfo as crate::sorting::Ranked>::precedes(r[j], r[i]));
    }
}

} // verus!
