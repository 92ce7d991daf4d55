//! Chains of entries in their encoded form, one chain per author, each with the log
//! that it is kept in.
use crate::bytes;
use crate::bytes::{bytes_eq, to_array16, to_array32, to_vec, Digest, PubKey, Uuid};
use crate::clock::{Clock, SystemClock};
use crate::crypto;
use crate::data_dir;
use crate::data_dir::join_path;
use crate::entry;
use crate::hlc::HLC;
use crate::message;
use crate::message::Message;
use crate::node_identity::NodeIdentity;
use crate::proto::storage::{EntryModel, Operation, OperationModel, SignedEntry, SignedEntryModel};
use crate::signed_entry;
use crate::signed_entry::{hash_signed_entry, verify_signed_entry, EntryBuilder};
use crate::store::sigchain::{ChainFault, SigChainError};
use crate::table::Table;
use crate::text;
use crate::text::{decimal, hex_encode};
use vstd::prelude::*;
use vstd::string::*;

verus! {

// ---------------------------------------------------------------------------
// Models
// ---------------------------------------------------------------------------

/// The model of a [`SigChain`].
#[verifier::ext_equal]
pub struct RawChainModel {
    /// The path of the log.
    pub path: Seq<u8>,
    /// The store.
    pub store_id: Seq<u8>,
    /// The author.
    pub author_id: Seq<u8>,
    /// The sequence number of the next entry.
    pub next_seq: u64,
    /// The hash of the last entry, zeros where there is none.
    pub last_hash: Seq<u8>,
    /// What the log holds.
    pub log: Seq<SignedEntryModel>,
}

/// A byte string that has to have a length; zeros for one that has another.
pub open spec fn sized(b: Seq<u8>, n: nat) -> Seq<u8> {
    if b.len() == n {
        b
    } else {
        bytes::zeros(n)
    }
}

/// The hash of a signed entry.
pub open spec fn raw_hash(s: SignedEntryModel) -> Seq<u8> {
    crypto::blake3_hash(message::encoded::<SignedEntry>(s))
}

/// A chain without entries.
pub open spec fn empty_chain(path: Seq<u8>, store_id: Seq<u8>, author_id: Seq<u8>) -> RawChainModel {
    RawChainModel {
        path,
        store_id,
        author_id,
        next_seq: 1,
        last_hash: bytes::zeros(32),
        log: Seq::empty(),
    }
}

/// Why an entry does not come next in a chain.
pub open spec fn raw_fault(c: RawChainModel, s: SignedEntryModel) -> Option<ChainFault> {
    match signed_entry::checked(s) {
        Err(_) => Some(ChainFault::InvalidSignature),
        Ok(e) => if s.author_id != c.author_id {
            Some(ChainFault::WrongAuthor(text::hex_text(c.author_id), text::hex_text(s.author_id)))
        } else if sized(e.store_id, 16) != c.store_id {
            Some(
                ChainFault::WrongStoreId(
                    text::hex_text(c.store_id),
                    text::hex_text(sized(e.store_id, 16)),
                ),
            )
        } else if e.seq != c.next_seq {
            Some(ChainFault::InvalidSequence(c.next_seq, e.seq))
        } else if sized(e.prev_hash, 32) != c.last_hash {
            Some(
                ChainFault::InvalidPrevHash(
                    text::hex_text(c.last_hash),
                    text::hex_text(sized(e.prev_hash, 32)),
                ),
            )
        } else {
            None
        },
    }
}

/// The chain with one more entry.
pub open spec fn extended(c: RawChainModel, s: SignedEntryModel) -> RawChainModel {
    RawChainModel {
        next_seq: (c.next_seq + 1) as u64,
        last_hash: raw_hash(s),
        log: c.log.push(s),
        ..c
    }
}

/// The chain that entries make on top of `c`, or the first fault.
pub open spec fn chained(c: RawChainModel, entries: Seq<SignedEntryModel>) -> Result<
    RawChainModel,
    ChainFault,
>
    decreases entries.len(),
{
    if entries.len() == 0 {
        Ok(c)
    } else {
        match chained(c, entries.drop_last()) {
            Err(f) => Err(f),
            Ok(d) => match raw_fault(d, entries.last()) {
                Some(f) => Err(f),
                None => Ok(extended(d, entries.last())),
            },
        }
    }
}

proof fn lemma_fault_stays(c: RawChainModel, entries: Seq<SignedEntryModel>, n: int)
    requires
        0 <= n <= entries.len(),
        chained(c, entries.take(n)) is Err,
    ensures
        chained(c, entries) == chained(c, entries.take(n)),
    decreases entries.len() - n,
{
    if n == entries.len() {
        assert(entries.take(n) =~= entries);
    } else {
        assert(entries.take(n + 1).drop_last() =~= entries.take(n));
        lemma_fault_stays(c, entries, n + 1);
    }
}

/// The entry that comes next in a chain, with the given operations, at the given
/// time of the wall clock.
pub open spec fn next_entry(c: RawChainModel, ops: Seq<OperationModel>, now_ms: u64) -> EntryModel {
    EntryModel {
        version: 1,
        store_id: c.store_id,
        prev_hash: c.last_hash,
        parent_hashes: Seq::empty(),
        seq: c.next_seq,
        timestamp: Some(entry::stored_hlc(HLC { wall_time: now_ms, counter: 0 })),
        ops,
    }
}

// ---------------------------------------------------------------------------
// Laws
// ---------------------------------------------------------------------------

/// A chain that was built entry by entry is read back from its log: the same
/// entries make the same chain.
pub proof fn law_chain_is_read_back(
    path: Seq<u8>,
    store_id: Seq<u8>,
    author_id: Seq<u8>,
    entries: Seq<SignedEntryModel>,
    s: SignedEntryModel,
)
    requires
        chained(empty_chain(path, store_id, author_id), entries) matches Ok(c) && raw_fault(
            c,
            s,
        ) is None,
    ensures
        chained(empty_chain(path, store_id, author_id), entries.push(s)) == Ok::<
            RawChainModel,
            ChainFault,
        >(extended(chained(empty_chain(path, store_id, author_id), entries)->Ok_0, s)),
{
    assert(entries.push(s).drop_last() =~= entries);
}

/// An entry that has been appended does not come next again.
pub proof fn law_no_entry_twice(c: RawChainModel, s: SignedEntryModel)
    requires
        raw_fault(c, s) is None,
        c.next_seq < u64::MAX,
    ensures
        raw_fault(extended(c, s), s) == Some(
            ChainFault::InvalidSequence((c.next_seq + 1) as u64, c.next_seq),
        ),
{
}

// ---------------------------------------------------------------------------
// The chain
// ---------------------------------------------------------------------------

/// The chain of one author in one store.
pub struct SigChain {
    log_path: Vec<u8>,
    store_id: Uuid,
    author_id: PubKey,
    next_seq: u64,
    last_hash: Digest,
    log: Vec<SignedEntry>,
}

impl View for SigChain {
    type V = RawChainModel;

    closed spec fn view(&self) -> RawChainModel {
        RawChainModel {
            path: self.log_path@,
            store_id: self.store_id@,
            author_id: self.author_id@,
            next_seq: self.next_seq,
            last_hash: self.last_hash@,
            log: message::models(self.log@),
        }
    }
}

impl SigChain {
    /// The number of the next entry is a number of an entry.
    pub open spec fn wf(&self) -> bool {
        self@.next_seq >= 1
    }

    /// A chain without entries.
    pub fn new(log_path: Vec<u8>, store_id: Uuid, author_id: PubKey) -> (r: Self)
        ensures
            r.wf(),
            r@ == empty_chain(log_path@, store_id@, author_id@),
    {
        let r = SigChain {
            log_path,
            store_id,
            author_id,
            next_seq: 1,
            last_hash: [0u8;32],
            log: Vec::new(),
        };
        proof {
            assert(r@.last_hash =~= bytes::zeros(32));
            assert(r@.log =~= Seq::empty());
        }
        r
    }

    /// The chain whose log holds the given entries, or the first fault.
    pub fn from_log(
        log_path: Vec<u8>,
        store_id: Uuid,
        author_id: PubKey,
        entries: &Vec<SignedEntry>,
    ) -> (r: Result<Self, SigChainError>)
        requires
            entries@.len() < u64::MAX,
        ensures
            match chained(
                empty_chain(log_path@, store_id@, author_id@),
                message::models(entries@),
            ) {
                Ok(c) => r matches Ok(x) && x.wf() && x@ == c,
                Err(f) => r matches Err(e) && e@ == f,
            },
    {
        let mut chain = SigChain::new(log_path, store_id, author_id);
        let ghost start = chain@;
        let ghost all = message::models(entries@);
        let mut i: usize = 0;
        assert(all.take(0) =~= Seq::empty());
        while i < entries.len()
            invariant
                entries@.len() < u64::MAX,
                i <= entries@.len(),
                all == message::models(entries@),
                start == empty_chain(log_path@, store_id@, author_id@),
                chain.next_seq == i + 1,
                chained(start, all.take(i as int)) == Ok::<RawChainModel, ChainFault>(chain@),
            decreases entries@.len() - i,
        {
            proof {
                assert(all.take(i + 1).drop_last() =~= all.take(i as int));
                assert(all.take(i + 1).last() == entries@[i as int]@);
            }
            match chain.validate(&entries[i]) {
                Ok(()) => {},
                Err(e) => {
                    proof {
                        lemma_fault_stays(start, all, i + 1);
                    }
                    return Err(e);
                },
            }
            chain.extend(&entries[i]);
            i += 1;
        }
        assert(all.take(i as int) =~= all);
        Ok(chain)
    }

    /// The author.
    pub fn author_id(&self) -> (r: &PubKey)
        ensures
            r@ == self@.author_id,
    {
        &self.author_id
    }

    /// The sequence number of the next entry.
    pub fn next_seq(&self) -> (r: u64)
        ensures
            r == self@.next_seq,
    {
        self.next_seq
    }

    /// The hash of the last entry, zeros where there is none.
    pub fn last_hash(&self) -> (r: &Digest)
        ensures
            r@ == self@.last_hash,
    {
        &self.last_hash
    }

    /// The path of the log.
    pub fn log_path(&self) -> (r: &[u8])
        ensures
            r@ == self@.path,
    {
        self.log_path.as_slice()
    }

    /// What the log holds.
    pub fn entries(&self) -> (r: &Vec<SignedEntry>)
        ensures
            message::models(r@) == self@.log,
    {
        &self.log
    }

    /// How many entries the chain has.
    pub fn len(&self) -> (r: u64)
        requires
            self.wf(),
        ensures
            r == self@.next_seq - 1,
    {
        self.next_seq - 1
    }

    /// Whether the chain has no entries.
    pub fn is_empty(&self) -> (r: bool)
        ensures
            r == (self@.next_seq == 1),
    {
        self.next_seq == 1
    }

    /// Checks that an entry comes next in the chain.
    pub fn validate(&self, signed_entry: &SignedEntry) -> (r: Result<(), SigChainError>)
        ensures
            match raw_fault(self@, signed_entry@) {
                None => r is Ok,
                Some(f) => r matches Err(e) && e@ == f,
            },
    {
        let entry = match verify_signed_entry(signed_entry) {
            Ok(entry) => entry,
            Err(_) => {
                return Err(SigChainError::InvalidSignature);
            },
        };
        if !bytes_eq(signed_entry.author_id.as_slice(), self.author_id.as_slice()) {
            return Err(
                SigChainError::WrongAuthor {
                    expected: hex_encode(self.author_id.as_slice()),
                    got: hex_encode(signed_entry.author_id.as_slice()),
                },
            );
        }
        let entry_store: Uuid = if entry.store_id.len() == 16 {
            to_array16(entry.store_id.as_slice())
        } else {
            [0u8;16]
        };
        assert(entry_store@ =~= sized(entry@.store_id, 16));
        if !bytes_eq(entry_store.as_slice(), self.store_id.as_slice()) {
            return Err(
                SigChainError::WrongStoreId {
                    expected: hex_encode(self.store_id.as_slice()),
                    got: hex_encode(entry_store.as_slice()),
                },
            );
        }
        if entry.seq != self.next_seq {
            return Err(
                SigChainError::InvalidSequence { expected: self.next_seq, got: entry.seq },
            );
        }
        let prev: Digest = if entry.prev_hash.len() == 32 {
            to_array32(entry.prev_hash.as_slice())
        } else {
            [0u8;32]
        };
        assert(prev@ =~= sized(entry@.prev_hash, 32));
        if !bytes_eq(prev.as_slice(), self.last_hash.as_slice()) {
            return Err(
                SigChainError::InvalidPrevHash {
                    expected: hex_encode(self.last_hash.as_slice()),
                    got: hex_encode(prev.as_slice()),
                },
            );
        }
        Ok(())
    }

    /// Takes in an entry that comes next.
    fn extend(&mut self, signed_entry: &SignedEntry)
        requires
            old(self).next_seq < u64::MAX,
        ensures
            final(self)@ == extended(old(self)@, signed_entry@),
            final(self).next_seq == old(self).next_seq + 1,
    {
        let ghost start = self@;
        let ghost before = self.log@;
        self.last_hash = hash_signed_entry(signed_entry);
        self.next_seq = self.next_seq + 1;
        self.log.push(signed_entry.duplicate());
        proof {
            assert(message::models(self.log@) =~= message::models(before).push(signed_entry@));
            assert(self@ =~= extended(start, signed_entry@));
        }
    }

    /// Appends an entry, provided it comes next.
    pub fn append(&mut self, signed_entry: &SignedEntry) -> (r: Result<(), SigChainError>)
        requires
            old(self)@.next_seq < u64::MAX,
        ensures
            match raw_fault(old(self)@, signed_entry@) {
                None => r is Ok && final(self)@ == extended(old(self)@, signed_entry@),
                Some(f) => {
                    &&& r matches Err(e) && e@ == f
                    &&& final(self)@ == old(self)@
                },
            },
    {
        match self.validate(signed_entry) {
            Ok(()) => {
                self.extend(signed_entry);
                Ok(())
            },
            Err(e) => Err(e),
        }
    }

    /// Appends a new entry with the given operations, signed by the node, at the
    /// given time of the wall clock.
    pub fn create_entry_at(&mut self, node: &NodeIdentity, ops: &Vec<Operation>, now_ms: u64) -> (r:
        Result<SignedEntry, SigChainError>)
        requires
            old(self)@.next_seq < u64::MAX,
        ensures
            ({
                let s = signed_entry::signed(
                    next_entry(old(self)@, message::models(ops@), now_ms),
                    node.secret(),
                );
                match raw_fault(old(self)@, s) {
                    None => {
                        &&& r matches Ok(x) && x@ == s
                        &&& final(self)@ == extended(old(self)@, s)
                    },
                    Some(f) => {
                        &&& r matches Err(e) && e@ == f
                        &&& final(self)@ == old(self)@
                    },
                }
            }),
    {
        let hlc = HLC { wall_time: now_ms, counter: 0 };
        let mut builder = EntryBuilder::new(self.next_seq, hlc).store_id(
            to_vec(self.store_id.as_slice()),
        ).prev_hash(to_vec(self.last_hash.as_slice()));
        let ghost all = message::models(ops@);
        let ghost start = self@;
        let mut i: usize = 0;
        assert(all.take(0) =~= Seq::empty());
        assert(builder@ == next_entry(start, all.take(0), now_ms));
        while i < ops.len()
            invariant
                i <= ops@.len(),
                all == message::models(ops@),
                builder@ == next_entry(start, all.take(i as int), now_ms),
            decreases ops@.len() - i,
        {
            builder = builder.operation(ops[i].duplicate());
            proof {
                assert(all.take(i + 1) =~= all.take(i as int).push(ops@[i as int]@));
                assert(builder@ =~= next_entry(start, all.take(i + 1), now_ms));
            }
            i += 1;
        }
        assert(all.take(i as int) =~= all);
        let signed = builder.sign(node);
        match self.append(&signed) {
            Ok(()) => Ok(signed),
            Err(e) => Err(e),
        }
    }

    /// Appends a new entry with the given operations, signed by the node, now.
    pub fn create_entry(&mut self, node: &NodeIdentity, ops: &Vec<Operation>) -> (r: Result<
        SignedEntry,
        SigChainError,
    >)
        requires
            old(self)@.next_seq < u64::MAX,
        ensures
            exists|now_ms: u64|
                {
                    let s = signed_entry::signed(
                        #[trigger] next_entry(old(self)@, message::models(ops@), now_ms),
                        node.secret(),
                    );
                    match raw_fault(old(self)@, s) {
                        None => {
                            &&& r matches Ok(x) && x@ == s
                            &&& final(self)@ == extended(old(self)@, s)
                        },
                        Some(f) => {
                            &&& r matches Err(e) && e@ == f
                            &&& final(self)@ == old(self)@
                        },
                    }
                },
    {
        let now_ms: u64 = SystemClock.now_ms();
        self.create_entry_at(node, ops, now_ms)
    }

    /// Writes an entry to the log as it is, without a look at the chain.
    fn record(&mut self, signed_entry: &SignedEntry)
        ensures
            final(self)@ == (RawChainModel {
                log: old(self)@.log.push(signed_entry@),
                ..old(self)@
            }),
    {
        let ghost start = self@;
        let ghost before = self.log@;
        self.log.push(signed_entry.duplicate());
        proof {
            assert(message::models(self.log@) =~= message::models(before).push(signed_entry@));
            assert(self@ =~= (RawChainModel { log: start.log.push(signed_entry@), ..start }));
        }
    }
}

// ---------------------------------------------------------------------------
// The manager
// ---------------------------------------------------------------------------

/// The model of a [`SigChainManager`].
#[verifier::ext_equal]
pub struct RawManagerModel {
    pub logs_dir: Seq<u8>,
    pub store_id: Seq<u8>,
    pub chains: Map<Seq<u8>, RawChainModel>,
}

/// The path of an author's log.
pub open spec fn raw_log_path(dir: Seq<u8>, author: Seq<u8>) -> Seq<u8> {
    data_dir::path_in(dir, text::hex_text(author) + ".log"@)
}

/// The chain of an author. One who is not known yet has the chain that is in the
/// log, or a new one where the log holds none.
pub open spec fn raw_chain_of(
    m: RawManagerModel,
    author: Seq<u8>,
    stored: Seq<SignedEntryModel>,
) -> RawChainModel {
    if m.chains.dom().contains(author) {
        m.chains[author]
    } else {
        let fresh = empty_chain(raw_log_path(m.logs_dir, author), m.store_id, author);
        match chained(fresh, stored) {
            Ok(c) => c,
            Err(_) => RawChainModel { log: stored, ..fresh },
        }
    }
}

/// The manager once it knows an author.
pub open spec fn raw_knowing(
    m: RawManagerModel,
    author: Seq<u8>,
    stored: Seq<SignedEntryModel>,
) -> RawManagerModel {
    RawManagerModel { chains: m.chains.insert(author, raw_chain_of(m, author, stored)), ..m }
}

/// The chains of a store, one per author.
pub struct SigChainManager {
    logs_dir: Vec<u8>,
    store_id: Uuid,
    chains: Table<SigChain>,
}

/// The models of chains.
pub open spec fn raw_chains(t: Map<Seq<u8>, SigChain>) -> Map<Seq<u8>, RawChainModel> {
    t.map_values(|c: SigChain| c@)
}

impl View for SigChainManager {
    type V = RawManagerModel;

    closed spec fn view(&self) -> RawManagerModel {
        RawManagerModel {
            logs_dir: self.logs_dir@,
            store_id: self.store_id@,
            chains: raw_chains(self.chains@),
        }
    }
}

impl SigChainManager {
    /// The table is well formed, and so is every chain.
    pub closed spec fn wf(&self) -> bool {
        &&& self.chains.wf()
        &&& forall|k: Seq<u8>| #[trigger]
            self.chains@.dom().contains(k) ==> self.chains@[k].wf()
    }

    /// A manager that knows nobody.
    pub fn new(logs_dir: Vec<u8>, store_id: Uuid) -> (r: Self)
        ensures
            r.wf(),
            r@ == (RawManagerModel {
                logs_dir: logs_dir@,
                store_id: store_id@,
                chains: Map::empty(),
            }),
    {
        let r = SigChainManager { logs_dir, store_id, chains: Table::new() };
        assert(r@.chains =~= Map::empty());
        r
    }

    /// The directory of the logs.
    pub fn logs_dir(&self) -> (r: &[u8])
        ensures
            r@ == self@.logs_dir,
    {
        self.logs_dir.as_slice()
    }

    /// The chain of an author who is known.
    pub fn get(&self, author: &PubKey) -> (r: Option<&SigChain>)
        requires
            self.wf(),
        ensures
            match r {
                Some(c) => self@.chains.dom().contains(author@) && c.wf() && c@
                    == self@.chains[author@],
                None => !self@.chains.dom().contains(author@),
            },
    {
        self.chains.get(author.as_slice())
    }

    /// Takes the chain of an author out; `stored` is what the author's log holds,
    /// which is looked at if the author is not known yet.
    fn take_chain(&mut self, author: &PubKey, stored: &Vec<SignedEntry>) -> (r: SigChain)
        requires
            old(self).wf(),
            stored@.len() < u64::MAX,
        ensures
            final(self).wf(),
            r.wf(),
            r@ == raw_chain_of(old(self)@, author@, message::models(stored@)),
            final(self)@ == (RawManagerModel {
                chains: old(self)@.chains.remove(author@),
                ..old(self)@
            }),
    {
        let ghost start = self@;
        let ghost before = self.chains@;
        let taken = self.chains.take(author.as_slice());
        proof {
            assert(self@.chains =~= start.chains.remove(author@));
            assert(self@ =~= (RawManagerModel { chains: start.chains.remove(author@), ..start }));
        }
        match taken {
            Some(chain) => {
                assert(start.chains[author@] == chain@);
                chain
            },
            None => {
                let path = self.path_of(author);
                match SigChain::from_log(path, self.store_id, *author, stored) {
                    Ok(chain) => chain,
                    Err(_) => {
                        let mut chain = SigChain::new(
                            self.path_of(author),
                            self.store_id,
                            *author,
                        );
                        let ghost fresh = chain@;
                        chain.log = message::duplicate_items(stored);
                        assert(chain@ =~= (RawChainModel {
                            log: message::models(stored@),
                            ..fresh
                        }));
                        chain
                    },
                }
            },
        }
    }

    fn path_of(&self, author: &PubKey) -> (r: Vec<u8>)
        ensures
            r@ == raw_log_path(self@.logs_dir, author@),
    {
        let name = hex_encode(author.as_slice()).concat(".log");
        join_path(self.logs_dir.as_slice(), name.as_str())
    }

    fn put_chain(&mut self, author: &PubKey, chain: SigChain)
        requires
            old(self).wf(),
            chain.wf(),
        ensures
            final(self).wf(),
            final(self)@ == (RawManagerModel {
                chains: old(self)@.chains.insert(author@, chain@),
                ..old(self)@
            }),
    {
        let ghost start = self@;
        self.chains.insert(author.as_slice(), chain);
        proof {
            assert(self@.chains =~= start.chains.insert(author@, chain@));
            assert(self@ =~= (RawManagerModel {
                chains: start.chains.insert(author@, chain@),
                ..start
            }));
        }
    }

    /// Makes an author known; `stored` is what the author's log holds.
    pub fn get_or_create(&mut self, author: &PubKey, stored: &Vec<SignedEntry>)
        requires
            old(self).wf(),
            stored@.len() < u64::MAX,
        ensures
            final(self).wf(),
            final(self)@ == raw_knowing(old(self)@, author@, message::models(stored@)),
    {
        let ghost start = self@;
        let chain = self.take_chain(author, stored);
        self.put_chain(author, chain);
        assert(self@ =~= raw_knowing(start, author@, message::models(stored@)));
    }

    /// Appends an entry to the chain of an author who is known, provided it comes
    /// next.
    pub fn append_to(&mut self, author: &PubKey, signed_entry: &SignedEntry) -> (r: Result<
        (),
        SigChainError,
    >)
        requires
            old(self).wf(),
            old(self)@.chains.dom().contains(author@),
            old(self)@.chains[author@].next_seq < u64::MAX,
        ensures
            final(self).wf(),
            ({
                let c = old(self)@.chains[author@];
                match raw_fault(c, signed_entry@) {
                    None => {
                        &&& r is Ok
                        &&& final(self)@ == (RawManagerModel {
                            chains: old(self)@.chains.insert(author@, extended(c, signed_entry@)),
                            ..old(self)@
                        })
                    },
                    Some(f) => {
                        &&& r matches Err(e) && e@ == f
                        &&& final(self)@ == old(self)@
                    },
                }
            }),
    {
        let ghost start = self@;
        let none: Vec<SignedEntry> = Vec::new();
        let mut chain = self.take_chain(author, &none);
        let ghost c = chain@;
        let r = chain.append(signed_entry);
        self.put_chain(author, chain);
        proof {
            match raw_fault(c, signed_entry@) {
                None => {
                    assert(self@ =~= (RawManagerModel {
                        chains: start.chains.insert(author@, extended(c, signed_entry@)),
                        ..start
                    }));
                },
                Some(_) => {
                    assert(self@ =~= start);
                },
            }
        }
        r
    }

    /// Writes an entry to the log of its author, `stored` being what that log
    /// holds. Entries that are synced come in any order, so the chain is not
    /// looked at. An author that is no public key is an error.
    pub fn append_entry(&mut self, entry: &SignedEntry, stored: &Vec<SignedEntry>) -> (r: Result<
        (),
        SigChainError,
    >)
        requires
            old(self).wf(),
            stored@.len() < u64::MAX,
        ensures
            final(self).wf(),
            if entry@.author_id.len() != 32 {
                &&& r matches Err(e) && e@ == ChainFault::WrongAuthor(
                    "32 bytes"@,
                    text::decimal_text(entry@.author_id.len()) + " bytes"@,
                )
                &&& final(self)@ == old(self)@
            } else {
                let a = entry@.author_id;
                let c = raw_chain_of(old(self)@, a, message::models(stored@));
                &&& r is Ok
                &&& final(self)@ == (RawManagerModel {
                    chains: old(self)@.chains.insert(
                        a,
                        RawChainModel { log: c.log.push(entry@), ..c },
                    ),
                    ..old(self)@
                })
            },
    {
        let ghost start = self@;
        if entry.author_id.len() != 32 {
            let n: usize = entry.author_id.len();
            return Err(
                SigChainError::WrongAuthor {
                    expected: "32 bytes".to_owned(),
                    got: decimal(n as u64).concat(" bytes"),
                },
            );
        }
        let author: PubKey = to_array32(entry.author_id.as_slice());
        let mut chain = self.take_chain(&author, stored);
        let ghost c = chain@;
        chain.record(entry);
        self.put_chain(&author, chain);
        assert(self@ =~= (RawManagerModel {
            chains: start.chains.insert(
                author@,
                RawChainModel { log: c.log.push(entry@), ..c },
            ),
            ..start
        }));
        Ok(())
    }
}

/// An entry can come next exactly where its signature is accepted and its bytes hold an
/// entry that is of the chain's author and store, has the next number and names the last
/// hash.
pub proof fn law_what_comes_next(c: RawChainModel, s: SignedEntryModel)
    ensures
        raw_fault(c, s) is None <==> (signed_entry::checked(s) matches Ok(e) && s.author_id
            == c.author_id && (if e.store_id.len() == 16 {
            e.store_id
        } else {
            Seq::new(16, |i: int| 0u8)
        }) == c.store_id && e.seq == c.next_seq && (if e.prev_hash.len() == 32 {
            e.prev_hash
        } else {
            Seq::new(32, |i: int| 0u8)
        }) == c.last_hash),
        signed_entry::checked(s) is Err ==> raw_fault(c, s) == Some(ChainFault::InvalidSignature),
        signed_entry::checked(s) matches Ok(e) ==> {
            &&& crypto::ed25519_accepts(s.author_id, s.entry_bytes, s.signature)
            &&& message::decoded::<crate::proto::storage::Entry>(s.entry_bytes) == Some(e)
            &&& s.author_id.len() == 32 && s.signature.len() == 64
        },
{
    assert(bytes::zeros(16) =~= Seq::new(16, |i: int| 0u8));
    assert(bytes::zeros(32) =~= Seq::new(32, |i: int| 0u8));
}

/// A chain to which an entry was appended has it as the last of its log; the next number is
/// one more, the last hash is the entry's, and the rest stays.
pub proof fn law_extended_by_the_entry(c: RawChainModel, s: SignedEntryModel)
    requires
        c.next_seq < u64::MAX,
    ensures
        ({
            let d = extended(c, s);
            &&& d.next_seq == c.next_seq + 1
            &&& d.last_hash == crypto::blake3_hash(message::encoded::<SignedEntry>(s))
            &&& d.log.len() == c.log.len() + 1 && d.log.last() == s && d.log.drop_last() == c.log
            &&& d.path == c.path && d.store_id == c.store_id && d.author_id == c.author_id
        }),
{
    assert(extended(c, s).log.drop_last() =~= c.log);
}

/// The entry that a chain builds when the wall clock reads `now_ms` has that time and the
/// counter zero, the chain's store, last hash and next number, and the operations.
pub proof fn law_next_entry_is_of_its_time(
    c: RawChainModel,
    ops: Seq<OperationModel>,
    now_ms: u64,
)
    ensures
        ({
            let e = next_entry(c, ops, now_ms);
            &&& e.timestamp matches Some(t) && t.wall_time == now_ms && t.counter == 0
            &&& e.seq == c.next_seq
            &&& e.prev_hash == c.last_hash
            &&& e.store_id == c.store_id
            &&& e.ops == ops
            &&& e.parent_hashes.len() == 0
            &&& e.version == 1
        }),
{
}

/// Stored entries make a chain only where every one of them comes next at its place.
pub proof fn law_every_entry_has_to_come_next(
    c: RawChainModel,
    entries: Seq<SignedEntryModel>,
    s: SignedEntryModel,
)
    ensures
        chained(c, Seq::empty()) == Ok::<RawChainModel, ChainFault>(c),
        chained(c, entries) is Err ==> chained(c, entries.push(s)) == chained(c, entries),
        chained(c, entries) matches Ok(d) ==> {
            &&& raw_fault(d, s) matches Some(f) ==> chained(c, entries.push(s)) == Err::<
                RawChainModel,
                ChainFault,
            >(f)
            &&& raw_fault(d, s) is None ==> chained(c, entries.push(s)) == Ok::<
                RawChainModel,
                ChainFault,
            >(extended(d, s))
        },
{
    assert(entries.push(s).drop_last() =~= entries);
}

} // verus!
