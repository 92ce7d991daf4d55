//! The owner of a [`crate::log_store::Store`] and of the chains that its entries
//! come from.
use crate::bytes::{bytes_eq, to_vec, Digest, PubKey, Uuid};
use crate::clock::{Clock, SystemClock};
use crate::crypto;
use crate::entry;
use crate::head_records;
use crate::head_records::HeadRecord;
use crate::hlc::HLC;
use crate::log_store;
use crate::log_store::{LogStoreModel, Store};
use crate::message;
use crate::message::Message;
use crate::node_identity::NodeIdentity;
use crate::proto::packed::{AuthorProgress, PackedHead, PackedHeadModel};
use crate::proto::storage::{
    DeleteOpModel, EntryModel, OpTypeModel, Operation, OperationModel, PutOpModel, SignedEntry,
    SignedEntryModel,
};
use crate::sigchain;
use crate::sigchain::{RawChainModel, RawManagerModel, SigChainManager};
use crate::signed_entry;
use crate::signed_entry::{hash_signed_entry, EntryBuilder};
use crate::store::error::{StoreError, StoreFault};
use crate::store::sigchain::{ChainFault, SigChainError};
use crate::store::state;
use crate::sync_state::SyncState;
use crate::table;
use vstd::prelude::*;
use vstd::string::*;

verus! {

// ---------------------------------------------------------------------------
// Errors
// ---------------------------------------------------------------------------

/// What can go wrong with a command.
#[derive(Debug, PartialEq, Eq)]
pub enum StoreActorError {
    /// The store failed.
    Store(StoreError),
    /// An entry cannot be chained.
    SigChain(SigChainError),
}

/// The model of [`StoreActorError`].
pub enum LogActorFault {
    Store(StoreFault),
    SigChain(ChainFault),
}

impl View for StoreActorError {
    type V = LogActorFault;

    open spec fn view(&self) -> LogActorFault {
        match self {
            StoreActorError::Store(e) => LogActorFault::Store(e@),
            StoreActorError::SigChain(e) => LogActorFault::SigChain(e@),
        }
    }
}

impl LogActorFault {
    /// The text of the error.
    pub open spec fn text(self) -> Seq<char> {
        match self {
            LogActorFault::Store(f) => "Store error: "@ + f.text(),
            LogActorFault::SigChain(f) => "SigChain error: "@ + f.text(),
        }
    }
}

impl StoreActorError {
    /// The text of the error.
    pub fn to_string(&self) -> (r: String)
        ensures
            r@ == self@.text(),
    {
        match self {
            StoreActorError::Store(e) => "Store error: ".to_owned().concat(e.to_string().as_str()),
            StoreActorError::SigChain(e) => "SigChain error: ".to_owned().concat(
                e.to_string().as_str(),
            ),
        }
    }
}

// ---------------------------------------------------------------------------
// Models
// ---------------------------------------------------------------------------

/// The model of a [`StoreActor`].
#[verifier::ext_equal]
pub struct LogActorModel {
    pub store_id: Seq<u8>,
    pub store: LogStoreModel,
    pub manager: RawManagerModel,
    pub secret: Seq<u8>,
}

impl LogActorModel {
    /// The node's public key.
    pub open spec fn me(self) -> Seq<u8> {
        crypto::ed25519_public(self.secret)
    }

    /// The node's own chain.
    pub open spec fn chain(self) -> RawChainModel {
        self.manager.chains[self.me()]
    }
}

/// The entries of a log behind the first one with the given hash; all of them where no
/// hash is given, and none where no entry has it.
pub open spec fn entries_behind(log: Seq<SignedEntryModel>, from: Option<Seq<u8>>) -> Seq<
    SignedEntryModel,
>
    decreases log.len(),
{
    match from {
        None => log,
        Some(h) => if log.len() == 0 {
            Seq::empty()
        } else if sigchain::raw_hash(log[0]) == h {
            log.skip(1)
        } else {
            entries_behind(log.skip(1), from)
        },
    }
}

/// The view of a hash that may be given.
pub open spec fn hash_view(h: Option<Digest>) -> Option<Seq<u8>> {
    match h {
        Some(h) => Some(h@),
        None => None,
    }
}

/// What the log of an author holds: what their chain does, or `stored` where the author
/// is not known.
pub open spec fn log_of(
    g: LogActorModel,
    author: Seq<u8>,
    stored: Seq<SignedEntryModel>,
) -> Seq<SignedEntryModel> {
    if g.manager.chains.dom().contains(author) {
        g.manager.chains[author].log
    } else {
        stored
    }
}

/// The hashes of heads.
pub open spec fn head_hashes(heads: Seq<PackedHeadModel>) -> Seq<Seq<u8>> {
    heads.map_values(|h: PackedHeadModel| h.hash)
}

/// The entry that comes next in the node's own chain, with one operation, on top of
/// the given parents.
pub open spec fn own_entry(
    g: LogActorModel,
    parents: Seq<Seq<u8>>,
    op: OperationModel,
    now_ms: u64,
) -> SignedEntryModel {
    let c = g.chain();
    signed_entry::signed(
        EntryModel {
            version: 1,
            store_id: g.store_id,
            prev_hash: c.last_hash,
            parent_hashes: parents,
            seq: c.next_seq,
            timestamp: Some(entry::stored_hlc(HLC { wall_time: now_ms, counter: 0 })),
            ops: seq![op],
        },
        g.secret,
    )
}

/// What comes of an operation of our own: it is signed as the next entry of our
/// chain, and applied. The result is the number of the entry.
pub open spec fn committed(
    g: LogActorModel,
    parents: Seq<Seq<u8>>,
    op: OperationModel,
    now_ms: u64,
) -> (LogActorModel, Result<u64, LogActorFault>) {
    let c = g.chain();
    let s = own_entry(g, parents, op, now_ms);
    match sigchain::raw_fault(c, s) {
        Some(f) => (g, Err(LogActorFault::SigChain(f))),
        None => {
            let chained = LogActorModel {
                manager: RawManagerModel {
                    chains: g.manager.chains.insert(g.me(), sigchain::extended(c, s)),
                    ..g.manager
                },
                ..g
            };
            match log_store::applied(g.store, s) {
                Err(f) => (chained, Err(LogActorFault::Store(f))),
                Ok(store) => (LogActorModel { store, ..chained }, Ok(c.next_seq)),
            }
        },
    }
}

/// What comes of putting a value under a key. Nothing is done where the key has the
/// value already.
pub open spec fn put_done(g: LogActorModel, key: Seq<u8>, value: Seq<u8>, now_ms: u64) -> (
    LogActorModel,
    Result<u64, LogActorFault>,
) {
    match head_records::heads_at::<PackedHead>(g.store.kv, key) {
        Err(d) => (g, Err(LogActorFault::Store(StoreFault::Decode(d)))),
        Ok(heads) => if head_records::put_needed::<PackedHead>(heads, value) {
            committed(
                g,
                head_hashes(heads),
                OperationModel { op_type: Some(OpTypeModel::Put(PutOpModel { key, value })) },
                now_ms,
            )
        } else {
            (g, Ok((g.chain().next_seq - 1) as u64))
        },
    }
}

/// What comes of deleting a key. Nothing is done where the key has no value.
pub open spec fn delete_done(g: LogActorModel, key: Seq<u8>, now_ms: u64) -> (
    LogActorModel,
    Result<u64, LogActorFault>,
) {
    match head_records::heads_at::<PackedHead>(g.store.kv, key) {
        Err(d) => (g, Err(LogActorFault::Store(StoreFault::Decode(d)))),
        Ok(heads) => if head_records::delete_needed::<PackedHead>(heads) {
            committed(
                g,
                head_hashes(heads),
                OperationModel { op_type: Some(OpTypeModel::Delete(DeleteOpModel { key })) },
                now_ms,
            )
        } else {
            (g, Ok((g.chain().next_seq - 1) as u64))
        },
    }
}

/// What comes of an entry from outside, `stored` being what its author's log holds:
/// it is written to that log, and applied.
pub open spec fn entry_taken(
    g: LogActorModel,
    s: SignedEntryModel,
    stored: Seq<SignedEntryModel>,
) -> (LogActorModel, Option<StoreFault>) {
    if s.author_id.len() != 32 {
        (
            g,
            Some(
                StoreFault::SigChain(
                    ChainFault::WrongAuthor(
                        "32 bytes"@,
                        crate::text::decimal_text(s.author_id.len()) + " bytes"@,
                    ),
                ),
            ),
        )
    } else {
        let c = sigchain::raw_chain_of(g.manager, s.author_id, stored);
        let logged = LogActorModel {
            manager: RawManagerModel {
                chains: g.manager.chains.insert(
                    s.author_id,
                    RawChainModel { log: c.log.push(s), ..c },
                ),
                ..g.manager
            },
            ..g
        };
        match log_store::applied(g.store, s) {
            Err(f) => (logged, Some(f)),
            Ok(store) => (LogActorModel { store, ..logged }, None),
        }
    }
}

// ---------------------------------------------------------------------------
// Laws
// ---------------------------------------------------------------------------

/// Writing what is there already changes nothing, and neither does deleting what is
/// not there.
pub proof fn law_writing_again_changes_nothing(
    g: LogActorModel,
    key: Seq<u8>,
    value: Seq<u8>,
    heads: Seq<PackedHeadModel>,
    now_ms: u64,
)
    requires
        head_records::heads_at::<PackedHead>(g.store.kv, key) matches Ok(h) && h == heads,
    ensures
        !head_records::put_needed::<PackedHead>(heads, value) ==> put_done(
            g,
            key,
            value,
            now_ms,
        ).0 == g,
        !head_records::delete_needed::<PackedHead>(heads) ==> delete_done(g, key, now_ms).0 == g,
{
}

/// Numbers of our own entries go up by one.
pub proof fn law_numbers_go_up(
    g: LogActorModel,
    parents: Seq<Seq<u8>>,
    op: OperationModel,
    now_ms: u64,
)
    requires
        committed(g, parents, op, now_ms).1 is Ok,
        g.chain().next_seq < u64::MAX,
    ensures
        committed(g, parents, op, now_ms).1 == Ok::<u64, LogActorFault>(g.chain().next_seq),
        committed(g, parents, op, now_ms).0.chain().next_seq == g.chain().next_seq + 1,
{
}

// ---------------------------------------------------------------------------
// The actor
// ---------------------------------------------------------------------------

/// The owner of a store and of its chains.
pub struct StoreActor {
    store_id: Uuid,
    store: Store,
    chain_manager: SigChainManager,
    node: NodeIdentity,
}

impl View for StoreActor {
    type V = LogActorModel;

    closed spec fn view(&self) -> LogActorModel {
        LogActorModel {
            store_id: self.store_id@,
            store: self.store@,
            manager: self.chain_manager@,
            secret: self.node.secret(),
        }
    }
}

impl StoreActor {
    /// The parts are well formed, and the node's own chain is known.
    pub closed spec fn wf(&self) -> bool {
        &&& self.store.wf()
        &&& self.chain_manager.wf()
        &&& self@.manager.chains.dom().contains(self@.me())
    }

    /// The actor of a store whose logs lie in `logs_dir`; `stored` is what the
    /// node's own log holds.
    pub fn new(
        store_id: Uuid,
        store: Store,
        logs_dir: Vec<u8>,
        stored: &Vec<SignedEntry>,
        node: NodeIdentity,
    ) -> (r: Self)
        requires
            store.wf(),
            stored@.len() < u64::MAX,
        ensures
            r.wf(),
            r@ == (LogActorModel {
                store_id: store_id@,
                store: store@,
                manager: sigchain::raw_knowing(
                    RawManagerModel {
                        logs_dir: logs_dir@,
                        store_id: store_id@,
                        chains: Map::empty(),
                    },
                    node.public(),
                    message::models(stored@),
                ),
                secret: node.secret(),
            }),
    {
        let mut chain_manager = SigChainManager::new(logs_dir, store_id);
        let local_author = node.public_key();
        chain_manager.get_or_create(&local_author, stored);
        StoreActor { store_id, store, chain_manager, node }
    }

    /// How many entries the node's own chain has.
    pub fn log_seq(&self) -> (r: u64)
        requires
            self.wf(),
        ensures
            r as int == if self@.chain().next_seq >= 1 {
                self@.chain().next_seq - 1
            } else {
                0
            },
    {
        let local_author = self.node.public_key();
        match self.chain_manager.get(&local_author) {
            Some(chain) => chain.len(),
            None => 0,
        }
    }

    /// The value of a key.
    pub fn get(&self, key: &[u8]) -> (r: Result<Option<Vec<u8>>, StoreError>)
        requires
            self.wf(),
        ensures
            match head_records::value_at::<PackedHead>(self@.store.kv, key@) {
                Err(d) => r matches Err(e) && e@ == StoreFault::Decode(d),
                Ok(None) => r == Ok::<Option<Vec<u8>>, StoreError>(None),
                Ok(Some(value)) => r matches Ok(Some(v)) && v@ == value,
            },
    {
        self.store.get(key)
    }

    /// The heads of a key.
    pub fn get_heads(&self, key: &[u8]) -> (r: Result<Vec<PackedHead>, StoreError>)
        requires
            self.wf(),
        ensures
            match head_records::heads_at::<PackedHead>(self@.store.kv, key@) {
                Err(d) => r matches Err(e) && e@ == StoreFault::Decode(d),
                Ok(heads) => r matches Ok(v) && message::models(v@) == heads,
            },
    {
        self.store.get_heads(key)
    }

    /// All keys with their winning values, deleted ones too.
    pub fn list(&self) -> (r: Result<Vec<(Vec<u8>, Vec<u8>)>, StoreError>)
        requires
            self.wf(),
        ensures
            match head_records::listing::<PackedHead>(
                self@.store.kv,
                table::sorted_keys(self@.store.kv.dom()),
                Seq::empty(),
                true,
            ) {
                Ok(pairs) => r matches Ok(v) && state::pair_models(v@) == pairs,
                Err(d) => r matches Err(e) && e@ == StoreFault::Decode(d),
            },
    {
        self.store.list_all()
    }

    /// How far the node's own log has been applied.
    pub fn applied_seq(&self) -> (r: u64)
        requires
            self.wf(),
        ensures
            r == match log_store::progress_at(self@.store.authors, self@.me()) {
                Some(p) => p.seq,
                None => 0,
            },
    {
        let local_author = self.node.public_key();
        match self.store.author_state(&local_author) {
            Some(progress) => progress.seq,
            None => 0,
        }
    }

    /// How far the log of an author has been applied.
    pub fn author_state(&self, author: &PubKey) -> (r: Option<AuthorProgress>)
        requires
            self.wf(),
        ensures
            match log_store::progress_at(self@.store.authors, author@) {
                Some(p) => r matches Some(x) && x@ == p,
                None => r is None,
            },
    {
        self.store.author_state(author)
    }

    /// How far the log of every author has been applied.
    pub fn sync_state(&self) -> (r: SyncState)
        requires
            self.wf(),
        ensures
            r.wf(),
            log_store::progress_says(
                self@.store.authors,
                r@,
                table::sorted_keys(self@.store.authors.dom()),
            ),
    {
        self.store.sync_state()
    }

    /// Puts a value under a key, at the given time of the wall clock: the number of
    /// the last entry of the node's own chain.
    pub fn put_at(&mut self, key: &[u8], value: &[u8], now_ms: u64) -> (r: Result<
        u64,
        StoreActorError,
    >)
        requires
            old(self).wf(),
            old(self)@.chain().next_seq < u64::MAX,
        ensures
            final(self).wf(),
            ({
                let (after, done) = put_done(old(self)@, key@, value@, now_ms);
                &&& final(self)@ == after
                &&& match done {
                    Ok(n) => r == Ok::<u64, StoreActorError>(n),
                    Err(f) => r matches Err(e) && e@ == f,
                }
            }),
    {
        let heads = match self.store.get_heads(key) {
            Ok(heads) => heads,
            Err(e) => {
                return Err(StoreActorError::Store(e));
            },
        };
        if !Store::needs_put(heads.as_slice(), value) {
            return Ok(self.own_len());
        }
        let parents = hashes_of(&heads);
        self.commit_entry(parents, Operation::put(to_vec(key), to_vec(value)), now_ms)
    }

    /// Deletes a key, at the given time of the wall clock: the number of the last
    /// entry of the node's own chain.
    pub fn delete_at(&mut self, key: &[u8], now_ms: u64) -> (r: Result<u64, StoreActorError>)
        requires
            old(self).wf(),
            old(self)@.chain().next_seq < u64::MAX,
        ensures
            final(self).wf(),
            ({
                let (after, done) = delete_done(old(self)@, key@, now_ms);
                &&& final(self)@ == after
                &&& match done {
                    Ok(n) => r == Ok::<u64, StoreActorError>(n),
                    Err(f) => r matches Err(e) && e@ == f,
                }
            }),
    {
        let heads = match self.store.get_heads(key) {
            Ok(heads) => heads,
            Err(e) => {
                return Err(StoreActorError::Store(e));
            },
        };
        if !Store::needs_delete(heads.as_slice()) {
            return Ok(self.own_len());
        }
        let parents = hashes_of(&heads);
        self.commit_entry(parents, Operation::delete(to_vec(key)), now_ms)
    }

    fn own_len(&self) -> (r: u64)
        requires
            self.wf(),
        ensures
            r == (self@.chain().next_seq - 1) as u64,
    {
        let local_author = self.node.public_key();
        match self.chain_manager.get(&local_author) {
            Some(chain) => chain.len(),
            None => 0,
        }
    }

    /// Signs an operation as the next entry of the node's own chain, and applies it.
    fn commit_entry(&mut self, parents: Vec<Vec<u8>>, op: Operation, now_ms: u64) -> (r: Result<
        u64,
        StoreActorError,
    >)
        requires
            old(self).wf(),
            old(self)@.chain().next_seq < u64::MAX,
        ensures
            final(self).wf(),
            ({
                let (after, done) = committed(
                    old(self)@,
                    message::byte_models(parents@),
                    op@,
                    now_ms,
                );
                &&& final(self)@ == after
                &&& match done {
                    Ok(n) => r == Ok::<u64, StoreActorError>(n),
                    Err(f) => r matches Err(e) && e@ == f,
                }
            }),
    {
        let ghost start = self@;
        let ghost parent_models = message::byte_models(parents@);
        let local_author = self.node.public_key();
        let (seq, prev_hash) = match self.chain_manager.get(&local_author) {
            Some(chain) => (chain.next_seq(), to_vec(chain.last_hash().as_slice())),
            None => (1, Vec::new()),
        };
        let hlc = HLC { wall_time: now_ms, counter: 0 };
        let builder = EntryBuilder::new(seq, hlc).store_id(
            to_vec(self.store_id.as_slice()),
        ).prev_hash(prev_hash).parent_hashes(parents).operation(op);
        assert(builder@.ops =~= seq![op@]);
        let entry = builder.sign(&self.node);
        assert(entry@ == own_entry(start, parent_models, op@, now_ms));
        match self.chain_manager.append_to(&local_author, &entry) {
            Ok(()) => {},
            Err(e) => {
                assert(self@ =~= start);
                return Err(StoreActorError::SigChain(e));
            },
        }
        let applied = self.store.apply_entry(&entry);
        assert(self@ =~= committed(start, parent_models, op@, now_ms).0);
        match applied {
            Ok(()) => Ok(seq),
            Err(e) => Err(StoreActorError::Store(e)),
        }
    }

    /// Puts a value under a key, now.
    pub fn put(&mut self, key: &[u8], value: &[u8]) -> (r: Result<u64, StoreActorError>)
        requires
            old(self).wf(),
            old(self)@.chain().next_seq < u64::MAX,
        ensures
            final(self).wf(),
            exists|now_ms: u64|
                {
                    let (after, done) = #[trigger] put_done(old(self)@, key@, value@, now_ms);
                    &&& final(self)@ == after
                    &&& match done {
                        Ok(n) => r == Ok::<u64, StoreActorError>(n),
                        Err(f) => r matches Err(e) && e@ == f,
                    }
                },
    {
        let now_ms: u64 = SystemClock.now_ms();
        self.put_at(key, value, now_ms)
    }

    /// Deletes a key, now.
    pub fn delete(&mut self, key: &[u8]) -> (r: Result<u64, StoreActorError>)
        requires
            old(self).wf(),
            old(self)@.chain().next_seq < u64::MAX,
        ensures
            final(self).wf(),
            exists|now_ms: u64|
                {
                    let (after, done) = #[trigger] delete_done(old(self)@, key@, now_ms);
                    &&& final(self)@ == after
                    &&& match done {
                        Ok(n) => r == Ok::<u64, StoreActorError>(n),
                        Err(f) => r matches Err(e) && e@ == f,
                    }
                },
    {
        let now_ms: u64 = SystemClock.now_ms();
        self.delete_at(key, now_ms)
    }

    /// The entries of an author's chain behind the one with the given hash, or all of them;
    /// none of an author who is not known.
    pub fn entries_after(&self, author: &PubKey, from_hash: Option<Digest>) -> (r: Vec<SignedEntry>)
        requires
            self.wf(),
        ensures
            message::models(r@) == entries_behind(
                log_of(self@, author@, Seq::empty()),
                hash_view(from_hash),
            ),
    {
        let none: Vec<SignedEntry> = Vec::new();
        assert(message::models(none@) =~= Seq::empty());
        self.read_entries_after(author, from_hash, &none)
    }

    /// The entries of an author's log behind the one with the given hash, or all of them;
    /// `stored` is what the log holds, which is looked at if the author is not known yet.
    pub fn read_entries_after(
        &self,
        author: &PubKey,
        from_hash: Option<Digest>,
        stored: &Vec<SignedEntry>,
    ) -> (r: Vec<SignedEntry>)
        requires
            self.wf(),
        ensures
            message::models(r@) == entries_behind(
                log_of(self@, author@, message::models(stored@)),
                hash_view(from_hash),
            ),
    {
        match self.chain_manager.get(author) {
            Some(chain) => copy_behind(chain.entries(), from_hash),
            None => copy_behind(stored, from_hash),
        }
    }

    /// Takes an entry in from outside; `stored` is what its author's log holds.
    pub fn apply_entry(&mut self, entry: &SignedEntry, stored: &Vec<SignedEntry>) -> (r: Result<
        (),
        StoreError,
    >)
        requires
            old(self).wf(),
            stored@.len() < u64::MAX,
        ensures
            final(self).wf(),
            ({
                let (after, fault) = entry_taken(
                    old(self)@,
                    entry@,
                    message::models(stored@),
                );
                &&& final(self)@ == after
                &&& match fault {
                    None => r is Ok,
                    Some(f) => r matches Err(e) && e@ == f,
                }
            }),
    {
        let ghost start = self@;
        match self.chain_manager.append_entry(entry, stored) {
            Ok(()) => {},
            Err(e) => {
                assert(self@ =~= start);
                return Err(StoreError::SigChain(e));
            },
        }
        let applied = self.store.apply_entry(entry);
        assert(self@ =~= entry_taken(start, entry@, message::models(stored@)).0);
        applied
    }
}

/// The entries of a log behind the first one with the given hash.
fn copy_behind(log: &Vec<SignedEntry>, from_hash: Option<Digest>) -> (r: Vec<SignedEntry>)
    ensures
        message::models(r@) == entries_behind(message::models(log@), hash_view(from_hash)),
{
    let ghost all = message::models(log@);
    let mut start: usize = 0;
    if let Some(h) = from_hash {
        let mut found = false;
        assert(all.skip(0) =~= all);
        while start < log.len() && !found
            invariant
                start <= log@.len(),
                all == message::models(log@),
                found ==> entries_behind(all, Some(h@)) == all.skip(start as int),
                !found ==> entries_behind(all, Some(h@)) == entries_behind(
                    all.skip(start as int),
                    Some(h@),
                ),
            decreases log@.len() - start,
        {
            let hash = hash_signed_entry(&log[start]);
            proof {
                assert(all.skip(start as int)[0] == log@[start as int]@);
                assert(all.skip(start as int).skip(1) =~= all.skip(start + 1));
            }
            found = bytes_eq(hash.as_slice(), h.as_slice());
            start += 1;
        }
        assert(start == log@.len() ==> all.skip(start as int) =~= Seq::empty());
    }
    let ghost want = all.skip(start as int);
    let mut out: Vec<SignedEntry> = Vec::new();
    let mut i: usize = start;
    while i < log.len()
        invariant
            start <= i <= log@.len(),
            out@.len() == i - start,
            forall|k: int| 0 <= k < i - start ==> (#[trigger] out@[k])@ == log@[start + k]@,
        decreases log@.len() - i,
    {
        out.push(log[i].duplicate());
        i += 1;
    }
    assert(message::models(out@) =~= want);
    assert(from_hash is None ==> want =~= all);
    out
}

/// The hashes of heads.
fn hashes_of(heads: &Vec<PackedHead>) -> (r: Vec<Vec<u8>>)
    ensures
        message::byte_models(r@) == head_hashes(message::models(heads@)),
{
    let mut out: Vec<Vec<u8>> = Vec::new();
    let mut i: usize = 0;
    while i < heads.len()
        invariant
            i <= heads@.len(),
            out@.len() == i,
            forall|k: int| 0 <= k < i ==> (#[trigger] out@[k])@ == heads@[k].hash@,
        decreases heads@.len() - i,
    {
        out.push(to_vec(heads[i].hash.as_slice()));
        i += 1;
    }
    assert(message::byte_models(out@) =~= head_hashes(message::models(heads@)));
    out
}

// ---------------------------------------------------------------------------
// Commands
// ---------------------------------------------------------------------------

/// What the actor can be asked to do.
pub enum StoreCmd {
    Get { key: Vec<u8> },
    GetHeads { key: Vec<u8> },
    List,
    Put { key: Vec<u8>, value: Vec<u8> },
    Delete { key: Vec<u8> },
    LogSeq,
    AppliedSeq,
    AuthorState { author: PubKey },
    SyncState,
    /// `stored` is what the log of the author holds.
    ReadEntriesAfter { author: PubKey, from_hash: Option<Digest>, stored: Vec<SignedEntry> },
    /// `stored` is what the log of the entry's author holds.
    ApplyEntry { entry: SignedEntry, stored: Vec<SignedEntry> },
    Shutdown,
}

/// What the actor answers.
pub enum StoreReply {
    Value(Result<Option<Vec<u8>>, StoreError>),
    Heads(Result<Vec<PackedHead>, StoreError>),
    Pairs(Result<Vec<(Vec<u8>, Vec<u8>)>, StoreError>),
    Written(Result<u64, StoreActorError>),
    Number(u64),
    Progress(Option<AuthorProgress>),
    Sync(SyncState),
    Entries(Vec<SignedEntry>),
    Applied(Result<(), StoreError>),
    Stopped,
}

/// Whether the result of a write is the one that is owed.
pub open spec fn writes(r: Result<u64, StoreActorError>, done: Result<u64, LogActorFault>) -> bool {
    match done {
        Ok(n) => r == Ok::<u64, StoreActorError>(n),
        Err(f) => r matches Err(e) && e@ == f,
    }
}

/// Whether an actor that was `g` may be `h` after the command, and answer `r`.
pub open spec fn answers(g: LogActorModel, cmd: StoreCmd, h: LogActorModel, r: StoreReply) -> bool {
    match cmd {
        StoreCmd::Get { key } => h == g && (r matches StoreReply::Value(x)
            && match head_records::value_at::<PackedHead>(g.store.kv, key@) {
            Err(d) => x matches Err(e) && e@ == StoreFault::Decode(d),
            Ok(None) => x == Ok::<Option<Vec<u8>>, StoreError>(None),
            Ok(Some(value)) => x matches Ok(Some(v)) && v@ == value,
        }),
        StoreCmd::GetHeads { key } => h == g && (r matches StoreReply::Heads(x)
            && match head_records::heads_at::<PackedHead>(g.store.kv, key@) {
            Err(d) => x matches Err(e) && e@ == StoreFault::Decode(d),
            Ok(heads) => x matches Ok(v) && message::models(v@) == heads,
        }),
        StoreCmd::List => h == g && (r matches StoreReply::Pairs(x)
            && match head_records::listing::<PackedHead>(
            g.store.kv,
            table::sorted_keys(g.store.kv.dom()),
            Seq::empty(),
            true,
        ) {
            Ok(pairs) => x matches Ok(v) && state::pair_models(v@) == pairs,
            Err(d) => x matches Err(e) && e@ == StoreFault::Decode(d),
        }),
        StoreCmd::Put { key, value } => exists|now_ms: u64|
            {
                let (after, done) = #[trigger] put_done(g, key@, value@, now_ms);
                h == after && (r matches StoreReply::Written(x) && writes(x, done))
            },
        StoreCmd::Delete { key } => exists|now_ms: u64|
            {
                let (after, done) = #[trigger] delete_done(g, key@, now_ms);
                h == after && (r matches StoreReply::Written(x) && writes(x, done))
            },
        StoreCmd::LogSeq => h == g && (r matches StoreReply::Number(n) && n as int
            == if g.chain().next_seq >= 1 {
            g.chain().next_seq - 1
        } else {
            0
        }),
        StoreCmd::AppliedSeq => h == g && (r matches StoreReply::Number(n) && n
            == match log_store::progress_at(g.store.authors, g.me()) {
            Some(p) => p.seq,
            None => 0,
        }),
        StoreCmd::AuthorState { author } => h == g && (r matches StoreReply::Progress(x)
            && match log_store::progress_at(g.store.authors, author@) {
            Some(p) => x matches Some(y) && y@ == p,
            None => x is None,
        }),
        StoreCmd::SyncState => h == g && (r matches StoreReply::Sync(s) && s.wf()
            && log_store::progress_says(
            g.store.authors,
            s@,
            table::sorted_keys(g.store.authors.dom()),
        )),
        StoreCmd::ReadEntriesAfter { author, from_hash, stored } => h == g && (
        r matches StoreReply::Entries(v) && message::models(v@) == entries_behind(
            log_of(g, author@, message::models(stored@)),
            hash_view(from_hash),
        )),
        StoreCmd::ApplyEntry { entry, stored } => {
            let (after, fault) = entry_taken(g, entry@, message::models(stored@));
            h == after && (r matches StoreReply::Applied(x) && match fault {
                None => x is Ok,
                Some(f) => x matches Err(e) && e@ == f,
            })
        },
        StoreCmd::Shutdown => h == g && r is Stopped,
    }
}

impl StoreCmd {
    /// Whether a log that comes with the command is not too long for its numbers.
    pub open spec fn fits(self) -> bool {
        match self {
            StoreCmd::ApplyEntry { entry, stored } => stored@.len() < u64::MAX,
            _ => true,
        }
    }
}

impl StoreActor {
    /// Does what a command asks for.
    pub fn handle(&mut self, cmd: StoreCmd) -> (r: StoreReply)
        requires
            old(self).wf(),
            old(self)@.chain().next_seq < u64::MAX,
            cmd.fits(),
        ensures
            final(self).wf(),
            answers(old(self)@, cmd, final(self)@, r),
    {
        match cmd {
            StoreCmd::Get { key } => StoreReply::Value(self.get(key.as_slice())),
            StoreCmd::GetHeads { key } => StoreReply::Heads(self.get_heads(key.as_slice())),
            StoreCmd::List => StoreReply::Pairs(self.list()),
            StoreCmd::Put { key, value } => StoreReply::Written(
                self.put(key.as_slice(), value.as_slice()),
            ),
            StoreCmd::Delete { key } => StoreReply::Written(self.delete(key.as_slice())),
            StoreCmd::LogSeq => StoreReply::Number(self.log_seq()),
            StoreCmd::AppliedSeq => StoreReply::Number(self.applied_seq()),
            StoreCmd::AuthorState { author } => StoreReply::Progress(self.author_state(&author)),
            StoreCmd::SyncState => StoreReply::Sync(self.sync_state()),
            StoreCmd::ReadEntriesAfter { author, from_hash, stored } => StoreReply::Entries(
                self.read_entries_after(&author, from_hash, &stored),
            ),
            StoreCmd::ApplyEntry { entry, stored } => StoreReply::Applied(
                self.apply_entry(&entry, &stored),
            ),
            StoreCmd::Shutdown => StoreReply::Stopped,
        }
    }
}

/// What is read behind an entry is all that follows it in the log; without one it is the
/// whole log, and behind one that is not there it is nothing.
pub proof fn law_entries_behind_are_the_rest(
    log: Seq<SignedEntryModel>,
    hash: Seq<u8>,
    i: int,
)
    ensures
        entries_behind(log, None) == log,
        0 <= i < log.len() && sigchain::raw_hash(log[i]) == hash && (forall|j: int|
            0 <= j < i ==> sigchain::raw_hash(#[trigger] log[j]) != hash) ==> entries_behind(
            log,
            Some(hash),
        ) == log.skip(i + 1),
        (forall|j: int| 0 <= j < log.len() ==> sigchain::raw_hash(#[trigger] log[j]) != hash)
            ==> entries_behind(log, Some(hash)).len() == 0,
    decreases log.len(),
{
    if log.len() > 0 {
        let rest = log.skip(1);
        law_entries_behind_are_the_rest(rest, hash, i - 1);
        assert forall|j: int| 0 <= j < rest.len() implies #[trigger] rest[j] == log[j + 1] by {}
        if 0 < i < log.len() {
            assert(rest.skip(i) =~= log.skip(i + 1));
        }
        if sigchain::raw_hash(log[0]) != hash {
            if forall|j: int| 0 <= j < i ==> sigchain::raw_hash(#[trigger] log[j]) != hash {
                assert forall|j: int| 0 <= j < i - 1 && j < rest.len() implies sigchain::raw_hash(
                    #[trigger] rest[j],
                ) != hash by {
                    assert(rest[j] == log[j + 1]);
                }
            }
        }
        if forall|j: int| 0 <= j < log.len() ==> sigchain::raw_hash(#[trigger] log[j]) != hash {
            assert forall|j: int| 0 <= j < rest.len() implies sigchain::raw_hash(
                #[trigger] rest[j],
            ) != hash by {
                assert(rest[j] == log[j + 1]);
            }
        }
    }
}

/// The entry that a write makes, as it is read from its bytes: it has the time of the
/// writing and the counter zero, the next number, the last hash, the store, the operation and
/// the parents; it is the node's.
pub proof fn law_own_entry_is_of_its_time(
    g: LogActorModel,
    parents: Seq<Seq<u8>>,
    op: OperationModel,
    now_ms: u64,
)
    requires
        own_entry(g, parents, op, now_ms).entry_bytes.len() <= u64::MAX,
    ensures
        own_entry(g, parents, op, now_ms).author_id == g.me(),
        message::decoded::<crate::proto::storage::Entry>(
            own_entry(g, parents, op, now_ms).entry_bytes,
        ) matches Some(e) && {
            &&& e.timestamp matches Some(t) && t.wall_time == now_ms && t.counter == 0
            &&& e.seq == g.chain().next_seq
            &&& e.prev_hash == g.chain().last_hash
            &&& e.store_id == g.store_id
            &&& e.ops.len() == 1 && e.ops[0] == op
            &&& e.parent_hashes == parents
        },
{
    crate::proto::storage::law_entry_round_trip(
        EntryModel {
            version: 1,
            store_id: g.store_id,
            prev_hash: g.chain().last_hash,
            parent_hashes: parents,
            seq: g.chain().next_seq,
            timestamp: Some(entry::stored_hlc(HLC { wall_time: now_ms, counter: 0 })),
            ops: seq![op],
        },
    );
}

/// A write that succeeds puts its entry behind all others of the node's log and leaves the
/// logs of others alone; it names every head that the key had as a parent.
pub proof fn law_write_is_logged(
    g: LogActorModel,
    key: Seq<u8>,
    value: Seq<u8>,
    heads: Seq<PackedHeadModel>,
    now_ms: u64,
    other: Seq<u8>,
)
    requires
        head_records::heads_at::<PackedHead>(g.store.kv, key) matches Ok(h) && h == heads,
        head_records::put_needed::<PackedHead>(heads, value),
        put_done(g, key, value, now_ms).1 is Ok,
        other != g.me(),
    ensures
        ({
            let h = put_done(g, key, value, now_ms).0;
            let op = OperationModel { op_type: Some(OpTypeModel::Put(PutOpModel { key, value })) };
            let parents = heads.map_values(|x: PackedHeadModel| x.hash);
            &&& h.chain().log == g.chain().log.push(own_entry(g, parents, op, now_ms))
            &&& h.manager.chains.dom().contains(other) == g.manager.chains.dom().contains(other)
            &&& h.manager.chains[other] == g.manager.chains[other]
            &&& log_store::applied(g.store, own_entry(g, parents, op, now_ms)) matches Ok(st)
                && h.store == st
        }),
{
}

/// An entry from outside is put behind all others of its author's log, and applied.
pub proof fn law_taken_entry_is_logged(
    g: LogActorModel,
    s: SignedEntryModel,
    stored: Seq<SignedEntryModel>,
    other: Seq<u8>,
)
    requires
        s.author_id.len() == 32,
        other != s.author_id,
    ensures
        ({
            let (h, fault) = entry_taken(g, s, stored);
            &&& h.manager.chains.dom().contains(s.author_id)
            &&& h.manager.chains[s.author_id].log == sigchain::raw_chain_of(
                g.manager,
                s.author_id,
                stored,
            ).log.push(s)
            &&& h.manager.chains[other] == g.manager.chains[other]
            &&& fault is None <==> log_store::applied(g.store, s) is Ok
            &&& log_store::applied(g.store, s) matches Ok(st) ==> h.store == st
            &&& fault is Some ==> h.store == g.store
        }),
{
}

/// A put of the value that the winner has changes nothing and gives the number of the last
/// entry; a put of any other value is committed. A deletion changes nothing where there is no
/// head or the winner marks one, and is committed otherwise.
pub proof fn law_only_changes_are_written(
    g: LogActorModel,
    key: Seq<u8>,
    value: Seq<u8>,
    heads: Seq<PackedHeadModel>,
    now_ms: u64,
)
    requires
        head_records::heads_at::<PackedHead>(g.store.kv, key) matches Ok(h) && h == heads,
    ensures
        ({
            let put = OperationModel {
                op_type: Some(OpTypeModel::Put(PutOpModel { key, value })),
            };
            let delete = OperationModel { op_type: Some(OpTypeModel::Delete(DeleteOpModel { key })) };
            let parents = heads.map_values(|x: PackedHeadModel| x.hash);
            match head_records::winner::<PackedHead>(heads) {
                Some(w) => {
                    &&& w.value == value ==> put_done(g, key, value, now_ms).0 == g
                    &&& w.value != value ==> put_done(g, key, value, now_ms) == committed(
                        g,
                        parents,
                        put,
                        now_ms,
                    )
                    &&& w.tombstone ==> delete_done(g, key, now_ms).0 == g
                    &&& !w.tombstone ==> delete_done(g, key, now_ms) == committed(
                        g,
                        parents,
                        delete,
                        now_ms,
                    )
                },
                None => {
                    &&& put_done(g, key, value, now_ms) == committed(g, parents, put, now_ms)
                    &&& delete_done(g, key, now_ms).0 == g
                },
            }
        }),
{
}

} // verus!
