//! The chains of all authors, and the entries that wait to be chained.
//!
//! A chain is an author's append-only log in which every entry names the hash of
//! the one before it.
pub mod manager;
pub mod orphan_store;

use crate::bytes;
use crate::bytes::{bytes_eq, to_array16, to_vec, Digest, PubKey, Uuid};
use crate::clock::{Clock, SystemClock};
use crate::crypto;
use crate::entry;
use crate::entry::{
    ChainTip, ChainTipModel, EntryBuilder, EntryModel, SignedEntry, SignedEntryModel,
};
use crate::head::HeadModel;
use crate::hlc::HLC;
use crate::message;
use crate::message::DecodeError;
use crate::node_identity::NodeIdentity;
use crate::proto::storage::{Operation, OperationModel};
use crate::store::log;
use crate::store::log::{Log, LogError, LogRead};
use crate::text;
use crate::text::{decimal, hex_encode};
use crate::MAX_ENTRY_SIZE;
use vstd::prelude::*;
use vstd::string::*;

verus! {

// ---------------------------------------------------------------------------
// Errors
// ---------------------------------------------------------------------------

/// Why an entry cannot be chained.
#[allow(inconsistent_fields)]
#[derive(Debug, PartialEq, Eq)]
pub enum SigChainError {
    /// The log failed.
    Log(LogError),
    /// The signature does not hold.
    InvalidSignature,
    /// The entry is another author's.
    WrongAuthor { expected: String, got: String },
    /// The entry belongs to another store.
    WrongStoreId { expected: String, got: String },
    /// The sequence number is not the next one.
    InvalidSequence { expected: u64, got: u64 },
    /// The entry does not name the hash of the last one.
    InvalidPrevHash { expected: String, got: String },
    /// The entry could not be decoded.
    Decode(DecodeError),
}

/// The model of [`SigChainError`].
pub enum ChainFault {
    Log(LogError),
    InvalidSignature,
    WrongAuthor(Seq<char>, Seq<char>),
    WrongStoreId(Seq<char>, Seq<char>),
    InvalidSequence(u64, u64),
    InvalidPrevHash(Seq<char>, Seq<char>),
    Decode(DecodeError),
}

impl View for SigChainError {
    type V = ChainFault;

    open spec fn view(&self) -> ChainFault {
        match self {
            SigChainError::Log(e) => ChainFault::Log(*e),
            SigChainError::InvalidSignature => ChainFault::InvalidSignature,
            SigChainError::WrongAuthor { expected, got } => ChainFault::WrongAuthor(
                expected@,
                got@,
            ),
            SigChainError::WrongStoreId { expected, got } => ChainFault::WrongStoreId(
                expected@,
                got@,
            ),
            SigChainError::InvalidSequence { expected, got } => ChainFault::InvalidSequence(
                *expected,
                *got,
            ),
            SigChainError::InvalidPrevHash { expected, got } => ChainFault::InvalidPrevHash(
                expected@,
                got@,
            ),
            SigChainError::Decode(e) => ChainFault::Decode(*e),
        }
    }
}

impl ChainFault {
    /// The text of the error.
    pub open spec fn text(self) -> Seq<char> {
        match self {
            ChainFault::Log(e) => "Log error: "@ + e.text(),
            ChainFault::InvalidSignature => "Invalid signature"@,
            ChainFault::WrongAuthor(e, g) => "Wrong author: expected "@ + e + ", got "@ + g,
            ChainFault::WrongStoreId(e, g) => "Wrong store_id: expected "@ + e + ", got "@ + g,
            ChainFault::InvalidSequence(e, g) => "Invalid sequence: expected "@
                + text::decimal_text(e as nat) + ", got "@ + text::decimal_text(g as nat),
            ChainFault::InvalidPrevHash(e, g) => "Invalid prev_hash: expected "@ + e + ", got "@
                + g,
            ChainFault::Decode(e) => "Decode error: "@ + e.text(),
        }
    }
}

impl SigChainError {
    /// The text of the error.
    pub fn to_string(&self) -> (r: String)
        ensures
            r@ == self@.text(),
    {
        match self {
            SigChainError::Log(e) => "Log error: ".to_owned().concat(e.to_string().as_str()),
            SigChainError::InvalidSignature => "Invalid signature".to_owned(),
            SigChainError::WrongAuthor { expected, got } =>
                "Wrong author: expected ".to_owned().concat(expected.as_str()).concat(
                ", got ",
            ).concat(got.as_str()),
            SigChainError::WrongStoreId { expected, got } =>
                "Wrong store_id: expected ".to_owned().concat(expected.as_str()).concat(
                ", got ",
            ).concat(got.as_str()),
            SigChainError::InvalidSequence { expected, got } =>
                "Invalid sequence: expected ".to_owned().concat(decimal(*expected).as_str()).concat(
                ", got ",
            ).concat(decimal(*got).as_str()),
            SigChainError::InvalidPrevHash { expected, got } =>
                "Invalid prev_hash: expected ".to_owned().concat(expected.as_str()).concat(
                ", got ",
            ).concat(got.as_str()),
            SigChainError::Decode(e) => "Decode error: ".to_owned().concat(e.to_string().as_str()),
        }
    }
}

// ---------------------------------------------------------------------------
// Chains
// ---------------------------------------------------------------------------

/// The model of a [`SigChain`].
pub struct ChainModel {
    /// The path of the log file.
    pub path: Seq<u8>,
    /// The bytes of the log.
    pub log: Seq<u8>,
    /// The store that the chain belongs to.
    pub store_id: Seq<u8>,
    /// The author.
    pub author_id: Seq<u8>,
    /// The sequence number of the next entry.
    pub next_seq: u64,
    /// The hash of the last entry; zeros where there is none.
    pub last_hash: Seq<u8>,
    /// The timestamp of the last entry, where there is one.
    pub last_hlc: Option<HLC>,
}

/// A chain without entries, on top of a log.
pub open spec fn fresh_chain(
    path: Seq<u8>,
    log: Seq<u8>,
    store_id: Seq<u8>,
    author_id: Seq<u8>,
) -> ChainModel {
    ChainModel {
        path,
        log,
        store_id,
        author_id,
        next_seq: 1,
        last_hash: bytes::zeros(32),
        last_hlc: None,
    }
}

/// The tip of a chain: its last entry's sequence number, hash and timestamp.
pub open spec fn tip_of(c: ChainModel) -> Option<ChainTipModel> {
    match c.last_hlc {
        Some(hlc) if c.next_seq > 1 => Some(
            ChainTipModel { seq: (c.next_seq - 1) as u64, hash: c.last_hash, hlc },
        ),
        _ => None,
    }
}

/// The store that an entry names. What is not a store's identifier counts as
/// zeros, which no store has.
pub open spec fn named_store(e: EntryModel) -> Seq<u8> {
    if e.store_id.len() == 16 {
        e.store_id
    } else {
        bytes::zeros(16)
    }
}

/// Why the entry cannot come next in the chain; `None` where it can.
pub open spec fn chain_fault(c: ChainModel, e: SignedEntryModel) -> Option<ChainFault> {
    if !e.verified() {
        Some(ChainFault::InvalidSignature)
    } else if e.author_id != c.author_id {
        Some(ChainFault::WrongAuthor(text::hex_text(c.author_id), text::hex_text(e.author_id)))
    } else if named_store(e.entry) != c.store_id {
        Some(
            ChainFault::WrongStoreId(
                text::hex_text(c.store_id),
                text::hex_text(named_store(e.entry)),
            ),
        )
    } else if e.entry.seq != c.next_seq {
        Some(ChainFault::InvalidSequence(c.next_seq, e.entry.seq))
    } else if e.entry.prev_hash != c.last_hash {
        Some(
            ChainFault::InvalidPrevHash(
                text::hex_text(c.last_hash),
                text::hex_text(e.entry.prev_hash),
            ),
        )
    } else {
        None
    }
}

/// The chain with the entry behind its last one; the log is left alone.
pub open spec fn advanced(c: ChainModel, e: SignedEntryModel) -> ChainModel {
    ChainModel {
        next_seq: (c.next_seq + 1) as u64,
        last_hash: e.hash(),
        last_hlc: Some(e.entry.timestamp),
        ..c
    }
}

/// The chain with the entry appended.
pub open spec fn appended(c: ChainModel, e: SignedEntryModel) -> ChainModel {
    ChainModel { log: c.log + log::record_bytes(e), ..advanced(c, e) }
}

/// The chain that the reads of a log lead to: every entry has to come next.
pub open spec fn chained(c: ChainModel, reads: Seq<LogRead>) -> Result<ChainModel, ChainFault>
    decreases reads.len(),
{
    if reads.len() == 0 {
        Ok(c)
    } else {
        match chained(c, reads.drop_last()) {
            Err(f) => Err(f),
            Ok(d) => match reads.last() {
                LogRead::Fault(e) => Err(ChainFault::Log(e)),
                LogRead::End => Ok(d),
                LogRead::Record(_, e) => match chain_fault(d, e) {
                    Some(f) => Err(f),
                    None => Ok(advanced(d, e)),
                },
            },
        }
    }
}

/// A fault among the first reads is the fault of all of them.
proof fn lemma_chained_fault_stays(c: ChainModel, reads: Seq<LogRead>, n: int)
    requires
        0 <= n <= reads.len(),
        chained(c, reads.take(n)) is Err,
    ensures
        chained(c, reads) == chained(c, reads.take(n)),
    decreases reads.len() - n,
{
    if n == reads.len() {
        assert(reads.take(n) =~= reads);
    } else {
        assert(reads.take(n + 1).drop_last() =~= reads.take(n));
        lemma_chained_fault_stays(c, reads, n + 1);
    }
}

/// Reading a log into a chain keeps the log, the store and the author.
pub proof fn lemma_chained_keeps(c: ChainModel, reads: Seq<LogRead>)
    ensures
        chained(c, reads) matches Ok(d) ==> d.log == c.log && d.path == c.path && d.store_id
            == c.store_id && d.author_id == c.author_id,
    decreases reads.len(),
{
    if reads.len() > 0 {
        lemma_chained_keeps(c, reads.drop_last());
    }
}

/// The entries can be appended to the chain one behind the other.
pub open spec fn can_append(c: ChainModel, entries: Seq<SignedEntryModel>) -> bool
    decreases entries.len(),
{
    entries.len() == 0 || {
        let d = all_appended(c, entries.drop_last());
        &&& can_append(c, entries.drop_last())
        &&& chain_fault(d, entries.last()) is None
        &&& d.next_seq < u64::MAX
    }
}

/// The chain with the entries appended one behind the other.
pub open spec fn all_appended(c: ChainModel, entries: Seq<SignedEntryModel>) -> ChainModel
    decreases entries.len(),
{
    if entries.len() == 0 {
        c
    } else {
        appended(all_appended(c, entries.drop_last()), entries.last())
    }
}

/// A chain that was built by appending is restored from its log.
pub proof fn law_chain_is_restored(
    path: Seq<u8>,
    store_id: Seq<u8>,
    author_id: Seq<u8>,
    entries: Seq<SignedEntryModel>,
)
    requires
        can_append(fresh_chain(path, Seq::empty(), store_id, author_id), entries),
        forall|i: int| 0 <= i < entries.len() ==> log::readable(#[trigger] entries[i]),
    ensures
        ({
            let start = fresh_chain(path, Seq::empty(), store_id, author_id);
            let built = all_appended(start, entries);
            &&& built.log == log::log_of(entries)
            &&& chained(
                fresh_chain(path, built.log, store_id, author_id),
                log::reads_of(built.log),
            ) == Ok::<ChainModel, ChainFault>(built)
        }),
{
    let start = fresh_chain(path, Seq::empty(), store_id, author_id);
    lemma_built_log(start, entries);
    assert(start.log + log::log_of(entries) =~= log::log_of(entries));
    log::law_log_round_trip(entries);
    let whole = log::log_of(entries);
    lemma_restored(path, store_id, author_id, whole, entries);
}

proof fn lemma_built_log(c: ChainModel, entries: Seq<SignedEntryModel>)
    ensures
        all_appended(c, entries).log == c.log + log::log_of(entries),
    decreases entries.len(),
{
    if entries.len() == 0 {
        assert(c.log + log::log_of(entries) =~= c.log);
    } else {
        lemma_built_log(c, entries.drop_last());
        assert(c.log + log::log_of(entries.drop_last()) + log::record_bytes(entries.last()) =~= c.log
            + log::log_of(entries));
    }
}

proof fn lemma_restored(
    path: Seq<u8>,
    store_id: Seq<u8>,
    author_id: Seq<u8>,
    whole: Seq<u8>,
    entries: Seq<SignedEntryModel>,
)
    requires
        can_append(fresh_chain(path, Seq::empty(), store_id, author_id), entries),
    ensures
        ({
            let reads = entries.map_values(|e: SignedEntryModel| LogRead::Record(e.hash(), e));
            let built = all_appended(
                fresh_chain(path, Seq::empty(), store_id, author_id),
                entries,
            );
            chained(fresh_chain(path, whole, store_id, author_id), reads) == Ok::<
                ChainModel,
                ChainFault,
            >(ChainModel { log: whole, ..built })
        }),
    decreases entries.len(),
{
    let read = |e: SignedEntryModel| LogRead::Record(e.hash(), e);
    let reads = entries.map_values(read);
    if entries.len() > 0 {
        lemma_restored(path, store_id, author_id, whole, entries.drop_last());
        assert(reads.drop_last() =~= entries.drop_last().map_values(read));
        assert(reads.last() == read(entries.last()));
    }
}

/// In a chain built by appending, every entry names the hash of the one before
/// it, the sequence numbers count up from one, and all entries are the author's.
pub proof fn law_chain_is_linked(c: ChainModel, entries: Seq<SignedEntryModel>, i: int)
    requires
        can_append(c, entries),
        0 <= i < entries.len(),
    ensures
        entries[i].author_id == c.author_id,
        entries[i].verified(),
        entries[i].entry.seq == c.next_seq + i,
        i > 0 ==> entries[i].entry.prev_hash == entries[i - 1].hash(),
        i == 0 ==> entries[i].entry.prev_hash == c.last_hash,
    decreases entries.len(),
{
    if i < entries.len() - 1 {
        assert(entries.drop_last()[i] == entries[i]);
        law_chain_is_linked(c, entries.drop_last(), i);
        if i > 0 {
            assert(entries.drop_last()[i - 1] == entries[i - 1]);
        }
    } else {
        lemma_appended_state(c, entries.drop_last());
        if i > 0 {
            assert(entries.drop_last().last() == entries[i - 1]);
        }
    }
}

proof fn lemma_appended_state(c: ChainModel, entries: Seq<SignedEntryModel>)
    requires
        can_append(c, entries),
    ensures
        ({
            let d = all_appended(c, entries);
            &&& d.author_id == c.author_id
            &&& d.store_id == c.store_id
            &&& d.next_seq == c.next_seq + entries.len()
            &&& d.last_hash == if entries.len() == 0 {
                c.last_hash
            } else {
                entries.last().hash()
            }
        }),
    decreases entries.len(),
{
    if entries.len() > 0 {
        lemma_appended_state(c, entries.drop_last());
    }
}

/// An author's chain within a store.
pub struct SigChain {
    log: Log,
    store_id: Uuid,
    author_id: PubKey,
    next_seq: u64,
    last_hash: Digest,
    last_hlc: Option<HLC>,
}

impl View for SigChain {
    type V = ChainModel;

    closed spec fn view(&self) -> ChainModel {
        ChainModel {
            path: self.log.path_bytes(),
            log: self.log.contents(),
            store_id: self.store_id@,
            author_id: self.author_id@,
            next_seq: self.next_seq,
            last_hash: self.last_hash@,
            last_hlc: self.last_hlc,
        }
    }
}

impl SigChain {
    /// Sequence numbers count from one, and every entry has its record in the
    /// log.
    pub open spec fn wf(&self) -> bool {
        &&& self@.next_seq >= 1
        &&& 2 * (self@.next_seq - 1) <= self@.log.len()
    }

    /// A chain without entries, on top of a log.
    pub fn new(log: Log, store_id: Uuid, author_id: PubKey) -> (r: Self)
        ensures
            r.wf(),
            r@ == fresh_chain(log.path_bytes(), log.contents(), store_id@, author_id@),
    {
        let r = SigChain {
            log,
            store_id,
            author_id,
            next_seq: 1,
            last_hash: [0u8; 32],
            last_hlc: None,
        };
        assert(r@.last_hash =~= bytes::zeros(32));
        r
    }

    /// The chain that a log holds. Every entry of the log has to come next.
    pub fn from_log(log: Log, store_id: Uuid, author_id: PubKey) -> (r: Result<
        Self,
        SigChainError,
    >)
        ensures
            match chained(
                fresh_chain(log.path_bytes(), log.contents(), store_id@, author_id@),
                log::reads_of(log.contents()),
            ) {
                Ok(c) => r matches Ok(chain) && chain.wf() && chain@ == c,
                Err(f) => r matches Err(e) && e@ == f,
            },
    {
        let ghost start = fresh_chain(log.path_bytes(), log.contents(), store_id@, author_id@);
        let ghost reads = log::reads_of(log.contents());
        let total: usize = log.bytes().len();
        let mut iter = log.iter();
        let mut chain = SigChain::new(log, store_id, author_id);
        let ghost mut n: int = 0;
        proof {
            assert(reads.take(0) =~= Seq::empty());
            assert(reads.skip(0) =~= reads);
        }
        loop
            invariant
                iter.wf(),
                iter.from_seq() == 0,
                iter.to_seq() == 0,
                chain.wf(),
                0 <= n <= reads.len(),
                reads.skip(n) == log::reads_of(iter.rest()),
                chained(start, reads.take(n)) == Ok::<ChainModel, ChainFault>(chain@),
                chain@.log.len() == total,
                iter.rest().len() + 2 * (chain@.next_seq - 1) <= total,
                reads == log::reads_of(log.contents()),
                start == fresh_chain(log.path_bytes(), log.contents(), store_id@, author_id@),
            decreases iter.rest().len(),
        {
            let ghost rest = iter.rest();
            let next = iter.next();
            proof {
                log::lemma_read_bounds(rest);
                if next is Some {
                    let tail = log::reads_of(rest.skip(log::read_at(rest).1 as int));
                    assert(log::reads_of(rest) == seq![log::read_at(rest).0] + tail);
                    assert(reads.skip(n).len() > 0);
                    assert(log::reads_of(rest)[0] == log::read_at(rest).0);
                }
            }
            match next {
                None => {
                    proof {
                        assert(log::reads_of(rest) =~= Seq::empty());
                        assert(reads.take(n) =~= reads);
                    }
                    return Ok(chain);
                },
                Some(Err(e)) => {
                    proof {
                        assert(reads.skip(n)[0] == reads[n]);
                        assert(reads.take(n + 1).drop_last() =~= reads.take(n));
                        lemma_chained_fault_stays(start, reads, n + 1);
                    }
                    return Err(SigChainError::Log(e));
                },
                Some(Ok(entry)) => {
                    proof {
                        assert(reads.skip(n)[0] == reads[n]);
                        assert(reads.take(n + 1).drop_last() =~= reads.take(n));
                        assert(reads.take(n + 1).last() == reads[n]);
                        assert(reads.skip(n).skip(1) =~= reads.skip(n + 1));
                        assert(log::reads_of(rest).skip(1) =~= log::reads_of(iter.rest()));
                    }
                    match chain.validate(&entry) {
                        Ok(()) => {},
                        Err(e) => {
                            proof {
                                lemma_chained_fault_stays(start, reads, n + 1);
                            }
                            return Err(e);
                        },
                    }
                    chain.last_hash = entry.hash();
                    chain.next_seq = chain.next_seq + 1;
                    chain.last_hlc = Some(entry.entry.timestamp);
                    proof {
                        n = n + 1;
                    }
                },
            }
        }
    }

    /// The author.
    pub fn author_id(&self) -> (r: &PubKey)
        ensures
            r@ == self@.author_id,
    {
        &self.author_id
    }

    /// The sequence number of the next entry.
    pub fn next_seq(&self) -> (r: u64)
        ensures
            r == self@.next_seq,
    {
        self.next_seq
    }

    /// The hash of the last entry; zeros where there is none.
    pub fn last_hash(&self) -> (r: &Digest)
        ensures
            r@ == self@.last_hash,
    {
        &self.last_hash
    }

    /// The timestamp of the last entry, where there is one.
    pub fn last_hlc(&self) -> (r: Option<HLC>)
        ensures
            r == self@.last_hlc,
    {
        self.last_hlc
    }

    /// The tip of the chain, where it has entries.
    pub fn tip(&self) -> (r: Option<ChainTip>)
        ensures
            match tip_of(self@) {
                Some(t) => r matches Some(tip) && tip@ == t,
                None => r is None,
            },
    {
        match self.last_hlc {
            Some(hlc) if self.next_seq > 1 => Some(
                ChainTip { seq: self.next_seq - 1, hash: self.last_hash, hlc },
            ),
            _ => None,
        }
    }

    /// The chain's log.
    pub fn log(&self) -> (r: &Log)
        ensures
            r.path_bytes() == self@.path,
            r.contents() == self@.log,
    {
        &self.log
    }

    /// How many entries the chain has.
    pub fn len(&self) -> (r: u64)
        requires
            self.wf(),
        ensures
            r == self@.next_seq - 1,
    {
        self.next_seq - 1
    }

    /// Whether the chain has no entries.
    pub fn is_empty(&self) -> (r: bool)
        ensures
            r == (self@.next_seq == 1),
    {
        self.next_seq == 1
    }

    /// Whether the entry can come next: its signature holds, it is of the chain's
    /// author and store, and it follows the last entry.
    pub fn validate(&self, signed_entry: &SignedEntry) -> (r: Result<(), SigChainError>)
        ensures
            match chain_fault(self@, signed_entry@) {
                None => r is Ok,
                Some(f) => r matches Err(e) && e@ == f,
            },
    {
        match signed_entry.verify() {
            Ok(()) => {},
            Err(_) => {
                return Err(SigChainError::InvalidSignature);
            },
        }
        if !bytes_eq(signed_entry.author_id.as_slice(), self.author_id.as_slice()) {
            return Err(
                SigChainError::WrongAuthor {
                    expected: hex_encode(self.author_id.as_slice()),
                    got: hex_encode(signed_entry.author_id.as_slice()),
                },
            );
        }
        let store: Uuid = if signed_entry.entry.store_id.len() == 16 {
            to_array16(signed_entry.entry.store_id.as_slice())
        } else {
            let z: Uuid = [0u8; 16];
            assert(z@ =~= bytes::zeros(16));
            z
        };
        if !bytes_eq(store.as_slice(), self.store_id.as_slice()) {
            return Err(
                SigChainError::WrongStoreId {
                    expected: hex_encode(self.store_id.as_slice()),
                    got: hex_encode(store.as_slice()),
                },
            );
        }
        if signed_entry.entry.seq != self.next_seq {
            return Err(
                SigChainError::InvalidSequence {
                    expected: self.next_seq,
                    got: signed_entry.entry.seq,
                },
            );
        }
        if !bytes_eq(signed_entry.entry.prev_hash.as_slice(), self.last_hash.as_slice()) {
            return Err(
                SigChainError::InvalidPrevHash {
                    expected: hex_encode(self.last_hash.as_slice()),
                    got: hex_encode(signed_entry.entry.prev_hash.as_slice()),
                },
            );
        }
        Ok(())
    }

    /// Appends an entry that has been validated. An entry that is too large for
    /// the log is refused, and the chain stays as it was.
    pub fn append_unchecked(&mut self, signed_entry: &SignedEntry) -> (r: Result<
        (),
        SigChainError,
    >)
        requires
            old(self).wf(),
        ensures
            final(self).wf(),
            if signed_entry@.encoding().len() > MAX_ENTRY_SIZE {
                &&& r matches Err(e) && e@ == ChainFault::Log(
                    LogError::EntryTooLarge(signed_entry@.encoding().len() as usize),
                )
                &&& final(self)@ == old(self)@
            } else {
                r is Ok && final(self)@ == appended(old(self)@, signed_entry@)
            },
    {
        let size: usize = self.log.bytes().len();
        assert(2 * (self.next_seq - 1) <= size);
        match self.log.append(signed_entry) {
            Ok(()) => {},
            Err(e) => {
                return Err(SigChainError::Log(e));
            },
        }
        self.last_hash = signed_entry.hash();
        proof {
            log::lemma_record_len(signed_entry@);
        }
        self.next_seq = self.next_seq + 1;
        self.last_hlc = Some(signed_entry.entry.timestamp);
        Ok(())
    }

    /// Appends an entry if it can come next. Otherwise the chain stays as it was.
    pub fn append(&mut self, signed_entry: &SignedEntry) -> (r: Result<(), SigChainError>)
        requires
            old(self).wf(),
        ensures
            final(self).wf(),
            match chain_fault(old(self)@, signed_entry@) {
                Some(f) => r matches Err(e) && e@ == f && final(self)@ == old(self)@,
                None => if signed_entry@.encoding().len() > MAX_ENTRY_SIZE {
                    &&& r matches Err(e) && e@ == ChainFault::Log(
                        LogError::EntryTooLarge(signed_entry@.encoding().len() as usize),
                    )
                    &&& final(self)@ == old(self)@
                } else {
                    r is Ok && final(self)@ == appended(old(self)@, signed_entry@)
                },
            },
    {
        match self.validate(signed_entry) {
            Ok(()) => self.append_unchecked(signed_entry),
            Err(e) => Err(e),
        }
    }

    /// Builds and signs the next entry of the chain, made when the wall clock
    /// reads `now_ms`. It is not appended.
    pub fn build_entry_at(
        &self,
        node: &NodeIdentity,
        parent_hashes: Vec<Vec<u8>>,
        ops: Vec<Operation>,
        now_ms: u64,
    ) -> (r: SignedEntry)
        ensures
            r@ == built_entry(
                self@,
                node.secret(),
                message::byte_models(parent_hashes@),
                message::models(ops@),
                now_ms,
            ),
            r@.verified(),
    {
        let ghost all = message::models(ops@);
        let hlc = HLC { wall_time: now_ms, counter: 0 };
        let mut builder = EntryBuilder::new(self.next_seq, hlc).store_id(
            to_vec(self.store_id.as_slice()),
        ).prev_hash(to_vec(self.last_hash.as_slice())).parent_hashes(parent_hashes);
        let ghost start = builder@;
        let mut i: usize = 0;
        assert(builder@.ops =~= all.take(0));
        while i < ops.len()
            invariant
                i <= ops@.len(),
                all == message::models(ops@),
                builder@ == (EntryModel { ops: all.take(i as int), ..start }),
            decreases ops@.len() - i,
        {
            builder = builder.operation(ops[i].clone());
            i += 1;
            assert(all.take(i as int) =~= all.take(i - 1).push(all[i - 1]));
        }
        assert(all.take(i as int) =~= all);
        builder.sign(node)
    }

    /// Builds and signs the next entry of the chain, made now. It is not
    /// appended.
    pub fn build_entry(
        &self,
        node: &NodeIdentity,
        parent_hashes: Vec<Vec<u8>>,
        ops: Vec<Operation>,
    ) -> (r: SignedEntry)
        ensures
            exists|now_ms: u64|
                r@ == #[trigger] built_entry(
                    self@,
                    node.secret(),
                    message::byte_models(parent_hashes@),
                    message::models(ops@),
                    now_ms,
                ),
            r@.verified(),
    {
        let now: u64 = SystemClock.now_ms();
        self.build_entry_at(node, parent_hashes, ops, now)
    }
}

/// The next entry of a chain, signed with the given secret key.
pub open spec fn built_entry(
    c: ChainModel,
    secret: Seq<u8>,
    parents: Seq<Seq<u8>>,
    ops: Seq<OperationModel>,
    now_ms: u64,
) -> SignedEntryModel {
    let e = EntryModel {
        version: 1,
        store_id: c.store_id,
        prev_hash: c.last_hash,
        parent_hashes: parents.filter(|h: Seq<u8>| h.len() == 32),
        seq: c.next_seq,
        timestamp: HLC { wall_time: now_ms, counter: 0 },
        ops,
    };
    SignedEntryModel {
        entry: e,
        signature: crypto::ed25519_signature(secret, e.signed_bytes()),
        author_id: crypto::ed25519_public(secret),
    }
}

/// Whatever a chain holds, the entry that is built when the wall clock reads `now_ms`
/// has that time and the counter zero. It is the author's whose key signs it, names the
/// chain's store, last hash and next number, and holds the operations in their order and
/// those of the parents that are hashes.
pub proof fn law_built_entry_is_of_its_time(
    c: ChainModel,
    secret: Seq<u8>,
    parents: Seq<Seq<u8>>,
    ops: Seq<OperationModel>,
    now_ms: u64,
)
    ensures
        ({
            let e = built_entry(c, secret, parents, ops, now_ms);
            &&& e.entry.timestamp.wall_time == now_ms
            &&& e.entry.timestamp.counter == 0
            &&& e.entry.seq == c.next_seq
            &&& e.entry.prev_hash == c.last_hash
            &&& e.entry.store_id == c.store_id
            &&& e.entry.version == 1
            &&& e.entry.ops == ops
            &&& e.author_id == crypto::ed25519_public(secret)
            &&& e.signature == crypto::ed25519_signature(secret, e.entry.signed_bytes())
            &&& forall|p: Seq<u8>| #[trigger]
                e.entry.parent_hashes.contains(p) <==> parents.contains(p) && p.len() == 32
            &&& (forall|i: int| 0 <= i < parents.len() ==> (#[trigger] parents[i]).len() == 32)
                ==> e.entry.parent_hashes == parents
        }),
{
    let e = built_entry(c, secret, parents, ops, now_ms);
    let keep = |h: Seq<u8>| h.len() == 32;
    assert forall|p: Seq<u8>| #[trigger] e.entry.parent_hashes.contains(p) <==> parents.contains(p)
        && p.len() == 32 by {
        if parents.filter(keep).contains(p) {
            parents.lemma_filter_contains_rev(keep, p);
            let i = parents.filter(keep).index_of(p);
            parents.lemma_filter_pred(keep, i);
        }
        if parents.contains(p) && p.len() == 32 {
            let i = parents.index_of(p);
            parents.lemma_filter_contains(keep, i);
        }
    }
    if forall|i: int| 0 <= i < parents.len() ==> (#[trigger] parents[i]).len() == 32 {
        lemma_keep_hashes(parents);
    }
}

proof fn lemma_keep_hashes(parents: Seq<Seq<u8>>)
    requires
        forall|i: int| 0 <= i < parents.len() ==> (#[trigger] parents[i]).len() == 32,
    ensures
        parents.filter(|h: Seq<u8>| h.len() == 32) == parents,
    decreases parents.len(),
{
    reveal(Seq::filter);
    if parents.len() > 0 {
        let before = parents.drop_last();
        assert forall|i: int| 0 <= i < before.len() implies (#[trigger] before[i]).len() == 32 by {
            assert(before[i] == parents[i]);
        }
        lemma_keep_hashes(before);
        assert(parents[parents.len() - 1].len() == 32);
        assert(before.push(parents.last()) =~= parents);
    }
}

/// The later of two entries that a node builds wins over the earlier one, and over every
/// head of another author that is earlier than the time of its making.
pub proof fn law_later_write_wins(
    c: ChainModel,
    secret: Seq<u8>,
    parents: Seq<Seq<u8>>,
    ops: Seq<OperationModel>,
    now_ms: u64,
    new: HeadModel,
    other: HeadModel,
)
    requires
        new.hlc == built_entry(c, secret, parents, ops, now_ms).entry.timestamp,
        other.hlc.wall_time < now_ms,
    ensures
        new.outranks(other),
        !other.outranks(new),
{
    crate::head::law_later_head_wins(new, other);
}

/// An entry that a chain's own author builds can come next in the chain.
pub proof fn law_built_entry_comes_next(
    c: ChainModel,
    secret: Seq<u8>,
    parents: Seq<Seq<u8>>,
    ops: Seq<OperationModel>,
    now_ms: u64,
)
    requires
        c.author_id == crypto::ed25519_public(secret),
        c.store_id.len() == 16,
        built_entry(c, secret, parents, ops, now_ms).verified(),
    ensures
        chain_fault(c, built_entry(c, secret, parents, ops, now_ms)) is None,
{
}

/// An entry can come next exactly where its author's key accepts the signature, it is of
/// the chain's author and store, has the next number and names the last hash. The first of
/// these that does not hold is what it is refused for.
pub proof fn law_what_comes_next(c: ChainModel, e: SignedEntryModel)
    ensures
        ({
            let signed = crypto::ed25519_accepts(
                e.author_id,
                e.entry.signed_bytes(),
                e.signature,
            );
            let store = if e.entry.store_id.len() == 16 {
                e.entry.store_id
            } else {
                Seq::new(16, |i: int| 0u8)
            };
            &&& chain_fault(c, e) is None <==> signed && e.author_id == c.author_id && store
                == c.store_id && e.entry.seq == c.next_seq && e.entry.prev_hash == c.last_hash
            &&& chain_fault(c, e) is Some && !signed ==> chain_fault(c, e)
                == Some(ChainFault::InvalidSignature)
            &&& signed && e.author_id != c.author_id ==> chain_fault(c, e) is Some && chain_fault(
                c,
                e,
            )->0 is WrongAuthor
            &&& signed && e.author_id == c.author_id && store != c.store_id ==> chain_fault(c, e) is Some && chain_fault(
                c,
                e,
            )->0 is WrongStoreId
            &&& signed && e.author_id == c.author_id && store == c.store_id && e.entry.seq
                != c.next_seq ==> chain_fault(c, e) == Some(
                ChainFault::InvalidSequence(c.next_seq, e.entry.seq),
            )
            &&& signed && e.author_id == c.author_id && store == c.store_id && e.entry.seq
                == c.next_seq && e.entry.prev_hash != c.last_hash ==> chain_fault(c, e) is Some && chain_fault(
                c,
                e,
            )->0 is InvalidPrevHash
        }),
{
    assert(bytes::zeros(16) =~= Seq::new(16, |i: int| 0u8));
}

/// A chain to which an entry was appended has the entry's record behind its log and the
/// entry as its tip. The next number is one more, and the rest stays. Reading the log on
/// gives the entry behind all others.
pub proof fn law_appended_entry_is_the_last(c: ChainModel, e: SignedEntryModel)
    requires
        chain_fault(c, e) is None,
        1 <= c.next_seq < u64::MAX,
    ensures
        ({
            let d = appended(c, e);
            &&& d.next_seq == c.next_seq + 1
            &&& d.last_hash == crypto::blake3_hash(e.encoding())
            &&& d.last_hlc == Some(e.entry.timestamp)
            &&& d.log == c.log + log::record_bytes(e)
            &&& d.path == c.path && d.store_id == c.store_id && d.author_id == c.author_id
            &&& tip_of(d) matches Some(t) && t.seq == e.entry.seq && t.hash == e.hash() && t.hlc
                == e.entry.timestamp
        }),
{
}

/// A chain without entries has no tip, starts with the number one, and has a last hash of
/// zeros.
pub proof fn law_fresh_chain_starts_at_one(
    path: Seq<u8>,
    log: Seq<u8>,
    store_id: Seq<u8>,
    author_id: Seq<u8>,
)
    ensures
        ({
            let c = fresh_chain(path, log, store_id, author_id);
            &&& c.next_seq == 1
            &&& c.last_hash == Seq::new(32, |i: int| 0u8)
            &&& c.last_hlc is None
            &&& tip_of(c) is None
            &&& c.author_id == author_id && c.store_id == store_id && c.log == log && c.path
                == path
        }),
{
    assert(bytes::zeros(32) =~= Seq::new(32, |i: int| 0u8));
}

/// A log is read into a chain only where every entry comes next at its place: one more record
/// is taken exactly where it does, and is then the chain's last; a read that fails is an error
/// in any case.
pub proof fn law_every_read_has_to_come_next(
    c: ChainModel,
    reads: Seq<LogRead>,
    hash: Seq<u8>,
    e: SignedEntryModel,
    fault: LogError,
)
    ensures
        chained(c, Seq::empty()) == Ok::<ChainModel, ChainFault>(c),
        chained(c, reads) is Err ==> chained(c, reads.push(LogRead::Record(hash, e))) == chained(
            c,
            reads,
        ),
        chained(c, reads) matches Ok(d) ==> {
            let more = chained(c, reads.push(LogRead::Record(hash, e)));
            &&& chain_fault(d, e) matches Some(f) ==> more == Err::<ChainModel, ChainFault>(f)
            &&& chain_fault(d, e) is None ==> (more matches Ok(x) && x.last_hash == e.hash()
                && x.last_hlc == Some(e.entry.timestamp) && x.next_seq == (d.next_seq + 1) as u64
                && x.log == d.log && x.author_id == d.author_id && x.store_id == d.store_id)
            &&& chained(c, reads.push(LogRead::Fault(fault))) == Err::<ChainModel, ChainFault>(
                ChainFault::Log(fault),
            )
        },
{
    assert(reads.push(LogRead::Record(hash, e)).drop_last() =~= reads);
    assert(reads.push(LogRead::Fault(fault)).drop_last() =~= reads);
}

} // verus!
