//! The chains of a store's authors, the index of all chained entries, and the
//! entries that wait.
use crate::bytes;
use crate::bytes::{to_array32, to_vec, Digest, PubKey, Uuid};
use crate::data_dir;
use crate::data_dir::join_path;
use crate::entry;
use crate::entry::{SignedEntry, SignedEntryModel};
use crate::store::log;
use crate::store::log::{Log, LogError, LogRead};
use crate::store::sigchain;
use crate::store::sigchain::orphan_store;
use crate::store::sigchain::orphan_store::{GapInfo, OrphanInfo, OrphanModel, OrphanStore};
use crate::store::sigchain::{ChainFault, ChainModel, SigChain, SigChainError};
use crate::store::sync_state;
use crate::store::sync_state::{AuthorInfo, SyncState};
use crate::message;
use crate::sorting;
use crate::table;
use crate::table::{ByteTable, Table};
use crate::text;
use crate::text::hex_encode;
use crate::MAX_ENTRY_SIZE;
use vstd::prelude::*;
use vstd::string::*;

verus! {

/// What is to be done with an entry, judged by its author's chain.
#[derive(Debug, PartialEq, Eq)]
pub enum SigchainValidation {
    /// The entry comes next.
    Valid,
    /// An entry before this one is missing.
    Orphan { gap: GapInfo, prev_hash: Digest },
    /// The entry is chained already.
    Duplicate,
    /// The entry can never be chained.
    Error(SigChainError),
}

/// The model of [`SigchainValidation`].
pub enum Verdict {
    Valid,
    Orphan(GapModel, Seq<u8>),
    Duplicate,
    Error(ChainFault),
}

/// The model of [`GapInfo`].
pub struct GapModel {
    pub author: Seq<u8>,
    pub from_seq: u64,
    pub to_seq: u64,
    pub last_known_hash: Option<Seq<u8>>,
}

impl View for GapInfo {
    type V = GapModel;

    open spec fn view(&self) -> GapModel {
        GapModel {
            author: self.author@,
            from_seq: self.from_seq,
            to_seq: self.to_seq,
            last_known_hash: match self.last_known_hash {
                Some(h) => Some(h@),
                None => None,
            },
        }
    }
}

impl View for SigchainValidation {
    type V = Verdict;

    open spec fn view(&self) -> Verdict {
        match self {
            SigchainValidation::Valid => Verdict::Valid,
            SigchainValidation::Orphan { gap, prev_hash } => Verdict::Orphan(gap@, prev_hash@),
            SigchainValidation::Duplicate => Verdict::Duplicate,
            SigchainValidation::Error(e) => Verdict::Error(e@),
        }
    }
}

/// The model of a [`SigChainManager`].
#[verifier::ext_equal]
pub struct ManagerModel {
    /// The directory of the log files.
    pub logs_dir: Seq<u8>,
    /// The store.
    pub store_id: Seq<u8>,
    /// The chain of every author who is known.
    pub chains: Map<Seq<u8>, ChainModel>,
    /// The hashes of all chained entries.
    pub hashes: Set<Seq<u8>>,
    /// What waits.
    pub orphans: OrphanModel,
    /// The gaps that have been found and not been reported yet.
    pub gaps: Seq<GapModel>,
}

/// The name of an author's log file.
pub open spec fn log_name(author: Seq<u8>) -> Seq<char> {
    text::hex_text(author) + ".log"@
}

/// The path of an author's log file.
pub open spec fn log_path(dir: Seq<u8>, author: Seq<u8>) -> Seq<u8> {
    data_dir::path_in(dir, log_name(author))
}

/// The chain that an author's log file holds.
pub open spec fn chain_in_file(
    dir: Seq<u8>,
    store_id: Seq<u8>,
    author: Seq<u8>,
    contents: Seq<u8>,
) -> Result<ChainModel, ChainFault> {
    sigchain::chained(
        sigchain::fresh_chain(log_path(dir, author), contents, store_id, author),
        log::reads_of(contents),
    )
}

/// Whether the manager is the one of the given log files, by author, with the given
/// entries that wait. Files that are not named by a public key are left out.
pub open spec fn restored(
    m: ManagerModel,
    dir: Seq<u8>,
    store_id: Seq<u8>,
    files: Map<Seq<u8>, Seq<u8>>,
    orphans: OrphanModel,
) -> bool {
    &&& m.logs_dir == dir
    &&& m.store_id == store_id
    &&& m.orphans == orphans
    &&& m.gaps == Seq::<GapModel>::empty()
    &&& forall|a: Seq<u8>| #[trigger]
        m.chains.dom().contains(a) <==> files.dom().contains(a) && a.len() == 32
    &&& forall|a: Seq<u8>| #[trigger]
        m.chains.dom().contains(a) ==> chain_in_file(dir, store_id, a, files[a]) == Ok::<
            ChainModel,
            ChainFault,
        >(m.chains[a])
    &&& forall|h: Seq<u8>| #[trigger]
        m.hashes.contains(h) <==> exists|a: Seq<u8>| #[trigger]
            m.chains.dom().contains(a) && hashes_in(log::reads_of(files[a])).contains(h)
}

/// Whether the fault is that of the first log, in the order of the authors, that
/// does not hold a chain.
pub open spec fn first_fault(
    dir: Seq<u8>,
    store_id: Seq<u8>,
    files: Map<Seq<u8>, Seq<u8>>,
    f: ChainFault,
) -> bool {
    exists|a: Seq<u8>|
        {
            &&& #[trigger] files.dom().contains(a)
            &&& a.len() == 32
            &&& chain_in_file(dir, store_id, a, files[a]) == Err::<ChainModel, ChainFault>(f)
            &&& forall|b: Seq<u8>| #[trigger]
                files.dom().contains(b) && b.len() == 32 && bytes::lex_lt(b, a) ==> chain_in_file(
                    dir,
                    store_id,
                    b,
                    files[b],
                ) is Ok
        }
}

/// The hashes of the entries in a log.
pub open spec fn hashes_in(reads: Seq<LogRead>) -> Set<Seq<u8>> {
    Set::new(
        |h: Seq<u8>|
            exists|i: int|
                0 <= i < reads.len() && (#[trigger] reads[i] matches LogRead::Record(_, e)
                    && e.hash() == h),
    )
}

/// The chain of an author; one without entries where the author is not known.
pub open spec fn chain_of(m: ManagerModel, author: Seq<u8>) -> ChainModel {
    if m.chains.dom().contains(author) {
        m.chains[author]
    } else {
        sigchain::fresh_chain(
            log_path(m.logs_dir, author),
            Seq::empty(),
            m.store_id,
            author,
        )
    }
}

/// The manager once it knows the author.
pub open spec fn knowing(m: ManagerModel, author: Seq<u8>) -> ManagerModel {
    ManagerModel { chains: m.chains.insert(author, chain_of(m, author)), ..m }
}

/// What is to be done with an entry: one that is chained already is a duplicate,
/// one that does not follow the last entry waits, and any other fault is final.
pub open spec fn verdict(m: ManagerModel, e: SignedEntryModel) -> Verdict {
    let c = chain_of(m, e.author_id);
    if m.hashes.contains(e.hash()) {
        Verdict::Duplicate
    } else {
        match sigchain::chain_fault(c, e) {
            None => Verdict::Valid,
            Some(ChainFault::InvalidSequence(_, _)) | Some(
                ChainFault::InvalidPrevHash(_, _),
            ) => Verdict::Orphan(
                GapModel {
                    author: e.author_id,
                    from_seq: c.next_seq,
                    to_seq: e.entry.seq,
                    last_known_hash: Some(c.last_hash),
                },
                e.entry.prev_hash,
            ),
            Some(f) => Verdict::Error(f),
        }
    }
}

/// The manager with the entry appended to its author's chain.
pub open spec fn committed(m: ManagerModel, e: SignedEntryModel) -> ManagerModel {
    ManagerModel {
        chains: m.chains.insert(
            e.author_id,
            sigchain::appended(chain_of(m, e.author_id), e),
        ),
        hashes: m.hashes.insert(e.hash()),
        ..m
    }
}

/// An entry that has become ready, with what it is filed under.
pub struct ReadyOrphan {
    pub entry: SignedEntry,
    pub author: PubKey,
    pub prev_hash: Digest,
    pub entry_hash: Digest,
}

/// The model of [`ReadyOrphan`].
pub struct ReadyModel {
    pub entry: SignedEntryModel,
    pub author: Seq<u8>,
    pub prev_hash: Seq<u8>,
    pub entry_hash: Seq<u8>,
}

impl View for ReadyOrphan {
    type V = ReadyModel;

    open spec fn view(&self) -> ReadyModel {
        ReadyModel {
            entry: self.entry@,
            author: self.author@,
            prev_hash: self.prev_hash@,
            entry_hash: self.entry_hash@,
        }
    }
}

/// The entries of an author that wait for the entry with the given hash, in the
/// order of their keys; none where what waits cannot be read.
pub open spec fn ready_after(
    orphans: Map<Seq<u8>, Seq<u8>>,
    author: Seq<u8>,
    hash: Seq<u8>,
) -> Seq<ReadyModel> {
    match orphan_store::orphans_under(
        orphans,
        table::keys_between(
            table::sorted_keys(orphans.dom()),
            orphan_store::joined(author, hash, bytes::zeros(32)),
            orphan_store::joined(author, hash, orphan_store::ones(32)),
        ),
    ) {
        Ok(found) => found.map_values(
            |t: (u64, SignedEntryModel, Seq<u8>)|
                ReadyModel { entry: t.1, author, prev_hash: hash, entry_hash: t.2 },
        ),
        Err(_) => Seq::empty(),
    }
}

/// The entries that wait for the parent with the given hash, in the order of
/// their keys; none where what waits cannot be read.
pub open spec fn dag_ready_after(dag: Map<Seq<u8>, Seq<u8>>, hash: Seq<u8>) -> Seq<(Seq<u8>, SignedEntryModel, Seq<u8>)> {
    match orphan_store::dag_orphans_under(
        dag,
        table::keys_between(
            table::sorted_keys(dag.dom()),
            orphan_store::joined(hash, bytes::zeros(32), bytes::zeros(32)),
            orphan_store::joined(hash, orphan_store::ones(32), orphan_store::ones(32)),
        ),
    ) {
        Ok(found) => found,
        Err(_) => Seq::empty(),
    }
}

/// How far every chain has got. Chains without entries are left out.
pub open spec fn reached(
    chains: Map<Seq<u8>, ChainModel>,
    s: Map<Seq<u8>, AuthorInfo>,
) -> bool {
    forall|a: Seq<u8>|
        #![trigger s.dom().contains(a)]
        #![trigger chains.dom().contains(a)]
        {
            &&& s.dom().contains(a) <==> chains.dom().contains(a) && chains[a].next_seq > 1
            &&& s.dom().contains(a) ==> {
                &&& s[a].seq == chains[a].next_seq - 1
                &&& s[a].hash@ == chains[a].last_hash
                &&& s[a].hlc == match chains[a].last_hlc {
                    Some(h) => Some((h.wall_time, h.counter)),
                    None => None,
                }
            }
        }
}

/// What is known of an author by their chain.
pub open spec fn chain_info(c: ChainModel, info: AuthorInfo) -> bool {
    &&& info.seq == c.next_seq - 1
    &&& info.hash@ == c.last_hash
    &&& info.hlc == match c.last_hlc {
        Some(h) => Some((h.wall_time, h.counter)),
        None => None,
    }
}

/// What is known of every author by their chain. Chains without entries are left
/// out.
pub open spec fn sync_of(chains: Map<Seq<u8>, ChainModel>) -> Map<Seq<u8>, AuthorInfo> {
    Map::new(
        |a: Seq<u8>| chains.dom().contains(a) && chains[a].next_seq > 1,
        |a: Seq<u8>| choose|info: AuthorInfo| chain_info(chains[a], info),
    )
}

proof fn lemma_sync_of(chains: Map<Seq<u8>, ChainModel>, s: Map<Seq<u8>, AuthorInfo>)
    requires
        reached(chains, s),
    ensures
        s == sync_of(chains),
{
    broadcast use vstd::array::axiom_array_ext_equal;

    let t = sync_of(chains);
    assert forall|a: Seq<u8>| s.dom().contains(a) implies s[a] == t[a] by {
        assert(chain_info(chains[a], s[a]));
        let other = choose|info: AuthorInfo| chain_info(chains[a], info);
        assert(chain_info(chains[a], other));
        assert(other.hash =~= s[a].hash);
    }
    assert(s =~= t);
}

/// The bytes of the logs of the given authors, added up.
pub open spec fn log_bytes(chains: Map<Seq<u8>, ChainModel>, authors: Seq<Seq<u8>>) -> nat
    decreases authors.len(),
{
    if authors.len() == 0 {
        0
    } else {
        log_bytes(chains, authors.drop_last()) + chains[authors.last()].log.len()
    }
}

// ---------------------------------------------------------------------------
// Laws
// ---------------------------------------------------------------------------

/// An entry that was chained is a duplicate from then on.
pub proof fn law_committed_entry_is_duplicate(m: ManagerModel, e: SignedEntryModel)
    ensures
        verdict(committed(m, e), e) == Verdict::Duplicate,
{
}

/// Chaining an entry of one author leaves the verdict on other authors' entries
/// as it was, unless it is that very entry.
pub proof fn law_authors_are_independent(
    m: ManagerModel,
    e: SignedEntryModel,
    other: SignedEntryModel,
)
    requires
        other.author_id != e.author_id,
        other.hash() != e.hash(),
    ensures
        verdict(committed(m, e), other) == verdict(m, other),
{
}

/// Getting to know an author changes no verdict.
pub proof fn law_knowing_changes_no_verdict(
    m: ManagerModel,
    author: Seq<u8>,
    e: SignedEntryModel,
)
    ensures
        verdict(knowing(m, author), e) == verdict(m, e),
        chain_of(knowing(m, author), e.author_id) == chain_of(m, e.author_id),
{
}

/// The entry that waited for the next one in its chain comes next once that one
/// is chained.
pub proof fn law_orphan_becomes_valid(
    m: ManagerModel,
    e: SignedEntryModel,
    next: SignedEntryModel,
)
    requires
        verdict(m, e) == Verdict::Valid,
        next.verified(),
        next.author_id == e.author_id,
        sigchain::named_store(next.entry) == chain_of(m, e.author_id).store_id,
        next.entry.seq == e.entry.seq + 1,
        next.entry.prev_hash == e.hash(),
        next.hash() != e.hash(),
        !m.hashes.contains(next.hash()),
    ensures
        verdict(m, next) is Orphan,
        verdict(committed(m, e), next) == Verdict::Valid,
{
}

// ---------------------------------------------------------------------------
// The manager
// ---------------------------------------------------------------------------

/// The chains of a store's authors with what waits to be chained.
pub struct SigChainManager {
    logs_dir: Vec<u8>,
    store_id: Uuid,
    chains: Table<SigChain>,
    hashes: ByteTable,
    orphans: OrphanStore,
    gaps: Vec<GapInfo>,
}

/// The models of chains.
pub open spec fn chain_models(t: Map<Seq<u8>, SigChain>) -> Map<Seq<u8>, ChainModel> {
    t.map_values(|c: SigChain| c@)
}

impl View for SigChainManager {
    type V = ManagerModel;

    closed spec fn view(&self) -> ManagerModel {
        ManagerModel {
            logs_dir: self.logs_dir@,
            store_id: self.store_id@,
            chains: chain_models(self.chains@),
            hashes: self.hashes@.dom(),
            orphans: self.orphans@,
            gaps: message::models(self.gaps@),
        }
    }
}

impl SigChainManager {
    /// The tables are well formed, and so is every chain.
    pub closed spec fn wf(&self) -> bool {
        &&& self.chains.wf()
        &&& self.hashes.wf()
        &&& self.orphans.wf()
        &&& forall|k: Seq<u8>| #[trigger]
            self.chains@.dom().contains(k) ==> k.len() == 32 && self.chains@[k].wf()
    }

    /// The authors who are known, in ascending order.
    pub open spec fn authors(&self) -> Seq<Seq<u8>> {
        table::sorted_keys(self@.chains.dom())
    }

    /// The table lists the authors in ascending order.
    proof fn lemma_authors(&self)
        requires
            self.wf(),
        ensures
            self.authors() == self.chains.keys(),
            table::lists(self.authors(), self@.chains.dom()),
    {
        assert(self.chains@.dom() =~= self@.chains.dom());
        self.chains.lemma_listed();
    }

    /// What waits is finitely much, and has an order.
    pub proof fn lemma_waiting(&self)
        requires
            self.wf(),
        ensures
            self@.orphans.orphans.dom().finite(),
            self@.orphans.dag.dom().finite(),
            table::lists(
                table::sorted_keys(self@.orphans.orphans.dom()),
                self@.orphans.orphans.dom(),
            ),
            table::lists(table::sorted_keys(self@.orphans.dag.dom()), self@.orphans.dag.dom()),
    {
        self.orphans.lemma_listed();
    }

    /// The path of an author's log file.
    fn path_of(logs_dir: &[u8], author: &[u8]) -> (r: Vec<u8>)
        ensures
            r@ == log_path(logs_dir@, author@),
    {
        let name = hex_encode(author).concat(".log");
        join_path(logs_dir, name.as_str())
    }

    /// Adds the hashes of a log's entries to the index.
    fn index_log(hashes: &mut ByteTable, log: &Log)
        requires
            old(hashes).wf(),
        ensures
            final(hashes).wf(),
            final(hashes)@.dom() == old(hashes)@.dom().union(
                hashes_in(log::reads_of(log.contents())),
            ),
    {
        let ghost before = hashes@.dom();
        let ghost reads = log::reads_of(log.contents());
        let mut iter = log.iter();
        let ghost mut n: int = 0;
        proof {
            assert(reads.skip(0) =~= reads);
            assert(reads.take(0) =~= Seq::empty());
            assert(before.union(hashes_in(reads.take(0))) =~= before);
        }
        loop
            invariant
                iter.wf(),
                iter.from_seq() == 0,
                iter.to_seq() == 0,
                hashes.wf(),
                0 <= n <= reads.len(),
                reads.skip(n) == log::reads_of(iter.rest()),
                hashes@.dom() == before.union(hashes_in(reads.take(n))),
                reads == log::reads_of(log.contents()),
                before == old(hashes)@.dom(),
            decreases iter.rest().len(),
        {
            let ghost rest = iter.rest();
            let next = iter.next();
            proof {
                log::lemma_read_bounds(rest);
                if next is Some {
                    let tail = log::reads_of(rest.skip(log::read_at(rest).1 as int));
                    assert(log::reads_of(rest) == seq![log::read_at(rest).0] + tail);
                    assert(reads.skip(n).len() > 0);
                    assert(log::reads_of(rest)[0] == log::read_at(rest).0);
                    assert(reads.skip(n)[0] == reads[n]);
                    assert(reads.skip(n).skip(1) =~= reads.skip(n + 1));
                    assert(log::reads_of(rest).skip(1) =~= log::reads_of(iter.rest()));
                    lemma_hashes_next(reads, n);
                }
            }
            match next {
                None => {
                    proof {
                        assert(log::reads_of(rest) =~= Seq::empty());
                        assert(reads.take(n) =~= reads);
                    }
                    return ;
                },
                Some(Err(_)) => {
                    proof {
                        assert(hashes@.dom() =~= before.union(hashes_in(reads.take(n + 1))));
                        n = n + 1;
                    }
                },
                Some(Ok(entry)) => {
                    let hash = entry.hash();
                    hashes.insert(hash.as_slice(), Vec::new());
                    proof {
                        assert(hashes@.dom() =~= before.union(hashes_in(reads.take(n + 1))));
                        n = n + 1;
                    }
                },
            }
        }
    }

    /// The manager of a store that has no logs yet.
    pub fn empty(logs_dir: Vec<u8>, store_id: Uuid) -> (r: Self)
        ensures
            r.wf(),
            r@ == (ManagerModel {
                logs_dir: logs_dir@,
                store_id: store_id@,
                chains: Map::empty(),
                hashes: Set::empty(),
                orphans: OrphanModel { orphans: Map::empty(), dag: Map::empty() },
                gaps: Seq::empty(),
            }),
    {
        let r = SigChainManager {
            logs_dir,
            store_id,
            chains: Table::new(),
            hashes: ByteTable::new(),
            orphans: OrphanStore::open(),
            gaps: Vec::new(),
        };
        proof {
            assert(r@.chains =~= Map::empty());
            assert(r@.hashes =~= Set::empty());
            assert(r@.orphans =~= (OrphanModel { orphans: Map::empty(), dag: Map::empty() }));
            assert(r@.gaps =~= Seq::empty());
        }
        r
    }

    /// The manager of a store's logs, whose files hold the given contents by
    /// author, with what waits. The first log, in the order of the authors, that
    /// does not hold a chain is an error.
    pub fn new(logs_dir: Vec<u8>, store_id: Uuid, files: &ByteTable, orphans: OrphanStore) -> (r:
        Result<Self, SigChainError>)
        requires
            files.wf(),
            orphans.wf(),
        ensures
            match r {
                Ok(m) => m.wf() && restored(m@, logs_dir@, store_id@, files@, orphans@),
                Err(e) => first_fault(logs_dir@, store_id@, files@, e@),
            },
    {
        let ghost keys = files.keys();
        let ghost f = files@;
        let ghost dir = logs_dir@;
        let mut chains: Table<SigChain> = Table::new();
        let mut hashes = ByteTable::new();
        let mut i: usize = 0;
        proof {
            files.lemma_keys();
            assert(keys.take(0) =~= Seq::empty());
        }
        while i < files.len()
            invariant
                files.wf(),
                chains.wf(),
                hashes.wf(),
                keys == files.keys(),
                f == files@,
                dir == logs_dir@,
                i <= keys.len(),
                table::ascending(keys),
                forall|k: Seq<u8>| keys.contains(k) <==> #[trigger] f.dom().contains(k),
                forall|a: Seq<u8>| #[trigger]
                    chains@.dom().contains(a) <==> keys.take(i as int).contains(a) && a.len() == 32,
                forall|a: Seq<u8>| #[trigger]
                    chains@.dom().contains(a) ==> chains@[a].wf() && chain_in_file(
                        dir,
                        store_id@,
                        a,
                        f[a],
                    ) == Ok::<ChainModel, ChainFault>(chains@[a]@),
                forall|h: Seq<u8>| #[trigger]
                    hashes@.dom().contains(h) <==> exists|a: Seq<u8>| #[trigger]
                        chains@.dom().contains(a) && hashes_in(log::reads_of(f[a])).contains(h),
            decreases keys.len() - i,
        {
            let key = files.key_at(i);
            proof {
                table::lemma_take_contains(keys, i as int);
            }
            if key.len() == 32 {
                let author: PubKey = to_array32(key.as_slice());
                let contents = to_vec(files.value_at(i).as_slice());
                let path = SigChainManager::path_of(logs_dir.as_slice(), key.as_slice());
                let log = Log::open_or_create(path, Some(contents));
                let ghost before = hashes@.dom();
                let ghost chains_before = chains@;
                match SigChain::from_log(log, store_id, author) {
                    Ok(chain) => {
                        proof {
                            sigchain::lemma_chained_keeps(
                                sigchain::fresh_chain(
                                    log_path(dir, key@),
                                    f[key@],
                                    store_id@,
                                    key@,
                                ),
                                log::reads_of(f[key@]),
                            );
                        }
                        SigChainManager::index_log(&mut hashes, chain.log());
                        chains.insert(key.as_slice(), chain);
                        proof {
                            assert(!chains_before.dom().contains(key@)) by {
                                if keys.take(i as int).contains(key@) {
                                    let j = keys.take(i as int).index_of(key@);
                                    assert(keys[j] == keys[i as int]);
                                    table::lemma_ascending_unique(keys, j, i as int);
                                }
                            }
                            assert forall|h: Seq<u8>| #[trigger]
                                hashes@.dom().contains(h) <==> exists|a: Seq<u8>| #[trigger]
                                    chains@.dom().contains(a) && hashes_in(
                                        log::reads_of(f[a]),
                                    ).contains(h) by {
                                if before.contains(h) {
                                    let a = choose|a: Seq<u8>| #[trigger]
                                        chains_before.dom().contains(a) && hashes_in(
                                            log::reads_of(f[a]),
                                        ).contains(h);
                                    assert(chains@.dom().contains(a));
                                }
                                if hashes_in(log::reads_of(f[key@])).contains(h) {
                                    assert(chains@.dom().contains(key@));
                                }
                                if exists|a: Seq<u8>| #[trigger]
                                    chains@.dom().contains(a) && hashes_in(
                                        log::reads_of(f[a]),
                                    ).contains(h) {
                                    let a = choose|a: Seq<u8>| #[trigger]
                                        chains@.dom().contains(a) && hashes_in(
                                            log::reads_of(f[a]),
                                        ).contains(h);
                                    if a != key@ {
                                        assert(chains_before.dom().contains(a));
                                    }
                                }
                            }
                        }
                    },
                    Err(e) => {
                        proof {
                            assert(f.dom().contains(key@));
                            assert forall|b: Seq<u8>| #[trigger]
                                f.dom().contains(b) && b.len() == 32 && bytes::lex_lt(
                                    b,
                                    key@,
                                ) implies chain_in_file(dir, store_id@, b, f[b]) is Ok by {
                                let j = keys.index_of(b);
                                if j > i {
                                    assert(bytes::lex_lt(keys[i as int], keys[j]));
                                    bytes::lemma_lex_transitive(b, key@, b);
                                }
                                bytes::lemma_lex_irreflexive(b);
                                assert(j < i);
                                assert(keys.take(i as int)[j] == b);
                                assert(chains@.dom().contains(b));
                            }
                        }
                        return Err(e);
                    },
                }
            }
            i += 1;
        }
        assert(keys.take(i as int) =~= keys);
        let m = SigChainManager { logs_dir, store_id, chains, hashes, orphans, gaps: Vec::new() };
        proof {
            assert(m@.gaps =~= Seq::<GapModel>::empty());
            assert forall|a: Seq<u8>| #[trigger] m@.chains.dom().contains(a) implies m@.chains[a]
                == chains@[a]@ && chains@.dom().contains(a) by {}
            assert forall|a: Seq<u8>| #[trigger] m@.chains.dom().contains(a) <==> files@.dom().contains(
                a,
            ) && a.len() == 32 by {
                assert(chains@.dom().contains(a) <==> m@.chains.dom().contains(a));
            }
            assert forall|h: Seq<u8>| #[trigger] m@.hashes.contains(h) <==> exists|a: Seq<u8>|
                #[trigger]
                m@.chains.dom().contains(a) && hashes_in(log::reads_of(files@[a])).contains(h) by {
                if m@.hashes.contains(h) {
                    let a = choose|a: Seq<u8>| #[trigger]
                        chains@.dom().contains(a) && hashes_in(log::reads_of(f[a])).contains(h);
                    assert(m@.chains.dom().contains(a));
                }
            }
        }
        Ok(m)
    }

    /// Makes sure that the author has a chain.
    fn know(&mut self, author: &PubKey)
        requires
            old(self).wf(),
        ensures
            final(self).wf(),
            final(self)@ == knowing(old(self)@, author@),
            final(self)@.chains.dom().contains(author@),
    {
        let ghost before = *self;
        if !self.chains.contains(author.as_slice()) {
            let path = SigChainManager::path_of(self.logs_dir.as_slice(), author.as_slice());
            let log = Log::open_or_create(path, None);
            let chain = SigChain::new(log, self.store_id, *author);
            self.chains.insert(author.as_slice(), chain);
            proof {
                assert(self@.chains =~= before@.chains.insert(author@, chain@));
            }
        } else {
            assert(before@.chains.insert(author@, before@.chains[author@]) =~= before@.chains);
        }
        assert(self@ =~= knowing(before@, author@));
    }

    /// The chain of an author, who is known from then on.
    pub fn get_or_create(&mut self, author: &PubKey) -> (r: &SigChain)
        requires
            old(self).wf(),
        ensures
            final(self).wf(),
            final(self)@ == knowing(old(self)@, author@),
            r.wf(),
            r@ == chain_of(old(self)@, author@),
    {
        self.know(author);
        let at = self.chains.find(author.as_slice());
        assert(self@.chains[author@] == self.chains@[author@]@);
        match at {
            Some(i) => self.chains.value_at(i),
            None => {
                assert(false);
                self.chains.value_at(0)
            },
        }
    }

    /// The chain of an author who is known.
    pub fn get(&self, author: &PubKey) -> (r: Option<&SigChain>)
        requires
            self.wf(),
        ensures
            match r {
                Some(c) => self@.chains.dom().contains(author@) && c.wf() && c@
                    == self@.chains[author@],
                None => !self@.chains.dom().contains(author@),
            },
    {
        self.chains.get(author.as_slice())
    }

    /// Whether an entry with the hash has been chained.
    pub fn hash_exists(&self, hash: &Digest) -> (r: bool)
        requires
            self.wf(),
        ensures
            r == self@.hashes.contains(hash@),
    {
        self.hashes.contains(hash.as_slice())
    }

    /// Counts a hash among those of the chained entries.
    pub fn register_hash(&mut self, hash: Digest)
        requires
            old(self).wf(),
        ensures
            final(self).wf(),
            final(self)@ == (ManagerModel {
                hashes: old(self)@.hashes.insert(hash@),
                ..old(self)@
            }),
    {
        self.hashes.insert(hash.as_slice(), Vec::new());
        assert(self@.hashes =~= old(self)@.hashes.insert(hash@));
    }

    /// What is to be done with an entry. The author is known from then on.
    pub fn validate_entry(&mut self, entry: &SignedEntry) -> (r: SigchainValidation)
        requires
            old(self).wf(),
        ensures
            final(self).wf(),
            final(self)@ == knowing(old(self)@, entry@.author_id),
            r@ == verdict(old(self)@, entry@),
    {
        self.know(&entry.author_id);
        let hash = entry.hash();
        if self.hash_exists(&hash) {
            return SigchainValidation::Duplicate;
        }
        assert(self@.chains[entry@.author_id] == self.chains@[entry@.author_id]@);
        match self.chains.get(entry.author_id.as_slice()) {
            Some(chain) => {
                match chain.validate(entry) {
                    Ok(()) => SigchainValidation::Valid,
                    Err(SigChainError::InvalidPrevHash { .. }) | Err(
                        SigChainError::InvalidSequence { .. },
                    ) => SigchainValidation::Orphan {
                        gap: GapInfo {
                            author: entry.author_id,
                            from_seq: chain.next_seq(),
                            to_seq: entry.entry.seq,
                            last_known_hash: Some(*chain.last_hash()),
                        },
                        prev_hash: entry.entry.prev_hash,
                    },
                    Err(e) => SigchainValidation::Error(e),
                }
            },
            None => {
                assert(false);
                SigchainValidation::Duplicate
            },
        }
    }

    /// Appends an entry that has been validated to its author's chain: the
    /// entries that have waited for it. They go on waiting until they are
    /// dropped. An entry that is too large is refused.
    pub fn commit_entry(&mut self, entry: &SignedEntry) -> (r: Result<
        Vec<ReadyOrphan>,
        SigChainError,
    >)
        requires
            old(self).wf(),
        ensures
            final(self).wf(),
            if entry@.encoding().len() > MAX_ENTRY_SIZE {
                &&& r matches Err(e) && e@ == ChainFault::Log(
                    LogError::EntryTooLarge(entry@.encoding().len() as usize),
                )
                &&& final(self)@ == knowing(old(self)@, entry@.author_id)
            } else {
                &&& r matches Ok(v) && message::models(v@) == ready_after(
                    old(self)@.orphans.orphans,
                    entry@.author_id,
                    entry@.hash(),
                )
                &&& final(self)@ == committed(old(self)@, entry@)
            },
    {
        let ghost start = self@;
        self.know(&entry.author_id);
        let ghost known = *self;
        let mut chain = match self.chains.take(entry.author_id.as_slice()) {
            Some(chain) => chain,
            None => {
                assert(false);
                return Err(SigChainError::InvalidSignature);
            },
        };
        assert(known@.chains[entry@.author_id] == chain@);
        let done = chain.append_unchecked(entry);
        let ghost chain_model = chain@;
        self.chains.insert(entry.author_id.as_slice(), chain);
        proof {
            assert forall|k: Seq<u8>| #[trigger] self.chains@.dom().contains(k) implies k.len()
                == 32 && self.chains@[k].wf() by {
                if k != entry@.author_id {
                    assert(known.chains@.dom().contains(k));
                }
            }
            assert forall|k: Seq<u8>| #[trigger] self@.chains.dom().contains(k) implies self@.chains[k]
                == start.chains.insert(entry@.author_id, chain_model)[k] by {
                if k != entry@.author_id {
                    assert(known@.chains[k] == known.chains@[k]@);
                }
            }
            assert forall|k: Seq<u8>| #[trigger] self@.chains.dom().contains(k)
                <==> start.chains.insert(entry@.author_id, chain_model).dom().contains(k) by {
                if k != entry@.author_id {
                    assert(known@.chains.dom().contains(k) <==> known.chains@.dom().contains(k));
                }
            }
            assert(self@.chains =~= start.chains.insert(entry@.author_id, chain_model));
        }
        match done {
            Ok(()) => {},
            Err(e) => {
                proof {
                    assert(self@ =~= knowing(start, entry@.author_id));
                }
                return Err(e);
            },
        }
        let hash = entry.hash();
        self.hashes.insert(hash.as_slice(), Vec::new());
        proof {
            assert(self@.hashes =~= start.hashes.insert(hash@));
            assert(self@ =~= committed(start, entry@));
        }
        let mut ready: Vec<ReadyOrphan> = Vec::new();
        match self.orphans.find_by_prev_hash(&entry.author_id, &hash) {
            Ok(found) => {
                let mut found = found;
                let ghost all = orphan_store::orphan_models(found@);
                let author = entry.author_id;
                let mut back: Vec<ReadyOrphan> = Vec::new();
                while found.len() > 0
                    invariant
                        found@.len() + back@.len() == all.len(),
                        forall|i: int|
                            0 <= i < found@.len() ==> #[trigger] all[i] == (
                                found@[i].0,
                                found@[i].1@,
                                found@[i].2@,
                            ),
                        forall|i: int|
                            0 <= i < back@.len() ==> (#[trigger] back@[i])@ == (ReadyModel {
                                entry: all[all.len() - 1 - i].1,
                                author: author@,
                                prev_hash: hash@,
                                entry_hash: all[all.len() - 1 - i].2,
                            }),
                    decreases found@.len(),
                {
                    match found.pop() {
                        Some((_, orphan, orphan_hash)) => {
                            assert(all[found@.len() as int].1 == orphan@);
                            assert(all[found@.len() as int].2 == orphan_hash@);
                            back.push(
                                ReadyOrphan {
                                    entry: orphan,
                                    author,
                                    prev_hash: hash,
                                    entry_hash: orphan_hash,
                                },
                            );
                        },
                        None => {},
                    }
                }
                while back.len() > 0
                    invariant
                        back@.len() + ready@.len() == all.len(),
                        forall|i: int|
                            0 <= i < back@.len() ==> (#[trigger] back@[i])@ == (ReadyModel {
                                entry: all[all.len() - 1 - i].1,
                                author: author@,
                                prev_hash: hash@,
                                entry_hash: all[all.len() - 1 - i].2,
                            }),
                        forall|i: int|
                            0 <= i < ready@.len() ==> (#[trigger] ready@[i])@ == (ReadyModel {
                                entry: all[i].1,
                                author: author@,
                                prev_hash: hash@,
                                entry_hash: all[i].2,
                            }),
                    decreases back@.len(),
                {
                    match back.pop() {
                        Some(x) => {
                            ready.push(x);
                        },
                        None => {},
                    }
                }
                assert(message::models(ready@) =~= ready_after(
                    start.orphans.orphans,
                    entry@.author_id,
                    hash@,
                ));
            },
            Err(_) => {
                assert(message::models(ready@) =~= Seq::empty());
            },
        }
        Ok(ready)
    }

    /// Drops an entry that waited for its predecessor.
    pub fn delete_sigchain_orphan(
        &mut self,
        author: &PubKey,
        prev_hash: &Digest,
        entry_hash: &Digest,
    )
        requires
            old(self).wf(),
        ensures
            final(self).wf(),
            final(self)@ == orphan_dropped(old(self)@, author@, prev_hash@, entry_hash@),
    {
        let ghost before = self@;
        self.orphans.delete(author, prev_hash, entry_hash);
        assert(self@.orphans =~= orphan_dropped(before, author@, prev_hash@, entry_hash@).orphans);
        assert(self@ =~= orphan_dropped(before, author@, prev_hash@, entry_hash@));
    }

    /// Keeps an entry, received at the given time, that waits for its
    /// predecessor. If it is new, the gap before it is to be reported.
    pub fn buffer_sigchain_orphan_at(
        &mut self,
        entry: &SignedEntry,
        author: PubKey,
        prev_hash: Digest,
        seq: u64,
        next_seq: u64,
        last_hash: Digest,
        received_at: u64,
    )
        requires
            old(self).wf(),
        ensures
            final(self).wf(),
            final(self)@ == orphan_kept(
                old(self)@,
                entry@,
                GapModel {
                    author: author@,
                    from_seq: next_seq,
                    to_seq: seq,
                    last_known_hash: Some(last_hash@),
                },
                prev_hash@,
                received_at,
            ),
    {
        let ghost before = self@;
        let ghost gap_model = GapModel {
            author: author@,
            from_seq: next_seq,
            to_seq: seq,
            last_known_hash: Some(last_hash@),
        };
        let entry_hash = entry.hash();
        let is_new = self.orphans.insert_at(
            &author,
            &prev_hash,
            &entry_hash,
            seq,
            entry,
            received_at,
        );
        if is_new {
            let gap = GapInfo {
                author,
                from_seq: next_seq,
                to_seq: seq,
                last_known_hash: Some(last_hash),
            };
            let ghost gaps = self.gaps@;
            self.gaps.push(gap);
            assert(message::models(self.gaps@) =~= message::models(gaps).push(gap@));
        }
        proof {
            let after = orphan_kept(before, entry@, gap_model, prev_hash@, received_at);
            assert(self@.orphans =~= after.orphans);
            assert(self@ =~= after);
        }
    }

    /// Keeps an entry, received now, that waits for its predecessor. If it is
    /// new, the gap before it is to be reported.
    pub fn buffer_sigchain_orphan(
        &mut self,
        entry: &SignedEntry,
        author: PubKey,
        prev_hash: Digest,
        seq: u64,
        next_seq: u64,
        last_hash: Digest,
    )
        requires
            old(self).wf(),
        ensures
            final(self).wf(),
            exists|received_at: u64|
                final(self)@ == #[trigger] orphan_kept(
                    old(self)@,
                    entry@,
                    GapModel {
                        author: author@,
                        from_seq: next_seq,
                        to_seq: seq,
                        last_known_hash: Some(last_hash@),
                    },
                    prev_hash@,
                    received_at,
                ),
    {
        let now: u64 = crate::clock::SystemClock.now_secs();
        self.buffer_sigchain_orphan_at(entry, author, prev_hash, seq, next_seq, last_hash, now);
    }

    /// The gaps that have been found since they were last taken.
    pub fn take_gaps(&mut self) -> (r: Vec<GapInfo>)
        requires
            old(self).wf(),
        ensures
            final(self).wf(),
            message::models(r@) == old(self)@.gaps,
            final(self)@ == (ManagerModel { gaps: Seq::empty(), ..old(self)@ }),
    {
        let ghost before = self@;
        let mut r: Vec<GapInfo> = Vec::new();
        r.append(&mut self.gaps);
        proof {
            assert(message::models(r@) =~= before.gaps);
            assert(self@.gaps =~= Seq::<GapModel>::empty());
            assert(self@ =~= (ManagerModel { gaps: Seq::empty(), ..before }));
        }
        r
    }

    /// The directory of the log files.
    pub fn logs_dir(&self) -> (r: &[u8])
        ensures
            r@ == self@.logs_dir,
    {
        self.logs_dir.as_slice()
    }

    /// How many logs there are, how many bytes they have in all, and how many
    /// entries wait for their predecessors. A number of bytes that does not fit
    /// is cut off at the largest that does.
    pub fn log_stats(&self) -> (r: (usize, u64, usize))
        requires
            self.wf(),
        ensures
            r.0 == self.authors().len(),
            r.1 == if log_bytes(self@.chains, self.authors()) > u64::MAX {
                u64::MAX as nat
            } else {
                log_bytes(self@.chains, self.authors())
            },
            r.2 == self@.orphans.orphans.dom().len(),
    {
        let ghost keys = self.chains.keys();
        proof {
            self.lemma_authors();
        }
        let mut total: u64 = 0;
        let mut i: usize = 0;
        assert(keys.take(0) =~= Seq::empty());
        while i < self.chains.len()
            invariant
                self.wf(),
                keys == self.chains.keys(),
                i <= keys.len(),
                total == if log_bytes(self@.chains, keys.take(i as int)) > u64::MAX {
                    u64::MAX as nat
                } else {
                    log_bytes(self@.chains, keys.take(i as int))
                },
            decreases keys.len() - i,
        {
            let size: u64 = self.chains.value_at(i).log().bytes().len() as u64;
            proof {
                assert(keys.take(i + 1).drop_last() =~= keys.take(i as int));
                assert(keys.take(i + 1).last() == keys[i as int]);
            }
            if total > u64::MAX - size {
                total = u64::MAX;
            } else {
                total = total + size;
            }
            i += 1;
        }
        assert(keys.take(i as int) =~= keys);
        (self.chains.len(), total, self.orphans.count())
    }

    /// The log files by the order of their authors: their names, their sizes and
    /// their paths.
    pub fn log_paths(&self) -> (r: Vec<(String, u64, Vec<u8>)>)
        requires
            self.wf(),
        ensures
            r@.len() == self.authors().len(),
            forall|i: int|
                0 <= i < r@.len() ==> {
                    let a = self.authors()[i];
                    &&& (#[trigger] r@[i]).0@ == log_name(a)
                    &&& r@[i].1 == self@.chains[a].log.len()
                    &&& r@[i].2@ == self@.chains[a].path
                },
    {
        let ghost keys = self.chains.keys();
        proof {
            self.lemma_authors();
        }
        let mut out: Vec<(String, u64, Vec<u8>)> = Vec::new();
        let mut i: usize = 0;
        while i < self.chains.len()
            invariant
                self.wf(),
                keys == self.chains.keys(),
                i <= keys.len(),
                out@.len() == i,
                forall|k: int|
                    0 <= k < i ==> {
                        let a = keys[k];
                        &&& (#[trigger] out@[k]).0@ == log_name(a)
                        &&& out@[k].1 == self@.chains[a].log.len()
                        &&& out@[k].2@ == self@.chains[a].path
                    },
            decreases keys.len() - i,
        {
            let log = self.chains.value_at(i).log();
            let name = hex_encode(self.chains.key_at(i).as_slice()).concat(".log");
            out.push((name, log.bytes().len() as u64, to_vec(log.path())));
            i += 1;
        }
        out
    }

    /// Keeps an entry about `key` that waits for a parent.
    pub fn buffer_dag_orphan(&mut self, entry: &SignedEntry, key: &[u8], parent_hash: &Digest)
        requires
            old(self).wf(),
        ensures
            final(self).wf(),
            final(self)@ == dag_orphan_kept(old(self)@, entry@, key@, parent_hash@),
    {
        let ghost before = self@;
        let entry_hash = entry.hash();
        let _ = self.orphans.insert_dag_orphan(key, parent_hash, &entry_hash, entry);
        proof {
            let after = dag_orphan_kept(before, entry@, key@, parent_hash@);
            assert(self@.orphans =~= after.orphans);
            assert(self@ =~= after);
        }
    }

    /// The entries that wait for the given parent: the keys that they are about,
    /// the entries and their hashes. None where what waits cannot be read.
    pub fn find_dag_orphans(&self, parent_hash: &Digest) -> (r: Vec<(Vec<u8>, SignedEntry, Digest)>)
        requires
            self.wf(),
        ensures
            orphan_store::dag_orphan_models(r@) == dag_ready_after(
                self@.orphans.dag,
                parent_hash@,
            ),
    {
        match self.orphans.find_dag_orphans_by_parent(parent_hash) {
            Ok(found) => found,
            Err(_) => {
                let none: Vec<(Vec<u8>, SignedEntry, Digest)> = Vec::new();
                assert(orphan_store::dag_orphan_models(none@) =~= Seq::empty());
                none
            },
        }
    }

    /// Drops an entry about `key` that waited for a parent.
    pub fn delete_dag_orphan(&mut self, key: &[u8], parent_hash: &Digest, entry_hash: &Digest)
        requires
            old(self).wf(),
        ensures
            final(self).wf(),
            final(self)@ == dag_orphan_dropped(old(self)@, key@, parent_hash@, entry_hash@),
    {
        let ghost before = self@;
        self.orphans.delete_dag_orphan(key, parent_hash, entry_hash);
        proof {
            let after = dag_orphan_dropped(before, key@, parent_hash@, entry_hash@);
            assert(self@.orphans =~= after.orphans);
            assert(self@ =~= after);
        }
    }

    /// How many entries wait for their predecessors.
    pub fn sigchain_orphan_count(&self) -> (r: usize)
        requires
            self.wf(),
        ensures
            r == self@.orphans.orphans.dom().len(),
    {
        self.orphans.count()
    }

    /// The entries that wait for their predecessors, by author and sequence
    /// number; none where what waits cannot be read.
    pub fn orphan_list(&self) -> (r: Vec<OrphanInfo>)
        requires
            self.wf(),
        ensures
            message::models(r@) == listed_orphans(self@.orphans.orphans),
    {
        match self.orphans.list_all() {
            Ok(list) => list,
            Err(_) => {
                let none: Vec<OrphanInfo> = Vec::new();
                assert(message::models(none@) =~= Seq::empty());
                none
            },
        }
    }

    /// What waits.
    pub fn orphan_store(&self) -> (r: &OrphanStore)
        requires
            self.wf(),
        ensures
            r.wf(),
            r@ == self@.orphans,
    {
        &self.orphans
    }

    /// How far every chain has got. Chains without entries are left out.
    pub fn sync_state(&self) -> (r: SyncState)
        requires
            self.wf(),
        ensures
            r.wf(),
            reached(self@.chains, r@),
            r@ == sync_of(self@.chains),
    {
        let ghost keys = self.chains.keys();
        let ghost chains = self@.chains;
        let mut state = SyncState::new();
        let mut i: usize = 0;
        proof {
            self.lemma_authors();
        }
        while i < self.chains.len()
            invariant
                self.wf(),
                state.wf(),
                keys == self.chains.keys(),
                chains == self@.chains,
                i <= keys.len(),
                forall|a: Seq<u8>|
                    #![trigger state@.dom().contains(a)]
                    #![trigger chains.dom().contains(a)]
                    {
                        &&& state@.dom().contains(a) <==> keys.take(i as int).contains(a)
                            && chains[a].next_seq > 1
                        &&& state@.dom().contains(a) ==> {
                            &&& state@[a].seq == chains[a].next_seq - 1
                            &&& state@[a].hash@ == chains[a].last_hash
                            &&& state@[a].hlc == match chains[a].last_hlc {
                                Some(h) => Some((h.wall_time, h.counter)),
                                None => None,
                            }
                        }
                    },
            decreases keys.len() - i,
        {
            let key = self.chains.key_at(i);
            let chain = self.chains.value_at(i);
            proof {
                table::lemma_take_contains(keys, i as int);
                assert(self.chains@.dom().contains(key@));
            }
            if chain.next_seq() > 1 {
                let author: PubKey = to_array32(key.as_slice());
                let hlc: Option<(u64, u32)> = match chain.last_hlc() {
                    Some(h) => Some((h.wall_time, h.counter)),
                    None => None,
                };
                state.set_with_hlc(author, chain.next_seq() - 1, *chain.last_hash(), hlc);
            }
            i += 1;
        }
        assert(keys.take(i as int) =~= keys);
        proof {
            lemma_sync_of(chains, state@);
        }
        state
    }
}

/// The entries that wait, as they are listed; none where what waits cannot be
/// read.
pub open spec fn listed_orphans(orphans: Map<Seq<u8>, Seq<u8>>) -> Seq<orphan_store::OrphanInfoModel> {
    match orphan_store::infos_under(orphans, table::sorted_keys(orphans.dom())) {
        Ok(infos) => sorting::sorted::<OrphanInfo>(infos),
        Err(_) => Seq::empty(),
    }
}

/// The manager without an entry that waited for its predecessor.
pub open spec fn orphan_dropped(
    m: ManagerModel,
    author: Seq<u8>,
    prev_hash: Seq<u8>,
    entry_hash: Seq<u8>,
) -> ManagerModel {
    ManagerModel {
        orphans: OrphanModel {
            orphans: m.orphans.orphans.remove(orphan_store::joined(author, prev_hash, entry_hash)),
            ..m.orphans
        },
        ..m
    }
}

/// The manager without an entry that waited for a parent.
pub open spec fn dag_orphan_dropped(
    m: ManagerModel,
    key: Seq<u8>,
    parent_hash: Seq<u8>,
    entry_hash: Seq<u8>,
) -> ManagerModel {
    ManagerModel {
        orphans: OrphanModel {
            dag: m.orphans.dag.remove(
                orphan_store::joined(parent_hash, crate::crypto::blake3_hash(key), entry_hash),
            ),
            ..m.orphans
        },
        ..m
    }
}

/// The manager with an entry that waits for its predecessor. If it is new, the
/// gap is to be reported.
pub open spec fn orphan_kept(
    m: ManagerModel,
    e: SignedEntryModel,
    gap: GapModel,
    prev_hash: Seq<u8>,
    received_at: u64,
) -> ManagerModel {
    let k = orphan_store::joined(gap.author, prev_hash, e.hash());
    if m.orphans.orphans.dom().contains(k) {
        m
    } else {
        ManagerModel {
            orphans: OrphanModel {
                orphans: m.orphans.orphans.insert(
                    k,
                    orphan_store::orphan_value(gap.to_seq, e, received_at),
                ),
                ..m.orphans
            },
            gaps: m.gaps.push(gap),
            ..m
        }
    }
}

/// The manager with an entry about a key that waits for a parent.
pub open spec fn dag_orphan_kept(
    m: ManagerModel,
    e: SignedEntryModel,
    key: Seq<u8>,
    parent_hash: Seq<u8>,
) -> ManagerModel {
    let k = orphan_store::joined(parent_hash, crate::crypto::blake3_hash(key), e.hash());
    if m.orphans.dag.dom().contains(k) {
        m
    } else {
        ManagerModel {
            orphans: OrphanModel {
                dag: m.orphans.dag.insert(k, orphan_store::dag_orphan_value(key, e)),
                ..m.orphans
            },
            ..m
        }
    }
}

proof fn lemma_hashes_next(reads: Seq<LogRead>, n: int)
    requires
        0 <= n < reads.len(),
    ensures
        hashes_in(reads.take(n + 1)) == match reads[n] {
            LogRead::Record(_, e) => hashes_in(reads.take(n)).insert(e.hash()),
            _ => hashes_in(reads.take(n)),
        },
{
    let a = hashes_in(reads.take(n + 1));
    let b = match reads[n] {
        LogRead::Record(_, e) => hashes_in(reads.take(n)).insert(e.hash()),
        _ => hashes_in(reads.take(n)),
    };
    assert forall|h: Seq<u8>| a.contains(h) <==> b.contains(h) by {
        if a.contains(h) {
            let i = choose|i: int|
                0 <= i < n + 1 && (#[trigger] reads.take(n + 1)[i] matches LogRead::Record(_, e)
                    && e.hash() == h);
            assert(reads.take(n + 1)[i] == reads[i]);
            if i < n {
                assert(reads.take(n)[i] == reads[i]);
            }
        }
        if hashes_in(reads.take(n)).contains(h) {
            let i = choose|i: int|
                0 <= i < n && (#[trigger] reads.take(n)[i] matches LogRead::Record(_, e)
                    && e.hash() == h);
            assert(reads.take(n + 1)[i] == reads.take(n)[i]);
        }
        assert(reads.take(n + 1)[n] == reads[n]);
    }
    assert(a =~= b);
}

/// The verdict on an entry. One whose hash is known is a duplicate, and only such a one.
/// Of the others, one that its author's chain can take is valid; one that is signed, of
/// this store and its author's, but has another number or names another hash, is an orphan
/// with a gap from the chain's next number to its own; all others are refused.
pub proof fn law_verdict_is_by_the_chain(m: ManagerModel, e: SignedEntryModel)
    ensures
        ({
            let c = chain_of(m, e.author_id);
            let store = if e.entry.store_id.len() == 16 {
                e.entry.store_id
            } else {
                Seq::new(16, |i: int| 0u8)
            };
            let ours = crate::crypto::ed25519_accepts(
                e.author_id,
                e.entry.signed_bytes(),
                e.signature,
            ) && e.author_id == c.author_id && store == c.store_id;
            let next = e.entry.seq == c.next_seq && e.entry.prev_hash == c.last_hash;
            &&& verdict(m, e) == Verdict::Duplicate <==> m.hashes.contains(e.hash())
            &&& verdict(m, e) == Verdict::Valid <==> !m.hashes.contains(e.hash()) && ours && next
            &&& verdict(m, e) is Orphan <==> !m.hashes.contains(e.hash()) && ours && !next
            &&& verdict(m, e) is Error <==> !m.hashes.contains(e.hash()) && !ours
            &&& verdict(m, e) matches Verdict::Orphan(gap, prev) ==> prev == e.entry.prev_hash
                && gap.author == e.author_id && gap.from_seq == c.next_seq && gap.to_seq
                == e.entry.seq && gap.last_known_hash == Some(c.last_hash)
        }),
{
    sigchain::law_what_comes_next(chain_of(m, e.author_id), e);
}

/// Committing an entry appends it to its author's chain and makes its hash known. Chains of
/// other authors, other hashes, what waits and the gaps stay.
pub proof fn law_committed_entry_is_chained(
    m: ManagerModel,
    e: SignedEntryModel,
    other: Seq<u8>,
    hash: Seq<u8>,
)
    ensures
        ({
            let after = committed(m, e);
            &&& chain_of(after, e.author_id) == sigchain::appended(chain_of(m, e.author_id), e)
            &&& after.chains.dom().contains(e.author_id)
            &&& other != e.author_id ==> after.chains.dom().contains(other)
                == m.chains.dom().contains(other) && chain_of(after, other) == chain_of(m, other)
            &&& after.hashes.contains(hash) <==> m.hashes.contains(hash) || hash == e.hash()
            &&& after.orphans == m.orphans
            &&& after.gaps == m.gaps
            &&& after.store_id == m.store_id && after.logs_dir == m.logs_dir
        }),
{
}

/// The chain of an author who is not known has no entries, and is the author's in this
/// store.
pub proof fn law_unknown_author_has_a_fresh_chain(m: ManagerModel, author: Seq<u8>)
    requires
        !m.chains.dom().contains(author),
    ensures
        chain_of(m, author).author_id == author,
        chain_of(m, author).store_id == m.store_id,
        chain_of(m, author).log.len() == 0,
        chain_of(m, author).next_seq == 1,
        chain_of(m, author).last_hlc is None,
{
}

/// An entry that is kept because it came too early is filed under its author, the hash that
/// it names and its own, with its number and the time. It is filed, and its gap reported,
/// once; nothing else changes.
pub proof fn law_early_entry_is_filed_once(
    m: ManagerModel,
    e: SignedEntryModel,
    gap: GapModel,
    prev_hash: Seq<u8>,
    received_at: u64,
    again_at: u64,
    k: Seq<u8>,
)
    ensures
        ({
            let name = gap.author + prev_hash + e.hash();
            let after = orphan_kept(m, e, gap, prev_hash, received_at);
            &&& after.orphans.orphans.dom().contains(name)
            &&& !m.orphans.orphans.dom().contains(name) ==> after.orphans.orphans[name]
                == orphan_store::orphan_value(gap.to_seq, e, received_at) && after.gaps
                == m.gaps.push(gap)
            &&& m.orphans.orphans.dom().contains(name) ==> after == m
            &&& k != name ==> after.orphans.orphans.dom().contains(k)
                == m.orphans.orphans.dom().contains(k) && after.orphans.orphans[k]
                == m.orphans.orphans[k]
            &&& orphan_kept(after, e, gap, prev_hash, again_at) == after
            &&& after.chains == m.chains && after.hashes == m.hashes && after.orphans.dag
                == m.orphans.dag
        }),
{
}

/// An entry that is kept for want of a parent is filed under the parent, the hash of its key
/// and its own, once; nothing else changes.
pub proof fn law_entry_without_parent_is_filed_once(
    m: ManagerModel,
    e: SignedEntryModel,
    key: Seq<u8>,
    parent: Seq<u8>,
    k: Seq<u8>,
)
    ensures
        ({
            let name = parent + crate::crypto::blake3_hash(key) + e.hash();
            let after = dag_orphan_kept(m, e, key, parent);
            &&& after.orphans.dag.dom().contains(name)
            &&& !m.orphans.dag.dom().contains(name) ==> after.orphans.dag[name]
                == orphan_store::dag_orphan_value(key, e)
            &&& m.orphans.dag.dom().contains(name) ==> after == m
            &&& k != name ==> after.orphans.dag.dom().contains(k)
                == m.orphans.dag.dom().contains(k) && after.orphans.dag[k] == m.orphans.dag[k]
            &&& dag_orphan_kept(after, e, key, parent) == after
            &&& after.chains == m.chains && after.hashes == m.hashes && after.gaps == m.gaps
                && after.orphans.orphans == m.orphans.orphans
        }),
{
}

/// A dropped entry is the only one that goes.
pub proof fn law_dropped_entry_goes_alone(
    m: ManagerModel,
    author: Seq<u8>,
    prev_hash: Seq<u8>,
    entry_hash: Seq<u8>,
    key: Seq<u8>,
    k: Seq<u8>,
)
    ensures
        ({
            let after = orphan_dropped(m, author, prev_hash, entry_hash);
            let name = author + prev_hash + entry_hash;
            &&& after.orphans.orphans.dom().contains(k) <==> m.orphans.orphans.dom().contains(k)
                && k != name
            &&& k != name ==> after.orphans.orphans[k] == m.orphans.orphans[k]
            &&& after.chains == m.chains && after.hashes == m.hashes && after.gaps == m.gaps
                && after.orphans.dag == m.orphans.dag
        }),
        ({
            let after = dag_orphan_dropped(m, key, prev_hash, entry_hash);
            let name = prev_hash + crate::crypto::blake3_hash(key) + entry_hash;
            &&& after.orphans.dag.dom().contains(k) <==> m.orphans.dag.dom().contains(k) && k
                != name
            &&& k != name ==> after.orphans.dag[k] == m.orphans.dag[k]
            &&& after.chains == m.chains && after.hashes == m.hashes && after.gaps == m.gaps
                && after.orphans.orphans == m.orphans.orphans
        }),
{
}

/// The bytes of all logs add up: with one more log by as many as that has.
pub proof fn law_log_bytes_add_up(
    chains: Map<Seq<u8>, ChainModel>,
    authors: Seq<Seq<u8>>,
    i: int,
)
    requires
        0 <= i < authors.len(),
    ensures
        log_bytes(chains, authors) == log_bytes(chains, authors.remove(i))
            + chains[authors[i]].log.len(),
        log_bytes(chains, Seq::empty()) == 0,
    decreases authors.len(),
{
    let before = authors.drop_last();
    if i == authors.len() - 1 {
        assert(authors.remove(i) =~= before);
    } else {
        law_log_bytes_add_up(chains, before, i);
        assert(authors.remove(i).drop_last() =~= before.remove(i));
        assert(authors.remove(i).last() == authors.last());
    }
}

/// What is known of the authors, as it is told to peers: every author whose chain has an
/// entry, and of each the number of the last entry, its hash and its time.
pub proof fn law_sync_state_is_of_the_chains(
    chains: Map<Seq<u8>, ChainModel>,
    s: Map<Seq<u8>, AuthorInfo>,
    a: Seq<u8>,
)
    requires
        reached(chains, s),
    ensures
        s.dom().contains(a) <==> chains.dom().contains(a) && chains[a].next_seq > 1,
        s.dom().contains(a) ==> {
            &&& s[a].seq + 1 == chains[a].next_seq
            &&& s[a].hash@ == chains[a].last_hash
            &&& match chains[a].last_hlc {
                Some(h) => s[a].hlc == Some((h.wall_time, h.counter)),
                None => s[a].hlc is None,
            }
        },
        s == sync_of(chains),
{
    lemma_sync_of(chains, s);
}

/// The list of what waits holds every record once, by author and number; where one cannot
/// be read, it is empty.
pub proof fn law_every_waiting_entry_is_listed(
    orphans: Map<Seq<u8>, Seq<u8>>,
    k: Seq<u8>,
)
    requires
        table::lists(table::sorted_keys(orphans.dom()), orphans.dom()),
        forall|x: Seq<u8>| #[trigger]
            orphans.dom().contains(x) ==> orphan_store::orphan_info_at(orphans, x) is Ok,
    ensures
        listed_orphans(orphans).len() == table::sorted_keys(orphans.dom()).len(),
        orphans.dom().contains(k) ==> listed_orphans(orphans).contains(
            orphan_store::orphan_info_at(orphans, k)->Ok_0,
        ),
        forall|i: int, j: int|
            0 <= i < j < listed_orphans(orphans).len() && (#[trigger] listed_orphans(
                orphans,
            )[i]).author == (#[trigger] listed_orphans(orphans)[j]).author ==> listed_orphans(
                orphans,
            )[i].seq <= listed_orphans(orphans)[j].seq,
{
    broadcast use vstd::seq_lib::group_to_multiset_ensures;

    let keys = table::sorted_keys(orphans.dom());
    let items = keys.map_values(|x: Seq<u8>| orphan_store::orphan_info_at(orphans, x));
    assert forall|i: int| 0 <= i < items.len() implies (#[trigger] items[i]) is Ok by {
        assert(keys.contains(keys[i]));
        assert(orphans.dom().contains(keys[i]));
    }
    crate::results::lemma_all_ok(items);
    let infos = orphan_store::infos_under(orphans, keys)->Ok_0;
    orphan_store::law_listed_by_author_and_number(infos);
    let r = listed_orphans(orphans);
    assert(r.len() == r.to_multiset().len());
    assert(infos.len() == infos.to_multiset().len());
    if orphans.dom().contains(k) {
        assert(keys.contains(k));
        let i = keys.index_of(k);
        let x = orphan_store::orphan_info_at(orphans, k)->Ok_0;
        assert(items[i] == orphan_store::orphan_info_at(orphans, k));
        assert(infos[i] == x);
        assert(infos.contains(x));
        assert(infos.to_multiset().count(x) > 0);
        assert(r.contains(x));
    }
}

/// An author's log is the file of the author's key in hexadecimal notation, in the directory
/// of the logs.
pub proof fn law_log_is_named_after_its_author(dir: Seq<u8>, author: Seq<u8>)
    ensures
        log_name(author) == text::hex_text(author) + ".log"@,
        log_path(dir, author) == data_dir::path_in(dir, text::hex_text(author) + ".log"@),
{
}

/// What a chained entry sets free is exactly what is filed under its author and its hash, and
/// as a parent under its hash alone.
pub proof fn law_free_is_what_waited(
    orphans: Map<Seq<u8>, Seq<u8>>,
    dag: Map<Seq<u8>, Seq<u8>>,
    author: Seq<u8>,
    hash: Seq<u8>,
    e: SignedEntryModel,
    own: Seq<u8>,
    key: Seq<u8>,
)
    requires
        table::lists(table::sorted_keys(orphans.dom()), orphans.dom()),
        table::lists(table::sorted_keys(dag.dom()), dag.dom()),
        author.len() == 32,
        hash.len() == 32,
        own.len() == 32,
        // All that is filed can be read.
        orphan_store::waiting_for(orphans, author, hash) is Ok,
        forall|k: Seq<u8>| #[trigger]
            dag.dom().contains(k) ==> k.len() == 96 && orphan_store::dag_orphan_at(dag, k) is Ok,
    ensures
        ready_after(orphans, author, hash).contains(
            ReadyModel { entry: e, author, prev_hash: hash, entry_hash: own },
        ) <==> exists|seq: u64|
            orphan_store::waiting_for(orphans, author, hash)->Ok_0.contains(
                #[trigger] filed(seq, e, own),
            ),
        dag_ready_after(dag, hash).contains((key, e, own)) <==> exists|k: Seq<u8>| #[trigger]
            dag.dom().contains(k) && k.take(32) == hash && orphan_store::dag_orphan_at(dag, k)
                == Ok::<
                (Seq<u8>, SignedEntryModel, Seq<u8>),
                orphan_store::OrphanStoreError,
            >((key, e, own)),
{
    let found = orphan_store::waiting_for(orphans, author, hash)->Ok_0;
    let ready = ready_after(orphans, author, hash);
    let x = ReadyModel { entry: e, author, prev_hash: hash, entry_hash: own };
    if ready.contains(x) {
        let i = ready.index_of(x);
        assert(found[i].1 == e && found[i].2 == own);
        assert(found.contains(filed(found[i].0, e, own))) by {
            assert(found[i] == filed(found[i].0, e, own));
        }
    }
    assert forall|seq: u64| found.contains(#[trigger] filed(seq, e, own)) implies ready.contains(
        x,
    ) by {
        let i = found.index_of(filed(seq, e, own));
        assert(ready[i] == x);
    }
    let keys = table::sorted_keys(dag.dom());
    let lo = orphan_store::joined(hash, bytes::zeros(32), bytes::zeros(32));
    let hi = orphan_store::joined(hash, orphan_store::ones(32), orphan_store::ones(32));
    assert(lo =~= hash + bytes::zeros(64));
    assert(hi =~= hash + orphan_store::ones(64));
    let keep = |k: Seq<u8>| table::in_range(k, lo, hi);
    let ks = table::keys_between(keys, lo, hi);
    let items = ks.map_values(|k: Seq<u8>| orphan_store::dag_orphan_at(dag, k));
    assert forall|i: int| 0 <= i < items.len() implies (#[trigger] items[i]) is Ok by {
        keys.lemma_filter_contains_rev(keep, ks[i]);
        assert(dag.dom().contains(ks[i]));
    }
    crate::results::lemma_all_ok(items);
    let values = dag_ready_after(dag, hash);
    let y = (key, e, own);
    if values.contains(y) {
        let i = values.index_of(y);
        let k = ks[i];
        assert(items[i] == orphan_store::dag_orphan_at(dag, k));
        keys.lemma_filter_contains_rev(keep, k);
        keys.lemma_filter_pred(keep, i);
        assert(dag.dom().contains(k));
        orphan_store::law_range_is_prefix(hash, k, 64);
    }
    assert forall|k: Seq<u8>| #[trigger]
        dag.dom().contains(k) && k.take(32) == hash && orphan_store::dag_orphan_at(dag, k) == Ok::<
            (Seq<u8>, SignedEntryModel, Seq<u8>),
            orphan_store::OrphanStoreError,
        >(y) implies values.contains(y) by {
        assert(keys.contains(k));
        orphan_store::law_range_is_prefix(hash, k, 64);
        keys.lemma_filter_contains(keep, keys.index_of(k));
        let i = ks.index_of(k);
        assert(items[i] == orphan_store::dag_orphan_at(dag, k));
        assert(values[i] == y);
    }
}

/// What a lookup gives of a record.
pub open spec fn filed(seq: u64, e: SignedEntryModel, own: Seq<u8>) -> (
    u64,
    SignedEntryModel,
    Seq<u8>,
) {
    (seq, e, own)
}

/// Where the logs of a directory were read, every author who has a log there has a chain, and
/// nobody else; and every entry that a log holds is known by its hash.
pub proof fn law_every_log_is_restored(
    m: ManagerModel,
    dir: Seq<u8>,
    store_id: Seq<u8>,
    files: Map<Seq<u8>, Seq<u8>>,
    orphans: OrphanModel,
    a: Seq<u8>,
    i: int,
)
    requires
        restored(m, dir, store_id, files, orphans),
        a.len() == 32,
    ensures
        m.chains.dom().contains(a) <==> files.dom().contains(a),
        files.dom().contains(a) && 0 <= i < log::reads_of(files[a]).len() ==> (log::reads_of(
            files[a],
        )[i] matches LogRead::Record(_, e) ==> m.hashes.contains(e.hash())),
        m.orphans == orphans && m.logs_dir == dir && m.store_id == store_id,
        m.gaps.len() == 0,
{
    if files.dom().contains(a) && 0 <= i < log::reads_of(files[a]).len() {
        if let LogRead::Record(_, e) = log::reads_of(files[a])[i] {
            assert(m.chains.dom().contains(a));
            assert(hashes_in(log::reads_of(files[a])).contains(e.hash()));
        }
    }
}

} // verus!
