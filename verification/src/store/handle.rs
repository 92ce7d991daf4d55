//! Opening a store: what its logs hold and its state does not is made up for.
use crate::bytes::Uuid;
use crate::crypto;
use crate::crypto::hash_bytes;
use crate::node_identity::NodeIdentity;
use crate::store::actor::model::ActorModel;
use crate::store::actor::StoreActor;
use crate::store::error::{StateError, StateFault};
use crate::store::log;
use crate::store::log::Log;
use crate::store::peer_sync_store::PeerSyncStore;
use crate::store::sigchain::manager;
use crate::store::sigchain::manager::{ManagerModel, SigChainManager};
use crate::store::sigchain::orphan_store::OrphanStore;
use crate::store::sigchain::ChainFault;
use crate::store::state;
use crate::store::state::{State, StateModel};
use crate::table;
use crate::table::ByteTable;
use crate::text;
use crate::text::hex_encode;
use vstd::prelude::*;
use vstd::string::*;

verus! {

/// What came of opening a store.
#[derive(Debug, Clone, Copy, PartialEq, Eq)]
pub struct ReplicaInfo {
    /// The store.
    pub store_id: Uuid,
    /// How many entries had to be made up for.
    pub entries_replayed: u64,
}

/// The actor that takes over a state, chains and what the peers said. It knows its
/// own author, and has nothing to tell yet.
pub open spec fn handed_over(
    st: StateModel,
    m: ManagerModel,
    peers: Map<Seq<u8>, Seq<u8>>,
    secret: Seq<u8>,
) -> ActorModel {
    ActorModel {
        state: st,
        manager: manager::knowing(m, crypto::ed25519_public(secret)),
        peers,
        secret,
        watchers: Seq::empty(),
        next_watcher_id: 0,
        events: Seq::empty(),
    }
}

/// What a log makes of the state, and how many of its entries were new. A log
/// that is faulty is left alone.
pub open spec fn log_recovered(st: StateModel, contents: Seq<u8>) -> (StateModel, nat) {
    match state::replayed(st, log::results_of(contents)) {
        Ok((s, n)) => (s, n),
        Err(_) => (st, 0),
    }
}

/// What logs make of the state, one after the other, and how many of their
/// entries were new.
pub open spec fn recovered(
    st: StateModel,
    files: Map<Seq<u8>, Seq<u8>>,
    authors: Seq<Seq<u8>>,
) -> (StateModel, nat)
    decreases authors.len(),
{
    if authors.len() == 0 {
        (st, 0)
    } else {
        let (s, n) = recovered(st, files, authors.drop_last());
        let (t, k) = log_recovered(s, files[authors.last()]);
        (t, n + k)
    }
}

/// A store that has been opened and has no actor yet.
pub struct OpenedReplica {
    store_id: Uuid,
    state: State,
    entries_replayed: u64,
}

impl OpenedReplica {
    /// The state is well formed.
    pub closed spec fn wf(&self) -> bool {
        self.state.wf()
    }

    /// The store.
    pub closed spec fn store(&self) -> Seq<u8> {
        self.store_id@
    }

    /// The state.
    pub closed spec fn model(&self) -> StateModel {
        self.state@
    }

    /// How many entries had to be made up for.
    pub closed spec fn replayed(&self) -> u64 {
        self.entries_replayed
    }

    /// Opens a store with the given state and the given log files, by the public
    /// keys of their authors: whatever entries the logs hold and the state lacks
    /// are applied.
    pub fn open(store_id: Uuid, state: State, files: &ByteTable) -> (r: Self)
        requires
            state.wf(),
            files.wf(),
        ensures
            r.wf(),
            r.store() == store_id@,
            ({
                let (s, n) = recovered(state@, files@, table::sorted_keys(files@.dom()));
                &&& r.model() == s
                &&& r.replayed() == if n > u64::MAX {
                    u64::MAX as nat
                } else {
                    n
                }
            }),
    {
        let ghost start = state@;
        let ghost keys = files.keys();
        let mut state = state;
        let mut count: u64 = 0;
        let mut i: usize = 0;
        proof {
            files.lemma_keys();
            assert(keys.take(0) =~= Seq::empty());
        }
        while i < files.len()
            invariant
                state.wf(),
                files.wf(),
                keys == files.keys(),
                i <= keys.len(),
                ({
                    let (s, n) = recovered(start, files@, keys.take(i as int));
                    &&& state@ == s
                    &&& count == if n > u64::MAX {
                        u64::MAX as nat
                    } else {
                        n
                    }
                }),
            decreases keys.len() - i,
        {
            proof {
                assert(keys.take(i + 1).drop_last() =~= keys.take(i as int));
                assert(keys.take(i + 1).last() == keys[i as int]);
            }
            let log = Log::open_or_create(
                Vec::new(),
                Some(crate::bytes::to_vec(files.value_at(i).as_slice())),
            );
            let entries = log.read_all();
            match state.replay_entries(&entries) {
                Ok(n) => {
                    if count > u64::MAX - n {
                        count = u64::MAX;
                    } else {
                        count = count + n;
                    }
                },
                Err(_) => {},
            }
            i += 1;
        }
        assert(keys.take(i as int) =~= keys);
        OpenedReplica { store_id, state, entries_replayed: count }
    }

    /// The store.
    pub fn id(&self) -> (r: Uuid)
        ensures
            r@ == self.store(),
    {
        self.store_id
    }

    /// The state.
    pub fn state(&self) -> (r: &State)
        requires
            self.wf(),
        ensures
            r.wf(),
            r@ == self.model(),
    {
        &self.state
    }

    /// How many entries had to be made up for.
    pub fn entries_replayed(&self) -> (r: u64)
        ensures
            r == self.replayed(),
    {
        self.entries_replayed
    }

    /// Hands the store over to an actor for the node. `files` are the log files,
    /// by the public keys of their authors; they lie in `logs_dir`. A log that is
    /// no chain of the store is an error.
    pub fn into_handle(
        self,
        logs_dir: Vec<u8>,
        files: &ByteTable,
        orphans: OrphanStore,
        peers: PeerSyncStore,
        node: NodeIdentity,
    ) -> (r: Result<(StoreActor, ReplicaInfo), StateError>)
        requires
            self.wf(),
            files.wf(),
            orphans.wf(),
            peers.wf(),
        ensures
            match r {
                Ok((actor, info)) => {
                    &&& actor.wf()
                    &&& exists|m: ManagerModel|
                        {
                            &&& #[trigger] manager::restored(
                                m,
                                logs_dir@,
                                self.store(),
                                files@,
                                orphans@,
                            )
                            &&& actor@ == handed_over(self.model(), m, peers@, node.secret())
                        }
                    &&& info.store_id@ == self.store()
                    &&& info.entries_replayed == self.replayed()
                },
                Err(e) => exists|f: ChainFault|
                    {
                        &&& #[trigger] manager::first_fault(
                            logs_dir@,
                            self.store(),
                            files@,
                            f,
                        )
                        &&& e@ == StateFault::SigChain(f)
                    },
            },
    {
        let info = ReplicaInfo {
            store_id: self.store_id,
            entries_replayed: self.entries_replayed,
        };
        match SigChainManager::new(logs_dir, self.store_id, files, orphans) {
            Ok(chain_manager) => {
                let ghost m = chain_manager@;
                let actor = StoreActor::new(self.state, chain_manager, peers, node);
                assert(actor@ == handed_over(self.model(), m, peers@, node.secret()));
                Ok((actor, info))
            },
            Err(e) => {
                assert(manager::first_fault(logs_dir@, self.store(), files@, e@));
                Err(StateError::SigChain(e))
            },
        }
    }
}

/// The checksum of a log file that is told to people: the first bytes of its
/// hash. A file that cannot be read has none.
pub open spec fn checksum_text(data: Option<Seq<u8>>) -> Seq<char> {
    match data {
        Some(d) => text::short_hex(crypto::blake3_hash(d), 8),
        None => "????????"@,
    }
}

/// The checksum of a log file that is told to people.
pub fn log_checksum(data: Option<&[u8]>) -> (r: String)
    ensures
        r@ == checksum_text(
            match data {
                Some(d) => Some(d@),
                None => None,
            },
        ),
{
    match data {
        Some(d) => {
            let hash = hash_bytes(d);
            let start = vstd::slice::slice_subrange(hash.as_slice(), 0, 8);
            assert(start@ =~= hash@.take(8));
            hex_encode(start)
        },
        None => "????????".to_owned(),
    }
}

/// Opening a store over a log takes up what the state does not hold yet, and counts it: of a
/// chain whose first `k` entries the state holds, the others, in their order.
pub proof fn law_log_is_taken_up(
    st: StateModel,
    es: Seq<crate::entry::SignedEntryModel>,
    author: Seq<u8>,
    k: int,
)
    requires
        forall|i: int| 0 <= i < es.len() ==> log::readable(#[trigger] es[i]),
        state::is_chain(es, author),
        0 <= k <= es.len(),
        0 < es.len(),
        state::holds_first(st, es, author, k),
    ensures
        state::run(st, es.skip(k)) matches Ok(s) ==> log_recovered(st, log::log_of(es)) == (
            s,
            (es.len() - k) as nat,
        ),
        state::run(st, es.skip(k)) is Err ==> log_recovered(st, log::log_of(es)) == (st, 0nat),
{
    log::law_all_entries_are_read(es);
    state::law_replay_takes_up_the_rest(st, es, author, k);
}

/// The logs of all authors are taken up one after the other, and what they bring is added up.
pub proof fn law_every_log_is_taken_up(
    st: StateModel,
    files: Map<Seq<u8>, Seq<u8>>,
    authors: Seq<Seq<u8>>,
    last: Seq<u8>,
)
    ensures
        recovered(st, files, Seq::empty()) == (st, 0nat),
        ({
            let (s, n) = recovered(st, files, authors);
            let (t, k) = log_recovered(s, files[last]);
            recovered(st, files, authors.push(last)) == (t, n + k)
        }),
{
    assert(authors.push(last).drop_last() =~= authors);
}

/// A store that is handed over holds the state, the chains and what peers said, and starts
/// without watchers and news.
pub proof fn law_handed_over_as_opened(
    st: StateModel,
    m: ManagerModel,
    peers: Map<Seq<u8>, Seq<u8>>,
    secret: Seq<u8>,
    a: Seq<u8>,
)
    ensures
        ({
            let g = handed_over(st, m, peers, secret);
            &&& g.state == st && g.peers == peers && g.secret == secret
            &&& g.watchers.len() == 0 && g.events.len() == 0
            &&& manager::chain_of(g.manager, a) == manager::chain_of(m, a)
            &&& g.manager.hashes == m.hashes && g.manager.orphans == m.orphans
            &&& g.manager.chains.dom().contains(crypto::ed25519_public(secret))
        }),
{
}

} // verus!
