//! The store as other nodes get to see it: entries come in only from authors who
//! may write.
use crate::auth;
use crate::auth::PeerProvider;
use crate::bytes::{PubKey, Uuid};
use crate::clock::SystemClock;
use crate::entry;
use crate::entry::{SignedEntry, SignedEntryModel};
use crate::message;
use crate::proto::storage::PeerSyncInfo;
use crate::store::actor::model;
use crate::store::actor::model::{ActorFault, ActorModel};
use crate::store::actor::StoreActor;
use crate::store::error::{StateError, StateFault};
use crate::store::log;
use crate::store::peer_sync_store;
use crate::store::sigchain::manager;
use crate::store::sync_state::{SyncDiscrepancy, SyncState};
use crate::text;
use crate::text::hex_encode;
use vstd::prelude::*;
use vstd::string::*;

verus! {

/// The error of the store as it is told to other nodes.
pub open spec fn outside_fault(f: ActorFault) -> StateFault {
    StateFault::Io("Store error: "@ + f.as_state_fault().text())
}

/// What comes of an entry from another node: its signature has to hold, and its
/// author has to be one who may write.
pub open spec fn admitted(
    g: ActorModel,
    may_write: bool,
    e: SignedEntryModel,
    now: u64,
) -> (ActorModel, Option<StateFault>) {
    if !e.verified() {
        (g, Some(StateFault::Unauthorized("Invalid signature"@)))
    } else if !may_write {
        (
            g,
            Some(
                StateFault::Unauthorized(
                    "Author "@ + text::hex_text(e.author_id) + " not authorized"@,
                ),
            ),
        )
    } else {
        let (after, fault) = model::ingested(g, e, now);
        (
            after,
            match fault {
                Some(f) => Some(outside_fault(f)),
                None => None,
            },
        )
    }
}

/// An entry whose signature does not hold, or whose author may not write, changes
/// nothing.
pub proof fn law_strangers_change_nothing(
    g: ActorModel,
    may_write: bool,
    e: SignedEntryModel,
    now: u64,
)
    requires
        !e.verified() || !may_write,
    ensures
        admitted(g, may_write, e, now).0 == g,
        admitted(g, may_write, e, now).1 matches Some(StateFault::Unauthorized(_)),
{
}

/// Takes an entry in from another node, received at the given time.
pub fn admit_entry_at<P: PeerProvider>(
    store: &mut StoreActor,
    peers: &P,
    entry: &SignedEntry,
    now: u64,
) -> (r: Result<(), StateError>)
    requires
        old(store).wf(),
        peers.ready(),
    ensures
        final(store).wf(),
        ({
            let (after, fault) = admitted(
                old(store)@,
                auth::may_write(peers.statuses(), peers.trusted(), entry@.author_id),
                entry@,
                now,
            );
            &&& final(store)@ == after
            &&& match fault {
                None => r is Ok,
                Some(f) => r matches Err(e) && e@ == f,
            }
        }),
{
    match entry.verify() {
        Ok(()) => {},
        Err(_) => {
            return Err(StateError::Unauthorized("Invalid signature".to_owned()));
        },
    }
    if !peers.can_accept_entry(&entry.author_id) {
        return Err(
            StateError::Unauthorized(
                "Author ".to_owned().concat(
                    hex_encode(entry.author_id.as_slice()).as_str(),
                ).concat(" not authorized"),
            ),
        );
    }
    match store.ingest_entry_at(entry, now) {
        Ok(()) => Ok(()),
        Err(e) => Err(
            StateError::Io(
                "Store error: ".to_owned().concat(e.into_state_error().to_string().as_str()),
            ),
        ),
    }
}

/// A store and the peers who may write to it.
pub struct AuthorizedStore<P: PeerProvider> {
    store_id: Uuid,
    store: StoreActor,
    peer_provider: P,
}

impl<P: PeerProvider> AuthorizedStore<P> {
    /// The parts are well formed.
    pub closed spec fn wf(&self) -> bool {
        self.store.wf() && self.peer_provider.ready()
    }

    /// The store.
    pub closed spec fn actor(&self) -> ActorModel {
        self.store@
    }

    /// Who knows the peers.
    pub closed spec fn provider(&self) -> P {
        self.peer_provider
    }

    /// The store's identifier.
    pub closed spec fn identifier(&self) -> Seq<u8> {
        self.store_id@
    }

    /// Whether entries of an author are accepted.
    pub open spec fn accepts(&self, author: Seq<u8>) -> bool {
        auth::may_write(self.provider().statuses(), self.provider().trusted(), author)
    }

    /// A store and the peers who may write to it.
    pub fn new(store_id: Uuid, store: StoreActor, peer_provider: P) -> (r: Self)
        requires
            store.wf(),
            peer_provider.ready(),
        ensures
            r.wf(),
            r.actor() == store@,
            r.provider() == peer_provider,
            r.identifier() == store_id@,
    {
        AuthorizedStore { store_id, store, peer_provider }
    }

    /// The store, for reading.
    pub fn store(&self) -> (r: &StoreActor)
        requires
            self.wf(),
        ensures
            r.wf(),
            r@ == self.actor(),
    {
        &self.store
    }

    /// The store's identifier.
    pub fn id(&self) -> (r: Uuid)
        ensures
            r@ == self.identifier(),
    {
        self.store_id
    }

    /// Whether a peer may connect.
    pub fn can_connect(&self, peer: &PubKey) -> (r: bool)
        requires
            self.wf(),
        ensures
            r == auth::may_connect(self.provider().statuses(), self.provider().trusted(), peer@),
    {
        self.peer_provider.can_connect(peer)
    }

    /// Whether entries of an author are accepted.
    pub fn can_accept_entry(&self, author: &PubKey) -> (r: bool)
        requires
            self.wf(),
        ensures
            r == self.accepts(author@),
    {
        self.peer_provider.can_accept_entry(author)
    }

    /// The authors whose status lets their entries in.
    pub fn list_acceptable_authors(&self) -> (r: Vec<PubKey>)
        requires
            self.wf(),
        ensures
            entry::digests(r@) == auth::writers(self.provider().statuses()),
    {
        self.peer_provider.list_acceptable_authors()
    }

    /// How far every chain has got.
    pub fn sync_state(&self) -> (r: SyncState)
        requires
            self.wf(),
        ensures
            r.wf(),
            r@ == manager::sync_of(self.actor().manager.chains),
    {
        self.store.sync_state()
    }

    /// Keeps what a peer says of its chains: what we and the peer lack of each
    /// other.
    pub fn set_peer_sync_state(&mut self, peer: &PubKey, info: &PeerSyncInfo) -> (r: Result<
        SyncDiscrepancy,
        StateError,
    >)
        requires
            old(self).wf(),
        ensures
            final(self).wf(),
            final(self).provider() == old(self).provider(),
            final(self).identifier() == old(self).identifier(),
            final(self).actor() == model::peer_said(old(self).actor(), peer@, info@),
            match model::peer_discrepancy(
                manager::sync_of(old(self).actor().manager.chains),
                info@,
            ) {
                Some(d) => r == Ok::<SyncDiscrepancy, StateError>(d),
                None => r matches Err(e) && e@ == StateFault::Conversion(
                    "sync state out of range"@,
                ),
            },
    {
        self.store.set_peer_sync_state(peer, info)
    }

    /// What a peer last said of its chains.
    pub fn get_peer_sync_state(&self, peer: &PubKey) -> (r: Option<PeerSyncInfo>)
        requires
            self.wf(),
        ensures
            match peer_sync_store::peer_info_at(self.actor().peers, peer@) {
                Some(info) => r matches Some(x) && x@ == info,
                None => r is None,
            },
    {
        self.store.get_peer_sync_state(peer)
    }

    /// Takes an entry in from another node, received at the given time.
    pub fn ingest_entry_at(&mut self, entry: &SignedEntry, now: u64) -> (r: Result<
        (),
        StateError,
    >)
        requires
            old(self).wf(),
        ensures
            final(self).wf(),
            final(self).provider() == old(self).provider(),
            final(self).identifier() == old(self).identifier(),
            ({
                let (after, fault) = admitted(
                    old(self).actor(),
                    old(self).accepts(entry@.author_id),
                    entry@,
                    now,
                );
                &&& final(self).actor() == after
                &&& match fault {
                    None => r is Ok,
                    Some(f) => r matches Err(e) && e@ == f,
                }
            }),
    {
        admit_entry_at(&mut self.store, &self.peer_provider, entry, now)
    }

    /// Takes an entry in from another node, received now.
    pub fn ingest_entry(&mut self, entry: &SignedEntry) -> (r: Result<(), StateError>)
        requires
            old(self).wf(),
        ensures
            final(self).wf(),
            final(self).provider() == old(self).provider(),
            final(self).identifier() == old(self).identifier(),
            exists|now: u64|
                {
                    let (after, fault) = #[trigger] admitted(
                        old(self).actor(),
                        old(self).accepts(entry@.author_id),
                        entry@,
                        now,
                    );
                    &&& final(self).actor() == after
                    &&& match fault {
                        None => r is Ok,
                        Some(f) => r matches Err(e) && e@ == f,
                    }
                },
    {
        let now: u64 = SystemClock.now_secs();
        self.ingest_entry_at(entry, now)
    }

    /// The entries of an author in a range of sequence numbers.
    pub fn stream_entries_in_range(&self, author: &PubKey, from_seq: u64, to_seq: u64) -> (r: Vec<
        SignedEntry,
    >)
        requires
            self.wf(),
        ensures
            message::models(r@) == log::range_entries(
                manager::chain_of(self.actor().manager, author@).log,
                from_seq,
                to_seq,
            ),
    {
        self.store.entries_in_range(author, from_seq, to_seq)
    }
}

} // verus!
