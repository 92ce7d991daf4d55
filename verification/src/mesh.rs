//! A mesh: nodes that share a root store, which says who the peers are.
use crate::auth;
use crate::bytes::{to_vec, PubKey, Uuid};
use crate::clock::{Clock, SystemClock};
use crate::crypto;
use crate::crypto::{hash_bytes, random_secret};
use crate::entry;
use crate::entry::{SignedEntry, SignedEntryModel};
use crate::head;
use crate::head::{lww, HeadModel};
use crate::message;
use crate::node::{PeerInfo, PEER_STATUS_PATTERN};
use crate::node_identity::PeerStatus;
use crate::peer_manager;
use crate::peer_manager::{Peer, PeerManager, PeerManagerError, PeerModel, PeersModel};
use crate::proto::storage::{DeleteOpModel, OpTypeModel, PutOpModel};
use crate::store::actor::laws;
use crate::store::actor::model;
use crate::store::actor::model::{ActorFault, ActorModel};
use crate::store::actor::{StoreActor, StoreActorError};
use crate::store::authorized_store;
use crate::store::authorized_store::admit_entry_at;
use crate::store::error::{StateError, StateFault};
use crate::store::sigchain::manager;
use crate::store::state;
use crate::store::watch::{FilterModel, WatchModel};
use crate::text;
use crate::text::hex_encode;
use crate::token;
use crate::token::{Invite, InviteModel, TOKEN_VERSION};
use crate::MAX_ENTRY_SIZE;
use vstd::prelude::*;
use vstd::string::*;

verus! {

// ---------------------------------------------------------------------------
// Models
// ---------------------------------------------------------------------------

/// The model of a [`Mesh`].
#[verifier::ext_equal]
pub struct MeshModel {
    /// The mesh, which has the identifier of its root store.
    pub id: Seq<u8>,
    /// The peers.
    pub peers: PeersModel,
    /// The number under which the root store is watched for statuses of peers.
    pub watcher: u64,
}

/// A mesh whose root store is `g`, and the store, which is watched from then on;
/// or the text of the error.
pub open spec fn created(id: Seq<u8>, g: ActorModel) -> Result<
    (MeshModel, ActorModel),
    Seq<char>,
> {
    match model::watch_answer(g, PEER_STATUS_PATTERN@) {
        Ok(pairs) => Ok(
            (
                MeshModel {
                    id,
                    peers: peer_manager::initial_peers(
                        PeersModel {
                            statuses: Map::empty(),
                            trusted: Set::empty(),
                            events: Seq::empty(),
                        },
                        pairs,
                    ),
                    watcher: g.next_watcher_id,
                },
                model::watched(g, FilterModel::Regex(PEER_STATUS_PATTERN@)),
            ),
        ),
        Err(why) => Err("Invalid regex: "@ + why),
    }
}

/// The mesh once it has heard what its root store has to tell it, and the store
/// once it has told.
pub open spec fn heard(m: MeshModel, g: ActorModel) -> (MeshModel, ActorModel) {
    (
        MeshModel {
            peers: peer_manager::peers_changed(m.peers, model::told_to(g.events, m.watcher)),
            ..m
        },
        ActorModel { events: model::told_to_others(g.events, m.watcher), ..g },
    )
}

/// What comes of writing to the root store: the mesh hears of it.
pub open spec fn written(
    m: MeshModel,
    g: ActorModel,
    writes: Seq<(Seq<u8>, Seq<u8>)>,
    now_ms: u64,
    now: u64,
) -> (MeshModel, ActorModel, Option<ActorFault>) {
    let (after, fault) = model::puts(g, writes, now_ms, now);
    let (n, h) = heard(m, after);
    (n, h, fault)
}

/// The write that gives a peer a status.
pub open spec fn status_write(pubkey: Seq<u8>, status: PeerStatus) -> (Seq<u8>, Seq<u8>) {
    (
        vstd::utf8::encode_utf8(peer_manager::peer_key(pubkey, "status"@)),
        vstd::utf8::encode_utf8(status.word()),
    )
}

/// The writes that invite a peer.
pub open spec fn invitation_writes(pubkey: Seq<u8>, inviter: Seq<u8>, now: u64) -> Seq<
    (Seq<u8>, Seq<u8>),
> {
    peer_manager::peer_writes(
        pubkey,
        peer_manager::peer_attributes(
            PeerModel {
                pubkey,
                status: PeerStatus::Invited,
                name: None,
                added_at: Some(now),
                added_by: Some(inviter),
            },
        ),
    )
}

/// The key of the root store that is there as long as a secret has not been used.
pub open spec fn invite_key(secret: Seq<u8>) -> Seq<u8> {
    vstd::utf8::encode_utf8("/invites/"@ + text::hex_text(crypto::blake3_hash(secret)))
}

/// The write that makes a secret good for one guest.
pub open spec fn invite_write(secret: Seq<u8>) -> (Seq<u8>, Seq<u8>) {
    (invite_key(secret), vstd::utf8::encode_utf8("valid"@))
}

/// Whether a secret is good.
pub open spec fn is_good(g: ActorModel, secret: Seq<u8>) -> bool {
    state::heads_at(g.state.kv, invite_key(secret)) matches Ok(heads) && head::live_head(
        head::ranked(heads),
    ) is Some
}

/// What comes of using a secret: whether it was good, and no longer is.
pub open spec fn consumed(
    m: MeshModel,
    g: ActorModel,
    secret: Seq<u8>,
    now_ms: u64,
    now: u64,
) -> (MeshModel, ActorModel, Result<bool, Seq<char>>) {
    if is_good(g, secret) {
        let (after, fault) = model::deleted(g, invite_key(secret), now_ms, now);
        let (n, h) = heard(m, after);
        (
            n,
            h,
            match fault {
                None => Ok(true),
                Some(f) => Err(f.as_state_fault().text()),
            },
        )
    } else {
        (m, g, Ok(false))
    }
}

/// What comes of an entry from another node.
pub open spec fn ingested(m: MeshModel, g: ActorModel, e: SignedEntryModel, now: u64) -> (
    MeshModel,
    ActorModel,
    Option<StateFault>,
) {
    let (after, fault) = authorized_store::admitted(
        g,
        auth::may_write(m.peers.statuses, m.peers.trusted, e.author_id),
        e,
        now,
    );
    let (n, h) = heard(m, after);
    (n, h, fault)
}

// ---------------------------------------------------------------------------
// Laws
// ---------------------------------------------------------------------------

/// A secret that has been used is not good a second time. The conditions are
/// those under which a deleted key has no value.
pub proof fn law_secret_is_good_once(
    m: MeshModel,
    g: ActorModel,
    secret: Seq<u8>,
    heads: Seq<HeadModel>,
    now_ms: u64,
    now: u64,
    later_ms: u64,
    later: u64,
)
    requires
        is_good(g, secret),
        state::heads_at(g.state.kv, invite_key(secret)) == Ok::<Seq<HeadModel>, StateFault>(heads),
        model::in_step(g),
        forall|i: int|
            0 <= i < heads.len() ==> (#[trigger] heads[i]).wf() && g.manager.hashes.contains(
                heads[i].hash,
            ),
        manager::chain_of(g.manager, g.me()).author_id == g.me(),
        manager::chain_of(g.manager, g.me()).store_id.len() == 16,
        g.me().len() == 32,
        ({
            let key = invite_key(secret);
            let e = laws::delete_entry(g, key, heads, now_ms);
            &&& e.verified()
            &&& e.hash().len() == 32
            &&& !g.manager.hashes.contains(e.hash())
            &&& e.encoding().len() <= MAX_ENTRY_SIZE
            &&& manager::ready_after(
                g.manager.orphans.orphans,
                g.me(),
                e.hash(),
            ).len() == 0
            &&& manager::dag_ready_after(
                g.manager.orphans.dag,
                e.hash(),
            ).len() == 0
            &&& head::stored_heads(
                seq![state::op_head(OpTypeModel::Delete(DeleteOpModel { key }), e)],
            ).len() <= u64::MAX
        }),
    ensures
        ({
            let (n, h, first) = consumed(m, g, secret, now_ms, now);
            &&& first == Ok::<bool, Seq<char>>(true)
            &&& consumed(n, h, secret, later_ms, later) == (n, h, Ok::<bool, Seq<char>>(false))
        }),
{
    let key = invite_key(secret);
    laws::law_deleted_key_has_no_value(g, key, heads, now_ms, now);
    let e = laws::delete_entry(g, key, heads, now_ms);
    let new = state::op_head(OpTypeModel::Delete(DeleteOpModel { key }), e);
    head::lemma_ranked_few(new);
    reveal_with_fuel(head::winner, 2);
    assert(seq![new].drop_last() =~= Seq::empty());
    assert(head::winner(seq![new]) == Some(new));
}

/// A secret for which an invitation has been made is good. The conditions are
/// those under which a value that was put is read back.
pub proof fn law_new_secret_is_good(
    m: MeshModel,
    g: ActorModel,
    secret: Seq<u8>,
    heads: Seq<HeadModel>,
    now_ms: u64,
    now: u64,
)
    requires
        state::heads_at(g.state.kv, invite_key(secret)) == Ok::<Seq<HeadModel>, StateFault>(heads),
        !(head::winner(head::ranked(heads)) matches Some(w) && w.value == invite_write(secret).1),
        model::in_step(g),
        forall|i: int|
            0 <= i < heads.len() ==> (#[trigger] heads[i]).wf() && g.manager.hashes.contains(
                heads[i].hash,
            ),
        manager::chain_of(g.manager, g.me()).author_id == g.me(),
        manager::chain_of(g.manager, g.me()).store_id.len() == 16,
        g.me().len() == 32,
        ({
            let (key, value) = invite_write(secret);
            let e = laws::put_entry(g, key, value, heads, now_ms);
            &&& e.verified()
            &&& e.hash().len() == 32
            &&& !g.manager.hashes.contains(e.hash())
            &&& e.encoding().len() <= MAX_ENTRY_SIZE
            &&& manager::ready_after(g.manager.orphans.orphans, g.me(), e.hash()).len() == 0
            &&& manager::dag_ready_after(g.manager.orphans.dag, e.hash()).len() == 0
            &&& head::stored_heads(
                seq![state::op_head(OpTypeModel::Put(PutOpModel { key, value }), e)],
            ).len() <= u64::MAX
        }),
    ensures
        ({
            let (n, h, fault) = written(m, g, seq![invite_write(secret)], now_ms, now);
            fault is None && is_good(h, secret)
        }),
{
    let (key, value) = invite_write(secret);
    laws::law_put_is_read_back(g, key, value, heads, now_ms, now);
    let e = laws::put_entry(g, key, value, heads, now_ms);
    let new = state::op_head(OpTypeModel::Put(PutOpModel { key, value }), e);
    head::lemma_ranked_few(new);
    reveal_with_fuel(head::winner, 2);
    reveal_with_fuel(model::puts, 2);
    assert(seq![new].drop_last() =~= Seq::empty());
    assert(head::winner(seq![new]) == Some(new));
    let writes = seq![invite_write(secret)];
    assert(writes.drop_last() =~= Seq::empty());
    assert(model::puts(g, writes, now_ms, now) == model::put(g, key, value, now_ms, now));
}

/// A secret that nobody has made good lets nobody in, and changes nothing.
pub proof fn law_unknown_secret_is_refused(
    m: MeshModel,
    g: ActorModel,
    secret: Seq<u8>,
    now_ms: u64,
    now: u64,
)
    requires
        !g.state.kv.dom().contains(invite_key(secret)),
    ensures
        consumed(m, g, secret, now_ms, now) == (m, g, Ok::<bool, Seq<char>>(false)),
{
    head::lemma_ranked_few(arbitrary());
}

// ---------------------------------------------------------------------------
// The mesh
// ---------------------------------------------------------------------------

/// A mesh. Its root store is with whoever owns it, and is passed in.
pub struct Mesh {
    id: Uuid,
    peer_manager: PeerManager,
    watcher: u64,
}

impl View for Mesh {
    type V = MeshModel;

    closed spec fn view(&self) -> MeshModel {
        MeshModel { id: self.id@, peers: self.peer_manager@, watcher: self.watcher }
    }
}

impl Mesh {
    /// The peers are well formed.
    pub closed spec fn wf(&self) -> bool {
        self.peer_manager.wf()
    }

    /// The mesh of a root store. The store is watched for statuses of peers from
    /// then on.
    pub fn create(id: Uuid, root: &mut StoreActor) -> (r: Result<Self, PeerManagerError>)
        requires
            old(root).wf(),
            old(root)@.next_watcher_id < u64::MAX,
        ensures
            final(root).wf(),
            match created(id@, old(root)@) {
                Ok((m, g)) => {
                    &&& r matches Ok(mesh) && mesh.wf() && mesh@ == m
                    &&& final(root)@ == g
                },
                Err(why) => {
                    &&& r matches Err(PeerManagerError::Store(t)) && t@ == why
                    &&& final(root)@ == old(root)@
                },
            },
    {
        match root.watch(PEER_STATUS_PATTERN) {
            Ok((watcher, initial)) => Ok(
                Mesh { id, peer_manager: PeerManager::new(&initial), watcher },
            ),
            Err(e) => Err(PeerManagerError::Store(e.to_string())),
        }
    }

    /// The identifier of the mesh, which is that of its root store.
    pub fn id(&self) -> (r: Uuid)
        ensures
            r@ == self@.id,
    {
        self.id
    }

    /// The peers.
    pub fn peer_manager(&self) -> (r: &PeerManager)
        requires
            self.wf(),
        ensures
            r.wf(),
            r@ == self@.peers,
    {
        &self.peer_manager
    }

    /// Hears what the root store has to tell.
    pub fn hear(&mut self, root: &mut StoreActor)
        requires
            old(self).wf(),
            old(root).wf(),
        ensures
            final(self).wf(),
            final(root).wf(),
            (final(self)@, final(root)@) == heard(old(self)@, old(root)@),
    {
        let ghost start = self@;
        let events = root.take_watch_events(self.watcher);
        self.peer_manager.on_watch_events(&events);
        assert(self@ =~= heard(start, old(root)@).0);
    }

    /// The peers that have been told of since they were last asked for.
    pub fn take_peer_events(&mut self) -> (r: Vec<auth::PeerEvent>)
        requires
            old(self).wf(),
        ensures
            final(self).wf(),
            message::models(r@) == old(self)@.peers.events,
            final(self)@ == (MeshModel {
                peers: PeersModel { events: Seq::empty(), ..old(self)@.peers },
                ..old(self)@
            }),
    {
        self.peer_manager.take_events()
    }

    /// Everything that the root store knows of the peers.
    pub fn list_peers(&self, root: &StoreActor) -> (r: Result<Vec<PeerInfo>, PeerManagerError>)
        requires
            root.wf(),
        ensures
            match model::heads_with_prefix(root@, vstd::utf8::encode_utf8("/nodes/"@)) {
                Ok(pairs) => r matches Ok(v) && message::models(v@) == peer_manager::infos_of(
                    peer_manager::grouped(pairs),
                ),
                Err(f) => r matches Err(PeerManagerError::Store(t)) && t@ == f.text(),
            },
    {
        match root.list_by_prefix("/nodes/".as_bytes()) {
            Ok(nodes) => Ok(PeerManager::list_peers(&nodes)),
            Err(e) => Err(PeerManagerError::Store(e.to_string())),
        }
    }

    /// Writes to the root store, at the given times of the wall clock, in
    /// milliseconds and in seconds.
    pub fn write_at(
        &mut self,
        root: &mut StoreActor,
        writes: &Vec<(Vec<u8>, Vec<u8>)>,
        now_ms: u64,
        now: u64,
    ) -> (r: Result<(), StoreActorError>)
        requires
            old(self).wf(),
            old(root).wf(),
        ensures
            final(self).wf(),
            final(root).wf(),
            ({
                let (m, g, fault) = written(
                    old(self)@,
                    old(root)@,
                    state::pair_models(writes@),
                    now_ms,
                    now,
                );
                &&& final(self)@ == m
                &&& final(root)@ == g
                &&& match fault {
                    None => r is Ok,
                    Some(f) => r matches Err(e) && e@ == f,
                }
            }),
    {
        let r = root.put_all_at(writes, now_ms, now);
        self.hear(root);
        r
    }

    /// Gives a peer a status, at the given times of the wall clock.
    pub fn set_peer_status_at(
        &mut self,
        root: &mut StoreActor,
        pubkey: &PubKey,
        status: PeerStatus,
        now_ms: u64,
        now: u64,
    ) -> (r: Result<(), PeerManagerError>)
        requires
            old(self).wf(),
            old(root).wf(),
        ensures
            final(self).wf(),
            final(root).wf(),
            ({
                let (m, g, fault) = written(
                    old(self)@,
                    old(root)@,
                    seq![status_write(pubkey@, status)],
                    now_ms,
                    now,
                );
                &&& final(self)@ == m
                &&& final(root)@ == g
                &&& match fault {
                    None => r is Ok,
                    Some(f) => r matches Err(PeerManagerError::Store(t)) && t@
                        == f.as_state_fault().text(),
                }
            }),
    {
        let mut writes: Vec<(Vec<u8>, Vec<u8>)> = Vec::new();
        writes.push(PeerManager::set_peer_status(pubkey, status));
        assert(state::pair_models(writes@) =~= seq![status_write(pubkey@, status)]);
        match self.write_at(root, &writes, now_ms, now) {
            Ok(()) => Ok(()),
            Err(e) => Err(PeerManagerError::Store(e.into_state_error().to_string())),
        }
    }

    /// Shuts a peer out, now.
    pub fn revoke_peer(&mut self, root: &mut StoreActor, pubkey: &PubKey) -> (r: Result<
        (),
        PeerManagerError,
    >)
        requires
            old(self).wf(),
            old(root).wf(),
        ensures
            final(self).wf(),
            final(root).wf(),
            exists|now_ms: u64, now: u64|
                {
                    let (m, g, fault) = #[trigger] written(
                        old(self)@,
                        old(root)@,
                        seq![status_write(pubkey@, PeerStatus::Revoked)],
                        now_ms,
                        now,
                    );
                    &&& final(self)@ == m
                    &&& final(root)@ == g
                    &&& match fault {
                        None => r is Ok,
                        Some(f) => r matches Err(PeerManagerError::Store(t)) && t@
                            == f.as_state_fault().text(),
                    }
                },
    {
        let now_ms: u64 = SystemClock.now_ms();
        self.set_peer_status_at(root, pubkey, PeerStatus::Revoked, now_ms, now_ms / 1000)
    }

    /// Makes a peer active, now.
    pub fn activate_peer(&mut self, root: &mut StoreActor, pubkey: &PubKey) -> (r: Result<
        (),
        PeerManagerError,
    >)
        requires
            old(self).wf(),
            old(root).wf(),
        ensures
            final(self).wf(),
            final(root).wf(),
            exists|now_ms: u64, now: u64|
                {
                    let (m, g, fault) = #[trigger] written(
                        old(self)@,
                        old(root)@,
                        seq![status_write(pubkey@, PeerStatus::Active)],
                        now_ms,
                        now,
                    );
                    &&& final(self)@ == m
                    &&& final(root)@ == g
                    &&& match fault {
                        None => r is Ok,
                        Some(f) => r matches Err(PeerManagerError::Store(t)) && t@
                            == f.as_state_fault().text(),
                    }
                },
    {
        let now_ms: u64 = SystemClock.now_ms();
        self.set_peer_status_at(root, pubkey, PeerStatus::Active, now_ms, now_ms / 1000)
    }

    /// Invites a peer, at the given times of the wall clock.
    pub fn invite_peer_at(
        &mut self,
        root: &mut StoreActor,
        pubkey: PubKey,
        inviter: PubKey,
        now_ms: u64,
        now: u64,
    ) -> (r: Result<(), PeerManagerError>)
        requires
            old(self).wf(),
            old(root).wf(),
        ensures
            final(self).wf(),
            final(root).wf(),
            ({
                let (m, g, fault) = written(
                    old(self)@,
                    old(root)@,
                    invitation_writes(pubkey@, inviter@, now),
                    now_ms,
                    now,
                );
                &&& final(self)@ == m
                &&& final(root)@ == g
                &&& match fault {
                    None => r is Ok,
                    Some(f) => r matches Err(PeerManagerError::Store(t)) && t@
                        == f.as_state_fault().text(),
                }
            }),
    {
        let writes = Peer::new_invited_at(pubkey, inviter, now).save();
        match self.write_at(root, &writes, now_ms, now) {
            Ok(()) => Ok(()),
            Err(e) => Err(PeerManagerError::Store(e.into_state_error().to_string())),
        }
    }

    /// Invites a peer, now.
    pub fn invite_peer(&mut self, root: &mut StoreActor, pubkey: PubKey, inviter: PubKey) -> (r:
        Result<(), PeerManagerError>)
        requires
            old(self).wf(),
            old(root).wf(),
        ensures
            final(self).wf(),
            final(root).wf(),
            exists|now_ms: u64, now: u64|
                {
                    let (m, g, fault) = #[trigger] written(
                        old(self)@,
                        old(root)@,
                        invitation_writes(pubkey@, inviter@, now),
                        now_ms,
                        now,
                    );
                    &&& final(self)@ == m
                    &&& final(root)@ == g
                    &&& match fault {
                        None => r is Ok,
                        Some(f) => r matches Err(PeerManagerError::Store(t)) && t@
                            == f.as_state_fault().text(),
                    }
                },
    {
        let now_ms: u64 = SystemClock.now_ms();
        self.invite_peer_at(root, pubkey, inviter, now_ms, now_ms / 1000)
    }

    /// Makes a secret good for one guest, at the given times of the wall clock:
    /// the token of the invitation.
    pub fn create_invite_at(
        &mut self,
        root: &mut StoreActor,
        inviter: PubKey,
        secret: &[u8],
        now_ms: u64,
        now: u64,
    ) -> (r: Result<String, String>)
        requires
            old(self).wf(),
            old(root).wf(),
        ensures
            final(self).wf(),
            final(root).wf(),
            ({
                let (m, g, fault) = written(
                    old(self)@,
                    old(root)@,
                    seq![invite_write(secret@)],
                    now_ms,
                    now,
                );
                let invite = InviteModel { inviter: inviter@, mesh_id: m.id, secret: secret@ };
                &&& final(self)@ == m
                &&& final(root)@ == g
                &&& match fault {
                    None => {
                        &&& r matches Ok(t) && t@ == token::base58_text(
                            TOKEN_VERSION,
                            invite.encoding(),
                        )
                        &&& invite.encoding().len() <= u64::MAX ==> (r matches Ok(t)
                            && InviteModel::of_versioned(token::base58_bytes(t@, TOKEN_VERSION))
                            == Ok::<InviteModel, Seq<char>>(invite))
                    },
                    Some(f) => r matches Err(t) && t@ == f.as_state_fault().text(),
                }
            }),
    {
        let key = Mesh::secret_key(secret);
        let mut writes: Vec<(Vec<u8>, Vec<u8>)> = Vec::new();
        writes.push((key, to_vec("valid".as_bytes())));
        assert(state::pair_models(writes@) =~= seq![invite_write(secret@)]);
        match self.write_at(root, &writes, now_ms, now) {
            Ok(()) => {},
            Err(e) => {
                return Err(e.into_state_error().to_string());
            },
        }
        Ok(Invite::new(inviter, self.id(), to_vec(secret)).to_string())
    }

    fn secret_key(secret: &[u8]) -> (r: Vec<u8>)
        ensures
            r@ == invite_key(secret@),
    {
        let hash = hash_bytes(secret);
        let key = "/invites/".to_owned().concat(hex_encode(hash.as_slice()).as_str());
        to_vec(key.as_str().as_bytes())
    }

    /// Makes a random secret good for one guest, now: the token of the invitation.
    pub fn create_invite(&mut self, root: &mut StoreActor, inviter: PubKey) -> (r: Result<
        String,
        String,
    >)
        requires
            old(self).wf(),
            old(root).wf(),
        ensures
            final(self).wf(),
            final(root).wf(),
            exists|secret: Seq<u8>, now_ms: u64, now: u64|
                {
                    let (m, g, fault) = #[trigger] written(
                        old(self)@,
                        old(root)@,
                        seq![invite_write(secret)],
                        now_ms,
                        now,
                    );
                    let invite = InviteModel { inviter: inviter@, mesh_id: m.id, secret };
                    &&& secret.len() == 32
                    &&& final(self)@ == m
                    &&& final(root)@ == g
                    &&& match fault {
                        None => {
                            &&& r matches Ok(t) && t@ == token::base58_text(
                                TOKEN_VERSION,
                                invite.encoding(),
                            )
                            &&& invite.encoding().len() <= u64::MAX ==> (r matches Ok(t)
                                && InviteModel::of_versioned(
                                token::base58_bytes(t@, TOKEN_VERSION),
                            ) == Ok::<InviteModel, Seq<char>>(invite))
                        },
                        Some(f) => r matches Err(t) && t@ == f.as_state_fault().text(),
                    }
                },
    {
        let secret = random_secret();
        let now_ms: u64 = SystemClock.now_ms();
        self.create_invite_at(root, inviter, secret.as_slice(), now_ms, now_ms / 1000)
    }

    /// Uses a secret, at the given times of the wall clock: whether it was good.
    pub fn consume_invite_secret_at(
        &mut self,
        root: &mut StoreActor,
        secret: &[u8],
        now_ms: u64,
        now: u64,
    ) -> (r: Result<bool, String>)
        requires
            old(self).wf(),
            old(root).wf(),
        ensures
            final(self).wf(),
            final(root).wf(),
            ({
                let (m, g, good) = consumed(old(self)@, old(root)@, secret@, now_ms, now);
                &&& final(self)@ == m
                &&& final(root)@ == g
                &&& match good {
                    Ok(b) => r == Ok::<bool, String>(b),
                    Err(why) => r matches Err(t) && t@ == why,
                }
            }),
    {
        let key = Mesh::secret_key(secret);
        let good = match root.get(key.as_slice()) {
            Ok(heads) => lww(heads.as_slice()).is_some(),
            Err(_) => false,
        };
        if !good {
            return Ok(false);
        }
        let r = root.delete_at(key.as_slice(), now_ms, now);
        self.hear(root);
        match r {
            Ok(()) => Ok(true),
            Err(e) => Err(e.into_state_error().to_string()),
        }
    }

    /// Uses a secret, now: whether it was good.
    pub fn consume_invite_secret(&mut self, root: &mut StoreActor, secret: &[u8]) -> (r: Result<
        bool,
        String,
    >)
        requires
            old(self).wf(),
            old(root).wf(),
        ensures
            final(self).wf(),
            final(root).wf(),
            exists|now_ms: u64, now: u64|
                {
                    let (m, g, good) = #[trigger] consumed(
                        old(self)@,
                        old(root)@,
                        secret@,
                        now_ms,
                        now,
                    );
                    &&& final(self)@ == m
                    &&& final(root)@ == g
                    &&& match good {
                        Ok(b) => r == Ok::<bool, String>(b),
                        Err(why) => r matches Err(t) && t@ == why,
                    }
                },
    {
        let now_ms: u64 = SystemClock.now_ms();
        self.consume_invite_secret_at(root, secret, now_ms, now_ms / 1000)
    }

    /// Takes an entry in from another node, received at the given time.
    pub fn ingest_entry_at(&mut self, root: &mut StoreActor, entry: &SignedEntry, now: u64) -> (r:
        Result<(), StateError>)
        requires
            old(self).wf(),
            old(root).wf(),
        ensures
            final(self).wf(),
            final(root).wf(),
            ({
                let (m, g, fault) = ingested(old(self)@, old(root)@, entry@, now);
                &&& final(self)@ == m
                &&& final(root)@ == g
                &&& match fault {
                    None => r is Ok,
                    Some(f) => r matches Err(e) && e@ == f,
                }
            }),
    {
        let r = admit_entry_at(root, &self.peer_manager, entry, now);
        self.hear(root);
        r
    }

    /// Trusts the given authors, and no others, during the first sync.
    pub fn set_bootstrap_authors(&mut self, authors: &Vec<PubKey>)
        requires
            old(self).wf(),
        ensures
            final(self).wf(),
            final(self)@ == (MeshModel {
                peers: PeersModel {
                    trusted: entry::digests(authors@).to_set(),
                    ..old(self)@.peers
                },
                ..old(self)@
            }),
    {
        self.peer_manager.set_bootstrap_authors(authors);
    }

    /// Trusts nobody beyond what the statuses say: the first sync is over.
    pub fn clear_bootstrap_authors(&mut self)
        requires
            old(self).wf(),
        ensures
            final(self).wf(),
            final(self)@ == (MeshModel {
                peers: PeersModel { trusted: Set::empty(), ..old(self)@.peers },
                ..old(self)@
            }),
    {
        self.peer_manager.clear_bootstrap_authors();
    }
}

/// What an invitation writes: that the peer is invited, since when, and by whom.
pub proof fn law_invitation_says_who_and_when(pubkey: Seq<u8>, inviter: Seq<u8>, now: u64)
    ensures
        ({
            let path = "/nodes/"@ + text::hex_text(pubkey) + "/"@;
            let w = invitation_writes(pubkey, inviter, now);
            &&& w.contains(
                (
                    vstd::utf8::encode_utf8(path + "status"@),
                    vstd::utf8::encode_utf8(PeerStatus::Invited.word()),
                ),
            )
            &&& w.contains(
                (
                    vstd::utf8::encode_utf8(path + "added_at"@),
                    vstd::utf8::encode_utf8(text::decimal_text(now as nat)),
                ),
            )
            &&& w.contains(
                (
                    vstd::utf8::encode_utf8(path + "added_by"@),
                    vstd::utf8::encode_utf8(text::hex_text(inviter)),
                ),
            )
            &&& w.len() == 3
        }),
{
    let w = invitation_writes(pubkey, inviter, now);
    let path = "/nodes/"@ + text::hex_text(pubkey) + "/"@;
    assert(w[0] == (
        vstd::utf8::encode_utf8(path + "status"@),
        vstd::utf8::encode_utf8(PeerStatus::Invited.word()),
    ));
    assert(w[1] == (
        vstd::utf8::encode_utf8(path + "added_at"@),
        vstd::utf8::encode_utf8(text::decimal_text(now as nat)),
    ));
    assert(w[2] == (
        vstd::utf8::encode_utf8(path + "added_by"@),
        vstd::utf8::encode_utf8(text::hex_text(inviter)),
    ));
}

/// A status is written as its word under the peer's own key.
pub proof fn law_status_is_written_under_its_peer(pubkey: Seq<u8>, status: PeerStatus)
    ensures
        status_write(pubkey, status).0 == vstd::utf8::encode_utf8(
            "/nodes/"@ + text::hex_text(pubkey) + "/"@ + "status"@,
        ),
        status_write(pubkey, status).1 == vstd::utf8::encode_utf8(status.word()),
{
}

/// A secret is kept by its hash alone, under the invitations.
pub proof fn law_secret_is_kept_by_its_hash(secret: Seq<u8>)
    ensures
        invite_write(secret).0 == vstd::utf8::encode_utf8(
            "/invites/"@ + text::hex_text(crypto::blake3_hash(secret)),
        ),
        invite_write(secret).1 == vstd::utf8::encode_utf8("valid"@),
{
}

/// What the store tells the mesh's own watcher changes the peers one after the other; what it
/// tells others stays to be told. The keys and chains stay.
pub proof fn law_mesh_hears_its_own_news(m: MeshModel, g: ActorModel, news: WatchModel)
    ensures
        ({
            let more = ActorModel {
                events: g.events.push(model::EventModel::Watch(m.watcher, news)),
                ..g
            };
            let (n, h) = heard(m, g);
            let (n2, h2) = heard(m, more);
            &&& n2.peers == peer_manager::peer_changed(n.peers, news)
            &&& h2 == h
            &&& n.id == m.id && n.watcher == m.watcher
            &&& h.state == g.state && h.manager == g.manager && h.watchers == g.watchers
        }),
{
    let told = model::told_to(g.events, m.watcher);
    crate::store::actor::news::law_watcher_takes_its_own_news(
        g.events,
        m.watcher,
        if m.watcher == 0 {
            1
        } else {
            0
        },
        news,
    );
    assert(told.push(news).drop_last() =~= told);
    assert(told.push(news).last() == news);
}

/// An entry of an author who is neither trusted nor known other than as invited changes no
/// key and no chain of the mesh's store, and is refused.
pub proof fn law_strangers_are_refused(
    m: MeshModel,
    g: ActorModel,
    e: SignedEntryModel,
    now: u64,
)
    requires
        !m.peers.trusted.contains(e.author_id),
        !m.peers.statuses.dom().contains(e.author_id) || m.peers.statuses[e.author_id] is Invited,
    ensures
        ingested(m, g, e, now).1.state == g.state,
        ingested(m, g, e, now).1.manager == g.manager,
        ingested(m, g, e, now).2 is Some,
{
    auth::law_status_decides(m.peers.statuses, m.peers.trusted, e.author_id);
    authorized_store::law_strangers_change_nothing(g, false, e, now);
}

/// An entry of an active, dormant or revoked author, or a trusted one, whose signature holds
/// is taken as the store takes it.
pub proof fn law_members_are_let_in(m: MeshModel, g: ActorModel, e: SignedEntryModel, now: u64)
    requires
        e.verified(),
        m.peers.trusted.contains(e.author_id) || (m.peers.statuses.dom().contains(e.author_id) && !(
        m.peers.statuses[e.author_id] is Invited)),
    ensures
        ingested(m, g, e, now).1.state == model::ingested(g, e, now).0.state,
        ingested(m, g, e, now).1.manager == model::ingested(g, e, now).0.manager,
        ingested(m, g, e, now).2 is None <==> model::ingested(g, e, now).1 is None,
{
    auth::law_status_decides(m.peers.statuses, m.peers.trusted, e.author_id);
}

/// A new mesh has the identifier of its store, knows the peers of whom the store tells a
/// status, trusts nobody beyond them, and watches the store for statuses from then on.
pub proof fn law_new_mesh_watches_its_store(id: Seq<u8>, g: ActorModel)
    ensures
        created(id, g) matches Ok((m, h)) ==> {
            &&& m.id == id
            &&& m.watcher == g.next_watcher_id
            &&& h.watchers == g.watchers.push((m.watcher, FilterModel::Regex(PEER_STATUS_PATTERN@)))
            &&& h.state == g.state && h.manager == g.manager && h.events == g.events
            &&& model::heads_matching(g, PEER_STATUS_PATTERN@) matches Ok(pairs) && m.peers
                == peer_manager::initial_peers(
                PeersModel { statuses: Map::empty(), trusted: Set::empty(), events: Seq::empty() },
                pairs,
            )
        },
{
}

} // verus!
