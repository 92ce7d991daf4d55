//! The node: who it is, what stores it has, and the mesh that it is part of.
use crate::auth;
use crate::auth::PeerProvider;
use crate::bytes::{bytes_eq, to_array32, PubKey, Uuid};
use crate::clock::{Clock, SystemClock};
use crate::crypto;
use crate::crypto::random_uuid;
use crate::data_dir;
use crate::data_dir::DataDir;
use crate::entry;
use crate::entry::SignedEntry;
use crate::mesh;
use crate::mesh::{Mesh, MeshModel};
use crate::message;
use crate::meta_store;
use crate::meta_store::{MetaModel, MetaStore, MetaStoreError};
use crate::node_identity;
use crate::node_identity::{NodeIdentity, PeerStatus};
use crate::peer_manager;
use crate::peer_manager::{attribute_write, PeerManager, PeerManagerError, PeersModel};
use crate::proto::storage::StoreMetadata;
use crate::store::actor::laws;
use crate::store::actor::model;
use crate::store::actor::model::ActorModel;
use crate::store::actor::StoreActor;
use crate::store::error::{StateError, StateFault};
use crate::store::handle;
use crate::store::handle::{OpenedReplica, ReplicaInfo};
use crate::store::log::LogError;
use crate::store::peer_sync_store::PeerSyncStore;
use crate::store::sigchain::manager;
use crate::store::sigchain::manager::{ManagerModel, SigChainManager};
use crate::store::sigchain::orphan_store::{OrphanModel, OrphanStore};
use crate::store::sigchain::ChainFault;
use crate::store::state;
use crate::store::state::{State, StateModel};
use crate::store::watch;
use crate::store::watch::to_lossy_text;
use crate::table;
use crate::table::ByteTable;
use crate::text;
use crate::text::{decimal, hex_encode, strip_prefix, uuid_string};
use crate::token;
use crate::token::{InviteModel, TOKEN_VERSION};
use vstd::prelude::*;
use vstd::string::*;

verus! {

/// The pattern of the keys that hold the statuses of peers.
pub const PEER_STATUS_PATTERN: &'static str = "^/nodes/([a-f0-9]+)/status$";

/// Whether a character is a lower-case hexadecimal digit.
pub open spec fn is_hex(c: char) -> bool {
    'a' <= c <= 'f' || '0' <= c <= '9'
}

/// The public key, in hexadecimal notation, whose status a key holds: what stands
/// between `/nodes/` and `/status`, one lower-case hexadecimal digit or more.
pub open spec fn status_hex(key: Seq<char>) -> Option<Seq<char>> {
    match text::behind(key, "/nodes/"@) {
        None => None,
        Some(rest) => {
            let n = rest.len() - "/status"@.len();
            if n > 0 && rest.skip(n) == "/status"@ && forall|i: int|
                0 <= i < n ==> is_hex(#[trigger] rest[i]) {
                Some(rest.take(n))
            } else {
                None
            }
        },
    }
}

/// The public key, in hexadecimal notation, whose status a key holds.
pub fn parse_peer_status_key(key: &[u8]) -> (r: Option<String>)
    ensures
        match status_hex(watch::lossy_text(key@)) {
            Some(hex) => r matches Some(t) && t@ == hex,
            None => r is None,
        },
{
    let key_text = to_lossy_text(key);
    let rest = match strip_prefix(key_text.as_str(), "/nodes/") {
        Some(rest) => rest,
        None => {
            return None;
        },
    };
    proof {
        reveal_strlit("/status");
    }
    let total: usize = rest.unicode_len();
    if total <= 7 {
        return None;
    }
    let n: usize = total - 7;
    let end = rest.substring_char(n, total);
    assert(end@ =~= rest@.skip(n as int));
    if !text::str_eq(end, "/status") {
        return None;
    }
    let mut i: usize = 0;
    while i < n
        invariant
            i <= n,
            n < total,
            total == rest@.len(),
            n == rest@.len() - "/status"@.len(),
            text::behind(watch::lossy_text(key@), "/nodes/"@) == Some(rest@),
            forall|k: int| 0 <= k < i ==> is_hex(#[trigger] rest@[k]),
        decreases n - i,
    {
        let c = rest.get_char(i);
        if !(('a' <= c && c <= 'f') || ('0' <= c && c <= '9')) {
            assert(!is_hex(rest@[i as int]));
            return None;
        }
        i += 1;
    }
    let hex = rest.substring_char(0, n);
    assert(hex@ =~= rest@.take(n as int));
    Some(hex.to_owned())
}

/// What is told of a peer.
#[derive(Clone, Debug, PartialEq, Eq)]
pub struct PeerInfo {
    pub pubkey: PubKey,
    pub name: Option<String>,
    pub added_at: Option<u64>,
    pub added_by: Option<String>,
    pub status: PeerStatus,
}

/// The model of [`PeerInfo`].
pub struct PeerInfoModel {
    pub pubkey: Seq<u8>,
    pub name: Option<Seq<char>>,
    pub added_at: Option<u64>,
    pub added_by: Option<Seq<char>>,
    pub status: PeerStatus,
}

impl View for PeerInfo {
    type V = PeerInfoModel;

    open spec fn view(&self) -> PeerInfoModel {
        PeerInfoModel {
            pubkey: self.pubkey@,
            name: match self.name {
                Some(n) => Some(n@),
                None => None,
            },
            added_at: self.added_at,
            added_by: match self.added_by {
                Some(n) => Some(n@),
                None => None,
            },
            status: self.status,
        }
    }
}

// ---------------------------------------------------------------------------
// Errors
// ---------------------------------------------------------------------------

/// What can go wrong with the node.
#[derive(Debug, PartialEq, Eq)]
pub enum NodeError {
    /// A file cannot be read or written.
    Io(String),
    /// A store failed, or refused something.
    Store(StateError),
    /// The node's data about itself cannot be read or written.
    MetaStore(MetaStoreError),
    /// A log is faulty.
    Log(LogError),
    /// The node's identity is faulty.
    Node(node_identity::NodeError),
    /// The node is part of a mesh already.
    AlreadyInitialized,
    /// Nobody listens any more.
    ChannelClosed,
    /// Something that has to be there is not.
    Actor(String),
    /// A request makes no sense.
    Validation(String),
    /// Somebody failed while they held a lock.
    LockPoisoned,
    /// The peers cannot be read or written.
    PeerManager(PeerManagerError),
}

/// The model of [`NodeError`].
pub enum NodeFault {
    Io(Seq<char>),
    Store(StateFault),
    MetaStore(Seq<char>),
    Log(LogError),
    Node(Seq<char>),
    AlreadyInitialized,
    ChannelClosed,
    Actor(Seq<char>),
    Validation(Seq<char>),
    LockPoisoned,
    PeerManager(Seq<char>),
}

impl View for NodeError {
    type V = NodeFault;

    open spec fn view(&self) -> NodeFault {
        match self {
            NodeError::Io(t) => NodeFault::Io(t@),
            NodeError::Store(e) => NodeFault::Store(e@),
            NodeError::MetaStore(e) => NodeFault::MetaStore(e.text()),
            NodeError::Log(e) => NodeFault::Log(*e),
            NodeError::Node(e) => NodeFault::Node(e.text()),
            NodeError::AlreadyInitialized => NodeFault::AlreadyInitialized,
            NodeError::ChannelClosed => NodeFault::ChannelClosed,
            NodeError::Actor(t) => NodeFault::Actor(t@),
            NodeError::Validation(t) => NodeFault::Validation(t@),
            NodeError::LockPoisoned => NodeFault::LockPoisoned,
            NodeError::PeerManager(e) => NodeFault::PeerManager(e.text()),
        }
    }
}

impl NodeFault {
    /// The text of the error.
    pub open spec fn text(self) -> Seq<char> {
        match self {
            NodeFault::Io(t) => "IO error: "@ + t,
            NodeFault::Store(f) => "Store error: "@ + f.text(),
            NodeFault::MetaStore(t) => "MetaStore error: "@ + t,
            NodeFault::Log(e) => "Log error: "@ + e.text(),
            NodeFault::Node(t) => "Node error: "@ + t,
            NodeFault::AlreadyInitialized => "Already initialized"@,
            NodeFault::ChannelClosed => "Channel closed"@,
            NodeFault::Actor(t) => "Actor error: "@ + t,
            NodeFault::Validation(t) => "Validation error: "@ + t,
            NodeFault::LockPoisoned => "Lock poisoned"@,
            NodeFault::PeerManager(t) => "PeerManager error: "@ + t,
        }
    }
}

impl NodeError {
    /// The text of the error.
    pub fn to_string(&self) -> (r: String)
        ensures
            r@ == self@.text(),
    {
        match self {
            NodeError::Io(t) => "IO error: ".to_owned().concat(t.as_str()),
            NodeError::Store(e) => "Store error: ".to_owned().concat(e.to_string().as_str()),
            NodeError::MetaStore(e) => "MetaStore error: ".to_owned().concat(
                e.to_string().as_str(),
            ),
            NodeError::Log(e) => "Log error: ".to_owned().concat(e.to_string().as_str()),
            NodeError::Node(e) => "Node error: ".to_owned().concat(e.to_string().as_str()),
            NodeError::AlreadyInitialized => "Already initialized".to_owned(),
            NodeError::ChannelClosed => "Channel closed".to_owned(),
            NodeError::Actor(t) => "Actor error: ".to_owned().concat(t.as_str()),
            NodeError::Validation(t) => "Validation error: ".to_owned().concat(t.as_str()),
            NodeError::LockPoisoned => "Lock poisoned".to_owned(),
            NodeError::PeerManager(e) => "PeerManager error: ".to_owned().concat(
                e.to_string().as_str(),
            ),
        }
    }
}

/// Whether the result is the fault, or success where there is none.
pub open spec fn reports(r: Result<(), NodeError>, fault: Option<NodeFault>) -> bool {
    match fault {
        None => r is Ok,
        Some(f) => r matches Err(e) && e@ == f,
    }
}

// ---------------------------------------------------------------------------
// What is told
// ---------------------------------------------------------------------------

/// What the node tells its listeners, such as the network.
#[derive(Clone, Debug, PartialEq, Eq)]
pub enum NodeEvent {
    /// A store has been opened.
    StoreReady(Uuid),
    /// A mesh has been joined.
    MeshReady(Uuid),
    /// A store can be shared with the peers of its mesh.
    NetworkStore { store: Uuid },
    /// A store is to be synced with all peers.
    SyncRequested(Uuid),
    /// A mesh is to be joined through a peer.
    JoinRequested { peer: PubKey, mesh_id: Uuid },
    /// A mesh could not be joined.
    JoinFailed { mesh_id: Uuid, reason: String },
    /// A store is to be synced with one peer.
    SyncWithPeer { store_id: Uuid, peer: PubKey },
}

/// The model of [`NodeEvent`].
pub enum NodeEventModel {
    StoreReady(Seq<u8>),
    MeshReady(Seq<u8>),
    NetworkStore(Seq<u8>),
    SyncRequested(Seq<u8>),
    JoinRequested(Seq<u8>, Seq<u8>),
    JoinFailed(Seq<u8>, Seq<char>),
    SyncWithPeer(Seq<u8>, Seq<u8>),
}

impl View for NodeEvent {
    type V = NodeEventModel;

    open spec fn view(&self) -> NodeEventModel {
        match self {
            NodeEvent::StoreReady(id) => NodeEventModel::StoreReady(id@),
            NodeEvent::MeshReady(id) => NodeEventModel::MeshReady(id@),
            NodeEvent::NetworkStore { store } => NodeEventModel::NetworkStore(store@),
            NodeEvent::SyncRequested(id) => NodeEventModel::SyncRequested(id@),
            NodeEvent::JoinRequested { peer, mesh_id } => NodeEventModel::JoinRequested(
                peer@,
                mesh_id@,
            ),
            NodeEvent::JoinFailed { mesh_id, reason } => NodeEventModel::JoinFailed(
                mesh_id@,
                reason@,
            ),
            NodeEvent::SyncWithPeer { store_id, peer } => NodeEventModel::SyncWithPeer(
                store_id@,
                peer@,
            ),
        }
    }
}

/// What is told of the node.
#[derive(Debug, PartialEq, Eq)]
pub struct NodeInfo {
    pub node_id: String,
    pub data_path: String,
    pub stores: Vec<Uuid>,
}

/// What a peer gets that is let into a mesh.
#[derive(Debug, PartialEq, Eq)]
pub struct JoinAcceptance {
    pub store_id: Uuid,
    pub authorized_authors: Vec<PubKey>,
}

// ---------------------------------------------------------------------------
// Models
// ---------------------------------------------------------------------------

/// The model of a [`Node`].
#[verifier::ext_equal]
pub struct NodeModel {
    /// Where the node keeps its data.
    pub dir: Seq<u8>,
    /// The node's secret key.
    pub secret: Seq<u8>,
    /// What the node knows of itself.
    pub meta: MetaModel,
    /// The root store, once it has been opened.
    pub root: Option<ActorModel>,
    /// The mesh, once it has been set up.
    pub mesh: Option<MeshModel>,
    /// The meshes that are being joined.
    pub pending: Set<Seq<u8>>,
    /// What has not been told yet.
    pub events: Seq<NodeEventModel>,
}

impl NodeModel {
    /// The node's public key.
    pub open spec fn me(self) -> Seq<u8> {
        crypto::ed25519_public(self.secret)
    }
}

/// A node that has done nothing yet.
pub open spec fn fresh_node(dir: Seq<u8>, secret: Seq<u8>, meta: MetaModel) -> NodeModel {
    NodeModel {
        dir,
        secret,
        meta,
        root: None,
        mesh: None,
        pending: Set::empty(),
        events: Seq::empty(),
    }
}

/// A store of the node in which there is nothing.
pub open spec fn empty_store(n: NodeModel, id: Seq<u8>) -> ActorModel {
    ActorModel {
        state: StateModel { kv: Map::empty(), tips: Map::empty() },
        manager: manager::knowing(
            ManagerModel {
                logs_dir: data_dir::path_in(n.dir, "logs"@),
                store_id: id,
                chains: Map::empty(),
                hashes: Set::empty(),
                orphans: OrphanModel { orphans: Map::empty(), dag: Map::empty() },
                gaps: Seq::empty(),
            },
            n.me(),
        ),
        peers: Map::empty(),
        secret: n.secret,
        watchers: Seq::empty(),
        next_watcher_id: 0,
        events: Seq::empty(),
    }
}

/// The stores of the node.
pub open spec fn store_ids(m: MetaModel) -> Seq<Seq<u8>> {
    meta_store::records::<StoreMetadata>(
        m.stores,
        table::sorted_keys(m.stores.dom()),
    ).map_values(|p: (Seq<u8>, <StoreMetadata as View>::V)| p.0)
}

/// The models of identifiers.
pub open spec fn ids(v: Seq<Uuid>) -> Seq<Seq<u8>> {
    v.map_values(|id: Uuid| id@)
}

/// What comes of setting up the mesh of the root store, which is open.
pub open spec fn meshed(n: NodeModel, id: Seq<u8>) -> (NodeModel, Option<NodeFault>) {
    match n.root {
        None => (n, Some(NodeFault::Actor("Root store is not open"@))),
        Some(g) => match mesh::created(id, g) {
            Ok((m, h)) => (NodeModel { root: Some(h), mesh: Some(m), ..n }, None),
            Err(why) => (n, Some(NodeFault::Actor("Store error: "@ + why))),
        },
    }
}

/// The node with more to tell.
pub open spec fn telling(n: NodeModel, news: Seq<NodeEventModel>) -> NodeModel {
    NodeModel { events: n.events + news, ..n }
}

/// What comes of starting the node.
pub open spec fn started(n: NodeModel) -> (NodeModel, Option<NodeFault>) {
    match meta_store::root_of(n.meta) {
        None => (
            n,
            Some(NodeFault::Actor("No root store configured - run init or join first"@)),
        ),
        Some(id) => {
            let (after, fault) = meshed(n, id);
            if fault is Some {
                (after, fault)
            } else {
                (
                    telling(
                        after,
                        seq![
                            NodeEventModel::StoreReady(id),
                            NodeEventModel::NetworkStore(id),
                            NodeEventModel::SyncRequested(id),
                        ],
                    ),
                    None,
                )
            }
        },
    }
}

/// What a node says of itself when it sets up a mesh.
pub open spec fn own_attributes(n: NodeModel, now: u64) -> Seq<(Seq<char>, Seq<char>)> {
    (match meta_store::name_of(n.meta) {
        Some(name) => seq![("name"@, name)],
        None => Seq::empty(),
    }).push(("added_at"@, text::decimal_text(now as nat))).push(("status"@, "active"@))
}

/// What comes of setting up a mesh with the given root store.
pub open spec fn initialized(n: NodeModel, id: Seq<u8>, now_ms: u64, now: u64) -> (
    NodeModel,
    Option<NodeFault>,
) {
    if meta_store::root_of(n.meta) is Some {
        (n, Some(NodeFault::AlreadyInitialized))
    } else {
        let meta = meta_store::with_root(meta_store::with_store(n.meta, id, id, now_ms), id);
        let (g, fault) = model::puts(
            empty_store(n, id),
            peer_manager::peer_writes(n.me(), own_attributes(n, now)),
            now_ms,
            now,
        );
        let filled = NodeModel { meta, root: Some(g), mesh: None, ..n };
        match fault {
            Some(f) => (filled, Some(NodeFault::Store(f.as_state_fault()))),
            None => {
                let (after, fault) = meshed(filled, id);
                if fault is Some {
                    (after, fault)
                } else {
                    (telling(after, seq![NodeEventModel::NetworkStore(id)]), None)
                }
            },
        }
    }
}

/// What comes of asking to join a mesh through a peer.
pub open spec fn joining(n: NodeModel, peer: Seq<u8>, mesh_id: Seq<u8>) -> (
    NodeModel,
    Option<NodeFault>,
) {
    if meta_store::root_of(n.meta) is Some {
        (n, Some(NodeFault::AlreadyInitialized))
    } else if n.pending.contains(mesh_id) {
        (
            n,
            Some(
                NodeFault::Validation(
                    "Join for mesh "@ + text::uuid_text(mesh_id) + " is already in progress"@,
                ),
            ),
        )
    } else {
        (
            telling(
                NodeModel { pending: n.pending.insert(mesh_id), ..n },
                seq![NodeEventModel::JoinRequested(peer, mesh_id)],
            ),
            None,
        )
    }
}

/// What comes of writing to the root store, which is open. The mesh, where there
/// is one, hears of it.
pub open spec fn root_written(
    n: NodeModel,
    writes: Seq<(Seq<u8>, Seq<u8>)>,
    now_ms: u64,
    now: u64,
) -> (NodeModel, Option<NodeFault>) {
    match n.root {
        None => (n, Some(NodeFault::Actor("Root store is not open"@))),
        Some(g) => {
            let (m, h, fault) = match n.mesh {
                Some(m) => {
                    let (m, h, fault) = mesh::written(m, g, writes, now_ms, now);
                    (Some(m), h, fault)
                },
                None => {
                    let (h, fault) = model::puts(g, writes, now_ms, now);
                    (None, h, fault)
                },
            };
            (
                NodeModel { root: Some(h), mesh: m, ..n },
                match fault {
                    Some(f) => Some(NodeFault::Store(f.as_state_fault())),
                    None => None,
                },
            )
        },
    }
}

/// The node with another name.
pub open spec fn renamed(n: NodeModel, name: Seq<char>) -> NodeModel {
    NodeModel { meta: meta_store::with_name(n.meta, name), ..n }
}

/// What comes of telling the root store the node's name.
pub open spec fn name_published(n: NodeModel, now_ms: u64, now: u64) -> (
    NodeModel,
    Option<NodeFault>,
) {
    if meta_store::root_of(n.meta) is None {
        (n, Some(NodeFault::Actor("No root store configured"@)))
    } else if n.root is None {
        (n, Some(NodeFault::Actor("Root store is not open"@)))
    } else {
        match meta_store::name_of(n.meta) {
            None => (n, None),
            Some(name) => root_written(
                n,
                peer_manager::peer_writes(n.me(), seq![("name"@, name)]),
                now_ms,
                now,
            ),
        }
    }
}

/// The model of a peer that may be missing.
pub open spec fn peer_model(peer: Option<PubKey>) -> Option<Seq<u8>> {
    match peer {
        Some(p) => Some(p@),
        None => None,
    }
}

/// What comes of joining a mesh whose root store is now there.
pub open spec fn join_completed(
    n: NodeModel,
    id: Seq<u8>,
    store: ActorModel,
    via: Option<Seq<u8>>,
    now_ms: u64,
    now: u64,
) -> (NodeModel, Option<NodeFault>) {
    let meta = meta_store::with_root(meta_store::with_store(n.meta, id, id, now_ms), id);
    let (with_mesh, fault) = meshed(NodeModel { meta, root: Some(store), mesh: None, ..n }, id);
    if fault is Some {
        (with_mesh, fault)
    } else {
        // Whether the name could be written makes no difference.
        let named = name_published(with_mesh, now_ms, now).0;
        (
            telling(
                named,
                seq![NodeEventModel::StoreReady(id), NodeEventModel::NetworkStore(id)] + match via {
                    Some(peer) => seq![NodeEventModel::SyncWithPeer(id, peer)],
                    None => Seq::empty(),
                },
            ),
            None,
        )
    }
}

/// The public keys among byte strings.
pub open spec fn keys_among(items: Seq<Seq<u8>>) -> Seq<Seq<u8>> {
    items.filter(|b: Seq<u8>| b.len() == 32)
}

/// The node once it trusts the given authors, where there are any and there is a
/// mesh.
pub open spec fn trusting(n: NodeModel, authors: Seq<Seq<u8>>) -> NodeModel {
    match n.mesh {
        Some(m) if authors.len() > 0 => NodeModel {
            mesh: Some(
                MeshModel { peers: PeersModel { trusted: authors.to_set(), ..m.peers }, ..m },
            ),
            ..n
        },
        _ => n,
    }
}

/// What comes of a peer's answer that the node may join.
pub open spec fn join_answered(
    n: NodeModel,
    id: Seq<u8>,
    store: ActorModel,
    authors: Seq<Seq<u8>>,
    via: Seq<u8>,
    now_ms: u64,
    now: u64,
) -> (NodeModel, Option<NodeFault>) {
    let (after, fault) = join_completed(n, id, store, Some(via), now_ms, now);
    if fault is Some {
        (after, fault)
    } else {
        let t = trusting(after, keys_among(authors));
        (
            telling(
                NodeModel { pending: t.pending.remove(id), ..t },
                seq![NodeEventModel::MeshReady(id)],
            ),
            None,
        )
    }
}

/// Why a request to join a mesh cannot even be looked at.
pub open spec fn join_fault(n: NodeModel, mesh_id: Seq<u8>) -> Option<NodeFault> {
    match meta_store::root_of(n.meta) {
        None => Some(NodeFault::Actor("No root store configured"@)),
        Some(root) => if mesh_id != root {
            Some(
                NodeFault::Validation(
                    "Invalid Mesh ID: expected "@ + text::uuid_text(root) + ", got "@
                        + text::uuid_text(mesh_id),
                ),
            )
        } else if n.mesh is None {
            Some(NodeFault::Actor("No mesh available - join or init first"@))
        } else {
            None
        },
    }
}

/// The error for a peer that may not join.
pub open spec fn not_invited(peer: Seq<u8>) -> NodeFault {
    NodeFault::Store(
        StateFault::Unauthorized("Peer "@ + text::hex_text(peer) + " is not invited"@),
    )
}

/// What comes of making a peer active: the authors that the peer is told of.
pub open spec fn activated(n: NodeModel, peer: Seq<u8>, now_ms: u64, now: u64) -> (
    NodeModel,
    Result<Seq<Seq<u8>>, NodeFault>,
) {
    let (m, g, fault) = mesh::written(
        n.mesh->0,
        n.root->0,
        seq![mesh::status_write(peer, PeerStatus::Active)],
        now_ms,
        now,
    );
    (
        NodeModel { root: Some(g), mesh: Some(m), ..n },
        match fault {
            Some(f) => Err(
                NodeFault::PeerManager("Store error: "@ + f.as_state_fault().text()),
            ),
            None => Ok(auth::writers(m.peers.statuses)),
        },
    )
}

/// What comes of a peer's request to join: a peer that has been invited becomes
/// active.
pub open spec fn join_accepted(
    n: NodeModel,
    peer: Seq<u8>,
    mesh_id: Seq<u8>,
    now_ms: u64,
    now: u64,
) -> (NodeModel, Result<Seq<Seq<u8>>, NodeFault>) {
    match join_fault(n, mesh_id) {
        Some(f) => (n, Err(f)),
        None => if !auth::may_join(n.mesh->0.peers.statuses, peer) {
            (n, Err(not_invited(peer)))
        } else {
            activated(n, peer, now_ms, now)
        },
    }
}

/// What comes of a peer's request to join with a secret: a peer whose secret is
/// good becomes active, and the secret is used up.
pub open spec fn secret_accepted(
    n: NodeModel,
    peer: Seq<u8>,
    mesh_id: Seq<u8>,
    secret: Seq<u8>,
    now_ms: u64,
    now: u64,
) -> (NodeModel, Result<Seq<Seq<u8>>, NodeFault>) {
    match join_fault(n, mesh_id) {
        Some(f) => (n, Err(f)),
        None => {
            let (m, g, good) = mesh::consumed(n.mesh->0, n.root->0, secret, now_ms, now);
            let used = NodeModel { root: Some(g), mesh: Some(m), ..n };
            match good {
                Err(why) => (used, Err(NodeFault::Actor(why))),
                Ok(false) => (used, Err(not_invited(peer))),
                Ok(true) => activated(used, peer, now_ms, now),
            }
        },
    }
}

// ---------------------------------------------------------------------------
// Laws
// ---------------------------------------------------------------------------

/// A node that has a root store sets up no second mesh and joins none.
pub proof fn law_one_mesh(
    n: NodeModel,
    id: Seq<u8>,
    peer: Seq<u8>,
    now_ms: u64,
    now: u64,
)
    requires
        meta_store::root_of(n.meta) is Some,
    ensures
        initialized(n, id, now_ms, now) == (n, Some(NodeFault::AlreadyInitialized)),
        joining(n, peer, id) == (n, Some(NodeFault::AlreadyInitialized)),
{
}

/// Once a mesh has been set up, its root store is the node's, and it cannot be set
/// up again.
pub proof fn law_init_sets_the_root_store(
    n: NodeModel,
    id: Seq<u8>,
    other: Seq<u8>,
    now_ms: u64,
    now: u64,
)
    requires
        id.len() == 16,
        meta_store::root_of(n.meta) is None,
    ensures
        ({
            let after = initialized(n, id, now_ms, now).0;
            &&& meta_store::root_of(after.meta) == Some(id)
            &&& initialized(after, other, now_ms, now) == (
                after,
                Some(NodeFault::AlreadyInitialized),
            )
        }),
{
    meta_store::law_root_store_is_kept(
        meta_store::with_store(n.meta, id, id, now_ms),
        id,
        Seq::empty(),
    );
}

/// A mesh that is being joined is not joined a second time, until an answer comes.
pub proof fn law_join_is_asked_for_once(
    n: NodeModel,
    peer: Seq<u8>,
    again: Seq<u8>,
    mesh_id: Seq<u8>,
)
    requires
        joining(n, peer, mesh_id).1 is None,
    ensures
        ({
            let after = joining(n, peer, mesh_id).0;
            &&& joining(after, again, mesh_id).0 == after
            &&& joining(after, again, mesh_id).1 matches Some(NodeFault::Validation(_))
        }),
{
}

/// A peer that has not been invited does not get in, and nothing changes.
pub proof fn law_uninvited_peers_stay_out(
    n: NodeModel,
    peer: Seq<u8>,
    mesh_id: Seq<u8>,
    now_ms: u64,
    now: u64,
)
    requires
        n.mesh matches Some(m) ==> !auth::may_join(m.peers.statuses, peer),
    ensures
        join_accepted(n, peer, mesh_id, now_ms, now).0 == n,
        join_accepted(n, peer, mesh_id, now_ms, now).1 is Err,
{
}

// ---------------------------------------------------------------------------
// The builder
// ---------------------------------------------------------------------------

/// Calls `hostname::get`: the name of the machine, if it can be told. Nothing is
/// claimed of it.
#[verifier::external_body]
fn host_name() -> (r: Option<String>) {
    hostname::get().map(|s| s.to_string_lossy().to_string()).ok()
}

/// How a node comes about.
pub struct NodeBuilder {
    pub data_dir: DataDir,
}

impl Default for NodeBuilder {
    /// A node with its data in the usual place.
    fn default() -> (r: Self)
        ensures
            r.data_dir@ == data_dir::path_of_text("./data"@) || exists|dir: Seq<u8>|
                r.data_dir@ == #[trigger] data_dir::path_in(dir, "lattice"@),
    {
        NodeBuilder { data_dir: DataDir::default() }
    }
}

impl NodeBuilder {
    /// A node with its data in the usual place.
    pub fn new() -> (r: Self)
        ensures
            r.data_dir@ == data_dir::path_of_text("./data"@) || exists|dir: Seq<u8>|
                r.data_dir@ == #[trigger] data_dir::path_in(dir, "lattice"@),
    {
        NodeBuilder { data_dir: DataDir::default() }
    }

    /// A node with its data under the given path.
    pub fn with_data_dir(self, path: Vec<u8>) -> (r: Self)
        ensures
            r.data_dir@ == path@,
    {
        NodeBuilder { data_dir: DataDir::new(path) }
    }

    /// The node with the secret key that is in its key file, and what it knows of
    /// itself. Without a key file it gets a new key, and the name of the machine.
    pub fn build_on(
        self,
        key_file: Option<&[u8]>,
        meta: MetaStore,
        host: Option<String>,
    ) -> (r: Result<Node, NodeError>)
        requires
            meta.wf(),
        ensures
            match key_file {
                Some(key) => if key@.len() == 32 {
                    r matches Ok(node) && node.wf() && node@ == fresh_node(
                        self.data_dir@,
                        key@,
                        meta@,
                    )
                } else {
                    r matches Err(NodeError::Node(e)) && e
                        == node_identity::NodeError::InvalidKeyLength(key@.len() as usize)
                },
                None => r matches Ok(node) && node.wf() && node@ == fresh_node(
                    self.data_dir@,
                    node@.secret,
                    meta_store::with_name(
                        meta@,
                        match host {
                            Some(name) => name@,
                            None => "unknown"@,
                        },
                    ),
                ),
            },
    {
        let mut meta = meta;
        let identity = match NodeIdentity::load_or_generate(key_file) {
            Ok(identity) => identity,
            Err(e) => {
                return Err(NodeError::Node(e));
            },
        };
        if key_file.is_none() {
            let name = match host {
                Some(name) => name,
                None => "unknown".to_owned(),
            };
            meta.set_name(name.as_str());
        }
        let node = Node {
            data_dir: self.data_dir,
            identity,
            meta,
            root: None,
            mesh: None,
            pending_joins: ByteTable::new(),
            events: Vec::new(),
        };
        proof {
            assert(node@.pending =~= Set::empty());
            assert(node@.events =~= Seq::empty());
            assert(node@ =~= fresh_node(node@.dir, node@.secret, node@.meta));
        }
        Ok(node)
    }

    /// The node with the secret key that is in its key file, and what it knows of
    /// itself. Without a key file it gets a new key, and the name of the machine.
    pub fn build(self, key_file: Option<&[u8]>, meta: MetaStore) -> (r: Result<Node, NodeError>)
        requires
            meta.wf(),
        ensures
            match key_file {
                Some(key) => if key@.len() == 32 {
                    r matches Ok(node) && node.wf() && node@ == fresh_node(
                        self.data_dir@,
                        key@,
                        meta@,
                    )
                } else {
                    r matches Err(NodeError::Node(e)) && e
                        == node_identity::NodeError::InvalidKeyLength(key@.len() as usize)
                },
                None => exists|name: Seq<char>|
                    r matches Ok(node) && node.wf() && node@ == fresh_node(
                        self.data_dir@,
                        node@.secret,
                        #[trigger] meta_store::with_name(meta@, name),
                    ),
            },
    {
        let host = host_name();
        self.build_on(key_file, meta, host)
    }
}

// ---------------------------------------------------------------------------
// The node
// ---------------------------------------------------------------------------

/// A node.
pub struct Node {
    data_dir: DataDir,
    identity: NodeIdentity,
    meta: MetaStore,
    root: Option<StoreActor>,
    mesh: Option<Mesh>,
    pending_joins: ByteTable,
    events: Vec<NodeEvent>,
}

impl View for Node {
    type V = NodeModel;

    closed spec fn view(&self) -> NodeModel {
        NodeModel {
            dir: self.data_dir@,
            secret: self.identity.secret(),
            meta: self.meta@,
            root: match self.root {
                Some(root) => Some(root@),
                None => None,
            },
            mesh: match self.mesh {
                Some(mesh) => Some(mesh@),
                None => None,
            },
            pending: self.pending_joins@.dom(),
            events: message::models(self.events@),
        }
    }
}

impl Node {
    /// The parts are well formed, and the mesh has its root store.
    pub closed spec fn wf(&self) -> bool {
        &&& self.meta.wf()
        &&& self.root matches Some(root) ==> root.wf()
        &&& self.mesh matches Some(mesh) ==> mesh.wf() && self.root is Some
        &&& self.pending_joins.wf()
    }

    /// What is told of the node.
    pub fn info(&self) -> (r: NodeInfo)
        requires
            self.wf(),
        ensures
            r.node_id@ == text::hex_text(self@.me()),
            r.data_path@ == watch::lossy_text(self@.dir),
            ids(r.stores@) == store_ids(self@.meta),
    {
        NodeInfo {
            node_id: hex_encode(self.identity.public_key().as_slice()),
            data_path: to_lossy_text(self.data_dir.base()),
            stores: self.list_stores(),
        }
    }

    /// The node's public key.
    pub fn node_id(&self) -> (r: PubKey)
        ensures
            r@ == self@.me(),
    {
        self.identity.public_key()
    }

    /// The node's secret key.
    pub fn signing_key(&self) -> (r: &[u8; 32])
        ensures
            r@ == self@.secret,
    {
        self.identity.signing_key()
    }

    /// Where the node keeps its data.
    pub fn data_path(&self) -> (r: &[u8])
        ensures
            r@ == self@.dir,
    {
        self.data_dir.base()
    }

    /// What the node knows of itself.
    pub fn meta(&self) -> (r: &MetaStore)
        requires
            self.wf(),
        ensures
            r.wf(),
            r@ == self@.meta,
    {
        &self.meta
    }

    /// The node's name.
    pub fn name(&self) -> (r: Option<String>)
        requires
            self.wf(),
        ensures
            match meta_store::name_of(self@.meta) {
                Some(n) => r matches Some(x) && x@ == n,
                None => r is None,
            },
    {
        self.meta.name()
    }

    /// Takes one more thing to tell.
    pub fn emit(&mut self, event: NodeEvent)
        requires
            old(self).wf(),
        ensures
            final(self).wf(),
            final(self)@ == telling(old(self)@, seq![event@]),
    {
        let ghost start = self@;
        let ghost before = self.events@;
        self.events.push(event);
        proof {
            assert(message::models(self.events@) =~= message::models(before) + seq![event@]);
            assert(self@ =~= telling(start, seq![event@]));
        }
    }

    /// What there is to tell since it was last asked for.
    pub fn take_events(&mut self) -> (r: Vec<NodeEvent>)
        requires
            old(self).wf(),
        ensures
            final(self).wf(),
            message::models(r@) == old(self)@.events,
            final(self)@ == (NodeModel { events: Seq::empty(), ..old(self)@ }),
    {
        let ghost start = self@;
        let mut r: Vec<NodeEvent> = Vec::new();
        r.append(&mut self.events);
        proof {
            assert(message::models(r@) =~= start.events);
            assert(self@ =~= (NodeModel { events: Seq::empty(), ..start }));
        }
        r
    }

    /// The root store's identifier.
    pub fn root_store_id(&self) -> (r: Option<Uuid>)
        requires
            self.wf(),
        ensures
            match meta_store::root_of(self@.meta) {
                Some(id) => r matches Some(x) && x@ == id,
                None => r is None,
            },
    {
        self.meta.root_store()
    }

    /// Takes in the root store, which has been opened.
    pub fn open_root(&mut self, root: StoreActor)
        requires
            old(self).wf(),
            root.wf(),
        ensures
            final(self).wf(),
            final(self)@ == (NodeModel { root: Some(root@), ..old(self)@ }),
    {
        let ghost start = self@;
        self.root = Some(root);
        assert(self@ =~= (NodeModel { root: Some(root@), ..start }));
    }

    /// The root store.
    pub fn root_store(&self) -> (r: Result<&StoreActor, NodeError>)
        requires
            self.wf(),
        ensures
            match (meta_store::root_of(self@.meta), self@.root) {
                (None, _) => r matches Err(e) && e@ == NodeFault::Actor(
                    "No root store configured"@,
                ),
                (Some(_), None) => r matches Err(e) && e@ == NodeFault::Actor(
                    "Root store is not open"@,
                ),
                (Some(_), Some(g)) => r matches Ok(root) && root.wf() && root@ == g,
            },
    {
        if self.meta.root_store().is_none() {
            return Err(NodeError::Actor("No root store configured".to_owned()));
        }
        match &self.root {
            Some(root) => Ok(root),
            None => Err(NodeError::Actor("Root store is not open".to_owned())),
        }
    }

    /// The root store, for whoever goes on with it.
    pub fn into_root_store(self) -> (r: Option<StoreActor>)
        requires
            self.wf(),
        ensures
            match self@.root {
                Some(g) => r matches Some(root) && root.wf() && root@ == g,
                None => r is None,
            },
    {
        self.root
    }

    /// Sets up the mesh of the root store.
    fn set_up_mesh(&mut self, id: Uuid) -> (r: Result<(), NodeError>)
        requires
            old(self).wf(),
            old(self)@.root matches Some(g) ==> g.next_watcher_id < u64::MAX,
        ensures
            final(self).wf(),
            ({
                let (after, fault) = meshed(old(self)@, id@);
                final(self)@ == after && reports(r, fault)
            }),
    {
        let ghost start = self@;
        let made = match &mut self.root {
            Some(root) => Mesh::create(id, root),
            None => {
                return Err(NodeError::Actor("Root store is not open".to_owned()));
            },
        };
        match made {
            Ok(mesh) => {
                self.mesh = Some(mesh);
                assert(self@ =~= meshed(start, id@).0);
                Ok(())
            },
            Err(e) => {
                assert(self@ =~= start);
                Err(NodeError::Actor(e.to_string()))
            },
        }
    }

    /// Starts the node: the mesh of the root store, which is open, is set up.
    pub fn start(&mut self) -> (r: Result<(), NodeError>)
        requires
            old(self).wf(),
            old(self)@.root matches Some(g) ==> g.next_watcher_id < u64::MAX,
        ensures
            final(self).wf(),
            ({
                let (after, fault) = started(old(self)@);
                final(self)@ == after && reports(r, fault)
            }),
    {
        let ghost start = self@;
        let id = match self.meta.root_store() {
            Some(id) => id,
            None => {
                return Err(
                    NodeError::Actor(
                        "No root store configured - run init or join first".to_owned(),
                    ),
                );
            },
        };
        match self.set_up_mesh(id) {
            Ok(()) => {},
            Err(e) => {
                return Err(e);
            },
        }
        self.emit(NodeEvent::StoreReady(id));
        self.emit(NodeEvent::NetworkStore { store: id });
        self.emit(NodeEvent::SyncRequested(id));
        assert(self@ =~= started(start).0);
        Ok(())
    }

    /// A store of the node in which there is nothing.
    pub fn new_store(&self, store_id: Uuid) -> (r: StoreActor)
        ensures
            r.wf(),
            r@ == empty_store(self@, store_id@),
    {
        let node = NodeIdentity::from_signing_key(*self.identity.signing_key());
        let chain_manager = SigChainManager::empty(self.data_dir.logs_dir(), store_id);
        let r = StoreActor::new(State::open(), chain_manager, PeerSyncStore::open(), node);
        assert(r@ =~= empty_store(self@, store_id@));
        r
    }

    /// Opens a store of the node with the given state, log files (by the public
    /// keys of their authors), waiting entries and words of peers.
    pub fn open_store(
        &self,
        store_id: Uuid,
        state: State,
        files: &ByteTable,
        orphans: OrphanStore,
        peers: PeerSyncStore,
    ) -> (r: Result<(StoreActor, ReplicaInfo), NodeError>)
        requires
            state.wf(),
            files.wf(),
            orphans.wf(),
            peers.wf(),
        ensures
            ({
                let dir = data_dir::path_in(self@.dir, "logs"@);
                let (s, n) = handle::recovered(state@, files@, table::sorted_keys(files@.dom()));
                match r {
                    Ok((actor, info)) => {
                        &&& actor.wf()
                        &&& exists|m: ManagerModel|
                            {
                                &&& #[trigger] manager::restored(
                                    m,
                                    dir,
                                    store_id@,
                                    files@,
                                    orphans@,
                                )
                                &&& actor@ == handle::handed_over(s, m, peers@, self@.secret)
                            }
                        &&& info.store_id == store_id
                        &&& info.entries_replayed == if n > u64::MAX {
                            u64::MAX as nat
                        } else {
                            n
                        }
                    },
                    Err(e) => exists|f: ChainFault|
                        {
                            &&& #[trigger] manager::first_fault(dir, store_id@, files@, f)
                            &&& e@ == NodeFault::Store(StateFault::SigChain(f))
                        },
                }
            }),
    {
        broadcast use vstd::array::axiom_array_ext_equal;

        let opened = OpenedReplica::open(store_id, state, files);
        let node = NodeIdentity::from_signing_key(*self.identity.signing_key());
        let ghost dir = data_dir::path_in(self@.dir, "logs"@);
        let ghost st = opened.model();
        match opened.into_handle(self.data_dir.logs_dir(), files, orphans, peers, node) {
            Ok((actor, info)) => {
                assert(info.store_id =~= store_id);
                proof {
                    let m = choose|m: ManagerModel|
                        {
                            &&& #[trigger] manager::restored(
                                m,
                                dir,
                                store_id@,
                                files@,
                                orphans@,
                            )
                            &&& actor@ == handle::handed_over(st, m, peers@, node.secret())
                        };
                    assert(manager::restored(m, dir, store_id@, files@, orphans@));
                    assert(actor@ == handle::handed_over(st, m, peers@, self@.secret));
                }
                Ok((actor, info))
            },
            Err(e) => {
                proof {
                    let f = choose|f: ChainFault|
                        {
                            &&& #[trigger] manager::first_fault(dir, store_id@, files@, f)
                            &&& e@ == StateFault::SigChain(f)
                        };
                    assert(manager::first_fault(dir, store_id@, files@, f));
                }
                Err(NodeError::Store(e))
            },
        }
    }

    /// Sets up a mesh with the given root store, at the given times of the wall
    /// clock, in milliseconds and in seconds. A node that is part of a mesh already
    /// does not.
    pub fn init_at(&mut self, store_id: Uuid, now_ms: u64, now: u64) -> (r: Result<
        Uuid,
        NodeError,
    >)
        requires
            old(self).wf(),
        ensures
            final(self).wf(),
            ({
                let (after, fault) = initialized(old(self)@, store_id@, now_ms, now);
                &&& final(self)@ == after
                &&& match fault {
                    None => r == Ok::<Uuid, NodeError>(store_id),
                    Some(f) => r matches Err(e) && e@ == f,
                }
            }),
    {
        let ghost start = self@;
        if self.meta.root_store().is_some() {
            return Err(NodeError::AlreadyInitialized);
        }
        let writes = self.own_writes(now);
        let ghost attrs = own_attributes(start, now);
        let mut root = self.new_store(store_id);
        self.meta.add_store_at(&store_id, &store_id, now_ms);
        self.meta.set_root_store(&store_id);
        let ghost empty = root@;
        let done = root.put_all_at(&writes, now_ms, now);
        proof {
            laws::law_writes_leave_the_rest_alone(
                empty,
                peer_manager::peer_writes(start.me(), attrs),
                now_ms,
                now,
            );
        }
        let ghost g = root@;
        self.root = Some(root);
        self.mesh = None;
        let ghost meta = meta_store::with_root(
            meta_store::with_store(start.meta, store_id@, store_id@, now_ms),
            store_id@,
        );
        assert(self@ =~= (NodeModel { meta, root: Some(g), mesh: None, ..start }));
        match done {
            Ok(()) => {},
            Err(e) => {
                return Err(NodeError::Store(e.into_state_error()));
            },
        }
        match self.set_up_mesh(store_id) {
            Ok(()) => {},
            Err(e) => {
                return Err(e);
            },
        }
        self.emit(NodeEvent::NetworkStore { store: store_id });
        Ok(store_id)
    }

    /// What the node says of itself when it sets up a mesh.
    fn own_writes(&self, now: u64) -> (r: Vec<(Vec<u8>, Vec<u8>)>)
        requires
            self.wf(),
        ensures
            state::pair_models(r@) == peer_manager::peer_writes(
                self@.me(),
                own_attributes(self@, now),
            ),
    {
        let me = self.identity.public_key();
        let mut writes: Vec<(Vec<u8>, Vec<u8>)> = Vec::new();
        match self.meta.name() {
            Some(name) => {
                writes.push(attribute_write(&me, "name", name.as_str()));
            },
            None => {},
        }
        writes.push(attribute_write(&me, "added_at", decimal(now).as_str()));
        writes.push(attribute_write(&me, "status", PeerStatus::Active.as_str()));
        assert(state::pair_models(writes@) =~= peer_manager::peer_writes(
            self@.me(),
            own_attributes(self@, now),
        ));
        writes
    }

    /// Sets up a mesh with a new root store, now.
    pub fn init(&mut self) -> (r: Result<Uuid, NodeError>)
        requires
            old(self).wf(),
        ensures
            final(self).wf(),
            exists|id: Seq<u8>, now_ms: u64, now: u64|
                {
                    let (after, fault) = #[trigger] initialized(old(self)@, id, now_ms, now);
                    &&& id.len() == 16
                    &&& final(self)@ == after
                    &&& match fault {
                        None => r matches Ok(x) && x@ == id,
                        Some(f) => r matches Err(e) && e@ == f,
                    }
                },
    {
        let store_id: Uuid = random_uuid();
        let now_ms: u64 = SystemClock.now_ms();
        self.init_at(store_id, now_ms, now_ms / 1000)
    }

    /// Asks to join a mesh through a peer.
    pub fn join(&mut self, peer_id: PubKey, mesh_id: Uuid) -> (r: Result<(), NodeError>)
        requires
            old(self).wf(),
        ensures
            final(self).wf(),
            ({
                let (after, fault) = joining(old(self)@, peer_id@, mesh_id@);
                final(self)@ == after && reports(r, fault)
            }),
    {
        let ghost start = self@;
        if self.meta.root_store().is_some() {
            return Err(NodeError::AlreadyInitialized);
        }
        if self.pending_joins.contains(mesh_id.as_slice()) {
            return Err(
                NodeError::Validation(
                    "Join for mesh ".to_owned().concat(uuid_string(&mesh_id).as_str()).concat(
                        " is already in progress",
                    ),
                ),
            );
        }
        self.pending_joins.insert(mesh_id.as_slice(), Vec::new());
        assert(self@ =~= (NodeModel { pending: start.pending.insert(mesh_id@), ..start }));
        self.emit(NodeEvent::JoinRequested { peer: peer_id, mesh_id });
        Ok(())
    }

    /// Writes to the root store. The mesh, where there is one, hears of it.
    pub fn write_at(&mut self, writes: &Vec<(Vec<u8>, Vec<u8>)>, now_ms: u64, now: u64) -> (r:
        Result<(), NodeError>)
        requires
            old(self).wf(),
        ensures
            final(self).wf(),
            ({
                let (after, fault) = root_written(
                    old(self)@,
                    state::pair_models(writes@),
                    now_ms,
                    now,
                );
                final(self)@ == after && reports(r, fault)
            }),
    {
        let ghost start = self@;
        let ghost all = state::pair_models(writes@);
        let done = match &mut self.root {
            Some(root) => match &mut self.mesh {
                Some(mesh) => mesh.write_at(root, writes, now_ms, now),
                None => root.put_all_at(writes, now_ms, now),
            },
            None => {
                return Err(NodeError::Actor("Root store is not open".to_owned()));
            },
        };
        assert(self@ =~= root_written(start, all, now_ms, now).0);
        match done {
            Ok(()) => Ok(()),
            Err(e) => Err(NodeError::Store(e.into_state_error())),
        }
    }

    /// Tells the root store the node's name, at the given times of the wall clock.
    pub fn publish_name_at(&mut self, now_ms: u64, now: u64) -> (r: Result<(), NodeError>)
        requires
            old(self).wf(),
        ensures
            final(self).wf(),
            ({
                let (after, fault) = name_published(old(self)@, now_ms, now);
                final(self)@ == after && reports(r, fault)
            }),
    {
        match self.root_store() {
            Ok(_) => {},
            Err(e) => {
                return Err(e);
            },
        }
        match self.meta.name() {
            None => Ok(()),
            Some(name) => {
                let me = self.identity.public_key();
                let mut writes: Vec<(Vec<u8>, Vec<u8>)> = Vec::new();
                writes.push(attribute_write(&me, "name", name.as_str()));
                assert(state::pair_models(writes@) =~= peer_manager::peer_writes(
                    self@.me(),
                    seq![("name"@, name@)],
                ));
                self.write_at(&writes, now_ms, now)
            },
        }
    }

    /// Tells the root store the node's name, now.
    pub fn publish_name(&mut self) -> (r: Result<(), NodeError>)
        requires
            old(self).wf(),
        ensures
            final(self).wf(),
            exists|now_ms: u64, now: u64|
                {
                    let (after, fault) = #[trigger] name_published(old(self)@, now_ms, now);
                    final(self)@ == after && reports(r, fault)
                },
    {
        let now_ms: u64 = SystemClock.now_ms();
        self.publish_name_at(now_ms, now_ms / 1000)
    }

    /// Gives the node a name, of which the root store is told now.
    pub fn set_name(&mut self, name: &str) -> (r: Result<(), NodeError>)
        requires
            old(self).wf(),
        ensures
            final(self).wf(),
            exists|now_ms: u64, now: u64|
                {
                    let (after, fault) = #[trigger] name_published(
                        renamed(old(self)@, name@),
                        now_ms,
                        now,
                    );
                    final(self)@ == after && reports(r, fault)
                },
    {
        let ghost start = self@;
        self.meta.set_name(name);
        assert(self@ =~= renamed(start, name@));
        self.publish_name()
    }

    /// Joins a mesh whose root store is now there, at the given times of the wall
    /// clock.
    pub fn complete_join_at(
        &mut self,
        store_id: Uuid,
        store: StoreActor,
        via_peer: Option<PubKey>,
        now_ms: u64,
        now: u64,
    ) -> (r: Result<(), NodeError>)
        requires
            old(self).wf(),
            store.wf(),
            store@.next_watcher_id < u64::MAX,
        ensures
            final(self).wf(),
            ({
                let (after, fault) = join_completed(
                    old(self)@,
                    store_id@,
                    store@,
                    peer_model(via_peer),
                    now_ms,
                    now,
                );
                final(self)@ == after && reports(r, fault)
            }),
    {
        let ghost start = self@;
        let ghost g = store@;
        self.meta.add_store_at(&store_id, &store_id, now_ms);
        self.meta.set_root_store(&store_id);
        self.root = Some(store);
        self.mesh = None;
        let ghost meta = meta_store::with_root(
            meta_store::with_store(start.meta, store_id@, store_id@, now_ms),
            store_id@,
        );
        assert(self@ =~= (NodeModel { meta, root: Some(g), mesh: None, ..start }));
        match self.set_up_mesh(store_id) {
            Ok(()) => {},
            Err(e) => {
                return Err(e);
            },
        }
        let _ = self.publish_name_at(now_ms, now);
        let ghost named = self@;
        self.emit(NodeEvent::StoreReady(store_id));
        self.emit(NodeEvent::NetworkStore { store: store_id });
        match via_peer {
            Some(peer) => {
                self.emit(NodeEvent::SyncWithPeer { store_id, peer });
            },
            None => {},
        }
        proof {
            let news = seq![
                NodeEventModel::StoreReady(store_id@),
                NodeEventModel::NetworkStore(store_id@),
            ] + match via_peer {
                Some(peer) => seq![NodeEventModel::SyncWithPeer(store_id@, peer@)],
                None => Seq::empty(),
            };
            assert(self@ =~= telling(named, news));
        }
        Ok(())
    }

    /// Joins a mesh whose root store is now there.
    pub fn complete_join(
        &mut self,
        store_id: Uuid,
        store: StoreActor,
        via_peer: Option<PubKey>,
    ) -> (r: Result<(), NodeError>)
        requires
            old(self).wf(),
            store.wf(),
            store@.next_watcher_id < u64::MAX,
        ensures
            final(self).wf(),
            exists|now_ms: u64, now: u64|
                {
                    let (after, fault) = #[trigger] join_completed(
                        old(self)@,
                        store_id@,
                        store@,
                        peer_model(via_peer),
                        now_ms,
                        now,
                    );
                    final(self)@ == after && reports(r, fault)
                },
    {
        let now_ms: u64 = SystemClock.now_ms();
        self.complete_join_at(store_id, store, via_peer, now_ms, now_ms / 1000)
    }

    /// Takes in a peer's answer that the node may join, at the given times of the
    /// wall clock.
    pub fn process_join_response_at(
        &mut self,
        mesh_id: Uuid,
        store: StoreActor,
        authorized_authors: &Vec<Vec<u8>>,
        via_peer: PubKey,
        now_ms: u64,
        now: u64,
    ) -> (r: Result<(), NodeError>)
        requires
            old(self).wf(),
            store.wf(),
            store@.next_watcher_id < u64::MAX,
        ensures
            final(self).wf(),
            ({
                let (after, fault) = join_answered(
                    old(self)@,
                    mesh_id@,
                    store@,
                    message::byte_models(authorized_authors@),
                    via_peer@,
                    now_ms,
                    now,
                );
                final(self)@ == after && reports(r, fault)
            }),
    {
        match self.complete_join_at(mesh_id, store, Some(via_peer), now_ms, now) {
            Ok(()) => {},
            Err(e) => {
                return Err(e);
            },
        }
        let ghost completed = self@;
        let authors = keys_of(authorized_authors);
        if authors.len() > 0 {
            let _ = self.set_bootstrap_authors(&authors);
        }
        let ghost trusted = trusting(completed, entry::digests(authors@));
        assert(self@ =~= trusted);
        let _ = self.pending_joins.remove(mesh_id.as_slice());
        assert(self@ =~= (NodeModel { pending: trusted.pending.remove(mesh_id@), ..trusted }));
        self.emit(NodeEvent::MeshReady(mesh_id));
        Ok(())
    }

    /// Takes in a peer's answer that the node may join.
    pub fn process_join_response(
        &mut self,
        mesh_id: Uuid,
        store: StoreActor,
        authorized_authors: &Vec<Vec<u8>>,
        via_peer: PubKey,
    ) -> (r: Result<(), NodeError>)
        requires
            old(self).wf(),
            store.wf(),
            store@.next_watcher_id < u64::MAX,
        ensures
            final(self).wf(),
            exists|now_ms: u64, now: u64|
                {
                    let (after, fault) = #[trigger] join_answered(
                        old(self)@,
                        mesh_id@,
                        store@,
                        message::byte_models(authorized_authors@),
                        via_peer@,
                        now_ms,
                        now,
                    );
                    final(self)@ == after && reports(r, fault)
                },
    {
        let now_ms: u64 = SystemClock.now_ms();
        self.process_join_response_at(
            mesh_id,
            store,
            authorized_authors,
            via_peer,
            now_ms,
            now_ms / 1000,
        )
    }

    /// Trusts the given authors, and no others, during the first sync.
    pub fn set_bootstrap_authors(&mut self, authors: &Vec<PubKey>) -> (r: Result<(), NodeError>)
        requires
            old(self).wf(),
        ensures
            final(self).wf(),
            match old(self)@.mesh {
                Some(m) => {
                    &&& r is Ok
                    &&& final(self)@ == (NodeModel {
                        mesh: Some(
                            MeshModel {
                                peers: PeersModel {
                                    trusted: entry::digests(authors@).to_set(),
                                    ..m.peers
                                },
                                ..m
                            },
                        ),
                        ..old(self)@
                    })
                },
                None => {
                    &&& r matches Err(e) && e@ == NodeFault::Actor("No mesh available"@)
                    &&& final(self)@ == old(self)@
                },
            },
    {
        let ghost start = self@;
        match &mut self.mesh {
            Some(mesh) => {
                mesh.set_bootstrap_authors(authors);
            },
            None => {
                return Err(NodeError::Actor("No mesh available".to_owned()));
            },
        }
        proof {
            let m = start.mesh->0;
            assert(self@ =~= (NodeModel {
                mesh: Some(
                    MeshModel {
                        peers: PeersModel {
                            trusted: entry::digests(authors@).to_set(),
                            ..m.peers
                        },
                        ..m
                    },
                ),
                ..start
            }));
        }
        Ok(())
    }

    /// Trusts nobody beyond what the statuses say: the first sync is over.
    pub fn clear_bootstrap_authors(&mut self) -> (r: Result<(), NodeError>)
        requires
            old(self).wf(),
        ensures
            final(self).wf(),
            match old(self)@.mesh {
                Some(m) => {
                    &&& r is Ok
                    &&& final(self)@ == (NodeModel {
                        mesh: Some(
                            MeshModel {
                                peers: PeersModel { trusted: Set::empty(), ..m.peers },
                                ..m
                            },
                        ),
                        ..old(self)@
                    })
                },
                None => {
                    &&& r matches Err(e) && e@ == NodeFault::Actor("No mesh available"@)
                    &&& final(self)@ == old(self)@
                },
            },
    {
        let ghost start = self@;
        match &mut self.mesh {
            Some(mesh) => {
                mesh.clear_bootstrap_authors();
            },
            None => {
                return Err(NodeError::Actor("No mesh available".to_owned()));
            },
        }
        proof {
            let m = start.mesh->0;
            assert(self@ =~= (NodeModel {
                mesh: Some(
                    MeshModel { peers: PeersModel { trusted: Set::empty(), ..m.peers }, ..m },
                ),
                ..start
            }));
        }
        Ok(())
    }

    /// Why a request to join a mesh cannot even be looked at.
    fn check_join(&self, mesh_id: &Uuid) -> (r: Result<Uuid, NodeError>)
        requires
            self.wf(),
        ensures
            match join_fault(self@, mesh_id@) {
                None => r matches Ok(root) && root@ == mesh_id@ && self.mesh is Some,
                Some(f) => r matches Err(e) && e@ == f,
            },
    {
        let root_id = match self.meta.root_store() {
            Some(id) => id,
            None => {
                return Err(NodeError::Actor("No root store configured".to_owned()));
            },
        };
        if !bytes_eq(mesh_id.as_slice(), root_id.as_slice()) {
            return Err(
                NodeError::Validation(
                    "Invalid Mesh ID: expected ".to_owned().concat(
                        uuid_string(&root_id).as_str(),
                    ).concat(", got ").concat(uuid_string(mesh_id).as_str()),
                ),
            );
        }
        match self.get_mesh() {
            Ok(_) => Ok(root_id),
            Err(e) => Err(e),
        }
    }

    /// Makes a peer active: what the peer gets.
    fn let_in(&mut self, root_id: Uuid, pubkey: &PubKey, now_ms: u64, now: u64) -> (r: Result<
        JoinAcceptance,
        NodeError,
    >)
        requires
            old(self).wf(),
            old(self)@.mesh is Some,
        ensures
            final(self).wf(),
            ({
                let (after, authors) = activated(old(self)@, pubkey@, now_ms, now);
                &&& final(self)@ == after
                &&& match authors {
                    Ok(a) => r matches Ok(x) && x.store_id == root_id && entry::digests(
                        x.authorized_authors@,
                    ) == a,
                    Err(f) => r matches Err(e) && e@ == f,
                }
            }),
    {
        let ghost start = self@;
        let done = match &mut self.root {
            Some(root) => match &mut self.mesh {
                Some(mesh) => mesh.set_peer_status_at(
                    root,
                    pubkey,
                    PeerStatus::Active,
                    now_ms,
                    now,
                ),
                None => Ok(()),
            },
            None => Ok(()),
        };
        assert(self@ =~= activated(start, pubkey@, now_ms, now).0);
        match done {
            Ok(()) => {},
            Err(e) => {
                return Err(NodeError::PeerManager(e));
            },
        }
        let authorized_authors = match &self.mesh {
            Some(mesh) => mesh.peer_manager().list_acceptable_authors(),
            None => Vec::new(),
        };
        Ok(JoinAcceptance { store_id: root_id, authorized_authors })
    }

    /// Lets a peer into the mesh that has been invited, at the given times of the
    /// wall clock.
    pub fn accept_join_at(
        &mut self,
        pubkey: &PubKey,
        mesh_id: &Uuid,
        now_ms: u64,
        now: u64,
    ) -> (r: Result<JoinAcceptance, NodeError>)
        requires
            old(self).wf(),
        ensures
            final(self).wf(),
            ({
                let (after, authors) = join_accepted(
                    old(self)@,
                    pubkey@,
                    mesh_id@,
                    now_ms,
                    now,
                );
                &&& final(self)@ == after
                &&& match authors {
                    Ok(a) => r matches Ok(x) && x.store_id@ == mesh_id@ && entry::digests(
                        x.authorized_authors@,
                    ) == a,
                    Err(f) => r matches Err(e) && e@ == f,
                }
            }),
    {
        let root_id = match self.check_join(mesh_id) {
            Ok(id) => id,
            Err(e) => {
                return Err(e);
            },
        };
        let invited = match &self.mesh {
            Some(mesh) => mesh.peer_manager().can_join(pubkey),
            None => false,
        };
        if !invited {
            return Err(Node::not_invited_error(pubkey));
        }
        self.let_in(root_id, pubkey, now_ms, now)
    }

    fn not_invited_error(pubkey: &PubKey) -> (r: NodeError)
        ensures
            r@ == not_invited(pubkey@),
    {
        NodeError::Store(
            StateError::Unauthorized(
                "Peer ".to_owned().concat(hex_encode(pubkey.as_slice()).as_str()).concat(
                    " is not invited",
                ),
            ),
        )
    }

    /// Lets a peer into the mesh that has been invited, now.
    pub fn accept_join(&mut self, pubkey: &PubKey, mesh_id: &Uuid) -> (r: Result<
        JoinAcceptance,
        NodeError,
    >)
        requires
            old(self).wf(),
        ensures
            final(self).wf(),
            exists|now_ms: u64, now: u64|
                {
                    let (after, authors) = #[trigger] join_accepted(
                        old(self)@,
                        pubkey@,
                        mesh_id@,
                        now_ms,
                        now,
                    );
                    &&& final(self)@ == after
                    &&& match authors {
                        Ok(a) => r matches Ok(x) && x.store_id@ == mesh_id@ && entry::digests(
                            x.authorized_authors@,
                        ) == a,
                        Err(f) => r matches Err(e) && e@ == f,
                    }
                },
    {
        let now_ms: u64 = SystemClock.now_ms();
        self.accept_join_at(pubkey, mesh_id, now_ms, now_ms / 1000)
    }

    /// Lets a peer into the mesh that has a good secret, at the given times of the
    /// wall clock.
    pub fn accept_secret_at(
        &mut self,
        pubkey: &PubKey,
        mesh_id: &Uuid,
        secret: &[u8],
        now_ms: u64,
        now: u64,
    ) -> (r: Result<JoinAcceptance, NodeError>)
        requires
            old(self).wf(),
        ensures
            final(self).wf(),
            ({
                let (after, authors) = secret_accepted(
                    old(self)@,
                    pubkey@,
                    mesh_id@,
                    secret@,
                    now_ms,
                    now,
                );
                &&& final(self)@ == after
                &&& match authors {
                    Ok(a) => r matches Ok(x) && x.store_id@ == mesh_id@ && entry::digests(
                        x.authorized_authors@,
                    ) == a,
                    Err(f) => r matches Err(e) && e@ == f,
                }
            }),
    {
        let ghost start = self@;
        let root_id = match self.check_join(mesh_id) {
            Ok(id) => id,
            Err(e) => {
                return Err(e);
            },
        };
        let good = match &mut self.root {
            Some(root) => match &mut self.mesh {
                Some(mesh) => mesh.consume_invite_secret_at(root, secret, now_ms, now),
                None => Ok(false),
            },
            None => Ok(false),
        };
        let ghost (m, g, _) = mesh::consumed(
            start.mesh->0,
            start.root->0,
            secret@,
            now_ms,
            now,
        );
        assert(self@ =~= (NodeModel { root: Some(g), mesh: Some(m), ..start }));
        match good {
            Ok(true) => self.let_in(root_id, pubkey, now_ms, now),
            Ok(false) => Err(Node::not_invited_error(pubkey)),
            Err(why) => Err(NodeError::Actor(why)),
        }
    }

    /// Invites a peer into the mesh, at the given times of the wall clock.
    pub fn invite_peer_at(&mut self, pubkey: PubKey, now_ms: u64, now: u64) -> (r: Result<
        (),
        NodeError,
    >)
        requires
            old(self).wf(),
        ensures
            final(self).wf(),
            match (old(self)@.mesh, old(self)@.root) {
                (Some(m0), Some(g0)) => {
                    let (m, g, fault) = mesh::written(
                        m0,
                        g0,
                        mesh::invitation_writes(pubkey@, old(self)@.me(), now),
                        now_ms,
                        now,
                    );
                    &&& final(self)@ == (NodeModel {
                        root: Some(g),
                        mesh: Some(m),
                        ..old(self)@
                    })
                    &&& match fault {
                        None => r is Ok,
                        Some(f) => r matches Err(e) && e@ == NodeFault::PeerManager(
                            "Store error: "@ + f.as_state_fault().text(),
                        ),
                    }
                },
                _ => {
                    &&& final(self)@ == old(self)@
                    &&& r matches Err(e) && e@ == NodeFault::Actor(
                        "No mesh available - join or init first"@,
                    )
                },
            },
    {
        let ghost start = self@;
        let inviter = self.identity.public_key();
        let done = match &mut self.mesh {
            Some(mesh) => match &mut self.root {
                Some(root) => mesh.invite_peer_at(root, pubkey, inviter, now_ms, now),
                None => {
                    return Err(Node::no_mesh());
                },
            },
            None => {
                return Err(Node::no_mesh());
            },
        };
        proof {
            let (m, g, _) = mesh::written(
                start.mesh->0,
                start.root->0,
                mesh::invitation_writes(pubkey@, start.me(), now),
                now_ms,
                now,
            );
            assert(self@ =~= (NodeModel { root: Some(g), mesh: Some(m), ..start }));
        }
        match done {
            Ok(()) => Ok(()),
            Err(e) => Err(NodeError::PeerManager(e)),
        }
    }

    /// Gives a peer of the mesh a status, at the given times of the wall clock.
    pub fn set_peer_status_at(
        &mut self,
        pubkey: &PubKey,
        status: PeerStatus,
        now_ms: u64,
        now: u64,
    ) -> (r: Result<(), NodeError>)
        requires
            old(self).wf(),
        ensures
            final(self).wf(),
            match (old(self)@.mesh, old(self)@.root) {
                (Some(m0), Some(g0)) => {
                    let (m, g, fault) = mesh::written(
                        m0,
                        g0,
                        seq![mesh::status_write(pubkey@, status)],
                        now_ms,
                        now,
                    );
                    &&& final(self)@ == (NodeModel {
                        root: Some(g),
                        mesh: Some(m),
                        ..old(self)@
                    })
                    &&& match fault {
                        None => r is Ok,
                        Some(f) => r matches Err(e) && e@ == NodeFault::PeerManager(
                            "Store error: "@ + f.as_state_fault().text(),
                        ),
                    }
                },
                _ => {
                    &&& final(self)@ == old(self)@
                    &&& r matches Err(e) && e@ == NodeFault::Actor(
                        "No mesh available - join or init first"@,
                    )
                },
            },
    {
        let ghost start = self@;
        let done = match &mut self.mesh {
            Some(mesh) => match &mut self.root {
                Some(root) => mesh.set_peer_status_at(root, pubkey, status, now_ms, now),
                None => {
                    return Err(Node::no_mesh());
                },
            },
            None => {
                return Err(Node::no_mesh());
            },
        };
        proof {
            let (m, g, _) = mesh::written(
                start.mesh->0,
                start.root->0,
                seq![mesh::status_write(pubkey@, status)],
                now_ms,
                now,
            );
            assert(self@ =~= (NodeModel { root: Some(g), mesh: Some(m), ..start }));
        }
        match done {
            Ok(()) => Ok(()),
            Err(e) => Err(NodeError::PeerManager(e)),
        }
    }

    /// Makes a secret good for one guest of the mesh, at the given times of the
    /// wall clock: the token of the invitation.
    pub fn create_invite_at(&mut self, secret: &[u8], now_ms: u64, now: u64) -> (r: Result<
        String,
        NodeError,
    >)
        requires
            old(self).wf(),
        ensures
            final(self).wf(),
            match (old(self)@.mesh, old(self)@.root) {
                (Some(m0), Some(g0)) => {
                    let (m, g, fault) = mesh::written(
                        m0,
                        g0,
                        seq![mesh::invite_write(secret@)],
                        now_ms,
                        now,
                    );
                    let invite = InviteModel {
                        inviter: old(self)@.me(),
                        mesh_id: m.id,
                        secret: secret@,
                    };
                    &&& final(self)@ == (NodeModel {
                        root: Some(g),
                        mesh: Some(m),
                        ..old(self)@
                    })
                    &&& match fault {
                        None => {
                            &&& r matches Ok(t) && t@ == token::base58_text(
                                TOKEN_VERSION,
                                invite.encoding(),
                            )
                            &&& invite.encoding().len() <= u64::MAX ==> (r matches Ok(t)
                                && InviteModel::of_versioned(token::base58_bytes(t@, TOKEN_VERSION))
                                == Ok::<InviteModel, Seq<char>>(invite))
                        },
                        Some(f) => r matches Err(e) && e@ == NodeFault::Actor(
                            f.as_state_fault().text(),
                        ),
                    }
                },
                _ => {
                    &&& final(self)@ == old(self)@
                    &&& r matches Err(e) && e@ == NodeFault::Actor(
                        "No mesh available - join or init first"@,
                    )
                },
            },
    {
        let ghost start = self@;
        let inviter = self.identity.public_key();
        let done = match &mut self.mesh {
            Some(mesh) => match &mut self.root {
                Some(root) => mesh.create_invite_at(root, inviter, secret, now_ms, now),
                None => {
                    return Err(Node::no_mesh());
                },
            },
            None => {
                return Err(Node::no_mesh());
            },
        };
        proof {
            let (m, g, _) = mesh::written(
                start.mesh->0,
                start.root->0,
                seq![mesh::invite_write(secret@)],
                now_ms,
                now,
            );
            assert(self@ =~= (NodeModel { root: Some(g), mesh: Some(m), ..start }));
        }
        match done {
            Ok(t) => Ok(t),
            Err(why) => Err(NodeError::Actor(why)),
        }
    }

    /// Takes an entry for the root store in from another node, received at the
    /// given time.
    pub fn ingest_entry_at(&mut self, entry: &SignedEntry, now: u64) -> (r: Result<(), NodeError>)
        requires
            old(self).wf(),
        ensures
            final(self).wf(),
            match (old(self)@.mesh, old(self)@.root) {
                (Some(m0), Some(g0)) => {
                    let (m, g, fault) = mesh::ingested(m0, g0, entry@, now);
                    &&& final(self)@ == (NodeModel {
                        root: Some(g),
                        mesh: Some(m),
                        ..old(self)@
                    })
                    &&& match fault {
                        None => r is Ok,
                        Some(f) => r matches Err(e) && e@ == NodeFault::Store(f),
                    }
                },
                _ => {
                    &&& final(self)@ == old(self)@
                    &&& r matches Err(e) && e@ == NodeFault::Actor(
                        "No mesh available - join or init first"@,
                    )
                },
            },
    {
        let ghost start = self@;
        let done = match &mut self.mesh {
            Some(mesh) => match &mut self.root {
                Some(root) => mesh.ingest_entry_at(root, entry, now),
                None => {
                    return Err(Node::no_mesh());
                },
            },
            None => {
                return Err(Node::no_mesh());
            },
        };
        proof {
            let (m, g, _) = mesh::ingested(start.mesh->0, start.root->0, entry@, now);
            assert(self@ =~= (NodeModel { root: Some(g), mesh: Some(m), ..start }));
        }
        match done {
            Ok(()) => Ok(()),
            Err(e) => Err(NodeError::Store(e)),
        }
    }

    fn no_mesh() -> (r: NodeError)
        ensures
            r@ == NodeFault::Actor("No mesh available - join or init first"@),
    {
        NodeError::Actor("No mesh available - join or init first".to_owned())
    }

    /// The stores of the node.
    pub fn list_stores(&self) -> (r: Vec<Uuid>)
        requires
            self.wf(),
        ensures
            ids(r@) == store_ids(self@.meta),
    {
        let stores = self.meta.list_stores();
        let ghost all = meta_store::record_models::<StoreMetadata>(stores@);
        let mut out: Vec<Uuid> = Vec::new();
        let mut i: usize = 0;
        while i < stores.len()
            invariant
                i <= stores@.len(),
                out@.len() == i,
                forall|k: int| 0 <= k < i ==> #[trigger] out@[k] == stores@[k].0,
            decreases stores@.len() - i,
        {
            out.push(stores[i].0);
            i += 1;
        }
        assert(ids(out@) =~= store_ids(self@.meta));
        out
    }

    /// Keeps a store, made at the given time in milliseconds since the epoch.
    pub fn create_store_at(&mut self, store_id: Uuid, now_ms: u64) -> (r: Uuid)
        requires
            old(self).wf(),
        ensures
            final(self).wf(),
            r == store_id,
            final(self)@ == (NodeModel {
                meta: meta_store::with_store(old(self)@.meta, store_id@, store_id@, now_ms),
                ..old(self)@
            }),
    {
        let ghost start = self@;
        self.meta.add_store_at(&store_id, &store_id, now_ms);
        assert(self@ =~= (NodeModel {
            meta: meta_store::with_store(start.meta, store_id@, store_id@, now_ms),
            ..start
        }));
        store_id
    }

    /// Keeps a store, made now.
    pub fn create_store_with_uuid(&mut self, store_id: Uuid) -> (r: Uuid)
        requires
            old(self).wf(),
        ensures
            final(self).wf(),
            r == store_id,
            exists|now_ms: u64|
                final(self)@ == (NodeModel {
                    meta: #[trigger] meta_store::with_store(
                        old(self)@.meta,
                        store_id@,
                        store_id@,
                        now_ms,
                    ),
                    ..old(self)@
                }),
    {
        let now_ms: u64 = SystemClock.now_ms();
        self.create_store_at(store_id, now_ms)
    }

    /// Keeps a new store, made now.
    pub fn create_store(&mut self) -> (r: Uuid)
        requires
            old(self).wf(),
        ensures
            final(self).wf(),
            exists|now_ms: u64|
                final(self)@ == (NodeModel {
                    meta: #[trigger] meta_store::with_store(old(self)@.meta, r@, r@, now_ms),
                    ..old(self)@
                }),
    {
        let store_id: Uuid = random_uuid();
        self.create_store_with_uuid(store_id)
    }

    /// Sets the root store.
    pub fn set_root_store(&mut self, store_id: &Uuid)
        requires
            old(self).wf(),
        ensures
            final(self).wf(),
            final(self)@ == (NodeModel {
                meta: meta_store::with_root(old(self)@.meta, store_id@),
                ..old(self)@
            }),
    {
        let ghost start = self@;
        self.meta.set_root_store(store_id);
        assert(self@ =~= (NodeModel {
            meta: meta_store::with_root(start.meta, store_id@),
            ..start
        }));
    }

    /// The peers, where there is a mesh.
    pub fn peer_manager(&self) -> (r: Option<&PeerManager>)
        requires
            self.wf(),
        ensures
            match self@.mesh {
                Some(m) => r matches Some(p) && p.wf() && p@ == m.peers,
                None => r is None,
            },
    {
        match &self.mesh {
            Some(mesh) => Some(mesh.peer_manager()),
            None => None,
        }
    }

    /// The mesh, where there is one.
    pub fn mesh(&self) -> (r: Option<&Mesh>)
        requires
            self.wf(),
        ensures
            match self@.mesh {
                Some(m) => r matches Some(x) && x.wf() && x@ == m,
                None => r is None,
            },
    {
        match &self.mesh {
            Some(mesh) => Some(mesh),
            None => None,
        }
    }

    /// The mesh.
    pub fn get_mesh(&self) -> (r: Result<&Mesh, NodeError>)
        requires
            self.wf(),
        ensures
            match self@.mesh {
                Some(m) => r matches Ok(x) && x.wf() && x@ == m,
                None => r matches Err(e) && e@ == NodeFault::Actor(
                    "No mesh available - join or init first"@,
                ),
            },
    {
        match &self.mesh {
            Some(mesh) => Ok(mesh),
            None => Err(Node::no_mesh()),
        }
    }
}

/// The public keys among byte strings.
fn keys_of(items: &Vec<Vec<u8>>) -> (r: Vec<PubKey>)
    ensures
        entry::digests(r@) == keys_among(message::byte_models(items@)),
{
    let ghost all = message::byte_models(items@);
    let ghost keep = |b: Seq<u8>| b.len() == 32;
    let mut out: Vec<PubKey> = Vec::new();
    let mut i: usize = 0;
    proof {
        reveal(Seq::filter);
        assert(all.take(0) =~= Seq::empty());
        assert(entry::digests(out@) =~= Seq::empty());
    }
    while i < items.len()
        invariant
            i <= items@.len(),
            all == message::byte_models(items@),
            keep == (|b: Seq<u8>| b.len() == 32),
            entry::digests(out@) == all.take(i as int).filter(keep),
        decreases items@.len() - i,
    {
        let ghost before = out@;
        proof {
            reveal(Seq::filter);
            assert(all.take(i + 1).drop_last() =~= all.take(i as int));
            assert(all.take(i + 1).last() == items@[i as int]@);
        }
        if items[i].len() == 32 {
            out.push(to_array32(items[i].as_slice()));
            assert(entry::digests(out@) =~= entry::digests(before).push(items@[i as int]@));
        }
        i += 1;
    }
    assert(all.take(i as int) =~= all);
    out
}

/// A node that is initialized has its new store as the root store, listed with the mesh of
/// the same identifier and the time. The store's first entries say of the node its name where
/// it has one, since when it is there, and that it is active.
pub proof fn law_init_writes_the_node(n: NodeModel, id: Seq<u8>, now_ms: u64, now: u64)
    requires
        id.len() == 16,
        meta_store::root_of(n.meta) is None,
        message::encoded::<StoreMetadata>(
            crate::proto::storage::StoreMetadataModel { mesh_id: id, created_at: now_ms },
        ).len() <= u64::MAX,
    ensures
        ({
            let (after, fault) = initialized(n, id, now_ms, now);
            let path = "/nodes/"@ + text::hex_text(n.me()) + "/"@;
            let added = (
                vstd::utf8::encode_utf8(path + "added_at"@),
                vstd::utf8::encode_utf8(text::decimal_text(now as nat)),
            );
            let active = (
                vstd::utf8::encode_utf8(path + "status"@),
                vstd::utf8::encode_utf8("active"@),
            );
            let named = match meta_store::name_of(n.meta) {
                Some(name) => seq![
                    (vstd::utf8::encode_utf8(path + "name"@), vstd::utf8::encode_utf8(name)),
                ],
                None => Seq::empty(),
            };
            let (g, written) = model::puts(
                empty_store(n, id),
                named.push(added).push(active),
                now_ms,
                now,
            );
            &&& after.meta.stores.dom().contains(id)
            &&& message::decoded::<StoreMetadata>(after.meta.stores[id]) matches Some(d)
                && d.mesh_id == id && d.created_at == now_ms
            &&& after.root matches Some(h) && h.state == g.state && h.manager == g.manager
            &&& written is Some ==> fault is Some
            &&& fault is None ==> (after.mesh matches Some(m) && m.id == id) && after.events
                == n.events.push(NodeEventModel::NetworkStore(id))
            &&& after.secret == n.secret && after.dir == n.dir && after.pending == n.pending
        }),
{
    meta_store::law_added_store_is_kept(n.meta, id, id, now_ms, id.push(0));
    let attrs = own_attributes(n, now);
    let path = "/nodes/"@ + text::hex_text(n.me()) + "/"@;
    let named = match meta_store::name_of(n.meta) {
        Some(name) => seq![
            (vstd::utf8::encode_utf8(path + "name"@), vstd::utf8::encode_utf8(name)),
        ],
        None => Seq::empty(),
    };
    let expected = named.push(
        (
            vstd::utf8::encode_utf8(path + "added_at"@),
            vstd::utf8::encode_utf8(text::decimal_text(now as nat)),
        ),
    ).push((vstd::utf8::encode_utf8(path + "status"@), vstd::utf8::encode_utf8("active"@)));
    assert(peer_manager::peer_writes(n.me(), attrs) =~= expected);
    let news = seq![NodeEventModel::NetworkStore(id)];
    assert(n.events + news =~= n.events.push(NodeEventModel::NetworkStore(id)));
}

/// A join is asked of the peer for the mesh, and the mesh is pending from then on. A node that
/// has a mesh, or asks for the same one again, is refused and stays as it is.
pub proof fn law_join_is_asked_of_the_peer(
    n: NodeModel,
    peer: Seq<u8>,
    mesh_id: Seq<u8>,
    other: Seq<u8>,
)
    ensures
        ({
            let (after, fault) = joining(n, peer, mesh_id);
            &&& fault is None <==> meta_store::root_of(n.meta) is None && !n.pending.contains(
                mesh_id,
            )
            &&& fault is Some ==> after == n
            &&& fault is None ==> {
                &&& after.events == n.events.push(NodeEventModel::JoinRequested(peer, mesh_id))
                &&& after.pending.contains(other) <==> n.pending.contains(other) || other == mesh_id
                &&& after.meta == n.meta && after.root == n.root && after.mesh == n.mesh
                    && after.secret == n.secret && after.dir == n.dir
            }
        }),
{
    let news = seq![NodeEventModel::JoinRequested(peer, mesh_id)];
    assert(n.events + news =~= n.events.push(NodeEventModel::JoinRequested(peer, mesh_id)));
}

/// A join that was answered makes the store the root store and the mesh the node's own, trusts
/// the given authors who are public keys, and ends the wait for the mesh. It is told last.
pub proof fn law_answered_join_sets_the_mesh(
    n: NodeModel,
    id: Seq<u8>,
    store: ActorModel,
    authors: Seq<Seq<u8>>,
    via: Seq<u8>,
    now_ms: u64,
    now: u64,
    a: Seq<u8>,
)
    requires
        id.len() == 16,
        join_answered(n, id, store, authors, via, now_ms, now).1 is None,
    ensures
        ({
            let after = join_answered(n, id, store, authors, via, now_ms, now).0;
            &&& meta_store::root_of(after.meta) == Some(id)
            &&& after.meta.stores.dom().contains(id)
            &&& !after.pending.contains(id)
            &&& a != id ==> after.pending.contains(a) == n.pending.contains(a)
            &&& after.mesh matches Some(m) && m.id == id && (authors.contains(a) && a.len() == 32
                ==> m.peers.trusted.contains(a)) && ((exists|i: int|
                0 <= i < authors.len() && (#[trigger] authors[i]).len() == 32) && !(
            authors.contains(a) && a.len() == 32) ==> !m.peers.trusted.contains(a))
            &&& after.root is Some
            &&& after.events.len() > 0 && after.events.last() == NodeEventModel::MeshReady(id)
            &&& after.events.contains(NodeEventModel::SyncWithPeer(id, via))
            &&& after.events.contains(NodeEventModel::StoreReady(id))
            &&& after.secret == n.secret && after.dir == n.dir
        }),
{
    meta_store::law_root_store_is_kept(
        meta_store::with_store(n.meta, id, id, now_ms),
        id,
        Seq::empty(),
    );
    let (done, fault) = join_completed(n, id, store, Some(via), now_ms, now);
    let after = join_answered(n, id, store, authors, via, now_ms, now).0;
    let keys = keys_among(authors);
    let keep = |b: Seq<u8>| b.len() == 32;
    if authors.contains(a) && a.len() == 32 {
        authors.lemma_filter_contains(keep, authors.index_of(a));
        assert(keys.contains(a));
        assert(keys.to_set().contains(a));
        assert(keys.len() > 0);
    }
    if exists|i: int| 0 <= i < authors.len() && (#[trigger] authors[i]).len() == 32 {
        let i = choose|i: int| 0 <= i < authors.len() && (#[trigger] authors[i]).len() == 32;
        authors.lemma_filter_contains(keep, i);
        assert(keys.len() > 0);
        if keys.to_set().contains(a) {
            assert(keys.contains(a));
            authors.lemma_filter_contains_rev(keep, a);
            authors.lemma_filter_pred(keep, keys.index_of(a));
        }
    }
    let last = seq![NodeEventModel::MeshReady(id)];
    assert(after.events == done.events + last);
    let tail = seq![NodeEventModel::StoreReady(id), NodeEventModel::NetworkStore(id)] + seq![
        NodeEventModel::SyncWithPeer(id, via),
    ];
    assert(tail[0] == NodeEventModel::StoreReady(id));
    assert(tail[2] == NodeEventModel::SyncWithPeer(id, via));
    let k = done.events.len() - tail.len();
    assert(after.events[k] == tail[0]);
    assert(after.events[k + 2] == tail[2]);
}

/// A peer that may join, and asks for the node's own mesh, is made active: its status is
/// written to the root store. With a wrong mesh, or without an invitation, nothing changes.
pub proof fn law_joining_peer_is_made_active(
    n: NodeModel,
    peer: Seq<u8>,
    mesh_id: Seq<u8>,
    now_ms: u64,
    now: u64,
)
    ensures
        meta_store::root_of(n.meta) != Some(mesh_id) ==> join_accepted(
            n,
            peer,
            mesh_id,
            now_ms,
            now,
        ).0 == n && join_accepted(n, peer, mesh_id, now_ms, now).1 is Err,
        meta_store::root_of(n.meta) == Some(mesh_id) ==> (n.mesh matches Some(m) ==> (
        n.root matches Some(g) ==> {
            let (after, r) = join_accepted(n, peer, mesh_id, now_ms, now);
            let write = (
                vstd::utf8::encode_utf8(
                    "/nodes/"@ + text::hex_text(peer) + "/"@ + "status"@,
                ),
                vstd::utf8::encode_utf8(PeerStatus::Active.word()),
            );
            let invited = m.peers.statuses.dom().contains(peer) && (m.peers.statuses[peer]
                is Invited || m.peers.statuses[peer] is Active);
            &&& !invited ==> after == n && r is Err
            &&& invited ==> {
                let (h, fault) = model::puts(g, seq![write], now_ms, now);
                &&& after.root matches Some(x) && x.state == h.state && x.manager == h.manager
                &&& r is Ok <==> fault is None
            }
        })),
{
}

/// A node without a root store cannot be started and stays as it is. With one, the mesh of
/// that store is set up, and the store is told as ready, for the network and to be synced.
pub proof fn law_started_node_has_its_mesh(n: NodeModel)
    ensures
        meta_store::root_of(n.meta) is None ==> started(n).0 == n && started(n).1 is Some,
        meta_store::root_of(n.meta) matches Some(id) ==> (started(n).1 is None ==> {
            let after = started(n).0;
            &&& after.mesh matches Some(m) && m.id == id
            &&& after.root is Some
            &&& after.events == n.events.push(NodeEventModel::StoreReady(id)).push(
                NodeEventModel::NetworkStore(id),
            ).push(NodeEventModel::SyncRequested(id))
            &&& after.meta == n.meta && after.pending == n.pending && after.secret == n.secret
        }),
{
    if let Some(id) = meta_store::root_of(n.meta) {
        let news = seq![
            NodeEventModel::StoreReady(id),
            NodeEventModel::NetworkStore(id),
            NodeEventModel::SyncRequested(id),
        ];
        assert(n.events + news =~= n.events.push(NodeEventModel::StoreReady(id)).push(
            NodeEventModel::NetworkStore(id),
        ).push(NodeEventModel::SyncRequested(id)));
    }
}

/// A new name is known at once, and is published under the node's own path of the root store.
pub proof fn law_name_is_published(n: NodeModel, name: Seq<char>, now_ms: u64, now: u64)
    ensures
        meta_store::name_of(renamed(n, name).meta) == Some(name),
        meta_store::root_of(renamed(n, name).meta) == meta_store::root_of(n.meta),
        meta_store::root_of(n.meta) is Some && n.root is Some ==> name_published(
            renamed(n, name),
            now_ms,
            now,
        ) == root_written(
            renamed(n, name),
            seq![
                (
                    vstd::utf8::encode_utf8("/nodes/"@ + text::hex_text(n.me()) + "/"@ + "name"@),
                    vstd::utf8::encode_utf8(name),
                ),
            ],
            now_ms,
            now,
        ),
{
    meta_store::law_name_is_read_back(n.meta, name);
    let m = renamed(n, name);
    assert(peer_manager::peer_writes(m.me(), seq![("name"@, name)]) =~= seq![
        (
            vstd::utf8::encode_utf8("/nodes/"@ + text::hex_text(n.me()) + "/"@ + "name"@),
            vstd::utf8::encode_utf8(name),
        ),
    ]);
}

/// A peer with the secret of an invitation, who asks for the node's own mesh, uses the secret
/// up and is made active. With a secret that is not good it is refused, and neither a key nor
/// a chain changes.
pub proof fn law_good_secret_lets_a_peer_in(
    n: NodeModel,
    peer: Seq<u8>,
    mesh_id: Seq<u8>,
    secret: Seq<u8>,
    now_ms: u64,
    now: u64,
)
    ensures
        meta_store::root_of(n.meta) != Some(mesh_id) ==> secret_accepted(
            n,
            peer,
            mesh_id,
            secret,
            now_ms,
            now,
        ).0 == n && secret_accepted(n, peer, mesh_id, secret, now_ms, now).1 is Err,
        meta_store::root_of(n.meta) == Some(mesh_id) ==> (n.mesh matches Some(m) ==> (
        n.root matches Some(g) ==> {
            let (after, r) = secret_accepted(n, peer, mesh_id, secret, now_ms, now);
            let (m1, g1, good) = mesh::consumed(m, g, secret, now_ms, now);
            &&& !mesh::is_good(g, secret) ==> after == n && r is Err
            &&& good is Err ==> r is Err
            &&& good == Ok::<bool, Seq<char>>(true) ==> {
                let write = (
                    vstd::utf8::encode_utf8(
                        "/nodes/"@ + text::hex_text(peer) + "/"@ + "status"@,
                    ),
                    vstd::utf8::encode_utf8(PeerStatus::Active.word()),
                );
                let (h, fault) = model::puts(g1, seq![write], now_ms, now);
                &&& after.root matches Some(x) && x.state == h.state && x.manager == h.manager
                &&& r is Ok <==> fault is None
            }
        })),
{
}

/// A peer that was let in hears who may write: exactly those of whom the mesh then knows a
/// status other than that of being invited.
pub proof fn law_joining_peer_hears_the_writers(
    n: NodeModel,
    peer: Seq<u8>,
    mesh_id: Seq<u8>,
    now_ms: u64,
    now: u64,
    a: Seq<u8>,
)
    requires
        join_accepted(n, peer, mesh_id, now_ms, now).1 is Ok,
        ({
            let known = join_accepted(n, peer, mesh_id, now_ms, now).0.mesh->0.peers.statuses.dom();
            table::lists(table::sorted_keys(known), known)
        }),
    ensures
        ({
            let (after, r) = join_accepted(n, peer, mesh_id, now_ms, now);
            &&& after.mesh is Some
            &&& r->Ok_0.contains(a) <==> after.mesh->0.peers.statuses.dom().contains(a) && !(
            after.mesh->0.peers.statuses[a] is Invited)
        }),
{
    let after = join_accepted(n, peer, mesh_id, now_ms, now).0;
    auth::law_writers_are_listed(after.mesh->0.peers.statuses, a);
}

} // verus!
