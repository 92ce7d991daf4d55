//! The peers of a mesh, as the keys under `/nodes/` of its root store say.
//!
//! Of every peer the store has
//! - `/nodes/{pubkey}/status`, whether the peer is invited, active, dormant or
//!   revoked,
//! - `/nodes/{pubkey}/name`, the peer's name,
//! - `/nodes/{pubkey}/added_at`, when the peer was invited,
//! - `/nodes/{pubkey}/added_by`, by whom.
use crate::auth;
use crate::auth::{PeerEvent, PeerEventModel, PeerProvider};
use crate::bytes::{to_array32, to_vec, PubKey};
use crate::clock::SystemClock;
use crate::entry;
use crate::head;
use crate::head::{lww, lww_head, Head, HeadModel};
use crate::message;
use crate::node::{parse_peer_status_key, PeerInfo, PeerInfoModel};
use crate::node;
use crate::node_identity::PeerStatus;
use crate::store::actor::model;
use crate::store::actor::StoreActor;
use crate::store::error::StateError;
use crate::store::state;
use crate::store::watch;
use crate::store::watch::{to_lossy_text, KindModel, WatchEvent, WatchEventKind, WatchModel};
use crate::table;
use crate::table::{ByteTable, Table};
use crate::text;
use crate::text::{
    decimal, hex_decode, hex_encode, parse_number, split_at_slash, str_eq, strip_prefix,
};
use vstd::prelude::*;
use vstd::string::*;

verus! {

// ---------------------------------------------------------------------------
// Errors
// ---------------------------------------------------------------------------

/// What can go wrong with peers.
#[derive(Debug, PartialEq, Eq)]
pub enum PeerManagerError {
    /// The store failed.
    Store(String),
    /// The peers are out of reach.
    LockPoisoned,
    /// There is no such peer.
    PeerNotFound(String),
    /// The peer may not do that.
    Unauthorized(String),
}

impl PeerManagerError {
    /// The text of the error.
    pub open spec fn text(self) -> Seq<char> {
        match self {
            PeerManagerError::Store(t) => "Store error: "@ + t@,
            PeerManagerError::LockPoisoned => "Lock poisoned"@,
            PeerManagerError::PeerNotFound(t) => "Peer not found: "@ + t@,
            PeerManagerError::Unauthorized(t) => "Unauthorized: "@ + t@,
        }
    }

    /// The text of the error.
    pub fn to_string(&self) -> (r: String)
        ensures
            r@ == self.text(),
    {
        match self {
            PeerManagerError::Store(t) => "Store error: ".to_owned().concat(t.as_str()),
            PeerManagerError::LockPoisoned => "Lock poisoned".to_owned(),
            PeerManagerError::PeerNotFound(t) => "Peer not found: ".to_owned().concat(t.as_str()),
            PeerManagerError::Unauthorized(t) => "Unauthorized: ".to_owned().concat(t.as_str()),
        }
    }
}

// ---------------------------------------------------------------------------
// Peers
// ---------------------------------------------------------------------------

/// A peer.
#[derive(Clone, Debug, PartialEq, Eq)]
pub struct Peer {
    pub pubkey: PubKey,
    pub status: PeerStatus,
    pub name: Option<String>,
    pub added_at: Option<u64>,
    pub added_by: Option<PubKey>,
}

/// The model of [`Peer`].
pub struct PeerModel {
    pub pubkey: Seq<u8>,
    pub status: PeerStatus,
    pub name: Option<Seq<char>>,
    pub added_at: Option<u64>,
    pub added_by: Option<Seq<u8>>,
}

impl View for Peer {
    type V = PeerModel;

    open spec fn view(&self) -> PeerModel {
        PeerModel {
            pubkey: self.pubkey@,
            status: self.status,
            name: match self.name {
                Some(n) => Some(n@),
                None => None,
            },
            added_at: self.added_at,
            added_by: match self.added_by {
                Some(p) => Some(p@),
                None => None,
            },
        }
    }
}

/// The start of the keys of a peer.
pub open spec fn peer_prefix(pubkey: Seq<u8>) -> Seq<char> {
    "/nodes/"@ + text::hex_text(pubkey) + "/"@
}

/// The key of an attribute of a peer.
pub open spec fn peer_key(pubkey: Seq<u8>, attribute: Seq<char>) -> Seq<char> {
    peer_prefix(pubkey) + attribute
}

/// A peer of whom nothing is known but the status.
pub open spec fn minimal_peer(pubkey: Seq<u8>, status: PeerStatus) -> PeerModel {
    PeerModel { pubkey, status, name: None, added_at: None, added_by: None }
}

/// The public key that a text stands for.
pub open spec fn parsed_key(t: Seq<char>) -> Option<Seq<u8>> {
    match text::hex_parse(t) {
        Some(b) if b.len() == 32 => Some(b),
        _ => None,
    }
}

/// What an attribute makes of a peer, of whom a status has been seen or not.
/// `None` where the status is none.
pub open spec fn attributed(p: PeerModel, seen: bool, name: Seq<char>, value: Seq<char>) -> Option<
    (PeerModel, bool),
> {
    if name == "status"@ {
        match PeerStatus::of_word(value) {
            Some(status) => Some((PeerModel { status, ..p }, true)),
            None => None,
        }
    } else if name == "name"@ {
        Some((PeerModel { name: Some(value), ..p }, seen))
    } else if name == "added_at"@ {
        Some((PeerModel { added_at: text::parsed_number(value), ..p }, seen))
    } else if name == "added_by"@ {
        Some((PeerModel { added_by: parsed_key(value), ..p }, seen))
    } else {
        Some((p, seen))
    }
}

/// What attributes make of a peer.
pub open spec fn all_attributed(p: PeerModel, attrs: Seq<(Seq<char>, Seq<char>)>) -> Option<
    (PeerModel, bool),
>
    decreases attrs.len(),
{
    if attrs.len() == 0 {
        Some((p, false))
    } else {
        match all_attributed(p, attrs.drop_last()) {
            None => None,
            Some((q, seen)) => attributed(q, seen, attrs.last().0, attrs.last().1),
        }
    }
}

/// The peer that attributes describe. A peer has a status.
pub open spec fn peer_of(pubkey: Seq<u8>, attrs: Seq<(Seq<char>, Seq<char>)>) -> Option<
    PeerModel,
> {
    match all_attributed(minimal_peer(pubkey, PeerStatus::Invited), attrs) {
        Some((p, true)) => Some(p),
        _ => None,
    }
}

/// The attributes of a peer, in the order in which they are written.
pub open spec fn peer_attributes(p: PeerModel) -> Seq<(Seq<char>, Seq<char>)> {
    let a = seq![("status"@, p.status.word())];
    let b = match p.name {
        Some(n) => a.push(("name"@, n)),
        None => a,
    };
    let c = match p.added_at {
        Some(t) => b.push(("added_at"@, text::decimal_text(t as nat))),
        None => b,
    };
    match p.added_by {
        Some(k) => c.push(("added_by"@, text::hex_text(k))),
        None => c,
    }
}

/// The keys and values of a peer's attributes, as they are stored.
pub open spec fn peer_writes(
    pubkey: Seq<u8>,
    attrs: Seq<(Seq<char>, Seq<char>)>,
) -> Seq<(Seq<u8>, Seq<u8>)> {
    attrs.map_values(
        |a: (Seq<char>, Seq<char>)|
            (
                vstd::utf8::encode_utf8(peer_key(pubkey, a.0)),
                vstd::utf8::encode_utf8(a.1),
            ),
    )
}

proof fn lemma_attribute_names()
    ensures
        "status"@ != "name"@,
        "status"@ != "added_at"@,
        "status"@ != "added_by"@,
        "name"@ != "added_at"@,
        "name"@ != "added_by"@,
        "added_at"@ != "added_by"@,
{
    reveal_strlit("status");
    reveal_strlit("name");
    reveal_strlit("added_at");
    reveal_strlit("added_by");
    assert("status"@[0] == 's');
    assert("name"@[0] == 'n');
    assert("added_at"@[0] == 'a');
    assert("added_by"@[0] == 'a');
    assert("added_at"@[6] == 'a');
    assert("added_by"@[6] == 'b');
}

/// A peer is read back from its attributes.
pub proof fn law_peer_round_trip(p: PeerModel)
    requires
        p.added_by matches Some(k) ==> k.len() == 32,
    ensures
        peer_of(p.pubkey, peer_attributes(p)) == Some(p),
{
    lemma_attribute_names();
    reveal_with_fuel(all_attributed, 5);
    crate::node_identity::law_status_round_trip(p.status);
    let m = minimal_peer(p.pubkey, PeerStatus::Invited);
    let a = seq![("status"@, p.status.word())];
    assert(a.drop_last() =~= Seq::empty());
    let pa = PeerModel { status: p.status, ..m };
    assert(all_attributed(m, a) == Some((pa, true)));
    let b = match p.name {
        Some(n) => a.push(("name"@, n)),
        None => a,
    };
    let pb = PeerModel { name: p.name, ..pa };
    if let Some(n) = p.name {
        assert(b.drop_last() =~= a);
    }
    assert(all_attributed(m, b) == Some((pb, true)));
    let c = match p.added_at {
        Some(t) => b.push(("added_at"@, text::decimal_text(t as nat))),
        None => b,
    };
    let pc = PeerModel { added_at: p.added_at, ..pb };
    if let Some(t) = p.added_at {
        text::law_number_round_trip(t);
        assert(c.drop_last() =~= b);
    }
    assert(all_attributed(m, c) == Some((pc, true)));
    let d = peer_attributes(p);
    if let Some(k) = p.added_by {
        text::law_hex_round_trip(k);
        assert(d.drop_last() =~= c);
    }
    assert(all_attributed(m, d) == Some((p, true)));
}

/// The models of attributes.
pub open spec fn attribute_models(v: Seq<(String, String)>) -> Seq<(Seq<char>, Seq<char>)> {
    v.map_values(|a: (String, String)| (a.0@, a.1@))
}

/// The attribute that an entry of the store is, by the start of the keys.
pub open spec fn attribute_at(prefix: Seq<char>, key: Seq<u8>, heads: Seq<HeadModel>) -> Option<
    (Seq<char>, Seq<char>),
> {
    match (text::behind(watch::lossy_text(key), prefix), head::live_head(heads)) {
        (Some(name), Some(h)) => Some((name, watch::lossy_text(h.value))),
        _ => None,
    }
}

/// The attributes that entries of the store are, by the start of the keys.
pub open spec fn attributes_at(
    prefix: Seq<char>,
    pairs: Seq<(Seq<u8>, Seq<HeadModel>)>,
) -> Seq<(Seq<char>, Seq<char>)>
    decreases pairs.len(),
{
    if pairs.len() == 0 {
        Seq::empty()
    } else {
        let before = attributes_at(prefix, pairs.drop_last());
        match attribute_at(prefix, pairs.last().0, pairs.last().1) {
            Some(a) => before.push(a),
            None => before,
        }
    }
}

impl Peer {
    /// A peer who was invited at the given time, in seconds since the epoch.
    pub fn new_invited_at(pubkey: PubKey, invited_by: PubKey, now: u64) -> (r: Self)
        ensures
            r@ == (PeerModel {
                pubkey: pubkey@,
                status: PeerStatus::Invited,
                name: None,
                added_at: Some(now),
                added_by: Some(invited_by@),
            }),
    {
        Peer {
            pubkey,
            status: PeerStatus::Invited,
            name: None,
            added_at: Some(now),
            added_by: Some(invited_by),
        }
    }

    /// A peer who is invited now.
    pub fn new_invited(pubkey: PubKey, invited_by: PubKey) -> (r: Self)
        ensures
            r@ == (PeerModel {
                pubkey: pubkey@,
                status: PeerStatus::Invited,
                name: None,
                added_at: r@.added_at,
                added_by: Some(invited_by@),
            }),
            r@.added_at is Some,
    {
        let now: u64 = SystemClock.now_secs();
        Peer::new_invited_at(pubkey, invited_by, now)
    }

    /// A peer of whom nothing is known but the status.
    pub fn minimal(pubkey: PubKey, status: PeerStatus) -> (r: Self)
        ensures
            r@ == minimal_peer(pubkey@, status),
    {
        Peer { pubkey, status, name: None, added_at: None, added_by: None }
    }

    /// The peer that attributes describe.
    pub fn from_attributes(pubkey: PubKey, attrs: &Vec<(String, String)>) -> (r: Option<Self>)
        ensures
            match peer_of(pubkey@, attribute_models(attrs@)) {
                Some(p) => r matches Some(x) && x@ == p,
                None => r is None,
            },
    {
        let ghost all = attribute_models(attrs@);
        let ghost start = minimal_peer(pubkey@, PeerStatus::Invited);
        let mut peer = Peer::minimal(pubkey, PeerStatus::Invited);
        let mut valid = false;
        let mut i: usize = 0;
        assert(all.take(0) =~= Seq::empty());
        while i < attrs.len()
            invariant
                i <= attrs@.len(),
                all == attribute_models(attrs@),
                start == minimal_peer(pubkey@, PeerStatus::Invited),
                all_attributed(start, all.take(i as int)) == Some((peer@, valid)),
            decreases attrs@.len() - i,
        {
            let name = attrs[i].0.as_str();
            let value = attrs[i].1.as_str();
            proof {
                assert(all.take(i + 1).drop_last() =~= all.take(i as int));
                assert(all.take(i + 1).last() == (name@, value@));
            }
            if str_eq(name, "status") {
                match PeerStatus::from_str(value) {
                    Some(status) => {
                        peer.status = status;
                        valid = true;
                    },
                    None => {
                        proof {
                            lemma_attributed_stop(start, all, i + 1);
                        }
                        return None;
                    },
                }
            } else if str_eq(name, "name") {
                peer.name = Some(value.to_owned());
            } else if str_eq(name, "added_at") {
                peer.added_at = parse_number(value);
            } else if str_eq(name, "added_by") {
                peer.added_by = key_of_hex(value);
            }
            i += 1;
        }
        assert(all.take(i as int) =~= all);
        if valid {
            Some(peer)
        } else {
            None
        }
    }

    /// The peer that the entries of a store under the peer's prefix describe.
    pub fn load(pubkey: PubKey, entries: &Vec<(Vec<u8>, Vec<Head>)>) -> (r: Option<Self>)
        ensures
            match peer_of(
                pubkey@,
                attributes_at(peer_prefix(pubkey@), state::heads_pairs(entries@)),
            ) {
                Some(p) => r matches Some(x) && x@ == p,
                None => r is None,
            },
    {
        let ghost pairs = state::heads_pairs(entries@);
        let prefix = prefix_of(&pubkey);
        let mut attrs: Vec<(String, String)> = Vec::new();
        let mut i: usize = 0;
        proof {
            assert(pairs.take(0) =~= Seq::empty());
            assert(attribute_models(attrs@) =~= Seq::empty());
        }
        while i < entries.len()
            invariant
                i <= entries@.len(),
                pairs == state::heads_pairs(entries@),
                prefix@ == peer_prefix(pubkey@),
                attribute_models(attrs@) == attributes_at(prefix@, pairs.take(i as int)),
            decreases entries@.len() - i,
        {
            let (key, heads) = &entries[i];
            let ghost before = attrs@;
            proof {
                assert(pairs.take(i + 1).drop_last() =~= pairs.take(i as int));
                assert(pairs.take(i + 1).last() == (key@, head::head_models(heads@)));
            }
            let key_text = to_lossy_text(key.as_slice());
            match strip_prefix(key_text.as_str(), prefix.as_str()) {
                Some(attr) => {
                    match lww_head(heads.as_slice()) {
                        Some(winner) => {
                            let value = to_lossy_text(winner.value.as_slice());
                            let ghost x = (attr@, value@);
                            attrs.push((attr.to_owned(), value));
                            assert(attribute_models(attrs@) =~= attribute_models(before).push(x));
                        },
                        None => {},
                    }
                },
                None => {},
            }
            i += 1;
        }
        assert(pairs.take(i as int) =~= pairs);
        Peer::from_attributes(pubkey, &attrs)
    }

    /// The keys and values that make the peer known to a store, in the order in
    /// which they are written.
    pub fn save(&self) -> (r: Vec<(Vec<u8>, Vec<u8>)>)
        ensures
            state::pair_models(r@) == peer_writes(self@.pubkey, peer_attributes(self@)),
    {
        let mut out: Vec<(Vec<u8>, Vec<u8>)> = Vec::new();
        out.push(attribute_write(&self.pubkey, "status", self.status.as_str()));
        match &self.name {
            Some(name) => {
                out.push(attribute_write(&self.pubkey, "name", name.as_str()));
            },
            None => {},
        }
        match self.added_at {
            Some(added_at) => {
                out.push(
                    attribute_write(&self.pubkey, "added_at", decimal(added_at).as_str()),
                );
            },
            None => {},
        }
        match &self.added_by {
            Some(added_by) => {
                out.push(
                    attribute_write(
                        &self.pubkey,
                        "added_by",
                        hex_encode(added_by.as_slice()).as_str(),
                    ),
                );
            },
            None => {},
        }
        assert(state::pair_models(out@) =~= peer_writes(self@.pubkey, peer_attributes(self@)));
        out
    }

    /// What is told of the peer.
    pub fn to_info(&self) -> (r: PeerInfo)
        ensures
            r@ == peer_info(self@),
    {
        PeerInfo {
            pubkey: self.pubkey,
            name: match &self.name {
                Some(name) => Some(name.as_str().to_owned()),
                None => None,
            },
            added_at: self.added_at,
            added_by: match &self.added_by {
                Some(p) => Some(hex_encode(p.as_slice())),
                None => None,
            },
            status: self.status,
        }
    }
}

/// What is told of a peer.
pub open spec fn peer_info(p: PeerModel) -> PeerInfoModel {
    PeerInfoModel {
        pubkey: p.pubkey,
        name: p.name,
        added_at: p.added_at,
        added_by: match p.added_by {
            Some(k) => Some(text::hex_text(k)),
            None => None,
        },
        status: p.status,
    }
}

proof fn lemma_attributed_stop(p: PeerModel, attrs: Seq<(Seq<char>, Seq<char>)>, n: int)
    requires
        0 <= n <= attrs.len(),
        all_attributed(p, attrs.take(n)) is None,
    ensures
        all_attributed(p, attrs) is None,
    decreases attrs.len() - n,
{
    if n == attrs.len() {
        assert(attrs.take(n) =~= attrs);
    } else {
        assert(attrs.take(n + 1).drop_last() =~= attrs.take(n));
        lemma_attributed_stop(p, attrs, n + 1);
    }
}

/// The public key that a text stands for.
fn key_of_hex(t: &str) -> (r: Option<PubKey>)
    ensures
        match parsed_key(t@) {
            Some(k) => r matches Some(x) && x@ == k,
            None => r is None,
        },
{
    match hex_decode(t) {
        Some(b) => if b.len() == 32 {
            Some(to_array32(b.as_slice()))
        } else {
            None
        },
        None => None,
    }
}

/// The start of the keys of a peer.
pub fn prefix_of(pubkey: &PubKey) -> (r: String)
    ensures
        r@ == peer_prefix(pubkey@),
{
    "/nodes/".to_owned().concat(hex_encode(pubkey.as_slice()).as_str()).concat("/")
}

/// The key and the value of an attribute of a peer.
pub fn attribute_write(pubkey: &PubKey, attribute: &str, value: &str) -> (r: (Vec<u8>, Vec<u8>))
    ensures
        r.0@ == vstd::utf8::encode_utf8(peer_key(pubkey@, attribute@)),
        r.1@ == vstd::utf8::encode_utf8(value@),
{
    let key = prefix_of(pubkey).concat(attribute);
    (to_vec(key.as_str().as_bytes()), to_vec(value.as_bytes()))
}

/// The key that holds the status of a peer stands for that peer.
pub proof fn law_status_key_round_trip(pubkey: Seq<u8>)
    requires
        pubkey.len() == 32,
    ensures
        node::status_hex(peer_key(pubkey, "status"@)) == Some(text::hex_text(pubkey)),
        parsed_key(text::hex_text(pubkey)) == Some(pubkey),
{
    reveal_strlit("/nodes/");
    reveal_strlit("/status");
    reveal_strlit("/");
    reveal_strlit("status");
    let hex = text::hex_text(pubkey);
    let key = peer_key(pubkey, "status"@);
    assert("/nodes/"@.is_prefix_of(key)) by {
        assert(key.take(7) =~= "/nodes/"@);
    }
    let rest = key.skip(7);
    assert(rest =~= hex + "/status"@) by {
        assert("/"@ + "status"@ =~= "/status"@);
    }
    let n = rest.len() - 7;
    assert(rest.skip(n) =~= "/status"@);
    assert(rest.take(n) =~= hex);
    assert forall|k: int| 0 <= k < n implies node::is_hex(#[trigger] rest[k]) by {
        assert(rest[k] == hex[k]);
        let d = if k % 2 == 0 {
            pubkey[k / 2] as int / 16
        } else {
            pubkey[k / 2] as int % 16
        };
        assert(hex[k] == text::hex_digit(d));
        if d < 10 {
            assert((48 + d) as char as int == 48 + d);
        } else {
            assert((87 + d) as char as int == 87 + d);
        }
    }
    text::law_hex_round_trip(pubkey);
}

// ---------------------------------------------------------------------------
// The manager
// ---------------------------------------------------------------------------

/// The model of a [`PeerManager`].
#[verifier::ext_equal]
pub struct PeersModel {
    /// The statuses of the known peers.
    pub statuses: Map<Seq<u8>, PeerStatus>,
    /// The authors that are trusted during the first sync.
    pub trusted: Set<Seq<u8>>,
    /// What has not been told yet.
    pub events: Seq<PeerEventModel>,
}

/// The peer whose status a key of the store holds.
pub open spec fn status_peer(key: Seq<u8>) -> Option<Seq<u8>> {
    match node::status_hex(watch::lossy_text(key)) {
        Some(hex) => parsed_key(hex),
        None => None,
    }
}

/// The status that the heads of a key say.
pub open spec fn read_status(heads: Seq<HeadModel>) -> Option<PeerStatus> {
    match head::live_head(heads) {
        Some(h) => PeerStatus::of_word(watch::lossy_text(h.value)),
        None => None,
    }
}

/// The peers once those that a store knows have become known.
pub open spec fn initial_peers(m: PeersModel, pairs: Seq<(Seq<u8>, Seq<HeadModel>)>) -> PeersModel
    decreases pairs.len(),
{
    if pairs.len() == 0 {
        m
    } else {
        let before = initial_peers(m, pairs.drop_last());
        match (status_peer(pairs.last().0), read_status(pairs.last().1)) {
            (Some(peer), Some(status)) => PeersModel {
                statuses: before.statuses.insert(peer, status),
                events: before.events.push(PeerEventModel::Added(peer, status)),
                ..before
            },
            _ => before,
        }
    }
}

/// The news that a peer has a status now.
pub open spec fn status_news(
    statuses: Map<Seq<u8>, PeerStatus>,
    peer: Seq<u8>,
    status: PeerStatus,
) -> Seq<PeerEventModel> {
    if !statuses.dom().contains(peer) {
        seq![PeerEventModel::Added(peer, status)]
    } else if statuses[peer] != status {
        seq![PeerEventModel::StatusChanged(peer, statuses[peer], status)]
    } else {
        Seq::empty()
    }
}

/// The peers once something has happened to a key.
pub open spec fn peer_changed(m: PeersModel, event: WatchModel) -> PeersModel {
    match status_peer(event.key) {
        None => m,
        Some(peer) => match event.kind {
            KindModel::Update(heads) => match read_status(heads) {
                Some(status) => PeersModel {
                    statuses: m.statuses.insert(peer, status),
                    events: m.events + status_news(m.statuses, peer, status),
                    ..m
                },
                None => m,
            },
            KindModel::Delete => if m.statuses.dom().contains(peer) {
                PeersModel {
                    statuses: m.statuses.remove(peer),
                    events: m.events.push(PeerEventModel::Removed(peer)),
                    ..m
                }
            } else {
                m
            },
        },
    }
}

/// Once a status has been written, the peer has it; other peers keep theirs.
pub proof fn law_written_status_is_known(
    m: PeersModel,
    event: WatchModel,
    peer: Seq<u8>,
    status: PeerStatus,
    other: Seq<u8>,
)
    requires
        status_peer(event.key) == Some(peer),
        event.kind matches KindModel::Update(heads) && read_status(heads) == Some(status),
        other != peer,
    ensures
        peer_changed(m, event).statuses.dom().contains(peer),
        peer_changed(m, event).statuses[peer] == status,
        peer_changed(m, event).statuses.dom().contains(other) == m.statuses.dom().contains(other),
        m.statuses.dom().contains(other) ==> peer_changed(m, event).statuses[other]
            == m.statuses[other],
{
}

/// The peers once several things have happened to keys, one after the other.
pub open spec fn peers_changed(m: PeersModel, events: Seq<WatchModel>) -> PeersModel
    decreases events.len(),
{
    if events.len() == 0 {
        m
    } else {
        peer_changed(peers_changed(m, events.drop_last()), events.last())
    }
}

/// What is told twice changes nothing the second time.
pub proof fn law_status_change_is_told_once(m: PeersModel, event: WatchModel)
    ensures
        peer_changed(peer_changed(m, event), event) == peer_changed(m, event),
{
    let once = peer_changed(m, event);
    let twice = peer_changed(once, event);
    assert(twice.statuses =~= once.statuses);
    assert(twice.events =~= once.events);
}

/// The peers of a mesh: their statuses, as the keys of the mesh's root store say.
pub struct PeerManager {
    statuses: Table<PeerStatus>,
    trusted: ByteTable,
    events: Vec<PeerEvent>,
}

impl View for PeerManager {
    type V = PeersModel;

    closed spec fn view(&self) -> PeersModel {
        PeersModel {
            statuses: self.statuses@,
            trusted: self.trusted@.dom(),
            events: message::models(self.events@),
        }
    }
}

/// The peer whose status a key of the store holds.
fn peer_of_key(key: &[u8]) -> (r: Option<PubKey>)
    ensures
        match status_peer(key@) {
            Some(p) => r matches Some(x) && x@ == p,
            None => r is None,
        },
{
    match parse_peer_status_key(key) {
        Some(hex) => key_of_hex(hex.as_str()),
        None => None,
    }
}

/// The status that the heads of a key say.
fn status_of_heads(heads: &Vec<Head>) -> (r: Option<PeerStatus>)
    ensures
        r == read_status(head::head_models(heads@)),
{
    match lww_head(heads.as_slice()) {
        Some(winner) => {
            let word = to_lossy_text(winner.value.as_slice());
            PeerStatus::from_str(word.as_str())
        },
        None => None,
    }
}

impl PeerManager {
    /// The tables are well formed, and all peers are public keys.
    pub closed spec fn wf(&self) -> bool {
        &&& self.statuses.wf()
        &&& self.trusted.wf()
        &&& forall|k: Seq<u8>| #[trigger] self.statuses@.dom().contains(k) ==> k.len() == 32
    }

    /// A manager that knows nobody.
    fn empty() -> (r: Self)
        ensures
            r.wf(),
            r@ == (PeersModel {
                statuses: Map::empty(),
                trusted: Set::empty(),
                events: Seq::empty(),
            }),
    {
        let r = PeerManager {
            statuses: Table::new(),
            trusted: ByteTable::new(),
            events: Vec::new(),
        };
        assert(r@ =~= (PeersModel {
            statuses: Map::empty(),
            trusted: Set::empty(),
            events: Seq::empty(),
        }));
        r
    }

    /// A manager that knows the peers that a store knows: `initial` are the keys
    /// of the store, with their heads, that hold statuses of peers.
    pub fn new(initial: &Vec<(Vec<u8>, Vec<Head>)>) -> (r: Self)
        ensures
            r.wf(),
            r@ == initial_peers(
                PeersModel { statuses: Map::empty(), trusted: Set::empty(), events: Seq::empty() },
                state::heads_pairs(initial@),
            ),
    {
        let mut r = PeerManager::empty();
        let ghost start = r@;
        let ghost pairs = state::heads_pairs(initial@);
        let mut i: usize = 0;
        assert(pairs.take(0) =~= Seq::empty());
        while i < initial.len()
            invariant
                r.wf(),
                i <= initial@.len(),
                pairs == state::heads_pairs(initial@),
                r@ == initial_peers(start, pairs.take(i as int)),
            decreases initial@.len() - i,
        {
            let (key, heads) = &initial[i];
            let ghost before = r@;
            proof {
                assert(pairs.take(i + 1).drop_last() =~= pairs.take(i as int));
                assert(pairs.take(i + 1).last() == (key@, head::head_models(heads@)));
            }
            match (peer_of_key(key.as_slice()), status_of_heads(heads)) {
                (Some(pubkey), Some(status)) => {
                    r.statuses.insert(pubkey.as_slice(), status);
                    r.tell(PeerEvent::Added { pubkey, status });
                    assert(r@ =~= (PeersModel {
                        statuses: before.statuses.insert(pubkey@, status),
                        events: before.events.push(PeerEventModel::Added(pubkey@, status)),
                        ..before
                    }));
                },
                _ => {},
            }
            i += 1;
        }
        assert(pairs.take(i as int) =~= pairs);
        r
    }

    fn tell(&mut self, event: PeerEvent)
        requires
            old(self).wf(),
        ensures
            final(self).wf(),
            final(self)@ == (PeersModel {
                events: old(self)@.events.push(event@),
                ..old(self)@
            }),
    {
        let ghost start = self@;
        let ghost before = self.events@;
        self.events.push(event);
        proof {
            assert(message::models(self.events@) =~= message::models(before).push(event@));
            assert(self@ =~= (PeersModel { events: start.events.push(event@), ..start }));
        }
    }

    /// Takes in what happened to a key of the store.
    pub fn on_watch_event(&mut self, event: &WatchEvent)
        requires
            old(self).wf(),
        ensures
            final(self).wf(),
            final(self)@ == peer_changed(old(self)@, event@),
    {
        let ghost start = self@;
        let pubkey = match peer_of_key(event.key.as_slice()) {
            Some(pubkey) => pubkey,
            None => {
                return ;
            },
        };
        match &event.kind {
            WatchEventKind::Update { heads } => {
                let status = match status_of_heads(heads) {
                    Some(status) => status,
                    None => {
                        return ;
                    },
                };
                let old_status = self.get_peer_status(&pubkey);
                self.statuses.insert(pubkey.as_slice(), status);
                assert(self@ =~= (PeersModel {
                    statuses: start.statuses.insert(pubkey@, status),
                    ..start
                }));
                match old_status {
                    Some(old) => {
                        if old != status {
                            self.tell(PeerEvent::StatusChanged { pubkey, old, new: status });
                        }
                    },
                    None => {
                        self.tell(PeerEvent::Added { pubkey, status });
                    },
                }
                assert(self@ =~= peer_changed(start, event@));
            },
            WatchEventKind::Delete => {
                if self.statuses.contains(pubkey.as_slice()) {
                    let _ = self.statuses.take(pubkey.as_slice());
                    assert(self@ =~= (PeersModel {
                        statuses: start.statuses.remove(pubkey@),
                        ..start
                    }));
                    self.tell(PeerEvent::Removed { pubkey });
                }
                assert(self@ =~= peer_changed(start, event@));
            },
        }
    }

    /// Takes in what happened to several keys, one after the other.
    pub fn on_watch_events(&mut self, events: &Vec<WatchEvent>)
        requires
            old(self).wf(),
        ensures
            final(self).wf(),
            final(self)@ == peers_changed(old(self)@, message::models(events@)),
    {
        let ghost start = self@;
        let ghost all = message::models(events@);
        let mut i: usize = 0;
        assert(all.take(0) =~= Seq::empty());
        while i < events.len()
            invariant
                self.wf(),
                i <= events@.len(),
                all == message::models(events@),
                self@ == peers_changed(start, all.take(i as int)),
            decreases events@.len() - i,
        {
            proof {
                assert(all.take(i + 1).drop_last() =~= all.take(i as int));
                assert(all.take(i + 1).last() == events@[i as int]@);
            }
            self.on_watch_event(&events[i]);
            i += 1;
        }
        assert(all.take(i as int) =~= all);
    }

    /// The status of a peer.
    pub fn get_peer_status(&self, pubkey: &PubKey) -> (r: Option<PeerStatus>)
        requires
            self.wf(),
        ensures
            r == if self@.statuses.dom().contains(pubkey@) {
                Some(self@.statuses[pubkey@])
            } else {
                None
            },
    {
        match self.statuses.get(pubkey.as_slice()) {
            Some(status) => Some(*status),
            None => None,
        }
    }

    /// The key and the value that give a peer a name.
    pub fn set_peer_name(pubkey: &PubKey, name: &str) -> (r: (Vec<u8>, Vec<u8>))
        ensures
            r.0@ == vstd::utf8::encode_utf8(peer_key(pubkey@, "name"@)),
            r.1@ == vstd::utf8::encode_utf8(name@),
    {
        attribute_write(pubkey, "name", name)
    }

    /// The key and the value that give a peer a status.
    pub fn set_peer_status(pubkey: &PubKey, status: PeerStatus) -> (r: (Vec<u8>, Vec<u8>))
        ensures
            r.0@ == vstd::utf8::encode_utf8(peer_key(pubkey@, "status"@)),
            r.1@ == vstd::utf8::encode_utf8(status.word()),
            status_peer(r.0@) == Some(pubkey@),
            PeerStatus::of_word(watch::lossy_text(r.1@)) == Some(status),
    {
        let r = attribute_write(pubkey, "status", status.as_str());
        proof {
            law_status_key_round_trip(pubkey@);
            crate::node_identity::law_status_round_trip(status);
            watch::law_text_is_read_back(peer_key(pubkey@, "status"@));
            watch::law_text_is_read_back(status.word());
        }
        r
    }

    /// The key and the value that make a peer active.
    pub fn activate_peer(pubkey: &PubKey) -> (r: (Vec<u8>, Vec<u8>))
        ensures
            r.0@ == vstd::utf8::encode_utf8(peer_key(pubkey@, "status"@)),
            r.1@ == vstd::utf8::encode_utf8("active"@),
            status_peer(r.0@) == Some(pubkey@),
            PeerStatus::of_word(watch::lossy_text(r.1@)) == Some(PeerStatus::Active),
    {
        PeerManager::set_peer_status(pubkey, PeerStatus::Active)
    }

    /// The key and the value that shut a peer out.
    pub fn revoke_peer(pubkey: &PubKey) -> (r: (Vec<u8>, Vec<u8>))
        ensures
            r.0@ == vstd::utf8::encode_utf8(peer_key(pubkey@, "status"@)),
            r.1@ == vstd::utf8::encode_utf8("revoked"@),
            status_peer(r.0@) == Some(pubkey@),
            PeerStatus::of_word(watch::lossy_text(r.1@)) == Some(PeerStatus::Revoked),
    {
        PeerManager::set_peer_status(pubkey, PeerStatus::Revoked)
    }

    /// What the store knows of a peer.
    pub fn get_peer(store: &StoreActor, pubkey: PubKey) -> (r: Result<
        Option<Peer>,
        PeerManagerError,
    >)
        requires
            store.wf(),
        ensures
            match model::heads_with_prefix(
                store@,
                vstd::utf8::encode_utf8(peer_prefix(pubkey@)),
            ) {
                Ok(pairs) => match peer_of(
                    pubkey@,
                    attributes_at(peer_prefix(pubkey@), pairs),
                ) {
                    Some(p) => r matches Ok(Some(x)) && x@ == p,
                    None => r matches Ok(None),
                },
                Err(f) => r matches Err(PeerManagerError::Store(t)) && t@ == f.text(),
            },
    {
        let prefix = prefix_of(&pubkey);
        match store.list_by_prefix(prefix.as_str().as_bytes()) {
            Ok(entries) => Ok(Peer::load(pubkey, &entries)),
            Err(e) => Err(PeerManagerError::Store(e.to_string())),
        }
    }

    /// Trusts the given authors, and no others, during the first sync.
    pub fn set_bootstrap_authors(&mut self, authors: &Vec<PubKey>)
        requires
            old(self).wf(),
        ensures
            final(self).wf(),
            final(self)@ == (PeersModel {
                trusted: entry::digests(authors@).to_set(),
                ..old(self)@
            }),
    {
        let ghost start = self@;
        let ghost all = entry::digests(authors@);
        self.trusted = ByteTable::new();
        let mut i: usize = 0;
        proof {
            assert(all.take(0).to_set() =~= Set::empty());
            assert(self.trusted@.dom() =~= Set::empty());
        }
        while i < authors.len()
            invariant
                self.wf(),
                i <= authors@.len(),
                all == entry::digests(authors@),
                self@ == (PeersModel { trusted: self.trusted@.dom(), ..start }),
                self.trusted@.dom() == all.take(i as int).to_set(),
            decreases authors@.len() - i,
        {
            self.trusted.insert(authors[i].as_slice(), Vec::new());
            proof {
                table::lemma_take_contains(all, i as int);
                assert(all.take(i + 1).to_set() =~= all.take(i as int).to_set().insert(
                    all[i as int],
                ));
                assert(self@ =~= (PeersModel { trusted: self.trusted@.dom(), ..start }));
            }
            i += 1;
        }
        assert(all.take(i as int) =~= all);
    }

    /// Trusts nobody beyond what the statuses say: the first sync is over.
    pub fn clear_bootstrap_authors(&mut self)
        requires
            old(self).wf(),
        ensures
            final(self).wf(),
            final(self)@ == (PeersModel { trusted: Set::empty(), ..old(self)@ }),
    {
        let ghost start = self@;
        self.trusted = ByteTable::new();
        assert(self.trusted@.dom() =~= Set::empty());
        assert(self@ =~= (PeersModel { trusted: Set::empty(), ..start }));
    }

    /// What there is to tell since it was last asked for.
    pub fn take_events(&mut self) -> (r: Vec<PeerEvent>)
        requires
            old(self).wf(),
        ensures
            final(self).wf(),
            message::models(r@) == old(self)@.events,
            final(self)@ == (PeersModel { events: Seq::empty(), ..old(self)@ }),
    {
        let ghost start = self@;
        let mut r: Vec<PeerEvent> = Vec::new();
        r.append(&mut self.events);
        proof {
            assert(message::models(r@) =~= start.events);
            assert(self@ =~= (PeersModel { events: Seq::empty(), ..start }));
        }
        r
    }
}

impl PeerProvider for PeerManager {
    open spec fn ready(&self) -> bool {
        self.wf()
    }

    open spec fn statuses(&self) -> Map<Seq<u8>, PeerStatus> {
        self@.statuses
    }

    open spec fn trusted(&self) -> Set<Seq<u8>> {
        self@.trusted
    }

    fn verify_peer_status(&self, pubkey: &PubKey, expected: &[PeerStatus]) -> (r: Result<
        (),
        StateError,
    >) {
        match self.get_peer_status(pubkey) {
            Some(status) => {
                let mut i: usize = 0;
                while i < expected.len()
                    invariant
                        i <= expected@.len(),
                        forall|k: int| 0 <= k < i ==> #[trigger] expected@[k] != status,
                        self.statuses().dom().contains(pubkey@),
                        status == self.statuses()[pubkey@],
                    decreases expected@.len() - i,
                {
                    if expected[i] == status {
                        assert(expected@[i as int] == status);
                        return Ok(());
                    }
                    i += 1;
                }
            },
            None => {},
        }
        Err(
            StateError::Unauthorized(
                "Peer ".to_owned().concat(hex_encode(pubkey.as_slice()).as_str()).concat(
                    " does not have an expected status",
                ),
            ),
        )
    }

    fn can_join(&self, peer: &PubKey) -> (r: bool) {
        match self.get_peer_status(peer) {
            Some(PeerStatus::Invited) | Some(PeerStatus::Active) => true,
            _ => false,
        }
    }

    fn can_connect(&self, peer: &PubKey) -> (r: bool) {
        if self.trusted.contains(peer.as_slice()) {
            return true;
        }
        match self.get_peer_status(peer) {
            Some(PeerStatus::Active) | Some(PeerStatus::Dormant) => true,
            _ => false,
        }
    }

    fn can_accept_entry(&self, author: &PubKey) -> (r: bool) {
        if self.trusted.contains(author.as_slice()) {
            return true;
        }
        match self.get_peer_status(author) {
            Some(PeerStatus::Active) | Some(PeerStatus::Dormant) | Some(
                PeerStatus::Revoked,
            ) => true,
            _ => false,
        }
    }

    fn list_acceptable_authors(&self) -> (r: Vec<PubKey>) {
        let ghost keys = self.statuses.keys();
        let ghost m = self@.statuses;
        let ghost keep = |a: Seq<u8>| auth::lets_entries_in(m[a]);
        let mut out: Vec<PubKey> = Vec::new();
        let mut i: usize = 0;
        proof {
            self.statuses.lemma_listed();
            reveal(Seq::filter);
            assert(keys.take(0).filter(keep) =~= Seq::empty());
            assert(entry::digests(out@) =~= Seq::empty());
        }
        while i < self.statuses.len()
            invariant
                self.wf(),
                keys == self.statuses.keys(),
                m == self@.statuses,
                table::lists(keys, m.dom()),
                keep == (|a: Seq<u8>| auth::lets_entries_in(m[a])),
                i <= keys.len(),
                entry::digests(out@) == keys.take(i as int).filter(keep),
            decreases keys.len() - i,
        {
            let ghost before = out@;
            proof {
                reveal(Seq::filter);
                assert(keys.contains(keys[i as int]));
                assert(m.dom().contains(keys[i as int]));
                assert(keys.take(i + 1).drop_last() =~= keys.take(i as int));
                assert(keys.take(i + 1).last() == keys[i as int]);
            }
            match *self.statuses.value_at(i) {
                PeerStatus::Active | PeerStatus::Dormant | PeerStatus::Revoked => {
                    let pubkey: PubKey = to_array32(self.statuses.key_at(i).as_slice());
                    out.push(pubkey);
                    assert(entry::digests(out@) =~= entry::digests(before).push(pubkey@));
                },
                PeerStatus::Invited => {},
            }
            i += 1;
        }
        assert(keys.take(i as int) =~= keys);
        out
    }
}

// ---------------------------------------------------------------------------
// Listing
// ---------------------------------------------------------------------------

/// Attributes under the public keys that they belong to, in hexadecimal notation.
pub type Grouped = Seq<(Seq<char>, Seq<(Seq<char>, Seq<char>)>)>;

/// The position of a public key among the groups.
pub open spec fn group_of(groups: Grouped, hex: Seq<char>) -> Option<int>
    decreases groups.len(),
{
    if groups.len() == 0 {
        None
    } else {
        match group_of(groups.drop_last(), hex) {
            Some(i) => Some(i),
            None => if groups.last().0 == hex {
                Some(groups.len() - 1)
            } else {
                None
            },
        }
    }
}

/// The groups with one more attribute.
pub open spec fn with_attribute(
    groups: Grouped,
    hex: Seq<char>,
    attribute: (Seq<char>, Seq<char>),
) -> Grouped {
    match group_of(groups, hex) {
        Some(i) => groups.update(i, (hex, groups[i].1.push(attribute))),
        None => groups.push((hex, seq![attribute])),
    }
}

/// The public key, the attribute and its value that an entry of the store says.
pub open spec fn node_attribute(key: Seq<u8>, heads: Seq<HeadModel>) -> Option<
    (Seq<char>, (Seq<char>, Seq<char>)),
> {
    match text::behind(watch::lossy_text(key), "/nodes/"@) {
        None => None,
        Some(rest) => match (text::around_slash(rest), head::live_head(heads)) {
            (Some((hex, name)), Some(h)) => Some((hex, (name, watch::lossy_text(h.value)))),
            _ => None,
        },
    }
}

/// The attributes that entries of the store say, by public keys.
pub open spec fn grouped(pairs: Seq<(Seq<u8>, Seq<HeadModel>)>) -> Grouped
    decreases pairs.len(),
{
    if pairs.len() == 0 {
        Seq::empty()
    } else {
        let before = grouped(pairs.drop_last());
        match node_attribute(pairs.last().0, pairs.last().1) {
            Some((hex, attribute)) => with_attribute(before, hex, attribute),
            None => before,
        }
    }
}

/// What is told of the peers among the groups.
pub open spec fn infos_of(groups: Grouped) -> Seq<PeerInfoModel>
    decreases groups.len(),
{
    if groups.len() == 0 {
        Seq::empty()
    } else {
        let before = infos_of(groups.drop_last());
        match parsed_key(groups.last().0) {
            Some(pubkey) => match peer_of(pubkey, groups.last().1) {
                Some(p) => before.push(peer_info(p)),
                None => before,
            },
            None => before,
        }
    }
}

/// The models of groups.
pub open spec fn group_models(v: Seq<(String, Vec<(String, String)>)>) -> Grouped {
    v.map_values(|g: (String, Vec<(String, String)>)| (g.0@, attribute_models(g.1@)))
}

proof fn lemma_group_of(groups: Grouped, hex: Seq<char>, at: int)
    requires
        0 <= at <= groups.len(),
        forall|i: int| 0 <= i < at ==> (#[trigger] groups[i]).0 != hex,
        at < groups.len() ==> groups[at].0 == hex,
    ensures
        group_of(groups, hex) == if at < groups.len() {
            Some(at)
        } else {
            None
        },
    decreases groups.len(),
{
    if groups.len() > 0 {
        let before = groups.drop_last();
        assert forall|i: int| 0 <= i < at && i < before.len() implies (
        #[trigger] before[i]).0 != hex by {
            assert(groups[i].0 != hex);
        }
        if at < groups.len() - 1 {
            assert(before[at] == groups[at]);
            lemma_group_of(before, hex, at);
        } else {
            lemma_group_of(before, hex, before.len() as int);
            if at == groups.len() {
                assert(groups[groups.len() - 1].0 != hex);
            }
        }
    }
}

/// Adds an attribute to the groups.
fn add_attribute(
    groups: &mut Vec<(String, Vec<(String, String)>)>,
    hex: &str,
    name: &str,
    value: String,
)
    ensures
        group_models(final(groups)@) == with_attribute(
            group_models(old(groups)@),
            hex@,
            (name@, value@),
        ),
{
    let ghost start = group_models(groups@);
    let ghost attribute = (name@, value@);
    let mut i: usize = 0;
    while i < groups.len() && !str_eq(groups[i].0.as_str(), hex)
        invariant
            i <= groups@.len(),
            start == group_models(groups@),
            forall|k: int| 0 <= k < i ==> (#[trigger] start[k]).0 != hex@,
        decreases groups@.len() - i,
    {
        i += 1;
    }
    proof {
        lemma_group_of(start, hex@, i as int);
    }
    if i < groups.len() {
        let ghost before = groups@;
        let mut attrs: Vec<(String, String)> = Vec::new();
        std::mem::swap(&mut attrs, &mut groups[i].1);
        let ghost so_far = attrs@;
        attrs.push((name.to_owned(), value));
        proof {
            assert(attribute_models(attrs@) =~= attribute_models(so_far).push(attribute));
        }
        let ghost grown = attribute_models(attrs@);
        std::mem::swap(&mut attrs, &mut groups[i].1);
        proof {
            assert(start[i as int] == (before[i as int].0@, attribute_models(before[i as int].1@)));
            assert(group_models(groups@) =~= start.update(i as int, (hex@, grown)));
        }
    } else {
        let ghost before = groups@;
        let mut attrs: Vec<(String, String)> = Vec::new();
        attrs.push((name.to_owned(), value));
        assert(attribute_models(attrs@) =~= seq![attribute]);
        let owned = hex.to_owned();
        let ghost x = (hex@, attribute_models(attrs@));
        groups.push((owned, attrs));
        assert(group_models(groups@) =~= start.push(x));
    }
}

impl PeerManager {
    /// The peers that the entries of a store under `/nodes/` describe, in the
    /// order in which their keys come.
    pub fn list_peers(nodes: &Vec<(Vec<u8>, Vec<Head>)>) -> (r: Vec<PeerInfo>)
        ensures
            message::models(r@) == infos_of(grouped(state::heads_pairs(nodes@))),
    {
        let ghost pairs = state::heads_pairs(nodes@);
        let mut groups: Vec<(String, Vec<(String, String)>)> = Vec::new();
        let mut i: usize = 0;
        proof {
            assert(pairs.take(0) =~= Seq::empty());
            assert(group_models(groups@) =~= Seq::empty());
        }
        while i < nodes.len()
            invariant
                i <= nodes@.len(),
                pairs == state::heads_pairs(nodes@),
                group_models(groups@) == grouped(pairs.take(i as int)),
            decreases nodes@.len() - i,
        {
            let (key, heads) = &nodes[i];
            proof {
                assert(pairs.take(i + 1).drop_last() =~= pairs.take(i as int));
                assert(pairs.take(i + 1).last() == (key@, head::head_models(heads@)));
            }
            let key_text = to_lossy_text(key.as_slice());
            match strip_prefix(key_text.as_str(), "/nodes/") {
                Some(rest) => match split_at_slash(rest) {
                    Some((hex, name)) => match lww(heads.as_slice()) {
                        Some(value) => {
                            let value_text = to_lossy_text(value.as_slice());
                            add_attribute(&mut groups, hex, name, value_text);
                        },
                        None => {},
                    },
                    None => {},
                },
                None => {},
            }
            i += 1;
        }
        assert(pairs.take(i as int) =~= pairs);
        let ghost all = group_models(groups@);
        let mut out: Vec<PeerInfo> = Vec::new();
        let mut j: usize = 0;
        proof {
            assert(all.take(0) =~= Seq::empty());
            assert(message::models(out@) =~= Seq::empty());
        }
        while j < groups.len()
            invariant
                j <= groups@.len(),
                all == group_models(groups@),
                message::models(out@) == infos_of(all.take(j as int)),
            decreases groups@.len() - j,
        {
            let (hex, attrs) = &groups[j];
            let ghost before = out@;
            proof {
                assert(all.take(j + 1).drop_last() =~= all.take(j as int));
                assert(all.take(j + 1).last() == (hex@, attribute_models(attrs@)));
            }
            match key_of_hex(hex.as_str()) {
                Some(pubkey) => match Peer::from_attributes(pubkey, attrs) {
                    Some(peer) => {
                        let info = peer.to_info();
                        let ghost x = info@;
                        out.push(info);
                        assert(message::models(out@) =~= message::models(before).push(x));
                    },
                    None => {},
                },
                None => {},
            }
            j += 1;
        }
        assert(all.take(j as int) =~= all);
        out
    }
}

/// What an update of a peer's status does: the peer has the status, and nobody else's
/// changes. It is told as an addition where the peer had none, as a change from the old to
/// the new one where it had another, and not at all where it had this one. A deletion takes
/// the status away and is told where there was one. Keys that are no status change nothing.
pub proof fn law_status_follows_its_key(
    m: PeersModel,
    event: WatchModel,
    peer: Seq<u8>,
    status: PeerStatus,
    other: Seq<u8>,
)
    requires
        other != peer,
    ensures
        status_peer(event.key) is None ==> peer_changed(m, event) == m,
        status_peer(event.key) == Some(peer) ==> {
            let after = peer_changed(m, event);
            &&& after.trusted == m.trusted
            &&& after.statuses.dom().contains(other) == m.statuses.dom().contains(other)
            &&& after.statuses[other] == m.statuses[other]
            &&& (event.kind matches KindModel::Update(heads) && read_status(heads) == Some(status))
                ==> {
                &&& after.statuses.dom().contains(peer) && after.statuses[peer] == status
                &&& !m.statuses.dom().contains(peer) ==> after.events == m.events.push(
                    PeerEventModel::Added(peer, status),
                )
                &&& m.statuses.dom().contains(peer) && m.statuses[peer] != status ==> after.events
                    == m.events.push(
                    PeerEventModel::StatusChanged(peer, m.statuses[peer], status),
                )
                &&& m.statuses.dom().contains(peer) && m.statuses[peer] == status ==> after.events
                    == m.events
            }
            &&& event.kind is Delete ==> {
                &&& !after.statuses.dom().contains(peer)
                &&& m.statuses.dom().contains(peer) ==> after.events == m.events.push(
                    PeerEventModel::Removed(peer),
                )
                &&& !m.statuses.dom().contains(peer) ==> after == m
            }
        },
{
    if status_peer(event.key) == Some(peer) {
        if let KindModel::Update(heads) = event.kind {
            if let Some(s) = read_status(heads) {
                let after = peer_changed(m, event);
                assert(m.events + seq![PeerEventModel::Added(peer, s)] =~= m.events.push(
                    PeerEventModel::Added(peer, s),
                ));
                assert(m.events + seq![PeerEventModel::StatusChanged(peer, m.statuses[peer], s)]
                    =~= m.events.push(PeerEventModel::StatusChanged(peer, m.statuses[peer], s)));
                assert(m.events + Seq::<PeerEventModel>::empty() =~= m.events);
            }
        }
    }
}

/// A peer's status is read from the value of the key's latest head, unless that marks a
/// deletion.
pub proof fn law_status_is_of_the_latest_head(heads: Seq<HeadModel>)
    ensures
        read_status(heads) matches Some(s) ==> exists|k: int|
            0 <= k < heads.len() && !(#[trigger] heads[k]).tombstone && PeerStatus::of_word(
                watch::lossy_text(heads[k].value),
            ) == Some(s) && forall|i: int|
                0 <= i < heads.len() ==> (#[trigger] heads[i]).hlc.wall_time
                    <= heads[k].hlc.wall_time,
        heads.len() == 0 ==> read_status(heads) is None,
{
    head::law_value_is_the_latest(heads);
    if let Some(h) = head::live_head(heads) {
        let k = heads.index_of(h);
        assert(heads[k] == h);
    }
}

/// At the start, every peer whose status can be read from a listed key has that status,
/// which was told as an addition; with several keys of one peer, it is that of the last.
pub proof fn law_listed_peers_are_known(
    m: PeersModel,
    pairs: Seq<(Seq<u8>, Seq<HeadModel>)>,
    i: int,
    peer: Seq<u8>,
    status: PeerStatus,
)
    requires
        0 <= i < pairs.len(),
        status_peer(pairs[i].0) == Some(peer),
        read_status(pairs[i].1) == Some(status),
        forall|j: int|
            i < j < pairs.len() ==> status_peer((#[trigger] pairs[j]).0) != Some(peer)
                || read_status(pairs[j].1) is None,
    ensures
        initial_peers(m, pairs).statuses.dom().contains(peer),
        initial_peers(m, pairs).statuses[peer] == status,
        initial_peers(m, pairs).events.contains(PeerEventModel::Added(peer, status)),
        initial_peers(m, pairs).trusted == m.trusted,
    decreases pairs.len(),
{
    let before = pairs.drop_last();
    lemma_trusted_stays(m, before);
    if i < pairs.len() - 1 {
        assert forall|j: int| i < j < before.len() implies status_peer((#[trigger] before[j]).0)
            != Some(peer) || read_status(before[j].1) is None by {
            assert(before[j] == pairs[j]);
        }
        law_listed_peers_are_known(m, before, i, peer, status);
        assert(status_peer(pairs[pairs.len() - 1].0) != Some(peer) || read_status(
            pairs[pairs.len() - 1].1,
        ) is None);
        let old_events = initial_peers(m, before).events;
        let new_events = initial_peers(m, pairs).events;
        let k = old_events.index_of(PeerEventModel::Added(peer, status));
        assert(new_events[k] == PeerEventModel::Added(peer, status));
    } else {
        let events = initial_peers(m, pairs).events;
        assert(events[events.len() - 1] == PeerEventModel::Added(peer, status));
    }
}

proof fn lemma_trusted_stays(m: PeersModel, pairs: Seq<(Seq<u8>, Seq<HeadModel>)>)
    ensures
        initial_peers(m, pairs).trusted == m.trusted,
    decreases pairs.len(),
{
    if pairs.len() > 0 {
        lemma_trusted_stays(m, pairs.drop_last());
    }
}

/// Nobody is known at the start but those of whom a listed key tells a status.
pub proof fn law_only_listed_peers_are_known(
    m: PeersModel,
    pairs: Seq<(Seq<u8>, Seq<HeadModel>)>,
    peer: Seq<u8>,
)
    requires
        forall|j: int|
            0 <= j < pairs.len() ==> status_peer((#[trigger] pairs[j]).0) != Some(peer)
                || read_status(pairs[j].1) is None,
    ensures
        initial_peers(m, pairs).statuses.dom().contains(peer) == m.statuses.dom().contains(peer),
        initial_peers(m, pairs).statuses[peer] == m.statuses[peer],
    decreases pairs.len(),
{
    if pairs.len() > 0 {
        let before = pairs.drop_last();
        assert forall|j: int| 0 <= j < before.len() implies status_peer((#[trigger] before[j]).0)
            != Some(peer) || read_status(before[j].1) is None by {
            assert(before[j] == pairs[j]);
        }
        law_only_listed_peers_are_known(m, before, peer);
        assert(status_peer(pairs[pairs.len() - 1].0) != Some(peer) || read_status(
            pairs[pairs.len() - 1].1,
        ) is None);
    }
}

/// The attributes of a peer are exactly those of the keys behind the peer's prefix that have
/// a value: what follows the prefix, with the value.
pub proof fn law_attributes_are_of_the_keys(
    prefix: Seq<char>,
    pairs: Seq<(Seq<u8>, Seq<HeadModel>)>,
    name: Seq<char>,
    value: Seq<char>,
)
    ensures
        attributes_at(prefix, pairs).contains((name, value)) <==> exists|i: int|
            0 <= i < pairs.len() && watch::lossy_text((#[trigger] pairs[i]).0) == prefix + name && (
            head::live_head(pairs[i].1) matches Some(h) && watch::lossy_text(h.value) == value),
    decreases pairs.len(),
{
    if pairs.len() > 0 {
        let before = pairs.drop_last();
        let x = pairs.last();
        law_attributes_are_of_the_keys(prefix, before, name, value);
        let q = attributes_at(prefix, before);
        let r = attributes_at(prefix, pairs);
        let t = watch::lossy_text(x.0);
        assert(text::behind(t, prefix) == Some(name) <==> t == prefix + name) by {
            if t == prefix + name {
                assert(t.subrange(0, prefix.len() as int) =~= prefix);
                assert(t.skip(prefix.len() as int) =~= name);
            }
            if text::behind(t, prefix) == Some(name) {
                assert(t =~= prefix + name);
            }
        }
        if q.contains((name, value)) {
            assert(r[q.index_of((name, value))] == (name, value));
            let i = choose|i: int|
                0 <= i < before.len() && watch::lossy_text((#[trigger] before[i]).0) == prefix
                    + name && (head::live_head(before[i].1) matches Some(h) && watch::lossy_text(
                    h.value,
                ) == value);
            assert(pairs[i] == before[i]);
        }
        if r.contains((name, value)) {
            let i = r.index_of((name, value));
            if i < q.len() {
                assert(q[i] == (name, value));
            } else {
                assert(pairs[pairs.len() - 1] == x);
            }
        }
        assert forall|i: int|
            0 <= i < pairs.len() && watch::lossy_text((#[trigger] pairs[i]).0) == prefix + name && (
            head::live_head(pairs[i].1) matches Some(h) && watch::lossy_text(h.value)
                == value) implies r.contains((name, value)) by {
            if i < before.len() {
                assert(before[i] == pairs[i]);
            } else {
                assert(r[r.len() - 1] == (name, value));
            }
        }
    }
}

/// What is written of a peer: the status in any case, and the name, the time and the one who
/// added it where they are known.
pub proof fn law_attributes_hold_the_peer(p: PeerModel)
    ensures
        ({
            let a = peer_attributes(p);
            &&& a[0] == ("status"@, p.status.word())
            &&& p.name matches Some(n) ==> a.contains(("name"@, n))
            &&& p.added_at matches Some(t) ==> a.contains(
                ("added_at"@, text::decimal_text(t as nat)),
            )
            &&& p.added_by matches Some(k) ==> a.contains(("added_by"@, text::hex_text(k)))
            &&& a.len() == 1 + (if p.name is Some {
                1int
            } else {
                0
            }) + (if p.added_at is Some {
                1int
            } else {
                0
            }) + (if p.added_by is Some {
                1int
            } else {
                0
            })
        }),
{
    let a = peer_attributes(p);
    if p.name is Some {
        assert(a[1] == ("name"@, p.name->0));
    }
    if p.added_by is Some {
        assert(a[a.len() - 1] == ("added_by"@, text::hex_text(p.added_by->0)));
    }
    if let Some(t) = p.added_at {
        let x = ("added_at"@, text::decimal_text(t as nat));
        if p.added_by is Some {
            assert(a[a.len() - 2] == x);
        } else {
            assert(a[a.len() - 1] == x);
        }
    }
}

/// What is written under a peer's keys: every attribute under the path of the peer and the
/// attribute's name.
pub proof fn law_peer_writes_are_under_its_path(
    pubkey: Seq<u8>,
    attrs: Seq<(Seq<char>, Seq<char>)>,
    i: int,
)
    requires
        0 <= i < attrs.len(),
    ensures
        peer_writes(pubkey, attrs).len() == attrs.len(),
        peer_writes(pubkey, attrs)[i].0 == vstd::utf8::encode_utf8(
            "/nodes/"@ + text::hex_text(pubkey) + "/"@ + attrs[i].0,
        ),
        peer_writes(pubkey, attrs)[i].1 == vstd::utf8::encode_utf8(attrs[i].1),
{
}

/// What is told of a peer is what is known of it.
pub proof fn law_peer_info_is_of_the_peer(p: PeerModel)
    ensures
        peer_info(p).pubkey == p.pubkey,
        peer_info(p).status == p.status,
        peer_info(p).name == p.name,
        peer_info(p).added_at == p.added_at,
        p.added_by matches Some(k) ==> peer_info(p).added_by == Some(text::hex_text(k)),
        p.added_by is None ==> peer_info(p).added_by is None,
{
}

/// Groups are one for every name, and each holds exactly the attributes that listed keys
/// tell of it.
pub proof fn law_groups_hold_their_attributes(
    pairs: Seq<(Seq<u8>, Seq<HeadModel>)>,
    hex: Seq<char>,
    a: (Seq<char>, Seq<char>),
)
    ensures
        ({
            let g = grouped(pairs);
            let told = exists|j: int|
                0 <= j < pairs.len() && #[trigger] node_attribute(pairs[j].0, pairs[j].1) == Some(
                    (hex, a),
                );
            &&& told <==> exists|i: int|
                0 <= i < g.len() && (#[trigger] g[i]).0 == hex && g[i].1.contains(a)
            &&& forall|i: int, j: int|
                0 <= i < j < g.len() ==> (#[trigger] g[i]).0 != (#[trigger] g[j]).0
        }),
    decreases pairs.len(),
{
    if pairs.len() > 0 {
        let before = pairs.drop_last();
        let x = pairs.last();
        law_groups_hold_their_attributes(before, hex, a);
        let q = grouped(before);
        let g = grouped(pairs);
        let told_before = exists|j: int|
            0 <= j < before.len() && #[trigger] node_attribute(before[j].0, before[j].1) == Some(
                (hex, a),
            );
        let told = exists|j: int|
            0 <= j < pairs.len() && #[trigger] node_attribute(pairs[j].0, pairs[j].1) == Some(
                (hex, a),
            );
        let last = node_attribute(x.0, x.1);
        assert(told <==> told_before || last == Some((hex, a))) by {
            if told_before {
                let j = choose|j: int|
                    0 <= j < before.len() && #[trigger] node_attribute(before[j].0, before[j].1)
                        == Some((hex, a));
                assert(pairs[j] == before[j]);
                assert(node_attribute(pairs[j].0, pairs[j].1) == Some((hex, a)));
            }
            if told {
                let j = choose|j: int|
                    0 <= j < pairs.len() && #[trigger] node_attribute(pairs[j].0, pairs[j].1)
                        == Some((hex, a));
                if j < before.len() {
                    assert(pairs[j] == before[j]);
                    assert(node_attribute(before[j].0, before[j].1) == Some((hex, a)));
                }
            }
            assert(pairs[pairs.len() - 1] == x);
            assert(node_attribute(pairs[pairs.len() - 1].0, pairs[pairs.len() - 1].1) == last);
        }
        if let Some((h, b)) = last {
            lemma_group_is_of(q, h);
            lemma_with_attribute(q, h, b, hex, a);
        }
    }
}

proof fn lemma_group_is_of(groups: Grouped, hex: Seq<char>)
    ensures
        match group_of(groups, hex) {
            Some(i) => 0 <= i < groups.len() && groups[i].0 == hex,
            None => forall|i: int| 0 <= i < groups.len() ==> (#[trigger] groups[i]).0 != hex,
        },
    decreases groups.len(),
{
    if groups.len() > 0 {
        let before = groups.drop_last();
        lemma_group_is_of(before, hex);
        assert forall|i: int| 0 <= i < before.len() implies #[trigger] groups[i] == before[i] by {}
    }
}

proof fn lemma_with_attribute(
    q: Grouped,
    h: Seq<char>,
    b: (Seq<char>, Seq<char>),
    hex: Seq<char>,
    a: (Seq<char>, Seq<char>),
)
    requires
        forall|i: int, j: int|
            0 <= i < j < q.len() ==> (#[trigger] q[i]).0 != (#[trigger] q[j]).0,
    ensures
        ({
            let g = with_attribute(q, h, b);
            &&& (exists|i: int|
                0 <= i < g.len() && (#[trigger] g[i]).0 == hex && g[i].1.contains(a)) <==> (exists|
                i: int,
            |
                0 <= i < q.len() && (#[trigger] q[i]).0 == hex && q[i].1.contains(a)) || (h == hex
                && a == b)
            &&& forall|i: int, j: int|
                0 <= i < j < g.len() ==> (#[trigger] g[i]).0 != (#[trigger] g[j]).0
        }),
{
    let g = with_attribute(q, h, b);
    lemma_group_is_of(q, h);
    match group_of(q, h) {
        Some(n) => {
            let more = q[n].1.push(b);
            assert(g[n].1 == more);
            assert(more.contains(b)) by {
                assert(more[more.len() - 1] == b);
            }
            assert forall|y: (Seq<char>, Seq<char>)| #[trigger] more.contains(y) <==> q[n].1.contains(
                y,
            ) || y == b by {
                if more.contains(y) && y != b {
                    assert(q[n].1[more.index_of(y)] == y);
                }
                if q[n].1.contains(y) {
                    assert(more[q[n].1.index_of(y)] == y);
                }
            }
            if exists|i: int| 0 <= i < q.len() && (#[trigger] q[i]).0 == hex && q[i].1.contains(a) {
                let i = choose|i: int|
                    0 <= i < q.len() && (#[trigger] q[i]).0 == hex && q[i].1.contains(a);
                assert(g[i].0 == hex && g[i].1.contains(a));
            }
            if exists|i: int| 0 <= i < g.len() && (#[trigger] g[i]).0 == hex && g[i].1.contains(a) {
                let i = choose|i: int|
                    0 <= i < g.len() && (#[trigger] g[i]).0 == hex && g[i].1.contains(a);
                assert(q[i].0 == hex);
            }
            if h == hex && a == b {
                assert(g[n].0 == hex && g[n].1.contains(a));
            }
            assert forall|i: int, j: int| 0 <= i < j < g.len() implies (#[trigger] g[i]).0 != (
            #[trigger] g[j]).0 by {
                assert(g[i].0 == q[i].0 && g[j].0 == q[j].0);
            }
        },
        None => {
            assert(g == q.push((h, seq![b])));
            assert(g[q.len() as int] == (h, seq![b]));
            assert(seq![b].contains(b)) by {
                assert(seq![b][0] == b);
            }
            if exists|i: int| 0 <= i < q.len() && (#[trigger] q[i]).0 == hex && q[i].1.contains(a) {
                let i = choose|i: int|
                    0 <= i < q.len() && (#[trigger] q[i]).0 == hex && q[i].1.contains(a);
                assert(g[i].0 == hex && g[i].1.contains(a));
            }
            if exists|i: int| 0 <= i < g.len() && (#[trigger] g[i]).0 == hex && g[i].1.contains(a) {
                let i = choose|i: int|
                    0 <= i < g.len() && (#[trigger] g[i]).0 == hex && g[i].1.contains(a);
                if i < q.len() {
                    assert(q[i] == g[i]);
                } else {
                    assert(seq![b].contains(a));
                    assert(seq![b][seq![b].index_of(a)] == a);
                }
            }
            assert forall|i: int, j: int| 0 <= i < j < g.len() implies (#[trigger] g[i]).0 != (
            #[trigger] g[j]).0 by {
                assert(g[i] == q[i]);
                if j < q.len() {
                    assert(g[j] == q[j]);
                }
            }
        },
    }
}

/// The peers that are listed are exactly those of the groups whose name is a public key and
/// whose attributes make a peer.
pub proof fn law_listed_peers_are_of_the_groups(groups: Grouped, x: PeerInfoModel)
    ensures
        infos_of(groups).contains(x) <==> exists|i: int|
            0 <= i < groups.len() && (parsed_key((#[trigger] groups[i]).0) matches Some(k) && (
            peer_of(k, groups[i].1) matches Some(p) && x == peer_info(p))),
    decreases groups.len(),
{
    if groups.len() > 0 {
        let before = groups.drop_last();
        law_listed_peers_are_of_the_groups(before, x);
        let q = infos_of(before);
        let r = infos_of(groups);
        if q.contains(x) {
            assert(r[q.index_of(x)] == x);
            let i = choose|i: int|
                0 <= i < before.len() && (parsed_key((#[trigger] before[i]).0) matches Some(k) && (
                peer_of(k, before[i].1) matches Some(p) && x == peer_info(p)));
            assert(groups[i] == before[i]);
        }
        if r.contains(x) {
            let i = r.index_of(x);
            if i < q.len() {
                assert(q[i] == x);
            } else {
                assert(groups[groups.len() - 1] == groups.last());
            }
        }
        assert forall|i: int|
            0 <= i < groups.len() && (parsed_key((#[trigger] groups[i]).0) matches Some(k) && (
            peer_of(k, groups[i].1) matches Some(p) && x == peer_info(p))) implies r.contains(
            x,
        ) by {
            if i < before.len() {
                assert(before[i] == groups[i]);
            } else {
                assert(r[r.len() - 1] == x);
            }
        }
    }
}

} // verus!
