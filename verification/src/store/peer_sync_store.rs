//! What every peer last said of its chains.
use crate::bytes::{to_array32, PubKey};
use crate::message;
use crate::proto::storage::{PeerSyncInfo, PeerSyncInfoModel};
use crate::table;
use crate::table::ByteTable;
use vstd::prelude::*;

verus! {

/// What a peer last said, where it was stored and can be read.
pub open spec fn peer_info_at(m: Map<Seq<u8>, Seq<u8>>, peer: Seq<u8>) -> Option<
    PeerSyncInfoModel,
> {
    if m.dom().contains(peer) {
        message::decoded::<PeerSyncInfo>(m[peer])
    } else {
        None
    }
}

/// What the given peers last said. What is not a peer, or cannot be read, is
/// passed over.
pub open spec fn peer_infos(m: Map<Seq<u8>, Seq<u8>>, keys: Seq<Seq<u8>>) -> Seq<
    (Seq<u8>, PeerSyncInfoModel),
>
    decreases keys.len(),
{
    if keys.len() == 0 {
        Seq::empty()
    } else {
        let before = peer_infos(m, keys.drop_last());
        match peer_info_at(m, keys.last()) {
            Some(info) if keys.last().len() == 32 => before.push((keys.last(), info)),
            _ => before,
        }
    }
}

/// The models of listed peers.
pub open spec fn listed_peers(v: Seq<(PubKey, PeerSyncInfo)>) -> Seq<
    (Seq<u8>, PeerSyncInfoModel),
> {
    v.map_values(|p: (PubKey, PeerSyncInfo)| (p.0@, p.1@))
}

/// What every peer last said of its chains.
pub struct PeerSyncStore {
    peers: ByteTable,
}

impl View for PeerSyncStore {
    type V = Map<Seq<u8>, Seq<u8>>;

    closed spec fn view(&self) -> Map<Seq<u8>, Seq<u8>> {
        self.peers@
    }
}

impl PeerSyncStore {
    /// The table is well formed.
    pub closed spec fn wf(&self) -> bool {
        self.peers.wf()
    }

    /// A store that knows of no peer.
    pub fn open() -> (r: Self)
        ensures
            r.wf(),
            r@ == Map::<Seq<u8>, Seq<u8>>::empty(),
    {
        PeerSyncStore { peers: ByteTable::new() }
    }

    /// The store with the given table.
    pub fn from_table(peers: ByteTable) -> (r: Self)
        requires
            peers.wf(),
        ensures
            r.wf(),
            r@ == peers@,
    {
        PeerSyncStore { peers }
    }

    /// The table.
    pub fn table(&self) -> (r: &ByteTable)
        requires
            self.wf(),
        ensures
            r.wf(),
            r@ == self@,
    {
        &self.peers
    }

    /// Keeps what a peer said, in place of what it said before.
    pub fn set_peer_sync_state(&mut self, peer: &PubKey, info: &PeerSyncInfo)
        requires
            old(self).wf(),
        ensures
            final(self).wf(),
            final(self)@ == old(self)@.insert(peer@, message::encoded::<PeerSyncInfo>(info@)),
    {
        self.peers.insert(peer.as_slice(), message::encode(info));
    }

    /// What a peer last said.
    pub fn get_peer_sync_state(&self, peer: &PubKey) -> (r: Option<PeerSyncInfo>)
        requires
            self.wf(),
        ensures
            match peer_info_at(self@, peer@) {
                Some(info) => r matches Some(x) && x@ == info,
                None => r is None,
            },
    {
        match self.peers.get(peer.as_slice()) {
            Some(stored) => match message::decode::<PeerSyncInfo>(stored.as_slice()) {
                Ok(info) => Some(info),
                Err(_) => None,
            },
            None => None,
        }
    }

    /// What all peers last said, in the order of the peers.
    pub fn list_peer_sync_states(&self) -> (r: Vec<(PubKey, PeerSyncInfo)>)
        requires
            self.wf(),
        ensures
            listed_peers(r@) == peer_infos(self@, table::sorted_keys(self@.dom())),
    {
        let ghost keys = self.peers.keys();
        let ghost m = self@;
        proof {
            self.peers.lemma_keys();
        }
        let mut out: Vec<(PubKey, PeerSyncInfo)> = Vec::new();
        let mut i: usize = 0;
        proof {
            assert(keys.take(0) =~= Seq::empty());
            assert(listed_peers(out@) =~= Seq::empty());
        }
        while i < self.peers.len()
            invariant
                self.wf(),
                keys == self.peers.keys(),
                m == self@,
                i <= keys.len(),
                listed_peers(out@) == peer_infos(m, keys.take(i as int)),
            decreases keys.len() - i,
        {
            let key = self.peers.key_at(i);
            let ghost before = out@;
            proof {
                assert(keys.take(i + 1).drop_last() =~= keys.take(i as int));
                assert(keys.take(i + 1).last() == key@);
            }
            if key.len() == 32 {
                match message::decode::<PeerSyncInfo>(self.peers.value_at(i).as_slice()) {
                    Ok(info) => {
                        let peer: PubKey = to_array32(key.as_slice());
                        let ghost x = (peer@, info@);
                        out.push((peer, info));
                        assert(listed_peers(out@) =~= listed_peers(before).push(x));
                    },
                    Err(_) => {},
                }
            }
            i += 1;
        }
        assert(keys.take(i as int) =~= keys);
        out
    }
}

/// What a peer said is read back, and what other peers said stays.
pub proof fn law_peer_info_round_trip(
    m: Map<Seq<u8>, Seq<u8>>,
    peer: Seq<u8>,
    info: PeerSyncInfoModel,
    other: Seq<u8>,
)
    requires
        message::encoded::<PeerSyncInfo>(info).len() <= u64::MAX,
    ensures
        ({
            let n = m.insert(peer, message::encoded::<PeerSyncInfo>(info));
            &&& peer_info_at(n, peer) == Some(info)
            &&& other != peer ==> peer_info_at(n, other) == peer_info_at(m, other)
        }),
{
    crate::proto::storage::law_peer_sync_info_round_trip(info);
}

/// Of the listed keys, exactly those that are public keys and whose words can be read give a
/// peer, with what it said.
pub proof fn law_peers_are_listed(
    m: Map<Seq<u8>, Seq<u8>>,
    keys: Seq<Seq<u8>>,
    peer: Seq<u8>,
    info: PeerSyncInfoModel,
)
    requires
        forall|i: int| 0 <= i < keys.len() ==> m.dom().contains(#[trigger] keys[i]),
    ensures
        peer_infos(m, keys).contains((peer, info)) <==> keys.contains(peer) && peer.len() == 32
            && message::decoded::<PeerSyncInfo>(m[peer]) == Some(info),
    decreases keys.len(),
{
    if keys.len() > 0 {
        let before = keys.drop_last();
        let k = keys.last();
        assert forall|i: int| 0 <= i < before.len() implies m.dom().contains(
            #[trigger] before[i],
        ) by {
            assert(before[i] == keys[i]);
        }
        assert(m.dom().contains(keys[keys.len() - 1]));
        law_peers_are_listed(m, before, peer, info);
        assert(keys.contains(peer) <==> before.contains(peer) || peer == k) by {
            if before.contains(peer) {
                assert(keys[before.index_of(peer)] == peer);
            }
            if keys.contains(peer) && peer != k {
                assert(before[keys.index_of(peer)] == peer);
            }
            assert(keys[keys.len() - 1] == k);
        }
        let q = peer_infos(m, before);
        let r = peer_infos(m, keys);
        let x = (peer, info);
        if q.contains(x) {
            assert(r[q.index_of(x)] == x);
        }
        if r.contains(x) {
            let i = r.index_of(x);
            if i < q.len() {
                assert(q[i] == x);
            }
        }
        if r.len() > q.len() {
            assert(r[r.len() - 1] == r.last());
        }
    }
}

} // verus!
