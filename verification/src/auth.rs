//! Who may do what: the questions that a store asks about its peers.
use crate::bytes::PubKey;
use crate::node_identity::PeerStatus;
use crate::store::error::{StateError, StateFault};
use crate::table;
use crate::text;
use vstd::prelude::*;

verus! {

/// The news of a peer.
#[derive(Debug, Clone, Copy, PartialEq, Eq)]
pub enum PeerEvent {
    /// A peer has become known.
    Added { pubkey: PubKey, status: PeerStatus },
    /// The status of a peer has changed.
    StatusChanged { pubkey: PubKey, old: PeerStatus, new: PeerStatus },
    /// A peer is no longer known.
    Removed { pubkey: PubKey },
}

/// The model of [`PeerEvent`].
pub enum PeerEventModel {
    Added(Seq<u8>, PeerStatus),
    StatusChanged(Seq<u8>, PeerStatus, PeerStatus),
    Removed(Seq<u8>),
}

impl View for PeerEvent {
    type V = PeerEventModel;

    open spec fn view(&self) -> PeerEventModel {
        match self {
            PeerEvent::Added { pubkey, status } => PeerEventModel::Added(pubkey@, *status),
            PeerEvent::StatusChanged { pubkey, old, new } => PeerEventModel::StatusChanged(
                pubkey@,
                *old,
                *new,
            ),
            PeerEvent::Removed { pubkey } => PeerEventModel::Removed(pubkey@),
        }
    }
}

/// Whether a peer may join: one who is invited or active.
pub open spec fn may_join(statuses: Map<Seq<u8>, PeerStatus>, peer: Seq<u8>) -> bool {
    statuses.dom().contains(peer) && (statuses[peer] is Invited || statuses[peer] is Active)
}

/// Whether a peer may connect: one who is trusted from the start, active or
/// dormant.
pub open spec fn may_connect(
    statuses: Map<Seq<u8>, PeerStatus>,
    trusted: Set<Seq<u8>>,
    peer: Seq<u8>,
) -> bool {
    trusted.contains(peer) || (statuses.dom().contains(peer) && (statuses[peer] is Active
        || statuses[peer] is Dormant))
}

/// Whether a status lets entries of a peer in. Those of a peer who was shut out
/// later are still part of the history.
pub open spec fn lets_entries_in(status: PeerStatus) -> bool {
    status is Active || status is Dormant || status is Revoked
}

/// Whether entries of an author are accepted: of one who is trusted from the
/// start, or has a status that lets them in.
pub open spec fn may_write(
    statuses: Map<Seq<u8>, PeerStatus>,
    trusted: Set<Seq<u8>>,
    author: Seq<u8>,
) -> bool {
    trusted.contains(author) || (statuses.dom().contains(author) && lets_entries_in(
        statuses[author],
    ))
}

/// The authors whose status lets their entries in, in ascending order.
pub open spec fn writers(statuses: Map<Seq<u8>, PeerStatus>) -> Seq<Seq<u8>> {
    table::sorted_keys(statuses.dom()).filter(|a: Seq<u8>| lets_entries_in(statuses[a]))
}

/// Whoever may connect may have entries accepted.
pub proof fn law_connected_peers_may_write(
    statuses: Map<Seq<u8>, PeerStatus>,
    trusted: Set<Seq<u8>>,
    peer: Seq<u8>,
)
    ensures
        may_connect(statuses, trusted, peer) ==> may_write(statuses, trusted, peer),
{
}

/// A peer who is shut out can neither join nor connect, unless it is trusted from
/// the start; a peer who is only invited cannot write.
pub proof fn law_shut_out(
    statuses: Map<Seq<u8>, PeerStatus>,
    trusted: Set<Seq<u8>>,
    peer: Seq<u8>,
)
    requires
        statuses.dom().contains(peer),
        !trusted.contains(peer),
    ensures
        statuses[peer] is Revoked ==> !may_join(statuses, peer) && !may_connect(
            statuses,
            trusted,
            peer,
        ),
        statuses[peer] is Invited ==> !may_write(statuses, trusted, peer),
{
}

/// What every status allows. One who was invited may join; an active peer may join,
/// connect and write; a dormant one may connect and write, but not join; of a revoked one
/// the entries are still let in, and that is all. One without a status may do nothing
/// unless trusted, and the trusted may connect and write.
pub proof fn law_status_decides(
    statuses: Map<Seq<u8>, PeerStatus>,
    trusted: Set<Seq<u8>>,
    peer: Seq<u8>,
)
    ensures
        trusted.contains(peer) ==> may_connect(statuses, trusted, peer) && may_write(
            statuses,
            trusted,
            peer,
        ),
        !statuses.dom().contains(peer) ==> !may_join(statuses, peer),
        !statuses.dom().contains(peer) && !trusted.contains(peer) ==> !may_connect(
            statuses,
            trusted,
            peer,
        ) && !may_write(statuses, trusted, peer),
        statuses.dom().contains(peer) ==> match statuses[peer] {
            PeerStatus::Invited => may_join(statuses, peer) && (!trusted.contains(peer)
                ==> !may_connect(statuses, trusted, peer) && !may_write(statuses, trusted, peer)),
            PeerStatus::Active => may_join(statuses, peer) && may_connect(statuses, trusted, peer)
                && may_write(statuses, trusted, peer),
            PeerStatus::Dormant => !may_join(statuses, peer) && may_connect(
                statuses,
                trusted,
                peer,
            ) && may_write(statuses, trusted, peer),
            PeerStatus::Revoked => !may_join(statuses, peer) && (!trusted.contains(peer)
                ==> !may_connect(statuses, trusted, peer)) && may_write(statuses, trusted, peer),
        },
{
}

/// The writers are listed in ascending order, and they are exactly those with a status
/// other than that of being invited.
pub proof fn law_writers_are_listed(statuses: Map<Seq<u8>, PeerStatus>, a: Seq<u8>)
    requires
        table::lists(table::sorted_keys(statuses.dom()), statuses.dom()),
    ensures
        writers(statuses).contains(a) <==> statuses.dom().contains(a) && !(
        statuses[a] is Invited),
        table::ascending(writers(statuses)),
{
    let keys = table::sorted_keys(statuses.dom());
    let keep = |x: Seq<u8>| lets_entries_in(statuses[x]);
    table::lemma_filter_ascending(keys, keep);
    assert(keys.contains(a) <==> statuses.dom().contains(a));
    if writers(statuses).contains(a) {
        keys.lemma_filter_contains_rev(keep, a);
        let i = writers(statuses).index_of(a);
        keys.lemma_filter_pred(keep, i);
    }
    if statuses.dom().contains(a) && !(statuses[a] is Invited) {
        keys.lemma_filter_contains(keep, keys.index_of(a));
    }
}

/// The text of the error for a peer that does not have one of the expected
/// statuses.
pub open spec fn status_refusal(peer: Seq<u8>) -> Seq<char> {
    "Peer "@ + text::hex_text(peer) + " does not have an expected status"@
}

/// Somebody who knows the peers.
pub trait PeerProvider {
    /// Whether the provider is well formed.
    spec fn ready(&self) -> bool;

    /// The statuses of the known peers.
    spec fn statuses(&self) -> Map<Seq<u8>, PeerStatus>;

    /// The authors that are trusted from the start.
    spec fn trusted(&self) -> Set<Seq<u8>>;

    /// Checks that a peer has one of the expected statuses.
    fn verify_peer_status(&self, pubkey: &PubKey, expected: &[PeerStatus]) -> (r: Result<
        (),
        StateError,
    >)
        requires
            self.ready(),
        ensures
            if self.statuses().dom().contains(pubkey@) && expected@.contains(
                self.statuses()[pubkey@],
            ) {
                r is Ok
            } else {
                r matches Err(e) && e@ == StateFault::Unauthorized(status_refusal(pubkey@))
            },
    ;

    /// Whether a peer may join.
    fn can_join(&self, peer: &PubKey) -> (r: bool)
        requires
            self.ready(),
        ensures
            r == may_join(self.statuses(), peer@),
    ;

    /// Whether a peer may connect.
    fn can_connect(&self, peer: &PubKey) -> (r: bool)
        requires
            self.ready(),
        ensures
            r == may_connect(self.statuses(), self.trusted(), peer@),
    ;

    /// Whether entries of an author are accepted.
    fn can_accept_entry(&self, author: &PubKey) -> (r: bool)
        requires
            self.ready(),
        ensures
            r == may_write(self.statuses(), self.trusted(), author@),
    ;

    /// The authors whose status lets their entries in, in ascending order.
    fn list_acceptable_authors(&self) -> (r: Vec<PubKey>)
        requires
            self.ready(),
        ensures
            crate::entry::digests(r@) == writers(self.statuses()),
    ;
}

} // verus!
