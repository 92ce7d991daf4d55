//! How far a node has got with every author's chain, and what two nodes lack
//! of each other's entries.
use crate::bytes;
use crate::bytes::{bytes_eq, to_array32, to_vec, Digest, PubKey};
use crate::message;
use crate::proto::storage as proto;
use crate::proto::storage::{AuthorState, AuthorStateModel, Hlc, SyncAuthor, SyncAuthorModel};
use crate::table;
use crate::table::Table;
use vstd::prelude::*;

verus! {

/// An author's public key.
pub type Author = PubKey;

/// How far an author's chain is known: the last sequence number, the hash of that
/// entry, and the latest timestamp.
#[derive(Debug, Clone, Copy, PartialEq, Eq)]
pub struct AuthorInfo {
    pub seq: u64,
    pub hash: Digest,
    pub hlc: Option<(u64, u32)>,
}

/// The entries of an author that one side lacks: those behind `from_seq`, up to
/// and with `to_seq`.
#[derive(Debug, Clone, Copy, PartialEq, Eq)]
pub struct MissingRange {
    pub author: Author,
    pub from_seq: u64,
    pub from_hash: Digest,
    pub to_seq: u64,
}

/// The model of [`MissingRange`].
pub struct MissingModel {
    pub author: Seq<u8>,
    pub from_seq: u64,
    pub from_hash: Seq<u8>,
    pub to_seq: u64,
}

impl View for MissingRange {
    type V = MissingModel;

    open spec fn view(&self) -> MissingModel {
        MissingModel {
            author: self.author@,
            from_seq: self.from_seq,
            from_hash: self.from_hash@,
            to_seq: self.to_seq,
        }
    }
}

/// How many entries two sides lack of each other.
#[derive(Debug, Clone, Copy, PartialEq, Eq, Structural)]
pub struct SyncDiscrepancy {
    /// What we lack of theirs.
    pub entries_we_need: u64,
    /// What they lack of ours.
    pub entries_they_need: u64,
}

impl Default for SyncDiscrepancy {
    /// Neither side lacks anything.
    fn default() -> (r: Self)
        ensures
            r == (SyncDiscrepancy { entries_we_need: 0, entries_they_need: 0 }),
    {
        SyncDiscrepancy { entries_we_need: 0, entries_they_need: 0 }
    }
}

impl SyncDiscrepancy {
    /// Whether either side lacks an entry.
    pub fn is_out_of_sync(&self) -> (r: bool)
        ensures
            r == (self.entries_we_need > 0 || self.entries_they_need > 0),
    {
        self.entries_we_need > 0 || self.entries_they_need > 0
    }
}

/// The news that a peer and we have to sync.
#[derive(Debug, Clone, Copy, PartialEq, Eq)]
pub struct SyncNeeded {
    /// The peer.
    pub peer: PubKey,
    /// What the two sides lack.
    pub discrepancy: SyncDiscrepancy,
}

impl AuthorInfo {
    /// What is known of an author, without a timestamp.
    pub fn new(seq: u64, hash: Digest) -> (r: Self)
        ensures
            r == (AuthorInfo { seq, hash, hlc: None }),
    {
        AuthorInfo { seq, hash, hlc: None }
    }

    /// What is known of an author.
    pub fn with_hlc(seq: u64, hash: Digest, hlc: Option<(u64, u32)>) -> (r: Self)
        ensures
            r == (AuthorInfo { seq, hash, hlc }),
    {
        AuthorInfo { seq, hash, hlc }
    }
}

// ---------------------------------------------------------------------------
// Model
// ---------------------------------------------------------------------------

/// The last sequence number of an author; zero for an author who is not known.
pub open spec fn seq_of(m: Map<Seq<u8>, AuthorInfo>, author: Seq<u8>) -> u64 {
    if m.dom().contains(author) {
        m[author].seq
    } else {
        0
    }
}

/// The hash of the last entry of an author; zeros for an author who is not known.
pub open spec fn hash_of(m: Map<Seq<u8>, AuthorInfo>, author: Seq<u8>) -> Seq<u8> {
    if m.dom().contains(author) {
        m[author].hash@
    } else {
        bytes::zeros(32)
    }
}

/// Whether we lack entries of an author whom the peer knows: the peer has got
/// further, or as far with another last entry.
pub open spec fn lacks(
    mine: Map<Seq<u8>, AuthorInfo>,
    peer: Map<Seq<u8>, AuthorInfo>,
    author: Seq<u8>,
) -> bool {
    peer[author].seq > seq_of(mine, author) || (peer[author].seq == seq_of(mine, author) && seq_of(
        mine,
        author,
    ) > 0 && peer[author].hash@ != hash_of(mine, author))
}

/// What we lack of an author's entries.
pub open spec fn lacked(
    mine: Map<Seq<u8>, AuthorInfo>,
    peer: Map<Seq<u8>, AuthorInfo>,
    author: Seq<u8>,
) -> MissingModel {
    MissingModel {
        author,
        from_seq: seq_of(mine, author),
        from_hash: hash_of(mine, author),
        to_seq: peer[author].seq,
    }
}

/// What we lack of the entries of the given authors, whom the peer knows.
pub open spec fn missing(
    mine: Map<Seq<u8>, AuthorInfo>,
    peer: Map<Seq<u8>, AuthorInfo>,
    authors: Seq<Seq<u8>>,
) -> Seq<MissingModel>
    decreases authors.len(),
{
    if authors.len() == 0 {
        Seq::empty()
    } else {
        let before = missing(mine, peer, authors.drop_last());
        if lacks(mine, peer, authors.last()) {
            before.push(lacked(mine, peer, authors.last()))
        } else {
            before
        }
    }
}

/// How many entries the ranges cover.
pub open spec fn entries_in(ranges: Seq<MissingModel>) -> int
    decreases ranges.len(),
{
    if ranges.len() == 0 {
        0
    } else {
        entries_in(ranges.drop_last()) + (ranges.last().to_seq - ranges.last().from_seq)
    }
}

/// What is known after learning what the other side knows of an author: the
/// further of the two, and our own where they are as far.
pub open spec fn merged_info(
    mine: Map<Seq<u8>, AuthorInfo>,
    other: Map<Seq<u8>, AuthorInfo>,
    author: Seq<u8>,
) -> AuthorInfo {
    if mine.dom().contains(author) && !(other.dom().contains(author) && other[author].seq
        > mine[author].seq) {
        mine[author]
    } else {
        other[author]
    }
}

/// What is known after learning what the other side knows.
pub open spec fn merged(
    mine: Map<Seq<u8>, AuthorInfo>,
    other: Map<Seq<u8>, AuthorInfo>,
) -> Map<Seq<u8>, AuthorInfo> {
    Map::new(
        |a: Seq<u8>| mine.dom().contains(a) || other.dom().contains(a),
        |a: Seq<u8>| merged_info(mine, other, a),
    )
}

/// Whether the first timestamp is earlier than the second.
pub open spec fn earlier(a: (u64, u32), b: (u64, u32)) -> bool {
    a.0 < b.0 || (a.0 == b.0 && a.1 < b.1)
}

/// Whether `h` is the earliest of the authors' timestamps, and every author has
/// one.
pub open spec fn is_common(m: Map<Seq<u8>, AuthorInfo>, h: (u64, u32)) -> bool {
    &&& exists|a: Seq<u8>| #[trigger] m.dom().contains(a) && m[a].hlc == Some(h)
    &&& forall|a: Seq<u8>| #[trigger]
        m.dom().contains(a) ==> m[a].hlc is Some && !earlier(m[a].hlc->0, h)
}

/// The earliest of the authors' timestamps; `None` where there is no author, or
/// one without a timestamp.
pub open spec fn common(m: Map<Seq<u8>, AuthorInfo>) -> Option<(u64, u32)> {
    if exists|h: (u64, u32)| is_common(m, h) {
        Some(choose|h: (u64, u32)| is_common(m, h))
    } else {
        None
    }
}

/// A timestamp as it is sent.
pub open spec fn sent_hlc(h: Option<(u64, u32)>) -> Option<Hlc> {
    match h {
        Some(h) => Some(Hlc { wall_time: h.0, counter: h.1 }),
        None => None,
    }
}

/// What is sent of an author.
pub open spec fn sent_author(m: Map<Seq<u8>, AuthorInfo>, a: Seq<u8>) -> SyncAuthorModel {
    SyncAuthorModel {
        author_id: a,
        state: Some(
            AuthorStateModel { seq: m[a].seq, hash: m[a].hash@, hlc: sent_hlc(m[a].hlc) },
        ),
    }
}

/// What is sent of the given authors.
pub open spec fn sent_authors(m: Map<Seq<u8>, AuthorInfo>, keys: Seq<Seq<u8>>) -> Seq<
    SyncAuthorModel,
> {
    keys.map_values(|a: Seq<u8>| sent_author(m, a))
}

/// What a message about one author adds to what is known. Messages without a
/// state, or about something that is no author, add nothing; a malformed hash
/// stands for none.
pub open spec fn received(p: SyncAuthorModel, info: AuthorInfo) -> bool {
    match p.state {
        Some(s) => {
            &&& info.seq == s.seq
            &&& info.hash@ == if s.hash.len() == 32 {
                s.hash
            } else {
                bytes::zeros(32)
            }
            &&& info.hlc == match s.hlc {
                Some(h) => Some((h.wall_time, h.counter)),
                None => None,
            }
        },
        None => false,
    }
}

/// Whether the message about an author counts.
pub open spec fn counts(p: SyncAuthorModel) -> bool {
    p.author_id.len() == 32 && p.state is Some
}

/// The last of the messages about an author that counts, by its position.
pub open spec fn last_about(ps: Seq<SyncAuthorModel>, a: Seq<u8>) -> Option<int>
    decreases ps.len(),
{
    if ps.len() == 0 {
        None
    } else if counts(ps.last()) && ps.last().author_id == a {
        Some(ps.len() - 1)
    } else {
        last_about(ps.drop_last(), a)
    }
}

/// Whether `m` is what the messages say: of every author, the last message
/// counts.
pub open spec fn says_of(ps: Seq<SyncAuthorModel>, m: Map<Seq<u8>, AuthorInfo>) -> bool {
    forall|a: Seq<u8>|
        #![trigger m.dom().contains(a)]
        #![trigger last_about(ps, a)]
        match last_about(ps, a) {
            Some(i) => m.dom().contains(a) && received(ps[i], m[a]),
            None => !m.dom().contains(a),
        }
}

/// What the messages say of every author.
pub open spec fn heard(ps: Seq<SyncAuthorModel>) -> Map<Seq<u8>, AuthorInfo> {
    Map::new(
        |a: Seq<u8>| last_about(ps, a) is Some,
        |a: Seq<u8>| choose|info: AuthorInfo| received(ps[last_about(ps, a)->0], info),
    )
}

/// There is one way to understand the messages.
pub proof fn lemma_heard(ps: Seq<SyncAuthorModel>, m: Map<Seq<u8>, AuthorInfo>)
    requires
        says_of(ps, m),
    ensures
        m == heard(ps),
{
    broadcast use vstd::array::axiom_array_ext_equal;

    let h = heard(ps);
    assert forall|a: Seq<u8>| m.dom().contains(a) == h.dom().contains(a) by {
        assert(last_about(ps, a) is Some == h.dom().contains(a));
    }
    assert forall|a: Seq<u8>| m.dom().contains(a) implies m[a] == h[a] by {
        let p = ps[last_about(ps, a)->0];
        assert(received(p, m[a]));
        let other = choose|info: AuthorInfo| received(p, info);
        assert(received(p, other));
        assert(other.hash =~= m[a].hash);
    }
    assert(m =~= h);
}

/// How many entries the two sides lack of each other; `None` where there are too
/// many to be counted.
pub open spec fn discrepancy(
    mine: Map<Seq<u8>, AuthorInfo>,
    peer: Map<Seq<u8>, AuthorInfo>,
) -> Option<SyncDiscrepancy> {
    let we_need = entries_in(missing(mine, peer, table::sorted_keys(peer.dom())));
    let they_need = entries_in(missing(peer, mine, table::sorted_keys(mine.dom())));
    if we_need > u64::MAX || they_need > u64::MAX {
        None
    } else {
        Some(
            SyncDiscrepancy {
                entries_we_need: we_need as u64,
                entries_they_need: they_need as u64,
            },
        )
    }
}

// ---------------------------------------------------------------------------
// Laws
// ---------------------------------------------------------------------------

/// Nobody lacks anything of their own.
pub proof fn law_diff_with_self_is_empty(m: Map<Seq<u8>, AuthorInfo>, authors: Seq<Seq<u8>>)
    requires
        forall|i: int| 0 <= i < authors.len() ==> m.dom().contains(#[trigger] authors[i]),
    ensures
        missing(m, m, authors) == Seq::<MissingModel>::empty(),
    decreases authors.len(),
{
    if authors.len() > 0 {
        assert(m.dom().contains(authors[authors.len() - 1]));
        assert forall|i: int| 0 <= i < authors.len() - 1 implies m.dom().contains(
            #[trigger] authors.drop_last()[i],
        ) by {
            assert(authors.drop_last()[i] == authors[i]);
        }
        law_diff_with_self_is_empty(m, authors.drop_last());
    }
}

/// Whether the two sides got to the same sequence number of some author with
/// different entries.
pub open spec fn forked(a: Map<Seq<u8>, AuthorInfo>, b: Map<Seq<u8>, AuthorInfo>) -> bool {
    exists|x: Seq<u8>| #[trigger]
        a.dom().contains(x) && b.dom().contains(x) && a[x].seq == b[x].seq && a[x].hash@
            != b[x].hash@
}

/// A range is listed of every author whom the peer knows and of whose entries the peer
/// has more: it leads from the last number that we have, or zero where we do not know
/// the author, to the peer's. An author of whose entries
/// both have as many, but not the same last one, is listed too. No other range is listed, and no author twice.
pub proof fn law_diff_is_what_the_peer_has_more(
    mine: Map<Seq<u8>, AuthorInfo>,
    peer: Map<Seq<u8>, AuthorInfo>,
    authors: Seq<Seq<u8>>,
)
    requires
        authors.no_duplicates(),
        forall|a: Seq<u8>| #[trigger] authors.contains(a) ==> peer.dom().contains(a),
    ensures
        ({
            let r = missing(mine, peer, authors);
            &&& forall|a: Seq<u8>| #[trigger]
                authors.contains(a) && mine.dom().contains(a) && peer[a].seq > mine[a].seq
                    ==> exists|i: int|
                    0 <= i < r.len() && (#[trigger] r[i]).author == a && r[i].from_seq
                        == mine[a].seq && r[i].from_hash == mine[a].hash@ && r[i].to_seq
                        == peer[a].seq
            &&& forall|a: Seq<u8>| #[trigger]
                authors.contains(a) && !mine.dom().contains(a) && peer[a].seq > 0 ==> exists|i: int|
                    0 <= i < r.len() && (#[trigger] r[i]).author == a && r[i].from_seq == 0
                        && r[i].from_hash == Seq::new(32, |k: int| 0u8) && r[i].to_seq
                        == peer[a].seq
            &&& forall|a: Seq<u8>| #[trigger]
                authors.contains(a) && mine.dom().contains(a) && peer[a].seq == mine[a].seq
                    && peer[a].seq > 0 && peer[a].hash@ != mine[a].hash@ ==> exists|i: int|
                    0 <= i < r.len() && (#[trigger] r[i]).author == a
            &&& forall|i: int|
                0 <= i < r.len() ==> {
                    let a = (#[trigger] r[i]).author;
                    &&& authors.contains(a)
                    &&& r[i].to_seq == peer[a].seq
                    &&& mine.dom().contains(a) ==> r[i].from_seq == mine[a].seq && (r[i].to_seq
                        > r[i].from_seq || (r[i].to_seq == r[i].from_seq && r[i].to_seq > 0
                        && peer[a].hash@ != mine[a].hash@))
                    &&& !mine.dom().contains(a) ==> r[i].from_seq == 0 && r[i].to_seq > 0
                }
            &&& forall|i: int, j: int|
                0 <= i < j < r.len() ==> (#[trigger] r[i]).author != (#[trigger] r[j]).author
        }),
    decreases authors.len(),
{
    if authors.len() > 0 {
        let before = authors.drop_last();
        let x = authors.last();
        let q = missing(mine, peer, before);
        let r = missing(mine, peer, authors);
        assert(authors[authors.len() - 1] == x);
        assert forall|a: Seq<u8>| #[trigger] before.contains(a) implies authors.contains(a) && a
            != x by {
            let k = before.index_of(a);
            assert(authors[k] == a);
        }
        assert forall|a: Seq<u8>| #[trigger] authors.contains(a) && a != x implies before.contains(
            a,
        ) by {
            let k = authors.index_of(a);
            assert(before[k] == a);
        }
        assert(before.no_duplicates());
        law_diff_is_what_the_peer_has_more(mine, peer, before);
        assert forall|i: int| 0 <= i < q.len() implies #[trigger] r[i] == q[i] by {}
        assert forall|a: Seq<u8>| #[trigger]
            authors.contains(a) && mine.dom().contains(a) && peer[a].seq
                > mine[a].seq implies exists|i: int|
            0 <= i < r.len() && (#[trigger] r[i]).author == a && r[i].from_seq == mine[a].seq
                && r[i].from_hash == mine[a].hash@ && r[i].to_seq == peer[a].seq by {
            if a != x {
                assert(before.contains(a));
                let i = choose|i: int|
                    0 <= i < q.len() && (#[trigger] q[i]).author == a && q[i].from_seq
                        == mine[a].seq && q[i].from_hash == mine[a].hash@ && q[i].to_seq
                        == peer[a].seq;
                assert(r[i] == q[i]);
            } else {
                assert(r[r.len() - 1].author == a);
            }
        }
        assert(bytes::zeros(32) =~= Seq::new(32, |k: int| 0u8));
        assert forall|a: Seq<u8>| #[trigger]
            authors.contains(a) && !mine.dom().contains(a) && peer[a].seq
                > 0 implies exists|i: int|
            0 <= i < r.len() && (#[trigger] r[i]).author == a && r[i].from_seq == 0
                && r[i].from_hash == Seq::new(32, |k: int| 0u8) && r[i].to_seq == peer[a].seq by {
            if a != x {
                assert(before.contains(a));
                let i = choose|i: int|
                    0 <= i < q.len() && (#[trigger] q[i]).author == a && q[i].from_seq == 0
                        && q[i].from_hash == Seq::new(32, |k: int| 0u8) && q[i].to_seq
                        == peer[a].seq;
                assert(r[i] == q[i]);
            } else {
                assert(r[r.len() - 1].author == a);
            }
        }
        assert forall|a: Seq<u8>| #[trigger]
            authors.contains(a) && mine.dom().contains(a) && peer[a].seq == mine[a].seq
                && peer[a].seq > 0 && peer[a].hash@ != mine[a].hash@ implies exists|i: int|
            0 <= i < r.len() && (#[trigger] r[i]).author == a by {
            if a != x {
                assert(before.contains(a));
                let i = choose|i: int| 0 <= i < q.len() && (#[trigger] q[i]).author == a;
                assert(r[i] == q[i]);
            } else {
                assert(r[r.len() - 1].author == a);
            }
        }
        assert forall|i: int, j: int| 0 <= i < j < r.len() implies (#[trigger] r[i]).author != (
        #[trigger] r[j]).author by {
            assert(r[i] == q[i]);
            assert(before.contains(q[i].author));
            if j < q.len() {
                assert(r[j] == q[j]);
            }
        }
        assert forall|i: int| 0 <= i < r.len() implies {
            let a = (#[trigger] r[i]).author;
            &&& authors.contains(a)
            &&& r[i].to_seq == peer[a].seq
            &&& mine.dom().contains(a) ==> r[i].from_seq == mine[a].seq && (r[i].to_seq
                > r[i].from_seq || (r[i].to_seq == r[i].from_seq && r[i].to_seq > 0
                        && peer[a].hash@ != mine[a].hash@))
            &&& !mine.dom().contains(a) ==> r[i].from_seq == 0 && r[i].to_seq > 0
        } by {
            if i < q.len() {
                assert(r[i] == q[i]);
                assert(before.contains(q[i].author));
            }
        }
    }
}

/// Ascending keys are listed once.
proof fn lemma_listed_once(keys: Seq<Seq<u8>>)
    requires
        table::ascending(keys),
    ensures
        keys.no_duplicates(),
{
    assert forall|i: int, j: int| 0 <= i < j < keys.len() implies keys[i] != keys[j] by {
        bytes::lemma_lex_irreflexive(keys[i]);
    }
}

/// After a merge an author is known whom either side knows. What is known of the
/// author is the other side's where that has got further, and otherwise our own.
pub proof fn law_merge_keeps_the_further(
    mine: Map<Seq<u8>, AuthorInfo>,
    other: Map<Seq<u8>, AuthorInfo>,
    a: Seq<u8>,
)
    ensures
        !mine.dom().contains(a) && !other.dom().contains(a) ==> !merged(mine, other).dom().contains(
            a,
        ),
        mine.dom().contains(a) && !other.dom().contains(a) ==> merged(mine, other).dom().contains(a)
            && merged(mine, other)[a] == mine[a],
        !mine.dom().contains(a) && other.dom().contains(a) ==> merged(mine, other).dom().contains(a)
            && merged(mine, other)[a] == other[a],
        mine.dom().contains(a) && other.dom().contains(a) && other[a].seq > mine[a].seq ==> merged(
            mine,
            other,
        ).dom().contains(a) && merged(mine, other)[a] == other[a],
        mine.dom().contains(a) && other.dom().contains(a) && other[a].seq <= mine[a].seq ==> merged(
            mine,
            other,
        ).dom().contains(a) && merged(mine, other)[a] == mine[a],
{
}

/// How many entries we lack of an author and of all the others adds up: by as many as
/// the peer has more of this author.
pub proof fn law_lacked_entries_add_up(
    mine: Map<Seq<u8>, AuthorInfo>,
    peer: Map<Seq<u8>, AuthorInfo>,
    a: Seq<u8>,
)
    requires
        table::lists(table::sorted_keys(peer.dom()), peer.dom()),
        peer.dom().contains(a),
    ensures
        ({
            let all = entries_in(missing(mine, peer, table::sorted_keys(peer.dom())));
            let rest = peer.remove(a);
            let others = entries_in(missing(mine, rest, table::sorted_keys(rest.dom())));
            &&& mine.dom().contains(a) && peer[a].seq > mine[a].seq ==> all == others + (
            peer[a].seq - mine[a].seq)
            &&& mine.dom().contains(a) && peer[a].seq <= mine[a].seq ==> all == others
            &&& !mine.dom().contains(a) ==> all == others + peer[a].seq
        }),
{
    let keys = table::sorted_keys(peer.dom());
    let rest = peer.remove(a);
    assert(rest.dom() =~= peer.dom().remove(a));
    table::lemma_sorted_without(peer.dom(), a);
    assert(keys.contains(a));
    let k = keys.index_of(a);
    assert forall|i: int, j: int| 0 <= i < j < keys.len() implies keys[i] != keys[j] by {
        bytes::lemma_lex_irreflexive(keys[i]);
    }
    lemma_gap_of_one(mine, peer, a, keys);
    assert(keys.no_duplicates());
}

/// The sum with and without one of the authors.
proof fn lemma_gap_of_one(
    mine: Map<Seq<u8>, AuthorInfo>,
    peer: Map<Seq<u8>, AuthorInfo>,
    a: Seq<u8>,
    keys: Seq<Seq<u8>>,
)
    requires
        peer.dom().contains(a),
        keys.no_duplicates(),
    ensures
        entries_in(missing(mine, peer, keys)) == entries_in(
            missing(mine, peer.remove(a), keys.filter(|x: Seq<u8>| x != a)),
        ) + if keys.contains(a) && peer[a].seq > seq_of(mine, a) {
            peer[a].seq - seq_of(mine, a)
        } else {
            0
        },
    decreases keys.len(),
{
    reveal(Seq::filter);
    let keep = |x: Seq<u8>| x != a;
    let rest = peer.remove(a);
    if keys.len() > 0 {
        let before = keys.drop_last();
        let x = keys.last();
        assert(keys[keys.len() - 1] == x);
        lemma_gap_of_one(mine, peer, a, before);
        if before.contains(a) {
            let i = before.index_of(a);
            assert(keys[i] == a);
            assert(x != a);
        }
        if keys.contains(a) && x != a {
            let i = keys.index_of(a);
            assert(before[i] == a);
        }
        let q = missing(mine, peer, before);
        assert(q.push(lacked(mine, peer, x)).drop_last() =~= q);
        if x != a {
            let kept = before.filter(keep);
            assert(kept.push(x).drop_last() =~= kept);
            let p = missing(mine, rest, kept);
            assert(p.push(lacked(mine, rest, x)).drop_last() =~= p);
            assert(rest[x] == peer[x]);
            assert(lacked(mine, rest, x) == lacked(mine, peer, x));
        }
    } else {
        assert(keys.filter(keep) =~= Seq::empty());
    }
}

/// The discrepancy is nothing between two sides that know nobody. Seen from the other
/// side, the two numbers change places. Leaving out an author whom the peer knows lowers
/// what we need by as many entries as the peer has more of that author.
pub proof fn law_discrepancy_counts_entries(
    mine: Map<Seq<u8>, AuthorInfo>,
    peer: Map<Seq<u8>, AuthorInfo>,
    a: Seq<u8>,
)
    requires
        table::lists(table::sorted_keys(peer.dom()), peer.dom()),
    ensures
        discrepancy(Map::empty(), Map::empty()) == Some(
            SyncDiscrepancy { entries_we_need: 0, entries_they_need: 0 },
        ),
        match discrepancy(mine, peer) {
            Some(d) => discrepancy(peer, mine) == Some(
                SyncDiscrepancy {
                    entries_we_need: d.entries_they_need,
                    entries_they_need: d.entries_we_need,
                },
            ),
            None => discrepancy(peer, mine) is None,
        },
        peer.dom().contains(a) ==> (discrepancy(mine, peer) matches Some(d) ==> (discrepancy(
            mine,
            peer.remove(a),
        ) matches Some(e) ==> {
            &&& mine.dom().contains(a) && peer[a].seq > mine[a].seq ==> d.entries_we_need
                == e.entries_we_need + (peer[a].seq - mine[a].seq)
            &&& mine.dom().contains(a) && peer[a].seq <= mine[a].seq ==> d.entries_we_need
                == e.entries_we_need
            &&& !mine.dom().contains(a) ==> d.entries_we_need == e.entries_we_need + peer[a].seq
        })),
{
    let none = Map::<Seq<u8>, AuthorInfo>::empty();
    assert(none.dom() =~= Set::empty());
    table::lemma_sorted_keys(Seq::<Seq<u8>>::empty(), Set::<Seq<u8>>::empty());
    assert(missing(none, none, Seq::empty()) =~= Seq::empty());
    lemma_missing_forward(mine, peer, table::sorted_keys(peer.dom()));
    lemma_missing_forward(peer, mine, table::sorted_keys(mine.dom()));
    if peer.dom().contains(a) {
        law_lacked_entries_add_up(mine, peer, a);
        let rest = peer.remove(a);
        lemma_missing_forward(mine, rest, table::sorted_keys(rest.dom()));
    }
}

/// What is sent of an author: the key, the last number, the hash and the timestamp.
pub proof fn law_sent_as_known(m: Map<Seq<u8>, AuthorInfo>, keys: Seq<Seq<u8>>, i: int)
    requires
        0 <= i < keys.len(),
    ensures
        ({
            let sent = sent_authors(m, keys);
            &&& sent.len() == keys.len()
            &&& sent[i].author_id == keys[i]
            &&& sent[i].state matches Some(s) && s.seq == m[keys[i]].seq && s.hash
                == m[keys[i]].hash@ && match m[keys[i]].hlc {
                Some(h) => s.hlc == Some(Hlc { wall_time: h.0, counter: h.1 }),
                None => s.hlc is None,
            }
        }),
{
}

/// What a message tells of an author is the number, the hash and the timestamp of the last
/// part that names the author and holds them.
pub proof fn law_heard_as_sent(
    ps: Seq<SyncAuthorModel>,
    m: Map<Seq<u8>, AuthorInfo>,
    i: int,
    s: AuthorStateModel,
)
    requires
        says_of(ps, m),
        0 <= i < ps.len(),
        ps[i].author_id.len() == 32,
        ps[i].state == Some(s),
        forall|j: int|
            i < j < ps.len() ==> (#[trigger] ps[j]).author_id != ps[i].author_id || ps[j].state
                is None,
    ensures
        m.dom().contains(ps[i].author_id),
        m[ps[i].author_id].seq == s.seq,
        s.hash.len() == 32 ==> m[ps[i].author_id].hash@ == s.hash,
        s.hash.len() != 32 ==> m[ps[i].author_id].hash@ == Seq::new(32, |k: int| 0u8),
        match s.hlc {
            Some(h) => m[ps[i].author_id].hlc == Some((h.wall_time, h.counter)),
            None => m[ps[i].author_id].hlc is None,
        },
{
    lemma_last_is(ps, i);
    assert(last_about(ps, ps[i].author_id) == Some(i));
    assert(bytes::zeros(32) =~= Seq::new(32, |k: int| 0u8));
}

proof fn lemma_last_is(ps: Seq<SyncAuthorModel>, i: int)
    requires
        0 <= i < ps.len(),
        counts(ps[i]),
        forall|j: int|
            i < j < ps.len() ==> (#[trigger] ps[j]).author_id != ps[i].author_id || ps[j].state
                is None,
    ensures
        last_about(ps, ps[i].author_id) == Some(i),
    decreases ps.len(),
{
    if i < ps.len() - 1 {
        let before = ps.drop_last();
        assert(ps[ps.len() - 1].author_id != ps[i].author_id || ps[ps.len() - 1].state is None);
        assert forall|j: int| i < j < before.len() implies (#[trigger] before[j]).author_id
            != before[i].author_id || before[j].state is None by {
            assert(before[j] == ps[j]);
        }
        lemma_last_is(before, i);
    }
}

/// The common timestamp is an author's, no author has an earlier one, and there is none
/// where an author has none.
pub proof fn law_common_is_the_earliest(m: Map<Seq<u8>, AuthorInfo>)
    ensures
        common(m) matches Some(h) ==> {
            &&& exists|a: Seq<u8>| #[trigger] m.dom().contains(a) && m[a].hlc == Some(h)
            &&& forall|a: Seq<u8>| #[trigger]
                m.dom().contains(a) ==> (m[a].hlc matches Some(t) && (t.0 > h.0 || (t.0 == h.0
                    && t.1 >= h.1)))
        },
        forall|a: Seq<u8>| #[trigger]
            m.dom().contains(a) && m[a].hlc is None ==> common(m) is None,
{
}

/// Once we have learnt what the peer knows, we lack nothing of theirs, unless
/// the two sides have forked.
pub proof fn law_merge_closes_the_gap(
    mine: Map<Seq<u8>, AuthorInfo>,
    peer: Map<Seq<u8>, AuthorInfo>,
    authors: Seq<Seq<u8>>,
)
    requires
        !forked(mine, peer),
        forall|i: int| 0 <= i < authors.len() ==> peer.dom().contains(#[trigger] authors[i]),
    ensures
        missing(merged(mine, peer), peer, authors) == Seq::<MissingModel>::empty(),
    decreases authors.len(),
{
    if authors.len() > 0 {
        let x = authors.last();
        assert(peer.dom().contains(authors[authors.len() - 1]));
        if mine.dom().contains(x) {
            assert(mine[x].seq == peer[x].seq ==> mine[x].hash@ == peer[x].hash@);
        }
        assert forall|i: int| 0 <= i < authors.len() - 1 implies peer.dom().contains(
            #[trigger] authors.drop_last()[i],
        ) by {
            assert(authors.drop_last()[i] == authors[i]);
        }
        law_merge_closes_the_gap(mine, peer, authors.drop_last());
    }
}

/// Merging takes the further sequence number of every author.
pub proof fn law_merge_takes_the_maximum(
    a: Map<Seq<u8>, AuthorInfo>,
    b: Map<Seq<u8>, AuthorInfo>,
    author: Seq<u8>,
)
    ensures
        seq_of(merged(a, b), author) == if seq_of(a, author) >= seq_of(b, author) {
            seq_of(a, author)
        } else {
            seq_of(b, author)
        },
        seq_of(merged(a, b), author) == seq_of(merged(b, a), author),
{
}

/// Merging the same state again changes nothing.
pub proof fn law_merge_is_idempotent(a: Map<Seq<u8>, AuthorInfo>, b: Map<Seq<u8>, AuthorInfo>)
    ensures
        merged(a, a) == a,
        merged(merged(a, b), b) == merged(a, b),
{
    assert(merged(a, a) =~= a);
    assert(merged(merged(a, b), b) =~= merged(a, b));
}

/// It does not matter in which order states are merged in groups.
pub proof fn law_merge_is_associative(
    a: Map<Seq<u8>, AuthorInfo>,
    b: Map<Seq<u8>, AuthorInfo>,
    c: Map<Seq<u8>, AuthorInfo>,
)
    ensures
        merged(merged(a, b), c) == merged(a, merged(b, c)),
{
    let l = merged(merged(a, b), c);
    let r = merged(a, merged(b, c));
    assert forall|x: Seq<u8>| l.dom().contains(x) implies l[x] == r[x] by {}
    assert(l =~= r);
}

/// What one side lacks never goes backwards: a range ends at or behind its start.
pub proof fn lemma_missing_forward(
    mine: Map<Seq<u8>, AuthorInfo>,
    peer: Map<Seq<u8>, AuthorInfo>,
    authors: Seq<Seq<u8>>,
)
    ensures
        forall|i: int|
            0 <= i < missing(mine, peer, authors).len() ==> (#[trigger] missing(
                mine,
                peer,
                authors,
            )[i]).from_seq <= missing(mine, peer, authors)[i].to_seq,
        entries_in(missing(mine, peer, authors)) >= 0,
    decreases authors.len(),
{
    if authors.len() > 0 {
        lemma_missing_forward(mine, peer, authors.drop_last());
        let before = missing(mine, peer, authors.drop_last());
        let x = lacked(mine, peer, authors.last());
        assert(before.push(x).drop_last() =~= before);
    }
}

/// How many entries are missing grows with the authors that are looked at.
proof fn lemma_entries_prefix(ranges: Seq<MissingModel>, n: int)
    requires
        0 <= n <= ranges.len(),
        forall|i: int|
            0 <= i < ranges.len() ==> (#[trigger] ranges[i]).from_seq <= ranges[i].to_seq,
    ensures
        entries_in(ranges.take(n)) <= entries_in(ranges),
        entries_in(ranges.take(n)) >= 0,
    decreases ranges.len(),
{
    if n == ranges.len() {
        assert(ranges.take(n) =~= ranges);
        if n > 0 {
            assert(ranges[n - 1].from_seq <= ranges[n - 1].to_seq);
            assert forall|i: int| 0 <= i < ranges.drop_last().len() implies (
            #[trigger] ranges.drop_last()[i]).from_seq <= ranges.drop_last()[i].to_seq by {
                assert(ranges.drop_last()[i] == ranges[i]);
            }
            lemma_entries_prefix(ranges.drop_last(), n - 1);
            assert(ranges.drop_last().take(n - 1) =~= ranges.drop_last());
        }
    } else {
        assert(ranges[ranges.len() - 1].from_seq <= ranges[ranges.len() - 1].to_seq);
        assert forall|i: int| 0 <= i < ranges.drop_last().len() implies (
        #[trigger] ranges.drop_last()[i]).from_seq <= ranges.drop_last()[i].to_seq by {
            assert(ranges.drop_last()[i] == ranges[i]);
        }
        lemma_entries_prefix(ranges.drop_last(), n);
        assert(ranges.drop_last().take(n) =~= ranges.take(n));
    }
}

/// There is one earliest timestamp at most.
proof fn lemma_common_unique(m: Map<Seq<u8>, AuthorInfo>, h: (u64, u32))
    requires
        is_common(m, h),
    ensures
        common(m) == Some(h),
{
    let g = choose|h: (u64, u32)| is_common(m, h);
    assert(is_common(m, g));
    let a = choose|a: Seq<u8>| #[trigger] m.dom().contains(a) && m[a].hlc == Some(h);
    let b = choose|a: Seq<u8>| #[trigger] m.dom().contains(a) && m[a].hlc == Some(g);
    assert(!earlier(m[a].hlc->0, g));
    assert(!earlier(m[b].hlc->0, h));
    assert(g == h);
}

// ---------------------------------------------------------------------------
// The state
// ---------------------------------------------------------------------------

/// How far every author's chain is known.
pub struct SyncState {
    authors: Table<AuthorInfo>,
}

impl View for SyncState {
    type V = Map<Seq<u8>, AuthorInfo>;

    closed spec fn view(&self) -> Map<Seq<u8>, AuthorInfo> {
        self.authors@
    }
}

/// Whether all keys are as long as a public key.
pub open spec fn keys_ok(keys: Seq<Seq<u8>>) -> bool {
    forall|i: int| 0 <= i < keys.len() ==> (#[trigger] keys[i]).len() == 32
}

impl SyncState {
    /// The table is well formed, and its keys are authors.
    pub closed spec fn wf(&self) -> bool {
        self.authors.wf() && keys_ok(self.authors.keys())
    }

    /// The authors, in ascending order.
    pub open spec fn keys(&self) -> Seq<Seq<u8>> {
        table::sorted_keys(self@.dom())
    }

    /// The authors are listed in ascending order, and each is as long as a public key.
    pub proof fn lemma_authors(&self)
        requires
            self.wf(),
        ensures
            table::lists(self.keys(), self@.dom()),
            keys_ok(self.keys()),
    {
        self.authors.lemma_listed();
    }

    /// The table lists the authors in ascending order.
    proof fn lemma_keys(&self)
        requires
            self.wf(),
        ensures
            self.keys() == self.authors.keys(),
            table::lists(self.keys(), self@.dom()),
            keys_ok(self.keys()),
    {
        self.authors.lemma_listed();
    }

    /// A state that is sent as a message is the state that the message tells: the same
    /// authors, and of each the same sequence number, hash and timestamp.
    pub proof fn law_message_round_trip(&self)
        requires
            self.wf(),
        ensures
            heard(sent_authors(self@, self.keys())) == self@,
    {
        self.lemma_authors();
        law_sync_state_round_trip(self@, self.keys());
    }

    /// No author is known.
    pub fn new() -> (r: Self)
        ensures
            r.wf(),
            r@ == Map::<Seq<u8>, AuthorInfo>::empty(),
    {
        SyncState { authors: Table::new() }
    }

    /// What is known of an author.
    pub fn get(&self, author: &Author) -> (r: Option<&AuthorInfo>)
        requires
            self.wf(),
        ensures
            match r {
                Some(info) => self@.dom().contains(author@) && *info == self@[author@],
                None => !self@.dom().contains(author@),
            },
    {
        self.authors.get(author.as_slice())
    }

    /// The last sequence number of an author; zero for an author who is not
    /// known.
    pub fn seq(&self, author: &Author) -> (r: u64)
        requires
            self.wf(),
        ensures
            r == seq_of(self@, author@),
    {
        match self.get(author) {
            Some(info) => info.seq,
            None => 0,
        }
    }

    /// The hash of the last entry of an author; zeros for an author who is not
    /// known.
    pub fn hash(&self, author: &Author) -> (r: Digest)
        requires
            self.wf(),
        ensures
            r@ == hash_of(self@, author@),
    {
        match self.get(author) {
            Some(info) => info.hash,
            None => {
                let z: Digest = [0u8; 32];
                assert(z@ =~= bytes::zeros(32));
                z
            },
        }
    }

    /// Puts an author's info in place of what was known.
    fn put(&mut self, author: &[u8], info: AuthorInfo)
        requires
            old(self).wf(),
            author@.len() == 32,
        ensures
            final(self).wf(),
            final(self)@ == old(self)@.insert(author@, info),
    {
        let ghost before = *self;
        self.authors.insert(author, info);
        proof {
            assert forall|i: int| 0 <= i < self.authors.keys().len() implies (
            #[trigger] self.authors.keys()[i]).len() == 32 by {
                self.authors.lemma_at(i);
                let k = self.authors.keys()[i];
                if k != author@ {
                    assert(before.authors@.dom().contains(k));
                    let j = before.authors.lemma_position(k);
                    assert(before.authors.keys()[j].len() == 32);
                }
            }
        }
    }

    /// Sets what is known of an author, without a timestamp.
    pub fn set(&mut self, author: Author, seq: u64, hash: Digest)
        requires
            old(self).wf(),
        ensures
            final(self).wf(),
            final(self)@ == old(self)@.insert(author@, AuthorInfo { seq, hash, hlc: None }),
    {
        self.put(author.as_slice(), AuthorInfo::new(seq, hash));
    }

    /// Sets what is known of an author.
    pub fn set_with_hlc(&mut self, author: Author, seq: u64, hash: Digest, hlc: Option<(u64, u32)>)
        requires
            old(self).wf(),
        ensures
            final(self).wf(),
            final(self)@ == old(self)@.insert(author@, AuthorInfo { seq, hash, hlc }),
    {
        self.put(author.as_slice(), AuthorInfo::with_hlc(seq, hash, hlc));
    }

    /// All authors with what is known of them.
    pub fn authors(&self) -> (r: &Table<AuthorInfo>)
        requires
            self.wf(),
        ensures
            r.wf(),
            r@ == self@,
            r.keys() == self.keys(),
    {
        proof {
            self.lemma_keys();
        }
        &self.authors
    }

    /// The earliest of the authors' timestamps; `None` where there is no author,
    /// or one without a timestamp.
    pub fn common_hlc(&self) -> (r: Option<(u64, u32)>)
        requires
            self.wf(),
        ensures
            r == common(self@),
            match r {
                Some(h) => is_common(self@, h),
                None => self.keys().len() == 0 || exists|a: Seq<u8>| #[trigger]
                    self@.dom().contains(a) && self@[a].hlc is None,
            },
    {
        proof {
            self.lemma_keys();
        }
        let ghost keys = self.authors.keys();
        let mut min: Option<(u64, u32)> = None;
        let mut i: usize = 0;
        while i < self.authors.len()
            invariant
                self.wf(),
                i <= keys.len(),
                keys == self.authors.keys(),
                min is None <==> i == 0,
                min matches Some(h) ==> exists|j: int|
                    0 <= j < i && self@[#[trigger] keys[j]].hlc == Some(h),
                forall|j: int|
                    0 <= j < i ==> self@[#[trigger] keys[j]].hlc is Some && !earlier(
                        self@[keys[j]].hlc->0,
                        min->0,
                    ),
            decreases keys.len() - i,
        {
            let info = self.authors.value_at(i);
            assert(*info == self@[keys[i as int]]);
            match info.hlc {
                None => {
                    proof {
                        self.authors.lemma_at(i as int);
                        let a = keys[i as int];
                        assert(self@.dom().contains(a) && self@[a].hlc is None);
                        if exists|h: (u64, u32)| is_common(self@, h) {
                            let h = choose|h: (u64, u32)| is_common(self@, h);
                            assert(self@[a].hlc is Some);
                        }
                    }
                    return None;
                },
                Some(hlc) => {
                    match min {
                        None => {
                            min = Some(hlc);
                        },
                        Some(current) => {
                            if hlc.0 < current.0 || (hlc.0 == current.0 && hlc.1 < current.1) {
                                min = Some(hlc);
                            }
                        },
                    }
                },
            }
            i += 1;
        }
        proof {
            if let Some(h) = min {
                let j = choose|j: int| 0 <= j < i && self@[#[trigger] keys[j]].hlc == Some(h);
                self.authors.lemma_at(j);
                assert forall|a: Seq<u8>| #[trigger] self@.dom().contains(a) implies self@[a].hlc is Some
                    && !earlier(self@[a].hlc->0, h) by {
                    let k = self.authors.lemma_position(a);
                    assert(keys[k] == a);
                }
                assert(is_common(self@, h));
                lemma_common_unique(self@, h);
            } else {
                assert forall|h: (u64, u32)| !is_common(self@, h) by {
                    if is_common(self@, h) {
                        let a = choose|a: Seq<u8>| #[trigger]
                            self@.dom().contains(a) && self@[a].hlc == Some(h);
                        let k = self.authors.lemma_position(a);
                    }
                }
            }
        }
        min
    }

    /// What we lack of the peer's entries, in the order of the authors.
    pub fn diff(&self, peer: &SyncState) -> (r: Vec<MissingRange>)
        requires
            self.wf(),
            peer.wf(),
        ensures
            message::models(r@) == missing(self@, peer@, peer.keys()),
            // Every author of whom the peer has more is listed, from our last number on.
            forall|a: Seq<u8>| #[trigger]
                peer@.dom().contains(a) && peer@[a].seq > (if self@.dom().contains(a) {
                    self@[a].seq
                } else {
                    0
                }) ==> exists|i: int|
                    0 <= i < r@.len() && (#[trigger] r@[i]).author@ == a && r@[i].to_seq
                        == peer@[a].seq && r@[i].from_seq == (if self@.dom().contains(a) {
                        self@[a].seq
                    } else {
                        0
                    }),
    {
        let ghost keys = peer.authors.keys();
        proof {
            peer.lemma_keys();
        }
        let mut out: Vec<MissingRange> = Vec::new();
        let mut i: usize = 0;
        proof {
            assert(keys.take(0) =~= Seq::empty());
            assert(message::models(out@) =~= Seq::empty());
        }
        while i < peer.authors.len()
            invariant
                self.wf(),
                peer.wf(),
                keys == peer.authors.keys(),
                table::lists(keys, peer@.dom()),
                i <= keys.len(),
                message::models(out@) == missing(self@, peer@, keys.take(i as int)),
            decreases keys.len() - i,
        {
            let ghost before = out@;
            assert(peer.authors.keys()[i as int].len() == 32);
            let author: Author = to_array32(peer.authors.key_at(i).as_slice());
            let info = peer.authors.value_at(i);
            let my_seq: u64 = self.seq(&author);
            let my_hash = self.hash(&author);
            proof {
                assert(keys.take(i + 1).drop_last() =~= keys.take(i as int));
                assert(keys.take(i + 1).last() == author@);
            }
            let need: bool = if info.seq > my_seq {
                true
            } else if info.seq == my_seq && my_seq > 0 {
                !bytes_eq(info.hash.as_slice(), my_hash.as_slice())
            } else {
                false
            };
            if need {
                let range = MissingRange {
                    author,
                    from_seq: my_seq,
                    from_hash: my_hash,
                    to_seq: info.seq,
                };
                out.push(range);
                assert(message::models(out@) =~= message::models(before).push(range@));
            }
            i += 1;
        }
        assert(keys.take(i as int) =~= keys);
        proof {
            lemma_listed_once(keys);
            law_diff_is_what_the_peer_has_more(self@, peer@, keys);
            let ranges = message::models(out@);
            assert forall|a: Seq<u8>| #[trigger]
                peer@.dom().contains(a) && peer@[a].seq > (if self@.dom().contains(a) {
                    self@[a].seq
                } else {
                    0
                }) implies exists|i: int|
                0 <= i < out@.len() && (#[trigger] out@[i]).author@ == a && out@[i].to_seq
                    == peer@[a].seq && out@[i].from_seq == (if self@.dom().contains(a) {
                    self@[a].seq
                } else {
                    0
                }) by {
                assert(keys.contains(a));
                let i = choose|i: int|
                    0 <= i < ranges.len() && (#[trigger] ranges[i]).author == a
                        && ranges[i].to_seq == peer@[a].seq && ranges[i].from_seq == (
                    if self@.dom().contains(a) {
                        self@[a].seq
                    } else {
                        0
                    });
                assert(out@[i]@ == ranges[i]);
            }
        }
        out
    }

    /// How many entries the ranges cover; `None` where the number is too large.
    fn entries_covered(ranges: &Vec<MissingRange>) -> (r: Option<u64>)
        requires
            forall|i: int|
                0 <= i < ranges@.len() ==> (#[trigger] ranges@[i]).from_seq <= ranges@[i].to_seq,
        ensures
            match r {
                Some(n) => n == entries_in(message::models(ranges@)),
                None => entries_in(message::models(ranges@)) > u64::MAX,
            },
    {
        let ghost all = message::models(ranges@);
        let mut n: u64 = 0;
        let mut i: usize = 0;
        assert(all.take(0) =~= Seq::empty());
        while i < ranges.len()
            invariant
                i <= ranges@.len(),
                all == message::models(ranges@),
                n == entries_in(all.take(i as int)),
                forall|k: int|
                    0 <= k < ranges@.len() ==> (#[trigger] ranges@[k]).from_seq
                        <= ranges@[k].to_seq,
            decreases ranges@.len() - i,
        {
            proof {
                assert(all.take(i + 1).drop_last() =~= all.take(i as int));
                assert(all.take(i + 1).last() == ranges@[i as int]@);
            }
            let count: u64 = ranges[i].to_seq - ranges[i].from_seq;
            if n > u64::MAX - count {
                proof {
                    assert forall|k: int| 0 <= k < all.len() implies (#[trigger] all[k]).from_seq
                        <= all[k].to_seq by {
                        assert(ranges@[k].from_seq <= ranges@[k].to_seq);
                    }
                    lemma_entries_prefix(all, i + 1);
                }
                return None;
            }
            n = n + count;
            i += 1;
        }
        assert(all.take(i as int) =~= all);
        Some(n)
    }

    /// How many entries the two sides lack of each other; `None` where either
    /// number does not fit into 64 bits.
    pub fn checked_discrepancy(&self, peer: &SyncState) -> (r: Option<SyncDiscrepancy>)
        requires
            self.wf(),
            peer.wf(),
        ensures
            match r {
                Some(d) => d.entries_we_need == entries_in(missing(self@, peer@, peer.keys()))
                    && d.entries_they_need == entries_in(missing(peer@, self@, self.keys())),
                None => entries_in(missing(self@, peer@, peer.keys())) > u64::MAX || entries_in(
                    missing(peer@, self@, self.keys()),
                ) > u64::MAX,
            },
            r == discrepancy(self@, peer@),
    {
        let we_need = self.diff(peer);
        let they_need = peer.diff(self);
        proof {
            lemma_missing_forward(self@, peer@, peer.keys());
            lemma_missing_forward(peer@, self@, self.keys());
            assert forall|i: int| 0 <= i < we_need@.len() implies (#[trigger] we_need@[i]).from_seq
                <= we_need@[i].to_seq by {
                assert(message::models(we_need@)[i] == we_need@[i]@);
            }
            assert forall|i: int| 0 <= i < they_need@.len() implies (
            #[trigger] they_need@[i]).from_seq <= they_need@[i].to_seq by {
                assert(message::models(they_need@)[i] == they_need@[i]@);
            }
        }
        match (SyncState::entries_covered(&we_need), SyncState::entries_covered(&they_need)) {
            (Some(entries_we_need), Some(entries_they_need)) => Some(
                SyncDiscrepancy { entries_we_need, entries_they_need },
            ),
            _ => None,
        }
    }

    /// How many entries the two sides lack of each other.
    pub fn calculate_discrepancy(&self, peer: &SyncState) -> (r: SyncDiscrepancy)
        requires
            self.wf(),
            peer.wf(),
            entries_in(missing(self@, peer@, peer.keys())) <= u64::MAX,
            entries_in(missing(peer@, self@, self.keys())) <= u64::MAX,
        ensures
            r.entries_we_need == entries_in(missing(self@, peer@, peer.keys())),
            r.entries_they_need == entries_in(missing(peer@, self@, self.keys())),
    {
        match self.checked_discrepancy(peer) {
            Some(d) => d,
            None => SyncDiscrepancy { entries_we_need: 0, entries_they_need: 0 },
        }
    }

    /// Learns what the other side knows: of every author, the further of the two.
    pub fn merge(&mut self, other: &SyncState)
        requires
            old(self).wf(),
            other.wf(),
        ensures
            final(self).wf(),
            final(self)@ == merged(old(self)@, other@),
    {
        let ghost mine = self@;
        let ghost keys = other.authors.keys();
        proof {
            other.lemma_keys();
        }
        let mut i: usize = 0;
        while i < other.authors.len()
            invariant
                self.wf(),
                other.wf(),
                keys == other.authors.keys(),
                table::lists(keys, other@.dom()),
                i <= keys.len(),
                forall|a: Seq<u8>| #[trigger]
                    self@.dom().contains(a) <==> mine.dom().contains(a) || keys.take(
                        i as int,
                    ).contains(a),
                forall|a: Seq<u8>| #[trigger]
                    self@.dom().contains(a) ==> self@[a] == if keys.take(i as int).contains(a) {
                        merged_info(mine, other@, a)
                    } else {
                        mine[a]
                    },
            decreases keys.len() - i,
        {
            assert(other.authors.keys()[i as int].len() == 32);
            let author: Author = to_array32(other.authors.key_at(i).as_slice());
            let info = *other.authors.value_at(i);
            let take: bool = match self.get(&author) {
                Some(my_info) => info.seq > my_info.seq,
                None => true,
            };
            proof {
                let taken = keys.take(i as int);
                let more = keys.take(i + 1);
                assert(more =~= taken.push(author@));
                assert forall|k: Seq<u8>| more.contains(k) == (taken.contains(k) || k
                    == author@) by {
                    if taken.contains(k) {
                        let j = taken.index_of(k);
                        assert(more[j] == k);
                    }
                    if k == author@ {
                        assert(more[i as int] == k);
                    }
                    if more.contains(k) && k != author@ {
                        let j = more.index_of(k);
                        assert(taken[j] == k);
                    }
                }
                assert(!taken.contains(author@)) by {
                    if taken.contains(author@) {
                        let j = taken.index_of(author@);
                        assert(keys[j] == keys[i as int]);
                        table::lemma_ascending_unique(keys, j, i as int);
                    }
                }
            }
            if take {
                self.put(author.as_slice(), info);
            }
            i += 1;
        }
        proof {
            assert(keys.take(i as int) =~= keys);
            assert(self@ =~= merged(mine, other@));
        }
    }

    /// The state as a message.
    pub fn to_proto(&self) -> (r: proto::SyncState)
        requires
            self.wf(),
        ensures
            r@.authors == sent_authors(self@, self.keys()),
            r@.sender_hlc is None,
            r@.common_hlc == sent_hlc(common(self@)),
    {
        let ghost keys = self.authors.keys();
        proof {
            self.lemma_keys();
        }
        let mut authors: Vec<SyncAuthor> = Vec::new();
        let mut i: usize = 0;
        while i < self.authors.len()
            invariant
                self.wf(),
                keys == self.authors.keys(),
                i <= keys.len(),
                authors@.len() == i,
                forall|k: int| 0 <= k < i ==> (#[trigger] authors@[k])@ == sent_author(self@, keys[k]),
            decreases keys.len() - i,
        {
            let info = *self.authors.value_at(i);
            let hlc = match info.hlc {
                Some(h) => Some(Hlc { wall_time: h.0, counter: h.1 }),
                None => None,
            };
            let state = AuthorState { seq: info.seq, hash: to_vec(info.hash.as_slice()), hlc };
            assert(state@.hlc == sent_hlc(info.hlc));
            authors.push(
                SyncAuthor {
                    author_id: to_vec(self.authors.key_at(i).as_slice()),
                    state: Some(state),
                },
            );
            i += 1;
        }
        let common_hlc = match self.common_hlc() {
            Some(h) => Some(Hlc { wall_time: h.0, counter: h.1 }),
            None => None,
        };
        assert(message::models(authors@) =~= sent_authors(self@, keys));
        proto::SyncState { authors, sender_hlc: None, common_hlc }
    }

    /// The state that a message tells.
    pub fn from_proto(p: &proto::SyncState) -> (r: Self)
        ensures
            r.wf(),
            says_of(p@.authors, r@),
            r@ == heard(p@.authors),
    {
        let ghost ps = p@.authors;
        let mut state = SyncState::new();
        let mut i: usize = 0;
        assert(ps.take(0) =~= Seq::empty());
        while i < p.authors.len()
            invariant
                state.wf(),
                i <= p.authors@.len(),
                ps == message::models(p.authors@),
                says_of(ps.take(i as int), state@),
            decreases p.authors@.len() - i,
        {
            let sync_author = &p.authors[i];
            let ghost before = state@;
            proof {
                assert(ps.take(i + 1).drop_last() =~= ps.take(i as int));
                assert(ps.take(i + 1).last() == sync_author@);
            }
            if sync_author.author_id.len() == 32 {
                let author: Author = to_array32(sync_author.author_id.as_slice());
                match &sync_author.state {
                    Some(author_state) => {
                        let hash: Digest = if author_state.hash.len() == 32 {
                            to_array32(author_state.hash.as_slice())
                        } else {
                            let z: Digest = [0u8; 32];
                            assert(z@ =~= bytes::zeros(32));
                            z
                        };
                        let hlc: Option<(u64, u32)> = match author_state.hlc {
                            Some(h) => Some((h.wall_time, h.counter)),
                            None => None,
                        };
                        state.set_with_hlc(author, author_state.seq, hash, hlc);
                    },
                    None => {},
                }
            }
            proof {
                let now = ps.take(i + 1);
                assert forall|a: Seq<u8>|
                    #![trigger state@.dom().contains(a)]
                    #![trigger last_about(now, a)]
                    match last_about(now, a) {
                        Some(j) => state@.dom().contains(a) && received(now[j], state@[a]),
                        None => !state@.dom().contains(a),
                    } by {
                    assert(before.dom().contains(a) || !before.dom().contains(a));
                    lemma_last_about(ps.take(i as int), a);
                    if let Some(j) = last_about(ps.take(i as int), a) {
                        assert(now[j] == ps.take(i as int)[j]);
                    }
                }
            }
            i += 1;
        }
        assert(ps.take(i as int) =~= ps);
        proof {
            lemma_heard(ps, state@);
        }
        state
    }
}

impl Default for SyncState {
    /// No author is known.
    fn default() -> (r: Self)
        ensures
            r.wf(),
            r@ == Map::<Seq<u8>, AuthorInfo>::empty(),
    {
        SyncState::new()
    }
}

proof fn lemma_last_about(ps: Seq<SyncAuthorModel>, a: Seq<u8>)
    ensures
        last_about(ps, a) matches Some(j) ==> 0 <= j < ps.len() && counts(ps[j]) && ps[j].author_id
            == a,
    decreases ps.len(),
{
    if ps.len() > 0 && !(counts(ps.last()) && ps.last().author_id == a) {
        lemma_last_about(ps.drop_last(), a);
    }
}

/// What is told of the authors in a message is what the message was made from.
pub proof fn law_sync_state_round_trip(m: Map<Seq<u8>, AuthorInfo>, keys: Seq<Seq<u8>>)
    requires
        table::lists(keys, m.dom()),
        keys_ok(keys),
    ensures
        heard(sent_authors(m, keys)) == m,
{
    let ps = sent_authors(m, keys);
    assert forall|a: Seq<u8>|
        #![trigger m.dom().contains(a)]
        #![trigger last_about(ps, a)]
        match last_about(ps, a) {
            Some(i) => m.dom().contains(a) && received(ps[i], m[a]),
            None => !m.dom().contains(a),
        } by {
        lemma_sent_about(m, keys, a);
        assert(keys.contains(a) <==> m.dom().contains(a));
        lemma_last_about(ps, a);
        if let Some(i) = last_about(ps, a) {
            assert(ps[i] == sent_author(m, keys[i]));
        }
    }
    lemma_heard(ps, m);
}

proof fn lemma_sent_about(m: Map<Seq<u8>, AuthorInfo>, keys: Seq<Seq<u8>>, a: Seq<u8>)
    requires
        keys_ok(keys),
    ensures
        last_about(sent_authors(m, keys), a) is Some <==> keys.contains(a),
    decreases keys.len(),
{
    let ps = sent_authors(m, keys);
    if keys.len() > 0 {
        let before = keys.drop_last();
        assert(ps.drop_last() =~= sent_authors(m, before));
        assert(keys[keys.len() - 1].len() == 32);
        assert forall|i: int| 0 <= i < before.len() implies (#[trigger] before[i]).len() == 32 by {
            assert(before[i] == keys[i]);
        }
        lemma_sent_about(m, before, a);
        if keys.contains(a) && keys.last() != a {
            let j = keys.index_of(a);
            assert(before[j] == a);
        }
        if before.contains(a) {
            let j = before.index_of(a);
            assert(keys[j] == a);
        }
        if keys.last() == a {
            assert(keys[keys.len() - 1] == a);
        }
    }
}

} // verus!
