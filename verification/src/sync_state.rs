//! How far every author's chain has been seen, by sequence numbers alone: what
//! is missing is what a peer has seen further. Chains that have forked are
//! looked after in [`crate::store::sync_state`].
use crate::bytes;
use crate::bytes::{to_array32, Digest, PubKey};
use crate::message;
use crate::table;
use crate::table::Table;
use vstd::prelude::*;

verus! {

/// An author's public key.
pub type Author = PubKey;

/// How far an author's chain has been seen.
#[derive(Debug, Clone, Copy, PartialEq, Eq)]
pub struct AuthorInfo {
    /// The last sequence number.
    pub seq: u64,
    /// The hash of that entry.
    pub hash: Digest,
}

/// The entries of an author that are missing: those behind `from_seq`, up to and
/// with `to_seq`.
#[derive(Debug, Clone, Copy, PartialEq, Eq)]
pub struct MissingRange {
    pub author: Author,
    pub from_seq: u64,
    pub from_hash: Digest,
    pub to_seq: u64,
}

/// The model of [`MissingRange`].
pub struct MissingModel {
    pub author: Seq<u8>,
    pub from_seq: u64,
    pub from_hash: Seq<u8>,
    pub to_seq: u64,
}

impl View for MissingRange {
    type V = MissingModel;

    open spec fn view(&self) -> MissingModel {
        MissingModel {
            author: self.author@,
            from_seq: self.from_seq,
            from_hash: self.from_hash@,
            to_seq: self.to_seq,
        }
    }
}

/// The last sequence number of an author; zero for an author who is not known.
pub open spec fn seq_of(m: Map<Seq<u8>, AuthorInfo>, author: Seq<u8>) -> u64 {
    if m.dom().contains(author) {
        m[author].seq
    } else {
        0
    }
}

/// What is missing of an author whom the peer knows.
pub open spec fn lacked(
    mine: Map<Seq<u8>, AuthorInfo>,
    peer: Map<Seq<u8>, AuthorInfo>,
    author: Seq<u8>,
) -> MissingModel {
    MissingModel {
        author,
        from_seq: seq_of(mine, author),
        from_hash: if mine.dom().contains(author) {
            mine[author].hash@
        } else {
            bytes::zeros(32)
        },
        to_seq: peer[author].seq,
    }
}

/// What is missing of the given authors, whom the peer knows.
pub open spec fn missing(
    mine: Map<Seq<u8>, AuthorInfo>,
    peer: Map<Seq<u8>, AuthorInfo>,
    authors: Seq<Seq<u8>>,
) -> Seq<MissingModel>
    decreases authors.len(),
{
    if authors.len() == 0 {
        Seq::empty()
    } else {
        let before = missing(mine, peer, authors.drop_last());
        if peer[authors.last()].seq > seq_of(mine, authors.last()) {
            before.push(lacked(mine, peer, authors.last()))
        } else {
            before
        }
    }
}

/// Whether the other side has seen more of an author.
pub open spec fn further(
    mine: Map<Seq<u8>, AuthorInfo>,
    other: Map<Seq<u8>, AuthorInfo>,
    author: Seq<u8>,
) -> bool {
    other.dom().contains(author) && other[author].seq > seq_of(mine, author)
}

/// What is known after learning what the other side has seen: of every author
/// the further.
pub open spec fn merged(
    mine: Map<Seq<u8>, AuthorInfo>,
    other: Map<Seq<u8>, AuthorInfo>,
) -> Map<Seq<u8>, AuthorInfo> {
    Map::new(
        |a: Seq<u8>| mine.dom().contains(a) || further(mine, other, a),
        |a: Seq<u8>|
            if further(mine, other, a) {
                other[a]
            } else {
                mine[a]
            },
    )
}

/// A range is listed of every author whom the peer knows and of whose entries the peer
/// has more: it leads from the last number that we have, or zero where we do not know
/// the author, to the peer's. No other range is listed, and no author twice.
pub proof fn law_diff_is_what_the_peer_has_more(
    mine: Map<Seq<u8>, AuthorInfo>,
    peer: Map<Seq<u8>, AuthorInfo>,
    authors: Seq<Seq<u8>>,
)
    requires
        authors.no_duplicates(),
        forall|a: Seq<u8>| #[trigger] authors.contains(a) ==> peer.dom().contains(a),
    ensures
        ({
            let r = missing(mine, peer, authors);
            &&& forall|a: Seq<u8>| #[trigger]
                authors.contains(a) && mine.dom().contains(a) && peer[a].seq > mine[a].seq
                    ==> exists|i: int|
                    0 <= i < r.len() && (#[trigger] r[i]).author == a && r[i].from_seq
                        == mine[a].seq && r[i].from_hash == mine[a].hash@ && r[i].to_seq
                        == peer[a].seq
            &&& forall|a: Seq<u8>| #[trigger]
                authors.contains(a) && !mine.dom().contains(a) && peer[a].seq > 0 ==> exists|i: int|
                    0 <= i < r.len() && (#[trigger] r[i]).author == a && r[i].from_seq == 0
                        && r[i].from_hash == Seq::new(32, |k: int| 0u8) && r[i].to_seq
                        == peer[a].seq
            &&& forall|i: int|
                0 <= i < r.len() ==> {
                    let a = (#[trigger] r[i]).author;
                    &&& authors.contains(a)
                    &&& r[i].to_seq == peer[a].seq
                    &&& mine.dom().contains(a) ==> r[i].from_seq == mine[a].seq && (r[i].to_seq
                        > r[i].from_seq)
                    &&& !mine.dom().contains(a) ==> r[i].from_seq == 0 && r[i].to_seq > 0
                }
            &&& forall|i: int, j: int|
                0 <= i < j < r.len() ==> (#[trigger] r[i]).author != (#[trigger] r[j]).author
        }),
    decreases authors.len(),
{
    if authors.len() > 0 {
        let before = authors.drop_last();
        let x = authors.last();
        let q = missing(mine, peer, before);
        let r = missing(mine, peer, authors);
        assert(authors[authors.len() - 1] == x);
        assert forall|a: Seq<u8>| #[trigger] before.contains(a) implies authors.contains(a) && a
            != x by {
            let k = before.index_of(a);
            assert(authors[k] == a);
        }
        assert forall|a: Seq<u8>| #[trigger] authors.contains(a) && a != x implies before.contains(
            a,
        ) by {
            let k = authors.index_of(a);
            assert(before[k] == a);
        }
        assert(before.no_duplicates());
        law_diff_is_what_the_peer_has_more(mine, peer, before);
        assert forall|i: int| 0 <= i < q.len() implies #[trigger] r[i] == q[i] by {}
        assert forall|a: Seq<u8>| #[trigger]
            authors.contains(a) && mine.dom().contains(a) && peer[a].seq
                > mine[a].seq implies exists|i: int|
            0 <= i < r.len() && (#[trigger] r[i]).author == a && r[i].from_seq == mine[a].seq
                && r[i].from_hash == mine[a].hash@ && r[i].to_seq == peer[a].seq by {
            if a != x {
                assert(before.contains(a));
                let i = choose|i: int|
                    0 <= i < q.len() && (#[trigger] q[i]).author == a && q[i].from_seq
                        == mine[a].seq && q[i].from_hash == mine[a].hash@ && q[i].to_seq
                        == peer[a].seq;
                assert(r[i] == q[i]);
            } else {
                assert(r[r.len() - 1].author == a);
            }
        }
        assert(bytes::zeros(32) =~= Seq::new(32, |k: int| 0u8));
        assert forall|a: Seq<u8>| #[trigger]
            authors.contains(a) && !mine.dom().contains(a) && peer[a].seq
                > 0 implies exists|i: int|
            0 <= i < r.len() && (#[trigger] r[i]).author == a && r[i].from_seq == 0
                && r[i].from_hash == Seq::new(32, |k: int| 0u8) && r[i].to_seq == peer[a].seq by {
            if a != x {
                assert(before.contains(a));
                let i = choose|i: int|
                    0 <= i < q.len() && (#[trigger] q[i]).author == a && q[i].from_seq == 0
                        && q[i].from_hash == Seq::new(32, |k: int| 0u8) && q[i].to_seq
                        == peer[a].seq;
                assert(r[i] == q[i]);
            } else {
                assert(r[r.len() - 1].author == a);
            }
        }
        assert forall|i: int, j: int| 0 <= i < j < r.len() implies (#[trigger] r[i]).author != (
        #[trigger] r[j]).author by {
            assert(r[i] == q[i]);
            assert(before.contains(q[i].author));
            if j < q.len() {
                assert(r[j] == q[j]);
            }
        }
        assert forall|i: int| 0 <= i < r.len() implies {
            let a = (#[trigger] r[i]).author;
            &&& authors.contains(a)
            &&& r[i].to_seq == peer[a].seq
            &&& mine.dom().contains(a) ==> r[i].from_seq == mine[a].seq && (r[i].to_seq
                > r[i].from_seq)
            &&& !mine.dom().contains(a) ==> r[i].from_seq == 0 && r[i].to_seq > 0
        } by {
            if i < q.len() {
                assert(r[i] == q[i]);
                assert(before.contains(q[i].author));
            }
        }
    }
}

/// Ascending keys are listed once.
proof fn lemma_listed_once(keys: Seq<Seq<u8>>)
    requires
        table::ascending(keys),
    ensures
        keys.no_duplicates(),
{
    assert forall|i: int, j: int| 0 <= i < j < keys.len() implies keys[i] != keys[j] by {
        bytes::lemma_lex_irreflexive(keys[i]);
    }
}

/// After a merge an author is known whom either side knows and of whom an entry has been seen. What is known of the
/// author is the other side's where that has got further, and otherwise our own.
pub proof fn law_merge_keeps_the_further(
    mine: Map<Seq<u8>, AuthorInfo>,
    other: Map<Seq<u8>, AuthorInfo>,
    a: Seq<u8>,
)
    ensures
        !mine.dom().contains(a) && !other.dom().contains(a) ==> !merged(mine, other).dom().contains(
            a,
        ),
        mine.dom().contains(a) && !other.dom().contains(a) ==> merged(mine, other).dom().contains(a)
            && merged(mine, other)[a] == mine[a],
        !mine.dom().contains(a) && other.dom().contains(a) && other[a].seq > 0 ==> merged(mine, other).dom().contains(a)
            && merged(mine, other)[a] == other[a],
        mine.dom().contains(a) && other.dom().contains(a) && other[a].seq > mine[a].seq ==> merged(
            mine,
            other,
        ).dom().contains(a) && merged(mine, other)[a] == other[a],
        mine.dom().contains(a) && other.dom().contains(a) && other[a].seq <= mine[a].seq ==> merged(
            mine,
            other,
        ).dom().contains(a) && merged(mine, other)[a] == mine[a],
{
}

/// After learning what a peer has seen, nothing of it is missing.
pub proof fn law_merge_closes_the_gap(
    mine: Map<Seq<u8>, AuthorInfo>,
    peer: Map<Seq<u8>, AuthorInfo>,
    authors: Seq<Seq<u8>>,
)
    requires
        forall|i: int| 0 <= i < authors.len() ==> peer.dom().contains(#[trigger] authors[i]),
    ensures
        missing(merged(mine, peer), peer, authors) == Seq::<MissingModel>::empty(),
    decreases authors.len(),
{
    if authors.len() > 0 {
        assert(peer.dom().contains(authors[authors.len() - 1]));
        assert forall|i: int| 0 <= i < authors.len() - 1 implies peer.dom().contains(
            #[trigger] authors.drop_last()[i],
        ) by {
            assert(authors.drop_last()[i] == authors[i]);
        }
        law_merge_closes_the_gap(mine, peer, authors.drop_last());
    }
}

/// Merging takes the further sequence number of every author.
pub proof fn law_merge_takes_the_maximum(
    a: Map<Seq<u8>, AuthorInfo>,
    b: Map<Seq<u8>, AuthorInfo>,
    author: Seq<u8>,
)
    ensures
        seq_of(merged(a, b), author) == if seq_of(a, author) >= seq_of(b, author) {
            seq_of(a, author)
        } else {
            seq_of(b, author)
        },
{
}

/// How far every author's chain has been seen.
pub struct SyncState {
    authors: Table<AuthorInfo>,
}

impl View for SyncState {
    type V = Map<Seq<u8>, AuthorInfo>;

    closed spec fn view(&self) -> Map<Seq<u8>, AuthorInfo> {
        self.authors@
    }
}

impl Default for SyncState {
    /// Nothing has been seen.
    fn default() -> (r: Self)
        ensures
            r.wf(),
            r@ == Map::<Seq<u8>, AuthorInfo>::empty(),
    {
        SyncState::new()
    }
}

impl SyncState {
    /// The table is well formed, and all authors are public keys.
    pub closed spec fn wf(&self) -> bool {
        &&& self.authors.wf()
        &&& forall|k: Seq<u8>| #[trigger] self.authors@.dom().contains(k) ==> k.len() == 32
    }

    /// Nothing has been seen.
    pub fn new() -> (r: Self)
        ensures
            r.wf(),
            r@ == Map::<Seq<u8>, AuthorInfo>::empty(),
    {
        SyncState { authors: Table::new() }
    }

    /// What is known of an author.
    pub fn get(&self, author: &Author) -> (r: Option<&AuthorInfo>)
        requires
            self.wf(),
        ensures
            match r {
                Some(info) => self@.dom().contains(author@) && *info == self@[author@],
                None => !self@.dom().contains(author@),
            },
    {
        self.authors.get(author.as_slice())
    }

    /// The last sequence number of an author; zero for an author who is not
    /// known.
    pub fn seq(&self, author: &Author) -> (r: u64)
        requires
            self.wf(),
        ensures
            r == seq_of(self@, author@),
    {
        match self.get(author) {
            Some(info) => info.seq,
            None => 0,
        }
    }

    /// Sets what is known of an author.
    pub fn set(&mut self, author: Author, seq: u64, hash: Digest)
        requires
            old(self).wf(),
        ensures
            final(self).wf(),
            final(self)@ == old(self)@.insert(author@, AuthorInfo { seq, hash }),
    {
        self.authors.insert(author.as_slice(), AuthorInfo { seq, hash });
    }

    /// All authors with what is known of them, in the order of the authors.
    pub fn authors(&self) -> (r: &Table<AuthorInfo>)
        requires
            self.wf(),
        ensures
            r.wf(),
            r@ == self@,
            r.keys() == table::sorted_keys(self@.dom()),
    {
        proof {
            self.authors.lemma_listed();
        }
        &self.authors
    }

    /// What is missing compared to a peer, in the order of the authors.
    pub fn diff(&self, peer: &SyncState) -> (r: Vec<MissingRange>)
        requires
            self.wf(),
            peer.wf(),
        ensures
            message::models(r@) == missing(self@, peer@, table::sorted_keys(peer@.dom())),
            // Every author of whom the peer has more is listed, from our last number on.
            forall|a: Seq<u8>| #[trigger]
                peer@.dom().contains(a) && peer@[a].seq > (if self@.dom().contains(a) {
                    self@[a].seq
                } else {
                    0
                }) ==> exists|i: int|
                    0 <= i < r@.len() && (#[trigger] r@[i]).author@ == a && r@[i].to_seq
                        == peer@[a].seq && r@[i].from_seq == (if self@.dom().contains(a) {
                        self@[a].seq
                    } else {
                        0
                    }),
    {
        let ghost keys = peer.authors.keys();
        let mut out: Vec<MissingRange> = Vec::new();
        let mut i: usize = 0;
        proof {
            peer.authors.lemma_listed();
            assert(keys.take(0) =~= Seq::empty());
            assert(message::models(out@) =~= Seq::empty());
        }
        while i < peer.authors.len()
            invariant
                self.wf(),
                peer.wf(),
                keys == peer.authors.keys(),
                table::lists(keys, peer.authors@.dom()),
                i <= keys.len(),
                message::models(out@) == missing(self@, peer@, keys.take(i as int)),
            decreases keys.len() - i,
        {
            let ghost before = out@;
            proof {
                assert(keys.contains(keys[i as int]));
                assert(peer.authors@.dom().contains(keys[i as int]));
                assert(keys.take(i + 1).drop_last() =~= keys.take(i as int));
                assert(keys.take(i + 1).last() == keys[i as int]);
            }
            let author: Author = to_array32(peer.authors.key_at(i).as_slice());
            let to_seq: u64 = peer.authors.value_at(i).seq;
            let from_seq: u64 = self.seq(&author);
            if to_seq > from_seq {
                let from_hash: Digest = match self.get(&author) {
                    Some(info) => info.hash,
                    None => {
                        let zero: Digest = [0u8;32];
                        assert(zero@ =~= bytes::zeros(32));
                        zero
                    },
                };
                let range = MissingRange { author, from_seq, from_hash, to_seq };
                out.push(range);
                assert(message::models(out@) =~= message::models(before).push(range@));
            }
            i += 1;
        }
        assert(keys.take(i as int) =~= keys);
        proof {
            lemma_listed_once(keys);
            law_diff_is_what_the_peer_has_more(self@, peer@, keys);
            let ranges = message::models(out@);
            assert forall|a: Seq<u8>| #[trigger]
                peer@.dom().contains(a) && peer@[a].seq > (if self@.dom().contains(a) {
                    self@[a].seq
                } else {
                    0
                }) implies exists|i: int|
                0 <= i < out@.len() && (#[trigger] out@[i]).author@ == a && out@[i].to_seq
                    == peer@[a].seq && out@[i].from_seq == (if self@.dom().contains(a) {
                    self@[a].seq
                } else {
                    0
                }) by {
                assert(keys.contains(a));
                let i = choose|i: int|
                    0 <= i < ranges.len() && (#[trigger] ranges[i]).author == a
                        && ranges[i].to_seq == peer@[a].seq && ranges[i].from_seq == (
                    if self@.dom().contains(a) {
                        self@[a].seq
                    } else {
                        0
                    });
                assert(out@[i]@ == ranges[i]);
            }
        }
        out
    }

    /// Takes over what the other side has seen further.
    pub fn merge(&mut self, other: &SyncState)
        requires
            old(self).wf(),
            other.wf(),
        ensures
            final(self).wf(),
            final(self)@ == merged(old(self)@, other@),
    {
        let ghost mine = self@;
        let ghost keys = other.authors.keys();
        proof {
            other.authors.lemma_listed();
        }
        let mut i: usize = 0;
        while i < other.authors.len()
            invariant
                self.wf(),
                other.wf(),
                keys == other.authors.keys(),
                table::lists(keys, other.authors@.dom()),
                i <= keys.len(),
                forall|a: Seq<u8>| #[trigger]
                    self@.dom().contains(a) <==> mine.dom().contains(a) || (keys.take(
                        i as int,
                    ).contains(a) && further(mine, other@, a)),
                forall|a: Seq<u8>| #[trigger]
                    self@.dom().contains(a) ==> self@[a] == if keys.take(i as int).contains(a)
                        && further(mine, other@, a) {
                        other@[a]
                    } else {
                        mine[a]
                    },
            decreases keys.len() - i,
        {
            proof {
                table::lemma_take_contains(keys, i as int);
                assert(keys.contains(keys[i as int]));
                assert(other.authors@.dom().contains(keys[i as int]));
                assert(!keys.take(i as int).contains(keys[i as int])) by {
                    if keys.take(i as int).contains(keys[i as int]) {
                        let j = keys.take(i as int).index_of(keys[i as int]);
                        table::lemma_ascending_unique(keys, j, i as int);
                    }
                }
            }
            let author: Author = to_array32(other.authors.key_at(i).as_slice());
            let info = *other.authors.value_at(i);
            if info.seq > self.seq(&author) {
                self.set(author, info.seq, info.hash);
            }
            i += 1;
        }
        proof {
            assert(keys.take(i as int) =~= keys);
            assert(self@ =~= merged(mine, other@));
        }
    }
}

} // verus!
