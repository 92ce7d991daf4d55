//! The heads of a key's history: what each head is, which of them wins, and
//! what a new head does to the others.
use crate::bytes;
use crate::bytes::{bytes_eq, bytes_lt, to_array32, to_vec, Digest, PubKey};
use crate::entry;
use crate::hlc::HLC;
use crate::message;
use crate::message::{DecodeError, Message};
use crate::proto::storage as proto;
use crate::proto::storage::{HeadInfo, HeadInfoModel, HeadList, HeadListModel, Hlc};
use crate::sorting;
use crate::sorting::Ranked;
use vstd::prelude::*;
use vstd::string::*;

verus! {

/// What can be wrong with a stored head.
#[derive(Debug, PartialEq, Eq)]
pub enum HeadError {
    /// The author is not a public key.
    InvalidAuthor(String),
    /// The hash is not a hash.
    InvalidHash(String),
    /// The bytes are not an encoded head.
    Decode(DecodeError),
    /// The timestamp is missing.
    InvalidHlc,
}

/// One head of a key's history: a value that no later entry has superseded, or
/// the mark that the key was deleted.
#[derive(Debug, PartialEq, Eq)]
pub struct Head {
    pub value: Vec<u8>,
    pub hlc: HLC,
    pub author: PubKey,
    pub hash: Digest,
    pub tombstone: bool,
}

/// The model of [`Head`].
pub struct HeadModel {
    pub value: Seq<u8>,
    pub hlc: HLC,
    pub author: Seq<u8>,
    pub hash: Seq<u8>,
    pub tombstone: bool,
}

impl View for Head {
    type V = HeadModel;

    open spec fn view(&self) -> HeadModel {
        HeadModel {
            value: self.value@,
            hlc: self.hlc,
            author: self.author@,
            hash: self.hash@,
            tombstone: self.tombstone,
        }
    }
}

impl Clone for Head {
    fn clone(&self) -> (r: Self)
        ensures
            r@ == self@,
    {
        Head {
            value: to_vec(self.value.as_slice()),
            hlc: self.hlc,
            author: self.author,
            hash: self.hash,
            tombstone: self.tombstone,
        }
    }
}

/// What is wrong with a stored head, as the text of its error; `None` where it
/// is well formed. The timestamp is looked at first, the hash last.
pub open spec fn head_fault(p: HeadInfoModel) -> Option<Seq<char>> {
    if p.hlc is None {
        Some("Invalid HLC in HeadInfo"@)
    } else if p.author.len() != 32 {
        Some("Invalid author bytes: "@ + "invalid length"@)
    } else if p.hash.len() != 32 {
        Some("Invalid hash bytes: "@ + "invalid length"@)
    } else {
        None
    }
}

impl HeadModel {
    /// The head that a well-formed message holds.
    pub open spec fn from_info(p: HeadInfoModel) -> HeadModel {
        HeadModel {
            value: p.value,
            hlc: entry::loaded_hlc(p.hlc->0),
            author: p.author,
            hash: p.hash,
            tombstone: p.tombstone,
        }
    }

    /// The head as a message.
    pub open spec fn to_info(self) -> HeadInfoModel {
        HeadInfoModel {
            value: self.value,
            hlc: Some(entry::stored_hlc(self.hlc)),
            author: self.author,
            hash: self.hash,
            tombstone: self.tombstone,
        }
    }

    /// Author and hash have their proper lengths.
    pub open spec fn wf(self) -> bool {
        self.author.len() == 32 && self.hash.len() == 32
    }

    /// Whether this head wins over the other: the later timestamp does, and of
    /// two heads with the same timestamp the one with the greater author.
    pub open spec fn outranks(self, other: HeadModel) -> bool {
        other.hlc.before(self.hlc) || (self.hlc == other.hlc && bytes::lex_lt(
            other.author,
            self.author,
        ))
    }
}

impl HeadError {
    /// The text of the error.
    pub open spec fn text(self) -> Seq<char> {
        match self {
            HeadError::InvalidAuthor(why) => "Invalid author bytes: "@ + why@,
            HeadError::InvalidHash(why) => "Invalid hash bytes: "@ + why@,
            HeadError::Decode(e) => "Proto decode error: "@ + e.text(),
            HeadError::InvalidHlc => "Invalid HLC in HeadInfo"@,
        }
    }

    /// The text of the error.
    pub fn to_string(&self) -> (r: String)
        ensures
            r@ == self.text(),
    {
        match self {
            HeadError::InvalidAuthor(why) => "Invalid author bytes: ".to_owned().concat(
                why.as_str(),
            ),
            HeadError::InvalidHash(why) => "Invalid hash bytes: ".to_owned().concat(why.as_str()),
            HeadError::Decode(e) => "Proto decode error: ".to_owned().concat(
                e.to_string().as_str(),
            ),
            HeadError::InvalidHlc => "Invalid HLC in HeadInfo".to_owned(),
        }
    }
}

impl Head {
    /// The head that a message holds.
    pub fn from_info(p: HeadInfo) -> (r: Result<Head, HeadError>)
        ensures
            match r {
                Ok(head) => head_fault(p@) is None && head@ == HeadModel::from_info(p@),
                Err(HeadError::InvalidHlc) => p@.hlc is None,
                Err(HeadError::InvalidAuthor(why)) => p@.hlc is Some && p@.author.len() != 32
                    && why@ == "invalid length"@,
                Err(HeadError::InvalidHash(why)) => p@.hlc is Some && p@.author.len() == 32
                    && p@.hash.len() != 32 && why@ == "invalid length"@,
                Err(HeadError::Decode(_)) => false,
            },
            r matches Err(e) ==> head_fault(p@) == Some(e.text()),
    {
        let hlc = match p.hlc {
            Some(t) => HLC { wall_time: t.wall_time, counter: t.counter },
            None => {
                return Err(HeadError::InvalidHlc);
            },
        };
        if p.author.len() != 32 {
            return Err(HeadError::InvalidAuthor("invalid length".to_owned()));
        }
        if p.hash.len() != 32 {
            return Err(HeadError::InvalidHash("invalid length".to_owned()));
        }
        let author = to_array32(p.author.as_slice());
        let hash = to_array32(p.hash.as_slice());
        Ok(Head { value: p.value, hlc, author, hash, tombstone: p.tombstone })
    }

    /// The head as a message.
    pub fn to_info(&self) -> (r: HeadInfo)
        ensures
            r@ == self@.to_info(),
    {
        let hlc = Hlc { wall_time: self.hlc.wall_time, counter: self.hlc.counter };
        HeadInfo {
            value: to_vec(self.value.as_slice()),
            hlc: Some(hlc),
            author: to_vec(self.author.as_slice()),
            hash: to_vec(self.hash.as_slice()),
            tombstone: self.tombstone,
        }
    }

    /// Whether this head wins over the other.
    pub fn outranks(&self, other: &Head) -> (r: bool)
        ensures
            r == self@.outranks(other@),
    {
        other.hlc.is_before(&self.hlc) || (self.hlc == other.hlc && bytes_lt(
            other.author.as_slice(),
            self.author.as_slice(),
        ))
    }
}

// ---------------------------------------------------------------------------
// Rank
// ---------------------------------------------------------------------------

/// Rank is a strict order: no head wins over itself, and winning carries over.
pub proof fn lemma_outranks_order(a: HeadModel, b: HeadModel, c: HeadModel)
    ensures
        !a.outranks(a),
        a.outranks(b) ==> !b.outranks(a),
        a.outranks(b) && b.outranks(c) ==> a.outranks(c),
        a.outranks(c) ==> a.outranks(b) || b.outranks(c),
{
    bytes::lemma_lex_irreflexive(a.author);
    bytes::lemma_lex_total(a.author, b.author);
    bytes::lemma_lex_total(b.author, c.author);
    if bytes::lex_lt(a.author, b.author) && bytes::lex_lt(b.author, a.author) {
        bytes::lemma_lex_transitive(a.author, b.author, a.author);
    }
    if bytes::lex_lt(c.author, b.author) && bytes::lex_lt(b.author, a.author) {
        bytes::lemma_lex_transitive(c.author, b.author, a.author);
    }
    if bytes::lex_lt(c.author, a.author) && bytes::lex_lt(a.author, b.author) {
        bytes::lemma_lex_transitive(c.author, a.author, b.author);
    }
}

/// The head that wins: of those that no other outranks, the last one.
pub open spec fn winner(heads: Seq<HeadModel>) -> Option<HeadModel>
    decreases heads.len(),
{
    if heads.len() == 0 {
        None
    } else {
        match winner(heads.drop_last()) {
            Some(w) => if w.outranks(heads.last()) {
                Some(w)
            } else {
                Some(heads.last())
            },
            None => Some(heads.last()),
        }
    }
}

/// The winner is one of the heads, and none of them outranks it.
pub proof fn law_winner_is_best(heads: Seq<HeadModel>)
    requires
        heads.len() > 0,
    ensures
        winner(heads) matches Some(w) && heads.contains(w) && forall|i: int|
            0 <= i < heads.len() ==> !(#[trigger] heads[i]).outranks(w),
    decreases heads.len(),
{
    let last = heads.last();
    assert(heads[heads.len() - 1] == last);
    let w = winner(heads)->0;
    if heads.len() > 1 {
        let before = heads.drop_last();
        law_winner_is_best(before);
        let v = winner(before)->0;
        let k = before.index_of(v);
        assert(heads[k] == v);
        assert forall|i: int| 0 <= i < heads.len() implies !(#[trigger] heads[i]).outranks(w) by {
            if i < heads.len() - 1 {
                assert(before[i] == heads[i]);
                lemma_outranks_order(heads[i], w, v);
                lemma_outranks_order(heads[i], v, last);
            } else {
                lemma_outranks_order(last, last, last);
                lemma_outranks_order(v, last, v);
            }
        }
    } else {
        lemma_outranks_order(last, last, last);
    }
}

/// A head with a later wall time wins over one with an earlier one; of two with the
/// same wall time, the one with the greater counter; and where the timestamps are the
/// same, the one whose author has the greater byte at the first place where they differ.
/// Of two heads that agree in all of these, neither wins.
pub proof fn law_later_head_wins(a: HeadModel, b: HeadModel)
    ensures
        b.hlc.wall_time < a.hlc.wall_time ==> a.outranks(b) && !b.outranks(a),
        b.hlc.wall_time == a.hlc.wall_time && b.hlc.counter < a.hlc.counter ==> a.outranks(b)
            && !b.outranks(a),
        forall|i: int|
            b.hlc.wall_time == a.hlc.wall_time && b.hlc.counter == a.hlc.counter && 0 <= i
                < a.author.len() && i < b.author.len() && #[trigger] a.author.take(i)
                == b.author.take(i) && b.author[i] < a.author[i] ==> a.outranks(b)
                && !b.outranks(a),
        b.hlc.wall_time == a.hlc.wall_time && b.hlc.counter == a.hlc.counter && b.author == a.author
            ==> !a.outranks(b) && !b.outranks(a),
{
    bytes::law_first_difference_decides(b.author, a.author);
    lemma_outranks_order(a, b, a);
    bytes::lemma_lex_irreflexive(a.author);
    assert forall|i: int|
        b.hlc.wall_time == a.hlc.wall_time && b.hlc.counter == a.hlc.counter && 0 <= i
            < a.author.len() && i < b.author.len() && #[trigger] a.author.take(i)
            == b.author.take(i) && b.author[i] < a.author[i] implies a.outranks(b) && !b.outranks(
        a,
    ) by {
        assert(b.author.take(i) == a.author.take(i));
    }
}

/// The winner is one of the heads, and no head has a later timestamp: none has a later
/// wall time, and none with the same wall time has a greater counter. Of the heads with
/// the winner's timestamp, none has an author with a greater byte at the first place
/// where it differs from the winner's.
pub proof fn law_winner_is_the_latest(heads: Seq<HeadModel>)
    ensures
        heads.len() == 0 <==> winner(heads) is None,
        winner(heads) matches Some(w) ==> {
            &&& heads.contains(w)
            &&& forall|i: int|
                0 <= i < heads.len() ==> (#[trigger] heads[i]).hlc.wall_time <= w.hlc.wall_time
            &&& forall|i: int|
                0 <= i < heads.len() && (#[trigger] heads[i]).hlc.wall_time == w.hlc.wall_time
                    ==> heads[i].hlc.counter <= w.hlc.counter
            &&& forall|i: int, j: int|
                0 <= i < heads.len() && heads[i].hlc == w.hlc && 0 <= j < w.author.len() && j
                    < heads[i].author.len() && #[trigger] heads[i].author.take(j) == w.author.take(
                    j,
                ) ==> heads[i].author[j] <= w.author[j]
        },
{
    if heads.len() > 0 {
        law_winner_is_best(heads);
        let w = winner(heads)->0;
        assert forall|i: int| 0 <= i < heads.len() implies !(#[trigger] heads[i]).outranks(w)
            && heads[i].hlc.wall_time <= w.hlc.wall_time && (heads[i].hlc.wall_time
            == w.hlc.wall_time ==> heads[i].hlc.counter <= w.hlc.counter) by {
            law_later_head_wins(heads[i], w);
        }
        assert forall|i: int, j: int|
            0 <= i < heads.len() && heads[i].hlc == w.hlc && 0 <= j < w.author.len() && j
                < heads[i].author.len() && #[trigger] heads[i].author.take(j) == w.author.take(
                j,
            ) implies heads[i].author[j] <= w.author[j] by {
            assert(!heads[i].outranks(w));
            law_later_head_wins(heads[i], w);
        }
    }
}

/// Of heads with the same timestamp and author, the last one wins.
pub proof fn law_last_of_equals_wins(heads: Seq<HeadModel>, j: int)
    requires
        0 <= j < heads.len(),
        winner(heads) matches Some(w) && heads[j].hlc == w.hlc && heads[j].author == w.author,
    ensures
        exists|k: int| j <= k < heads.len() && #[trigger] heads[k] == winner(heads)->0,
    decreases heads.len(),
{
    let before = heads.drop_last();
    let last = heads.last();
    bytes::lemma_lex_irreflexive(last.author);
    assert(heads[heads.len() - 1] == last);
    if j < heads.len() - 1 {
        assert(before[j] == heads[j]);
        law_winner_is_best(before);
        let v = winner(before)->0;
        if v.outranks(last) {
            law_last_of_equals_wins(before, j);
            let k = choose|k: int| j <= k < before.len() && #[trigger] before[k] == winner(before)->0;
            assert(heads[k] == winner(heads)->0);
        }
    } else {
        // The last head is as good as the winner, which then does not outrank it.
        if before.len() > 0 {
            law_winner_is_best(before);
        }
    }
}

/// The value of a key is that of a head than which no head is later, and the key has
/// none only where there is no head or such a head marks a deletion.
pub proof fn law_value_is_the_latest(heads: Seq<HeadModel>)
    ensures
        match live_head(heads) {
            Some(h) => heads.contains(h) && !h.tombstone && forall|i: int|
                0 <= i < heads.len() ==> (#[trigger] heads[i]).hlc.wall_time <= h.hlc.wall_time && (
                heads[i].hlc.wall_time == h.hlc.wall_time ==> heads[i].hlc.counter
                    <= h.hlc.counter),
            None => heads.len() == 0 || exists|k: int|
                0 <= k < heads.len() && (#[trigger] heads[k]).tombstone && forall|i: int|
                    0 <= i < heads.len() ==> (#[trigger] heads[i]).hlc.wall_time
                        <= heads[k].hlc.wall_time && (heads[i].hlc.wall_time
                        == heads[k].hlc.wall_time ==> heads[i].hlc.counter
                        <= heads[k].hlc.counter),
        },
{
    law_winner_is_the_latest(heads);
    if heads.len() > 0 {
        let w = winner(heads)->0;
        let k = heads.index_of(w);
        assert(heads[k] == w);
    }
}

/// Whichever way the heads are listed, the same head wins, provided no two of
/// them have the same rank.
pub proof fn law_winner_is_deterministic(a: Seq<HeadModel>, b: Seq<HeadModel>)
    requires
        a.to_multiset() == b.to_multiset(),
        forall|i: int, j: int|
            0 <= i < j < a.len() ==> (#[trigger] a[i]).outranks(#[trigger] a[j]) || a[j].outranks(
                a[i],
            ),
    ensures
        winner(a) == winner(b),
{
    broadcast use vstd::seq_lib::group_to_multiset_ensures;

    assert(a.len() == a.to_multiset().len() && b.len() == b.to_multiset().len());
    if a.len() > 0 {
        law_winner_is_best(a);
        law_winner_is_best(b);
        let v = winner(a)->0;
        let w = winner(b)->0;
        assert(a.to_multiset().count(v) > 0);
        assert(b.contains(v));
        assert(b.to_multiset().count(w) > 0);
        assert(a.contains(w));
        let i = a.index_of(v);
        let j = a.index_of(w);
        let k = b.index_of(v);
        assert(!a[j].outranks(v));
        assert(!b[k].outranks(w));
        if i < j {
            assert(a[i].outranks(a[j]) || a[j].outranks(a[i]));
        } else if j < i {
            assert(a[j].outranks(a[i]) || a[i].outranks(a[j]));
        }
    }
}

/// The models of a run of heads.
pub open spec fn head_models(heads: Seq<Head>) -> Seq<HeadModel> {
    heads.map_values(|h: Head| h@)
}

/// The head that wins: the one with the latest timestamp, and of those the one
/// with the greatest author. Of equals, the last one is taken.
pub fn pick_winner(heads: &[Head]) -> (r: Option<&Head>)
    ensures
        match winner(head_models(heads@)) {
            Some(w) => r matches Some(h) && h@ == w && heads@.contains(*h),
            None => r is None,
        },
{
    if heads.len() == 0 {
        return None;
    }
    let ghost all = head_models(heads@);
    let mut best: usize = 0;
    let mut i: usize = 1;
    proof {
        assert(all.take(1).drop_last() =~= Seq::empty());
        reveal_with_fuel(winner, 2);
        assert(winner(all.take(1)) == Some(all[0]));
    }
    while i < heads.len()
        invariant
            1 <= i <= heads@.len(),
            best < i,
            all == head_models(heads@),
            winner(all.take(i as int)) == Some(heads@[best as int]@),
        decreases heads@.len() - i,
    {
        proof {
            assert(all.take(i + 1).drop_last() =~= all.take(i as int));
            assert(all.take(i + 1).last() == heads@[i as int]@);
        }
        if !heads[best].outranks(&heads[i]) {
            best = i;
        }
        i += 1;
    }
    assert(all.take(i as int) =~= all);
    Some(&heads[best])
}

// ---------------------------------------------------------------------------
// Sorting
// ---------------------------------------------------------------------------

impl Ranked for Head {
    /// A head belongs before those that it outranks.
    open spec fn precedes(a: HeadModel, b: HeadModel) -> bool {
        a.outranks(b)
    }

    proof fn lemma_order(a: HeadModel, b: HeadModel, c: HeadModel) {
        lemma_outranks_order(a, b, c);
    }

    fn ranks_before(&self, other: &Head) -> (r: bool) {
        self.outranks(other)
    }
}

/// The heads from the winner down. Heads of the same rank keep their order.
pub open spec fn ranked(heads: Seq<HeadModel>) -> Seq<HeadModel> {
    sorting::sorted::<Head>(heads)
}

/// No heads and one head are sorted.
pub proof fn lemma_ranked_few(h: HeadModel)
    ensures
        ranked(Seq::empty()) == Seq::<HeadModel>::empty(),
        ranked(seq![h]) == seq![h],
{
    reveal_with_fuel(sorting::sorted, 2);
    reveal_with_fuel(sorting::sorted_insert, 2);
    assert(seq![h].drop_last() =~= Seq::empty());
    assert(sorting::sorted_insert::<Head>(Seq::empty(), h) =~= seq![h]);
}

/// The first of the sorted heads outranks, or is of equal rank with, the winner;
/// none of the heads outranks it.
pub proof fn law_ranked_first_is_best(heads: Seq<HeadModel>)
    requires
        heads.len() > 0,
    ensures
        ranked(heads).len() > 0,
        heads.contains(ranked(heads)[0]),
        forall|i: int| 0 <= i < heads.len() ==> !(#[trigger] heads[i]).outranks(ranked(heads)[0]),
{
    broadcast use vstd::seq_lib::group_to_multiset_ensures;

    sorting::law_sorted::<Head>(heads);
    let r = ranked(heads);
    assert(r.len() == r.to_multiset().len());
    assert(heads.len() == heads.to_multiset().len());
    assert(r.to_multiset().count(r[0]) > 0);
    assert forall|i: int| 0 <= i < heads.len() implies !(#[trigger] heads[i]).outranks(r[0]) by {
        assert(heads.contains(heads[i]));
        assert(heads.to_multiset().count(heads[i]) > 0);
        assert(r.contains(heads[i]));
        let k = r.index_of(heads[i]);
        lemma_outranks_order(r[0], r[0], r[0]);
        if k > 0 {
            assert(!r[k].outranks(r[0]));
        }
    }
}

/// Sorting keeps every head, as often as it occurs, and leaves no head behind one with
/// an earlier timestamp. Of two heads with the same timestamp, the first has no smaller
/// byte at the first place where their authors differ.
pub proof fn law_ranked_goes_back_in_time(heads: Seq<HeadModel>)
    ensures
        ranked(heads).to_multiset() == heads.to_multiset(),
        ranked(heads).len() == heads.len(),
        forall|i: int, j: int|
            0 <= i < j < heads.len() ==> (#[trigger] ranked(heads)[i]).hlc.wall_time >= (
            #[trigger] ranked(heads)[j]).hlc.wall_time,
        forall|i: int, j: int|
            0 <= i < j < heads.len() && (#[trigger] ranked(heads)[i]).hlc.wall_time == (
            #[trigger] ranked(heads)[j]).hlc.wall_time ==> ranked(heads)[i].hlc.counter >= ranked(
                heads,
            )[j].hlc.counter,
        forall|i: int, j: int, k: int|
            0 <= i < j < heads.len() && ranked(heads)[i].hlc == ranked(heads)[j].hlc && 0 <= k
                < ranked(heads)[i].author.len() && k < ranked(heads)[j].author.len()
                && #[trigger] ranked(heads)[i].author.take(k) == #[trigger] ranked(
                heads,
            )[j].author.take(k) ==> ranked(heads)[i].author[k] >= ranked(heads)[j].author[k],
{
    sorting::law_sorted::<Head>(heads);
    let r = ranked(heads);
    assert forall|i: int, j: int| 0 <= i < j < heads.len() implies (#[trigger] r[i]).hlc.wall_time
        >= (#[trigger] r[j]).hlc.wall_time && (r[i].hlc.wall_time == r[j].hlc.wall_time
        ==> r[i].hlc.counter >= r[j].hlc.counter) by {
        assert(!Head::precedes(r[j], r[i]));
        law_later_head_wins(r[j], r[i]);
    }
    assert forall|i: int, j: int, k: int|
        0 <= i < j < heads.len() && r[i].hlc == r[j].hlc && 0 <= k < r[i].author.len() && k
            < r[j].author.len() && #[trigger] r[i].author.take(k) == #[trigger] r[j].author.take(
            k,
        ) implies r[i].author[k] >= r[j].author[k] by {
        assert(!Head::precedes(r[j], r[i]));
        law_later_head_wins(r[j], r[i]);
        assert(r[j].author.take(k) == r[i].author.take(k));
    }
}

/// The heads from the winner down. Heads of the same rank keep their order.
pub fn sort_heads(heads: Vec<Head>) -> (r: Vec<Head>)
    ensures
        head_models(r@) == ranked(head_models(heads@)),
{
    let r = sorting::sort(heads);
    assert(message::models(heads@) =~= head_models(heads@));
    assert(message::models(r@) =~= head_models(r@));
    r
}

// ---------------------------------------------------------------------------
// New heads
// ---------------------------------------------------------------------------

/// Whether one of the heads comes from the entry with the given hash.
pub open spec fn has_hash(heads: Seq<HeadModel>, hash: Seq<u8>) -> bool {
    exists|i: int| 0 <= i < heads.len() && (#[trigger] heads[i]).hash == hash
}

/// What a new head makes of the heads: those that it names as its parents go,
/// and it comes last. A head of an entry that is there already changes nothing.
pub open spec fn with_head(
    heads: Seq<HeadModel>,
    new: HeadModel,
    parents: Seq<Seq<u8>>,
) -> Seq<HeadModel> {
    if has_hash(heads, new.hash) {
        heads
    } else {
        heads.filter(|h: HeadModel| !parents.contains(h.hash)).push(new)
    }
}

/// A new head joins those that it does not name as its parents, which keep their order;
/// the others go. Heads among which one has the new head's hash stay as they are.
pub proof fn law_new_head_replaces_its_parents(
    heads: Seq<HeadModel>,
    new: HeadModel,
    parents: Seq<Seq<u8>>,
)
    ensures
        ({
            let after = with_head(heads, new, parents);
            &&& (exists|i: int| 0 <= i < heads.len() && (#[trigger] heads[i]).hash == new.hash)
                ==> after == heads
            &&& (forall|i: int| 0 <= i < heads.len() ==> (#[trigger] heads[i]).hash != new.hash)
                ==> {
                &&& after.len() > 0
                &&& after.last() == new
                &&& after.drop_last() == heads.filter(|h: HeadModel| !parents.contains(h.hash))
                &&& forall|h: HeadModel| #[trigger]
                    after.contains(h) <==> h == new || (heads.contains(h) && !parents.contains(
                        h.hash,
                    ))
            }
        }),
{
    let after = with_head(heads, new, parents);
    let keep = |h: HeadModel| !parents.contains(h.hash);
    let kept = heads.filter(keep);
    if forall|i: int| 0 <= i < heads.len() ==> (#[trigger] heads[i]).hash != new.hash {
        assert(!has_hash(heads, new.hash));
        assert(after.drop_last() =~= kept);
        assert forall|h: HeadModel| #[trigger] after.contains(h) <==> h == new || (heads.contains(h)
            && !parents.contains(h.hash)) by {
            if after.contains(h) && h != new {
                let i = after.index_of(h);
                assert(kept[i] == h);
                heads.lemma_filter_contains_rev(keep, h);
                heads.lemma_filter_pred(keep, i);
            }
            if h == new {
                assert(after[after.len() - 1] == h);
            }
            if heads.contains(h) && !parents.contains(h.hash) {
                heads.lemma_filter_contains(keep, heads.index_of(h));
                let i = kept.index_of(h);
                assert(after[i] == h);
            }
        }
    }
}

/// Applying the same head again changes nothing.
pub proof fn law_with_head_idempotent(
    heads: Seq<HeadModel>,
    new: HeadModel,
    parents: Seq<Seq<u8>>,
)
    ensures
        with_head(with_head(heads, new, parents), new, parents) == with_head(heads, new, parents),
{
    let once = with_head(heads, new, parents);
    if !has_hash(heads, new.hash) {
        assert(once[once.len() - 1].hash == new.hash);
    }
}

/// A head that names no parents leaves all heads in place: concurrent writes
/// stay side by side.
pub proof fn law_concurrent_heads_are_kept(heads: Seq<HeadModel>, new: HeadModel)
    requires
        !has_hash(heads, new.hash),
    ensures
        with_head(heads, new, Seq::empty()) == heads.push(new),
{
    lemma_keep_all(heads, |h: HeadModel| !Seq::<Seq<u8>>::empty().contains(h.hash));
}

/// A head that names all heads as its parents is the only one left: a merge
/// resolves the conflict.
pub proof fn law_merge_leaves_one_head(
    heads: Seq<HeadModel>,
    new: HeadModel,
    parents: Seq<Seq<u8>>,
)
    requires
        !has_hash(heads, new.hash),
        forall|i: int| 0 <= i < heads.len() ==> parents.contains((#[trigger] heads[i]).hash),
    ensures
        with_head(heads, new, parents) == seq![new],
{
    lemma_keep_none(heads, |h: HeadModel| !parents.contains(h.hash));
    assert(Seq::<HeadModel>::empty().push(new) =~= seq![new]);
}

proof fn lemma_keep_all(heads: Seq<HeadModel>, keep: spec_fn(HeadModel) -> bool)
    requires
        forall|i: int| 0 <= i < heads.len() ==> keep(#[trigger] heads[i]),
    ensures
        heads.filter(keep) == heads,
    decreases heads.len(),
{
    reveal(Seq::filter);
    if heads.len() > 0 {
        assert forall|i: int| 0 <= i < heads.len() - 1 implies keep(
            #[trigger] heads.drop_last()[i],
        ) by {
            assert(heads.drop_last()[i] == heads[i]);
        }
        lemma_keep_all(heads.drop_last(), keep);
        assert(keep(heads[heads.len() - 1]));
        assert(heads.drop_last().push(heads.last()) =~= heads);
    }
}

proof fn lemma_keep_none(heads: Seq<HeadModel>, keep: spec_fn(HeadModel) -> bool)
    requires
        forall|i: int| 0 <= i < heads.len() ==> !keep(#[trigger] heads[i]),
    ensures
        heads.filter(keep) == Seq::<HeadModel>::empty(),
    decreases heads.len(),
{
    reveal(Seq::filter);
    if heads.len() > 0 {
        assert forall|i: int| 0 <= i < heads.len() - 1 implies !keep(
            #[trigger] heads.drop_last()[i],
        ) by {
            assert(heads.drop_last()[i] == heads[i]);
        }
        lemma_keep_none(heads.drop_last(), keep);
        assert(!keep(heads[heads.len() - 1]));
    } else {
        assert(heads =~= Seq::empty());
    }
}

/// Whether `hash` is one of `hashes`.
pub fn contains_digest(hashes: &Vec<Digest>, hash: &Digest) -> (r: bool)
    ensures
        r == entry::digests(hashes@).contains(hash@),
{
    let ghost all = entry::digests(hashes@);
    let mut i: usize = 0;
    while i < hashes.len()
        invariant
            i <= hashes@.len(),
            all == entry::digests(hashes@),
            forall|k: int| 0 <= k < i ==> all[k] != hash@,
        decreases hashes@.len() - i,
    {
        if bytes_eq(hashes[i].as_slice(), hash.as_slice()) {
            assert(all[i as int] == hash@);
            return true;
        }
        i += 1;
    }
    false
}

/// Whether one of the heads comes from the entry with the given hash.
pub fn contains_hash(heads: &Vec<Head>, hash: &Digest) -> (r: bool)
    ensures
        r == has_hash(head_models(heads@), hash@),
{
    let ghost all = head_models(heads@);
    let mut i: usize = 0;
    while i < heads.len()
        invariant
            i <= heads@.len(),
            all == head_models(heads@),
            forall|k: int| 0 <= k < i ==> (#[trigger] all[k]).hash != hash@,
        decreases heads@.len() - i,
    {
        if bytes_eq(heads[i].hash.as_slice(), hash.as_slice()) {
            assert(all[i as int].hash == hash@);
            return true;
        }
        i += 1;
    }
    false
}

/// What a new head makes of the heads.
pub fn add_head(heads: Vec<Head>, new: Head, parents: &Vec<Digest>) -> (r: Vec<Head>)
    ensures
        head_models(r@) == with_head(head_models(heads@), new@, entry::digests(parents@)),
{
    let ghost all = head_models(heads@);
    let ghost ps = entry::digests(parents@);
    let ghost keep = |h: HeadModel| !ps.contains(h.hash);
    if contains_hash(&heads, &new.hash) {
        return heads;
    }
    let mut out: Vec<Head> = Vec::new();
    let mut k: usize = 0;
    proof {
        reveal(Seq::filter);
        assert(all.take(0) =~= Seq::empty());
        assert(head_models(out@) =~= all.take(0).filter(keep));
    }
    while k < heads.len()
        invariant
            k <= heads@.len(),
            all == head_models(heads@),
            ps == entry::digests(parents@),
            keep == (|h: HeadModel| !ps.contains(h.hash)),
            head_models(out@) == all.take(k as int).filter(keep),
        decreases heads@.len() - k,
    {
        proof {
            reveal(Seq::filter);
            assert(all.take(k + 1).drop_last() =~= all.take(k as int));
            assert(all.take(k + 1).last() == heads@[k as int]@);
        }
        let ghost before = out@;
        if !contains_digest(parents, &heads[k].hash) {
            out.push(heads[k].clone());
            assert(head_models(out@) =~= head_models(before).push(heads@[k as int]@));
        }
        k += 1;
    }
    assert(all.take(k as int) =~= all);
    let ghost before = out@;
    let ghost x = new@;
    out.push(new);
    assert(head_models(out@) =~= head_models(before).push(x));
    out
}

// ---------------------------------------------------------------------------
// Stored heads
// ---------------------------------------------------------------------------

/// The heads as they are stored.
pub open spec fn stored_heads(heads: Seq<HeadModel>) -> Seq<u8> {
    message::encoded::<HeadList>(
        HeadListModel { heads: heads.map_values(|h: HeadModel| h.to_info()) },
    )
}

/// What is wrong with the first of the stored heads that is malformed.
pub open spec fn heads_fault(infos: Seq<HeadInfoModel>) -> Option<Seq<char>>
    decreases infos.len(),
{
    if infos.len() == 0 {
        None
    } else {
        match heads_fault(infos.drop_last()) {
            Some(text) => Some(text),
            None => head_fault(infos.last()),
        }
    }
}

/// Why stored heads cannot be read.
pub enum StoredFault {
    /// The bytes are not a list of heads.
    Decode(DecodeError),
    /// One of the heads is malformed, with the text of the error.
    Conversion(Seq<char>),
}

/// The heads that are stored in `b`.
pub open spec fn loaded_heads(b: Seq<u8>) -> Result<Seq<HeadModel>, StoredFault> {
    match message::decoded::<HeadList>(b) {
        None => Err(StoredFault::Decode(message::decode_error::<HeadList>(b))),
        Some(list) => match heads_fault(list.heads) {
            Some(text) => Err(StoredFault::Conversion(text)),
            None => Ok(list.heads.map_values(|p: HeadInfoModel| HeadModel::from_info(p))),
        },
    }
}

/// Why stored heads cannot be read.
#[derive(Debug, PartialEq, Eq)]
pub enum StoredError {
    /// The bytes are not a list of heads.
    Decode(DecodeError),
    /// One of the heads is malformed, with the text of the error.
    Conversion(String),
}

impl View for StoredError {
    type V = StoredFault;

    open spec fn view(&self) -> StoredFault {
        match self {
            StoredError::Decode(e) => StoredFault::Decode(*e),
            StoredError::Conversion(text) => StoredFault::Conversion(text@),
        }
    }
}

/// Reads the heads that are stored in `bytes`.
pub fn load_heads(bytes: &[u8]) -> (r: Result<Vec<Head>, StoredError>)
    ensures
        match loaded_heads(bytes@) {
            Ok(heads) => r matches Ok(v) && head_models(v@) == heads,
            Err(fault) => r matches Err(e) && e@ == fault,
        },
{
    let list = match message::decode::<HeadList>(bytes) {
        Ok(list) => list,
        Err(e) => {
            return Err(StoredError::Decode(e));
        },
    };
    let ghost infos = list@.heads;
    let infos_exec = list.heads;
    let mut out: Vec<Head> = Vec::new();
    let mut i: usize = 0;
    let ghost convert = |p: HeadInfoModel| HeadModel::from_info(p);
    assert(infos.take(0) =~= Seq::empty());
    assert(head_models(out@) =~= infos.take(0).map_values(convert));
    while i < infos_exec.len()
        invariant
            i <= infos_exec@.len(),
            infos == message::models(infos_exec@),
            convert == (|p: HeadInfoModel| HeadModel::from_info(p)),
            message::decoded::<HeadList>(bytes@) == Some(HeadListModel { heads: infos }),
            heads_fault(infos.take(i as int)) is None,
            head_models(out@) == infos.take(i as int).map_values(convert),
        decreases infos_exec@.len() - i,
    {
        let ghost before = out@;
        let info = infos_exec[i].duplicate();
        proof {
            assert(infos.take(i + 1).drop_last() =~= infos.take(i as int));
            assert(infos.take(i + 1).last() == info@);
        }
        match Head::from_info(info) {
            Ok(head) => {
                out.push(head);
                proof {
                    assert(head_models(out@) =~= head_models(before).push(head@));
                    assert(infos.take(i + 1).map_values(convert) =~= infos.take(
                        i as int,
                    ).map_values(convert).push(head@));
                }
            },
            Err(e) => {
                proof {
                    lemma_fault_stays(infos, i + 1);
                }
                return Err(StoredError::Conversion(e.to_string()));
            },
        }
        i += 1;
    }
    assert(infos.take(i as int) =~= infos);
    Ok(out)
}

/// A fault among the first heads is the fault of all of them.
proof fn lemma_fault_stays(infos: Seq<HeadInfoModel>, n: int)
    requires
        0 <= n <= infos.len(),
        heads_fault(infos.take(n)) is Some,
    ensures
        heads_fault(infos) == heads_fault(infos.take(n)),
    decreases infos.len() - n,
{
    if n == infos.len() {
        assert(infos.take(n) =~= infos);
    } else {
        assert(infos.take(n + 1).drop_last() =~= infos.take(n));
        lemma_fault_stays(infos, n + 1);
    }
}

/// The heads as they are stored.
pub fn store_heads(heads: &Vec<Head>) -> (r: Vec<u8>)
    ensures
        r@ == stored_heads(head_models(heads@)),
{
    let mut infos: Vec<HeadInfo> = Vec::new();
    let mut i: usize = 0;
    while i < heads.len()
        invariant
            i <= heads@.len(),
            infos@.len() == i,
            forall|k: int| 0 <= k < i ==> (#[trigger] infos@[k])@ == heads@[k]@.to_info(),
        decreases heads@.len() - i,
    {
        infos.push(heads[i].to_info());
        i += 1;
    }
    assert(message::models(infos@) =~= head_models(heads@).map_values(
        |h: HeadModel| h.to_info(),
    ));
    message::encode(&HeadList { heads: infos })
}

proof fn lemma_no_fault(infos: Seq<HeadInfoModel>)
    requires
        forall|i: int| 0 <= i < infos.len() ==> head_fault(#[trigger] infos[i]) is None,
    ensures
        heads_fault(infos) is None,
    decreases infos.len(),
{
    if infos.len() > 0 {
        assert forall|i: int| 0 <= i < infos.len() - 1 implies head_fault(
            #[trigger] infos.drop_last()[i],
        ) is None by {
            assert(infos.drop_last()[i] == infos[i]);
        }
        lemma_no_fault(infos.drop_last());
        assert(head_fault(infos[infos.len() - 1]) is None);
    }
}

/// Heads are read back as they were stored.
pub proof fn law_stored_heads_round_trip(heads: Seq<HeadModel>)
    requires
        forall|i: int| 0 <= i < heads.len() ==> (#[trigger] heads[i]).wf(),
        stored_heads(heads).len() <= u64::MAX,
    ensures
        loaded_heads(stored_heads(heads)) == Ok::<Seq<HeadModel>, StoredFault>(heads),
{
    let infos = heads.map_values(|h: HeadModel| h.to_info());
    proto::law_head_list_round_trip(HeadListModel { heads: infos });
    assert forall|i: int| 0 <= i < infos.len() implies head_fault(#[trigger] infos[i]) is None by {
        assert(heads[i].wf());
    }
    lemma_no_fault(infos);
    assert(infos.map_values(|p: HeadInfoModel| HeadModel::from_info(p)) =~= heads);
}

/// The head whose value the key has: the winner, unless it marks a deletion.
pub open spec fn live_head(heads: Seq<HeadModel>) -> Option<HeadModel> {
    match winner(heads) {
        Some(w) if !w.tombstone => Some(w),
        _ => None,
    }
}

/// The head whose value the key has: the last writer wins.
pub fn lww_head(heads: &[Head]) -> (r: Option<&Head>)
    ensures
        match live_head(head_models(heads@)) {
            Some(h) => r matches Some(x) && x@ == h,
            None => r is None,
        },
{
    match pick_winner(heads) {
        Some(w) => if w.tombstone {
            None
        } else {
            Some(w)
        },
        None => None,
    }
}

/// The value of the key: the last writer wins.
pub fn lww(heads: &[Head]) -> (r: Option<Vec<u8>>)
    ensures
        match live_head(head_models(heads@)) {
            Some(h) => r matches Some(x) && x@ == h.value,
            None => r is None,
        },
{
    match lww_head(heads) {
        Some(h) => Some(to_vec(h.value.as_slice())),
        None => None,
    }
}

/// A head is read from a record with its value, time, author, hash and mark, where the record
/// has a time and the author and the hash are 32 bytes long; otherwise it is refused.
pub proof fn law_head_is_what_its_record_holds(p: HeadInfoModel)
    ensures
        head_fault(p) is None <==> p.hlc is Some && p.author.len() == 32 && p.hash.len() == 32,
        p.hlc matches Some(t) ==> {
            let h = HeadModel::from_info(p);
            &&& h.value == p.value && h.author == p.author && h.hash == p.hash && h.tombstone
                == p.tombstone
            &&& h.hlc.wall_time == t.wall_time && h.hlc.counter == t.counter
        },
{
}

} // verus!
