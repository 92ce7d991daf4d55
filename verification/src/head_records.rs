//! Heads as they are stored: what stores that keep them as messages have in common.
use crate::bytes;
use crate::bytes::{bytes_eq, bytes_lt, starts_with, to_vec};
use crate::message;
use crate::message::{DecodeError, Message};
use crate::proto::packed;
use crate::proto::packed::{PackedHead, PackedHeadList, PackedHeadListModel, PackedHeadModel};
use crate::proto::storage;
use crate::proto::storage::{HeadInfo, HeadInfoModel, HeadList, HeadListModel};
use crate::sorting;
use crate::sorting::{sort, Ranked};
use crate::store::state;
use crate::table;
use crate::table::ByteTable;
use vstd::prelude::*;

verus! {

/// A head as a message.
pub trait HeadRecord: Message {
    /// When it was written: the parts of its timestamp, the first of which counts
    /// most.
    spec fn time(m: Self::V) -> (u64, u32);

    /// Who wrote it.
    spec fn author(m: Self::V) -> Seq<u8>;

    /// The hash of the entry that it is from.
    spec fn hash(m: Self::V) -> Seq<u8>;

    /// The value.
    spec fn value(m: Self::V) -> Seq<u8>;

    /// Whether it marks a deletion.
    spec fn tombstone(m: Self::V) -> bool;

    /// The bytes of a list of heads.
    spec fn list_bytes(heads: Seq<Self::V>) -> Seq<u8>;

    /// The heads that bytes stand for.
    spec fn list_of(b: Seq<u8>) -> Result<Seq<Self::V>, DecodeError>;

    /// A list of heads is read back.
    proof fn law_list_round_trip(heads: Seq<Self::V>)
        requires
            Self::list_bytes(heads).len() <= u64::MAX,
        ensures
            Self::list_of(Self::list_bytes(heads)) == Ok::<Seq<Self::V>, DecodeError>(heads),
    ;

    /// When it was written.
    fn get_time(&self) -> (r: (u64, u32))
        ensures
            r == Self::time(self@),
    ;

    /// Who wrote it.
    fn get_author(&self) -> (r: &Vec<u8>)
        ensures
            r@ == Self::author(self@),
    ;

    /// The hash of the entry that it is from.
    fn get_hash(&self) -> (r: &Vec<u8>)
        ensures
            r@ == Self::hash(self@),
    ;

    /// The value.
    fn get_value(&self) -> (r: &Vec<u8>)
        ensures
            r@ == Self::value(self@),
    ;

    /// Whether it marks a deletion.
    fn is_tombstone(&self) -> (r: bool)
        ensures
            r == Self::tombstone(self@),
    ;

    /// The bytes of a list of heads.
    fn encode_list(heads: Vec<Self>) -> (r: Vec<u8>)
        ensures
            r@ == Self::list_bytes(message::models(heads@)),
    ;

    /// The heads that bytes stand for.
    fn decode_list(b: &[u8]) -> (r: Result<Vec<Self>, DecodeError>)
        ensures
            match Self::list_of(b@) {
                Ok(heads) => r matches Ok(v) && message::models(v@) == heads,
                Err(e) => r == Err::<Vec<Self>, DecodeError>(e),
            },
    ;
}

impl HeadRecord for HeadInfo {
    /// A head without a timestamp is the oldest.
    open spec fn time(m: HeadInfoModel) -> (u64, u32) {
        match m.hlc {
            Some(h) => (h.wall_time, h.counter),
            None => (0, 0),
        }
    }

    open spec fn author(m: HeadInfoModel) -> Seq<u8> {
        m.author
    }

    open spec fn hash(m: HeadInfoModel) -> Seq<u8> {
        m.hash
    }

    open spec fn value(m: HeadInfoModel) -> Seq<u8> {
        m.value
    }

    open spec fn tombstone(m: HeadInfoModel) -> bool {
        m.tombstone
    }

    open spec fn list_bytes(heads: Seq<HeadInfoModel>) -> Seq<u8> {
        message::encoded::<HeadList>(HeadListModel { heads })
    }

    open spec fn list_of(b: Seq<u8>) -> Result<Seq<HeadInfoModel>, DecodeError> {
        match message::decoded::<HeadList>(b) {
            Some(l) => Ok(l.heads),
            None => Err(message::decode_error::<HeadList>(b)),
        }
    }

    proof fn law_list_round_trip(heads: Seq<HeadInfoModel>) {
        storage::law_head_list_round_trip(HeadListModel { heads });
    }

    fn get_time(&self) -> (r: (u64, u32)) {
        match &self.hlc {
            Some(h) => (h.wall_time, h.counter),
            None => (0, 0),
        }
    }

    fn get_author(&self) -> (r: &Vec<u8>) {
        &self.author
    }

    fn get_hash(&self) -> (r: &Vec<u8>) {
        &self.hash
    }

    fn get_value(&self) -> (r: &Vec<u8>) {
        &self.value
    }

    fn is_tombstone(&self) -> (r: bool) {
        self.tombstone
    }

    fn encode_list(heads: Vec<HeadInfo>) -> (r: Vec<u8>) {
        message::encode(&HeadList { heads })
    }

    fn decode_list(b: &[u8]) -> (r: Result<Vec<HeadInfo>, DecodeError>) {
        match message::decode::<HeadList>(b) {
            Ok(list) => Ok(list.heads),
            Err(e) => Err(e),
        }
    }
}

impl HeadRecord for PackedHead {
    open spec fn time(m: PackedHeadModel) -> (u64, u32) {
        (m.hlc, 0)
    }

    open spec fn author(m: PackedHeadModel) -> Seq<u8> {
        m.author
    }

    open spec fn hash(m: PackedHeadModel) -> Seq<u8> {
        m.hash
    }

    open spec fn value(m: PackedHeadModel) -> Seq<u8> {
        m.value
    }

    open spec fn tombstone(m: PackedHeadModel) -> bool {
        m.tombstone
    }

    open spec fn list_bytes(heads: Seq<PackedHeadModel>) -> Seq<u8> {
        message::encoded::<PackedHeadList>(PackedHeadListModel { heads })
    }

    open spec fn list_of(b: Seq<u8>) -> Result<Seq<PackedHeadModel>, DecodeError> {
        match message::decoded::<PackedHeadList>(b) {
            Some(l) => Ok(l.heads),
            None => Err(message::decode_error::<PackedHeadList>(b)),
        }
    }

    proof fn law_list_round_trip(heads: Seq<PackedHeadModel>) {
        packed::law_packed_head_list_round_trip(PackedHeadListModel { heads });
    }

    fn get_time(&self) -> (r: (u64, u32)) {
        (self.hlc, 0)
    }

    fn get_author(&self) -> (r: &Vec<u8>) {
        &self.author
    }

    fn get_hash(&self) -> (r: &Vec<u8>) {
        &self.hash
    }

    fn get_value(&self) -> (r: &Vec<u8>) {
        &self.value
    }

    fn is_tombstone(&self) -> (r: bool) {
        self.tombstone
    }

    fn encode_list(heads: Vec<PackedHead>) -> (r: Vec<u8>) {
        message::encode(&PackedHeadList { heads })
    }

    fn decode_list(b: &[u8]) -> (r: Result<Vec<PackedHead>, DecodeError>) {
        match message::decode::<PackedHeadList>(b) {
            Ok(list) => Ok(list.heads),
            Err(e) => Err(e),
        }
    }
}

// ---------------------------------------------------------------------------
// Rank
// ---------------------------------------------------------------------------

/// Whether one head is newer than the other; of heads of one time, that of the
/// greater author.
pub open spec fn outranks<T: HeadRecord>(a: T::V, b: T::V) -> bool {
    let (s, t) = (T::time(a), T::time(b));
    s.0 > t.0 || (s.0 == t.0 && s.1 > t.1) || (s == t && bytes::lex_lt(T::author(b), T::author(a)))
}

/// The order is strict, and heads of which neither outranks the other are of one
/// rank.
pub proof fn lemma_outranks_order<T: HeadRecord>(a: T::V, b: T::V, c: T::V)
    ensures
        !outranks::<T>(a, a),
        outranks::<T>(a, b) ==> !outranks::<T>(b, a),
        outranks::<T>(a, b) && outranks::<T>(b, c) ==> outranks::<T>(a, c),
        outranks::<T>(a, c) ==> outranks::<T>(a, b) || outranks::<T>(b, c),
{
    let (x, y, z) = (T::author(a), T::author(b), T::author(c));
    bytes::lemma_lex_irreflexive(x);
    bytes::lemma_lex_total(x, y);
    bytes::lemma_lex_total(y, z);
    if bytes::lex_lt(x, y) && bytes::lex_lt(y, x) {
        bytes::lemma_lex_transitive(x, y, x);
    }
    if bytes::lex_lt(z, y) && bytes::lex_lt(y, x) {
        bytes::lemma_lex_transitive(z, y, x);
    }
    if bytes::lex_lt(z, x) && bytes::lex_lt(x, y) {
        bytes::lemma_lex_transitive(z, x, y);
    }
}

/// Whether one head outranks the other.
pub fn head_outranks<T: HeadRecord>(a: &T, b: &T) -> (r: bool)
    ensures
        r == outranks::<T>(a@, b@),
{
    let (s0, s1) = a.get_time();
    let (t0, t1) = b.get_time();
    s0 > t0 || (s0 == t0 && s1 > t1) || (s0 == t0 && s1 == t1 && bytes_lt(
        b.get_author().as_slice(),
        a.get_author().as_slice(),
    ))
}

/// The head that wins: of those that no other outranks, the last one.
pub open spec fn winner<T: HeadRecord>(heads: Seq<T::V>) -> Option<T::V>
    decreases heads.len(),
{
    if heads.len() == 0 {
        None
    } else {
        match winner::<T>(heads.drop_last()) {
            Some(w) if outranks::<T>(w, heads.last()) => Some(w),
            _ => Some(heads.last()),
        }
    }
}

/// The winner is one of the heads, and none of them outranks it.
pub proof fn law_winner_is_best<T: HeadRecord>(heads: Seq<T::V>)
    requires
        heads.len() > 0,
    ensures
        winner::<T>(heads) matches Some(w) && heads.contains(w) && forall|i: int|
            0 <= i < heads.len() ==> !outranks::<T>(#[trigger] heads[i], w),
    decreases heads.len(),
{
    let rest = heads.drop_last();
    let last = heads.last();
    lemma_outranks_order::<T>(last, last, last);
    assert(heads[heads.len() - 1] == last);
    if rest.len() > 0 {
        law_winner_is_best::<T>(rest);
        let w = winner::<T>(rest)->0;
        let i = rest.index_of(w);
        assert(heads[i] == w);
        assert forall|k: int| 0 <= k < heads.len() implies !outranks::<T>(
            #[trigger] heads[k],
            winner::<T>(heads)->0,
        ) by {
            if k < rest.len() {
                assert(rest[k] == heads[k]);
                lemma_outranks_order::<T>(heads[k], w, last);
            } else {
                lemma_outranks_order::<T>(w, last, last);
            }
        }
    }
}

/// The head that wins.
pub fn pick_winner<T: HeadRecord>(heads: &[T]) -> (r: Option<&T>)
    ensures
        match winner::<T>(message::models(heads@)) {
            Some(w) => r matches Some(h) && h@ == w,
            None => r is None,
        },
{
    if heads.len() == 0 {
        return None;
    }
    let ghost all = message::models(heads@);
    let mut best: usize = 0;
    let mut i: usize = 1;
    proof {
        assert(all.take(1).drop_last() =~= Seq::empty());
        reveal_with_fuel(winner, 2);
        assert(winner::<T>(all.take(1)) == Some(all[0]));
    }
    while i < heads.len()
        invariant
            1 <= i <= heads@.len(),
            best < i,
            all == message::models(heads@),
            winner::<T>(all.take(i as int)) == Some(heads@[best as int]@),
        decreases heads@.len() - i,
    {
        proof {
            assert(all.take(i + 1).drop_last() =~= all.take(i as int));
            assert(all.take(i + 1).last() == heads@[i as int]@);
        }
        if !head_outranks(&heads[best], &heads[i]) {
            best = i;
        }
        i += 1;
    }
    assert(all.take(i as int) =~= all);
    Some(&heads[best])
}

/// Whether a put of the value would change anything.
pub open spec fn put_needed<T: HeadRecord>(heads: Seq<T::V>, value: Seq<u8>) -> bool {
    !(winner::<T>(heads) matches Some(w) && T::value(w) == value)
}

/// Whether a deletion would change anything.
pub open spec fn delete_needed<T: HeadRecord>(heads: Seq<T::V>) -> bool {
    winner::<T>(heads) matches Some(w) && !T::tombstone(w)
}

/// Whether a put of the value would change anything.
pub fn needs_put<T: HeadRecord>(heads: &[T], value: &[u8]) -> (r: bool)
    ensures
        r == put_needed::<T>(message::models(heads@), value@),
{
    match pick_winner(heads) {
        Some(w) => !bytes_eq(w.get_value().as_slice(), value),
        None => true,
    }
}

/// Whether a deletion would change anything.
pub fn needs_delete<T: HeadRecord>(heads: &[T]) -> (r: bool)
    ensures
        r == delete_needed::<T>(message::models(heads@)),
{
    match pick_winner(heads) {
        Some(w) => !w.is_tombstone(),
        None => false,
    }
}

// ---------------------------------------------------------------------------
// A table of heads
// ---------------------------------------------------------------------------

/// The heads of a key, or why they cannot be read.
pub open spec fn heads_at<T: HeadRecord>(kv: Map<Seq<u8>, Seq<u8>>, key: Seq<u8>) -> Result<
    Seq<T::V>,
    DecodeError,
> {
    if kv.dom().contains(key) {
        T::list_of(kv[key])
    } else {
        Ok(Seq::empty())
    }
}

/// The heads of a key; none where they cannot be read.
pub open spec fn heads_or_none<T: HeadRecord>(kv: Map<Seq<u8>, Seq<u8>>, key: Seq<u8>) -> Seq<
    T::V,
> {
    match heads_at::<T>(kv, key) {
        Ok(heads) => heads,
        Err(_) => Seq::empty(),
    }
}

/// Whether a head is from the entry with the given hash.
pub open spec fn has_hash<T: HeadRecord>(heads: Seq<T::V>, hash: Seq<u8>) -> bool {
    exists|i: int| 0 <= i < heads.len() && T::hash(#[trigger] heads[i]) == hash
}

/// The heads that a new one with the given parents does not supersede.
pub open spec fn kept<T: HeadRecord>(heads: Seq<T::V>, parents: Seq<Seq<u8>>) -> Seq<T::V> {
    heads.filter(|h: T::V| !parents.contains(T::hash(h)))
}

/// What a new head makes of the table: it takes the place of its parents. One that
/// is there already changes nothing.
pub open spec fn head_put<T: HeadRecord>(
    kv: Map<Seq<u8>, Seq<u8>>,
    key: Seq<u8>,
    new: T::V,
    parents: Seq<Seq<u8>>,
) -> Map<Seq<u8>, Seq<u8>> {
    let heads = heads_or_none::<T>(kv, key);
    if has_hash::<T>(heads, T::hash(new)) {
        kv
    } else {
        kv.insert(key, T::list_bytes(kept::<T>(heads, parents).push(new)))
    }
}

/// The value of a key: that of the winning head, and none where that head marks a
/// deletion. An error where the heads cannot be read.
pub open spec fn value_at<T: HeadRecord>(kv: Map<Seq<u8>, Seq<u8>>, key: Seq<u8>) -> Result<
    Option<Seq<u8>>,
    DecodeError,
> {
    match heads_at::<T>(kv, key) {
        Err(e) => Err(e),
        Ok(heads) => match winner::<T>(heads) {
            Some(w) if !T::tombstone(w) => Ok(Some(T::value(w))),
            _ => Ok(None),
        },
    }
}

/// The pairs of keys and winning values for those of the keys that start with
/// `prefix`. Deleted keys are left out unless they are asked for. An error where
/// the heads of one of the keys cannot be read.
pub open spec fn listing<T: HeadRecord>(
    kv: Map<Seq<u8>, Seq<u8>>,
    keys: Seq<Seq<u8>>,
    prefix: Seq<u8>,
    with_deleted: bool,
) -> Result<Seq<(Seq<u8>, Seq<u8>)>, DecodeError>
    decreases keys.len(),
{
    if keys.len() == 0 {
        Ok(Seq::empty())
    } else {
        let k = keys.last();
        match listing::<T>(kv, keys.drop_last(), prefix, with_deleted) {
            Err(e) => Err(e),
            Ok(pairs) => if !prefix.is_prefix_of(k) {
                Ok(pairs)
            } else {
                match heads_at::<T>(kv, k) {
                    Err(e) => Err(e),
                    Ok(heads) => match winner::<T>(heads) {
                        Some(w) if with_deleted || !T::tombstone(w) => Ok(
                            pairs.push((k, T::value(w))),
                        ),
                        _ => Ok(pairs),
                    },
                }
            },
        }
    }
}

proof fn lemma_listing_fails<T: HeadRecord>(
    kv: Map<Seq<u8>, Seq<u8>>,
    keys: Seq<Seq<u8>>,
    prefix: Seq<u8>,
    with_deleted: bool,
    n: int,
)
    requires
        0 <= n <= keys.len(),
        listing::<T>(kv, keys.take(n), prefix, with_deleted) is Err,
    ensures
        listing::<T>(kv, keys, prefix, with_deleted) == listing::<T>(
            kv,
            keys.take(n),
            prefix,
            with_deleted,
        ),
    decreases keys.len() - n,
{
    if n == keys.len() {
        assert(keys.take(n) =~= keys);
    } else {
        assert(keys.take(n + 1).drop_last() =~= keys.take(n));
        lemma_listing_fails::<T>(kv, keys, prefix, with_deleted, n + 1);
    }
}

/// A head that supersedes all heads of its key is read back, and is the only one.
pub proof fn law_head_is_read_back<T: HeadRecord>(
    kv: Map<Seq<u8>, Seq<u8>>,
    key: Seq<u8>,
    new: T::V,
    parents: Seq<Seq<u8>>,
)
    requires
        ({
            let heads = heads_or_none::<T>(kv, key);
            &&& !has_hash::<T>(heads, T::hash(new))
            &&& forall|i: int|
                0 <= i < heads.len() ==> parents.contains(T::hash(#[trigger] heads[i]))
        }),
        T::list_bytes(seq![new]).len() <= u64::MAX,
    ensures
        heads_at::<T>(head_put::<T>(kv, key, new, parents), key) == Ok::<Seq<T::V>, DecodeError>(
            seq![new],
        ),
        value_at::<T>(head_put::<T>(kv, key, new, parents), key) == Ok::<
            Option<Seq<u8>>,
            DecodeError,
        >(
            if T::tombstone(new) {
                None
            } else {
                Some(T::value(new))
            },
        ),
{
    let heads = heads_or_none::<T>(kv, key);
    lemma_none_kept::<T>(heads, parents);
    assert(kept::<T>(heads, parents).push(new) =~= seq![new]);
    T::law_list_round_trip(seq![new]);
    reveal_with_fuel(winner, 2);
    assert(seq![new].drop_last() =~= Seq::empty());
    assert(winner::<T>(seq![new]) == Some(new));
}

proof fn lemma_none_kept<T: HeadRecord>(heads: Seq<T::V>, parents: Seq<Seq<u8>>)
    requires
        forall|i: int| 0 <= i < heads.len() ==> parents.contains(T::hash(#[trigger] heads[i])),
    ensures
        kept::<T>(heads, parents) == Seq::<T::V>::empty(),
    decreases heads.len(),
{
    reveal(Seq::filter);
    if heads.len() > 0 {
        lemma_none_kept::<T>(heads.drop_last(), parents);
        assert(heads[heads.len() - 1] == heads.last());
    }
}

/// The heads of other keys stay.
pub proof fn law_heads_of_other_keys_stay<T: HeadRecord>(
    kv: Map<Seq<u8>, Seq<u8>>,
    key: Seq<u8>,
    new: T::V,
    parents: Seq<Seq<u8>>,
    other: Seq<u8>,
)
    requires
        other != key,
    ensures
        heads_at::<T>(head_put::<T>(kv, key, new, parents), other) == heads_at::<T>(kv, other),
{
}

/// A head that is put twice changes nothing the second time, provided the heads
/// can be read back.
pub proof fn law_head_is_put_once<T: HeadRecord>(
    kv: Map<Seq<u8>, Seq<u8>>,
    key: Seq<u8>,
    new: T::V,
    parents: Seq<Seq<u8>>,
)
    requires
        T::list_bytes(kept::<T>(heads_or_none::<T>(kv, key), parents).push(new)).len() <= u64::MAX,
    ensures
        ({
            let once = head_put::<T>(kv, key, new, parents);
            head_put::<T>(once, key, new, parents) == once
        }),
{
    let heads = heads_or_none::<T>(kv, key);
    if !has_hash::<T>(heads, T::hash(new)) {
        let list = kept::<T>(heads, parents).push(new);
        T::law_list_round_trip(list);
        assert(T::hash(list[list.len() - 1]) == T::hash(new));
    }
}

/// The heads of a key, or why they cannot be read.
pub fn load_heads<T: HeadRecord>(kv: &ByteTable, key: &[u8]) -> (r: Result<Vec<T>, DecodeError>)
    requires
        kv.wf(),
    ensures
        match heads_at::<T>(kv@, key@) {
            Ok(heads) => r matches Ok(v) && message::models(v@) == heads,
            Err(e) => r == Err::<Vec<T>, DecodeError>(e),
        },
{
    match kv.get(key) {
        Some(stored) => T::decode_list(stored.as_slice()),
        None => {
            let none: Vec<T> = Vec::new();
            assert(message::models(none@) =~= Seq::empty());
            Ok(none)
        },
    }
}

/// Puts a new head in the place of its parents.
pub fn apply_head<T: HeadRecord>(
    kv: &mut ByteTable,
    key: &[u8],
    new: T,
    parents: &Vec<Vec<u8>>,
)
    requires
        old(kv).wf(),
    ensures
        final(kv).wf(),
        final(kv)@ == head_put::<T>(old(kv)@, key@, new@, message::byte_models(parents@)),
{
    let ghost parent_models = message::byte_models(parents@);
    let heads = match load_heads::<T>(kv, key) {
        Ok(heads) => heads,
        Err(_) => {
            let none: Vec<T> = Vec::new();
            assert(message::models(none@) =~= Seq::empty());
            none
        },
    };
    let ghost all = message::models(heads@);
    let ghost keep = |h: T::V| !parent_models.contains(T::hash(h));
    let mut out: Vec<T> = Vec::new();
    let mut i: usize = 0;
    proof {
        reveal(Seq::filter);
        assert(all.take(0) =~= Seq::empty());
        assert(message::models(out@) =~= Seq::empty());
    }
    while i < heads.len()
        invariant
            i <= heads@.len(),
            kv.wf(),
            kv@ == old(kv)@,
            all == message::models(heads@),
            all == heads_or_none::<T>(old(kv)@, key@),
            parent_models == message::byte_models(parents@),
            keep == (|h: T::V| !parent_models.contains(T::hash(h))),
            message::models(out@) == all.take(i as int).filter(keep),
            forall|k: int| 0 <= k < i ==> T::hash(#[trigger] all[k]) != T::hash(new@),
        decreases heads@.len() - i,
    {
        let head = &heads[i];
        let ghost before = message::models(out@);
        proof {
            reveal(Seq::filter);
            assert(all[i as int] == head@);
            assert(all.take(i + 1).drop_last() =~= all.take(i as int));
            assert(all.take(i + 1).last() == head@);
        }
        if bytes_eq(head.get_hash().as_slice(), new.get_hash().as_slice()) {
            return ;
        }
        if !names(parents, head.get_hash().as_slice()) {
            out.push(head.duplicate());
            assert(message::models(out@) =~= before.push(head@));
        }
        i += 1;
    }
    assert(all.take(i as int) =~= all);
    let ghost rest = message::models(out@);
    out.push(new);
    assert(message::models(out@) =~= rest.push(new@));
    kv.insert(key, T::encode_list(out));
}

/// Whether one of the parents has the hash.
fn names(parents: &Vec<Vec<u8>>, hash: &[u8]) -> (r: bool)
    ensures
        r == message::byte_models(parents@).contains(hash@),
{
    let ghost all = message::byte_models(parents@);
    let mut i: usize = 0;
    while i < parents.len()
        invariant
            i <= parents@.len(),
            all == message::byte_models(parents@),
            forall|k: int| 0 <= k < i ==> #[trigger] all[k] != hash@,
        decreases parents@.len() - i,
    {
        if bytes_eq(parents[i].as_slice(), hash) {
            assert(all[i as int] == hash@);
            return true;
        }
        assert(all[i as int] == parents@[i as int]@);
        i += 1;
    }
    false
}

/// The keys that start with `prefix`, with their winning values, in the order of the
/// keys. Deleted keys are left out unless they are asked for.
pub fn list_winners<T: HeadRecord>(kv: &ByteTable, prefix: &[u8], with_deleted: bool) -> (r: Result<
    Vec<(Vec<u8>, Vec<u8>)>,
    DecodeError,
>)
    requires
        kv.wf(),
    ensures
        match listing::<T>(kv@, table::sorted_keys(kv@.dom()), prefix@, with_deleted) {
            Ok(pairs) => r matches Ok(v) && state::pair_models(v@) == pairs,
            Err(e) => r == Err::<Vec<(Vec<u8>, Vec<u8>)>, DecodeError>(e),
        },
{
    let ghost keys = kv.keys();
    let mut out: Vec<(Vec<u8>, Vec<u8>)> = Vec::new();
    let mut i: usize = 0;
    proof {
        kv.lemma_keys();
        assert(keys.take(0) =~= Seq::empty());
        assert(state::pair_models(out@) =~= Seq::empty());
    }
    while i < kv.len()
        invariant
            kv.wf(),
            keys == kv.keys(),
            keys == table::sorted_keys(kv@.dom()),
            i <= keys.len(),
            listing::<T>(kv@, keys.take(i as int), prefix@, with_deleted) == Ok::<
                Seq<(Seq<u8>, Seq<u8>)>,
                DecodeError,
            >(state::pair_models(out@)),
        decreases keys.len() - i,
    {
        let key = kv.key_at(i);
        let ghost before = out@;
        proof {
            assert(keys.take(i + 1).drop_last() =~= keys.take(i as int));
            assert(keys.take(i + 1).last() == key@);
        }
        if starts_with(key.as_slice(), prefix) {
            match load_heads::<T>(kv, key.as_slice()) {
                Ok(heads) => match pick_winner(heads.as_slice()) {
                    Some(w) => {
                        if with_deleted || !w.is_tombstone() {
                            out.push(
                                (to_vec(key.as_slice()), to_vec(w.get_value().as_slice())),
                            );
                            assert(state::pair_models(out@) =~= state::pair_models(before).push(
                                (key@, T::value(w@)),
                            ));
                        }
                    },
                    None => {},
                },
                Err(e) => {
                    proof {
                        lemma_listing_fails::<T>(kv@, keys, prefix@, with_deleted, i + 1);
                    }
                    return Err(e);
                },
            }
        }
        i += 1;
    }
    assert(keys.take(i as int) =~= keys);
    Ok(out)
}

/// The value of a key.
pub fn get_value<T: HeadRecord>(kv: &ByteTable, key: &[u8]) -> (r: Result<
    Option<Vec<u8>>,
    DecodeError,
>)
    requires
        kv.wf(),
    ensures
        match value_at::<T>(kv@, key@) {
            Err(e) => r == Err::<Option<Vec<u8>>, DecodeError>(e),
            Ok(None) => r == Ok::<Option<Vec<u8>>, DecodeError>(None),
            Ok(Some(value)) => r matches Ok(Some(v)) && v@ == value,
        },
{
    match load_heads::<T>(kv, key) {
        Err(e) => Err(e),
        Ok(heads) => match pick_winner(heads.as_slice()) {
            Some(w) => if w.is_tombstone() {
                Ok(None)
            } else {
                Ok(Some(to_vec(w.get_value().as_slice())))
            },
            None => Ok(None),
        },
    }
}

/// The first of the parents that is not the hash of one of the heads.
pub open spec fn missing_parent<T: HeadRecord>(parents: Seq<Seq<u8>>, heads: Seq<T::V>) -> Option<
    Seq<u8>,
>
    decreases parents.len(),
{
    if parents.len() == 0 {
        None
    } else {
        match missing_parent::<T>(parents.drop_last(), heads) {
            Some(p) => Some(p),
            None => if has_hash::<T>(heads, parents.last()) {
                None
            } else {
                Some(parents.last())
            },
        }
    }
}

proof fn lemma_missing_stays<T: HeadRecord>(parents: Seq<Seq<u8>>, heads: Seq<T::V>, n: int)
    requires
        0 <= n <= parents.len(),
        missing_parent::<T>(parents.take(n), heads) is Some,
    ensures
        missing_parent::<T>(parents, heads) == missing_parent::<T>(parents.take(n), heads),
    decreases parents.len() - n,
{
    if n == parents.len() {
        assert(parents.take(n) =~= parents);
    } else {
        assert(parents.take(n + 1).drop_last() =~= parents.take(n));
        lemma_missing_stays::<T>(parents, heads, n + 1);
    }
}

/// The first of the parents that is not the hash of one of the heads.
pub fn first_missing<'a, T: HeadRecord>(parents: &'a Vec<Vec<u8>>, heads: &Vec<T>) -> (r: Option<
    &'a Vec<u8>,
>)
    ensures
        match missing_parent::<T>(message::byte_models(parents@), message::models(heads@)) {
            Some(p) => r matches Some(h) && h@ == p,
            None => r is None,
        },
{
    let ghost ps = message::byte_models(parents@);
    let ghost hs = message::models(heads@);
    let mut i: usize = 0;
    assert(ps.take(0) =~= Seq::empty());
    while i < parents.len()
        invariant
            i <= parents@.len(),
            ps == message::byte_models(parents@),
            hs == message::models(heads@),
            missing_parent::<T>(ps.take(i as int), hs) is None,
        decreases parents@.len() - i,
    {
        proof {
            assert(ps.take(i + 1).drop_last() =~= ps.take(i as int));
            assert(ps.take(i + 1).last() == parents@[i as int]@);
        }
        if !contains_hash(heads, parents[i].as_slice()) {
            proof {
                lemma_missing_stays::<T>(ps, hs, i + 1);
            }
            return Some(&parents[i]);
        }
        i += 1;
    }
    assert(ps.take(i as int) =~= ps);
    None
}

/// Whether one of the heads is from the entry with the given hash.
fn contains_hash<T: HeadRecord>(heads: &Vec<T>, hash: &[u8]) -> (r: bool)
    ensures
        r == has_hash::<T>(message::models(heads@), hash@),
{
    let ghost all = message::models(heads@);
    let mut i: usize = 0;
    while i < heads.len()
        invariant
            i <= heads@.len(),
            all == message::models(heads@),
            forall|k: int| 0 <= k < i ==> T::hash(#[trigger] all[k]) != hash@,
        decreases heads@.len() - i,
    {
        assert(all[i as int] == heads@[i as int]@);
        if bytes_eq(heads[i].get_hash().as_slice(), hash) {
            return true;
        }
        i += 1;
    }
    false
}

impl Ranked for HeadInfo {
    /// A head belongs before those that it outranks.
    open spec fn precedes(a: HeadInfoModel, b: HeadInfoModel) -> bool {
        outranks::<HeadInfo>(a, b)
    }

    proof fn lemma_order(a: HeadInfoModel, b: HeadInfoModel, c: HeadInfoModel) {
        lemma_outranks_order::<HeadInfo>(a, b, c);
    }

    fn ranks_before(&self, other: &HeadInfo) -> (r: bool) {
        head_outranks(self, other)
    }
}

/// The heads from the winner down. Heads of the same rank keep their order.
pub open spec fn ranked(heads: Seq<HeadInfoModel>) -> Seq<HeadInfoModel> {
    sorting::sorted::<HeadInfo>(heads)
}

/// The heads from the winner down.
pub fn rank(heads: Vec<HeadInfo>) -> (r: Vec<HeadInfo>)
    ensures
        message::models(r@) == ranked(message::models(heads@)),
{
    sort(heads)
}

// ---------------------------------------------------------------------------
// What the laws above say, over the records themselves
// ---------------------------------------------------------------------------

/// A head with a later time wins over one with an earlier time; of two with the same time,
/// the one whose author has the greater byte at the first place where they differ.
pub proof fn law_later_record_wins<T: HeadRecord>(a: T::V, b: T::V)
    ensures
        T::time(a).0 > T::time(b).0 ==> outranks::<T>(a, b) && !outranks::<T>(b, a),
        T::time(a).0 == T::time(b).0 && T::time(a).1 > T::time(b).1 ==> outranks::<T>(a, b)
            && !outranks::<T>(b, a),
        forall|i: int|
            T::time(a) == T::time(b) && 0 <= i < T::author(a).len() && i < T::author(b).len()
                && #[trigger] T::author(a).take(i) == T::author(b).take(i) && T::author(b)[i]
                < T::author(a)[i] ==> outranks::<T>(a, b) && !outranks::<T>(b, a),
{
    bytes::law_first_difference_decides(T::author(b), T::author(a));
    lemma_outranks_order::<T>(a, b, a);
    assert forall|i: int|
        T::time(a) == T::time(b) && 0 <= i < T::author(a).len() && i < T::author(b).len()
            && #[trigger] T::author(a).take(i) == T::author(b).take(i) && T::author(b)[i]
            < T::author(a)[i] implies outranks::<T>(a, b) && !outranks::<T>(b, a) by {
        assert(T::author(b).take(i) == T::author(a).take(i));
    }
}

/// The winner is one of the heads, and none of them has a later time.
pub proof fn law_winner_is_the_latest<T: HeadRecord>(heads: Seq<T::V>)
    ensures
        heads.len() == 0 <==> winner::<T>(heads) is None,
        winner::<T>(heads) matches Some(w) ==> heads.contains(w) && forall|i: int|
            0 <= i < heads.len() ==> T::time(#[trigger] heads[i]).0 < T::time(w).0 || (T::time(
                heads[i],
            ).0 == T::time(w).0 && T::time(heads[i]).1 <= T::time(w).1),
{
    if heads.len() > 0 {
        law_winner_is_best::<T>(heads);
        let w = winner::<T>(heads)->0;
        assert forall|i: int| 0 <= i < heads.len() implies T::time(#[trigger] heads[i]).0 < T::time(
            w,
        ).0 || (T::time(heads[i]).0 == T::time(w).0 && T::time(heads[i]).1 <= T::time(w).1) by {
            assert(!outranks::<T>(heads[i], w));
            law_later_record_wins::<T>(heads[i], w);
        }
    }
}

/// The time, author, hash, value and mark of a head are those of its record.
pub proof fn law_heads_are_their_records(a: HeadInfoModel, b: PackedHeadModel)
    ensures
        a.hlc matches Some(t) ==> HeadInfo::time(a).0 == t.wall_time && HeadInfo::time(a).1
            == t.counter,
        a.hlc is None ==> HeadInfo::time(a).0 == 0 && HeadInfo::time(a).1 == 0,
        HeadInfo::author(a) == a.author,
        <HeadInfo as HeadRecord>::hash(a) == a.hash,
        HeadInfo::value(a) == a.value,
        HeadInfo::tombstone(a) == a.tombstone,
        PackedHead::time(b).0 == b.hlc,
        PackedHead::time(b).1 == 0,
        PackedHead::author(b) == b.author,
        <PackedHead as HeadRecord>::hash(b) == b.hash,
        PackedHead::value(b) == b.value,
        PackedHead::tombstone(b) == b.tombstone,
{
}

/// A new head joins those of its key that it does not name as its parents; the others go.
/// Where one of them has the new head's hash, nothing changes.
pub proof fn law_new_head_replaces_its_parents<T: HeadRecord>(
    kv: Map<Seq<u8>, Seq<u8>>,
    key: Seq<u8>,
    new: T::V,
    parents: Seq<Seq<u8>>,
    heads: Seq<T::V>,
)
    requires
        heads_at::<T>(kv, key) == Ok::<Seq<T::V>, DecodeError>(heads),
        T::list_bytes(kept::<T>(heads, parents).push(new)).len() <= u64::MAX,
    ensures
        (exists|i: int| 0 <= i < heads.len() && T::hash(#[trigger] heads[i]) == T::hash(new))
            ==> head_put::<T>(kv, key, new, parents) == kv,
        (forall|i: int| 0 <= i < heads.len() ==> T::hash(#[trigger] heads[i]) != T::hash(new)) ==> (
        heads_at::<T>(head_put::<T>(kv, key, new, parents), key) matches Ok(after) && after.len()
            > 0 && after.last() == new && forall|h: T::V| #[trigger]
            after.contains(h) <==> h == new || (heads.contains(h) && !parents.contains(
                T::hash(h),
            ))),
{
    let keep = |h: T::V| !parents.contains(T::hash(h));
    if forall|i: int| 0 <= i < heads.len() ==> T::hash(#[trigger] heads[i]) != T::hash(new) {
        let left = kept::<T>(heads, parents);
        let after = left.push(new);
        T::law_list_round_trip(after);
        assert(!has_hash::<T>(heads, T::hash(new)));
        assert forall|h: T::V| #[trigger] after.contains(h) <==> h == new || (heads.contains(h)
            && !parents.contains(T::hash(h))) by {
            if after.contains(h) && h != new {
                let i = after.index_of(h);
                assert(left[i] == h);
                heads.lemma_filter_contains_rev(keep, h);
                heads.lemma_filter_pred(keep, i);
            }
            if h == new {
                assert(after[after.len() - 1] == h);
            }
            if heads.contains(h) && !parents.contains(T::hash(h)) {
                heads.lemma_filter_contains(keep, heads.index_of(h));
                assert(after[left.index_of(h)] == h);
            }
        }
    }
}

/// A listing holds a pair for exactly those of the keys that start with the prefix and have
/// heads, and none that were deleted unless they are asked for: the key with the winner's
/// value. Where one such key cannot be read, there is no listing.
pub proof fn law_listing_is_complete<T: HeadRecord>(
    kv: Map<Seq<u8>, Seq<u8>>,
    keys: Seq<Seq<u8>>,
    prefix: Seq<u8>,
    with_deleted: bool,
    k: Seq<u8>,
    v: Seq<u8>,
)
    ensures
        match listing::<T>(kv, keys, prefix, with_deleted) {
            Ok(pairs) => {
                &&& pairs.contains((k, v)) <==> {
                    &&& keys.contains(k)
                    &&& prefix.len() <= k.len() && k.take(prefix.len() as int) == prefix
                    &&& heads_at::<T>(kv, k) matches Ok(heads) && (winner::<T>(heads) matches Some(
                        w,
                    ) && T::value(w) == v && (with_deleted || !T::tombstone(w)))
                }
                &&& keys.contains(k) && prefix.len() <= k.len() && k.take(prefix.len() as int)
                    == prefix ==> heads_at::<T>(kv, k) is Ok
            },
            Err(e) => exists|x: Seq<u8>| #[trigger]
                keys.contains(x) && prefix.len() <= x.len() && x.take(prefix.len() as int) == prefix
                    && heads_at::<T>(kv, x) == Err::<Seq<T::V>, DecodeError>(e),
        },
    decreases keys.len(),
{
    if keys.len() > 0 {
        let before = keys.drop_last();
        let x = keys.last();
        law_listing_is_complete::<T>(kv, before, prefix, with_deleted, k, v);
        assert forall|y: Seq<u8>| #[trigger] keys.contains(y) <==> before.contains(y) || y == x by {
            if before.contains(y) {
                assert(keys[before.index_of(y)] == y);
            }
            if keys.contains(y) && y != x {
                assert(before[keys.index_of(y)] == y);
            }
            if y == x {
                assert(keys[keys.len() - 1] == y);
            }
        }
        assert(prefix.is_prefix_of(x) <==> prefix.len() <= x.len() && x.take(prefix.len() as int)
            == prefix) by {
            if prefix.len() <= x.len() {
                assert(x.take(prefix.len() as int) =~= x.subrange(0, prefix.len() as int));
            }
        }
        match listing::<T>(kv, before, prefix, with_deleted) {
            Ok(q) => {
                if let Ok(pairs) = listing::<T>(kv, keys, prefix, with_deleted) {
                    if pairs.contains((k, v)) {
                        let i = pairs.index_of((k, v));
                        if i < q.len() {
                            assert(q[i] == (k, v));
                        }
                    }
                    if q.contains((k, v)) {
                        assert(pairs[q.index_of((k, v))] == (k, v));
                    }
                    if pairs.len() > q.len() {
                        assert(pairs[pairs.len() - 1] == pairs.last());
                    }
                } else {
                    assert(keys.contains(x));
                }
            },
            Err(e) => {
                let y = choose|y: Seq<u8>| #[trigger]
                    before.contains(y) && prefix.len() <= y.len() && y.take(prefix.len() as int)
                        == prefix && heads_at::<T>(kv, y) == Err::<Seq<T::V>, DecodeError>(e);
                assert(keys.contains(y));
            },
        }
    }
}

} // verus!
