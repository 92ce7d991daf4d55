//! The key-value state that the entries add up to: for every key the heads of
//! its history, and for every author the tip of their chain.
use crate::bytes;
use crate::bytes::{bytes_eq, starts_with, to_vec, Digest, PubKey};
use crate::entry;
use crate::entry::{ChainTip, ChainTipModel, EntryModel, SignedEntry, SignedEntryModel};
use crate::head;
use crate::head::{add_head, contains_hash, load_heads, pick_winner, sort_heads, store_heads, Head, HeadModel};
use crate::proto::storage::{OpType, OpTypeModel};
use crate::store::error::{ParentFault, ParentValidationError, StateError, StateFault};
use crate::store::log;
use crate::store::log::LogError;
use crate::table;
use crate::table::ByteTable;
use crate::text;
use crate::text::hex_encode;
use vstd::prelude::*;
use vstd::string::*;

verus! {

// ---------------------------------------------------------------------------
// Model
// ---------------------------------------------------------------------------

/// The model of a [`State`]: the stored heads of every key, and the stored tip
/// of every author's chain.
#[verifier::ext_equal]
pub struct StateModel {
    pub kv: Map<Seq<u8>, Seq<u8>>,
    pub tips: Map<Seq<u8>, Seq<u8>>,
}

/// The heads of a key. A key that is not there has none.
pub open spec fn heads_at(kv: Map<Seq<u8>, Seq<u8>>, key: Seq<u8>) -> Result<
    Seq<HeadModel>,
    StateFault,
> {
    if kv.dom().contains(key) {
        match head::loaded_heads(kv[key]) {
            Ok(heads) => Ok(heads),
            Err(f) => Err(StateFault::of_stored(f)),
        }
    } else {
        Ok(Seq::empty())
    }
}

/// What a new head makes of the stored heads. A head of an entry that was
/// applied before leaves them as they are.
pub open spec fn head_put(
    kv: Map<Seq<u8>, Seq<u8>>,
    key: Seq<u8>,
    new: HeadModel,
    parents: Seq<Seq<u8>>,
) -> Result<Map<Seq<u8>, Seq<u8>>, StateFault> {
    match heads_at(kv, key) {
        Err(f) => Err(f),
        Ok(heads) => if head::has_hash(heads, new.hash) {
            Ok(kv)
        } else {
            Ok(kv.insert(key, head::stored_heads(head::with_head(heads, new, parents))))
        },
    }
}

/// The head that an operation of an entry makes: the value of a put, or the mark
/// of a deletion.
pub open spec fn op_head(op: OpTypeModel, e: SignedEntryModel) -> HeadModel {
    HeadModel {
        value: match op {
            OpTypeModel::Put(p) => p.value,
            OpTypeModel::Delete(_) => Seq::empty(),
        },
        hlc: e.entry.timestamp,
        author: e.author_id,
        hash: e.hash(),
        tombstone: op is Delete,
    }
}

/// What the first `n` operations of an entry make of the stored heads.
pub open spec fn ops_put(kv: Map<Seq<u8>, Seq<u8>>, e: SignedEntryModel, n: nat) -> Result<
    Map<Seq<u8>, Seq<u8>>,
    StateFault,
>
    decreases n,
{
    if n == 0 {
        Ok(kv)
    } else {
        match ops_put(kv, e, (n - 1) as nat) {
            Err(f) => Err(f),
            Ok(m) => {
                let op = e.entry.ops[n - 1];
                match op.op_type {
                    None => Ok(m),
                    Some(t) => head_put(m, op.key()->0, op_head(t, e), e.entry.parent_hashes),
                }
            },
        }
    }
}

/// The tip of an author's chain, where one is stored and can be read.
pub open spec fn tip_at(tips: Map<Seq<u8>, Seq<u8>>, author: Seq<u8>) -> Option<ChainTipModel> {
    if tips.dom().contains(author) {
        match ChainTipModel::of_bytes(tips[author]) {
            Ok(tip) => Some(tip),
            Err(_) => None,
        }
    } else {
        None
    }
}

/// The hash that an author's next entry has to name: that of the tip of their
/// chain, and zeros where they have none.
pub open spec fn last_hash(tips: Map<Seq<u8>, Seq<u8>>, author: Seq<u8>) -> Seq<u8> {
    match tip_at(tips, author) {
        Some(tip) => tip.hash,
        None => bytes::zeros(32),
    }
}

/// What an entry makes of the state. An entry that does not follow its author's
/// last one is refused: it was applied before, or one before it is missing.
pub open spec fn applied(st: StateModel, e: SignedEntryModel) -> Result<StateModel, StateFault> {
    let last = last_hash(st.tips, e.author_id);
    if e.entry.prev_hash != last {
        Err(
            StateFault::NotSuccessor(
                e.entry.seq,
                text::short_hex(e.entry.prev_hash, 8),
                text::short_hex(last, 8),
            ),
        )
    } else {
        match ops_put(st.kv, e, e.entry.ops.len()) {
            Err(f) => Err(f),
            Ok(kv) => Ok(
                StateModel { kv, tips: st.tips.insert(e.author_id, e.tip().encoding()) },
            ),
        }
    }
}

/// The state once an entry has been applied or refused.
pub open spec fn state_after(st: StateModel, e: SignedEntryModel) -> StateModel {
    match applied(st, e) {
        Ok(s) => s,
        Err(_) => st,
    }
}

/// What a run of entries makes of a state, or the first fault.
pub open spec fn run(st: StateModel, es: Seq<SignedEntryModel>) -> Result<StateModel, StateFault>
    decreases es.len(),
{
    if es.len() == 0 {
        Ok(st)
    } else {
        match run(st, es.drop_last()) {
            Err(f) => Err(f),
            Ok(s) => applied(s, es.last()),
        }
    }
}

/// A run with one more entry.
pub proof fn lemma_run_push(st: StateModel, es: Seq<SignedEntryModel>, e: SignedEntryModel)
    ensures
        run(st, es.push(e)) == match run(st, es) {
            Err(f) => Err(f),
            Ok(s) => applied(s, e),
        },
{
    assert(es.push(e).drop_last() =~= es);
}

/// What a run of entries from a log makes of the state, and how many of them
/// were new. Entries that were applied before are passed over; at any other
/// error the replay stops.
pub open spec fn replayed(
    st: StateModel,
    entries: Seq<Result<SignedEntryModel, LogError>>,
) -> Result<(StateModel, nat), StateFault>
    decreases entries.len(),
{
    if entries.len() == 0 {
        Ok((st, 0))
    } else {
        match replayed(st, entries.drop_last()) {
            Err(f) => Err(f),
            Ok((s, n)) => match entries.last() {
                Err(e) => Err(StateFault::Log(e)),
                Ok(e) => match applied(s, e) {
                    Ok(t) => Ok((t, n + 1)),
                    Err(StateFault::NotSuccessor(_, _, _)) => Ok((s, n)),
                    Err(f) => Err(f),
                },
            },
        }
    }
}

/// The value of a key: that of the winning head, and none where that head marks
/// a deletion.
pub open spec fn value_at(kv: Map<Seq<u8>, Seq<u8>>, key: Seq<u8>) -> Result<
    Option<Seq<u8>>,
    StateFault,
> {
    match heads_at(kv, key) {
        Err(f) => Err(f),
        Ok(heads) => match head::winner(heads) {
            Some(w) if !w.tombstone => Ok(Some(w.value)),
            _ => Ok(None),
        },
    }
}

/// The pairs of keys and winning values for those of the keys that start with
/// `prefix`. Deleted keys are left out unless they are asked for.
pub open spec fn listing(
    kv: Map<Seq<u8>, Seq<u8>>,
    keys: Seq<Seq<u8>>,
    prefix: Seq<u8>,
    with_deleted: bool,
) -> Result<Seq<(Seq<u8>, Seq<u8>)>, StateFault>
    decreases keys.len(),
{
    if keys.len() == 0 {
        Ok(Seq::empty())
    } else {
        let k = keys.last();
        match listing(kv, keys.drop_last(), prefix, with_deleted) {
            Err(f) => Err(f),
            Ok(pairs) => if !prefix.is_prefix_of(k) {
                Ok(pairs)
            } else {
                match heads_at(kv, k) {
                    Err(f) => Err(f),
                    Ok(heads) => match head::winner(heads) {
                        Some(w) if with_deleted || !w.tombstone => Ok(pairs.push((k, w.value))),
                        _ => Ok(pairs),
                    },
                }
            },
        }
    }
}

/// The pairs of keys and heads, from the winner down, for those of the keys that
/// start with `prefix`.
pub open spec fn heads_listing(
    kv: Map<Seq<u8>, Seq<u8>>,
    keys: Seq<Seq<u8>>,
    prefix: Seq<u8>,
) -> Result<Seq<(Seq<u8>, Seq<HeadModel>)>, StateFault>
    decreases keys.len(),
{
    if keys.len() == 0 {
        Ok(Seq::empty())
    } else {
        let k = keys.last();
        match heads_listing(kv, keys.drop_last(), prefix) {
            Err(f) => Err(f),
            Ok(pairs) => if !prefix.is_prefix_of(k) {
                Ok(pairs)
            } else {
                match heads_at(kv, k) {
                    Err(f) => Err(f),
                    Ok(heads) => Ok(pairs.push((k, head::ranked(heads)))),
                }
            },
        }
    }
}

/// The key of an entry's first operation; empty where there is none.
pub open spec fn first_key(e: EntryModel) -> Seq<u8> {
    if e.ops.len() == 0 {
        Seq::empty()
    } else {
        match e.ops[0].key() {
            Some(k) => k,
            None => Seq::empty(),
        }
    }
}

/// The first of the entry's parents that is not among the hashes of the heads.
pub open spec fn missing_parent(parents: Seq<Seq<u8>>, heads: Seq<HeadModel>) -> Option<Seq<u8>>
    decreases parents.len(),
{
    if parents.len() == 0 {
        None
    } else {
        match missing_parent(parents.drop_last(), heads) {
            Some(p) => Some(p),
            None => if head::has_hash(heads, parents.last()) {
                None
            } else {
                Some(parents.last())
            },
        }
    }
}

/// What is wrong with the parents of an entry, judged by its first `n`
/// operations: each of them needs all parents among the heads of its key.
pub open spec fn parents_fault(kv: Map<Seq<u8>, Seq<u8>>, e: EntryModel, n: nat) -> Option<
    ParentFault,
>
    decreases n,
{
    if n == 0 || e.parent_hashes.len() == 0 {
        None
    } else {
        match parents_fault(kv, e, (n - 1) as nat) {
            Some(f) => Some(f),
            None => match e.ops[n - 1].key() {
                None => None,
                Some(key) => match heads_at(kv, key) {
                    Err(f) => Some(ParentFault::State(f.text())),
                    Ok(heads) => match missing_parent(e.parent_hashes, heads) {
                        Some(p) => Some(ParentFault::MissingParent(key, p)),
                        None => None,
                    },
                },
            },
        }
    }
}

/// Whether the predicate can give that answer for the hash.
pub open spec fn says<F: Fn(&Digest) -> bool>(f: F, hash: Digest, answer: bool) -> bool {
    call_ensures(f, (&hash,), answer)
}

/// Whether the parent at `i` is the first of which the predicate says no.
pub open spec fn first_unknown<F: Fn(&Digest) -> bool>(
    f: F,
    parents: Seq<Digest>,
    i: int,
) -> bool {
    &&& 0 <= i < parents.len()
    &&& says(f, parents[i], false)
    &&& forall|j: int| 0 <= j < i ==> says(f, #[trigger] parents[j], true)
}

// ---------------------------------------------------------------------------
// Laws
// ---------------------------------------------------------------------------

/// A new head does not touch the heads of other keys.
pub proof fn law_heads_of_other_keys_stay(
    kv: Map<Seq<u8>, Seq<u8>>,
    key: Seq<u8>,
    new: HeadModel,
    parents: Seq<Seq<u8>>,
    other: Seq<u8>,
)
    requires
        other != key,
    ensures
        head_put(kv, key, new, parents) matches Ok(m) ==> heads_at(m, other) == heads_at(kv, other),
{
}

/// What a head put under a key is read back with the key's other heads.
pub proof fn law_head_is_read_back(
    kv: Map<Seq<u8>, Seq<u8>>,
    key: Seq<u8>,
    new: HeadModel,
    parents: Seq<Seq<u8>>,
)
    requires
        heads_at(kv, key) is Ok,
        forall|i: int|
            0 <= i < (heads_at(kv, key)->Ok_0).len() ==> (
            #[trigger] heads_at(kv, key)->Ok_0[i]).wf(),
        new.wf(),
        head::stored_heads(head::with_head(heads_at(kv, key)->Ok_0, new, parents)).len()
            <= u64::MAX,
    ensures
        head_put(kv, key, new, parents) matches Ok(m) && heads_at(m, key) == Ok::<
            Seq<HeadModel>,
            StateFault,
        >(head::with_head(heads_at(kv, key)->Ok_0, new, parents)),
{
    let heads = heads_at(kv, key)->Ok_0;
    let after = head::with_head(heads, new, parents);
    if !head::has_hash(heads, new.hash) {
        let keep = |h: HeadModel| !parents.contains(h.hash);
        assert forall|i: int| 0 <= i < after.len() implies (#[trigger] after[i]).wf() by {
            if i < after.len() - 1 {
                let kept = heads.filter(keep);
                assert(after[i] == kept[i]);
                heads.lemma_filter_contains_rev(keep, kept[i]);
                let j = heads.index_of(kept[i]);
                assert(heads[j] == kept[i]);
            }
        }
        head::law_stored_heads_round_trip(after);
    }
}

/// A put makes a head with its value, a deletion one that marks it. Either has the time,
/// the author and the hash of its entry.
pub proof fn law_operation_makes_its_head(op: OpTypeModel, e: SignedEntryModel)
    ensures
        ({
            let h = op_head(op, e);
            &&& h.hlc.wall_time == e.entry.timestamp.wall_time
            &&& h.hlc.counter == e.entry.timestamp.counter
            &&& h.author == e.author_id
            &&& h.hash == e.hash()
            &&& op matches OpTypeModel::Put(p) ==> h.value == p.value && !h.tombstone
            &&& op is Delete ==> h.tombstone && h.value.len() == 0
        }),
{
}

/// A key has the value of one of its heads, which marks no deletion and than which none is
/// later. It has none where it has no heads, or where a head than which none is later
/// marks a deletion.
pub proof fn law_value_is_of_the_latest_head(
    kv: Map<Seq<u8>, Seq<u8>>,
    key: Seq<u8>,
    heads: Seq<HeadModel>,
)
    requires
        heads_at(kv, key) == Ok::<Seq<HeadModel>, StateFault>(heads),
    ensures
        match value_at(kv, key) {
            Ok(Some(v)) => exists|k: int|
                0 <= k < heads.len() && (#[trigger] heads[k]).value == v && !heads[k].tombstone
                    && no_later(heads, heads[k]),
            Ok(None) => heads.len() == 0 || exists|k: int|
                0 <= k < heads.len() && (#[trigger] heads[k]).tombstone && no_later(
                    heads,
                    heads[k],
                ),
            Err(_) => false,
        },
        heads.len() > 0 && (forall|k: int|
            0 <= k < heads.len() ==> !(#[trigger] heads[k]).tombstone) ==> value_at(kv, key)
            matches Ok(Some(_)),
        !kv.dom().contains(key) ==> value_at(kv, key) == Ok::<Option<Seq<u8>>, StateFault>(None),
{
    head::law_winner_is_the_latest(heads);
    if heads.len() > 0 {
        let w = head::winner(heads)->0;
        let k = heads.index_of(w);
        assert(heads[k] == w);
        assert(no_later(heads, heads[k]));
    } else if !kv.dom().contains(key) {
        assert(heads =~= Seq::empty());
    }
}

/// Whether none of the heads has a later timestamp than the given one.
pub open spec fn no_later(heads: Seq<HeadModel>, h: HeadModel) -> bool {
    forall|i: int|
        0 <= i < heads.len() ==> (#[trigger] heads[i]).hlc.wall_time < h.hlc.wall_time || (
        heads[i].hlc.wall_time == h.hlc.wall_time && heads[i].hlc.counter <= h.hlc.counter)
}

/// A listing holds a pair for exactly those of the keys that start with the prefix and have
/// heads, and none that were deleted unless they are asked for: the key with the winner's
/// value. Pairs come in the order of the keys. Every such key can be read; where one
/// cannot, there is no listing.
pub proof fn law_listing_is_complete(
    kv: Map<Seq<u8>, Seq<u8>>,
    keys: Seq<Seq<u8>>,
    prefix: Seq<u8>,
    with_deleted: bool,
)
    ensures
        match listing(kv, keys, prefix, with_deleted) {
            Ok(pairs) => {
                &&& forall|k: Seq<u8>, v: Seq<u8>| #[trigger]
                    pairs.contains((k, v)) <==> {
                        &&& keys.contains(k)
                        &&& prefix.len() <= k.len() && k.take(prefix.len() as int) == prefix
                        &&& heads_at(kv, k) matches Ok(heads) && (head::winner(heads) matches Some(
                            w,
                        ) && w.value == v && (with_deleted || !w.tombstone))
                    }
                &&& forall|k: Seq<u8>| #[trigger]
                    keys.contains(k) && prefix.len() <= k.len() && k.take(prefix.len() as int)
                        == prefix ==> heads_at(kv, k) is Ok
                &&& table::ascending(keys) ==> table::ascending(first_of(pairs))
            },
            Err(f) => exists|k: Seq<u8>| #[trigger]
                keys.contains(k) && prefix.len() <= k.len() && k.take(prefix.len() as int) == prefix
                    && heads_at(kv, k) == Err::<Seq<HeadModel>, StateFault>(f),
        },
    decreases keys.len(),
{
    if keys.len() == 0 {
        if let Ok(pairs) = listing(kv, keys, prefix, with_deleted) {
            assert(first_of(pairs) =~= Seq::empty());
        }
    } else {
        let before = keys.drop_last();
        let x = keys.last();
        law_listing_is_complete(kv, before, prefix, with_deleted);
        assert forall|k: Seq<u8>| #[trigger] keys.contains(k) <==> before.contains(k) || k == x by {
            if before.contains(k) {
                assert(keys[before.index_of(k)] == k);
            }
            if keys.contains(k) && k != x {
                assert(before[keys.index_of(k)] == k);
            }
            if k == x {
                assert(keys[keys.len() - 1] == k);
            }
        }
        assert(prefix.is_prefix_of(x) <==> prefix.len() <= x.len() && x.take(prefix.len() as int)
            == prefix) by {
            assert(x.take(prefix.len() as int) =~= x.subrange(0, prefix.len() as int));
        }
        match listing(kv, before, prefix, with_deleted) {
            Ok(q) => {
                lemma_first_of_ascending(keys, q, x);
                assert forall|i: int| 0 <= i < q.len() implies before.contains(
                    (#[trigger] q[i]).0,
                ) by {
                    assert(q.contains((q[i].0, q[i].1)));
                }
                if let Ok(pairs) = listing(kv, keys, prefix, with_deleted) {
                    assert forall|k: Seq<u8>, v: Seq<u8>| #[trigger] pairs.contains((k, v)) <==> {
                        &&& keys.contains(k)
                        &&& prefix.len() <= k.len() && k.take(prefix.len() as int) == prefix
                        &&& heads_at(kv, k) matches Ok(heads) && (head::winner(heads) matches Some(
                            w,
                        ) && w.value == v && (with_deleted || !w.tombstone))
                    } by {
                        assert(q.contains((k, v)) ==> before.contains(k));
                        if pairs.contains((k, v)) {
                            let i = pairs.index_of((k, v));
                            if i < q.len() {
                                assert(q[i] == (k, v));
                            }
                        }
                        if q.contains((k, v)) {
                            let i = q.index_of((k, v));
                            assert(pairs[i] == (k, v));
                        }
                        if pairs.len() > q.len() {
                            assert(pairs[pairs.len() - 1] == pairs.last());
                        }
                    }
                } else {
                    assert(keys.contains(x));
                }
            },
            Err(f) => {
                let k = choose|k: Seq<u8>| #[trigger]
                    before.contains(k) && prefix.len() <= k.len() && k.take(prefix.len() as int)
                        == prefix && heads_at(kv, k) == Err::<Seq<HeadModel>, StateFault>(f);
                assert(keys.contains(k));
            },
        }
    }
}

/// The keys of pairs.
pub open spec fn first_of<V>(pairs: Seq<(Seq<u8>, V)>) -> Seq<Seq<u8>> {
    pairs.map_values(|p: (Seq<u8>, V)| p.0)
}

/// Pairs whose keys ascend, and one more with a key behind them.
proof fn lemma_first_of_ascending<V>(keys: Seq<Seq<u8>>, q: Seq<(Seq<u8>, V)>, x: Seq<u8>)
    requires
        keys.len() > 0,
        x == keys.last(),
    ensures
        table::ascending(keys) ==> table::ascending(keys.drop_last()),
        forall|v: V|
            table::ascending(keys) && table::ascending(first_of(q)) && (forall|i: int|
                0 <= i < q.len() ==> keys.drop_last().contains((#[trigger] q[i]).0))
                ==> table::ascending(first_of(#[trigger] q.push((x, v)))),
{
    let before = keys.drop_last();
    if table::ascending(keys) {
        assert forall|i: int, j: int| 0 <= i < j < before.len() implies bytes::lex_lt(
            #[trigger] before[i],
            #[trigger] before[j],
        ) by {
            assert(before[i] == keys[i] && before[j] == keys[j]);
        }
        assert forall|v: V|
            table::ascending(first_of(q)) && (forall|i: int|
                0 <= i < q.len() ==> before.contains(
                    (#[trigger] q[i]).0,
                )) implies table::ascending(first_of(#[trigger] q.push((x, v)))) by {
            let r = first_of(q.push((x, v)));
            let s = first_of(q);
            assert forall|i: int, j: int| 0 <= i < j < r.len() implies bytes::lex_lt(
                #[trigger] r[i],
                #[trigger] r[j],
            ) by {
                assert(r[i] == s[i]);
                if j < q.len() {
                    assert(r[j] == s[j]);
                } else {
                    assert(before.contains(q[i].0));
                    let n = before.index_of(q[i].0);
                    assert(keys[n] == q[i].0);
                    assert(keys[keys.len() - 1] == x);
                }
            }
        }
    }
}

/// A listing without deleted keys and the reading of single keys agree.
pub proof fn law_listing_agrees_with_reading(
    kv: Map<Seq<u8>, Seq<u8>>,
    keys: Seq<Seq<u8>>,
    prefix: Seq<u8>,
    key: Seq<u8>,
    value: Seq<u8>,
)
    requires
        keys.contains(key),
        prefix.len() <= key.len(),
        key.take(prefix.len() as int) == prefix,
    ensures
        listing(kv, keys, prefix, false) matches Ok(pairs) ==> (pairs.contains((key, value))
            <==> value_at(kv, key) == Ok::<Option<Seq<u8>>, StateFault>(Some(value))),
{
    law_listing_is_complete(kv, keys, prefix, false);
}

/// A listing of heads holds a pair for exactly those of the keys that start with the prefix:
/// the key with all its heads, from the winner down. Pairs come in the order of the keys.
/// Where one such key cannot be read, there is no listing.
pub proof fn law_heads_listing_is_complete(
    kv: Map<Seq<u8>, Seq<u8>>,
    keys: Seq<Seq<u8>>,
    prefix: Seq<u8>,
)
    ensures
        match heads_listing(kv, keys, prefix) {
            Ok(pairs) => {
                &&& forall|k: Seq<u8>, hs: Seq<HeadModel>| #[trigger]
                    pairs.contains((k, hs)) <==> {
                        &&& keys.contains(k)
                        &&& prefix.len() <= k.len() && k.take(prefix.len() as int) == prefix
                        &&& heads_at(kv, k) matches Ok(heads) && hs == head::ranked(heads)
                    }
                &&& forall|k: Seq<u8>| #[trigger]
                    keys.contains(k) && prefix.len() <= k.len() && k.take(prefix.len() as int)
                        == prefix ==> heads_at(kv, k) is Ok
                &&& table::ascending(keys) ==> table::ascending(first_of(pairs))
            },
            Err(f) => exists|k: Seq<u8>| #[trigger]
                keys.contains(k) && prefix.len() <= k.len() && k.take(prefix.len() as int) == prefix
                    && heads_at(kv, k) == Err::<Seq<HeadModel>, StateFault>(f),
        },
    decreases keys.len(),
{
    if keys.len() == 0 {
        if let Ok(pairs) = heads_listing(kv, keys, prefix) {
            assert(first_of(pairs) =~= Seq::empty());
        }
    } else {
        let before = keys.drop_last();
        let x = keys.last();
        law_heads_listing_is_complete(kv, before, prefix);
        assert forall|k: Seq<u8>| #[trigger] keys.contains(k) <==> before.contains(k) || k == x by {
            if before.contains(k) {
                assert(keys[before.index_of(k)] == k);
            }
            if keys.contains(k) && k != x {
                assert(before[keys.index_of(k)] == k);
            }
            if k == x {
                assert(keys[keys.len() - 1] == k);
            }
        }
        assert(prefix.is_prefix_of(x) <==> prefix.len() <= x.len() && x.take(prefix.len() as int)
            == prefix) by {
            assert(x.take(prefix.len() as int) =~= x.subrange(0, prefix.len() as int));
        }
        match heads_listing(kv, before, prefix) {
            Ok(q) => {
                lemma_first_of_ascending(keys, q, x);
                assert forall|i: int| 0 <= i < q.len() implies before.contains(
                    (#[trigger] q[i]).0,
                ) by {
                    assert(q.contains((q[i].0, q[i].1)));
                }
                if let Ok(pairs) = heads_listing(kv, keys, prefix) {
                    assert forall|k: Seq<u8>, hs: Seq<HeadModel>| #[trigger]
                        pairs.contains((k, hs)) <==> {
                        &&& keys.contains(k)
                        &&& prefix.len() <= k.len() && k.take(prefix.len() as int) == prefix
                        &&& heads_at(kv, k) matches Ok(heads) && hs == head::ranked(heads)
                    } by {
                        assert(q.contains((k, hs)) ==> before.contains(k));
                        if pairs.contains((k, hs)) {
                            let i = pairs.index_of((k, hs));
                            if i < q.len() {
                                assert(q[i] == (k, hs));
                            }
                        }
                        if q.contains((k, hs)) {
                            let i = q.index_of((k, hs));
                            assert(pairs[i] == (k, hs));
                        }
                        if pairs.len() > q.len() {
                            assert(pairs[pairs.len() - 1] == pairs.last());
                        }
                    }
                } else {
                    assert(keys.contains(x));
                }
            },
            Err(f) => {
                let k = choose|k: Seq<u8>| #[trigger]
                    before.contains(k) && prefix.len() <= k.len() && k.take(prefix.len() as int)
                        == prefix && heads_at(kv, k) == Err::<Seq<HeadModel>, StateFault>(f);
                assert(keys.contains(k));
            },
        }
    }
}

/// Whether the parent at `i` is the first that is not the hash of one of the heads.
pub open spec fn first_absent(parents: Seq<Seq<u8>>, heads: Seq<HeadModel>, i: int) -> bool {
    &&& 0 <= i < parents.len()
    &&& forall|j: int| 0 <= j < heads.len() ==> (#[trigger] heads[j]).hash != parents[i]
    &&& forall|n: int| 0 <= n < i ==> head::has_hash(heads, #[trigger] parents[n])
}

/// No parent is missing exactly where every parent is the hash of one of the heads; the one
/// that is reported is the first that is not.
pub proof fn law_missing_parent_is_the_first(parents: Seq<Seq<u8>>, heads: Seq<HeadModel>)
    ensures
        match missing_parent(parents, heads) {
            None => forall|i: int|
                0 <= i < parents.len() ==> exists|j: int|
                    0 <= j < heads.len() && (#[trigger] heads[j]).hash == #[trigger] parents[i],
            Some(p) => exists|i: int| #[trigger] first_absent(parents, heads, i) && parents[i] == p,
        },
    decreases parents.len(),
{
    if parents.len() > 0 {
        let before = parents.drop_last();
        law_missing_parent_is_the_first(before, heads);
        match missing_parent(before, heads) {
            Some(p) => {
                let i = choose|i: int| #[trigger]
                    first_absent(before, heads, i) && before[i] == p;
                assert forall|n: int| 0 <= n < i implies head::has_hash(
                    heads,
                    #[trigger] parents[n],
                ) by {
                    assert(before[n] == parents[n]);
                }
                assert(before[i] == parents[i]);
                assert(first_absent(parents, heads, i));
            },
            None => {
                assert forall|n: int| 0 <= n < before.len() implies exists|j: int|
                    0 <= j < heads.len() && (#[trigger] heads[j]).hash == #[trigger] parents[n] by {
                    assert(before[n] == parents[n]);
                }
                assert forall|n: int| 0 <= n < before.len() implies head::has_hash(
                    heads,
                    #[trigger] parents[n],
                ) by {
                    assert(before[n] == parents[n]);
                }
                if missing_parent(parents, heads) is Some {
                    assert(first_absent(parents, heads, parents.len() - 1));
                } else {
                    assert(head::has_hash(heads, parents.last()));
                }
            },
        }
    }
}

/// The parents of an entry are in order exactly where it names none, or where every key
/// that one of its operations is about can be read and has every parent among the hashes
/// of its heads.
pub proof fn law_parents_are_among_the_heads(kv: Map<Seq<u8>, Seq<u8>>, e: EntryModel, n: nat)
    requires
        n <= e.ops.len(),
    ensures
        parents_fault(kv, e, n) is None <==> e.parent_hashes.len() == 0 || forall|i: int|
            0 <= i < n ==> (#[trigger] e.ops[i].key() matches Some(key) ==> (heads_at(
                kv,
                key,
            ) matches Ok(heads) && forall|p: int|
                0 <= p < e.parent_hashes.len() ==> head::has_hash(
                    heads,
                    #[trigger] e.parent_hashes[p],
                ))),
        parents_fault(kv, e, n) matches Some(ParentFault::MissingParent(key, p)) ==> {
            &&& e.parent_hashes.contains(p)
            &&& exists|i: int| 0 <= i < n && #[trigger] e.ops[i].key() == Some(key)
            &&& heads_at(kv, key) matches Ok(heads) && !head::has_hash(heads, p)
        },
    decreases n,
{
    if n > 0 && e.parent_hashes.len() > 0 {
        law_parents_are_among_the_heads(kv, e, (n - 1) as nat);
        if let Some(key) = e.ops[n - 1].key() {
            if let Ok(heads) = heads_at(kv, key) {
                law_missing_parent_is_the_first(e.parent_hashes, heads);
                if let Some(p) = missing_parent(e.parent_hashes, heads) {
                    let i = choose|i: int| #[trigger]
                        first_absent(e.parent_hashes, heads, i) && e.parent_hashes[i] == p;
                    assert(e.parent_hashes[i] == p);
                    assert(!head::has_hash(heads, p));
                    assert(e.ops[n - 1].key() == Some(key));
                } else {
                    assert forall|p: int| 0 <= p < e.parent_hashes.len() implies head::has_hash(
                        heads,
                        #[trigger] e.parent_hashes[p],
                    ) by {
                        let j = choose|j: int|
                            0 <= j < heads.len() && (#[trigger] heads[j]).hash
                                == e.parent_hashes[p];
                        assert(heads[j].hash == e.parent_hashes[p]);
                    }
                }
            }
        }
    }
}

/// Once an entry has been applied, the tip of its author's chain is that entry.
pub proof fn law_applied_entry_is_the_tip(st: StateModel, e: SignedEntryModel)
    requires
        e.hash().len() == 32,
    ensures
        applied(st, e) matches Ok(s) ==> tip_at(s.tips, e.author_id) == Some(e.tip()),
{
    entry::law_chain_tip_round_trip(e.tip());
}

/// An entry that follows the tip of its author's chain, or comes first, is not
/// refused for not following it.
pub proof fn lemma_apply_fault(st: StateModel, e: SignedEntryModel)
    requires
        e.entry.prev_hash == last_hash(st.tips, e.author_id),
    ensures
        applied(st, e) matches Err(f) ==> !(f is NotSuccessor),
{
    lemma_ops_fault_kind(st.kv, e, e.entry.ops.len());
}

/// An entry is refused as no successor exactly where it does not name the hash of
/// its author's tip, or zeros where the author has none, whatever its number is. The
/// refusal tells the entry's number and how the two hashes begin, and the state stays
/// as it was.
pub proof fn law_only_a_successor_is_applied(st: StateModel, e: SignedEntryModel)
    ensures
        e.entry.prev_hash != last_hash(st.tips, e.author_id) <==> (applied(st, e) matches Err(f)
            && f is NotSuccessor),
        e.entry.prev_hash != last_hash(st.tips, e.author_id) ==> {
            &&& applied(st, e) == Err::<StateModel, StateFault>(
                StateFault::NotSuccessor(
                    e.entry.seq,
                    text::short_hex(e.entry.prev_hash, 8),
                    text::short_hex(last_hash(st.tips, e.author_id), 8),
                ),
            )
            &&& state_after(st, e) == st
        },
{
    if e.entry.prev_hash == last_hash(st.tips, e.author_id) {
        lemma_apply_fault(st, e);
    }
}

/// An entry that was applied is refused the next time, and the state stays as it
/// is: applying twice is applying once.
pub proof fn law_apply_is_idempotent(st: StateModel, e: SignedEntryModel)
    requires
        e.hash().len() == 32,
        e.entry.prev_hash != e.hash(),
    ensures
        applied(st, e) matches Ok(s) ==> {
            &&& applied(s, e) == Err::<StateModel, StateFault>(
                StateFault::NotSuccessor(
                    e.entry.seq,
                    text::short_hex(e.entry.prev_hash, 8),
                    text::short_hex(e.hash(), 8),
                ),
            )
            &&& state_after(s, e) == s
        },
{
    law_applied_entry_is_the_tip(st, e);
}

/// The entries as a log gives them.
pub open spec fn as_read(entries: Seq<SignedEntryModel>) -> Seq<
    Result<SignedEntryModel, LogError>,
> {
    entries.map_values(|e: SignedEntryModel| Ok::<SignedEntryModel, LogError>(e))
}

/// Replaying a log onto the state that it led to changes nothing, provided no
/// entry of the log follows the log's last entry.
pub proof fn law_replay_again_changes_nothing(
    st: StateModel,
    entries: Seq<SignedEntryModel>,
    tip: ChainTipModel,
    author: Seq<u8>,
)
    requires
        tip_at(st.tips, author) == Some(tip),
        forall|i: int|
            0 <= i < entries.len() ==> (#[trigger] entries[i]).author_id == author
                && entries[i].entry.prev_hash != tip.hash,
    ensures
        replayed(st, as_read(entries)) == Ok::<(StateModel, nat), StateFault>((st, 0nat)),
    decreases entries.len(),
{
    if entries.len() > 0 {
        let before = entries.drop_last();
        assert(as_read(entries).drop_last() =~= as_read(before));
        assert forall|i: int| 0 <= i < before.len() implies (#[trigger] before[i]).author_id
            == author && before[i].entry.prev_hash != tip.hash by {
            assert(before[i] == entries[i]);
        }
        law_replay_again_changes_nothing(st, before, tip, author);
        assert(entries[entries.len() - 1].author_id == author);
    }
}

/// Replaying two logs one after the other is replaying them as one.
pub proof fn law_replay_in_parts(
    st: StateModel,
    a: Seq<Result<SignedEntryModel, LogError>>,
    b: Seq<Result<SignedEntryModel, LogError>>,
)
    ensures
        replayed(st, a + b) == match replayed(st, a) {
            Err(f) => Err(f),
            Ok((s, n)) => match replayed(s, b) {
                Err(f) => Err(f),
                Ok((t, m)) => Ok((t, n + m)),
            },
        },
    decreases b.len(),
{
    if b.len() == 0 {
        assert(a + b =~= a);
    } else {
        assert((a + b).drop_last() =~= a + b.drop_last());
        law_replay_in_parts(st, a, b.drop_last());
    }
}

/// Whether the entries are a piece of one author's chain: each names the hash of the
/// one before it, and none names its own or one that comes behind it.
pub open spec fn is_chain(es: Seq<SignedEntryModel>, author: Seq<u8>) -> bool {
    &&& forall|i: int|
        0 <= i < es.len() ==> (#[trigger] es[i]).author_id == author && es[i].hash().len() == 32
    &&& forall|i: int, j: int|
        0 <= i && j == i + 1 && j < es.len() ==> (#[trigger] es[j]).entry.prev_hash
            == (#[trigger] es[i]).hash()
    &&& forall|i: int, j: int|
        0 <= i <= j < es.len() ==> (#[trigger] es[i]).entry.prev_hash != (
        #[trigger] es[j]).hash()
}

/// Whether the state has got as far as the first `k` entries of a piece of an
/// author's chain.
pub open spec fn holds_first(
    st: StateModel,
    es: Seq<SignedEntryModel>,
    author: Seq<u8>,
    k: int,
) -> bool {
    if k == 0 {
        last_hash(st.tips, author) == es[0].entry.prev_hash
    } else {
        tip_at(st.tips, author) == Some(es[k - 1].tip())
    }
}

#[verifier::rlimit(40)]
proof fn lemma_replay_takes_up(
    st: StateModel,
    es: Seq<SignedEntryModel>,
    author: Seq<u8>,
    k: int,
    n: int,
)
    requires
        is_chain(es, author),
        0 <= k <= n <= es.len(),
        0 < es.len(),
        holds_first(st, es, author, k),
    ensures
        match run(st, es.subrange(k, n)) {
            Ok(s) => {
                &&& replayed(st, as_read(es.take(n))) == Ok::<(StateModel, nat), StateFault>(
                    (s, (n - k) as nat),
                )
                &&& holds_first(s, es, author, n)
            },
            Err(f) => {
                &&& replayed(st, as_read(es.take(n))) == Err::<(StateModel, nat), StateFault>(f)
                &&& !(f is NotSuccessor)
            },
        },
    decreases n - k,
{
    if n == k {
        if k > 0 {
            law_replay_again_changes_nothing(st, es.take(k), es[k - 1].tip(), author);
        }
    } else {
        let e = es[n - 1];
        lemma_replay_takes_up(st, es, author, k, n - 1);
        assert(es.subrange(k, n).drop_last() =~= es.subrange(k, n - 1));
        assert(as_read(es.take(n)).drop_last() =~= as_read(es.take(n - 1)));
        assert(as_read(es.take(n)).last() == Ok::<SignedEntryModel, LogError>(e));
        if let Ok(s) = run(st, es.subrange(k, n - 1)) {
            if n > 1 {
                assert(es[n - 2].hash() == e.entry.prev_hash);
            }
            lemma_apply_fault(s, e);
            law_applied_entry_is_the_tip(s, e);
        }
    }
}

/// Replaying a chain over a state that holds its first entries applies the others and
/// counts only those: the last entry becomes the tip, and a further replay changes
/// nothing. Where one of them finds heads that cannot be read, the replay fails with
/// that fault.
pub proof fn law_replay_takes_up_the_rest(
    st: StateModel,
    es: Seq<SignedEntryModel>,
    author: Seq<u8>,
    k: int,
)
    requires
        is_chain(es, author),
        0 <= k <= es.len(),
        0 < es.len(),
        holds_first(st, es, author, k),
    ensures
        match run(st, es.skip(k)) {
            Ok(s) => {
                &&& replayed(st, as_read(es)) == Ok::<(StateModel, nat), StateFault>(
                    (s, (es.len() - k) as nat),
                )
                &&& tip_at(s.tips, author) == Some(es.last().tip())
                &&& replayed(s, as_read(es)) == Ok::<(StateModel, nat), StateFault>((s, 0nat))
            },
            Err(f) => {
                &&& replayed(st, as_read(es)) == Err::<(StateModel, nat), StateFault>(f)
                &&& !(f is NotSuccessor)
            },
        },
{
    let n = es.len() as int;
    assert(es.take(n) =~= es);
    assert(es.subrange(k, n) =~= es.skip(k));
    lemma_replay_takes_up(st, es, author, k, n);
    if let Ok(s) = run(st, es.skip(k)) {
        law_replay_again_changes_nothing(s, es, es.last().tip(), author);
    }
}

/// One more read behind a replay: an entry that can be applied is, and counts; one that does
/// not follow its author's last is passed over; any other fault, and a read that failed, ends
/// the replay.
pub proof fn law_replay_goes_on_by_one(
    st: StateModel,
    entries: Seq<Result<SignedEntryModel, LogError>>,
    e: SignedEntryModel,
    fault: LogError,
)
    ensures
        replayed(st, Seq::empty()) == Ok::<(StateModel, nat), StateFault>((st, 0nat)),
        replayed(st, entries) matches Ok((s, n)) ==> {
            let more = replayed(st, entries.push(Ok(e)));
            &&& applied(s, e) matches Ok(t) ==> more == Ok::<(StateModel, nat), StateFault>(
                (t, n + 1),
            )
            &&& e.entry.prev_hash != last_hash(s.tips, e.author_id) ==> more == Ok::<
                (StateModel, nat),
                StateFault,
            >((s, n))
            &&& e.entry.prev_hash == last_hash(s.tips, e.author_id) ==> (applied(s, e) matches Err(
                f,
            ) ==> more == Err::<(StateModel, nat), StateFault>(f))
            &&& replayed(st, entries.push(Err(fault))) == Err::<(StateModel, nat), StateFault>(
                StateFault::Log(fault),
            )
        },
{
    assert(entries.push(Ok(e)).drop_last() =~= entries);
    assert(entries.push(Err(fault)).drop_last() =~= entries);
    if let Ok((s, n)) = replayed(st, entries) {
        law_only_a_successor_is_applied(s, e);
    }
}

/// What an author's next entry has to name is the hash of the tip that is stored, and zeros
/// for an author of whom none is.
pub proof fn law_next_names_the_tip(tips: Map<Seq<u8>, Seq<u8>>, author: Seq<u8>, tip: ChainTipModel)
    ensures
        !tips.dom().contains(author) ==> last_hash(tips, author) == Seq::new(32, |i: int| 0u8)
            && tip_at(tips, author) is None,
        tips.dom().contains(author) && tips[author] == tip.encoding() && tip.hash.len() == 32
            ==> last_hash(tips, author) == tip.hash && tip_at(tips, author) == Some(tip),
{
    assert(bytes::zeros(32) =~= Seq::new(32, |i: int| 0u8));
    if tip.hash.len() == 32 {
        entry::law_chain_tip_round_trip(tip);
    }
}

// ---------------------------------------------------------------------------
// The state
// ---------------------------------------------------------------------------

/// The key-value state of a store.
pub struct State {
    kv: ByteTable,
    tips: ByteTable,
}

impl View for State {
    type V = StateModel;

    closed spec fn view(&self) -> StateModel {
        StateModel { kv: self.kv@, tips: self.tips@ }
    }
}

impl State {
    /// The tables are well formed.
    pub closed spec fn wf(&self) -> bool {
        self.kv.wf() && self.tips.wf()
    }

    /// The keys that have heads, in ascending order.
    pub open spec fn keys(&self) -> Seq<Seq<u8>> {
        table::sorted_keys(self@.kv.dom())
    }

    /// A state without keys.
    pub fn open() -> (r: State)
        ensures
            r.wf(),
            r@.kv == Map::<Seq<u8>, Seq<u8>>::empty(),
            r@.tips == Map::<Seq<u8>, Seq<u8>>::empty(),
    {
        State { kv: ByteTable::new(), tips: ByteTable::new() }
    }

    /// The state that is stored in the given tables.
    pub fn from_tables(kv: ByteTable, tips: ByteTable) -> (r: State)
        requires
            kv.wf(),
            tips.wf(),
        ensures
            r.wf(),
            r@.kv == kv@,
            r@.tips == tips@,
    {
        State { kv, tips }
    }

    /// The table of stored heads.
    pub fn kv_table(&self) -> (r: &ByteTable)
        requires
            self.wf(),
        ensures
            r.wf(),
            r@ == self@.kv,
    {
        &self.kv
    }

    /// The table of stored chain tips.
    pub fn tips_table(&self) -> (r: &ByteTable)
        requires
            self.wf(),
        ensures
            r.wf(),
            r@ == self@.tips,
    {
        &self.tips
    }

    /// Applies the entries of a log that are new: how many they were. At an
    /// error the state stays as it was.
    pub fn replay_entries(&mut self, entries: &Vec<Result<SignedEntry, LogError>>) -> (r: Result<
        u64,
        StateError,
    >)
        requires
            old(self).wf(),
        ensures
            final(self).wf(),
            match replayed(old(self)@, log::result_models(entries@)) {
                Ok((s, n)) => r matches Ok(k) && k == n && final(self)@ == s,
                Err(f) => r matches Err(e) && e@ == f && final(self)@ == old(self)@,
            },
    {
        let total: usize = entries.len();
        let ghost all = log::result_models(entries@);
        let ghost start = self@;
        let mut kv_writes = ByteTable::new();
        let mut tip_writes = ByteTable::new();
        let mut count: u64 = 0;
        let mut i: usize = 0;
        proof {
            assert(all.take(0) =~= Seq::empty());
            assert(table::overlaid(self.kv@, kv_writes@) =~= self.kv@);
            assert(table::overlaid(self.tips@, tip_writes@) =~= self.tips@);
        }
        while i < total
            invariant
                i <= total,
                total == entries@.len(),
                self.wf(),
                self@ == start,
                kv_writes.wf(),
                tip_writes.wf(),
                all == log::result_models(entries@),
                count <= i,
                replayed(start, all.take(i as int)) == Ok::<(StateModel, nat), StateFault>(
                    (
                        StateModel {
                            kv: table::overlaid(self.kv@, kv_writes@),
                            tips: table::overlaid(self.tips@, tip_writes@),
                        },
                        count as nat,
                    ),
                ),
            decreases entries@.len() - i,
        {
            proof {
                assert(all.take(i + 1).drop_last() =~= all.take(i as int));
                assert(all.take(i + 1).last() == all[i as int]);
                law_replay_in_parts(start, all.take(i + 1), all.skip(i + 1));
                assert(all.take(i + 1) + all.skip(i + 1) =~= all);
            }
            match &entries[i] {
                Err(e) => {
                    return Err(StateError::Log(*e));
                },
                Ok(entry) => {
                    match State::apply_ops_to_tables(
                        entry,
                        &self.kv,
                        &mut kv_writes,
                        &self.tips,
                        &mut tip_writes,
                    ) {
                        Ok(()) => {
                            count = count + 1;
                        },
                        Err(StateError::NotSuccessor { entry_seq, prev_hash, tip_hash }) => {},
                        Err(e) => {
                            return Err(e);
                        },
                    }
                },
            }
            i += 1;
        }
        assert(all.take(i as int) =~= all);
        self.kv.absorb(&kv_writes);
        self.tips.absorb(&tip_writes);
        Ok(count)
    }

    /// Applies one entry. At an error the state stays as it was.
    pub fn apply_entry(&mut self, signed_entry: &SignedEntry) -> (r: Result<(), StateError>)
        requires
            old(self).wf(),
        ensures
            final(self).wf(),
            final(self)@ == state_after(old(self)@, signed_entry@),
            match applied(old(self)@, signed_entry@) {
                Ok(_) => r is Ok,
                Err(f) => r matches Err(e) && e@ == f,
            },
    {
        let mut kv_writes = ByteTable::new();
        let mut tip_writes = ByteTable::new();
        proof {
            assert(table::overlaid(self.kv@, kv_writes@) =~= self.kv@);
            assert(table::overlaid(self.tips@, tip_writes@) =~= self.tips@);
        }
        match State::apply_ops_to_tables(
            signed_entry,
            &self.kv,
            &mut kv_writes,
            &self.tips,
            &mut tip_writes,
        ) {
            Ok(()) => {
                self.kv.absorb(&kv_writes);
                self.tips.absorb(&tip_writes);
                Ok(())
            },
            Err(e) => Err(e),
        }
    }

    /// Checks that every parent of the entry is known: the first one that is not
    /// is reported. An entry without parents is always in order.
    pub fn validate_parent_hashes_with_index<F: Fn(&Digest) -> bool>(
        &self,
        signed_entry: &SignedEntry,
        hash_exists: F,
    ) -> (r: Result<(), ParentValidationError>)
        requires
            forall|h: Digest| call_requires(hash_exists, (&h,)),
        ensures
            match r {
                Ok(()) => forall|i: int|
                    0 <= i < signed_entry.entry.parent_hashes@.len() ==> says(
                        hash_exists,
                        #[trigger] signed_entry.entry.parent_hashes@[i],
                        true,
                    ),
                Err(e) => exists|i: int|
                    #[trigger] first_unknown(hash_exists, signed_entry.entry.parent_hashes@, i)
                        && e@ == ParentFault::MissingParent(
                        first_key(signed_entry@.entry),
                        signed_entry.entry.parent_hashes@[i]@,
                    ),
            },
    {
        check_parents(signed_entry, hash_exists)
    }

    /// The key of the entry's first operation; empty where there is none.
    pub fn first_key_of(signed_entry: &SignedEntry) -> (r: Vec<u8>)
        ensures
            r@ == first_key(signed_entry@.entry),
    {
        if signed_entry.entry.ops.len() == 0 {
            return Vec::new();
        }
        assert(signed_entry@.entry.ops[0] == signed_entry.entry.ops@[0]@);
        match signed_entry.entry.ops[0].key() {
            Some(key) => to_vec(key.as_slice()),
            None => Vec::new(),
        }
    }

    /// Checks that all parents of the entry are among the current heads of every
    /// key that it is about. An entry without parents is always in order.
    pub fn validate_parent_hashes(&self, signed_entry: &SignedEntry) -> (r: Result<
        (),
        ParentValidationError,
    >)
        requires
            self.wf(),
        ensures
            match parents_fault(self@.kv, signed_entry@.entry, signed_entry@.entry.ops.len()) {
                None => r is Ok,
                Some(f) => r matches Err(e) && e@ == f,
            },
    {
        let ghost m = signed_entry@.entry;
        if signed_entry.entry.parent_hashes.len() == 0 {
            return Ok(());
        }
        let mut i: usize = 0;
        while i < signed_entry.entry.ops.len()
            invariant
                self.wf(),
                i <= m.ops.len(),
                m == signed_entry@.entry,
                m.parent_hashes.len() > 0,
                m.ops.len() == signed_entry.entry.ops@.len(),
                parents_fault(self@.kv, m, i as nat) is None,
            decreases m.ops.len() - i,
        {
            let op = &signed_entry.entry.ops[i];
            assert(m.ops[i as int] == op@);
            match op.key() {
                None => {},
                Some(key) => {
                    let heads = match self.load(key.as_slice()) {
                        Ok(heads) => heads,
                        Err(e) => {
                            proof {
                                lemma_parents_fault_stays(self@.kv, m, (i + 1) as nat);
                            }
                            return Err(ParentValidationError::State(e.to_string()));
                        },
                    };
                    match State::first_missing(&signed_entry.entry.parent_hashes, &heads) {
                        Some(parent) => {
                            proof {
                                lemma_parents_fault_stays(self@.kv, m, (i + 1) as nat);
                            }
                            return Err(
                                ParentValidationError::MissingParent {
                                    key: to_vec(key.as_slice()),
                                    awaited_hash: to_vec(parent.as_slice()),
                                },
                            );
                        },
                        None => {},
                    }
                },
            }
            i += 1;
        }
        Ok(())
    }

    /// The first of the parents that is not the hash of one of the heads.
    fn first_missing(parents: &Vec<Digest>, heads: &Vec<Head>) -> (r: Option<Digest>)
        ensures
            match missing_parent(entry::digests(parents@), head::head_models(heads@)) {
                Some(p) => r matches Some(h) && h@ == p,
                None => r is None,
            },
    {
        let ghost ps = entry::digests(parents@);
        let ghost hs = head::head_models(heads@);
        let mut i: usize = 0;
        assert(ps.take(0) =~= Seq::empty());
        while i < parents.len()
            invariant
                i <= parents@.len(),
                ps == entry::digests(parents@),
                hs == head::head_models(heads@),
                missing_parent(ps.take(i as int), hs) is None,
            decreases parents@.len() - i,
        {
            proof {
                assert(ps.take(i + 1).drop_last() =~= ps.take(i as int));
                assert(ps.take(i + 1).last() == ps[i as int]);
            }
            if !contains_hash(heads, &parents[i]) {
                proof {
                    lemma_missing_stays(ps, hs, i + 1);
                }
                return Some(parents[i]);
            }
            i += 1;
        }
        assert(ps.take(i as int) =~= ps);
        None
    }

    /// Applies the operations of an entry on top of the writes made before, and
    /// makes it its author's tip. At an error nothing is written.
    fn apply_ops_to_tables(
        signed_entry: &SignedEntry,
        kv: &ByteTable,
        kv_writes: &mut ByteTable,
        tips: &ByteTable,
        tip_writes: &mut ByteTable,
    ) -> (r: Result<(), StateError>)
        requires
            kv.wf(),
            tips.wf(),
            old(kv_writes).wf(),
            old(tip_writes).wf(),
        ensures
            final(kv_writes).wf(),
            final(tip_writes).wf(),
            ({
                let before = StateModel {
                    kv: table::overlaid(kv@, old(kv_writes)@),
                    tips: table::overlaid(tips@, old(tip_writes)@),
                };
                let after = StateModel {
                    kv: table::overlaid(kv@, final(kv_writes)@),
                    tips: table::overlaid(tips@, final(tip_writes)@),
                };
                match applied(before, signed_entry@) {
                    Ok(s) => r is Ok && after == s,
                    Err(f) => r matches Err(e) && e@ == f && (f is NotSuccessor ==> after
                        == before),
                }
            }),
    {
        let ghost e = signed_entry@;
        let ghost before = StateModel {
            kv: table::overlaid(kv@, kv_writes@),
            tips: table::overlaid(tips@, tip_writes@),
        };
        let author = signed_entry.author_id;
        let entry_hash = signed_entry.hash();
        let stored = match overlay_get(tips, tip_writes, author.as_slice()) {
            Some(tip_bytes) => match ChainTip::decode(tip_bytes.as_slice()) {
                Ok(tip) => Some(tip),
                Err(_) => None,
            },
            None => None,
        };
        let (follows, last): (bool, Digest) = match stored {
            Some(tip) => (signed_entry.entry.is_successor_of(&tip), tip.hash),
            None => (signed_entry.entry.is_genesis(), [0u8; 32]),
        };
        assert(last@ =~= last_hash(before.tips, e.author_id));
        if !follows {
            let prev = vstd::slice::slice_subrange(signed_entry.entry.prev_hash.as_slice(), 0, 8);
            let tip_hash = vstd::slice::slice_subrange(last.as_slice(), 0, 8);
            assert(prev@ =~= e.entry.prev_hash.take(8));
            assert(tip_hash@ =~= last@.take(8));
            return Err(
                StateError::NotSuccessor {
                    entry_seq: signed_entry.entry.seq,
                    prev_hash: hex_encode(prev),
                    tip_hash: hex_encode(tip_hash),
                },
            );
        }
        let mut i: usize = 0;
        while i < signed_entry.entry.ops.len()
            invariant
                kv.wf(),
                kv_writes.wf(),
                tip_writes.wf(),
                tip_writes@ == old(tip_writes)@,
                before == (StateModel {
                    kv: table::overlaid(kv@, old(kv_writes)@),
                    tips: table::overlaid(tips@, old(tip_writes)@),
                }),
                e == signed_entry@,
                entry_hash@ == e.hash(),
                author == signed_entry.author_id,
                i <= e.entry.ops.len(),
                e.entry.ops.len() == signed_entry.entry.ops@.len(),
                ops_put(before.kv, e, i as nat) == Ok::<Map<Seq<u8>, Seq<u8>>, StateFault>(
                    table::overlaid(kv@, kv_writes@),
                ),
                // What the caller is told where a later operation fails.
                e.entry.prev_hash == last_hash(before.tips, e.author_id),
            decreases e.entry.ops.len() - i,
        {
            let op = &signed_entry.entry.ops[i];
            assert(e.entry.ops[i as int] == op@);
            match &op.op_type {
                None => {},
                Some(op_type) => {
                    let (key, new_head) = match op_type {
                        OpType::Put(put) => (
                            &put.key,
                            Head {
                                value: to_vec(put.value.as_slice()),
                                hlc: signed_entry.entry.timestamp,
                                author,
                                hash: entry_hash,
                                tombstone: false,
                            },
                        ),
                        OpType::Delete(del) => (
                            &del.key,
                            Head {
                                value: Vec::new(),
                                hlc: signed_entry.entry.timestamp,
                                author,
                                hash: entry_hash,
                                tombstone: true,
                            },
                        ),
                    };
                    assert(new_head@ == op_head(op_type@, e));
                    match State::apply_head(
                        kv,
                        kv_writes,
                        key.as_slice(),
                        new_head,
                        &signed_entry.entry.parent_hashes,
                    ) {
                        Ok(()) => {},
                        Err(err) => {
                            proof {
                                lemma_ops_fault_stays(before.kv, e, (i + 1) as nat);
                                lemma_ops_fault_kind(before.kv, e, e.entry.ops.len());
                            }
                            return Err(err);
                        },
                    }
                },
            }
            i += 1;
        }
        let tip = ChainTip {
            seq: signed_entry.entry.seq,
            hash: entry_hash,
            hlc: signed_entry.entry.timestamp,
        };
        proof {
            table::lemma_overlay_insert(tips@, tip_writes@, author@, tip@.encoding());
        }
        tip_writes.insert(author.as_slice(), tip.encode());
        Ok(())
    }

    /// Adds a head to a key on top of the writes made before.
    fn apply_head(
        kv: &ByteTable,
        kv_writes: &mut ByteTable,
        key: &[u8],
        new_head: Head,
        parent_hashes: &Vec<Digest>,
    ) -> (r: Result<(), StateError>)
        requires
            kv.wf(),
            old(kv_writes).wf(),
        ensures
            final(kv_writes).wf(),
            match head_put(
                table::overlaid(kv@, old(kv_writes)@),
                key@,
                new_head@,
                entry::digests(parent_hashes@),
            ) {
                Ok(m) => r is Ok && table::overlaid(kv@, final(kv_writes)@) == m,
                Err(f) => r matches Err(e) && e@ == f && final(kv_writes)@ == old(kv_writes)@,
            },
    {
        let heads = match overlay_get(kv, kv_writes, key) {
            Some(stored) => match load_heads(stored.as_slice()) {
                Ok(heads) => heads,
                Err(e) => {
                    return Err(StateError::of_stored(e));
                },
            },
            None => Vec::new(),
        };
        let ghost hs = head::head_models(heads@);
        proof {
            if !table::overlaid(kv@, kv_writes@).dom().contains(key@) {
                assert(hs =~= Seq::empty());
            }
        }
        if contains_hash(&heads, &new_head.hash) {
            return Ok(());
        }
        let updated = add_head(heads, new_head, parent_hashes);
        let stored = store_heads(&updated);
        proof {
            table::lemma_overlay_insert(kv@, kv_writes@, key@, stored@);
        }
        kv_writes.insert(key, stored);
        Ok(())
    }

    /// The heads of a key as they are stored.
    fn load(&self, key: &[u8]) -> (r: Result<Vec<Head>, StateError>)
        requires
            self.wf(),
        ensures
            match heads_at(self@.kv, key@) {
                Ok(heads) => r matches Ok(v) && head::head_models(v@) == heads,
                Err(f) => r matches Err(e) && e@ == f,
            },
    {
        match self.kv.get(key) {
            Some(stored) => match load_heads(stored.as_slice()) {
                Ok(heads) => Ok(heads),
                Err(e) => Err(StateError::of_stored(e)),
            },
            None => {
                let none: Vec<Head> = Vec::new();
                assert(head::head_models(none@) =~= Seq::empty());
                Ok(none)
            },
        }
    }

    /// The value of a key: that of the winning head, and none where that head
    /// marks a deletion.
    pub fn get(&self, key: &[u8]) -> (r: Result<Option<Vec<u8>>, StateError>)
        requires
            self.wf(),
        ensures
            match value_at(self@.kv, key@) {
                Ok(Some(v)) => r matches Ok(Some(x)) && x@ == v,
                Ok(None) => r == Ok::<Option<Vec<u8>>, StateError>(None),
                Err(f) => r matches Err(e) && e@ == f,
            },
    {
        match self.load(key) {
            Err(e) => Err(e),
            Ok(heads) => match pick_winner(heads.as_slice()) {
                Some(w) => if w.tombstone {
                    Ok(None)
                } else {
                    Ok(Some(to_vec(w.value.as_slice())))
                },
                None => Ok(None),
            },
        }
    }

    /// All heads of a key, from the winner down.
    pub fn get_heads(&self, key: &[u8]) -> (r: Result<Vec<Head>, StateError>)
        requires
            self.wf(),
        ensures
            match heads_at(self@.kv, key@) {
                Ok(heads) => r matches Ok(v) && head::head_models(v@) == head::ranked(heads),
                Err(f) => r matches Err(e) && e@ == f,
            },
    {
        match self.load(key) {
            Ok(heads) => Ok(sort_heads(heads)),
            Err(e) => Err(e),
        }
    }

    /// All keys with their winning values, in the order of the keys. Deleted keys
    /// are left out unless they are asked for.
    pub fn list_all(&self, include_deleted: bool) -> (r: Result<
        Vec<(Vec<u8>, Vec<u8>)>,
        StateError,
    >)
        requires
            self.wf(),
        ensures
            match listing(self@.kv, self.keys(), Seq::empty(), include_deleted) {
                Ok(pairs) => r matches Ok(v) && pair_models(v@) == pairs,
                Err(f) => r matches Err(e) && e@ == f,
            },
    {
        let none: Vec<u8> = Vec::new();
        assert(none@ =~= Seq::empty());
        self.list_by_prefix(none.as_slice(), include_deleted)
    }

    /// The keys that start with `prefix`, with their winning values, in the order
    /// of the keys. Deleted keys are left out unless they are asked for.
    pub fn list_by_prefix(&self, prefix: &[u8], include_deleted: bool) -> (r: Result<
        Vec<(Vec<u8>, Vec<u8>)>,
        StateError,
    >)
        requires
            self.wf(),
        ensures
            match listing(self@.kv, self.keys(), prefix@, include_deleted) {
                Ok(pairs) => r matches Ok(v) && pair_models(v@) == pairs,
                Err(f) => r matches Err(e) && e@ == f,
            },
    {
        let ghost keys = self.kv.keys();
        let ghost kv = self@.kv;
        proof {
            self.kv.lemma_keys();
        }
        let mut out: Vec<(Vec<u8>, Vec<u8>)> = Vec::new();
        let mut i: usize = self.kv.lower_bound(prefix);
        proof {
            assert forall|k: int| 0 <= k < i implies !prefix@.is_prefix_of(#[trigger] keys[k]) by {
                bytes::lemma_before_prefix(prefix@, keys[k]);
            }
            lemma_listing_skips(kv, keys, prefix@, include_deleted, 0, i as int);
            assert(keys.take(0) =~= Seq::empty());
            assert(pair_models(out@) =~= Seq::empty());
        }
        while i < self.kv.len()
            invariant
                self.wf(),
                keys == self.kv.keys(),
                keys == self.keys(),
                kv == self@.kv,
                i <= keys.len(),
                table::ascending(keys),
                forall|k: int|
                    i <= k < keys.len() ==> !bytes::lex_lt(#[trigger] keys[k], prefix@),
                listing(kv, keys.take(i as int), prefix@, include_deleted) == Ok::<
                    Seq<(Seq<u8>, Seq<u8>)>,
                    StateFault,
                >(pair_models(out@)),
            decreases keys.len() - i,
        {
            let key = self.kv.key_at(i);
            let ghost before = out@;
            proof {
                assert(keys.take(i + 1).drop_last() =~= keys.take(i as int));
                assert(keys.take(i + 1).last() == keys[i as int]);
            }
            if !starts_with(key.as_slice(), prefix) {
                proof {
                    assert forall|k: int| i <= k < keys.len() implies !prefix@.is_prefix_of(
                        #[trigger] keys[k],
                    ) by {
                        if k > i && prefix@.is_prefix_of(keys[k]) {
                            bytes::lemma_prefix_interval(prefix@, keys[i as int], keys[k]);
                        }
                    }
                    lemma_listing_skips(
                        kv,
                        keys,
                        prefix@,
                        include_deleted,
                        i as int,
                        keys.len() as int,
                    );
                    assert(keys.take(keys.len() as int) =~= keys);
                }
                return Ok(out);
            }
            let heads = match load_heads(self.kv.value_at(i).as_slice()) {
                Ok(heads) => heads,
                Err(e) => {
                    proof {
                        lemma_listing_fails(kv, keys, prefix@, include_deleted, i + 1);
                    }
                    return Err(StateError::of_stored(e));
                },
            };
            match pick_winner(heads.as_slice()) {
                Some(w) => {
                    if include_deleted || !w.tombstone {
                        out.push((to_vec(key.as_slice()), to_vec(w.value.as_slice())));
                        assert(pair_models(out@) =~= pair_models(before).push((key@, w.value@)));
                    }
                },
                None => {},
            }
            i += 1;
        }
        assert(keys.take(i as int) =~= keys);
        Ok(out)
    }

    /// All keys with their heads, in the order of the keys.
    pub fn list_heads_all(&self) -> (r: Result<Vec<(Vec<u8>, Vec<Head>)>, StateError>)
        requires
            self.wf(),
        ensures
            match heads_listing(self@.kv, self.keys(), Seq::empty()) {
                Ok(pairs) => r matches Ok(v) && heads_pairs(v@) == pairs,
                Err(f) => r matches Err(e) && e@ == f,
            },
    {
        let none: Vec<u8> = Vec::new();
        assert(none@ =~= Seq::empty());
        self.list_heads_by_prefix(none.as_slice())
    }

    /// The keys that start with `prefix`, with their heads, in the order of the
    /// keys.
    pub fn list_heads_by_prefix(&self, prefix: &[u8]) -> (r: Result<
        Vec<(Vec<u8>, Vec<Head>)>,
        StateError,
    >)
        requires
            self.wf(),
        ensures
            match heads_listing(self@.kv, self.keys(), prefix@) {
                Ok(pairs) => r matches Ok(v) && heads_pairs(v@) == pairs,
                Err(f) => r matches Err(e) && e@ == f,
            },
    {
        let ghost keys = self.kv.keys();
        let ghost kv = self@.kv;
        proof {
            self.kv.lemma_keys();
        }
        let mut out: Vec<(Vec<u8>, Vec<Head>)> = Vec::new();
        let mut i: usize = self.kv.lower_bound(prefix);
        proof {
            assert forall|k: int| 0 <= k < i implies !prefix@.is_prefix_of(#[trigger] keys[k]) by {
                bytes::lemma_before_prefix(prefix@, keys[k]);
            }
            lemma_heads_listing_skips(kv, keys, prefix@, 0, i as int);
            assert(keys.take(0) =~= Seq::empty());
            assert(heads_pairs(out@) =~= Seq::empty());
        }
        while i < self.kv.len()
            invariant
                self.wf(),
                keys == self.kv.keys(),
                keys == self.keys(),
                kv == self@.kv,
                i <= keys.len(),
                table::ascending(keys),
                forall|k: int|
                    i <= k < keys.len() ==> !bytes::lex_lt(#[trigger] keys[k], prefix@),
                heads_listing(kv, keys.take(i as int), prefix@) == Ok::<
                    Seq<(Seq<u8>, Seq<HeadModel>)>,
                    StateFault,
                >(heads_pairs(out@)),
            decreases keys.len() - i,
        {
            let key = self.kv.key_at(i);
            let ghost before = out@;
            proof {
                assert(keys.take(i + 1).drop_last() =~= keys.take(i as int));
                assert(keys.take(i + 1).last() == keys[i as int]);
            }
            if !starts_with(key.as_slice(), prefix) {
                proof {
                    assert forall|k: int| i <= k < keys.len() implies !prefix@.is_prefix_of(
                        #[trigger] keys[k],
                    ) by {
                        if k > i && prefix@.is_prefix_of(keys[k]) {
                            bytes::lemma_prefix_interval(prefix@, keys[i as int], keys[k]);
                        }
                    }
                    lemma_heads_listing_skips(kv, keys, prefix@, i as int, keys.len() as int);
                    assert(keys.take(keys.len() as int) =~= keys);
                }
                return Ok(out);
            }
            match load_heads(self.kv.value_at(i).as_slice()) {
                Ok(heads) => {
                    let sorted = sort_heads(heads);
                    let ghost models = head::head_models(sorted@);
                    out.push((to_vec(key.as_slice()), sorted));
                    assert(heads_pairs(out@) =~= heads_pairs(before).push((key@, models)));
                },
                Err(e) => {
                    proof {
                        lemma_heads_listing_fails(kv, keys, prefix@, i + 1);
                    }
                    return Err(StateError::of_stored(e));
                },
            }
            i += 1;
        }
        assert(keys.take(i as int) =~= keys);
        Ok(out)
    }

    /// Whether a put of `value` would change anything: it would not where the
    /// winning head has that value.
    pub fn needs_put(heads: &[Head], value: &[u8]) -> (r: bool)
        ensures
            r == match head::winner(head::head_models(heads@)) {
                Some(w) => w.value != value@,
                None => true,
            },
    {
        match pick_winner(heads) {
            Some(w) => !bytes_eq(w.value.as_slice(), value),
            None => true,
        }
    }

    /// Whether a deletion would change anything: it would not where there is no
    /// head or the winning head marks a deletion.
    pub fn needs_delete(heads: &[Head]) -> (r: bool)
        ensures
            r == match head::winner(head::head_models(heads@)) {
                Some(w) => !w.tombstone,
                None => false,
            },
    {
        match pick_winner(heads) {
            Some(w) => !w.tombstone,
            None => false,
        }
    }

    /// The tip of an author's chain, where one is stored and can be read.
    pub fn chain_tip(&self, author: &PubKey) -> (r: Option<ChainTip>)
        requires
            self.wf(),
        ensures
            match tip_at(self@.tips, author@) {
                Some(tip) => r matches Some(x) && x@ == tip,
                None => r is None,
            },
    {
        match self.tips.get(author.as_slice()) {
            Some(stored) => match ChainTip::decode(stored.as_slice()) {
                Ok(tip) => Some(tip),
                Err(_) => None,
            },
            None => None,
        }
    }
}

/// Checks that every parent of the entry is known: the first one that is not is
/// reported. An entry without parents is always in order.
pub fn check_parents<F: Fn(&Digest) -> bool>(signed_entry: &SignedEntry, hash_exists: F) -> (r:
    Result<(), ParentValidationError>)
    requires
        forall|h: Digest| call_requires(hash_exists, (&h,)),
    ensures
        match r {
            Ok(()) => forall|i: int|
                0 <= i < signed_entry.entry.parent_hashes@.len() ==> says(
                    hash_exists,
                    #[trigger] signed_entry.entry.parent_hashes@[i],
                    true,
                ),
            Err(e) => exists|i: int|
                #[trigger] first_unknown(hash_exists, signed_entry.entry.parent_hashes@, i) && e@
                    == ParentFault::MissingParent(
                    first_key(signed_entry@.entry),
                    signed_entry.entry.parent_hashes@[i]@,
                ),
        },
{
    let ghost parents = signed_entry.entry.parent_hashes@;
    let mut i: usize = 0;
    while i < signed_entry.entry.parent_hashes.len()
        invariant
            i <= parents.len(),
            parents == signed_entry.entry.parent_hashes@,
            forall|h: Digest| call_requires(hash_exists, (&h,)),
            forall|j: int| 0 <= j < i ==> says(hash_exists, #[trigger] parents[j], true),
        decreases parents.len() - i,
    {
        let parent = &signed_entry.entry.parent_hashes[i];
        if !hash_exists(parent) {
            let key = State::first_key_of(signed_entry);
            let awaited_hash = to_vec(parent.as_slice());
            assert(first_unknown(hash_exists, parents, i as int));
            return Err(ParentValidationError::MissingParent { key, awaited_hash });
        }
        i += 1;
    }
    Ok(())
}

/// The models of pairs of byte strings.
pub open spec fn pair_models(pairs: Seq<(Vec<u8>, Vec<u8>)>) -> Seq<(Seq<u8>, Seq<u8>)> {
    pairs.map_values(|p: (Vec<u8>, Vec<u8>)| (p.0@, p.1@))
}

/// The models of keys with their heads.
pub open spec fn heads_pairs(pairs: Seq<(Vec<u8>, Vec<Head>)>) -> Seq<
    (Seq<u8>, Seq<HeadModel>),
> {
    pairs.map_values(|p: (Vec<u8>, Vec<Head>)| (p.0@, head::head_models(p.1@)))
}

/// The value of a key in `base` with `writes` on top.
pub fn overlay_get<'a>(base: &'a ByteTable, writes: &'a ByteTable, key: &[u8]) -> (r: Option<
    &'a Vec<u8>,
>)
    requires
        base.wf(),
        writes.wf(),
    ensures
        match r {
            Some(v) => table::overlaid(base@, writes@).dom().contains(key@) && v@
                == table::overlaid(base@, writes@)[key@],
            None => !table::overlaid(base@, writes@).dom().contains(key@),
        },
{
    match writes.get(key) {
        Some(v) => Some(v),
        None => base.get(key),
    }
}

proof fn lemma_missing_stays(parents: Seq<Seq<u8>>, heads: Seq<HeadModel>, n: int)
    requires
        0 <= n <= parents.len(),
        missing_parent(parents.take(n), heads) is Some,
    ensures
        missing_parent(parents, heads) == missing_parent(parents.take(n), heads),
    decreases parents.len() - n,
{
    if n == parents.len() {
        assert(parents.take(n) =~= parents);
    } else {
        assert(parents.take(n + 1).drop_last() =~= parents.take(n));
        lemma_missing_stays(parents, heads, n + 1);
    }
}

proof fn lemma_parents_fault_stays(kv: Map<Seq<u8>, Seq<u8>>, e: EntryModel, n: nat)
    requires
        n <= e.ops.len(),
        parents_fault(kv, e, n) is Some,
    ensures
        parents_fault(kv, e, e.ops.len()) == parents_fault(kv, e, n),
    decreases e.ops.len() - n,
{
    if n < e.ops.len() {
        lemma_parents_fault_stays(kv, e, n + 1);
    }
}

proof fn lemma_ops_fault_stays(kv: Map<Seq<u8>, Seq<u8>>, e: SignedEntryModel, n: nat)
    requires
        n <= e.entry.ops.len(),
        ops_put(kv, e, n) is Err,
    ensures
        ops_put(kv, e, e.entry.ops.len()) == ops_put(kv, e, n),
    decreases e.entry.ops.len() - n,
{
    if n < e.entry.ops.len() {
        lemma_ops_fault_stays(kv, e, n + 1);
    }
}

proof fn lemma_ops_fault_kind(kv: Map<Seq<u8>, Seq<u8>>, e: SignedEntryModel, n: nat)
    ensures
        ops_put(kv, e, n) matches Err(f) ==> !(f is NotSuccessor),
    decreases n,
{
    if n > 0 {
        lemma_ops_fault_kind(kv, e, (n - 1) as nat);
    }
}

proof fn lemma_listing_skips(
    kv: Map<Seq<u8>, Seq<u8>>,
    keys: Seq<Seq<u8>>,
    prefix: Seq<u8>,
    with_deleted: bool,
    from: int,
    to: int,
)
    requires
        0 <= from <= to <= keys.len(),
        forall|k: int| from <= k < to ==> !prefix.is_prefix_of(#[trigger] keys[k]),
    ensures
        listing(kv, keys.take(to), prefix, with_deleted) == listing(
            kv,
            keys.take(from),
            prefix,
            with_deleted,
        ),
    decreases to - from,
{
    if from < to {
        lemma_listing_skips(kv, keys, prefix, with_deleted, from, to - 1);
        assert(keys.take(to).drop_last() =~= keys.take(to - 1));
        assert(keys.take(to).last() == keys[to - 1]);
        if listing(kv, keys.take(to - 1), prefix, with_deleted) is Ok {
        }
    }
}

proof fn lemma_listing_fails(
    kv: Map<Seq<u8>, Seq<u8>>,
    keys: Seq<Seq<u8>>,
    prefix: Seq<u8>,
    with_deleted: bool,
    n: int,
)
    requires
        0 <= n <= keys.len(),
        listing(kv, keys.take(n), prefix, with_deleted) is Err,
    ensures
        listing(kv, keys, prefix, with_deleted) == listing(
            kv,
            keys.take(n),
            prefix,
            with_deleted,
        ),
    decreases keys.len() - n,
{
    if n == keys.len() {
        assert(keys.take(n) =~= keys);
    } else {
        assert(keys.take(n + 1).drop_last() =~= keys.take(n));
        lemma_listing_fails(kv, keys, prefix, with_deleted, n + 1);
    }
}

proof fn lemma_heads_listing_skips(
    kv: Map<Seq<u8>, Seq<u8>>,
    keys: Seq<Seq<u8>>,
    prefix: Seq<u8>,
    from: int,
    to: int,
)
    requires
        0 <= from <= to <= keys.len(),
        forall|k: int| from <= k < to ==> !prefix.is_prefix_of(#[trigger] keys[k]),
    ensures
        heads_listing(kv, keys.take(to), prefix) == heads_listing(kv, keys.take(from), prefix),
    decreases to - from,
{
    if from < to {
        lemma_heads_listing_skips(kv, keys, prefix, from, to - 1);
        assert(keys.take(to).drop_last() =~= keys.take(to - 1));
        assert(keys.take(to).last() == keys[to - 1]);
    }
}

proof fn lemma_heads_listing_fails(
    kv: Map<Seq<u8>, Seq<u8>>,
    keys: Seq<Seq<u8>>,
    prefix: Seq<u8>,
    n: int,
)
    requires
        0 <= n <= keys.len(),
        heads_listing(kv, keys.take(n), prefix) is Err,
    ensures
        heads_listing(kv, keys, prefix) == heads_listing(kv, keys.take(n), prefix),
    decreases keys.len() - n,
{
    if n == keys.len() {
        assert(keys.take(n) =~= keys);
    } else {
        assert(keys.take(n + 1).drop_last() =~= keys.take(n));
        lemma_heads_listing_fails(kv, keys, prefix, n + 1);
    }
}

} // verus!
