//! Why replicas agree: the heads of a key depend on which entries have been applied,
//! and not on the order in which they came.
use crate::entry::SignedEntryModel;
use crate::head;
use crate::head::HeadModel;
use crate::proto::storage::OpTypeModel;
use crate::store::error::StateFault;
use crate::store::state;
use crate::store::state::StateModel;
use vstd::prelude::*;

verus! {

/// The first of an entry's first `n` operations that is about a key.
pub open spec fn key_op(e: SignedEntryModel, key: Seq<u8>, n: nat) -> Option<OpTypeModel>
    decreases n,
{
    if n == 0 {
        None
    } else {
        match key_op(e, key, (n - 1) as nat) {
            Some(t) => Some(t),
            None => if e.entry.ops[n - 1].key() == Some(key) {
                e.entry.ops[n - 1].op_type
            } else {
                None
            },
        }
    }
}

/// Whether an entry is about a key.
pub open spec fn touches(e: SignedEntryModel, key: Seq<u8>) -> bool {
    key_op(e, key, e.entry.ops.len()) is Some
}

/// The head that an entry makes for a key that it is about.
pub open spec fn head_of(e: SignedEntryModel, key: Seq<u8>) -> HeadModel {
    state::op_head(key_op(e, key, e.entry.ops.len())->0, e)
}

/// What the first `n` operations of an entry make of the heads of a key.
pub open spec fn ops_effect(
    heads: Seq<HeadModel>,
    e: SignedEntryModel,
    key: Seq<u8>,
    n: nat,
) -> Seq<HeadModel> {
    match key_op(e, key, n) {
        Some(t) => head::with_head(heads, state::op_head(t, e), e.entry.parent_hashes),
        None => heads,
    }
}

/// The heads of a key once a run of entries has been applied, where there were none
/// before.
pub open spec fn key_heads(es: Seq<SignedEntryModel>, key: Seq<u8>) -> Seq<HeadModel>
    decreases es.len(),
{
    if es.len() == 0 {
        Seq::empty()
    } else {
        let e = es.last();
        ops_effect(key_heads(es.drop_last(), key), e, key, e.entry.ops.len())
    }
}

/// Whether one of the entries that are about a key names a hash as a parent.
pub open spec fn superseded(es: Seq<SignedEntryModel>, key: Seq<u8>, hash: Seq<u8>) -> bool {
    exists|i: int|
        0 <= i < es.len() && touches(#[trigger] es[i], key) && es[i].entry.parent_hashes.contains(
            hash,
        )
}

/// Whether a run of entries can have come about: no two entries have the same hash,
/// and none names itself or one that comes behind it as a parent.
pub open spec fn causal(es: Seq<SignedEntryModel>) -> bool {
    &&& forall|i: int, j: int|
        0 <= i < j < es.len() ==> (#[trigger] es[i]).hash() != (#[trigger] es[j]).hash()
    &&& forall|i: int, j: int|
        0 <= i <= j < es.len() ==> !(#[trigger] es[i]).entry.parent_hashes.contains(
            (#[trigger] es[j]).hash(),
        )
}

/// Whether all entries are well formed, and the heads of the key can be stored all
/// along.
pub open spec fn storable(es: Seq<SignedEntryModel>, key: Seq<u8>) -> bool {
    &&& forall|i: int|
        0 <= i < es.len() ==> (#[trigger] es[i]).hash().len() == 32 && es[i].author_id.len() == 32
    &&& forall|k: int|
        0 <= k <= es.len() ==> head::stored_heads(key_heads(#[trigger] es.take(k), key)).len()
            <= u64::MAX
}

// ---------------------------------------------------------------------------
// One entry
// ---------------------------------------------------------------------------

proof fn lemma_op_heads_wf(e: SignedEntryModel, t: OpTypeModel)
    requires
        e.hash().len() == 32,
        e.author_id.len() == 32,
    ensures
        state::op_head(t, e).wf(),
{
}

/// What operations of an entry make of the stored heads of a key is what they make
/// of the heads.
proof fn lemma_ops_effect(
    kv: Map<Seq<u8>, Seq<u8>>,
    e: SignedEntryModel,
    key: Seq<u8>,
    heads: Seq<HeadModel>,
    n: nat,
)
    requires
        n <= e.entry.ops.len(),
        state::heads_at(kv, key) == Ok::<Seq<HeadModel>, StateFault>(heads),
        forall|i: int| 0 <= i < heads.len() ==> (#[trigger] heads[i]).wf(),
        e.hash().len() == 32,
        e.author_id.len() == 32,
        head::stored_heads(ops_effect(heads, e, key, e.entry.ops.len())).len() <= u64::MAX,
    ensures
        state::ops_put(kv, e, n) matches Ok(m) ==> state::heads_at(m, key) == Ok::<
            Seq<HeadModel>,
            StateFault,
        >(ops_effect(heads, e, key, n)),
    decreases n,
{
    if n > 0 {
        lemma_ops_effect(kv, e, key, heads, (n - 1) as nat);
        let before = ops_effect(heads, e, key, (n - 1) as nat);
        let op = e.entry.ops[n - 1];
        if let Ok(m) = state::ops_put(kv, e, (n - 1) as nat) {
            if let Some(t) = op.op_type {
                let k = op.key()->0;
                let new = state::op_head(t, e);
                if k != key {
                    state::law_heads_of_other_keys_stay(m, k, new, e.entry.parent_hashes, key);
                } else if key_op(e, key, (n - 1) as nat) is Some {
                    // The entry has its head under the key already.
                    let first = state::op_head(key_op(e, key, (n - 1) as nat)->0, e);
                    lemma_has_new(heads, first, e.entry.parent_hashes);
                    assert(head::has_hash(before, new.hash));
                } else {
                    lemma_first_op_stays(e, key, n);
                    state::law_head_is_read_back(m, key, new, e.entry.parent_hashes);
                }
            }
        }
    }
}

/// The first operation about a key stays the first one.
proof fn lemma_first_op_stays(e: SignedEntryModel, key: Seq<u8>, n: nat)
    requires
        n <= e.entry.ops.len(),
        key_op(e, key, n) is Some,
    ensures
        key_op(e, key, e.entry.ops.len()) == key_op(e, key, n),
    decreases e.entry.ops.len() - n,
{
    if n < e.entry.ops.len() {
        lemma_first_op_stays(e, key, n + 1);
    }
}

/// A new head is among the heads.
proof fn lemma_has_new(heads: Seq<HeadModel>, new: HeadModel, parents: Seq<Seq<u8>>)
    ensures
        head::has_hash(head::with_head(heads, new, parents), new.hash),
{
    let after = head::with_head(heads, new, parents);
    if !head::has_hash(heads, new.hash) {
        assert(after[after.len() - 1].hash == new.hash);
    }
}

/// An entry is about a key exactly where one of its operations puts or deletes it, and the
/// first such operation is the one that counts.
pub proof fn law_first_operation_counts(e: SignedEntryModel, key: Seq<u8>, n: nat)
    requires
        n <= e.entry.ops.len(),
    ensures
        match key_op(e, key, n) {
            None => forall|i: int|
                0 <= i < n ==> match (#[trigger] e.entry.ops[i]).op_type {
                    Some(OpTypeModel::Put(p)) => p.key != key,
                    Some(OpTypeModel::Delete(d)) => d.key != key,
                    None => true,
                },
            Some(t) => {
                &&& match t {
                    OpTypeModel::Put(p) => p.key == key,
                    OpTypeModel::Delete(d) => d.key == key,
                }
                &&& exists|i: int|
                    {
                        &&& 0 <= i < n
                        &&& (#[trigger] e.entry.ops[i]).op_type == Some(t)
                        &&& forall|j: int|
                            0 <= j < i ==> match (#[trigger] e.entry.ops[j]).op_type {
                                Some(OpTypeModel::Put(p)) => p.key != key,
                                Some(OpTypeModel::Delete(d)) => d.key != key,
                                None => true,
                            }
                    }
            },
        },
    decreases n,
{
    if n > 0 {
        law_first_operation_counts(e, key, (n - 1) as nat);
        if key_op(e, key, (n - 1) as nat) is None && key_op(e, key, n) is Some {
            assert(e.entry.ops[n - 1].op_type == key_op(e, key, n));
        }
    }
}

/// What an applied entry makes of the heads of a key that it is about: those that it does
/// not name as parents stay, and there is one more, with the value of the put or the mark
/// of the deletion, and the entry's time, author and hash.
pub proof fn law_applied_entry_leaves_its_head(
    st: StateModel,
    e: SignedEntryModel,
    key: Seq<u8>,
    heads: Seq<HeadModel>,
    t: OpTypeModel,
)
    requires
        state::applied(st, e) is Ok,
        state::heads_at(st.kv, key) == Ok::<Seq<HeadModel>, StateFault>(heads),
        forall|i: int|
            0 <= i < heads.len() ==> (#[trigger] heads[i]).wf() && heads[i].hash != e.hash(),
        key_op(e, key, e.entry.ops.len()) == Some(t),
        e.hash().len() == 32,
        e.author_id.len() == 32,
        head::stored_heads(ops_effect(heads, e, key, e.entry.ops.len())).len() <= u64::MAX,
    ensures
        state::heads_at(state::applied(st, e)->Ok_0.kv, key) matches Ok(after) && {
            let new = HeadModel {
                value: match t {
                    OpTypeModel::Put(p) => p.value,
                    OpTypeModel::Delete(_) => Seq::empty(),
                },
                hlc: e.entry.timestamp,
                author: e.author_id,
                hash: e.hash(),
                tombstone: t is Delete,
            };
            &&& forall|h: HeadModel| #[trigger]
                after.contains(h) <==> h == new || (heads.contains(h)
                    && !e.entry.parent_hashes.contains(h.hash))
        },
{
    lemma_ops_effect(st.kv, e, key, heads, e.entry.ops.len());
    head::law_new_head_replaces_its_parents(
        heads,
        state::op_head(t, e),
        e.entry.parent_hashes,
    );
}

/// An applied entry leaves the stored heads of all other keys as they are.
pub proof fn law_applied_entry_leaves_other_keys(
    kv: Map<Seq<u8>, Seq<u8>>,
    e: SignedEntryModel,
    key: Seq<u8>,
    n: nat,
)
    requires
        n <= e.entry.ops.len(),
        forall|i: int|
            0 <= i < n ==> match (#[trigger] e.entry.ops[i]).op_type {
                Some(OpTypeModel::Put(p)) => p.key != key,
                Some(OpTypeModel::Delete(d)) => d.key != key,
                None => true,
            },
    ensures
        state::ops_put(kv, e, n) matches Ok(m) ==> m.dom().contains(key) == kv.dom().contains(key)
            && m[key] == kv[key],
    decreases n,
{
    if n > 0 {
        law_applied_entry_leaves_other_keys(kv, e, key, (n - 1) as nat);
        assert(match e.entry.ops[n - 1].op_type {
            Some(OpTypeModel::Put(p)) => p.key != key,
            Some(OpTypeModel::Delete(d)) => d.key != key,
            None => true,
        });
    }
}

// ---------------------------------------------------------------------------
// Runs of entries
// ---------------------------------------------------------------------------

/// Heads that come from well-formed entries are well formed, and each of them is
/// that of one of the entries.
proof fn lemma_key_heads_from(es: Seq<SignedEntryModel>, key: Seq<u8>, h: HeadModel)
    requires
        key_heads(es, key).contains(h),
    ensures
        exists|i: int| 0 <= i < es.len() && touches(#[trigger] es[i], key) && h == head_of(es[i], key),
    decreases es.len(),
{
    if es.len() > 0 {
        let rest = es.drop_last();
        let e = es.last();
        let before = key_heads(rest, key);
        let keep = |x: HeadModel| !e.entry.parent_hashes.contains(x.hash);
        if touches(e, key) && !head::has_hash(before, head_of(e, key).hash) {
            let after = key_heads(es, key);
            let k = after.index_of(h);
            if k == after.len() - 1 {
                assert(es[es.len() - 1] == e);
            } else {
                let kept = before.filter(keep);
                assert(after[k] == kept[k]);
                before.lemma_filter_contains_rev(keep, h);
                lemma_key_heads_from(rest, key, h);
                let i = choose|i: int|
                    0 <= i < rest.len() && touches(#[trigger] rest[i], key) && h == head_of(
                        rest[i],
                        key,
                    );
                assert(es[i] == rest[i]);
            }
        } else {
            lemma_key_heads_from(rest, key, h);
            let i = choose|i: int|
                0 <= i < rest.len() && touches(#[trigger] rest[i], key) && h == head_of(
                    rest[i],
                    key,
                );
            assert(es[i] == rest[i]);
        }
    }
}

proof fn lemma_prefix_storable(es: Seq<SignedEntryModel>, key: Seq<u8>)
    requires
        es.len() > 0,
        storable(es, key),
    ensures
        storable(es.drop_last(), key),
{
    let rest = es.drop_last();
    assert forall|i: int| 0 <= i < rest.len() implies (#[trigger] rest[i]).hash().len() == 32
        && rest[i].author_id.len() == 32 by {
        assert(es[i] == rest[i]);
    }
    assert forall|k: int| 0 <= k <= rest.len() implies head::stored_heads(
        key_heads(#[trigger] rest.take(k), key),
    ).len() <= u64::MAX by {
        assert(rest.take(k) =~= es.take(k));
    }
}

/// A run of entries leaves the heads that it makes.
pub proof fn law_run_leaves_its_heads(st: StateModel, es: Seq<SignedEntryModel>, key: Seq<u8>)
    requires
        state::heads_at(st.kv, key) == Ok::<Seq<HeadModel>, StateFault>(Seq::empty()),
        storable(es, key),
    ensures
        state::run(st, es) matches Ok(s) ==> state::heads_at(s.kv, key) == Ok::<
            Seq<HeadModel>,
            StateFault,
        >(key_heads(es, key)),
    decreases es.len(),
{
    if es.len() > 0 {
        let rest = es.drop_last();
        let e = es.last();
        lemma_prefix_storable(es, key);
        law_run_leaves_its_heads(st, rest, key);
        if let Ok(s) = state::run(st, rest) {
            let heads = key_heads(rest, key);
            assert forall|i: int| 0 <= i < heads.len() implies (#[trigger] heads[i]).wf() by {
                assert(heads.contains(heads[i]));
                lemma_key_heads_from(rest, key, heads[i]);
                let k = choose|k: int|
                    0 <= k < rest.len() && touches(#[trigger] rest[k], key) && heads[i] == head_of(
                        rest[k],
                        key,
                    );
                assert(es[k] == rest[k]);
                lemma_op_heads_wf(rest[k], key_op(rest[k], key, rest[k].entry.ops.len())->0);
            }
            assert(es[es.len() - 1] == e);
            assert(es.take(es.len() as int) =~= es);
            lemma_ops_effect(s.kv, e, key, heads, e.entry.ops.len());
        }
    }
}

proof fn lemma_prefix_causal(es: Seq<SignedEntryModel>)
    requires
        es.len() > 0,
        causal(es),
    ensures
        causal(es.drop_last()),
{
    let rest = es.drop_last();
    assert forall|i: int, j: int| 0 <= i < j < rest.len() implies (#[trigger] rest[i]).hash() != (
    #[trigger] rest[j]).hash() by {
        assert(es[i] == rest[i] && es[j] == rest[j]);
    }
    assert forall|i: int, j: int| 0 <= i <= j < rest.len() implies !(
    #[trigger] rest[i]).entry.parent_hashes.contains((#[trigger] rest[j]).hash()) by {
        assert(es[i] == rest[i] && es[j] == rest[j]);
    }
}

/// The heads of a key are those of the entries about it that no entry about it
/// supersedes, each of them once.
pub proof fn law_heads_are_what_is_not_superseded(es: Seq<SignedEntryModel>, key: Seq<u8>)
    requires
        causal(es),
    ensures
        forall|h: HeadModel| #[trigger]
            key_heads(es, key).contains(h) <==> exists|i: int|
                0 <= i < es.len() && touches(#[trigger] es[i], key) && h == head_of(es[i], key)
                    && !superseded(es, key, es[i].hash()),
        key_heads(es, key).no_duplicates(),
    decreases es.len(),
{
    let after = key_heads(es, key);
    if es.len() > 0 {
        let rest = es.drop_last();
        let e = es.last();
        let last = es.len() - 1;
        let before = key_heads(rest, key);
        assert(es[last] == e);
        lemma_prefix_causal(es);
        law_heads_are_what_is_not_superseded(rest, key);
        assert forall|h: HeadModel| #[trigger] before.contains(h) implies h.hash != e.hash() by {
            let i = choose|i: int|
                0 <= i < rest.len() && touches(#[trigger] rest[i], key) && h == head_of(
                    rest[i],
                    key,
                ) && !superseded(rest, key, rest[i].hash());
            assert(es[i] == rest[i]);
            assert(es[i].hash() != es[last].hash());
        }
        let keep = |x: HeadModel| !e.entry.parent_hashes.contains(x.hash);
        let kept = before.filter(keep);
        if touches(e, key) {
            let new = head_of(e, key);
            assert(!head::has_hash(before, new.hash)) by {
                if head::has_hash(before, new.hash) {
                    let i = choose|i: int|
                        0 <= i < before.len() && (#[trigger] before[i]).hash == new.hash;
                    assert(before.contains(before[i]));
                }
            }
            assert(after == kept.push(new));
            lemma_filter_unique(before, keep);
            assert forall|h: HeadModel| #[trigger] kept.contains(h) <==> before.contains(h) && keep(
                h,
            ) by {
                if kept.contains(h) {
                    before.lemma_filter_contains_rev(keep, h);
                }
                if before.contains(h) && keep(h) {
                    before.lemma_filter_contains(keep, before.index_of(h));
                }
            }
            assert(after.no_duplicates()) by {
                assert(!kept.contains(new));
                lemma_push_unique(kept, new);
            }
            assert forall|h: HeadModel| #[trigger] after.contains(h) <==> exists|i: int|
                0 <= i < es.len() && touches(#[trigger] es[i], key) && h == head_of(es[i], key)
                    && !superseded(es, key, es[i].hash()) by {
                lemma_push_contains(kept, new, h);
                if after.contains(h) {
                    if h == new {
                        assert(!superseded(es, key, e.hash())) by {
                            if superseded(es, key, e.hash()) {
                                let j = choose|j: int|
                                    0 <= j < es.len() && touches(#[trigger] es[j], key)
                                        && es[j].entry.parent_hashes.contains(e.hash());
                                assert(!es[j].entry.parent_hashes.contains(es[last].hash()));
                            }
                        }
                        assert(touches(es[last], key));
                    } else {
                        assert(kept.contains(h));
                        let i = choose|i: int|
                            0 <= i < rest.len() && touches(#[trigger] rest[i], key) && h == head_of(
                                rest[i],
                                key,
                            ) && !superseded(rest, key, rest[i].hash());
                        assert(es[i] == rest[i]);
                        lemma_superseded_next(es, key, es[i].hash());
                        assert(touches(es[i], key));
                    }
                }
                if exists|i: int|
                    0 <= i < es.len() && touches(#[trigger] es[i], key) && h == head_of(es[i], key)
                        && !superseded(es, key, es[i].hash()) {
                    let i = choose|i: int|
                        0 <= i < es.len() && touches(#[trigger] es[i], key) && h == head_of(
                            es[i],
                            key,
                        ) && !superseded(es, key, es[i].hash());
                    lemma_superseded_next(es, key, es[i].hash());
                    if i < last {
                        assert(rest[i] == es[i]);
                        assert(touches(rest[i], key));
                        assert(before.contains(h));
                        assert(keep(h));
                    } else {
                        assert(h == new);
                    }
                }
            }
        } else {
            assert(after == before);
            assert forall|h: HeadModel| #[trigger] after.contains(h) <==> exists|i: int|
                0 <= i < es.len() && touches(#[trigger] es[i], key) && h == head_of(es[i], key)
                    && !superseded(es, key, es[i].hash()) by {
                if after.contains(h) {
                    let i = choose|i: int|
                        0 <= i < rest.len() && touches(#[trigger] rest[i], key) && h == head_of(
                            rest[i],
                            key,
                        ) && !superseded(rest, key, rest[i].hash());
                    assert(es[i] == rest[i]);
                    lemma_superseded_next(es, key, es[i].hash());
                    assert(touches(es[i], key));
                }
                if exists|i: int|
                    0 <= i < es.len() && touches(#[trigger] es[i], key) && h == head_of(es[i], key)
                        && !superseded(es, key, es[i].hash()) {
                    let i = choose|i: int|
                        0 <= i < es.len() && touches(#[trigger] es[i], key) && h == head_of(
                            es[i],
                            key,
                        ) && !superseded(es, key, es[i].hash());
                    lemma_superseded_next(es, key, es[i].hash());
                    assert(rest[i] == es[i]);
                    assert(touches(rest[i], key));
                }
            }
        }
    }
}

/// One more entry supersedes what it names as parents, where it is about the key.
proof fn lemma_superseded_next(es: Seq<SignedEntryModel>, key: Seq<u8>, hash: Seq<u8>)
    requires
        es.len() > 0,
    ensures
        superseded(es, key, hash) == (superseded(es.drop_last(), key, hash) || (touches(
            es.last(),
            key,
        ) && es.last().entry.parent_hashes.contains(hash))),
{
    let rest = es.drop_last();
    let last = es.len() - 1;
    assert(es[last] == es.last());
    if superseded(rest, key, hash) {
        let i = choose|i: int|
            0 <= i < rest.len() && touches(#[trigger] rest[i], key)
                && rest[i].entry.parent_hashes.contains(hash);
        assert(es[i] == rest[i]);
        assert(touches(es[i], key));
    }
    if superseded(es, key, hash) {
        let i = choose|i: int|
            0 <= i < es.len() && touches(#[trigger] es[i], key)
                && es[i].entry.parent_hashes.contains(hash);
        if i < last {
            assert(rest[i] == es[i]);
            assert(touches(rest[i], key));
        }
    }
}

proof fn lemma_push_contains(s: Seq<HeadModel>, x: HeadModel, h: HeadModel)
    ensures
        s.push(x).contains(h) <==> s.contains(h) || h == x,
{
    let t = s.push(x);
    if s.contains(h) {
        let i = s.index_of(h);
        assert(t[i] == h);
    }
    assert(t[t.len() - 1] == x);
    if t.contains(h) {
        let i = t.index_of(h);
        if i < s.len() {
            assert(s[i] == h);
        }
    }
}

proof fn lemma_push_unique(s: Seq<HeadModel>, x: HeadModel)
    requires
        s.no_duplicates(),
        !s.contains(x),
    ensures
        s.push(x).no_duplicates(),
{
    let t = s.push(x);
    assert forall|i: int, j: int| 0 <= i < t.len() && 0 <= j < t.len() && i != j implies t[i]
        != t[j] by {
        if i < s.len() && j < s.len() {
            assert(s[i] != s[j]);
        } else if i < s.len() {
            assert(s.contains(s[i]));
        } else {
            assert(s.contains(s[j]));
        }
    }
}

proof fn lemma_filter_unique(s: Seq<HeadModel>, keep: spec_fn(HeadModel) -> bool)
    requires
        s.no_duplicates(),
    ensures
        s.filter(keep).no_duplicates(),
    decreases s.len(),
{
    reveal(Seq::filter);
    if s.len() > 0 {
        let rest = s.drop_last();
        lemma_filter_unique(rest, keep);
        if keep(s.last()) {
            if rest.filter(keep).contains(s.last()) {
                rest.lemma_filter_contains_rev(keep, s.last());
                let i = rest.index_of(s.last());
                assert(s[i] == s[s.len() - 1]);
            }
            lemma_push_unique(rest.filter(keep), s.last());
        }
    }
}

// ---------------------------------------------------------------------------
// Replicas agree
// ---------------------------------------------------------------------------

/// Whether two runs consist of the same entries.
pub open spec fn same_entries(es: Seq<SignedEntryModel>, fs: Seq<SignedEntryModel>) -> bool {
    forall|e: SignedEntryModel| #[trigger] es.contains(e) <==> fs.contains(e)
}

proof fn lemma_same_superseded(
    es: Seq<SignedEntryModel>,
    fs: Seq<SignedEntryModel>,
    key: Seq<u8>,
    hash: Seq<u8>,
)
    requires
        same_entries(es, fs),
        superseded(es, key, hash),
    ensures
        superseded(fs, key, hash),
{
    let i = choose|i: int|
        0 <= i < es.len() && touches(#[trigger] es[i], key) && es[i].entry.parent_hashes.contains(
            hash,
        );
    assert(es.contains(es[i]));
    let j = fs.index_of(es[i]);
    assert(touches(fs[j], key));
}

proof fn lemma_same_heads(
    es: Seq<SignedEntryModel>,
    fs: Seq<SignedEntryModel>,
    key: Seq<u8>,
    h: HeadModel,
)
    requires
        same_entries(es, fs),
        causal(es),
        causal(fs),
        key_heads(es, key).contains(h),
    ensures
        key_heads(fs, key).contains(h),
{
    law_heads_are_what_is_not_superseded(es, key);
    law_heads_are_what_is_not_superseded(fs, key);
    let i = choose|i: int|
        0 <= i < es.len() && touches(#[trigger] es[i], key) && h == head_of(es[i], key)
            && !superseded(es, key, es[i].hash());
    assert(es.contains(es[i]));
    let j = fs.index_of(es[i]);
    if superseded(fs, key, fs[j].hash()) {
        assert(same_entries(fs, es));
        lemma_same_superseded(fs, es, key, fs[j].hash());
    }
    assert(touches(fs[j], key));
}

proof fn lemma_same_members(a: Seq<HeadModel>, b: Seq<HeadModel>)
    requires
        a.no_duplicates(),
        b.no_duplicates(),
        forall|h: HeadModel| #[trigger] a.contains(h) <==> b.contains(h),
    ensures
        a.to_multiset() == b.to_multiset(),
{
    broadcast use vstd::seq_lib::group_to_multiset_ensures;

    assert forall|h: HeadModel| #[trigger] a.to_multiset().count(h) == b.to_multiset().count(h) by {
        a.lemma_multiset_has_no_duplicates();
        b.lemma_multiset_has_no_duplicates();
        assert(a.contains(h) <==> b.contains(h));
        assert(a.contains(h) <==> a.to_multiset().count(h) > 0);
        assert(b.contains(h) <==> b.to_multiset().count(h) > 0);
        if a.contains(h) {
            assert(a.to_multiset().contains(h));
            assert(b.to_multiset().contains(h));
        }
    }
    assert(a.to_multiset() =~= b.to_multiset());
}

/// Replicas agree: two replicas that have applied the same entries, in whatever order
/// each of them got them, have the same heads of a key. Where no two of these heads
/// have the same rank, the same head wins, and the key has the same value.
pub proof fn law_replicas_agree(
    st: StateModel,
    other: StateModel,
    es: Seq<SignedEntryModel>,
    fs: Seq<SignedEntryModel>,
    key: Seq<u8>,
)
    requires
        // Neither replica had the key before.
        state::heads_at(st.kv, key) == Ok::<Seq<HeadModel>, StateFault>(Seq::empty()),
        state::heads_at(other.kv, key) == Ok::<Seq<HeadModel>, StateFault>(Seq::empty()),
        // Both have applied the same entries, with their parents first.
        state::run(st, es) is Ok,
        state::run(other, fs) is Ok,
        same_entries(es, fs),
        causal(es),
        causal(fs),
        storable(es, key),
        storable(fs, key),
    ensures
        ({
            let a = state::heads_at(state::run(st, es)->Ok_0.kv, key);
            let b = state::heads_at(state::run(other, fs)->Ok_0.kv, key);
            &&& a is Ok && b is Ok
            &&& a->Ok_0.to_multiset() == b->Ok_0.to_multiset()
            &&& (forall|i: int, j: int|
                0 <= i < j < a->Ok_0.len() ==> (#[trigger] a->Ok_0[i]).outranks(
                    #[trigger] a->Ok_0[j],
                ) || a->Ok_0[j].outranks(a->Ok_0[i])) ==> state::value_at(
                state::run(st, es)->Ok_0.kv,
                key,
            ) == state::value_at(state::run(other, fs)->Ok_0.kv, key)
        }),
{
    law_run_leaves_its_heads(st, es, key);
    law_run_leaves_its_heads(other, fs, key);
    law_heads_are_what_is_not_superseded(es, key);
    law_heads_are_what_is_not_superseded(fs, key);
    let a = key_heads(es, key);
    let b = key_heads(fs, key);
    assert forall|h: HeadModel| #[trigger] a.contains(h) <==> b.contains(h) by {
        if a.contains(h) {
            lemma_same_heads(es, fs, key, h);
        }
        if b.contains(h) {
            assert(same_entries(fs, es));
            lemma_same_heads(fs, es, key, h);
        }
    }
    lemma_same_members(a, b);
    if forall|i: int, j: int|
        0 <= i < j < a.len() ==> (#[trigger] a[i]).outranks(#[trigger] a[j]) || a[j].outranks(
            a[i],
        ) {
        head::law_winner_is_deterministic(a, b);
    }
}

} // verus!
