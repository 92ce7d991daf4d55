//! What holds of the store's actor as a whole.
use crate::bytes;
use crate::crypto;
use crate::entry::SignedEntryModel;
use crate::head;
use crate::head::{Head, HeadModel};
use crate::proto::storage::{DeleteOpModel, OpTypeModel, OperationModel, PutOpModel};
use crate::results;
use crate::sorting;
use crate::store::actor::model;
use crate::store::actor::model::{ActorFault, ActorModel, TaskModel, WorkModel};
use crate::store::error::StateFault;
use crate::store::sigchain;
use crate::store::sigchain::manager;
use crate::store::sigchain::manager::{ReadyModel, Verdict};
use crate::store::sigchain::orphan_store;
use crate::store::sigchain::orphan_store::OrphanStoreError;
use crate::store::state;
use crate::store::state::StateModel;
use crate::table;
use crate::MAX_ENTRY_SIZE;
use vstd::prelude::*;

verus! {

/// Where an entry sets nothing free, it is dealt with in one step.
pub proof fn law_one_task(g: ActorModel, e: SignedEntryModel, now: u64)
    ensures
        ({
            let v = model::worked(model::work_on(g, e), now);
            model::finished(v) ==> model::taken(g, e, now) == (v.actor, v.failed)
        }),
{
    let w = model::work_on(g, e);
    reveal_with_fuel(model::worked_on, 2);
    assert(model::worked_on(w, now, 1) == model::worked(w, now));
    if model::finished(model::worked(w, now)) {
        model::lemma_settled(w, now, 1);
    }
}

/// The actor with the entry's author known.
pub open spec fn known(g: ActorModel, e: SignedEntryModel) -> ActorModel {
    ActorModel { manager: manager::knowing(g.manager, e.author_id), ..g }
}

/// An entry that is chained already changes nothing but that its author is
/// known.
pub proof fn law_duplicate_is_ignored(g: ActorModel, e: SignedEntryModel, now: u64)
    requires
        g.manager.hashes.contains(e.hash()),
    ensures
        model::taken(g, e, now) == (known(g, e), None::<ActorFault>),
{
    reveal(model::worked);
    let w = model::work_on(g, e);
    assert(w.tasks.last() == w.tasks[0]);
    law_one_task(g, e, now);
}

/// An entry that can never be chained is refused: no key, chain or waiting entry
/// changes.
pub proof fn law_unchainable_entry_is_refused(g: ActorModel, e: SignedEntryModel, now: u64)
    requires
        manager::verdict(g.manager, e) is Error,
    ensures
        model::taken(g, e, now) == (
            known(g, e),
            Some(ActorFault::SigChain(manager::verdict(g.manager, e)->Error_0)),
        ),
{
    reveal(model::worked);
    let w = model::work_on(g, e);
    assert(w.tasks.last() == w.tasks[0]);
    law_one_task(g, e, now);
}

/// An entry that does not follow its author's last one waits: neither the state
/// nor a chain changes.
pub proof fn law_early_entry_waits(g: ActorModel, e: SignedEntryModel, now: u64)
    requires
        manager::verdict(g.manager, e) is Orphan,
    ensures
        ({
            let (after, fault) = model::taken(g, e, now);
            let v = manager::verdict(g.manager, e);
            &&& fault is None
            &&& after == (ActorModel {
                manager: manager::orphan_kept(
                    known(g, e).manager,
                    e,
                    v->Orphan_0,
                    v->Orphan_1,
                    now,
                ),
                ..g
            })
            &&& after.state == g.state
            &&& after.manager.hashes == g.manager.hashes
            &&& after.manager.orphans.orphans.dom().contains(
                orphan_store::joined(e.author_id, e.entry.prev_hash, e.hash()),
            )
        }),
{
    reveal(model::worked);
    let w = model::work_on(g, e);
    assert(w.tasks.last() == w.tasks[0]);
    assert(w.tasks.drop_last() =~= Seq::empty());
    law_one_task(g, e, now);
}

/// An entry whose parent is not known waits: neither the state nor a chain
/// changes.
pub proof fn law_entry_without_its_parent_waits(
    g: ActorModel,
    e: SignedEntryModel,
    parent: Seq<u8>,
    now: u64,
)
    requires
        manager::verdict(g.manager, e) == Verdict::Valid,
        model::unknown_parent(g.manager.hashes, e.entry.parent_hashes) == Some(parent),
    ensures
        ({
            let (after, fault) = model::taken(g, e, now);
            &&& fault is None
            &&& after == model::parked(
                known(g, e),
                TaskModel { entry: e, dag: None, chain: None },
                parent,
            )
            &&& after.state == g.state
            &&& after.manager.hashes == g.manager.hashes
            &&& after.manager.orphans.dag.dom().contains(
                orphan_store::joined(
                    parent,
                    crypto::blake3_hash(state::first_key(e.entry)),
                    e.hash(),
                ),
            )
        }),
{
    reveal(model::worked);
    let w = model::work_on(g, e);
    assert(w.tasks.last() == w.tasks[0]);
    assert(w.tasks.drop_last() =~= Seq::empty());
    law_one_task(g, e, now);
}

/// What a task comes to whose entry comes next, has all its parents and can be
/// applied.
proof fn lemma_commit(w: WorkModel, now: u64, st: StateModel)
    requires
        w.tasks.len() > 0,
        ({
            let e = w.tasks.last().entry;
            &&& manager::verdict(w.actor.manager, e) == Verdict::Valid
            &&& model::unknown_parent(w.actor.manager.hashes, e.entry.parent_hashes) is None
            &&& state::applied(w.actor.state, e) == Ok::<StateModel, StateFault>(st)
            &&& e.encoding().len() <= MAX_ENTRY_SIZE
        }),
    ensures
        ({
            let t = w.tasks.last();
            let g = known(w.actor, t.entry);
            model::worked(w, now) == (WorkModel {
                actor: model::committed(g, t, st),
                tasks: w.tasks.drop_last() + model::freed(g, t),
                first: false,
                failed: None,
            })
        }),
{
    reveal(model::worked);
}

/// What is committed, apart from what is told.
proof fn lemma_committed_parts(g: ActorModel, t: TaskModel, st: StateModel)
    ensures
        ({
            let a = model::committed(known(g, t.entry), t, st);
            &&& a.state == st
            &&& a.watchers == g.watchers
            &&& a.manager == model::chain_done(
                model::dag_done(manager::committed(g.manager, t.entry), t),
                t,
            )
        }),
{
    let m = known(g, t.entry).manager;
    let c = sigchain::appended(manager::chain_of(g.manager, t.entry.author_id), t.entry);
    assert(m.chains.insert(t.entry.author_id, c) =~= g.manager.chains.insert(
        t.entry.author_id,
        c,
    ));
    assert(manager::committed(m, t.entry) =~= manager::committed(g.manager, t.entry));
}

proof fn lemma_nothing_sorted()
    ensures
        table::sorted_keys(Set::<Seq<u8>>::empty()) == Seq::<Seq<u8>>::empty(),
{
    table::lemma_sorted_keys(Seq::<Seq<u8>>::empty(), Set::<Seq<u8>>::empty());
}

/// Where nothing waits, nothing is set free.
pub proof fn lemma_nothing_freed(author: Seq<u8>, hash: Seq<u8>)
    ensures
        manager::ready_after(Map::empty(), author, hash) == Seq::<ReadyModel>::empty(),
        manager::dag_ready_after(Map::empty(), hash) == Seq::<
            (Seq<u8>, SignedEntryModel, Seq<u8>),
        >::empty(),
{
    let m = Map::<Seq<u8>, Seq<u8>>::empty();
    lemma_nothing_sorted();
    assert(m.dom() =~= Set::empty());
    reveal(Seq::filter);
    let lo = orphan_store::joined(author, hash, bytes::zeros(32));
    let hi = orphan_store::joined(author, hash, orphan_store::ones(32));
    let dlo = orphan_store::joined(hash, bytes::zeros(32), bytes::zeros(32));
    let dhi = orphan_store::joined(hash, orphan_store::ones(32), orphan_store::ones(32));
    let none = Seq::<Seq<u8>>::empty();
    assert(table::keys_between(none, lo, hi) =~= none);
    assert(table::keys_between(none, dlo, dhi) =~= none);
    assert(none.map_values(|k: Seq<u8>| orphan_store::orphan_at(m, k)) =~= Seq::empty());
    assert(none.map_values(|k: Seq<u8>| orphan_store::dag_orphan_at(m, k)) =~= Seq::empty());
    assert(manager::ready_after(m, author, hash) =~= Seq::empty());
}

/// What one waiting entry gives for its predecessor, and for any other hash.
proof fn lemma_one_waits(
    author: Seq<u8>,
    prev: Seq<u8>,
    e: SignedEntryModel,
    seq: u64,
    received_at: u64,
    other: Seq<u8>,
)
    requires
        author.len() == 32,
        prev.len() == 32,
        e.hash().len() == 32,
        other.len() == 32,
        other != prev,
        e.wf(),
        e.verified(),
        orphan_store::orphan_value(seq, e, received_at).len() <= u64::MAX,
    ensures
        ({
            let k = orphan_store::joined(author, prev, e.hash());
            let m = Map::<Seq<u8>, Seq<u8>>::empty().insert(
                k,
                orphan_store::orphan_value(seq, e, received_at),
            );
            &&& manager::ready_after(m, author, prev) == seq![
                ReadyModel { entry: e, author, prev_hash: prev, entry_hash: e.hash() },
            ]
            &&& manager::ready_after(m, author, other) == Seq::<ReadyModel>::empty()
        }),
{
    let k = orphan_store::joined(author, prev, e.hash());
    let value = orphan_store::orphan_value(seq, e, received_at);
    let m = Map::<Seq<u8>, Seq<u8>>::empty().insert(k, value);
    let keys = seq![k];
    assert(keys.contains(k)) by {
        assert(keys[0] == k);
    }
    assert(table::lists(keys, m.dom())) by {
        assert forall|x: Seq<u8>| keys.contains(x) <==> #[trigger] m.dom().contains(x) by {
            if keys.contains(x) {
                let i = keys.index_of(x);
                assert(keys[i] == k);
            }
        }
    }
    table::lemma_sorted_keys(keys, m.dom());
    let lo = orphan_store::joined(author, prev, bytes::zeros(32));
    let hi = orphan_store::joined(author, prev, orphan_store::ones(32));
    let olo = orphan_store::joined(author, other, bytes::zeros(32));
    let ohi = orphan_store::joined(author, other, orphan_store::ones(32));
    orphan_store::law_range_is_prefix(author + prev, k, 32);
    orphan_store::law_range_is_prefix(author + other, k, 32);
    assert(lo =~= (author + prev) + bytes::zeros(32));
    assert(hi =~= (author + prev) + orphan_store::ones(32));
    assert(olo =~= (author + other) + bytes::zeros(32));
    assert(ohi =~= (author + other) + orphan_store::ones(32));
    assert(k.take(64) =~= author + prev);
    assert(k.take(64) != author + other) by {
        if k.take(64) == author + other {
            assert((author + prev).skip(32) =~= prev);
            assert((author + other).skip(32) =~= other);
        }
    }
    reveal(Seq::filter);
    assert(keys.drop_last() =~= Seq::empty());
    let none = Seq::<Seq<u8>>::empty();
    let keep = |x: Seq<u8>| table::in_range(x, lo, hi);
    let okeep = |x: Seq<u8>| table::in_range(x, olo, ohi);
    assert(none.filter(keep) =~= none);
    assert(none.filter(okeep) =~= none);
    assert(keys.filter(keep) =~= keys);
    assert(keys.filter(okeep) =~= none);
    assert(k.subrange(64, 96) =~= e.hash());
    orphan_store::law_orphan_is_read_back(m, k, seq, e, received_at);
    let items = keys.map_values(|x: Seq<u8>| orphan_store::orphan_at(m, x));
    reveal_with_fuel(results::all_ok, 2);
    assert(items.drop_last() =~= Seq::empty());
    assert(items.last() == orphan_store::orphan_at(m, k));
    let found = seq![(seq, e, e.hash())];
    assert(Seq::<(u64, SignedEntryModel, Seq<u8>)>::empty().push((seq, e, e.hash())) =~= found);
    assert(orphan_store::orphans_under(m, keys) == Ok::<
        Seq<(u64, SignedEntryModel, Seq<u8>)>,
        OrphanStoreError,
    >(found));
    assert(manager::ready_after(m, author, prev) =~= seq![
        ReadyModel { entry: e, author, prev_hash: prev, entry_hash: e.hash() },
    ]);
    assert(none.map_values(|x: Seq<u8>| orphan_store::orphan_at(m, x)) =~= Seq::empty());
    assert(manager::ready_after(m, author, other) =~= Seq::empty());
}

/// The order in which two entries of a chain arrive does not matter: whether the
/// second one comes after the first or waits for it, the keys, the chains, the
/// known hashes and what waits are the same in the end.
pub proof fn law_arrival_order_does_not_matter(
    g: ActorModel,
    e1: SignedEntryModel,
    e2: SignedEntryModel,
    s1: StateModel,
    s2: StateModel,
    now: u64,
)
    requires
        g.manager.orphans.orphans == Map::<Seq<u8>, Seq<u8>>::empty(),
        g.manager.orphans.dag == Map::<Seq<u8>, Seq<u8>>::empty(),
        // The first entry comes next, and can be applied.
        manager::verdict(g.manager, e1) == Verdict::Valid,
        model::unknown_parent(g.manager.hashes, e1.entry.parent_hashes) is None,
        state::applied(g.state, e1) == Ok::<StateModel, StateFault>(s1),
        e1.encoding().len() <= MAX_ENTRY_SIZE,
        e1.author_id.len() == 32,
        e1.hash().len() == 32,
        // The second entry follows it, and can be applied then.
        e2.wf(),
        e2.verified(),
        e2.author_id == e1.author_id,
        sigchain::named_store(e2.entry) == manager::chain_of(g.manager, e1.author_id).store_id,
        e2.entry.seq == e1.entry.seq + 1,
        e2.entry.prev_hash == e1.hash(),
        e2.hash() != e1.hash(),
        e2.hash().len() == 32,
        !g.manager.hashes.contains(e2.hash()),
        model::unknown_parent(
            g.manager.hashes.insert(e1.hash()),
            e2.entry.parent_hashes,
        ) is None,
        state::applied(s1, e2) == Ok::<StateModel, StateFault>(s2),
        e2.encoding().len() <= MAX_ENTRY_SIZE,
        orphan_store::orphan_value(e2.entry.seq, e2, now).len() <= u64::MAX,
    ensures
        ({
            let (a1, fault_a1) = model::taken(g, e1, now);
            let (a, fault_a) = model::taken(a1, e2, now);
            let (b1, fault_b1) = model::taken(g, e2, now);
            let (b, fault_b) = model::taken(b1, e1, now);
            &&& fault_a1 is None && fault_a is None && fault_b1 is None && fault_b is None
            &&& a.state == s2
            &&& b.state == s2
            &&& a.manager.chains == b.manager.chains
            &&& a.manager.hashes == b.manager.hashes
            &&& a.manager.orphans == b.manager.orphans
        }),
{
    let author = e1.author_id;
    let c = manager::chain_of(g.manager, author);
    let t1 = TaskModel { entry: e1, dag: None, chain: None };
    let t2 = TaskModel { entry: e2, dag: None, chain: None };
    manager::law_orphan_becomes_valid(g.manager, e1, e2);
    lemma_nothing_freed(author, e1.hash());
    lemma_nothing_freed(author, e2.hash());
    // In order.
    let w1 = model::work_on(g, e1);
    assert(w1.tasks.last() == t1);
    assert(w1.tasks.drop_last() =~= Seq::empty());
    lemma_commit(w1, now, s1);
    lemma_committed_parts(g, t1, s1);
    let a1 = model::committed(known(g, e1), t1, s1);
    assert(model::freed(known(g, e1), t1) =~= Seq::empty());
    assert(model::worked(w1, now).tasks =~= Seq::empty());
    law_one_task(g, e1, now);
    assert(a1.manager == manager::committed(g.manager, e1));
    let w2 = model::work_on(a1, e2);
    assert(w2.tasks.last() == t2);
    assert(w2.tasks.drop_last() =~= Seq::empty());
    lemma_commit(w2, now, s2);
    lemma_committed_parts(a1, t2, s2);
    let a = model::committed(known(a1, e2), t2, s2);
    assert(model::freed(known(a1, e2), t2) =~= Seq::empty());
    assert(model::worked(w2, now).tasks =~= Seq::empty());
    law_one_task(a1, e2, now);
    assert(a.manager == manager::committed(manager::committed(g.manager, e1), e2));
    // The second one first.
    law_early_entry_waits(g, e2, now);
    let b1 = model::taken(g, e2, now).0;
    let k = orphan_store::joined(author, e1.hash(), e2.hash());
    let value = orphan_store::orphan_value(e2.entry.seq, e2, now);
    let waiting = Map::<Seq<u8>, Seq<u8>>::empty().insert(k, value);
    assert(b1.manager.orphans.orphans =~= waiting);
    assert(b1.manager.orphans.dag =~= Map::empty());
    assert(b1.manager.chains == g.manager.chains.insert(author, c));
    assert(manager::chain_of(b1.manager, author) == c);
    assert(manager::verdict(b1.manager, e1) == Verdict::Valid);
    let w3 = model::work_on(b1, e1);
    assert(w3.tasks.last() == t1);
    assert(w3.tasks.drop_last() =~= Seq::empty());
    lemma_commit(w3, now, s1);
    lemma_committed_parts(b1, t1, s1);
    lemma_one_waits(author, e1.hash(), e2, e2.entry.seq, now, e2.hash());
    let v3 = model::worked(w3, now);
    let t3 = TaskModel {
        entry: e2,
        dag: None,
        chain: Some((author, e1.hash(), e2.hash())),
    };
    assert(model::freed(known(b1, e1), t1) =~= seq![t3]);
    assert(v3.tasks =~= seq![t3]);
    assert(v3.tasks.last() == t3);
    assert(v3.tasks.drop_last() =~= Seq::empty());
    assert(v3.actor.manager == manager::committed(b1.manager, e1));
    assert(manager::chain_of(v3.actor.manager, author) == sigchain::appended(c, e1));
    assert(manager::verdict(v3.actor.manager, e2) == Verdict::Valid);
    lemma_commit(v3, now, s2);
    lemma_committed_parts(v3.actor, t3, s2);
    let v4 = model::worked(v3, now);
    assert(model::freed(known(v3.actor, e2), t3) =~= Seq::empty());
    assert(v4.tasks =~= Seq::empty());
    reveal_with_fuel(model::worked_on, 3);
    assert(model::worked_on(w3, now, 1) == v3);
    assert(model::worked_on(w3, now, 2) == v4);
    model::lemma_settled(w3, now, 2);
    let b = v4.actor;
    assert(a.manager.chains =~= b.manager.chains);
    assert(a.manager.hashes =~= b.manager.hashes);
    assert(a.manager.orphans.orphans =~= b.manager.orphans.orphans);
    assert(a.manager.orphans.dag =~= b.manager.orphans.dag);
}

/// What one entry that waits for a parent gives for that parent, and for any other
/// hash.
proof fn lemma_one_waits_for_a_parent(
    parent: Seq<u8>,
    key: Seq<u8>,
    e: SignedEntryModel,
    other: Seq<u8>,
)
    requires
        parent.len() == 32,
        crypto::blake3_hash(key).len() == 32,
        e.hash().len() == 32,
        other.len() == 32,
        other != parent,
        e.wf(),
        e.verified(),
        orphan_store::dag_orphan_value(key, e).len() <= u64::MAX,
    ensures
        ({
            let k = orphan_store::joined(parent, crypto::blake3_hash(key), e.hash());
            let m = Map::<Seq<u8>, Seq<u8>>::empty().insert(
                k,
                orphan_store::dag_orphan_value(key, e),
            );
            &&& manager::dag_ready_after(m, parent) == seq![(key, e, e.hash())]
            &&& manager::dag_ready_after(m, other) == Seq::<
                (Seq<u8>, SignedEntryModel, Seq<u8>),
            >::empty()
        }),
{
    let k = orphan_store::joined(parent, crypto::blake3_hash(key), e.hash());
    let value = orphan_store::dag_orphan_value(key, e);
    let m = Map::<Seq<u8>, Seq<u8>>::empty().insert(k, value);
    let keys = seq![k];
    assert(keys.contains(k)) by {
        assert(keys[0] == k);
    }
    assert(table::lists(keys, m.dom())) by {
        assert forall|x: Seq<u8>| keys.contains(x) <==> #[trigger] m.dom().contains(x) by {
            if keys.contains(x) {
                let i = keys.index_of(x);
                assert(keys[i] == k);
            }
        }
    }
    table::lemma_sorted_keys(keys, m.dom());
    let lo = orphan_store::joined(parent, bytes::zeros(32), bytes::zeros(32));
    let hi = orphan_store::joined(parent, orphan_store::ones(32), orphan_store::ones(32));
    let olo = orphan_store::joined(other, bytes::zeros(32), bytes::zeros(32));
    let ohi = orphan_store::joined(other, orphan_store::ones(32), orphan_store::ones(32));
    orphan_store::law_range_is_prefix(parent, k, 64);
    orphan_store::law_range_is_prefix(other, k, 64);
    assert(lo =~= parent + bytes::zeros(64));
    assert(hi =~= parent + orphan_store::ones(64));
    assert(olo =~= other + bytes::zeros(64));
    assert(ohi =~= other + orphan_store::ones(64));
    assert(k.take(32) =~= parent);
    reveal(Seq::filter);
    assert(keys.drop_last() =~= Seq::empty());
    let none = Seq::<Seq<u8>>::empty();
    let keep = |x: Seq<u8>| table::in_range(x, lo, hi);
    let okeep = |x: Seq<u8>| table::in_range(x, olo, ohi);
    assert(none.filter(keep) =~= none);
    assert(none.filter(okeep) =~= none);
    assert(keys.filter(keep) =~= keys);
    assert(keys.filter(okeep) =~= none);
    assert(k.subrange(64, 96) =~= e.hash());
    orphan_store::law_dag_orphan_is_read_back(m, k, key, e);
    let items = keys.map_values(|x: Seq<u8>| orphan_store::dag_orphan_at(m, x));
    reveal_with_fuel(results::all_ok, 2);
    assert(items.drop_last() =~= Seq::empty());
    assert(items.last() == orphan_store::dag_orphan_at(m, k));
    let found = seq![(key, e, e.hash())];
    assert(Seq::<(Seq<u8>, SignedEntryModel, Seq<u8>)>::empty().push((key, e, e.hash())) =~= found);
    assert(none.map_values(|x: Seq<u8>| orphan_store::dag_orphan_at(m, x)) =~= Seq::empty());
}

/// The order in which an entry and the parent that it lacks arrive does not matter:
/// whether the entry comes after its parent or waits for it, the keys, the chains,
/// the known hashes and what waits are the same in the end.
pub proof fn law_parent_may_come_later(
    g: ActorModel,
    e1: SignedEntryModel,
    e2: SignedEntryModel,
    s1: StateModel,
    s2: StateModel,
    now: u64,
)
    requires
        g.manager.orphans.orphans == Map::<Seq<u8>, Seq<u8>>::empty(),
        g.manager.orphans.dag == Map::<Seq<u8>, Seq<u8>>::empty(),
        // The parent comes next in its chain, and can be applied.
        manager::verdict(g.manager, e1) == Verdict::Valid,
        model::unknown_parent(g.manager.hashes, e1.entry.parent_hashes) is None,
        state::applied(g.state, e1) == Ok::<StateModel, StateFault>(s1),
        e1.encoding().len() <= MAX_ENTRY_SIZE,
        e1.author_id.len() == 32,
        e1.hash().len() == 32,
        // The entry comes next in the chain of another author, lacks that parent
        // only, and can be applied then.
        e2.wf(),
        manager::verdict(g.manager, e2) == Verdict::Valid,
        e2.author_id != e1.author_id,
        e2.hash() != e1.hash(),
        e2.hash().len() == 32,
        model::unknown_parent(g.manager.hashes, e2.entry.parent_hashes) == Some(e1.hash()),
        model::unknown_parent(
            g.manager.hashes.insert(e1.hash()),
            e2.entry.parent_hashes,
        ) is None,
        state::applied(s1, e2) == Ok::<StateModel, StateFault>(s2),
        e2.encoding().len() <= MAX_ENTRY_SIZE,
        crypto::blake3_hash(state::first_key(e2.entry)).len() == 32,
        orphan_store::dag_orphan_value(state::first_key(e2.entry), e2).len() <= u64::MAX,
    ensures
        ({
            let (a1, fault_a1) = model::taken(g, e1, now);
            let (a, fault_a) = model::taken(a1, e2, now);
            let (b1, fault_b1) = model::taken(g, e2, now);
            let (b, fault_b) = model::taken(b1, e1, now);
            &&& fault_a1 is None && fault_a is None && fault_b1 is None && fault_b is None
            &&& a.state == s2
            &&& b.state == s2
            &&& a.manager.chains == b.manager.chains
            &&& a.manager.hashes == b.manager.hashes
            &&& a.manager.orphans == b.manager.orphans
        }),
{
    let key = state::first_key(e2.entry);
    let t1 = TaskModel { entry: e1, dag: None, chain: None };
    let t2 = TaskModel { entry: e2, dag: None, chain: None };
    manager::law_authors_are_independent(g.manager, e1, e2);
    lemma_nothing_freed(e1.author_id, e1.hash());
    lemma_nothing_freed(e2.author_id, e2.hash());
    // The parent first.
    let w1 = model::work_on(g, e1);
    assert(w1.tasks.last() == t1);
    assert(w1.tasks.drop_last() =~= Seq::empty());
    lemma_commit(w1, now, s1);
    lemma_committed_parts(g, t1, s1);
    let a1 = model::committed(known(g, e1), t1, s1);
    assert(model::freed(known(g, e1), t1) =~= Seq::empty());
    assert(model::worked(w1, now).tasks =~= Seq::empty());
    law_one_task(g, e1, now);
    let w2 = model::work_on(a1, e2);
    assert(w2.tasks.last() == t2);
    assert(w2.tasks.drop_last() =~= Seq::empty());
    lemma_commit(w2, now, s2);
    lemma_committed_parts(a1, t2, s2);
    let a = model::committed(known(a1, e2), t2, s2);
    assert(model::freed(known(a1, e2), t2) =~= Seq::empty());
    assert(model::worked(w2, now).tasks =~= Seq::empty());
    law_one_task(a1, e2, now);
    // The parent later.
    law_entry_without_its_parent_waits(g, e2, e1.hash(), now);
    let b1 = model::taken(g, e2, now).0;
    let k = orphan_store::joined(e1.hash(), crypto::blake3_hash(key), e2.hash());
    let value = orphan_store::dag_orphan_value(key, e2);
    let waiting = Map::<Seq<u8>, Seq<u8>>::empty().insert(k, value);
    assert(b1.manager.orphans.dag =~= waiting);
    assert(b1.manager.orphans.orphans =~= Map::empty());
    assert(manager::verdict(b1.manager, e1) == Verdict::Valid);
    let w3 = model::work_on(b1, e1);
    assert(w3.tasks.last() == t1);
    assert(w3.tasks.drop_last() =~= Seq::empty());
    lemma_commit(w3, now, s1);
    lemma_committed_parts(b1, t1, s1);
    lemma_one_waits_for_a_parent(e1.hash(), key, e2, e2.hash());
    let v3 = model::worked(w3, now);
    let t3 = TaskModel { entry: e2, dag: Some((key, e1.hash(), e2.hash())), chain: None };
    assert(model::freed(known(b1, e1), t1) =~= seq![t3]);
    assert(v3.tasks =~= seq![t3]);
    assert(v3.tasks.last() == t3);
    assert(v3.tasks.drop_last() =~= Seq::empty());
    assert(v3.actor.manager == manager::committed(b1.manager, e1));
    assert(manager::verdict(v3.actor.manager, e2) == Verdict::Valid);
    lemma_commit(v3, now, s2);
    lemma_committed_parts(v3.actor, t3, s2);
    let v4 = model::worked(v3, now);
    let done = model::committed(known(v3.actor, e2), t3, s2);
    assert(done.manager.orphans.dag =~= Map::empty());
    assert(model::freed(known(v3.actor, e2), t3) =~= Seq::empty());
    assert(v4.tasks =~= Seq::empty());
    reveal_with_fuel(model::worked_on, 3);
    assert(model::worked_on(w3, now, 1) == v3);
    assert(model::worked_on(w3, now, 2) == v4);
    model::lemma_settled(w3, now, 2);
    let b = v4.actor;
    assert(a.manager.chains =~= b.manager.chains);
    assert(a.manager.hashes =~= b.manager.hashes);
    assert(a.manager.orphans.orphans =~= b.manager.orphans.orphans);
    assert(a.manager.orphans.dag =~= b.manager.orphans.dag);
}

/// What a task comes to whose entry comes next and lacks a parent.
proof fn lemma_park(w: WorkModel, now: u64, parent: Seq<u8>)
    requires
        w.tasks.len() > 0,
        manager::verdict(w.actor.manager, w.tasks.last().entry) == Verdict::Valid,
        model::unknown_parent(
            w.actor.manager.hashes,
            w.tasks.last().entry.entry.parent_hashes,
        ) == Some(parent),
    ensures
        ({
            let t = w.tasks.last();
            model::worked(w, now) == (WorkModel {
                actor: model::parked(known(w.actor, t.entry), t, parent),
                tasks: w.tasks.drop_last(),
                first: false,
                failed: None,
            })
        }),
{
    reveal(model::worked);
}

/// What waits when one entry does, for the given parent.
spec fn waiting_for(parent: Seq<u8>, key: Seq<u8>, e: SignedEntryModel) -> Map<Seq<u8>, Seq<u8>> {
    Map::<Seq<u8>, Seq<u8>>::empty().insert(
        orphan_store::joined(parent, crypto::blake3_hash(key), e.hash()),
        orphan_store::dag_orphan_value(key, e),
    )
}

/// One record waits.
proof fn lemma_waiting_for(parent: Seq<u8>, key: Seq<u8>, e: SignedEntryModel)
    ensures
        waiting_for(parent, key, e).dom() == set![
            orphan_store::joined(parent, crypto::blake3_hash(key), e.hash()),
        ],
{
    assert(waiting_for(parent, key, e).dom() =~= set![
        orphan_store::joined(parent, crypto::blake3_hash(key), e.hash()),
    ]);
}

proof fn lemma_run_of_three(
    st: StateModel,
    a: SignedEntryModel,
    b: SignedEntryModel,
    c: SignedEntryModel,
    sa: StateModel,
    sb: StateModel,
)
    requires
        state::applied(st, a) == Ok::<StateModel, StateFault>(sa),
        state::applied(sa, b) == Ok::<StateModel, StateFault>(sb),
    ensures
        state::run(st, seq![a, b, c]) == state::applied(sb, c),
{
    let none = Seq::<SignedEntryModel>::empty();
    assert(seq![a, b, c] =~= none.push(a).push(b).push(c));
    state::lemma_run_push(st, none, a);
    state::lemma_run_push(st, none.push(a), b);
    state::lemma_run_push(st, none.push(a).push(b), c);
}

/// Whether an entry comes next in its chain, has all its parents and can be applied,
/// which leaves the given state.
spec fn committable(g: ActorModel, e: SignedEntryModel, st: StateModel) -> bool {
    &&& manager::verdict(g.manager, e) == Verdict::Valid
    &&& model::unknown_parent(g.manager.hashes, e.entry.parent_hashes) is None
    &&& state::applied(g.state, e) == Ok::<StateModel, StateFault>(st)
    &&& e.encoding().len() <= MAX_ENTRY_SIZE
    &&& e.author_id.len() == 32
    &&& e.hash().len() == 32
}

/// Whether an entry can be put by and read back.
spec fn can_wait(e: SignedEntryModel) -> bool {
    &&& e.wf()
    &&& e.author_id.len() == 32
    &&& e.hash().len() == 32
    &&& crypto::blake3_hash(state::first_key(e.entry)).len() == 32
    &&& orphan_store::dag_orphan_value(state::first_key(e.entry), e).len() <= u64::MAX
}

/// Where nothing waits, an entry that lacks a parent is the only one that does.
proof fn lemma_starts_to_wait(g: ActorModel, e: SignedEntryModel, parent: Seq<u8>, now: u64)
    requires
        g.manager.orphans.orphans == Map::<Seq<u8>, Seq<u8>>::empty(),
        g.manager.orphans.dag == Map::<Seq<u8>, Seq<u8>>::empty(),
        manager::verdict(g.manager, e) == Verdict::Valid,
        model::unknown_parent(g.manager.hashes, e.entry.parent_hashes) == Some(parent),
    ensures
        ({
            let (h, fault) = model::taken(g, e, now);
            &&& fault is None
            &&& h.state == g.state
            &&& h.manager.orphans.orphans == Map::<Seq<u8>, Seq<u8>>::empty()
            &&& h.manager.orphans.dag == waiting_for(parent, state::first_key(e.entry), e)
            &&& h.manager.hashes == g.manager.hashes
            &&& forall|x: SignedEntryModel| #[trigger]
                manager::verdict(h.manager, x) == manager::verdict(g.manager, x)
        }),
{
    law_entry_without_its_parent_waits(g, e, parent, now);
    let h = model::taken(g, e, now).0;
    assert(h.manager.orphans.dag =~= waiting_for(parent, state::first_key(e.entry), e));
    assert forall|x: SignedEntryModel| #[trigger] manager::verdict(h.manager, x)
        == manager::verdict(g.manager, x) by {
        manager::law_knowing_changes_no_verdict(g.manager, e.author_id, x);
        assert(manager::chain_of(h.manager, x.author_id) == manager::chain_of(
            manager::knowing(g.manager, e.author_id),
            x.author_id,
        ));
    }
}

/// Where one entry waits for a parent, the parent is committed and the entry has another
/// one that is not known, the entry waits for that one.
proof fn lemma_waits_on(
    g: ActorModel,
    e1: SignedEntryModel,
    e2: SignedEntryModel,
    s1: StateModel,
    next: Seq<u8>,
    now: u64,
)
    requires
        g.manager.orphans.orphans == Map::<Seq<u8>, Seq<u8>>::empty(),
        g.manager.orphans.dag == waiting_for(e1.hash(), state::first_key(e2.entry), e2),
        committable(g, e1, s1),
        can_wait(e2),
        manager::verdict(g.manager, e2) == Verdict::Valid,
        e2.author_id != e1.author_id,
        e2.hash() != e1.hash(),
        model::unknown_parent(
            g.manager.hashes.insert(e1.hash()),
            e2.entry.parent_hashes,
        ) == Some(next),
    ensures
        ({
            let (h, fault) = model::taken(g, e1, now);
            &&& fault is None
            &&& h.state == s1
            &&& h.manager.orphans.orphans == Map::<Seq<u8>, Seq<u8>>::empty()
            &&& h.manager.orphans.dag == waiting_for(next, state::first_key(e2.entry), e2)
            &&& h.manager.hashes == g.manager.hashes.insert(e1.hash())
            &&& forall|x: SignedEntryModel|
                x.author_id != e1.author_id && x.hash() != e1.hash() ==> #[trigger] manager::verdict(
                    h.manager,
                    x,
                ) == manager::verdict(g.manager, x)
        }),
{
    let key = state::first_key(e2.entry);
    let t1 = TaskModel { entry: e1, dag: None, chain: None };
    let t2 = TaskModel { entry: e2, dag: Some((key, e1.hash(), e2.hash())), chain: None };
    let w = model::work_on(g, e1);
    assert(w.tasks.last() == t1);
    assert(w.tasks.drop_last() =~= Seq::empty());
    lemma_commit(w, now, s1);
    lemma_committed_parts(g, t1, s1);
    lemma_nothing_freed(e1.author_id, e1.hash());
    lemma_one_waits_for_a_parent(e1.hash(), key, e2, e2.hash());
    manager::law_authors_are_independent(g.manager, e1, e2);
    let v = model::worked(w, now);
    assert(model::freed(known(g, e1), t1) =~= seq![t2]);
    assert(v.tasks =~= seq![t2]);
    assert(v.tasks.last() == t2);
    assert(v.tasks.drop_last() =~= Seq::empty());
    assert(v.actor.manager == manager::committed(g.manager, e1));
    lemma_park(v, now, next);
    let u = model::worked(v, now);
    assert(u.tasks =~= Seq::empty());
    reveal_with_fuel(model::worked_on, 3);
    assert(model::worked_on(w, now, 1) == v);
    assert(model::worked_on(w, now, 2) == u);
    model::lemma_settled(w, now, 2);
    let h = u.actor;
    assert(h.manager.orphans.dag =~= waiting_for(next, key, e2));
    assert forall|x: SignedEntryModel|
        x.author_id != e1.author_id && x.hash() != e1.hash() implies #[trigger] manager::verdict(
        h.manager,
        x,
    ) == manager::verdict(g.manager, x) by {
        manager::law_authors_are_independent(g.manager, e1, x);
        manager::law_knowing_changes_no_verdict(v.actor.manager, e2.author_id, x);
        assert(manager::chain_of(h.manager, x.author_id) == manager::chain_of(
            manager::knowing(v.actor.manager, e2.author_id),
            x.author_id,
        ));
    }
}

/// Where one entry waits for its last parent and the parent is committed, the entry is
/// committed, and nothing waits.
proof fn lemma_waits_no_more(
    g: ActorModel,
    e1: SignedEntryModel,
    e2: SignedEntryModel,
    s1: StateModel,
    s2: StateModel,
    now: u64,
)
    requires
        g.manager.orphans.orphans == Map::<Seq<u8>, Seq<u8>>::empty(),
        g.manager.orphans.dag == waiting_for(e1.hash(), state::first_key(e2.entry), e2),
        committable(g, e1, s1),
        can_wait(e2),
        manager::verdict(g.manager, e2) == Verdict::Valid,
        e2.author_id != e1.author_id,
        e2.hash() != e1.hash(),
        model::unknown_parent(
            g.manager.hashes.insert(e1.hash()),
            e2.entry.parent_hashes,
        ) is None,
        state::applied(s1, e2) == Ok::<StateModel, StateFault>(s2),
        e2.encoding().len() <= MAX_ENTRY_SIZE,
    ensures
        ({
            let (h, fault) = model::taken(g, e1, now);
            &&& fault is None
            &&& h.state == s2
            &&& h.manager.orphans.orphans == Map::<Seq<u8>, Seq<u8>>::empty()
            &&& h.manager.orphans.dag == Map::<Seq<u8>, Seq<u8>>::empty()
            &&& h.manager.hashes == g.manager.hashes.insert(e1.hash()).insert(e2.hash())
        }),
{
    let key = state::first_key(e2.entry);
    let t1 = TaskModel { entry: e1, dag: None, chain: None };
    let t2 = TaskModel { entry: e2, dag: Some((key, e1.hash(), e2.hash())), chain: None };
    let w = model::work_on(g, e1);
    assert(w.tasks.last() == t1);
    assert(w.tasks.drop_last() =~= Seq::empty());
    lemma_commit(w, now, s1);
    lemma_committed_parts(g, t1, s1);
    lemma_nothing_freed(e1.author_id, e1.hash());
    lemma_nothing_freed(e2.author_id, e2.hash());
    lemma_one_waits_for_a_parent(e1.hash(), key, e2, e2.hash());
    manager::law_authors_are_independent(g.manager, e1, e2);
    let v = model::worked(w, now);
    assert(model::freed(known(g, e1), t1) =~= seq![t2]);
    assert(v.tasks =~= seq![t2]);
    assert(v.tasks.last() == t2);
    assert(v.tasks.drop_last() =~= Seq::empty());
    assert(v.actor.manager == manager::committed(g.manager, e1));
    lemma_commit(v, now, s2);
    lemma_committed_parts(v.actor, t2, s2);
    let u = model::worked(v, now);
    let done = model::committed(known(v.actor, e2), t2, s2);
    assert(done.manager.orphans.dag =~= Map::empty());
    assert(model::freed(known(v.actor, e2), t2) =~= Seq::empty());
    assert(u.tasks =~= Seq::empty());
    reveal_with_fuel(model::worked_on, 3);
    assert(model::worked_on(w, now, 1) == v);
    assert(model::worked_on(w, now, 2) == u);
    model::lemma_settled(w, now, 2);
}

/// Where no parent is unknown, all are known.
proof fn lemma_parents_known(hashes: Set<Seq<u8>>, parents: Seq<Seq<u8>>)
    requires
        model::unknown_parent(hashes, parents) is None,
    ensures
        forall|i: int| 0 <= i < parents.len() ==> hashes.contains(#[trigger] parents[i]),
    decreases parents.len(),
{
    if parents.len() > 0 {
        let before = parents.drop_last();
        lemma_parents_known(hashes, before);
        assert forall|i: int| 0 <= i < parents.len() implies hashes.contains(
            #[trigger] parents[i],
        ) by {
            if i < before.len() {
                assert(hashes.contains(before[i]));
            }
        }
    }
}

/// The one operation of an entry about a key.
pub open spec fn writes_key(e: SignedEntryModel, op: OpTypeModel, key: Seq<u8>) -> bool {
    &&& e.entry.ops == seq![OperationModel { op_type: Some(op) }]
    &&& (OperationModel { op_type: Some(op) }).key() == Some(key)
}

/// Whether an entry comes next in its chain, and is not too large for one.
pub open spec fn comes_next(g: ActorModel, e: SignedEntryModel) -> bool {
    &&& e.wf()
    &&& manager::verdict(g.manager, e) == Verdict::Valid
    &&& e.encoding().len() <= MAX_ENTRY_SIZE
    &&& e.author_id.len() == 32
    &&& e.hash().len() == 32
}

/// The states that two entries about a key without heads, neither of which has the other
/// as a parent, and a third that has both, leave one after the other.
proof fn lemma_two_heads_merged(
    st: StateModel,
    a: SignedEntryModel,
    b: SignedEntryModel,
    c: SignedEntryModel,
    key: Seq<u8>,
    op_a: OpTypeModel,
    op_b: OpTypeModel,
    op_c: OpTypeModel,
)
    requires
        state::heads_at(st.kv, key) == Ok::<Seq<HeadModel>, StateFault>(Seq::empty()),
        writes_key(a, op_a, key),
        writes_key(b, op_b, key),
        writes_key(c, op_c, key),
        a.author_id.len() == 32 && b.author_id.len() == 32 && c.author_id.len() == 32,
        a.hash().len() == 32 && b.hash().len() == 32 && c.hash().len() == 32,
        a.author_id != b.author_id && a.author_id != c.author_id && b.author_id != c.author_id,
        a.hash() != b.hash() && a.hash() != c.hash() && b.hash() != c.hash(),
        a.entry.prev_hash == state::last_hash(st.tips, a.author_id),
        b.entry.prev_hash == state::last_hash(st.tips, b.author_id),
        c.entry.prev_hash == state::last_hash(st.tips, c.author_id),
        !b.entry.parent_hashes.contains(a.hash()),
        c.entry.parent_hashes == seq![a.hash(), b.hash()],
        head::stored_heads(seq![state::op_head(op_a, a)]).len() <= u64::MAX,
        head::stored_heads(seq![state::op_head(op_a, a), state::op_head(op_b, b)]).len()
            <= u64::MAX,
        head::stored_heads(seq![state::op_head(op_c, c)]).len() <= u64::MAX,
    ensures
        state::applied(st, a) matches Ok(sa) && state::applied(sa, b) matches Ok(sb)
            && state::applied(sb, c) matches Ok(sc) && state::heads_at(sc.kv, key) == Ok::<
            Seq<HeadModel>,
            StateFault,
        >(seq![state::op_head(op_c, c)]),
{
    let ha = state::op_head(op_a, a);
    let hb = state::op_head(op_b, b);
    lemma_put_applies(st, a, op_a, key, Seq::empty());
    let sa = state::applied(st, a)->Ok_0;
    let one = seq![ha];
    let two = seq![ha, hb];
    assert(one[0] == ha);
    assert(!head::has_hash(one, hb.hash));
    let parents = b.entry.parent_hashes;
    let keep = |h: HeadModel| !parents.contains(h.hash);
    reveal(Seq::filter);
    assert(one.drop_last() =~= Seq::empty());
    assert(Seq::<HeadModel>::empty().filter(keep) =~= Seq::empty());
    assert(one.filter(keep) =~= one);
    assert(head::with_head(one, hb, parents) =~= two);
    state::law_head_is_read_back(sa.kv, key, hb, parents);
    reveal_with_fuel(state::ops_put, 2);
    assert(b.entry.ops[0] == (OperationModel { op_type: Some(op_b) }));
    assert(state::ops_put(sa.kv, b, 1) == state::head_put(sa.kv, key, hb, parents));
    let sb = state::applied(sa, b)->Ok_0;
    assert(c.entry.parent_hashes[0] == a.hash() && c.entry.parent_hashes[1] == b.hash());
    lemma_put_applies(sb, c, op_c, key, two);
}

/// An entry with two parents that come after it is applied once the second one has been:
/// until then it waits, for the first parent and then for the second. In the end it is the
/// only head of the key, all three are chained and nothing waits.
pub proof fn law_entry_waits_for_all_its_parents(
    g: ActorModel,
    a: SignedEntryModel,
    b: SignedEntryModel,
    c: SignedEntryModel,
    key: Seq<u8>,
    op_a: OpTypeModel,
    op_b: OpTypeModel,
    op_c: OpTypeModel,
    now: u64,
)
    requires
        // Nothing waits, and state and chains agree.
        g.manager.orphans.orphans == Map::<Seq<u8>, Seq<u8>>::empty(),
        g.manager.orphans.dag == Map::<Seq<u8>, Seq<u8>>::empty(),
        model::in_step(g),
        // Each entry comes next in the chain of another author, and is about the key,
        // which has no heads.
        state::heads_at(g.state.kv, key) == Ok::<Seq<HeadModel>, StateFault>(Seq::empty()),
        writes_key(a, op_a, key),
        writes_key(b, op_b, key),
        writes_key(c, op_c, key),
        comes_next(g, a),
        comes_next(g, b),
        comes_next(g, c),
        a.author_id != b.author_id && a.author_id != c.author_id && b.author_id != c.author_id,
        a.hash() != b.hash() && a.hash() != c.hash() && b.hash() != c.hash(),
        // Two of them have their parents, and are those of the third.
        model::unknown_parent(g.manager.hashes, a.entry.parent_hashes) is None,
        model::unknown_parent(g.manager.hashes, b.entry.parent_hashes) is None,
        c.entry.parent_hashes == seq![a.hash(), b.hash()],
        // What is stored of them can be read back.
        crypto::blake3_hash(key).len() == 32,
        orphan_store::dag_orphan_value(key, c).len() <= u64::MAX,
        head::stored_heads(seq![state::op_head(op_a, a)]).len() <= u64::MAX,
        head::stored_heads(seq![state::op_head(op_a, a), state::op_head(op_b, b)]).len()
            <= u64::MAX,
        head::stored_heads(seq![state::op_head(op_c, c)]).len() <= u64::MAX,
    ensures
        ({
            let (g1, fault1) = model::taken(g, c, now);
            let (g2, fault2) = model::taken(g1, a, now);
            let (g3, fault3) = model::taken(g2, b, now);
            &&& fault1 is None && fault2 is None && fault3 is None
            // First it waits for the one, then for the other.
            &&& g1.state == g.state
            &&& g1.manager.hashes == g.manager.hashes
            &&& g1.manager.orphans.dag.dom() == set![
                orphan_store::joined(a.hash(), crypto::blake3_hash(key), c.hash()),
            ]
            &&& Ok::<StateModel, StateFault>(g2.state) == state::applied(g.state, a)
            &&& g2.manager.hashes == g.manager.hashes.insert(a.hash())
            &&& g2.manager.orphans.dag.dom() == set![
                orphan_store::joined(b.hash(), crypto::blake3_hash(key), c.hash()),
            ]
            // Then it is applied.
            &&& Ok::<StateModel, StateFault>(g3.state) == state::run(g.state, seq![a, b, c])
            &&& state::heads_at(g3.state.kv, key) == Ok::<Seq<HeadModel>, StateFault>(
                seq![state::op_head(op_c, c)],
            )
            &&& g3.manager.hashes == g.manager.hashes.insert(a.hash()).insert(b.hash()).insert(
                c.hash(),
            )
            &&& g3.manager.orphans.dag == Map::<Seq<u8>, Seq<u8>>::empty()
            &&& g3.manager.orphans.orphans == Map::<Seq<u8>, Seq<u8>>::empty()
        }),
{
    let parents = c.entry.parent_hashes;
    let hashes = g.manager.hashes;
    assert(parents[0] == a.hash() && parents[1] == b.hash());
    assert(c.entry.ops[0] == (OperationModel { op_type: Some(op_c) }));
    assert(state::first_key(c.entry) == key);
    assert(model::agrees_on(g, a.author_id));
    assert(model::agrees_on(g, b.author_id));
    assert(model::agrees_on(g, c.author_id));
    lemma_parents_known(hashes, b.entry.parent_hashes);
    assert(!hashes.contains(a.hash()));
    lemma_two_heads_merged(g.state, a, b, c, key, op_a, op_b, op_c);
    let sa = state::applied(g.state, a)->Ok_0;
    let sb = state::applied(sa, b)->Ok_0;
    let sc = state::applied(sb, c)->Ok_0;
    lemma_run_of_three(g.state, a, b, c, sa, sb);
    // The entry comes first.
    model::lemma_first_unknown(hashes, parents, 0);
    lemma_starts_to_wait(g, c, a.hash(), now);
    let g1 = model::taken(g, c, now).0;
    lemma_waiting_for(a.hash(), key, c);
    assert(manager::verdict(g1.manager, a) == Verdict::Valid);
    assert(manager::verdict(g1.manager, b) == Verdict::Valid);
    assert(manager::verdict(g1.manager, c) == Verdict::Valid);
    // Then its first parent.
    assert(hashes.insert(a.hash()).contains(parents[0]));
    assert(!hashes.contains(b.hash()));
    model::lemma_first_unknown(hashes.insert(a.hash()), parents, 1);
    lemma_waits_on(g1, a, c, sa, b.hash(), now);
    let g2 = model::taken(g1, a, now).0;
    assert(manager::verdict(g2.manager, b) == Verdict::Valid);
    assert(manager::verdict(g2.manager, c) == Verdict::Valid);
    lemma_waiting_for(b.hash(), key, c);
    // Then its second.
    model::lemma_all_known(hashes.insert(a.hash()), b.entry.parent_hashes);
    model::lemma_all_known(hashes.insert(a.hash()).insert(b.hash()), parents);
    lemma_waits_no_more(g2, b, c, sb, sc, now);
}

/// The entry that a put makes.
pub open spec fn put_entry(
    g: ActorModel,
    key: Seq<u8>,
    value: Seq<u8>,
    heads: Seq<HeadModel>,
    now_ms: u64,
) -> SignedEntryModel {
    sigchain::built_entry(
        manager::chain_of(g.manager, g.me()),
        g.secret,
        model::head_hashes(head::ranked(heads)),
        seq![OperationModel { op_type: Some(OpTypeModel::Put(PutOpModel { key, value })) }],
        now_ms,
    )
}

/// A value that was put is read back, and it is the only head: it takes the place
/// of all heads that were there.
pub proof fn law_put_is_read_back(
    g: ActorModel,
    key: Seq<u8>,
    value: Seq<u8>,
    heads: Seq<HeadModel>,
    now_ms: u64,
    now: u64,
)
    requires
        // The key does not have the value yet.
        state::heads_at(g.state.kv, key) == Ok::<Seq<HeadModel>, StateFault>(heads),
        !(head::winner(head::ranked(heads)) matches Some(w) && w.value == value),
        // The store is sound: state and chains agree, and the heads are of entries
        // that have been chained.
        model::in_step(g),
        forall|i: int|
            0 <= i < heads.len() ==> (#[trigger] heads[i]).wf() && g.manager.hashes.contains(
                heads[i].hash,
            ),
        manager::chain_of(g.manager, g.me()).author_id == g.me(),
        manager::chain_of(g.manager, g.me()).store_id.len() == 16,
        g.me().len() == 32,
        // The entry is new, signed and not too large, and nothing waits for it.
        ({
            let e = put_entry(g, key, value, heads, now_ms);
            &&& e.verified()
            &&& e.hash().len() == 32
            &&& !g.manager.hashes.contains(e.hash())
            &&& e.encoding().len() <= MAX_ENTRY_SIZE
            &&& manager::ready_after(g.manager.orphans.orphans, g.me(), e.hash()).len() == 0
            &&& manager::dag_ready_after(g.manager.orphans.dag, e.hash()).len() == 0
            &&& head::stored_heads(
                seq![
                    state::op_head(
                        OpTypeModel::Put(PutOpModel { key, value }),
                        e,
                    ),
                ],
            ).len() <= u64::MAX
        }),
    ensures
        ({
            let (after, fault) = model::put(g, key, value, now_ms, now);
            let e = put_entry(g, key, value, heads, now_ms);
            &&& fault is None
            &&& state::value_at(after.state.kv, key) == Ok::<Option<Seq<u8>>, StateFault>(
                Some(value),
            )
            &&& state::heads_at(after.state.kv, key) == Ok::<Seq<HeadModel>, StateFault>(
                seq![state::op_head(OpTypeModel::Put(PutOpModel { key, value }), e)],
            )
            &&& after.manager.hashes.contains(e.hash())
        }),
{
    let me = g.me();
    let e = put_entry(g, key, value, heads, now_ms);
    let start = ActorModel { manager: manager::knowing(g.manager, me), ..g };
    let op = OpTypeModel::Put(PutOpModel { key, value });
    let new = state::op_head(op, e);
    lemma_head_parents(heads, g.manager.hashes);
    assert(manager::chain_of(start.manager, me) == manager::chain_of(g.manager, me));
    assert(manager::verdict(start.manager, e) == Verdict::Valid);
    assert(model::agrees_on(g, me));
    assert(!head::has_hash(heads, new.hash)) by {
        if head::has_hash(heads, new.hash) {
            let i = choose|i: int| 0 <= i < heads.len() && (#[trigger] heads[i]).hash == new.hash;
            assert(g.manager.hashes.contains(heads[i].hash));
        }
    }
    lemma_put_applies(g.state, e, op, key, heads);
    let st = state::applied(g.state, e)->Ok_0;
    lemma_lone_commit(start, e, st, now);
    let after = model::committed(known(start, e), TaskModel { entry: e, dag: None, chain: None }, st);
    reveal_with_fuel(head::winner, 2);
    assert(seq![new].drop_last() =~= Seq::empty());
    assert(head::winner(seq![new]) == Some(new));
    assert(model::written(
        g,
        model::head_hashes(head::ranked(heads)),
        OperationModel { op_type: Some(op) },
        now_ms,
        now,
    ) == (after, None::<ActorFault>));
}

/// The entry that a deletion makes.
pub open spec fn delete_entry(
    g: ActorModel,
    key: Seq<u8>,
    heads: Seq<HeadModel>,
    now_ms: u64,
) -> SignedEntryModel {
    sigchain::built_entry(
        manager::chain_of(g.manager, g.me()),
        g.secret,
        model::head_hashes(head::ranked(heads)),
        seq![OperationModel { op_type: Some(OpTypeModel::Delete(DeleteOpModel { key })) }],
        now_ms,
    )
}

/// A key that was deleted has no value, and the deletion is its only head.
pub proof fn law_deleted_key_has_no_value(
    g: ActorModel,
    key: Seq<u8>,
    heads: Seq<HeadModel>,
    now_ms: u64,
    now: u64,
)
    requires
        // The key has a value.
        state::heads_at(g.state.kv, key) == Ok::<Seq<HeadModel>, StateFault>(heads),
        head::live_head(head::ranked(heads)) is Some,
        // The store is sound: state and chains agree, and the heads are of entries
        // that have been chained.
        model::in_step(g),
        forall|i: int|
            0 <= i < heads.len() ==> (#[trigger] heads[i]).wf() && g.manager.hashes.contains(
                heads[i].hash,
            ),
        manager::chain_of(g.manager, g.me()).author_id == g.me(),
        manager::chain_of(g.manager, g.me()).store_id.len() == 16,
        g.me().len() == 32,
        // The entry is new, signed and not too large, and nothing waits for it.
        ({
            let e = delete_entry(g, key, heads, now_ms);
            &&& e.verified()
            &&& e.hash().len() == 32
            &&& !g.manager.hashes.contains(e.hash())
            &&& e.encoding().len() <= MAX_ENTRY_SIZE
            &&& manager::ready_after(g.manager.orphans.orphans, g.me(), e.hash()).len() == 0
            &&& manager::dag_ready_after(g.manager.orphans.dag, e.hash()).len() == 0
            &&& head::stored_heads(
                seq![state::op_head(OpTypeModel::Delete(DeleteOpModel { key }), e)],
            ).len() <= u64::MAX
        }),
    ensures
        ({
            let (after, fault) = model::deleted(g, key, now_ms, now);
            let e = delete_entry(g, key, heads, now_ms);
            &&& fault is None
            &&& state::value_at(after.state.kv, key) == Ok::<Option<Seq<u8>>, StateFault>(None)
            &&& state::heads_at(after.state.kv, key) == Ok::<Seq<HeadModel>, StateFault>(
                seq![state::op_head(OpTypeModel::Delete(DeleteOpModel { key }), e)],
            )
            &&& after.manager.hashes.contains(e.hash())
        }),
{
    let me = g.me();
    let e = delete_entry(g, key, heads, now_ms);
    let start = ActorModel { manager: manager::knowing(g.manager, me), ..g };
    let op = OpTypeModel::Delete(DeleteOpModel { key });
    let new = state::op_head(op, e);
    lemma_head_parents(heads, g.manager.hashes);
    assert(manager::chain_of(start.manager, me) == manager::chain_of(g.manager, me));
    assert(manager::verdict(start.manager, e) == Verdict::Valid);
    assert(model::agrees_on(g, me));
    assert(!head::has_hash(heads, new.hash)) by {
        if head::has_hash(heads, new.hash) {
            let i = choose|i: int| 0 <= i < heads.len() && (#[trigger] heads[i]).hash == new.hash;
            assert(g.manager.hashes.contains(heads[i].hash));
        }
    }
    lemma_put_applies(g.state, e, op, key, heads);
    let st = state::applied(g.state, e)->Ok_0;
    lemma_lone_commit(start, e, st, now);
    let after = model::committed(known(start, e), TaskModel { entry: e, dag: None, chain: None }, st);
    reveal_with_fuel(head::winner, 2);
    assert(seq![new].drop_last() =~= Seq::empty());
    assert(head::winner(seq![new]) == Some(new));
    assert(model::written(
        g,
        model::head_hashes(head::ranked(heads)),
        OperationModel { op_type: Some(op) },
        now_ms,
        now,
    ) == (after, None::<ActorFault>));
}

/// The hashes of heads, as the parents of an entry, are all known where those of
/// the heads are.
proof fn lemma_head_parents(heads: Seq<HeadModel>, hashes: Set<Seq<u8>>)
    requires
        forall|i: int|
            0 <= i < heads.len() ==> (#[trigger] heads[i]).wf() && hashes.contains(heads[i].hash),
    ensures
        ({
            let parents = model::head_hashes(head::ranked(heads));
            &&& parents.filter(|h: Seq<u8>| h.len() == 32) == parents
            &&& model::unknown_parent(hashes, parents) is None
            &&& forall|i: int|
                0 <= i < heads.len() ==> parents.contains((#[trigger] heads[i]).hash)
        }),
{
    let ranked = head::ranked(heads);
    let parents = model::head_hashes(ranked);
    lemma_ranked_members(heads);
    assert forall|i: int| 0 <= i < parents.len() implies (#[trigger] parents[i]).len() == 32
        && hashes.contains(parents[i]) by {
        assert(ranked.contains(ranked[i]));
        assert(heads.contains(ranked[i]));
        let j = heads.index_of(ranked[i]);
        assert(heads[j] == ranked[i]);
    }
    lemma_all_kept(parents);
    model::lemma_all_known(hashes, parents);
    assert forall|i: int| 0 <= i < heads.len() implies parents.contains(
        (#[trigger] heads[i]).hash,
    ) by {
        assert(heads.contains(heads[i]));
        let j = ranked.index_of(heads[i]);
        assert(parents[j] == heads[i].hash);
    }
}

/// An entry with one operation that names all heads of its key as parents leaves
/// one head.
proof fn lemma_put_applies(
    st: StateModel,
    e: SignedEntryModel,
    op: OpTypeModel,
    key: Seq<u8>,
    heads: Seq<HeadModel>,
)
    requires
        state::heads_at(st.kv, key) == Ok::<Seq<HeadModel>, StateFault>(heads),
        forall|i: int| 0 <= i < heads.len() ==> (#[trigger] heads[i]).wf(),
        forall|i: int|
            0 <= i < heads.len() ==> e.entry.parent_hashes.contains((#[trigger] heads[i]).hash),
        !head::has_hash(heads, e.hash()),
        e.entry.ops == seq![OperationModel { op_type: Some(op) }],
        (OperationModel { op_type: Some(op) }).key() == Some(key),
        e.hash().len() == 32,
        e.author_id.len() == 32,
        e.entry.prev_hash == state::last_hash(st.tips, e.author_id),
        head::stored_heads(seq![state::op_head(op, e)]).len() <= u64::MAX,
    ensures
        state::applied(st, e) matches Ok(after) && state::heads_at(after.kv, key) == Ok::<
            Seq<HeadModel>,
            StateFault,
        >(seq![state::op_head(op, e)]),
{
    let new = state::op_head(op, e);
    let parents = e.entry.parent_hashes;
    head::law_merge_leaves_one_head(heads, new, parents);
    state::law_head_is_read_back(st.kv, key, new, parents);
    reveal_with_fuel(state::ops_put, 2);
    assert(e.entry.ops[0] == (OperationModel { op_type: Some(op) }));
    assert(state::ops_put(st.kv, e, 1) == state::head_put(st.kv, key, new, parents));
}

/// An entry that comes next, can be applied and sets nothing free is committed,
/// and that is all.
proof fn lemma_lone_commit(g: ActorModel, e: SignedEntryModel, st: StateModel, now: u64)
    requires
        manager::verdict(g.manager, e) == Verdict::Valid,
        model::unknown_parent(g.manager.hashes, e.entry.parent_hashes) is None,
        state::applied(g.state, e) == Ok::<StateModel, StateFault>(st),
        e.encoding().len() <= MAX_ENTRY_SIZE,
        manager::ready_after(g.manager.orphans.orphans, e.author_id, e.hash()).len() == 0,
        manager::dag_ready_after(g.manager.orphans.dag, e.hash()).len() == 0,
    ensures
        ({
            let t = TaskModel { entry: e, dag: None, chain: None };
            let after = model::committed(known(g, e), t, st);
            &&& model::taken(g, e, now) == (after, None::<ActorFault>)
            &&& after.state == st
            &&& after.manager == manager::committed(g.manager, e)
        }),
{
    let t = TaskModel { entry: e, dag: None, chain: None };
    let w = model::work_on(g, e);
    assert(w.tasks.last() == t);
    assert(w.tasks.drop_last() =~= Seq::empty());
    lemma_commit(w, now, st);
    lemma_committed_parts(g, t, st);
    assert(model::freed(known(g, e), t) =~= Seq::empty());
    assert(model::worked(w, now).tasks =~= Seq::empty());
    law_one_task(g, e, now);
}

/// A put of the value that a key has, and a deletion of a key that has none,
/// change nothing.
pub proof fn law_writing_again_changes_nothing(
    g: ActorModel,
    key: Seq<u8>,
    value: Seq<u8>,
    heads: Seq<HeadModel>,
    now_ms: u64,
    now: u64,
)
    requires
        state::heads_at(g.state.kv, key) == Ok::<Seq<HeadModel>, StateFault>(heads),
    ensures
        head::winner(head::ranked(heads)) matches Some(w) && w.value == value ==> model::put(
            g,
            key,
            value,
            now_ms,
            now,
        ) == (g, None::<ActorFault>),
        !(head::winner(head::ranked(heads)) matches Some(w) && !w.tombstone) ==> model::deleted(
            g,
            key,
            now_ms,
            now,
        ) == (g, None::<ActorFault>),
{
}

proof fn lemma_ranked_members(heads: Seq<HeadModel>)
    ensures
        forall|h: HeadModel| #[trigger] heads.contains(h) <==> head::ranked(heads).contains(h),
{
    broadcast use vstd::seq_lib::group_to_multiset_ensures;

    sorting::law_sorted::<Head>(heads);
    let r = head::ranked(heads);
    assert forall|h: HeadModel| #[trigger] heads.contains(h) <==> r.contains(h) by {
        assert(heads.contains(h) <==> heads.to_multiset().count(h) > 0);
        assert(r.contains(h) <==> r.to_multiset().count(h) > 0);
    }
}

proof fn lemma_all_kept(parents: Seq<Seq<u8>>)
    requires
        forall|i: int| 0 <= i < parents.len() ==> (#[trigger] parents[i]).len() == 32,
    ensures
        parents.filter(|h: Seq<u8>| h.len() == 32) == parents,
    decreases parents.len(),
{
    reveal(Seq::filter);
    if parents.len() > 0 {
        let before = parents.drop_last();
        assert forall|i: int| 0 <= i < before.len() implies (#[trigger] before[i]).len() == 32 by {
            assert(before[i] == parents[i]);
        }
        lemma_all_kept(before);
        assert(parents[parents.len() - 1].len() == 32);
        assert(before.push(parents.last()) =~= parents);
    } else {
        assert(parents.filter(|h: Seq<u8>| h.len() == 32) =~= parents);
    }
}

/// Whether the node, what peers said and the watchers are the same.
pub open spec fn undisturbed(g: ActorModel, h: ActorModel) -> bool {
    &&& g.secret == h.secret
    &&& g.peers == h.peers
    &&& g.watchers == h.watchers
    &&& g.next_watcher_id == h.next_watcher_id
}

proof fn lemma_work_undisturbed(w: WorkModel, now: u64, n: nat)
    ensures
        undisturbed(w.actor, model::worked_on(w, now, n).actor),
    decreases n,
{
    if n > 0 {
        lemma_work_undisturbed(w, now, (n - 1) as nat);
        reveal(model::worked);
    }
}

/// Entries from outside change neither the node nor what peers said nor the
/// watchers.
pub proof fn law_entries_leave_the_rest_alone(g: ActorModel, e: SignedEntryModel, now: u64)
    ensures
        undisturbed(g, model::ingested(g, e, now).0),
{
    let w = model::work_on(g, e);
    lemma_work_undisturbed(
        w,
        now,
        choose|n: nat| model::finished(model::worked_on(w, now, n)),
    );
}

/// Writes change neither the node nor what peers said nor the watchers.
pub proof fn law_writes_leave_the_rest_alone(
    g: ActorModel,
    writes: Seq<(Seq<u8>, Seq<u8>)>,
    now_ms: u64,
    now: u64,
)
    ensures
        undisturbed(g, model::puts(g, writes, now_ms, now).0),
    decreases writes.len(),
{
    if writes.len() > 0 {
        let rest = writes.drop_last();
        law_writes_leave_the_rest_alone(g, rest, now_ms, now);
        let (h, fault) = model::puts(g, rest, now_ms, now);
        if fault is None {
            let (key, value) = writes.last();
            if let Ok(heads) = state::heads_at(h.state.kv, key) {
                law_entries_leave_the_rest_alone(
                    ActorModel { manager: manager::knowing(h.manager, h.me()), ..h },
                    put_entry(h, key, value, heads, now_ms),
                    now,
                );
            }
        }
    }
}

/// Once a value has been put, the key has a single head: with the value, the time at which
/// it was put, and the node as its author. The node's chain is one entry longer and ends in
/// it, and the entry names every head that the key had as a parent.
pub proof fn law_put_makes_a_head_of_its_time(
    g: ActorModel,
    key: Seq<u8>,
    value: Seq<u8>,
    heads: Seq<HeadModel>,
    now_ms: u64,
    now: u64,
)
    requires
        state::heads_at(g.state.kv, key) == Ok::<Seq<HeadModel>, StateFault>(heads),
        !(head::winner(head::ranked(heads)) matches Some(w) && w.value == value),
        model::in_step(g),
        forall|i: int|
            0 <= i < heads.len() ==> (#[trigger] heads[i]).wf() && g.manager.hashes.contains(
                heads[i].hash,
            ),
        manager::chain_of(g.manager, g.me()).author_id == g.me(),
        manager::chain_of(g.manager, g.me()).store_id.len() == 16,
        g.me().len() == 32,
        ({
            let e = put_entry(g, key, value, heads, now_ms);
            &&& e.verified()
            &&& e.hash().len() == 32
            &&& !g.manager.hashes.contains(e.hash())
            &&& e.encoding().len() <= MAX_ENTRY_SIZE
            &&& manager::ready_after(g.manager.orphans.orphans, g.me(), e.hash()).len() == 0
            &&& manager::dag_ready_after(g.manager.orphans.dag, e.hash()).len() == 0
            &&& head::stored_heads(
                seq![state::op_head(OpTypeModel::Put(PutOpModel { key, value }), e)],
            ).len() <= u64::MAX
        }),
    ensures
        ({
            let (after, fault) = model::put(g, key, value, now_ms, now);
            let e = put_entry(g, key, value, heads, now_ms);
            let chain = manager::chain_of(after.manager, g.me());
            &&& fault is None
            &&& state::heads_at(after.state.kv, key) matches Ok(hs) && hs.len() == 1
                && hs[0].value == value && hs[0].hlc.wall_time == now_ms && hs[0].hlc.counter == 0
                && hs[0].author == g.me() && hs[0].hash == e.hash() && !hs[0].tombstone
            &&& chain.next_seq as int == (manager::chain_of(g.manager, g.me()).next_seq + 1) as u64
            &&& chain.last_hash == e.hash()
            &&& chain.log == manager::chain_of(g.manager, g.me()).log
                + crate::store::log::record_bytes(e)
            &&& e.entry.seq == manager::chain_of(g.manager, g.me()).next_seq
            &&& forall|i: int|
                0 <= i < heads.len() ==> e.entry.parent_hashes.contains((#[trigger] heads[i]).hash)
        }),
{
    law_put_is_read_back(g, key, value, heads, now_ms, now);
    lemma_head_parents(heads, g.manager.hashes);
    let me = g.me();
    let e = put_entry(g, key, value, heads, now_ms);
    let op = OpTypeModel::Put(PutOpModel { key, value });
    let start = ActorModel { manager: manager::knowing(g.manager, me), ..g };
    assert(manager::chain_of(start.manager, me) == manager::chain_of(g.manager, me));
    assert(manager::verdict(start.manager, e) == Verdict::Valid);
    assert(model::agrees_on(g, me));
    assert(!head::has_hash(heads, e.hash())) by {
        if head::has_hash(heads, e.hash()) {
            let i = choose|i: int| 0 <= i < heads.len() && (#[trigger] heads[i]).hash == e.hash();
            assert(g.manager.hashes.contains(heads[i].hash));
        }
    }
    lemma_put_applies(g.state, e, op, key, heads);
    let st = state::applied(g.state, e)->Ok_0;
    lemma_lone_commit(start, e, st, now);
}

/// Once a key has been deleted, it has a single head, which marks the deletion, with the
/// time at which it was deleted and the node as its author; the entry names every head that
/// the key had as a parent.
pub proof fn law_deletion_makes_a_head_of_its_time(
    g: ActorModel,
    key: Seq<u8>,
    heads: Seq<HeadModel>,
    now_ms: u64,
    now: u64,
)
    requires
        state::heads_at(g.state.kv, key) == Ok::<Seq<HeadModel>, StateFault>(heads),
        head::live_head(head::ranked(heads)) is Some,
        model::in_step(g),
        forall|i: int|
            0 <= i < heads.len() ==> (#[trigger] heads[i]).wf() && g.manager.hashes.contains(
                heads[i].hash,
            ),
        manager::chain_of(g.manager, g.me()).author_id == g.me(),
        manager::chain_of(g.manager, g.me()).store_id.len() == 16,
        g.me().len() == 32,
        ({
            let e = delete_entry(g, key, heads, now_ms);
            &&& e.verified()
            &&& e.hash().len() == 32
            &&& !g.manager.hashes.contains(e.hash())
            &&& e.encoding().len() <= MAX_ENTRY_SIZE
            &&& manager::ready_after(g.manager.orphans.orphans, g.me(), e.hash()).len() == 0
            &&& manager::dag_ready_after(g.manager.orphans.dag, e.hash()).len() == 0
            &&& head::stored_heads(
                seq![state::op_head(OpTypeModel::Delete(DeleteOpModel { key }), e)],
            ).len() <= u64::MAX
        }),
    ensures
        ({
            let (after, fault) = model::deleted(g, key, now_ms, now);
            let e = delete_entry(g, key, heads, now_ms);
            &&& fault is None
            &&& state::heads_at(after.state.kv, key) matches Ok(hs) && hs.len() == 1
                && hs[0].tombstone && hs[0].value.len() == 0 && hs[0].hlc.wall_time == now_ms
                && hs[0].hlc.counter == 0 && hs[0].author == g.me() && hs[0].hash == e.hash()
            &&& forall|i: int|
                0 <= i < heads.len() ==> e.entry.parent_hashes.contains((#[trigger] heads[i]).hash)
        }),
{
    law_deleted_key_has_no_value(g, key, heads, now_ms, now);
    lemma_head_parents(heads, g.manager.hashes);
}

/// An entry that is committed sets everything free that waited for it: every entry that is
/// filed under its author and its hash, and every one that is filed under its hash as a
/// parent, has to be dealt with next. What had to be dealt with before stays.
pub proof fn law_all_that_waited_is_dealt_with(
    w: WorkModel,
    now: u64,
    st: StateModel,
    ready: ReadyModel,
    key: Seq<u8>,
    child: SignedEntryModel,
    hash: Seq<u8>,
)
    requires
        w.tasks.len() > 0,
        ({
            let e = w.tasks.last().entry;
            &&& manager::verdict(w.actor.manager, e) == Verdict::Valid
            &&& model::unknown_parent(w.actor.manager.hashes, e.entry.parent_hashes) is None
            &&& state::applied(w.actor.state, e) == Ok::<StateModel, StateFault>(st)
            &&& e.encoding().len() <= MAX_ENTRY_SIZE
        }),
    ensures
        ({
            let t = w.tasks.last();
            let v = model::worked(w, now);
            &&& v.failed is None
            &&& v.actor.state == st
            &&& v.actor.manager.hashes == w.actor.manager.hashes.insert(t.entry.hash())
            &&& w.tasks.drop_last().is_prefix_of(v.tasks)
            &&& manager::ready_after(
                w.actor.manager.orphans.orphans,
                t.entry.author_id,
                t.entry.hash(),
            ).contains(ready) ==> v.tasks.contains(
                TaskModel {
                    entry: ready.entry,
                    dag: None,
                    chain: Some((ready.author, ready.prev_hash, ready.entry_hash)),
                },
            )
            &&& manager::dag_ready_after(
                v.actor.manager.orphans.dag,
                t.entry.hash(),
            ).contains((key, child, hash)) ==> v.tasks.contains(
                TaskModel {
                    entry: child,
                    dag: Some((key, t.entry.hash(), hash)),
                    chain: None,
                },
            )
            &&& v.tasks.len() == w.tasks.len() - 1 + manager::ready_after(
                w.actor.manager.orphans.orphans,
                t.entry.author_id,
                t.entry.hash(),
            ).len() + manager::dag_ready_after(
                v.actor.manager.orphans.dag,
                t.entry.hash(),
            ).len()
        }),
{
    let t = w.tasks.last();
    let e = t.entry;
    let g = known(w.actor, e);
    lemma_commit(w, now, st);
    lemma_committed_parts(w.actor, t, st);
    let v = model::worked(w, now);
    let m = model::chain_done(model::dag_done(manager::committed(g.manager, e), t), t);
    assert(v.actor.manager == m);
    let rs = manager::ready_after(g.manager.orphans.orphans, e.author_id, e.hash());
    let ds = manager::dag_ready_after(m.orphans.dag, e.hash());
    let rest = w.tasks.drop_last();
    let a = model::ready_tasks(rs);
    let b = model::dag_tasks(ds, e.hash());
    assert(v.tasks == rest + (a + b));
    if rs.contains(ready) {
        let i = rs.index_of(ready);
        assert(v.tasks[rest.len() + i] == a[i]);
    }
    if ds.contains((key, child, hash)) {
        let i = ds.index_of((key, child, hash));
        assert(v.tasks[rest.len() + a.len() + i] == b[i]);
    }
    assert(rest =~= v.tasks.subrange(0, rest.len() as int));
}

/// An entry whose signature its author's key does not accept changes nothing and is refused.
pub proof fn law_unsigned_entry_is_refused(g: ActorModel, e: SignedEntryModel, now: u64)
    requires
        !crypto::ed25519_accepts(e.author_id, e.entry.signed_bytes(), e.signature),
    ensures
        model::ingested(g, e, now).0 == g,
        model::ingested(g, e, now).1 matches Some(ActorFault::State(StateFault::Unauthorized(_))),
{
}

/// Writes one after the other are the same in one batch and in two, as long as none fails;
/// where one does, the rest is not written. A batch of one is a put.
pub proof fn law_writes_in_parts(
    g: ActorModel,
    a: Seq<(Seq<u8>, Seq<u8>)>,
    b: Seq<(Seq<u8>, Seq<u8>)>,
    key: Seq<u8>,
    value: Seq<u8>,
    now_ms: u64,
    now: u64,
)
    ensures
        model::puts(g, Seq::empty(), now_ms, now) == (g, None::<ActorFault>),
        model::puts(g, seq![(key, value)], now_ms, now) == model::put(g, key, value, now_ms, now),
        ({
            let (h, fault) = model::puts(g, a, now_ms, now);
            &&& fault is Some ==> model::puts(g, a + b, now_ms, now) == (h, fault)
            &&& fault is None ==> model::puts(g, a + b, now_ms, now) == model::puts(
                h,
                b,
                now_ms,
                now,
            )
        }),
    decreases b.len(),
{
    reveal_with_fuel(model::puts, 2);
    let one = seq![(key, value)];
    assert(one.drop_last() =~= Seq::empty());
    assert(one.last() == (key, value));
    if b.len() == 0 {
        assert(a + b =~= a);
    } else {
        law_writes_in_parts(g, a, b.drop_last(), key, value, now_ms, now);
        assert((a + b).drop_last() =~= a + b.drop_last());
        assert((a + b).last() == b.last());
    }
}

/// An entry that can never be chained, but was not the first to be dealt with, is passed over:
/// the work goes on with the rest, and no key changes.
pub proof fn law_later_refusal_is_passed_over(w: WorkModel, now: u64)
    requires
        w.tasks.len() > 0,
        !w.first,
        manager::verdict(w.actor.manager, w.tasks.last().entry) is Error,
    ensures
        ({
            let v = model::worked(w, now);
            &&& v.failed is None
            &&& v.tasks == w.tasks.drop_last()
            &&& v.actor.state == w.actor.state
            &&& v.actor.manager.hashes == w.actor.manager.hashes
            &&& v.actor.manager.orphans == w.actor.manager.orphans
            &&& v.actor.events == w.actor.events
        }),
{
    reveal(model::worked);
}

} // verus!
