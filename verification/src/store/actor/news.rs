//! What the store's actor tells its listeners.
use crate::entry::SignedEntryModel;
use crate::head;
use crate::head::HeadModel;
use crate::proto::storage::{OpTypeModel, OperationModel};
use crate::store::actor::laws;
use crate::store::actor::model;
use crate::store::actor::model::{ActorModel, EventModel, TaskModel, WorkModel};
use crate::store::error::StateFault;
use crate::store::sigchain::manager;
use crate::store::sigchain::manager::Verdict;
use crate::store::state;
use crate::store::state::StateModel;
use crate::store::watch::{FilterModel, KindModel, WatchModel};
use crate::MAX_ENTRY_SIZE;
use vstd::prelude::*;

verus! {

/// Whether `rs` are the heads, all of them and as often as they occur, from the latest
/// down to the earliest.
pub open spec fn latest_first(rs: Seq<HeadModel>, heads: Seq<HeadModel>) -> bool {
    &&& rs.to_multiset() == heads.to_multiset()
    &&& forall|i: int, j: int|
        0 <= i < j < rs.len() ==> (#[trigger] rs[i]).hlc.wall_time > (
        #[trigger] rs[j]).hlc.wall_time || (rs[i].hlc.wall_time == rs[j].hlc.wall_time
            && rs[i].hlc.counter >= rs[j].hlc.counter)
}

/// Whether the event tells the watcher that the key was written and has these heads.
pub open spec fn tells_of_update(
    event: EventModel,
    watcher: u64,
    key: Seq<u8>,
    heads: Seq<HeadModel>,
) -> bool {
    event matches EventModel::Watch(id, news) && id == watcher && news.key == key && (
    news.kind matches KindModel::Update(rs) && latest_first(rs, heads))
}

proof fn lemma_ranked_latest_first(heads: Seq<HeadModel>)
    ensures
        latest_first(head::ranked(heads), heads),
{
    head::law_ranked_goes_back_in_time(heads);
    let r = head::ranked(heads);
    assert forall|i: int, j: int| 0 <= i < j < r.len() implies (#[trigger] r[i]).hlc.wall_time > (
    #[trigger] r[j]).hlc.wall_time || (r[i].hlc.wall_time == r[j].hlc.wall_time
        && r[i].hlc.counter >= r[j].hlc.counter) by {
        assert(r[i].hlc.wall_time >= r[j].hlc.wall_time);
    }
}

/// Every watcher whose filter lets the key through is told of it, and nobody else.
pub proof fn law_watchers_of_the_key_are_told(
    watchers: Seq<(u64, FilterModel)>,
    key: Seq<u8>,
    kind: KindModel,
)
    ensures
        ({
            let news = model::watch_news(watchers, key, kind);
            &&& forall|j: int|
                0 <= j < watchers.len() && (#[trigger] watchers[j]).1.lets(key) ==> news.contains(
                    EventModel::Watch(watchers[j].0, WatchModel { key, kind }),
                )
            &&& forall|k: int|
                0 <= k < news.len() ==> exists|j: int|
                    0 <= j < watchers.len() && (#[trigger] watchers[j]).1.lets(key)
                        && #[trigger] news[k] == EventModel::Watch(
                        watchers[j].0,
                        WatchModel { key, kind },
                    )
        }),
    decreases watchers.len(),
{
    if watchers.len() > 0 {
        let before = watchers.drop_last();
        law_watchers_of_the_key_are_told(before, key, kind);
        let q = model::watch_news(before, key, kind);
        let news = model::watch_news(watchers, key, kind);
        assert forall|j: int|
            0 <= j < watchers.len() && (#[trigger] watchers[j]).1.lets(
                key,
            ) implies news.contains(
            EventModel::Watch(watchers[j].0, WatchModel { key, kind }),
        ) by {
            let x = EventModel::Watch(watchers[j].0, WatchModel { key, kind });
            if j < before.len() {
                assert(before[j] == watchers[j]);
                let k = q.index_of(x);
                assert(news[k] == x);
            } else {
                assert(news[news.len() - 1] == x);
            }
        }
        assert forall|k: int| 0 <= k < news.len() implies exists|j: int|
            0 <= j < watchers.len() && (#[trigger] watchers[j]).1.lets(key) && #[trigger] news[k]
                == EventModel::Watch(watchers[j].0, WatchModel { key, kind }) by {
            if k < q.len() {
                assert(news[k] == q[k]);
                let j = choose|j: int|
                    0 <= j < before.len() && (#[trigger] before[j]).1.lets(key) && q[k]
                        == EventModel::Watch(before[j].0, WatchModel { key, kind });
                assert(watchers[j] == before[j]);
            } else {
                assert(watchers[watchers.len() - 1].1.lets(key));
            }
        }
    }
}

/// What is told of one of the operations is told of all of them together.
proof fn lemma_op_is_told(
    watchers: Seq<(u64, FilterModel)>,
    kv: Map<Seq<u8>, Seq<u8>>,
    ops: Seq<OperationModel>,
    i: int,
    x: EventModel,
)
    requires
        0 <= i < ops.len(),
        model::op_news(watchers, kv, ops[i]).contains(x),
    ensures
        model::ops_news(watchers, kv, ops).contains(x),
    decreases ops.len(),
{
    let before = model::ops_news(watchers, kv, ops.drop_last());
    let last = model::op_news(watchers, kv, ops.last());
    if i == ops.len() - 1 {
        let k = last.index_of(x);
        assert((before + last)[before.len() + k] == x);
    } else {
        assert(ops.drop_last()[i] == ops[i]);
        lemma_op_is_told(watchers, kv, ops.drop_last(), i, x);
        let k = before.index_of(x);
        assert((before + last)[k] == x);
    }
}

/// What is told of operations is told of one of them.
proof fn lemma_told_of_an_op(
    watchers: Seq<(u64, FilterModel)>,
    kv: Map<Seq<u8>, Seq<u8>>,
    ops: Seq<OperationModel>,
    k: int,
) -> (i: int)
    requires
        0 <= k < model::ops_news(watchers, kv, ops).len(),
    ensures
        0 <= i < ops.len(),
        model::op_news(watchers, kv, ops[i]).contains(model::ops_news(watchers, kv, ops)[k]),
    decreases ops.len(),
{
    let before = model::ops_news(watchers, kv, ops.drop_last());
    let last = model::op_news(watchers, kv, ops.last());
    let x = model::ops_news(watchers, kv, ops)[k];
    if k < before.len() {
        assert(before[k] == x);
        let i = lemma_told_of_an_op(watchers, kv, ops.drop_last(), k);
        assert(ops.drop_last()[i] == ops[i]);
        i
    } else {
        assert(last[k - before.len()] == x);
        ops.len() - 1
    }
}

/// The parts of what an entry adds to the events.
proof fn lemma_told_parts(g: ActorModel, t: TaskModel, st: StateModel)
    ensures
        ({
            let after = model::committed(g, t, st);
            let ops = model::ops_news(g.watchers, st.kv, t.entry.entry.ops);
            &&& after.state == st
            &&& after.watchers == g.watchers
            &&& after.events.len() >= g.events.len() + ops.len() + 1
            &&& after.events.take(g.events.len() as int) == g.events
            &&& after.events.subrange(
                g.events.len() as int,
                (g.events.len() + ops.len()) as int,
            ) == ops
            &&& after.events[(g.events.len() + ops.len()) as int] == EventModel::Entry(t.entry)
            &&& forall|k: int|
                g.events.len() + ops.len() < k < after.events.len()
                    ==> (#[trigger] after.events[k]) is SyncNeeded
        }),
{
    let m = model::chain_done(
        model::dag_done(manager::committed(g.manager, t.entry), t),
        t,
    );
    let start = ActorModel { state: st, manager: m, ..g };
    let ops = model::ops_news(g.watchers, st.kv, t.entry.entry.ops);
    let a = model::telling(start, ops);
    let b = model::telling(a, seq![EventModel::Entry(t.entry)]);
    let news = model::sync_news(b);
    let after = model::committed(g, t, st);
    assert(after.events == g.events + ops + seq![EventModel::Entry(t.entry)] + news);
    assert(after.events.take(g.events.len() as int) =~= g.events);
    assert(after.events.subrange(g.events.len() as int, (g.events.len() + ops.len()) as int)
        =~= ops);
    lemma_peers_news_kind(
        manager::sync_of(b.manager.chains),
        crate::store::peer_sync_store::peer_infos(
            b.peers,
            crate::table::sorted_keys(b.peers.dom()),
        ),
    );
    let n = (g.events.len() + ops.len() + 1) as int;
    assert forall|k: int| n <= k < after.events.len() implies (
    #[trigger] after.events[k]) is SyncNeeded by {
        assert(after.events[k] == news[k - n]);
    }
}

proof fn lemma_peers_news_kind(
    mine: Map<Seq<u8>, crate::store::sync_state::AuthorInfo>,
    peers: Seq<(Seq<u8>, crate::proto::storage::PeerSyncInfoModel)>,
)
    ensures
        forall|k: int|
            0 <= k < model::peers_news(mine, peers).len() ==> (#[trigger] model::peers_news(
                mine,
                peers,
            )[k]) is SyncNeeded,
    decreases peers.len(),
{
    if peers.len() > 0 {
        lemma_peers_news_kind(mine, peers.drop_last());
    }
}

/// Once an entry with a put has been committed, there is an update to tell to every
/// watcher whose filter lets the key through, with all heads that the key has then, how
/// many there may be, from the latest down.
pub proof fn law_watchers_hear_of_every_put(
    g: ActorModel,
    t: TaskModel,
    st: StateModel,
    i: int,
    j: int,
    heads: Seq<HeadModel>,
)
    requires
        0 <= i < t.entry.entry.ops.len(),
        0 <= j < g.watchers.len(),
        ({
            let key = t.entry.entry.ops[i].op_type->0->Put_0.key;
            &&& t.entry.entry.ops[i].op_type matches Some(OpTypeModel::Put(_))
            &&& g.watchers[j].1.lets(key)
            &&& state::heads_at(st.kv, key) == Ok::<Seq<HeadModel>, StateFault>(heads)
        }),
    ensures
        exists|k: int|
            g.events.len() <= k < model::committed(g, t, st).events.len() && tells_of_update(
                #[trigger] model::committed(g, t, st).events[k],
                g.watchers[j].0,
                t.entry.entry.ops[i].op_type->0->Put_0.key,
                heads,
            ),
{
    let ops = t.entry.entry.ops;
    let key = ops[i].op_type->0->Put_0.key;
    let kind = KindModel::Update(head::ranked(heads));
    let x = EventModel::Watch(g.watchers[j].0, WatchModel { key, kind });
    lemma_ranked_latest_first(heads);
    law_watchers_of_the_key_are_told(g.watchers, key, kind);
    lemma_op_is_told(g.watchers, st.kv, ops, i, x);
    lemma_told_parts(g, t, st);
    let news = model::ops_news(g.watchers, st.kv, ops);
    let n = news.index_of(x);
    let after = model::committed(g, t, st).events;
    assert(after.subrange(g.events.len() as int, (g.events.len() + news.len()) as int)[n] == x);
    assert(after[g.events.len() + n] == x);
    assert(tells_of_update(after[g.events.len() + n], g.watchers[j].0, key, heads));
}

/// Once an entry with a deletion has been committed, there is one to tell to every
/// watcher whose filter lets the key through.
pub proof fn law_watchers_hear_of_every_deletion(
    g: ActorModel,
    t: TaskModel,
    st: StateModel,
    i: int,
    j: int,
)
    requires
        0 <= i < t.entry.entry.ops.len(),
        0 <= j < g.watchers.len(),
        t.entry.entry.ops[i].op_type matches Some(OpTypeModel::Delete(_)),
        g.watchers[j].1.lets(t.entry.entry.ops[i].op_type->0->Delete_0.key),
    ensures
        exists|k: int|
            g.events.len() <= k < model::committed(g, t, st).events.len()
                && #[trigger] model::committed(g, t, st).events[k] == EventModel::Watch(
                g.watchers[j].0,
                WatchModel {
                    key: t.entry.entry.ops[i].op_type->0->Delete_0.key,
                    kind: KindModel::Delete,
                },
            ),
{
    let ops = t.entry.entry.ops;
    let key = ops[i].op_type->0->Delete_0.key;
    let x = EventModel::Watch(g.watchers[j].0, WatchModel { key, kind: KindModel::Delete });
    law_watchers_of_the_key_are_told(g.watchers, key, KindModel::Delete);
    lemma_op_is_told(g.watchers, st.kv, ops, i, x);
    lemma_told_parts(g, t, st);
    let news = model::ops_news(g.watchers, st.kv, ops);
    let n = news.index_of(x);
    let after = model::committed(g, t, st).events;
    assert(after.subrange(g.events.len() as int, (g.events.len() + news.len()) as int)[n] == x);
    assert(after[g.events.len() + n] == x);
}

/// Committing an entry takes back nothing that was to be told, tells the entry itself,
/// and tells a watcher only of keys that the entry writes and the watcher's filter lets
/// through.
pub proof fn law_only_what_happened_is_told(g: ActorModel, t: TaskModel, st: StateModel)
    ensures
        ({
            let after = model::committed(g, t, st).events;
            &&& g.events.is_prefix_of(after)
            &&& exists|k: int|
                g.events.len() <= k < after.len() && #[trigger] after[k] == EventModel::Entry(
                    t.entry,
                )
            &&& forall|k: int|
                g.events.len() <= k < after.len() ==> (#[trigger] after[k] matches EventModel::Watch(
                    id,
                    news,
                ) ==> exists|i: int, j: int|
                    0 <= i < t.entry.entry.ops.len() && 0 <= j < g.watchers.len()
                        && #[trigger] t.entry.entry.ops[i].key() == Some(news.key) && (
                    #[trigger] g.watchers[j]).0 == id && g.watchers[j].1.lets(news.key))
        }),
{
    lemma_told_parts(g, t, st);
    let ops = t.entry.entry.ops;
    let news_all = model::ops_news(g.watchers, st.kv, ops);
    let after = model::committed(g, t, st).events;
    let n = g.events.len() as int;
    assert(after[n + news_all.len()] == EventModel::Entry(t.entry));
    assert forall|k: int| n <= k < after.len() && #[trigger] after[k] is Watch implies exists|
        i: int,
        j: int,
    |
        0 <= i < ops.len() && 0 <= j < g.watchers.len() && #[trigger] ops[i].key() == Some(
            after[k]->Watch_1.key,
        ) && (#[trigger] g.watchers[j]).0 == after[k]->Watch_0 && g.watchers[j].1.lets(
            after[k]->Watch_1.key,
        ) by {
        let id = after[k]->Watch_0;
        let news = after[k]->Watch_1;
        assert(k < n + news_all.len());
        assert(after.subrange(n, n + news_all.len())[k - n] == news_all[k - n]);
        let i = lemma_told_of_an_op(g.watchers, st.kv, ops, k - n);
        let part = model::op_news(g.watchers, st.kv, ops[i]);
        let m = part.index_of(after[k]);
        let op = ops[i];
        assert(part.len() > 0);
        let key = op.key()->0;
        match op.op_type {
            Some(OpTypeModel::Put(p)) => {
                let heads = state::heads_at(st.kv, p.key)->Ok_0;
                law_watchers_of_the_key_are_told(
                    g.watchers,
                    p.key,
                    KindModel::Update(head::ranked(heads)),
                );
            },
            Some(OpTypeModel::Delete(d)) => {
                law_watchers_of_the_key_are_told(g.watchers, d.key, KindModel::Delete);
            },
            None => {},
        }
        let j = choose|j: int|
            0 <= j < g.watchers.len() && (#[trigger] g.watchers[j]).1.lets(key) && g.watchers[j].0
                == id;
        assert(ops[i].key() == Some(news.key));
        assert(g.watchers[j].0 == id);
    }
}

/// Work takes back nothing that was to be told.
proof fn lemma_work_tells_more(w: WorkModel, now: u64, n: nat)
    ensures
        w.actor.events.is_prefix_of(model::worked_on(w, now, n).actor.events),
    decreases n,
{
    if n > 0 {
        lemma_work_tells_more(w, now, (n - 1) as nat);
        let v = model::worked_on(w, now, (n - 1) as nat);
        if !model::finished(v) {
            lemma_task_tells_more(v, now);
        }
    }
}

proof fn lemma_task_tells_more(w: WorkModel, now: u64)
    ensures
        w.actor.events.is_prefix_of(model::worked(w, now).actor.events),
{
    reveal(model::worked);
    let t = w.tasks.last();
    let g = laws::known(w.actor, t.entry);
    let st = state::applied(g.state, t.entry);
    if let Ok(s) = st {
        lemma_told_parts(g, t, s);
    }
}

/// The work after the first task, and then at most `n` more.
proof fn lemma_first_task(w: WorkModel, now: u64, n: nat)
    requires
        !model::finished(w),
    ensures
        model::worked(w, now).actor.events.is_prefix_of(
            model::worked_on(w, now, n + 1).actor.events,
        ),
    decreases n,
{
    if n == 0 {
        reveal_with_fuel(model::worked_on, 2);
        assert(model::worked_on(w, now, 1) == model::worked(w, now));
    } else {
        lemma_first_task(w, now, (n - 1) as nat);
        let v = model::worked_on(w, now, n);
        if !model::finished(v) {
            lemma_task_tells_more(v, now);
        }
        assert(model::worked_on(w, now, n + 1) == if model::finished(v) {
            v
        } else {
            model::worked(v, now)
        });
    }
}

/// An entry from outside with a put, which comes next in its chain and can be applied,
/// is told to every watcher whose filter lets the key through: as an update with all
/// heads that the key has once the entry is applied, from the latest down. Nothing that
/// was to be told before is taken back.
pub proof fn law_ingested_put_is_told(
    g: ActorModel,
    e: SignedEntryModel,
    now: u64,
    n: nat,
    st: StateModel,
    i: int,
    j: int,
    heads: Seq<HeadModel>,
)
    requires
        e.verified(),
        manager::verdict(g.manager, e) == Verdict::Valid,
        model::unknown_parent(g.manager.hashes, e.entry.parent_hashes) is None,
        state::applied(g.state, e) == Ok::<StateModel, StateFault>(st),
        e.encoding().len() <= MAX_ENTRY_SIZE,
        // The work that the entry brings comes to an end.
        model::finished(model::worked_on(model::work_on(g, e), now, n)),
        0 <= i < e.entry.ops.len(),
        0 <= j < g.watchers.len(),
        e.entry.ops[i].op_type matches Some(OpTypeModel::Put(_)),
        g.watchers[j].1.lets(e.entry.ops[i].op_type->0->Put_0.key),
        state::heads_at(st.kv, e.entry.ops[i].op_type->0->Put_0.key) == Ok::<
            Seq<HeadModel>,
            StateFault,
        >(heads),
    ensures
        g.events.is_prefix_of(model::ingested(g, e, now).0.events),
        exists|k: int|
            g.events.len() <= k < model::ingested(g, e, now).0.events.len() && tells_of_update(
                #[trigger] model::ingested(g, e, now).0.events[k],
                g.watchers[j].0,
                e.entry.ops[i].op_type->0->Put_0.key,
                heads,
            ),
        exists|k: int|
            g.events.len() <= k < model::ingested(g, e, now).0.events.len()
                && #[trigger] model::ingested(g, e, now).0.events[k] == EventModel::Entry(e),
{
    let w = model::work_on(g, e);
    let t = TaskModel { entry: e, dag: None, chain: None };
    let known = laws::known(g, e);
    assert(w.tasks.last() == t);
    model::lemma_settled(w, now, n);
    assert(model::worked(w, now).actor == model::committed(known, t, st)) by {
        reveal(model::worked);
    }
    assert(n > 0);
    lemma_first_task(w, now, (n - 1) as nat);
    law_watchers_hear_of_every_put(known, t, st, i, j, heads);
    law_only_what_happened_is_told(known, t, st);
    let key = e.entry.ops[i].op_type->0->Put_0.key;
    let first = model::committed(known, t, st).events;
    let all = model::ingested(g, e, now).0.events;
    let k = choose|k: int|
        g.events.len() <= k < first.len() && tells_of_update(
            #[trigger] first[k],
            g.watchers[j].0,
            key,
            heads,
        );
    assert(all[k] == first[k]);
    let m = choose|m: int|
        g.events.len() <= m < first.len() && #[trigger] first[m] == EventModel::Entry(e);
    assert(all[m] == first[m]);
}

/// Once a key has been put, there is an update to tell to every watcher whose filter lets
/// the key through, with all heads that the key has then, from the latest down.
pub proof fn law_own_put_is_told(
    g: ActorModel,
    key: Seq<u8>,
    value: Seq<u8>,
    now_ms: u64,
    now: u64,
    j: int,
    heads: Seq<HeadModel>,
)
    requires
        model::put(g, key, value, now_ms, now).1 is None,
        // The key did not have the value before.
        !(state::heads_at(g.state.kv, key) matches Ok(old_heads) && (head::winner(
            head::ranked(old_heads),
        ) matches Some(w) && w.value == value)),
        0 <= j < g.watchers.len(),
        g.watchers[j].1.lets(key),
        state::heads_at(model::put(g, key, value, now_ms, now).0.state.kv, key) == Ok::<
            Seq<HeadModel>,
            StateFault,
        >(heads),
    ensures
        exists|k: int|
            0 <= k < model::put(g, key, value, now_ms, now).0.events.len() && tells_of_update(
                #[trigger] model::put(g, key, value, now_ms, now).0.events[k],
                g.watchers[j].0,
                key,
                heads,
            ),
{
    let after = model::put(g, key, value, now_ms, now).0;
    let old_heads = state::heads_at(g.state.kv, key)->Ok_0;
    let parents = model::head_hashes(head::ranked(old_heads));
    let op = OperationModel {
        op_type: Some(OpTypeModel::Put(crate::proto::storage::PutOpModel { key, value })),
    };
    let h = model::written(g, parents, op, now_ms, now).0;
    laws::law_entries_leave_the_rest_alone(
        ActorModel { manager: manager::knowing(g.manager, g.me()), ..g },
        laws::put_entry(g, key, value, old_heads, now_ms),
        now,
    );
    assert(h.watchers == g.watchers);
    let kind = KindModel::Update(head::ranked(heads));
    let news = model::watch_news(h.watchers, key, kind);
    law_watchers_of_the_key_are_told(h.watchers, key, kind);
    lemma_ranked_latest_first(heads);
    let x = EventModel::Watch(g.watchers[j].0, WatchModel { key, kind });
    let n = news.index_of(x);
    assert(after.events == h.events + news);
    assert(after.events[h.events.len() + n] == x);
    assert(tells_of_update(after.events[h.events.len() + n], g.watchers[j].0, key, heads));
}

/// A filter by prefix lets through exactly the keys that start with the prefix, and one
/// by pattern those in whose text the pattern is found.
pub proof fn law_filters_let_through(prefix: Seq<u8>, pattern: Seq<char>, key: Seq<u8>)
    ensures
        FilterModel::Prefix(prefix).lets(key) <==> prefix.len() <= key.len() && key.take(
            prefix.len() as int,
        ) == prefix,
        FilterModel::Regex(pattern).lets(key) <==> crate::store::watch::regex_found(
            pattern,
            crate::store::watch::lossy_text(key),
        ),
{
    if prefix.len() <= key.len() && key.take(prefix.len() as int) == prefix {
        assert(prefix =~= key.subrange(0, prefix.len() as int));
    }
    if prefix.is_prefix_of(key) {
        assert(key.take(prefix.len() as int) =~= prefix);
    }
}

/// A new watcher has the next number and is told of what its filter lets through from now
/// on; those that were there stay, each with its number and filter.
pub proof fn law_new_watcher_joins_the_others(g: ActorModel, filter: FilterModel)
    requires
        g.next_watcher_id < u64::MAX,
    ensures
        ({
            let h = model::watched(g, filter);
            &&& h.watchers.len() == g.watchers.len() + 1
            &&& h.watchers.last() == (g.next_watcher_id, filter)
            &&& h.watchers.drop_last() == g.watchers
            &&& h.next_watcher_id == g.next_watcher_id + 1
            &&& h.state == g.state && h.manager == g.manager && h.events == g.events && h.peers
                == g.peers
        }),
{
    assert(model::watched(g, filter).watchers.drop_last() =~= g.watchers);
}

/// What there is to tell a watcher is told in the order in which it happened, and what there
/// is to tell others is left alone.
pub proof fn law_watcher_takes_its_own_news(
    events: Seq<EventModel>,
    watcher: u64,
    other: u64,
    news: WatchModel,
)
    requires
        other != watcher,
    ensures
        model::told_to(Seq::empty(), watcher) == Seq::<WatchModel>::empty(),
        model::told_to(events.push(EventModel::Watch(watcher, news)), watcher) == model::told_to(
            events,
            watcher,
        ).push(news),
        model::told_to(events.push(EventModel::Watch(other, news)), watcher) == model::told_to(
            events,
            watcher,
        ),
        model::told_to_others(events.push(EventModel::Watch(watcher, news)), watcher)
            == model::told_to_others(events, watcher),
        model::told_to_others(events.push(EventModel::Watch(other, news)), watcher)
            == model::told_to_others(events, watcher).push(EventModel::Watch(other, news)),
{
    reveal(Seq::filter);
    let a = EventModel::Watch(watcher, news);
    let b = EventModel::Watch(other, news);
    assert(events.push(a).drop_last() =~= events);
    assert(events.push(b).drop_last() =~= events);
    assert(events.push(a).last() == a);
    assert(events.push(b).last() == b);
}

/// The keys that a pattern matches are listed exactly as all keys are, without those in
/// whose text the pattern is not found.
pub proof fn law_matching_keys_are_listed(
    g: ActorModel,
    pattern: Seq<char>,
    k: Seq<u8>,
    hs: Seq<HeadModel>,
)
    requires
        crate::table::lists(crate::table::sorted_keys(g.state.kv.dom()), g.state.kv.dom()),
    ensures
        model::heads_matching(g, pattern) matches Ok(pairs) ==> (pairs.contains((k, hs)) <==> {
            &&& g.state.kv.dom().contains(k)
            &&& crate::store::watch::regex_found(pattern, crate::store::watch::lossy_text(k))
            &&& state::heads_at(g.state.kv, k) matches Ok(heads) && hs == head::ranked(heads)
        }),
        model::heads_with_prefix(g, Seq::empty()) matches Ok(pairs) ==> (pairs.contains((k, hs))
            <==> {
            &&& g.state.kv.dom().contains(k)
            &&& state::heads_at(g.state.kv, k) matches Ok(heads) && hs == head::ranked(heads)
        }),
{
    let keys = crate::table::sorted_keys(g.state.kv.dom());
    let none = Seq::<u8>::empty();
    state::law_heads_listing_is_complete(g.state.kv, keys, none);
    assert(keys.contains(k) <==> g.state.kv.dom().contains(k));
    assert(k.take(0) =~= none);
    if let Ok(all) = model::heads_with_prefix(g, none) {
        let keep = |p: (Seq<u8>, Seq<HeadModel>)| model::key_matches(pattern, p.0);
        let x = (k, hs);
        if all.filter(keep).contains(x) {
            all.lemma_filter_contains_rev(keep, x);
            all.lemma_filter_pred(keep, all.filter(keep).index_of(x));
        }
        if all.contains(x) && keep(x) {
            all.lemma_filter_contains(keep, all.index_of(x));
        }
    }
}

/// Once a peer has said how far it has got, its words are kept as they are. Where it has an
/// entry that we lack, or lacks one that we have, there is the news that we have to sync,
/// and otherwise there is none.
pub proof fn law_peer_that_is_ahead_is_told(
    g: ActorModel,
    peer: Seq<u8>,
    info: crate::proto::storage::PeerSyncInfoModel,
    theirs: Map<Seq<u8>, crate::store::sync_state::AuthorInfo>,
    a: Seq<u8>,
)
    requires
        info.sync_state matches Some(s) && crate::store::sync_state::heard(s.authors) == theirs,
        crate::table::lists(crate::table::sorted_keys(theirs.dom()), theirs.dom()),
        crate::store::sync_state::discrepancy(
            manager::sync_of(g.manager.chains),
            theirs,
        ) is Some,
        theirs.dom().contains(a),
        ({
            let mine = manager::sync_of(g.manager.chains);
            theirs[a].seq > if mine.dom().contains(a) {
                mine[a].seq
            } else {
                0
            }
        }),
    ensures
        ({
            let h = model::peer_said(g, peer, info);
            &&& h.peers.dom().contains(peer)
            &&& h.peers[peer] == crate::message::encoded::<crate::proto::storage::PeerSyncInfo>(
                info,
            )
            &&& h.events.len() == g.events.len() + 1
            &&& h.events.drop_last() == g.events
            &&& h.events.last() matches EventModel::SyncNeeded(p, d) && p == peer
                && d.entries_we_need > 0
            &&& h.state == g.state && h.manager == g.manager && h.watchers == g.watchers
        }),
{
    let mine = manager::sync_of(g.manager.chains);
    crate::store::sync_state::law_lacked_entries_add_up(mine, theirs, a);
    let rest = theirs.remove(a);
    crate::store::sync_state::lemma_missing_forward(
        mine,
        rest,
        crate::table::sorted_keys(rest.dom()),
    );
    let h = model::peer_said(g, peer, info);
    assert(h.events.drop_last() =~= g.events);
}

/// Cleaning up drops of the listed entries exactly those whose number their author's chain
/// has passed, and counts them. Chains, hashes and what waits for a parent stay.
pub proof fn law_passed_entries_are_dropped(
    m: manager::ManagerModel,
    listed: Seq<crate::store::sigchain::orphan_store::OrphanInfoModel>,
    k: Seq<u8>,
)
    ensures
        ({
            let (after, n) = model::cleaned(m, listed);
            let passed = |o: crate::store::sigchain::orphan_store::OrphanInfoModel|
                o.seq < manager::chain_of(m, o.author).next_seq;
            &&& n == listed.filter(passed).len()
            &&& after.hashes == m.hashes && after.gaps == m.gaps && after.orphans.dag
                == m.orphans.dag && after.logs_dir == m.logs_dir && after.store_id == m.store_id
            &&& forall|a: Seq<u8>| #[trigger]
                manager::chain_of(after, a) == manager::chain_of(m, a)
            &&& after.orphans.orphans.dom().contains(k) <==> m.orphans.orphans.dom().contains(k)
                && forall|i: int|
                0 <= i < listed.len() && (#[trigger] listed[i]).seq < manager::chain_of(
                    m,
                    listed[i].author,
                ).next_seq ==> k != listed[i].author + listed[i].prev_hash + listed[i].entry_hash
            &&& after.orphans.orphans.dom().contains(k) ==> after.orphans.orphans[k]
                == m.orphans.orphans[k]
        }),
    decreases listed.len(),
{
    reveal(Seq::filter);
    if listed.len() > 0 {
        let rest = listed.drop_last();
        let o = listed.last();
        law_passed_entries_are_dropped(m, rest, k);
        let (before, n) = model::cleaned(m, rest);
        let known = manager::knowing(before, o.author);
        assert forall|a: Seq<u8>| #[trigger]
            manager::chain_of(known, a) == manager::chain_of(before, a) by {}
        let (after, _) = model::cleaned(m, listed);
        assert forall|a: Seq<u8>| #[trigger]
            manager::chain_of(after, a) == manager::chain_of(m, a) by {
            assert(manager::chain_of(known, a) == manager::chain_of(before, a));
            assert(manager::chain_of(before, a) == manager::chain_of(m, a));
        }
        assert(manager::chain_of(before, o.author) == manager::chain_of(m, o.author));
        let dropped = |s: Seq<crate::store::sigchain::orphan_store::OrphanInfoModel>|
            exists|i: int|
                0 <= i < s.len() && (#[trigger] s[i]).seq < manager::chain_of(
                    m,
                    s[i].author,
                ).next_seq && k == s[i].author + s[i].prev_hash + s[i].entry_hash;
        assert(dropped(listed) <==> dropped(rest) || (o.seq < manager::chain_of(
            m,
            o.author,
        ).next_seq && k == o.author + o.prev_hash + o.entry_hash)) by {
            if dropped(rest) {
                let i = choose|i: int|
                    0 <= i < rest.len() && (#[trigger] rest[i]).seq < manager::chain_of(
                        m,
                        rest[i].author,
                    ).next_seq && k == rest[i].author + rest[i].prev_hash + rest[i].entry_hash;
                assert(listed[i] == rest[i]);
            }
            if dropped(listed) {
                let i = choose|i: int|
                    0 <= i < listed.len() && (#[trigger] listed[i]).seq < manager::chain_of(
                        m,
                        listed[i].author,
                    ).next_seq && k == listed[i].author + listed[i].prev_hash
                        + listed[i].entry_hash;
                if i < rest.len() {
                    assert(rest[i] == listed[i]);
                }
            }
            assert(listed[listed.len() - 1] == o);
        }
    }
}

/// Of every peer whose words are kept and from which we lack something, or which lacks
/// something of ours, there is the news that we have to sync; of no other.
pub proof fn law_peers_to_sync_with_are_told(
    mine: Map<Seq<u8>, crate::store::sync_state::AuthorInfo>,
    peers: Seq<(Seq<u8>, crate::proto::storage::PeerSyncInfoModel)>,
    peer: Seq<u8>,
    d: crate::store::sync_state::SyncDiscrepancy,
)
    ensures
        model::peers_news(mine, peers).contains(EventModel::SyncNeeded(peer, d)) <==> exists|i: int|
            0 <= i < peers.len() && (#[trigger] peers[i]).0 == peer && (
            peers[i].1.sync_state matches Some(s) && crate::store::sync_state::discrepancy(
                mine,
                crate::store::sync_state::heard(s.authors),
            ) == Some(d)) && (d.entries_we_need > 0 || d.entries_they_need > 0),
    decreases peers.len(),
{
    let x = EventModel::SyncNeeded(peer, d);
    if peers.len() > 0 {
        let before = peers.drop_last();
        law_peers_to_sync_with_are_told(mine, before, peer, d);
        let q = model::peers_news(mine, before);
        let p = model::peer_news(mine, peers.last().0, peers.last().1);
        let r = q + p;
        assert(model::peers_news(mine, peers) == r);
        if q.contains(x) {
            assert(r[q.index_of(x)] == x);
            let i = choose|i: int|
                0 <= i < before.len() && (#[trigger] before[i]).0 == peer && (
                before[i].1.sync_state matches Some(s) && crate::store::sync_state::discrepancy(
                    mine,
                    crate::store::sync_state::heard(s.authors),
                ) == Some(d)) && (d.entries_we_need > 0 || d.entries_they_need > 0);
            assert(peers[i] == before[i]);
        }
        if r.contains(x) {
            let i = r.index_of(x);
            if i < q.len() {
                assert(q[i] == x);
            } else {
                assert(p[i - q.len()] == x);
                assert(peers[peers.len() - 1] == peers.last());
            }
        }
        assert forall|i: int|
            0 <= i < peers.len() && (#[trigger] peers[i]).0 == peer && (
            peers[i].1.sync_state matches Some(s) && crate::store::sync_state::discrepancy(
                mine,
                crate::store::sync_state::heard(s.authors),
            ) == Some(d)) && (d.entries_we_need > 0 || d.entries_they_need
                > 0) implies r.contains(x) by {
            if i < before.len() {
                assert(before[i] == peers[i]);
            } else {
                assert(p[0] == x);
                assert(r[q.len() as int] == x);
            }
        }
    }
}

/// What a peer says is kept, and told as one piece of news where either side lacks an entry;
/// where neither does, or the peer says nothing of its chains, there is no news.
pub proof fn law_peer_is_heard(
    g: ActorModel,
    peer: Seq<u8>,
    info: crate::proto::storage::PeerSyncInfoModel,
    d: crate::store::sync_state::SyncDiscrepancy,
)
    ensures
        ({
            let h = model::peer_said(g, peer, info);
            let kept = crate::message::encoded::<crate::proto::storage::PeerSyncInfo>(info);
            &&& info.sync_state is None ==> h.peers == g.peers.insert(peer, kept) && h.events
                == g.events
            &&& info.sync_state matches Some(s) ==> (crate::store::sync_state::discrepancy(
                manager::sync_of(g.manager.chains),
                crate::store::sync_state::heard(s.authors),
            ) == Some(d) ==> {
                &&& h.peers == g.peers.insert(peer, kept)
                &&& d.entries_we_need > 0 || d.entries_they_need > 0 ==> h.events
                    == g.events.push(EventModel::SyncNeeded(peer, d))
                &&& d.entries_we_need == 0 && d.entries_they_need == 0 ==> h.events == g.events
            })
            &&& h.state == g.state && h.manager == g.manager && h.watchers == g.watchers
        }),
{
    let none = Seq::<EventModel>::empty();
    assert(g.events + none =~= g.events);
    assert(g.events + seq![EventModel::SyncNeeded(peer, d)] =~= g.events.push(
        EventModel::SyncNeeded(peer, d),
    ));
}

} // verus!
