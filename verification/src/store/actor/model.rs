//! What the store's actor does, as a function from one state of it to the next.
use crate::bytes;
use crate::crypto;
use crate::entry::SignedEntryModel;
use crate::head;
use crate::head::HeadModel;
use crate::message;
use crate::proto::storage::{
    DeleteOpModel, OpTypeModel, OperationModel, PeerSyncInfo, PeerSyncInfoModel, PutOpModel,
};
use crate::results;
use crate::store::error::StateFault;
use crate::store::log::LogError;
use crate::store::peer_sync_store;
use crate::store::sigchain;
use crate::store::sigchain::manager;
use crate::store::sigchain::manager::{ManagerModel, ReadyModel, Verdict};
use crate::store::sigchain::orphan_store;
use crate::store::sigchain::orphan_store::OrphanInfoModel;
use crate::store::sigchain::ChainFault;
use crate::store::state;
use crate::store::state::StateModel;
use crate::store::sync_state;
use crate::store::sync_state::{AuthorInfo, SyncDiscrepancy};
use crate::store::watch;
use crate::store::watch::{FilterModel, KindModel, WatchModel};
use crate::table;
use crate::MAX_ENTRY_SIZE;
use vstd::prelude::*;

verus! {

/// The model of what the actor tells its listeners.
pub enum EventModel {
    /// An entry was chained and applied.
    Entry(SignedEntryModel),
    /// A peer and we have to sync.
    SyncNeeded(Seq<u8>, SyncDiscrepancy),
    /// Something happened to a key that a watcher asks for.
    Watch(u64, WatchModel),
}

/// The model of an actor's error.
pub enum ActorFault {
    State(StateFault),
    SigChain(ChainFault),
}

/// The model of the actor.
#[verifier::ext_equal]
pub struct ActorModel {
    /// The key-value state.
    pub state: StateModel,
    /// The chains, and what waits.
    pub manager: ManagerModel,
    /// What every peer last said of its chains, as it is stored.
    pub peers: Map<Seq<u8>, Seq<u8>>,
    /// The secret key of the node.
    pub secret: Seq<u8>,
    /// The watchers: their numbers, and what they ask for.
    pub watchers: Seq<(u64, FilterModel)>,
    /// The number of the next watcher.
    pub next_watcher_id: u64,
    /// What the listeners have not been told yet.
    pub events: Seq<EventModel>,
}

impl ActorModel {
    /// The node's public key.
    pub open spec fn me(self) -> Seq<u8> {
        crypto::ed25519_public(self.secret)
    }
}

// ---------------------------------------------------------------------------
// Questions
// ---------------------------------------------------------------------------

/// The keys that start with a prefix, with their heads.
pub open spec fn heads_with_prefix(g: ActorModel, prefix: Seq<u8>) -> Result<
    Seq<(Seq<u8>, Seq<HeadModel>)>,
    StateFault,
> {
    state::heads_listing(g.state.kv, table::sorted_keys(g.state.kv.dom()), prefix)
}

/// Whether a regular expression matches a key.
pub open spec fn key_matches(pattern: Seq<char>, key: Seq<u8>) -> bool {
    FilterModel::Regex(pattern).lets(key)
}

/// The keys that a regular expression matches, wherever in the key, with their heads.
pub open spec fn heads_matching(g: ActorModel, pattern: Seq<char>) -> Result<
    Seq<(Seq<u8>, Seq<HeadModel>)>,
    StateFault,
> {
    match heads_with_prefix(g, Seq::empty()) {
        Ok(pairs) => Ok(
            pairs.filter(|p: (Seq<u8>, Seq<HeadModel>)| key_matches(pattern, p.0)),
        ),
        Err(f) => Err(f),
    }
}

/// What a new watcher is told first, or why it is turned away.
pub open spec fn watch_answer(g: ActorModel, pattern: Seq<char>) -> Result<
    Seq<(Seq<u8>, Seq<HeadModel>)>,
    Seq<char>,
> {
    match watch::regex_fault(pattern) {
        Some(why) => Err(why),
        None => match heads_matching(g, pattern) {
            Ok(pairs) => Ok(pairs),
            Err(f) => Err("Store error: "@ + f.text()),
        },
    }
}

/// The actor with one more watcher.
pub open spec fn watched(g: ActorModel, filter: FilterModel) -> ActorModel {
    ActorModel {
        watchers: g.watchers.push((g.next_watcher_id, filter)),
        next_watcher_id: (g.next_watcher_id + 1) as u64,
        ..g
    }
}

/// The actor once it has heard a peer.
pub open spec fn peer_said(g: ActorModel, peer: Seq<u8>, info: PeerSyncInfoModel) -> ActorModel {
    let mine = manager::sync_of(g.manager.chains);
    match peer_discrepancy(mine, info) {
        None => g,
        Some(_) => ActorModel {
            peers: g.peers.insert(peer, message::encoded::<PeerSyncInfo>(info)),
            ..telling(g, peer_news(mine, peer, info))
        },
    }
}

// ---------------------------------------------------------------------------
// News
// ---------------------------------------------------------------------------

/// What the watchers are told of a key.
pub open spec fn watch_news(
    watchers: Seq<(u64, FilterModel)>,
    key: Seq<u8>,
    kind: KindModel,
) -> Seq<EventModel>
    decreases watchers.len(),
{
    if watchers.len() == 0 {
        Seq::empty()
    } else {
        let before = watch_news(watchers.drop_last(), key, kind);
        let (id, filter) = watchers.last();
        if filter.lets(key) {
            before.push(EventModel::Watch(id, WatchModel { key, kind }))
        } else {
            before
        }
    }
}

/// What the watchers are told of one operation, once it has been applied.
pub open spec fn op_news(
    watchers: Seq<(u64, FilterModel)>,
    kv: Map<Seq<u8>, Seq<u8>>,
    op: OperationModel,
) -> Seq<EventModel> {
    match op.op_type {
        None => Seq::empty(),
        Some(OpTypeModel::Put(p)) => match state::heads_at(kv, p.key) {
            Ok(heads) => watch_news(watchers, p.key, KindModel::Update(head::ranked(heads))),
            Err(_) => Seq::empty(),
        },
        Some(OpTypeModel::Delete(d)) => watch_news(watchers, d.key, KindModel::Delete),
    }
}

/// What the watchers are told of operations, once they have been applied.
pub open spec fn ops_news(
    watchers: Seq<(u64, FilterModel)>,
    kv: Map<Seq<u8>, Seq<u8>>,
    ops: Seq<OperationModel>,
) -> Seq<EventModel>
    decreases ops.len(),
{
    if ops.len() == 0 {
        Seq::empty()
    } else {
        ops_news(watchers, kv, ops.drop_last()) + op_news(watchers, kv, ops.last())
    }
}

/// What we and a peer lack of each other, by what the peer said; `None` where
/// there is too much to be counted.
pub open spec fn peer_discrepancy(
    mine: Map<Seq<u8>, AuthorInfo>,
    info: PeerSyncInfoModel,
) -> Option<SyncDiscrepancy> {
    match info.sync_state {
        Some(s) => sync_state::discrepancy(mine, sync_state::heard(s.authors)),
        None => Some(SyncDiscrepancy { entries_we_need: 0, entries_they_need: 0 }),
    }
}

/// What is told of a peer: that we have to sync, if either side lacks anything.
pub open spec fn peer_news(
    mine: Map<Seq<u8>, AuthorInfo>,
    peer: Seq<u8>,
    info: PeerSyncInfoModel,
) -> Seq<EventModel> {
    match peer_discrepancy(mine, info) {
        Some(d) if d.entries_we_need > 0 || d.entries_they_need > 0 => seq![
            EventModel::SyncNeeded(peer, d),
        ],
        _ => Seq::empty(),
    }
}

/// What is told of peers.
pub open spec fn peers_news(
    mine: Map<Seq<u8>, AuthorInfo>,
    peers: Seq<(Seq<u8>, PeerSyncInfoModel)>,
) -> Seq<EventModel>
    decreases peers.len(),
{
    if peers.len() == 0 {
        Seq::empty()
    } else {
        peers_news(mine, peers.drop_last()) + peer_news(mine, peers.last().0, peers.last().1)
    }
}

/// What is told of all peers whose words are kept.
pub open spec fn sync_news(g: ActorModel) -> Seq<EventModel> {
    peers_news(
        manager::sync_of(g.manager.chains),
        peer_sync_store::peer_infos(g.peers, table::sorted_keys(g.peers.dom())),
    )
}

/// The actor with more to tell.
pub open spec fn telling(g: ActorModel, news: Seq<EventModel>) -> ActorModel {
    ActorModel { events: g.events + news, ..g }
}

/// What is told of an entry that was chained and applied: the changes of its
/// keys, the entry itself, and which peers have to sync now.
pub open spec fn entry_told(g: ActorModel, e: SignedEntryModel) -> ActorModel {
    let a = telling(g, ops_news(g.watchers, g.state.kv, e.entry.ops));
    let b = telling(a, seq![EventModel::Entry(e)]);
    telling(b, sync_news(b))
}

// ---------------------------------------------------------------------------
// Entries
// ---------------------------------------------------------------------------

/// An entry that has to be dealt with, and what it is filed under as one that
/// waits: for a parent of its key, or for its predecessor.
pub struct TaskModel {
    pub entry: SignedEntryModel,
    pub dag: Option<(Seq<u8>, Seq<u8>, Seq<u8>)>,
    pub chain: Option<(Seq<u8>, Seq<u8>, Seq<u8>)>,
}

/// The actor while it deals with entries. The last of the tasks comes next.
#[verifier::ext_equal]
pub struct WorkModel {
    pub actor: ActorModel,
    pub tasks: Seq<TaskModel>,
    /// Whether nothing has been dealt with yet.
    pub first: bool,
    /// The error that put an end to the work.
    pub failed: Option<ActorFault>,
}

/// The first of the parents that is not known.
pub open spec fn unknown_parent(hashes: Set<Seq<u8>>, parents: Seq<Seq<u8>>) -> Option<Seq<u8>>
    decreases parents.len(),
{
    if parents.len() == 0 {
        None
    } else {
        match unknown_parent(hashes, parents.drop_last()) {
            Some(p) => Some(p),
            None => if hashes.contains(parents.last()) {
                None
            } else {
                Some(parents.last())
            },
        }
    }
}

/// Where all parents are known, none is unknown.
pub proof fn lemma_all_known(hashes: Set<Seq<u8>>, parents: Seq<Seq<u8>>)
    requires
        forall|i: int| 0 <= i < parents.len() ==> hashes.contains(#[trigger] parents[i]),
    ensures
        unknown_parent(hashes, parents) is None,
    decreases parents.len(),
{
    if parents.len() > 0 {
        assert(hashes.contains(parents[parents.len() - 1]));
        assert forall|i: int| 0 <= i < parents.len() - 1 implies hashes.contains(
            #[trigger] parents.drop_last()[i],
        ) by {
            assert(hashes.contains(parents[i]));
        }
        lemma_all_known(hashes, parents.drop_last());
    }
}

/// The first parent that is not known.
pub proof fn lemma_first_unknown(hashes: Set<Seq<u8>>, parents: Seq<Seq<u8>>, at: int)
    requires
        0 <= at < parents.len(),
        !hashes.contains(parents[at]),
        forall|i: int| 0 <= i < at ==> hashes.contains(#[trigger] parents[i]),
    ensures
        unknown_parent(hashes, parents) == Some(parents[at]),
    decreases parents.len(),
{
    let before = parents.drop_last();
    assert forall|i: int| 0 <= i < at && i < before.len() implies hashes.contains(
        #[trigger] before[i],
    ) by {
        assert(hashes.contains(parents[i]));
    }
    if at == parents.len() - 1 {
        lemma_all_known(hashes, before);
    } else {
        lemma_first_unknown(hashes, before, at);
    }
}

/// The manager without the entry among those that wait for a parent.
pub open spec fn dag_done(m: ManagerModel, t: TaskModel) -> ManagerModel {
    match t.dag {
        Some((key, parent, hash)) => manager::dag_orphan_dropped(m, key, parent, hash),
        None => m,
    }
}

/// The manager without the entry among those that wait for their predecessors.
pub open spec fn chain_done(m: ManagerModel, t: TaskModel) -> ManagerModel {
    match t.chain {
        Some((author, prev, hash)) => manager::orphan_dropped(m, author, prev, hash),
        None => m,
    }
}

/// The entries that waited for their predecessor, as tasks.
pub open spec fn ready_tasks(ready: Seq<ReadyModel>) -> Seq<TaskModel> {
    ready.map_values(
        |r: ReadyModel|
            TaskModel {
                entry: r.entry,
                dag: None,
                chain: Some((r.author, r.prev_hash, r.entry_hash)),
            },
    )
}

/// The entries that waited for a parent, as tasks.
pub open spec fn dag_tasks(
    found: Seq<(Seq<u8>, SignedEntryModel, Seq<u8>)>,
    parent: Seq<u8>,
) -> Seq<TaskModel> {
    found.map_values(
        |f: (Seq<u8>, SignedEntryModel, Seq<u8>)|
            TaskModel { entry: f.1, dag: Some((f.0, parent, f.2)), chain: None },
    )
}

/// The actor once it has chained and applied an entry.
pub open spec fn committed(g: ActorModel, t: TaskModel, st: StateModel) -> ActorModel {
    let m = chain_done(dag_done(manager::committed(g.manager, t.entry), t), t);
    entry_told(ActorModel { state: st, manager: m, ..g }, t.entry)
}

/// The tasks that a chained entry brings: first the entries that waited for their
/// predecessor, and then those that waited for a parent.
pub open spec fn freed(g: ActorModel, t: TaskModel) -> Seq<TaskModel> {
    let m = chain_done(dag_done(manager::committed(g.manager, t.entry), t), t);
    ready_tasks(
        manager::ready_after(g.manager.orphans.orphans, t.entry.author_id, t.entry.hash()),
    ) + dag_tasks(manager::dag_ready_after(m.orphans.dag, t.entry.hash()), t.entry.hash())
}

/// The actor once it has put an entry by that waits for a parent.
pub open spec fn parked(g: ActorModel, t: TaskModel, parent: Seq<u8>) -> ActorModel {
    ActorModel {
        manager: manager::dag_orphan_kept(
            dag_done(g.manager, t),
            t.entry,
            state::first_key(t.entry.entry),
            parent,
        ),
        ..g
    }
}

/// One task, at the given time. An entry that comes next in its chain, all of
/// whose parents are known, is applied and chained, and sets free what waited for
/// it. One that lacks a parent or a predecessor is put by; one that is chained
/// already is passed over. An entry that can never be chained is an error if it
/// is the first one, and is otherwise passed over.
#[verifier::opaque]
pub open spec fn worked(w: WorkModel, now: u64) -> WorkModel {
    let t = w.tasks.last();
    let rest = w.tasks.drop_last();
    let e = t.entry;
    let g = ActorModel { manager: manager::knowing(w.actor.manager, e.author_id), ..w.actor };
    match manager::verdict(w.actor.manager, e) {
        Verdict::Valid => match unknown_parent(g.manager.hashes, e.entry.parent_hashes) {
            Some(parent) => WorkModel {
                actor: parked(g, t, parent),
                tasks: rest,
                first: false,
                failed: None,
            },
            None => match state::applied(g.state, e) {
                Err(f) => WorkModel {
                    actor: g,
                    tasks: rest,
                    first: false,
                    failed: Some(ActorFault::State(f)),
                },
                Ok(st) => if e.encoding().len() > MAX_ENTRY_SIZE {
                    WorkModel {
                        actor: ActorModel { state: st, ..g },
                        tasks: rest,
                        first: false,
                        failed: Some(
                            ActorFault::SigChain(
                                ChainFault::Log(
                                    LogError::EntryTooLarge(e.encoding().len() as usize),
                                ),
                            ),
                        ),
                    }
                } else {
                    WorkModel {
                        actor: committed(g, t, st),
                        tasks: rest + freed(g, t),
                        first: false,
                        failed: None,
                    }
                },
            },
        },
        Verdict::Orphan(gap, prev) => WorkModel {
            actor: ActorModel {
                manager: manager::orphan_kept(g.manager, e, gap, prev, now),
                ..g
            },
            tasks: rest,
            first: false,
            failed: None,
        },
        Verdict::Duplicate => WorkModel { actor: g, tasks: rest, first: false, failed: None },
        Verdict::Error(f) => WorkModel {
            actor: g,
            tasks: rest,
            first: false,
            failed: if w.first {
                Some(ActorFault::SigChain(f))
            } else {
                None
            },
        },
    }
}

/// After a task, something has been dealt with.
pub proof fn lemma_not_first(w: WorkModel, now: u64)
    ensures
        !worked(w, now).first,
{
    reveal(worked);
}

/// Whether there is nothing left to do.
pub open spec fn finished(w: WorkModel) -> bool {
    w.tasks.len() == 0 || w.failed is Some
}

/// The work after at most `n` tasks.
pub open spec fn worked_on(w: WorkModel, now: u64, n: nat) -> WorkModel
    decreases n,
{
    if n == 0 {
        w
    } else {
        let v = worked_on(w, now, (n - 1) as nat);
        if finished(v) {
            v
        } else {
            worked(v, now)
        }
    }
}

/// The work when there is nothing left to do.
pub open spec fn settled(w: WorkModel, now: u64) -> WorkModel {
    worked_on(w, now, choose|n: nat| finished(worked_on(w, now, n)))
}

/// The work that an entry brings.
pub open spec fn work_on(g: ActorModel, e: SignedEntryModel) -> WorkModel {
    WorkModel {
        actor: g,
        tasks: seq![TaskModel { entry: e, dag: None, chain: None }],
        first: true,
        failed: None,
    }
}

/// What comes of an entry whose signature holds.
pub open spec fn taken(g: ActorModel, e: SignedEntryModel, now: u64) -> (
    ActorModel,
    Option<ActorFault>,
) {
    let w = settled(work_on(g, e), now);
    (w.actor, w.failed)
}

/// What comes of an entry. One whose signature does not hold is refused.
pub open spec fn ingested(g: ActorModel, e: SignedEntryModel, now: u64) -> (
    ActorModel,
    Option<ActorFault>,
) {
    if e.verified() {
        taken(g, e, now)
    } else {
        (g, Some(ActorFault::State(StateFault::Unauthorized("Invalid signature"@))))
    }
}

/// What comes of operations of our own, made at the given time of the wall
/// clock: they are signed as the next entry of our chain, on top of the given
/// parents.
pub open spec fn written(
    g: ActorModel,
    parents: Seq<Seq<u8>>,
    op: OperationModel,
    now_ms: u64,
    now: u64,
) -> (ActorModel, Option<ActorFault>) {
    let me = crypto::ed25519_public(g.secret);
    let known = ActorModel { manager: manager::knowing(g.manager, me), ..g };
    let e = sigchain::built_entry(
        manager::chain_of(g.manager, me),
        g.secret,
        parents,
        seq![op],
        now_ms,
    );
    ingested(known, e, now)
}

/// The hashes of heads.
pub open spec fn head_hashes(heads: Seq<HeadModel>) -> Seq<Seq<u8>> {
    heads.map_values(|h: HeadModel| h.hash)
}

/// What comes of putting a value under a key. Nothing is done where the key has
/// the value already.
pub open spec fn put(g: ActorModel, key: Seq<u8>, value: Seq<u8>, now_ms: u64, now: u64) -> (
    ActorModel,
    Option<ActorFault>,
) {
    match state::heads_at(g.state.kv, key) {
        Err(f) => (g, Some(ActorFault::State(f))),
        Ok(heads) => {
            let ranked = head::ranked(heads);
            match head::winner(ranked) {
                Some(w) if w.value == value => (g, None),
                _ => {
                    let op = OperationModel {
                        op_type: Some(OpTypeModel::Put(PutOpModel { key, value })),
                    };
                    let (after, fault) = written(g, head_hashes(ranked), op, now_ms, now);
                    if fault is Some {
                        (after, fault)
                    } else {
                        match state::heads_at(after.state.kv, key) {
                            Err(f) => (after, Some(ActorFault::State(f))),
                            Ok(new) => (
                                telling(
                                    after,
                                    watch_news(
                                        after.watchers,
                                        key,
                                        KindModel::Update(head::ranked(new)),
                                    ),
                                ),
                                None,
                            ),
                        }
                    }
                },
            }
        },
    }
}

/// What comes of deleting a key. Nothing is done where the key has no value.
pub open spec fn deleted(g: ActorModel, key: Seq<u8>, now_ms: u64, now: u64) -> (
    ActorModel,
    Option<ActorFault>,
) {
    match state::heads_at(g.state.kv, key) {
        Err(f) => (g, Some(ActorFault::State(f))),
        Ok(heads) => {
            let ranked = head::ranked(heads);
            match head::winner(ranked) {
                Some(w) if !w.tombstone => {
                    let op = OperationModel {
                        op_type: Some(OpTypeModel::Delete(DeleteOpModel { key })),
                    };
                    let (after, fault) = written(g, head_hashes(ranked), op, now_ms, now);
                    if fault is Some {
                        (after, fault)
                    } else {
                        (
                            telling(after, watch_news(after.watchers, key, KindModel::Delete)),
                            None,
                        )
                    }
                },
                _ => (g, None),
            }
        },
    }
}

/// What comes of putting values under keys, one after the other, up to the first
/// that fails.
pub open spec fn puts(
    g: ActorModel,
    writes: Seq<(Seq<u8>, Seq<u8>)>,
    now_ms: u64,
    now: u64,
) -> (ActorModel, Option<ActorFault>)
    decreases writes.len(),
{
    if writes.len() == 0 {
        (g, None)
    } else {
        let (before, fault) = puts(g, writes.drop_last(), now_ms, now);
        if fault is Some {
            (before, fault)
        } else {
            put(before, writes.last().0, writes.last().1, now_ms, now)
        }
    }
}

/// A write that fails among the first ones is the end of them.
pub proof fn lemma_puts_stop(
    g: ActorModel,
    writes: Seq<(Seq<u8>, Seq<u8>)>,
    now_ms: u64,
    now: u64,
    n: int,
)
    requires
        0 <= n <= writes.len(),
        puts(g, writes.take(n), now_ms, now).1 is Some,
    ensures
        puts(g, writes, now_ms, now) == puts(g, writes.take(n), now_ms, now),
    decreases writes.len() - n,
{
    if n == writes.len() {
        assert(writes.take(n) =~= writes);
    } else {
        assert(writes.take(n + 1).drop_last() =~= writes.take(n));
        lemma_puts_stop(g, writes, now_ms, now, n + 1);
    }
}

/// Whether an event is for a watcher.
pub open spec fn is_for(event: EventModel, watcher: u64) -> bool {
    event matches EventModel::Watch(id, _) && id == watcher
}

/// What there is to tell a watcher, from the first event on.
pub open spec fn told_to(events: Seq<EventModel>, watcher: u64) -> Seq<WatchModel>
    decreases events.len(),
{
    if events.len() == 0 {
        Seq::empty()
    } else {
        let before = told_to(events.drop_last(), watcher);
        match events.last() {
            EventModel::Watch(id, news) if id == watcher => before.push(news),
            _ => before,
        }
    }
}

/// What there is to tell everybody else.
pub open spec fn told_to_others(events: Seq<EventModel>, watcher: u64) -> Seq<EventModel> {
    events.filter(|e: EventModel| !is_for(e, watcher))
}

/// What is left once the listed entries that their chains have passed are
/// dropped, and how many those are.
pub open spec fn cleaned(m: ManagerModel, listed: Seq<OrphanInfoModel>) -> (ManagerModel, nat)
    decreases listed.len(),
{
    if listed.len() == 0 {
        (m, 0)
    } else {
        let (before, n) = cleaned(m, listed.drop_last());
        let o = listed.last();
        let known = manager::knowing(before, o.author);
        if o.seq < manager::chain_of(before, o.author).next_seq {
            (manager::orphan_dropped(known, o.author, o.prev_hash, o.entry_hash), n + 1)
        } else {
            (known, n)
        }
    }
}

// ---------------------------------------------------------------------------
// The state and the chains
// ---------------------------------------------------------------------------

/// Whether the state has got as far with an author as the author's chain.
pub open spec fn agrees_on(g: ActorModel, author: Seq<u8>) -> bool {
    manager::chain_of(g.manager, author).last_hash == state::last_hash(g.state.tips, author)
}

/// Whether the state has got as far with every author as the author's chain.
pub open spec fn in_step(g: ActorModel) -> bool {
    forall|a: Seq<u8>| #[trigger] agrees_on(g, a)
}

/// A task leaves the state and the chains in step, unless it ends the work with
/// an entry that was applied and then found too large to be chained. What comes
/// next in its chain is never refused by the state for not following the tip.
pub proof fn law_task_keeps_step(w: WorkModel, now: u64)
    requires
        in_step(w.actor),
        w.tasks.len() > 0,
        w.tasks.last().entry.hash().len() == 32,
    ensures
        !(worked(w, now).failed matches Some(ActorFault::SigChain(ChainFault::Log(_))))
            ==> in_step(worked(w, now).actor),
        !(worked(w, now).failed matches Some(ActorFault::State(StateFault::NotSuccessor(_, _, _)))),
{
    reveal(worked);
    let t = w.tasks.last();
    let e = t.entry;
    let g = ActorModel { manager: manager::knowing(w.actor.manager, e.author_id), ..w.actor };
    let v = worked(w, now);
    assert forall|a: Seq<u8>| #[trigger] agrees_on(g, a) by {
        assert(agrees_on(w.actor, a));
    }
    assert(agrees_on(g, e.author_id));
    if manager::verdict(w.actor.manager, e) == Verdict::Valid {
        if unknown_parent(g.manager.hashes, e.entry.parent_hashes) is None {
            state::lemma_apply_fault(g.state, e);
            if let Ok(st) = state::applied(g.state, e) {
                state::law_applied_entry_is_the_tip(g.state, e);
                if e.encoding().len() <= MAX_ENTRY_SIZE {
                    assert forall|a: Seq<u8>| #[trigger] agrees_on(v.actor, a) by {
                        assert(agrees_on(g, a));
                    }
                }
            }
        } else {
            assert forall|a: Seq<u8>| #[trigger] agrees_on(v.actor, a) by {
                assert(agrees_on(g, a));
            }
        }
    } else {
        assert forall|a: Seq<u8>| #[trigger] agrees_on(v.actor, a) by {
            assert(agrees_on(g, a));
        }
    }
}

/// What has come out of a run of tasks stays, whatever number of tasks is
/// allowed.
pub proof fn law_settled_is_unique(w: WorkModel, now: u64, n: nat, m: nat)
    requires
        finished(worked_on(w, now, n)),
        n <= m,
    ensures
        worked_on(w, now, m) == worked_on(w, now, n),
    decreases m,
{
    if m > n {
        law_settled_is_unique(w, now, n, (m - 1) as nat);
    }
}

/// Once the work is finished, it is settled.
pub proof fn lemma_settled(w: WorkModel, now: u64, n: nat)
    requires
        finished(worked_on(w, now, n)),
    ensures
        settled(w, now) == worked_on(w, now, n),
{
    let k = choose|k: nat| finished(worked_on(w, now, k));
    assert(finished(worked_on(w, now, k)));
    if k <= n {
        law_settled_is_unique(w, now, k, n);
    } else {
        law_settled_is_unique(w, now, n, k);
    }
}

// ---------------------------------------------------------------------------
// Why the work comes to an end
// ---------------------------------------------------------------------------

/// The entries that wait for a predecessor which is not known.
pub open spec fn open_orphans(m: ManagerModel) -> Set<Seq<u8>> {
    m.orphans.orphans.dom().filter(|k: Seq<u8>| !m.hashes.contains(k.subrange(32, 64)))
}

/// The entries that wait for a parent which is not known.
pub open spec fn open_dag(m: ManagerModel) -> Set<Seq<u8>> {
    m.orphans.dag.dom().filter(|k: Seq<u8>| !m.hashes.contains(k.subrange(0, 32)))
}

/// How many entries wait for something that is not known.
pub open spec fn open_count(m: ManagerModel) -> nat {
    open_orphans(m).len() + open_dag(m).len()
}

/// What waits is finitely much.
pub open spec fn orphans_finite(m: ManagerModel) -> bool {
    m.orphans.orphans.dom().finite() && m.orphans.dag.dom().finite()
}

proof fn lemma_fewer(small: Set<Seq<u8>>, big: Set<Seq<u8>>, keys: Seq<Seq<u8>>)
    requires
        big.finite(),
        keys.no_duplicates(),
        forall|k: Seq<u8>| #[trigger] small.contains(k) ==> big.contains(k),
        forall|i: int|
            0 <= i < keys.len() ==> big.contains(#[trigger] keys[i]) && !small.contains(keys[i]),
    ensures
        small.finite(),
        small.len() + keys.len() <= big.len(),
{
    let extra = keys.to_set();
    keys.unique_seq_to_set();
    assert forall|k: Seq<u8>| small.union(extra).contains(k) implies big.contains(k) by {
        if extra.contains(k) {
            let i = keys.index_of(k);
            assert(keys[i] == k);
        }
    }
    assert(small.subset_of(big));
    vstd::set_lib::lemma_len_subset(small, big);
    vstd::seq_lib::seq_to_set_is_finite(keys);
    assert forall|k: Seq<u8>| !(small.contains(k) && extra.contains(k)) by {
        if extra.contains(k) {
            let i = keys.index_of(k);
            assert(keys[i] == k);
        }
    }
    vstd::set_lib::lemma_set_disjoint_lens(small, extra);
    assert(small.union(extra).subset_of(big));
    vstd::set_lib::lemma_len_subset(small.union(extra), big);
}

proof fn lemma_between(dom: Set<Seq<u8>>, lo: Seq<u8>, hi: Seq<u8>)
    requires
        table::lists(table::sorted_keys(dom), dom),
    ensures
        ({
            let ks = table::keys_between(table::sorted_keys(dom), lo, hi);
            &&& ks.no_duplicates()
            &&& forall|i: int|
                0 <= i < ks.len() ==> dom.contains(#[trigger] ks[i]) && table::in_range(
                    ks[i],
                    lo,
                    hi,
                )
        }),
{
    let keys = table::sorted_keys(dom);
    let keep = |k: Seq<u8>| table::in_range(k, lo, hi);
    let ks = keys.filter(keep);
    assert forall|i: int, j: int| 0 <= i < j < keys.len() implies keys[i] != keys[j] by {
        bytes::lemma_lex_irreflexive(keys[i]);
    }
    assert(keys.no_duplicates());
    lemma_filter_distinct(keys, keep);
    assert forall|i: int| 0 <= i < ks.len() implies dom.contains(#[trigger] ks[i])
        && table::in_range(ks[i], lo, hi) by {
        keys.lemma_filter_contains_rev(keep, ks[i]);
        assert(keys.contains(ks[i]));
        keys.lemma_filter_pred(keep, i);
    }
}

proof fn lemma_filter_distinct(s: Seq<Seq<u8>>, keep: spec_fn(Seq<u8>) -> bool)
    requires
        s.no_duplicates(),
    ensures
        s.filter(keep).no_duplicates(),
    decreases s.len(),
{
    reveal(Seq::filter);
    if s.len() > 0 {
        let before = s.drop_last();
        assert forall|i: int, j: int| 0 <= i < j < before.len() implies before[i]
            != before[j] by {
            assert(before[i] == s[i]);
            assert(before[j] == s[j]);
        }
        lemma_filter_distinct(before, keep);
        if keep(s.last()) {
            let f = before.filter(keep);
            assert forall|i: int| 0 <= i < f.len() implies f[i] != s.last() by {
                before.lemma_filter_contains_rev(keep, f[i]);
                let j = before.index_of(f[i]);
                assert(s[j] == f[i]);
            }
        }
    }
}

/// The entries that a chained one sets free no longer wait for something that is
/// not known.
proof fn lemma_freed_orphans(m: ManagerModel, after: ManagerModel, author: Seq<u8>, hash: Seq<u8>)
    requires
        author.len() == 32,
        hash.len() == 32,
        !m.hashes.contains(hash),
        after.hashes == m.hashes.insert(hash),
        forall|k: Seq<u8>| #[trigger]
            after.orphans.orphans.dom().contains(k) ==> m.orphans.orphans.dom().contains(k),
        table::lists(
            table::sorted_keys(m.orphans.orphans.dom()),
            m.orphans.orphans.dom(),
        ),
        m.orphans.orphans.dom().finite(),
    ensures
        open_orphans(after).len() + manager::ready_after(
            m.orphans.orphans,
            author,
            hash,
        ).len() <= open_orphans(m).len(),
{
    let dom = m.orphans.orphans.dom();
    let lo = orphan_store::joined(author, hash, bytes::zeros(32));
    let hi = orphan_store::joined(author, hash, orphan_store::ones(32));
    let ks = table::keys_between(table::sorted_keys(dom), lo, hi);
    let items = ks.map_values(|k: Seq<u8>| orphan_store::orphan_at(m.orphans.orphans, k));
    let small = open_orphans(after);
    let big = open_orphans(m);
    lemma_between(dom, lo, hi);
    results::lemma_all_ok(items);
    dom.lemma_len_filter(|k: Seq<u8>| !m.hashes.contains(k.subrange(32, 64)));
    assert(big.finite());
    let none = Seq::<Seq<u8>>::empty();
    match results::all_ok(items) {
        Ok(values) => {
            assert(orphan_store::orphans_under(m.orphans.orphans, ks)
                == results::all_ok(items));
            assert forall|i: int| 0 <= i < ks.len() implies big.contains(#[trigger] ks[i])
                && !small.contains(ks[i]) by {
                assert(items[i] == orphan_store::orphan_at(m.orphans.orphans, ks[i]));
                assert(items[i] is Ok);
                let p = author + hash;
                orphan_store::law_range_is_prefix(p, ks[i], 32);
                assert(lo =~= p + bytes::zeros(32));
                assert(hi =~= p + orphan_store::ones(32));
                assert(ks[i].subrange(32, 64) =~= hash) by {
                    assert(ks[i].take(64) == p);
                    assert forall|j: int| 0 <= j < 32 implies ks[i].subrange(32, 64)[j]
                        == hash[j] by {
                        assert(ks[i].take(64)[32 + j] == p[32 + j]);
                    }
                }
            }
            lemma_fewer(small, big, ks);
        },
        Err(_) => {
            lemma_fewer(small, big, none);
        },
    }
}

proof fn lemma_freed_dag(m: ManagerModel, after: ManagerModel, hash: Seq<u8>)
    requires
        hash.len() == 32,
        !m.hashes.contains(hash),
        after.hashes == m.hashes.insert(hash),
        forall|k: Seq<u8>| #[trigger]
            after.orphans.dag.dom().contains(k) ==> m.orphans.dag.dom().contains(k),
        table::lists(table::sorted_keys(after.orphans.dag.dom()), after.orphans.dag.dom()),
        m.orphans.dag.dom().finite(),
    ensures
        open_dag(after).len() + manager::dag_ready_after(after.orphans.dag, hash).len() <= open_dag(
            m,
        ).len(),
{
    let dag = after.orphans.dag;
    let dom = dag.dom();
    let lo = orphan_store::joined(hash, bytes::zeros(32), bytes::zeros(32));
    let hi = orphan_store::joined(hash, orphan_store::ones(32), orphan_store::ones(32));
    let ks = table::keys_between(table::sorted_keys(dom), lo, hi);
    let items = ks.map_values(|k: Seq<u8>| orphan_store::dag_orphan_at(dag, k));
    let small = open_dag(after);
    let big = open_dag(m);
    lemma_between(dom, lo, hi);
    results::lemma_all_ok(items);
    m.orphans.dag.dom().lemma_len_filter(|k: Seq<u8>| !m.hashes.contains(k.subrange(0, 32)));
    assert(big.finite());
    let none = Seq::<Seq<u8>>::empty();
    match results::all_ok(items) {
        Ok(values) => {
            assert(orphan_store::dag_orphans_under(dag, ks) == results::all_ok(items));
            assert forall|i: int| 0 <= i < ks.len() implies big.contains(#[trigger] ks[i])
                && !small.contains(ks[i]) by {
                assert(items[i] == orphan_store::dag_orphan_at(dag, ks[i]));
                assert(items[i] is Ok);
                orphan_store::law_range_is_prefix(hash, ks[i], 64);
                assert(lo =~= hash + bytes::zeros(64));
                assert(hi =~= hash + orphan_store::ones(64));
                assert(ks[i].subrange(0, 32) =~= hash);
            }
            lemma_fewer(small, big, ks);
        },
        Err(_) => {
            lemma_fewer(small, big, none);
        },
    }
}

proof fn lemma_one_more(small: Set<Seq<u8>>, big: Set<Seq<u8>>, k: Seq<u8>)
    requires
        big.finite(),
        forall|x: Seq<u8>| #[trigger] small.contains(x) ==> big.contains(x) || x == k,
    ensures
        small.len() <= big.len() + 1,
{
    assert(small.subset_of(big.insert(k)));
    vstd::set_lib::lemma_len_subset(small, big.insert(k));
}

/// Every task brings the work closer to its end: fewer entries wait for something
/// that is not known or have to be dealt with; or as many, and fewer of those
/// that have to be dealt with.
pub proof fn lemma_work_shrinks(w: WorkModel, now: u64)
    requires
        w.tasks.len() > 0,
        orphans_finite(w.actor.manager),
        w.tasks.last().entry.author_id.len() == 32,
        w.tasks.last().entry.hash().len() == 32,
        table::lists(
            table::sorted_keys(w.actor.manager.orphans.orphans.dom()),
            w.actor.manager.orphans.orphans.dom(),
        ),
        table::lists(
            table::sorted_keys(worked(w, now).actor.manager.orphans.dag.dom()),
            worked(w, now).actor.manager.orphans.dag.dom(),
        ),
    ensures
        ({
            let v = worked(w, now);
            let before = open_count(w.actor.manager) + w.tasks.len();
            let after = open_count(v.actor.manager) + v.tasks.len();
            after < before || (after == before && v.tasks.len() < w.tasks.len())
        }),
{
    reveal(worked);
    let v = worked(w, now);
    let t = w.tasks.last();
    let e = t.entry;
    let m = w.actor.manager;
    let after = v.actor.manager;
    let none = Seq::<Seq<u8>>::empty();
    m.orphans.orphans.dom().lemma_len_filter(
        |k: Seq<u8>| !m.hashes.contains(k.subrange(32, 64)),
    );
    m.orphans.dag.dom().lemma_len_filter(|k: Seq<u8>| !m.hashes.contains(k.subrange(0, 32)));
    assert(open_orphans(m).finite());
    assert(open_dag(m).finite());
    match manager::verdict(m, e) {
        Verdict::Valid => {
            let known = manager::knowing(m, e.author_id);
            match unknown_parent(known.hashes, e.entry.parent_hashes) {
                Some(parent) => {
                    let k = orphan_store::joined(
                        parent,
                        crypto::blake3_hash(state::first_key(e.entry)),
                        e.hash(),
                    );
                    lemma_one_more(open_dag(after), open_dag(m), k);
                    lemma_fewer(open_orphans(after), open_orphans(m), none);
                },
                None => {
                    match state::applied(w.actor.state, e) {
                        Ok(_) if e.encoding().len() <= MAX_ENTRY_SIZE => {
                            lemma_freed_orphans(m, after, e.author_id, e.hash());
                            lemma_freed_dag(m, after, e.hash());
                        },
                        _ => {
                            lemma_fewer(open_orphans(after), open_orphans(m), none);
                            lemma_fewer(open_dag(after), open_dag(m), none);
                        },
                    }
                },
            }
        },
        Verdict::Orphan(gap, prev) => {
            let k = orphan_store::joined(gap.author, prev, e.hash());
            lemma_one_more(open_orphans(after), open_orphans(m), k);
            lemma_fewer(open_dag(after), open_dag(m), none);
        },
        _ => {
            lemma_fewer(open_orphans(after), open_orphans(m), none);
            lemma_fewer(open_dag(after), open_dag(m), none);
        },
    }
}

} // verus!
