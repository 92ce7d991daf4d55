//! The store's actor: it owns a store, takes entries in and answers commands.
//!
//! Whatever it has to tell its listeners it keeps until they ask for it.
pub mod command;
pub mod laws;
pub mod model;
pub mod news;
pub mod replies;

use crate::bytes::{to_vec, Digest, PubKey};
use crate::clock::{Clock, SystemClock};
use crate::entry::{ChainTip, SignedEntry};
use crate::head;
use crate::head::{Head, HeadModel};
use crate::message;
use crate::node_identity::NodeIdentity;
use crate::proto::storage::{OpType, Operation, PeerSyncInfo};
use crate::store::actor::model::{
    ActorFault, ActorModel, EventModel, TaskModel, WorkModel,
};
use crate::store::error::{ParentFault, ParentValidationError, StateError, StateFault};
use crate::store::peer_sync_store;
use crate::store::peer_sync_store::PeerSyncStore;
use crate::store::sigchain::manager;
use crate::store::sigchain::manager::{
    ManagerModel, ReadyOrphan, SigChainManager, SigchainValidation, 
};
use crate::store::sigchain::orphan_store;
use crate::store::sigchain::orphan_store::GapInfo;
use crate::store::sigchain::{ChainFault, SigChainError};
use crate::store::state;
use crate::store::state::State;
use crate::store::sync_state::{SyncDiscrepancy, SyncNeeded, SyncState};
use crate::store::watch;
use crate::store::watch::{
    copy_heads, pattern_error, FilterModel, WatchError,
    WatchEvent, WatchEventKind, WatchModel, WatcherFilter,
};
use crate::store::log;
use crate::store::log::LogError;
use crate::table;
use crate::MAX_ENTRY_SIZE;
use vstd::prelude::*;
use vstd::string::*;

verus! {

// ---------------------------------------------------------------------------
// Errors and events
// ---------------------------------------------------------------------------

/// What can go wrong with a command.
#[derive(Debug, PartialEq, Eq)]
pub enum StoreActorError {
    /// The state failed, or refused an entry.
    State(StateError),
    /// An entry cannot be chained.
    SigChain(SigChainError),
}

impl View for StoreActorError {
    type V = ActorFault;

    open spec fn view(&self) -> ActorFault {
        match self {
            StoreActorError::State(e) => ActorFault::State(e@),
            StoreActorError::SigChain(e) => ActorFault::SigChain(e@),
        }
    }
}

impl ActorFault {
    /// The text of the error.
    pub open spec fn text(self) -> Seq<char> {
        match self {
            ActorFault::State(f) => "State error: "@ + f.text(),
            ActorFault::SigChain(f) => "SigChain error: "@ + f.text(),
        }
    }

    /// The error as one of the state.
    pub open spec fn as_state_fault(self) -> StateFault {
        match self {
            ActorFault::State(f) => f,
            ActorFault::SigChain(f) => StateFault::SigChain(f),
        }
    }
}

impl StoreActorError {
    /// The text of the error.
    pub fn to_string(&self) -> (r: String)
        ensures
            r@ == self@.text(),
    {
        match self {
            StoreActorError::State(e) => "State error: ".to_owned().concat(e.to_string().as_str()),
            StoreActorError::SigChain(e) => "SigChain error: ".to_owned().concat(
                e.to_string().as_str(),
            ),
        }
    }

    /// The error as one of the state.
    pub fn into_state_error(self) -> (r: StateError)
        ensures
            r@ == self@.as_state_fault(),
    {
        match self {
            StoreActorError::State(e) => e,
            StoreActorError::SigChain(e) => StateError::SigChain(e),
        }
    }
}

/// What the actor tells its listeners.
#[derive(Debug)]
pub enum StoreEvent {
    /// An entry was chained and applied.
    Entry(SignedEntry),
    /// A peer and we have to sync.
    SyncNeeded(SyncNeeded),
    /// Something happened to a key that a watcher asks for.
    Watch { watcher: u64, event: WatchEvent },
}

impl View for StoreEvent {
    type V = EventModel;

    open spec fn view(&self) -> EventModel {
        match self {
            StoreEvent::Entry(e) => EventModel::Entry(e@),
            StoreEvent::SyncNeeded(s) => EventModel::SyncNeeded(s.peer@, s.discrepancy),
            StoreEvent::Watch { watcher, event } => EventModel::Watch(*watcher, event@),
        }
    }
}

/// Somebody who wants to know of keys.
#[derive(Debug)]
pub struct Watcher {
    pub id: u64,
    pub filter: WatcherFilter,
}

impl View for Watcher {
    type V = (u64, FilterModel);

    open spec fn view(&self) -> (u64, FilterModel) {
        (self.id, self.filter@)
    }
}

/// An entry that has to be dealt with, and what it is filed under as one that
/// waits.
struct Task {
    entry: SignedEntry,
    /// The key that it is about, the parent that it waits for, and its hash.
    dag: Option<(Vec<u8>, Digest, Digest)>,
    /// The author, the predecessor that it waits for, and its hash.
    chain: Option<(PubKey, Digest, Digest)>,
}

impl View for Task {
    type V = TaskModel;

    closed spec fn view(&self) -> TaskModel {
        TaskModel {
            entry: self.entry@,
            dag: match self.dag {
                Some(t) => Some((t.0@, t.1@, t.2@)),
                None => None,
            },
            chain: match self.chain {
                Some(t) => Some((t.0@, t.1@, t.2@)),
                None => None,
            },
        }
    }
}

// ---------------------------------------------------------------------------
// The actor
// ---------------------------------------------------------------------------

/// The owner of a store.
pub struct StoreActor {
    state: State,
    chain_manager: SigChainManager,
    peer_store: PeerSyncStore,
    node: NodeIdentity,
    watchers: Vec<Watcher>,
    next_watcher_id: u64,
    events: Vec<StoreEvent>,
}

impl View for StoreActor {
    type V = ActorModel;

    closed spec fn view(&self) -> ActorModel {
        ActorModel {
            state: self.state@,
            manager: self.chain_manager@,
            peers: self.peer_store@,
            secret: self.node.secret(),
            watchers: message::models(self.watchers@),
            next_watcher_id: self.next_watcher_id,
            events: message::models(self.events@),
        }
    }
}

impl StoreActor {
    /// The parts are well formed.
    pub closed spec fn wf(&self) -> bool {
        &&& self.state.wf()
        &&& self.chain_manager.wf()
        &&& self.peer_store.wf()
    }

    /// An actor without watchers for the node. The node's own chain is known from
    /// the start.
    pub fn new(
        state: State,
        chain_manager: SigChainManager,
        peer_store: PeerSyncStore,
        node: NodeIdentity,
    ) -> (r: Self)
        requires
            state.wf(),
            chain_manager.wf(),
            peer_store.wf(),
        ensures
            r.wf(),
            r@ == (ActorModel {
                state: state@,
                manager: manager::knowing(chain_manager@, node.public()),
                peers: peer_store@,
                secret: node.secret(),
                watchers: Seq::empty(),
                next_watcher_id: 0,
                events: Seq::empty(),
            }),
    {
        let mut chain_manager = chain_manager;
        let local_author = node.public_key();
        let _ = chain_manager.get_or_create(&local_author);
        let r = StoreActor {
            state,
            chain_manager,
            peer_store,
            node,
            watchers: Vec::new(),
            next_watcher_id: 0,
            events: Vec::new(),
        };
        assert(r@.watchers =~= Seq::empty());
        assert(r@.events =~= Seq::empty());
        r
    }

    /// Takes one more thing to tell.
    fn tell(&mut self, event: StoreEvent)
        requires
            old(self).wf(),
        ensures
            final(self).wf(),
            final(self)@ == model::telling(old(self)@, seq![event@]),
    {
        let ghost before = self@;
        let ghost events = self.events@;
        self.events.push(event);
        proof {
            assert(message::models(self.events@) =~= message::models(events) + seq![event@]);
            assert(self@ =~= model::telling(before, seq![event@]));
        }
    }

    /// Tells the watchers what happened to a key.
    fn emit_watch_event(&mut self, key: &[u8], kind: &WatchEventKind)
        requires
            old(self).wf(),
        ensures
            final(self).wf(),
            final(self)@ == model::telling(
                old(self)@,
                model::watch_news(old(self)@.watchers, key@, kind@),
            ),
    {
        let ghost before = self@;
        let ghost all = before.watchers;
        let mut i: usize = 0;
        proof {
            assert(all.take(0) =~= Seq::empty());
            assert(self@ =~= model::telling(before, Seq::empty()));
        }
        while i < self.watchers.len()
            invariant
                self.wf(),
                before.watchers == all,
                self@.watchers == all,
                message::models(self.watchers@) == all,
                self.watchers@.len() == all.len(),
                i <= all.len(),
                self@ == model::telling(
                    before,
                    model::watch_news(all.take(i as int), key@, kind@),
                ),
            decreases all.len() - i,
        {
            let ghost told = self@;
            let ghost news = model::watch_news(all.take(i as int), key@, kind@);
            proof {
                assert(all.take(i + 1).drop_last() =~= all.take(i as int));
                assert(all.take(i + 1).last() == self.watchers@[i as int]@);
            }
            if self.watchers[i].filter.matches(key) {
                let event = WatchEvent { key: to_vec(key), kind: kind.clone() };
                let watcher: u64 = self.watchers[i].id;
                let ghost x = EventModel::Watch(watcher, event@);
                self.tell(StoreEvent::Watch { watcher, event });
                proof {
                    assert(before.events + news + seq![x] =~= before.events + news.push(x));
                    assert(self@ =~= model::telling(before, news.push(x)));
                    assert(message::models(self.watchers@).len() == self.watchers@.len());
                }
            }
            i += 1;
        }
        assert(all.take(i as int) =~= all);
    }

    /// Tells the watchers what an entry did.
    fn emit_watch_events_for_entry(&mut self, entry: &SignedEntry)
        requires
            old(self).wf(),
        ensures
            final(self).wf(),
            final(self)@ == model::telling(
                old(self)@,
                model::ops_news(old(self)@.watchers, old(self)@.state.kv, entry@.entry.ops),
            ),
    {
        let ghost before = self@;
        let ghost ops = entry@.entry.ops;
        let mut i: usize = 0;
        proof {
            assert(ops.take(0) =~= Seq::empty());
            assert(self@ =~= model::telling(before, Seq::empty()));
        }
        while i < entry.entry.ops.len()
            invariant
                self.wf(),
                ops == message::models(entry.entry.ops@),
                i <= ops.len(),
                self@ == model::telling(
                    before,
                    model::ops_news(before.watchers, before.state.kv, ops.take(i as int)),
                ),
            decreases ops.len() - i,
        {
            let ghost told = self@;
            let ghost news = model::ops_news(before.watchers, before.state.kv, ops.take(i as int));
            let op = &entry.entry.ops[i];
            proof {
                assert(ops.take(i + 1).drop_last() =~= ops.take(i as int));
                assert(ops.take(i + 1).last() == op@);
            }
            match &op.op_type {
                Some(OpType::Put(put)) => {
                    match self.state.get_heads(put.key.as_slice()) {
                        Ok(heads) => {
                            self.emit_watch_event(
                                put.key.as_slice(),
                                &WatchEventKind::Update { heads },
                            );
                        },
                        Err(_) => {},
                    }
                },
                Some(OpType::Delete(delete)) => {
                    self.emit_watch_event(delete.key.as_slice(), &WatchEventKind::Delete);
                },
                None => {},
            }
            proof {
                let more = model::op_news(before.watchers, before.state.kv, op@);
                assert(before.events + news + more =~= before.events + (news + more));
                assert(self@ =~= model::telling(before, news + more));
            }
            i += 1;
        }
        assert(ops.take(i as int) =~= ops);
    }

    /// What we and a peer lack of each other, by what the peer said.
    fn discrepancy_with(local: &SyncState, info: &PeerSyncInfo) -> (r: Option<SyncDiscrepancy>)
        requires
            local.wf(),
        ensures
            r == model::peer_discrepancy(local@, info@),
    {
        match &info.sync_state {
            Some(said) => {
                let peer_state = SyncState::from_proto(said);
                local.checked_discrepancy(&peer_state)
            },
            None => Some(SyncDiscrepancy::default()),
        }
    }

    /// Tells of the peers, among those whose words are kept, that have to sync.
    fn emit_sync_for_stale_peers(&mut self)
        requires
            old(self).wf(),
        ensures
            final(self).wf(),
            final(self)@ == model::telling(old(self)@, model::sync_news(old(self)@)),
    {
        let ghost before = self@;
        let local_state = self.chain_manager.sync_state();
        let cached = self.peer_store.list_peer_sync_states();
        let ghost peers = peer_sync_store::listed_peers(cached@);
        let mut i: usize = 0;
        proof {
            assert(peers.take(0) =~= Seq::empty());
            assert(self@ =~= model::telling(before, Seq::empty()));
        }
        while i < cached.len()
            invariant
                self.wf(),
                local_state.wf(),
                peers == peer_sync_store::listed_peers(cached@),
                i <= cached@.len(),
                self@ == model::telling(
                    before,
                    model::peers_news(local_state@, peers.take(i as int)),
                ),
            decreases cached@.len() - i,
        {
            let ghost news = model::peers_news(local_state@, peers.take(i as int));
            proof {
                assert(peers.take(i + 1).drop_last() =~= peers.take(i as int));
                assert(peers.take(i + 1).last() == peers[i as int]);
                assert(peers[i as int] == (cached@[i as int].0@, cached@[i as int].1@));
            }
            let peer: PubKey = cached[i].0;
            match StoreActor::discrepancy_with(&local_state, &cached[i].1) {
                Some(discrepancy) => {
                    if discrepancy.is_out_of_sync() {
                        self.tell(StoreEvent::SyncNeeded(SyncNeeded { peer, discrepancy }));
                    }
                },
                None => {},
            }
            proof {
                let more = model::peer_news(local_state@, peer@, cached@[i as int].1@);
                assert(before.events + news + more =~= before.events + (news + more));
                assert(self@ =~= model::telling(before, news + more));
            }
            i += 1;
        }
        assert(peers.take(i as int) =~= peers);
    }

    /// The first of the entry's parents that is not known, with the key that the
    /// entry is about.
    fn missing_parent(&self, entry: &SignedEntry) -> (r: Option<(Vec<u8>, Digest)>)
        requires
            self.wf(),
        ensures
            match model::unknown_parent(
                self@.manager.hashes,
                entry@.entry.parent_hashes,
            ) {
                Some(p) => r matches Some((key, h)) && key@ == state::first_key(entry@.entry)
                    && h@ == p,
                None => r is None,
            },
    {
        let chain_manager = &self.chain_manager;
        let known = |h: &Digest| -> (r: bool)
            requires
                chain_manager.wf(),
            ensures
                r == chain_manager@.hashes.contains(h@),
            { chain_manager.hash_exists(h) };
        let ghost hashes = self@.manager.hashes;
        let ghost parents = entry.entry.parent_hashes@;
        match self.state.validate_parent_hashes_with_index(entry, known) {
            Ok(()) => {
                proof {
                    assert forall|i: int| 0 <= i < parents.len() implies hashes.contains(
                        #[trigger] entry@.entry.parent_hashes[i],
                    ) by {
                        assert(state::says(known, parents[i], true));
                    }
                    model::lemma_all_known(hashes, entry@.entry.parent_hashes);
                }
                None
            },
            Err(ParentValidationError::MissingParent { key, awaited_hash }) => {
                let ghost at = choose|i: int|
                    #[trigger] state::first_unknown(known, parents, i) && ParentFault::MissingParent(
                        key@,
                        awaited_hash@,
                    ) == ParentFault::MissingParent(
                        state::first_key(entry@.entry),
                        parents[i]@,
                    );
                proof {
                    assert(state::first_unknown(known, parents, at));
                    assert(state::says(known, parents[at], false));
                    assert forall|i: int| 0 <= i < at implies hashes.contains(
                        #[trigger] entry@.entry.parent_hashes[i],
                    ) by {
                        assert(state::says(known, parents[i], true));
                    }
                    assert(entry@.entry.parent_hashes[at] == parents[at]@);
                    model::lemma_first_unknown(hashes, entry@.entry.parent_hashes, at);
                }
                let parent: Digest = crate::bytes::to_array32(awaited_hash.as_slice());
                Some((key, parent))
            },
            Err(_) => {
                assert(false);
                None
            },
        }
    }

    /// Takes the entry out of those that wait.
    fn drop_dag(&mut self, task: &Task)
        requires
            old(self).wf(),
        ensures
            final(self).wf(),
            final(self)@ == (ActorModel {
                manager: model::dag_done(old(self)@.manager, task@),
                ..old(self)@
            }),
    {
        let ghost before = self@;
        match &task.dag {
            Some((key, parent, hash)) => {
                self.chain_manager.delete_dag_orphan(key.as_slice(), parent, hash);
            },
            None => {},
        }
        assert(self@ =~= (ActorModel {
            manager: model::dag_done(before.manager, task@),
            ..before
        }));
    }

    fn drop_chain(&mut self, task: &Task)
        requires
            old(self).wf(),
        ensures
            final(self).wf(),
            final(self)@ == (ActorModel {
                manager: model::chain_done(old(self)@.manager, task@),
                ..old(self)@
            }),
    {
        let ghost before = self@;
        match &task.chain {
            Some((author, prev, hash)) => {
                self.chain_manager.delete_sigchain_orphan(author, prev, hash);
            },
            None => {},
        }
        assert(self@ =~= (ActorModel {
            manager: model::chain_done(before.manager, task@),
            ..before
        }));
    }

    /// Applies and chains an entry that comes next in its chain and whose parents
    /// are all known, and tells of it. What waited for it has to be dealt with
    /// next.
    fn commit_task(&mut self, task: &Task, tasks: &mut Vec<Task>) -> (r: Result<
        (),
        StoreActorError,
    >)
        requires
            old(self).wf(),
            manager::knowing(old(self)@.manager, task@.entry.author_id) == old(self)@.manager,
        ensures
            final(self).wf(),
            match state::applied(old(self)@.state, task@.entry) {
                Err(f) => {
                    &&& r matches Err(e) && e@ == ActorFault::State(f)
                    &&& final(self)@ == old(self)@
                    &&& final(tasks)@ == old(tasks)@
                },
                Ok(st) => if task@.entry.encoding().len() > MAX_ENTRY_SIZE {
                    &&& r matches Err(e) && e@ == ActorFault::SigChain(
                        ChainFault::Log(
                            LogError::EntryTooLarge(task@.entry.encoding().len() as usize),
                        ),
                    )
                    &&& final(self)@ == (ActorModel { state: st, ..old(self)@ })
                    &&& final(tasks)@ == old(tasks)@
                } else {
                    &&& r is Ok
                    &&& final(self)@ == model::committed(old(self)@, task@, st)
                    &&& message::models(final(tasks)@) == message::models(old(tasks)@)
                        + model::freed(old(self)@, task@)
                },
            },
    {
        let ghost start = self@;
        let ghost before = message::models(tasks@);
        match self.state.apply_entry(&task.entry) {
            Ok(()) => {},
            Err(e) => {
                return Err(StoreActorError::State(e));
            },
        }
        let ghost st = self.state@;
        assert(self@ =~= (ActorModel { state: st, ..start }));
        let ready = match self.chain_manager.commit_entry(&task.entry) {
            Ok(ready) => ready,
            Err(e) => {
                proof {
                    assert(self@ =~= (ActorModel { state: st, ..start }));
                }
                return Err(StoreActorError::SigChain(e));
            },
        };
        let ghost chained = ActorModel {
            state: st,
            manager: manager::committed(start.manager, task@.entry),
            ..start
        };
        assert(self@ =~= chained);
        self.drop_dag(task);
        self.drop_chain(task);
        let ghost cleared = ActorModel {
            manager: model::chain_done(model::dag_done(chained.manager, task@), task@),
            ..chained
        };
        assert(self@ =~= cleared);
        self.emit_watch_events_for_entry(&task.entry);
        self.tell(StoreEvent::Entry(task.entry.clone()));
        self.emit_sync_for_stale_peers();
        assert(self@ =~= model::committed(start, task@, st));
        let entry_hash = task.entry.hash();
        let dag = self.chain_manager.find_dag_orphans(&entry_hash);
        StoreActor::push_ready(tasks, ready);
        StoreActor::push_dag(tasks, dag, entry_hash);
        assert(message::models(tasks@) =~= before + model::freed(start, task@));
        Ok(())
    }

    /// Adds the entries that waited for their predecessor to the tasks.
    fn push_ready(tasks: &mut Vec<Task>, ready: Vec<ReadyOrphan>)
        ensures
            message::models(final(tasks)@) == message::models(old(tasks)@) + model::ready_tasks(
                message::models(ready@),
            ),
    {
        let ghost before = message::models(tasks@);
        let ghost all = message::models(ready@);
        let mut i: usize = 0;
        assert(before + model::ready_tasks(all).take(0) =~= before);
        while i < ready.len()
            invariant
                all == message::models(ready@),
                i <= ready@.len(),
                message::models(tasks@) == before + model::ready_tasks(all).take(i as int),
            decreases ready@.len() - i,
        {
            let o = &ready[i];
            let ghost so_far = tasks@;
            let task = Task {
                entry: o.entry.clone(),
                dag: None,
                chain: Some((o.author, o.prev_hash, o.entry_hash)),
            };
            let ghost t = task@;
            tasks.push(task);
            proof {
                assert(model::ready_tasks(all)[i as int] == t) by {
                    assert(all[i as int] == o@);
                }
                assert(message::models(tasks@) =~= message::models(so_far).push(t));
                assert(model::ready_tasks(all).take(i + 1) =~= model::ready_tasks(all).take(
                    i as int,
                ).push(t));
                assert(before + model::ready_tasks(all).take(i + 1) =~= (before
                    + model::ready_tasks(all).take(i as int)).push(t));
            }
            i += 1;
        }
        assert(model::ready_tasks(all).take(i as int) =~= model::ready_tasks(all));
    }

    /// Adds the entries that waited for a parent to the tasks.
    fn push_dag(
        tasks: &mut Vec<Task>,
        found: Vec<(Vec<u8>, SignedEntry, Digest)>,
        parent: Digest,
    )
        ensures
            message::models(final(tasks)@) == message::models(old(tasks)@) + model::dag_tasks(
                orphan_store::dag_orphan_models(found@),
                parent@,
            ),
    {
        let ghost before = message::models(tasks@);
        let ghost all = orphan_store::dag_orphan_models(found@);
        let ghost new = model::dag_tasks(all, parent@);
        let mut i: usize = 0;
        assert(before + new.take(0) =~= before);
        while i < found.len()
            invariant
                all == orphan_store::dag_orphan_models(found@),
                new == model::dag_tasks(all, parent@),
                i <= found@.len(),
                message::models(tasks@) == before + new.take(i as int),
            decreases found@.len() - i,
        {
            let ghost so_far = tasks@;
            let task = Task {
                entry: found[i].1.clone(),
                dag: Some((to_vec(found[i].0.as_slice()), parent, found[i].2)),
                chain: None,
            };
            let ghost t = task@;
            tasks.push(task);
            proof {
                assert(new[i as int] == t) by {
                    assert(all[i as int] == (
                        found@[i as int].0@,
                        found@[i as int].1@,
                        found@[i as int].2@,
                    ));
                }
                assert(message::models(tasks@) =~= message::models(so_far).push(t));
                assert(new.take(i + 1) =~= new.take(i as int).push(t));
                assert(before + new.take(i + 1) =~= (before + new.take(i as int)).push(t));
            }
            i += 1;
        }
        assert(new.take(i as int) =~= new);
    }

    /// Deals with one task, at the given time.
    fn work(&mut self, task: Task, tasks: &mut Vec<Task>, first: bool, now: u64) -> (r: Result<
        (),
        StoreActorError,
    >)
        requires
            old(self).wf(),
        ensures
            final(self).wf(),
            task@.entry.hash().len() == 32,
            ({
                let v = model::worked(
                    WorkModel {
                        actor: old(self)@,
                        tasks: message::models(old(tasks)@).push(task@),
                        first,
                        failed: None,
                    },
                    now,
                );
                &&& final(self)@ == v.actor
                &&& message::models(final(tasks)@) == v.tasks
                &&& match v.failed {
                    None => r is Ok,
                    Some(f) => r matches Err(e) && e@ == f,
                }
            }),
    {
        let ghost start = self@;
        let ghost rest = message::models(tasks@);
        let ghost w = WorkModel { actor: start, tasks: rest.push(task@), first, failed: None };
        let ghost v = model::worked(w, now);
        proof {
            reveal(model::worked);
            assert(w.tasks.drop_last() =~= rest);
        }
        let hash = task.entry.hash();
        assert(hash@ == task@.entry.hash());
        let verdict = self.chain_manager.validate_entry(&task.entry);
        let ghost known = ActorModel {
            manager: manager::knowing(start.manager, task@.entry.author_id),
            ..start
        };
        assert(self@ =~= known);
        match verdict {
            SigchainValidation::Valid => {
                match self.missing_parent(&task.entry) {
                    Some((key, parent)) => {
                        self.drop_dag(&task);
                        self.chain_manager.buffer_dag_orphan(
                            &task.entry,
                            key.as_slice(),
                            &parent,
                        );
                        assert(self@ =~= v.actor);
                        Ok(())
                    },
                    None => {
                        proof {
                            assert(manager::knowing(known.manager, task@.entry.author_id)
                                =~= known.manager);
                        }
                        self.commit_task(&task, tasks)
                    },
                }
            },
            SigchainValidation::Orphan { gap, prev_hash } => {
                let last_hash: Digest = match gap.last_known_hash {
                    Some(h) => h,
                    None => [0u8;32],
                };
                self.chain_manager.buffer_sigchain_orphan_at(
                    &task.entry,
                    gap.author,
                    prev_hash,
                    gap.to_seq,
                    gap.from_seq,
                    last_hash,
                    now,
                );
                assert(self@ =~= v.actor);
                Ok(())
            },
            SigchainValidation::Duplicate => Ok(()),
            SigchainValidation::Error(e) => {
                if first {
                    Err(StoreActorError::SigChain(e))
                } else {
                    Ok(())
                }
            },
        }
    }

    /// Deals with an entry whose signature holds, received at the given time, and
    /// with everything that waited for it. State and chains stay in step, unless
    /// an entry turns out too large for its chain.
    fn commit_entry_at(&mut self, signed_entry: &SignedEntry, now: u64) -> (r: Result<
        (),
        StoreActorError,
    >)
        requires
            old(self).wf(),
        ensures
            final(self).wf(),
            model::finished(model::settled(model::work_on(old(self)@, signed_entry@), now)),
            ({
                let (after, fault) = model::taken(old(self)@, signed_entry@, now);
                &&& final(self)@ == after
                &&& match fault {
                    None => r is Ok,
                    Some(f) => r matches Err(e) && e@ == f,
                }
            }),
            model::in_step(old(self)@) && !(r matches Err(
                StoreActorError::SigChain(SigChainError::Log(_)),
            )) ==> model::in_step(final(self)@),
    {
        let ghost start = model::work_on(self@, signed_entry@);
        let mut tasks: Vec<Task> = Vec::new();
        tasks.push(Task { entry: signed_entry.clone(), dag: None, chain: None });
        let mut first = true;
        let ghost mut n: nat = 0;
        proof {
            assert(message::models(tasks@) =~= start.tasks);
        }
        while tasks.len() > 0
            invariant
                self.wf(),
                start == model::work_on(old(self)@, signed_entry@),
                model::worked_on(start, now, n) == (WorkModel {
                    actor: self@,
                    tasks: message::models(tasks@),
                    first,
                    failed: None,
                }),
                model::in_step(old(self)@) ==> model::in_step(self@),
            decreases
                    model::open_count(self@.manager) + tasks@.len(),
                    tasks@.len(),
        {
            let ghost before = model::worked_on(start, now, n);
            let ghost all = tasks@;
            proof {
                self.chain_manager.lemma_waiting();
            }
            match tasks.pop() {
                Some(task) => {
                    proof {
                        assert(message::models(all) =~= message::models(tasks@).push(task@));
                        assert(message::models(all).last() == task@);
                    }
                    let done = self.work(task, &mut tasks, first, now);
                    proof {
                        n = n + 1;
                        assert(model::worked_on(start, now, n) == model::worked(before, now));
                        self.chain_manager.lemma_waiting();
                        model::lemma_work_shrinks(before, now);
                        model::lemma_not_first(before, now);
                        if model::in_step(old(self)@) {
                            model::law_task_keeps_step(before, now);
                        }
                        assert(message::models(tasks@).len() == tasks@.len());
                    }
                    match done {
                        Ok(()) => {
                            first = false;
                        },
                        Err(e) => {
                            proof {
                                model::lemma_settled(start, now, n);
                            }
                            return Err(e);
                        },
                    }
                },
                None => {},
            }
        }
        proof {
            model::lemma_settled(start, now, n);
        }
        Ok(())
    }

    /// Takes an entry in, received at the given time. One whose signature does
    /// not hold is refused.
    pub fn ingest_entry_at(&mut self, entry: &SignedEntry, now: u64) -> (r: Result<
        (),
        StoreActorError,
    >)
        requires
            old(self).wf(),
        ensures
            final(self).wf(),
            entry@.verified() ==> model::finished(
                model::settled(model::work_on(old(self)@, entry@), now),
            ),
            ({
                let (after, fault) = model::ingested(old(self)@, entry@, now);
                &&& final(self)@ == after
                &&& match fault {
                    None => r is Ok,
                    Some(f) => r matches Err(e) && e@ == f,
                }
            }),
            model::in_step(old(self)@) && !(r matches Err(
                StoreActorError::SigChain(SigChainError::Log(_)),
            )) ==> model::in_step(final(self)@),
    {
        match entry.verify() {
            Ok(()) => self.commit_entry_at(entry, now),
            Err(_) => Err(
                StoreActorError::State(StateError::Unauthorized("Invalid signature".to_owned())),
            ),
        }
    }

    /// Takes an entry in, received now.
    pub fn ingest_entry(&mut self, entry: &SignedEntry) -> (r: Result<(), StoreActorError>)
        requires
            old(self).wf(),
        ensures
            final(self).wf(),
            exists|now: u64|
                {
                    let (after, fault) = #[trigger] model::ingested(old(self)@, entry@, now);
                    &&& final(self)@ == after
                    &&& match fault {
                        None => r is Ok,
                        Some(f) => r matches Err(e) && e@ == f,
                    }
                },
            model::in_step(old(self)@) && !(r matches Err(
                StoreActorError::SigChain(SigChainError::Log(_)),
            )) ==> model::in_step(final(self)@),
    {
        let now: u64 = SystemClock.now_secs();
        self.ingest_entry_at(entry, now)
    }

    /// Signs an operation of our own as the next entry of our chain, and takes it
    /// in.
    fn create_local_entry_at(
        &mut self,
        parent_hashes: Vec<Vec<u8>>,
        op: Operation,
        now_ms: u64,
        now: u64,
    ) -> (r: Result<(), StoreActorError>)
        requires
            old(self).wf(),
        ensures
            final(self).wf(),
            ({
                let (after, fault) = model::written(
                    old(self)@,
                    message::byte_models(parent_hashes@),
                    op@,
                    now_ms,
                    now,
                );
                &&& final(self)@ == after
                &&& match fault {
                    None => r is Ok,
                    Some(f) => r matches Err(e) && e@ == f,
                }
            }),
            model::in_step(old(self)@) && !(r matches Err(
                StoreActorError::SigChain(SigChainError::Log(_)),
            )) ==> model::in_step(final(self)@),
    {
        let ghost start = self@;
        let local_author = self.node.public_key();
        let mut ops: Vec<Operation> = Vec::new();
        ops.push(op);
        assert(message::models(ops@) =~= seq![op@]);
        let sigchain = self.chain_manager.get_or_create(&local_author);
        let entry = sigchain.build_entry_at(&self.node, parent_hashes, ops, now_ms);
        proof {
            let known = ActorModel {
                manager: manager::knowing(start.manager, local_author@),
                ..start
            };
            assert(self@ =~= known);
            if model::in_step(start) {
                assert forall|a: Seq<u8>| #[trigger] model::agrees_on(known, a) by {
                    assert(model::agrees_on(start, a));
                }
            }
        }
        self.ingest_entry_at(&entry, now)
    }

    /// The hashes of heads.
    fn hashes_of(heads: &Vec<Head>) -> (r: Vec<Vec<u8>>)
        ensures
            message::byte_models(r@) == model::head_hashes(head::head_models(heads@)),
    {
        let mut out: Vec<Vec<u8>> = Vec::new();
        let mut i: usize = 0;
        while i < heads.len()
            invariant
                i <= heads@.len(),
                out@.len() == i,
                forall|k: int| 0 <= k < i ==> (#[trigger] out@[k])@ == heads@[k].hash@,
            decreases heads@.len() - i,
        {
            out.push(to_vec(heads[i].hash.as_slice()));
            i += 1;
        }
        assert(message::byte_models(out@) =~= model::head_hashes(head::head_models(heads@)));
        out
    }

    /// Puts a value under a key, at the given times of the wall clock, in
    /// milliseconds and in seconds.
    pub fn put_at(&mut self, key: &[u8], value: &[u8], now_ms: u64, now: u64) -> (r: Result<
        (),
        StoreActorError,
    >)
        requires
            old(self).wf(),
        ensures
            final(self).wf(),
            ({
                let (after, fault) = model::put(old(self)@, key@, value@, now_ms, now);
                &&& final(self)@ == after
                &&& match fault {
                    None => r is Ok,
                    Some(f) => r matches Err(e) && e@ == f,
                }
            }),
            model::in_step(old(self)@) && !(r matches Err(
                StoreActorError::SigChain(SigChainError::Log(_)),
            )) ==> model::in_step(final(self)@),
    {
        let heads = match self.state.get_heads(key) {
            Ok(heads) => heads,
            Err(e) => {
                return Err(StoreActorError::State(e));
            },
        };
        if !State::needs_put(heads.as_slice(), value) {
            return Ok(());
        }
        let parents = StoreActor::hashes_of(&heads);
        match self.create_local_entry_at(
            parents,
            Operation::put(to_vec(key), to_vec(value)),
            now_ms,
            now,
        ) {
            Ok(()) => {},
            Err(e) => {
                return Err(e);
            },
        }
        let ghost after = self@;
        match self.state.get_heads(key) {
            Ok(heads) => {
                self.emit_watch_event(key, &WatchEventKind::Update { heads });
                proof {
                    if model::in_step(after) {
                        assert forall|a: Seq<u8>| #[trigger] model::agrees_on(self@, a) by {
                            assert(model::agrees_on(after, a));
                        }
                    }
                }
                Ok(())
            },
            Err(e) => Err(StoreActorError::State(e)),
        }
    }

    /// Puts values under keys, one after the other, at the given times of the wall
    /// clock. The first that fails is the end of it.
    pub fn put_all_at(
        &mut self,
        writes: &Vec<(Vec<u8>, Vec<u8>)>,
        now_ms: u64,
        now: u64,
    ) -> (r: Result<(), StoreActorError>)
        requires
            old(self).wf(),
        ensures
            final(self).wf(),
            ({
                let (after, fault) = model::puts(
                    old(self)@,
                    state::pair_models(writes@),
                    now_ms,
                    now,
                );
                &&& final(self)@ == after
                &&& match fault {
                    None => r is Ok,
                    Some(f) => r matches Err(e) && e@ == f,
                }
            }),
    {
        let ghost start = self@;
        let ghost all = state::pair_models(writes@);
        let mut i: usize = 0;
        assert(all.take(0) =~= Seq::empty());
        while i < writes.len()
            invariant
                self.wf(),
                i <= writes@.len(),
                all == state::pair_models(writes@),
                model::puts(start, all.take(i as int), now_ms, now) == (
                    self@,
                    None::<ActorFault>,
                ),
                start == old(self)@,
            decreases writes@.len() - i,
        {
            proof {
                assert(all.take(i + 1).drop_last() =~= all.take(i as int));
                assert(all.take(i + 1).last() == (writes@[i as int].0@, writes@[i as int].1@));
            }
            match self.put_at(writes[i].0.as_slice(), writes[i].1.as_slice(), now_ms, now) {
                Ok(()) => {},
                Err(e) => {
                    proof {
                        model::lemma_puts_stop(start, all, now_ms, now, i + 1);
                    }
                    return Err(e);
                },
            }
            i += 1;
        }
        assert(all.take(i as int) =~= all);
        Ok(())
    }

    /// Deletes a key, at the given times of the wall clock, in milliseconds and
    /// in seconds.
    pub fn delete_at(&mut self, key: &[u8], now_ms: u64, now: u64) -> (r: Result<
        (),
        StoreActorError,
    >)
        requires
            old(self).wf(),
        ensures
            final(self).wf(),
            ({
                let (after, fault) = model::deleted(old(self)@, key@, now_ms, now);
                &&& final(self)@ == after
                &&& match fault {
                    None => r is Ok,
                    Some(f) => r matches Err(e) && e@ == f,
                }
            }),
            model::in_step(old(self)@) && !(r matches Err(
                StoreActorError::SigChain(SigChainError::Log(_)),
            )) ==> model::in_step(final(self)@),
    {
        let heads = match self.state.get_heads(key) {
            Ok(heads) => heads,
            Err(e) => {
                return Err(StoreActorError::State(e));
            },
        };
        if !State::needs_delete(heads.as_slice()) {
            return Ok(());
        }
        let parents = StoreActor::hashes_of(&heads);
        match self.create_local_entry_at(parents, Operation::delete(to_vec(key)), now_ms, now) {
            Ok(()) => {},
            Err(e) => {
                return Err(e);
            },
        }
        let ghost after = self@;
        self.emit_watch_event(key, &WatchEventKind::Delete);
        proof {
            if model::in_step(after) {
                assert forall|a: Seq<u8>| #[trigger] model::agrees_on(self@, a) by {
                    assert(model::agrees_on(after, a));
                }
            }
        }
        Ok(())
    }

    /// Drops the waiting entries that their chains have passed: how many those
    /// were.
    pub fn cleanup_stale_orphans(&mut self) -> (r: usize)
        requires
            old(self).wf(),
        ensures
            final(self).wf(),
            ({
                let listed = manager::listed_orphans(old(self)@.manager.orphans.orphans);
                let (m, n) = model::cleaned(old(self)@.manager, listed);
                &&& final(self)@ == (ActorModel { manager: m, ..old(self)@ })
                &&& r == n
            }),
    {
        let ghost start = self@;
        let orphans = self.chain_manager.orphan_list();
        let ghost listed = message::models(orphans@);
        let mut removed: usize = 0;
        let mut i: usize = 0;
        assert(listed.take(0) =~= Seq::empty());
        while i < orphans.len()
            invariant
                self.wf(),
                listed == message::models(orphans@),
                i <= orphans@.len(),
                removed <= i,
                ({
                    let (m, n) = model::cleaned(start.manager, listed.take(i as int));
                    &&& self@ == (ActorModel { manager: m, ..start })
                    &&& removed == n
                }),
            decreases orphans@.len() - i,
        {
            let orphan = &orphans[i];
            proof {
                assert(listed.take(i + 1).drop_last() =~= listed.take(i as int));
                assert(listed.take(i + 1).last() == orphan@);
            }
            let next: u64 = self.chain_manager.get_or_create(&orphan.author).next_seq();
            if orphan.seq < next {
                self.chain_manager.delete_sigchain_orphan(
                    &orphan.author,
                    &orphan.prev_hash,
                    &orphan.entry_hash,
                );
                removed += 1;
            }
            i += 1;
            proof {
                let (m, n) = model::cleaned(start.manager, listed.take(i as int));
                assert(self@ =~= (ActorModel { manager: m, ..start }));
            }
        }
        assert(listed.take(i as int) =~= listed);
        removed
    }

    /// Puts a value under a key, now.
    pub fn put(&mut self, key: &[u8], value: &[u8]) -> (r: Result<(), StoreActorError>)
        requires
            old(self).wf(),
        ensures
            final(self).wf(),
            exists|now_ms: u64, now: u64|
                {
                    let (after, fault) = #[trigger] model::put(
                        old(self)@,
                        key@,
                        value@,
                        now_ms,
                        now,
                    );
                    &&& final(self)@ == after
                    &&& match fault {
                        None => r is Ok,
                        Some(f) => r matches Err(e) && e@ == f,
                    }
                },
            model::in_step(old(self)@) && !(r matches Err(
                StoreActorError::SigChain(SigChainError::Log(_)),
            )) ==> model::in_step(final(self)@),
    {
        let now_ms: u64 = SystemClock.now_ms();
        self.put_at(key, value, now_ms, now_ms / 1000)
    }

    /// Deletes a key, now.
    pub fn delete(&mut self, key: &[u8]) -> (r: Result<(), StoreActorError>)
        requires
            old(self).wf(),
        ensures
            final(self).wf(),
            exists|now_ms: u64, now: u64|
                {
                    let (after, fault) = #[trigger] model::deleted(old(self)@, key@, now_ms, now);
                    &&& final(self)@ == after
                    &&& match fault {
                        None => r is Ok,
                        Some(f) => r matches Err(e) && e@ == f,
                    }
                },
            model::in_step(old(self)@) && !(r matches Err(
                StoreActorError::SigChain(SigChainError::Log(_)),
            )) ==> model::in_step(final(self)@),
    {
        let now_ms: u64 = SystemClock.now_ms();
        self.delete_at(key, now_ms, now_ms / 1000)
    }

    // -----------------------------------------------------------------------
    // Questions
    // -----------------------------------------------------------------------

    /// The heads of a key, from the winner down.
    pub fn get(&self, key: &[u8]) -> (r: Result<Vec<Head>, StateError>)
        requires
            self.wf(),
        ensures
            match state::heads_at(self@.state.kv, key@) {
                Ok(heads) => r matches Ok(v) && head::head_models(v@) == head::ranked(heads),
                Err(f) => r matches Err(e) && e@ == f,
            },
    {
        self.state.get_heads(key)
    }

    /// All keys with their heads.
    pub fn list(&self) -> (r: Result<Vec<(Vec<u8>, Vec<Head>)>, StateError>)
        requires
            self.wf(),
        ensures
            match model::heads_with_prefix(self@, Seq::empty()) {
                Ok(pairs) => r matches Ok(v) && state::heads_pairs(v@) == pairs,
                Err(f) => r matches Err(e) && e@ == f,
            },
    {
        self.state.list_heads_all()
    }

    /// The keys that start with a prefix, with their heads.
    pub fn list_by_prefix(&self, prefix: &[u8]) -> (r: Result<
        Vec<(Vec<u8>, Vec<Head>)>,
        StateError,
    >)
        requires
            self.wf(),
        ensures
            match model::heads_with_prefix(self@, prefix@) {
                Ok(pairs) => r matches Ok(v) && state::heads_pairs(v@) == pairs,
                Err(f) => r matches Err(e) && e@ == f,
            },
    {
        self.state.list_heads_by_prefix(prefix)
    }

    /// The keys that a pattern matches, with their heads. A match may start anywhere in a
    /// key, so all keys are looked at.
    fn list_matching(&self, pattern: &str) -> (r: Result<Vec<(Vec<u8>, Vec<Head>)>, StateError>)
        requires
            self.wf(),
        ensures
            match model::heads_matching(self@, pattern@) {
                Ok(pairs) => r matches Ok(v) && state::heads_pairs(v@) == pairs,
                Err(f) => r matches Err(e) && e@ == f,
            },
    {
        let prefix: Vec<u8> = Vec::new();
        assert(prefix@ =~= Seq::empty());
        let all = match self.state.list_heads_by_prefix(prefix.as_slice()) {
            Ok(all) => all,
            Err(e) => {
                return Err(e);
            },
        };
        let ghost pairs = state::heads_pairs(all@);
        let ghost keep = |p: (Seq<u8>, Seq<HeadModel>)| model::key_matches(pattern@, p.0);
        let filter = WatcherFilter::Regex(pattern.to_owned());
        let mut out: Vec<(Vec<u8>, Vec<Head>)> = Vec::new();
        let mut i: usize = 0;
        proof {
            reveal(Seq::filter);
            assert(pairs.take(0).filter(keep) =~= Seq::empty());
            assert(state::heads_pairs(out@) =~= Seq::empty());
        }
        while i < all.len()
            invariant
                pairs == state::heads_pairs(all@),
                i <= all@.len(),
                filter@ == FilterModel::Regex(pattern@),
                keep == (|p: (Seq<u8>, Seq<HeadModel>)| model::key_matches(pattern@, p.0)),
                state::heads_pairs(out@) == pairs.take(i as int).filter(keep),
            decreases all@.len() - i,
        {
            let ghost before = out@;
            let (key, heads) = &all[i];
            proof {
                reveal(Seq::filter);
                assert(pairs.take(i + 1).drop_last() =~= pairs.take(i as int));
                assert(pairs.take(i + 1).last() == (key@, head::head_models(heads@)));
            }
            if filter.matches(key.as_slice()) {
                let copy = copy_heads(heads);
                let ghost x = (key@, head::head_models(copy@));
                out.push((to_vec(key.as_slice()), copy));
                assert(state::heads_pairs(out@) =~= state::heads_pairs(before).push(x));
            }
            i += 1;
        }
        assert(pairs.take(i as int) =~= pairs);
        Ok(out)
    }

    /// The keys that a regular expression matches, with their heads.
    pub fn list_by_regex(&self, pattern: &str) -> (r: Result<
        Vec<(Vec<u8>, Vec<Head>)>,
        StateError,
    >)
        requires
            self.wf(),
        ensures
            match watch::regex_fault(pattern@) {
                Some(why) => r matches Err(e) && e@ == StateFault::Conversion(
                    "Invalid regex: "@ + why,
                ),
                None => match model::heads_matching(self@, pattern@) {
                    Ok(pairs) => r matches Ok(v) && state::heads_pairs(v@) == pairs,
                    Err(f) => r matches Err(e) && e@ == f,
                },
            },
    {
        match pattern_error(pattern) {
            Some(e) => Err(StateError::Conversion(e.to_string())),
            None => self.list_matching(pattern),
        }
    }

    /// How many entries our own chain has.
    pub fn log_seq(&self) -> (r: u64)
        requires
            self.wf(),
        ensures
            r == manager::chain_of(self@.manager, self@.me()).next_seq - 1,
    {
        let local_author = self.node.public_key();
        match self.chain_manager.get(&local_author) {
            Some(chain) => chain.len(),
            None => 0,
        }
    }

    /// The sequence number of the last entry of our own that was applied.
    pub fn applied_seq(&self) -> (r: u64)
        requires
            self.wf(),
        ensures
            r == match state::tip_at(self@.state.tips, self@.me()) {
                Some(tip) => tip.seq,
                None => 0,
            },
    {
        let author = self.node.public_key();
        match self.state.chain_tip(&author) {
            Some(tip) => tip.seq,
            None => 0,
        }
    }

    /// The last entry of an author that was applied.
    pub fn chain_tip(&self, author: &PubKey) -> (r: Option<ChainTip>)
        requires
            self.wf(),
        ensures
            match state::tip_at(self@.state.tips, author@) {
                Some(tip) => r matches Some(x) && x@ == tip,
                None => r is None,
            },
    {
        self.state.chain_tip(author)
    }

    /// How far every chain has got.
    pub fn sync_state(&self) -> (r: SyncState)
        requires
            self.wf(),
        ensures
            r.wf(),
            r@ == manager::sync_of(self@.manager.chains),
    {
        self.chain_manager.sync_state()
    }

    /// The entries of an author in a range of sequence numbers, up to the first
    /// that cannot be read.
    pub fn entries_in_range(&self, author: &PubKey, from_seq: u64, to_seq: u64) -> (r: Vec<
        SignedEntry,
    >)
        requires
            self.wf(),
        ensures
            message::models(r@) == log::range_entries(
                manager::chain_of(self@.manager, author@).log,
                from_seq,
                to_seq,
            ),
    {
        match self.chain_manager.get(author) {
            Some(chain) => chain.log().entries_in_range(from_seq, to_seq),
            None => {
                let none: Vec<SignedEntry> = Vec::new();
                proof {
                    assert(message::models(none@) =~= Seq::empty());
                    log::lemma_nothing_in_range(from_seq, to_seq);
                }
                none
            },
        }
    }

    /// The parts of the actor that hold the chains, the state and the peers.
    pub fn parts(&self) -> (r: (&SigChainManager, &State, &PeerSyncStore))
        requires
            self.wf(),
        ensures
            r.0.wf(),
            r.0@ == self@.manager,
            r.1.wf(),
            r.1@ == self@.state,
            r.2.wf(),
            r.2@ == self@.peers,
    {
        (&self.chain_manager, &self.state, &self.peer_store)
    }

    // -----------------------------------------------------------------------
    // Listeners
    // -----------------------------------------------------------------------

    /// The number that the next watcher gets. With the largest one of all, there is
    /// room for no more watchers.
    pub fn next_watcher_id(&self) -> (r: u64)
        ensures
            r == self@.next_watcher_id,
    {
        self.next_watcher_id
    }

    /// Takes a watcher in: the watcher's number.
    fn add_watcher(&mut self, filter: WatcherFilter) -> (r: u64)
        requires
            old(self).wf(),
            old(self)@.next_watcher_id < u64::MAX,
        ensures
            final(self).wf(),
            r == old(self)@.next_watcher_id,
            final(self)@ == model::watched(old(self)@, filter@),
    {
        let ghost start = self@;
        let ghost before = self.watchers@;
        let id: u64 = self.next_watcher_id;
        self.next_watcher_id = id + 1;
        let watcher = Watcher { id, filter };
        let ghost w = watcher@;
        self.watchers.push(watcher);
        proof {
            assert(message::models(self.watchers@) =~= message::models(before).push(w));
            assert(self@ =~= model::watched(start, filter@));
        }
        id
    }

    /// Watches the keys that a regular expression matches: the watcher's number,
    /// and the keys that it matches now with their heads.
    pub fn watch(&mut self, pattern: &str) -> (r: Result<
        (u64, Vec<(Vec<u8>, Vec<Head>)>),
        WatchError,
    >)
        requires
            old(self).wf(),
            old(self)@.next_watcher_id < u64::MAX,
        ensures
            final(self).wf(),
            match model::watch_answer(old(self)@, pattern@) {
                Ok(pairs) => {
                    &&& r matches Ok((id, initial)) && id == old(self)@.next_watcher_id
                        && state::heads_pairs(initial@) == pairs
                    &&& final(self)@ == model::watched(
                        old(self)@,
                        FilterModel::Regex(pattern@),
                    )
                },
                Err(why) => {
                    &&& r matches Err(WatchError::InvalidRegex(t)) && t@ == why
                    &&& final(self)@ == old(self)@
                },
            },
    {
        match pattern_error(pattern) {
            Some(e) => {
                return Err(e);
            },
            None => {},
        }
        match self.list_matching(pattern) {
            Ok(initial) => {
                let id = self.add_watcher(WatcherFilter::Regex(pattern.to_owned()));
                Ok((id, initial))
            },
            Err(e) => Err(StoreActor::store_error(&e)),
        }
    }

    fn store_error(e: &StateError) -> (r: WatchError)
        ensures
            r matches WatchError::InvalidRegex(t) && t@ == "Store error: "@ + e@.text(),
    {
        WatchError::InvalidRegex("Store error: ".to_owned().concat(e.to_string().as_str()))
    }

    /// Watches the keys that start with a prefix: the watcher's number, and the
    /// keys that do now with their heads.
    pub fn watch_by_prefix(&mut self, prefix: &[u8]) -> (r: Result<
        (u64, Vec<(Vec<u8>, Vec<Head>)>),
        WatchError,
    >)
        requires
            old(self).wf(),
            old(self)@.next_watcher_id < u64::MAX,
        ensures
            final(self).wf(),
            match model::heads_with_prefix(old(self)@, prefix@) {
                Ok(pairs) => {
                    &&& r matches Ok((id, initial)) && id == old(self)@.next_watcher_id
                        && state::heads_pairs(initial@) == pairs
                    &&& final(self)@ == model::watched(old(self)@, FilterModel::Prefix(prefix@))
                },
                Err(f) => {
                    &&& r matches Err(WatchError::InvalidRegex(t)) && t@ == "Store error: "@
                        + f.text()
                    &&& final(self)@ == old(self)@
                },
            },
    {
        match self.state.list_heads_by_prefix(prefix) {
            Ok(initial) => {
                let id = self.add_watcher(WatcherFilter::Prefix(to_vec(prefix)));
                Ok((id, initial))
            },
            Err(e) => Err(StoreActor::store_error(&e)),
        }
    }

    /// Forgets a watcher.
    pub fn remove_watcher(&mut self, id: u64)
        requires
            old(self).wf(),
        ensures
            final(self).wf(),
            final(self)@ == (ActorModel {
                watchers: old(self)@.watchers.filter(|w: (u64, FilterModel)| w.0 != id),
                ..old(self)@
            }),
    {
        let ghost start = self@;
        let ghost all = start.watchers;
        let ghost keep = |w: (u64, FilterModel)| w.0 != id;
        let mut rest: Vec<Watcher> = Vec::new();
        rest.append(&mut self.watchers);
        let mut back: Vec<Watcher> = Vec::new();
        proof {
            assert(message::models(rest@) =~= all);
            assert(all.take(all.len() as int) =~= all);
            assert(all.filter(keep) + Seq::empty() =~= all.filter(keep));
            assert(message::models(back@).reverse() =~= Seq::empty());
        }
        while rest.len() > 0
            invariant
                rest@.len() <= all.len(),
                keep == (|w: (u64, FilterModel)| w.0 != id),
                message::models(rest@) == all.take(rest@.len() as int),
                all.take(rest@.len() as int).filter(keep) + message::models(back@).reverse()
                    == all.filter(keep),
            decreases rest@.len(),
        {
            let ghost n = rest@.len() as int;
            let ghost so_far = message::models(back@);
            let ghost before = rest@;
            match rest.pop() {
                Some(w) => {
                    let ghost x = w@;
                    proof {
                        reveal(Seq::filter);
                        assert(message::models(before)[n - 1] == x);
                        assert(all.take(n).drop_last() =~= all.take(n - 1));
                        assert(all.take(n).last() == x);
                        assert(message::models(rest@) =~= all.take(n - 1));
                    }
                    if w.id != id {
                        back.push(w);
                        proof {
                            assert(message::models(back@) =~= so_far.push(x));
                            let f = all.take(n - 1).filter(keep);
                            assert(f.push(x) + so_far.reverse() =~= f + so_far.push(
                                x,
                            ).reverse());
                        }
                    }
                },
                None => {},
            }
        }
        let ghost kept = message::models(back@).reverse();
        proof {
            reveal(Seq::filter);
            assert(all.take(0).filter(keep) =~= Seq::empty());
            assert(Seq::empty() + kept =~= kept);
            assert(message::models(self.watchers@) =~= Seq::empty());
        }
        while back.len() > 0
            invariant
                self.state@ == start.state,
                self.wf(),
                self@ == (ActorModel { watchers: self@.watchers, ..start }),
                self@.watchers == message::models(self.watchers@),
                message::models(self.watchers@) + message::models(back@).reverse() == kept,
            decreases back@.len(),
        {
            let ghost before = back@;
            let ghost front = self.watchers@;
            let ghost here = self@;
            match back.pop() {
                Some(w) => {
                    let ghost x = w@;
                    self.watchers.push(w);
                    proof {
                        assert(message::models(self.watchers@) =~= message::models(front).push(x));
                        assert(message::models(before) =~= message::models(back@).push(x));
                        assert(message::models(front) + message::models(back@).push(x).reverse()
                            =~= message::models(front).push(x) + message::models(
                            back@,
                        ).reverse());
                        assert(self@ =~= (ActorModel { watchers: self@.watchers, ..start }));
                    }
                },
                None => {},
            }
        }
        proof {
            assert(message::models(back@).reverse() =~= Seq::empty());
            assert(message::models(self.watchers@) + Seq::empty() =~= message::models(
                self.watchers@,
            ));
        }
    }

    /// What there is to tell since it was last asked for.
    pub fn take_events(&mut self) -> (r: Vec<StoreEvent>)
        requires
            old(self).wf(),
        ensures
            final(self).wf(),
            message::models(r@) == old(self)@.events,
            final(self)@ == (ActorModel { events: Seq::empty(), ..old(self)@ }),
    {
        let ghost start = self@;
        let mut r: Vec<StoreEvent> = Vec::new();
        r.append(&mut self.events);
        proof {
            assert(message::models(r@) =~= start.events);
            assert(self@ =~= (ActorModel { events: Seq::empty(), ..start }));
        }
        r
    }

    /// What there is to tell a watcher since it was last asked for. What there is
    /// to tell others stays.
    pub fn take_watch_events(&mut self, watcher: u64) -> (r: Vec<WatchEvent>)
        requires
            old(self).wf(),
        ensures
            final(self).wf(),
            message::models(r@) == model::told_to(old(self)@.events, watcher),
            final(self)@ == (ActorModel {
                events: model::told_to_others(old(self)@.events, watcher),
                ..old(self)@
            }),
    {
        let ghost start = self@;
        let ghost all = start.events;
        let ghost keep = |e: EventModel| !model::is_for(e, watcher);
        let mut events: Vec<StoreEvent> = Vec::new();
        events.append(&mut self.events);
        let mut mine: Vec<WatchEvent> = Vec::new();
        let mut rest: Vec<StoreEvent> = Vec::new();
        // Taken from the end, so both lists come out in reverse order.
        let ghost mut n: int = all.len() as int;
        proof {
            assert(message::models(events@) =~= all);
            assert(all.take(n) =~= all);
            assert(message::models(mine@).reverse() =~= Seq::empty());
            assert(message::models(rest@).reverse() =~= Seq::empty());
            assert(model::told_to(all, watcher) + Seq::<WatchModel>::empty() =~= model::told_to(
                all,
                watcher,
            ));
            assert(all.filter(keep) + Seq::<EventModel>::empty() =~= all.filter(keep));
        }
        while events.len() > 0
            invariant
                0 <= n <= all.len(),
                message::models(events@) == all.take(n),
                events@.len() == n,
                keep == (|e: EventModel| !model::is_for(e, watcher)),
                model::told_to(all, watcher) == model::told_to(all.take(n), watcher)
                    + message::models(mine@).reverse(),
                all.filter(keep) == all.take(n).filter(keep) + message::models(rest@).reverse(),
            decreases events@.len(),
        {
            let ghost before_mine = message::models(mine@);
            let ghost before_rest = message::models(rest@);
            let ghost last = all[n - 1];
            proof {
                assert(all.take(n).drop_last() =~= all.take(n - 1));
                assert(all.take(n).last() == last);
                assert(message::models(events@)[n - 1] == events@[n - 1]@);
                reveal(Seq::filter);
            }
            match events.pop() {
                Some(StoreEvent::Watch { watcher: id, event }) => {
                    if id == watcher {
                        let ghost x = event@;
                        mine.push(event);
                        proof {
                            assert(message::models(mine@) =~= before_mine.push(x));
                            assert(before_mine.push(x).reverse() =~= seq![x]
                                + before_mine.reverse());
                            assert(model::told_to(all.take(n), watcher) =~= model::told_to(
                                all.take(n - 1),
                                watcher,
                            ).push(x));
                        }
                    } else {
                        rest.push(StoreEvent::Watch { watcher: id, event });
                        proof {
                            assert(message::models(rest@) =~= before_rest.push(last));
                            assert(before_rest.push(last).reverse() =~= seq![last]
                                + before_rest.reverse());
                        }
                    }
                },
                Some(event) => {
                    rest.push(event);
                    proof {
                        assert(message::models(rest@) =~= before_rest.push(last));
                        assert(before_rest.push(last).reverse() =~= seq![last]
                            + before_rest.reverse());
                    }
                },
                None => {},
            }
            proof {
                n = n - 1;
                assert(message::models(events@) =~= all.take(n));
                assert(model::told_to(all, watcher) =~= model::told_to(all.take(n), watcher)
                    + message::models(mine@).reverse());
                assert(all.filter(keep) =~= all.take(n).filter(keep)
                    + message::models(rest@).reverse());
            }
        }
        let mut r: Vec<WatchEvent> = Vec::new();
        proof {
            assert(all.take(n) =~= Seq::empty());
            reveal(Seq::filter);
        }
        let ghost told = message::models(mine@).reverse();
        let ghost kept = message::models(rest@).reverse();
        assert(told =~= model::told_to(all, watcher));
        assert(kept =~= all.filter(keep));
        while mine.len() > 0
            invariant
                told =~= message::models(r@) + message::models(mine@).reverse(),
            decreases mine@.len(),
        {
            let ghost left = message::models(mine@);
            let ghost done = message::models(r@);
            match mine.pop() {
                Some(event) => {
                    let ghost x = event@;
                    r.push(event);
                    proof {
                        assert(message::models(r@) =~= done.push(x));
                        assert(left =~= message::models(mine@).push(x));
                    }
                },
                None => {},
            }
        }
        while rest.len() > 0
            invariant
                self.wf(),
                kept =~= message::models(self.events@) + message::models(rest@).reverse(),
                self@ == (ActorModel { events: message::models(self.events@), ..start }),
            decreases rest@.len(),
        {
            let ghost left = message::models(rest@);
            let ghost done = message::models(self.events@);
            match rest.pop() {
                Some(event) => {
                    let ghost x = event@;
                    self.events.push(event);
                    proof {
                        assert(message::models(self.events@) =~= done.push(x));
                        assert(left =~= message::models(rest@).push(x));
                        assert(self@ =~= (ActorModel {
                            events: message::models(self.events@),
                            ..start
                        }));
                    }
                },
                None => {},
            }
        }
        proof {
            assert(message::models(r@) =~= told);
            assert(message::models(self.events@) =~= kept);
        }
        r
    }

    /// The gaps that have been found since they were last asked for.
    pub fn take_gaps(&mut self) -> (r: Vec<GapInfo>)
        requires
            old(self).wf(),
        ensures
            final(self).wf(),
            message::models(r@) == old(self)@.manager.gaps,
            final(self)@ == (ActorModel {
                manager: ManagerModel { gaps: Seq::empty(), ..old(self)@.manager },
                ..old(self)@
            }),
    {
        let ghost start = self@;
        let r = self.chain_manager.take_gaps();
        proof {
            assert(self@ =~= (ActorModel {
                manager: ManagerModel { gaps: Seq::empty(), ..start.manager },
                ..start
            }));
        }
        r
    }

    // -----------------------------------------------------------------------
    // Peers
    // -----------------------------------------------------------------------

    /// Keeps what a peer says of its chains: what we and the peer lack of each
    /// other. If either side lacks anything, that is told. What cannot be counted
    /// is refused.
    pub fn set_peer_sync_state(&mut self, peer: &PubKey, info: &PeerSyncInfo) -> (r: Result<
        SyncDiscrepancy,
        StateError,
    >)
        requires
            old(self).wf(),
        ensures
            final(self).wf(),
            match model::peer_discrepancy(
                manager::sync_of(old(self)@.manager.chains),
                info@,
            ) {
                Some(d) => r == Ok::<SyncDiscrepancy, StateError>(d),
                None => r matches Err(e) && e@ == StateFault::Conversion(
                    "sync state out of range"@,
                ),
            },
            final(self)@ == model::peer_said(old(self)@, peer@, info@),
    {
        let ghost start = self@;
        let local_state = self.chain_manager.sync_state();
        let discrepancy = match StoreActor::discrepancy_with(&local_state, info) {
            Some(d) => d,
            None => {
                return Err(StateError::Conversion("sync state out of range".to_owned()));
            },
        };
        if discrepancy.is_out_of_sync() {
            self.tell(StoreEvent::SyncNeeded(SyncNeeded { peer: *peer, discrepancy }));
        }
        let ghost news = model::peer_news(local_state@, peer@, info@);
        assert(start.events + Seq::<EventModel>::empty() =~= start.events);
        assert(self@ =~= model::telling(start, news));
        self.peer_store.set_peer_sync_state(peer, info);
        assert(self@ =~= model::peer_said(start, peer@, info@));
        Ok(discrepancy)
    }

    /// What a peer last said of its chains.
    pub fn get_peer_sync_state(&self, peer: &PubKey) -> (r: Option<PeerSyncInfo>)
        requires
            self.wf(),
        ensures
            match peer_sync_store::peer_info_at(self@.peers, peer@) {
                Some(info) => r matches Some(x) && x@ == info,
                None => r is None,
            },
    {
        self.peer_store.get_peer_sync_state(peer)
    }

    /// What all peers last said of their chains.
    pub fn list_peer_sync_states(&self) -> (r: Vec<(PubKey, PeerSyncInfo)>)
        requires
            self.wf(),
        ensures
            peer_sync_store::listed_peers(r@) == peer_sync_store::peer_infos(
                self@.peers,
                table::sorted_keys(self@.peers.dom()),
            ),
    {
        self.peer_store.list_peer_sync_states()
    }
}

} // verus!
