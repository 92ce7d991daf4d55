//! The commands that the store's actor answers.
use crate::bytes::PubKey;
use crate::entry::{ChainTip, SignedEntry};
use crate::head;
use crate::head::Head;
use crate::message;
use crate::proto::storage::PeerSyncInfo;
use crate::store::actor::model;
use crate::store::actor::model::{ActorFault, ActorModel};
use crate::store::actor::{StoreActor, StoreActorError};
use crate::store::error::{StateError, StateFault};
use crate::store::log;
use crate::store::peer_sync_store;
use crate::store::sigchain::manager;
use crate::store::sigchain::orphan_store::OrphanInfo;
use crate::store::state;
use crate::store::sync_state::{SyncDiscrepancy, SyncState};
use crate::store::watch;
use crate::store::watch::{FilterModel, WatchError};
use crate::table;
use vstd::prelude::*;

verus! {

/// A command.
pub enum StoreCmd {
    /// The heads of a key.
    Get { key: Vec<u8> },
    /// All keys with their heads.
    List,
    /// The keys that start with a prefix, with their heads.
    ListByPrefix { prefix: Vec<u8> },
    /// The keys that a regular expression matches, with their heads.
    ListByRegex { pattern: String },
    /// Put a value under a key.
    Put { key: Vec<u8>, value: Vec<u8> },
    /// Delete a key.
    Delete { key: Vec<u8> },
    /// How many entries our own chain has.
    LogSeq,
    /// The sequence number of our last entry that was applied.
    AppliedSeq,
    /// The last entry of an author that was applied.
    ChainTip { author: PubKey },
    /// How far every chain has got.
    SyncState,
    /// Take an entry in.
    IngestEntry { entry: SignedEntry },
    /// How many logs there are, how many bytes they have, and how many entries
    /// wait.
    LogStats,
    /// The log files.
    LogPaths,
    /// The entries that wait for their predecessors.
    OrphanList,
    /// Drop the waiting entries that their chains have passed.
    OrphanCleanup,
    /// Watch the keys that a regular expression matches.
    Watch { pattern: String },
    /// Watch the keys that start with a prefix.
    WatchByPrefix { prefix: Vec<u8> },
    /// Hear of gaps from now on.
    SubscribeGaps,
    /// Keep what a peer says of its chains.
    SetPeerSyncState { peer: PubKey, info: PeerSyncInfo },
    /// What a peer last said.
    GetPeerSyncState { peer: PubKey },
    /// What all peers last said.
    ListPeerSyncStates,
    /// The entries of an author in a range of sequence numbers.
    StreamEntriesInRange { author: PubKey, from_seq: u64, to_seq: u64 },
    /// Stop.
    Shutdown,
}

/// The answer to a command.
pub enum StoreReply {
    /// Heads.
    Heads(Result<Vec<Head>, StateError>),
    /// Keys with their heads.
    Pairs(Result<Vec<(Vec<u8>, Vec<Head>)>, StateError>),
    /// Done, or not.
    Done(Result<(), StoreActorError>),
    /// A sequence number.
    Number(u64),
    /// The last entry of an author.
    Tip(Option<ChainTip>),
    /// How far every chain has got.
    Sync(SyncState),
    /// Taken in, or not.
    Ingested(Result<(), StateError>),
    /// Logs, bytes, and waiting entries.
    Stats(usize, u64, usize),
    /// The names, sizes and paths of the log files.
    Paths(Vec<(String, u64, Vec<u8>)>),
    /// The entries that wait.
    Orphans(Vec<OrphanInfo>),
    /// How many entries were dropped.
    Removed(usize),
    /// The number of a watcher, and what it watches now.
    Watching(Result<(u64, Vec<(Vec<u8>, Vec<Head>)>), WatchError>),
    /// Gaps are told from now on.
    Subscribed,
    /// What the peer and we lack.
    Discrepancy(Result<SyncDiscrepancy, StateError>),
    /// What a peer said.
    PeerInfo(Option<PeerSyncInfo>),
    /// What all peers said.
    PeerInfos(Vec<(PubKey, PeerSyncInfo)>),
    /// Entries.
    Entries(Vec<SignedEntry>),
    /// Stopped.
    Stopped,
}

/// Whether the result is the listing, or its error.
pub open spec fn lists_heads(
    r: Result<Vec<(Vec<u8>, Vec<Head>)>, StateError>,
    listing: Result<Seq<(Seq<u8>, Seq<head::HeadModel>)>, StateFault>,
) -> bool {
    match listing {
        Ok(pairs) => r matches Ok(v) && state::heads_pairs(v@) == pairs,
        Err(f) => r matches Err(e) && e@ == f,
    }
}

/// Whether the result is the fault, or success where there is none.
pub open spec fn reports(r: Result<(), StoreActorError>, fault: Option<ActorFault>) -> bool {
    match fault {
        None => r is Ok,
        Some(f) => r matches Err(e) && e@ == f,
    }
}

/// Whether an actor that was `g` may be `h` after the command, and answer `r`.
pub open spec fn answers(g: ActorModel, cmd: StoreCmd, h: ActorModel, r: StoreReply) -> bool {
    match cmd {
        StoreCmd::Get { key } => h == g && (r matches StoreReply::Heads(x) && match state::heads_at(
            g.state.kv,
            key@,
        ) {
            Ok(heads) => x matches Ok(v) && head::head_models(v@) == head::ranked(heads),
            Err(f) => x matches Err(e) && e@ == f,
        }),
        StoreCmd::List => h == g && (r matches StoreReply::Pairs(x) && lists_heads(
            x,
            model::heads_with_prefix(g, Seq::empty()),
        )),
        StoreCmd::ListByPrefix { prefix } => h == g && (r matches StoreReply::Pairs(x)
            && lists_heads(x, model::heads_with_prefix(g, prefix@))),
        StoreCmd::ListByRegex { pattern } => h == g && (r matches StoreReply::Pairs(x)
            && lists_heads(
            x,
            match watch::regex_fault(pattern@) {
                Some(why) => Err(StateFault::Conversion("Invalid regex: "@ + why)),
                None => model::heads_matching(g, pattern@),
            },
        )),
        StoreCmd::Put { key, value } => exists|now_ms: u64, now: u64|
            {
                let (after, fault) = #[trigger] model::put(g, key@, value@, now_ms, now);
                h == after && (r matches StoreReply::Done(x) && reports(x, fault))
            },
        StoreCmd::Delete { key } => exists|now_ms: u64, now: u64|
            {
                let (after, fault) = #[trigger] model::deleted(g, key@, now_ms, now);
                h == after && (r matches StoreReply::Done(x) && reports(x, fault))
            },
        StoreCmd::LogSeq => h == g && (r matches StoreReply::Number(n) && n == manager::chain_of(
            g.manager,
            g.me(),
        ).next_seq - 1),
        StoreCmd::AppliedSeq => h == g && (r matches StoreReply::Number(n) && n
            == match state::tip_at(g.state.tips, g.me()) {
            Some(tip) => tip.seq,
            None => 0,
        }),
        StoreCmd::ChainTip { author } => h == g && (r matches StoreReply::Tip(x)
            && match state::tip_at(g.state.tips, author@) {
            Some(tip) => x matches Some(t) && t@ == tip,
            None => x is None,
        }),
        StoreCmd::SyncState => h == g && (r matches StoreReply::Sync(s) && s.wf() && s@
            == manager::sync_of(g.manager.chains)),
        StoreCmd::IngestEntry { entry } => exists|now: u64|
            {
                let (after, fault) = #[trigger] model::ingested(g, entry@, now);
                h == after && (r matches StoreReply::Ingested(x) && match fault {
                    None => x is Ok,
                    Some(f) => x matches Err(e) && e@ == f.as_state_fault(),
                })
            },
        StoreCmd::LogStats => h == g && (r matches StoreReply::Stats(logs, bytes, waiting) && {
            let authors = table::sorted_keys(g.manager.chains.dom());
            let total = manager::log_bytes(g.manager.chains, authors);
            &&& logs == authors.len()
            &&& bytes == if total > u64::MAX {
                u64::MAX as nat
            } else {
                total
            }
            &&& waiting == g.manager.orphans.orphans.dom().len()
        }),
        StoreCmd::LogPaths => h == g && (r matches StoreReply::Paths(v) && {
            let authors = table::sorted_keys(g.manager.chains.dom());
            &&& v@.len() == authors.len()
            &&& forall|i: int|
                0 <= i < v@.len() ==> {
                    &&& (#[trigger] v@[i]).0@ == manager::log_name(authors[i])
                    &&& v@[i].1 == g.manager.chains[authors[i]].log.len()
                    &&& v@[i].2@ == g.manager.chains[authors[i]].path
                }
        }),
        StoreCmd::OrphanList => h == g && (r matches StoreReply::Orphans(v) && message::models(v@)
            == manager::listed_orphans(g.manager.orphans.orphans)),
        StoreCmd::OrphanCleanup => {
            let (m, n) = model::cleaned(
                g.manager,
                manager::listed_orphans(g.manager.orphans.orphans),
            );
            h == (ActorModel { manager: m, ..g }) && (r matches StoreReply::Removed(k) && k == n)
        },
        StoreCmd::Watch { pattern } => r matches StoreReply::Watching(x)
            && match model::watch_answer(g, pattern@) {
            Ok(pairs) => {
                &&& x matches Ok((id, initial)) && id == g.next_watcher_id && state::heads_pairs(
                    initial@,
                ) == pairs
                &&& h == model::watched(g, FilterModel::Regex(pattern@))
            },
            Err(why) => {
                &&& x matches Err(WatchError::InvalidRegex(t)) && t@ == why
                &&& h == g
            },
        },
        StoreCmd::WatchByPrefix { prefix } => r matches StoreReply::Watching(x)
            && match model::heads_with_prefix(g, prefix@) {
            Ok(pairs) => {
                &&& x matches Ok((id, initial)) && id == g.next_watcher_id && state::heads_pairs(
                    initial@,
                ) == pairs
                &&& h == model::watched(g, FilterModel::Prefix(prefix@))
            },
            Err(f) => {
                &&& x matches Err(WatchError::InvalidRegex(t)) && t@ == "Store error: "@ + f.text()
                &&& h == g
            },
        },
        StoreCmd::SubscribeGaps => h == g && r is Subscribed,
        StoreCmd::SetPeerSyncState { peer, info } => {
            &&& h == model::peer_said(g, peer@, info@)
            &&& r matches StoreReply::Discrepancy(x) && match model::peer_discrepancy(
                manager::sync_of(g.manager.chains),
                info@,
            ) {
                Some(d) => x == Ok::<SyncDiscrepancy, StateError>(d),
                None => x matches Err(e) && e@ == StateFault::Conversion(
                    "sync state out of range"@,
                ),
            }
        },
        StoreCmd::GetPeerSyncState { peer } => h == g && (r matches StoreReply::PeerInfo(x)
            && match peer_sync_store::peer_info_at(g.peers, peer@) {
            Some(info) => x matches Some(i) && i@ == info,
            None => x is None,
        }),
        StoreCmd::ListPeerSyncStates => h == g && (r matches StoreReply::PeerInfos(v)
            && peer_sync_store::listed_peers(v@) == peer_sync_store::peer_infos(
            g.peers,
            table::sorted_keys(g.peers.dom()),
        )),
        StoreCmd::StreamEntriesInRange { author, from_seq, to_seq } => h == g && (
        r matches StoreReply::Entries(v) && message::models(v@) == log::range_entries(
            manager::chain_of(g.manager, author@).log,
            from_seq,
            to_seq,
        )),
        StoreCmd::Shutdown => h == g && r is Stopped,
    }
}

impl StoreActor {
    /// Answers a command.
    pub fn handle(&mut self, cmd: StoreCmd) -> (r: StoreReply)
        requires
            old(self).wf(),
            cmd is Watch || cmd is WatchByPrefix ==> old(self)@.next_watcher_id < u64::MAX,
        ensures
            final(self).wf(),
            answers(old(self)@, cmd, final(self)@, r),
    {
        match cmd {
            StoreCmd::Get { key } => StoreReply::Heads(self.get(key.as_slice())),
            StoreCmd::List => StoreReply::Pairs(self.list()),
            StoreCmd::ListByPrefix { prefix } => StoreReply::Pairs(
                self.list_by_prefix(prefix.as_slice()),
            ),
            StoreCmd::ListByRegex { pattern } => StoreReply::Pairs(
                self.list_by_regex(pattern.as_str()),
            ),
            StoreCmd::Put { key, value } => {
                let done = self.put(key.as_slice(), value.as_slice());
                StoreReply::Done(done)
            },
            StoreCmd::Delete { key } => {
                let done = self.delete(key.as_slice());
                StoreReply::Done(done)
            },
            StoreCmd::LogSeq => StoreReply::Number(self.log_seq()),
            StoreCmd::AppliedSeq => StoreReply::Number(self.applied_seq()),
            StoreCmd::ChainTip { author } => StoreReply::Tip(self.chain_tip(&author)),
            StoreCmd::SyncState => StoreReply::Sync(self.sync_state()),
            StoreCmd::IngestEntry { entry } => {
                let done = match self.ingest_entry(&entry) {
                    Ok(()) => Ok(()),
                    Err(StoreActorError::SigChain(e)) => Err(StateError::SigChain(e)),
                    Err(StoreActorError::State(e)) => Err(e),
                };
                StoreReply::Ingested(done)
            },
            StoreCmd::LogStats => {
                let (logs, bytes, waiting) = self.parts().0.log_stats();
                StoreReply::Stats(logs, bytes, waiting)
            },
            StoreCmd::LogPaths => StoreReply::Paths(self.parts().0.log_paths()),
            StoreCmd::OrphanList => StoreReply::Orphans(self.parts().0.orphan_list()),
            StoreCmd::OrphanCleanup => {
                let removed = self.cleanup_stale_orphans();
                StoreReply::Removed(removed)
            },
            StoreCmd::Watch { pattern } => {
                let watching = self.watch(pattern.as_str());
                StoreReply::Watching(watching)
            },
            StoreCmd::WatchByPrefix { prefix } => {
                let watching = self.watch_by_prefix(prefix.as_slice());
                StoreReply::Watching(watching)
            },
            StoreCmd::SubscribeGaps => StoreReply::Subscribed,
            StoreCmd::SetPeerSyncState { peer, info } => {
                let discrepancy = self.set_peer_sync_state(&peer, &info);
                StoreReply::Discrepancy(discrepancy)
            },
            StoreCmd::GetPeerSyncState { peer } => StoreReply::PeerInfo(
                self.get_peer_sync_state(&peer),
            ),
            StoreCmd::ListPeerSyncStates => StoreReply::PeerInfos(self.list_peer_sync_states()),
            StoreCmd::StreamEntriesInRange { author, from_seq, to_seq } => StoreReply::Entries(
                self.entries_in_range(&author, from_seq, to_seq),
            ),
            StoreCmd::Shutdown => StoreReply::Stopped,
        }
    }
}

} // verus!
