//! What the answers of the store's actor say.
use crate::bytes::PubKey;
use crate::entry::{SignedEntry, SignedEntryModel};
use crate::head;
use crate::head::HeadModel;
use crate::message;
use crate::proto::storage::PeerSyncInfo;
use crate::store::actor::command;
use crate::store::actor::command::{StoreCmd, StoreReply};
use crate::store::actor::model;
use crate::store::actor::model::ActorModel;
use crate::store::actor::news;
use crate::store::error::StateFault;
use crate::store::log;
use crate::store::sigchain::manager;
use crate::store::state;
use crate::store::watch;
use crate::store::watch::FilterModel;
use crate::table;
use vstd::prelude::*;

verus! {

/// Asked for a key, the store gives all its heads, from the latest down, and stays as it is.
pub proof fn law_get_gives_all_heads(
    g: ActorModel,
    key: Vec<u8>,
    h: ActorModel,
    r: StoreReply,
    heads: Seq<HeadModel>,
)
    requires
        command::answers(g, StoreCmd::Get { key }, h, r),
        state::heads_at(g.state.kv, key@) == Ok::<Seq<HeadModel>, StateFault>(heads),
    ensures
        h == g,
        r matches StoreReply::Heads(Ok(v)) && news::latest_first(head::head_models(v@), heads),
{
    head::law_ranked_goes_back_in_time(heads);
    let rs = head::ranked(heads);
    assert forall|i: int, j: int| 0 <= i < j < rs.len() implies (#[trigger] rs[i]).hlc.wall_time > (
    #[trigger] rs[j]).hlc.wall_time || (rs[i].hlc.wall_time == rs[j].hlc.wall_time
        && rs[i].hlc.counter >= rs[j].hlc.counter) by {
        assert(rs[i].hlc.wall_time >= rs[j].hlc.wall_time);
    }
}

/// Asked for all keys, for those with a prefix or for those that a pattern matches, the store
/// gives exactly those keys, each with its heads from the winner down, and stays as it is.
pub proof fn law_lists_give_the_keys(
    g: ActorModel,
    prefix: Vec<u8>,
    pattern: String,
    h: ActorModel,
    r: StoreReply,
    k: Seq<u8>,
    heads: Seq<HeadModel>,
)
    requires
        table::lists(table::sorted_keys(g.state.kv.dom()), g.state.kv.dom()),
        state::heads_at(g.state.kv, k) == Ok::<Seq<HeadModel>, StateFault>(heads),
    ensures
        command::answers(g, StoreCmd::List, h, r) ==> h == g && (r matches StoreReply::Pairs(Ok(v))
            ==> (state::heads_pairs(v@).contains((k, head::ranked(heads)))
            <==> g.state.kv.dom().contains(k))),
        command::answers(g, StoreCmd::ListByPrefix { prefix }, h, r) ==> h == g && (
        r matches StoreReply::Pairs(Ok(v)) ==> (state::heads_pairs(v@).contains(
            (k, head::ranked(heads)),
        ) <==> g.state.kv.dom().contains(k) && prefix@.len() <= k.len() && k.take(
            prefix@.len() as int,
        ) == prefix@)),
        command::answers(g, StoreCmd::ListByRegex { pattern }, h, r) ==> h == g && (
        r matches StoreReply::Pairs(Ok(v)) ==> (state::heads_pairs(v@).contains(
            (k, head::ranked(heads)),
        ) <==> g.state.kv.dom().contains(k) && watch::regex_found(
            pattern@,
            watch::lossy_text(k),
        ))),
{
    let keys = table::sorted_keys(g.state.kv.dom());
    assert(keys.contains(k) <==> g.state.kv.dom().contains(k));
    state::law_heads_listing_is_complete(g.state.kv, keys, prefix@);
    news::law_matching_keys_are_listed(g, pattern@, k, head::ranked(heads));
}

/// A new watcher gets the next number and the keys that its filter lets through now, and is
/// one more watcher with that filter from then on. One that is turned away changes nothing.
pub proof fn law_watcher_starts_with_its_keys(
    g: ActorModel,
    prefix: Vec<u8>,
    pattern: String,
    h: ActorModel,
    r: StoreReply,
    k: Seq<u8>,
    heads: Seq<HeadModel>,
)
    requires
        table::lists(table::sorted_keys(g.state.kv.dom()), g.state.kv.dom()),
        state::heads_at(g.state.kv, k) == Ok::<Seq<HeadModel>, StateFault>(heads),
        g.next_watcher_id < u64::MAX,
    ensures
        command::answers(g, StoreCmd::WatchByPrefix { prefix }, h, r) ==> match r {
            StoreReply::Watching(Ok((id, initial))) => {
                &&& id == g.next_watcher_id
                &&& h.watchers == g.watchers.push((id, FilterModel::Prefix(prefix@)))
                &&& h.next_watcher_id == id + 1
                &&& h.state == g.state && h.events == g.events && h.manager == g.manager
                &&& state::heads_pairs(initial@).contains((k, head::ranked(heads)))
                    <==> g.state.kv.dom().contains(k) && prefix@.len() <= k.len() && k.take(
                    prefix@.len() as int,
                ) == prefix@
            },
            StoreReply::Watching(Err(_)) => h == g,
            _ => false,
        },
        command::answers(g, StoreCmd::Watch { pattern }, h, r) ==> match r {
            StoreReply::Watching(Ok((id, initial))) => {
                &&& id == g.next_watcher_id
                &&& h.watchers == g.watchers.push((id, FilterModel::Regex(pattern@)))
                &&& h.next_watcher_id == id + 1
                &&& h.state == g.state && h.events == g.events && h.manager == g.manager
                &&& watch::regex_fault(pattern@) is None
                &&& state::heads_pairs(initial@).contains((k, head::ranked(heads)))
                    <==> g.state.kv.dom().contains(k) && watch::regex_found(
                    pattern@,
                    watch::lossy_text(k),
                )
            },
            StoreReply::Watching(Err(_)) => h == g,
            _ => false,
        },
{
    let keys = table::sorted_keys(g.state.kv.dom());
    assert(keys.contains(k) <==> g.state.kv.dom().contains(k));
    state::law_heads_listing_is_complete(g.state.kv, keys, prefix@);
    news::law_matching_keys_are_listed(g, pattern@, k, head::ranked(heads));
}

/// Asked for an author's entries in a range, the store gives all of those whose number lies in
/// it, in the order of the log, and stays as it is.
pub proof fn law_range_gives_the_entries(
    g: ActorModel,
    author: PubKey,
    from_seq: u64,
    to_seq: u64,
    h: ActorModel,
    r: StoreReply,
    entries: Seq<SignedEntryModel>,
)
    requires
        command::answers(g, StoreCmd::StreamEntriesInRange { author, from_seq, to_seq }, h, r),
        manager::chain_of(g.manager, author@).log == log::log_of(entries),
        forall|i: int| 0 <= i < entries.len() ==> log::readable(#[trigger] entries[i]),
        forall|i: int, j: int|
            0 <= i < j < entries.len() ==> (#[trigger] entries[i]).entry.seq <= (
            #[trigger] entries[j]).entry.seq,
    ensures
        h == g,
        r matches StoreReply::Entries(v) && message::models(v@) == entries.filter(
            |e: SignedEntryModel|
                from_seq <= e.entry.seq && (to_seq == 0 || e.entry.seq <= to_seq),
        ),
{
    log::law_range_is_the_filtered_log(entries, from_seq, to_seq);
}

/// The numbers that the store gives: how many entries our own chain has, and the number of our
/// last entry that was applied. The tip of an author is the one that is stored.
pub proof fn law_numbers_are_of_the_chains(
    g: ActorModel,
    author: PubKey,
    h: ActorModel,
    r: StoreReply,
)
    ensures
        command::answers(g, StoreCmd::LogSeq, h, r) ==> h == g && (r matches StoreReply::Number(n)
            && n + 1 == manager::chain_of(g.manager, g.me()).next_seq),
        command::answers(g, StoreCmd::AppliedSeq, h, r) ==> h == g && (r matches StoreReply::Number(
            n,
        ) && (state::tip_at(g.state.tips, g.me()) matches Some(t) ==> n == t.seq) && (
        state::tip_at(g.state.tips, g.me()) is None ==> n == 0)),
        command::answers(g, StoreCmd::ChainTip { author }, h, r) ==> h == g && (
        r matches StoreReply::Tip(x) && (state::tip_at(g.state.tips, author@) matches Some(t)
            ==> x is Some && x->0.seq == t.seq && x->0.hash@ == t.hash && x->0.hlc == t.hlc) && (
        state::tip_at(g.state.tips, author@) is None ==> x is None)),
        command::answers(g, StoreCmd::SyncState, h, r) ==> h == g && (r matches StoreReply::Sync(s)
            && s@ == manager::sync_of(g.manager.chains)),
{
}

/// What is said of the logs: how many there are, how many bytes they have together, and how
/// many entries wait; of each file the name, the size and the path.
pub proof fn law_logs_are_described(g: ActorModel, h: ActorModel, r: StoreReply, i: int)
    requires
        manager::log_bytes(g.manager.chains, table::sorted_keys(g.manager.chains.dom()))
            <= u64::MAX,
        0 <= i < table::sorted_keys(g.manager.chains.dom()).len(),
    ensures
        command::answers(g, StoreCmd::LogStats, h, r) ==> h == g && (r matches StoreReply::Stats(
            logs,
            bytes,
            waiting,
        ) && logs == table::sorted_keys(g.manager.chains.dom()).len() && bytes
            == manager::log_bytes(g.manager.chains, table::sorted_keys(g.manager.chains.dom()))
            && waiting == g.manager.orphans.orphans.dom().len()),
        command::answers(g, StoreCmd::LogPaths, h, r) ==> h == g && (r matches StoreReply::Paths(v)
            && v@.len() == table::sorted_keys(g.manager.chains.dom()).len() && {
            let a = table::sorted_keys(g.manager.chains.dom())[i];
            &&& v@[i].0@ == crate::text::hex_text(a) + ".log"@
            &&& v@[i].1 == g.manager.chains[a].log.len()
            &&& v@[i].2@ == g.manager.chains[a].path
        }),
{
}

/// The list of what waits and the clean-up of it: the store lists every waiting entry, and
/// drops exactly those that their chains have passed.
pub proof fn law_waiting_entries_are_looked_after(
    g: ActorModel,
    h: ActorModel,
    r: StoreReply,
    k: Seq<u8>,
)
    requires
        table::lists(
            table::sorted_keys(g.manager.orphans.orphans.dom()),
            g.manager.orphans.orphans.dom(),
        ),
        forall|x: Seq<u8>| #[trigger]
            g.manager.orphans.orphans.dom().contains(x)
                ==> crate::store::sigchain::orphan_store::orphan_info_at(
                g.manager.orphans.orphans,
                x,
            ) is Ok,
    ensures
        command::answers(g, StoreCmd::OrphanList, h, r) ==> h == g && (r matches StoreReply::Orphans(
            v,
        ) && v@.len() == table::sorted_keys(g.manager.orphans.orphans.dom()).len() && (
        g.manager.orphans.orphans.dom().contains(k) ==> message::models(v@).contains(
            crate::store::sigchain::orphan_store::orphan_info_at(
                g.manager.orphans.orphans,
                k,
            )->Ok_0,
        ))),
        command::answers(g, StoreCmd::OrphanCleanup, h, r) ==> h.state == g.state && h.events
            == g.events && h.watchers == g.watchers && h.manager.hashes == g.manager.hashes && (
        r matches StoreReply::Removed(n) && n == manager::listed_orphans(
            g.manager.orphans.orphans,
        ).filter(
            |o: crate::store::sigchain::orphan_store::OrphanInfoModel|
                o.seq < manager::chain_of(g.manager, o.author).next_seq,
        ).len()),
{
    let listed = manager::listed_orphans(g.manager.orphans.orphans);
    manager::law_every_waiting_entry_is_listed(g.manager.orphans.orphans, k);
    news::law_passed_entries_are_dropped(g.manager, listed, k);
}

/// What a peer said is given back as it was said; of a peer that said nothing there is
/// nothing.
pub proof fn law_peer_words_are_given_back(
    g: ActorModel,
    peer: PubKey,
    info: PeerSyncInfo,
    h: ActorModel,
    r: StoreReply,
    h2: ActorModel,
    r2: StoreReply,
)
    requires
        command::answers(g, StoreCmd::SetPeerSyncState { peer, info }, h, r),
        r matches StoreReply::Discrepancy(Ok(_)),
        command::answers(h, StoreCmd::GetPeerSyncState { peer }, h2, r2),
        message::encoded::<PeerSyncInfo>(info@).len() <= u64::MAX,
    ensures
        h2 == h,
        h.state == g.state,
        h.manager == g.manager,
        r2 matches StoreReply::PeerInfo(Some(x)) && x@ == info@,
{
    crate::store::peer_sync_store::law_peer_info_round_trip(g.peers, peer@, info@, peer@.push(0));
}

/// An entry that is taken in is reported as taken exactly where the store took it; a put and a
/// deletion likewise.
pub proof fn law_reports_are_true(
    g: ActorModel,
    entry: SignedEntry,
    h: ActorModel,
    r: StoreReply,
)
    requires
        command::answers(g, StoreCmd::IngestEntry { entry }, h, r),
    ensures
        exists|now: u64|
            {
                let (after, fault) = #[trigger] model::ingested(g, entry@, now);
                h == after && (r matches StoreReply::Ingested(x) && (x is Ok <==> fault is None))
            },
        // One whose signature is not accepted changes nothing.
        !crate::crypto::ed25519_accepts(
            entry@.author_id,
            entry@.entry.signed_bytes(),
            entry@.signature,
        ) ==> h == g && (r matches StoreReply::Ingested(Err(_))),
{
    let now = choose|now: u64|
        {
            let (after, fault) = #[trigger] model::ingested(g, entry@, now);
            h == after && (r matches StoreReply::Ingested(x) && match fault {
                None => x is Ok,
                Some(f) => x matches Err(e) && e@ == f.as_state_fault(),
            })
        };
    let (after, fault) = model::ingested(g, entry@, now);
    assert(h == after);
}

} // verus!
