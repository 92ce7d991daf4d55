//! A store that keeps the heads of its keys as messages.
use crate::bytes::{to_array32, to_vec, Digest, PubKey};
use crate::entry;
use crate::entry::{ChainTip, EntryModel, SignedEntry, SignedEntryModel};
use crate::head_records;
use crate::head_records::{
    apply_head, first_missing, get_value, list_winners, load_heads, rank, HeadRecord,
};
use crate::message;
use crate::proto::storage::{HeadInfo, HeadInfoModel, Hlc, OpType, OpTypeModel, PeerSyncInfo};
use crate::store::error::{ParentFault, ParentValidationError, StoreError, StoreFault};
use crate::store::log;
use crate::store::log::LogError;
use crate::store::peer_sync_store;
use crate::store::peer_sync_store::PeerSyncStore;
use crate::store::state;
use crate::store::state::check_parents;
use crate::store::sync_state::{AuthorInfo, SyncState};
use crate::table;
use crate::table::ByteTable;
use crate::text;
use crate::text::hex_encode;
use vstd::prelude::*;

verus! {

// ---------------------------------------------------------------------------
// Models
// ---------------------------------------------------------------------------

/// The model of a [`Store`].
#[verifier::ext_equal]
pub struct CoreModel {
    /// The heads of every key, as they are stored.
    pub kv: Map<Seq<u8>, Seq<u8>>,
    /// The tip of every author's chain, as it is stored.
    pub tips: Map<Seq<u8>, Seq<u8>>,
    /// What every peer last said of its chains, as it is stored.
    pub peers: Map<Seq<u8>, Seq<u8>>,
}

/// The head that an operation of an entry makes.
pub open spec fn op_head(op: OpTypeModel, e: SignedEntryModel) -> HeadInfoModel {
    HeadInfoModel {
        value: match op {
            OpTypeModel::Put(p) => p.value,
            OpTypeModel::Delete(_) => Seq::empty(),
        },
        hlc: Some(entry::stored_hlc(e.entry.timestamp)),
        author: e.author_id,
        hash: e.hash(),
        tombstone: op is Delete,
    }
}

/// What the first `n` operations of an entry make of the stored heads.
pub open spec fn ops_put(kv: Map<Seq<u8>, Seq<u8>>, e: SignedEntryModel, n: nat) -> Map<
    Seq<u8>,
    Seq<u8>,
>
    decreases n,
{
    if n == 0 {
        kv
    } else {
        let m = ops_put(kv, e, (n - 1) as nat);
        let op = e.entry.ops[n - 1];
        match op.op_type {
            None => m,
            Some(t) => head_records::head_put::<HeadInfo>(
                m,
                op.key()->0,
                op_head(t, e),
                e.entry.parent_hashes,
            ),
        }
    }
}

/// What an entry makes of the store. An entry that does not follow its author's last
/// one is refused: it was applied before, or one before it is missing.
pub open spec fn applied(st: CoreModel, e: SignedEntryModel) -> Result<CoreModel, StoreFault> {
    let last = state::last_hash(st.tips, e.author_id);
    if e.entry.prev_hash != last {
        Err(
            StoreFault::NotSuccessor(
                e.entry.seq,
                text::short_hex(e.entry.prev_hash, 8),
                text::short_hex(last, 8),
            ),
        )
    } else {
        Ok(
            CoreModel {
                kv: ops_put(st.kv, e, e.entry.ops.len()),
                tips: st.tips.insert(e.author_id, e.tip().encoding()),
                ..st
            },
        )
    }
}

/// What a run of entries makes of the store, and how many of them were new.
pub open spec fn all_applied(st: CoreModel, entries: Seq<SignedEntryModel>) -> (CoreModel, nat)
    decreases entries.len(),
{
    if entries.len() == 0 {
        (st, 0)
    } else {
        let (s, n) = all_applied(st, entries.drop_last());
        match applied(s, entries.last()) {
            Ok(t) => (t, n + 1),
            Err(_) => (s, n),
        }
    }
}

/// The first fault among the reads of a log.
pub open spec fn log_fault(entries: Seq<Result<SignedEntryModel, LogError>>) -> Option<LogError>
    decreases entries.len(),
{
    if entries.len() == 0 {
        None
    } else {
        match log_fault(entries.drop_last()) {
            Some(e) => Some(e),
            None => match entries.last() {
                Err(e) => Some(e),
                Ok(_) => None,
            },
        }
    }
}

proof fn lemma_log_fault_stays(entries: Seq<Result<SignedEntryModel, LogError>>, n: int)
    requires
        0 <= n <= entries.len(),
        log_fault(entries.take(n)) is Some,
    ensures
        log_fault(entries) == log_fault(entries.take(n)),
    decreases entries.len() - n,
{
    if n == entries.len() {
        assert(entries.take(n) =~= entries);
    } else {
        assert(entries.take(n + 1).drop_last() =~= entries.take(n));
        lemma_log_fault_stays(entries, n + 1);
    }
}

proof fn lemma_no_log_fault(entries: Seq<Result<SignedEntryModel, LogError>>)
    requires
        log_fault(entries) is None,
    ensures
        forall|i: int| 0 <= i < entries.len() ==> #[trigger] entries[i] is Ok,
    decreases entries.len(),
{
    if entries.len() > 0 {
        let rest = entries.drop_last();
        lemma_no_log_fault(rest);
        assert forall|i: int| 0 <= i < entries.len() implies #[trigger] entries[i] is Ok by {
            if i < rest.len() {
                assert(rest[i] is Ok);
            }
        }
    }
}

/// The entries among the reads of a log that has no fault.
pub open spec fn entries_read(entries: Seq<Result<SignedEntryModel, LogError>>) -> Seq<
    SignedEntryModel,
> {
    entries.map_values(|r: Result<SignedEntryModel, LogError>| r->Ok_0)
}

/// What is wrong with the parents of an entry, judged by its first `n` operations:
/// each of them needs all parents among the heads of its key.
pub open spec fn parents_fault(kv: Map<Seq<u8>, Seq<u8>>, e: EntryModel, n: nat) -> Option<
    ParentFault,
>
    decreases n,
{
    if n == 0 || e.parent_hashes.len() == 0 {
        None
    } else {
        match parents_fault(kv, e, (n - 1) as nat) {
            Some(f) => Some(f),
            None => match e.ops[n - 1].key() {
                None => None,
                Some(key) => match head_records::heads_at::<HeadInfo>(kv, key) {
                    Err(d) => Some(ParentFault::Store(StoreFault::Decode(d).text())),
                    Ok(heads) => match head_records::missing_parent::<HeadInfo>(
                        e.parent_hashes,
                        heads,
                    ) {
                        Some(p) => Some(ParentFault::MissingParent(key, p)),
                        None => None,
                    },
                },
            },
        }
    }
}

proof fn lemma_parents_fault_stays(kv: Map<Seq<u8>, Seq<u8>>, e: EntryModel, n: nat)
    requires
        n <= e.ops.len(),
        parents_fault(kv, e, n) is Some,
    ensures
        parents_fault(kv, e, e.ops.len()) == parents_fault(kv, e, n),
    decreases e.ops.len() - n,
{
    if n < e.ops.len() {
        lemma_parents_fault_stays(kv, e, n + 1);
    }
}

/// What the tips of the given authors say of their chains.
pub open spec fn tips_say(tips: Map<Seq<u8>, Seq<u8>>, m: Map<Seq<u8>, AuthorInfo>, authors: Seq<
    Seq<u8>,
>) -> bool {
    &&& forall|a: Seq<u8>| #[trigger]
        m.dom().contains(a) <==> authors.contains(a) && a.len() == 32 && state::tip_at(
            tips,
            a,
        ) is Some
    &&& forall|a: Seq<u8>| #[trigger]
        m.dom().contains(a) ==> {
            let tip = state::tip_at(tips, a)->0;
            &&& m[a].seq == tip.seq
            &&& m[a].hash@ == tip.hash
            &&& m[a].hlc == Some((tip.hlc.wall_time, tip.hlc.counter))
        }
}

// ---------------------------------------------------------------------------
// Laws
// ---------------------------------------------------------------------------

/// An entry that was applied is its author's tip.
pub proof fn law_applied_entry_is_the_tip(st: CoreModel, e: SignedEntryModel)
    requires
        applied(st, e) is Ok,
    ensures
        applied(st, e)->Ok_0.tips[e.author_id] == e.tip().encoding(),
{
}

/// An entry is refused as no successor exactly where it does not name the hash of
/// its author's tip, or zeros where the author has none, whatever its number is; there
/// is no other reason to refuse one.
pub proof fn law_only_a_successor_is_applied(st: CoreModel, e: SignedEntryModel)
    ensures
        applied(st, e) is Ok <==> e.entry.prev_hash == state::last_hash(st.tips, e.author_id),
        e.entry.prev_hash != state::last_hash(st.tips, e.author_id) ==> applied(st, e) == Err::<
            CoreModel,
            StoreFault,
        >(
            StoreFault::NotSuccessor(
                e.entry.seq,
                text::short_hex(e.entry.prev_hash, 8),
                text::short_hex(state::last_hash(st.tips, e.author_id), 8),
            ),
        ),
{
}

/// Applying an entry leaves what peers said alone.
pub proof fn law_applying_leaves_peers_alone(st: CoreModel, e: SignedEntryModel)
    ensures
        applied(st, e) matches Ok(s) ==> s.peers == st.peers,
{
}

// ---------------------------------------------------------------------------
// The store
// ---------------------------------------------------------------------------

/// A store that keeps the heads of its keys as messages.
pub struct Store {
    kv: ByteTable,
    tips: ByteTable,
    peers: PeerSyncStore,
}

impl View for Store {
    type V = CoreModel;

    closed spec fn view(&self) -> CoreModel {
        CoreModel { kv: self.kv@, tips: self.tips@, peers: self.peers@ }
    }
}

impl Store {
    /// The tables are well formed.
    pub closed spec fn wf(&self) -> bool {
        self.kv.wf() && self.tips.wf() && self.peers.wf()
    }

    /// A store in which there is nothing.
    pub fn open() -> (r: Self)
        ensures
            r.wf(),
            r@ == (CoreModel { kv: Map::empty(), tips: Map::empty(), peers: Map::empty() }),
    {
        Store { kv: ByteTable::new(), tips: ByteTable::new(), peers: PeerSyncStore::open() }
    }

    /// The store that is kept in the given tables.
    pub fn from_tables(kv: ByteTable, tips: ByteTable, peers: ByteTable) -> (r: Self)
        requires
            kv.wf(),
            tips.wf(),
            peers.wf(),
        ensures
            r.wf(),
            r@ == (CoreModel { kv: kv@, tips: tips@, peers: peers@ }),
    {
        Store { kv, tips, peers: PeerSyncStore::from_table(peers) }
    }

    /// The table of heads.
    pub fn kv_table(&self) -> (r: &ByteTable)
        requires
            self.wf(),
        ensures
            r.wf(),
            r@ == self@.kv,
    {
        &self.kv
    }

    /// The table of tips.
    pub fn tips_table(&self) -> (r: &ByteTable)
        requires
            self.wf(),
        ensures
            r.wf(),
            r@ == self@.tips,
    {
        &self.tips
    }

    /// The table of what the peers last said.
    pub fn peers_table(&self) -> (r: &ByteTable)
        requires
            self.wf(),
        ensures
            r.wf(),
            r@ == self@.peers,
    {
        self.peers.table()
    }

    /// Applies the entries of a log that are new: how many they were. Where the log
    /// is faulty, the store stays as it was.
    pub fn replay_entries(&mut self, entries: &Vec<Result<SignedEntry, LogError>>) -> (r: Result<
        u64,
        StoreError,
    >)
        requires
            old(self).wf(),
        ensures
            final(self).wf(),
            match log_fault(log::result_models(entries@)) {
                Some(e) => {
                    &&& r matches Err(x) && x@ == StoreFault::Log(e)
                    &&& final(self)@ == old(self)@
                },
                None => {
                    let (s, n) = all_applied(
                        old(self)@,
                        entries_read(log::result_models(entries@)),
                    );
                    r matches Ok(k) && k == n && final(self)@ == s
                },
            },
    {
        let total: usize = entries.len();
        let ghost all = log::result_models(entries@);
        let ghost start = self@;
        let mut i: usize = 0;
        assert(all.take(0) =~= Seq::empty());
        while i < total
            invariant
                i <= total,
                total == entries@.len(),
                all == log::result_models(entries@),
                self.wf(),
                self@ == start,
                start == old(self)@,
                log_fault(all.take(i as int)) is None,
            decreases total - i,
        {
            proof {
                assert(all.take(i + 1).drop_last() =~= all.take(i as int));
                assert(all.take(i + 1).last() == all[i as int]);
            }
            match &entries[i] {
                Err(e) => {
                    proof {
                        lemma_log_fault_stays(all, i + 1);
                    }
                    return Err(StoreError::Log(*e));
                },
                Ok(_) => {},
            }
            i += 1;
        }
        assert(all.take(i as int) =~= all);
        proof {
            lemma_no_log_fault(all);
        }
        let ghost reads = entries_read(all);
        let mut count: u64 = 0;
        let mut j: usize = 0;
        assert(reads.take(0) =~= Seq::empty());
        while j < total
            invariant
                j <= total,
                total == entries@.len(),
                all == log::result_models(entries@),
                reads == entries_read(all),
                reads.len() == total,
                forall|k: int| 0 <= k < all.len() ==> #[trigger] all[k] is Ok,
                count <= j,
                self.wf(),
                all_applied(start, reads.take(j as int)) == (self@, count as nat),
            decreases total - j,
        {
            proof {
                assert(reads.take(j + 1).drop_last() =~= reads.take(j as int));
                assert(reads.take(j + 1).last() == reads[j as int]);
                assert(all[j as int] is Ok);
            }
            match &entries[j] {
                Ok(entry) => {
                    assert(reads[j as int] == entry@);
                    match self.apply_entry(entry) {
                        Ok(()) => {
                            count = count + 1;
                        },
                        Err(_) => {},
                    }
                },
                Err(_) => {},
            }
            j += 1;
        }
        assert(reads.take(j as int) =~= reads);
        Ok(count)
    }

    /// Applies one entry.
    pub fn apply_entry(&mut self, signed_entry: &SignedEntry) -> (r: Result<(), StoreError>)
        requires
            old(self).wf(),
        ensures
            final(self).wf(),
            match applied(old(self)@, signed_entry@) {
                Ok(s) => r is Ok && final(self)@ == s,
                Err(f) => r matches Err(e) && e@ == f && final(self)@ == old(self)@,
            },
    {
        let ghost e = signed_entry@;
        let ghost start = self@;
        let author = signed_entry.author_id;
        let entry_hash = signed_entry.hash();
        let (follows, last): (bool, Digest) = match self.chain_tip(&author) {
            Some(tip) => (signed_entry.entry.is_successor_of(&tip), tip.hash),
            None => (signed_entry.entry.is_genesis(), [0u8; 32]),
        };
        assert(last@ =~= state::last_hash(start.tips, e.author_id));
        if !follows {
            let prev = vstd::slice::slice_subrange(signed_entry.entry.prev_hash.as_slice(), 0, 8);
            let tip_hash = vstd::slice::slice_subrange(last.as_slice(), 0, 8);
            assert(prev@ =~= e.entry.prev_hash.take(8));
            assert(tip_hash@ =~= last@.take(8));
            return Err(
                StoreError::NotSuccessor {
                    entry_seq: signed_entry.entry.seq,
                    prev_hash: hex_encode(prev),
                    tip_hash: hex_encode(tip_hash),
                },
            );
        }
        self.apply_ops_to_tables(signed_entry, &entry_hash);
        let tip = ChainTip {
            seq: signed_entry.entry.seq,
            hash: entry_hash,
            hlc: signed_entry.entry.timestamp,
        };
        self.tips.insert(author.as_slice(), tip.encode());
        assert(self@ =~= applied(start, e)->Ok_0);
        Ok(())
    }

    /// Applies the operations of an entry, whose hash is given.
    fn apply_ops_to_tables(&mut self, signed_entry: &SignedEntry, entry_hash: &Digest)
        requires
            old(self).wf(),
            entry_hash@ == signed_entry@.hash(),
        ensures
            final(self).wf(),
            final(self)@ == (CoreModel {
                kv: ops_put(old(self)@.kv, signed_entry@, signed_entry@.entry.ops.len()),
                ..old(self)@
            }),
    {
        let ghost e = signed_entry@;
        let ghost start = self@;
        let parents = hash_list(&signed_entry.entry.parent_hashes);
        let mut i: usize = 0;
        while i < signed_entry.entry.ops.len()
            invariant
                self.wf(),
                e == signed_entry@,
                entry_hash@ == e.hash(),
                message::byte_models(parents@) == e.entry.parent_hashes,
                i <= e.entry.ops.len(),
                e.entry.ops.len() == signed_entry.entry.ops@.len(),
                self@ == (CoreModel { kv: ops_put(start.kv, e, i as nat), ..start }),
            decreases e.entry.ops.len() - i,
        {
            let op = &signed_entry.entry.ops[i];
            assert(e.entry.ops[i as int] == op@);
            match &op.op_type {
                None => {},
                Some(op_type) => {
                    let stamp = &signed_entry.entry.timestamp;
                    let hlc = Some(Hlc { wall_time: stamp.wall_time, counter: stamp.counter });
                    let author = to_vec(signed_entry.author_id.as_slice());
                    let hash = to_vec(entry_hash.as_slice());
                    let (key, new_head) = match op_type {
                        OpType::Put(put) => (
                            &put.key,
                            HeadInfo {
                                value: to_vec(put.value.as_slice()),
                                hlc,
                                author,
                                hash,
                                tombstone: false,
                            },
                        ),
                        OpType::Delete(del) => (
                            &del.key,
                            HeadInfo { value: Vec::new(), hlc, author, hash, tombstone: true },
                        ),
                    };
                    assert(new_head@ == op_head(op_type@, e));
                    apply_head(&mut self.kv, key.as_slice(), new_head, &parents);
                },
            }
            i += 1;
            assert(self@ =~= (CoreModel { kv: ops_put(start.kv, e, i as nat), ..start }));
        }
    }

    /// Checks that every parent of the entry is known: the first one that is not is
    /// reported. An entry without parents is always in order.
    pub fn validate_parent_hashes_with_index<F: Fn(&Digest) -> bool>(
        &self,
        signed_entry: &SignedEntry,
        hash_exists: F,
    ) -> (r: Result<(), ParentValidationError>)
        requires
            forall|h: Digest| call_requires(hash_exists, (&h,)),
        ensures
            match r {
                Ok(()) => forall|i: int|
                    0 <= i < signed_entry.entry.parent_hashes@.len() ==> state::says(
                        hash_exists,
                        #[trigger] signed_entry.entry.parent_hashes@[i],
                        true,
                    ),
                Err(e) => exists|i: int|
                    #[trigger] state::first_unknown(
                        hash_exists,
                        signed_entry.entry.parent_hashes@,
                        i,
                    ) && e@ == ParentFault::MissingParent(
                        state::first_key(signed_entry@.entry),
                        signed_entry.entry.parent_hashes@[i]@,
                    ),
            },
    {
        check_parents(signed_entry, hash_exists)
    }

    /// Checks that all parents of the entry are among the current heads of every key
    /// that it is about. An entry without parents is always in order.
    pub fn validate_parent_hashes(&self, signed_entry: &SignedEntry) -> (r: Result<
        (),
        ParentValidationError,
    >)
        requires
            self.wf(),
        ensures
            match parents_fault(self@.kv, signed_entry@.entry, signed_entry@.entry.ops.len()) {
                None => r is Ok,
                Some(f) => r matches Err(e) && e@ == f,
            },
    {
        let ghost m = signed_entry@.entry;
        if signed_entry.entry.parent_hashes.len() == 0 {
            return Ok(());
        }
        let parents = hash_list(&signed_entry.entry.parent_hashes);
        let mut i: usize = 0;
        while i < signed_entry.entry.ops.len()
            invariant
                self.wf(),
                i <= m.ops.len(),
                m == signed_entry@.entry,
                m.parent_hashes.len() > 0,
                message::byte_models(parents@) == m.parent_hashes,
                m.ops.len() == signed_entry.entry.ops@.len(),
                parents_fault(self@.kv, m, i as nat) is None,
            decreases m.ops.len() - i,
        {
            let op = &signed_entry.entry.ops[i];
            assert(m.ops[i as int] == op@);
            match op.key() {
                None => {},
                Some(key) => {
                    let heads = match load_heads::<HeadInfo>(&self.kv, key.as_slice()) {
                        Ok(heads) => heads,
                        Err(d) => {
                            proof {
                                lemma_parents_fault_stays(self@.kv, m, (i + 1) as nat);
                            }
                            return Err(
                                ParentValidationError::Store(
                                    StoreError::Decode(d).to_string(),
                                ),
                            );
                        },
                    };
                    match first_missing(&parents, &heads) {
                        Some(parent) => {
                            proof {
                                lemma_parents_fault_stays(self@.kv, m, (i + 1) as nat);
                            }
                            return Err(
                                ParentValidationError::MissingParent {
                                    key: to_vec(key.as_slice()),
                                    awaited_hash: to_vec(parent.as_slice()),
                                },
                            );
                        },
                        None => {},
                    }
                },
            }
            i += 1;
        }
        Ok(())
    }

    /// The value of a key: that of the winning head, and none where that head marks
    /// a deletion.
    pub fn get(&self, key: &[u8]) -> (r: Result<Option<Vec<u8>>, StoreError>)
        requires
            self.wf(),
        ensures
            match head_records::value_at::<HeadInfo>(self@.kv, key@) {
                Err(d) => r matches Err(e) && e@ == StoreFault::Decode(d),
                Ok(None) => r == Ok::<Option<Vec<u8>>, StoreError>(None),
                Ok(Some(value)) => r matches Ok(Some(v)) && v@ == value,
            },
    {
        match get_value::<HeadInfo>(&self.kv, key) {
            Ok(value) => Ok(value),
            Err(e) => Err(StoreError::Decode(e)),
        }
    }

    /// The heads of a key, from the winner down.
    pub fn get_heads(&self, key: &[u8]) -> (r: Result<Vec<HeadInfo>, StoreError>)
        requires
            self.wf(),
        ensures
            match head_records::heads_at::<HeadInfo>(self@.kv, key@) {
                Err(d) => r matches Err(e) && e@ == StoreFault::Decode(d),
                Ok(heads) => r matches Ok(v) && message::models(v@) == head_records::ranked(
                    heads,
                ),
            },
    {
        match load_heads::<HeadInfo>(&self.kv, key) {
            Ok(heads) => Ok(rank(heads)),
            Err(e) => Err(StoreError::Decode(e)),
        }
    }

    /// All keys with their winning values, in the order of the keys. Deleted keys
    /// are left out unless they are asked for.
    pub fn list_all(&self, include_deleted: bool) -> (r: Result<
        Vec<(Vec<u8>, Vec<u8>)>,
        StoreError,
    >)
        requires
            self.wf(),
        ensures
            match head_records::listing::<HeadInfo>(
                self@.kv,
                table::sorted_keys(self@.kv.dom()),
                Seq::empty(),
                include_deleted,
            ) {
                Ok(pairs) => r matches Ok(v) && state::pair_models(v@) == pairs,
                Err(d) => r matches Err(e) && e@ == StoreFault::Decode(d),
            },
    {
        let none: Vec<u8> = Vec::new();
        assert(none@ =~= Seq::empty());
        self.list_by_prefix(none.as_slice(), include_deleted)
    }

    /// The keys that start with `prefix`, with their winning values, in the order of
    /// the keys. Deleted keys are left out unless they are asked for.
    pub fn list_by_prefix(&self, prefix: &[u8], include_deleted: bool) -> (r: Result<
        Vec<(Vec<u8>, Vec<u8>)>,
        StoreError,
    >)
        requires
            self.wf(),
        ensures
            match head_records::listing::<HeadInfo>(
                self@.kv,
                table::sorted_keys(self@.kv.dom()),
                prefix@,
                include_deleted,
            ) {
                Ok(pairs) => r matches Ok(v) && state::pair_models(v@) == pairs,
                Err(d) => r matches Err(e) && e@ == StoreFault::Decode(d),
            },
    {
        match list_winners::<HeadInfo>(&self.kv, prefix, include_deleted) {
            Ok(pairs) => Ok(pairs),
            Err(e) => Err(StoreError::Decode(e)),
        }
    }

    /// Whether a put of the value would change anything.
    pub fn needs_put(heads: &[HeadInfo], value: &[u8]) -> (r: bool)
        ensures
            r == head_records::put_needed::<HeadInfo>(message::models(heads@), value@),
    {
        head_records::needs_put(heads, value)
    }

    /// Whether a deletion would change anything.
    pub fn needs_delete(heads: &[HeadInfo]) -> (r: bool)
        ensures
            r == head_records::delete_needed::<HeadInfo>(message::models(heads@)),
    {
        head_records::needs_delete(heads)
    }

    /// The tip of an author's chain, where one is stored and can be read.
    pub fn chain_tip(&self, author: &PubKey) -> (r: Option<ChainTip>)
        requires
            self.wf(),
        ensures
            match state::tip_at(self@.tips, author@) {
                Some(tip) => r matches Some(x) && x@ == tip,
                None => r is None,
            },
    {
        match self.tips.get(author.as_slice()) {
            Some(stored) => match ChainTip::decode(stored.as_slice()) {
                Ok(tip) => Some(tip),
                Err(_) => None,
            },
            None => None,
        }
    }

    /// How far the chain of every author has got.
    pub fn sync_state(&self) -> (r: SyncState)
        requires
            self.wf(),
        ensures
            r.wf(),
            tips_say(self@.tips, r@, table::sorted_keys(self@.tips.dom())),
    {
        let ghost keys = self.tips.keys();
        let mut state = SyncState::new();
        let mut i: usize = 0;
        proof {
            self.tips.lemma_keys();
            assert(keys.take(0) =~= Seq::empty());
        }
        while i < self.tips.len()
            invariant
                self.wf(),
                state.wf(),
                keys == self.tips.keys(),
                i <= keys.len(),
                tips_say(self@.tips, state@, keys.take(i as int)),
            decreases keys.len() - i,
        {
            let key = self.tips.key_at(i);
            let ghost before = state@;
            proof {
                table::lemma_take_contains(keys, i as int);
                assert(keys[i as int] == key@);
                assert(keys.contains(key@));
                self.tips.lemma_keys();
                assert(self.tips@.dom().contains(key@));
            }
            if key.len() == 32 {
                let author: PubKey = to_array32(key.as_slice());
                match ChainTip::decode(self.tips.value_at(i).as_slice()) {
                    Ok(tip) => {
                        state.set_with_hlc(
                            author,
                            tip.seq,
                            tip.hash,
                            Some((tip.hlc.wall_time, tip.hlc.counter)),
                        );
                    },
                    Err(_) => {},
                }
            }
            i += 1;
        }
        assert(keys.take(i as int) =~= keys);
        state
    }

    /// Keeps what a peer said of its chains, in place of what it said before.
    pub fn set_peer_sync_state(&mut self, peer: &PubKey, info: &PeerSyncInfo)
        requires
            old(self).wf(),
        ensures
            final(self).wf(),
            final(self)@ == (CoreModel {
                peers: old(self)@.peers.insert(peer@, message::encoded::<PeerSyncInfo>(info@)),
                ..old(self)@
            }),
    {
        self.peers.set_peer_sync_state(peer, info);
    }

    /// What a peer last said of its chains.
    pub fn get_peer_sync_state(&self, peer: &PubKey) -> (r: Option<PeerSyncInfo>)
        requires
            self.wf(),
        ensures
            match peer_sync_store::peer_info_at(self@.peers, peer@) {
                Some(info) => r matches Some(x) && x@ == info,
                None => r is None,
            },
    {
        self.peers.get_peer_sync_state(peer)
    }

    /// What all peers last said of their chains, in the order of the peers.
    pub fn list_peer_sync_states(&self) -> (r: Vec<(PubKey, PeerSyncInfo)>)
        requires
            self.wf(),
        ensures
            peer_sync_store::listed_peers(r@) == peer_sync_store::peer_infos(
                self@.peers,
                table::sorted_keys(self@.peers.dom()),
            ),
    {
        self.peers.list_peer_sync_states()
    }
}

/// Hashes as byte strings.
fn hash_list(hashes: &Vec<Digest>) -> (r: Vec<Vec<u8>>)
    ensures
        message::byte_models(r@) == entry::digests(hashes@),
{
    let mut out: Vec<Vec<u8>> = Vec::new();
    let mut i: usize = 0;
    while i < hashes.len()
        invariant
            i <= hashes@.len(),
            out@.len() == i,
            forall|k: int| 0 <= k < i ==> (#[trigger] out@[k])@ == hashes@[k]@,
        decreases hashes@.len() - i,
    {
        out.push(to_vec(hashes[i].as_slice()));
        i += 1;
    }
    assert(message::byte_models(out@) =~= entry::digests(hashes@));
    out
}

/// A put makes a head with its value, a deletion one that marks it. Either has the time, the
/// author and the hash of its entry.
pub proof fn law_operation_makes_its_head(op: OpTypeModel, e: SignedEntryModel)
    ensures
        ({
            let h = op_head(op, e);
            &&& h.hlc matches Some(t) && t.wall_time == e.entry.timestamp.wall_time && t.counter
                == e.entry.timestamp.counter
            &&& h.author == e.author_id
            &&& h.hash == e.hash()
            &&& op matches OpTypeModel::Put(p) ==> h.value == p.value && !h.tombstone
            &&& op is Delete ==> h.tombstone && h.value.len() == 0
        }),
{
}

/// Keys that no operation of an entry is about stay as they were.
pub proof fn law_other_keys_stay(
    kv: Map<Seq<u8>, Seq<u8>>,
    e: SignedEntryModel,
    n: nat,
    key: Seq<u8>,
)
    requires
        n <= e.entry.ops.len(),
        forall|i: int|
            0 <= i < n ==> match (#[trigger] e.entry.ops[i]).op_type {
                Some(OpTypeModel::Put(p)) => p.key != key,
                Some(OpTypeModel::Delete(d)) => d.key != key,
                None => true,
            },
    ensures
        ops_put(kv, e, n).dom().contains(key) == kv.dom().contains(key),
        ops_put(kv, e, n)[key] == kv[key],
    decreases n,
{
    if n > 0 {
        law_other_keys_stay(kv, e, (n - 1) as nat, key);
        assert(match e.entry.ops[n - 1].op_type {
            Some(OpTypeModel::Put(p)) => p.key != key,
            Some(OpTypeModel::Delete(d)) => d.key != key,
            None => true,
        });
    }
}

/// An only operation, in an entry that is new to its key, leaves its head there: with the
/// value that was put or the mark of a deletion, and the entry's time.
pub proof fn law_only_operation_leaves_its_head(
    kv: Map<Seq<u8>, Seq<u8>>,
    e: SignedEntryModel,
    t: OpTypeModel,
    key: Seq<u8>,
    heads: Seq<HeadInfoModel>,
)
    requires
        e.entry.ops.len() == 1,
        e.entry.ops[0].op_type == Some(t),
        match t {
            OpTypeModel::Put(p) => p.key == key,
            OpTypeModel::Delete(d) => d.key == key,
        },
        head_records::heads_at::<HeadInfo>(kv, key) matches Ok(h) && h == heads,
        forall|i: int| 0 <= i < heads.len() ==> (#[trigger] heads[i]).hash != e.hash(),
        <HeadInfo as head_records::HeadRecord>::list_bytes(
            head_records::kept::<HeadInfo>(heads, e.entry.parent_hashes).push(op_head(t, e)),
        ).len() <= u64::MAX,
    ensures
        head_records::heads_at::<HeadInfo>(ops_put(kv, e, 1), key) matches Ok(after) && after.len()
            > 0 && {
            let h = after.last();
            &&& h.hash == e.hash()
            &&& h.author == e.author_id
            &&& h.tombstone == (t is Delete)
            &&& t matches OpTypeModel::Put(p) ==> h.value == p.value
            &&& forall|x: HeadInfoModel| #[trigger]
                after.contains(x) <==> x == h || (heads.contains(x)
                    && !e.entry.parent_hashes.contains(x.hash))
        },
{
    reveal_with_fuel(ops_put, 2);
    head_records::law_new_head_replaces_its_parents::<HeadInfo>(
        kv,
        key,
        op_head(t, e),
        e.entry.parent_hashes,
        heads,
    );
    assert(ops_put(kv, e, 1) == head_records::head_put::<HeadInfo>(
        kv,
        key,
        op_head(t, e),
        e.entry.parent_hashes,
    ));
}

/// Entries are applied one after the other: one that follows its author's last is applied and
/// counted, any other is passed over.
pub proof fn law_successors_are_applied_and_counted(
    st: CoreModel,
    entries: Seq<SignedEntryModel>,
    e: SignedEntryModel,
)
    ensures
        all_applied(st, Seq::empty()) == (st, 0nat),
        ({
            let (s, n) = all_applied(st, entries);
            &&& e.entry.prev_hash != state::last_hash(s.tips, e.author_id) ==> all_applied(
                st,
                entries.push(e),
            ) == (s, n)
            &&& applied(s, e) matches Ok(t) ==> all_applied(st, entries.push(e)) == (t, n + 1)
        }),
{
    assert(entries.push(e).drop_last() =~= entries);
}

/// A log is faulty exactly where one of its reads is, and the fault is that of the first.
pub proof fn law_first_fault_counts(entries: Seq<Result<SignedEntryModel, LogError>>)
    ensures
        match log_fault(entries) {
            None => forall|i: int| 0 <= i < entries.len() ==> (#[trigger] entries[i]) is Ok,
            Some(f) => exists|i: int|
                0 <= i < entries.len() && #[trigger] entries[i] == Err::<
                    SignedEntryModel,
                    LogError,
                >(f) && forall|j: int| 0 <= j < i ==> (#[trigger] entries[j]) is Ok,
        },
    decreases entries.len(),
{
    if entries.len() > 0 {
        let before = entries.drop_last();
        law_first_fault_counts(before);
        assert forall|i: int| 0 <= i < before.len() implies #[trigger] entries[i] == before[i] by {}
        match log_fault(before) {
            Some(f) => {
                let i = choose|i: int|
                    0 <= i < before.len() && #[trigger] before[i] == Err::<
                        SignedEntryModel,
                        LogError,
                    >(f) && forall|j: int| 0 <= j < i ==> (#[trigger] before[j]) is Ok;
                assert(entries[i] == before[i]);
                assert forall|j: int| 0 <= j < i implies (#[trigger] entries[j]) is Ok by {
                    assert(before[j] is Ok);
                }
            },
            None => {
                assert forall|i: int| 0 <= i < before.len() implies (#[trigger] entries[i]) is Ok by {
                    assert(before[i] is Ok);
                }
                assert(entries[entries.len() - 1] == entries.last());
            },
        }
    }
}

} // verus!
