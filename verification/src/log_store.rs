//! A store that takes entries in their encoded form and remembers of every author how
//! far the author's log has been applied.
use crate::bytes::{to_array32, to_vec, Digest, PubKey};
use crate::head_records;
use crate::head_records::{apply_head, get_value, list_winners, load_heads};
use crate::message;
use crate::proto::packed::{AuthorProgress, AuthorProgressModel, PackedHead, PackedHeadModel};
use crate::proto::storage::{
    Entry, EntryModel, Hlc, OpType, OpTypeModel, SignedEntry, SignedEntryModel,
};
use crate::sigchain;
use crate::signed_entry::hash_signed_entry;
use crate::store::error::{StoreError, StoreFault};
use crate::store::state;
use crate::sync_state::{AuthorInfo, SyncState};
use crate::table;
use crate::table::ByteTable;
use vstd::prelude::*;

verus! {

// ---------------------------------------------------------------------------
// Models
// ---------------------------------------------------------------------------

/// The model of a [`Store`].
#[verifier::ext_equal]
pub struct LogStoreModel {
    /// The heads of every key, as they are stored.
    pub kv: Map<Seq<u8>, Seq<u8>>,
    /// How far the log of every author has been applied, as it is stored.
    pub authors: Map<Seq<u8>, Seq<u8>>,
}

/// A timestamp as one number, in which the later one is the greater: the wall time
/// above the lower sixteen bits, the counter in them. An entry without a timestamp
/// is the oldest.
pub open spec fn packed_time(t: Option<Hlc>) -> u64 {
    match t {
        Some(h) => (h.wall_time << 16) | (h.counter as u64),
        None => 0,
    }
}

/// The head that an operation of an entry makes.
pub open spec fn op_head(op: OpTypeModel, e: EntryModel, s: SignedEntryModel) -> PackedHeadModel {
    PackedHeadModel {
        value: match op {
            OpTypeModel::Put(p) => p.value,
            OpTypeModel::Delete(_) => Seq::empty(),
        },
        hlc: packed_time(e.timestamp),
        author: sigchain::sized(s.author_id, 32),
        hash: sigchain::raw_hash(s),
        tombstone: op is Delete,
    }
}

/// What the first `n` operations of an entry make of the stored heads.
pub open spec fn ops_put(
    kv: Map<Seq<u8>, Seq<u8>>,
    e: EntryModel,
    s: SignedEntryModel,
    n: nat,
) -> Map<Seq<u8>, Seq<u8>>
    decreases n,
{
    if n == 0 {
        kv
    } else {
        let m = ops_put(kv, e, s, (n - 1) as nat);
        let op = e.ops[n - 1];
        match op.op_type {
            None => m,
            Some(t) => head_records::head_put::<PackedHead>(
                m,
                op.key()->0,
                op_head(t, e, s),
                e.parent_hashes,
            ),
        }
    }
}

/// How far the log of an author has been applied, where that is stored and can be
/// read.
pub open spec fn progress_at(authors: Map<Seq<u8>, Seq<u8>>, author: Seq<u8>) -> Option<
    AuthorProgressModel,
> {
    if authors.dom().contains(author) {
        message::decoded::<AuthorProgress>(authors[author])
    } else {
        None
    }
}

/// What an entry makes of the store. One whose number has been reached was applied
/// before, and changes nothing.
pub open spec fn applied(st: LogStoreModel, s: SignedEntryModel) -> Result<
    LogStoreModel,
    StoreFault,
> {
    match message::decoded::<Entry>(s.entry_bytes) {
        None => Err(StoreFault::Decode(message::decode_error::<Entry>(s.entry_bytes))),
        Some(e) => {
            let author = sigchain::sized(s.author_id, 32);
            match progress_at(st.authors, author) {
                Some(p) if e.seq <= p.seq => Ok(st),
                _ => Ok(
                    LogStoreModel {
                        kv: ops_put(st.kv, e, s, e.ops.len()),
                        authors: st.authors.insert(
                            author,
                            message::encoded::<AuthorProgress>(
                                AuthorProgressModel {
                                    seq: e.seq,
                                    hash: sigchain::raw_hash(s),
                                    log_offset: 0,
                                },
                            ),
                        ),
                    },
                ),
            }
        },
    }
}

/// What a run of entries makes of the store; an entry that cannot be decoded fails
/// all of them.
pub open spec fn all_applied(st: LogStoreModel, entries: Seq<SignedEntryModel>) -> Result<
    LogStoreModel,
    StoreFault,
>
    decreases entries.len(),
{
    if entries.len() == 0 {
        Ok(st)
    } else {
        match all_applied(st, entries.drop_last()) {
            Err(f) => Err(f),
            Ok(t) => applied(t, entries.last()),
        }
    }
}

/// Entries that can be decoded can be applied.
proof fn lemma_decoded_entries_apply(st: LogStoreModel, entries: Seq<SignedEntryModel>)
    requires
        forall|i: int|
            0 <= i < entries.len() ==> message::decoded::<Entry>(
                (#[trigger] entries[i]).entry_bytes,
            ) is Some,
    ensures
        all_applied(st, entries) is Ok,
    decreases entries.len(),
{
    if entries.len() > 0 {
        let rest = entries.drop_last();
        assert forall|k: int| 0 <= k < rest.len() implies message::decoded::<Entry>(
            (#[trigger] rest[k]).entry_bytes,
        ) is Some by {
            assert(entries[k] == rest[k]);
        }
        lemma_decoded_entries_apply(st, rest);
        assert(entries[entries.len() - 1] == entries.last());
    }
}

/// The first entry that cannot be decoded fails all of them.
proof fn lemma_first_undecodable(st: LogStoreModel, entries: Seq<SignedEntryModel>, n: int)
    requires
        0 <= n < entries.len(),
        forall|i: int|
            0 <= i < n ==> message::decoded::<Entry>((#[trigger] entries[i]).entry_bytes) is Some,
        message::decoded::<Entry>(entries[n].entry_bytes) is None,
    ensures
        all_applied(st, entries) == Err::<LogStoreModel, StoreFault>(
            StoreFault::Decode(message::decode_error::<Entry>(entries[n].entry_bytes)),
        ),
    decreases entries.len(),
{
    let rest = entries.drop_last();
    assert forall|k: int| 0 <= k < n && k < rest.len() implies message::decoded::<Entry>(
        (#[trigger] rest[k]).entry_bytes,
    ) is Some by {
        assert(entries[k] == rest[k]);
    }
    if n < rest.len() {
        assert(rest[n] == entries[n]);
        lemma_first_undecodable(st, rest, n);
    } else {
        lemma_decoded_entries_apply(st, rest);
    }
}

/// What is known of the authors' logs.
pub open spec fn progress_says(
    authors: Map<Seq<u8>, Seq<u8>>,
    m: Map<Seq<u8>, AuthorInfo>,
    keys: Seq<Seq<u8>>,
) -> bool {
    &&& forall|a: Seq<u8>| #[trigger]
        m.dom().contains(a) <==> keys.contains(a) && a.len() == 32 && (progress_at(
            authors,
            a,
        ) matches Some(p) && p.hash.len() == 32)
    &&& forall|a: Seq<u8>| #[trigger]
        m.dom().contains(a) ==> {
            let p = progress_at(authors, a)->0;
            m[a].seq == p.seq && m[a].hash@ == p.hash
        }
}

// ---------------------------------------------------------------------------
// Laws
// ---------------------------------------------------------------------------

/// Applying an entry a second time changes nothing.
pub proof fn law_apply_is_idempotent(st: LogStoreModel, s: SignedEntryModel)
    requires
        ({
            let e = message::decoded::<Entry>(s.entry_bytes)->0;
            message::encoded::<AuthorProgress>(
                AuthorProgressModel { seq: e.seq, hash: sigchain::raw_hash(s), log_offset: 0 },
            ).len() <= u64::MAX
        }),
    ensures
        applied(st, s) matches Ok(t) ==> applied(t, s) == Ok::<LogStoreModel, StoreFault>(t),
{
    if let Some(e) = message::decoded::<Entry>(s.entry_bytes) {
        crate::proto::packed::law_author_progress_round_trip(
            AuthorProgressModel { seq: e.seq, hash: sigchain::raw_hash(s), log_offset: 0 },
        );
    }
}

/// A later timestamp is the greater number, as long as the counters fit in sixteen
/// bits and the wall times in forty-eight.
pub proof fn law_packing_keeps_the_order(a: Hlc, b: Hlc)
    requires
        a.counter < 0x10000,
        b.counter < 0x10000,
        a.wall_time < 0x1_0000_0000_0000,
        b.wall_time < 0x1_0000_0000_0000,
        a.wall_time < b.wall_time || (a.wall_time == b.wall_time && a.counter < b.counter),
    ensures
        packed_time(Some(a)) < packed_time(Some(b)),
{
    let (w, c) = (a.wall_time, a.counter as u64);
    let (x, d) = (b.wall_time, b.counter as u64);
    assert(((w << 16) | c) < ((x << 16) | d)) by (bit_vector)
        requires
            c < 0x10000,
            d < 0x10000,
            w < 0x1_0000_0000_0000,
            x < 0x1_0000_0000_0000,
            w < x || (w == x && c < d),
    ;
}

/// A timestamp is packed as its wall time with the counter in the sixteen bits behind it.
pub proof fn law_packed_time_holds_both(t: Hlc)
    requires
        t.counter < 0x10000,
        t.wall_time < 0x1_0000_0000_0000,
    ensures
        packed_time(Some(t)) == t.wall_time * 0x10000 + t.counter,
        packed_time(None) == 0,
{
    let (w, c) = (t.wall_time, t.counter as u64);
    assert(((w << 16) | c) == w * 0x10000 + c) by (bit_vector)
        requires
            c < 0x10000,
            w < 0x1_0000_0000_0000,
    ;
}

/// A put makes a head with its value, a deletion one that marks it. Either has the time, the
/// author and the hash of its entry.
pub proof fn law_operation_makes_its_head(op: OpTypeModel, e: EntryModel, s: SignedEntryModel)
    requires
        s.author_id.len() == 32,
    ensures
        ({
            let h = op_head(op, e, s);
            &&& h.author == s.author_id
            &&& h.hash == sigchain::raw_hash(s)
            &&& h.hlc == packed_time(e.timestamp)
            &&& op matches OpTypeModel::Put(p) ==> h.value == p.value && !h.tombstone
            &&& op is Delete ==> h.tombstone && h.value.len() == 0
        }),
{
}

/// An entry with a number that its author's log has reached changes nothing. Any other is
/// the last of its author from then on, by its number and hash, and authors other than its
/// own stay as they were.
pub proof fn law_applied_entry_is_the_last(
    st: LogStoreModel,
    s: SignedEntryModel,
    e: EntryModel,
    other: Seq<u8>,
)
    requires
        message::decoded::<Entry>(s.entry_bytes) == Some(e),
        s.author_id.len() == 32,
        message::encoded::<AuthorProgress>(
            AuthorProgressModel { seq: e.seq, hash: sigchain::raw_hash(s), log_offset: 0 },
        ).len() <= u64::MAX,
        other != s.author_id,
    ensures
        applied(st, s) matches Ok(t) && {
            &&& (progress_at(st.authors, s.author_id) matches Some(p) && e.seq <= p.seq) ==> t == st
            &&& !(progress_at(st.authors, s.author_id) matches Some(p) && e.seq <= p.seq) ==> (
            progress_at(t.authors, s.author_id) matches Some(p) && p.seq == e.seq && p.hash
                == sigchain::raw_hash(s))
            &&& progress_at(t.authors, other) == progress_at(st.authors, other)
        },
{
    crate::proto::packed::law_author_progress_round_trip(
        AuthorProgressModel { seq: e.seq, hash: sigchain::raw_hash(s), log_offset: 0 },
    );
}

/// Keys that no operation of an entry is about stay as they were.
pub proof fn law_other_keys_stay(
    kv: Map<Seq<u8>, Seq<u8>>,
    e: EntryModel,
    s: SignedEntryModel,
    n: nat,
    key: Seq<u8>,
)
    requires
        n <= e.ops.len(),
        forall|i: int|
            0 <= i < n ==> match (#[trigger] e.ops[i]).op_type {
                Some(OpTypeModel::Put(p)) => p.key != key,
                Some(OpTypeModel::Delete(d)) => d.key != key,
                None => true,
            },
    ensures
        ops_put(kv, e, s, n).dom().contains(key) == kv.dom().contains(key),
        ops_put(kv, e, s, n)[key] == kv[key],
    decreases n,
{
    if n > 0 {
        law_other_keys_stay(kv, e, s, (n - 1) as nat, key);
        assert(match e.ops[n - 1].op_type {
            Some(OpTypeModel::Put(p)) => p.key != key,
            Some(OpTypeModel::Delete(d)) => d.key != key,
            None => true,
        });
    }
}

/// A first operation about a key, in an entry that is new to the key, leaves its head there:
/// with the value that was put or the mark of a deletion.
pub proof fn law_only_operation_leaves_its_head(
    kv: Map<Seq<u8>, Seq<u8>>,
    e: EntryModel,
    s: SignedEntryModel,
    t: OpTypeModel,
    key: Seq<u8>,
    heads: Seq<PackedHeadModel>,
)
    requires
        e.ops.len() == 1,
        e.ops[0].op_type == Some(t),
        match t {
            OpTypeModel::Put(p) => p.key == key,
            OpTypeModel::Delete(d) => d.key == key,
        },
        head_records::heads_at::<PackedHead>(kv, key) matches Ok(h) && h == heads,
        forall|i: int|
            0 <= i < heads.len() ==> (#[trigger] heads[i]).hash != sigchain::raw_hash(s),
        <PackedHead as head_records::HeadRecord>::list_bytes(
            head_records::kept::<PackedHead>(heads, e.parent_hashes).push(op_head(t, e, s)),
        ).len() <= u64::MAX,
    ensures
        head_records::heads_at::<PackedHead>(ops_put(kv, e, s, 1), key) matches Ok(after)
            && after.len() > 0 && {
            let h = after.last();
            &&& h.hash == sigchain::raw_hash(s)
            &&& h.tombstone == (t is Delete)
            &&& t matches OpTypeModel::Put(p) ==> h.value == p.value
        },
{
    reveal_with_fuel(ops_put, 2);
    head_records::law_new_head_replaces_its_parents::<PackedHead>(
        kv,
        key,
        op_head(t, e, s),
        e.parent_hashes,
        heads,
    );
    assert(ops_put(kv, e, s, 1) == head_records::head_put::<PackedHead>(
        kv,
        key,
        op_head(t, e, s),
        e.parent_hashes,
    ));
}

// ---------------------------------------------------------------------------
// The store
// ---------------------------------------------------------------------------

/// A store of heads.
pub struct Store {
    kv: ByteTable,
    authors: ByteTable,
}

impl View for Store {
    type V = LogStoreModel;

    closed spec fn view(&self) -> LogStoreModel {
        LogStoreModel { kv: self.kv@, authors: self.authors@ }
    }
}

impl Store {
    /// The tables are well formed.
    pub closed spec fn wf(&self) -> bool {
        self.kv.wf() && self.authors.wf()
    }

    /// A store in which there is nothing.
    pub fn open() -> (r: Self)
        ensures
            r.wf(),
            r@ == (LogStoreModel { kv: Map::empty(), authors: Map::empty() }),
    {
        Store { kv: ByteTable::new(), authors: ByteTable::new() }
    }

    /// The store that is kept in the given tables.
    pub fn from_tables(kv: ByteTable, authors: ByteTable) -> (r: Self)
        requires
            kv.wf(),
            authors.wf(),
        ensures
            r.wf(),
            r@ == (LogStoreModel { kv: kv@, authors: authors@ }),
    {
        Store { kv, authors }
    }

    /// The table of heads.
    pub fn kv_table(&self) -> (r: &ByteTable)
        requires
            self.wf(),
        ensures
            r.wf(),
            r@ == self@.kv,
    {
        &self.kv
    }

    /// The table of what every author has written.
    pub fn authors_table(&self) -> (r: &ByteTable)
        requires
            self.wf(),
        ensures
            r.wf(),
            r@ == self@.authors,
    {
        &self.authors
    }

    /// Applies the entries of a log: how many they are. Where one of them cannot be
    /// decoded, the store stays as it was.
    pub fn replay_log(&mut self, entries: &Vec<SignedEntry>) -> (r: Result<u64, StoreError>)
        requires
            old(self).wf(),
        ensures
            final(self).wf(),
            match all_applied(old(self)@, message::models(entries@)) {
                Ok(s) => r matches Ok(n) && n == entries@.len() && final(self)@ == s,
                Err(f) => r matches Err(e) && e@ == f && final(self)@ == old(self)@,
            },
    {
        let total: usize = entries.len();
        let ghost all = message::models(entries@);
        let ghost start = self@;
        let mut i: usize = 0;
        while i < total
            invariant
                i <= total,
                total == entries@.len(),
                all == message::models(entries@),
                self.wf(),
                self@ == start,
                start == old(self)@,
                forall|k: int|
                    0 <= k < i ==> message::decoded::<Entry>(
                        (#[trigger] all[k]).entry_bytes,
                    ) is Some,
            decreases total - i,
        {
            assert(all[i as int] == entries@[i as int]@);
            match message::decode::<Entry>(entries[i].entry_bytes.as_slice()) {
                Ok(_) => {},
                Err(e) => {
                    proof {
                        lemma_first_undecodable(start, all, i as int);
                    }
                    return Err(StoreError::Decode(e));
                },
            }
            i += 1;
        }
        let mut j: usize = 0;
        assert(all.take(0) =~= Seq::empty());
        while j < total
            invariant
                j <= total,
                total == entries@.len(),
                all == message::models(entries@),
                self.wf(),
                forall|k: int|
                    0 <= k < all.len() ==> message::decoded::<Entry>(
                        (#[trigger] all[k]).entry_bytes,
                    ) is Some,
                all_applied(start, all.take(j as int)) == Ok::<LogStoreModel, StoreFault>(self@),
            decreases total - j,
        {
            proof {
                assert(all.take(j + 1).drop_last() =~= all.take(j as int));
                assert(all.take(j + 1).last() == entries@[j as int]@);
                assert(all[j as int] == entries@[j as int]@);
            }
            let _ = self.apply_entry(&entries[j]);
            j += 1;
        }
        assert(all.take(j as int) =~= all);
        Ok(total as u64)
    }

    /// Applies one entry.
    pub fn apply_entry(&mut self, signed_entry: &SignedEntry) -> (r: Result<(), StoreError>)
        requires
            old(self).wf(),
        ensures
            final(self).wf(),
            match applied(old(self)@, signed_entry@) {
                Ok(s) => r is Ok && final(self)@ == s,
                Err(f) => r matches Err(e) && e@ == f && final(self)@ == old(self)@,
            },
    {
        let ghost start = self@;
        let ghost s = signed_entry@;
        let entry = match message::decode::<Entry>(signed_entry.entry_bytes.as_slice()) {
            Ok(entry) => entry,
            Err(e) => {
                return Err(StoreError::Decode(e));
            },
        };
        let author: PubKey = if signed_entry.author_id.len() == 32 {
            to_array32(signed_entry.author_id.as_slice())
        } else {
            [0u8;32]
        };
        assert(author@ =~= sigchain::sized(s.author_id, 32));
        match self.author_state(&author) {
            Some(progress) => {
                if entry.seq <= progress.seq {
                    return Ok(());
                }
            },
            None => {},
        }
        let entry_hash = hash_signed_entry(signed_entry);
        self.apply_ops_to_tables(&entry, signed_entry, &author, &entry_hash);
        let progress = AuthorProgress {
            seq: entry.seq,
            hash: to_vec(entry_hash.as_slice()),
            log_offset: 0,
        };
        self.authors.insert(author.as_slice(), message::encode(&progress));
        assert(self@ =~= applied(start, s)->Ok_0);
        Ok(())
    }

    /// Applies the operations of an entry; its author and its hash are given.
    fn apply_ops_to_tables(
        &mut self,
        entry: &Entry,
        signed_entry: &SignedEntry,
        author: &PubKey,
        entry_hash: &Digest,
    )
        requires
            old(self).wf(),
            author@ == sigchain::sized(signed_entry@.author_id, 32),
            entry_hash@ == sigchain::raw_hash(signed_entry@),
        ensures
            final(self).wf(),
            final(self)@ == (LogStoreModel {
                kv: ops_put(old(self)@.kv, entry@, signed_entry@, entry@.ops.len()),
                ..old(self)@
            }),
    {
        let ghost e = entry@;
        let ghost s = signed_entry@;
        let ghost start = self@;
        let hlc: u64 = match &entry.timestamp {
            Some(t) => (t.wall_time << 16) | (t.counter as u64),
            None => 0,
        };
        let mut i: usize = 0;
        while i < entry.ops.len()
            invariant
                self.wf(),
                e == entry@,
                s == signed_entry@,
                hlc == packed_time(e.timestamp),
                author@ == sigchain::sized(s.author_id, 32),
                entry_hash@ == sigchain::raw_hash(s),
                i <= e.ops.len(),
                e.ops.len() == entry.ops@.len(),
                self@ == (LogStoreModel { kv: ops_put(start.kv, e, s, i as nat), ..start }),
            decreases e.ops.len() - i,
        {
            let op = &entry.ops[i];
            assert(e.ops[i as int] == op@);
            match &op.op_type {
                None => {},
                Some(op_type) => {
                    let author = to_vec(author.as_slice());
                    let hash = to_vec(entry_hash.as_slice());
                    let (key, new_head) = match op_type {
                        OpType::Put(put) => (
                            &put.key,
                            PackedHead {
                                value: to_vec(put.value.as_slice()),
                                hlc,
                                author,
                                hash,
                                tombstone: false,
                            },
                        ),
                        OpType::Delete(del) => (
                            &del.key,
                            PackedHead { value: Vec::new(), hlc, author, hash, tombstone: true },
                        ),
                    };
                    assert(new_head@ == op_head(op_type@, e, s));
                    apply_head(&mut self.kv, key.as_slice(), new_head, &entry.parent_hashes);
                },
            }
            i += 1;
            assert(self@ =~= (LogStoreModel { kv: ops_put(start.kv, e, s, i as nat), ..start }));
        }
    }

    /// The value of a key: that of the winning head, and none where that head marks
    /// a deletion.
    pub fn get(&self, key: &[u8]) -> (r: Result<Option<Vec<u8>>, StoreError>)
        requires
            self.wf(),
        ensures
            match head_records::value_at::<PackedHead>(self@.kv, key@) {
                Err(d) => r matches Err(e) && e@ == StoreFault::Decode(d),
                Ok(None) => r == Ok::<Option<Vec<u8>>, StoreError>(None),
                Ok(Some(value)) => r matches Ok(Some(v)) && v@ == value,
            },
    {
        match get_value::<PackedHead>(&self.kv, key) {
            Ok(value) => Ok(value),
            Err(e) => Err(StoreError::Decode(e)),
        }
    }

    /// The heads of a key, in the order in which they are stored.
    pub fn get_heads(&self, key: &[u8]) -> (r: Result<Vec<PackedHead>, StoreError>)
        requires
            self.wf(),
        ensures
            match head_records::heads_at::<PackedHead>(self@.kv, key@) {
                Err(d) => r matches Err(e) && e@ == StoreFault::Decode(d),
                Ok(heads) => r matches Ok(v) && message::models(v@) == heads,
            },
    {
        match load_heads::<PackedHead>(&self.kv, key) {
            Ok(heads) => Ok(heads),
            Err(e) => Err(StoreError::Decode(e)),
        }
    }

    /// All keys with their winning values, deleted ones too, in the order of the
    /// keys.
    pub fn list_all(&self) -> (r: Result<Vec<(Vec<u8>, Vec<u8>)>, StoreError>)
        requires
            self.wf(),
        ensures
            match head_records::listing::<PackedHead>(
                self@.kv,
                table::sorted_keys(self@.kv.dom()),
                Seq::empty(),
                true,
            ) {
                Ok(pairs) => r matches Ok(v) && state::pair_models(v@) == pairs,
                Err(d) => r matches Err(e) && e@ == StoreFault::Decode(d),
            },
    {
        let none: Vec<u8> = Vec::new();
        assert(none@ =~= Seq::empty());
        match list_winners::<PackedHead>(&self.kv, none.as_slice(), true) {
            Ok(pairs) => Ok(pairs),
            Err(e) => Err(StoreError::Decode(e)),
        }
    }

    /// How far the log of an author has been applied.
    pub fn author_state(&self, author: &PubKey) -> (r: Option<AuthorProgress>)
        requires
            self.wf(),
        ensures
            match progress_at(self@.authors, author@) {
                Some(p) => r matches Some(x) && x@ == p,
                None => r is None,
            },
    {
        match self.authors.get(author.as_slice()) {
            Some(stored) => match message::decode::<AuthorProgress>(stored.as_slice()) {
                Ok(progress) => Some(progress),
                Err(_) => None,
            },
            None => None,
        }
    }

    /// Whether a put of the value would change anything.
    pub fn needs_put(heads: &[PackedHead], value: &[u8]) -> (r: bool)
        ensures
            r == head_records::put_needed::<PackedHead>(message::models(heads@), value@),
    {
        head_records::needs_put(heads, value)
    }

    /// Whether a deletion would change anything.
    pub fn needs_delete(heads: &[PackedHead]) -> (r: bool)
        ensures
            r == head_records::delete_needed::<PackedHead>(message::models(heads@)),
    {
        head_records::needs_delete(heads)
    }

    /// How far the log of every author has been applied.
    pub fn sync_state(&self) -> (r: SyncState)
        requires
            self.wf(),
        ensures
            r.wf(),
            progress_says(self@.authors, r@, table::sorted_keys(self@.authors.dom())),
    {
        let ghost keys = self.authors.keys();
        let mut state = SyncState::new();
        let mut i: usize = 0;
        proof {
            self.authors.lemma_keys();
            assert(keys.take(0) =~= Seq::empty());
        }
        while i < self.authors.len()
            invariant
                self.wf(),
                state.wf(),
                keys == self.authors.keys(),
                i <= keys.len(),
                progress_says(self@.authors, state@, keys.take(i as int)),
            decreases keys.len() - i,
        {
            let key = self.authors.key_at(i);
            proof {
                table::lemma_take_contains(keys, i as int);
                assert(keys[i as int] == key@);
                assert(keys.contains(key@));
                self.authors.lemma_keys();
                assert(self.authors@.dom().contains(key@));
            }
            if key.len() == 32 {
                let author: PubKey = to_array32(key.as_slice());
                match message::decode::<AuthorProgress>(self.authors.value_at(i).as_slice()) {
                    Ok(progress) => {
                        if progress.hash.len() == 32 {
                            state.set(
                                author,
                                progress.seq,
                                to_array32(progress.hash.as_slice()),
                            );
                        }
                    },
                    Err(_) => {},
                }
            }
            i += 1;
        }
        assert(keys.take(i as int) =~= keys);
        state
    }
}

} // verus!
