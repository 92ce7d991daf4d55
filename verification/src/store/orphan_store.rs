//! Signed entries as messages that wait for their predecessors.
//!
//! Unlike [`crate::store::sigchain::orphan_store`], entries are kept and handed out
//! as they came: whether a signature holds is for the reader to say.
use crate::bytes;
use crate::bytes::{to_array32, Digest, PubKey};
use crate::message;
use crate::proto::storage;
use crate::proto::storage::{OrphanedEntry, OrphanedEntryModel, SignedEntry, SignedEntryModel};
use crate::results;
use crate::store::sigchain::orphan_store;
use crate::store::sigchain::orphan_store::{OrphanKey, OrphanStoreError};
use crate::table;
use crate::table::ByteTable;
use vstd::prelude::*;

verus! {

/// What is stored of an entry that waits.
pub open spec fn waiting_value(seq: u64, e: SignedEntryModel) -> Seq<u8> {
    message::encoded::<OrphanedEntry>(OrphanedEntryModel { seq, entry: Some(e), received_at: 0 })
}

/// The waiting entry that is stored under a key: its sequence number, the entry
/// and its hash, which follows the author and the predecessor in the key.
pub open spec fn waiting_at(m: Map<Seq<u8>, Seq<u8>>, k: Seq<u8>) -> Result<
    (u64, SignedEntryModel, Seq<u8>),
    OrphanStoreError,
> {
    match message::decoded::<OrphanedEntry>(m[k]) {
        None => Err(OrphanStoreError::Decode(message::decode_error::<OrphanedEntry>(m[k]))),
        Some(o) => match o.entry {
            None => Err(OrphanStoreError::MissingEntry),
            Some(e) => if k.len() < 96 {
                Err(OrphanStoreError::InvalidKey)
            } else {
                Ok((o.seq, e, k.subrange(64, 96)))
            },
        },
    }
}

/// The entries under the given keys.
pub open spec fn waiting_under(m: Map<Seq<u8>, Seq<u8>>, keys: Seq<Seq<u8>>) -> Result<
    Seq<(u64, SignedEntryModel, Seq<u8>)>,
    OrphanStoreError,
> {
    results::all_ok(keys.map_values(|k: Seq<u8>| waiting_at(m, k)))
}

/// The models of found entries.
pub open spec fn waiting_models(v: Seq<(u64, SignedEntry, Digest)>) -> Seq<
    (u64, SignedEntryModel, Seq<u8>),
> {
    v.map_values(|t: (u64, SignedEntry, Digest)| (t.0, t.1@, t.2@))
}

/// An entry that is kept is read back as it came.
pub proof fn law_waiting_is_read_back(
    m: Map<Seq<u8>, Seq<u8>>,
    k: Seq<u8>,
    seq: u64,
    e: SignedEntryModel,
)
    requires
        m.dom().contains(k),
        k.len() == 96,
        m[k] == waiting_value(seq, e),
        m[k].len() <= u64::MAX,
    ensures
        waiting_at(m, k) == Ok::<(u64, SignedEntryModel, Seq<u8>), OrphanStoreError>(
            (seq, e, k.subrange(64, 96)),
        ),
{
    storage::law_orphaned_entry_round_trip(
        OrphanedEntryModel { seq, entry: Some(e), received_at: 0 },
    );
}

/// The entries of an author that wait for a predecessor.
pub open spec fn waiting_for(m: Map<Seq<u8>, Seq<u8>>, author: Seq<u8>, prev_hash: Seq<u8>) -> Result<
    Seq<(u64, SignedEntryModel, Seq<u8>)>,
    OrphanStoreError,
> {
    waiting_under(
        m,
        table::keys_between(
            table::sorted_keys(m.dom()),
            orphan_store::joined(author, prev_hash, bytes::zeros(32)),
            orphan_store::joined(author, prev_hash, orphan_store::ones(32)),
        ),
    )
}

/// Once a record has been deleted, a lookup by its author and predecessor gives what it
/// gave before, in the same order, without that entry. Lookups by another author or
/// predecessor give what they gave.
pub proof fn law_deleted_orphan_is_gone(
    m: Map<Seq<u8>, Seq<u8>>,
    author: Seq<u8>,
    prev_hash: Seq<u8>,
    entry_hash: Seq<u8>,
)
    requires
        table::lists(table::sorted_keys(m.dom()), m.dom()),
        forall|k: Seq<u8>| #[trigger] m.dom().contains(k) ==> k.len() == 96,
        author.len() == 32,
        prev_hash.len() == 32,
        entry_hash.len() == 32,
    ensures
        ({
            let after = m.remove(orphan_store::joined(author, prev_hash, entry_hash));
            &&& waiting_for(m, author, prev_hash) matches Ok(found) ==> waiting_for(
                after,
                author,
                prev_hash,
            ) == Ok::<Seq<(u64, SignedEntryModel, Seq<u8>)>, OrphanStoreError>(
                found.filter(|t: (u64, SignedEntryModel, Seq<u8>)| t.2 != entry_hash),
            )
            &&& forall|a: Seq<u8>, p: Seq<u8>|
                a.len() == 32 && p.len() == 32 && (a != author || p != prev_hash)
                    ==> #[trigger] waiting_for(after, a, p) == waiting_for(m, a, p)
        }),
{
    let k = orphan_store::joined(author, prev_hash, entry_hash);
    let after = m.remove(k);
    let keys = table::sorted_keys(m.dom());
    let others = |x: Seq<u8>| x != k;
    assert forall|a: Seq<u8>, p: Seq<u8>|
        a.len() == 32 && p.len() == 32 && (a != author || p != prev_hash) implies
        #[trigger] waiting_for(after, a, p) == waiting_for(m, a, p) by {
        lemma_lookup_without(m, k, a, p);
        let lo = orphan_store::joined(a, p, bytes::zeros(32));
        let hi = orphan_store::joined(a, p, orphan_store::ones(32));
        orphan_store::law_range_is_prefix(a + p, k, 32);
        assert(lo =~= (a + p) + bytes::zeros(32));
        assert(hi =~= (a + p) + orphan_store::ones(32));
        assert(!table::in_range(k, lo, hi)) by {
            assert(k.take(64) =~= author + prev_hash);
            assert((author + prev_hash).take(32) =~= author && (a + p).take(32) =~= a);
            assert((author + prev_hash).skip(32) =~= prev_hash && (a + p).skip(32) =~= p);
        }
        table::lemma_keep_all_but(keys, lo, hi, k);
    }
    if let Ok(found) = waiting_for(m, author, prev_hash) {
        lemma_lookup_without(m, k, author, prev_hash);
        let lo = orphan_store::joined(author, prev_hash, bytes::zeros(32));
        let hi = orphan_store::joined(author, prev_hash, orphan_store::ones(32));
        let inside = |x: Seq<u8>| table::in_range(x, lo, hi);
        let ks = table::keys_between(keys, lo, hi);
        let f = |x: Seq<u8>| waiting_at(m, x);
        let items = ks.map_values(f);
        let keep_value = |t: (u64, SignedEntryModel, Seq<u8>)| t.2 != entry_hash;
        results::lemma_all_ok(items);
        assert forall|i: int| 0 <= i < ks.len() implies others(#[trigger] ks[i]) == keep_value(
            f(ks[i])->Ok_0,
        ) by {
            let x = ks[i];
            assert(items[i] == f(x));
            keys.lemma_filter_pred(inside, i);
            keys.lemma_filter_contains_rev(inside, x);
            assert(m.dom().contains(x));
            orphan_store::law_range_is_prefix(author + prev_hash, x, 32);
            assert(lo =~= (author + prev_hash) + bytes::zeros(32));
            assert(hi =~= (author + prev_hash) + orphan_store::ones(32));
            assert(k.subrange(64, 96) =~= entry_hash);
            if x.subrange(64, 96) == entry_hash {
                assert(x =~= x.take(64) + x.subrange(64, 96));
                assert(k =~= (author + prev_hash) + entry_hash);
            }
        }
        results::lemma_all_ok_filter(ks, f, others, keep_value);
    }
}

/// A lookup after a record has been deleted looks at the other keys.
proof fn lemma_lookup_without(
    m: Map<Seq<u8>, Seq<u8>>,
    k: Seq<u8>,
    author: Seq<u8>,
    prev_hash: Seq<u8>,
)
    requires
        table::lists(table::sorted_keys(m.dom()), m.dom()),
    ensures
        ({
            let lo = orphan_store::joined(author, prev_hash, bytes::zeros(32));
            let hi = orphan_store::joined(author, prev_hash, orphan_store::ones(32));
            let ks = table::keys_between(table::sorted_keys(m.dom()), lo, hi);
            waiting_for(m.remove(k), author, prev_hash) == results::all_ok(
                ks.filter(|x: Seq<u8>| x != k).map_values(|x: Seq<u8>| waiting_at(m, x)),
            )
        }),
{
    let after = m.remove(k);
    let keys = table::sorted_keys(m.dom());
    let lo = orphan_store::joined(author, prev_hash, bytes::zeros(32));
    let hi = orphan_store::joined(author, prev_hash, orphan_store::ones(32));
    let inside = |x: Seq<u8>| table::in_range(x, lo, hi);
    let others = |x: Seq<u8>| x != k;
    assert(after.dom() =~= m.dom().remove(k));
    table::lemma_sorted_without(m.dom(), k);
    table::lemma_filters_commute(keys, others, inside);
    let ks = keys.filter(inside).filter(others);
    let a = ks.map_values(|x: Seq<u8>| waiting_at(after, x));
    let b = ks.map_values(|x: Seq<u8>| waiting_at(m, x));
    assert forall|i: int| 0 <= i < ks.len() implies a[i] == b[i] by {
        keys.filter(inside).lemma_filter_pred(others, i);
        assert(after[ks[i]] == m[ks[i]]);
    }
    assert(a =~= b);
}

/// The entries that wait, in an ordered table.
pub struct OrphanStore {
    orphans: ByteTable,
}

impl View for OrphanStore {
    type V = Map<Seq<u8>, Seq<u8>>;

    closed spec fn view(&self) -> Map<Seq<u8>, Seq<u8>> {
        self.orphans@
    }
}

impl OrphanStore {
    /// The table is well formed.
    pub closed spec fn wf(&self) -> bool {
        self.orphans.wf()
    }

    /// A store in which nothing waits.
    pub fn open() -> (r: Self)
        ensures
            r.wf(),
            r@ == Map::<Seq<u8>, Seq<u8>>::empty(),
    {
        OrphanStore { orphans: ByteTable::new() }
    }

    /// The store with the given table.
    pub fn from_table(orphans: ByteTable) -> (r: Self)
        requires
            orphans.wf(),
        ensures
            r.wf(),
            r@ == orphans@,
    {
        OrphanStore { orphans }
    }

    /// The table of what waits.
    pub fn table(&self) -> (r: &ByteTable)
        requires
            self.wf(),
        ensures
            r.wf(),
            r@ == self@,
    {
        &self.orphans
    }

    /// Keeps an entry that waits for its predecessor, in place of what was kept
    /// under its key.
    pub fn insert(
        &mut self,
        author: &PubKey,
        prev_hash: &Digest,
        entry_hash: &Digest,
        seq: u64,
        entry: &SignedEntry,
    )
        requires
            old(self).wf(),
        ensures
            final(self).wf(),
            final(self)@ == old(self)@.insert(
                orphan_store::joined(author@, prev_hash@, entry_hash@),
                waiting_value(seq, entry@),
            ),
    {
        let key = OrphanKey::new(*author, *prev_hash, *entry_hash).as_bytes();
        let record = OrphanedEntry { seq, entry: Some(entry.clone()), received_at: 0 };
        self.orphans.insert(key.as_slice(), message::encode(&record));
    }

    /// The entries of an author that wait for the given predecessor: their
    /// sequence numbers, the entries and their hashes.
    pub fn find_by_prev_hash(&self, author: &PubKey, prev_hash: &Digest) -> (r: Result<
        Vec<(u64, SignedEntry, Digest)>,
        OrphanStoreError,
    >)
        requires
            self.wf(),
        ensures
            match waiting_for(self@, author@, prev_hash@) {
                Ok(found) => r matches Ok(v) && waiting_models(v@) == found,
                Err(e) => r == Err::<Vec<(u64, SignedEntry, Digest)>, OrphanStoreError>(e),
            },
    {
        proof {
            self.orphans.lemma_keys();
        }
        let start = OrphanKey::range_start(*author, *prev_hash).as_bytes();
        let end = OrphanKey::range_end(*author, *prev_hash).as_bytes();
        let (from, to) = self.orphans.range(start.as_slice(), end.as_slice());
        let ghost ks = self.orphans.keys().subrange(from as int, to as int);
        let ghost items = ks.map_values(|k: Seq<u8>| waiting_at(self@, k));
        let mut out: Vec<(u64, SignedEntry, Digest)> = Vec::new();
        let mut i: usize = from;
        proof {
            assert(items.take(0) =~= Seq::empty());
            assert(waiting_models(out@) =~= Seq::empty());
        }
        while i < to
            invariant
                self.wf(),
                from <= i <= to <= self.orphans.keys().len(),
                ks == self.orphans.keys().subrange(from as int, to as int),
                ks == table::keys_between(
                    table::sorted_keys(self@.dom()),
                    orphan_store::joined(author@, prev_hash@, bytes::zeros(32)),
                    orphan_store::joined(author@, prev_hash@, orphan_store::ones(32)),
                ),
                items == ks.map_values(|k: Seq<u8>| waiting_at(self@, k)),
                results::all_ok(items.take(i - from)) == Ok::<
                    Seq<(u64, SignedEntryModel, Seq<u8>)>,
                    OrphanStoreError,
                >(waiting_models(out@)),
            decreases to - i,
        {
            let ghost before = out@;
            let found = self.row(i);
            proof {
                assert(items[i - from] == waiting_at(self@, ks[i - from]));
                results::lemma_next(items, i - from);
            }
            match found {
                Ok(t) => {
                    let ghost x = (t.0, t.1@, t.2@);
                    out.push(t);
                    assert(waiting_models(out@) =~= waiting_models(before).push(x));
                },
                Err(e) => {
                    proof {
                        results::lemma_error_stays(items, i - from + 1);
                    }
                    return Err(e);
                },
            }
            i += 1;
        }
        assert(items.take(i - from) =~= items);
        Ok(out)
    }

    /// Reads the waiting entry of one row.
    fn row(&self, i: usize) -> (r: Result<(u64, SignedEntry, Digest), OrphanStoreError>)
        requires
            self.wf(),
            i < self.orphans.keys().len(),
        ensures
            match waiting_at(self@, self.orphans.keys()[i as int]) {
                Ok(x) => r matches Ok(t) && x == (t.0, t.1@, t.2@),
                Err(e) => r == Err::<(u64, SignedEntry, Digest), OrphanStoreError>(e),
            },
    {
        let orphaned = match message::decode::<OrphanedEntry>(self.orphans.value_at(i).as_slice()) {
            Ok(o) => o,
            Err(e) => {
                return Err(OrphanStoreError::Decode(e));
            },
        };
        let signed = match orphaned.entry {
            Some(s) => s,
            None => {
                return Err(OrphanStoreError::MissingEntry);
            },
        };
        let key = self.orphans.key_at(i).as_slice();
        if key.len() < 96 {
            return Err(OrphanStoreError::InvalidKey);
        }
        let entry_hash = to_array32(vstd::slice::slice_subrange(key, 64, 96));
        Ok((orphaned.seq, signed, entry_hash))
    }

    /// Drops an entry that waited for its predecessor.
    pub fn delete(&mut self, author: &PubKey, prev_hash: &Digest, entry_hash: &Digest)
        requires
            old(self).wf(),
        ensures
            final(self).wf(),
            final(self)@ == old(self)@.remove(
                orphan_store::joined(author@, prev_hash@, entry_hash@),
            ),
    {
        let key = OrphanKey::new(*author, *prev_hash, *entry_hash).as_bytes();
        let _ = self.orphans.remove(key.as_slice());
    }

    /// How many entries wait.
    pub fn count(&self) -> (r: usize)
        requires
            self.wf(),
        ensures
            self@.dom().finite(),
            r == self@.dom().len(),
    {
        proof {
            self.orphans.lemma_len();
        }
        self.orphans.len()
    }
}

} // verus!
