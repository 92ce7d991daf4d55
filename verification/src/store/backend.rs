//! A backend: one ordered table that holds everything.
use crate::bytes;
use crate::bytes::{starts_with, to_vec};
use crate::message;
use crate::store::error::StateError;
use crate::store::interfaces;
use crate::store::interfaces::{Patch, ReadContext, StateBackend};
use crate::store::kv_patch;
use crate::store::kv_patch::{KvPatch, TableOpsModel};
use crate::store::state;
use crate::table;
use crate::table::ByteTable;
use vstd::prelude::*;

verus! {

/// The name of the table.
pub const DATA_TABLE: &'static str = "data";

/// What puts make of the contents, one after the other.
pub open spec fn all_put(
    m: Map<Seq<u8>, Seq<u8>>,
    puts: Seq<(Seq<u8>, Seq<u8>)>,
) -> Map<Seq<u8>, Seq<u8>>
    decreases puts.len(),
{
    if puts.len() == 0 {
        m
    } else {
        all_put(m, puts.drop_last()).insert(puts.last().0, puts.last().1)
    }
}

/// What deletions make of the contents, one after the other.
pub open spec fn all_deleted(
    m: Map<Seq<u8>, Seq<u8>>,
    deletes: Seq<Seq<u8>>,
) -> Map<Seq<u8>, Seq<u8>>
    decreases deletes.len(),
{
    if deletes.len() == 0 {
        m
    } else {
        all_deleted(m, deletes.drop_last()).remove(deletes.last())
    }
}

/// What the changes to a table make of its contents: all puts, and then all
/// deletions.
pub open spec fn changed(m: Map<Seq<u8>, Seq<u8>>, ops: TableOpsModel) -> Map<Seq<u8>, Seq<u8>> {
    all_deleted(all_put(m, ops.puts), ops.deletes)
}

/// A key that a patch deletes is gone, and one that it puts and does not delete
/// has the value of the last put.
pub proof fn law_patch_is_read_back(
    m: Map<Seq<u8>, Seq<u8>>,
    ops: TableOpsModel,
    key: Seq<u8>,
    value: Seq<u8>,
)
    ensures
        ops.deletes.contains(key) ==> !changed(m, ops).dom().contains(key),
        !ops.deletes.contains(key) && ops.puts.len() > 0 && ops.puts.last() == (key, value)
            ==> changed(m, ops).dom().contains(key) && changed(m, ops)[key] == value,
{
    lemma_deleted(all_put(m, ops.puts), ops.deletes, key);
}

proof fn lemma_deleted(m: Map<Seq<u8>, Seq<u8>>, deletes: Seq<Seq<u8>>, key: Seq<u8>)
    ensures
        deletes.contains(key) ==> !all_deleted(m, deletes).dom().contains(key),
        !deletes.contains(key) ==> all_deleted(m, deletes).dom().contains(key)
            == m.dom().contains(key),
        !deletes.contains(key) && m.dom().contains(key) ==> all_deleted(m, deletes)[key] == m[key],
    decreases deletes.len(),
{
    if deletes.len() > 0 {
        let before = deletes.drop_last();
        lemma_deleted(m, before, key);
        if deletes.contains(key) && key != deletes.last() {
            let i = deletes.index_of(key);
            assert(before[i] == key);
        }
        if before.contains(key) {
            let i = before.index_of(key);
            assert(deletes[i] == key);
        }
        assert(deletes[deletes.len() - 1] == deletes.last());
    }
}

/// What a patch makes of a key. A key that it deletes is gone. Otherwise a key that it puts
/// has the value of the last such put, and all other keys stay as they were.
pub proof fn law_patch_changes_its_keys(
    m: Map<Seq<u8>, Seq<u8>>,
    ops: TableOpsModel,
    key: Seq<u8>,
)
    ensures
        ({
            let after = changed(m, ops);
            &&& ops.deletes.contains(key) ==> !after.dom().contains(key)
            &&& forall|i: int|
                !ops.deletes.contains(key) && 0 <= i < ops.puts.len() && (
                #[trigger] ops.puts[i]).0 == key && (forall|j: int|
                    i < j < ops.puts.len() ==> (#[trigger] ops.puts[j]).0 != key)
                    ==> after.dom().contains(key) && after[key] == ops.puts[i].1
            &&& !ops.deletes.contains(key) && (forall|j: int|
                0 <= j < ops.puts.len() ==> (#[trigger] ops.puts[j]).0 != key)
                ==> after.dom().contains(key) == m.dom().contains(key) && (m.dom().contains(key)
                ==> after[key] == m[key])
        }),
{
    lemma_deleted(all_put(m, ops.puts), ops.deletes, key);
    lemma_put(m, ops.puts, key);
}

proof fn lemma_put(m: Map<Seq<u8>, Seq<u8>>, puts: Seq<(Seq<u8>, Seq<u8>)>, key: Seq<u8>)
    ensures
        forall|i: int|
            0 <= i < puts.len() && (#[trigger] puts[i]).0 == key && (forall|j: int|
                i < j < puts.len() ==> (#[trigger] puts[j]).0 != key) ==> all_put(
                m,
                puts,
            ).dom().contains(key) && all_put(m, puts)[key] == puts[i].1,
        (forall|j: int| 0 <= j < puts.len() ==> (#[trigger] puts[j]).0 != key) ==> all_put(
            m,
            puts,
        ).dom().contains(key) == m.dom().contains(key) && (m.dom().contains(key) ==> all_put(
            m,
            puts,
        )[key] == m[key]),
    decreases puts.len(),
{
    if puts.len() > 0 {
        let before = puts.drop_last();
        lemma_put(m, before, key);
        assert forall|i: int|
            0 <= i < puts.len() && (#[trigger] puts[i]).0 == key && (forall|j: int|
                i < j < puts.len() ==> (#[trigger] puts[j]).0 != key) implies all_put(
            m,
            puts,
        ).dom().contains(key) && all_put(m, puts)[key] == puts[i].1 by {
            if i < before.len() {
                assert(puts[puts.len() - 1].0 != key);
                assert(before[i] == puts[i]);
                assert forall|j: int| i < j < before.len() implies (#[trigger] before[j]).0
                    != key by {
                    assert(puts[j] == before[j]);
                }
            }
        }
        if forall|j: int| 0 <= j < puts.len() ==> (#[trigger] puts[j]).0 != key {
            assert(puts[puts.len() - 1].0 != key);
            assert forall|j: int| 0 <= j < before.len() implies (#[trigger] before[j]).0
                != key by {
                assert(puts[j] == before[j]);
            }
        }
    }
}

/// A backend that holds everything in one ordered table.
pub struct RedbBackend {
    data: ByteTable,
}

impl RedbBackend {
    /// A backend without contents.
    pub fn new() -> (r: Self)
        ensures
            r.readable(),
            r.contents() == Map::<Seq<u8>, Seq<u8>>::empty(),
    {
        RedbBackend { data: ByteTable::new() }
    }

    /// A backend with the given table.
    pub fn from_table(data: ByteTable) -> (r: Self)
        requires
            data.wf(),
        ensures
            r.readable(),
            r.contents() == data@,
    {
        RedbBackend { data }
    }

    /// The table.
    pub fn table(&self) -> (r: &ByteTable)
        requires
            self.readable(),
        ensures
            r.wf(),
            r@ == self.contents(),
    {
        &self.data
    }
}

impl ReadContext for RedbBackend {
    closed spec fn readable(&self) -> bool {
        self.data.wf()
    }

    closed spec fn contents(&self) -> Map<Seq<u8>, Seq<u8>> {
        self.data@
    }

    fn get(&self, key: &[u8]) -> (r: Result<Option<Vec<u8>>, StateError>)
        ensures
            r is Ok,
    {
        match self.data.get(key) {
            Some(v) => Ok(Some(to_vec(v.as_slice()))),
            None => Ok(None),
        }
    }
}

impl StateBackend<KvPatch> for RedbBackend {
    open spec fn patched(m: Map<Seq<u8>, Seq<u8>>, patch: Map<Seq<u8>, TableOpsModel>) -> Map<
        Seq<u8>,
        Seq<u8>,
    > {
        changed(m, kv_patch::ops_at(patch, kv_patch::table_key("data"@)))
    }

    fn apply_patch(&mut self, patch: KvPatch) -> (r: Result<(), StateError>)
        ensures
            r is Ok,
    {
        let ghost start = self.data@;
        match patch.ops(DATA_TABLE) {
            Some(ops) => {
                let ghost puts = ops@.puts;
                let ghost deletes = ops@.deletes;
                let mut i: usize = 0;
                assert(puts.take(0) =~= Seq::empty());
                while i < ops.puts.len()
                    invariant
                        self.data.wf(),
                        i <= ops.puts@.len(),
                        puts == kv_patch::pairs(ops.puts@),
                        self.data@ == all_put(start, puts.take(i as int)),
                    decreases ops.puts@.len() - i,
                {
                    proof {
                        assert(puts.take(i + 1).drop_last() =~= puts.take(i as int));
                        assert(puts.take(i + 1).last() == (
                            ops.puts@[i as int].0@,
                            ops.puts@[i as int].1@,
                        ));
                    }
                    let value = to_vec(ops.puts[i].1.as_slice());
                    self.data.insert(ops.puts[i].0.as_slice(), value);
                    i += 1;
                }
                assert(puts.take(i as int) =~= puts);
                let ghost middle = self.data@;
                let mut j: usize = 0;
                assert(deletes.take(0) =~= Seq::empty());
                while j < ops.deletes.len()
                    invariant
                        self.data.wf(),
                        j <= ops.deletes@.len(),
                        deletes == message::byte_models(ops.deletes@),
                        self.data@ == all_deleted(middle, deletes.take(j as int)),
                    decreases ops.deletes@.len() - j,
                {
                    proof {
                        assert(deletes.take(j + 1).drop_last() =~= deletes.take(j as int));
                        assert(deletes.take(j + 1).last() == ops.deletes@[j as int]@);
                    }
                    self.data.remove(ops.deletes[j].as_slice());
                    j += 1;
                }
                assert(deletes.take(j as int) =~= deletes);
            },
            None => {
                assert(changed(start, kv_patch::no_ops()) =~= start);
            },
        }
        Ok(())
    }

    fn scan(&self, prefix: &[u8]) -> (r: Result<Vec<(Vec<u8>, Vec<u8>)>, StateError>)
        ensures
            r is Ok,
    {
        let ghost keys = self.data.keys();
        let ghost m = self.data@;
        proof {
            self.data.lemma_keys();
        }
        let mut out: Vec<(Vec<u8>, Vec<u8>)> = Vec::new();
        let mut i: usize = self.data.lower_bound(prefix);
        proof {
            assert forall|k: int| 0 <= k < i implies !prefix@.is_prefix_of(#[trigger] keys[k]) by {
                bytes::lemma_before_prefix(prefix@, keys[k]);
            }
            lemma_scan_skips(m, keys, prefix@, 0, i as int);
            assert(keys.take(0) =~= Seq::empty());
            assert(state::pair_models(out@) =~= Seq::empty());
        }
        while i < self.data.len()
            invariant
                self.data.wf(),
                keys == self.data.keys(),
                m == self.data@,
                i <= keys.len(),
                table::ascending(keys),
                keys == table::sorted_keys(m.dom()),
                m == self.contents(),
                forall|k: int|
                    i <= k < keys.len() ==> !bytes::lex_lt(#[trigger] keys[k], prefix@),
                state::pair_models(out@) == interfaces::scanned(m, keys.take(i as int), prefix@),
            decreases keys.len() - i,
        {
            let key = self.data.key_at(i);
            let ghost before = out@;
            proof {
                assert(keys.take(i + 1).drop_last() =~= keys.take(i as int));
                assert(keys.take(i + 1).last() == keys[i as int]);
            }
            if !starts_with(key.as_slice(), prefix) {
                proof {
                    assert forall|k: int| i <= k < keys.len() implies !prefix@.is_prefix_of(
                        #[trigger] keys[k],
                    ) by {
                        if k > i && prefix@.is_prefix_of(keys[k]) {
                            bytes::lemma_prefix_interval(prefix@, keys[i as int], keys[k]);
                        }
                    }
                    lemma_scan_skips(m, keys, prefix@, i as int, keys.len() as int);
                    assert(keys.take(keys.len() as int) =~= keys);
                }
                return Ok(out);
            }
            let value = self.data.value_at(i);
            out.push((to_vec(key.as_slice()), to_vec(value.as_slice())));
            assert(state::pair_models(out@) =~= state::pair_models(before).push((key@, value@)));
            i += 1;
        }
        assert(keys.take(i as int) =~= keys);
        Ok(out)
    }
}

proof fn lemma_scan_skips(
    m: Map<Seq<u8>, Seq<u8>>,
    keys: Seq<Seq<u8>>,
    prefix: Seq<u8>,
    from: int,
    to: int,
)
    requires
        0 <= from <= to <= keys.len(),
        forall|k: int| from <= k < to ==> !prefix.is_prefix_of(#[trigger] keys[k]),
    ensures
        interfaces::scanned(m, keys.take(to), prefix) == interfaces::scanned(
            m,
            keys.take(from),
            prefix,
        ),
    decreases to - from,
{
    if from < to {
        lemma_scan_skips(m, keys, prefix, from, to - 1);
        assert(keys.take(to).drop_last() =~= keys.take(to - 1));
        assert(keys.take(to).last() == keys[to - 1]);
    }
}

} // verus!
