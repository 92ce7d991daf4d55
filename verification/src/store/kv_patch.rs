//! Patches: changes to tables that can be combined before they are applied.
use crate::bytes::to_vec;
use crate::message;
use crate::store::interfaces::Patch;
use crate::table;
use crate::table::Table;
use vstd::prelude::*;

verus! {

/// The changes to one table: what is put, and what is deleted.
#[derive(Debug)]
pub struct TableOps {
    pub puts: Vec<(Vec<u8>, Vec<u8>)>,
    pub deletes: Vec<Vec<u8>>,
}

/// The model of [`TableOps`].
#[verifier::ext_equal]
pub struct TableOpsModel {
    pub puts: Seq<(Seq<u8>, Seq<u8>)>,
    pub deletes: Seq<Seq<u8>>,
}

/// The models of pairs of byte strings.
pub open spec fn pairs(v: Seq<(Vec<u8>, Vec<u8>)>) -> Seq<(Seq<u8>, Seq<u8>)> {
    v.map_values(|p: (Vec<u8>, Vec<u8>)| (p.0@, p.1@))
}

impl View for TableOps {
    type V = TableOpsModel;

    open spec fn view(&self) -> TableOpsModel {
        TableOpsModel { puts: pairs(self.puts@), deletes: message::byte_models(self.deletes@) }
    }
}

impl Default for TableOps {
    /// No changes.
    fn default() -> (r: Self)
        ensures
            r@ == no_ops(),
    {
        let r = TableOps { puts: Vec::new(), deletes: Vec::new() };
        assert(r@ =~= no_ops());
        r
    }
}

/// No changes to a table.
pub open spec fn no_ops() -> TableOpsModel {
    TableOpsModel { puts: Seq::empty(), deletes: Seq::empty() }
}

/// The changes to a table that the patch holds.
pub open spec fn ops_at(p: Map<Seq<u8>, TableOpsModel>, table: Seq<u8>) -> TableOpsModel {
    if p.dom().contains(table) {
        p[table]
    } else {
        no_ops()
    }
}

/// The changes of `a` followed by those of `b`.
pub open spec fn ops_then(a: TableOpsModel, b: TableOpsModel) -> TableOpsModel {
    TableOpsModel { puts: a.puts + b.puts, deletes: a.deletes + b.deletes }
}

/// The patch that makes the changes of `a` followed by those of `b`.
pub open spec fn combined(
    a: Map<Seq<u8>, TableOpsModel>,
    b: Map<Seq<u8>, TableOpsModel>,
) -> Map<Seq<u8>, TableOpsModel> {
    Map::new(
        |t: Seq<u8>| a.dom().contains(t) || b.dom().contains(t),
        |t: Seq<u8>| ops_then(ops_at(a, t), ops_at(b, t)),
    )
}

/// Patches are a monoid: combining is associative.
pub proof fn law_combine_is_associative(
    a: Map<Seq<u8>, TableOpsModel>,
    b: Map<Seq<u8>, TableOpsModel>,
    c: Map<Seq<u8>, TableOpsModel>,
)
    ensures
        combined(combined(a, b), c) == combined(a, combined(b, c)),
{
    let l = combined(combined(a, b), c);
    let r = combined(a, combined(b, c));
    assert forall|t: Seq<u8>| l.dom().contains(t) implies l[t] == r[t] by {
        let x = ops_at(a, t);
        let y = ops_at(b, t);
        let z = ops_at(c, t);
        assert(ops_then(ops_then(x, y), z) =~= ops_then(x, ops_then(y, z)));
        assert(ops_then(no_ops(), no_ops()) =~= no_ops());
        assert(ops_at(combined(a, b), t) =~= ops_then(x, y));
        assert(ops_at(combined(b, c), t) =~= ops_then(y, z));
    }
    assert(l =~= r);
}

/// Of every table, two patches one after the other hold the puts and deletes of the first
/// and behind them those of the second.
pub proof fn law_patches_follow_each_other(
    a: Map<Seq<u8>, TableOpsModel>,
    b: Map<Seq<u8>, TableOpsModel>,
    t: Seq<u8>,
)
    ensures
        combined(a, b).dom().contains(t) <==> a.dom().contains(t) || b.dom().contains(t),
        a.dom().contains(t) && b.dom().contains(t) ==> combined(a, b)[t].puts == a[t].puts
            + b[t].puts && combined(a, b)[t].deletes == a[t].deletes + b[t].deletes,
        a.dom().contains(t) && !b.dom().contains(t) ==> combined(a, b)[t].puts == a[t].puts
            && combined(a, b)[t].deletes == a[t].deletes,
        !a.dom().contains(t) && b.dom().contains(t) ==> combined(a, b)[t].puts == b[t].puts
            && combined(a, b)[t].deletes == b[t].deletes,
{
    let none = Seq::<Seq<u8>>::empty();
    let no_puts = Seq::<(Seq<u8>, Seq<u8>)>::empty();
    if a.dom().contains(t) && !b.dom().contains(t) {
        assert(a[t].puts + no_puts =~= a[t].puts);
        assert(a[t].deletes + none =~= a[t].deletes);
    }
    if !a.dom().contains(t) && b.dom().contains(t) {
        assert(no_puts + b[t].puts =~= b[t].puts);
        assert(none + b[t].deletes =~= b[t].deletes);
    }
}

/// Patches are a monoid: the empty patch changes nothing on either side.
pub proof fn law_empty_patch_is_identity(a: Map<Seq<u8>, TableOpsModel>)
    ensures
        combined(a, Map::empty()) == a,
        combined(Map::empty(), a) == a,
{
    let e = Map::<Seq<u8>, TableOpsModel>::empty();
    assert forall|t: Seq<u8>| a.dom().contains(t) implies combined(a, e)[t] == a[t] && combined(
        e,
        a,
    )[t] == a[t] by {
        assert(ops_then(a[t], no_ops()) =~= a[t]);
        assert(ops_then(no_ops(), a[t]) =~= a[t]);
    }
    assert(combined(a, e) =~= a);
    assert(combined(e, a) =~= a);
}

/// A patch: changes by the names of the tables.
pub struct KvPatch {
    updates: Table<TableOps>,
}

impl View for KvPatch {
    type V = Map<Seq<u8>, TableOpsModel>;

    closed spec fn view(&self) -> Map<Seq<u8>, TableOpsModel> {
        self.updates@.map_values(|ops: TableOps| ops@)
    }
}

/// The name of a table as a key.
pub open spec fn table_key(name: Seq<char>) -> Seq<u8> {
    vstd::utf8::encode_utf8(name)
}

impl Default for KvPatch {
    /// The empty patch.
    fn default() -> (r: Self)
        ensures
            r.wf(),
            r@ == Map::<Seq<u8>, TableOpsModel>::empty(),
    {
        let r = KvPatch { updates: Table::new() };
        assert(r@ =~= Map::<Seq<u8>, TableOpsModel>::empty());
        r
    }
}

impl KvPatch {
    /// The table is well formed.
    pub closed spec fn wf(&self) -> bool {
        self.updates.wf()
    }

    /// Takes the changes to a table out of the patch.
    fn take_ops(&mut self, key: &[u8]) -> (r: TableOps)
        requires
            old(self).wf(),
        ensures
            final(self).wf(),
            r@ == ops_at(old(self)@, key@),
            final(self)@ == old(self)@.remove(key@),
    {
        let ghost before = self@;
        let taken = self.updates.take(key);
        assert(self@ =~= before.remove(key@));
        match taken {
            Some(ops) => ops,
            None => TableOps::default(),
        }
    }

    /// Puts the changes to a table into the patch.
    fn put_ops(&mut self, key: &[u8], ops: TableOps)
        requires
            old(self).wf(),
        ensures
            final(self).wf(),
            final(self)@ == old(self)@.insert(key@, ops@),
    {
        let ghost before = self@;
        self.updates.insert(key, ops);
        assert(self@ =~= before.insert(key@, ops@));
    }

    /// The changes to a table.
    pub fn ops(&self, table: &str) -> (r: Option<&TableOps>)
        requires
            self.wf(),
        ensures
            match r {
                Some(ops) => self@.dom().contains(table_key(table@)) && ops@
                    == self@[table_key(table@)],
                None => !self@.dom().contains(table_key(table@)),
            },
    {
        self.updates.get(table.as_bytes())
    }

    /// Adds a put to a table's changes.
    pub fn put(&mut self, table: &str, key: Vec<u8>, value: Vec<u8>)
        requires
            old(self).wf(),
        ensures
            final(self).wf(),
            final(self)@ == old(self)@.insert(
                table_key(table@),
                TableOpsModel {
                    puts: ops_at(old(self)@, table_key(table@)).puts.push((key@, value@)),
                    ..ops_at(old(self)@, table_key(table@))
                },
            ),
    {
        let ghost before = self@;
        let name = table.as_bytes();
        let mut ops = self.take_ops(name);
        let ghost old_ops = ops@;
        let ghost k = key@;
        let ghost v = value@;
        ops.puts.push((key, value));
        assert(ops@.puts =~= old_ops.puts.push((k, v)));
        self.put_ops(name, ops);
        assert(self@ =~= before.insert(name@, ops@));
    }

    /// Adds a deletion to a table's changes.
    pub fn delete(&mut self, table: &str, key: Vec<u8>)
        requires
            old(self).wf(),
        ensures
            final(self).wf(),
            final(self)@ == old(self)@.insert(
                table_key(table@),
                TableOpsModel {
                    deletes: ops_at(old(self)@, table_key(table@)).deletes.push(key@),
                    ..ops_at(old(self)@, table_key(table@))
                },
            ),
    {
        let ghost before = self@;
        let name = table.as_bytes();
        let mut ops = self.take_ops(name);
        let ghost old_ops = ops@;
        let ghost k = key@;
        ops.deletes.push(key);
        assert(ops@.deletes =~= old_ops.deletes.push(k));
        self.put_ops(name, ops);
        assert(self@ =~= before.insert(name@, ops@));
    }

    /// Adds the changes of another patch behind those of this one.
    pub fn combine(&mut self, other: KvPatch)
        requires
            old(self).wf(),
            other.wf(),
        ensures
            final(self).wf(),
            final(self)@ == combined(old(self)@, other@),
    {
        let ghost mine = self@;
        let ghost theirs = other@;
        let ghost keys = other.updates.keys();
        proof {
            other.updates.lemma_listed();
            assert(other.updates@.dom() =~= theirs.dom());
        }
        let mut rest = other;
        let mut names: Vec<Vec<u8>> = Vec::new();
        let mut i: usize = 0;
        while i < rest.updates.len()
            invariant
                rest.wf(),
                keys == rest.updates.keys(),
                i <= keys.len(),
                names@.len() == i,
                forall|k: int| 0 <= k < i ==> (#[trigger] names@[k])@ == keys[k],
            decreases keys.len() - i,
        {
            names.push(to_vec(rest.updates.key_at(i).as_slice()));
            i += 1;
        }
        let mut j: usize = 0;
        proof {
            assert(keys.take(0) =~= Seq::empty());
        }
        while j < names.len()
            invariant
                self.wf(),
                rest.wf(),
                j <= names@.len(),
                names@.len() == keys.len(),
                table::lists(keys, theirs.dom()),
                forall|k: int| 0 <= k < keys.len() ==> (#[trigger] names@[k])@ == keys[k],
                forall|t: Seq<u8>| #[trigger]
                    rest@.dom().contains(t) <==> theirs.dom().contains(t) && !keys.take(
                        j as int,
                    ).contains(t),
                forall|t: Seq<u8>| #[trigger] rest@.dom().contains(t) ==> rest@[t] == theirs[t],
                forall|t: Seq<u8>| #[trigger]
                    self@.dom().contains(t) <==> mine.dom().contains(t) || keys.take(
                        j as int,
                    ).contains(t),
                forall|t: Seq<u8>| #[trigger]
                    self@.dom().contains(t) ==> self@[t] == if keys.take(j as int).contains(t) {
                        ops_then(ops_at(mine, t), theirs[t])
                    } else {
                        mine[t]
                    },
            decreases names@.len() - j,
        {
            let name = names[j].as_slice();
            proof {
                table::lemma_take_contains(keys, j as int);
                assert(keys.contains(keys[j as int]));
                assert(theirs.dom().contains(name@));
                assert(!keys.take(j as int).contains(name@)) by {
                    if keys.take(j as int).contains(name@) {
                        let k = keys.take(j as int).index_of(name@);
                        table::lemma_ascending_unique(keys, k, j as int);
                    }
                }
                assert(rest@.dom().contains(name@));
            }
            let theirs_ops = rest.take_ops(name);
            let mut ops = self.take_ops(name);
            let mut puts = theirs_ops.puts;
            let mut deletes = theirs_ops.deletes;
            let ghost a = ops@;
            let ghost b = theirs[name@];
            proof {
                assert(pairs(puts@) == b.puts);
                assert(message::byte_models(deletes@) == b.deletes);
                if !mine.dom().contains(name@) {
                    assert(a == no_ops());
                }
            }
            ops.puts.append(&mut puts);
            ops.deletes.append(&mut deletes);
            assert(ops@ =~= ops_then(a, b));
            self.put_ops(name, ops);
            j += 1;
        }
        proof {
            assert(keys.take(j as int) =~= keys);
            assert forall|t: Seq<u8>| self@.dom().contains(t) implies self@[t] == combined(
                mine,
                theirs,
            )[t] by {
                if !theirs.dom().contains(t) {
                    assert(ops_then(mine[t], no_ops()) =~= mine[t]);
                }
            }
            assert(self@ =~= combined(mine, theirs));
        }
    }
}

impl Patch for KvPatch {
    open spec fn valid(&self) -> bool {
        self.wf()
    }

    open spec fn joined(a: Self::V, b: Self::V) -> Self::V {
        combined(a, b)
    }

    open spec fn identity() -> Self::V {
        Map::empty()
    }

    proof fn law_monoid(a: Self::V, b: Self::V, c: Self::V) {
        law_combine_is_associative(a, b, c);
        law_empty_patch_is_identity(a);
    }

    fn empty_patch() -> (r: Self) {
        KvPatch::default()
    }

    fn combine_with(&mut self, other: Self) {
        self.combine(other);
    }
}

} // verus!
