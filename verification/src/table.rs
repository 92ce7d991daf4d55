//! A table of byte-string keys in lexicographic order.
use crate::bytes;
use crate::bytes::{bytes_eq, bytes_lt, to_vec};
use vstd::prelude::*;

verus! {

/// Whether the keys come in strictly ascending order.
pub open spec fn ascending(keys: Seq<Seq<u8>>) -> bool {
    forall|i: int, j: int|
        0 <= i < j < keys.len() ==> bytes::lex_lt(#[trigger] keys[i], #[trigger] keys[j])
}

/// An ordered table from byte strings to values.
pub struct Table<V> {
    keys: Vec<Vec<u8>>,
    values: Vec<V>,
}

impl<V> Table<V> {
    /// The keys, in the order in which they are stored.
    pub closed spec fn keys(&self) -> Seq<Seq<u8>> {
        self.keys@.map_values(|k: Vec<u8>| k@)
    }

    /// The values, each at the position of its key.
    pub closed spec fn values(&self) -> Seq<V> {
        self.values@
    }

    /// Every key has one value, and the keys ascend (so that none occurs twice).
    pub open spec fn wf(&self) -> bool {
        &&& self.keys().len() == self.values().len()
        &&& ascending(self.keys())
    }
}

impl<V> View for Table<V> {
    type V = Map<Seq<u8>, V>;

    open spec fn view(&self) -> Map<Seq<u8>, V> {
        Map::new(
            |k: Seq<u8>| self.keys().contains(k),
            |k: Seq<u8>| self.values()[self.keys().index_of(k)],
        )
    }
}

/// In ascending keys, each key stands at one position only.
pub proof fn lemma_ascending_unique(keys: Seq<Seq<u8>>, i: int, j: int)
    requires
        ascending(keys),
        0 <= i < keys.len(),
        0 <= j < keys.len(),
        keys[i] == keys[j],
    ensures
        i == j,
{
    bytes::lemma_lex_irreflexive(keys[i]);
    if i < j {
        assert(bytes::lex_lt(keys[i], keys[j]));
    } else if j < i {
        assert(bytes::lex_lt(keys[j], keys[i]));
    }
}

/// In ascending keys, the position of the key at `i` is `i`.
pub proof fn lemma_index_of(keys: Seq<Seq<u8>>, i: int)
    requires
        ascending(keys),
        0 <= i < keys.len(),
    ensures
        keys.index_of(keys[i]) == i,
        keys.contains(keys[i]),
{
    let k = keys.index_of(keys[i]);
    assert(keys[k] == keys[i]);
    lemma_ascending_unique(keys, k, i);
}

/// What one more key adds.
pub proof fn lemma_take_contains(keys: Seq<Seq<u8>>, n: int)
    requires
        0 <= n < keys.len(),
    ensures
        forall|k: Seq<u8>| #[trigger]
            keys.take(n + 1).contains(k) <==> keys.take(n).contains(k) || k == keys[n],
{
    let taken = keys.take(n);
    let more = keys.take(n + 1);
    assert forall|k: Seq<u8>| #[trigger] more.contains(k) <==> taken.contains(k) || k
        == keys[n] by {
        if taken.contains(k) {
            let j = taken.index_of(k);
            assert(more[j] == k);
        }
        if k == keys[n] {
            assert(more[n] == k);
        }
        if more.contains(k) && k != keys[n] {
            let j = more.index_of(k);
            assert(taken[j] == k);
        }
    }
}

/// Whether `keys` are all of `dom`, in ascending order.
pub open spec fn lists(keys: Seq<Seq<u8>>, dom: Set<Seq<u8>>) -> bool {
    &&& ascending(keys)
    &&& forall|k: Seq<u8>| keys.contains(k) <==> #[trigger] dom.contains(k)
}

/// The keys in ascending order.
pub open spec fn sorted_keys(dom: Set<Seq<u8>>) -> Seq<Seq<u8>> {
    choose|keys: Seq<Seq<u8>>| lists(keys, dom)
}

/// There is one way to list keys in ascending order.
pub proof fn lemma_sorted_keys(keys: Seq<Seq<u8>>, dom: Set<Seq<u8>>)
    requires
        lists(keys, dom),
    ensures
        sorted_keys(dom) == keys,
{
    lemma_lists_unique(keys, sorted_keys(dom), dom);
}

proof fn lemma_lists_unique(a: Seq<Seq<u8>>, b: Seq<Seq<u8>>, dom: Set<Seq<u8>>)
    requires
        lists(a, dom),
        lists(b, dom),
    ensures
        a == b,
    decreases a.len(),
{
    if a.len() == 0 {
        if b.len() > 0 {
            assert(b.contains(b[0]));
            assert(dom.contains(b[0]));
        }
        assert(a =~= b);
    } else {
        let x = a.last();
        assert(a.contains(a[a.len() - 1]));
        assert(dom.contains(x));
        assert(b.contains(x));
        let y = b.last();
        assert(b.contains(b[b.len() - 1]));
        assert(dom.contains(y));
        assert(a.contains(y));
        // Both are the greatest key.
        let i = a.index_of(y);
        let j = b.index_of(x);
        if x != y {
            assert(i < a.len() - 1);
            assert(j < b.len() - 1);
            assert(bytes::lex_lt(a[i], a[a.len() - 1]));
            assert(bytes::lex_lt(b[j], b[b.len() - 1]));
            bytes::lemma_lex_transitive(x, y, x);
            bytes::lemma_lex_irreflexive(x);
        }
        let rest = dom.remove(x);
        lemma_lists_drop(a, dom);
        lemma_lists_drop(b, dom);
        lemma_lists_unique(a.drop_last(), b.drop_last(), rest);
        assert(a =~= a.drop_last().push(x));
        assert(b =~= b.drop_last().push(x));
    }
}

proof fn lemma_lists_drop(a: Seq<Seq<u8>>, dom: Set<Seq<u8>>)
    requires
        lists(a, dom),
        a.len() > 0,
    ensures
        lists(a.drop_last(), dom.remove(a.last())),
{
    let d = a.drop_last();
    assert forall|i: int, j: int| 0 <= i < j < d.len() implies bytes::lex_lt(
        #[trigger] d[i],
        #[trigger] d[j],
    ) by {
        assert(d[i] == a[i] && d[j] == a[j]);
    }
    assert forall|k: Seq<u8>| d.contains(k) <==> #[trigger] dom.remove(a.last()).contains(k) by {
        if d.contains(k) {
            let i = d.index_of(k);
            assert(a[i] == k);
            assert(a.contains(k));
            assert(dom.contains(k));
            if k == a.last() {
                lemma_ascending_unique(a, i, a.len() - 1);
            }
        }
        if dom.remove(a.last()).contains(k) {
            assert(dom.contains(k));
            let i = a.index_of(k);
            assert(d[i] == k);
        }
    }
}

impl<V> Table<V> {
    /// The keys are the ones that the table has, in ascending order.
    pub proof fn lemma_listed(&self)
        requires
            self.wf(),
        ensures
            lists(self.keys(), self@.dom()),
            self.keys() == sorted_keys(self@.dom()),
    {
        assert(lists(self.keys(), self@.dom()));
        lemma_sorted_keys(self.keys(), self@.dom());
    }

    /// The entry at position `i` is what the table maps its key to.
    pub proof fn lemma_at(&self, i: int)
        requires
            self.wf(),
            0 <= i < self.keys().len(),
        ensures
            self@.dom().contains(self.keys()[i]),
            self@[self.keys()[i]] == self.values()[i],
    {
        lemma_index_of(self.keys(), i);
    }

    /// A key of the table stands at some position.
    pub proof fn lemma_position(&self, k: Seq<u8>) -> (i: int)
        requires
            self.wf(),
            self@.dom().contains(k),
        ensures
            0 <= i < self.keys().len(),
            self.keys()[i] == k,
            self.values()[i] == self@[k],
    {
        self.keys().index_of(k)
    }

    /// A table without entries.
    pub fn new() -> (r: Self)
        ensures
            r.wf(),
            r@ == Map::<Seq<u8>, V>::empty(),
            r.keys() == Seq::<Seq<u8>>::empty(),
    {
        let r = Table { keys: Vec::new(), values: Vec::new() };
        assert(r.keys() =~= Seq::<Seq<u8>>::empty());
        assert(r@ =~= Map::<Seq<u8>, V>::empty());
        r
    }

    /// How many entries the table has.
    pub fn len(&self) -> (r: usize)
        ensures
            r == self.keys().len(),
    {
        self.keys.len()
    }

    /// The key at position `i`.
    pub fn key_at(&self, i: usize) -> (r: &Vec<u8>)
        requires
            i < self.keys().len(),
        ensures
            r@ == self.keys()[i as int],
    {
        &self.keys[i]
    }

    /// The value at position `i`.
    pub fn value_at(&self, i: usize) -> (r: &V)
        requires
            self.wf(),
            i < self.keys().len(),
        ensures
            *r == self.values()[i as int],
            self@.dom().contains(self.keys()[i as int]),
            *r == self@[self.keys()[i as int]],
    {
        proof {
            self.lemma_at(i as int);
        }
        &self.values[i]
    }

    /// The first position whose key does not precede `key`.
    pub fn lower_bound(&self, key: &[u8]) -> (r: usize)
        requires
            self.wf(),
        ensures
            r <= self.keys().len(),
            forall|i: int| 0 <= i < r ==> bytes::lex_lt(#[trigger] self.keys()[i], key@),
            forall|i: int| r <= i < self.keys().len() ==> !bytes::lex_lt(#[trigger] self.keys()[i], key@),
    {
        let mut lo: usize = 0;
        let mut hi: usize = self.keys.len();
        while lo < hi
            invariant
                self.wf(),
                lo <= hi <= self.keys().len(),
                self.keys().len() == self.keys@.len(),
                forall|i: int| 0 <= i < lo ==> bytes::lex_lt(#[trigger] self.keys()[i], key@),
                forall|i: int| hi <= i < self.keys().len() ==> !bytes::lex_lt(#[trigger] self.keys()[i], key@),
            decreases hi - lo,
        {
            let mid: usize = lo + (hi - lo) / 2;
            assert(self.keys()[mid as int] == self.keys@[mid as int]@);
            if bytes_lt(self.keys[mid].as_slice(), key) {
                proof {
                    assert forall|i: int| 0 <= i < mid + 1 implies bytes::lex_lt(
                        #[trigger] self.keys()[i],
                        key@,
                    ) by {
                        if i < mid {
                            bytes::lemma_lex_transitive(self.keys()[i], self.keys()[mid as int], key@);
                        }
                    }
                }
                lo = mid + 1;
            } else {
                proof {
                    assert forall|i: int| mid <= i < self.keys().len() implies !bytes::lex_lt(
                        #[trigger] self.keys()[i],
                        key@,
                    ) by {
                        if bytes::lex_lt(self.keys()[i], key@) && mid < i {
                            bytes::lemma_lex_transitive(self.keys()[mid as int], self.keys()[i], key@);
                        }
                    }
                }
                hi = mid;
            }
        }
        lo
    }

    /// The position of `key`, where the table has it.
    pub fn find(&self, key: &[u8]) -> (r: Option<usize>)
        requires
            self.wf(),
        ensures
            match r {
                Some(i) => i < self.keys().len() && self.keys()[i as int] == key@
                    && self@.dom().contains(key@) && self@[key@] == self.values()[i as int],
                None => !self@.dom().contains(key@),
            },
    {
        let at = self.lower_bound(key);
        if at < self.keys.len() && bytes_eq(self.keys[at].as_slice(), key) {
            proof {
                assert(self.keys()[at as int] == key@);
                self.lemma_at(at as int);
            }
            Some(at)
        } else {
            proof {
                if self.keys().contains(key@) {
                    let i = self.keys().index_of(key@);
                    bytes::lemma_lex_irreflexive(key@);
                    if i > at {
                        assert(bytes::lex_lt(self.keys()[at as int], self.keys()[i]));
                    }
                    assert(i == at);
                    assert(self.keys@[at as int]@ == key@);
                }
            }
            None
        }
    }

    /// The value of `key`, where the table has it.
    pub fn get(&self, key: &[u8]) -> (r: Option<&V>)
        requires
            self.wf(),
        ensures
            match r {
                Some(v) => self@.dom().contains(key@) && *v == self@[key@],
                None => !self@.dom().contains(key@),
            },
    {
        match self.find(key) {
            Some(i) => Some(&self.values[i]),
            None => None,
        }
    }

    /// Whether the table has `key`.
    pub fn contains(&self, key: &[u8]) -> (r: bool)
        requires
            self.wf(),
        ensures
            r == self@.dom().contains(key@),
    {
        self.find(key).is_some()
    }

    /// Maps `key` to `value`, in place of what it was mapped to.
    pub fn insert(&mut self, key: &[u8], value: V)
        requires
            old(self).wf(),
        ensures
            final(self).wf(),
            final(self)@ == old(self)@.insert(key@, value),
    {
        let at = self.lower_bound(key);
        let ghost before = *self;
        if at < self.keys.len() && bytes_eq(self.keys[at].as_slice(), key) {
            self.values.set(at, value);
            proof {
                assert(before.keys()[at as int] == key@);
                assert(self.keys() =~= before.keys());
                lemma_index_of(before.keys(), at as int);
                assert forall|k: Seq<u8>| before.keys().contains(k) && k != key@ implies self@[k]
                    == before@[k] by {
                    let i = before.keys().index_of(k);
                    assert(before.keys()[i] == k);
                }
                assert(self@ =~= before@.insert(key@, value));
            }
        } else {
            self.keys.insert(at, to_vec(key));
            self.values.insert(at, value);
            proof {
                assert(self.keys() =~= before.keys().insert(at as int, key@));
                assert(self.values() =~= before.values().insert(at as int, value));
                if at < before.keys().len() {
                    assert(before.keys()[at as int] != key@);
                    bytes::lemma_lex_total(before.keys()[at as int], key@);
                }
                assert forall|i: int, j: int| 0 <= i < j < self.keys().len() implies bytes::lex_lt(
                    #[trigger] self.keys()[i],
                    #[trigger] self.keys()[j],
                ) by {
                    if i < at && j > at {
                        assert(bytes::lex_lt(before.keys()[i], before.keys()[j - 1]));
                    } else if i > at {
                        assert(bytes::lex_lt(before.keys()[i - 1], before.keys()[j - 1]));
                    } else if i == at {
                        if j > at + 1 {
                            bytes::lemma_lex_transitive(
                                key@,
                                before.keys()[at as int],
                                before.keys()[j - 1],
                            );
                        }
                    }
                }
                assert(self.keys()[at as int] == key@);
                lemma_index_of(self.keys(), at as int);
                assert forall|k: Seq<u8>| self.keys().contains(k) == (before.keys().contains(k) || k
                    == key@) by {
                    if before.keys().contains(k) {
                        let i = before.keys().index_of(k);
                        if i < at {
                            assert(self.keys()[i] == k);
                        } else {
                            assert(self.keys()[i + 1] == k);
                        }
                    }
                    if self.keys().contains(k) && k != key@ {
                        let i = self.keys().index_of(k);
                        if i < at {
                            assert(before.keys()[i] == k);
                        } else {
                            assert(before.keys()[i - 1] == k);
                        }
                    }
                }
                assert forall|k: Seq<u8>| before.keys().contains(k) && k != key@ implies self@[k]
                    == before@[k] by {
                    let i = before.keys().index_of(k);
                    if i < at {
                        assert(self.keys()[i] == k);
                        lemma_index_of(self.keys(), i);
                    } else {
                        assert(self.keys()[i + 1] == k);
                        lemma_index_of(self.keys(), i + 1);
                    }
                }
                assert(self@ =~= before@.insert(key@, value));
            }
        }
    }

    /// Takes `key` out of the table: whether it was there.
    pub fn remove(&mut self, key: &[u8]) -> (r: bool)
        requires
            old(self).wf(),
        ensures
            final(self).wf(),
            final(self)@ == old(self)@.remove(key@),
            r == old(self)@.dom().contains(key@),
    {
        self.take(key).is_some()
    }

    /// Takes `key` out of the table: the value that it had.
    pub fn take(&mut self, key: &[u8]) -> (r: Option<V>)
        requires
            old(self).wf(),
        ensures
            final(self).wf(),
            final(self)@ == old(self)@.remove(key@),
            match r {
                Some(v) => old(self)@.dom().contains(key@) && v == old(self)@[key@],
                None => !old(self)@.dom().contains(key@),
            },
    {
        let ghost before = *self;
        match self.find(key) {
            Some(at) => {
                let _ = self.keys.remove(at);
                let value = self.values.remove(at);
                proof {
                    assert(self.keys() =~= before.keys().remove(at as int));
                    assert(self.values() =~= before.values().remove(at as int));
                    assert forall|i: int, j: int|
                        0 <= i < j < self.keys().len() implies bytes::lex_lt(
                        #[trigger] self.keys()[i],
                        #[trigger] self.keys()[j],
                    ) by {
                        let bi = if i < at { i } else { i + 1 };
                        let bj = if j < at { j } else { j + 1 };
                        assert(bytes::lex_lt(before.keys()[bi], before.keys()[bj]));
                    }
                    assert forall|k: Seq<u8>| self.keys().contains(k) == (before.keys().contains(k)
                        && k != key@) by {
                        if before.keys().contains(k) && k != key@ {
                            let i = before.keys().index_of(k);
                            if i < at {
                                assert(self.keys()[i] == k);
                            } else {
                                assert(self.keys()[i - 1] == k);
                            }
                        }
                        if self.keys().contains(k) {
                            let i = self.keys().index_of(k);
                            if i < at {
                                assert(before.keys()[i] == k);
                            } else {
                                assert(before.keys()[i + 1] == k);
                            }
                            if k == key@ {
                                lemma_ascending_unique(
                                    before.keys(),
                                    at as int,
                                    if i < at { i } else { i + 1 },
                                );
                            }
                        }
                    }
                    assert forall|k: Seq<u8>| self.keys().contains(k) implies self@[k]
                        == before@[k] by {
                        let i = self.keys().index_of(k);
                        let bi = if i < at { i } else { i + 1 };
                        assert(before.keys()[bi] == k);
                        lemma_index_of(before.keys(), bi);
                    }
                    assert(self@ =~= before@.remove(key@));
                }
                Some(value)
            },
            None => {
                assert(self@ =~= before@.remove(key@));
                None
            },
        }
    }
}

/// Whether `k` lies between the two bounds, which are part of the range.
pub open spec fn in_range(k: Seq<u8>, start: Seq<u8>, end: Seq<u8>) -> bool {
    !bytes::lex_lt(k, start) && !bytes::lex_lt(end, k)
}

/// Those of the keys that lie between the two bounds.
pub open spec fn keys_between(
    keys: Seq<Seq<u8>>,
    start: Seq<u8>,
    end: Seq<u8>,
) -> Seq<Seq<u8>> {
    keys.filter(|k: Seq<u8>| in_range(k, start, end))
}

/// Two filters may be applied in either order.
pub proof fn lemma_filters_commute<A>(s: Seq<A>, p: spec_fn(A) -> bool, q: spec_fn(A) -> bool)
    ensures
        s.filter(p).filter(q) == s.filter(q).filter(p),
    decreases s.len(),
{
    reveal(Seq::filter);
    if s.len() > 0 {
        let before = s.drop_last();
        let x = s.last();
        lemma_filters_commute(before, p, q);
        assert(before.filter(p).push(x).drop_last() =~= before.filter(p));
        assert(before.filter(q).push(x).drop_last() =~= before.filter(q));
    } else {
        assert(s.filter(p) =~= s && s.filter(q) =~= s);
    }
}

/// Ascending keys stay so when some are left out.
pub proof fn lemma_filter_ascending(keys: Seq<Seq<u8>>, keep: spec_fn(Seq<u8>) -> bool)
    requires
        ascending(keys),
    ensures
        ascending(keys.filter(keep)),
    decreases keys.len(),
{
    reveal(Seq::filter);
    if keys.len() > 0 {
        let before = keys.drop_last();
        assert(ascending(before)) by {
            assert forall|i: int, j: int| 0 <= i < j < before.len() implies bytes::lex_lt(
                #[trigger] before[i],
                #[trigger] before[j],
            ) by {
                assert(before[i] == keys[i] && before[j] == keys[j]);
            }
        }
        lemma_filter_ascending(before, keep);
        let kept = before.filter(keep);
        let r = keys.filter(keep);
        assert forall|i: int, j: int| 0 <= i < j < r.len() implies bytes::lex_lt(
            #[trigger] r[i],
            #[trigger] r[j],
        ) by {
            assert(r[i] == kept[i]);
            if j < kept.len() {
                assert(r[j] == kept[j]);
            } else {
                before.lemma_filter_contains_rev(keep, kept[i]);
                let n = before.index_of(kept[i]);
                assert(keys[n] == kept[i]);
                assert(r[j] == keys[keys.len() - 1]);
            }
        }
    } else {
        assert(keys.filter(keep) =~= keys);
    }
}

/// The keys in ascending order once one has been taken out.
pub proof fn lemma_sorted_without(dom: Set<Seq<u8>>, k: Seq<u8>)
    requires
        lists(sorted_keys(dom), dom),
    ensures
        sorted_keys(dom.remove(k)) == sorted_keys(dom).filter(|x: Seq<u8>| x != k),
        lists(sorted_keys(dom.remove(k)), dom.remove(k)),
{
    let keys = sorted_keys(dom);
    let keep = |x: Seq<u8>| x != k;
    let r = keys.filter(keep);
    lemma_filter_ascending(keys, keep);
    assert forall|x: Seq<u8>| r.contains(x) <==> #[trigger] dom.remove(k).contains(x) by {
        assert(keys.contains(x) <==> dom.contains(x));
        if r.contains(x) {
            keys.lemma_filter_contains_rev(keep, x);
            let i = r.index_of(x);
            keys.lemma_filter_pred(keep, i);
        }
        if keys.contains(x) && x != k {
            keys.lemma_filter_contains(keep, keys.index_of(x));
        }
    }
    lemma_sorted_keys(r, dom.remove(k));
}

/// Leaving out a key that does not lie between the bounds leaves out nothing.
pub proof fn lemma_keep_all_but(keys: Seq<Seq<u8>>, lo: Seq<u8>, hi: Seq<u8>, k: Seq<u8>)
    requires
        !in_range(k, lo, hi),
    ensures
        keys_between(keys, lo, hi).filter(|x: Seq<u8>| x != k) == keys_between(
            keys,
            lo,
            hi,
        ),
    decreases keys.len(),
{
    reveal(Seq::filter);
    let inside = |x: Seq<u8>| in_range(x, lo, hi);
    if keys.len() > 0 {
        let before = keys.drop_last();
        lemma_keep_all_but(before, lo, hi, k);
        let kept = before.filter(inside);
        assert(kept.push(keys.last()).drop_last() =~= kept);
    } else {
        assert(keys_between(keys, lo, hi) =~= Seq::empty());
        assert(Seq::<Seq<u8>>::empty().filter(|x: Seq<u8>| x != k) =~= Seq::empty());
    }
}

/// A filter that keeps one run of a sequence.
pub proof fn lemma_filter_run<A>(s: Seq<A>, keep: spec_fn(A) -> bool, from: int, to: int)
    requires
        0 <= from <= to <= s.len(),
        forall|i: int| 0 <= i < s.len() ==> (keep(#[trigger] s[i]) <==> from <= i < to),
    ensures
        s.filter(keep) == s.subrange(from, to),
    decreases s.len(),
{
    reveal(Seq::filter);
    if s.len() > 0 {
        let before = s.drop_last();
        let cut = if to < s.len() {
            to
        } else {
            to - 1
        };
        assert(keep(s[s.len() - 1]) <==> to == s.len() && from < to);
        if from == s.len() {
            assert forall|i: int| 0 <= i < before.len() implies (keep(#[trigger] before[i]) <==> 0
                <= i < 0) by {
                assert(before[i] == s[i]);
            }
            lemma_filter_run(before, keep, 0, 0);
            assert(s.subrange(from, to) =~= before.subrange(0, 0));
        } else {
            let low = if from < cut {
                from
            } else {
                cut
            };
            assert forall|i: int| 0 <= i < before.len() implies (keep(#[trigger] before[i])
                <==> low <= i < cut) by {
                assert(before[i] == s[i]);
            }
            lemma_filter_run(before, keep, low, cut);
            if to == s.len() && from < to {
                assert(s.subrange(from, to) =~= before.subrange(low, cut).push(s.last()));
            } else {
                assert(s.subrange(from, to) =~= before.subrange(low, cut));
            }
        }
    } else {
        assert(s.filter(keep) =~= s.subrange(from, to));
    }
}

/// An ordered table from byte strings to byte strings.
pub struct ByteTable {
    table: Table<Vec<u8>>,
}

impl View for ByteTable {
    type V = Map<Seq<u8>, Seq<u8>>;

    closed spec fn view(&self) -> Map<Seq<u8>, Seq<u8>> {
        self.table@.map_values(|v: Vec<u8>| v@)
    }
}

/// `base` with the entries of `writes` in place of its own.
pub open spec fn overlaid(
    base: Map<Seq<u8>, Seq<u8>>,
    writes: Map<Seq<u8>, Seq<u8>>,
) -> Map<Seq<u8>, Seq<u8>> {
    base.union_prefer_right(writes)
}

/// A further write on top of others.
pub proof fn lemma_overlay_insert(
    base: Map<Seq<u8>, Seq<u8>>,
    writes: Map<Seq<u8>, Seq<u8>>,
    k: Seq<u8>,
    v: Seq<u8>,
)
    ensures
        overlaid(base, writes.insert(k, v)) == overlaid(base, writes).insert(k, v),
{
    assert(overlaid(base, writes.insert(k, v)) =~= overlaid(base, writes).insert(k, v));
}

impl ByteTable {
    /// The keys, in ascending order.
    pub closed spec fn keys(&self) -> Seq<Seq<u8>> {
        self.table.keys()
    }

    /// The keys ascend, and each has one value.
    pub closed spec fn wf(&self) -> bool {
        self.table.wf()
    }

    /// The keys ascend, and they are the keys that have a value.
    pub proof fn lemma_keys(&self)
        requires
            self.wf(),
        ensures
            ascending(self.keys()),
            forall|k: Seq<u8>| self.keys().contains(k) <==> #[trigger] self@.dom().contains(k),
            self.keys() == sorted_keys(self@.dom()),
    {
        assert(self.table@.dom() =~= self@.dom());
        self.table.lemma_listed();
        assert forall|k: Seq<u8>| self.keys().contains(k) <==> #[trigger] self@.dom().contains(
            k,
        ) by {
            assert(self.table@.dom().contains(k) <==> self.table.keys().contains(k));
        }
    }

    /// There are as many keys as entries.
    pub proof fn lemma_len(&self)
        requires
            self.wf(),
        ensures
            self@.dom().finite(),
            self.keys().len() == self@.dom().len(),
    {
        self.lemma_keys();
        let keys = self.keys();
        assert forall|i: int, j: int| 0 <= i < keys.len() && 0 <= j < keys.len() && i
            != j implies keys[i] != keys[j] by {
            if keys[i] == keys[j] {
                lemma_ascending_unique(keys, i, j);
            }
        }
        assert(keys.no_duplicates());
        keys.unique_seq_to_set();
        assert(keys.to_set() =~= self@.dom());
    }

    /// A table without entries.
    pub fn new() -> (r: Self)
        ensures
            r.wf(),
            r@ == Map::<Seq<u8>, Seq<u8>>::empty(),
            r.keys() == Seq::<Seq<u8>>::empty(),
    {
        let r = ByteTable { table: Table::new() };
        assert(r@ =~= Map::<Seq<u8>, Seq<u8>>::empty());
        r
    }

    /// How many entries the table has.
    pub fn len(&self) -> (r: usize)
        ensures
            r == self.keys().len(),
    {
        self.table.len()
    }

    /// The key at position `i` of the order.
    pub fn key_at(&self, i: usize) -> (r: &Vec<u8>)
        requires
            i < self.keys().len(),
        ensures
            r@ == self.keys()[i as int],
    {
        self.table.key_at(i)
    }

    /// The value of the key at position `i` of the order.
    pub fn value_at(&self, i: usize) -> (r: &Vec<u8>)
        requires
            self.wf(),
            i < self.keys().len(),
        ensures
            self@.dom().contains(self.keys()[i as int]),
            r@ == self@[self.keys()[i as int]],
    {
        self.table.value_at(i)
    }

    /// The first position whose key does not precede `key`.
    pub fn lower_bound(&self, key: &[u8]) -> (r: usize)
        requires
            self.wf(),
        ensures
            r <= self.keys().len(),
            forall|i: int| 0 <= i < r ==> bytes::lex_lt(#[trigger] self.keys()[i], key@),
            forall|i: int|
                r <= i < self.keys().len() ==> !bytes::lex_lt(#[trigger] self.keys()[i], key@),
    {
        self.table.lower_bound(key)
    }

    /// The positions of the keys between two bounds, from the first to behind
    /// the last.
    pub fn range(&self, start: &[u8], end: &[u8]) -> (r: (usize, usize))
        requires
            self.wf(),
        ensures
            r.0 <= r.1 <= self.keys().len(),
            keys_between(self.keys(), start@, end@) == self.keys().subrange(
                r.0 as int,
                r.1 as int,
            ),
    {
        let ghost keys = self.keys();
        let from = self.lower_bound(start);
        let mut to: usize = from;
        proof {
            self.lemma_keys();
        }
        while to < self.len() && !bytes_lt(end, self.key_at(to).as_slice())
            invariant
                from <= to <= keys.len(),
                keys == self.keys(),
                forall|i: int| from <= i < to ==> !bytes::lex_lt(end@, #[trigger] keys[i]),
            decreases keys.len() - to,
        {
            to += 1;
        }
        proof {
            let keep = |k: Seq<u8>| in_range(k, start@, end@);
            assert forall|i: int| 0 <= i < keys.len() implies (keep(#[trigger] keys[i]) <==> from
                <= i < to) by {
                if i >= to {
                    assert(bytes::lex_lt(end@, keys[to as int]));
                    if i > to {
                        bytes::lemma_lex_transitive(end@, keys[to as int], keys[i]);
                    }
                }
            }
            lemma_filter_run(keys, keep, from as int, to as int);
        }
        (from, to)
    }

    /// The value of `key`, where the table has it.
    pub fn get(&self, key: &[u8]) -> (r: Option<&Vec<u8>>)
        requires
            self.wf(),
        ensures
            match r {
                Some(v) => self@.dom().contains(key@) && v@ == self@[key@],
                None => !self@.dom().contains(key@),
            },
    {
        self.table.get(key)
    }

    /// Whether the table has `key`.
    pub fn contains(&self, key: &[u8]) -> (r: bool)
        requires
            self.wf(),
        ensures
            r == self@.dom().contains(key@),
    {
        self.table.contains(key)
    }

    /// Maps `key` to `value`, in place of what it was mapped to.
    pub fn insert(&mut self, key: &[u8], value: Vec<u8>)
        requires
            old(self).wf(),
        ensures
            final(self).wf(),
            final(self)@ == old(self)@.insert(key@, value@),
    {
        let ghost before = self@;
        self.table.insert(key, value);
        assert(self@ =~= before.insert(key@, value@));
    }

    /// Takes `key` out of the table: whether it was there.
    pub fn remove(&mut self, key: &[u8]) -> (r: bool)
        requires
            old(self).wf(),
        ensures
            final(self).wf(),
            final(self)@ == old(self)@.remove(key@),
            r == old(self)@.dom().contains(key@),
    {
        let ghost before = self@;
        let r = self.table.remove(key);
        assert(self@ =~= before.remove(key@));
        r
    }

    /// Puts all entries of `writes` into the table.
    pub fn absorb(&mut self, writes: &ByteTable)
        requires
            old(self).wf(),
            writes.wf(),
        ensures
            final(self).wf(),
            final(self)@ == overlaid(old(self)@, writes@),
    {
        let ghost before = self@;
        let ghost keys = writes.keys();
        let mut i: usize = 0;
        while i < writes.len()
            invariant
                self.wf(),
                writes.wf(),
                keys == writes.keys(),
                i <= keys.len(),
                forall|k: Seq<u8>| #[trigger]
                    self@.dom().contains(k) <==> before.dom().contains(k) || keys.take(
                        i as int,
                    ).contains(k),
                forall|k: Seq<u8>| #[trigger]
                    self@.dom().contains(k) ==> self@[k] == if keys.take(i as int).contains(k) {
                        writes@[k]
                    } else {
                        before[k]
                    },
            decreases keys.len() - i,
        {
            let key = writes.key_at(i);
            let value = to_vec(writes.value_at(i).as_slice());
            let ghost now = self@;
            self.insert(key.as_slice(), value);
            proof {
                let taken = keys.take(i as int);
                let more = keys.take(i + 1);
                assert(more =~= taken.push(key@));
                assert forall|k: Seq<u8>| more.contains(k) == (taken.contains(k) || k == key@) by {
                    if taken.contains(k) {
                        let j = taken.index_of(k);
                        assert(more[j] == k);
                    }
                    if k == key@ {
                        assert(more[i as int] == k);
                    }
                    if more.contains(k) && k != key@ {
                        let j = more.index_of(k);
                        assert(taken[j] == k);
                    }
                }
            }
            i += 1;
        }
        proof {
            assert(keys.take(i as int) =~= keys);
            writes.lemma_keys();
            assert(self@ =~= overlaid(before, writes@));
        }
    }
}

} // verus!
