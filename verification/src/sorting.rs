//! A stable sort by a strict order on models.
use crate::message::models;
use vstd::prelude::*;

verus! {

/// Values that have a rank. Different values may have the same rank.
pub trait Ranked: View + Sized {
    /// Whether `a` belongs before `b`.
    spec fn precedes(a: Self::V, b: Self::V) -> bool;

    /// The order is strict, and values that neither precedes the other are of
    /// one rank.
    proof fn lemma_order(a: Self::V, b: Self::V, c: Self::V)
        ensures
            !Self::precedes(a, a),
            Self::precedes(a, b) ==> !Self::precedes(b, a),
            Self::precedes(a, b) && Self::precedes(b, c) ==> Self::precedes(a, c),
            Self::precedes(a, c) ==> Self::precedes(a, b) || Self::precedes(b, c),
    ;

    /// Whether this value belongs before the other.
    fn ranks_before(&self, other: &Self) -> (r: bool)
        ensures
            r == Self::precedes(self@, other@),
    ;
}

/// `s` with `x` put before the run of values at its end that `x` precedes.
pub open spec fn sorted_insert<T: Ranked>(s: Seq<T::V>, x: T::V) -> Seq<T::V>
    decreases s.len(),
{
    if s.len() == 0 {
        seq![x]
    } else if T::precedes(x, s.last()) {
        sorted_insert::<T>(s.drop_last(), x).push(s.last())
    } else {
        s.push(x)
    }
}

/// The values in order. Values of the same rank keep their order.
pub open spec fn sorted<T: Ranked>(s: Seq<T::V>) -> Seq<T::V>
    decreases s.len(),
{
    if s.len() == 0 {
        Seq::empty()
    } else {
        sorted_insert::<T>(sorted::<T>(s.drop_last()), s.last())
    }
}

/// Whether no value stands behind one that it precedes.
pub open spec fn is_sorted<T: Ranked>(s: Seq<T::V>) -> bool {
    forall|i: int, j: int| 0 <= i < j < s.len() ==> !T::precedes(#[trigger] s[j], #[trigger] s[i])
}

proof fn lemma_sorted_insert<T: Ranked>(s: Seq<T::V>, x: T::V)
    requires
        is_sorted::<T>(s),
    ensures
        is_sorted::<T>(sorted_insert::<T>(s, x)),
        sorted_insert::<T>(s, x).to_multiset() == s.to_multiset().insert(x),
        forall|y: T::V|
            (forall|i: int| 0 <= i < s.len() ==> !T::precedes(y, #[trigger] s[i])) && !T::precedes(
                y,
                x,
            ) ==> forall|i: int|
                0 <= i < sorted_insert::<T>(s, x).len() ==> !T::precedes(
                    y,
                    #[trigger] sorted_insert::<T>(s, x)[i],
                ),
    decreases s.len(),
{
    broadcast use vstd::seq_lib::group_to_multiset_ensures;

    let r = sorted_insert::<T>(s, x);
    if s.len() == 0 {
        assert(seq![x] =~= Seq::empty().push(x));
        assert(s =~= Seq::empty());
    } else if T::precedes(x, s.last()) {
        let before = s.drop_last();
        let last = s.last();
        assert(is_sorted::<T>(before)) by {
            assert forall|i: int, j: int| 0 <= i < j < before.len() implies !T::precedes(
                #[trigger] before[j],
                #[trigger] before[i],
            ) by {
                assert(before[i] == s[i] && before[j] == s[j]);
            }
        }
        lemma_sorted_insert::<T>(before, x);
        let q = sorted_insert::<T>(before, x);
        assert(before.push(last) =~= s);
        assert forall|i: int| 0 <= i < before.len() implies !T::precedes(
            last,
            #[trigger] before[i],
        ) by {
            assert(!T::precedes(s[s.len() - 1], s[i]));
        }
        T::lemma_order(x, last, x);
        assert forall|i: int| 0 <= i < q.len() implies !T::precedes(last, #[trigger] q[i]) by {}
        assert forall|i: int, j: int| 0 <= i < j < r.len() implies !T::precedes(
            #[trigger] r[j],
            #[trigger] r[i],
        ) by {
            assert(r[i] == q[i]);
            if j < q.len() {
                assert(r[j] == q[j]);
            }
        }
        assert(s.to_multiset() =~= before.to_multiset().insert(last));
        assert(r.to_multiset() =~= s.to_multiset().insert(x));
        assert forall|y: T::V|
            (forall|i: int| 0 <= i < s.len() ==> !T::precedes(y, #[trigger] s[i])) && !T::precedes(
                y,
                x,
            ) implies forall|i: int| 0 <= i < r.len() ==> !T::precedes(y, #[trigger] r[i]) by {
            assert(!T::precedes(y, s[s.len() - 1]));
            assert forall|i: int| 0 <= i < before.len() implies !T::precedes(
                y,
                #[trigger] before[i],
            ) by {
                assert(before[i] == s[i]);
            }
            assert forall|i: int| 0 <= i < r.len() implies !T::precedes(y, #[trigger] r[i]) by {
                if i < q.len() {
                    assert(r[i] == q[i]);
                }
            }
        }
    } else {
        assert forall|i: int, j: int| 0 <= i < j < r.len() implies !T::precedes(
            #[trigger] r[j],
            #[trigger] r[i],
        ) by {
            if j < s.len() {
                assert(r[i] == s[i] && r[j] == s[j]);
            } else if i < s.len() - 1 {
                assert(!T::precedes(s[s.len() - 1], s[i]));
                T::lemma_order(x, s.last(), s[i]);
            }
        }
    }
}

/// Sorting keeps every value, as often as it occurs, and leaves none behind one
/// that it precedes.
pub proof fn law_sorted<T: Ranked>(s: Seq<T::V>)
    ensures
        is_sorted::<T>(sorted::<T>(s)),
        sorted::<T>(s).to_multiset() == s.to_multiset(),
        sorted::<T>(s).len() == s.len(),
    decreases s.len(),
{
    broadcast use vstd::seq_lib::group_to_multiset_ensures;

    if s.len() > 0 {
        law_sorted::<T>(s.drop_last());
        lemma_sorted_insert::<T>(sorted::<T>(s.drop_last()), s.last());
        assert(s.drop_last().push(s.last()) =~= s);
    } else {
        assert(s =~= Seq::empty());
    }
    assert(sorted::<T>(s).to_multiset().len() == s.to_multiset().len());
}

/// Whether two values have the same rank.
pub open spec fn same_rank<T: Ranked>(a: T::V, b: T::V) -> bool {
    !T::precedes(a, b) && !T::precedes(b, a)
}

/// Values of the same rank keep their order.
pub proof fn law_equals_keep_their_order<T: Ranked>(s: Seq<T::V>, z: T::V)
    ensures
        sorted::<T>(s).filter(|y: T::V| same_rank::<T>(y, z)) == s.filter(
            |y: T::V| same_rank::<T>(y, z),
        ),
    decreases s.len(),
{
    let keep = |y: T::V| same_rank::<T>(y, z);
    reveal(Seq::filter);
    if s.len() > 0 {
        let before = s.drop_last();
        law_equals_keep_their_order::<T>(before, z);
        lemma_insert_keeps_equals::<T>(sorted::<T>(before), s.last(), z);
        let q = sorted::<T>(before).push(s.last());
        assert(q.drop_last() =~= sorted::<T>(before));
        assert(q.filter(keep) == if keep(s.last()) {
            sorted::<T>(before).filter(keep).push(s.last())
        } else {
            sorted::<T>(before).filter(keep)
        });
    } else {
        assert(s =~= Seq::empty());
    }
}

/// Of one value more, a filter keeps one more where it lets the value through.
proof fn lemma_filter_push<A>(s: Seq<A>, x: A, keep: spec_fn(A) -> bool)
    ensures
        s.push(x).filter(keep) == if keep(x) {
            s.filter(keep).push(x)
        } else {
            s.filter(keep)
        },
{
    reveal(Seq::filter);
    assert(s.push(x).drop_last() =~= s);
}

proof fn lemma_insert_keeps_equals<T: Ranked>(s: Seq<T::V>, x: T::V, z: T::V)
    ensures
        sorted_insert::<T>(s, x).filter(|y: T::V| same_rank::<T>(y, z)) == s.push(x).filter(
            |y: T::V| same_rank::<T>(y, z),
        ),
    decreases s.len(),
{
    let keep = |y: T::V| same_rank::<T>(y, z);
    if s.len() == 0 {
        assert(s.push(x) =~= seq![x]);
    } else if T::precedes(x, s.last()) {
        let before = s.drop_last();
        let last = s.last();
        lemma_insert_keeps_equals::<T>(before, x, z);
        lemma_filter_push(sorted_insert::<T>(before, x), last, keep);
        lemma_filter_push(before, x, keep);
        lemma_filter_push(before, last, keep);
        lemma_filter_push(s, x, keep);
        assert(before.push(last) =~= s);
        // Not both have the rank of `z`.
        T::lemma_order(x, z, last);
    }
}

/// The values in order. Values of the same rank keep their order.
pub fn sort<T: Ranked>(items: Vec<T>) -> (r: Vec<T>)
    ensures
        models(r@) == sorted::<T>(models(items@)),
{
    let ghost all = models(items@);
    let total: usize = items.len();
    let mut rest = items;
    let mut picked: Vec<T> = Vec::new();
    // Take the values off in reverse, then insert them in their order.
    while rest.len() > 0
        invariant
            rest@.len() + picked@.len() == all.len(),
            forall|i: int| 0 <= i < rest@.len() ==> (#[trigger] rest@[i])@ == all[i],
            forall|i: int|
                0 <= i < picked@.len() ==> (#[trigger] picked@[i])@ == all[all.len() - 1 - i],
        decreases rest@.len(),
    {
        match rest.pop() {
            Some(x) => {
                picked.push(x);
            },
            None => {},
        }
    }
    let mut out: Vec<T> = Vec::new();
    let mut n: usize = 0;
    proof {
        assert(all.take(0) =~= Seq::empty());
        assert(models(out@) =~= sorted::<T>(all.take(0)));
    }
    while picked.len() > 0
        invariant
            n + picked@.len() == all.len(),
            all.len() == total,
            forall|i: int|
                0 <= i < picked@.len() ==> (#[trigger] picked@[i])@ == all[all.len() - 1 - i],
            models(out@) == sorted::<T>(all.take(n as int)),
        decreases picked@.len(),
    {
        match picked.pop() {
            Some(x) => {
                proof {
                    assert(x@ == all[n as int]);
                    assert(all.take(n + 1).drop_last() =~= all.take(n as int));
                }
                insert(&mut out, x);
                n = n + 1;
            },
            None => {},
        }
    }
    assert(all.take(n as int) =~= all);
    out
}

/// Puts `x` before the run of values at the end that it precedes.
fn insert<T: Ranked>(items: &mut Vec<T>, x: T)
    ensures
        models(final(items)@) == sorted_insert::<T>(models(old(items)@), x@),
{
    let ghost all = models(items@);
    let mut at: usize = items.len();
    proof {
        assert(all.take(at as int) =~= all);
        assert(sorted_insert::<T>(all.take(at as int), x@) + all.skip(at as int) =~= sorted_insert::<
            T,
        >(all, x@));
    }
    while at > 0 && x.ranks_before(&items[at - 1])
        invariant
            at <= items@.len(),
            all == models(items@),
            sorted_insert::<T>(all.take(at as int), x@) + all.skip(at as int) == sorted_insert::<T>(
                all,
                x@,
            ),
        decreases at,
    {
        proof {
            let part = all.take(at as int);
            assert(part.last() == items@[at - 1]@);
            assert(part.drop_last() =~= all.take(at - 1));
            assert(sorted_insert::<T>(all.take(at - 1), x@).push(part.last()) + all.skip(at as int)
                =~= sorted_insert::<T>(all.take(at - 1), x@) + all.skip(at - 1));
        }
        at = at - 1;
    }
    proof {
        let part = all.take(at as int);
        if at > 0 {
            assert(part.last() == items@[at - 1]@);
        }
        assert(sorted_insert::<T>(part, x@) =~= part.push(x@));
    }
    items.insert(at, x);
    assert(models(items@) =~= all.take(at as int).push(x@) + all.skip(at as int));
}

} // verus!
