//! Runs of results: all of them, or the first error.
use vstd::prelude::*;

verus! {

/// The values, where all of them are there; otherwise the first error.
pub open spec fn all_ok<T, E>(items: Seq<Result<T, E>>) -> Result<Seq<T>, E>
    decreases items.len(),
{
    if items.len() == 0 {
        Ok(Seq::empty())
    } else {
        match all_ok(items.drop_last()) {
            Err(e) => Err(e),
            Ok(values) => match items.last() {
                Err(e) => Err(e),
                Ok(v) => Ok(values.push(v)),
            },
        }
    }
}

/// An error among the first results is the error of all of them.
pub proof fn lemma_error_stays<T, E>(items: Seq<Result<T, E>>, n: int)
    requires
        0 <= n <= items.len(),
        all_ok(items.take(n)) is Err,
    ensures
        all_ok(items) == all_ok(items.take(n)),
    decreases items.len() - n,
{
    if n == items.len() {
        assert(items.take(n) =~= items);
    } else {
        assert(items.take(n + 1).drop_last() =~= items.take(n));
        lemma_error_stays(items, n + 1);
    }
}

/// One more result behind the first `n`.
pub proof fn lemma_next<T, E>(items: Seq<Result<T, E>>, n: int)
    requires
        0 <= n < items.len(),
    ensures
        all_ok(items.take(n + 1)) == match all_ok(items.take(n)) {
            Err(e) => Err(e),
            Ok(values) => match items[n] {
                Err(e) => Err(e),
                Ok(v) => Ok(values.push(v)),
            },
        },
{
    assert(items.take(n + 1).drop_last() =~= items.take(n));
    assert(items.take(n + 1).last() == items[n]);
}

/// Where all results are values, they come out in their order.
pub proof fn lemma_all_ok<T, E>(items: Seq<Result<T, E>>)
    ensures
        all_ok(items) matches Ok(values) ==> values.len() == items.len() && forall|i: int|
            0 <= i < items.len() ==> #[trigger] items[i] == Ok::<T, E>(values[i]),
        (forall|i: int| 0 <= i < items.len() ==> (#[trigger] items[i]) is Ok) ==> all_ok(
            items,
        ) is Ok,
    decreases items.len(),
{
    if items.len() > 0 {
        let before = items.drop_last();
        lemma_all_ok(before);
        if let Ok(values) = all_ok(items) {
            assert forall|i: int| 0 <= i < items.len() implies #[trigger] items[i] == Ok::<T, E>(
                values[i],
            ) by {
                if i < before.len() {
                    assert(before[i] == items[i]);
                }
            }
        }
        if forall|i: int| 0 <= i < items.len() ==> (#[trigger] items[i]) is Ok {
            assert forall|i: int| 0 <= i < before.len() implies (#[trigger] before[i]) is Ok by {
                assert(before[i] == items[i]);
            }
            assert(items[items.len() - 1] is Ok);
        }
    }
}

/// The values of some of the results, where all results are values.
pub proof fn lemma_all_ok_filter<K, T, E>(
    keys: Seq<K>,
    f: spec_fn(K) -> Result<T, E>,
    keep: spec_fn(K) -> bool,
    keep_value: spec_fn(T) -> bool,
)
    requires
        all_ok(keys.map_values(f)) is Ok,
        forall|i: int|
            0 <= i < keys.len() ==> keep(#[trigger] keys[i]) == keep_value(f(keys[i])->Ok_0),
    ensures
        all_ok(keys.filter(keep).map_values(f)) == Ok::<Seq<T>, E>(
            all_ok(keys.map_values(f))->Ok_0.filter(keep_value),
        ),
    decreases keys.len(),
{
    reveal(Seq::filter);
    let items = keys.map_values(f);
    if keys.len() == 0 {
        assert(keys.filter(keep).map_values(f) =~= Seq::empty());
        assert(all_ok(items)->Ok_0.filter(keep_value) =~= Seq::empty());
    } else {
        let before = keys.drop_last();
        let last = keys.last();
        assert(items.drop_last() =~= before.map_values(f));
        assert(items.last() == f(last));
        assert(last == keys[keys.len() - 1]);
        assert forall|i: int| 0 <= i < before.len() implies keep(#[trigger] before[i])
            == keep_value(f(before[i])->Ok_0) by {
            assert(before[i] == keys[i]);
        }
        lemma_all_ok_filter(before, f, keep, keep_value);
        let values = all_ok(before.map_values(f))->Ok_0;
        let v = f(last)->Ok_0;
        assert(values.push(v).drop_last() =~= values);
        let kept = before.filter(keep);
        if keep(last) {
            let more = kept.push(last).map_values(f);
            assert(more.drop_last() =~= kept.map_values(f));
            assert(more.last() == f(last));
        }
    }
}

} // verus!
