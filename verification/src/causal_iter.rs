//! Merging the entries of several authors into causal order.
use crate::message;
use crate::proto::storage::{Entry, SignedEntry, SignedEntryModel};
use std::collections::VecDeque;
use vstd::multiset::Multiset;
use vstd::prelude::*;

verus! {

/// The timestamp of an entry; the earliest of all for one that has none.
pub open spec fn hlc_of(e: SignedEntryModel) -> (u64, u32) {
    match message::decoded::<Entry>(e.entry_bytes) {
        Some(entry) => match entry.timestamp {
            Some(t) => (t.wall_time, t.counter),
            None => (0, 0),
        },
        None => (0, 0),
    }
}

/// Whether the first timestamp is earlier than the second.
pub open spec fn earlier(a: (u64, u32), b: (u64, u32)) -> bool {
    a.0 < b.0 || (a.0 == b.0 && a.1 < b.1)
}

/// Whether no entry is earlier than one before it.
pub open spec fn in_order(s: Seq<SignedEntryModel>) -> bool {
    forall|i: int, j: int|
        0 <= i < j < s.len() ==> !earlier(hlc_of(#[trigger] s[j]), hlc_of(#[trigger] s[i]))
}

/// The queue whose first entry comes next: the earliest does, and of equally
/// early ones that of the first queue. `None` where all queues are empty.
pub open spec fn first_queue(qs: Seq<Seq<SignedEntryModel>>) -> Option<int>
    decreases qs.len(),
{
    if qs.len() == 0 {
        None
    } else {
        let before = first_queue(qs.drop_last());
        if qs.last().len() == 0 {
            before
        } else {
            match before {
                Some(i) if !earlier(hlc_of(qs.last()[0]), hlc_of(qs[i][0])) => before,
                _ => Some(qs.len() - 1),
            }
        }
    }
}

/// The queues without the first entry of one of them.
pub open spec fn without_first(qs: Seq<Seq<SignedEntryModel>>, i: int) -> Seq<
    Seq<SignedEntryModel>,
> {
    qs.update(i, qs[i].skip(1))
}

/// How many entries the queues hold.
pub open spec fn total(qs: Seq<Seq<SignedEntryModel>>) -> nat
    decreases qs.len(),
{
    if qs.len() == 0 {
        0
    } else {
        total(qs.drop_last()) + qs.last().len()
    }
}

/// The entries that the queues hold.
pub open spec fn held(qs: Seq<Seq<SignedEntryModel>>) -> Multiset<SignedEntryModel>
    decreases qs.len(),
{
    if qs.len() == 0 {
        Multiset::empty()
    } else {
        held(qs.drop_last()).add(qs.last().to_multiset())
    }
}

/// All entries in the order in which they come.
pub open spec fn drained(qs: Seq<Seq<SignedEntryModel>>) -> Seq<SignedEntryModel>
    decreases total(qs),
    via drained_decreases
{
    match first_queue(qs) {
        None => Seq::empty(),
        Some(i) => seq![qs[i][0]] + drained(without_first(qs, i)),
    }
}

#[via_fn]
proof fn drained_decreases(qs: Seq<Seq<SignedEntryModel>>) {
    if let Some(i) = first_queue(qs) {
        lemma_first_queue(qs);
        lemma_total(qs, i);
    }
}

/// The first entry of the chosen queue is no later than those of the others.
pub proof fn lemma_first_queue(qs: Seq<Seq<SignedEntryModel>>)
    ensures
        match first_queue(qs) {
            Some(i) => {
                &&& 0 <= i < qs.len()
                &&& qs[i].len() > 0
                &&& forall|j: int|
                    0 <= j < qs.len() && (#[trigger] qs[j]).len() > 0 ==> !earlier(
                        hlc_of(qs[j][0]),
                        hlc_of(qs[i][0]),
                    )
            },
            None => forall|j: int| 0 <= j < qs.len() ==> (#[trigger] qs[j]).len() == 0,
        },
    decreases qs.len(),
{
    if qs.len() > 0 {
        let before = qs.drop_last();
        lemma_first_queue(before);
        assert forall|j: int| 0 <= j < qs.len() - 1 implies (#[trigger] qs[j]) == before[j] by {}
    }
}

proof fn lemma_total(qs: Seq<Seq<SignedEntryModel>>, i: int)
    requires
        0 <= i < qs.len(),
        qs[i].len() > 0,
    ensures
        total(without_first(qs, i)) == total(qs) - 1,
    decreases qs.len(),
{
    let rest = without_first(qs, i);
    if i == qs.len() - 1 {
        assert(rest.drop_last() =~= qs.drop_last());
    } else {
        lemma_total(qs.drop_last(), i);
        assert(rest.drop_last() =~= without_first(qs.drop_last(), i));
    }
}

proof fn lemma_held(qs: Seq<Seq<SignedEntryModel>>, i: int)
    requires
        0 <= i < qs.len(),
        qs[i].len() > 0,
    ensures
        held(qs) == held(without_first(qs, i)).insert(qs[i][0]),
    decreases qs.len(),
{
    broadcast use vstd::seq_lib::group_to_multiset_ensures;

    let rest = without_first(qs, i);
    if i == qs.len() - 1 {
        assert(rest.drop_last() =~= qs.drop_last());
        let q = qs[i];
        assert(q =~= seq![q[0]] + q.skip(1));
        vstd::seq_lib::lemma_multiset_commutative(seq![q[0]], q.skip(1));
        assert(seq![q[0]].to_multiset() =~= Multiset::singleton(q[0])) by {
            assert(Seq::<SignedEntryModel>::empty().push(q[0]) =~= seq![q[0]]);
        }
        assert(held(qs) =~= held(rest).insert(q[0]));
    } else {
        lemma_held(qs.drop_last(), i);
        assert(rest.drop_last() =~= without_first(qs.drop_last(), i));
        assert(held(qs) =~= held(rest).insert(qs[i][0]));
    }
}

/// Every entry of every queue comes, and as often as it is there.
pub proof fn law_every_entry_comes(qs: Seq<Seq<SignedEntryModel>>)
    ensures
        drained(qs).to_multiset() == held(qs),
        drained(qs).len() == total(qs),
    decreases total(qs),
{
    broadcast use vstd::seq_lib::group_to_multiset_ensures;

    lemma_first_queue(qs);
    match first_queue(qs) {
        Some(i) => {
            lemma_total(qs, i);
            lemma_held(qs, i);
            let rest = drained(without_first(qs, i));
            law_every_entry_comes(without_first(qs, i));
            vstd::seq_lib::lemma_multiset_commutative(seq![qs[i][0]], rest);
            assert(seq![qs[i][0]].to_multiset() =~= Multiset::singleton(qs[i][0])) by {
                assert(Seq::<SignedEntryModel>::empty().push(qs[i][0]) =~= seq![qs[i][0]]);
            }
            assert(drained(qs).to_multiset() =~= held(qs));
        },
        None => {
            lemma_nothing_held(qs);
        },
    }
}

proof fn lemma_nothing_held(qs: Seq<Seq<SignedEntryModel>>)
    requires
        forall|j: int| 0 <= j < qs.len() ==> (#[trigger] qs[j]).len() == 0,
    ensures
        total(qs) == 0,
        held(qs) == Multiset::<SignedEntryModel>::empty(),
    decreases qs.len(),
{
    broadcast use vstd::seq_lib::group_to_multiset_ensures;

    if qs.len() > 0 {
        assert(qs[qs.len() - 1].len() == 0);
        assert forall|j: int| 0 <= j < qs.len() - 1 implies (#[trigger] qs.drop_last()[j]).len()
            == 0 by {
            assert(qs[j].len() == 0);
        }
        lemma_nothing_held(qs.drop_last());
        assert(qs.last().to_multiset().len() == 0);
        assert(held(qs) =~= Multiset::empty());
    }
}

/// Whether the entry is in one of the queues.
pub open spec fn queued(qs: Seq<Seq<SignedEntryModel>>, e: SignedEntryModel) -> bool {
    exists|j: int, k: int|
        0 <= j < qs.len() && 0 <= k < qs[j].len() && #[trigger] qs[j][k] == e
}

proof fn lemma_drained_queued(qs: Seq<Seq<SignedEntryModel>>, n: int)
    requires
        0 <= n < drained(qs).len(),
    ensures
        queued(qs, drained(qs)[n]),
    decreases total(qs),
{
    lemma_first_queue(qs);
    if let Some(i) = first_queue(qs) {
        lemma_total(qs, i);
        if n == 0 {
            assert(qs[i][0] == drained(qs)[0]);
        } else {
            let rest = without_first(qs, i);
            lemma_drained_queued(rest, n - 1);
            let e = drained(qs)[n];
            assert(e == drained(rest)[n - 1]);
            let (j, k) = choose|j: int, k: int|
                0 <= j < rest.len() && 0 <= k < rest[j].len() && #[trigger] rest[j][k] == e;
            if j == i {
                assert(qs[i][k + 1] == e);
            } else {
                assert(qs[j][k] == e);
            }
        }
    }
}

/// Entries come in causal order, provided the entries of every queue are in it.
pub proof fn law_entries_come_in_order(qs: Seq<Seq<SignedEntryModel>>)
    requires
        forall|j: int| 0 <= j < qs.len() ==> in_order(#[trigger] qs[j]),
    ensures
        in_order(drained(qs)),
    decreases total(qs),
{
    lemma_first_queue(qs);
    if let Some(i) = first_queue(qs) {
        lemma_total(qs, i);
        let rest = without_first(qs, i);
        assert forall|j: int| 0 <= j < rest.len() implies in_order(#[trigger] rest[j]) by {
            assert(in_order(qs[j]));
            if j == i {
                assert forall|a: int, b: int| 0 <= a < b < rest[i].len() implies !earlier(
                    hlc_of(#[trigger] rest[i][b]),
                    hlc_of(#[trigger] rest[i][a]),
                ) by {
                    assert(rest[i][a] == qs[i][a + 1]);
                    assert(rest[i][b] == qs[i][b + 1]);
                }
            }
        }
        law_entries_come_in_order(rest);
        let first = qs[i][0];
        let tail = drained(rest);
        assert forall|n: int| 0 <= n < tail.len() implies !earlier(
            hlc_of(#[trigger] tail[n]),
            hlc_of(first),
        ) by {
            lemma_drained_queued(rest, n);
            let (j, k) = choose|j: int, k: int|
                0 <= j < rest.len() && 0 <= k < rest[j].len() && #[trigger] rest[j][k] == tail[n];
            assert(in_order(qs[j]));
            if j == i {
                assert(qs[i][k + 1] == tail[n]);
            } else {
                assert(qs[j][k] == tail[n]);
                if k > 0 {
                    assert(!earlier(hlc_of(qs[j][k]), hlc_of(qs[j][0])));
                }
                assert(!earlier(hlc_of(qs[j][0]), hlc_of(first)));
            }
        }
        let d = drained(qs);
        assert forall|a: int, b: int| 0 <= a < b < d.len() implies !earlier(
            hlc_of(#[trigger] d[b]),
            hlc_of(#[trigger] d[a]),
        ) by {
            assert(d[b] == tail[b - 1]);
            if a > 0 {
                assert(d[a] == tail[a - 1]);
            }
        }
    }
}

/// The models of queues.
pub open spec fn queue_models(qs: Seq<VecDeque<SignedEntry>>) -> Seq<Seq<SignedEntryModel>> {
    qs.map_values(|q: VecDeque<SignedEntry>| message::models(q@))
}

/// The timestamp of the first entry of a queue.
pub open spec fn front(q: Seq<SignedEntryModel>) -> Option<(u64, u32)> {
    if q.len() == 0 {
        None
    } else {
        Some(hlc_of(q[0]))
    }
}

/// Gives out the entries of several queues, one for every author, from the
/// earliest to the latest.
pub struct CausalEntryIter {
    queues: Vec<VecDeque<SignedEntry>>,
    fronts: Vec<Option<(u64, u32)>>,
}

impl View for CausalEntryIter {
    type V = Seq<Seq<SignedEntryModel>>;

    closed spec fn view(&self) -> Seq<Seq<SignedEntryModel>> {
        queue_models(self.queues@)
    }
}

impl CausalEntryIter {
    /// The timestamps are those of the first entries of the queues.
    pub closed spec fn wf(&self) -> bool {
        &&& self.fronts@.len() == self.queues@.len()
        &&& forall|i: int|
            0 <= i < self.fronts@.len() ==> #[trigger] self.fronts@[i] == front(
                message::models(self.queues@[i]@),
            )
    }

    /// The entries of the given queues.
    pub fn new(queues: Vec<VecDeque<SignedEntry>>) -> (r: Self)
        ensures
            r.wf(),
            r@ == queue_models(queues@),
    {
        let mut fronts: Vec<Option<(u64, u32)>> = Vec::new();
        let mut i: usize = 0;
        while i < queues.len()
            invariant
                i <= queues@.len(),
                fronts@.len() == i,
                forall|k: int|
                    0 <= k < i ==> #[trigger] fronts@[k] == front(message::models(queues@[k]@)),
            decreases queues@.len() - i,
        {
            fronts.push(CausalEntryIter::front_of(&queues[i]));
            i += 1;
        }
        CausalEntryIter { queues, fronts }
    }

    fn front_of(queue: &VecDeque<SignedEntry>) -> (r: Option<(u64, u32)>)
        ensures
            r == front(message::models(queue@)),
    {
        if queue.len() == 0 {
            None
        } else {
            Some(CausalEntryIter::get_hlc(&queue[0]))
        }
    }

    /// The timestamp of an entry; the earliest of all for one that has none.
    pub fn get_hlc(entry: &SignedEntry) -> (r: (u64, u32))
        ensures
            r == hlc_of(entry@),
    {
        match message::decode::<Entry>(entry.entry_bytes.as_slice()) {
            Ok(e) => match e.timestamp {
                Some(t) => (t.wall_time, t.counter),
                None => (0, 0),
            },
            Err(_) => (0, 0),
        }
    }

    /// The entry that comes next.
    pub fn next(&mut self) -> (r: Option<SignedEntry>)
        requires
            old(self).wf(),
        ensures
            final(self).wf(),
            match first_queue(old(self)@) {
                Some(i) => {
                    &&& r matches Some(e) && e@ == old(self)@[i][0]
                    &&& final(self)@ == without_first(old(self)@, i)
                    &&& drained(old(self)@) == seq![old(self)@[i][0]] + drained(final(self)@)
                },
                None => r is None && final(self)@ == old(self)@,
            },
    {
        let ghost qs = self@;
        let mut best: Option<usize> = None;
        let mut k: usize = 0;
        assert(qs.take(0) =~= Seq::empty());
        while k < self.fronts.len()
            invariant
                self.wf(),
                qs == self@,
                k <= self.fronts@.len(),
                qs.len() == self.fronts@.len(),
                match first_queue(qs.take(k as int)) {
                    Some(i) => best matches Some(b) && b == i && b < k && qs[i].len() > 0,
                    None => best is None,
                },
            decreases self.fronts@.len() - k,
        {
            proof {
                assert(qs.take(k + 1).drop_last() =~= qs.take(k as int));
                assert(qs.take(k + 1).last() == qs[k as int]);
                assert(self.fronts@[k as int] == front(qs[k as int]));
            }
            match self.fronts[k] {
                Some(hlc) => {
                    let wins = match best {
                        Some(b) => {
                            proof {
                                assert(self.fronts@[b as int] == front(qs[b as int]));
                                assert(qs.take(k + 1)[b as int] == qs[b as int]);
                            }
                            match self.fronts[b] {
                                Some(other) => hlc.0 < other.0 || (hlc.0 == other.0 && hlc.1
                                    < other.1),
                                None => true,
                            }
                        },
                        None => true,
                    };
                    if wins {
                        best = Some(k);
                    }
                },
                None => {},
            }
            k += 1;
        }
        assert(qs.take(k as int) =~= qs);
        match best {
            Some(b) => {
                let ghost before = self.queues@;
                let mut queue = VecDeque::new();
                std::mem::swap(&mut queue, &mut self.queues[b]);
                let entry = queue.pop_front();
                self.fronts[b] = CausalEntryIter::front_of(&queue);
                std::mem::swap(&mut queue, &mut self.queues[b]);
                proof {
                    assert(message::models(self.queues@[b as int]@) =~= message::models(
                        before[b as int]@,
                    ).skip(1));
                    assert(self@ =~= without_first(qs, b as int));
                }
                entry
            },
            None => None,
        }
    }

    /// All entries, in the order in which they come.
    pub fn collect(self) -> (r: Vec<SignedEntry>)
        requires
            self.wf(),
        ensures
            message::models(r@) == drained(self@),
    {
        let ghost all = drained(self@);
        let mut iter = self;
        let mut out: Vec<SignedEntry> = Vec::new();
        proof {
            assert(message::models(out@) =~= Seq::empty());
            assert(message::models(out@) + drained(iter@) =~= all);
        }
        loop
            invariant
                iter.wf(),
                message::models(out@) + drained(iter@) == all,
                all == drained(self@),
            decreases total(iter@),
        {
            let ghost before = iter@;
            let ghost so_far = message::models(out@);
            proof {
                lemma_first_queue(before);
            }
            match iter.next() {
                Some(e) => {
                    let ghost x = e@;
                    out.push(e);
                    proof {
                        let i = first_queue(before)->0;
                        lemma_total(before, i);
                        assert(message::models(out@) =~= so_far.push(x));
                        assert(so_far + (seq![x] + drained(iter@)) =~= so_far.push(x) + drained(
                            iter@,
                        ));
                    }
                },
                None => {
                    assert(so_far + Seq::<SignedEntryModel>::empty() =~= so_far);
                    return out;
                },
            }
        }
    }
}

/// The time of an entry is the timestamp that its bytes hold.
pub proof fn law_time_is_the_timestamp(e: SignedEntryModel)
    ensures
        message::decoded::<Entry>(e.entry_bytes) matches Some(entry) ==> (
        entry.timestamp matches Some(t) ==> hlc_of(e).0 == t.wall_time && hlc_of(e).1 == t.counter),
{
}

/// The next entry stands at the front of a queue, and none at the front of another is
/// earlier. Of those with the same timestamp, the one in the first of the queues comes.
pub proof fn law_next_is_the_earliest(qs: Seq<Seq<SignedEntryModel>>)
    ensures
        match first_queue(qs) {
            None => forall|j: int| 0 <= j < qs.len() ==> (#[trigger] qs[j]).len() == 0,
            Some(i) => {
                &&& 0 <= i < qs.len()
                &&& qs[i].len() > 0
                &&& forall|j: int|
                    0 <= j < qs.len() && (#[trigger] qs[j]).len() > 0 ==> hlc_of(qs[i][0]).0
                        <= hlc_of(qs[j][0]).0 && (hlc_of(qs[i][0]).0 == hlc_of(qs[j][0]).0
                        ==> hlc_of(qs[i][0]).1 <= hlc_of(qs[j][0]).1)
                &&& forall|j: int|
                    0 <= j < i && (#[trigger] qs[j]).len() > 0 ==> hlc_of(qs[j][0]) != hlc_of(
                        qs[i][0],
                    )
                &&& drained(qs).len() > 0 && drained(qs)[0] == qs[i][0]
                &&& drained(qs).drop_first() == drained(qs.update(i, qs[i].drop_first()))
            },
        },
    decreases qs.len(),
{
    if qs.len() > 0 {
        let before = qs.drop_last();
        law_next_is_the_earliest(before);
        assert forall|j: int| 0 <= j < before.len() implies before[j] == #[trigger] qs[j] by {}
    }
    if let Some(i) = first_queue(qs) {
        assert(0 <= i < qs.len() && qs[i].len() > 0);
        assert(qs[i].skip(1) =~= qs[i].drop_first());
        assert(drained(qs) == seq![qs[i][0]] + drained(without_first(qs, i)));
        assert(drained(qs).drop_first() =~= drained(without_first(qs, i)));
    }
}

/// Where the entries of every queue come with ever later timestamps, so do all together:
/// none comes behind one with a later wall time, nor, at the same wall time, behind one
/// with a greater counter.
pub proof fn law_time_does_not_go_back(qs: Seq<Seq<SignedEntryModel>>)
    requires
        forall|j: int, a: int, b: int|
            0 <= j < qs.len() && 0 <= a < b < qs[j].len() ==> hlc_of(#[trigger] qs[j][a]).0 < hlc_of(
                #[trigger] qs[j][b],
            ).0 || (hlc_of(qs[j][a]).0 == hlc_of(qs[j][b]).0 && hlc_of(qs[j][a]).1 <= hlc_of(
                qs[j][b],
            ).1),
    ensures
        forall|i: int, j: int|
            0 <= i < j < drained(qs).len() ==> hlc_of(#[trigger] drained(qs)[i]).0 < hlc_of(
                #[trigger] drained(qs)[j],
            ).0 || (hlc_of(drained(qs)[i]).0 == hlc_of(drained(qs)[j]).0 && hlc_of(
                drained(qs)[i],
            ).1 <= hlc_of(drained(qs)[j]).1),
{
    assert forall|j: int| 0 <= j < qs.len() implies in_order(#[trigger] qs[j]) by {
        assert forall|a: int, b: int| 0 <= a < b < qs[j].len() implies !earlier(
            hlc_of(#[trigger] qs[j][b]),
            hlc_of(#[trigger] qs[j][a]),
        ) by {
            assert(hlc_of(qs[j][a]).0 < hlc_of(qs[j][b]).0 || hlc_of(qs[j][a]).0 == hlc_of(
                qs[j][b],
            ).0);
        }
    }
    law_entries_come_in_order(qs);
    let d = drained(qs);
    assert forall|i: int, j: int| 0 <= i < j < d.len() implies hlc_of(#[trigger] d[i]).0 < hlc_of(
        #[trigger] d[j],
    ).0 || (hlc_of(d[i]).0 == hlc_of(d[j]).0 && hlc_of(d[i]).1 <= hlc_of(d[j]).1) by {
        assert(!earlier(hlc_of(d[j]), hlc_of(d[i])));
    }
}

} // verus!
