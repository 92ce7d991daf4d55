//! Vector clocks: how much of every node's log has been seen.
use crate::bytes::PubKey;
use crate::table::Table;
use vstd::prelude::*;

verus! {

/// How much of every node's log has been seen.
pub struct VectorClock {
    clocks: Table<u64>,
}

/// The count of a node; zero for one that is not known.
pub open spec fn count_of(m: Map<Seq<u8>, u64>, node: Seq<u8>) -> u64 {
    if m.dom().contains(node) {
        m[node]
    } else {
        0
    }
}

/// A count that was set is read back, those of other nodes stay, and a node of which
/// nothing was seen counts zero.
pub proof fn law_count_is_read_back(
    m: Map<Seq<u8>, u64>,
    node: Seq<u8>,
    other: Seq<u8>,
    value: u64,
)
    requires
        other != node,
    ensures
        count_of(m.insert(node, value), node) == value,
        count_of(m.insert(node, value), other) == count_of(m, other),
        count_of(Map::empty(), node) == 0,
{
}

impl View for VectorClock {
    type V = Map<Seq<u8>, u64>;

    closed spec fn view(&self) -> Map<Seq<u8>, u64> {
        self.clocks@
    }
}

impl Default for VectorClock {
    /// A clock on which nothing has been seen.
    fn default() -> (r: Self)
        ensures
            r.wf(),
            r@ == Map::<Seq<u8>, u64>::empty(),
    {
        VectorClock::new()
    }
}

impl VectorClock {
    /// The table is well formed.
    pub closed spec fn wf(&self) -> bool {
        self.clocks.wf()
    }

    /// A clock on which nothing has been seen.
    pub fn new() -> (r: Self)
        ensures
            r.wf(),
            r@ == Map::<Seq<u8>, u64>::empty(),
    {
        VectorClock { clocks: Table::new() }
    }

    /// The count of a node; zero for one that is not known.
    pub fn get(&self, node_id: &PubKey) -> (r: u64)
        requires
            self.wf(),
        ensures
            r == count_of(self@, node_id@),
    {
        match self.clocks.get(node_id.as_slice()) {
            Some(n) => *n,
            None => 0,
        }
    }

    /// Sets the count of a node.
    pub fn set(&mut self, node_id: PubKey, value: u64)
        requires
            old(self).wf(),
        ensures
            final(self).wf(),
            final(self)@ == old(self)@.insert(node_id@, value),
    {
        self.clocks.insert(node_id.as_slice(), value);
    }

    /// Counts one more for a node.
    pub fn increment(&mut self, node_id: PubKey)
        requires
            old(self).wf(),
            count_of(old(self)@, node_id@) < u64::MAX,
        ensures
            final(self).wf(),
            final(self)@ == old(self)@.insert(
                node_id@,
                (count_of(old(self)@, node_id@) + 1) as u64,
            ),
    {
        let current: u64 = self.get(&node_id);
        self.set(node_id, current + 1);
    }
}

} // verus!
