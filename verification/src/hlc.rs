//! Hybrid logical clocks: a wall-clock reading with a counter that orders the
//! events of one millisecond.
use crate::clock::{Clock, SystemClock};
use vstd::prelude::*;

verus! {

/// A hybrid logical timestamp. Timestamps are ordered by their wall time, and
/// by the counter within the same wall time.
#[derive(Clone, Copy, Debug, PartialEq, Eq, Structural, PartialOrd, Ord, Hash)]
pub struct HLC {
    pub wall_time: u64,
    pub counter: u32,
}

impl Default for HLC {
    /// The earliest timestamp.
    fn default() -> (r: Self)
        ensures
            r == (HLC { wall_time: 0, counter: 0 }),
    {
        HLC { wall_time: 0, counter: 0 }
    }
}

impl HLC {
    /// Whether this timestamp precedes the other.
    pub open spec fn before(self, other: HLC) -> bool {
        self.wall_time < other.wall_time || (self.wall_time == other.wall_time && self.counter
            < other.counter)
    }

    /// The timestamp that follows this one when the wall clock reads `now_ms`:
    /// the reading itself where it is later, and otherwise the next count. A
    /// counter that is used up carries into the wall time; the last timestamp
    /// of all has no successor and is kept.
    pub open spec fn ticked(self, now_ms: u64) -> HLC {
        if now_ms > self.wall_time {
            HLC { wall_time: now_ms, counter: 0 }
        } else if self.counter < u32::MAX {
            HLC { wall_time: self.wall_time, counter: (self.counter + 1) as u32 }
        } else if self.wall_time < u64::MAX {
            HLC { wall_time: (self.wall_time + 1) as u64, counter: 0 }
        } else {
            self
        }
    }

    /// A timestamp for the time that the clock reads.
    pub fn now_with_clock<C: Clock>(clock: &C) -> (r: HLC)
        ensures
            clock.can_read(r.wall_time),
            r.counter == 0,
    {
        HLC { wall_time: clock.now_ms(), counter: 0 }
    }

    /// A timestamp for the current time of the machine.
    pub fn now() -> (r: HLC)
        ensures
            r.counter == 0,
    {
        HLC::now_with_clock(&SystemClock)
    }

    /// The timestamp that follows this one when the wall clock reads `now_ms`.
    pub fn tick_at(&self, now_ms: u64) -> (r: HLC)
        ensures
            r == self.ticked(now_ms),
    {
        if now_ms > self.wall_time {
            HLC { wall_time: now_ms, counter: 0 }
        } else if self.counter < u32::MAX {
            HLC { wall_time: self.wall_time, counter: self.counter + 1 }
        } else if self.wall_time < u64::MAX {
            HLC { wall_time: self.wall_time + 1, counter: 0 }
        } else {
            *self
        }
    }

    /// The timestamp that follows this one at the current time of the machine.
    pub fn tick(&self) -> (r: HLC)
        ensures
            exists|now_ms: u64| r == self.ticked(now_ms),
    {
        let now: u64 = SystemClock.now_ms();
        let r = self.tick_at(now);
        assert(r == self.ticked(now));
        r
    }

    /// Whether this timestamp precedes the other.
    pub fn is_before(&self, other: &HLC) -> (r: bool)
        ensures
            r == self.before(*other),
    {
        self.wall_time < other.wall_time || (self.wall_time == other.wall_time && self.counter
            < other.counter)
    }
}

/// Whatever the wall clock reads, a tick moves every timestamp forward but the
/// last one of all.
pub proof fn law_tick_advances(hlc: HLC, now_ms: u64)
    requires
        hlc != (HLC { wall_time: u64::MAX, counter: u32::MAX }),
    ensures
        hlc.before(hlc.ticked(now_ms)),
{
}

/// Timestamps are totally ordered: of two different ones, exactly one precedes
/// the other.
pub proof fn law_total_order(a: HLC, b: HLC, c: HLC)
    ensures
        !a.before(a),
        a.before(b) ==> !b.before(a),
        a == b || a.before(b) || b.before(a),
        a.before(b) && b.before(c) ==> a.before(c),
{
}

/// A timestamp precedes every one with a later wall time, and of those with the same
/// wall time every one with a greater counter, and no other.
pub proof fn law_order_is_of_time(a: HLC, b: HLC)
    ensures
        a.wall_time < b.wall_time ==> a.before(b) && !b.before(a),
        a.wall_time == b.wall_time && a.counter < b.counter ==> a.before(b) && !b.before(a),
        a.before(b) ==> a.wall_time <= b.wall_time,
        a.before(b) && a.wall_time == b.wall_time ==> a.counter < b.counter,
{
}

/// A tick takes the time of the wall clock where that is later, and starts to count anew.
/// Where it is not, the wall time stays and the counter goes up by one; a counter that is
/// used up starts anew one millisecond later.
pub proof fn law_tick_follows_the_clock(hlc: HLC, now_ms: u64)
    ensures
        now_ms > hlc.wall_time ==> hlc.ticked(now_ms).wall_time == now_ms && hlc.ticked(
            now_ms,
        ).counter == 0,
        now_ms <= hlc.wall_time && hlc.counter < u32::MAX ==> hlc.ticked(now_ms).wall_time
            == hlc.wall_time && hlc.ticked(now_ms).counter == hlc.counter + 1,
        now_ms <= hlc.wall_time && hlc.counter == u32::MAX && hlc.wall_time < u64::MAX
            ==> hlc.ticked(now_ms).wall_time == hlc.wall_time + 1 && hlc.ticked(now_ms).counter
            == 0,
        hlc.ticked(now_ms).wall_time >= now_ms,
        hlc.ticked(now_ms).wall_time >= hlc.wall_time,
{
}

} // verus!
