//! Wall clocks, so that time can be fixed where it has to be.
use vstd::prelude::*;

verus! {

/// A source of the current wall-clock time.
pub trait Clock: Send + Sync {
    /// Whether the clock can read `ms`.
    spec fn can_read(&self, ms: u64) -> bool;

    /// The current time in milliseconds since the Unix epoch.
    fn now_ms(&self) -> (r: u64)
        ensures
            self.can_read(r),
    ;
}

/// The clock of the machine.
#[derive(Debug, Clone, Copy, Default)]
pub struct SystemClock;

/// A clock that always reads the same time.
#[derive(Debug, Clone, Copy)]
pub struct MockClock {
    pub time_ms: u64,
}

/// Calls `std::time::SystemTime::elapsed` on the Unix epoch: the milliseconds
/// that have passed since, or nothing where the machine's clock is set to an
/// earlier time. Nothing is claimed of the reading.
#[verifier::external_body]
fn elapsed_since_epoch() -> (r: Option<u64>) {
    match std::time::UNIX_EPOCH.elapsed() {
        Ok(elapsed) => Some(elapsed.as_millis() as u64),
        Err(_) => None,
    }
}

impl Clock for SystemClock {
    /// The machine's clock can read anything.
    open spec fn can_read(&self, ms: u64) -> bool {
        true
    }

    /// The machine's time; a clock set before the epoch reads as the epoch.
    fn now_ms(&self) -> (r: u64) {
        match elapsed_since_epoch() {
            Some(ms) => ms,
            None => 0,
        }
    }
}

impl SystemClock {
    /// The machine's time in whole seconds since the Unix epoch.
    pub fn now_secs(&self) -> (r: u64)
        ensures
            exists|ms: u64| self.can_read(ms) && r == #[trigger] (ms / 1000),
    {
        let ms: u64 = self.now_ms();
        assert(self.can_read(ms) && ms / 1000 == ms / 1000);
        ms / 1000
    }
}

impl MockClock {
    /// A clock that always reads `time_ms`.
    pub fn new(time_ms: u64) -> (r: Self)
        ensures
            r.time_ms == time_ms,
    {
        MockClock { time_ms }
    }
}

impl Clock for MockClock {
    /// A fixed clock reads the time it was given.
    open spec fn can_read(&self, ms: u64) -> bool {
        ms == self.time_ms
    }

    fn now_ms(&self) -> (r: u64) {
        self.time_ms
    }
}

} // verus!
