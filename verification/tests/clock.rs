use lattice_core::clock::{Clock, MockClock, SystemClock};
use lattice_core::hlc::HLC;

#[test]
fn test_system_clock_returns_reasonable_time() {
    let clock = SystemClock;
    let now = clock.now_ms();
    // Should be after 2025-01-01
    assert!(now > 1_735_689_600_000);
}

#[test]
fn test_mock_clock_returns_fixed_time() {
    let clock = MockClock::new(12345);
    assert_eq!(clock.now_ms(), 12345);
}

#[test]
fn seconds_are_milliseconds_over_a_thousand() {
    let before = SystemClock.now_ms() / 1000;
    let now = SystemClock.now_secs();
    let after = SystemClock.now_ms() / 1000;
    assert!(before <= now && now <= after);
}

#[test]
fn timestamp_reads_the_clock() {
    let hlc = HLC::now_with_clock(&MockClock::new(777));
    assert_eq!(hlc.wall_time, 777);
    assert_eq!(hlc.counter, 0);
    assert!(HLC::now().wall_time > 1_735_689_600_000);
}

#[test]
fn tick_moves_forward() {
    let hlc = HLC { wall_time: 100, counter: 7 };
    assert_eq!(hlc.tick_at(101), HLC { wall_time: 101, counter: 0 });
    assert_eq!(hlc.tick_at(100), HLC { wall_time: 100, counter: 8 });
    assert_eq!(hlc.tick_at(3), HLC { wall_time: 100, counter: 8 });
    let full = HLC { wall_time: 100, counter: u32::MAX };
    assert_eq!(full.tick_at(100), HLC { wall_time: 101, counter: 0 });
    let last = HLC { wall_time: u64::MAX, counter: u32::MAX };
    assert_eq!(last.tick_at(5), last);
    assert!(hlc.is_before(&hlc.tick()));
    assert!(!hlc.is_before(&hlc));
}
