//! Pacing, budgets and totals.

use btest_rs::limiter::{RateLimiter, MAX_CATCH_UP, MIN_SLEEP};
use btest_rs::state::{BandwidthState, UNLIMITED};

const MS: u128 = 1_000_000;

#[test]
fn shared_rate_limiter_uses_one_timeline() {
    // Two workers, each with a clock of its own, take turns in the order in which
    // they wake up.
    let mut limiter = RateLimiter::new(0, 8_000_000);
    let mut clocks = [0u128; 2];
    let mut left = [50; 2];
    while left[0] + left[1] > 0 {
        let w = if left[1] == 0 || (left[0] > 0 && clocks[0] <= clocks[1]) { 0 } else { 1 };
        left[w] -= 1;
        if let Some(delay) = limiter.pace(clocks[w], 1_000) {
            clocks[w] += delay;
        }
    }
    let elapsed = clocks[0].max(clocks[1]);
    // 100,000 bytes at 8 Mbps take 100 ms.  Two workers do not each receive the
    // full rate.
    assert!(elapsed >= 80 * MS);
    assert!(elapsed + MIN_SLEEP > 100 * MS);
    assert!(elapsed <= 100 * MS);
}

#[test]
fn test_small_intervals_accumulate() {
    let mut limiter = RateLimiter::new(5 * MS, 8_000_000);
    assert_eq!(limiter.pace(5 * MS, 1_000), None);
    assert_eq!(limiter.pace(5 * MS, 999), None);
    assert_eq!(limiter.pace(5 * MS, 1), Some(2 * MS));
    assert_eq!(limiter.pace(5 * MS, 500), Some(2_500_000));
}

#[test]
fn test_interval_is_rounded_down() {
    // 1500 bytes at 7 bits per second: 12000 / 7 seconds.
    let mut limiter = RateLimiter::new(0, 7);
    assert_eq!(limiter.pace(0, 1_500), Some(1_714_285_714_285));
}

#[test]
fn test_interval_is_at_least_a_nanosecond() {
    let mut limiter = RateLimiter::new(0, u32::MAX);
    // One byte at this rate takes 1.86 nanoseconds: one is counted.
    for _ in 0..1_999_999 {
        assert_eq!(limiter.pace(0, 1), None);
    }
    assert_eq!(limiter.pace(0, 1), Some(MIN_SLEEP));
}

#[test]
fn test_interval_is_limited_to_64_bits() {
    let mut limiter = RateLimiter::new(0, 1);
    assert_eq!(limiter.pace(0, usize::MAX), Some(u64::MAX as u128));
    assert_eq!(limiter.pace(0, usize::MAX), Some(2 * u64::MAX as u128));
}

#[test]
fn test_no_limit() {
    let mut limiter = RateLimiter::new(0, 0);
    assert!(limiter.can_pace(0, usize::MAX));
    assert_eq!(limiter.pace(0, usize::MAX), None);
    let mut limiter = RateLimiter::new(0, 1);
    assert_eq!(limiter.pace(0, 0), None);
    assert_eq!(limiter.pace(0, 1), Some(8_000 * MS));
}

#[test]
fn test_catch_up_is_bounded() {
    // Just within the bound: the schedule still counts from its own time.
    let mut limiter = RateLimiter::new(0, 8_000_000);
    assert_eq!(limiter.pace(MAX_CATCH_UP, 51_000), None);
    assert_eq!(limiter.pace(MAX_CATCH_UP, 1_000), Some(2 * MS));
    // Beyond it: the past is forgotten.
    let mut limiter = RateLimiter::new(0, 8_000_000);
    assert_eq!(limiter.pace(MAX_CATCH_UP + 1, 51_000), Some(51 * MS));
}

#[test]
fn test_burst_is_bounded() {
    let mut limiter = RateLimiter::new(0, 8_000_000);
    let now = MAX_CATCH_UP;
    let mut sent = 0;
    while limiter.pace(now, 1_000).is_none() {
        sent += 1_000u128;
    }
    // A byte takes a microsecond.
    assert!(sent * 1_000 < MAX_CATCH_UP + MIN_SLEEP);
    assert_eq!(sent, 51_000);
}

#[test]
fn test_order_does_not_matter() {
    let mut a = RateLimiter::new(0, 8_000_000);
    let mut b = RateLimiter::new(0, 8_000_000);
    for bytes in [100, 2_000, 30] {
        a.pace(0, bytes);
    }
    for bytes in [30, 100, 2_000] {
        b.pace(0, bytes);
    }
    assert_eq!(a.pace(0, 1_000), Some(3_130_000));
    assert_eq!(b.pace(0, 1_000), Some(3_130_000));
}

#[test]
fn test_set_rate_restarts() {
    let mut limiter = RateLimiter::new(0, 8);
    assert_eq!(limiter.pace(0, 10), Some(10_000 * MS));
    limiter.set_rate(3 * MS, 8_000_000);
    assert_eq!(limiter.pace(3 * MS, 2_000), Some(2 * MS));
    limiter.set_rate(4 * MS, 8_000_000);
    assert_eq!(limiter.pace(4 * MS, 1_999), None);
}

#[test]
fn test_end_of_time() {
    let limiter = RateLimiter::new(u128::MAX - 2, 8_000_000);
    assert!(limiter.can_pace(u128::MAX, 0));
    assert!(!limiter.can_pace(u128::MAX, 1));
    let mut limiter = RateLimiter::new(u128::MAX - 1_000, 8_000_000);
    assert!(limiter.can_pace(u128::MAX, 1));
    assert!(!limiter.can_pace(u128::MAX, 2));
    assert_eq!(limiter.pace(u128::MAX, 1), None);
    assert!(!limiter.can_pace(u128::MAX, 1));
}

#[test]
fn test_new_state() {
    let state = BandwidthState::new();
    assert_eq!(state.tx_bytes, 0);
    assert_eq!(state.rx_bytes, 0);
    assert_eq!(state.tx_speed, 0);
    assert!(!state.tx_speed_changed);
    assert!(state.running);
    assert_eq!(state.rx_packets, 0);
    assert_eq!(state.rx_lost_packets, 0);
    assert_eq!(state.last_udp_seq, 0);
    assert_eq!(state.remote_cpu, 0);
    assert_eq!(state.byte_budget, UNLIMITED);
    assert_eq!(state.summary(), (0, 0, 0, 0));
}

#[test]
fn test_totals() {
    let mut state = BandwidthState::new();
    state.record_interval(100, 200, 3);
    state.record_interval(10, 20, 0);
    assert_eq!(state.summary(), (110, 220, 3, 2));
    state.tx_bytes = 7;
    assert_eq!(state.summary(), (110, 220, 3, 2));
    state.record_interval(u64::MAX, u64::MAX - 219, u64::MAX);
    assert_eq!(state.summary(), (109, 0, 2, 3));
    assert_eq!(state.tx_bytes, 7);
    state.intervals = u32::MAX;
    state.record_interval(0, 0, 0);
    assert_eq!(state.summary(), (109, 0, 2, 0));
}

#[test]
fn test_budget() {
    let mut state = BandwidthState::new();
    state.set_budget(1_000);
    state.record_interval(1, 2, 3);
    assert!(state.spend_budget(600));
    assert_eq!(state.byte_budget, 400);
    assert!(!state.spend_budget(401));
    assert_eq!(state.byte_budget, 400);
    assert!(!state.running);
    assert!(state.spend_budget(400));
    assert_eq!(state.byte_budget, 0);
    assert!(!state.running);
    assert_eq!(state.summary(), (1, 2, 3, 1));
}

#[test]
fn test_empty_budget_stops_immediately() {
    let mut state = BandwidthState::new();
    state.set_budget(100);
    assert!(state.spend_budget(99));
    assert!(state.running);
    assert!(state.spend_budget(0));
    assert!(state.running);
    assert!(state.spend_budget(1));
    assert_eq!(state.byte_budget, 0);
    assert!(!state.running);
    assert!(state.spend_budget(0));
    assert!(!state.spend_budget(1));
    assert!(!state.running);
    assert_eq!(state.byte_budget, 0);

    let mut state = BandwidthState::new();
    state.set_budget(100);
    assert!(state.spend_budget(100));
    assert_eq!(state.byte_budget, 0);
    assert!(!state.running);
}

#[test]
fn test_unlimited_budget() {
    let mut state = BandwidthState::new();
    for _ in 0..3 {
        assert!(state.spend_budget(u64::MAX));
        assert!(state.spend_budget(1));
    }
    assert_eq!(state.byte_budget, UNLIMITED);
    assert!(state.running);
    state.set_budget(u64::MAX - 1);
    assert!(!state.spend_budget(u64::MAX));
    assert!(!state.running);
}

#[test]
fn test_budget_is_conserved() {
    let mut state = BandwidthState::new();
    state.set_budget(10_000);
    let mut allowed = 0;
    for amount in (1..300).rev() {
        if state.spend_budget(amount) {
            allowed += amount;
        }
        assert_eq!(allowed + state.byte_budget, 10_000);
    }
}
