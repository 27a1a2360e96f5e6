//! Bandwidth texts and status lines.

use btest_rs::double::Double;
use btest_rs::report::{format_bandwidth, status_line, status_line_with_cpu};

fn double(x: f64) -> Double {
    Double { bits: x.to_bits() }
}

fn text(x: f64) -> String {
    format_bandwidth(double(x))
}

/// What formatting a bandwidth comes to in floating point.
fn in_floating_point(x: f64) -> String {
    if x >= 1_000_000_000.0 {
        format!("{:.2} Gbps", x / 1_000_000_000.0)
    } else if x >= 1_000_000.0 {
        format!("{:.2} Mbps", x / 1_000_000.0)
    } else if x >= 1_000.0 {
        format!("{:.2} Kbps", x / 1_000.0)
    } else {
        format!("{:.0} bps", x)
    }
}

/// The bandwidth of a status line, in floating point.
fn rate_in_floating_point(bytes: u64, seconds: f64) -> String {
    let bits = bytes as f64 * 8.0;
    in_floating_point(if seconds > 0.0 { bits / seconds } else { 0.0 })
}

/// A linear congruential generator.
struct Numbers(u64);

impl Numbers {
    fn next(&mut self) -> u64 {
        self.0 = self.0.wrapping_mul(6364136223846793005).wrapping_add(1442695040888963407);
        let high = self.0 >> 32;
        self.0 = self.0.wrapping_mul(6364136223846793005).wrapping_add(1442695040888963407);
        high << 32 | self.0 >> 32
    }
}

#[test]
fn test_format_bandwidth() {
    assert_eq!(text(100_000_000.0), "100.00 Mbps");
    assert_eq!(text(1_500_000_000.0), "1.50 Gbps");
    assert_eq!(text(500_000.0), "500.00 Kbps");
}

#[test]
fn test_format_boundaries() {
    assert_eq!(text(0.0), "0 bps");
    assert_eq!(text(999.0), "999 bps");
    assert_eq!(text(999.9), "1000 bps");
    assert_eq!(text(1_000.0), "1.00 Kbps");
    assert_eq!(text(999_999.0), "1000.00 Kbps");
    assert_eq!(text(1_000_000.0), "1.00 Mbps");
    assert_eq!(text(1_000_000_000.0), "1.00 Gbps");
    assert_eq!(text(12_345_678_901_234.0), "12345.68 Gbps");
}

#[test]
fn test_format_ties_go_to_even() {
    assert_eq!(text(0.5), "0 bps");
    assert_eq!(text(1.5), "2 bps");
    assert_eq!(text(2.5), "2 bps");
    assert_eq!(text(1_125.0), "1.12 Kbps");
    assert_eq!(text(1_375.0), "1.38 Kbps");
}

#[test]
fn test_format_special_values() {
    for x in [
        0.0, -0.0, -0.4, -1.0, -1e300, 1e300, f64::MAX, f64::MIN, f64::MIN_POSITIVE, 5e-324, -5e-324,
        f64::INFINITY, f64::NEG_INFINITY, f64::NAN,
    ] {
        assert_eq!(text(x), in_floating_point(x));
    }
    assert_eq!(text(f64::NAN), "NaN bps");
    assert_eq!(text(f64::INFINITY), "inf Gbps");
    assert_eq!(text(f64::NEG_INFINITY), "-inf bps");
    assert_eq!(text(-0.0), "-0 bps");
}

#[test]
fn test_format_agrees_with_floating_point() {
    let mut numbers = Numbers(1);
    for _ in 0..3_000 {
        let x = f64::from_bits(numbers.next());
        assert_eq!(text(x), in_floating_point(x), "{:e}", x);
    }
    for _ in 0..60_000 {
        let shift = 20 + numbers.next() % 44;
        let x = (numbers.next() >> shift) as f64 / 16.0;
        assert_eq!(text(x), in_floating_point(x), "{:e}", x);
        let x = numbers.next() as f64 / (numbers.next() >> (numbers.next() % 50)) as f64;
        assert_eq!(text(x), in_floating_point(x), "{:e}", x);
    }
}

#[test]
fn test_whole_multiples() {
    for n in [1u64, 2, 9, 10, 99, 100, 999] {
        assert_eq!(text(n as f64 * 1e9), format!("{}.00 Gbps", n));
        assert_eq!(text(n as f64 * 1e6), format!("{}.00 Mbps", n));
        assert_eq!(text(n as f64 * 1e3), format!("{}.00 Kbps", n));
        assert_eq!(text(n as f64), format!("{} bps", n));
    }
}

#[test]
fn test_status_line() {
    assert_eq!(
        status_line(false, 1, "TX", 12_500_000, double(1.0), None).unwrap(),
        "[   1]  TX  100.00 Mbps (12500000 bytes)"
    );
    assert_eq!(
        status_line(false, 12345, "BOTH", 1_000, double(2.0), Some(7)).unwrap(),
        "[12345] BOTH  4.00 Kbps (1000 bytes)  lost: 7"
    );
    assert_eq!(
        status_line(false, 9999, "RX", 0, double(0.0), Some(0)).unwrap(),
        "[9999]  RX  0 bps (0 bytes)"
    );
    assert_eq!(
        status_line(false, 0, "\u{e9}", 1, double(1.0), None).unwrap(),
        "[   0]   \u{e9}  8 bps (1 bytes)"
    );
}

#[test]
fn test_status_line_with_cpu() {
    let line = |local, remote| {
        status_line_with_cpu(false, 2, "RX", 125, double(1.0), Some(1), local, remote).unwrap()
    };
    let plain = "[   2]  RX  1.00 Kbps (125 bytes)  lost: 1";
    assert_eq!(line(None, None), plain);
    assert_eq!(line(None, Some(99)), plain);
    assert_eq!(line(Some(70), None), format!("{}  cpu: 70%", plain));
    assert_eq!(line(Some(71), None), format!("{}  cpu: 71% !", plain));
    assert_eq!(line(Some(5), Some(70)), format!("{}  cpu: 5%/70%", plain));
    assert_eq!(line(Some(5), Some(71)), format!("{}  cpu: 5%/71% !", plain));
    assert_eq!(line(Some(100), Some(0)), format!("{}  cpu: 100%/0% !", plain));
}

#[test]
fn test_quiet() {
    assert_eq!(status_line(true, 1, "TX", 1, double(1.0), None), None);
    assert_eq!(status_line_with_cpu(true, 1, "TX", 1, double(1.0), None, Some(1), None), None);
}

#[test]
fn test_status_rate_agrees_with_floating_point() {
    let mut numbers = Numbers(2);
    let check = |bytes: u64, seconds: f64| {
        let expected = format!(
            "[{:4}] {:>3}  {} ({} bytes)",
            3,
            "TX",
            rate_in_floating_point(bytes, seconds),
            bytes
        );
        let got = status_line(false, 3, "TX", bytes, double(seconds), None).unwrap();
        assert_eq!(got, expected, "{} {:e}", bytes, seconds);
    };
    for bytes in [0, 1, 3, 1_500, (1 << 53) + 1, u64::MAX] {
        for seconds in [
            0.0, -0.0, -1.0, 1.0, 1e-9, 0.1, 1.0 / 3.0, 5e-324, f64::MIN_POSITIVE, 1e-290, 1e300,
            f64::MAX, f64::INFINITY, f64::NEG_INFINITY, f64::NAN,
        ] {
            check(bytes, seconds);
        }
    }
    for _ in 0..2_000 {
        let bytes = numbers.next() >> (numbers.next() % 64);
        check(bytes, f64::from_bits(numbers.next()));
    }
    for _ in 0..40_000 {
        let bytes = numbers.next() >> (numbers.next() % 64);
        let elapsed = std::time::Duration::new(
            numbers.next() >> (32 + numbers.next() % 32),
            (numbers.next() % 1_000_000_000) as u32,
        );
        check(bytes, elapsed.as_secs_f64());
    }
}

#[test]
fn test_even_rates_are_exact() {
    assert_eq!(
        status_line(false, 1, "TX", 3_000_000_000, double(8.0), None).unwrap(),
        "[   1]  TX  3.00 Gbps (3000000000 bytes)"
    );
    assert_eq!(
        status_line(false, 1, "TX", 875, double(7.0), None).unwrap(),
        "[   1]  TX  1.00 Kbps (875 bytes)"
    );
}
