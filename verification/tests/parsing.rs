//! Reading bandwidths.

use btest_rs::parse::{parse_bandwidth, BandwidthError, NumberError};

/// What reading a bandwidth comes to in floating point.
fn in_floating_point(s: &str) -> Result<u32, String> {
    let s = s.trim();
    if s.is_empty() {
        return Err("Empty bandwidth string".to_string());
    }
    let (number, factor) = match s.chars().last() {
        Some('G' | 'g') => (&s[..s.len() - 1], 1_000_000_000u64),
        Some('M' | 'm') => (&s[..s.len() - 1], 1_000_000u64),
        Some('K' | 'k') => (&s[..s.len() - 1], 1_000u64),
        _ => (s, 1u64),
    };
    let value: f64 = match number.parse() {
        Ok(value) => value,
        Err(e) => {
            let e: std::num::ParseFloatError = e;
            return Err(format!("Invalid bandwidth number '{}': {}", number, e));
        }
    };
    let result = (value * factor as f64) as u64;
    if result > u32::MAX as u64 {
        Err(format!("Bandwidth {} exceeds maximum (4 Gbps)", s))
    } else {
        Ok(result as u32)
    }
}

fn same(s: &str) {
    let got = parse_bandwidth(s).map_err(|e| e.message());
    assert_eq!(got, in_floating_point(s), "{:?}", s);
}

/// A linear congruential generator.
struct Numbers(u64);

impl Numbers {
    fn below(&mut self, n: u64) -> u64 {
        self.0 = self.0.wrapping_mul(6364136223846793005).wrapping_add(1442695040888963407);
        (self.0 >> 33) % n
    }

    fn digits(&mut self, n: u64) -> String {
        let mut s = String::new();
        for _ in 0..n {
            s.push((b'0' + self.below(10) as u8) as char);
        }
        s
    }
}

const SUFFIXES: [&str; 7] = ["", "G", "g", "M", "m", "K", "k"];

#[test]
fn test_parse_bandwidth() {
    assert_eq!(parse_bandwidth("100M").unwrap(), 100_000_000);
    assert_eq!(parse_bandwidth("1G").unwrap(), 1_000_000_000);
    assert_eq!(parse_bandwidth("500K").unwrap(), 500_000);
    assert_eq!(parse_bandwidth("1000000").unwrap(), 1_000_000);
    assert_eq!(parse_bandwidth("1.5M").unwrap(), 1_500_000);
}

#[test]
fn test_lower_case_suffixes() {
    assert_eq!(parse_bandwidth("100m").unwrap(), 100_000_000);
    assert_eq!(parse_bandwidth("1g").unwrap(), 1_000_000_000);
    assert_eq!(parse_bandwidth("500k").unwrap(), 500_000);
}

#[test]
fn test_doubles_are_rounded_twice() {
    // 1.001 times 1000 is a little less than 1001 in doubles.
    assert_eq!(parse_bandwidth("1.001K").unwrap(), 1000);
    assert_eq!(parse_bandwidth("1001").unwrap(), 1001);
    assert_eq!(parse_bandwidth("4.35K").unwrap(), 4350);
}

#[test]
fn test_largest_bandwidth() {
    assert_eq!(parse_bandwidth("4294967295").unwrap(), u32::MAX);
    assert_eq!(parse_bandwidth("4.294967295G").unwrap(), u32::MAX);
    assert_eq!(parse_bandwidth("4294967295.999").unwrap(), u32::MAX);
    let e = parse_bandwidth("4294967296").unwrap_err();
    assert_eq!(e.message(), "Bandwidth 4294967296 exceeds maximum (4 Gbps)");
    assert!(matches!(parse_bandwidth("4294967295.99999999999"), Err(BandwidthError::TooLarge { .. })));
}

#[test]
fn test_too_large() {
    let e = parse_bandwidth("  5G ").unwrap_err();
    assert_eq!(e.message(), "Bandwidth 5G exceeds maximum (4 Gbps)");
    assert!(matches!(e, BandwidthError::TooLarge { text } if text == "5G"));
    assert!(matches!(parse_bandwidth("inf"), Err(BandwidthError::TooLarge { .. })));
    assert!(matches!(parse_bandwidth("1e999"), Err(BandwidthError::TooLarge { .. })));
}

#[test]
fn test_empty() {
    for s in ["", " ", "\t\n", "\u{2003}"] {
        let e = parse_bandwidth(s).unwrap_err();
        assert_eq!(e.message(), "Empty bandwidth string");
        assert!(matches!(e, BandwidthError::Empty));
    }
}

#[test]
fn test_suffix_without_number() {
    let e = parse_bandwidth("M").unwrap_err();
    assert_eq!(
        e.message(),
        "Invalid bandwidth number '': cannot parse float from empty string"
    );
    assert!(
        matches!(e, BandwidthError::InvalidNumber { number, reason: NumberError::Empty } if number.is_empty())
    );
}

#[test]
fn test_invalid_number() {
    let e = parse_bandwidth("fastM").unwrap_err();
    assert_eq!(e.message(), "Invalid bandwidth number 'fast': invalid float literal");
    assert!(
        matches!(e, BandwidthError::InvalidNumber { number, reason: NumberError::Invalid } if number == "fast")
    );
    for s in [".", "+", "-", "1e", "1e+", "e5", "1.2.3", "1_000", "0x10", "--1", "1 M", "1MM", "\u{661}"] {
        assert!(
            matches!(
                parse_bandwidth(s),
                Err(BandwidthError::InvalidNumber { reason: NumberError::Invalid, .. })
            ),
            "{}",
            s
        );
    }
}

#[test]
fn test_what_is_not_positive_is_zero() {
    for s in ["0", "-0", "-5M", "-inf", "nan", "-NaN", "0.0000000001K", "-1e999", "1e-999G"] {
        assert_eq!(parse_bandwidth(s).unwrap(), 0, "{}", s);
    }
}

#[test]
fn test_white_space_is_trimmed() {
    assert_eq!(parse_bandwidth("  10M\n").unwrap(), 10_000_000);
    for code in 0..0x11_0000u32 {
        if let Some(c) = char::from_u32(code) {
            let text = format!("{}7{}", c, c);
            let reads_as_seven = matches!(parse_bandwidth(&text), Ok(7));
            assert_eq!(reads_as_seven, c.is_whitespace(), "{:x}", code);
        }
    }
}

#[test]
fn test_whole_numbers_are_exact() {
    let mut numbers = Numbers(1);
    for _ in 0..20_000 {
        let bits = numbers.below(33);
        let n = numbers.below(1 << 31) * 2 % (1 << bits).max(1);
        for (suffix, factor) in [("", 1u64), ("K", 1_000), ("M", 1_000_000), ("G", 1_000_000_000)] {
            let got = parse_bandwidth(&format!("{}{}", n, suffix));
            if n * factor <= u32::MAX as u64 {
                assert_eq!(got.unwrap() as u64, n * factor);
            } else {
                assert!(got.is_err());
            }
        }
    }
}

#[test]
fn test_decimals_are_within_one_of_exact() {
    for whole in 0..1_000u64 {
        for part in (0..1_000u64).step_by(7) {
            let got = parse_bandwidth(&format!("{}.{:03}K", whole, part)).unwrap() as u64;
            assert!(got.abs_diff(1_000 * whole + part) <= 1);
        }
    }
}

#[test]
fn test_grammar_agrees_with_floating_point() {
    for number in [
        "", ".", "1", "1.", ".5", "0.5", "00012.500", "+3", "-3", "+-3", "1e3", "1E3", "1e+3", "1e-3",
        "1e", "1e-", "e", "1.5e2", ".5e1", "5.e1", ".e1", "inf", "+inf", "-inf", "Infinity",
        "INFINITY", "infinit", "nan", "NaN", "nano", "1e400", "1e-400", "1f", "1.0f", "0x1", "1,5",
        "1e1.5", "1e99999999999999999999999999999999999999999", "0e99999999999999999999999999999",
        "1e-99999999999999999999999999999999999999999", "4294967295.9999995", "4294967295.9999998",
        "0.29", "1.1", "2.675", "\u{ff11}", "1\u{0}",
    ] {
        for suffix in SUFFIXES {
            same(&format!("{}{}", number, suffix));
            same(&format!(" {}{}\t", number, suffix));
        }
    }
}

#[test]
fn test_decimals_agree_with_floating_point() {
    let mut numbers = Numbers(2);
    for _ in 0..40_000 {
        let mut s = String::new();
        if numbers.below(20) == 0 {
            s.push(if numbers.below(2) == 0 { '+' } else { '-' });
        }
        let whole = numbers.below(12);
        s.push_str(&numbers.digits(whole));
        if numbers.below(4) != 0 {
            s.push('.');
            let part = numbers.below(25);
            s.push_str(&numbers.digits(part));
        }
        if numbers.below(3) == 0 {
            s.push('e');
            if numbers.below(2) == 0 {
                s.push('-');
            }
            s.push_str(&numbers.below(25).to_string());
        }
        s.push_str(SUFFIXES[numbers.below(7) as usize]);
        same(&s);
    }
}

#[test]
fn test_short_decimals_agree_with_floating_point() {
    for whole in 0..40 {
        for part in 0..1000 {
            for suffix in ["K", "M", "G"] {
                same(&format!("{}.{:03}{}", whole, part, suffix));
            }
        }
    }
}

#[test]
fn test_ties_agree_with_floating_point() {
    // Halfway between two doubles, and a digit far behind that breaks the tie.
    for tie in ["1.00000000000000011102230246251565404236316680908203125", "4503599627370496.5", "0.1"] {
        for suffix in SUFFIXES {
            same(&format!("{}{}", tie, suffix));
            same(&format!("{}{}1{}", tie, "0".repeat(400), suffix));
            same(&format!("{}{}1{}", tie, "0".repeat(900), suffix));
            same(&format!("{}e-6{}", tie, suffix));
        }
    }
    let mut numbers = Numbers(3);
    for _ in 0..2_000 {
        // A whole number plus a dyadic fraction of 53 to 60 bits in all.
        let whole = numbers.below(1 << 31);
        let bits = 22 + numbers.below(8);
        let fraction = numbers.below(1 << 30) | 1;
        let mut digits = String::new();
        let mut rest = fraction as u128 % (1u128 << bits);
        for _ in 0..bits {
            rest *= 10;
            digits.push((b'0' + (rest >> bits) as u8) as char);
            rest %= 1u128 << bits;
        }
        for suffix in ["", "K", "M"] {
            same(&format!("{}.{}{}", whole, digits, suffix));
            same(&format!("{}.{}e-4{}", whole, digits, suffix));
        }
    }
}

#[test]
fn test_long_texts_agree_with_floating_point() {
    let zeros = "0".repeat(5_000);
    same(&format!("0.{}1", zeros));
    same(&format!("0.{}1e5001", zeros));
    same(&format!("0.{}15e5003K", zeros));
    same(&format!("{}7", zeros));
    same(&format!("1{}", zeros));
    same(&format!("25{}e-5000", zeros));
    same(&format!("25{}e-4995M", zeros));
    same(&format!("1.{}1G", "9".repeat(3_000)));
    same(&format!("0.{}", "9".repeat(3_000)));
}

#[test]
fn test_long_exponents_agree_with_floating_point() {
    // Enough zeros behind the point, or in front of it, to make up for the exponent.
    let behind = |n: usize, digits: &str, exp: &str| format!("0.{}{}e{}", "0".repeat(n), digits, exp);
    let in_front = |n: usize, digits: &str, exp: &str| format!("{}{}e-{}", digits, "0".repeat(n), exp);
    // The exponent that a double is read with counts digits until it reaches 65536.
    for (exp, counted) in [
        ("65535", 65_535),
        ("65536", 65_536),
        ("655350", 655_350),
        ("655359", 655_359),
        ("655360", 65_536),
        ("999999", 99_999),
        ("6553599", 655_359),
        ("0000000000655350", 655_350),
        ("00655360", 65_536),
        ("123456789", 123_456),
        ("99999999999999999999999999", 99_999),
    ] {
        for digits in ["1", "25", "4294967296", "12345678901234567890123456789", "9007199254740993000000000000000000001"] {
            for shift in [0usize, 1, 4, 9, 12] {
                same(&behind(counted - shift, digits, exp));
                same(&in_front(counted - shift, digits, exp));
                same(&format!("{}K", behind(counted - shift, digits, exp)));
            }
        }
    }
}
