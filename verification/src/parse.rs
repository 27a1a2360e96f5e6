//! Reading a bandwidth from text.

use crate::decimal::{
    all_digits, decimal, double_digits, is_zero, lemma_number_bound, lemma_number_leading,
    lemma_number_push, lemma_number_split, lemma_pow10_adds, lemma_pow10_first,
    lemma_pow10_unfold, number, pow10,
};
use crate::double::{
    distance, law_nearest_error, lemma_nearest_at_least, lemma_nearest_at_most,
    lemma_nearest_exact, lemma_pow2_zero, nearest, one, overflow, Magnitude, FRACTION_BITS,
    HIDDEN_BIT, SIGNIFICANDS, UNIT_BITS,
};
use vstd::arithmetic::power2::{
    lemma2_to64, lemma2_to64_rest, lemma_pow2_adds, lemma_pow2_pos, lemma_pow2_strictly_increases,
    lemma_pow2_unfold, pow2,
};
use vstd::prelude::*;
use vstd::string::{StrSliceExecFns, StringExecFns};

verus! {

/// Whether a character has the Unicode property `White_Space`.
pub open spec fn is_white_space(c: char) -> bool {
    ||| '\u{9}' <= c <= '\u{d}'
    ||| c == ' '
    ||| c == '\u{85}'
    ||| c == '\u{a0}'
    ||| c == '\u{1680}'
    ||| '\u{2000}' <= c <= '\u{200a}'
    ||| c == '\u{2028}'
    ||| c == '\u{2029}'
    ||| c == '\u{202f}'
    ||| c == '\u{205f}'
    ||| c == '\u{3000}'
}

/// A text without the white space at its ends.
pub open spec fn trimmed(s: Seq<char>) -> Seq<char>
    decreases s.len(),
{
    if s.len() > 0 && is_white_space(s.first()) {
        trimmed(s.drop_first())
    } else if s.len() > 0 && is_white_space(s.last()) {
        trimmed(s.drop_last())
    } else {
        s
    }
}

/// The standard library's `str::trim` takes the leading and the trailing
/// characters with the property `White_Space` away, and nothing else.
pub assume_specification<'a>[ str::trim ](s: &'a str) -> (res: &'a str)
    ensures
        res@ == trimmed(s@),
;

/// What a suffix multiplies a number by; one where it is none.
pub open spec fn multiplier(c: char) -> nat {
    if c == 'G' || c == 'g' {
        1_000_000_000
    } else if c == 'M' || c == 'm' {
        1_000_000
    } else if c == 'K' || c == 'k' {
        1_000
    } else {
        1
    }
}

/// Whether a character is a decimal digit.
pub open spec fn is_digit(c: char) -> bool {
    '0' <= c <= '9'
}

/// Whether all characters are decimal digits.
pub open spec fn are_digits(s: Seq<char>) -> bool {
    forall|i: int| 0 <= i < s.len() ==> is_digit(#[trigger] s[i])
}

/// The number that a text of digits stands for.
pub open spec fn digits_value(s: Seq<char>) -> nat
    decreases s.len(),
{
    if s.len() == 0 {
        0
    } else {
        10 * digits_value(s.drop_last()) + (s.last() as nat - '0' as nat) as nat
    }
}

/// How many digits a text starts with.
pub open spec fn leading_digits(s: Seq<char>) -> nat
    decreases s.len(),
{
    if s.len() > 0 && is_digit(s.first()) {
        1 + leading_digits(s.drop_first())
    } else {
        0
    }
}

/// A text without the sign in front, and whether that is a minus.
pub open spec fn unsigned(s: Seq<char>) -> (bool, Seq<char>) {
    if s.len() > 0 && (s.first() == '-' || s.first() == '+') {
        (s.first() == '-', s.drop_first())
    } else {
        (false, s)
    }
}

/// The size from which on further digits of an exponent no longer count.
pub const EXPONENT_LIMIT: u32 = 0x1_0000;

/// The size of an exponent, from its digits, as the standard library reads it for a
/// double: digits count until the size reaches [`EXPONENT_LIMIT`].
pub open spec fn exponent_value(s: Seq<char>) -> nat
    decreases s.len(),
{
    if s.len() == 0 {
        0
    } else {
        let front = exponent_value(s.drop_last());
        if front < EXPONENT_LIMIT {
            10 * front + (s.last() as nat - '0' as nat) as nat
        } else {
            front
        }
    }
}

/// The exponent that follows the digits of a number: `e`, a sign where there is
/// one, and digits; or nothing, for zero.
pub open spec fn exponent(s: Seq<char>) -> Option<int> {
    if s.len() == 0 {
        Some(0)
    } else if s.first() == 'e' || s.first() == 'E' {
        let (negative, ds) = unsigned(s.drop_first());
        if ds.len() == 0 || !are_digits(ds) {
            None
        } else if negative {
            Some(-exponent_value(ds))
        } else {
            Some(exponent_value(ds) as int)
        }
    } else {
        None
    }
}

/// The digits in front of the point and behind it, and what follows them.
pub open spec fn split_digits(s: Seq<char>) -> (Seq<char>, Seq<char>, Seq<char>) {
    let whole = leading_digits(s) as int;
    let rest = s.skip(whole);
    if rest.len() > 0 && rest.first() == '.' {
        let part = leading_digits(rest.drop_first()) as int;
        (s.take(whole), rest.drop_first().take(part), rest.drop_first().skip(part))
    } else {
        (s.take(whole), Seq::empty(), rest)
    }
}

/// An unsigned decimal number, as a whole number and the power of ten that it is
/// multiplied by: digits with an optional point among or beside them, then an
/// optional exponent.
pub open spec fn plain(s: Seq<char>) -> Option<(nat, int)> {
    let (whole, part, tail) = split_digits(s);
    if whole.len() + part.len() == 0 {
        None
    } else {
        match exponent(tail) {
            Some(exp) => Some((digits_value(whole + part), exp - part.len())),
            None => None,
        }
    }
}

/// A character in lower case, as far as it is an ASCII letter.
pub open spec fn lower(c: char) -> char {
    if 'A' <= c <= 'Z' {
        (c as nat + 32) as char
    } else {
        c
    }
}

/// Whether a text is a word, in whatever case.
pub open spec fn is_word(s: Seq<char>, word: Seq<char>) -> bool {
    s.map_values(|c: char| lower(c)) == word
}

/// What a text of a number means.
pub enum Number {
    Nan,
    Infinite { negative: bool },
    /// `mantissa` times ten to the power of `scale`.
    Finite { negative: bool, mantissa: nat, scale: int },
}

/// The number that a text stands for: an optional sign, then a decimal number or
/// one of the words `nan`, `inf` and `infinity`.
pub open spec fn number_of(s: Seq<char>) -> Option<Number> {
    let (negative, body) = unsigned(s);
    if is_word(body, "nan"@) {
        Some(Number::Nan)
    } else if is_word(body, "inf"@) || is_word(body, "infinity"@) {
        Some(Number::Infinite { negative })
    } else {
        match plain(body) {
            Some((mantissa, scale)) => Some(Number::Finite { negative, mantissa, scale }),
            None => None,
        }
    }
}

/// The whole part of a number of units, limited to 64 bits.
pub open spec fn whole_part(units: nat) -> nat {
    if units / one() > u64::MAX {
        u64::MAX as nat
    } else {
        units / one()
    }
}

/// The double nearest to the quotient of two numbers, times a whole number, as a
/// double again, cut down to a whole number of 64 bits.
pub open spec fn scaled_quotient(num: nat, den: nat, factor: nat) -> nat {
    let double = nearest(num * one(), den);
    let product = nearest(double * factor, 1);
    if double >= overflow() || product >= overflow() {
        u64::MAX as nat
    } else {
        whole_part(product)
    }
}

/// A number times a whole number, as a whole number of 64 bits: not-a-number and
/// what is negative give zero.
pub open spec fn scaled(value: Number, factor: nat) -> nat {
    match value {
        Number::Nan => 0,
        Number::Infinite { negative } => if negative {
            0
        } else {
            u64::MAX as nat
        },
        Number::Finite { negative, mantissa, scale } => if negative {
            0
        } else if scale >= 0 {
            scaled_quotient(mantissa * pow10(scale as nat), 1, factor)
        } else {
            scaled_quotient(mantissa, pow10((-scale) as nat), factor)
        },
    }
}

/// Zero times anything is zero.
proof fn lemma_scaled_zero(den: nat, factor: nat)
    requires
        den > 0,
    ensures
        scaled_quotient(0, den, factor) == 0,
{
    lemma_nearest_exact(0, 0, den);
    lemma_nearest_exact(0, 0, 1);
    lemma_pow2_pos(UNIT_BITS as nat);
    lemma_pow2_pos(1024);
    let (u, v) = (one(), pow2(1024));
    assert(v * u > 0) by (nonlinear_arith)
        requires
            v > 0,
            u > 0,
    ;
    assert(0 * pow2(0) * den == 0) by (nonlinear_arith);
    assert(0 * pow2(0) * 1 == 0) by (nonlinear_arith);
    assert(0 * pow2(0) == 0) by (nonlinear_arith);
    assert(0 * one() == 0) by (nonlinear_arith);
    assert(0 * factor == 0) by (nonlinear_arith);
    assert(0nat / one() == 0) by (nonlinear_arith)
        requires
            one() > 0,
    ;
}

/// What is at most ten to the power of -10 stays below one, whatever the suffix.
proof fn lemma_scaled_tiny(num: nat, den: nat, factor: nat)
    requires
        den > 0,
        num * 10_000_000_000 <= den,
        factor <= 1_000_000_000,
    ensures
        scaled_quotient(num, den, factor) == 0,
{
    lemma2_to64();
    lemma2_to64_rest();
    lemma_pow2_pos(1041);
    lemma_pow2_adds(1041, 33);
    lemma_pow2_adds(1041, 30);
    lemma_pow2_adds(1071, 3);
    lemma_pow2_adds(1024, 1074);
    lemma_pow2_strictly_increases(1071, 1074);
    lemma_pow2_strictly_increases(1074, 2098);
    let p = pow2(1041);
    assert(num * (p * 0x2_0000_0000) <= den * p) by (nonlinear_arith)
        requires
            num * 10_000_000_000 <= den,
            p > 0,
    ;
    lemma_nearest_at_most(num * one(), den, 1041);
    let double = nearest(num * one(), den);
    assert(double * factor <= 1 * (p * 0x4000_0000)) by (nonlinear_arith)
        requires
            double <= p,
            factor <= 1_000_000_000,
    ;
    lemma_nearest_at_most(double * factor, 1, 1071);
    let product = nearest(double * factor, 1);
    vstd::arithmetic::div_mod::lemma_basic_div(product as int, one() as int);
}

/// What is at least ten to the power of 10 is beyond 32 bits, whatever the suffix.
proof fn lemma_scaled_huge(num: nat, den: nat, factor: nat)
    requires
        den > 0,
        num >= den * 10_000_000_000,
        factor >= 1,
    ensures
        scaled_quotient(num, den, factor) > u32::MAX,
{
    lemma2_to64();
    lemma2_to64_rest();
    lemma_pow2_pos(UNIT_BITS as nat);
    lemma_pow2_adds(33, UNIT_BITS as nat);
    let u = one();
    let p = pow2(1107);
    assert(num * u >= den * (0x2_0000_0000 * u)) by (nonlinear_arith)
        requires
            num >= den * 10_000_000_000,
            u > 0,
    ;
    lemma_nearest_at_least(num * u, den, 1107);
    let double = nearest(num * u, den);
    assert(double * factor >= 1 * p) by (nonlinear_arith)
        requires
            double >= p,
            factor >= 1,
    ;
    lemma_nearest_at_least(double * factor, 1, 1107);
    let product = nearest(double * factor, 1);
    assert(product / u >= 0x2_0000_0000) by (nonlinear_arith)
        requires
            product >= 0x2_0000_0000 * u,
            u > 0,
    ;
}

/// The digits behind the point, read as bits: the whole part of the fraction times
/// two to the power of [`FRACTION_BITS`], and whether something is left.
fn fraction_bits(fraction: Vec<u8>) -> (res: (u128, bool))
    requires
        all_digits(fraction@),
    ensures
        ({
            let den = pow10(fraction@.len());
            let whole = number(fraction@) * pow2(FRACTION_BITS as nat);
            &&& res.0 as nat * den <= whole < (res.0 as nat + 1) * den
            &&& res.1 == (whole != res.0 as nat * den)
            &&& res.0 < pow2(FRACTION_BITS as nat)
        }),
{
    let mut ds = fraction;
    let ghost value = number(ds@);
    let ghost den = pow10(ds@.len());
    let mut bits: u128 = 0;
    let mut i: u32 = 0;
    proof {
        lemma_pow2_zero();
        assert(value * pow2(0) == value);
        assert(0 * den == 0) by (nonlinear_arith);
    }
    while i < FRACTION_BITS
        invariant
            i <= FRACTION_BITS,
            all_digits(ds@),
            ds@.len() == fraction@.len(),
            den == pow10(fraction@.len()),
            value * pow2(i as nat) == bits as nat * den + number(ds@),
            bits < pow2(i as nat),
        decreases FRACTION_BITS - i,
    {
        let carry: u8 = double_digits(&mut ds);
        proof {
            lemma_pow2_unfold((i + 1) as nat);
            lemma_pow2_strictly_increases(i as nat, FRACTION_BITS as nat);
            lemma_two_to_90();
            let (p, b, c) = (pow2(i as nat), bits as nat, carry as nat);
            assert(value * (2 * p) == 2 * (value * p)) by (nonlinear_arith);
            assert(2 * (b * den) + c * den == (2 * b + c) * den) by (nonlinear_arith);
        }
        bits = 2 * bits + carry as u128;
        i = i + 1;
    }
    proof {
        lemma_number_bound(ds@);
        let b = bits as nat;
        assert((b + 1) * den == b * den + den) by (nonlinear_arith);
    }
    (bits, !is_zero(&ds))
}

/// Two to the power of 90.
proof fn lemma_two_to_90()
    ensures
        pow2(FRACTION_BITS as nat) == 0x4000000_0000_0000_0000_0000,
{
    lemma2_to64();
    lemma_pow2_adds(64, 26);
}

/// What the digits of a number come to: the quotient in [`scaled`], as the digits in
/// front of the point (`whole`) and behind it (`low` of them, and `pad` zeros).
proof fn lemma_digits_quotient(ds: Seq<u8>, n: int, pos: int, low: int, pad: int, whole: nat)
    requires
        all_digits(ds),
        0 < n <= ds.len(),
        ds[n - 1] != 0,
        -9 <= pos <= 10,
        low == (if pos <= 0 {
            n
        } else if pos < n {
            n - pos
        } else {
            0
        }),
        pad == (if pos < 0 {
            -pos
        } else {
            0
        }),
        whole == (if pos > n {
            number(ds.take(n)) * pow10((pos - n) as nat)
        } else {
            number(ds.subrange(low, n))
        }),
    ensures
        ({
            let mantissa = number(ds.take(n));
            let (num, den) = if pos >= n {
                (mantissa * pow10((pos - n) as nat), 1)
            } else {
                (mantissa, pow10((n - pos) as nat))
            };
            &&& den == pow10((low + pad) as nat)
            &&& den > 0
            &&& num == whole * den + number(ds.take(low))
            &&& num * 10_000_000_000 >= den
        }),
{
    let digits = ds.take(n);
    let mantissa = number(digits);
    lemma_pow10_first();
    lemma_pow10_tenth();
    lemma_number_leading(digits);
    lemma_pow10_unfold((n - 1) as nat);
    if pos >= n {
        assert(ds.take(low) =~= Seq::<u8>::empty());
        let p = pow10((pos - n) as nat);
        lemma_pow10_unfold((pos - n) as nat);
        if pos == n {
            assert(ds.subrange(low, n) =~= digits);
            assert(mantissa * p == mantissa) by (nonlinear_arith)
                requires
                    p == 1,
            ;
        }
        assert(mantissa * p >= 1) by (nonlinear_arith)
            requires
                mantissa >= 1,
                p >= 1,
        ;
    } else {
        let den = pow10((n - pos) as nat);
        lemma_pow10_unfold((n - pos) as nat);
        lemma_number_split(digits, low);
        assert(digits.take(low) =~= ds.take(low));
        assert(digits.skip(low) =~= ds.subrange(low, n));
        if pos <= 0 {
            assert(ds.subrange(low, n) =~= Seq::<u8>::empty());
            assert(0 * den == 0) by (nonlinear_arith);
            assert(pow10(low as nat) * 0 == 0) by (nonlinear_arith);
        } else {
            assert(pow10(low as nat) * whole == whole * den) by (nonlinear_arith)
                requires
                    den == pow10(low as nat),
            ;
        }
        // The first digit is among the first ten places behind the point.
        let (a, b) = ((n - 1) as nat, (9 + pos) as nat);
        lemma_pow10_adds((n - pos) as nat, b);
        lemma_pow10_adds(a, 10);
        assert((n - pos) as nat + b == a + 10);
        assert(den <= den * pow10(b)) by (nonlinear_arith)
            requires
                pow10(b) >= 1,
        ;
        assert(pow10(a) * 10_000_000_000 <= mantissa * 10_000_000_000) by (nonlinear_arith)
            requires
                pow10(a) <= mantissa,
        ;
    }
}

/// Ten to the power of 10.
proof fn lemma_pow10_tenth()
    ensures
        pow10(10) == 10_000_000_000,
        forall|i: nat| i <= 10 ==> #[trigger] pow10(i) <= 10_000_000_000,
{
    lemma_pow10_first();
    lemma_pow10_adds(3, 3);
    lemma_pow10_adds(6, 3);
    lemma_pow10_adds(9, 1);
    assert forall|i: nat| i <= 10 implies #[trigger] pow10(i) <= 10_000_000_000 by {
        let (p, q) = (pow10(i), pow10((10 - i) as nat));
        lemma_pow10_adds(i, (10 - i) as nat);
        assert(p <= p * q) by (nonlinear_arith)
            requires
                q >= 1,
        ;
    }
}

/// The digits in front of the point.
fn whole_digits(ds: &Vec<u8>, n: usize, pos: u32, low: usize) -> (whole: u64)
    requires
        all_digits(ds@),
        0 < n <= ds@.len(),
        pos <= 10,
        low == (if pos < n {
            n - pos
        } else {
            0
        }),
    ensures
        whole == (if pos > n {
            number(ds@.take(n as int)) * pow10((pos - n) as nat)
        } else {
            number(ds@.subrange(low as int, n as int))
        }),
        whole < 10_000_000_000,
{
    let mut whole: u64 = 0;
    let mut i: usize = n;
    proof {
        lemma_pow10_tenth();
        assert(ds@.subrange(n as int, n as int) =~= Seq::<u8>::empty());
    }
    while i > low
        invariant
            all_digits(ds@),
            low <= i <= n <= ds@.len(),
            n - low <= 10,
            whole == number(ds@.subrange(i as int, n as int)),
        decreases i,
    {
        i = i - 1;
        proof {
            let upper = ds@.subrange(i as int, n as int);
            assert(upper.drop_first() =~= ds@.subrange(i + 1, n as int));
            assert(upper[0] == ds@[i as int]);
            assert(all_digits(upper)) by {
                assert(forall|j: int| 0 <= j < upper.len() ==> upper[j] == #[trigger] ds@[i + j]);
            }
            lemma_number_bound(upper);
            lemma_pow10_tenth();
            assert(pow10(upper.len()) <= 10_000_000_000);
        }
        whole = 10 * whole + ds[i] as u64;
    }
    let mut j: usize = n;
    proof {
        let digits = ds@.take(n as int);
        assert(ds@.subrange(0, n as int) =~= digits);
        let upper = ds@.subrange(low as int, n as int);
        assert(all_digits(upper)) by {
            assert(forall|k: int| 0 <= k < upper.len() ==> upper[k] == #[trigger] ds@[low + k]);
        }
        lemma_number_bound(upper);
        assert(pow10(upper.len()) <= 10_000_000_000);
        lemma_pow10_first();
        assert(number(digits) * pow10(0) == number(digits)) by (nonlinear_arith)
            requires
                pow10(0) == 1,
        ;
        assert(all_digits(digits));
        lemma_number_bound(digits);
    }
    while j < pos as usize
        invariant
            pos <= 10,
            n <= j,
            j <= pos || j == n,
            j < pos ==> whole == number(ds@.take(n as int)) * pow10((j - n) as nat),
            pos > n ==> whole == number(ds@.take(n as int)) * pow10((j - n) as nat),
            pos <= n ==> whole == number(ds@.subrange(low as int, n as int)),
            whole < 10_000_000_000,
            n <= ds@.len(),
            number(ds@.take(n as int)) < pow10(n as nat),
        decreases pos - j,
    {
        proof {
            let k = (j - n) as nat;
            let m = number(ds@.take(n as int));
            lemma_pow10_unfold(k);
            let p = pow10(k);
            assert(10 * (m * p) == m * (10 * p)) by (nonlinear_arith);
            lemma_pow10_adds(n as nat, k + 1);
            lemma_pow10_tenth();
            assert(m * (10 * p) < pow10(n as nat) * (10 * p)) by (nonlinear_arith)
                requires
                    m < pow10(n as nat),
                    p > 0,
            ;
            assert(pow10(n as nat + (k + 1)) <= 10_000_000_000);
        }
        whole = 10 * whole;
        j = j + 1;
    }
    whole
}

/// The digits behind the point, with zeros in front of them.
fn fraction_digits(ds: &Vec<u8>, low: usize, pad: u32) -> (fraction: Vec<u8>)
    requires
        all_digits(ds@),
        low <= ds@.len(),
    ensures
        all_digits(fraction@),
        fraction@.len() == low + pad,
        number(fraction@) == number(ds@.take(low as int)),
{
    let mut fraction: Vec<u8> = Vec::new();
    let mut i: usize = 0;
    while i < low
        invariant
            all_digits(ds@),
            i <= low <= ds@.len(),
            fraction@ =~= ds@.take(i as int),
        decreases low - i,
    {
        fraction.push(ds[i]);
        i = i + 1;
    }
    let mut j: u32 = 0;
    while j < pad
        invariant
            j <= pad,
            all_digits(fraction@),
            fraction@.len() == low + j,
            number(fraction@) == number(ds@.take(low as int)),
        decreases pad - j,
    {
        proof {
            lemma_number_push(fraction@, 0);
            assert(0 * pow10(fraction@.len()) == 0) by (nonlinear_arith);
        }
        fraction.push(0);
        j = j + 1;
    }
    fraction
}

/// A decimal number times the factor of a suffix, as a whole number.  Beyond 32
/// bits, how large it is does not matter.
fn scale_digits(
    ds: &Vec<u8>,
    places: usize,
    exp: i32,
    factor: u32,
) -> (n: u64)
    requires
        all_digits(ds@),
        1 <= factor <= 1_000_000_000,
    ensures
        ({
            let value = Number::Finite {
                negative: false,
                mantissa: number(ds@),
                scale: exp - places,
            };
            let exact = scaled(value, factor as nat);
            n == exact || (n > u32::MAX && exact > u32::MAX)
        }),
{
    let ghost scale = exp - places;
    // Leading zeros do not count.
    let mut n: usize = ds.len();
    proof {
        assert(ds@.take(n as int) =~= ds@);
    }
    while n > 0 && ds[n - 1] == 0
        invariant
            n <= ds@.len(),
            number(ds@.take(n as int)) == number(ds@),
        decreases n,
    {
        proof {
            let shorter = ds@.take(n - 1);
            assert(ds@.take(n as int) =~= shorter.push(0));
            lemma_number_push(shorter, 0);
            assert(0 * pow10(shorter.len()) == 0) by (nonlinear_arith);
        }
        n = n - 1;
    }
    if n == 0 {
        proof {
            assert(ds@.take(0) =~= Seq::<u8>::empty());
            if scale >= 0 {
                assert(0 * pow10(scale as nat) == 0) by (nonlinear_arith);
                lemma_scaled_zero(1, factor as nat);
            } else {
                lemma_pow10_unfold((-scale) as nat);
                lemma_scaled_zero(pow10((-scale) as nat), factor as nat);
            }
        }
        return 0;
    }
    // The number of digits in front of the point.
    let pos: i128 = n as i128 + exp as i128 - places as i128;
    let ghost mantissa = number(ds@);
    proof {
        assert(all_digits(ds@.take(n as int)));
        lemma_number_bound(ds@.take(n as int));
        lemma_number_leading(ds@.take(n as int));
    }
    if pos > 10 {
        proof {
            lemma_pow10_tenth();
            if scale >= 0 {
                lemma_pow10_adds((n - 1) as nat, scale as nat);
                assert((n - 1) as nat + scale as nat == 10 + (pos - 11));
                lemma_pow10_adds(10, (pos - 11) as nat);
                let (a, p, q) = (pow10((n - 1) as nat), pow10(scale as nat), pow10(
                    (pos - 11) as nat,
                ));
                assert(mantissa * p >= 1 * 10_000_000_000) by (nonlinear_arith)
                    requires
                        mantissa >= a,
                        a * p == 10_000_000_000 * q,
                        q >= 1,
                ;
                lemma_scaled_huge(mantissa * p, 1, factor as nat);
            } else {
                let den = pow10((-scale) as nat);
                lemma_pow10_adds((-scale) as nat, (pos - 1) as nat);
                assert((-scale) as nat + (pos - 1) as nat == (n - 1) as nat);
                lemma_pow10_adds(10, (pos - 11) as nat);
                assert(10 + (pos - 11) as nat == (pos - 1) as nat);
                let q = pow10((pos - 11) as nat);
                assert(mantissa >= den * 10_000_000_000) by (nonlinear_arith)
                    requires
                        mantissa >= den * (10_000_000_000 * q),
                        q >= 1,
                ;
                lemma_scaled_huge(mantissa, den, factor as nat);
            }
        }
        return u64::MAX;
    }
    if pos < -9 {
        proof {
            let den = pow10((-scale) as nat);
            lemma_pow10_unfold((-scale) as nat);
            lemma_pow10_tenth();
            lemma_pow10_adds((n + 10) as nat, (-pos - 10) as nat);
            assert((n + 10) as nat + (-pos - 10) as nat == (-scale) as nat);
            lemma_pow10_adds(n as nat, 10);
            let (a, q) = (pow10(n as nat), pow10((-pos - 10) as nat));
            assert(mantissa * 10_000_000_000 <= den) by (nonlinear_arith)
                requires
                    mantissa <= a,
                    den == (a * 10_000_000_000) * q,
                    q >= 1,
            ;
            lemma_scaled_tiny(mantissa, den, factor as nat);
        }
        return 0;
    }
    proof {
        assert(scale == pos - n);
    }
    let in_front: u32 = if pos > 0 {
        pos as u32
    } else {
        0
    };
    let pad: u32 = if pos < 0 {
        (-pos) as u32
    } else {
        0
    };
    let low: usize = if (in_front as u128) < n as u128 {
        n - in_front as usize
    } else {
        0
    };
    let whole: u64 = whole_digits(ds, n, in_front, low);
    let fraction = fraction_digits(ds, low, pad);
    let ghost tail = number(fraction@);
    let ghost den = pow10(fraction@.len());
    let ghost num = if scale >= 0 {
        mantissa * pow10(scale as nat)
    } else {
        mantissa
    };
    proof {
        lemma_digits_quotient(ds@, n as int, pos as int, low as int, pad as int, whole as nat);
    }
    let (bits, inexact) = fraction_bits(fraction);
    proof {
        lemma_two_to_90();
        lemma_fixed_point(num, den, whole as nat, tail, bits as nat);
    }
    let fixed: u128 = whole as u128 * 0x4000000_0000_0000_0000_0000 + bits;
    let double = Magnitude::from_fixed_point(fixed, inexact, Ghost(num), Ghost(den));
    let product = double.times(factor);
    if double.overflows() || product.overflows() {
        u64::MAX
    } else {
        product.truncate()
    }
}

/// The digits in front of the point and the bits behind it, put together.
proof fn lemma_fixed_point(num: nat, den: nat, whole: nat, tail: nat, bits: nat)
    requires
        den > 0,
        num == whole * den + tail,
        num * 10_000_000_000 >= den,
        bits * den <= tail * pow2(FRACTION_BITS as nat) < (bits + 1) * den,
    ensures
        ({
            let fixed = whole * pow2(FRACTION_BITS as nat) + bits;
            let lifted = num * pow2(FRACTION_BITS as nat);
            &&& fixed * den <= lifted < (fixed + 1) * den
            &&& (fixed * den != lifted) == (bits * den != tail * pow2(FRACTION_BITS as nat))
            &&& fixed >= 2 * SIGNIFICANDS
        }),
{
    lemma_two_to_90();
    let p = pow2(FRACTION_BITS as nat);
    let fixed = whole * p + bits;
    let lifted = num * p;
    assert(lifted == (whole * p) * den + tail * p) by (nonlinear_arith)
        requires
            lifted == num * p,
            num == whole * den + tail,
    ;
    assert(fixed * den == (whole * p) * den + bits * den) by (nonlinear_arith)
        requires
            fixed == whole * p + bits,
    ;
    assert((fixed + 1) * den == (whole * p) * den + (bits + 1) * den) by (nonlinear_arith)
        requires
            fixed == whole * p + bits,
    ;
    assert(fixed + 1 > 2 * SIGNIFICANDS) by (nonlinear_arith)
        requires
            lifted < (fixed + 1) * den,
            lifted == num * p,
            num * 10_000_000_000 >= den,
            den > 0,
            p == 0x4000000_0000_0000_0000_0000,
            SIGNIFICANDS == 0x20_0000_0000_0000,
    ;
}

/// The characters of a text.
fn chars_of(s: &str) -> (cs: Vec<char>)
    ensures
        cs@ == s@,
{
    let mut cs: Vec<char> = Vec::new();
    for c in it: s.chars()
        invariant
            cs@ == it.seq().take(it.index() as int),
    {
        cs.push(c);
    }
    cs
}

/// One more digit in front.
proof fn lemma_digits_value_prepend(c: char, s: Seq<char>)
    ensures
        digits_value(seq![c] + s) == (c as nat - '0' as nat) as nat * pow10(s.len())
            + digits_value(s),
    decreases s.len(),
{
    let d = (c as nat - '0' as nat) as nat;
    lemma_pow10_first();
    if s.len() == 0 {
        assert((seq![c] + s).drop_last() =~= Seq::<char>::empty());
        assert(digits_value(Seq::<char>::empty()) == 0);
        assert((seq![c] + s).last() == c);
        assert(d * pow10(0) == d) by (nonlinear_arith)
            requires
                pow10(0) == 1,
        ;
    } else {
        let rest = s.drop_last();
        lemma_digits_value_prepend(c, rest);
        assert((seq![c] + s).drop_last() =~= seq![c] + rest);
        assert((seq![c] + s).last() == s.last());
        lemma_pow10_unfold(rest.len());
        let p = pow10(rest.len());
        assert(10 * (d * p) == d * (10 * p)) by (nonlinear_arith);
    }
}

/// The end of the digits that start at `from`.
fn count_digits(cs: &Vec<char>, from: usize) -> (end: usize)
    requires
        from <= cs@.len(),
    ensures
        from <= end <= cs@.len(),
        end - from == leading_digits(cs@.skip(from as int)),
        are_digits(cs@.subrange(from as int, end as int)),
{
    let mut end: usize = from;
    while end < cs.len() && '0' <= cs[end] && cs[end] <= '9'
        invariant
            from <= end <= cs@.len(),
            leading_digits(cs@.skip(from as int)) == end - from + leading_digits(
                cs@.skip(end as int),
            ),
            are_digits(cs@.subrange(from as int, end as int)),
        decreases cs@.len() - end,
    {
        proof {
            let rest = cs@.skip(end as int);
            assert(rest.first() == cs@[end as int]);
            assert(rest.drop_first() =~= cs@.skip(end + 1));
            assert(cs@.subrange(from as int, end + 1) =~= cs@.subrange(
                from as int,
                end as int,
            ).push(cs@[end as int]));
        }
        end = end + 1;
    }
    proof {
        if end < cs@.len() {
            assert(cs@.skip(end as int).first() == cs@[end as int]);
        }
    }
    end
}

/// Put the digits between two positions in front of those that are there.
fn prepend_digits(
    ds: &mut Vec<u8>,
    cs: &Vec<char>,
    from: usize,
    end: usize,
    Ghost(text): Ghost<Seq<char>>,
)
    requires
        from <= end <= cs@.len(),
        are_digits(cs@.subrange(from as int, end as int)),
        all_digits(old(ds)@),
        old(ds)@.len() == text.len(),
        number(old(ds)@) == digits_value(text),
    ensures
        all_digits(final(ds)@),
        final(ds)@.len() == end - from + text.len(),
        number(final(ds)@) == digits_value(cs@.subrange(from as int, end as int) + text),
{
    let mut i: usize = end;
    proof {
        assert(cs@.subrange(end as int, end as int) + text =~= text);
    }
    while i > from
        invariant
            from <= i <= end <= cs@.len(),
            are_digits(cs@.subrange(from as int, end as int)),
            all_digits(ds@),
            ds@.len() == end - i + text.len(),
            number(ds@) == digits_value(cs@.subrange(i as int, end as int) + text),
        decreases i,
    {
        let ghost rest = cs@.subrange(i as int, end as int) + text;
        i = i - 1;
        let c = cs[i];
        proof {
            assert(cs@.subrange(from as int, end as int)[i - from] == c);
            assert(is_digit(c));
        }
        let d: u8 = (c as u32 - '0' as u32) as u8;
        proof {
            assert(cs@.subrange(i as int, end as int) + text =~= seq![c] + rest);
            lemma_digits_value_prepend(c, rest);
            lemma_number_push(ds@, d);
        }
        ds.push(d);
    }
}

/// The executable counterpart of [`exponent_value`].
fn exponent_size(cs: &Vec<char>, from: usize) -> (size: u32)
    requires
        from <= cs@.len(),
        are_digits(cs@.skip(from as int)),
    ensures
        size == exponent_value(cs@.skip(from as int)),
        size < 10 * EXPONENT_LIMIT,
{
    let mut size: u32 = 0;
    let mut i: usize = from;
    proof {
        assert(cs@.subrange(from as int, from as int) =~= Seq::<char>::empty());
    }
    while i < cs.len()
        invariant
            from <= i <= cs@.len(),
            are_digits(cs@.skip(from as int)),
            size < 10 * EXPONENT_LIMIT,
            size == exponent_value(cs@.subrange(from as int, i as int)),
        decreases cs@.len() - i,
    {
        proof {
            assert(cs@.skip(from as int)[i - from] == cs@[i as int]);
            assert(is_digit(cs@[i as int]));
            let next = cs@.subrange(from as int, i + 1);
            assert(next.drop_last() =~= cs@.subrange(from as int, i as int));
            assert(next.last() == cs@[i as int]);
        }
        if size < EXPONENT_LIMIT {
            size = 10 * size + (cs[i] as u32 - '0' as u32);
        }
        i = i + 1;
    }
    proof {
        assert(cs@.subrange(from as int, i as int) =~= cs@.skip(from as int));
    }
    size
}

/// The executable counterpart of [`exponent`].
fn scan_exponent(cs: &Vec<char>, from: usize) -> (res: Option<i32>)
    requires
        from <= cs@.len(),
    ensures
        res is Some == exponent(cs@.skip(from as int)) is Some,
        res matches Some(exp) ==> exponent(cs@.skip(from as int)) == Some(exp as int),
{
    let ghost tail = cs@.skip(from as int);
    if from == cs.len() {
        return Some(0);
    }
    proof {
        assert(tail.first() == cs@[from as int]);
        assert(tail.drop_first() =~= cs@.skip(from + 1));
    }
    if cs[from] != 'e' && cs[from] != 'E' {
        return None;
    }
    let (negative, start) = skip_sign(cs, from + 1);
    let end = count_digits(cs, start);
    let ghost ds = cs@.skip(start as int);
    if start == cs.len() || end < cs.len() {
        proof {
            if end < cs@.len() {
                lemma_not_all_digits(ds);
            }
        }
        return None;
    }
    proof {
        assert(cs@.subrange(start as int, end as int) =~= ds);
    }
    let size: i32 = exponent_size(cs, start) as i32;
    if negative {
        Some(-size)
    } else {
        Some(size)
    }
}

/// A text with something behind its leading digits is not all digits.
proof fn lemma_not_all_digits(s: Seq<char>)
    requires
        leading_digits(s) < s.len(),
    ensures
        !are_digits(s),
    decreases s.len(),
{
    if is_digit(s.first()) {
        let rest = s.drop_first();
        lemma_not_all_digits(rest);
        let i = choose|i: int| 0 <= i < rest.len() && !is_digit(#[trigger] rest[i]);
        assert(s[i + 1] == rest[i]);
    } else {
        assert(!is_digit(s[0]));
    }
}

/// The executable counterpart of [`unsigned`].
fn skip_sign(cs: &Vec<char>, from: usize) -> (res: (bool, usize))
    requires
        from <= cs@.len(),
    ensures
        from <= res.1 <= cs@.len(),
        unsigned(cs@.skip(from as int)) == (res.0, cs@.skip(res.1 as int)),
{
    let ghost s = cs@.skip(from as int);
    if from < cs.len() {
        proof {
            assert(s.first() == cs@[from as int]);
            assert(s.drop_first() =~= cs@.skip(from + 1));
        }
        if cs[from] == '-' {
            return (true, from + 1);
        }
        if cs[from] == '+' {
            return (false, from + 1);
        }
    }
    (false, from)
}

/// The executable counterpart of [`is_word`].
fn matches_word(cs: &Vec<char>, from: usize, word: &str) -> (same: bool)
    requires
        from <= cs@.len(),
    ensures
        same == is_word(cs@.skip(from as int), word@),
{
    let ghost lowered = cs@.skip(from as int).map_values(|c: char| lower(c));
    let length: usize = word.unicode_len();
    if cs.len() - from != length {
        return false;
    }
    let mut i: usize = 0;
    while i < length
        invariant
            i <= length,
            length == word@.len(),
            length == cs.len() - from,
            lowered == cs@.skip(from as int).map_values(|c: char| lower(c)),
            forall|j: int| 0 <= j < i ==> lowered[j] == word@[j],
        decreases length - i,
    {
        let c = cs[from + i];
        let l = if 'A' <= c && c <= 'Z' {
            (c as u8 + 32) as char
        } else {
            c
        };
        proof {
            assert(lowered[i as int] == lower(c));
        }
        if l != word.get_char(i) {
            return false;
        }
        i = i + 1;
    }
    proof {
        assert(lowered =~= word@);
    }
    true
}

/// [`split_digits`], by the positions at which a text falls apart.
proof fn lemma_split_at(s: Seq<char>, from: int, point: int, start: int, end: int)
    requires
        0 <= from <= point <= s.len(),
        point - from == leading_digits(s.skip(from)),
        if point < s.len() && s[point] == '.' {
            start == point + 1 && start <= end <= s.len() && end - start == leading_digits(
                s.skip(start),
            )
        } else {
            start == point && end == point
        },
    ensures
        split_digits(s.skip(from)) == (
            s.subrange(from, point),
            s.subrange(start, end),
            s.skip(end),
        ),
{
    let body = s.skip(from);
    let rest = body.skip(point - from);
    let part = s.subrange(start, end);
    assert(rest =~= s.skip(point));
    assert(body.take(point - from) =~= s.subrange(from, point));
    if point < s.len() {
        assert(rest.first() == s[point]);
    }
    if point < s.len() && s[point] == '.' {
        assert(rest.drop_first() =~= s.skip(start));
        assert(rest.drop_first().take(end - start) =~= part);
        assert(rest.drop_first().skip(end - start) =~= s.skip(end));
    } else {
        assert(part =~= Seq::<char>::empty());
    }
}

/// Read a number and multiply it by the factor of a suffix.  Beyond 32 bits, how
/// large the result is does not matter.
#[verifier::spinoff_prover]
fn scan_number(cs: &Vec<char>, factor: u32) -> (res: Option<u64>)
    requires
        1 <= factor <= 1_000_000_000,
    ensures
        res is Some == number_of(cs@) is Some,
        res matches Some(n) ==> {
            let exact = scaled(number_of(cs@)->0, factor as nat);
            n == exact || (n > u32::MAX && exact > u32::MAX)
        },
{
    proof {
        assert(cs@.skip(0) =~= cs@);
    }
    let (negative, from) = skip_sign(cs, 0);
    let ghost body = cs@.skip(from as int);
    if matches_word(cs, from, "nan") {
        return Some(0);
    }
    if matches_word(cs, from, "inf") || matches_word(cs, from, "infinity") {
        return if negative {
            Some(0)
        } else {
            Some(u64::MAX)
        };
    }
    let point = count_digits(cs, from);
    let has_point = point < cs.len() && cs[point] == '.';
    let start = if has_point {
        point + 1
    } else {
        point
    };
    let end = if has_point {
        count_digits(cs, start)
    } else {
        point
    };
    let ghost whole = cs@.subrange(from as int, point as int);
    let ghost part = cs@.subrange(start as int, end as int);
    proof {
        lemma_split_at(cs@, from as int, point as int, start as int, end as int);
    }
    if point == from && end == start {
        return None;
    }
    match scan_exponent(cs, end) {
        None => None,
        Some(exp) => {
            if negative {
                return Some(0);
            }
            let mut ds: Vec<u8> = Vec::new();
            proof {
                assert(part + Seq::<char>::empty() =~= part);
            }
            prepend_digits(&mut ds, cs, start, end, Ghost(Seq::empty()));
            prepend_digits(&mut ds, cs, from, point, Ghost(part));
            Some(scale_digits(&ds, end - start, exp, factor))
        },
    }
}

/// Why the text of a number cannot be read.
#[derive(Debug, Clone, Copy, PartialEq, Eq, Structural)]
pub enum NumberError {
    /// There is none.
    Empty,
    /// It does not follow the grammar of numbers.
    Invalid,
}

/// Why a bandwidth cannot be read.
#[derive(Debug)]
pub enum BandwidthError {
    /// There is nothing but white space.
    Empty,
    /// What stands in front of the suffix is not a number.
    InvalidNumber { number: String, reason: NumberError },
    /// The bandwidth does not fit in 32 bits.
    TooLarge { text: String },
}

/// What a [`BandwidthError`] says.
pub enum Failure {
    Empty,
    InvalidNumber { number: Seq<char>, reason: NumberError },
    TooLarge { text: Seq<char> },
}

impl View for BandwidthError {
    type V = Failure;

    open spec fn view(&self) -> Failure {
        match self {
            BandwidthError::Empty => Failure::Empty,
            BandwidthError::InvalidNumber { number, reason } => Failure::InvalidNumber {
                number: number@,
                reason: *reason,
            },
            BandwidthError::TooLarge { text } => Failure::TooLarge { text: text@ },
        }
    }
}

/// What stands in front of the suffix of a text that is not empty.
pub open spec fn number_text(text: Seq<char>) -> Seq<char> {
    if multiplier(text.last()) == 1 {
        text
    } else {
        text.drop_last()
    }
}

/// The bandwidth that a text gives, in bits per second: between white space, a
/// number and an optional suffix `G`, `M` or `K`, in whatever case.
pub open spec fn bandwidth_of(s: Seq<char>) -> Result<u32, Failure> {
    let text = trimmed(s);
    if text.len() == 0 {
        Err(Failure::Empty)
    } else {
        let number = number_text(text);
        match number_of(number) {
            None => Err(
                Failure::InvalidNumber {
                    number,
                    reason: if number.len() == 0 {
                        NumberError::Empty
                    } else {
                        NumberError::Invalid
                    },
                },
            ),
            Some(value) => {
                let result = scaled(value, multiplier(text.last()));
                if result > u32::MAX {
                    Err(Failure::TooLarge { text })
                } else {
                    Ok(result as u32)
                }
            },
        }
    }
}

/// Parse a bandwidth string like "100M", "1G", "500K", "1000000".
pub fn parse_bandwidth(s: &str) -> (res: Result<u32, BandwidthError>)
    ensures
        match res {
            Ok(n) => bandwidth_of(s@) == Ok::<u32, Failure>(n),
            Err(e) => bandwidth_of(s@) == Err::<u32, Failure>(e@),
        },
{
    let s = s.trim();
    let mut cs = chars_of(s);
    if cs.len() == 0 {
        return Err(BandwidthError::Empty);
    }
    let length: usize = cs.len();
    let ghost text = s@;
    let last = cs[length - 1];
    let factor: u32 = if last == 'G' || last == 'g' {
        1_000_000_000
    } else if last == 'M' || last == 'm' {
        1_000_000
    } else if last == 'K' || last == 'k' {
        1_000
    } else {
        1
    };
    if factor != 1 {
        cs.truncate(length - 1);
    }
    proof {
        assert(cs@ =~= number_text(text));
        assert(text.subrange(0, cs@.len() as int) =~= cs@);
    }
    match scan_number(&cs, factor) {
        None => Err(
            BandwidthError::InvalidNumber {
                number: s.substring_char(0, cs.len()).to_owned(),
                reason: if cs.len() == 0 {
                    NumberError::Empty
                } else {
                    NumberError::Invalid
                },
            },
        ),
        Some(n) => if n > u32::MAX as u64 {
            Err(BandwidthError::TooLarge { text: s.to_owned() })
        } else {
            Ok(n as u32)
        },
    }
}

/// The message for a reader.
pub open spec fn failure_text(failure: Failure) -> Seq<char> {
    match failure {
        Failure::Empty => "Empty bandwidth string"@,
        Failure::InvalidNumber { number, reason } => "Invalid bandwidth number '"@ + number + "': "@
            + (match reason {
            NumberError::Empty => "cannot parse float from empty string"@,
            NumberError::Invalid => "invalid float literal"@,
        }),
        Failure::TooLarge { text } => "Bandwidth "@ + text + " exceeds maximum (4 Gbps)"@,
    }
}

impl BandwidthError {
    /// The message for a reader.
    pub fn message(&self) -> (text: String)
        ensures
            text@ == failure_text(self@),
    {
        match self {
            BandwidthError::Empty => "Empty bandwidth string".to_owned(),
            BandwidthError::InvalidNumber { number, reason } => {
                let mut out = "Invalid bandwidth number '".to_owned();
                out.append(number.as_str());
                out.append("': ");
                match reason {
                    NumberError::Empty => out.append("cannot parse float from empty string"),
                    NumberError::Invalid => out.append("invalid float literal"),
                }
                out
            },
            BandwidthError::TooLarge { text } => {
                let mut out = "Bandwidth ".to_owned();
                out.append(text.as_str());
                out.append(" exceeds maximum (4 Gbps)");
                out
            },
        }
    }
}

/// White space around a bandwidth does not matter.
pub proof fn law_white_space_ignored(s: Seq<char>, c: char)
    requires
        is_white_space(c),
    ensures
        bandwidth_of(seq![c] + s) == bandwidth_of(s),
        bandwidth_of(s.push(c)) == bandwidth_of(s),
{
    assert((seq![c] + s).drop_first() =~= s);
    lemma_trimmed_push(s, c);
}

/// White space at the end is taken away.
proof fn lemma_trimmed_push(s: Seq<char>, c: char)
    requires
        is_white_space(c),
    ensures
        trimmed(s.push(c)) == trimmed(s),
    decreases s.len(),
{
    if s.len() == 0 {
        assert(s.push(c).drop_first() =~= s);
    } else {
        assert(s.push(c).first() == s.first());
        assert(s.push(c).drop_last() =~= s);
        if is_white_space(s.first()) {
            assert(s.push(c).drop_first() =~= s.drop_first().push(c));
            lemma_trimmed_push(s.drop_first(), c);
        }
    }
}

/// The case of a suffix does not matter, nor does it make a difference which of
/// two characters with the same multiplier is taken.
pub proof fn law_suffix_case_ignored(s: Seq<char>, c: char, d: char)
    requires
        multiplier(c) == multiplier(d),
        multiplier(c) != 1,
    ensures
        bandwidth_of(s.push(c)) is Ok == bandwidth_of(s.push(d)) is Ok,
        bandwidth_of(s.push(c)) is Ok ==> bandwidth_of(s.push(c)) == bandwidth_of(s.push(d)),
{
    lemma_trimmed_suffix(s, c);
    lemma_trimmed_suffix(s, d);
    let front = trimmed_front(s);
    assert(front.push(c).drop_last() =~= front);
    assert(front.push(d).drop_last() =~= front);
}

/// A text without the white space in front of it.
spec fn trimmed_front(s: Seq<char>) -> Seq<char>
    decreases s.len(),
{
    if s.len() > 0 && is_white_space(s.first()) {
        trimmed_front(s.drop_first())
    } else {
        s
    }
}

/// A suffix stays where it is.
proof fn lemma_trimmed_suffix(s: Seq<char>, c: char)
    requires
        !is_white_space(c),
    ensures
        trimmed(s.push(c)) == trimmed_front(s).push(c),
    decreases s.len(),
{
    if s.len() > 0 {
        assert(s.push(c).first() == s.first());
        if is_white_space(s.first()) {
            assert(s.push(c).drop_first() =~= s.drop_first().push(c));
            lemma_trimmed_suffix(s.drop_first(), c);
        }
    }
}

/// A whole number in decimal, with or without a suffix, gives the number times
/// the multiplier of the suffix, exactly; what does not fit in 32 bits is refused.
pub proof fn law_whole_numbers(n: nat, suffix: Seq<char>)
    requires
        suffix.len() == 0 || (suffix.len() == 1 && multiplier(suffix[0]) != 1),
    ensures
        ({
            let text = decimal(n) + suffix;
            let factor = if suffix.len() == 0 {
                1
            } else {
                multiplier(suffix[0])
            };
            bandwidth_of(text) == (if n * factor <= u32::MAX {
                Ok((n * factor) as u32)
            } else {
                Err(Failure::TooLarge { text })
            })
        }),
{
    let digits = decimal(n);
    let text = digits + suffix;
    lemma_decimal_digits(n);
    let factor = if suffix.len() == 0 {
        1
    } else {
        multiplier(suffix[0])
    };
    // Nothing is trimmed, and the number is what stands in front of the suffix.
    assert(is_digit(digits[0]));
    assert(text.first() == digits[0]);
    if suffix.len() == 0 {
        assert(text =~= digits);
        assert(is_digit(digits[digits.len() - 1]));
    } else {
        assert(text.last() == suffix[0]);
        assert(text.drop_last() =~= digits);
    }
    assert(trimmed(text) == text);
    assert(number_text(text) == digits);
    assert(multiplier(text.last()) == factor);
    // The number is read as it was written.
    reveal_strlit("nan");
    reveal_strlit("inf");
    reveal_strlit("infinity");
    let lowered = digits.map_values(|c: char| lower(c));
    assert(lowered[0] == digits[0]);
    assert("nan"@[0] == 'n');
    assert("inf"@[0] == 'i');
    assert("infinity"@[0] == 'i');
    lemma_leading_digits_all(digits);
    assert(digits.take(digits.len() as int) =~= digits);
    assert(digits.skip(digits.len() as int) =~= Seq::<char>::empty());
    assert(digits + Seq::<char>::empty() =~= digits);
    assert(plain(digits) == Some((n, 0int)));
    assert(number_of(digits) == Some(
        Number::Finite { negative: false, mantissa: n, scale: 0 },
    ));
    lemma_pow10_first();
    assert(n * pow10(0) == n) by (nonlinear_arith)
        requires
            pow10(0) == 1,
    ;
    lemma_scaled_whole(n, factor);
}

/// The text of a number consists of digits, which stand for the number.
proof fn lemma_decimal_digits(n: nat)
    ensures
        decimal(n).len() > 0,
        are_digits(decimal(n)),
        digits_value(decimal(n)) == n,
    decreases n,
{
    let s = decimal(n);
    if n < 10 {
        assert(s.drop_last() =~= Seq::<char>::empty());
        assert(digits_value(Seq::<char>::empty()) == 0);
    } else {
        lemma_decimal_digits(n / 10);
        assert(s.drop_last() =~= decimal(n / 10));
        assert forall|i: int| 0 <= i < s.len() implies is_digit(#[trigger] s[i]) by {
            if i < s.len() - 1 {
                assert(s[i] == decimal(n / 10)[i]);
            }
        }
    }
}

/// A text of digits starts with all of them.
proof fn lemma_leading_digits_all(s: Seq<char>)
    requires
        are_digits(s),
    ensures
        leading_digits(s) == s.len(),
    decreases s.len(),
{
    if s.len() > 0 {
        assert(is_digit(s[0]));
        let rest = s.drop_first();
        assert forall|i: int| 0 <= i < rest.len() implies is_digit(#[trigger] rest[i]) by {
            assert(rest[i] == s[i + 1]);
        }
        lemma_leading_digits_all(rest);
    }
}

/// Whole numbers are multiplied exactly, as far as 32 bits go.
proof fn lemma_scaled_whole(n: nat, factor: nat)
    requires
        1 <= factor <= 1_000_000_000,
    ensures
        n * factor <= u32::MAX ==> scaled_quotient(n, 1, factor) == n * factor,
        n * factor > u32::MAX ==> scaled_quotient(n, 1, factor) > u32::MAX,
{
    lemma2_to64();
    lemma2_to64_rest();
    lemma_pow2_pos(UNIT_BITS as nat);
    let u = one();
    if n > 0x1_0000_0000_0000 {
        assert(n * factor > u32::MAX) by (nonlinear_arith)
            requires
                n > u32::MAX,
                factor >= 1,
        ;
        lemma_scaled_huge(n, 1, factor);
    } else {
        lemma_nearest_exact(n, UNIT_BITS as nat, 1);
        assert(n * u * 1 == n * u) by (nonlinear_arith);
        let double = nearest(n * u, 1);
        assert(double == n * u);
        assert(double * factor == (n * factor) * u) by (nonlinear_arith)
            requires
                double == n * u,
        ;
        let product = nearest(double * factor, 1);
        lemma_pow2_strictly_increases(64, 1024);
        let v = pow2(1024);
        assert(n * u < v * u) by (nonlinear_arith)
            requires
                n < v,
                u > 0,
        ;
        if n * factor <= u32::MAX {
            lemma_nearest_exact(n * factor, UNIT_BITS as nat, 1);
            assert((n * factor) * u * 1 == (n * factor) * u) by (nonlinear_arith);
            let m = n * factor;
            assert(m * u < v * u) by (nonlinear_arith)
                requires
                    m < v,
                    u > 0,
            ;
            assert((m * u) / u == m) by (nonlinear_arith)
                requires
                    u > 0,
            ;
        } else {
            lemma_pow2_adds(32, UNIT_BITS as nat);
            let m = n * factor;
            assert(m * u >= 1 * (0x1_0000_0000 * u)) by (nonlinear_arith)
                requires
                    m >= 0x1_0000_0000,
                    u > 0,
            ;
            lemma_nearest_at_least(m * u, 1, 1106);
            assert(product / u >= 0x1_0000_0000) by (nonlinear_arith)
                requires
                    product >= 0x1_0000_0000 * u,
                    u > 0,
            ;
        }
    }
}

/// A number times the multiplier of a suffix is read as the whole part of the exact
/// product, or as one more or one less, as far as 32 bits go.
pub proof fn law_within_one_of_exact(num: nat, den: nat, factor: nat)
    requires
        den > 0,
        1 <= factor <= 1_000_000_000,
        num * factor <= u32::MAX * den,
    ensures
        distance(scaled_quotient(num, den, factor), num * factor / den) <= 1,
{
    lemma2_to64();
    lemma_pow2_pos(UNIT_BITS as nat);
    lemma_pow2_adds(64, 1010);
    lemma_pow2_pos(1010);
    let u = one();
    let exact = num * factor;
    let double = nearest(num * u, den);
    let product = nearest(double * factor, 1);
    law_nearest_error(num * u, den);
    law_nearest_error(double * factor, 1);
    assert(product * 1 == product);
    assert(u >= 0x1_0000_0000_0000_0000);
    lemma_product_error(num, den, factor, u, double, product);
    // Neither number overflows.
    lemma_pow2_adds(32, UNIT_BITS as nat);
    lemma_pow2_adds(33, UNIT_BITS as nat);
    lemma2_to64_rest();
    lemma_pow2_adds(1024, UNIT_BITS as nat);
    lemma_pow2_strictly_increases(1106, 2098);
    lemma_pow2_strictly_increases(1107, 2098);
    assert(num <= exact) by (nonlinear_arith)
        requires
            exact == num * factor,
            factor >= 1,
    ;
    assert(num * u <= den * (0x1_0000_0000 * u)) by (nonlinear_arith)
        requires
            num <= 0x1_0000_0000 * den,
            u > 0,
    ;
    lemma_nearest_at_most(num * u, den, 1106);
    assert(product < 0x2_0000_0000 * u) by (nonlinear_arith)
        requires
            product * den < (exact + den) * u,
            exact <= 0xffff_ffff * den,
            den > 0,
            u > 0,
    ;
    // The whole part, against that of the exact product.
    let result = product / u;
    vstd::arithmetic::div_mod::lemma_fundamental_div_mod(product as int, u as int);
    assert(result < 0x2_0000_0000) by (nonlinear_arith)
        requires
            product < 0x2_0000_0000 * u,
            product >= u * result,
            u > 0,
    ;
    let whole = exact / den;
    vstd::arithmetic::div_mod::lemma_fundamental_div_mod(exact as int, den as int);
    assert(result * den < exact + den) by (nonlinear_arith)
        requires
            u * result <= product,
            product * den < (exact + den) * u,
            u > 0,
            den > 0,
    ;
    assert(u * (result + 1) == u * result + u) by (nonlinear_arith);
    assert((result + 1) * den > exact - den) by (nonlinear_arith)
        requires
            product < u * (result + 1),
            product * den > (exact - den) * u,
            u > 0,
            den > 0,
    ;
    assert(result < whole + 2) by (nonlinear_arith)
        requires
            result * den < exact + den,
            exact < den * whole + den,
            den > 0,
    ;
    assert(result + 2 > whole) by (nonlinear_arith)
        requires
            (result + 1) * den > exact - den,
            exact >= den * whole,
            den > 0,
    ;
}

/// Bounds on a number, times a factor.
proof fn lemma_bounds_times(
    lower: int,
    upper: int,
    x: int,
    k: int,
    y: int,
    h: int,
    z: int,
    factor: int,
)
    requires
        factor >= 0,
        lower * x - h * z <= k * y <= upper * x + h * z,
    ensures
        lower * (x * factor) - h * (z * factor) <= k * (y * factor) <= upper * (x * factor) + h
            * (z * factor),
{
    let (lo, mid, hi) = (lower * x - h * z, k * y, upper * x + h * z);
    assert(lo * factor <= mid * factor <= hi * factor) by (nonlinear_arith)
        requires
            lo <= mid <= hi,
            factor >= 0,
    ;
    assert((lower * x - h * z) * factor == lower * (x * factor) - h * (z * factor))
        by (nonlinear_arith);
    assert((k * y) * factor == k * (y * factor)) by (nonlinear_arith);
    assert((upper * x + h * z) * factor == upper * (x * factor) + h * (z * factor))
        by (nonlinear_arith);
}

/// How far two roundings can lead: less than one away from the exact product.
proof fn lemma_product_error(
    num: nat,
    den: nat,
    factor: nat,
    u: nat,
    double: nat,
    product: nat,
)
    requires
        den > 0,
        1 <= factor <= 1_000_000_000,
        num * factor <= 0xffff_ffff * den,
        u >= 0x1_0000_0000_0000_0000,
        SIGNIFICANDS * distance(num * u, double * den) <= num * u + HIDDEN_BIT * den,
        SIGNIFICANDS * distance(double * factor, product) <= double * factor + HIDDEN_BIT,
    ensures
        product * den < (num * factor + den) * u,
        product * den > (num * factor - den) * u,
{
    let s: int = 0x20_0000_0000_0000;
    let h: int = 0x10_0000_0000_0000;
    let t = num * u;
    let a = double * den;
    let c = double * factor;
    let x = num * factor;
    let af = a * factor;
    let tf = t * factor;
    let df = den * factor;
    let xu = x * u;
    let du = den * u;
    let pd = product * den;
    assert(c * den == af) by (nonlinear_arith)
        requires
            c == double * factor,
            a == double * den,
            af == a * factor,
    ;
    assert(tf == xu) by (nonlinear_arith)
        requires
            t == num * u,
            tf == t * factor,
            x == num * factor,
            xu == x * u,
    ;
    // The first rounding, times the factor.
    assert((s - 1) * t - h * den <= s * a <= (s + 1) * t + h * den);
    lemma_bounds_times(s - 1, s + 1, t as int, s, a as int, h, den as int, factor as int);
    assert((s - 1) * tf - h * df <= s * af <= (s + 1) * tf + h * df);
    // The second rounding, times the denominator.
    assert((s - 1) * c - h <= s * product <= (s + 1) * c + h);
    lemma_bounds_times(s - 1, s + 1, c as int, s, product as int, h, 1, den as int);
    assert((s - 1) * af - h * den <= s * pd <= (s + 1) * af + h * den);
    // What the errors come to, against one.
    assert(xu <= 0xffff_ffff * du) by (nonlinear_arith)
        requires
            x <= 0xffff_ffff * den,
            xu == x * u,
            du == den * u,
    ;
    assert(df <= 1_000_000_000 * den) by (nonlinear_arith)
        requires
            df == den * factor,
            factor <= 1_000_000_000,
    ;
    assert(du >= 0x1_0000_0000_0000_0000 * den) by (nonlinear_arith)
        requires
            du == den * u,
            u >= 0x1_0000_0000_0000_0000,
    ;
    assert(pd < xu + du);
    assert(pd > xu - du);
    assert((x + den) * u == xu + du) by (nonlinear_arith)
        requires
            xu == x * u,
            du == den * u,
    ;
    assert((x - den) * u == xu - du) by (nonlinear_arith)
        requires
            xu == x * u,
            du == den * u,
    ;
}

/// A text of digits is read with the first digit of the greatest weight: one more
/// digit at the end makes ten times the number, and the digit.
pub proof fn law_digits_value(s: Seq<char>, c: char)
    requires
        '0' <= c <= '9',
    ensures
        digits_value(Seq::empty()) == 0,
        digits_value(s.push(c)) == 10 * digits_value(s) + (c as nat - 48),
{
    assert(s.push(c).drop_last() =~= s);
}

/// The text of a whole number holds digits alone, no zero in front, and reads as
/// the number.
pub proof fn law_decimal_reads_back(n: nat)
    ensures
        forall|i: int| 0 <= i < decimal(n).len() ==> '0' <= #[trigger] decimal(n)[i] <= '9',
        digits_value(decimal(n)) == n,
        decimal(n).len() > 0,
        decimal(n)[0] == '0' ==> n == 0 && decimal(n).len() == 1,
    decreases n,
{
    lemma_decimal_digits(n);
    assert forall|i: int| 0 <= i < decimal(n).len() implies '0' <= #[trigger] decimal(n)[i]
        <= '9' by {
        assert(is_digit(decimal(n)[i]));
    }
    if n >= 10 {
        law_decimal_reads_back(n / 10);
        assert(decimal(n)[0] == decimal(n / 10)[0]);
    }
}

/// Two whole numbers with the same text are the same.
pub proof fn law_decimal_injective(a: nat, b: nat)
    requires
        decimal(a) == decimal(b),
    ensures
        a == b,
{
    law_decimal_reads_back(a);
    law_decimal_reads_back(b);
}

} // verus!
