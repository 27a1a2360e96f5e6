//! Double-precision arithmetic on integers.
//!
//! Rates are read and shown as IEEE 754 binary64 numbers ("doubles").  This
//! module says in integers what the operations on them give.  Every finite double
//! is a whole multiple of the least positive one, two to the power of -1074, so a
//! finite non-negative double is a natural number of such units.

use vstd::arithmetic::div_mod::{lemma_fundamental_div_mod, lemma_fundamental_div_mod_converse};
use vstd::arithmetic::power2::{
    lemma_pow2_adds, lemma_pow2_pos, lemma_pow2_strictly_increases, lemma_pow2_unfold, pow2,
};
use vstd::prelude::*;

verus! {

/// Two to the power of 53: significands are smaller than this.
pub const SIGNIFICANDS: u64 = 0x20_0000_0000_0000;

/// Two to the power of 52, the bit above the stored part of a significand.
pub const HIDDEN_BIT: u64 = 0x10_0000_0000_0000;

/// The number of bits below the binary point in a unit.
pub const UNIT_BITS: u32 = 1074;

/// The number of bits below the binary point that are read of a decimal fraction.
pub const FRACTION_BITS: u32 = 90;

/// The quotient of two numbers, rounded to the nearest whole number; halfway
/// between two, to the even one.
pub open spec fn half_even(num: nat, den: nat) -> nat {
    let quotient = num / den;
    let rest = num % den;
    if 2 * rest < den || (2 * rest == den && quotient % 2 == 0) {
        quotient
    } else {
        quotient + 1
    }
}

/// How many bits a quotient has beyond the 53 of a significand.
pub open spec fn spacing(num: nat, den: nat) -> nat
    decreases
            (if num >= den {
                num - den
            } else {
                0
            }),
{
    if den == 0 || num < den * SIGNIFICANDS {
        0
    } else {
        1 + spacing(num, 2 * den)
    }
}

/// The quotient of two numbers as a multiple of the unit, rounded to 53
/// significant bits: the nearest such number, halfway between two the one whose
/// significand is even.
pub open spec fn nearest(num: nat, den: nat) -> nat {
    let scale = pow2(spacing(num, den));
    half_even(num, den * scale) * scale
}

/// One, in units.
pub open spec fn one() -> nat {
    pow2(UNIT_BITS as nat)
}

/// The least number of units that is beyond the range of finite doubles.
pub open spec fn overflow() -> nat {
    pow2(1024) * one()
}

/// What a double stands for.
pub enum Value {
    Nan,
    Infinite { negative: bool },
    Finite { negative: bool, units: nat },
}

/// A double, by the bits of its encoding.
#[derive(Debug, Clone, Copy)]
pub struct Double {
    pub bits: u64,
}

impl Double {
    /// The number that the bits encode.
    pub open spec fn value(self) -> Value {
        let negative = self.bits >= 0x8000_0000_0000_0000;
        let exponent = self.bits as nat / HIDDEN_BIT as nat % 2048;
        let fraction = self.bits as nat % HIDDEN_BIT as nat;
        if exponent == 2047 {
            if fraction == 0 {
                Value::Infinite { negative }
            } else {
                Value::Nan
            }
        } else if exponent == 0 {
            Value::Finite { negative, units: fraction }
        } else {
            Value::Finite {
                negative,
                units: (HIDDEN_BIT + fraction) as nat * pow2((exponent - 1) as nat),
            }
        }
    }
}

/// A finite non-negative number: `sig` times two to the power of `exp`, in units.
#[derive(Debug, Clone, Copy)]
pub struct Magnitude {
    pub sig: u64,
    pub exp: u32,
}

impl Magnitude {
    /// The number of units.
    pub open spec fn units(self) -> nat {
        self.sig as nat * pow2(self.exp as nat)
    }

    /// The bounds that arithmetic on magnitudes keeps.
    pub open spec fn wf(self) -> bool {
        self.sig <= SIGNIFICANDS
    }
}

/// A double, taken apart.
#[derive(Debug, Clone, Copy)]
pub enum Parts {
    Nan,
    Infinite { negative: bool },
    Finite { negative: bool, magnitude: Magnitude },
}

impl Parts {
    /// What the parts stand for.
    pub open spec fn value(self) -> Value {
        match self {
            Parts::Nan => Value::Nan,
            Parts::Infinite { negative } => Value::Infinite { negative },
            Parts::Finite { negative, magnitude } => Value::Finite {
                negative,
                units: magnitude.units(),
            },
        }
    }
}

impl Double {
    /// Take a double apart.
    pub(crate) fn parts(self) -> (parts: Parts)
        ensures
            parts.value() == self.value(),
            parts matches Parts::Finite { magnitude, .. } ==> magnitude.wf() && magnitude.exp
                < 2046,
    {
        let negative = self.bits >= 0x8000_0000_0000_0000;
        let exponent: u64 = self.bits / HIDDEN_BIT % 2048;
        let fraction: u64 = self.bits % HIDDEN_BIT;
        if exponent == 2047 {
            if fraction == 0 {
                Parts::Infinite { negative }
            } else {
                Parts::Nan
            }
        } else if exponent == 0 {
            proof {
                lemma_pow2_zero();
                assert(fraction as nat * pow2(0) == fraction);
            }
            Parts::Finite { negative, magnitude: Magnitude { sig: fraction, exp: 0 } }
        } else {
            Parts::Finite {
                negative,
                magnitude: Magnitude {
                    sig: HIDDEN_BIT + fraction,
                    exp: (exponent - 1) as u32,
                },
            }
        }
    }
}

/// Two to the power of zero.
pub proof fn lemma_pow2_zero()
    ensures
        pow2(0) == 1,
{
    reveal(vstd::arithmetic::power::pow);
}

/// [`spacing`] is the number that its description pins down.
proof fn lemma_spacing_is(num: nat, den: nat, k: nat)
    requires
        den > 0,
        num < den * SIGNIFICANDS * pow2(k),
        k == 0 || num >= den * HIDDEN_BIT * pow2(k),
    ensures
        spacing(num, den) == k,
    decreases k,
{
    if k == 0 {
        lemma_pow2_zero();
        assert(den * SIGNIFICANDS * pow2(k) == den * SIGNIFICANDS);
    } else {
        let j = (k - 1) as nat;
        lemma_pow2_unfold(k);
        lemma_pow2_pos(j);
        let p = pow2(j);
        assert(den * HIDDEN_BIT * (2 * p) == 2 * den * HIDDEN_BIT * p) by (nonlinear_arith);
        assert(den * SIGNIFICANDS * (2 * p) == 2 * den * SIGNIFICANDS * p) by (nonlinear_arith);
        assert(den * HIDDEN_BIT * (2 * p) >= den * SIGNIFICANDS) by (nonlinear_arith)
            requires
                p >= 1,
                SIGNIFICANDS == 2 * HIDDEN_BIT,
        ;
        lemma_spacing_is(num, 2 * den, j);
    }
}

/// What [`spacing`] says of its arguments.
proof fn lemma_spacing_bounds(num: nat, den: nat)
    requires
        den > 0,
    ensures
        num < den * SIGNIFICANDS * pow2(spacing(num, den)),
        spacing(num, den) == 0 || num >= den * HIDDEN_BIT * pow2(spacing(num, den)),
    decreases
            (if num >= den {
                num - den
            } else {
                0
            }),
{
    if num < den * SIGNIFICANDS {
        lemma_pow2_zero();
        assert(den * SIGNIFICANDS * pow2(0) == den * SIGNIFICANDS);
    } else {
        assert(num >= 2 * den) by (nonlinear_arith)
            requires
                num >= den * SIGNIFICANDS,
                SIGNIFICANDS >= 2,
        ;
        lemma_spacing_bounds(num, 2 * den);
        let j = spacing(num, 2 * den);
        lemma_pow2_unfold(j + 1);
        let p = pow2(j);
        assert(den * HIDDEN_BIT * (2 * p) == 2 * den * HIDDEN_BIT * p) by (nonlinear_arith);
        assert(den * SIGNIFICANDS * (2 * p) == 2 * den * SIGNIFICANDS * p) by (nonlinear_arith);
        if j == 0 {
            lemma_pow2_zero();
            assert(den * HIDDEN_BIT * 2 == den * SIGNIFICANDS) by (nonlinear_arith)
                requires
                    SIGNIFICANDS == 2 * HIDDEN_BIT,
            ;
        }
    }
}

/// Division with rest, from its result.
pub proof fn lemma_div_mod_is(num: nat, den: nat, quotient: nat, rest: nat)
    requires
        rest < den,
        num == quotient * den + rest,
    ensures
        num / den == quotient,
        num % den == rest,
{
    lemma_fundamental_div_mod_converse(num as int, den as int, quotient as int, rest as int);
}

/// A common factor of both numbers does not change [`half_even`].
pub proof fn lemma_half_even_scale(num: nat, den: nat, factor: nat)
    requires
        den > 0,
        factor > 0,
    ensures
        half_even(num * factor, den * factor) == half_even(num, den),
{
    let quotient = num / den;
    let rest = num % den;
    lemma_fundamental_div_mod(num as int, den as int);
    assert(num * factor == quotient * (den * factor) + rest * factor) by (nonlinear_arith)
        requires
            num == den * quotient + rest,
    ;
    assert(rest * factor < den * factor) by (nonlinear_arith)
        requires
            rest < den,
            factor > 0,
    ;
    lemma_div_mod_is(num * factor, den * factor, quotient, rest * factor);
    assert(2 * rest < den ==> 2 * (rest * factor) < den * factor) by (nonlinear_arith)
        requires
            factor > 0,
    ;
    assert(2 * rest > den ==> 2 * (rest * factor) > den * factor) by (nonlinear_arith)
        requires
            factor > 0,
    ;
    assert(2 * rest == den ==> 2 * (rest * factor) == den * factor) by (nonlinear_arith);
}

/// Rounding goes up to no more than the next whole number.
pub proof fn lemma_half_even_at_most(num: nat, den: nat, bound: nat)
    requires
        den > 0,
        num <= bound * den,
    ensures
        half_even(num, den) <= bound,
{
    let quotient = num / den;
    let rest = num % den;
    lemma_fundamental_div_mod(num as int, den as int);
    if quotient > bound {
        assert(quotient * den >= bound * den + den) by (nonlinear_arith)
            requires
                quotient >= bound + 1,
        ;
        assert(den * quotient == quotient * den) by (nonlinear_arith);
    } else if quotient == bound {
        assert(den * quotient == bound * den) by (nonlinear_arith)
            requires
                quotient == bound,
        ;
    }
}

/// Rounding goes down to no less than the whole number below.
pub proof fn lemma_half_even_at_least(num: nat, den: nat, bound: nat)
    requires
        den > 0,
        num >= bound * den,
    ensures
        half_even(num, den) >= bound,
{
    let quotient = num / den;
    let rest = num % den;
    lemma_fundamental_div_mod(num as int, den as int);
    if quotient < bound {
        assert(den * quotient + den <= bound * den) by (nonlinear_arith)
            requires
                quotient + 1 <= bound,
        ;
    }
}

/// Whole numbers are rounded to themselves.
pub proof fn lemma_half_even_exact(n: nat, den: nat)
    requires
        den > 0,
    ensures
        half_even(n * den, den) == n,
{
    lemma_div_mod_is(n * den, den, n, 0);
}

/// The distance between two numbers.
pub open spec fn distance(a: nat, b: nat) -> nat {
    if a <= b {
        (b - a) as nat
    } else {
        (a - b) as nat
    }
}

/// No whole number is nearer to a quotient than the one it is rounded to.
pub proof fn law_half_even_nearest(num: nat, den: nat, other: nat)
    requires
        den > 0,
    ensures
        distance(num, half_even(num, den) * den) <= distance(num, other * den),
{
    let quotient = num / den;
    let rest = num % den;
    lemma_fundamental_div_mod(num as int, den as int);
    assert(den * quotient == quotient * den) by (nonlinear_arith);
    assert((quotient + 1) * den == quotient * den + den) by (nonlinear_arith);
    if other <= quotient {
        assert(other * den <= quotient * den) by (nonlinear_arith)
            requires
                other <= quotient,
        ;
    } else {
        assert(other * den >= quotient * den + den) by (nonlinear_arith)
            requires
                other >= quotient + 1,
        ;
    }
}

/// A significand times a power of two.
pub open spec fn with_significand(sig: nat, exp: nat) -> nat {
    sig * pow2(exp)
}

/// Rounding to a double gives a number with a significand of 53 bits, and no number
/// with such a significand is nearer.
pub proof fn law_nearest_is_nearest(num: nat, den: nat, sig: nat, exp: nat)
    requires
        den > 0,
        sig <= SIGNIFICANDS,
    ensures
        exists|s: nat, e: nat|
            s <= SIGNIFICANDS && nearest(num, den) == #[trigger] with_significand(s, e),
        distance(num, nearest(num, den) * den) <= distance(num, with_significand(sig, exp) * den),
{
    let k = spacing(num, den);
    let scale = pow2(k);
    let part = den * scale;
    lemma_spacing_bounds(num, den);
    lemma_pow2_pos(k);
    assert(part > 0) by (nonlinear_arith)
        requires
            part == den * scale,
            den > 0,
            scale > 0,
    ;
    let q = half_even(num, part);
    assert(SIGNIFICANDS * part == den * SIGNIFICANDS * scale) by (nonlinear_arith)
        requires
            part == den * scale,
    ;
    lemma_half_even_at_most(num, part, SIGNIFICANDS as nat);
    assert(nearest(num, den) == with_significand(q, k));
    assert(q * scale * den == q * part) by (nonlinear_arith)
        requires
            part == den * scale,
    ;
    if exp >= k {
        let j = (exp - k) as nat;
        lemma_pow2_adds(j, k);
        let a = pow2(j);
        assert(sig * (a * scale) * den == (sig * a) * part) by (nonlinear_arith)
            requires
                part == den * scale,
        ;
        law_half_even_nearest(num, part, sig * a);
    } else {
        // Such a number lies no higher than the least one with this spacing.
        let j = (k - exp) as nat;
        lemma_pow2_adds(exp, j);
        lemma_pow2_unfold(j);
        lemma_pow2_pos((j - 1) as nat);
        lemma_pow2_pos(exp);
        let (a, b) = (pow2(exp), pow2((j - 1) as nat));
        assert(sig * a * den <= HIDDEN_BIT * part) by (nonlinear_arith)
            requires
                part == den * (a * (2 * b)),
                sig <= 2 * HIDDEN_BIT,
                b >= 1,
                a >= 1,
                den >= 1,
        ;
        assert(den * HIDDEN_BIT * scale == HIDDEN_BIT * part) by (nonlinear_arith)
            requires
                part == den * scale,
        ;
        law_half_even_nearest(num, part, HIDDEN_BIT as nat);
    }
}

/// Rounding to a double is off by at most one part in two to the power of 53, or by
/// half a unit.
pub proof fn law_nearest_error(num: nat, den: nat)
    requires
        den > 0,
    ensures
        SIGNIFICANDS * distance(num, nearest(num, den) * den) <= num + HIDDEN_BIT * den,
{
    let k = spacing(num, den);
    let scale = pow2(k);
    let part = den * scale;
    lemma_spacing_bounds(num, den);
    lemma_pow2_pos(k);
    assert(part > 0) by (nonlinear_arith)
        requires
            part == den * scale,
            den > 0,
            scale > 0,
    ;
    let q = half_even(num, part);
    assert(q * scale * den == q * part) by (nonlinear_arith)
        requires
            part == den * scale,
    ;
    lemma_fundamental_div_mod(num as int, part as int);
    let quotient = num / part;
    assert(part * quotient == quotient * part) by (nonlinear_arith);
    assert((quotient + 1) * part == quotient * part + part) by (nonlinear_arith);
    let off = distance(num, q * part);
    assert(2 * off <= part);
    if k == 0 {
        lemma_pow2_zero();
        assert(part == den) by (nonlinear_arith)
            requires
                part == den * scale,
                scale == 1,
        ;
    } else {
        assert(den * HIDDEN_BIT * scale == HIDDEN_BIT * part) by (nonlinear_arith)
            requires
                part == den * scale,
        ;
    }
}

/// Numbers with a significand of at most 53 bits are rounded to themselves.
pub proof fn lemma_nearest_exact(sig: nat, exp: nat, den: nat)
    requires
        den > 0,
        sig <= SIGNIFICANDS,
    ensures
        nearest(sig * pow2(exp) * den, den) == sig * pow2(exp),
{
    let num = sig * pow2(exp) * den;
    let k = spacing(num, den);
    lemma_spacing_bounds(num, den);
    lemma_pow2_pos(k);
    lemma_pow2_pos(exp);
    if k <= exp {
        let j = (exp - k) as nat;
        lemma_pow2_adds(j, k);
        lemma_pow2_pos(j);
        let (a, b) = (pow2(j), pow2(k));
        assert(sig * (a * b) * den == (sig * a) * (den * b)) by (nonlinear_arith);
        assert(den * b > 0) by (nonlinear_arith)
            requires
                den > 0,
                b > 0,
        ;
        lemma_half_even_exact(sig * a, den * b);
        assert((sig * a) * b == sig * (a * b)) by (nonlinear_arith);
    } else {
        let j = (k - exp) as nat;
        lemma_pow2_adds(exp, j);
        lemma_pow2_unfold(j);
        let (a, b) = (pow2(exp), pow2((j - 1) as nat));
        lemma_pow2_pos((j - 1) as nat);
        // The number reaches the bound below only where the significand is the
        // largest and the power the next one.
        assert(sig * a * den >= den * HIDDEN_BIT * (a * (2 * b)));
        assert(sig >= SIGNIFICANDS * b) by (nonlinear_arith)
            requires
                sig * a * den >= den * HIDDEN_BIT * (a * (2 * b)),
                SIGNIFICANDS == 2 * HIDDEN_BIT,
                den > 0,
                a > 0,
        ;
        assert(b == 1) by (nonlinear_arith)
            requires
                b > 0,
                SIGNIFICANDS >= SIGNIFICANDS * b,
                SIGNIFICANDS > 0,
        ;
        assert(sig == SIGNIFICANDS);
        assert(sig * a * den == HIDDEN_BIT * (den * (a * 2))) by (nonlinear_arith)
            requires
                sig == 2 * HIDDEN_BIT,
        ;
        assert(den * (a * 2) > 0) by (nonlinear_arith)
            requires
                den > 0,
                a > 0,
        ;
        lemma_half_even_exact(HIDDEN_BIT as nat, den * (a * 2));
        assert(HIDDEN_BIT * (a * 2) == SIGNIFICANDS * a) by (nonlinear_arith)
            requires
                SIGNIFICANDS == 2 * HIDDEN_BIT,
        ;
    }
}

/// What is at most a power of two is rounded to at most that power.
pub proof fn lemma_nearest_at_most(num: nat, den: nat, exp: nat)
    requires
        den > 0,
        num <= den * pow2(exp),
    ensures
        nearest(num, den) <= pow2(exp),
{
    let k = spacing(num, den);
    lemma_spacing_bounds(num, den);
    lemma_pow2_pos(k);
    let b = pow2(k);
    if k <= exp {
        let j = (exp - k) as nat;
        lemma_pow2_adds(j, k);
        let a = pow2(j);
        assert(den * (a * b) == a * (den * b)) by (nonlinear_arith);
        assert(den * b > 0) by (nonlinear_arith)
            requires
                den > 0,
                b > 0,
        ;
        lemma_half_even_at_most(num, den * b, a);
        assert(half_even(num, den * b) * b <= a * b) by (nonlinear_arith)
            requires
                half_even(num, den * b) <= a,
        ;
    } else {
        lemma_pow2_strictly_increases(exp, k);
        let c = pow2(exp);
        assert(den * HIDDEN_BIT * b > den * c) by (nonlinear_arith)
            requires
                den > 0,
                b > c,
                HIDDEN_BIT >= 1,
        ;
    }
}

/// What is at least a power of two is rounded to at least that power.
pub proof fn lemma_nearest_at_least(num: nat, den: nat, exp: nat)
    requires
        den > 0,
        num >= den * pow2(exp),
    ensures
        nearest(num, den) >= pow2(exp),
{
    let k = spacing(num, den);
    lemma_spacing_bounds(num, den);
    lemma_pow2_pos(k);
    let b = pow2(k);
    assert(den * b > 0) by (nonlinear_arith)
        requires
            den > 0,
            b > 0,
    ;
    if k <= exp {
        let j = (exp - k) as nat;
        lemma_pow2_adds(j, k);
        let a = pow2(j);
        assert(den * (a * b) == a * (den * b)) by (nonlinear_arith);
        lemma_half_even_at_least(num, den * b, a);
        assert(half_even(num, den * b) * b >= a * b) by (nonlinear_arith)
            requires
                half_even(num, den * b) >= a,
        ;
    } else {
        lemma_pow2_strictly_increases(exp, k);
        assert(den * HIDDEN_BIT * b == HIDDEN_BIT * (den * b)) by (nonlinear_arith);
        lemma_half_even_at_least(num, den * b, HIDDEN_BIT as nat);
        assert(half_even(num, den * b) * b >= b) by (nonlinear_arith)
            requires
                half_even(num, den * b) >= 1,
        ;
    }
}

/// The numerator of two to the power of `exp`.
spec fn above(exp: int) -> nat {
    if exp >= 0 {
        pow2(exp as nat)
    } else {
        1
    }
}

/// The denominator of two to the power of `exp`.
spec fn below(exp: int) -> nat {
    if exp < 0 {
        pow2((-exp) as nat)
    } else {
        1
    }
}

/// Whether `n` times two to the power of `exp` is the quotient of two numbers,
/// exactly or cut off below the last bit of `n`.
spec fn floors_to(num: nat, den: nat, n: nat, inexact: bool, exp: int) -> bool {
    let (whole, part) = (num * below(exp), den * above(exp));
    &&& n * part <= whole < (n + 1) * part
    &&& inexact == (whole != n * part)
}

/// Powers of two are positive.
proof fn lemma_above_below_pos(exp: int)
    ensures
        above(exp) > 0,
        below(exp) > 0,
{
    if exp >= 0 {
        lemma_pow2_pos(exp as nat);
    } else {
        lemma_pow2_pos((-exp) as nat);
    }
}

/// Adding to an exponent multiplies.
proof fn lemma_above_below_adds(exp: int, more: nat)
    ensures
        above(exp + more) * below(exp) == above(exp) * pow2(more) * below(exp + more),
{
    if exp >= 0 {
        lemma_pow2_adds(exp as nat, more);
    } else if exp + more >= 0 {
        lemma_pow2_adds((exp + more) as nat, (-exp) as nat);
        assert((exp + more) + (-exp) == more);
    } else {
        lemma_pow2_adds((-(exp + more)) as nat, more);
        assert(-(exp + more) + more == -exp);
        assert(1 * pow2(more) * below(exp + more) == below(exp + more) * pow2(more))
            by (nonlinear_arith);
    }
}

/// Two to the power of `exp`.
pub(crate) fn power_of_two(exp: u32) -> (power: u128)
    requires
        exp < 128,
    ensures
        power == pow2(exp as nat),
{
    let mut power: u128 = 1;
    let mut i: u32 = 0;
    proof {
        lemma_pow2_zero();
    }
    while i < exp
        invariant
            i <= exp < 128,
            power == pow2(i as nat),
        decreases exp - i,
    {
        proof {
            lemma_pow2_unfold((i + 1) as nat);
            lemma_pow2_under_128((i + 1) as nat);
        }
        power = power * 2;
        i = i + 1;
    }
    power
}

/// Powers of two below the 128th fit in 128 bits.
proof fn lemma_pow2_under_128(exp: nat)
    requires
        exp < 128,
    ensures
        pow2(exp) <= 0x8000_0000_0000_0000_0000_0000_0000_0000,
{
    if exp < 127 {
        lemma_pow2_strictly_increases(exp, 127);
    }
    vstd::arithmetic::power2::lemma2_to64();
    vstd::arithmetic::power2::lemma2_to64_rest();
    lemma_pow2_adds(64, 63);
}

/// Rounding a number whose upper bits are known.
///
/// `cut` is the power of two whose multiples remain: `n` is `quotient * cut + rest`.
proof fn lemma_round_cut(
    num: nat,
    den: nat,
    n: nat,
    inexact: bool,
    exp: int,
    drop: nat,
    quotient: nat,
    rest: nat,
)
    requires
        den > 0,
        drop > 0,
        exp + drop >= 0,
        floors_to(num, den, n, inexact, exp),
        n == quotient * pow2(drop) + rest,
        rest < pow2(drop),
        quotient < SIGNIFICANDS,
        exp + drop == 0 || quotient >= HIDDEN_BIT,
    ensures
        ({
            let half = pow2((drop - 1) as nat);
            let up = rest > half || (rest == half && (inexact || quotient % 2 == 1));
            nearest(num, den) == (if up {
                quotient + 1
            } else {
                quotient
            }) * pow2((exp + drop) as nat)
        }),
{
    let k = (exp + drop) as nat;
    let cut = pow2(drop);
    let half = pow2((drop - 1) as nat);
    let scale = pow2(k);
    lemma_pow2_unfold(drop);
    lemma_pow2_pos((drop - 1) as nat);
    lemma_pow2_pos(k);
    lemma_above_below_pos(exp);
    lemma_above_below_adds(exp, drop);
    let lift = below(exp);
    let part = den * above(exp);
    let whole = num * lift;
    // In whole numbers, the quotient in question is `whole` by `part * cut`.
    assert(below(k as int) == 1);
    assert(above(k as int) == scale);
    assert(den * scale * lift == part * cut) by (nonlinear_arith)
        requires
            scale * lift == above(exp) * cut * 1,
            part == den * above(exp),
    ;
    assert(part > 0) by (nonlinear_arith)
        requires
            part == den * above(exp),
            den > 0,
            above(exp) > 0,
    ;
    let fraction = (whole - n * part) as nat;
    assert((n + 1) * part == n * part + part) by (nonlinear_arith);
    let remainder = rest * part + fraction;
    assert(whole == quotient * (part * cut) + remainder) by (nonlinear_arith)
        requires
            whole == n * part + fraction,
            n == quotient * cut + rest,
            remainder == rest * part + fraction,
    ;
    assert(remainder < part * cut) by (nonlinear_arith)
        requires
            remainder == rest * part + fraction,
            fraction < part,
            rest + 1 <= cut,
    ;
    lemma_div_mod_is(whole, part * cut, quotient, remainder);
    // The remainder against half of the divisor.
    assert(part * cut == 2 * (half * part)) by (nonlinear_arith)
        requires
            cut == 2 * half,
    ;
    if rest > half {
        assert(rest * part >= half * part + part) by (nonlinear_arith)
            requires
                rest >= half + 1,
        ;
    } else if rest < half {
        assert(rest * part + part <= half * part) by (nonlinear_arith)
            requires
                rest + 1 <= half,
        ;
    }
    assert(den * scale > 0) by (nonlinear_arith)
        requires
            den > 0,
            scale > 0,
    ;
    lemma_half_even_scale(num, den * scale, lift);
    // The spacing is `k`.
    assert(num < den * SIGNIFICANDS * scale) by {
        assert(whole < SIGNIFICANDS * (part * cut)) by (nonlinear_arith)
            requires
                whole == quotient * (part * cut) + remainder,
                remainder < part * cut,
                quotient + 1 <= SIGNIFICANDS,
        ;
        assert(SIGNIFICANDS * (den * scale * lift) == den * SIGNIFICANDS * scale * lift)
            by (nonlinear_arith);
        assert(num < den * SIGNIFICANDS * scale) by (nonlinear_arith)
            requires
                num * lift < den * SIGNIFICANDS * scale * lift,
                lift > 0,
        ;
    }
    if k != 0 {
        assert(num >= den * HIDDEN_BIT * scale) by {
            assert(whole >= HIDDEN_BIT * (part * cut)) by (nonlinear_arith)
                requires
                    whole == quotient * (part * cut) + remainder,
                    quotient >= HIDDEN_BIT,
                    part * cut >= 0,
            ;
            assert(HIDDEN_BIT * (den * scale * lift) == den * HIDDEN_BIT * scale * lift)
                by (nonlinear_arith);
            assert(num >= den * HIDDEN_BIT * scale) by (nonlinear_arith)
                requires
                    num * lift >= den * HIDDEN_BIT * scale * lift,
                    lift > 0,
            ;
        }
    }
    lemma_spacing_is(num, den, k);
}

/// What is less than half a unit is rounded to nothing.
proof fn lemma_round_vanishes(num: nat, den: nat, n: nat, inexact: bool, exp: int)
    requires
        den > 0,
        exp <= -128,
        n < 0x4000_0000_0000_0000_0000_0000_0000_0000,
        floors_to(num, den, n, inexact, exp),
    ensures
        nearest(num, den) == 0,
{
    let lift = below(exp);
    vstd::arithmetic::power2::lemma2_to64();
    lemma_pow2_adds(64, 64);
    assert(pow2(128) == 0x1_0000_0000_0000_0000_0000_0000_0000_0000);
    if exp < -128 {
        lemma_pow2_strictly_increases(128, (-exp) as nat);
    }
    assert(num * lift < (n + 1) * den);
    assert((n + 1) * den <= 0x4000_0000_0000_0000_0000_0000_0000_0000 * den) by (nonlinear_arith)
        requires
            n + 1 <= 0x4000_0000_0000_0000_0000_0000_0000_0000,
    ;
    assert(2 * num < den) by (nonlinear_arith)
        requires
            num * lift < 0x4000_0000_0000_0000_0000_0000_0000_0000 * den,
            lift >= 0x1_0000_0000_0000_0000_0000_0000_0000_0000,
    ;
    assert(num < den * SIGNIFICANDS) by (nonlinear_arith)
        requires
            2 * num < den,
            SIGNIFICANDS >= 1,
    ;
    lemma_pow2_zero();
    lemma_div_mod_is(num, den, 0, num);
    assert(spacing(num, den) == 0);
    assert(den * pow2(0) == den) by (nonlinear_arith)
        requires
            pow2(0) == 1,
    ;
    assert(half_even(num, den) == 0);
}

/// The quotient of `num` and `den` as a rounded magnitude, from its upper bits.
///
/// The bits that `n` cuts off must lie below those that rounding looks at.
fn round(
    n: u128,
    inexact: bool,
    exp: i32,
    Ghost(num): Ghost<nat>,
    Ghost(den): Ghost<nat>,
) -> (m: Magnitude)
    requires
        den > 0,
        n < 0x4000_0000_0000_0000_0000_0000_0000_0000,
        inexact ==> n >= 2 * SIGNIFICANDS,
        -5000 <= exp <= 5000,
        floors_to(num, den, n as nat, inexact, exp as int),
    ensures
        m.units() == nearest(num, den),
        m.wf(),
        exp < 0 ==> m.exp < 128,
        exp >= 0 ==> m.exp < exp + 128,
{
    if exp <= -128 {
        proof {
            lemma_round_vanishes(num, den, n as nat, inexact, exp as int);
        }
        return Magnitude { sig: 0, exp: 0 };
    }
    let least: u32 = if exp < 0 {
        (-exp) as u32
    } else {
        0
    };
    let mut drop: u32 = least;
    let mut cut: u128 = power_of_two(drop);
    proof {
        lemma_pow2_pos(drop as nat);
    }
    while n / cut >= SIGNIFICANDS as u128
        invariant
            n < 0x4000_0000_0000_0000_0000_0000_0000_0000,
            least <= drop < 128,
            cut == pow2(drop as nat),
            cut > 0,
            drop > least ==> n as int / cut as int >= HIDDEN_BIT,
        decreases 128 - drop,
    {
        proof {
            lemma_pow2_unfold((drop + 1) as nat);
            let (a, c) = (n as int, cut as int);
            assert(cut <= 0x4000_0000_0000_0000_0000_0000_0000_0000) by (nonlinear_arith)
                requires
                    a < 0x4000_0000_0000_0000_0000_0000_0000_0000,
                    c > 0,
                    a / c >= 1,
                    c == cut,
            ;
            if drop == 127 {
                vstd::arithmetic::power2::lemma2_to64();
                vstd::arithmetic::power2::lemma2_to64_rest();
                lemma_pow2_adds(64, 63);
                assert(false);
            }
            assert(a / (2 * c) >= HIDDEN_BIT) by (nonlinear_arith)
                requires
                    c > 0,
                    a / c >= SIGNIFICANDS,
                    SIGNIFICANDS == 2 * HIDDEN_BIT,
            ;
        }
        cut = cut * 2;
        drop = drop + 1;
    }
    if drop == 0 {
        proof {
            lemma_pow2_zero();
            assert(n as int / 1 == n);
            let part = den * above(exp as int);
            assert(num == n as nat * pow2(exp as nat) * den) by (nonlinear_arith)
                requires
                    num * 1 == n as nat * part,
                    part == den * pow2(exp as nat),
            ;
            lemma_nearest_exact(n as nat, exp as nat, den);
        }
        return Magnitude { sig: n as u64, exp: exp as u32 };
    }
    let quotient: u64 = (n / cut) as u64;
    let rest: u128 = n % cut;
    let half: u128 = cut / 2;
    proof {
        lemma_fundamental_div_mod(n as int, cut as int);
        lemma_pow2_unfold(drop as nat);
        assert(n == quotient as nat * pow2(drop as nat) + rest) by (nonlinear_arith)
            requires
                n == cut * quotient + rest,
                cut == pow2(drop as nat),
        ;
        lemma_round_cut(
            num,
            den,
            n as nat,
            inexact,
            exp as int,
            drop as nat,
            quotient as nat,
            rest as nat,
        );
    }
    let up = rest > half || (rest == half && (inexact || quotient % 2 == 1));
    Magnitude {
        sig: if up {
            quotient + 1
        } else {
            quotient
        },
        exp: (exp + drop as i32) as u32,
    }
}

/// The quotient of two significands, scaled by a power of two, as a rounded
/// magnitude.
fn divide(
    sig: u64,
    divisor: u64,
    exp: i32,
    Ghost(num): Ghost<nat>,
    Ghost(den): Ghost<nat>,
) -> (m: Magnitude)
    requires
        sig <= SIGNIFICANDS,
        0 < divisor <= SIGNIFICANDS,
        den > 0,
        -4000 <= exp <= 5000,
        num * below(exp as int) * divisor == den * above(exp as int) * sig,
    ensures
        m.units() == nearest(num, den),
        m.wf(),
        exp < 0 ==> m.exp < 128,
        exp >= 0 ==> m.exp < exp + 128,
{
    if sig == 0 {
        proof {
            lemma_above_below_pos(exp as int);
            assert(num == 0) by (nonlinear_arith)
                requires
                    num * below(exp as int) * divisor == den * above(exp as int) * sig,
                    sig == 0,
                    divisor > 0,
                    below(exp as int) > 0,
            ;
            lemma_nearest_exact(0, 0, den);
            assert(0 * pow2(0) * den == 0) by (nonlinear_arith);
            assert(0 * pow2(0) == 0) by (nonlinear_arith);
        }
        return Magnitude { sig: 0, exp: 0 };
    }
    // Shift the dividend up, so that the quotient keeps enough bits.
    let mut n: u128 = sig as u128;
    let mut shift: u32 = 0;
    proof {
        lemma_pow2_zero();
        assert(sig as nat * pow2(0) == sig);
    }
    while n < 0x1000_0000_0000_0000_0000_0000_0000_0000
        invariant
            sig > 0,
            n == sig as nat * pow2(shift as nat),
            0 < n < 0x2000_0000_0000_0000_0000_0000_0000_0000,
            shift < 128,
        decreases 0x2000_0000_0000_0000_0000_0000_0000_0000 - n,
    {
        proof {
            lemma_pow2_unfold((shift + 1) as nat);
            let p = pow2(shift as nat);
            assert(sig as nat * (2 * p) == 2 * (sig as nat * p)) by (nonlinear_arith);
            if shift == 127 {
                vstd::arithmetic::power2::lemma2_to64();
                vstd::arithmetic::power2::lemma2_to64_rest();
                lemma_pow2_adds(64, 63);
                assert(sig as nat * p >= p) by (nonlinear_arith)
                    requires
                        sig as nat >= 1,
                ;
            }
        }
        n = n * 2;
        shift = shift + 1;
    }
    let quotient: u128 = n / divisor as u128;
    let rest: u128 = n % divisor as u128;
    proof {
        lemma_fundamental_div_mod(n as int, divisor as int);
        assert(quotient >= 2 * SIGNIFICANDS) by (nonlinear_arith)
            requires
                n == divisor * quotient + rest,
                rest < divisor,
                n >= 0x1000_0000_0000_0000_0000_0000_0000_0000,
                divisor <= SIGNIFICANDS,
                SIGNIFICANDS == 0x20_0000_0000_0000,
        ;
        assert(quotient <= n) by (nonlinear_arith)
            requires
                n == divisor * quotient + rest,
                divisor >= 1,
                rest >= 0,
        ;
        lemma_divide_floors(
            sig as nat,
            divisor as nat,
            exp as int,
            shift as nat,
            quotient as nat,
            rest as nat,
            num,
            den,
        );
    }
    round(quotient, rest != 0, exp - shift as i32, Ghost(num), Ghost(den))
}

/// The quotient of two significands, with the dividend shifted up, has the upper
/// bits of the quotient.
proof fn lemma_divide_floors(
    sig: nat,
    divisor: nat,
    exp: int,
    shift: nat,
    quotient: nat,
    rest: nat,
    num: nat,
    den: nat,
)
    requires
        den > 0,
        rest < divisor,
        sig * pow2(shift) == divisor * quotient + rest,
        num * below(exp) * divisor == den * above(exp) * sig,
    ensures
        floors_to(num, den, quotient, rest != 0, exp - shift),
{
    let e = exp - shift;
    lemma_above_below_pos(exp);
    lemma_above_below_pos(e);
    lemma_above_below_adds(e, shift);
    let lift = below(e);
    let part = den * above(e);
    let (a, b, p) = (above(exp), below(exp), pow2(shift));
    assert(e + shift == exp);
    // Both sides, without the common factor `b`.
    assert(num * lift * divisor == part * (sig * p)) by {
        let f = above(e);
        assert((num * lift * divisor) * b == (num * b * divisor) * lift) by (nonlinear_arith);
        assert((den * a * sig) * lift == (den * sig) * (a * lift)) by (nonlinear_arith);
        assert((den * sig) * (f * p * b) == ((den * f) * (sig * p)) * b) by (nonlinear_arith);
        let (x, y) = (num * lift * divisor, part * (sig * p));
        assert(x == y) by (nonlinear_arith)
            requires
                x * b == y * b,
                b > 0,
        ;
    }
    assert(num * lift * divisor == (quotient * part) * divisor + part * rest) by (nonlinear_arith)
        requires
            num * lift * divisor == part * (sig * p),
            sig * p == divisor * quotient + rest,
    ;
    assert(part > 0) by (nonlinear_arith)
        requires
            part == den * above(e),
            den > 0,
            above(e) > 0,
    ;
    let whole = num * lift;
    let whole_part = quotient * part;
    assert(part * rest < part * divisor) by (nonlinear_arith)
        requires
            rest < divisor,
            part > 0,
    ;
    assert(part * rest >= 0) by (nonlinear_arith);
    assert(whole >= whole_part) by (nonlinear_arith)
        requires
            whole * divisor >= whole_part * divisor,
            divisor > 0,
    ;
    assert(whole < whole_part + part) by (nonlinear_arith)
        requires
            whole * divisor < whole_part * divisor + part * divisor,
            divisor > 0,
    ;
    assert((quotient + 1) * part == whole_part + part) by (nonlinear_arith)
        requires
            whole_part == quotient * part,
    ;
    if rest == 0 {
        assert(whole == whole_part) by (nonlinear_arith)
            requires
                whole * divisor == whole_part * divisor + part * rest,
                rest == 0,
                divisor > 0,
        ;
    } else {
        assert(part * rest > 0) by (nonlinear_arith)
            requires
                part > 0,
                rest > 0,
        ;
        if whole == whole_part {
            assert(whole * divisor == whole_part * divisor);
        }
    }
}

impl Magnitude {
    /// The double nearest to a whole number.
    pub(crate) fn from_integer(n: u64) -> (m: Self)
        ensures
            m.units() == nearest(n as nat * one(), 1),
            m.wf(),
            m.exp < 1202,
    {
        proof {
            lemma_exact_floors(n as nat, UNIT_BITS as nat);
        }
        round(
            n as u128,
            false,
            UNIT_BITS as i32,
            Ghost(n as nat * pow2(UNIT_BITS as nat)),
            Ghost(1),
        )
    }

    /// The double nearest to the quotient of `num` and `den`, from its bits down
    /// to [`FRACTION_BITS`] below the binary point.
    pub(crate) fn from_fixed_point(
        n: u128,
        inexact: bool,
        Ghost(num): Ghost<nat>,
        Ghost(den): Ghost<nat>,
    ) -> (m: Self)
        requires
            den > 0,
            2 * SIGNIFICANDS <= n < 0x4000_0000_0000_0000_0000_0000_0000_0000,
            n as nat * den <= num * pow2(FRACTION_BITS as nat) < (n as nat + 1) * den,
            inexact == (n as nat * den != num * pow2(FRACTION_BITS as nat)),
        ensures
            m.units() == nearest(num * one(), den),
            m.wf(),
            m.exp < 1112,
    {
        proof {
            lemma_pow2_adds(FRACTION_BITS as nat, 984);
            lemma_pow2_pos(984);
            let (a, p, x) = (pow2(FRACTION_BITS as nat), pow2(984), n as nat);
            let (whole, part) = (num * (a * p), den * p);
            assert(whole == (num * a) * p) by (nonlinear_arith)
                requires
                    whole == num * (a * p),
            ;
            assert(x * part == (x * den) * p) by (nonlinear_arith)
                requires
                    part == den * p,
            ;
            assert((x + 1) * part == ((x + 1) * den) * p) by (nonlinear_arith)
                requires
                    part == den * p,
            ;
            let (lo, mid, hi) = (x * den, num * a, (x + 1) * den);
            assert(lo * p <= mid * p < hi * p) by (nonlinear_arith)
                requires
                    lo <= mid < hi,
                    p > 0,
            ;
            assert((lo != mid) == (lo * p != mid * p)) by (nonlinear_arith)
                requires
                    p > 0,
            ;
        }
        round(n, inexact, 984, Ghost(num * one()), Ghost(den))
    }

    /// The double nearest to the product with a whole number.
    pub(crate) fn times(self, factor: u32) -> (m: Self)
        requires
            self.wf(),
            self.exp <= 4000,
        ensures
            m.units() == nearest(self.units() * factor as nat, 1),
            m.wf(),
            m.exp < self.exp + 128,
    {
        proof {
            assert(self.sig * factor < 0x4000_0000_0000_0000_0000_0000_0000_0000)
                by (nonlinear_arith)
                requires
                    self.sig <= 0x20_0000_0000_0000,
                    factor <= 0xffff_ffff,
            ;
        }
        let n: u128 = self.sig as u128 * factor as u128;
        proof {
            let p = pow2(self.exp as nat);
            lemma_exact_floors(n as nat, self.exp as nat);
            assert((self.sig as nat * p) * factor as nat == n as nat * p) by (nonlinear_arith)
                requires
                    n == self.sig * factor,
            ;
        }
        round(
            n,
            false,
            self.exp as i32,
            Ghost(n as nat * pow2(self.exp as nat)),
            Ghost(1),
        )
    }

    /// The double nearest to the quotient by a whole number.
    pub(crate) fn over(self, divisor: u32) -> (m: Self)
        requires
            self.wf(),
            self.exp <= 4000,
            divisor > 0,
        ensures
            m.units() == nearest(self.units(), divisor as nat),
            m.wf(),
            m.exp < self.exp + 128,
    {
        proof {
            let p = pow2(self.exp as nat);
            assert((self.sig as nat * p) * 1 * divisor as nat == divisor as nat * p
                * self.sig as nat) by (nonlinear_arith);
        }
        divide(
            self.sig,
            divisor as u64,
            self.exp as i32,
            Ghost(self.units()),
            Ghost(divisor as nat),
        )
    }

    /// The double nearest to the quotient of two.
    pub(crate) fn ratio(self, divisor: Self) -> (m: Self)
        requires
            self.wf(),
            self.exp <= 2000,
            divisor.wf(),
            divisor.exp <= 2100,
            divisor.sig > 0,
        ensures
            m.units() == nearest(self.units() * one(), divisor.units()),
            m.wf(),
            m.exp < self.exp + 1202,
    {
        let exp: i32 = self.exp as i32 + 1074 - divisor.exp as i32;
        proof {
            let (a, b, u) = (pow2(self.exp as nat), pow2(divisor.exp as nat), one());
            let (x, y) = (self.sig as nat, divisor.sig as nat);
            lemma_pow2_pos(divisor.exp as nat);
            assert(y * b > 0) by (nonlinear_arith)
                requires
                    y > 0,
                    b > 0,
            ;
            lemma_pow2_adds(self.exp as nat, UNIT_BITS as nat);
            // The exponents, compared.
            assert(a * u * below(exp as int) == b * above(exp as int)) by {
                if exp >= 0 {
                    lemma_pow2_adds(divisor.exp as nat, exp as nat);
                    assert(divisor.exp as nat + exp as nat == self.exp as nat + UNIT_BITS as nat);
                } else {
                    lemma_pow2_adds((self.exp + UNIT_BITS) as nat, (-exp) as nat);
                    assert((self.exp + UNIT_BITS) as nat + (-exp) as nat == divisor.exp as nat);
                }
            }
            assert((x * a * u) * below(exp as int) * y == (y * b) * above(exp as int) * x)
                by (nonlinear_arith)
                requires
                    a * u * below(exp as int) == b * above(exp as int),
            ;
        }
        divide(
            self.sig,
            divisor.sig,
            exp,
            Ghost(self.units() * one()),
            Ghost(divisor.units()),
        )
    }

    /// The whole part, or the largest 64-bit number where that is exceeded.
    pub(crate) fn truncate(self) -> (n: u64)
        requires
            self.wf(),
        ensures
            n == (if self.units() / one() > u64::MAX {
                u64::MAX as nat
            } else {
                self.units() / one()
            }),
    {
        proof {
            lemma_pow2_pos(UNIT_BITS as nat);
        }
        if self.exp >= UNIT_BITS {
            let k: u32 = self.exp - UNIT_BITS;
            proof {
                lemma_pow2_adds(k as nat, UNIT_BITS as nat);
                let (p, u) = (pow2(k as nat), one());
                assert(self.sig as nat * (p * u) == (self.sig as nat * p) * u) by (nonlinear_arith);
                lemma_div_mod_is(self.units(), u, self.sig as nat * p, 0);
            }
            if self.sig == 0 {
                proof {
                    assert(0 * pow2(k as nat) == 0) by (nonlinear_arith);
                }
                return 0;
            }
            if k >= 64 {
                proof {
                    vstd::arithmetic::power2::lemma2_to64();
                    if k > 64 {
                        lemma_pow2_strictly_increases(64, k as nat);
                    }
                    assert(self.sig as nat * pow2(k as nat) >= pow2(k as nat)) by (nonlinear_arith)
                        requires
                            self.sig as nat >= 1,
                    ;
                }
                return u64::MAX;
            }
            let power: u128 = power_of_two(k);
            proof {
                vstd::arithmetic::power2::lemma2_to64();
                lemma_pow2_strictly_increases(k as nat, 64);
                assert(self.sig * power <= 0x20_0000_0000_0000 * 0x1_0000_0000_0000_0000)
                    by (nonlinear_arith)
                    requires
                        self.sig <= 0x20_0000_0000_0000,
                        power <= 0x1_0000_0000_0000_0000,
                ;
            }
            let product: u128 = self.sig as u128 * power;
            if product > u64::MAX as u128 {
                u64::MAX
            } else {
                product as u64
            }
        } else {
            let t: u32 = UNIT_BITS - self.exp;
            proof {
                lemma_pow2_adds(t as nat, self.exp as nat);
                lemma_pow2_pos(t as nat);
                lemma_pow2_pos(self.exp as nat);
                let (p, q) = (pow2(t as nat), pow2(self.exp as nat));
                let (whole, rest) = (self.sig as nat / p, self.sig as nat % p);
                lemma_fundamental_div_mod(self.sig as int, p as int);
                assert(self.sig as nat * q == whole * (p * q) + rest * q) by (nonlinear_arith)
                    requires
                        self.sig as nat == p * whole + rest,
                ;
                assert(rest * q < p * q) by (nonlinear_arith)
                    requires
                        rest < p,
                        q > 0,
                ;
                lemma_div_mod_is(self.units(), p * q, whole, rest * q);
            }
            if t >= 64 {
                proof {
                    vstd::arithmetic::power2::lemma2_to64();
                    if t > 64 {
                        lemma_pow2_strictly_increases(64, t as nat);
                    }
                    lemma_div_mod_is(self.sig as nat, pow2(t as nat), 0, self.sig as nat);
                }
                return 0;
            }
            (self.sig as u128 / power_of_two(t)) as u64
        }
    }

    /// Whether the number is beyond the range of finite doubles.
    pub(crate) fn overflows(self) -> (infinite: bool)
        requires
            self.wf(),
        ensures
            infinite == (self.units() >= overflow()),
    {
        proof {
            lemma_pow2_adds(1024, UNIT_BITS as nat);
            lemma_pow2_pos(2098);
        }
        if self.exp >= 2098 {
            proof {
                if self.exp > 2098 {
                    lemma_pow2_strictly_increases(2098, self.exp as nat);
                }
                let p = pow2(self.exp as nat);
                assert(self.sig > 0 ==> self.sig as nat * p >= p) by (nonlinear_arith);
                assert(0 * p == 0);
            }
            return self.sig > 0;
        }
        let t: u32 = 2098 - self.exp;
        proof {
            lemma_pow2_adds(t as nat, self.exp as nat);
            lemma_pow2_pos(self.exp as nat);
            let (p, q) = (pow2(t as nat), pow2(self.exp as nat));
            assert((self.sig as nat * q >= p * q) == (self.sig >= p)) by (nonlinear_arith)
                requires
                    q > 0,
            ;
        }
        if t >= 64 {
            proof {
                vstd::arithmetic::power2::lemma2_to64();
                if t > 64 {
                    lemma_pow2_strictly_increases(64, t as nat);
                }
            }
            return false;
        }
        self.sig as u128 >= power_of_two(t)
    }
}

/// A whole multiple of a power of two is known exactly.
proof fn lemma_exact_floors(n: nat, exp: nat)
    ensures
        floors_to(n * pow2(exp), 1, n, false, exp as int),
{
    let p = pow2(exp);
    lemma_pow2_pos(exp);
    assert((n + 1) * (1 * p) == n * p + p) by (nonlinear_arith);
}

/// Halfway between two whole numbers the even one is taken: where another whole
/// number is as near, the one that a quotient is rounded to is even.
pub proof fn law_half_even_ties(num: nat, den: nat, other: nat)
    requires
        den > 0,
        other != half_even(num, den),
        distance(num, other * den) == distance(num, half_even(num, den) * den),
    ensures
        half_even(num, den) % 2 == 0,
{
    let quotient = num / den;
    let rest = num % den;
    lemma_fundamental_div_mod(num as int, den as int);
    assert(den * quotient == quotient * den) by (nonlinear_arith);
    assert((quotient + 1) * den == quotient * den + den) by (nonlinear_arith);
    if other < quotient {
        assert(other * den + den <= quotient * den) by (nonlinear_arith)
            requires
                other + 1 <= quotient,
        ;
    } else if other > quotient + 1 {
        assert(other * den >= (quotient + 1) * den + den) by (nonlinear_arith)
            requires
                other >= quotient + 2,
        ;
    }
}

/// Rounding to a whole number is off by at most one half, and where it is off by one
/// half the result is even.
pub proof fn law_half_even_error(num: nat, den: nat)
    requires
        den > 0,
    ensures
        2 * distance(num, half_even(num, den) * den) <= den,
        2 * distance(num, half_even(num, den) * den) == den ==> half_even(num, den) % 2 == 0,
{
    let quotient = num / den;
    lemma_fundamental_div_mod(num as int, den as int);
    assert(den * quotient == quotient * den) by (nonlinear_arith);
    assert((quotient + 1) * den == quotient * den + den) by (nonlinear_arith);
}

/// What rounding to a double means: the result has a significand of 53 bits (the
/// first of the returned numbers, with a power of two, the second), no number with
/// such a significand is nearer, and where another one is as near the significand
/// is even.
pub proof fn law_nearest_double(num: nat, den: nat) -> (parts: (nat, nat))
    requires
        den > 0,
    ensures
        nearest(num, den) == parts.0 * pow2(parts.1),
        parts.0 <= 0x20_0000_0000_0000,
        parts.1 == 0 || parts.0 >= 0x10_0000_0000_0000,
        forall|sig: nat, exp: nat|
            sig <= 0x20_0000_0000_0000 ==> distance(num, parts.0 * pow2(parts.1) * den)
                <= distance(num, #[trigger] with_significand(sig, exp) * den),
        forall|sig: nat, exp: nat|
            sig <= 0x20_0000_0000_0000 && with_significand(sig, exp) != parts.0 * pow2(parts.1)
                && distance(num, #[trigger] with_significand(sig, exp) * den) == distance(
                num,
                parts.0 * pow2(parts.1) * den,
            ) ==> parts.0 % 2 == 0,
{
    let k = spacing(num, den);
    let scale = pow2(k);
    let part = den * scale;
    lemma_spacing_bounds(num, den);
    lemma_pow2_pos(k);
    assert(part > 0) by (nonlinear_arith)
        requires
            part == den * scale,
            den > 0,
            scale > 0,
    ;
    let q = half_even(num, part);
    assert(SIGNIFICANDS * part == den * SIGNIFICANDS * scale) by (nonlinear_arith)
        requires
            part == den * scale,
    ;
    assert(HIDDEN_BIT * part == den * HIDDEN_BIT * scale) by (nonlinear_arith)
        requires
            part == den * scale,
    ;
    lemma_half_even_at_most(num, part, SIGNIFICANDS as nat);
    if k > 0 {
        lemma_half_even_at_least(num, part, HIDDEN_BIT as nat);
    }
    assert(q * scale * den == q * part) by (nonlinear_arith)
        requires
            part == den * scale,
    ;
    assert forall|sig: nat, exp: nat| sig <= 0x20_0000_0000_0000 implies distance(
        num,
        q * scale * den,
    ) <= distance(num, #[trigger] with_significand(sig, exp) * den) by {
        law_nearest_is_nearest(num, den, sig, exp);
    }
    assert forall|sig: nat, exp: nat|
        sig <= 0x20_0000_0000_0000 && with_significand(sig, exp) != q * scale && distance(
            num,
            #[trigger] with_significand(sig, exp) * den,
        ) == distance(num, q * scale * den) implies q % 2 == 0 by {
        lemma_tie_is_even(num, den, sig, exp);
    }
    (q, k)
}

/// A tie between the rounded number and another one, looked at in multiples of the
/// spacing.
proof fn lemma_tie_is_even(num: nat, den: nat, sig: nat, exp: nat)
    requires
        den > 0,
        sig <= SIGNIFICANDS,
        with_significand(sig, exp) != nearest(num, den),
        distance(num, with_significand(sig, exp) * den) == distance(num, nearest(num, den) * den),
    ensures
        half_even(num, den * pow2(spacing(num, den))) % 2 == 0,
{
    let k = spacing(num, den);
    let scale = pow2(k);
    let part = den * scale;
    lemma_spacing_bounds(num, den);
    lemma_pow2_pos(k);
    assert(part > 0) by (nonlinear_arith)
        requires
            part == den * scale,
            den > 0,
            scale > 0,
    ;
    let q = half_even(num, part);
    assert(q * scale * den == q * part) by (nonlinear_arith)
        requires
            part == den * scale,
    ;
    if exp >= k {
        let j = (exp - k) as nat;
        lemma_pow2_adds(j, k);
        let a = pow2(j);
        assert(sig * (a * scale) * den == (sig * a) * part) by (nonlinear_arith)
            requires
                part == den * scale,
        ;
        assert(sig * (a * scale) == (sig * a) * scale) by (nonlinear_arith);
        law_half_even_ties(num, part, sig * a);
    } else {
        let j = (k - exp) as nat;
        lemma_pow2_adds(exp, j);
        lemma_pow2_unfold(j);
        lemma_pow2_pos((j - 1) as nat);
        lemma_pow2_pos(exp);
        let (a, b) = (pow2(exp), pow2((j - 1) as nat));
        let other = sig * a * den;
        assert(other <= HIDDEN_BIT * part) by (nonlinear_arith)
            requires
                other == sig * a * den,
                part == den * (a * (2 * b)),
                sig <= 2 * HIDDEN_BIT,
                b >= 1,
                a >= 1,
                den >= 1,
        ;
        assert(den * HIDDEN_BIT * scale == HIDDEN_BIT * part) by (nonlinear_arith)
            requires
                part == den * scale,
        ;
        law_half_even_nearest(num, part, HIDDEN_BIT as nat);
        assert(other == HIDDEN_BIT * part);
        if HIDDEN_BIT == q {
            let (x, y) = (sig * a, q * scale);
            assert(x == y) by (nonlinear_arith)
                requires
                    x * den == y * den,
                    den > 0,
            ;
        }
        law_half_even_ties(num, part, HIDDEN_BIT as nat);
    }
}

/// The encodings of doubles count up from zero: the next pattern of bits stands for
/// the next number, one step of the present power of two further, up to infinity.
pub proof fn law_bits_count_up(bits: u64)
    requires
        bits < 0x7fef_ffff_ffff_ffff,
    ensures
        (Double { bits: 0 }).value() == (Value::Finite { negative: false, units: 0 }),
        ({
            let exponent = bits as nat / 0x10_0000_0000_0000;
            let step = pow2((if exponent == 0 {
                0
            } else {
                exponent - 1
            }) as nat);
            let next = (Double { bits: (bits + 1) as u64 }).value();
            (Double { bits }).value() matches Value::Finite { negative, units } && !negative && next
                == Value::Finite { negative: false, units: units + step }
        }),
{
    let b = bits as nat;
    let h: nat = 0x10_0000_0000_0000;
    let (e, f) = (b / h, b % h);
    lemma_pow2_zero();
    assert(e < 2047);
    assert(0 * pow2(0) == 0);
    if f + 1 < h {
        lemma_div_mod_is(b + 1, h, e, f + 1);
        if e > 0 {
            let p = pow2((e - 1) as nat);
            assert((h + f + 1) * p == (h + f) * p + p) by (nonlinear_arith);
        }
    } else {
        lemma_div_mod_is(b + 1, h, e + 1, 0);
        if e > 0 {
            lemma_pow2_unfold(e);
            let p = pow2((e - 1) as nat);
            assert((h + 0) * (2 * p) == (h + f) * p + p) by (nonlinear_arith)
                requires
                    f + 1 == h,
            ;
        } else {
            assert((h + 0) * pow2(0) == h);
        }
    }
}

/// The patterns above the finite numbers, and those with the sign bit.
pub proof fn law_bits_special(bits: u64)
    requires
        bits < 0x8000_0000_0000_0000,
    ensures
        bits == 0x7ff0_0000_0000_0000 ==> (Double { bits }).value() == (Value::Infinite {
            negative: false,
        }),
        bits > 0x7ff0_0000_0000_0000 ==> (Double { bits }).value() == Value::Nan,
        ({
            let minus = (Double { bits: (bits + 0x8000_0000_0000_0000) as u64 }).value();
            match (Double { bits }).value() {
                Value::Nan => minus == Value::Nan,
                Value::Infinite { negative } => !negative && minus == (Value::Infinite {
                    negative: true,
                }),
                Value::Finite { negative, units } => !negative && minus == (Value::Finite {
                    negative: true,
                    units,
                }),
            }
        }),
{
    let h: int = 0x10_0000_0000_0000;
    let (b, m) = (bits as int, bits as int + 0x8000_0000_0000_0000);
    assert(m == b + 2048 * h);
    assert(m / h == b / h + 2048);
    assert(m % h == b % h);
    assert((b / h + 2048) % 2048 == (b / h) % 2048);
}

} // verus!
