//! Decimal digits and the text of whole numbers.

use vstd::arithmetic::power::{lemma_pow_adds, lemma_pow_positive, pow};
use vstd::prelude::*;

verus! {

/// Ten to the power of `n`.
pub open spec fn pow10(n: nat) -> nat {
    pow(10, n) as nat
}

/// The character of a digit.
pub open spec fn digit(d: nat) -> char {
    ('0' as nat + d) as char
}

/// A whole number in decimal, without leading zeros.
pub open spec fn decimal(n: nat) -> Seq<char>
    decreases n,
{
    if n < 10 {
        seq![digit(n)]
    } else {
        decimal(n / 10).push(digit(n % 10))
    }
}

/// The standard library's `String::push` appends one character at the end.
pub assume_specification[ String::push ](string: &mut String, c: char)
    ensures
        final(string)@ == old(string)@.push(c),
;

/// Whether all elements are digits.
pub open spec fn all_digits(ds: Seq<u8>) -> bool {
    forall|i: int| 0 <= i < ds.len() ==> #[trigger] ds[i] < 10
}

/// The number that a sequence of digits stands for, the last digit (of weight
/// one) first.
pub open spec fn number(ds: Seq<u8>) -> nat
    decreases ds.len(),
{
    if ds.len() == 0 {
        0
    } else {
        ds[0] as nat + 10 * number(ds.drop_first())
    }
}

/// Digits of a number, the last digit first, without superfluous zeros.
pub open spec fn canonical(ds: Seq<u8>) -> bool {
    &&& all_digits(ds)
    &&& ds.len() > 0
    &&& ds.len() > 1 ==> ds.last() != 0
}

/// The first powers of ten.
pub proof fn lemma_pow10_first()
    ensures
        pow10(0) == 1,
        pow10(1) == 10,
        pow10(2) == 100,
        pow10(3) == 1000,
{
    reveal_with_fuel(pow, 4);
}

/// One more zero.
pub proof fn lemma_pow10_unfold(n: nat)
    ensures
        pow10(n) > 0,
        pow10(n + 1) == 10 * pow10(n),
{
    lemma_pow_positive(10, n);
    reveal(pow);
}

/// Powers of ten multiply.
pub proof fn lemma_pow10_adds(a: nat, b: nat)
    ensures
        pow10(a + b) == pow10(a) * pow10(b),
        pow10(a) > 0,
        pow10(b) > 0,
{
    lemma_pow_adds(10, a, b);
    lemma_pow_positive(10, a);
    lemma_pow_positive(10, b);
}

/// One more digit in front.
pub proof fn lemma_number_push(ds: Seq<u8>, d: u8)
    ensures
        number(ds.push(d)) == number(ds) + d as nat * pow10(ds.len()),
    decreases ds.len(),
{
    lemma_pow10_first();
    if ds.len() == 0 {
        assert(ds.push(d).drop_first() =~= Seq::<u8>::empty());
        assert(number(ds.push(d)) == d as nat + 10 * number(Seq::<u8>::empty()));
    } else {
        assert(ds.push(d).drop_first() =~= ds.drop_first().push(d));
        lemma_number_push(ds.drop_first(), d);
        lemma_pow10_unfold((ds.len() - 1) as nat);
        let p = pow10((ds.len() - 1) as nat);
        assert(10 * (d as nat * p) == d as nat * (10 * p)) by (nonlinear_arith);
    }
}

/// A number from its lower and its upper digits.
pub proof fn lemma_number_split(ds: Seq<u8>, i: int)
    requires
        0 <= i <= ds.len(),
    ensures
        number(ds) == number(ds.take(i)) + pow10(i as nat) * number(ds.skip(i)),
    decreases i,
{
    lemma_pow10_first();
    if i == 0 {
        assert(ds.take(0) =~= Seq::<u8>::empty());
        assert(ds.skip(0) =~= ds);
        assert(number(ds.take(0)) == 0);
        assert(pow10(0) * number(ds) == number(ds)) by (nonlinear_arith)
            requires
                pow10(0) == 1,
        ;
    } else {
        let rest = ds.drop_first();
        lemma_number_split(rest, i - 1);
        assert(ds.take(i).drop_first() =~= rest.take(i - 1));
        assert(ds.skip(i) =~= rest.skip(i - 1));
        lemma_pow10_unfold((i - 1) as nat);
        let (p, x) = (pow10((i - 1) as nat), number(ds.skip(i)));
        assert(10 * (p * x) == (10 * p) * x) by (nonlinear_arith);
    }
}

/// A number whose first digit is not zero is at least the power of ten of that
/// digit.
pub proof fn lemma_number_leading(ds: Seq<u8>)
    requires
        ds.len() > 0,
        ds.last() != 0,
    ensures
        number(ds) >= pow10((ds.len() - 1) as nat),
{
    let d = ds.last();
    let p = pow10((ds.len() - 1) as nat);
    assert(ds =~= ds.drop_last().push(d));
    lemma_number_push(ds.drop_last(), d);
    assert(d as nat * p >= p) by (nonlinear_arith)
        requires
            d >= 1,
    ;
}

/// A number is smaller than the next power of ten after its digits.
pub proof fn lemma_number_bound(ds: Seq<u8>)
    requires
        all_digits(ds),
    ensures
        number(ds) < pow10(ds.len()),
    decreases ds.len(),
{
    lemma_pow10_first();
    if ds.len() > 0 {
        assert(all_digits(ds.drop_first())) by {
            assert(forall|i: int|
                0 <= i < ds.len() - 1 ==> ds.drop_first()[i] == #[trigger] ds[i + 1]);
        }
        lemma_number_bound(ds.drop_first());
        lemma_pow10_unfold((ds.len() - 1) as nat);
        assert(ds[0] < 10);
    }
}

/// The text of digits is that of the number that they stand for.
proof fn lemma_decimal_of_digits(ds: Seq<u8>)
    requires
        canonical(ds),
    ensures
        decimal(number(ds)) == Seq::new(
            ds.len(),
            |i: int| digit(ds[ds.len() - 1 - i] as nat),
        ),
        ds.len() > 1 ==> number(ds) >= 10,
    decreases ds.len(),
{
    let text = Seq::new(ds.len(), |i: int| digit(ds[ds.len() - 1 - i] as nat));
    let rest = ds.drop_first();
    assert(ds[0] < 10);
    if ds.len() == 1 {
        assert(number(rest) == 0);
        assert(text =~= seq![digit(ds[0] as nat)]);
    } else {
        assert(forall|i: int| 0 <= i < rest.len() ==> rest[i] == #[trigger] ds[i + 1]);
        assert(rest.last() == ds.last());
        assert(canonical(rest));
        lemma_decimal_of_digits(rest);
        if rest.len() == 1 {
            assert(number(rest.drop_first()) == 0);
            assert(number(rest) == rest[0]);
        }
        let upper = Seq::new(rest.len(), |i: int| digit(rest[rest.len() - 1 - i] as nat));
        assert(number(ds) / 10 == number(rest));
        assert(number(ds) % 10 == ds[0]);
        assert(text =~= upper.push(digit(ds[0] as nat)));
    }
}

/// The digits of a 64-bit number, the last digit first.
pub(crate) fn digits_of(n: u64) -> (ds: Vec<u8>)
    ensures
        canonical(ds@),
        number(ds@) == n,
{
    let mut ds: Vec<u8> = Vec::new();
    let mut rest: u64 = n;
    proof {
        lemma_pow10_first();
        assert(rest as nat * pow10(0) == rest);
    }
    while rest >= 10
        invariant
            all_digits(ds@),
            rest > 0 || ds@.len() == 0,
            n == number(ds@) + rest as nat * pow10(ds@.len()),
        decreases rest,
    {
        let d: u8 = (rest % 10) as u8;
        proof {
            lemma_number_push(ds@, d);
            lemma_pow10_unfold(ds@.len());
            let (p, q) = (pow10(ds@.len()), rest as nat / 10);
            assert((10 * q + d as nat) * p == d as nat * p + q * (10 * p)) by (nonlinear_arith);
        }
        ds.push(d);
        rest = rest / 10;
    }
    proof {
        lemma_number_push(ds@, rest as u8);
    }
    ds.push(rest as u8);
    ds
}

/// Double a number in place.  The digit that does not fit is returned.
pub(crate) fn double_digits(ds: &mut Vec<u8>) -> (carry: u8)
    requires
        all_digits(old(ds)@),
    ensures
        final(ds)@.len() == old(ds)@.len(),
        all_digits(final(ds)@),
        carry <= 1,
        2 * number(old(ds)@) == number(final(ds)@) + carry as nat * pow10(old(ds)@.len()),
        old(ds)@.len() > 0 && old(ds)@.last() != 0 && carry == 0 ==> final(ds)@.last() != 0,
{
    let ghost before = ds@;
    let mut carry: u8 = 0;
    let mut i: usize = 0;
    proof {
        lemma_pow10_first();
        assert(ds@.take(0) =~= Seq::<u8>::empty());
    }
    while i < ds.len()
        invariant
            i <= ds@.len(),
            ds@.len() == before.len(),
            all_digits(before),
            all_digits(ds@),
            carry <= 1,
            forall|j: int| i <= j < ds@.len() ==> ds@[j] == before[j],
            2 * number(before.take(i as int)) == number(ds@.take(i as int)) + carry as nat * pow10(
                i as nat,
            ),
            i == ds@.len() && i > 0 && before.last() != 0 && carry == 0 ==> ds@.last() != 0,
        decreases ds@.len() - i,
    {
        let sum: u8 = 2 * ds[i] + carry;
        let d: u8 = if sum >= 10 {
            sum - 10
        } else {
            sum
        };
        let next: u8 = if sum >= 10 {
            1
        } else {
            0
        };
        proof {
            assert(before[i as int] == ds@[i as int]);
            let p = pow10(i as nat);
            let b = before[i as int];
            lemma_pow10_unfold(i as nat);
            lemma_number_push(before.take(i as int), b);
            lemma_number_push(ds@.take(i as int), d);
            assert(before.take(i + 1) =~= before.take(i as int).push(b));
            assert(ds@.update(i as int, d).take(i + 1) =~= ds@.take(i as int).push(d));
            assert(2 * (b as nat * p) + carry as nat * p == d as nat * p + next as nat * (10 * p))
                by (nonlinear_arith)
                requires
                    2 * b + carry == d + 10 * next,
            ;
        }
        ds.set(i, d);
        carry = next;
        i = i + 1;
    }
    proof {
        assert(before.take(i as int) =~= before);
        assert(ds@.take(i as int) =~= ds@);
    }
    carry
}

/// Whether digits stand for zero.
pub(crate) fn is_zero(ds: &Vec<u8>) -> (zero: bool)
    ensures
        zero == (number(ds@) == 0),
{
    let mut i: usize = 0;
    proof {
        assert(ds@.take(0) =~= Seq::<u8>::empty());
    }
    while i < ds.len()
        invariant
            i <= ds@.len(),
            number(ds@.take(i as int)) == 0,
        decreases ds@.len() - i,
    {
        proof {
            let d = ds@[i as int];
            assert(ds@.take(i + 1) =~= ds@.take(i as int).push(d));
            lemma_number_push(ds@.take(i as int), d);
            assert(0 * pow10(i as nat) == 0) by (nonlinear_arith);
            if d != 0 {
                lemma_pow10_unfold(i as nat);
                let p = pow10(i as nat);
                assert(d as nat * p > 0) by (nonlinear_arith)
                    requires
                        d > 0,
                        p > 0,
                ;
                lemma_number_split(ds@, i + 1);
                let (q, x) = (pow10((i + 1) as nat), number(ds@.skip(i + 1)));
                assert(q * x >= 0) by (nonlinear_arith);
            }
        }
        if ds[i] != 0 {
            return false;
        }
        i = i + 1;
    }
    proof {
        assert(ds@.take(i as int) =~= ds@);
    }
    true
}

/// Append a number to a text.
pub(crate) fn push_digits(out: &mut String, ds: &Vec<u8>)
    requires
        canonical(ds@),
    ensures
        final(out)@ == old(out)@ + decimal(number(ds@)),
{
    let ghost text = Seq::new(ds@.len(), |i: int| digit(ds@[ds@.len() - 1 - i] as nat));
    let ghost before = out@;
    proof {
        lemma_decimal_of_digits(ds@);
        assert(before + text.take(0) =~= before);
    }
    let mut i: usize = ds.len();
    while i > 0
        invariant
            i <= ds@.len(),
            all_digits(ds@),
            text == Seq::new(ds@.len(), |i: int| digit(ds@[ds@.len() - 1 - i] as nat)),
            out@ == before + text.take(ds@.len() - i),
        decreases i,
    {
        i = i - 1;
        proof {
            let k = ds@.len() - 1 - i;
            assert(ds@[i as int] < 10);
            assert(text.take(k + 1) =~= text.take(k).push(text[k]));
        }
        out.push(('0' as u8 + ds[i]) as char);
        proof {
            let k = ds@.len() - 1 - i;
            assert(before + text.take(k + 1) =~= (before + text.take(k)).push(text[k]));
        }
    }
    proof {
        assert(text.take(ds@.len() as int) =~= text);
    }
}

/// Append a 64-bit number to a text.
pub(crate) fn push_number(out: &mut String, n: u64)
    ensures
        final(out)@ == old(out)@ + decimal(n as nat),
{
    let ds = digits_of(n);
    push_digits(out, &ds);
}

} // verus!
