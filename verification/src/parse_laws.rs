//! Which texts are bandwidths, and what they stand for.

use crate::decimal::{lemma_pow10_first, lemma_pow10_unfold, pow10};
use crate::double::{distance, law_nearest_double, nearest, with_significand};
use crate::parse::{
    are_digits, bandwidth_of, digits_value, exponent, exponent_value, failure_text, is_digit,
    is_white_space, is_word, law_within_one_of_exact, leading_digits, lower, multiplier,
    number_text, plain, scaled_quotient, split_digits, trimmed, unsigned, BandwidthError, Failure,
    NumberError,
};
use vstd::arithmetic::power2::pow2;
use vstd::prelude::*;

verus! {

/// What a text of a bandwidth consists of.
pub struct Shape {
    pub sign: Seq<char>,
    pub whole: Seq<char>,
    pub point: bool,
    pub part: Seq<char>,
    pub mark: char,
    pub exponent_sign: Seq<char>,
    pub exponent: Seq<char>,
    pub suffix: Seq<char>,
}

impl Shape {
    /// The digits and the point.
    pub open spec fn digits(self) -> Seq<char> {
        self.whole + if self.point {
            seq!['.'] + self.part
        } else {
            Seq::empty()
        }
    }

    /// The exponent, with its mark and its sign.
    pub open spec fn exponent_text(self) -> Seq<char> {
        if self.exponent.len() == 0 {
            Seq::empty()
        } else {
            seq![self.mark] + self.exponent_sign + self.exponent
        }
    }

    /// All of it.
    pub open spec fn text(self) -> Seq<char> {
        self.sign + self.digits() + self.exponent_text() + self.suffix
    }

    /// An optional sign; digits, with an optional point among or beside them; an
    /// optional exponent, which is `e`, an optional sign and digits; and an optional
    /// suffix.
    pub open spec fn wf(self) -> bool {
        &&& self.sign.len() == 0 || self.sign == seq!['+'] || self.sign == seq!['-']
        &&& forall|i: int| 0 <= i < self.whole.len() ==> '0' <= #[trigger] self.whole[i] <= '9'
        &&& forall|i: int| 0 <= i < self.part.len() ==> '0' <= #[trigger] self.part[i] <= '9'
        &&& self.point || self.part.len() == 0
        &&& self.whole.len() + self.part.len() > 0
        &&& self.mark == 'e' || self.mark == 'E'
        &&& self.exponent_sign.len() == 0 || self.exponent_sign == seq!['+']
            || self.exponent_sign == seq!['-']
        &&& forall|i: int|
            0 <= i < self.exponent.len() ==> '0' <= #[trigger] self.exponent[i] <= '9'
        &&& self.suffix.len() == 0 || (self.suffix.len() == 1 && (self.suffix[0] == 'G'
            || self.suffix[0] == 'g' || self.suffix[0] == 'M' || self.suffix[0] == 'm'
            || self.suffix[0] == 'K' || self.suffix[0] == 'k'))
    }
}

/// Digits, and then none, start with these digits.
proof fn lemma_leading_digits_then(digits: Seq<char>, rest: Seq<char>)
    requires
        are_digits(digits),
        rest.len() == 0 || !is_digit(rest[0]),
    ensures
        leading_digits(digits + rest) == digits.len(),
    decreases digits.len(),
{
    let s = digits + rest;
    if digits.len() == 0 {
        assert(s =~= rest);
    } else {
        assert(is_digit(digits[0]));
        let less = digits.drop_first();
        assert forall|i: int| 0 <= i < less.len() implies is_digit(#[trigger] less[i]) by {
            assert(less[i] == digits[i + 1]);
        }
        lemma_leading_digits_then(less, rest);
        assert(s.drop_first() =~= less + rest);
        assert(s.first() == digits[0]);
    }
}

/// The digits that a text starts with are digits.
proof fn lemma_leading_are_digits(s: Seq<char>)
    ensures
        leading_digits(s) <= s.len(),
        are_digits(s.take(leading_digits(s) as int)),
    decreases s.len(),
{
    if s.len() > 0 && is_digit(s.first()) {
        let rest = s.drop_first();
        lemma_leading_are_digits(rest);
        let (n, m) = (leading_digits(s) as int, leading_digits(rest) as int);
        assert forall|i: int| 0 <= i < n implies is_digit(#[trigger] s.take(n)[i]) by {
            if i > 0 {
                assert(rest.take(m)[i - 1] == s.take(n)[i]);
            }
        }
    }
}

/// A text falls apart where it was put together.
proof fn lemma_split_digits(shape: Shape)
    requires
        shape.wf(),
    ensures
        split_digits(shape.digits() + shape.exponent_text()) == (
            shape.whole,
            shape.part,
            shape.exponent_text(),
        ),
        are_digits(shape.whole),
        are_digits(shape.part),
        are_digits(shape.exponent),
{
    let tail = shape.exponent_text();
    let body = shape.digits() + tail;
    let n = shape.whole.len() as int;
    assert forall|i: int| 0 <= i < shape.whole.len() implies is_digit(
        #[trigger] shape.whole[i],
    ) by {}
    assert forall|i: int| 0 <= i < shape.part.len() implies is_digit(#[trigger] shape.part[i]) by {}
    assert forall|i: int| 0 <= i < shape.exponent.len() implies is_digit(
        #[trigger] shape.exponent[i],
    ) by {}
    if shape.point {
        let rest = seq!['.'] + shape.part + tail;
        assert(body =~= shape.whole + rest);
        lemma_leading_digits_then(shape.whole, rest);
        assert(body.skip(n) =~= rest);
        assert(body.take(n) =~= shape.whole);
        let behind = shape.part + tail;
        assert(rest.drop_first() =~= behind);
        lemma_leading_digits_then(shape.part, tail);
        let m = shape.part.len() as int;
        assert(behind.take(m) =~= shape.part);
        assert(behind.skip(m) =~= tail);
    } else {
        assert(body =~= shape.whole + tail);
        lemma_leading_digits_then(shape.whole, tail);
        assert(body.skip(n) =~= tail);
        assert(body.take(n) =~= shape.whole);
        assert(shape.part =~= Seq::<char>::empty());
    }
}

/// The digits of an exponent count until its size reaches 65536: the first `count`
/// of them.
pub proof fn law_exponent_size(digits: Seq<char>, count: int)
    requires
        0 <= count <= digits.len(),
        count == digits.len() || digits_value(digits.take(count)) >= 0x1_0000,
        count == 0 || digits_value(digits.take(count - 1)) < 0x1_0000,
    ensures
        exponent_value(digits) == digits_value(digits.take(count)),
    decreases digits.len(),
{
    assert(digits.take(digits.len() as int) =~= digits);
    if digits.len() > 0 {
        let front = digits.drop_last();
        let n = front.len() as int;
        assert(digits.take(n) =~= front);
        assert(front.take(n) =~= front);
        if count == digits.len() {
            if n > 0 {
                assert(front.take(n - 1) =~= front.drop_last());
                assert(digits_value(front) >= 10 * digits_value(front.drop_last()));
            }
            law_exponent_size(front, n);
        } else {
            assert(front.take(count) =~= digits.take(count));
            if count > 0 {
                assert(front.take(count - 1) =~= digits.take(count - 1));
            }
            law_exponent_size(front, count);
        }
    }
}

/// The exponent of a text.
proof fn lemma_exponent(shape: Shape)
    requires
        shape.wf(),
    ensures
        exponent(shape.exponent_text()) == Some(
            if shape.exponent_sign == seq!['-'] {
                -exponent_value(shape.exponent)
            } else {
                exponent_value(shape.exponent) as int
            },
        ),
{
    lemma_split_digits(shape);
    let tail = shape.exponent_text();
    if shape.exponent.len() > 0 {
        let rest = tail.drop_first();
        assert(tail.first() == shape.mark);
        assert(rest =~= shape.exponent_sign + shape.exponent);
        if shape.exponent_sign.len() == 0 {
            assert(rest =~= shape.exponent);
            assert(is_digit(shape.exponent[0]));
            assert(shape.exponent_sign != seq!['-']) by {
                assert(seq!['-'].len() == 1);
            }
        } else {
            assert(rest.first() == shape.exponent_sign[0]);
            assert(rest.drop_first() =~= shape.exponent);
            assert(seq!['+'][0] == '+' && seq!['-'][0] == '-');
        }
    }
}

/// The first and the last character of what stands between the sign and the suffix.
proof fn lemma_ends(shape: Shape)
    requires
        shape.wf(),
    ensures
        ({
            let body = shape.digits() + shape.exponent_text();
            &&& body.len() > 0
            &&& is_digit(body.first()) || body.first() == '.'
            &&& is_digit(body.last()) || body.last() == '.'
        }),
{
    lemma_split_digits(shape);
    let digits = shape.digits();
    let body = digits + shape.exponent_text();
    assert(digits.len() > 0);
    assert(body.first() == digits.first());
    if shape.whole.len() > 0 {
        assert(is_digit(shape.whole[0]));
        assert(digits.first() == shape.whole[0]);
    } else {
        assert(digits.first() == '.');
    }
    if shape.exponent.len() > 0 {
        assert(is_digit(shape.exponent[shape.exponent.len() - 1]));
        assert(body.last() == shape.exponent.last());
    } else {
        assert(body =~= digits);
        if !shape.point {
            assert(digits =~= shape.whole);
            assert(is_digit(shape.whole[shape.whole.len() - 1]));
        } else if shape.part.len() > 0 {
            assert(is_digit(shape.part[shape.part.len() - 1]));
            assert(digits.last() == shape.part.last());
        } else {
            assert(digits.last() == '.');
        }
    }
}

/// Nothing of a text is trimmed, and its number is what stands in front of the
/// suffix.
proof fn lemma_number_text(number: Seq<char>, suffix: Seq<char>)
    requires
        number.len() > 0,
        !is_white_space(number.first()),
        !is_white_space(number.last()),
        multiplier(number.last()) == 1,
        suffix.len() == 0 || (suffix.len() == 1 && multiplier(suffix[0]) != 1),
    ensures
        trimmed(number + suffix) == number + suffix,
        number_text(number + suffix) == number,
        multiplier((number + suffix).last()) == (if suffix.len() == 0 {
            1
        } else {
            multiplier(suffix[0])
        }),
{
    let text = number + suffix;
    assert(text.first() == number.first());
    if suffix.len() == 0 {
        assert(text =~= number);
    } else {
        assert(text.last() == suffix[0]);
        assert(text.drop_last() =~= number);
    }
}

/// A sign in front of what starts with none.
proof fn lemma_unsigned(sign: Seq<char>, body: Seq<char>)
    requires
        sign.len() == 0 || sign == seq!['+'] || sign == seq!['-'],
        body.len() > 0,
        body.first() != '+' && body.first() != '-',
    ensures
        unsigned(sign + body) == (sign == seq!['-'], body),
{
    let s = sign + body;
    assert(seq!['-'].len() == 1 && seq!['-'][0] == '-' && seq!['+'][0] == '+');
    if sign.len() == 0 {
        assert(s =~= body);
    } else {
        assert(s.first() == sign[0]);
        assert(s.drop_first() =~= body);
    }
}

/// A decimal number is read as the number that its digits stand for, with the point
/// where it was written, times a power of ten where there is an exponent, and times
/// what the suffix stands for.  What is negative gives zero, and what does not fit in
/// 32 bits is refused.
pub proof fn law_decimal_numbers(shape: Shape)
    requires
        shape.wf(),
    ensures
        ({
            let mantissa = digits_value(shape.whole + shape.part);
            let scale = (if shape.exponent_sign == seq!['-'] {
                -exponent_value(shape.exponent)
            } else {
                exponent_value(shape.exponent) as int
            }) - shape.part.len();
            let factor: nat = if shape.suffix.len() == 0 {
                1
            } else if shape.suffix[0] == 'G' || shape.suffix[0] == 'g' {
                1_000_000_000
            } else if shape.suffix[0] == 'M' || shape.suffix[0] == 'm' {
                1_000_000
            } else {
                1_000
            };
            let result = if scale >= 0 {
                scaled_quotient(mantissa * pow10(scale as nat), 1, factor)
            } else {
                scaled_quotient(mantissa, pow10((-scale) as nat), factor)
            };
            bandwidth_of(shape.text()) == (if shape.sign == seq!['-'] {
                Ok(0u32)
            } else if result > 0xffff_ffff {
                Err(Failure::TooLarge { text: shape.text() })
            } else {
                Ok(result as u32)
            })
        }),
{
    let body = shape.digits() + shape.exponent_text();
    let number = shape.sign + body;
    lemma_ends(shape);
    lemma_split_digits(shape);
    lemma_exponent(shape);
    assert(shape.text() =~= number + shape.suffix);
    assert(number.last() == body.last());
    if shape.sign.len() == 0 {
        assert(number =~= body);
    } else {
        assert(number.first() == shape.sign[0]);
        assert(seq!['-'][0] == '-' && seq!['+'][0] == '+');
    }
    lemma_number_text(number, shape.suffix);
    lemma_unsigned(shape.sign, body);
    lemma_no_word(body);
}

/// What starts with a digit or a point is none of the words.
proof fn lemma_no_word(body: Seq<char>)
    requires
        body.len() > 0,
        is_digit(body.first()) || body.first() == '.',
    ensures
        !is_word(body, "nan"@),
        !is_word(body, "inf"@),
        !is_word(body, "infinity"@),
{
    reveal_strlit("nan");
    reveal_strlit("inf");
    reveal_strlit("infinity");
    let lowered = body.map_values(|c: char| lower(c));
    assert(lowered[0] == body[0]);
    assert("nan"@[0] == 'n');
    assert("inf"@[0] == 'i');
    assert("infinity"@[0] == 'i');
}

/// The product of a quotient and the factor of a suffix, in doubles: the double
/// nearest to the quotient (its significand and its power of two are the first two
/// of the returned numbers), times the factor, again as the nearest double (the
/// other two), cut down to a whole number.  Ties go to the even significand, and
/// what is beyond the ranges is the greatest number of 64 bits.
pub proof fn law_scaled_rounded(num: nat, den: nat, factor: nat) -> (parts: (nat, nat, nat, nat))
    requires
        den > 0,
    ensures
        ({
            let exact = num * pow2(1074);
            let double = parts.0 * pow2(parts.1);
            let product = parts.2 * pow2(parts.3);
            let limit = pow2(1024) * pow2(1074);
            &&& parts.0 <= 0x20_0000_0000_0000 && parts.2 <= 0x20_0000_0000_0000
            &&& parts.1 == 0 || parts.0 >= 0x10_0000_0000_0000
            &&& parts.3 == 0 || parts.2 >= 0x10_0000_0000_0000
            &&& forall|s: nat, e: nat|
                s <= 0x20_0000_0000_0000 ==> distance(exact, double * den) <= distance(
                    exact,
                    #[trigger] with_significand(s, e) * den,
                )
            &&& forall|s: nat, e: nat|
                s <= 0x20_0000_0000_0000 && with_significand(s, e) != double && distance(
                    exact,
                    #[trigger] with_significand(s, e) * den,
                ) == distance(exact, double * den) ==> parts.0 % 2 == 0
            &&& forall|s: nat, e: nat|
                s <= 0x20_0000_0000_0000 ==> distance(double * factor, product) <= distance(
                    double * factor,
                    #[trigger] with_significand(s, e),
                )
            &&& forall|s: nat, e: nat|
                s <= 0x20_0000_0000_0000 && #[trigger] with_significand(s, e) != product
                    && distance(double * factor, with_significand(s, e)) == distance(
                    double * factor,
                    product,
                ) ==> parts.2 % 2 == 0
            &&& scaled_quotient(num, den, factor) == (if double >= limit || product >= limit
                || product / pow2(1074) > 0xffff_ffff_ffff_ffff {
                0xffff_ffff_ffff_ffff
            } else {
                product / pow2(1074)
            })
        }),
{
    let (a, b) = law_nearest_double(num * pow2(1074), den);
    let exact = nearest(num * pow2(1074), den) * factor;
    let (c, d) = law_nearest_double(exact, 1);
    let product = nearest(exact, 1);
    assert forall|s: nat, e: nat| s <= 0x20_0000_0000_0000 implies distance(exact, product)
        <= distance(exact, #[trigger] with_significand(s, e)) by {
        assert(with_significand(s, e) * 1 == with_significand(s, e));
    }
    assert forall|s: nat, e: nat|
        s <= 0x20_0000_0000_0000 && #[trigger] with_significand(s, e) != product && distance(
            exact,
            with_significand(s, e),
        ) == distance(exact, product) implies c % 2 == 0 by {
        assert(with_significand(s, e) * 1 == with_significand(s, e));
    }
    (a, b, c, d)
}

/// Digits behind digits.
proof fn lemma_digits_value_concat(a: Seq<char>, b: Seq<char>)
    ensures
        digits_value(a + b) == digits_value(a) * pow10(b.len()) + digits_value(b),
    decreases b.len(),
{
    lemma_pow10_first();
    if b.len() == 0 {
        assert(a + b =~= a);
        assert(digits_value(a) * pow10(0) == digits_value(a)) by (nonlinear_arith)
            requires
                pow10(0) == 1,
        ;
    } else {
        let rest = b.drop_last();
        lemma_digits_value_concat(a, rest);
        assert((a + b).drop_last() =~= a + rest);
        assert((a + b).last() == b.last());
        lemma_pow10_unfold(rest.len());
        let (v, p) = (digits_value(a), pow10(rest.len()));
        assert(10 * (v * p) == v * (10 * p)) by (nonlinear_arith);
    }
}

/// A decimal with a point, and with or without a suffix, gives the whole part of the
/// number that was written, times what the suffix stands for, or one more or one
/// less, as far as that fits in 32 bits.
pub proof fn law_fractions_within_one(whole: Seq<char>, part: Seq<char>, suffix: Seq<char>)
    requires
        (Shape {
            sign: Seq::empty(),
            whole,
            point: true,
            part,
            mark: 'e',
            exponent_sign: Seq::empty(),
            exponent: Seq::empty(),
            suffix,
        }).wf(),
    ensures
        ({
            let factor: nat = if suffix.len() == 0 {
                1
            } else if suffix[0] == 'G' || suffix[0] == 'g' {
                1_000_000_000
            } else if suffix[0] == 'M' || suffix[0] == 'm' {
                1_000_000
            } else {
                1_000
            };
            let den = pow10(part.len());
            let exact = (digits_value(whole) * den + digits_value(part)) * factor;
            exact < 0xffff_ffff * den ==> {
                &&& bandwidth_of(whole + seq!['.'] + part + suffix) is Ok
                &&& distance(
                    bandwidth_of(whole + seq!['.'] + part + suffix)->Ok_0 as nat,
                    exact / den,
                ) <= 1
            }
        }),
{
    let shape = Shape {
        sign: Seq::empty(),
        whole,
        point: true,
        part,
        mark: 'e',
        exponent_sign: Seq::empty(),
        exponent: Seq::empty(),
        suffix,
    };
    law_decimal_numbers(shape);
    assert(shape.text() =~= whole + seq!['.'] + part + suffix);
    assert(seq!['-'].len() == 1);
    lemma_digits_value_concat(whole, part);
    lemma_pow10_first();
    lemma_pow10_unfold(part.len());
    let factor: nat = if suffix.len() == 0 {
        1
    } else {
        multiplier(suffix[0])
    };
    let mantissa = digits_value(whole + part);
    let den = pow10(part.len());
    let exact = mantissa * factor;
    assert(mantissa * pow10(0) == mantissa) by (nonlinear_arith)
        requires
            pow10(0) == 1,
    ;
    if exact < 0xffff_ffff * den {
        law_within_one_of_exact(mantissa, den, factor);
        assert(exact / den < 0xffff_ffff) by (nonlinear_arith)
            requires
                exact < 0xffff_ffff * den,
                den > 0,
        ;
    }
}

/// The words are read in whatever case: not-a-number gives zero, and so does what is
/// infinite and negative; what is infinite and positive is refused.
pub proof fn law_words(sign: Seq<char>, word: Seq<char>, suffix: Seq<char>)
    requires
        sign.len() == 0 || sign == seq!['+'] || sign == seq!['-'],
        word.len() == 3 || word.len() == 8,
        suffix.len() == 0 || (suffix.len() == 1 && multiplier(suffix[0]) != 1),
    ensures
        ({
            let text = sign + word + suffix;
            let refused = if sign == seq!['-'] {
                Ok(0u32)
            } else {
                Err(Failure::TooLarge { text })
            };
            let n = |i: int| word[i] == 'n' || word[i] == 'N';
            let i = |i: int| word[i] == 'i' || word[i] == 'I';
            &&& word.len() == 3 && n(0) && (word[1] == 'a' || word[1] == 'A') && n(2)
                ==> bandwidth_of(text) == Ok::<u32, Failure>(0u32)
            &&& word.len() == 3 && i(0) && n(1) && (word[2] == 'f' || word[2] == 'F')
                ==> bandwidth_of(text) == refused
            &&& word.len() == 8 && i(0) && n(1) && (word[2] == 'f' || word[2] == 'F') && i(3) && n(
                4,
            ) && i(5) && (word[6] == 't' || word[6] == 'T') && (word[7] == 'y' || word[7] == 'Y')
                ==> bandwidth_of(text) == refused
        }),
{
    reveal_strlit("nan");
    reveal_strlit("inf");
    reveal_strlit("infinity");
    let lowered = word.map_values(|c: char| lower(c));
    let text = sign + word + suffix;
    let number = sign + word;
    assert(text =~= number + suffix);
    assert(number.last() == word.last());
    if sign.len() == 0 {
        assert(number =~= word);
    } else {
        assert(number.first() == sign[0]);
        assert(seq!['-'][0] == '-' && seq!['+'][0] == '+');
    }
    let n = |i: int| word[i] == 'n' || word[i] == 'N';
    let i = |i: int| word[i] == 'i' || word[i] == 'I';
    if word.len() == 3 && n(0) && (word[1] == 'a' || word[1] == 'A') && n(2) {
        assert(lowered =~= "nan"@);
        lemma_number_text(number, suffix);
        lemma_unsigned(sign, word);
    }
    if word.len() == 3 && i(0) && n(1) && (word[2] == 'f' || word[2] == 'F') {
        assert(lowered =~= "inf"@);
        assert("nan"@[0] == 'n');
        lemma_number_text(number, suffix);
        lemma_unsigned(sign, word);
    }
    if word.len() == 8 && i(0) && n(1) && (word[2] == 'f' || word[2] == 'F') && i(3) && n(4) && i(5)
        && (word[6] == 't' || word[6] == 'T') && (word[7] == 'y' || word[7] == 'Y') {
        assert(lowered =~= "infinity"@);
        assert("nan"@[0] == 'n');
        lemma_number_text(number, suffix);
        lemma_unsigned(sign, word);
    }
}

/// What is left of a trimmed text has no white space at its ends.
proof fn lemma_trimmed_ends(s: Seq<char>)
    ensures
        trimmed(s).len() > 0 ==> !is_white_space(trimmed(s).first()),
        trimmed(s).len() > 0 ==> !is_white_space(trimmed(s).last()),
    decreases s.len(),
{
    if s.len() > 0 && is_white_space(s.first()) {
        lemma_trimmed_ends(s.drop_first());
    } else if s.len() > 0 && is_white_space(s.last()) {
        lemma_trimmed_ends(s.drop_last());
    }
}

/// A text is what is left of it when it is trimmed, between white space.
proof fn lemma_trimmed_parts(s: Seq<char>) -> (ends: (Seq<char>, Seq<char>))
    ensures
        s == ends.0 + trimmed(s) + ends.1,
        blank(ends.0),
        blank(ends.1),
    decreases s.len(),
{
    if s.len() > 0 && is_white_space(s.first()) {
        let rest = s.drop_first();
        let kept = trimmed(rest);
        let (front, back) = lemma_trimmed_parts(rest);
        let c = seq![s.first()];
        assert(trimmed(s) == kept);
        assert(s =~= c + rest);
        assert(c + (front + kept + back) =~= (c + front) + kept + back);
        assert(blank(c + front)) by {
            lemma_blank_concat(c, front);
        }
        (c + front, back)
    } else if s.len() > 0 && is_white_space(s.last()) {
        let rest = s.drop_last();
        let kept = trimmed(rest);
        let (front, back) = lemma_trimmed_parts(rest);
        let c = seq![s.last()];
        assert(trimmed(s) == kept);
        assert(s =~= rest + c);
        assert((front + kept + back) + c =~= front + kept + (back + c));
        assert(blank(back + c)) by {
            lemma_blank_concat(back, c);
        }
        (front, back + c)
    } else {
        let none = Seq::<char>::empty();
        assert(s =~= none + s + none);
        (none, none)
    }
}

/// Whether all characters are white space.
spec fn blank(s: Seq<char>) -> bool {
    forall|i: int| 0 <= i < s.len() ==> is_white_space(#[trigger] s[i])
}

/// White space behind white space.
proof fn lemma_blank_concat(a: Seq<char>, b: Seq<char>)
    requires
        blank(a),
        blank(b),
    ensures
        blank(a + b),
{
    let s = a + b;
    assert forall|i: int| 0 <= i < s.len() implies is_white_space(#[trigger] s[i]) by {
        if i < a.len() {
            assert(s[i] == a[i]);
        } else {
            assert(s[i] == b[i - a.len()]);
        }
    }
}

/// Of the ASCII characters, the space and the control characters from the tabulator
/// to the carriage return are white space.
pub proof fn law_white_space(c: char)
    requires
        c <= '\u{7f}',
    ensures
        is_white_space(c) <==> c == ' ' || '\t' <= c <= '\r',
{
}

/// White space alone is no bandwidth, and nothing else is called empty.
pub proof fn law_empty_texts(s: Seq<char>)
    ensures
        bandwidth_of(s) == Err::<u32, Failure>(Failure::Empty) <==> forall|i: int|
            0 <= i < s.len() ==> is_white_space(#[trigger] s[i]),
    decreases s.len(),
{
    let (front, back) = lemma_trimmed_parts(s);
    lemma_trimmed_ends(s);
    if trimmed(s).len() == 0 {
        assert forall|i: int| 0 <= i < s.len() implies is_white_space(#[trigger] s[i]) by {
            if i < front.len() {
                assert(s[i] == front[i]);
            } else {
                assert(s[i] == back[i - front.len()]);
            }
        }
    } else {
        assert(s[front.len() as int] == trimmed(s).first());
    }
}

/// What a refusal names: the whole text between white space, where it is too large;
/// and where there is no number, what stands where the number should, without the
/// suffix.  The returned texts are the white space in front, that at the end, and the
/// suffix.
pub proof fn law_refused_texts(s: Seq<char>) -> (parts: (Seq<char>, Seq<char>, Seq<char>))
    ensures
        ({
            let (front, back, suffix) = parts;
            &&& forall|i: int| 0 <= i < front.len() ==> is_white_space(#[trigger] front[i])
            &&& forall|i: int| 0 <= i < back.len() ==> is_white_space(#[trigger] back[i])
            &&& match bandwidth_of(s) {
                Ok(_) => true,
                Err(Failure::Empty) => true,
                Err(Failure::TooLarge { text }) => {
                    &&& s == front + text + back
                    &&& text.len() > 0
                    &&& !is_white_space(text.first())
                    &&& !is_white_space(text.last())
                },
                Err(Failure::InvalidNumber { number, reason }) => {
                    &&& s == front + number + suffix + back
                    &&& number.len() > 0 ==> !is_white_space(number.first())
                    &&& suffix.len() == 0 ==> number.len() > 0 && !is_white_space(number.last())
                        && !seq!['G', 'g', 'M', 'm', 'K', 'k'].contains(number.last())
                    &&& suffix.len() > 0 ==> suffix.len() == 1 && seq![
                        'G',
                        'g',
                        'M',
                        'm',
                        'K',
                        'k',
                    ].contains(suffix[0])
                    &&& reason == NumberError::Empty <==> number.len() == 0
                },
            }
        }),
{
    let (front, back) = lemma_trimmed_parts(s);
    lemma_trimmed_ends(s);
    let text = trimmed(s);
    let letters = seq!['G', 'g', 'M', 'm', 'K', 'k'];
    if text.len() == 0 {
        (front, back, Seq::empty())
    } else {
        let c = text.last();
        assert(multiplier(c) != 1 <==> letters.contains(c)) by {
            assert(letters[0] == 'G' && letters[1] == 'g' && letters[2] == 'M' && letters[3] == 'm'
                && letters[4] == 'K' && letters[5] == 'k');
        }
        let number = number_text(text);
        let suffix = if multiplier(c) == 1 {
            Seq::empty()
        } else {
            seq![c]
        };
        assert(text =~= number + suffix);
        assert(front + text + back =~= front + number + suffix + back);
        (front, back, suffix)
    }
}

/// The exponent of a text, taken apart: its mark, its sign and its digits.
proof fn lemma_exponent_shape(tail: Seq<char>) -> (parts: (char, Seq<char>, Seq<char>))
    requires
        exponent(tail) is Some,
    ensures
        tail == (if parts.2.len() == 0 {
            Seq::empty()
        } else {
            seq![parts.0] + parts.1 + parts.2
        }),
        parts.0 == 'e' || parts.0 == 'E',
        parts.1.len() == 0 || parts.1 == seq!['+'] || parts.1 == seq!['-'],
        are_digits(parts.2),
{
    if tail.len() == 0 {
        assert(tail =~= Seq::<char>::empty());
        ('e', Seq::empty(), Seq::empty())
    } else {
        let rest = tail.drop_first();
        let (minus, digits) = unsigned(rest);
        let sign = if digits.len() == rest.len() {
            Seq::empty()
        } else {
            seq![rest.first()]
        };
        assert(rest =~= sign + digits);
        assert(tail =~= seq![tail.first()] + sign + digits);
        (tail.first(), sign, digits)
    }
}

/// Digits lie between `0` and `9`.
proof fn lemma_digit_bounds(s: Seq<char>)
    requires
        are_digits(s),
    ensures
        forall|i: int| 0 <= i < s.len() ==> '0' <= #[trigger] s[i] <= '9',
{
    assert forall|i: int| 0 <= i < s.len() implies '0' <= #[trigger] s[i] <= '9' by {
        assert(is_digit(s[i]));
    }
}

/// Where a text falls apart: digits, a point where there is one and then digits, and
/// the rest.
proof fn lemma_split_shape(body: Seq<char>) -> (point: bool)
    ensures
        ({
            let (whole, part, tail) = split_digits(body);
            &&& are_digits(whole)
            &&& are_digits(part)
            &&& point || part.len() == 0
            &&& body == whole + (if point {
                seq!['.'] + part
            } else {
                Seq::empty()
            }) + tail
        }),
{
    let (whole, part, tail) = split_digits(body);
    let rest = body.skip(leading_digits(body) as int);
    let point = rest.len() > 0 && rest.first() == '.';
    lemma_leading_are_digits(body);
    assert(body =~= whole + rest);
    if point {
        let behind = rest.drop_first();
        lemma_leading_are_digits(behind);
        assert(rest =~= seq!['.'] + behind);
        assert(behind =~= part + tail);
        assert(whole + (seq!['.'] + (part + tail)) =~= whole + (seq!['.'] + part) + tail);
    } else {
        assert(whole + rest =~= whole + Seq::<char>::empty() + rest);
    }
    point
}

/// A decimal number without sign and suffix, taken apart.
proof fn lemma_plain_shape(body: Seq<char>) -> (shape: Shape)
    requires
        plain(body) is Some,
    ensures
        shape.wf(),
        shape.digits() + shape.exponent_text() == body,
{
    let (whole, part, tail) = split_digits(body);
    let point = lemma_split_shape(body);
    let (mark, exponent_sign, exponent) = lemma_exponent_shape(tail);
    lemma_digit_bounds(whole);
    lemma_digit_bounds(part);
    lemma_digit_bounds(exponent);
    Shape {
        sign: Seq::empty(),
        whole,
        point,
        part,
        mark,
        exponent_sign,
        exponent,
        suffix: Seq::empty(),
    }
}

/// Only numbers are accepted: a text that is not refused for want of one is, between
/// white space, a decimal number of the given [`Shape`], or one of the words with a
/// sign and a suffix of such a shape.
pub proof fn law_accepted_texts(s: Seq<char>) -> (found: (
    Seq<char>,
    Seq<char>,
    Seq<char>,
    Shape,
))
    requires
        !(bandwidth_of(s) matches Err(Failure::Empty)),
        !(bandwidth_of(s) matches Err(Failure::InvalidNumber { .. })),
    ensures
        ({
            let (front, back, word, shape) = found;
            let lowered = |name: Seq<char>|
                word.len() == name.len() && forall|i: int|
                    0 <= i < word.len() ==> #[trigger] word[i] == name[i] || word[i] as nat + 32
                        == name[i] as nat;
            &&& forall|i: int| 0 <= i < front.len() ==> is_white_space(#[trigger] front[i])
            &&& forall|i: int| 0 <= i < back.len() ==> is_white_space(#[trigger] back[i])
            &&& shape.wf()
            &&& s == front + shape.text() + back || s == front + shape.sign + word + shape.suffix
                + back && (lowered("nan"@) || lowered("inf"@) || lowered("infinity"@))
        }),
{
    let (front, back) = lemma_trimmed_parts(s);
    let text = trimmed(s);
    let number = number_text(text);
    let c = text.last();
    let suffix = if multiplier(c) == 1 {
        Seq::empty()
    } else {
        seq![c]
    };
    assert(text =~= number + suffix);
    let (negative, body) = unsigned(number);
    let sign = if number.len() == body.len() {
        Seq::empty()
    } else {
        seq![number.first()]
    };
    assert(number =~= sign + body);
    let lowered = body.map_values(|c: char| lower(c));
    if is_word(body, "nan"@) || is_word(body, "inf"@) || is_word(body, "infinity"@) {
        assert forall|i: int| 0 <= i < body.len() implies #[trigger] body[i] == lowered[i]
            || body[i] as nat + 32 == lowered[i] as nat by {}
        let shape = Shape {
            sign,
            whole: seq!['0'],
            point: false,
            part: Seq::empty(),
            mark: 'e',
            exponent_sign: Seq::empty(),
            exponent: Seq::empty(),
            suffix,
        };
        assert(s =~= front + sign + body + suffix + back);
        (front, back, body, shape)
    } else {
        let plain_shape = lemma_plain_shape(body);
        let shape = Shape { sign, suffix, ..plain_shape };
        assert(shape.digits() == plain_shape.digits());
        assert(shape.exponent_text() == plain_shape.exponent_text());
        assert(shape.text() =~= sign + body + suffix);
        (front, back, body, shape)
    }
}

/// The message of a refusal holds the text that it is about.
pub proof fn law_messages(text: Seq<char>)
    ensures
        failure_text(Failure::Empty) == "Empty bandwidth string"@,
        failure_text(Failure::TooLarge { text }) == "Bandwidth "@ + text
            + " exceeds maximum (4 Gbps)"@,
        failure_text(Failure::InvalidNumber { number: text, reason: NumberError::Empty })
            == "Invalid bandwidth number '"@ + text
            + "': cannot parse float from empty string"@,
        failure_text(Failure::InvalidNumber { number: text, reason: NumberError::Invalid })
            == "Invalid bandwidth number '"@ + text + "': invalid float literal"@,
{
    reveal_strlit("': ");
    reveal_strlit("cannot parse float from empty string");
    reveal_strlit("invalid float literal");
    reveal_strlit("': cannot parse float from empty string");
    reveal_strlit("': invalid float literal");
    assert("': "@ + "cannot parse float from empty string"@
        =~= "': cannot parse float from empty string"@);
    assert("': "@ + "invalid float literal"@ =~= "': invalid float literal"@);
    let front = "Invalid bandwidth number '"@ + text;
    assert(front + "': "@ + "cannot parse float from empty string"@ =~= front + ("': "@
        + "cannot parse float from empty string"@));
    assert(front + "': "@ + "invalid float literal"@ =~= front + ("': "@
        + "invalid float literal"@));
}

/// An error says what it holds.
pub proof fn law_errors_viewed(text: String, reason: NumberError)
    ensures
        BandwidthError::Empty@ == Failure::Empty,
        (BandwidthError::TooLarge { text })@ == (Failure::TooLarge { text: text@ }),
        (BandwidthError::InvalidNumber { number: text, reason })@ == (Failure::InvalidNumber {
            number: text@,
            reason,
        }),
{
}

} // verus!
