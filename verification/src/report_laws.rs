//! What can be read off the text of rates and of status lines.

use crate::decimal::{decimal, digit};
use crate::double::{
    distance, half_even, law_half_even_error, law_nearest_double, law_nearest_error, nearest,
    with_significand, Value,
};
use crate::parse::law_decimal_injective;
use crate::report::{bandwidth_text, rate, status_text};
use vstd::arithmetic::power2::{lemma2_to64, lemma_pow2_adds, lemma_pow2_pos, pow2};
use vstd::prelude::*;

verus! {

/// A rate from 1000 on is divided by the greatest unit that is not greater than the
/// rate, which gives the nearest double, a tie going to the even significand (the first
/// of the returned numbers, the second is the power of two), and that is shown as the
/// nearest number of hundredths (the third), a tie going to the even number.
pub proof fn law_large_rates(units: nat) -> (shown: (nat, nat, nat))
    requires
        units >= 1_000 * pow2(1074),
    ensures
        ({
            let (sig, exp, hundredths) = shown;
            let (size, label): (nat, Seq<char>) = if units >= 1_000_000_000 * pow2(1074) {
                (1_000_000_000, " Gbps"@)
            } else if units >= 1_000_000 * pow2(1074) {
                (1_000_000, " Mbps"@)
            } else {
                (1_000, " Kbps"@)
            };
            let quotient = sig * pow2(exp);
            &&& bandwidth_text(Value::Finite { negative: false, units }) == decimal(
                hundredths / 100,
            ) + seq!['.', digit(hundredths / 10 % 10), digit(hundredths % 10)] + label
            &&& sig <= 0x20_0000_0000_0000
            &&& exp == 0 || sig >= 0x10_0000_0000_0000
            &&& forall|s: nat, e: nat|
                s <= 0x20_0000_0000_0000 ==> distance(units, quotient * size) <= distance(
                    units,
                    #[trigger] with_significand(s, e) * size,
                )
            &&& forall|s: nat, e: nat|
                s <= 0x20_0000_0000_0000 && with_significand(s, e) != quotient && distance(
                    units,
                    #[trigger] with_significand(s, e) * size,
                ) == distance(units, quotient * size) ==> sig % 2 == 0
            &&& 2 * distance(100 * quotient, hundredths * pow2(1074)) <= pow2(1074)
            &&& 2 * distance(100 * quotient, hundredths * pow2(1074)) == pow2(1074) ==> hundredths
                % 2 == 0
        }),
{
    let (size, label): (nat, Seq<char>) = if units >= 1_000_000_000 * pow2(1074) {
        (1_000_000_000, " Gbps"@)
    } else if units >= 1_000_000 * pow2(1074) {
        (1_000_000, " Mbps"@)
    } else {
        (1_000, " Kbps"@)
    };
    let (sig, exp) = law_nearest_double(units, size);
    let quotient = nearest(units, size);
    let hundredths = half_even(quotient * 100, pow2(1074));
    lemma_pow2_pos(1074);
    law_half_even_error(quotient * 100, pow2(1074));
    (sig, exp, hundredths)
}

/// The number shown, times the size of its unit, is the rate: within half a
/// hundredth of the unit, and the rounding of one division.
pub proof fn law_large_rates_error(units: nat) -> (hundredths: nat)
    requires
        units >= 1_000 * pow2(1074),
    ensures
        ({
            let (size, label): (nat, Seq<char>) = if units >= 1_000_000_000 * pow2(1074) {
                (1_000_000_000, " Gbps"@)
            } else if units >= 1_000_000 * pow2(1074) {
                (1_000_000, " Mbps"@)
            } else {
                (1_000, " Kbps"@)
            };
            &&& bandwidth_text(Value::Finite { negative: false, units }) == decimal(
                hundredths / 100,
            ) + seq!['.', digit(hundredths / 10 % 10), digit(hundredths % 10)] + label
            &&& 0x40_0000_0000_0000 * distance(100 * units, hundredths * size * pow2(1074))
                <= 0x20_0000_0000_0000 * (size * pow2(1074)) + 400 * units
        }),
{
    let (size, label): (nat, Seq<char>) = if units >= 1_000_000_000 * pow2(1074) {
        (1_000_000_000, " Gbps"@)
    } else if units >= 1_000_000 * pow2(1074) {
        (1_000_000, " Mbps"@)
    } else {
        (1_000, " Kbps"@)
    };
    let u = pow2(1074);
    let d = nearest(units, size);
    let h = half_even(d * 100, u);
    lemma_pow2_pos(1010);
    lemma2_to64();
    lemma_pow2_adds(64, 1010);
    lemma_pow2_pos(1074);
    law_nearest_error(units, size);
    law_half_even_error(d * 100, u);
    let e = distance(units, d * size);
    let f = distance(d * 100, h * u);
    assert(f * size == distance(d * 100 * size, h * u * size)) by (nonlinear_arith)
        requires
            f == distance(d * 100, h * u),
    ;
    assert(d * 100 * size == 100 * (d * size)) by (nonlinear_arith);
    assert(h * u * size == h * size * u) by (nonlinear_arith);
    assert(2 * (f * size) <= size * u) by (nonlinear_arith)
        requires
            2 * f <= u,
    ;
    h
}

/// A rate below 1000, or a negative one, is shown as the nearest whole number, a
/// tie going to the even one.
pub proof fn law_small_rates(units: nat) -> (shown: nat)
    ensures
        2 * distance(units, shown * pow2(1074)) <= pow2(1074),
        2 * distance(units, shown * pow2(1074)) == pow2(1074) ==> shown % 2 == 0,
        units < 1_000 * pow2(1074) ==> bandwidth_text(Value::Finite { negative: false, units })
            == decimal(shown) + " bps"@,
        bandwidth_text(Value::Finite { negative: true, units }) == "-"@ + decimal(shown)
            + " bps"@,
{
    lemma_pow2_pos(1074);
    law_half_even_error(units, pow2(1074));
    half_even(units, pow2(1074))
}

/// What is no finite number has a text of its own.
pub proof fn law_special_rates()
    ensures
        bandwidth_text(Value::Nan) == "NaN bps"@,
        bandwidth_text(Value::Infinite { negative: false }) == "inf Gbps"@,
        bandwidth_text(Value::Infinite { negative: true }) == "-inf bps"@,
{
}

/// The rate over a positive time is the double nearest to the quotient of the bits
/// and the time, where the number of bytes is taken as the double nearest to it: the
/// returned numbers are the significand and the power of two of the one and of the
/// other.  A tie goes to the even significand, and what is beyond the range of
/// doubles is infinite.
pub proof fn law_rate_rounded(bytes: nat, units: nat) -> (parts: (nat, nat, nat, nat))
    requires
        units > 0,
    ensures
        ({
            let count = parts.0 * pow2(parts.1);
            let quotient = parts.2 * pow2(parts.3);
            let bits = 8 * count * pow2(1074);
            &&& parts.0 <= 0x20_0000_0000_0000 && parts.2 <= 0x20_0000_0000_0000
            &&& parts.1 == 0 || parts.0 >= 0x10_0000_0000_0000
            &&& parts.3 == 0 || parts.2 >= 0x10_0000_0000_0000
            &&& forall|s: nat, e: nat|
                s <= 0x20_0000_0000_0000 ==> distance(bytes * pow2(1074), count) <= distance(
                    bytes * pow2(1074),
                    #[trigger] with_significand(s, e),
                )
            &&& forall|s: nat, e: nat|
                s <= 0x20_0000_0000_0000 && #[trigger] with_significand(s, e) != count && distance(
                    bytes * pow2(1074),
                    with_significand(s, e),
                ) == distance(bytes * pow2(1074), count) ==> parts.0 % 2 == 0
            &&& forall|s: nat, e: nat|
                s <= 0x20_0000_0000_0000 ==> distance(bits, quotient * units) <= distance(
                    bits,
                    #[trigger] with_significand(s, e) * units,
                )
            &&& forall|s: nat, e: nat|
                s <= 0x20_0000_0000_0000 && with_significand(s, e) != quotient && distance(
                    bits,
                    #[trigger] with_significand(s, e) * units,
                ) == distance(bits, quotient * units) ==> parts.2 % 2 == 0
            &&& rate(bytes, Value::Finite { negative: false, units }) == (if quotient
                >= pow2(1024) * pow2(1074) {
                Value::Infinite { negative: false }
            } else {
                Value::Finite { negative: false, units: quotient }
            })
        }),
{
    let exact = bytes * pow2(1074);
    let (a, b) = law_nearest_double(exact, 1);
    let count = nearest(exact, 1);
    let (c, d) = law_nearest_double(8 * count * pow2(1074), units);
    assert forall|s: nat, e: nat| s <= 0x20_0000_0000_0000 implies distance(exact, count)
        <= distance(exact, #[trigger] with_significand(s, e)) by {
        assert(with_significand(s, e) * 1 == with_significand(s, e));
    }
    assert forall|s: nat, e: nat|
        s <= 0x20_0000_0000_0000 && #[trigger] with_significand(s, e) != count && distance(
            exact,
            with_significand(s, e),
        ) == distance(exact, count) implies a % 2 == 0 by {
        assert(with_significand(s, e) * 1 == with_significand(s, e));
    }
    (a, b, c, d)
}

/// Where the time is not positive there is no rate but zero.
pub proof fn law_rate_without_time(bytes: nat, seconds: Value)
    requires
        !(seconds matches Value::Finite { negative, units } && !negative && units > 0),
    ensures
        rate(bytes, seconds) == (Value::Finite { negative: false, units: 0 }),
{
}

/// A status line without losses and CPU usage: the number of the interval in at
/// least four places, the direction in at least three, the rate, and the bytes.  The
/// returned numbers count the spaces that fill the places.
pub proof fn law_status_line(
    interval_num: u32,
    direction: Seq<char>,
    bytes: u64,
    elapsed: Value,
) -> (spaces: (nat, nat))
    ensures
        ({
            let number = decimal(interval_num as nat);
            let (before, between) = (
                Seq::new(spaces.0, |i: int| ' '),
                Seq::new(spaces.1, |i: int| ' '),
            );
            &&& status_text(interval_num, direction, bytes, elapsed, None, None, None) == "["@
                + before + number + "] "@ + between + direction + "  "@ + bandwidth_text(
                rate(bytes as nat, elapsed),
            ) + " ("@ + decimal(bytes as nat) + " bytes)"@
            &&& spaces.0 == 0 || spaces.0 + number.len() == 4
            &&& spaces.1 == 0 || spaces.1 + direction.len() == 3
            &&& spaces.0 + number.len() >= 4
            &&& spaces.1 + direction.len() >= 3
        }),
{
    let number = decimal(interval_num as nat);
    let a: nat = if number.len() < 4 {
        (4 - number.len()) as nat
    } else {
        0
    };
    let b: nat = if direction.len() < 3 {
        (3 - direction.len()) as nat
    } else {
        0
    };
    let (before, between) = (Seq::new(a, |i: int| ' '), Seq::new(b, |i: int| ' '));
    assert(status_text(interval_num, direction, bytes, elapsed, None, None, None) =~= "["@
        + before + number + "] "@ + between + direction + "  "@ + bandwidth_text(
        rate(bytes as nat, elapsed),
    ) + " ("@ + decimal(bytes as nat) + " bytes)"@);
    (a, b)
}

/// Every loss is reported: a count above zero stands at the end of the line, in
/// front of the CPU usage, and a count of zero is as good as none.
pub proof fn law_losses_reported(
    interval_num: u32,
    direction: Seq<char>,
    bytes: u64,
    elapsed: Value,
    lost: u64,
)
    ensures
        ({
            let line = status_text(interval_num, direction, bytes, elapsed, None, None, None);
            status_text(interval_num, direction, bytes, elapsed, Some(lost), None, None) == (if lost
                == 0 {
                line
            } else {
                line + "  lost: "@ + decimal(lost as nat)
            })
        }),
{
    let line = status_text(interval_num, direction, bytes, elapsed, None, None, None);
    assert(status_text(interval_num, direction, bytes, elapsed, Some(lost), None, None)
        =~= if lost == 0 {
        line
    } else {
        line + "  lost: "@ + decimal(lost as nat)
    });
}

/// The count of lost packets can be read back: lines that differ in nothing but the
/// count differ.
pub proof fn law_losses_told_apart(
    interval_num: u32,
    direction: Seq<char>,
    bytes: u64,
    elapsed: Value,
    a: u64,
    b: u64,
)
    requires
        status_text(interval_num, direction, bytes, elapsed, Some(a), None, None) == status_text(
            interval_num,
            direction,
            bytes,
            elapsed,
            Some(b),
            None,
            None,
        ),
    ensures
        a == b,
{
    law_losses_reported(interval_num, direction, bytes, elapsed, a);
    law_losses_reported(interval_num, direction, bytes, elapsed, b);
    let line = status_text(interval_num, direction, bytes, elapsed, None, None, None);
    reveal_strlit("  lost: ");
    let x = line + "  lost: "@;
    if a != 0 && b != 0 {
        assert((x + decimal(a as nat)).skip(x.len() as int) =~= decimal(a as nat));
        assert((x + decimal(b as nat)).skip(x.len() as int) =~= decimal(b as nat));
        law_decimal_injective(a as nat, b as nat);
    } else if a != 0 {
        assert((x + decimal(a as nat)).len() > line.len());
    } else if b != 0 {
        assert((x + decimal(b as nat)).len() > line.len());
    }
}

/// The CPU usage stands at the very end of the line, whatever else it says: the
/// local usage, the remote one where it is known, and a mark where one of those shown
/// is above 70 percent.  Where the local usage is not known the line says nothing.
pub proof fn law_cpu_reported(
    interval_num: u32,
    direction: Seq<char>,
    bytes: u64,
    elapsed: Value,
    lost_packets: Option<u64>,
    local: u8,
    remote: u8,
)
    ensures
        ({
            let line = status_text(
                interval_num,
                direction,
                bytes,
                elapsed,
                lost_packets,
                None,
                None,
            );
            let with = |l: Option<u8>, r: Option<u8>|
                status_text(interval_num, direction, bytes, elapsed, lost_packets, l, r);
            let usage = line + "  cpu: "@ + decimal(local as nat) + "%"@;
            let both = usage + "/"@ + decimal(remote as nat) + "%"@;
            &&& with(None, Some(remote)) == line
            &&& local <= 70 ==> with(Some(local), None) == usage
            &&& local > 70 ==> with(Some(local), None) == usage + " !"@
            &&& local <= 70 && remote <= 70 ==> with(Some(local), Some(remote)) == both
            &&& local > 70 || remote > 70 ==> with(Some(local), Some(remote)) == both + " !"@
        }),
{
    reveal_strlit("%");
    reveal_strlit("/");
    reveal_strlit("%/");
    let line = status_text(interval_num, direction, bytes, elapsed, lost_packets, None, None);
    let (l, r) = (decimal(local as nat), decimal(remote as nat));
    let usage = line + "  cpu: "@ + l + "%"@;
    let both = usage + "/"@ + r + "%"@;
    assert("%"@ + "/"@ =~= "%/"@);
    assert(status_text(
        interval_num,
        direction,
        bytes,
        elapsed,
        lost_packets,
        None,
        Some(remote),
    ) =~= line);
    let alone = status_text(
        interval_num,
        direction,
        bytes,
        elapsed,
        lost_packets,
        Some(local),
        None,
    );
    let beside = status_text(
        interval_num,
        direction,
        bytes,
        elapsed,
        lost_packets,
        Some(local),
        Some(remote),
    );
    if local <= 70 {
        assert(alone =~= usage);
    } else {
        assert(alone =~= usage + " !"@);
    }
    if local <= 70 && remote <= 70 {
        assert(beside =~= both);
    } else {
        assert(beside =~= both + " !"@);
    }
}

} // verus!
