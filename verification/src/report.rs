//! The text of rates and of status lines.

use crate::decimal::{
    canonical, decimal, digit, digits_of, double_digits, lemma_number_push, number, push_digits,
    push_number,
};
use crate::double::{
    half_even, lemma_div_mod_is, lemma_half_even_exact, lemma_half_even_scale,
    lemma_nearest_exact, lemma_pow2_zero, nearest, one, overflow, power_of_two, Double, Magnitude, Parts, Value, SIGNIFICANDS, UNIT_BITS,
};
use vstd::arithmetic::power2::{
    lemma2_to64, lemma_pow2_adds, lemma_pow2_pos, lemma_pow2_strictly_increases, lemma_pow2_unfold,
    pow2,
};
use vstd::prelude::*;
use vstd::string::{StrSliceExecFns, StringExecFns};

verus! {

/// A number of units, rounded to whole ones.
pub open spec fn fixed0(units: nat) -> Seq<char> {
    decimal(half_even(units, one()))
}

/// A number of units, rounded to two decimal places.
pub open spec fn fixed2(units: nat) -> Seq<char> {
    let hundredths = half_even(units * 100, one());
    decimal(hundredths / 100) + seq!['.', digit(hundredths / 10 % 10), digit(hundredths % 10)]
}

/// A bandwidth value, in bits per second, in human-readable form.
pub open spec fn bandwidth_text(value: Value) -> Seq<char> {
    match value {
        Value::Nan => "NaN bps"@,
        Value::Infinite { negative } => if negative {
            "-inf bps"@
        } else {
            "inf Gbps"@
        },
        Value::Finite { negative, units } => if negative {
            "-"@ + fixed0(units) + " bps"@
        } else if units >= 1_000_000_000 * one() {
            fixed2(nearest(units, 1_000_000_000)) + " Gbps"@
        } else if units >= 1_000_000 * one() {
            fixed2(nearest(units, 1_000_000)) + " Mbps"@
        } else if units >= 1_000 * one() {
            fixed2(nearest(units, 1_000)) + " Kbps"@
        } else {
            fixed0(units) + " bps"@
        },
    }
}

/// The digits of `sig` times two to the power of `shift`, the last digit first.
fn digits_of_shifted(sig: u64, shift: u32) -> (ds: Vec<u8>)
    ensures
        canonical(ds@),
        number(ds@) == sig as nat * pow2(shift as nat),
{
    let mut ds = digits_of(sig);
    let mut i: u32 = 0;
    proof {
        lemma_pow2_zero();
        assert(sig as nat * pow2(0) == sig);
    }
    while i < shift
        invariant
            i <= shift,
            canonical(ds@),
            number(ds@) == sig as nat * pow2(i as nat),
        decreases shift - i,
    {
        let carry: u8 = double_digits(&mut ds);
        proof {
            lemma_pow2_unfold((i + 1) as nat);
            let p = pow2(i as nat);
            assert(sig as nat * (2 * p) == 2 * (sig as nat * p)) by (nonlinear_arith);
            lemma_number_push(ds@, carry);
        }
        if carry != 0 {
            ds.push(carry);
        }
        i = i + 1;
    }
    ds
}

/// A magnitude times a small factor, rounded to a whole number.  The magnitude
/// has bits below the binary point.
fn rounded(m: Magnitude, factor: u64) -> (n: u64)
    requires
        m.wf(),
        m.exp < UNIT_BITS,
        factor <= 100,
    ensures
        n == half_even(m.units() * factor as nat, one()),
{
    let t: u32 = UNIT_BITS - m.exp;
    proof {
        assert(m.sig * factor <= 0x20_0000_0000_0000 * 100) by (nonlinear_arith)
            requires
                m.sig <= 0x20_0000_0000_0000,
                factor <= 100,
        ;
    }
    let scaled: u64 = m.sig * factor;
    proof {
        lemma_pow2_pos(m.exp as nat);
        lemma_pow2_pos(t as nat);
        lemma_pow2_adds(t as nat, m.exp as nat);
        let p = pow2(m.exp as nat);
        assert((m.sig as nat * p) * factor as nat == scaled as nat * p) by (nonlinear_arith)
            requires
                scaled == m.sig * factor,
        ;
        lemma_half_even_scale(scaled as nat, pow2(t as nat), p);
    }
    if t >= 64 {
        proof {
            lemma2_to64();
            if t > 64 {
                lemma_pow2_strictly_increases(64, t as nat);
            }
            lemma_div_mod_is(scaled as nat, pow2(t as nat), 0, scaled as nat);
        }
        return 0;
    }
    let power: u128 = power_of_two(t);
    proof {
        lemma2_to64();
        lemma_pow2_strictly_increases(t as nat, 64);
    }
    let quotient: u64 = (scaled as u128 / power) as u64;
    let rest: u128 = scaled as u128 % power;
    if 2 * rest < power || (2 * rest == power && quotient % 2 == 0) {
        quotient
    } else {
        quotient + 1
    }
}

/// Append a magnitude, rounded to whole numbers.
fn push_fixed0(out: &mut String, m: Magnitude)
    requires
        m.wf(),
    ensures
        final(out)@ == old(out)@ + fixed0(m.units()),
{
    if m.exp >= UNIT_BITS {
        let shift: u32 = m.exp - UNIT_BITS;
        let ds = digits_of_shifted(m.sig, shift);
        proof {
            lemma_shifted_units(m, shift as nat);
            lemma_half_even_exact(number(ds@), one());
        }
        push_digits(out, &ds);
    } else {
        let n: u64 = rounded(m, 1);
        push_number(out, n);
    }
}

/// Append a magnitude, rounded to two decimal places.
fn push_fixed2(out: &mut String, m: Magnitude)
    requires
        m.wf(),
    ensures
        final(out)@ == old(out)@ + fixed2(m.units()),
{
    if m.exp >= UNIT_BITS {
        let shift: u32 = m.exp - UNIT_BITS;
        let ds = digits_of_shifted(m.sig, shift);
        proof {
            lemma_shifted_units(m, shift as nat);
            let (n, u) = (number(ds@), one());
            assert((n * u) * 100 == (n * 100) * u) by (nonlinear_arith);
            lemma_half_even_exact(n * 100, u);
        }
        push_digits(out, &ds);
        out.push('.');
        out.push('0');
        out.push('0');
    } else {
        let n: u64 = rounded(m, 100);
        push_number(out, n / 100);
        out.push('.');
        out.push(('0' as u8 + (n / 10 % 10) as u8) as char);
        out.push(('0' as u8 + (n % 10) as u8) as char);
    }
    proof {
        let h = half_even(m.units() * 100, one());
        assert(out@ =~= old(out)@ + (decimal(h / 100) + seq![
            '.',
            digit(h / 10 % 10),
            digit(h % 10),
        ]));
    }
}

/// A magnitude without bits below the binary point is a whole number.
proof fn lemma_shifted_units(m: Magnitude, shift: nat)
    requires
        m.exp == shift + UNIT_BITS,
    ensures
        m.units() == m.sig as nat * pow2(shift) * one(),
        one() > 0,
{
    lemma_pow2_pos(UNIT_BITS as nat);
    lemma_pow2_adds(shift, UNIT_BITS as nat);
    let (s, p, u) = (m.sig as nat, pow2(shift), one());
    assert(s * (p * u) == s * p * u) by (nonlinear_arith);
}

/// Append a magnitude, divided by the size of a unit of measure, and its label.
fn push_scaled(out: &mut String, m: Magnitude, divisor: u32, label: &str)
    requires
        m.wf(),
        m.exp <= 4000,
        divisor > 0,
    ensures
        final(out)@ == old(out)@ + (fixed2(nearest(m.units(), divisor as nat)) + label@),
{
    push_fixed2(out, m.over(divisor));
    out.append(label);
    proof {
        let text = fixed2(nearest(m.units(), divisor as nat));
        assert(old(out)@ + text + label@ =~= old(out)@ + (text + label@));
    }
}

/// Append a bandwidth value in human-readable form.
fn push_bandwidth(out: &mut String, parts: Parts)
    requires
        parts matches Parts::Finite { magnitude, .. } ==> magnitude.wf() && magnitude.exp <= 4000,
    ensures
        final(out)@ == old(out)@ + bandwidth_text(parts.value()),
{
    match parts {
        Parts::Nan => {
            out.append("NaN bps");
        },
        Parts::Infinite { negative } => {
            if negative {
                out.append("-inf bps");
            } else {
                out.append("inf Gbps");
            }
        },
        Parts::Finite { negative, magnitude } => {
            let whole: u64 = magnitude.truncate();
            proof {
                lemma_pow2_pos(UNIT_BITS as nat);
                lemma_at_least(magnitude.units(), 1_000_000_000);
                lemma_at_least(magnitude.units(), 1_000_000);
                lemma_at_least(magnitude.units(), 1_000);
            }
            if negative {
                out.append("-");
                push_fixed0(out, magnitude);
                out.append(" bps");
                proof {
                    let text = fixed0(magnitude.units());
                    assert(old(out)@ + "-"@ + text + " bps"@ =~= old(out)@ + ("-"@ + text
                        + " bps"@));
                }
            } else if whole >= 1_000_000_000 {
                push_scaled(out, magnitude, 1_000_000_000, " Gbps");
            } else if whole >= 1_000_000 {
                push_scaled(out, magnitude, 1_000_000, " Mbps");
            } else if whole >= 1_000 {
                push_scaled(out, magnitude, 1_000, " Kbps");
            } else {
                push_fixed0(out, magnitude);
                out.append(" bps");
                proof {
                    let text = fixed0(magnitude.units());
                    assert(old(out)@ + text + " bps"@ =~= old(out)@ + (text + " bps"@));
                }
            }
        },
    }
}

/// A number reaches a whole bound exactly where its whole part does.
proof fn lemma_at_least(units: nat, bound: nat)
    ensures
        (units / one() >= bound) == (units >= bound * one()),
{
    lemma_pow2_pos(UNIT_BITS as nat);
    let u = one();
    let (whole, rest) = (units / u, units % u);
    vstd::arithmetic::div_mod::lemma_fundamental_div_mod(units as int, u as int);
    if whole >= bound {
        assert(u * whole >= bound * u) by (nonlinear_arith)
            requires
                whole >= bound,
        ;
    } else {
        assert(u * whole + u <= bound * u) by (nonlinear_arith)
            requires
                whole + 1 <= bound,
        ;
    }
}

/// Format a bandwidth value, in bits per second, in human-readable form.
pub fn format_bandwidth(bits_per_sec: Double) -> (text: String)
    ensures
        text@ == bandwidth_text(bits_per_sec.value()),
{
    let mut out = String::new();
    push_bandwidth(&mut out, bits_per_sec.parts());
    proof {
        assert(Seq::<char>::empty() + bandwidth_text(bits_per_sec.value()) =~= bandwidth_text(
            bits_per_sec.value(),
        ));
    }
    out
}

/// The rate, in bits per second, at which `bytes` bytes pass in a time given in
/// seconds: the doubles for the bits and the time, divided.  Where the time is not
/// positive the rate is zero.
pub open spec fn rate(bytes: nat, seconds: Value) -> Value {
    let bits = 8 * nearest(bytes * one(), 1);
    match seconds {
        Value::Finite { negative: false, units } => if units == 0 {
            Value::Finite { negative: false, units: 0 }
        } else {
            let quotient = nearest(bits * one(), units);
            if quotient >= overflow() {
                Value::Infinite { negative: false }
            } else {
                Value::Finite { negative: false, units: quotient }
            }
        },
        _ => Value::Finite { negative: false, units: 0 },
    }
}

/// The executable counterpart of [`rate`].
fn rate_of(bytes: u64, seconds: Double) -> (parts: Parts)
    ensures
        parts.value() == rate(bytes as nat, seconds.value()),
        parts matches Parts::Finite { magnitude, .. } ==> magnitude.wf() && magnitude.exp <= 4000,
{
    let zero = Magnitude { sig: 0, exp: 0 };
    proof {
        assert(0 * pow2(0) == 0) by (nonlinear_arith);
    }
    match seconds.parts() {
        Parts::Finite { negative, magnitude } => {
            if negative {
                return Parts::Finite { negative: false, magnitude: zero };
            }
            proof {
                let p = pow2(magnitude.exp as nat);
                lemma_pow2_pos(magnitude.exp as nat);
                assert((magnitude.sig as nat * p == 0) == (magnitude.sig == 0)) by (nonlinear_arith)
                    requires
                        p > 0,
                ;
            }
            if magnitude.sig == 0 {
                return Parts::Finite { negative: false, magnitude: zero };
            }
            let count = Magnitude::from_integer(bytes);
            let bits = Magnitude { sig: count.sig, exp: count.exp + 3 };
            proof {
                lemma2_to64();
                lemma_pow2_adds(count.exp as nat, 3);
                let (s, p) = (count.sig as nat, pow2(count.exp as nat));
                assert(s * (p * 8) == 8 * (s * p)) by (nonlinear_arith);
            }
            let quotient = bits.ratio(magnitude);
            if quotient.overflows() {
                Parts::Infinite { negative: false }
            } else {
                Parts::Finite { negative: false, magnitude: quotient }
            }
        },
        _ => Parts::Finite { negative: false, magnitude: zero },
    }
}

/// A text, padded on the left with spaces to at least `width` characters.
pub open spec fn pad_left(text: Seq<char>, width: nat) -> Seq<char> {
    Seq::new(
        (if text.len() < width {
            width - text.len()
        } else {
            0
        }) as nat,
        |i: int| ' ',
    ) + text
}

/// Append a text, padded on the left.
fn push_padded(out: &mut String, text: &str, width: usize)
    ensures
        final(out)@ == old(out)@ + pad_left(text@, width as nat),
{
    let length: usize = text.unicode_len();
    let ghost before = out@;
    let mut i: usize = length;
    while i < width
        invariant
            length == text@.len(),
            length <= i,
            i <= width || i == length,
            out@ == before + Seq::new((i - length) as nat, |j: int| ' '),
        decreases width - i,
    {
        out.push(' ');
        i = i + 1;
        proof {
            assert(out@ =~= before + Seq::new((i - length) as nat, |j: int| ' '));
        }
    }
    out.append(text);
    proof {
        assert(out@ =~= before + pad_left(text@, width as nat));
    }
}

/// What a status line says of lost packets: nothing where none were lost.
pub open spec fn loss_text(lost_packets: Option<u64>) -> Seq<char> {
    match lost_packets {
        Some(lost) => if lost > 0 {
            "  lost: "@ + decimal(lost as nat)
        } else {
            Seq::empty()
        },
        None => Seq::empty(),
    }
}

/// The mark behind a CPU usage that is too high for the figures to be trusted.
pub open spec fn warning_text(high: bool) -> Seq<char> {
    if high {
        " !"@
    } else {
        Seq::empty()
    }
}

/// What a status line says of CPU usage, local and remote: nothing where the
/// local usage is unknown, and a warning above 70 percent.
pub open spec fn cpu_text(local_cpu: Option<u8>, remote_cpu: Option<u8>) -> Seq<char> {
    match (local_cpu, remote_cpu) {
        (Some(l), Some(r)) => "  cpu: "@ + decimal(l as nat) + "%/"@ + decimal(r as nat) + "%"@
            + warning_text(l > 70 || r > 70),
        (Some(l), None) => "  cpu: "@ + decimal(l as nat) + "%"@ + warning_text(l > 70),
        _ => Seq::empty(),
    }
}

/// The status line of a reporting interval.
pub open spec fn status_text(
    interval_num: u32,
    direction: Seq<char>,
    bytes: u64,
    elapsed: Value,
    lost_packets: Option<u64>,
    local_cpu: Option<u8>,
    remote_cpu: Option<u8>,
) -> Seq<char> {
    "["@ + pad_left(decimal(interval_num as nat), 4) + "] "@ + pad_left(direction, 3) + "  "@
        + bandwidth_text(rate(bytes as nat, elapsed)) + " ("@ + decimal(bytes as nat) + " bytes)"@
        + loss_text(lost_packets) + cpu_text(local_cpu, remote_cpu)
}

/// The text about lost packets.
fn loss(lost_packets: Option<u64>) -> (text: String)
    ensures
        text@ == loss_text(lost_packets),
{
    let mut out = String::new();
    if let Some(lost) = lost_packets {
        if lost > 0 {
            out.append("  lost: ");
            push_number(&mut out, lost);
            proof {
                assert(Seq::<char>::empty() + "  lost: "@ =~= "  lost: "@);
            }
        }
    }
    out
}

/// The text about CPU usage.
fn cpu(local_cpu: Option<u8>, remote_cpu: Option<u8>) -> (text: String)
    ensures
        text@ == cpu_text(local_cpu, remote_cpu),
{
    let mut out = String::new();
    if let Some(l) = local_cpu {
        out.append("  cpu: ");
        push_number(&mut out, l as u64);
        let mut high = l > 70;
        if let Some(r) = remote_cpu {
            out.append("%/");
            push_number(&mut out, r as u64);
            high = high || r > 70;
        }
        out.append("%");
        if high {
            out.append(" !");
        }
        proof {
            assert(out@ =~= cpu_text(local_cpu, remote_cpu));
        }
    }
    out
}

/// The status line of a reporting interval, with CPU usage.  `elapsed` is the
/// length of the interval in seconds.  In quiet mode there is none.
pub fn status_line_with_cpu(
    quiet: bool,
    interval_num: u32,
    direction: &str,
    bytes: u64,
    elapsed: Double,
    lost_packets: Option<u64>,
    local_cpu: Option<u8>,
    remote_cpu: Option<u8>,
) -> (line: Option<String>)
    ensures
        line is None == quiet,
        line is Some ==> line->0@ == status_text(
            interval_num,
            direction@,
            bytes,
            elapsed.value(),
            lost_packets,
            local_cpu,
            remote_cpu,
        ),
{
    if quiet {
        return None;
    }
    let mut number = String::new();
    push_number(&mut number, interval_num as u64);
    let loss_str = loss(lost_packets);
    let cpu_str = cpu(local_cpu, remote_cpu);

    let mut out = String::new();
    out.append("[");
    push_padded(&mut out, number.as_str(), 4);
    out.append("] ");
    push_padded(&mut out, direction, 3);
    out.append("  ");
    push_bandwidth(&mut out, rate_of(bytes, elapsed));
    out.append(" (");
    push_number(&mut out, bytes);
    out.append(" bytes)");
    out.append(loss_str.as_str());
    out.append(cpu_str.as_str());
    proof {
        assert(number@ =~= decimal(interval_num as nat));
        assert(Seq::<char>::empty() + "["@ =~= "["@);
    }
    Some(out)
}

/// The status line of a reporting interval, without CPU usage.
pub fn status_line(
    quiet: bool,
    interval_num: u32,
    direction: &str,
    bytes: u64,
    elapsed: Double,
    lost_packets: Option<u64>,
) -> (line: Option<String>)
    ensures
        line is None == quiet,
        line is Some ==> line->0@ == status_text(
            interval_num,
            direction@,
            bytes,
            elapsed.value(),
            lost_packets,
            None,
            None,
        ),
{
    status_line_with_cpu(quiet, interval_num, direction, bytes, elapsed, lost_packets, None, None)
}

/// A whole multiple of a unit of measure, within its range, is shown as that
/// multiple.
pub proof fn law_whole_multiples(n: nat)
    requires
        n >= 1,
    ensures
        n <= SIGNIFICANDS ==> bandwidth_text(
            Value::Finite { negative: false, units: n * 1_000_000_000 * one() },
        ) == decimal(n) + ".00"@ + " Gbps"@,
        n < 1000 ==> bandwidth_text(
            Value::Finite { negative: false, units: n * 1_000_000 * one() },
        ) == decimal(n) + ".00"@ + " Mbps"@,
        n < 1000 ==> bandwidth_text(
            Value::Finite { negative: false, units: n * 1_000 * one() },
        ) == decimal(n) + ".00"@ + " Kbps"@,
        n < 1000 ==> bandwidth_text(Value::Finite { negative: false, units: n * one() })
            == decimal(n) + " bps"@,
{
    lemma_pow2_pos(UNIT_BITS as nat);
    reveal_strlit(".00");
    let u = one();
    if n <= SIGNIFICANDS {
        lemma_fixed2_whole(n, 1_000_000_000);
        assert(n * 1_000_000_000 * u >= 1_000_000_000 * u) by (nonlinear_arith)
            requires
                n >= 1,
                u > 0,
        ;
    }
    if n < 1000 {
        lemma_fixed2_whole(n, 1_000_000);
        lemma_fixed2_whole(n, 1_000);
        lemma_half_even_exact(n, u);
        assert(1_000_000 * u <= n * 1_000_000 * u < 1_000_000_000 * u) by (nonlinear_arith)
            requires
                1 <= n < 1000,
                u > 0,
        ;
        assert(1_000 * u <= n * 1_000 * u < 1_000_000 * u) by (nonlinear_arith)
            requires
                1 <= n < 1000,
                u > 0,
        ;
        assert(n * u < 1_000 * u) by (nonlinear_arith)
            requires
                n < 1000,
                u > 0,
        ;
    }
}

/// A whole multiple, divided and shown with two decimal places.
proof fn lemma_fixed2_whole(n: nat, divisor: nat)
    requires
        n <= SIGNIFICANDS,
        divisor > 0,
    ensures
        fixed2(nearest(n * divisor * one(), divisor)) == decimal(n) + ".00"@,
{
    lemma_pow2_pos(UNIT_BITS as nat);
    reveal_strlit(".00");
    let u = one();
    lemma_nearest_exact(n, UNIT_BITS as nat, divisor);
    assert(n * divisor * u == n * u * divisor) by (nonlinear_arith);
    assert((n * u) * 100 == (n * 100) * u) by (nonlinear_arith);
    lemma_half_even_exact(n * 100, u);
    assert(seq!['.', '0', '0'] =~= ".00"@);
    assert(digit(0) == '0');
}

/// Where bytes and seconds divide evenly the rate is exact.
pub proof fn law_rate_exact(bits_per_second: nat, seconds: nat, bytes: nat)
    requires
        seconds >= 1,
        8 * bytes == bits_per_second * seconds,
        bits_per_second <= SIGNIFICANDS,
        bytes <= SIGNIFICANDS,
    ensures
        rate(bytes, Value::Finite { negative: false, units: seconds * one() }) == (Value::Finite {
            negative: false,
            units: bits_per_second * one(),
        }),
{
    lemma_pow2_pos(UNIT_BITS as nat);
    let u = one();
    assert(bytes * u * 1 == bytes * u) by (nonlinear_arith);
    lemma_nearest_exact(bytes, UNIT_BITS as nat, 1);
    let units = seconds * u;
    assert(units > 0) by (nonlinear_arith)
        requires
            units == seconds * u,
            seconds >= 1,
            u > 0,
    ;
    assert(8 * (bytes * u) * u == bits_per_second * u * units) by (nonlinear_arith)
        requires
            8 * bytes == bits_per_second * seconds,
            units == seconds * u,
    ;
    lemma_nearest_exact(bits_per_second, UNIT_BITS as nat, units);
    lemma2_to64();
    lemma_pow2_strictly_increases(64, 1024);
    let v = pow2(1024);
    assert(bits_per_second * u < v * u) by (nonlinear_arith)
        requires
            bits_per_second < v,
            u > 0,
    ;
}

} // verus!
