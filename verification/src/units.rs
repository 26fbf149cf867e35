//! Byte counts as people write and read them.

use crate::listing;
use crate::plan::{GIB, KIB, MIB};
use crate::text;
use crate::text::{
    chars_of, has_suffix, push_decimal, push_padded, slice_of, string_of, to_lowered, trim,
};
use vstd::arithmetic::div_mod;
use vstd::arithmetic::power2;
use vstd::prelude::*;
use vstd::string::*;

verus! {

/// `n / d` to the nearest integer; halfway between two, to the even one.
pub open spec fn half_even(n: nat, d: nat) -> nat {
    let q = n / d;
    let twice = 2 * (n % d);
    if twice < d || (twice == d && q % 2 == 0) {
        q
    } else {
        q + 1
    }
}

/// The distance between neighbouring double-precision numbers around `n`: one up to 53
/// bits, and twice as much for every bit beyond.
pub open spec fn double_step(n: nat) -> nat
    decreases n,
{
    if n < 0x20_0000_0000_0000 {
        1
    } else {
        2 * double_step(n / 2)
    }
}

/// `n` as a double-precision number holds it.
pub open spec fn as_double(n: nat) -> nat {
    half_even(n, double_step(n)) * double_step(n)
}

/// `n` units of `scale` bytes each, as a number with two decimals.
pub open spec fn two_decimals(n: nat, scale: nat) -> Seq<char> {
    let hundredths = half_even(as_double(n) * 100, scale);
    text::decimal(hundredths / 100) + "."@ + text::padded(hundredths % 100, 2)
}

/// A byte count in the largest unit that it fills.
pub open spec fn bytes_text(n: nat) -> Seq<char> {
    if n >= GIB {
        two_decimals(n, GIB as nat) + " GB"@
    } else if n >= MIB {
        two_decimals(n, MIB as nat) + " MB"@
    } else if n >= KIB {
        two_decimals(n, KIB as nat) + " KB"@
    } else {
        text::decimal(n) + " B"@
    }
}

/// `n / d` to the nearest integer; halfway between two, to the even one.
pub(crate) fn round_half_even(n: u128, d: u128) -> (r: u128)
    requires
        0 < d <= 0x4000_0000_0000_0000_0000_0000_0000_0000,
        n < u128::MAX,
    ensures
        r == half_even(n as nat, d as nat),
        r <= n / d + 1,
        r <= n + 1,
{
    let q: u128 = n / d;
    let twice: u128 = 2 * (n % d);
    assert(q <= n) by (nonlinear_arith)
        requires
            q == n / d,
            d > 0,
    ;
    if twice < d || (twice == d && q % 2 == 0) {
        q
    } else {
        q + 1
    }
}

fn step_of_double(n: u64) -> (step: u64)
    ensures
        step == double_step(n as nat),
        1 <= step <= 2048,
{
    let mut step: u64 = 1;
    let mut rest: u64 = n;
    while rest >= 0x20_0000_0000_0000
        invariant
            double_step(n as nat) == step * double_step(rest as nat),
            step == 1 && rest <= u64::MAX || step == 2 && rest < 0x8000_0000_0000_0000 || step == 4
                && rest < 0x4000_0000_0000_0000 || step == 8 && rest < 0x2000_0000_0000_0000 || step
                == 16 && rest < 0x1000_0000_0000_0000 || step == 32 && rest < 0x800_0000_0000_0000
                || step == 64 && rest < 0x400_0000_0000_0000 || step == 128 && rest
                < 0x200_0000_0000_0000 || step == 256 && rest < 0x100_0000_0000_0000 || step == 512
                && rest < 0x80_0000_0000_0000 || step == 1024 && rest < 0x40_0000_0000_0000 || step
                == 2048 && rest < 0x20_0000_0000_0000,
        decreases rest,
    {
        proof {
            assert(step * (2 * double_step((rest / 2) as nat)) == (step * 2) * double_step(
                (rest / 2) as nat,
            )) by (nonlinear_arith);
        }
        rest = rest / 2;
        step = step * 2;
    }
    step
}

fn push_two_decimals(out: &mut String, n: u64, scale: u64)
    requires
        KIB <= scale <= GIB,
    ensures
        final(out)@ == old(out)@ + two_decimals(n as nat, scale as nat),
{
    let step: u64 = step_of_double(n);
    let units: u128 = round_half_even(n as u128, step as u128);
    proof {
        assert(units * step <= 0x2_0000_0000_0000_0000) by {
            assert(half_even(n as nat, step as nat) * step <= n + step) by (nonlinear_arith)
                requires
                    step > 0,
                    half_even(n as nat, step as nat) <= n / step + 1,
            ;
        }
    }
    let double: u128 = units * step as u128;
    let hundredths: u128 = round_half_even(double * 100, scale as u128);
    proof {
        let d = double * 100;
        assert(hundredths <= d / (scale as int) + 1);
        assert(d / (scale as int) <= d / 1024) by (nonlinear_arith)
            requires
                scale >= 1024,
                d >= 0,
        ;
    }
    push_decimal(out, (hundredths / 100) as u64);
    out.append(".");
    push_padded(out, (hundredths % 100) as u64, 2);
    assert(out@ =~= old(out)@ + two_decimals(n as nat, scale as nat));
}

/// Human-readable byte size, sized to how people talk about Kindle storage.
#[must_use]
pub fn human_bytes(bytes: u64) -> (rendered: String)
    ensures
        rendered@ == bytes_text(bytes as nat),
{
    let mut out = String::new();
    if bytes >= GIB {
        push_two_decimals(&mut out, bytes, GIB);
        out.append(" GB");
    } else if bytes >= MIB {
        push_two_decimals(&mut out, bytes, MIB);
        out.append(" MB");
    } else if bytes >= KIB {
        push_two_decimals(&mut out, bytes, KIB);
        out.append(" KB");
    } else {
        push_decimal(&mut out, bytes);
        out.append(" B");
    }
    assert(out@ =~= bytes_text(bytes as nat));
    out
}

/// A typed size in the form its number and unit are read from: trimmed, in small
/// letters, without spaces.
pub open spec fn normalized(raw: Seq<char>) -> Seq<char> {
    text::lowered(text::trimmed(raw)).filter(|c: char| c != ' ')
}

/// The part of a normalized size before its unit, and the bytes that the unit stands
/// for.
pub open spec fn number_and_scale(s: Seq<char>) -> (Seq<char>, u64) {
    if "gib"@.is_suffix_of(s) {
        (s.take(s.len() - 3), GIB)
    } else if "gb"@.is_suffix_of(s) {
        (s.take(s.len() - 2), GIB)
    } else if "mib"@.is_suffix_of(s) {
        (s.take(s.len() - 3), MIB)
    } else if "mb"@.is_suffix_of(s) {
        (s.take(s.len() - 2), MIB)
    } else if "kib"@.is_suffix_of(s) {
        (s.take(s.len() - 3), KIB)
    } else if "kb"@.is_suffix_of(s) {
        (s.take(s.len() - 2), KIB)
    } else if "b"@.is_suffix_of(s) {
        (s.take(s.len() - 1), 1)
    } else {
        (s, 1)
    }
}

fn without_spaces(chars: &Vec<char>) -> (out: Vec<char>)
    ensures
        out@ == chars@.filter(|c: char| c != ' '),
{
    let ghost keep = |c: char| c != ' ';
    let mut out: Vec<char> = Vec::new();
    let mut i: usize = 0;
    proof {
        reveal(Seq::filter);
    }
    while i < chars.len()
        invariant
            i <= chars.len(),
            keep == (|c: char| c != ' '),
            out@ == chars@.take(i as int).filter(keep),
        decreases chars.len() - i,
    {
        proof {
            crate::order::lemma_filter_push(chars@.take(i as int), chars@[i as int], keep);
            assert(chars@.take(i + 1) =~= chars@.take(i as int).push(chars@[i as int]));
        }
        if chars[i] != ' ' {
            out.push(chars[i]);
        }
        i += 1;
    }
    assert(chars@.take(i as int) =~= chars@);
    out
}

/// A typed size taken apart.
#[derive(Debug)]
pub struct SizeParts {
    /// What stands before the unit.
    pub number: String,
    /// The bytes that the unit stands for.
    pub scale: u64,
}

/// Take a typed size apart. Accepts `50MB`, `90 MiB`, `2GB`, or a raw byte count; what
/// stands before the unit is not looked at.
pub fn split_size(raw: &str) -> (parts: SizeParts)
    ensures
        (parts.number@, parts.scale) == number_and_scale(normalized(raw@)),
{
    let s = without_spaces(&to_lowered(&trim(&chars_of(raw))));
    let len: usize = s.len();
    proof {
        reveal_strlit("gib");
        reveal_strlit("gb");
        reveal_strlit("mib");
        reveal_strlit("mb");
        reveal_strlit("kib");
        reveal_strlit("kb");
        reveal_strlit("b");
    }
    let (cut, scale): (usize, u64) = if has_suffix(&s, "gib") {
        (3, GIB)
    } else if has_suffix(&s, "gb") {
        (2, GIB)
    } else if has_suffix(&s, "mib") {
        (3, MIB)
    } else if has_suffix(&s, "mb") {
        (2, MIB)
    } else if has_suffix(&s, "kib") {
        (3, KIB)
    } else if has_suffix(&s, "kb") {
        (2, KIB)
    } else if has_suffix(&s, "b") {
        (1, 1)
    } else {
        (0, 1)
    };
    let number = slice_of(&s, 0, len - cut);
    assert(s@.subrange(0, len - cut) =~= s@.take(len - cut));
    assert(s@.take(len as int) =~= s@);
    SizeParts { number: string_of(&number), scale }
}

/// The sign bit of a double-precision number.
pub open spec fn is_negative(bits: u64) -> bool {
    bits >= 0x8000_0000_0000_0000
}

/// The exponent field of a double-precision number.
pub open spec fn exponent(bits: u64) -> int {
    (bits as int / 0x10_0000_0000_0000) % 2048
}

/// The fraction field of a double-precision number.
pub open spec fn fraction(bits: u64) -> int {
    bits as int % 0x10_0000_0000_0000
}

/// The magnitude of a finite double-precision number is this many times two to the
/// power of [`power_of`].
pub open spec fn mantissa(bits: u64) -> nat {
    if exponent(bits) == 0 {
        fraction(bits) as nat
    } else {
        (0x10_0000_0000_0000 + fraction(bits)) as nat
    }
}

/// See [`mantissa`].
pub open spec fn power_of(bits: u64) -> int {
    if exponent(bits) == 0 {
        -1074
    } else {
        exponent(bits) - 1075
    }
}

/// The bits stand for a number that can be a size: finite, and not below zero.
pub open spec fn is_size(bits: u64) -> bool {
    exponent(bits) != 2047 && (is_negative(bits) ==> mantissa(bits) == 0)
}

/// `m` times two to the power of `e`, rounded down.
pub open spec fn shifted(m: nat, e: int) -> nat {
    if e >= 0 {
        m * power2::pow2(e as nat)
    } else {
        m / power2::pow2((-e) as nat)
    }
}

/// The exponent of a unit's scale.
pub open spec fn scale_power(scale: u64) -> int {
    if scale == GIB {
        30
    } else if scale == MIB {
        20
    } else if scale == KIB {
        10
    } else {
        0
    }
}

/// The bytes that a number of units stands for: the whole part of the product, or the
/// largest count there is.
pub open spec fn size_of(bits: u64, scale: u64) -> u64 {
    listing::capped(shifted(mantissa(bits), power_of(bits) + scale_power(scale)) as int)
}

fn doubled(m: u64, times: u64) -> (r: u64)
    ensures
        r == listing::capped((m * power2::pow2(times as nat)) as int),
{
    let mut r: u64 = m;
    let mut i: u64 = 0;
    proof {
        power2::lemma2_to64();
    }
    while i < times
        invariant
            i <= times,
            r == m * power2::pow2(i as nat),
        decreases times - i,
    {
        proof {
            power2::lemma_pow2_unfold((i + 1) as nat);
            assert(m * (2 * power2::pow2(i as nat)) == 2 * (m * power2::pow2(i as nat)))
                by (nonlinear_arith);
        }
        if r > u64::MAX / 2 {
            proof {
                if i + 1 < times {
                    power2::lemma_pow2_strictly_increases((i + 1) as nat, times as nat);
                }
                let a = power2::pow2((i + 1) as nat);
                let b = power2::pow2(times as nat);
                assert(m * a <= m * b) by (nonlinear_arith)
                    requires
                        a <= b,
                        m >= 0,
                ;
            }
            return u64::MAX;
        }
        r = r * 2;
        i += 1;
    }
    r
}

fn halved(m: u64, times: u64) -> (r: u64)
    ensures
        r == (m as nat) / power2::pow2(times as nat),
{
    let mut r: u64 = m;
    let mut i: u64 = 0;
    proof {
        power2::lemma2_to64();
    }
    while i < times
        invariant
            i <= times,
            r == (m as nat) / power2::pow2(i as nat),
        decreases times - i,
    {
        proof {
            power2::lemma_pow2_unfold((i + 1) as nat);
            power2::lemma_pow2_pos(i as nat);
            div_mod::lemma_div_denominator(m as int, power2::pow2(i as nat) as int, 2);
            assert(power2::pow2(i as nat) * 2 == power2::pow2((i + 1) as nat));
        }
        r = r / 2;
        i += 1;
    }
    r
}

/// Read a typed size.
///
/// `number` is the double-precision number, by its bits, that the text before the unit
/// reads as (see [`split_size`]); `None` where it reads as no number. A negative or
/// infinite number, or one that is none, is refused rather than reinterpreted: taken as
/// zero it would make a perfectly valid window that nobody asked for.
pub fn parse_size(raw: &str, number: Option<u64>) -> (size: Result<u64, String>)
    ensures
        match size {
            Ok(n) => number matches Some(bits) && is_size(bits) && n == size_of(
                bits,
                number_and_scale(normalized(raw@)).1,
            ),
            Err(message) => (number matches Some(bits) ==> !is_size(bits)) && message@
                == "not a size: "@ + raw@,
        },
{
    let scale: u64 = split_size(raw).scale;
    match number {
        Some(bits) => {
            let exponent: u64 = (bits / 0x10_0000_0000_0000) % 2048;
            let fraction: u64 = bits % 0x10_0000_0000_0000;
            let negative: bool = bits >= 0x8000_0000_0000_0000;
            if exponent == 2047 || (negative && (exponent != 0 || fraction != 0)) {
                return Err(not_a_size(raw));
            }
            let up: u64 = if scale == GIB {
                30
            } else if scale == MIB {
                20
            } else if scale == KIB {
                10
            } else {
                0
            };
            let (m, below): (u64, u64) = if exponent == 0 {
                (fraction, 1074)
            } else if exponent < 1075 {
                (0x10_0000_0000_0000 + fraction, 1075 - exponent)
            } else {
                (0x10_0000_0000_0000 + fraction, 0)
            };
            let above: u64 = if exponent < 1075 {
                up
            } else {
                exponent - 1075 + up
            };
            if above >= below {
                Ok(doubled(m, above - below))
            } else {
                proof {
                    power2::lemma_pow2_pos((below - above) as nat);
                    let p = power2::pow2((below - above) as nat);
                    assert(m as int / (p as int) <= m) by (nonlinear_arith)
                        requires
                            p > 0,
                            m >= 0,
                    ;
                }
                Ok(halved(m, below - above))
            }
        },
        None => Err(not_a_size(raw)),
    }
}

fn not_a_size(raw: &str) -> (message: String)
    ensures
        message@ == "not a size: "@ + raw@,
{
    let mut message = "not a size: ".to_owned();
    message.append(raw);
    message
}

} // verus!
