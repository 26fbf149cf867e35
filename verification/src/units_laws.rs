//! How close the figures that are shown come to what they stand for.

use crate::text;
use crate::units;
use vstd::arithmetic::div_mod;
use vstd::arithmetic::power2;
use vstd::prelude::*;

verus! {

/// Rounding goes to the nearest integer, no more than half a unit away, and from halfway
/// to the even one.
pub proof fn law_rounding_goes_to_the_nearest(n: nat, d: nat)
    requires
        d > 0,
    ensures
        ({
            let r = units::half_even(n, d) as int;
            &&& 2 * (r * d) <= 2 * n + d
            &&& 2 * n <= 2 * (r * d) + d
            &&& 2 * (r * d) == 2 * n + d || 2 * n == 2 * (r * d) + d ==> r % 2 == 0
        }),
{
    let q = (n / d) as int;
    div_mod::lemma_fundamental_div_mod(n as int, d as int);
    let r = units::half_even(n, d) as int;
    assert(q * d == d * q) by (nonlinear_arith);
    assert((q + 1) * d == d * q + d) by (nonlinear_arith);
}

/// A number as a double holds it: the same up to 53 bits, and beyond that the nearest
/// multiple of a power of two that leaves 53 bits of it.
pub proof fn law_a_double_holds_53_bits(n: nat)
    ensures
        n < 0x20_0000_0000_0000 ==> units::as_double(n) == n,
        units::double_step(n) > 0,
        2 * units::as_double(n) <= 2 * n + units::double_step(n),
        2 * n <= 2 * units::as_double(n) + units::double_step(n),
        n >= 0x20_0000_0000_0000 ==> 0x10_0000_0000_0000 * units::double_step(n) <= n
            < 0x20_0000_0000_0000 * units::double_step(n),
        exists|k: nat| units::double_step(n) == #[trigger] power2::pow2(k),
    decreases n,
{
    power2::lemma2_to64();
    if n < 0x20_0000_0000_0000 {
        assert(units::double_step(n) == power2::pow2(0));
        assert(n / 1 == n && n % 1 == 0);
    } else {
        law_a_double_holds_53_bits(n / 2);
        let k = choose|k: nat| units::double_step(n / 2) == #[trigger] power2::pow2(k);
        power2::lemma_pow2_unfold(k + 1);
        assert(units::double_step(n) == power2::pow2(k + 1));
        if n / 2 < 0x20_0000_0000_0000 {
            assert(units::double_step(n / 2) == 1);
        }
    }
    law_rounding_goes_to_the_nearest(n, units::double_step(n));
}

/// The figure is that many hundredths, with two decimals.
pub open spec fn in_hundredths(figure: Seq<char>, hundredths: nat) -> bool {
    figure == text::decimal(hundredths / 100) + "."@ + text::padded(hundredths % 100, 2)
}

/// The hundredth of a unit nearest to so many bytes; from halfway the even one.
pub open spec fn nearest_hundredth(bytes: nat, scale: nat, hundredths: nat) -> bool {
    let shown = hundredths * scale;
    let exact = 100 * bytes;
    &&& 2 * shown <= 2 * exact + scale
    &&& 2 * exact <= 2 * shown + scale
    &&& 2 * shown == 2 * exact + scale || 2 * exact == 2 * shown + scale ==> hundredths % 2 == 0
}

/// A byte count is told in the largest of `GB`, `MB` and `KB` that it fills, to the nearest
/// hundredth of it; below a kibibyte it is told exactly, in bytes.
pub proof fn law_a_byte_count_is_told_to_the_hundredth(n: nat)
    requires
        n < 0x20_0000_0000_0000,
    ensures
        n < 1024 ==> units::bytes_text(n) == text::decimal(n) + " B"@,
        1024 <= n < 1048576 ==> exists|h: nat| #[trigger]
            nearest_hundredth(n, 1024, h) && exists|figure: Seq<char>| #[trigger]
                in_hundredths(figure, h) && units::bytes_text(n) == figure + " KB"@,
        1048576 <= n < 1073741824 ==> exists|h: nat| #[trigger]
            nearest_hundredth(n, 1048576, h) && exists|figure: Seq<char>| #[trigger]
                in_hundredths(figure, h) && units::bytes_text(n) == figure + " MB"@,
        1073741824 <= n ==> exists|h: nat| #[trigger]
            nearest_hundredth(n, 1073741824, h) && exists|figure: Seq<char>| #[trigger]
                in_hundredths(figure, h) && units::bytes_text(n) == figure + " GB"@,
{
    if n >= 1024 {
        let scale: nat = if n >= 1073741824 {
            1073741824
        } else if n >= 1048576 {
            1048576
        } else {
            1024
        };
        lemma_two_decimals(n, scale);
        law_a_double_holds_53_bits(n);
        let h = units::half_even(n * 100, scale);
        assert(nearest_hundredth(n, scale, h));
        assert(in_hundredths(units::two_decimals(n, scale), h));
    }
}

/// Beyond what a double can hold exactly, a byte count is told in `GB` as the count that a
/// double makes of it.
pub proof fn law_a_large_byte_count_is_told_as_a_double_has_it(n: nat)
    requires
        n >= 0x20_0000_0000_0000,
    ensures
        exists|h: nat| #[trigger]
            nearest_hundredth(units::as_double(n), 1073741824, h) && exists|figure: Seq<char>|
                #[trigger]
                in_hundredths(figure, h) && units::bytes_text(n) == figure + " GB"@,
{
    lemma_two_decimals(n, 1073741824);
    let h = units::half_even(units::as_double(n) * 100, 1073741824);
    assert(nearest_hundredth(units::as_double(n), 1073741824, h));
    assert(in_hundredths(units::two_decimals(n, 1073741824), h));
}

proof fn lemma_two_decimals(n: nat, scale: nat)
    requires
        scale > 0,
    ensures
        in_hundredths(
            units::two_decimals(n, scale),
            units::half_even(units::as_double(n) * 100, scale),
        ),
        nearest_hundredth(
            units::as_double(n),
            scale,
            units::half_even(units::as_double(n) * 100, scale),
        ),
{
    law_rounding_goes_to_the_nearest(units::as_double(n) * 100, scale);
}

/// The bytes that a unit stands for.
pub open spec fn unit(u: Seq<char>) -> Option<u64> {
    if u == "gb"@ || u == "gib"@ {
        Some(0x4000_0000)
    } else if u == "mb"@ || u == "mib"@ {
        Some(0x10_0000)
    } else if u == "kb"@ || u == "kib"@ {
        Some(0x400)
    } else {
        None
    }
}

/// A size that ends in a unit is what stands before it, times that unit, whatever that is.
pub proof fn law_a_size_is_a_number_and_a_unit(number: Seq<char>, u: Seq<char>)
    requires
        unit(u) is Some,
    ensures
        units::number_and_scale(number + u) == (number, unit(u)->0),
{
    lemma_units();
    let s = number + u;
    let n = s.len() as int;
    assert(s.take(n - u.len()) =~= number);
    assert(u.len() == 2 || u.len() == 3);
    assert(s[n - 1] == u[u.len() - 1] && s[n - 2] == u[u.len() - 2]);
    assert(u.len() == 3 ==> s[n - 3] == u[0]);
    lemma_ends(s, "gib"@);
    lemma_ends(s, "gb"@);
    lemma_ends(s, "mib"@);
    lemma_ends(s, "mb"@);
    lemma_ends(s, "kib"@);
    lemma_ends(s, "kb"@);
}

/// A size that does not end in `b` is all number, in bytes; one that ends in a bare `b` is
/// what stands before it, in bytes.
pub proof fn law_a_size_without_a_unit_is_in_bytes(number: Seq<char>)
    ensures
        number.len() == 0 || number.last() != 'b' ==> units::number_and_scale(number) == (
            number,
            1u64,
        ),
        (forall|before: Seq<char>, u: Seq<char>|
            unit(u) is Some ==> number.push('b') != #[trigger] (before + u))
            ==> units::number_and_scale(number.push('b')) == (number, 1u64),
{
    lemma_units();
    lemma_ends(number, "gib"@);
    lemma_ends(number, "gb"@);
    lemma_ends(number, "mib"@);
    lemma_ends(number, "mb"@);
    lemma_ends(number, "kib"@);
    lemma_ends(number, "kb"@);
    lemma_ends(number, "b"@);
    let s = number.push('b');
    if forall|before: Seq<char>, u: Seq<char>|
        unit(u) is Some ==> s != #[trigger] (before + u) {
        lemma_stands_before(s, "gib"@);
        lemma_stands_before(s, "gb"@);
        lemma_stands_before(s, "mib"@);
        lemma_stands_before(s, "mb"@);
        lemma_stands_before(s, "kib"@);
        lemma_stands_before(s, "kb"@);
        lemma_ends(s, "b"@);
        assert(s.take(s.len() - 1) =~= number);
    }
}

proof fn lemma_units()
    ensures
        "gib"@ == seq!['g', 'i', 'b'],
        "gb"@ == seq!['g', 'b'],
        "mib"@ == seq!['m', 'i', 'b'],
        "mb"@ == seq!['m', 'b'],
        "kib"@ == seq!['k', 'i', 'b'],
        "kb"@ == seq!['k', 'b'],
        "b"@ == seq!['b'],
{
    reveal_strlit("gib");
    reveal_strlit("gb");
    reveal_strlit("mib");
    reveal_strlit("mb");
    reveal_strlit("kib");
    reveal_strlit("kb");
    reveal_strlit("b");
    assert("gib"@ =~= seq!['g', 'i', 'b']);
    assert("gb"@ =~= seq!['g', 'b']);
    assert("mib"@ =~= seq!['m', 'i', 'b']);
    assert("mb"@ =~= seq!['m', 'b']);
    assert("kib"@ =~= seq!['k', 'i', 'b']);
    assert("kb"@ =~= seq!['k', 'b']);
    assert("b"@ =~= seq!['b']);
}

/// A suffix is told by its characters from the end.
proof fn lemma_ends(s: Seq<char>, u: Seq<char>)
    requires
        1 <= u.len() <= 3,
    ensures
        u.is_suffix_of(s) <==> s.len() >= u.len() && s[s.len() - 1] == u[u.len() - 1] && (u.len()
            >= 2 ==> s[s.len() - 2] == u[u.len() - 2]) && (u.len() >= 3 ==> s[s.len() - 3]
            == u[0]),
{
    if s.len() >= u.len() {
        let end = s.subrange(s.len() - u.len(), s.len() as int);
        assert(end[u.len() - 1] == s[s.len() - 1]);
        if u.len() >= 2 {
            assert(end[u.len() - 2] == s[s.len() - 2]);
        }
        if u.len() >= 3 {
            assert(end[0] == s[s.len() - 3]);
        }
        if s[s.len() - 1] == u[u.len() - 1] && (u.len() >= 2 ==> s[s.len() - 2] == u[u.len() - 2])
            && (u.len() >= 3 ==> s[s.len() - 3] == u[0]) {
            assert(end =~= u);
        }
    }
}

proof fn lemma_stands_before(s: Seq<char>, u: Seq<char>)
    ensures
        u.is_suffix_of(s) ==> s == s.take(s.len() - u.len()) + u,
{
    if u.is_suffix_of(s) {
        let end = s.subrange(s.len() - u.len(), s.len() as int);
        assert(end == u);
        assert(s =~= s.take(s.len() - u.len()) + u);
    }
}

/// A text without its spaces.
pub open spec fn spaceless(s: Seq<char>) -> Seq<char>
    decreases s.len(),
{
    if s.len() == 0 {
        Seq::empty()
    } else if s.last() == ' ' {
        spaceless(s.drop_last())
    } else {
        spaceless(s.drop_last()).push(s.last())
    }
}

/// A size is read without regard to capitals, to white space around it, or to spaces
/// within it.
pub proof fn law_spaces_and_capitals_do_not_matter(raw: Seq<char>)
    ensures
        units::normalized(raw) == spaceless(text::lowered(text::trimmed(raw))),
{
    lemma_spaceless(text::lowered(text::trimmed(raw)));
}

proof fn lemma_spaceless(s: Seq<char>)
    ensures
        s.filter(|c: char| c != ' ') == spaceless(s),
    decreases s.len(),
{
    reveal(Seq::filter);
    if s.len() > 0 {
        lemma_spaceless(s.drop_last());
    }
}

/// What the bits of a double stand for. Positive and finite, they are an exponent and a
/// fraction; of the negative ones only zero can be a size, and neither infinity nor what is
/// no number can.
pub proof fn law_the_bits_of_a_double(bits: u64, exponent: int, fraction: int)
    requires
        0 <= exponent < 2048,
        0 <= fraction < 0x10_0000_0000_0000,
        bits == exponent * 0x10_0000_0000_0000 + fraction,
    ensures
        exponent == 0 ==> units::mantissa(bits) == fraction && units::power_of(bits) == -1074,
        0 < exponent ==> units::mantissa(bits) == 0x10_0000_0000_0000 + fraction
            && units::power_of(bits) == exponent - 1075,
        units::is_size(bits) <==> exponent < 2047,
{
    lemma_fields(bits as int, exponent, fraction);
}

/// Of the negative doubles zero alone can be a size.
pub proof fn law_no_size_is_below_zero(bits: u64)
    requires
        bits >= 0x8000_0000_0000_0000,
    ensures
        units::is_size(bits) <==> bits == 0x8000_0000_0000_0000,
        bits == 0x8000_0000_0000_0000 ==> units::mantissa(bits) == 0,
{
    let e = bits as int / 0x10_0000_0000_0000;
    assert(2048 <= e < 4096);
    assert(e % 2048 == e - 2048);
}

proof fn lemma_fields(bits: int, exponent: int, fraction: int)
    requires
        0 <= exponent < 2048,
        0 <= fraction < 0x10_0000_0000_0000,
        bits == exponent * 0x10_0000_0000_0000 + fraction,
    ensures
        (bits / 0x10_0000_0000_0000) % 2048 == exponent,
        bits % 0x10_0000_0000_0000 == fraction,
        bits < 0x8000_0000_0000_0000,
{
}

/// The bytes that a unit stands for are a power of two.
pub open spec fn is_scale(scale: u64) -> bool {
    scale == 1 || scale == 0x400 || scale == 0x10_0000 || scale == 0x4000_0000
}

/// A size is the whole part of the number times the unit, or the largest count there is
/// where that is more: of a number that is whole the product, and of one that is so many
/// parts of a power of two what goes into it that often.
pub proof fn law_a_size_is_the_whole_part_of_the_product(bits: u64, scale: u64)
    requires
        is_scale(scale),
    ensures
        ({
            let m = units::mantissa(bits);
            let e = units::power_of(bits);
            let size = units::size_of(bits, scale);
            &&& e >= 0 ==> size == if m * scale * power2::pow2(e as nat) <= u64::MAX {
                m * scale * power2::pow2(e as nat)
            } else {
                u64::MAX as int
            }
            &&& e < 0 ==> size * power2::pow2((-e) as nat) <= m * scale && (size == u64::MAX || m
                * scale < (size + 1) * power2::pow2((-e) as nat))
        }),
{
    let m = units::mantissa(bits);
    let e = units::power_of(bits);
    let k = units::scale_power(scale);
    let size = units::size_of(bits, scale);
    power2::lemma2_to64();
    assert(scale == power2::pow2(k as nat)) by {
        power2::lemma2_to64();
    }
    let sum = e + k;
    let whole = units::shifted(m, sum);
    if e >= 0 {
        power2::lemma_pow2_adds(e as nat, k as nat);
        let p = power2::pow2(e as nat);
        assert(m * (p * scale) == m * scale * p) by (nonlinear_arith);
    } else if sum >= 0 {
        let up = (-e) as nat;
        power2::lemma_pow2_adds(up, sum as nat);
        let p = power2::pow2(up);
        let q = power2::pow2(sum as nat);
        power2::lemma_pow2_pos(up);
        assert(p * q == scale);
        assert(whole == m * q);
        assert((m * q) * p == m * (p * q)) by (nonlinear_arith);
        assert(size <= whole);
        assert(size * p <= whole * p) by (nonlinear_arith)
            requires
                size <= whole,
                p >= 0,
        ;
        if size != u64::MAX {
            assert(size == whole);
            assert((size + 1) * p == size * p + p) by (nonlinear_arith);
        }
    } else {
        let down = (-sum) as nat;
        power2::lemma_pow2_adds(down, k as nat);
        power2::lemma_pow2_pos(down);
        let p = power2::pow2(down);
        assert(power2::pow2((-e) as nat) == p * scale);
        assert(whole == m / p);
        div_mod::lemma_fundamental_div_mod(m as int, p as int);
        let rest = (m % p) as int;
        assert(0 <= rest < p);
        assert(m == p * whole + rest);
        assert(size <= whole);
        assert(size * (p * scale) <= m * scale) by (nonlinear_arith)
            requires
                size <= whole,
                m == p * whole + rest,
                rest >= 0,
                p > 0,
                scale > 0,
                size >= 0,
        ;
        if size != u64::MAX {
            assert(size == whole);
            assert(m * scale < (size + 1) * (p * scale)) by (nonlinear_arith)
                requires
                    size == whole,
                    m == p * whole + rest,
                    rest < p,
                    p > 0,
                    scale > 0,
            ;
        }
    }
}

} // verus!
