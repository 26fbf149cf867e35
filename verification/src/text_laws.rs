//! What written-out numbers and compared texts are, said without how they are made.

use crate::text;
use vstd::arithmetic::div_mod;
use vstd::arithmetic::power;
use vstd::prelude::*;

verus! {

/// The digit of `n` that counts the `i`th power of `base`.
pub open spec fn place(n: nat, base: nat, i: nat) -> int {
    (n as int / power::pow(base as int, i)) % (base as int)
}

/// Dividing by the base moves every digit one place down.
pub proof fn lemma_place(n: nat, base: nat, i: nat)
    requires
        base > 1,
    ensures
        place(n, base, 0) == n % base,
        place(n, base, i + 1) == place(n / base, base, i),
        power::pow(base as int, i) > 0,
{
    power::lemma_pow0(base as int);
    power::lemma_pow_positive(base as int, i);
    reveal(power::pow);
    div_mod::lemma_div_denominator(n as int, base as int, power::pow(base as int, i));
    assert(n as int / 1 == n);
}

/// A number in decimal shows its digits, the ones last, each once, and no zero in front of
/// another digit.
pub proof fn law_decimal_shows_the_digits(n: nat)
    ensures
        ({
            let d = text::decimal(n);
            &&& d.len() >= 1
            &&& forall|i: int|
                0 <= i < d.len() ==> (#[trigger] d[i]) as int == '0' as int + place(
                    n,
                    10,
                    (d.len() - 1 - i) as nat,
                )
            &&& n < power::pow(10, d.len())
            &&& d.len() > 1 ==> power::pow(10, (d.len() - 1) as nat) <= n
        }),
    decreases n,
{
    let d = text::decimal(n);
    reveal(power::pow);
    power::lemma_pow0(10);
    power::lemma_pow1(10);
    if n < 10 {
        lemma_place(n, 10, 0);
    } else {
        let rest = text::decimal(n / 10);
        law_decimal_shows_the_digits(n / 10);
        assert forall|i: int| 0 <= i < d.len() implies (#[trigger] d[i]) as int == '0' as int
            + place(n, 10, (d.len() - 1 - i) as nat) by {
            if i < rest.len() {
                assert(d[i] == rest[i]);
                lemma_place(n, 10, (rest.len() - 1 - i) as nat);
                assert((rest.len() - 1 - i) as nat + 1 == (d.len() - 1 - i) as nat);
            } else {
                lemma_place(n, 10, 0);
            }
        }
        let p = power::pow(10, (rest.len() - 1) as nat);
        assert(power::pow(10, rest.len()) == 10 * p);
        assert(power::pow(10, d.len()) == 10 * power::pow(10, rest.len()));
        if rest.len() == 1 {
            assert(p == 1);
        }
    }
}

/// Filled up to a width, a number in decimal has zeros in front, just enough of them.
pub proof fn law_padded_fills_up_with_zeros(n: nat, width: nat)
    ensures
        ({
            let p = text::padded(n, width);
            let d = text::decimal(n);
            &&& p.len() == if d.len() < width {
                width
            } else {
                d.len()
            }
            &&& p.skip(p.len() - d.len()) == d
            &&& forall|i: int| 0 <= i < p.len() - d.len() ==> #[trigger] p[i] == '0'
        }),
{
    let p = text::padded(n, width);
    let d = text::decimal(n);
    assert(p.skip(p.len() - d.len()) =~= d);
}

/// A number in hexadecimal shows its last `width` digits, the ones last, from `0` to `9`
/// and then from `a` to `f`.
pub proof fn law_hex_shows_the_digits(n: nat, width: nat)
    ensures
        ({
            let h = text::hex(n, width);
            &&& h.len() == width
            &&& forall|i: int|
                0 <= i < width ==> {
                    let d = place(n, 16, (width - 1 - i) as nat);
                    (#[trigger] h[i]) as int == if d < 10 {
                        '0' as int + d
                    } else {
                        'a' as int + (d - 10)
                    }
                }
        }),
    decreases width,
{
    let h = text::hex(n, width);
    if width > 0 {
        let rest = text::hex(n / 16, (width - 1) as nat);
        law_hex_shows_the_digits(n / 16, (width - 1) as nat);
        assert forall|i: int| 0 <= i < width implies {
            let d = place(n, 16, (width - 1 - i) as nat);
            (#[trigger] h[i]) as int == if d < 10 {
                '0' as int + d
            } else {
                'a' as int + (d - 10)
            }
        } by {
            if i < rest.len() {
                assert(h[i] == rest[i]);
                lemma_place(n, 16, (rest.len() - 1 - i) as nat);
                assert((rest.len() - 1 - i) as nat + 1 == (width - 1 - i) as nat);
            } else {
                lemma_place(n, 16, 0);
            }
        }
    }
}

/// Lowering moves the 26 ASCII capitals to their small letters, 32 further on, and changes
/// nothing else.
pub proof fn law_lowering_moves_only_capitals(s: Seq<char>)
    ensures
        text::lowered(s).len() == s.len(),
        forall|i: int|
            0 <= i < s.len() ==> (#[trigger] text::lowered(s)[i]) as int == s[i] as int + if 65
                <= s[i] as int <= 90 {
                32int
            } else {
                0
            },
{
}

/// The order of texts: `a` does not come after `b` exactly where the two agree up to some
/// place, and there `a` ends or has the smaller character.
pub proof fn law_order_goes_by_the_first_difference(a: Seq<char>, b: Seq<char>)
    ensures
        text::precedes(a, b) <==> exists|k: int|
            {
                &&& 0 <= k <= a.len()
                &&& k <= b.len()
                &&& #[trigger] a.take(k) == b.take(k)
                &&& k == a.len() || (k < b.len() && a[k] < b[k])
            },
    decreases a.len(),
{
    let agrees = |a: Seq<char>, b: Seq<char>, k: int|
        {
            &&& 0 <= k <= a.len()
            &&& k <= b.len()
            &&& a.take(k) == b.take(k)
            &&& k == a.len() || (k < b.len() && a[k] < b[k])
        };
    if a.len() == 0 || b.len() == 0 || a[0] != b[0] {
        assert(a.take(0) =~= b.take(0));
        if exists|k: int| #[trigger] agrees(a, b, k) {
            let k = choose|k: int| #[trigger] agrees(a, b, k);
            if k > 0 {
                assert(a.take(k)[0] == b.take(k)[0]);
            }
        }
        if text::precedes(a, b) {
            assert(agrees(a, b, 0));
        }
    } else {
        let x = a.drop_first();
        let y = b.drop_first();
        law_order_goes_by_the_first_difference(x, y);
        if text::precedes(a, b) {
            let k = choose|k: int|
                {
                    &&& 0 <= k <= x.len()
                    &&& k <= y.len()
                    &&& #[trigger] x.take(k) == y.take(k)
                    &&& k == x.len() || (k < y.len() && x[k] < y[k])
                };
            assert(a.take(k + 1) =~= seq![a[0]] + x.take(k));
            assert(b.take(k + 1) =~= seq![b[0]] + y.take(k));
            assert(agrees(a, b, k + 1));
        }
        if exists|k: int| #[trigger] agrees(a, b, k) {
            let k = choose|k: int| #[trigger] agrees(a, b, k);
            assert(k > 0);
            assert(x.take(k - 1) =~= a.take(k).drop_first());
            assert(y.take(k - 1) =~= b.take(k).drop_first());
            assert(x.take(k - 1) == y.take(k - 1));
        }
    }
    assert(text::precedes(a, b) <==> exists|k: int| #[trigger] agrees(a, b, k));
    if text::precedes(a, b) {
        let k = choose|k: int| #[trigger] agrees(a, b, k);
        assert(a.take(k) == b.take(k));
    } else {
        assert forall|k: int| !({
            &&& 0 <= k <= a.len()
            &&& k <= b.len()
            &&& #[trigger] a.take(k) == b.take(k)
            &&& k == a.len() || (k < b.len() && a[k] < b[k])
        }) by {
            assert(!agrees(a, b, k));
        }
    }
}

/// Trimming takes white space away at both ends, all of it, and nothing else.
pub proof fn law_trimming_takes_white_space_off_the_ends(s: Seq<char>) -> (cut: (int, int))
    ensures
        0 <= cut.0 <= cut.1 <= s.len(),
        text::trimmed(s) == s.subrange(cut.0, cut.1),
        forall|i: int| 0 <= i < cut.0 ==> text::is_white_space(#[trigger] s[i]),
        forall|i: int| cut.1 <= i < s.len() ==> text::is_white_space(#[trigger] s[i]),
        cut.0 < cut.1 ==> !text::is_white_space(s[cut.0]) && !text::is_white_space(s[cut.1 - 1]),
    decreases s.len(),
{
    if s.len() > 0 && text::is_white_space(s[0]) {
        let t = s.drop_first();
        let inner = law_trimming_takes_white_space_off_the_ends(t);
        let cut = (inner.0 + 1, inner.1 + 1);
        assert(t.subrange(inner.0, inner.1) =~= s.subrange(cut.0, cut.1));
        assert forall|i: int| 0 <= i < cut.0 implies text::is_white_space(#[trigger] s[i]) by {
            if i > 0 {
                assert(t[i - 1] == s[i]);
            }
        }
        assert forall|i: int| cut.1 <= i < s.len() implies text::is_white_space(#[trigger] s[i]) by {
            assert(t[i - 1] == s[i]);
        }
        cut
    } else if s.len() > 0 && text::is_white_space(s.last()) {
        let t = s.drop_last();
        let inner = law_trimming_takes_white_space_off_the_ends(t);
        assert(t.subrange(inner.0, inner.1) =~= s.subrange(inner.0, inner.1));
        assert forall|i: int| 0 <= i < inner.0 implies text::is_white_space(#[trigger] s[i]) by {
            assert(t[i] == s[i]);
        }
        assert forall|i: int| inner.1 <= i < s.len() implies text::is_white_space(
            #[trigger] s[i],
        ) by {
            if i < t.len() {
                assert(t[i] == s[i]);
            }
        }
        inner
    } else {
        assert(s.subrange(0, s.len() as int) =~= s);
        (0, s.len() as int)
    }
}

/// White space is what Unicode calls so, and nothing else.
pub proof fn law_white_space_is_what_unicode_says(c: char)
    ensures
        text::is_white_space(c) <==> seq![
            0x9int,
            0xa,
            0xb,
            0xc,
            0xd,
            0x20,
            0x85,
            0xa0,
            0x1680,
            0x2000,
            0x2001,
            0x2002,
            0x2003,
            0x2004,
            0x2005,
            0x2006,
            0x2007,
            0x2008,
            0x2009,
            0x200a,
            0x2028,
            0x2029,
            0x202f,
            0x205f,
            0x3000,
        ].contains(c as int),
{
    let spaces = seq![
        0x9int,
        0xa,
        0xb,
        0xc,
        0xd,
        0x20,
        0x85,
        0xa0,
        0x1680,
        0x2000,
        0x2001,
        0x2002,
        0x2003,
        0x2004,
        0x2005,
        0x2006,
        0x2007,
        0x2008,
        0x2009,
        0x200a,
        0x2028,
        0x2029,
        0x202f,
        0x205f,
        0x3000,
    ];
    let n = c as int;
    assert(spaces[0] == 0x9 && spaces[1] == 0xa && spaces[2] == 0xb && spaces[3] == 0xc && spaces[4]
        == 0xd && spaces[5] == 0x20 && spaces[6] == 0x85 && spaces[7] == 0xa0 && spaces[8]
        == 0x1680 && spaces[9] == 0x2000 && spaces[10] == 0x2001 && spaces[11] == 0x2002
        && spaces[12] == 0x2003 && spaces[13] == 0x2004 && spaces[14] == 0x2005 && spaces[15]
        == 0x2006 && spaces[16] == 0x2007 && spaces[17] == 0x2008 && spaces[18] == 0x2009
        && spaces[19] == 0x200a && spaces[20] == 0x2028 && spaces[21] == 0x2029 && spaces[22]
        == 0x202f && spaces[23] == 0x205f && spaces[24] == 0x3000);
}

/// A text occurs in another exactly where that is it with something before and something
/// after.
pub proof fn law_occurring_is_standing_between(s: Seq<char>, part: Seq<char>)
    ensures
        text::occurs_in(s, part) <==> exists|before: Seq<char>, after: Seq<char>|
            s == #[trigger] (before + part + after),
{
    if text::occurs_in(s, part) {
        let i = choose|i: int| text::occurs_at(s, part, i);
        let before = s.take(i);
        let after = s.skip(i + part.len());
        assert(s.subrange(i, i + part.len()) == part);
        assert forall|j: int| i <= j < i + part.len() implies #[trigger] s[j] == part[j - i] by {
            assert(s.subrange(i, i + part.len())[j - i] == s[j]);
        }
        assert(s =~= before + part + after);
    }
    if exists|before: Seq<char>, after: Seq<char>| s == #[trigger] (before + part + after) {
        let (before, after) = choose|before: Seq<char>, after: Seq<char>|
            s == #[trigger] (before + part + after);
        let i = before.len() as int;
        assert(s.subrange(i, i + part.len()) =~= part);
        assert(text::occurs_at(s, part, i));
    }
}

} // verus!
