//! Text as the rest of the library needs it: numbers written out, strings compared,
//! searched and put together, each with an exact meaning over sequences of characters.

use vstd::arithmetic::power;
use vstd::prelude::*;
use vstd::string::*;

verus! {

broadcast use vstd::string::group_string_axioms;

/// `String::push` appends one character.
pub assume_specification[ String::push ](s: &mut String, c: char)
    ensures
        final(s)@ == old(s)@.push(c),
;

/// The characters of `s`, in order.
pub fn chars_of(s: &str) -> (chars: Vec<char>)
    ensures
        chars@ == s@,
{
    let mut chars: Vec<char> = Vec::new();
    for c in rest: s.chars()
        invariant
            rest.seq() == s@,
            chars@ == s@.take(rest.index()),
    {
        chars.push(c);
        assert(s@.take(rest.index() + 1) =~= s@.take(rest.index()).push(c));
    }
    assert(s@.take(s@.len() as int) =~= s@);
    chars
}

/// The string made of `chars`.
pub fn string_of(chars: &Vec<char>) -> (s: String)
    ensures
        s@ == chars@,
{
    let mut s = String::new();
    let mut i: usize = 0;
    while i < chars.len()
        invariant
            i <= chars.len(),
            s@ == chars@.take(i as int),
        decreases chars.len() - i,
    {
        s.push(chars[i]);
        assert(chars@.take(i + 1) =~= chars@.take(i as int).push(chars@[i as int]));
        i += 1;
    }
    assert(chars@.take(chars@.len() as int) =~= chars@);
    s
}

/// Whether two strings hold the same characters.
pub fn same(a: &str, b: &str) -> (equal: bool)
    ensures
        equal == (a@ == b@),
{
    a.to_owned() == b.to_owned()
}

/// The character for the decimal digit `d`.
pub open spec fn digit(d: int) -> char {
    ('0' as int + d) as char
}

pub open spec fn is_digit(c: char) -> bool {
    '0' <= c <= '9'
}

/// `n` in decimal, without leading zeros.
pub open spec fn decimal(n: nat) -> Seq<char>
    decreases n,
{
    if n < 10 {
        seq![digit(n as int)]
    } else {
        decimal(n / 10).push(digit((n % 10) as int))
    }
}

pub open spec fn repeated(c: char, n: int) -> Seq<char> {
    if n <= 0 {
        Seq::empty()
    } else {
        Seq::new(n as nat, |i: int| c)
    }
}

/// `n` in decimal, filled up with zeros on the left to `width` digits.
pub open spec fn padded(n: nat, width: nat) -> Seq<char> {
    repeated('0', width - decimal(n).len()) + decimal(n)
}

/// The number that a sequence of decimal digits stands for.
pub open spec fn value(digits: Seq<char>) -> nat
    decreases digits.len(),
{
    if digits.len() == 0 {
        0
    } else {
        value(digits.drop_last()) * 10 + (digits.last() as int - '0' as int) as nat
    }
}

/// The character for the lower-case hexadecimal digit `d`.
pub open spec fn hex_digit(d: int) -> char {
    if d < 10 {
        digit(d)
    } else {
        ('a' as int + (d - 10)) as char
    }
}

/// The last `width` hexadecimal digits of `n`.
pub open spec fn hex(n: nat, width: nat) -> Seq<char>
    decreases width,
{
    if width == 0 {
        Seq::empty()
    } else {
        hex(n / 16, (width - 1) as nat).push(hex_digit((n % 16) as int))
    }
}

fn digit_char(d: u64) -> (c: char)
    requires
        d < 10,
    ensures
        c == digit(d as int),
{
    match d {
        0 => '0',
        1 => '1',
        2 => '2',
        3 => '3',
        4 => '4',
        5 => '5',
        6 => '6',
        7 => '7',
        8 => '8',
        _ => '9',
    }
}

fn hex_char(d: u64) -> (c: char)
    requires
        d < 16,
    ensures
        c == hex_digit(d as int),
{
    match d {
        10 => 'a',
        11 => 'b',
        12 => 'c',
        13 => 'd',
        14 => 'e',
        15 => 'f',
        _ => digit_char(d),
    }
}

/// Append `n` in decimal.
pub fn push_decimal(out: &mut String, n: u64)
    ensures
        final(out)@ == old(out)@ + decimal(n as nat),
{
    push_decimal_wide(out, n as u128);
}

/// Append `n` in decimal.
pub fn push_decimal_wide(out: &mut String, n: u128)
    ensures
        final(out)@ == old(out)@ + decimal(n as nat),
    decreases n,
{
    if n >= 10 {
        push_decimal_wide(out, n / 10);
    }
    out.push(digit_char((n % 10) as u64));
    assert(out@ =~= old(out)@ + decimal(n as nat));
}

/// How many digits `n` has in decimal.
fn decimal_len(n: u64) -> (len: usize)
    ensures
        len == decimal(n as nat).len(),
        1 <= len <= 20,
{
    let mut rest: u64 = n;
    let mut len: usize = 1;
    let ghost mut bound: int = u64::MAX as int;
    while rest >= 10
        invariant
            1 <= len <= 20,
            decimal(n as nat).len() == len - 1 + decimal(rest as nat).len(),
            rest <= bound,
            len == 1 ==> bound == u64::MAX,
            len == 2 ==> bound == 1844674407370955161,
            len == 3 ==> bound == 184467440737095516,
            len == 4 ==> bound == 18446744073709551,
            len == 5 ==> bound == 1844674407370955,
            len == 6 ==> bound == 184467440737095,
            len == 7 ==> bound == 18446744073709,
            len == 8 ==> bound == 1844674407370,
            len == 9 ==> bound == 184467440737,
            len == 10 ==> bound == 18446744073,
            len == 11 ==> bound == 1844674407,
            len == 12 ==> bound == 184467440,
            len == 13 ==> bound == 18446744,
            len == 14 ==> bound == 1844674,
            len == 15 ==> bound == 184467,
            len == 16 ==> bound == 18446,
            len == 17 ==> bound == 1844,
            len == 18 ==> bound == 184,
            len == 19 ==> bound == 18,
            len == 20 ==> bound == 1,
        decreases rest,
    {
        rest = rest / 10;
        len += 1;
        proof {
            bound = bound / 10;
        }
    }
    len
}

/// Append `n` in decimal, filled up with zeros on the left to `width` digits.
pub fn push_padded(out: &mut String, n: u64, width: usize)
    ensures
        final(out)@ == old(out)@ + padded(n as nat, width as nat),
{
    let len: usize = decimal_len(n);
    let mut written: usize = len;
    while written < width
        invariant
            len <= written,
            len == decimal(n as nat).len(),
            written <= width || written == len,
            out@ == old(out)@ + repeated('0', written - len),
        decreases width - written,
    {
        out.push('0');
        written += 1;
        assert(out@ =~= old(out)@ + repeated('0', written - len));
    }
    push_decimal(out, n);
    assert(out@ =~= old(out)@ + padded(n as nat, width as nat));
}

/// Append the last `width` hexadecimal digits of `n`.
pub fn push_hex(out: &mut String, n: u64, width: usize)
    ensures
        final(out)@ == old(out)@ + hex(n as nat, width as nat),
    decreases width,
{
    if width > 0 {
        push_hex(out, n / 16, width - 1);
        out.push(hex_char(n % 16));
    }
    assert(out@ =~= old(out)@ + hex(n as nat, width as nat));
}

/// Writing a number out and reading it back gives the number, whatever the width it is
/// filled up to; and only digits are written.
pub proof fn law_padded_reads_back(n: nat, width: nat)
    ensures
        value(padded(n, width)) == n,
        forall|i: int| 0 <= i < padded(n, width).len() ==> is_digit(#[trigger] padded(n, width)[i]),
        padded(n, width).len() >= 1,
{
    lemma_decimal_reads_back(n);
    let zeros = repeated('0', width - decimal(n).len());
    lemma_leading_zeros(zeros, decimal(n));
}

proof fn lemma_decimal_reads_back(n: nat)
    ensures
        value(decimal(n)) == n,
        forall|i: int| 0 <= i < decimal(n).len() ==> is_digit(#[trigger] decimal(n)[i]),
        decimal(n).len() >= 1,
    decreases n,
{
    reveal_with_fuel(value, 2);
    if n >= 10 {
        lemma_decimal_reads_back(n / 10);
        assert(decimal(n).drop_last() =~= decimal(n / 10));
    } else {
        assert(decimal(n).drop_last() =~= Seq::<char>::empty());
    }
}

proof fn lemma_leading_zeros(zeros: Seq<char>, digits: Seq<char>)
    requires
        forall|i: int| 0 <= i < zeros.len() ==> zeros[i] == '0',
    ensures
        value(zeros + digits) == value(digits),
    decreases zeros.len() + digits.len(),
{
    if digits.len() > 0 {
        lemma_leading_zeros(zeros, digits.drop_last());
        assert((zeros + digits).drop_last() =~= zeros + digits.drop_last());
    } else if zeros.len() > 0 {
        lemma_leading_zeros(zeros.drop_last(), digits);
        assert((zeros + digits).drop_last() =~= zeros.drop_last() + digits);
        assert((zeros + digits).last() == '0');
    } else {
        assert(zeros + digits =~= digits);
    }
}

/// The number that a lower-case hexadecimal digit stands for.
pub open spec fn hex_value(c: char) -> int {
    if is_digit(c) {
        c as int - '0' as int
    } else {
        c as int - 'a' as int + 10
    }
}

/// The number that a sequence of lower-case hexadecimal digits stands for.
pub open spec fn hex_number(digits: Seq<char>) -> int
    decreases digits.len(),
{
    if digits.len() == 0 {
        0
    } else {
        hex_number(digits.drop_last()) * 16 + hex_value(digits.last())
    }
}

/// Writing the last `width` hexadecimal digits of a number out and reading them back gives
/// the number, as far as so many digits can hold it.
pub proof fn law_hex_reads_back(n: nat, width: nat)
    ensures
        hex(n, width).len() == width,
        n < power::pow(16, width) ==> hex_number(hex(n, width)) == n,
    decreases width,
{
    reveal(power::pow);
    if width > 0 {
        law_hex_reads_back(n / 16, (width - 1) as nat);
        assert(hex(n, width).drop_last() =~= hex(n / 16, (width - 1) as nat));
        if n < power::pow(16, width) {
            assert(n / 16 < power::pow(16, (width - 1) as nat));
        }
    }
}

/// `c` with an ASCII capital turned into its small letter.
pub open spec fn lower(c: char) -> char {
    if 'A' <= c <= 'Z' {
        (c as int - 'A' as int + 'a' as int) as char
    } else {
        c
    }
}

/// `s` with every ASCII capital turned into its small letter.
pub open spec fn lowered(s: Seq<char>) -> Seq<char> {
    Seq::new(s.len(), |i: int| lower(s[i]))
}

fn lower_char(c: char) -> (l: char)
    ensures
        l == lower(c),
{
    match c {
        'A' => 'a',
        'B' => 'b',
        'C' => 'c',
        'D' => 'd',
        'E' => 'e',
        'F' => 'f',
        'G' => 'g',
        'H' => 'h',
        'I' => 'i',
        'J' => 'j',
        'K' => 'k',
        'L' => 'l',
        'M' => 'm',
        'N' => 'n',
        'O' => 'o',
        'P' => 'p',
        'Q' => 'q',
        'R' => 'r',
        'S' => 's',
        'T' => 't',
        'U' => 'u',
        'V' => 'v',
        'W' => 'w',
        'X' => 'x',
        'Y' => 'y',
        'Z' => 'z',
        _ => c,
    }
}

/// The characters with every ASCII capital turned into its small letter.
pub fn to_lowered(chars: &Vec<char>) -> (out: Vec<char>)
    ensures
        out@ == lowered(chars@),
{
    let mut out: Vec<char> = Vec::new();
    let mut i: usize = 0;
    while i < chars.len()
        invariant
            i <= chars.len(),
            out@ == lowered(chars@.take(i as int)),
        decreases chars.len() - i,
    {
        out.push(lower_char(chars[i]));
        i += 1;
        assert(out@ =~= lowered(chars@.take(i as int)));
    }
    assert(chars@.take(chars@.len() as int) =~= chars@);
    out
}

/// Whether `part` stands in `chars` at position `at`.
fn stands_at(chars: &Vec<char>, part: &Vec<char>, at: usize) -> (found: bool)
    requires
        at + part.len() <= chars.len(),
    ensures
        found == (chars@.subrange(at as int, at + part@.len()) == part@),
{
    let mut i: usize = 0;
    while i < part.len()
        invariant
            i <= part.len(),
            at + part.len() <= chars.len(),
            forall|j: int| 0 <= j < i ==> chars@[at + j] == part@[j],
        decreases part.len() - i,
    {
        if chars[at + i] != part[i] {
            assert(chars@.subrange(at as int, at + part@.len())[i as int] != part@[i as int]);
            return false;
        }
        i += 1;
    }
    assert(chars@.subrange(at as int, at + part@.len()) =~= part@);
    true
}

pub fn has_prefix(chars: &Vec<char>, prefix: &str) -> (found: bool)
    ensures
        found == prefix@.is_prefix_of(chars@),
{
    let part = chars_of(prefix);
    part.len() <= chars.len() && stands_at(chars, &part, 0)
}

pub fn has_suffix(chars: &Vec<char>, suffix: &str) -> (found: bool)
    ensures
        found == suffix@.is_suffix_of(chars@),
{
    let part = chars_of(suffix);
    part.len() <= chars.len() && stands_at(chars, &part, chars.len() - part.len())
}

/// `part` stands in `s` at position `i`.
pub open spec fn occurs_at(s: Seq<char>, part: Seq<char>, i: int) -> bool {
    0 <= i && i + part.len() <= s.len() && s.subrange(i, i + part.len()) == part
}

/// `part` stands somewhere in `s`.
pub open spec fn occurs_in(s: Seq<char>, part: Seq<char>) -> bool {
    exists|i: int| occurs_at(s, part, i)
}

pub fn occurs(chars: &Vec<char>, part: &str) -> (found: bool)
    ensures
        found == occurs_in(chars@, part@),
{
    let needle = chars_of(part);
    if needle.len() > chars.len() {
        return false;
    }
    let last: usize = chars.len() - needle.len();
    let mut i: usize = 0;
    while i <= last
        invariant
            i <= last + 1,
            needle@ == part@,
            last + needle.len() == chars.len(),
            forall|j: int| 0 <= j < i ==> !occurs_at(chars@, needle@, j),
        decreases last + 1 - i,
    {
        if stands_at(chars, &needle, i) {
            assert(occurs_at(chars@, needle@, i as int));
            return true;
        }
        if i == last {
            assert forall|j: int| !occurs_at(chars@, needle@, j) by {}
            return false;
        }
        i += 1;
    }
    false
}

/// Unicode white space.
pub open spec fn is_white_space(c: char) -> bool {
    ||| '\u{9}' <= c <= '\u{d}'
    ||| c == '\u{20}'
    ||| c == '\u{85}'
    ||| c == '\u{a0}'
    ||| c == '\u{1680}'
    ||| '\u{2000}' <= c <= '\u{200a}'
    ||| c == '\u{2028}'
    ||| c == '\u{2029}'
    ||| c == '\u{202f}'
    ||| c == '\u{205f}'
    ||| c == '\u{3000}'
}

pub(crate) fn white_space(c: char) -> (yes: bool)
    ensures
        yes == is_white_space(c),
{
    (c >= '\u{9}' && c <= '\u{d}') || c == '\u{20}' || c == '\u{85}' || c == '\u{a0}' || c
        == '\u{1680}' || (c >= '\u{2000}' && c <= '\u{200a}') || c == '\u{2028}' || c == '\u{2029}'
        || c == '\u{202f}' || c == '\u{205f}' || c == '\u{3000}'
}

/// The characters from `from` up to `to`.
pub fn slice_of(chars: &Vec<char>, from: usize, to: usize) -> (part: Vec<char>)
    requires
        from <= to <= chars.len(),
    ensures
        part@ == chars@.subrange(from as int, to as int),
{
    let mut part: Vec<char> = Vec::new();
    let mut i: usize = from;
    while i < to
        invariant
            from <= i <= to <= chars.len(),
            part@ == chars@.subrange(from as int, i as int),
        decreases to - i,
    {
        part.push(chars[i]);
        i += 1;
        assert(part@ =~= chars@.subrange(from as int, i as int));
    }
    part
}

/// `s` without white space at either end.
pub open spec fn trimmed(s: Seq<char>) -> Seq<char>
    decreases s.len(),
{
    if s.len() > 0 && is_white_space(s[0]) {
        trimmed(s.drop_first())
    } else if s.len() > 0 && is_white_space(s.last()) {
        trimmed(s.drop_last())
    } else {
        s
    }
}

/// The characters without white space at either end.
pub fn trim(chars: &Vec<char>) -> (out: Vec<char>)
    ensures
        out@ == trimmed(chars@),
{
    let mut from: usize = 0;
    let mut to: usize = chars.len();
    assert(chars@.subrange(0, chars@.len() as int) =~= chars@);
    while from < to && white_space(chars[from])
        invariant
            from <= to <= chars.len(),
            trimmed(chars@) == trimmed(chars@.subrange(from as int, to as int)),
        decreases to - from,
    {
        assert(chars@.subrange(from as int, to as int).drop_first() =~= chars@.subrange(
            from + 1,
            to as int,
        ));
        from += 1;
    }
    while from < to && white_space(chars[to - 1])
        invariant
            from <= to <= chars.len(),
            trimmed(chars@) == trimmed(chars@.subrange(from as int, to as int)),
            from < to ==> !is_white_space(chars@[from as int]),
        decreases to - from,
    {
        assert(chars@.subrange(from as int, to as int).drop_last() =~= chars@.subrange(
            from as int,
            to - 1,
        ));
        to -= 1;
    }
    slice_of(chars, from, to)
}

/// `a` does not come after `b` in the order of strings: by the first character in which
/// they differ, a string before its own continuations.
pub open spec fn precedes(a: Seq<char>, b: Seq<char>) -> bool
    decreases a.len(),
{
    if a.len() == 0 {
        true
    } else if b.len() == 0 {
        false
    } else if a[0] != b[0] {
        a[0] < b[0]
    } else {
        precedes(a.drop_first(), b.drop_first())
    }
}

/// Whether `a` does not come after `b` in the order of strings.
pub fn in_order(a: &str, b: &str) -> (yes: bool)
    ensures
        yes == precedes(a@, b@),
{
    let left = chars_of(a);
    let right = chars_of(b);
    let mut i: usize = 0;
    assert(left@.skip(0) =~= left@);
    assert(right@.skip(0) =~= right@);
    while i < left.len() && i < right.len()
        invariant
            i <= left.len(),
            i <= right.len(),
            precedes(a@, b@) == precedes(left@.skip(i as int), right@.skip(i as int)),
        decreases left.len() - i,
    {
        if left[i] != right[i] {
            return left[i] < right[i];
        }
        assert(left@.skip(i as int).drop_first() =~= left@.skip(i + 1));
        assert(right@.skip(i as int).drop_first() =~= right@.skip(i + 1));
        i += 1;
    }
    i == left.len()
}

/// The order of strings is total, and strings that precede each other are the same.
pub proof fn lemma_precedes_total(a: Seq<char>, b: Seq<char>)
    ensures
        precedes(a, b) || precedes(b, a),
        precedes(a, b) && precedes(b, a) <==> a == b,
    decreases a.len(),
{
    if a.len() > 0 && b.len() > 0 && a[0] == b[0] {
        lemma_precedes_total(a.drop_first(), b.drop_first());
        assert(a =~= seq![a[0]] + a.drop_first());
        assert(b =~= seq![b[0]] + b.drop_first());
    } else if a.len() == 0 && b.len() == 0 {
        assert(a =~= b);
    }
}

pub proof fn lemma_precedes_transitive(a: Seq<char>, b: Seq<char>, c: Seq<char>)
    requires
        precedes(a, b),
        precedes(b, c),
    ensures
        precedes(a, c),
    decreases a.len(),
{
    if a.len() > 0 && b.len() > 0 && c.len() > 0 && a[0] == b[0] && b[0] == c[0] {
        lemma_precedes_transitive(a.drop_first(), b.drop_first(), c.drop_first());
    }
}

/// The texts of lines.
pub open spec fn texts(lines: Seq<String>) -> Seq<Seq<char>> {
    lines.map_values(|l: String| l@)
}

/// No lines.
pub fn no_lines() -> (lines: Vec<String>)
    ensures
        texts(lines@) == Seq::<Seq<char>>::empty(),
{
    let lines: Vec<String> = Vec::new();
    assert(texts(lines@) =~= Seq::<Seq<char>>::empty());
    lines
}

/// One line.
pub fn one_line(line: String) -> (lines: Vec<String>)
    ensures
        texts(lines@) == seq![line@],
{
    let mut lines: Vec<String> = Vec::new();
    lines.push(line);
    assert(texts(lines@) =~= seq![line@]);
    lines
}

/// Append a line.
pub fn push_line(lines: &mut Vec<String>, line: String)
    ensures
        texts(final(lines)@) == texts(old(lines)@).push(line@),
{
    let ghost before = lines@;
    lines.push(line);
    assert(texts(lines@) =~= texts(before).push(line@));
}

} // verus!
