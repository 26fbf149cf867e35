//! How close a figure that was worked out in doubles comes to what it stands for.

use crate::double;
use crate::double::Real;
use crate::units;
use crate::units_laws;
use vstd::arithmetic::power2;
use vstd::prelude::*;

verus! {

/// Two to the power of `e` where that is whole, else one.
pub open spec fn up(e: int) -> int {
    if e >= 0 {
        power2::pow2(e as nat) as int
    } else {
        1
    }
}

/// Two to the power of `-e` where that is whole, else one.
pub open spec fn down(e: int) -> int {
    if e >= 0 {
        1
    } else {
        power2::pow2((-e) as nat) as int
    }
}

/// The number `a` is [`over`] divided by [`under`], both of them whole.
pub open spec fn over(a: Real) -> int {
    a.m * up(a.e)
}

/// See [`over`].
pub open spec fn under(a: Real) -> int {
    down(a.e)
}

/// `p / q` is `n / d`, but for `u` parts in two to the power of 53 at the most.
pub open spec fn close(p: int, q: int, n: int, d: int, u: int) -> bool {
    &&& (p * d) * 0x20_0000_0000_0000 <= (0x20_0000_0000_0000 + u) * (n * q)
    &&& (0x20_0000_0000_0000 - u) * (n * q) <= (p * d) * 0x20_0000_0000_0000
}

/// `a` is `n / d`, but for `u` parts in two to the power of 53 at the most.
pub open spec fn stands_for(a: Real, n: int, d: int, u: int) -> bool {
    close(over(a), under(a), n, d, u)
}

proof fn lemma_cancel(x: int, y: int, k: int)
    by (nonlinear_arith)
    requires
        k > 0,
        x * k <= y * k,
    ensures
        x <= y,
{
}

proof fn lemma_times(a: int, b: int, c: int, d: int)
    by (nonlinear_arith)
    requires
        0 <= a <= b,
        0 <= c <= d,
    ensures
        a * c <= b * d,
{
}

proof fn lemma_more(a: int, b: int, c: int)
    by (nonlinear_arith)
    requires
        a <= b,
        0 <= c,
    ensures
        a * c <= b * c,
{
}

proof fn lemma_powers(e: int)
    ensures
        up(e) > 0,
        down(e) > 0,
        up(e + 1) * down(e) == 2 * (up(e) * down(e + 1)),
        e >= 0 ==> up(e + 1) == 2 * up(e) && down(e + 1) == down(e),
        e < 0 ==> down(e) == 2 * down(e + 1) && up(e + 1) == up(e),
{
    power2::lemma2_to64();
    if e >= 0 {
        power2::lemma_pow2_pos(e as nat);
        power2::lemma_pow2_unfold((e + 1) as nat);
    } else {
        power2::lemma_pow2_pos((-e) as nat);
        power2::lemma_pow2_unfold((-e) as nat);
    }
}

/// Only the difference of two exponents counts.
proof fn lemma_exponents(a: int, b: int)
    ensures
        (up(a - b) * down(a)) * up(b) == (up(a) * down(b)) * down(a - b),
{
    let i = if a - b >= 0 { a - b } else { 0 };
    let j = if a - b >= 0 { 0 } else { b - a };
    let k = if a >= 0 { a } else { 0 };
    let l = if a >= 0 { 0 } else { -a };
    let m = if b >= 0 { b } else { 0 };
    let n = if b >= 0 { 0 } else { -b };
    power2::lemma2_to64();
    power2::lemma_pow2_adds(i as nat, l as nat);
    power2::lemma_pow2_adds((i + l) as nat, m as nat);
    power2::lemma_pow2_adds(k as nat, n as nat);
    power2::lemma_pow2_adds((k + n) as nat, j as nat);
    assert(i + l + m == k + n + j);
}

/// What is close to something is close to whatever that is equal to.
proof fn lemma_same(p: int, q: int, n: int, d: int, n2: int, d2: int, u: int)
    requires
        close(p, q, n, d, u),
        n * d2 == n2 * d,
        d > 0,
        d2 > 0,
        0 <= u < 0x20_0000_0000_0000,
    ensures
        close(p, q, n2, d2, u),
{
    let a = 0x20_0000_0000_0000 + u;
    let b = 0x20_0000_0000_0000 - u;
    let m = 0x20_0000_0000_0000int;
    lemma_more((p * d) * m, a * (n * q), d2);
    lemma_more(b * (n * q), (p * d) * m, d2);
    assert(((p * d) * m) * d2 == ((p * d2) * m) * d) by (nonlinear_arith);
    assert((a * (n * q)) * d2 == (a * (n2 * q)) * d) by (nonlinear_arith)
        requires
            n * d2 == n2 * d,
    ;
    assert((b * (n * q)) * d2 == (b * (n2 * q)) * d) by (nonlinear_arith)
        requires
            n * d2 == n2 * d,
    ;
    lemma_cancel((p * d2) * m, a * (n2 * q), d);
    lemma_cancel(b * (n2 * q), (p * d2) * m, d);
}

/// Closeness adds up.
proof fn lemma_chain(p: int, q: int, n: int, d: int, n2: int, d2: int, u: int, v: int)
    requires
        close(p, q, n, d, u),
        close(n, d, n2, d2, v),
        p >= 0,
        q > 0,
        n > 0,
        d > 0,
        n2 >= 0,
        d2 > 0,
        0 <= u <= 1000,
        0 <= v <= 1000,
    ensures
        close(p, q, n2, d2, u + v + 1),
{
    let m = 0x20_0000_0000_0000int;
    let w = u + v + 1;
    let x = p * d2;
    let y = n2 * q;
    let k = n * d;
    assert(k > 0) by (nonlinear_arith)
        requires
            n > 0,
            d > 0,
            k == n * d,
    ;
    assert(0 <= p * d && 0 <= n * q && 0 <= n * d2 && 0 <= n2 * d && 0 <= x && 0 <= y)
        by (nonlinear_arith)
        requires
            p >= 0,
            q > 0,
            n > 0,
            d > 0,
            n2 >= 0,
            d2 > 0,
            x == p * d2,
            y == n2 * q,
    ;
    lemma_times((p * d) * m, (m + u) * (n * q), (n * d2) * m, (m + v) * (n2 * d));
    assert(((p * d) * m) * ((n * d2) * m) == ((x * m) * m) * k) by (nonlinear_arith)
        requires
            x == p * d2,
            k == n * d,
    ;
    assert(((m + u) * (n * q)) * ((m + v) * (n2 * d)) == (((m + u) * (m + v)) * y) * k)
        by (nonlinear_arith)
        requires
            y == n2 * q,
            k == n * d,
    ;
    lemma_cancel((x * m) * m, ((m + u) * (m + v)) * y, k);
    assert((m + u) * (m + v) <= (m + w) * m) by (nonlinear_arith)
        requires
            m == 0x20_0000_0000_0000,
            w == u + v + 1,
            0 <= u <= 1000,
            0 <= v <= 1000,
    ;
    lemma_more((m + u) * (m + v), (m + w) * m, y);
    assert(((m + w) * m) * y == ((m + w) * y) * m) by (nonlinear_arith);
    lemma_cancel(x * m, (m + w) * y, m);
    assert(0 <= (m - u) * (n * q) && 0 <= (m - v) * (n2 * d)) by (nonlinear_arith)
        requires
            0 <= n * q,
            0 <= n2 * d,
            u <= m,
            v <= m,
    ;
    lemma_times((m - u) * (n * q), (p * d) * m, (m - v) * (n2 * d), (n * d2) * m);
    assert(((m - u) * (n * q)) * ((m - v) * (n2 * d)) == (((m - u) * (m - v)) * y) * k)
        by (nonlinear_arith)
        requires
            y == n2 * q,
            k == n * d,
    ;
    lemma_cancel(((m - u) * (m - v)) * y, (x * m) * m, k);
    assert((m - w) * m <= (m - u) * (m - v)) by (nonlinear_arith)
        requires
            m == 0x20_0000_0000_0000,
            w == u + v + 1,
            0 <= u <= 1000,
            0 <= v <= 1000,
    ;
    lemma_more((m - w) * m, (m - u) * (m - v), y);
    assert(((m - w) * m) * y == ((m - w) * y) * m) by (nonlinear_arith);
    lemma_cancel((m - w) * y, x * m, m);
}

/// Quotients of what is close are close.
proof fn lemma_divided(
    p1: int,
    q1: int,
    n1: int,
    d1: int,
    u: int,
    p2: int,
    q2: int,
    n2: int,
    d2: int,
    v: int,
)
    requires
        close(p1, q1, n1, d1, u),
        close(p2, q2, n2, d2, v),
        p1 >= 0,
        q1 > 0,
        n1 >= 0,
        d1 > 0,
        p2 >= 0,
        q2 > 0,
        n2 >= 0,
        d2 > 0,
        0 <= u <= 1000,
        0 <= v <= 1000,
    ensures
        close(p1 * q2, q1 * p2, n1 * d2, d1 * n2, u + v + 2),
{
    let m = 0x20_0000_0000_0000int;
    let w = u + v + 2;
    let a = p1 * d1;
    let b = n1 * q1;
    let c = p2 * d2;
    let d = n2 * q2;
    assert(a >= 0 && b >= 0 && c >= 0 && d >= 0) by (nonlinear_arith)
        requires
            p1 >= 0,
            d1 > 0,
            n1 >= 0,
            q1 > 0,
            p2 >= 0,
            d2 > 0,
            n2 >= 0,
            q2 > 0,
            a == p1 * d1,
            b == n1 * q1,
            c == p2 * d2,
            d == n2 * q2,
    ;
    assert(a * d >= 0 && b * c >= 0) by (nonlinear_arith)
        requires
            a >= 0,
            b >= 0,
            c >= 0,
            d >= 0,
    ;
    assert((p1 * q2) * (d1 * n2) == a * d) by (nonlinear_arith)
        requires
            a == p1 * d1,
            d == n2 * q2,
    ;
    assert((n1 * d2) * (q1 * p2) == b * c) by (nonlinear_arith)
        requires
            b == n1 * q1,
            c == p2 * d2,
    ;
    let x = a * d;
    let y = b * c;
    assert((m - v) * d >= 0 && (m - u) * b >= 0) by (nonlinear_arith)
        requires
            d >= 0,
            b >= 0,
            u <= m,
            v <= m,
    ;
    assert(a * m >= 0 && c * m >= 0) by (nonlinear_arith)
        requires
            a >= 0,
            c >= 0,
            m > 0,
    ;
    // No larger than that.
    lemma_times(a * m, (m + u) * b, (m - v) * d, c * m);
    assert((a * m) * ((m - v) * d) == (x * (m - v)) * m) by (nonlinear_arith)
        requires
            x == a * d,
    ;
    assert(((m + u) * b) * (c * m) == ((m + u) * y) * m) by (nonlinear_arith)
        requires
            y == b * c,
    ;
    lemma_cancel(x * (m - v), (m + u) * y, m);
    lemma_more(x * (m - v), (m + u) * y, m);
    assert(m * (m + u) <= (m + w) * (m - v)) by (nonlinear_arith)
        requires
            m == 0x20_0000_0000_0000,
            w == u + v + 2,
            0 <= u <= 1000,
            0 <= v <= 1000,
    ;
    lemma_more(m * (m + u), (m + w) * (m - v), y);
    assert((x * (m - v)) * m == (x * m) * (m - v)) by (nonlinear_arith);
    assert(((m + u) * y) * m == (m * (m + u)) * y) by (nonlinear_arith);
    assert(((m + w) * (m - v)) * y == ((m + w) * y) * (m - v)) by (nonlinear_arith);
    lemma_cancel(x * m, (m + w) * y, m - v);
    // No smaller than that.
    lemma_times((m - u) * b, a * m, c * m, (m + v) * d);
    assert(((m - u) * b) * (c * m) == ((m - u) * y) * m) by (nonlinear_arith)
        requires
            y == b * c,
    ;
    assert((a * m) * ((m + v) * d) == (x * (m + v)) * m) by (nonlinear_arith)
        requires
            x == a * d,
    ;
    lemma_cancel((m - u) * y, x * (m + v), m);
    lemma_more((m - u) * y, x * (m + v), m);
    assert((m - w) * (m + v) <= m * (m - u)) by (nonlinear_arith)
        requires
            m == 0x20_0000_0000_0000,
            w == u + v + 2,
            0 <= u <= 1000,
            0 <= v <= 1000,
    ;
    lemma_more((m - w) * (m + v), m * (m - u), y);
    assert(((m - u) * y) * m == (m * (m - u)) * y) by (nonlinear_arith);
    assert((x * (m + v)) * m == (x * m) * (m + v)) by (nonlinear_arith);
    assert(((m - w) * (m + v)) * y == ((m - w) * y) * (m + v)) by (nonlinear_arith);
    lemma_cancel((m - w) * y, x * m, m + v);
}

/// Sums of what is close are close.
proof fn lemma_added(
    p1: int,
    q1: int,
    n1: int,
    d1: int,
    p2: int,
    q2: int,
    n2: int,
    d2: int,
    u: int,
)
    requires
        close(p1, q1, n1, d1, u),
        close(p2, q2, n2, d2, u),
        q1 > 0,
        d1 > 0,
        q2 > 0,
        d2 > 0,
    ensures
        close(p1 * q2 + p2 * q1, q1 * q2, n1 * d2 + n2 * d1, d1 * d2, u),
{
    let m = 0x20_0000_0000_0000int;
    let f = q2 * d2;
    let g = q1 * d1;
    assert(f > 0 && g > 0) by (nonlinear_arith)
        requires
            q1 > 0,
            d1 > 0,
            q2 > 0,
            d2 > 0,
            f == q2 * d2,
            g == q1 * d1,
    ;
    lemma_more((p1 * d1) * m, (m + u) * (n1 * q1), f);
    lemma_more((m - u) * (n1 * q1), (p1 * d1) * m, f);
    lemma_more((p2 * d2) * m, (m + u) * (n2 * q2), g);
    lemma_more((m - u) * (n2 * q2), (p2 * d2) * m, g);
    let x = (p1 * q2 + p2 * q1) * (d1 * d2);
    let y = (n1 * d2 + n2 * d1) * (q1 * q2);
    lemma_crossed(p1, q1, d1, p2, q2, d2);
    lemma_crossed(n1, d1, q1, n2, d2, q2);
    let (a1, a2) = (p1 * d1, p2 * d2);
    let (b1, b2) = (n1 * q1, n2 * q2);
    assert(d2 * q2 == f && d1 * q1 == g) by (nonlinear_arith)
        requires
            f == q2 * d2,
            g == q1 * d1,
    ;
    assert(x == a1 * f + a2 * g);
    assert(y == b1 * f + b2 * g);
    lemma_spread(a1, f, a2, g, m);
    lemma_spread(b1, f, b2, g, m + u);
    lemma_spread(b1, f, b2, g, m - u);
    assert((a1 * m) * f == m * (a1 * f) && (a2 * m) * g == m * (a2 * g)) by (nonlinear_arith);
    assert(((m + u) * b1) * f == (m + u) * (b1 * f)) by (nonlinear_arith);
    assert(((m + u) * b2) * g == (m + u) * (b2 * g)) by (nonlinear_arith);
    assert(((m - u) * b1) * f == (m - u) * (b1 * f)) by (nonlinear_arith);
    assert(((m - u) * b2) * g == (m - u) * (b2 * g)) by (nonlinear_arith);
    assert(x * m == m * x) by (nonlinear_arith);
}

proof fn lemma_spread(a: int, f: int, b: int, g: int, k: int)
    by (nonlinear_arith)
    ensures
        k * (a * f + b * g) == k * (a * f) + k * (b * g),
{
}

proof fn lemma_crossed(p1: int, q1: int, d1: int, p2: int, q2: int, d2: int)
    ensures
        (p1 * q2 + p2 * q1) * (d1 * d2) == (p1 * d1) * (q2 * d2) + (p2 * d2) * (q1 * d1),
{
    let k = d1 * d2;
    assert((p1 * q2 + p2 * q1) * k == (p1 * q2) * k + (p2 * q1) * k) by (nonlinear_arith);
    assert((p1 * q2) * (d1 * d2) == (p1 * d1) * (q2 * d2)) by (nonlinear_arith);
    assert((p2 * q1) * (d1 * d2) == (p2 * d2) * (q1 * d1)) by (nonlinear_arith);
}

/// A rounded number is the nearest of those with 53 bits, so it is what was rounded but
/// for one part in two to the power of 53.
pub proof fn law_rounding_is_off_by_half_a_bit(n: nat, d: nat, e: int)
    requires
        n > 0,
        d > 0,
    ensures
        0x10_0000_0000_0000 <= double::rounded(n, d, e).m < 0x20_0000_0000_0000,
        stands_for(double::rounded(n, d, e), n * up(e), d * down(e), 1),
    decreases
            if n >= 0x20_0000_0000_0000 * d {
                n - 0x20_0000_0000_0000 * d + 1
            } else if n < 0x10_0000_0000_0000 * d {
                0x10_0000_0000_0000 * d - n
            } else {
                0
            },
{
    let r = double::rounded(n, d, e);
    lemma_powers(e);
    lemma_powers(e - 1);
    lemma_powers(e + 1);
    if n >= 0x20_0000_0000_0000 * d {
        law_rounding_is_off_by_half_a_bit(n, 2 * d, e + 1);
        let (a, b) = (n * up(e + 1), (2 * d) * down(e + 1));
        let (a2, b2) = (n * up(e), d * down(e));
        lemma_rescaled(n as int, d as int, up(e), down(e), up(e + 1), down(e + 1));
        lemma_same(over(r), under(r), a, b, a2, b2, 1);
    } else if n < 0x10_0000_0000_0000 * d {
        law_rounding_is_off_by_half_a_bit(2 * n, d, e - 1);
        let (a, b) = ((2 * n) * up(e - 1), d * down(e - 1));
        let (a2, b2) = (n * up(e), d * down(e));
        lemma_rescaled(n as int, d as int, up(e - 1), down(e - 1), up(e), down(e));
        assert(a * b2 == a2 * b) by (nonlinear_arith)
            requires
                a == (2 * n) * up(e - 1),
                b == d * down(e - 1),
                a2 == n * up(e),
                b2 == d * down(e),
                up(e) * down(e - 1) == 2 * (up(e - 1) * down(e)),
        ;
        assert(b > 0 && b2 > 0) by (nonlinear_arith)
            requires
                b == d * down(e - 1),
                b2 == d * down(e),
                d > 0,
                down(e) > 0,
                down(e - 1) > 0,
        ;
        lemma_same(over(r), under(r), a, b, a2, b2, 1);
    } else {
        lemma_base(n, d, e);
    }
}

proof fn lemma_rescaled(n: int, d: int, u1: int, d1: int, u2: int, d2: int)
    requires
        u2 * d1 == 2 * (u1 * d2),
        d > 0,
        d1 > 0,
        d2 > 0,
    ensures
        (n * u2) * (d * d1) == (n * u1) * ((2 * d) * d2),
        (2 * d) * d2 > 0,
        d * d1 > 0,
{
    assert((n * u2) * (d * d1) == (n * d) * (u2 * d1)) by (nonlinear_arith);
    assert((n * u1) * ((2 * d) * d2) == (n * d) * (2 * (u1 * d2))) by (nonlinear_arith);
    assert((2 * d) * d2 > 0 && d * d1 > 0) by (nonlinear_arith)
        requires
            d > 0,
            d1 > 0,
            d2 > 0,
    ;
}

proof fn lemma_base(n: nat, d: nat, e: int)
    requires
        d > 0,
        0x10_0000_0000_0000 * d <= n < 0x20_0000_0000_0000 * d,
    ensures
        0x10_0000_0000_0000 <= double::rounded(n, d, e).m < 0x20_0000_0000_0000,
        stands_for(double::rounded(n, d, e), n * up(e), d * down(e), 1),
{
    let m = 0x20_0000_0000_0000int;
    let h = units::half_even(n, d) as int;
    let r = double::rounded(n, d, e);
    units_laws::law_rounding_goes_to_the_nearest(n, d);
    lemma_powers(e);
    assert(0x10_0000_0000_0000 <= h <= 0x20_0000_0000_0000) by {
        assert(h >= 0x10_0000_0000_0000) by (nonlinear_arith)
            requires
                2 * n <= 2 * (h * d) + d,
                0x10_0000_0000_0000 * d <= n,
                d > 0,
        ;
        assert(h <= 0x20_0000_0000_0000) by (nonlinear_arith)
            requires
                2 * (h * d) <= 2 * n + d,
                n < 0x20_0000_0000_0000 * d,
                d > 0,
        ;
    }
    // To half a unit, which is one part in twice as many as there are units.
    assert((h * d) * m <= (m + 1) * n && (m - 1) * n <= (h * d) * m) by {
        let hd = h * d;
        assert(2 * hd <= 2 * n + d && 2 * n <= 2 * hd + d && 0x10_0000_0000_0000 * d <= n);
        assert(hd * m <= (m + 1) * n && (m - 1) * n <= hd * m);
    }
    let (x, y) = (up(e), down(e));
    let (a, b) = (n * x, d * y);
    // The value is `h` at the exponent `e`, whichever way it is held.
    let p = h * x;
    assert(close(p, y, a, b, 1)) by {
        let k = x * y;
        assert(k > 0) by (nonlinear_arith)
            requires
                x > 0,
                y > 0,
                k == x * y,
        ;
        lemma_more((h * d) * m, (m + 1) * n, k);
        lemma_more((m - 1) * n, (h * d) * m, k);
        assert((p * b) * m == ((h * d) * m) * k) by (nonlinear_arith)
            requires
                p == h * x,
                b == d * y,
                k == x * y,
        ;
        assert((m + 1) * (a * y) == ((m + 1) * n) * k) by (nonlinear_arith)
            requires
                a == n * x,
                k == x * y,
        ;
        assert((m - 1) * (a * y) == ((m - 1) * n) * k) by (nonlinear_arith)
            requires
                a == n * x,
                k == x * y,
        ;
    }
    if h == 0x20_0000_0000_0000 {
        let p2 = over(r);
        let y2 = under(r);
        assert(r.m == 0x10_0000_0000_0000 && r.e == e + 1);
        lemma_powers(e + 1);
        assert(p2 * y == p * y2) by {
            assert(up(e + 1) * y == 2 * (x * y2));
            assert((0x10_0000_0000_0000 * up(e + 1)) * y == 0x10_0000_0000_0000 * (up(e + 1) * y))
                by (nonlinear_arith);
            assert((0x20_0000_0000_0000 * x) * y2 == 0x10_0000_0000_0000 * (2 * (x * y2)))
                by (nonlinear_arith);
        }
        lemma_held_otherwise(p, y, p2, y2, a, b, 1);
    } else {
        assert(over(r) == p && under(r) == y);
    }
}

/// A number that is held otherwise is as close to anything.
proof fn lemma_held_otherwise(p: int, q: int, p2: int, q2: int, n: int, d: int, u: int)
    requires
        close(p, q, n, d, u),
        p2 * q == p * q2,
        q > 0,
        q2 > 0,
    ensures
        close(p2, q2, n, d, u),
{
    let m = 0x20_0000_0000_0000int;
    let (a, b) = (m + u, m - u);
    lemma_more((p * d) * m, a * (n * q), q2);
    lemma_more(b * (n * q), (p * d) * m, q2);
    assert(((p * d) * m) * q2 == ((p2 * d) * m) * q) by (nonlinear_arith)
        requires
            p2 * q == p * q2,
    ;
    assert((a * (n * q)) * q2 == (a * (n * q2)) * q) by (nonlinear_arith);
    assert((b * (n * q)) * q2 == (b * (n * q2)) * q) by (nonlinear_arith);
    lemma_cancel((p2 * d) * m, a * (n * q2), q);
    lemma_cancel(b * (n * q2), (p2 * d) * m, q);
}

/// A whole number as a double is that number, but for one part in two to the power of 53.
pub proof fn law_a_whole_number_keeps_53_bits(n: nat)
    requires
        n > 0,
    ensures
        stands_for(double::of(n), n as int, 1, 1),
        over(double::of(n)) > 0,
{
    power2::lemma2_to64();
    law_rounding_is_off_by_half_a_bit(n, 1, 0);
    assert(up(0) == 1 && down(0) == 1);
    assert(n * up(0) == n && 1 * down(0) == 1) by (nonlinear_arith)
        requires
            up(0) == 1,
            down(0) == 1,
    ;
    lemma_positive(double::of(n));
}

proof fn lemma_positive(a: Real)
    requires
        a.m > 0,
    ensures
        over(a) > 0,
        under(a) > 0,
{
    lemma_powers(a.e);
    let x = up(a.e);
    assert(a.m * x > 0) by (nonlinear_arith)
        requires
            a.m > 0,
            x > 0,
    ;
}

/// A quotient in doubles is the quotient, but for one part in two to the power of 53.
pub proof fn law_a_quotient_is_off_by_half_a_bit(a: Real, b: Real)
    requires
        a.m > 0,
        b.m > 0,
    ensures
        stands_for(
            double::quotient(a, b),
            over(a) * under(b),
            under(a) * over(b),
            1,
        ),
        double::quotient(a, b).m > 0,
{
    let q = double::quotient(a, b);
    let e = a.e - b.e;
    law_rounding_is_off_by_half_a_bit(a.m, b.m, e);
    lemma_powers(e);
    lemma_positive(a);
    lemma_positive(b);
    lemma_exponents(a.e, b.e);
    let (n, d) = (a.m * up(e), b.m * down(e));
    let (n2, d2) = (over(a) * under(b), under(a) * over(b));
    lemma_quotient_exponents(
        a.m as int,
        b.m as int,
        up(e),
        down(e),
        up(a.e),
        down(a.e),
        up(b.e),
        down(b.e),
    );
    assert(d > 0 && d2 > 0) by (nonlinear_arith)
        requires
            d == b.m * down(e),
            d2 == under(a) * over(b),
            b.m > 0,
            down(e) > 0,
            under(a) > 0,
            over(b) > 0,
    ;
    lemma_same(over(q), under(q), n, d, n2, d2, 1);
}

proof fn lemma_quotient_exponents(
    a: int,
    b: int,
    ue: int,
    de: int,
    ua: int,
    da: int,
    ub: int,
    db: int,
)
    requires
        (ue * da) * ub == (ua * db) * de,
    ensures
        (a * ue) * (da * (b * ub)) == ((a * ua) * db) * (b * de),
{
    let k = a * b;
    assert((a * ue) * (da * (b * ub)) == k * ((ue * da) * ub)) by (nonlinear_arith)
        requires
            k == a * b,
    ;
    assert(((a * ua) * db) * (b * de) == k * ((ua * db) * de)) by (nonlinear_arith)
        requires
            k == a * b,
    ;
}

/// What is close to a quotient of doubles is close to the quotient of what they stand for.
proof fn lemma_quotient_of(a: Real, b: Real, n1: int, d1: int, u: int, n2: int, d2: int, v: int)
    requires
        a.m > 0,
        b.m > 0,
        stands_for(a, n1, d1, u),
        stands_for(b, n2, d2, v),
        n1 > 0,
        d1 > 0,
        n2 > 0,
        d2 > 0,
        0 <= u <= 100,
        0 <= v <= 100,
    ensures
        stands_for(double::quotient(a, b), n1 * d2, d1 * n2, u + v + 4),
        double::quotient(a, b).m > 0,
{
    let q = double::quotient(a, b);
    law_a_quotient_is_off_by_half_a_bit(a, b);
    lemma_positive(a);
    lemma_positive(b);
    lemma_positive(q);
    lemma_divided(over(a), under(a), n1, d1, u, over(b), under(b), n2, d2, v);
    let (p, r) = (over(a) * under(b), under(a) * over(b));
    let (n, d) = (n1 * d2, d1 * n2);
    assert(p > 0 && r > 0 && n > 0 && d > 0) by (nonlinear_arith)
        requires
            p == over(a) * under(b),
            r == under(a) * over(b),
            n == n1 * d2,
            d == d1 * n2,
            over(a) > 0,
            under(a) > 0,
            over(b) > 0,
            under(b) > 0,
            n1 > 0,
            d1 > 0,
            n2 > 0,
            d2 > 0,
    ;
    lemma_chain(over(q), under(q), p, r, n, d, 1, u + v + 2);
}

/// A fraction is what it says, but for six parts in two to the power of 53.
pub proof fn law_a_fraction_is_what_it_says(part: nat, whole: nat)
    requires
        part > 0,
        whole > 0,
    ensures
        stands_for(double::fraction(part, whole), part as int, whole as int, 6),
        double::fraction(part, whole).m > 0,
{
    law_a_whole_number_keeps_53_bits(part);
    law_a_whole_number_keeps_53_bits(whole);
    law_rounding_is_off_by_half_a_bit(part, 1, 0);
    law_rounding_is_off_by_half_a_bit(whole, 1, 0);
    lemma_quotient_of(
        double::of(part),
        double::of(whole),
        part as int,
        1,
        1,
        whole as int,
        1,
        1,
    );
}

/// A multiple in doubles is the multiple, but for one part more.
proof fn lemma_product_of(a: Real, k: nat, n: int, d: int, u: int)
    requires
        a.m > 0,
        k > 0,
        stands_for(a, n, d, u),
        n > 0,
        d > 0,
        0 <= u <= 100,
    ensures
        stands_for(double::product(a, k), n * k, d, u + 2),
        double::product(a, k).m > 0,
{
    let r = double::product(a, k);
    let m = a.m * k;
    assert(m > 0) by (nonlinear_arith)
        requires
            m == a.m * k,
            a.m > 0,
            k > 0,
    ;
    law_rounding_is_off_by_half_a_bit(m, 1, a.e);
    lemma_positive(a);
    lemma_positive(r);
    let (p, q) = (over(a) * k, under(a));
    assert(m * up(a.e) == p) by (nonlinear_arith)
        requires
            m == a.m * k,
            p == (a.m * up(a.e)) * k,
    ;
    assert(p > 0) by (nonlinear_arith)
        requires
            p == over(a) * k,
            over(a) > 0,
            k > 0,
    ;
    assert(stands_for(r, p, q, 1));
    let w = 0x20_0000_0000_0000int;
    lemma_more((over(a) * d) * w, (w + u) * (n * q), k as int);
    lemma_more((w - u) * (n * q), (over(a) * d) * w, k as int);
    let (o, z) = (over(a), n * k);
    assert((p * d) * w == ((o * d) * w) * k) by (nonlinear_arith)
        requires
            p == o * k,
    ;
    assert((w + u) * (z * q) == ((w + u) * (n * q)) * k) by (nonlinear_arith)
        requires
            z == n * k,
    ;
    assert((w - u) * (z * q) == ((w - u) * (n * q)) * k) by (nonlinear_arith)
        requires
            z == n * k,
    ;
    assert(z > 0) by (nonlinear_arith)
        requires
            z == n * k,
            n > 0,
            k > 0,
    ;
    lemma_chain(over(r), under(r), p, q, z, d, 1, u);
}

/// The nearest integer to a number that is close to `n / d`, `times` over: it is off by
/// half, and by what the number is off.
proof fn lemma_nearest(t: int, p: int, q: int, times: int, n: int, d: int, u: int)
    requires
        2 * (t * q) <= 2 * (times * p) + q,
        2 * (times * p) <= 2 * (t * q) + q,
        close(p, q, n, d, u),
        q > 0,
        d > 0,
        times >= 0,
    ensures
        2 * ((t * d) * 0x20_0000_0000_0000) <= (2 * (times * n) + d) * 0x20_0000_0000_0000 + 2 * ((
        u * times) * n),
        (2 * (times * n)) * 0x20_0000_0000_0000 <= (2 * (t * d) + d) * 0x20_0000_0000_0000 + 2 * ((
        u * times) * n),
{
    let m = 0x20_0000_0000_0000int;
    let k = d * m;
    assert(k > 0) by (nonlinear_arith)
        requires
            d > 0,
            m > 0,
            k == d * m,
    ;
    lemma_more(2 * (t * q), 2 * (times * p) + q, k);
    lemma_more(2 * (times * p), 2 * (t * q) + q, k);
    let v = 2 * times;
    lemma_more((p * d) * m, (m + u) * (n * q), v);
    lemma_more((m - u) * (n * q), (p * d) * m, v);
    let tn = times * n;
    let un = (u * times) * n;
    assert((2 * (t * q)) * k == (2 * ((t * d) * m)) * q) by (nonlinear_arith)
        requires
            k == d * m,
    ;
    assert((2 * (times * p) + q) * k == ((p * d) * m) * v + (d * m) * q) by (nonlinear_arith)
        requires
            k == d * m,
            v == 2 * times,
    ;
    assert((2 * (times * p)) * k == ((p * d) * m) * v) by (nonlinear_arith)
        requires
            k == d * m,
            v == 2 * times,
    ;
    assert((2 * (t * q) + q) * k == ((2 * (t * d) + d) * m) * q) by (nonlinear_arith)
        requires
            k == d * m,
    ;
    let w = (n * q) * v;
    assert(w == (2 * tn) * q) by (nonlinear_arith)
        requires
            w == (n * q) * v,
            v == 2 * times,
            tn == times * n,
    ;
    assert(u * w == (2 * un) * q) by (nonlinear_arith)
        requires
            w == (2 * tn) * q,
            tn == times * n,
            un == (u * times) * n,
    ;
    assert(m * w == ((2 * tn) * m) * q) by (nonlinear_arith)
        requires
            w == (2 * tn) * q,
    ;
    assert(((m + u) * (n * q)) * v == m * w + u * w) by (nonlinear_arith)
        requires
            w == (n * q) * v,
    ;
    assert(((m - u) * (n * q)) * v == m * w - u * w) by (nonlinear_arith)
        requires
            w == (n * q) * v,
    ;
    assert(((2 * tn) * m + 2 * un) * q == ((2 * tn) * m) * q + (2 * un) * q) by (nonlinear_arith);
    assert(((2 * tn) * m - 2 * un) * q == ((2 * tn) * m) * q - (2 * un) * q) by (nonlinear_arith);
    assert(((2 * tn) * m + 2 * un) * q + (d * m) * q == ((2 * tn + d) * m + 2 * un) * q)
        by (nonlinear_arith);
    lemma_cancel(2 * ((t * d) * m), (2 * tn + d) * m + 2 * un, q);
    lemma_cancel((2 * tn) * m - 2 * un, (2 * (t * d) + d) * m, q);
}

/// The whole number nearest to a multiple of a double, over a divisor.
proof fn lemma_to_integer(a: Real, times: nat, divisor: nat)
    requires
        divisor > 0,
    ensures
        ({
            let t = double::to_integer(a, times, divisor) as int;
            let q = divisor * under(a);
            &&& q > 0
            &&& 2 * (t * q) <= 2 * (times * over(a)) + q
            &&& 2 * (times * over(a)) <= 2 * (t * q) + q
        }),
{
    lemma_powers(a.e);
    let x = up(a.e);
    if a.e >= 0 {
        let n = (a.m * times) * power2::pow2(a.e as nat);
        assert(n == times * (a.m * x)) by (nonlinear_arith)
            requires
                n == (a.m * times) * x,
        ;
        units_laws::law_rounding_goes_to_the_nearest(n, divisor);
    } else {
        let d = divisor * power2::pow2((-a.e) as nat);
        assert(d > 0) by (nonlinear_arith)
            requires
                d == divisor * down(a.e),
                divisor > 0,
                down(a.e) > 0,
        ;
        let n = a.m * times;
        assert(n == times * (a.m * x)) by (nonlinear_arith)
            requires
                n == a.m * times,
                x == 1,
        ;
        units_laws::law_rounding_goes_to_the_nearest(n, d);
    }
}

/// The figure is within 51 hundredths of one of `n / d`.
pub open spec fn shows(figure: int, n: int, d: int) -> bool {
    100 * (figure * d - n) <= 51 * d && 100 * (n - figure * d) <= 51 * d
}

/// Percents are shown to the nearest: whole ones, and tenths of one, of as much as there is
/// or less. What double precision is off by shows in the second digit behind the last at
/// the most.
pub proof fn law_percents_are_shown_to_the_nearest(part: nat, whole: nat)
    requires
        0 < whole,
        part <= whole,
    ensures
        shows(
            double::to_integer(double::percent(part, whole), 1, 1) as int,
            100 * (part as int),
            whole as int,
        ),
        shows(
            double::to_integer(double::percent(part, whole), 10, 1) as int,
            1000 * (part as int),
            whole as int,
        ),
{
    let x = double::percent(part, whole);
    if part == 0 {
        lemma_nothing(whole);
        lemma_zero_is_nothing(x, 1, 1);
        lemma_zero_is_nothing(x, 10, 1);
    } else {
        law_a_fraction_is_what_it_says(part, whole);
        lemma_product_of(double::fraction(part, whole), 100, part as int, whole as int, 6);
        lemma_positive(x);
        let n = (part * 100) as int;
        lemma_to_integer(x, 1, 1);
        lemma_to_integer(x, 10, 1);
        let t = double::to_integer(x, 1, 1) as int;
        let s = double::to_integer(x, 10, 1) as int;
        lemma_nearest(t, over(x), under(x), 1, n, whole as int, 8);
        lemma_nearest(s, over(x), under(x), 10, n, whole as int, 8);
        lemma_shown(t * whole, n, whole as int, 8 * n);
        lemma_shown(s * whole, 10 * n, whole as int, 80 * n);
    }
}

proof fn lemma_nothing(whole: nat)
    requires
        whole > 0,
    ensures
        double::fraction(0, whole).m == 0,
        double::percent(0, whole).m == 0,
{
}

/// Nothing in whatever time is no rate, and no time is no seconds.
pub proof fn law_of_nothing_there_is_nothing(nanos: nat, times: nat, divisor: nat)
    requires
        divisor > 0,
    ensures
        double::to_integer(double::rate(0, nanos), times, divisor) == 0,
        double::to_integer(double::seconds(0), times, divisor) == 0,
{
    lemma_zero_is_nothing(double::rate(0, nanos), times, divisor);
    assert(double::of(0).m == 0);
    lemma_zero_is_nothing(double::seconds(0), times, divisor);
}

proof fn lemma_zero_is_nothing(x: Real, times: nat, divisor: nat)
    requires
        x.m == 0,
        divisor > 0,
    ensures
        double::to_integer(x, times, divisor) == 0,
{
    lemma_to_integer(x, times, divisor);
    let t = double::to_integer(x, times, divisor) as int;
    let q = divisor * under(x);
    assert(over(x) == 0) by (nonlinear_arith)
        requires
            over(x) == x.m * up(x.e),
            x.m == 0,
    ;
    assert(t == 0) by (nonlinear_arith)
        requires
            2 * (t * q) <= 2 * (times * over(x)) + q,
            over(x) == 0,
            q > 0,
            t >= 0,
    ;
}

proof fn lemma_shown(figure: int, n: int, d: int, off: int)
    requires
        2 * (figure * 0x20_0000_0000_0000) <= (2 * n + d) * 0x20_0000_0000_0000 + 2 * off,
        (2 * n) * 0x20_0000_0000_0000 <= (2 * figure + d) * 0x20_0000_0000_0000 + 2 * off,
        0 <= 100 * off <= 0x20_0000_0000_0000 * d,
    ensures
        100 * (figure - n) <= 51 * d,
        100 * (n - figure) <= 51 * d,
{
}

/// A bar of progress has as many full cells as the share that is done calls for, to the
/// nearest, and never more than there are.
pub proof fn law_cells_are_filled_to_the_nearest(part: nat, whole: nat, cells: nat)
    requires
        0 < whole,
        part <= whole,
        0 < cells <= u32::MAX,
    ensures
        double::cells_filled(part, whole, cells) <= cells,
        shows(
            double::cells_filled(part, whole, cells) as int,
            (cells * part) as int,
            whole as int,
        ),
{
    let x = double::product(double::fraction(part, whole), cells);
    let c = double::half_up(x) as int;
    lemma_powers(x.e);
    lemma_half_up(x);
    let f = double::cells_filled(part, whole, cells) as int;
    if part == 0 {
        assert(x.m == 0) by {
            lemma_nothing(whole);
            assert(0 * cells == 0) by (nonlinear_arith);
        }
        assert(over(x) == 0) by (nonlinear_arith)
            requires
                over(x) == x.m * up(x.e),
                x.m == 0,
        ;
        let q = under(x);
        assert(c == 0) by (nonlinear_arith)
            requires
                2 * (c * q) <= 2 * over(x) + q,
                over(x) == 0,
                q > 0,
                c >= 0,
        ;
        assert(f == 0);
        assert(cells * part == 0 && f * whole == 0) by (nonlinear_arith)
            requires
                part == 0,
                f == 0,
        ;
    } else {
        law_a_fraction_is_what_it_says(part, whole);
        lemma_product_of(double::fraction(part, whole), cells, part as int, whole as int, 6);
        lemma_positive(x);
        let n = (part * cells) as int;
        assert(1 * over(x) == over(x));
        lemma_nearest(c, over(x), under(x), 1, n, whole as int, 8);
        assert(100 * (8 * n) <= 0x20_0000_0000_0000 * whole) by (nonlinear_arith)
            requires
                n == part * cells,
                part <= whole,
                cells <= 0xffff_ffff,
        ;
        lemma_shown(c * whole, n, whole as int, 8 * n);
        assert(cells * part == n) by (nonlinear_arith)
            requires
                n == part * cells,
        ;
        assert(n <= cells * whole) by (nonlinear_arith)
            requires
                n == part * cells,
                part <= whole,
        ;
        if c >= cells {
            assert(f == cells);
            assert(cells * whole <= c * whole) by (nonlinear_arith)
                requires
                    c >= cells,
                    whole > 0,
            ;
        }
    }
}

proof fn lemma_half_up(a: Real)
    ensures
        ({
            let c = double::half_up(a) as int;
            &&& 2 * (c * under(a)) <= 2 * over(a) + under(a)
            &&& 2 * over(a) <= 2 * (c * under(a)) + under(a)
        }),
{
    lemma_powers(a.e);
    let c = double::half_up(a) as int;
    if a.e >= 0 {
        assert(c * 1 == c);
    } else {
        let p = down(a.e);
        let top = 2 * a.m + p;
        assert(a.m * up(a.e) == a.m) by (nonlinear_arith)
            requires
                up(a.e) == 1,
        ;
        vstd::arithmetic::div_mod::lemma_fundamental_div_mod(top, 2 * p);
        let r = top % (2 * p);
        assert(c == top / (2 * p));
        assert((2 * p) * c == 2 * (c * p)) by (nonlinear_arith);
    }
}

/// Time in seconds is what it says, but for nine parts in two to the power of 53.
pub proof fn law_seconds_are_what_they_say(nanos: nat)
    requires
        nanos > 0,
    ensures
        stands_for(double::seconds(nanos), nanos as int, 1_000_000_000, 9),
        double::seconds(nanos).m > 0,
{
    let w = nanos / 1_000_000_000;
    let r = nanos % 1_000_000_000;
    let a = double::of(w);
    let b = double::quotient(double::of(r), double::of(1_000_000_000));
    if w > 0 {
        law_a_whole_number_keeps_53_bits(w);
        law_rounding_is_off_by_half_a_bit(w, 1, 0);
    }
    if r > 0 {
        law_a_fraction_is_what_it_says(r, 1_000_000_000);
    } else {
        lemma_nothing(1_000_000_000);
    }
    let s = double::seconds(nanos);
    if w == 0 {
        lemma_positive(b);
        lemma_looser(over(s), under(s), r as int, 1_000_000_000, 6, 9);
    } else if r == 0 {
        lemma_positive(a);
        lemma_same(over(a), under(a), w as int, 1, nanos as int, 1_000_000_000, 1);
        lemma_looser(over(s), under(s), nanos as int, 1_000_000_000, 1, 9);
    } else {
        lemma_positive(a);
        lemma_positive(b);
        lemma_looser(over(a), under(a), w as int, 1, 1, 6);
        if a.e >= b.e {
            lemma_sum_of(a, b, w as int, 1, r as int, 1_000_000_000);
            assert(w * 1_000_000_000 + r * 1 == nanos);
        } else {
            lemma_sum_of(b, a, r as int, 1_000_000_000, w as int, 1);
            assert(r * 1 + w * 1_000_000_000 == nanos);
        }
        lemma_positive(s);
        lemma_looser(over(s), under(s), nanos as int, 1_000_000_000, 8, 9);
    }
}

proof fn lemma_looser(p: int, q: int, n: int, d: int, u: int, v: int)
    requires
        close(p, q, n, d, u),
        u <= v,
        n >= 0,
        q > 0,
    ensures
        close(p, q, n, d, v),
{
    let m = 0x20_0000_0000_0000int;
    let k = n * q;
    assert(k >= 0) by (nonlinear_arith)
        requires
            n >= 0,
            q > 0,
            k == n * q,
    ;
    lemma_more(m + u, m + v, k);
    lemma_more(m - v, m - u, k);
}

proof fn lemma_sum_of(a: Real, b: Real, n1: int, d1: int, n2: int, d2: int)
    requires
        a.m > 0,
        b.m > 0,
        a.e >= b.e,
        stands_for(a, n1, d1, 6),
        stands_for(b, n2, d2, 6),
        n1 > 0,
        d1 > 0,
        n2 > 0,
        d2 > 0,
    ensures
        ({
            let s = double::rounded(a.m * power2::pow2((a.e - b.e) as nat) + b.m, 1, b.e);
            &&& stands_for(s, n1 * d2 + n2 * d1, d1 * d2, 8)
            &&& s.m > 0
        }),
{
    let k = power2::pow2((a.e - b.e) as nat);
    let n = a.m * k + b.m;
    let s = double::rounded(n, 1, b.e);
    lemma_positive(a);
    lemma_positive(b);
    lemma_powers(b.e);
    lemma_powers(a.e);
    law_rounding_is_off_by_half_a_bit(n, 1, b.e);
    lemma_positive(s);
    lemma_added(over(a), under(a), n1, d1, over(b), under(b), n2, d2, 6);
    let (p, q) = (over(a) * under(b) + over(b) * under(a), under(a) * under(b));
    let (z, y) = (n1 * d2 + n2 * d1, d1 * d2);
    lemma_exponents(a.e, b.e);
    assert(up(a.e - b.e) == k && down(a.e - b.e) == 1);
    lemma_sum_exponents(
        a.m as int,
        b.m as int,
        k as int,
        up(a.e),
        down(a.e),
        up(b.e),
        down(b.e),
    );
    assert(q > 0 && y > 0 && p > 0 && z > 0) by (nonlinear_arith)
        requires
            q == under(a) * under(b),
            y == d1 * d2,
            p == over(a) * under(b) + over(b) * under(a),
            z == n1 * d2 + n2 * d1,
            over(a) > 0,
            under(a) > 0,
            over(b) > 0,
            under(b) > 0,
            n1 > 0,
            d1 > 0,
            n2 > 0,
            d2 > 0,
    ;
    lemma_same(over(s), under(s), n * up(b.e), 1 * down(b.e), p, q, 1);
    lemma_chain(over(s), under(s), p, q, z, y, 1, 6);
}

proof fn lemma_sum_exponents(a: int, b: int, k: int, ua: int, da: int, ub: int, db: int)
    requires
        (k * da) * ub == (ua * db) * 1,
    ensures
        ((a * k + b) * ub) * (da * db) == ((a * ua) * db + (b * ub) * da) * (1 * db),
{
    assert((a * k + b) * ub == (a * k) * ub + b * ub) by (nonlinear_arith);
    let (x, y) = ((a * k) * ub, b * ub);
    assert((x + y) * (da * db) == x * (da * db) + y * (da * db)) by (nonlinear_arith);
    assert(x * (da * db) == (a * db) * ((k * da) * ub)) by (nonlinear_arith)
        requires
            x == (a * k) * ub,
    ;
    assert((a * db) * (ua * db) == ((a * ua) * db) * db) by (nonlinear_arith);
    assert(y * (da * db) == (y * da) * db) by (nonlinear_arith);
    let (v, w) = ((a * ua) * db, y * da);
    assert((v + w) * (1 * db) == v * db + w * db) by (nonlinear_arith);
}

/// A rate is bytes over time, but for 14 parts in two to the power of 53.
pub proof fn law_a_rate_is_bytes_over_time(bytes: nat, nanos: nat)
    requires
        bytes > 0,
        nanos > 0,
    ensures
        stands_for(double::rate(bytes, nanos), (bytes * 1_000_000_000) as int, nanos as int, 14),
        double::rate(bytes, nanos).m > 0,
{
    law_a_whole_number_keeps_53_bits(bytes);
    law_rounding_is_off_by_half_a_bit(bytes, 1, 0);
    law_seconds_are_what_they_say(nanos);
    lemma_quotient_of(
        double::of(bytes),
        double::seconds(nanos),
        bytes as int,
        1,
        1,
        nanos as int,
        1_000_000_000,
        9,
    );
}

/// The figure is the whole number nearest to `n / d`, but for `u` parts in two to the power
/// of 53 of what it shows.
pub open spec fn nearest(figure: int, n: int, d: int, u: int) -> bool {
    &&& 2 * ((figure * d) * 0x20_0000_0000_0000) <= (2 * n + d) * 0x20_0000_0000_0000 + 2 * (u * n)
    &&& (2 * n) * 0x20_0000_0000_0000 <= (2 * (figure * d) + d) * 0x20_0000_0000_0000 + 2 * (u * n)
}

/// A time is shown to the nearest second, or tenth of one.
pub proof fn law_times_are_shown_to_the_nearest(nanos: nat, times: nat)
    requires
        nanos > 0,
    ensures
        nearest(
            double::to_integer(double::seconds(nanos), times, 1) as int,
            (times * nanos) as int,
            1_000_000_000,
            9,
        ),
{
    let x = double::seconds(nanos);
    law_seconds_are_what_they_say(nanos);
    lemma_positive(x);
    lemma_to_integer(x, times, 1);
    assert(1 * under(x) == under(x));
    let t = double::to_integer(x, times, 1) as int;
    lemma_nearest(t, over(x), under(x), times as int, nanos as int, 1_000_000_000, 9);
    assert((9 * times) * nanos == 9 * (times * nanos)) by (nonlinear_arith);
}

/// A rate is shown to the nearest tenth of a megabyte per second.
pub proof fn law_rates_are_shown_to_the_nearest_tenth(bytes: nat, nanos: nat)
    requires
        bytes > 0,
        nanos > 0,
    ensures
        nearest(
            double::to_integer(double::rate(bytes, nanos), 10, 1_048_576) as int,
            10 * ((bytes * 1_000_000_000) as int),
            (nanos * 1_048_576) as int,
            14,
        ),
{
    let x = double::rate(bytes, nanos);
    law_a_rate_is_bytes_over_time(bytes, nanos);
    lemma_positive(x);
    lemma_to_integer(x, 10, 1_048_576);
    let n = (bytes * 1_000_000_000) as int;
    let k = 1_048_576int;
    let m = 0x20_0000_0000_0000int;
    let (p, q, d) = (over(x), under(x), nanos as int);
    lemma_more((p * d) * m, (m + 14) * (n * q), k);
    lemma_more((m - 14) * (n * q), (p * d) * m, k);
    assert(((p * d) * m) * k == (p * (d * k)) * m) by (nonlinear_arith);
    assert(((m + 14) * (n * q)) * k == (m + 14) * (n * (k * q))) by (nonlinear_arith);
    assert(((m - 14) * (n * q)) * k == (m - 14) * (n * (k * q))) by (nonlinear_arith);
    assert(k * q > 0) by (nonlinear_arith)
        requires
            k > 0,
            q > 0,
    ;
    let t = double::to_integer(x, 10, 1_048_576) as int;
    lemma_nearest(t, p, k * q, 10, n, d * k, 14);
    assert((14 * 10) * n == 14 * (10 * n));
}

/// The time that is left is what the rest takes at the rate there was, to the nanosecond,
/// and the most that is told where it is more than that.
pub proof fn law_the_time_left_is_what_the_rest_takes(
    remaining: nat,
    bytes: nat,
    nanos: nat,
    cap: nat,
)
    requires
        remaining > 0,
        bytes > 0,
        nanos > 0,
        cap > 0,
    ensures
        ({
            let t = double::time_for(remaining, bytes, nanos, cap) as int;
            let takes = (remaining * nanos) as int;
            let most = (cap * 1_000_000_000) as int;
            &&& t == most || nearest(t, takes, bytes as int, 19)
            &&& (0x20_0000_0000_0000 - 19) * takes >= (most * bytes) * 0x20_0000_0000_0000 ==> t
                == most
            &&& (0x20_0000_0000_0000 + 19) * takes < (most * bytes) * 0x20_0000_0000_0000
                ==> nearest(t, takes, bytes as int, 19)
        }),
{
    let a = double::of(remaining);
    let b = double::rate(bytes, nanos);
    let x = double::quotient(a, b);
    law_a_whole_number_keeps_53_bits(remaining);
    law_rounding_is_off_by_half_a_bit(remaining, 1, 0);
    law_a_rate_is_bytes_over_time(bytes, nanos);
    let g = 1_000_000_000int;
    let bg = bytes * g;
    lemma_quotient_of(a, b, remaining as int, 1, 1, bg, nanos as int, 14);
    lemma_positive(x);
    let takes = (remaining * nanos) as int;
    let most = (cap * 1_000_000_000) as int;
    let m = 0x20_0000_0000_0000int;
    let (p, q) = (over(x), under(x));
    assert(close(p, q, takes, bg, 19));
    // Whether the most is reached.
    let reached = double::at_least(x, cap);
    assert(reached <==> p >= cap * q) by {
        lemma_powers(x.e);
        assert(x.m * 1 == x.m && cap * 1 == cap);
    }
    let cb = cap * bg;
    assert(cb == most * bytes) by (nonlinear_arith)
        requires
            cb == cap * (bytes * g),
            most == cap * g,
    ;
    if reached {
        lemma_more(cap * q, p, bg * m);
        assert((cap * q) * (bg * m) == (cb * m) * q) by (nonlinear_arith)
            requires
                cb == cap * bg,
        ;
        assert(p * (bg * m) == (p * bg) * m) by (nonlinear_arith);
        assert((m + 19) * (takes * q) == ((m + 19) * takes) * q) by (nonlinear_arith);
        assert(bg * m > 0) by (nonlinear_arith)
            requires
                bg == bytes * g,
                bytes > 0,
                g > 0,
                m > 0,
        ;
        lemma_cancel(cb * m, (m + 19) * takes, q);
    } else {
        assert(p <= cap * q - 1);
        assert(bg * m > 0) by (nonlinear_arith)
            requires
                bg == bytes * g,
                bytes > 0,
                g > 0,
                m > 0,
        ;
        lemma_more(p + 1, cap * q, bg * m);
        assert((cap * q) * (bg * m) == (cb * m) * q) by (nonlinear_arith)
            requires
                cb == cap * bg,
        ;
        assert((p + 1) * (bg * m) == (p * bg) * m + bg * m) by (nonlinear_arith);
        assert((m - 19) * (takes * q) == ((m - 19) * takes) * q) by (nonlinear_arith);
        if (m - 19) * takes >= cb * m {
            lemma_more(cb * m, (m - 19) * takes, q);
            assert(false);
        }
        let t = double::to_integer(x, 1_000_000_000, 1) as int;
        lemma_to_integer(x, 1_000_000_000, 1);
        assert(1 * q == q);
        lemma_nearest(t, p, q, g, takes, bg, 19);
        lemma_by_the_billion(t, takes, bytes as int);
    }
}

proof fn lemma_by_the_billion(t: int, n: int, d: int)
    requires
        ({
            let g = 1_000_000_000int;
            let m = 0x20_0000_0000_0000int;
            &&& 2 * ((t * (d * g)) * m) <= (2 * (g * n) + d * g) * m + 2 * ((19 * g) * n)
            &&& (2 * (g * n)) * m <= (2 * (t * (d * g)) + d * g) * m + 2 * ((19 * g) * n)
        }),
    ensures
        nearest(t, n, d, 19),
{
    let g = 1_000_000_000int;
    let x = t * d;
    assert(t * (d * g) == x * g) by (nonlinear_arith)
        requires
            x == t * d,
    ;
}

} // verus!
