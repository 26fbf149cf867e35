//! Double-precision arithmetic on numbers that are not negative, bit for bit: what a
//! figure is once it has been divided and multiplied in doubles, each result rounded to
//! the nearest of them. The figures here are far from the smallest and the largest
//! double, so there is no rounding to nothing and no infinity.

use crate::units;
use crate::units::round_half_even;
use vstd::arithmetic::power2;
use vstd::prelude::*;

verus! {

/// The number `m` times two to the power of `e`.
pub struct Real {
    pub m: nat,
    pub e: int,
}

/// Nothing.
pub open spec fn zero() -> Real {
    Real { m: 0, e: 0 }
}

/// The double nearest to `n / d` times two to the power of `e`; halfway between two, the
/// one with the even mantissa. A mantissa has 53 bits.
pub open spec fn rounded(n: nat, d: nat, e: int) -> Real
    decreases
            if n >= 0x20_0000_0000_0000 * d {
                n - 0x20_0000_0000_0000 * d + 1
            } else if n < 0x10_0000_0000_0000 * d {
                0x10_0000_0000_0000 * d - n
            } else {
                0
            },
{
    if n == 0 || d == 0 {
        zero()
    } else if n >= 0x20_0000_0000_0000 * d {
        rounded(n, 2 * d, e + 1)
    } else if n < 0x10_0000_0000_0000 * d {
        rounded(2 * n, d, e - 1)
    } else if units::half_even(n, d) == 0x20_0000_0000_0000 {
        Real { m: 0x10_0000_0000_0000, e: e + 1 }
    } else {
        Real { m: units::half_even(n, d), e }
    }
}

/// `n` as a double.
pub open spec fn of(n: nat) -> Real {
    rounded(n, 1, 0)
}

/// `a / b` in doubles.
pub open spec fn quotient(a: Real, b: Real) -> Real {
    rounded(a.m, b.m, a.e - b.e)
}

/// `a * k` in doubles, for a `k` that is one.
pub open spec fn product(a: Real, k: nat) -> Real {
    rounded(a.m * k, 1, a.e)
}

/// `a + b` in doubles.
pub open spec fn sum(a: Real, b: Real) -> Real {
    if a.m == 0 {
        b
    } else if b.m == 0 {
        a
    } else if a.e >= b.e {
        rounded(a.m * power2::pow2((a.e - b.e) as nat) + b.m, 1, b.e)
    } else {
        rounded(b.m * power2::pow2((b.e - a.e) as nat) + a.m, 1, a.e)
    }
}

/// `a * times / over` to the nearest integer, halves to the even one.
pub open spec fn to_integer(a: Real, times: nat, over: nat) -> nat {
    if a.e >= 0 {
        units::half_even(a.m * times * power2::pow2(a.e as nat), over)
    } else {
        units::half_even(a.m * times, over * power2::pow2((-a.e) as nat))
    }
}

/// `a >= n`.
pub open spec fn at_least(a: Real, n: nat) -> bool {
    if a.e >= 0 {
        a.m * power2::pow2(a.e as nat) >= n
    } else {
        a.m >= n * power2::pow2((-a.e) as nat)
    }
}

/// A double that is not negative, held as [`Real`] has it.
#[derive(Debug, Clone, Copy)]
pub struct Double {
    m: u64,
    e: i32,
}

impl View for Double {
    type V = Real;

    closed spec fn view(&self) -> Real {
        Real { m: self.m as nat, e: self.e as int }
    }
}

/// The mantissa is full, but for that of nothing.
pub open spec fn normal(a: Real) -> bool {
    (a.m == 0 && a.e == 0) || 0x10_0000_0000_0000 <= a.m < 0x20_0000_0000_0000
}

impl Double {
    #[verifier::type_invariant]
    spec fn inv(self) -> bool {
        normal(self@)
    }
}

proof fn lemma_half_even_bounds(n: nat, d: nat, low: nat, high: nat)
    requires
        d > 0,
        low * d <= n,
        n <= high * d,
    ensures
        low <= units::half_even(n, d) <= high,
{
    let q = n / d;
    let r = n % d;
    assert(n == q * d + r && 0 <= r < d) by (nonlinear_arith)
        requires
            d > 0,
            q == n / d,
            r == n % d,
    ;
    assert(low <= q) by (nonlinear_arith)
        requires
            low * d <= q * d + r,
            r < d,
            d > 0,
    ;
    assert(q <= high && (q == high ==> r == 0)) by (nonlinear_arith)
        requires
            q * d + r <= high * d,
            r >= 0,
            d > 0,
    ;
}

/// A rounded number is normal, and its exponent follows from how far the mantissa had to
/// be shifted to be full.
proof fn lemma_rounded(n: nat, d: nat, e: int)
    ensures
        normal(rounded(n, d, e)),
        n > 0 && d > 0 ==> rounded(n, d, e).m > 0,
    decreases
            if n >= 0x20_0000_0000_0000 * d {
                n - 0x20_0000_0000_0000 * d + 1
            } else if n < 0x10_0000_0000_0000 * d {
                0x10_0000_0000_0000 * d - n
            } else {
                0
            },
{
    if n == 0 || d == 0 {
    } else if n >= 0x20_0000_0000_0000 * d {
        lemma_rounded(n, 2 * d, e + 1);
    } else if n < 0x10_0000_0000_0000 * d {
        lemma_rounded(2 * n, d, e - 1);
    } else {
        lemma_half_even_bounds(n, d, 0x10_0000_0000_0000, 0x20_0000_0000_0000);
    }
}

/// Shifted up by `k` bits the mantissa is not too full, so the exponent is lower by that.
proof fn lemma_exponent_at_most(n: nat, d: nat, e: int, k: nat)
    requires
        n > 0,
        n * power2::pow2(k) < 0x20_0000_0000_0000 * d,
    ensures
        rounded(n, d, e).e <= e - k + 1,
    decreases k,
{
    power2::lemma_pow2(k);
    if k == 0 {
        power2::lemma2_to64();
        if n < 0x10_0000_0000_0000 * d {
            lemma_exponent_never_grows(2 * n, d, e - 1);
        }
    } else {
        power2::lemma_pow2_unfold(k);
        let p = power2::pow2((k - 1) as nat);
        power2::lemma_pow2_pos((k - 1) as nat);
        assert(2 * n * p == n * (2 * p)) by (nonlinear_arith);
        assert(2 * n <= 2 * n * p) by (nonlinear_arith)
            requires
                p >= 1,
                n >= 0,
        ;
        lemma_exponent_at_most(2 * n, d, e - 1, (k - 1) as nat);
    }
}

proof fn lemma_exponent_never_grows(n: nat, d: nat, e: int)
    requires
        n < 0x20_0000_0000_0000 * d,
    ensures
        n > 0 ==> rounded(n, d, e).e <= e + 1,
    decreases 0x20_0000_0000_0000 * d - n,
{
    if n > 0 && n < 0x10_0000_0000_0000 * d {
        lemma_exponent_never_grows(2 * n, d, e - 1);
    }
}

/// Shifted down by `k` bits the mantissa is not too full, so the exponent is higher by no
/// more than that.
proof fn lemma_exponent_at_most_plus(n: nat, d: nat, e: int, k: nat)
    requires
        n > 0,
        n < 0x20_0000_0000_0000 * d * power2::pow2(k),
    ensures
        rounded(n, d, e).e <= e + k + 1,
    decreases k,
{
    if k == 0 {
        power2::lemma2_to64();
        lemma_exponent_never_grows(n, d, e);
    } else if n < 0x20_0000_0000_0000 * d {
        lemma_exponent_never_grows(n, d, e);
    } else {
        power2::lemma_pow2_unfold(k);
        let p = power2::pow2((k - 1) as nat);
        assert(0x20_0000_0000_0000 * d * (2 * p) == 0x20_0000_0000_0000 * (2 * d) * p)
            by (nonlinear_arith);
        lemma_exponent_at_most_plus(n, 2 * d, e + 1, (k - 1) as nat);
    }
}

/// Shifted up by `k` bits the mantissa is full, so the exponent is lower by no more than
/// that.
proof fn lemma_exponent_at_least(n: nat, d: nat, e: int, k: nat)
    requires
        n > 0,
        d > 0,
        n * power2::pow2(k) >= 0x10_0000_0000_0000 * d,
    ensures
        rounded(n, d, e).e >= e - k,
    decreases
            k,
            if n >= 0x20_0000_0000_0000 * d {
                n - 0x20_0000_0000_0000 * d + 1
            } else {
                0
            },
{
    if n >= 0x20_0000_0000_0000 * d {
        power2::lemma_pow2_pos(k);
        assert(n * power2::pow2(k) >= n) by (nonlinear_arith)
            requires
                power2::pow2(k) >= 1,
                n >= 0,
        ;
        lemma_exponent_at_least(n, 2 * d, e + 1, k);
    } else if n < 0x10_0000_0000_0000 * d {
        power2::lemma2_to64();
        assert(k > 0) by {
            if k == 0 {
                assert(n * power2::pow2(0) == n) by (nonlinear_arith)
                    requires
                        power2::pow2(0) == 1,
                ;
            }
        }
        power2::lemma_pow2_unfold(k);
        let p = power2::pow2((k - 1) as nat);
        assert(2 * n * p == n * (2 * p)) by (nonlinear_arith);
        lemma_exponent_at_least(2 * n, d, e - 1, (k - 1) as nat);
    }
}

/// The double nearest to `n / d` times two to the power of `e`.
fn round(n: u128, d: u128, e: i32) -> (a: Double)
    requires
        0 < d < 0x40_0000_0000_0000_0000,
        n < 0x4000_0000_0000_0000_0000_0000_0000_0000,
        -10_000 <= e <= 10_000,
    ensures
        a@ == rounded(n as nat, d as nat, e as int),
        normal(a@),
        -10_200 <= a@.e <= 10_200,
{
    proof {
        lemma_rounded(n as nat, d as nat, e as int);
        power2::lemma2_to64();
        lemma_two_to_126();
    }
    if n == 0 {
        return Double { m: 0, e: 0 };
    }
    let mut up: u128 = n;
    let mut down: u128 = d;
    let mut shift: i32 = e;
    let mut k: u32 = 0;
    assert(power2::pow2(0) == 1);
    while up >= 0x20_0000_0000_0000 * down
        invariant
            up == n,
            0 < n < 0x4000_0000_0000_0000_0000_0000_0000_0000,
            0 < down < 0x400_0000_0000_0000_0000,
            0x10_0000_0000_0000 * down <= n || down == d,
            down >= power2::pow2(k as nat),
            shift == e + k,
            k < 74,
            -10_000 <= e <= 10_000,
            rounded(n as nat, d as nat, e as int) == rounded(up as nat, down as nat, shift as int),
        decreases
                if n >= 0x20_0000_0000_0000 * down {
                    n - 0x20_0000_0000_0000 * down + 1
                } else {
                    0
                },
    {
        proof {
            power2::lemma_pow2_unfold((k + 1) as nat);
            lemma_two_to_126();
            lemma_below(k + 1, 74, 2 * down);
        }
        down = down * 2;
        shift = shift + 1;
        k = k + 1;
    }
    let mut j: u32 = 0;
    assert(power2::pow2(0) == 1);
    while up < 0x10_0000_0000_0000 * down
        invariant
            0 < up < 0x4000_0000_0000_0000_0000_0000_0000_0000,
            0 < down < 0x400_0000_0000_0000_0000,
            d < 0x40_0000_0000_0000_0000,
            0x10_0000_0000_0000 * down <= up || down == d,
            up < 0x20_0000_0000_0000 * down,
            up >= power2::pow2(j as nat),
            shift == e + k - j,
            k < 74,
            j < 126,
            -10_000 <= e <= 10_000,
            rounded(n as nat, d as nat, e as int) == rounded(up as nat, down as nat, shift as int),
        decreases
                if up < 0x10_0000_0000_0000 * down {
                    0x10_0000_0000_0000 * down - up
                } else {
                    0
                },
    {
        proof {
            power2::lemma_pow2_unfold((j + 1) as nat);
            lemma_two_to_126();
            lemma_below(j + 1, 126, 2 * up);
        }
        up = up * 2;
        shift = shift - 1;
        j = j + 1;
    }
    proof {
        lemma_half_even_bounds(
            up as nat,
            down as nat,
            0x10_0000_0000_0000,
            0x20_0000_0000_0000,
        );
    }
    let m: u64 = round_half_even(up, down) as u64;
    if m == 0x20_0000_0000_0000 {
        Double { m: 0x10_0000_0000_0000, e: shift + 1 }
    } else {
        Double { m, e: shift }
    }
}

/// A power of two that does not reach beyond another has no larger an exponent.
proof fn lemma_below(k: int, limit: nat, n: int)
    requires
        0 <= k,
        power2::pow2(k as nat) <= n,
        n < power2::pow2(limit),
    ensures
        k < limit,
{
    if k >= limit {
        if k > limit {
            power2::lemma_pow2_strictly_increases(limit, k as nat);
        }
    }
}

/// Two to the power of `k`.
fn two_to(k: u32) -> (p: u128)
    requires
        k <= 126,
    ensures
        p == power2::pow2(k as nat),
        0 < p,
{
    proof {
        power2::lemma2_to64();
    }
    let mut p: u128 = 1;
    let mut i: u32 = 0;
    while i < k
        invariant
            i <= k <= 126,
            p == power2::pow2(i as nat),
            0 < p,
        decreases k - i,
    {
        proof {
            power2::lemma_pow2_unfold((i + 1) as nat);
            lemma_two_to_126();
            if i + 1 < 126 {
                power2::lemma_pow2_strictly_increases((i + 1) as nat, 126);
            }
        }
        p = p * 2;
        i = i + 1;
    }
    p
}

proof fn lemma_two_to_126()
    ensures
        power2::pow2(74) == 0x400_0000_0000_0000_0000,
        power2::pow2(126) == 0x4000_0000_0000_0000_0000_0000_0000_0000,
{
    power2::lemma2_to64();
    power2::lemma2_to64_rest();
    power2::lemma_pow2_adds(62, 64);
    power2::lemma_pow2_adds(10, 64);
    assert(power2::pow2(62) == 0x4000_0000_0000_0000);
    assert(power2::pow2(64) == 0x1_0000_0000_0000_0000);
    assert(power2::pow2(10) == 0x400);
}

impl Double {
    /// `n` as a double.
    pub fn from_u64(n: u64) -> (a: Double)
        ensures
            a@ == of(n as nat),
    {
        round(n as u128, 1, 0)
    }

    /// `self / other` in doubles.
    fn over(self, other: Double) -> (a: Double)
        requires
            other@.m > 0,
            -5_000 <= self@.e <= 5_000,
            -5_000 <= other@.e <= 5_000,
        ensures
            a@ == quotient(self@, other@),
    {
        proof {
            use_type_invariant(&self);
            use_type_invariant(&other);
        }
        round(self.m as u128, other.m as u128, self.e - other.e)
    }

    /// `self * k` in doubles.
    fn times(self, k: u32) -> (a: Double)
        requires
            -5_000 <= self@.e <= 5_000,
        ensures
            a@ == product(self@, k as nat),
    {
        proof {
            use_type_invariant(&self);
            let m = self.m;
            assert(m * k <= 0x20_0000_0000_0000 * 0x1_0000_0000) by (nonlinear_arith)
                requires
                    m < 0x20_0000_0000_0000,
                    k < 0x1_0000_0000,
            ;
        }
        round(self.m as u128 * k as u128, 1, self.e)
    }

    /// `self + other` in doubles.
    fn plus(self, other: Double) -> (a: Double)
        requires
            -5_000 <= self@.e <= 5_000,
            -5_000 <= other@.e <= 5_000,
        ensures
            a@ == sum(self@, other@),
    {
        proof {
            use_type_invariant(&self);
            use_type_invariant(&other);
        }
        if self.m == 0 {
            other
        } else if other.m == 0 {
            self
        } else if self.e >= other.e {
            Self::plus_smaller(self, other)
        } else {
            Self::plus_smaller(other, self)
        }
    }

    fn plus_smaller(large: Double, small: Double) -> (a: Double)
        requires
            0 < large@.m,
            0 < small@.m,
            -5_000 <= small@.e <= large@.e <= 5_000,
        ensures
            a@ == rounded(
                large@.m * power2::pow2((large@.e - small@.e) as nat) + small@.m,
                1,
                small@.e,
            ),
    {
        proof {
            use_type_invariant(&large);
            use_type_invariant(&small);
        }
        let k: u32 = (large.e - small.e) as u32;
        if k > 53 {
            proof {
                lemma_lost_in_the_sum(large@, small@);
            }
            return large;
        }
        let p: u128 = two_to(k);
        proof {
            power2::lemma2_to64();
            power2::lemma2_to64_rest();
            assert(p <= 0x20_0000_0000_0000) by {
                if k < 53 {
                    power2::lemma_pow2_strictly_increases(k as nat, 53);
                }
            }
            let m = large.m;
            assert(m * p <= 0x20_0000_0000_0000 * 0x20_0000_0000_0000) by (nonlinear_arith)
                requires
                    0 <= m < 0x20_0000_0000_0000,
                    0 <= p <= 0x20_0000_0000_0000,
            ;
        }
        round(large.m as u128 * p + small.m as u128, 1, small.e)
    }

    /// `self * times / over` to the nearest integer, halves to the even one.
    fn integer(self, times: u32, over: u32) -> (n: u128)
        requires
            over > 0,
            -5_000 <= self@.e <= 60,
            self@.e > 0 ==> times <= 16,
        ensures
            n == to_integer(self@, times as nat, over as nat),
            n < 0x8000_0000_0000_0000_0000_0000_0000_0000,
    {
        proof {
            use_type_invariant(&self);
            let m = self.m;
            assert(m * times <= 0x20_0000_0000_0000 * times) by (nonlinear_arith)
                requires
                    m < 0x20_0000_0000_0000,
                    times >= 0,
            ;
            power2::lemma2_to64();
            power2::lemma2_to64_rest();
        }
        let scaled: u128 = self.m as u128 * times as u128;
        if self.e >= 0 {
            let p: u128 = two_to(self.e as u32);
            proof {
                assert(p <= 0x1000_0000_0000_0000) by {
                    if self.e < 60 {
                        power2::lemma_pow2_strictly_increases(self.e as nat, 60);
                    }
                }
                if self.e > 0 {
                    assert(scaled * p <= 0x200_0000_0000_0000 * 0x1000_0000_0000_0000)
                        by (nonlinear_arith)
                        requires
                            0 <= scaled <= 0x200_0000_0000_0000,
                            0 <= p <= 0x1000_0000_0000_0000,
                    ;
                } else {
                    assert(p == 1);
                    assert(scaled * p == scaled) by (nonlinear_arith)
                        requires
                            p == 1,
                    ;
                }
            }
            round_half_even(scaled * p, over as u128)
        } else {
            let k: u32 = (-self.e) as u32;
            if k > 90 {
                proof {
                    lemma_rounds_to_nothing(scaled as nat, over as nat, k as nat);
                }
                return 0;
            }
            let p: u128 = two_to(k);
            proof {
                assert(p <= 0x400_0000_0000_0000_0000_0000) by {
                    power2::lemma_pow2_adds(26, 64);
                    if k < 90 {
                        power2::lemma_pow2_strictly_increases(k as nat, 90);
                    }
                }
                assert(0 < over * p <= 0x1_0000_0000 * 0x400_0000_0000_0000_0000_0000)
                    by (nonlinear_arith)
                    requires
                        0 < over <= 0x1_0000_0000,
                        0 < p <= 0x400_0000_0000_0000_0000_0000,
                ;
            }
            round_half_even(scaled, over as u128 * p)
        }
    }

    /// `self >= n`.
    fn is_at_least(self, n: u32) -> (yes: bool)
        requires
            self@.m > 0,
            -5_000 <= self@.e <= 5_000,
        ensures
            yes == at_least(self@, n as nat),
    {
        proof {
            use_type_invariant(&self);
            power2::lemma2_to64();
            power2::lemma2_to64_rest();
        }
        if self.e >= 0 {
            proof {
                let m = self.m as nat;
                let p = power2::pow2(self.e as nat);
                power2::lemma_pow2_pos(self.e as nat);
                assert(m * p >= m) by (nonlinear_arith)
                    requires
                        p >= 1,
                ;
            }
            return true;
        }
        let k: u32 = (-self.e) as u32;
        if k > 53 {
            proof {
                let p = power2::pow2(k as nat);
                power2::lemma_pow2_strictly_increases(53, k as nat);
                if n > 0 {
                    assert(n * p >= p) by (nonlinear_arith)
                        requires
                            n >= 1,
                            p >= 0,
                    ;
                } else {
                    assert(n * p == 0) by (nonlinear_arith)
                        requires
                            n == 0,
                    ;
                }
            }
            return n == 0;
        }
        let p: u128 = two_to(k);
        proof {
            assert(p <= 0x20_0000_0000_0000) by {
                if k < 53 {
                    power2::lemma_pow2_strictly_increases(k as nat, 53);
                }
            }
            assert(n * p <= 0x1_0000_0000 * 0x20_0000_0000_0000) by (nonlinear_arith)
                requires
                    0 <= n <= 0x1_0000_0000,
                    0 <= p <= 0x20_0000_0000_0000,
            ;
        }
        self.m as u128 >= n as u128 * p
    }
}

/// What is too far below the last bit of a number is lost in the sum.
proof fn lemma_lost_in_the_sum(large: Real, small: Real)
    requires
        normal(large),
        normal(small),
        large.m > 0,
        small.m > 0,
        large.e > small.e + 53,
    ensures
        rounded(
            large.m * power2::pow2((large.e - small.e) as nat) + small.m,
            1,
            small.e,
        ) == large,
{
    let k = (large.e - small.e) as nat;
    let p = power2::pow2(k);
    let n = large.m * p + small.m;
    power2::lemma2_to64();
    power2::lemma2_to64_rest();
    if k > 54 {
        power2::lemma_pow2_strictly_increases(54, k);
    }
    assert(p >= 0x40_0000_0000_0000);
    lemma_shifted_down(n, large.m, small.m, small.e, k, k);
    assert(n / p == large.m && n % p == small.m) by (nonlinear_arith)
        requires
            n == large.m * p + small.m,
            0 <= small.m < p,
    ;
    assert(0x10_0000_0000_0000 * p <= n < 0x20_0000_0000_0000 * p) by (nonlinear_arith)
        requires
            n == large.m * p + small.m,
            0 <= small.m < p,
            0x10_0000_0000_0000 <= large.m < 0x20_0000_0000_0000,
    ;
}

proof fn lemma_shifted_down(n: nat, m: nat, r: nat, e: int, k: nat, j: nat)
    requires
        n == m * power2::pow2(k) + r,
        0x10_0000_0000_0000 <= m,
        j <= k,
    ensures
        rounded(n, 1, e) == rounded(n, power2::pow2(j), e + j),
    decreases j,
{
    power2::lemma2_to64();
    if j > 0 {
        let i = (j - 1) as nat;
        lemma_shifted_down(n, m, r, e, k, i);
        power2::lemma_pow2_unfold(j);
        power2::lemma_pow2_pos(i);
        if j < k {
            power2::lemma_pow2_strictly_increases(j, k);
        }
        let p = power2::pow2(k);
        assert(m * p >= 0x10_0000_0000_0000 * p) by (nonlinear_arith)
            requires
                m >= 0x10_0000_0000_0000,
                p >= 0,
        ;
    }
}

proof fn lemma_rounds_to_nothing(n: nat, over: nat, k: nat)
    requires
        n <= 0x20_0000_0000_0000 * 0x1_0000_0000,
        over > 0,
        k > 90,
    ensures
        units::half_even(n, over * power2::pow2(k)) == 0,
{
    let p = power2::pow2(k);
    power2::lemma2_to64();
    power2::lemma2_to64_rest();
    power2::lemma_pow2_adds(26, 64);
    power2::lemma_pow2_strictly_increases(90, k);
    let d = over * p;
    assert(d >= p) by (nonlinear_arith)
        requires
            d == over * p,
            over >= 1,
            p >= 0,
    ;
    assert(n / d == 0 && n % d == n) by (nonlinear_arith)
        requires
            0 <= n < d,
    ;
}

/// A span of time in seconds: the whole ones, and the rest of it over a billion.
pub open spec fn seconds(nanos: nat) -> Real {
    sum(of(nanos / 1_000_000_000), quotient(of(nanos % 1_000_000_000), of(1_000_000_000)))
}

/// `part` of `whole`, as a fraction.
pub open spec fn fraction(part: nat, whole: nat) -> Real {
    quotient(of(part), of(whole))
}

/// `part` of `whole`, in percent.
pub open spec fn percent(part: nat, whole: nat) -> Real {
    product(fraction(part, whole), 100)
}

/// `a` to the nearest integer, halves up.
pub open spec fn half_up(a: Real) -> nat {
    if a.e >= 0 {
        a.m * power2::pow2(a.e as nat)
    } else {
        (2 * a.m + power2::pow2((-a.e) as nat)) / (2 * power2::pow2((-a.e) as nat))
    }
}

/// How many of `cells` cells `part` of `whole` fills.
pub open spec fn cells_filled(part: nat, whole: nat, cells: nat) -> nat {
    let near = half_up(product(fraction(part, whole), cells));
    if near < cells {
        near
    } else {
        cells
    }
}

/// Bytes per second.
pub open spec fn rate(bytes: nat, nanos: nat) -> Real {
    quotient(of(bytes), seconds(nanos))
}

/// The time that `remaining` bytes take, in nanoseconds, where `bytes` took `nanos`, and
/// at most `cap` seconds.
pub open spec fn time_for(remaining: nat, bytes: nat, nanos: nat, cap: nat) -> nat {
    let secs = quotient(of(remaining), rate(bytes, nanos));
    if at_least(secs, cap) {
        cap * 1_000_000_000
    } else {
        to_integer(secs, 1_000_000_000, 1)
    }
}

/// The exponents that a count of bytes or of seconds can have as a double.
proof fn lemma_of(n: nat)
    requires
        n <= u64::MAX,
    ensures
        normal(of(n)),
        of(n).m == 0 <==> n == 0,
        -52 <= of(n).e <= 12,
{
    power2::lemma2_to64();
    power2::lemma2_to64_rest();
    lemma_rounded(n, 1, 0);
    if n > 0 {
        assert(n * power2::pow2(52) >= 0x10_0000_0000_0000) by (nonlinear_arith)
            requires
                n >= 1,
                power2::pow2(52) == 0x10_0000_0000_0000,
        ;
        lemma_exponent_at_least(n, 1, 0, 52);
        assert(0x20_0000_0000_0000 * 1 * power2::pow2(11) == 0x1_0000_0000_0000_0000);
        lemma_exponent_at_most_plus(n, 1, 0, 11);
    }
}

proof fn lemma_billion()
    ensures
        -23 <= of(1_000_000_000).e <= -22,
{
    power2::lemma2_to64();
    let n: nat = 1_000_000_000;
    assert(power2::pow2(23) == 8388608);
    lemma_exponent_at_least(n, 1, 0, 23);
    lemma_exponent_at_most(n, 1, 0, 23);
}

/// The exponent of a quotient is the difference, but for the bits of the mantissa.
proof fn lemma_quotient(a: Real, b: Real)
    requires
        normal(a),
        normal(b),
        b.m > 0,
    ensures
        normal(quotient(a, b)),
        quotient(a, b).m == 0 <==> a.m == 0,
        a.m > 0 ==> a.e - b.e - 53 <= quotient(a, b).e <= a.e - b.e - 51,
        a.m == 0 ==> quotient(a, b).e == 0,
{
    power2::lemma2_to64();
    power2::lemma2_to64_rest();
    lemma_rounded(a.m, b.m, a.e - b.e);
    if a.m > 0 {
        assert(power2::pow2(53) == 0x20_0000_0000_0000);
        assert(power2::pow2(52) == 0x10_0000_0000_0000);
        lemma_exponent_at_least(a.m, b.m, a.e - b.e, 53);
        lemma_exponent_at_most(a.m, b.m, a.e - b.e, 52);
    }
}

proof fn lemma_product(a: Real, k: nat)
    requires
        normal(a),
        k <= u32::MAX,
    ensures
        normal(product(a, k)),
        product(a, k).m > 0 ==> a.e - 52 <= product(a, k).e <= a.e + 33,
        product(a, k).m == 0 ==> product(a, k).e == 0,
{
    power2::lemma2_to64();
    power2::lemma2_to64_rest();
    let n = a.m * k;
    lemma_rounded(n, 1, a.e);
    if n > 0 {
        assert(n < 0x20_0000_0000_0000 * 0x1_0000_0000) by (nonlinear_arith)
            requires
                n == a.m * k,
                0 <= a.m < 0x20_0000_0000_0000,
                0 <= k < 0x1_0000_0000,
        ;
        assert(n * power2::pow2(52) >= 0x10_0000_0000_0000) by (nonlinear_arith)
            requires
                n >= 1,
                power2::pow2(52) == 0x10_0000_0000_0000,
        ;
        lemma_exponent_at_least(n, 1, a.e, 52);
        lemma_exponent_at_most_plus(n, 1, a.e, 32);
    }
}

proof fn lemma_sum(a: Real, b: Real)
    requires
        normal(a),
        normal(b),
        -100 <= a.e <= 14,
        -100 <= b.e <= 14,
    ensures
        normal(sum(a, b)),
        sum(a, b).m == 0 <==> a.m == 0 && b.m == 0,
        sum(a, b).m > 0 ==> ({
            ||| a.e <= sum(a, b).e
            ||| b.e <= sum(a, b).e
        }) && sum(a, b).e <= 17,
        sum(a, b).m == 0 ==> sum(a, b).e == 0,
{
    if a.m > 0 && b.m > 0 {
        if a.e >= b.e {
            lemma_sum_of(a, b);
        } else {
            lemma_sum_of(b, a);
        }
    }
}

proof fn lemma_sum_of(large: Real, small: Real)
    requires
        normal(large),
        normal(small),
        large.m > 0,
        small.m > 0,
        -100 <= small.e <= large.e <= 14,
    ensures
        ({
            let k = (large.e - small.e) as nat;
            let s = rounded(large.m * power2::pow2(k) + small.m, 1, small.e);
            normal(s) && s.m > 0 && small.e <= s.e <= 17
        }),
{
    power2::lemma2_to64();
    let k = (large.e - small.e) as nat;
    let p = power2::pow2(k);
    let n = large.m * p + small.m;
    power2::lemma_pow2_pos(k);
    power2::lemma_pow2_unfold(k + 1);
    lemma_rounded(n, 1, small.e);
    assert(n >= small.m) by (nonlinear_arith)
        requires
            n == large.m * p + small.m,
            large.m >= 0,
            p >= 0,
    ;
    assert(n * power2::pow2(0) == n) by (nonlinear_arith)
        requires
            power2::pow2(0) == 1,
    ;
    lemma_exponent_at_least(n, 1, small.e, 0);
    assert(n < 0x20_0000_0000_0000 * 1 * (2 * p)) by (nonlinear_arith)
        requires
            n == large.m * p + small.m,
            0 <= large.m < 0x20_0000_0000_0000,
            0 <= small.m < 0x20_0000_0000_0000,
            p >= 1,
    ;
    lemma_exponent_at_most_plus(n, 1, small.e, k + 1);
}

proof fn lemma_seconds(nanos: nat)
    requires
        nanos / 1_000_000_000 <= u64::MAX,
    ensures
        normal(seconds(nanos)),
        seconds(nanos).m == 0 <==> nanos == 0,
        -90 <= seconds(nanos).e <= 17,
{
    let whole = of(nanos / 1_000_000_000);
    let part = of(nanos % 1_000_000_000);
    lemma_of(nanos / 1_000_000_000);
    lemma_of(nanos % 1_000_000_000);
    lemma_of(1_000_000_000);
    lemma_billion();
    lemma_quotient(part, of(1_000_000_000));
    lemma_sum(whole, quotient(part, of(1_000_000_000)));
}

proof fn lemma_rate(bytes: nat, nanos: nat)
    requires
        bytes <= u64::MAX,
        nanos / 1_000_000_000 <= u64::MAX,
        nanos > 0,
    ensures
        normal(rate(bytes, nanos)),
        rate(bytes, nanos).m == 0 <==> bytes == 0,
        -122 <= rate(bytes, nanos).e <= 55,
{
    lemma_of(bytes);
    lemma_seconds(nanos);
    lemma_quotient(of(bytes), seconds(nanos));
}

/// A span of time in seconds.
fn in_seconds(whole: u64, nanos: u32) -> (a: Double)
    requires
        nanos < 1_000_000_000,
    ensures
        a@ == seconds((whole * 1_000_000_000 + nanos) as nat),
{
    let ghost all = (whole * 1_000_000_000 + nanos) as nat;
    proof {
        assert(all / 1_000_000_000 == whole && all % 1_000_000_000 == nanos);
        lemma_of(whole as nat);
        lemma_of(nanos as nat);
        lemma_of(1_000_000_000);
        lemma_billion();
        lemma_quotient(of(nanos as nat), of(1_000_000_000));
    }
    Double::from_u64(whole).plus(Double::from_u64(nanos as u64).over(Double::from_u64(1_000_000_000)))
}

fn as_fraction(part: u64, whole: u64) -> (a: Double)
    requires
        whole > 0,
    ensures
        a@ == fraction(part as nat, whole as nat),
        normal(a@),
        -117 <= a@.e <= 13,
{
    proof {
        lemma_of(part as nat);
        lemma_of(whole as nat);
        lemma_quotient(of(part as nat), of(whole as nat));
    }
    Double::from_u64(part).over(Double::from_u64(whole))
}

/// `part` of `whole` in percent, `times` as much of it, to the nearest integer.
pub(crate) fn percent_times(part: u64, whole: u64, times: u32) -> (n: u128)
    requires
        whole > 0,
        times <= 16,
    ensures
        n == to_integer(percent(part as nat, whole as nat), times as nat, 1),
        n < 0x8000_0000_0000_0000_0000_0000_0000_0000,
{
    let f = as_fraction(part, whole);
    proof {
        lemma_product(f@, 100);
    }
    f.times(100).integer(times, 1)
}

/// How many of `cells` cells `part` of `whole` fills.
pub(crate) fn fill_cells(part: u64, whole: u64, cells: u32) -> (n: u32)
    requires
        whole > 0,
    ensures
        n == cells_filled(part as nat, whole as nat, cells as nat),
        n <= cells,
{
    let f = as_fraction(part, whole);
    proof {
        lemma_product(f@, cells as nat);
        power2::lemma2_to64();
        power2::lemma2_to64_rest();
    }
    let a = f.times(cells);
    proof {
        use_type_invariant(&a);
    }
    let near: u128 = if a.e >= 0 {
        let p: u128 = two_to(a.e as u32);
        proof {
            assert(p <= 0x1000_0000_0000_0000) by {
                if a.e < 60 {
                    power2::lemma_pow2_strictly_increases(a.e as nat, 60);
                }
            }
            let m = a.m;
            assert(m * p <= 0x20_0000_0000_0000 * 0x1000_0000_0000_0000) by (nonlinear_arith)
                requires
                    0 <= m < 0x20_0000_0000_0000,
                    0 <= p <= 0x1000_0000_0000_0000,
            ;
        }
        a.m as u128 * p
    } else {
        let k: u32 = (-a.e) as u32;
        if k > 60 {
            proof {
                power2::lemma_pow2_strictly_increases(60, k as nat);
                let p = power2::pow2(k as nat);
                let n = (2 * a.m + p) as nat;
                assert(n / (2 * p) == 0) by (nonlinear_arith)
                    requires
                        0 <= n < 2 * p,
                ;
            }
            0
        } else {
            let p: u128 = two_to(k);
            proof {
                if k < 60 {
                    power2::lemma_pow2_strictly_increases(k as nat, 60);
                }
            }
            (2 * a.m as u128 + p) / (2 * p)
        }
    };
    if near < cells as u128 {
        near as u32
    } else {
        cells
    }
}

fn as_rate(bytes: u64, whole: u64, nanos: u32) -> (a: Double)
    requires
        nanos < 1_000_000_000,
        whole > 0 || nanos > 0,
    ensures
        a@ == rate(bytes as nat, (whole * 1_000_000_000 + nanos) as nat),
{
    let ghost all = (whole * 1_000_000_000 + nanos) as nat;
    proof {
        lemma_of(bytes as nat);
        lemma_seconds(all);
    }
    Double::from_u64(bytes).over(in_seconds(whole, nanos))
}

/// Ten times the bytes per second, over `unit`, to the nearest integer.
pub(crate) fn rate_tenths(bytes: u64, whole: u64, nanos: u32, unit: u32) -> (n: u128)
    requires
        nanos < 1_000_000_000,
        whole > 0 || nanos > 0,
        unit > 0,
    ensures
        n == to_integer(
            rate(bytes as nat, (whole * 1_000_000_000 + nanos) as nat),
            10,
            unit as nat,
        ),
        n < 0x8000_0000_0000_0000_0000_0000_0000_0000,
{
    proof {
        lemma_rate(bytes as nat, (whole * 1_000_000_000 + nanos) as nat);
    }
    as_rate(bytes, whole, nanos).integer(10, unit)
}

/// `times` as many seconds as the span of time has, to the nearest integer.
pub(crate) fn seconds_times(whole: u64, nanos: u32, times: u32) -> (n: u128)
    requires
        nanos < 1_000_000_000,
        times <= 16,
    ensures
        n == to_integer(seconds((whole * 1_000_000_000 + nanos) as nat), times as nat, 1),
        n < 0x8000_0000_0000_0000_0000_0000_0000_0000,
{
    proof {
        lemma_seconds((whole * 1_000_000_000 + nanos) as nat);
    }
    in_seconds(whole, nanos).integer(times, 1)
}

/// The time that bytes take never exceeds the cap.
pub proof fn lemma_time_is_capped(remaining: nat, bytes: nat, nanos: nat, cap: nat)
    requires
        0 < cap <= u32::MAX,
    ensures
        time_for(remaining, bytes, nanos, cap) <= cap * 1_000_000_000,
{
    let r = rate(bytes, nanos);
    let secs = quotient(of(remaining), r);
    lemma_rounded(of(remaining).m, r.m, of(remaining).e - r.e);
    power2::lemma2_to64();
    if secs.m == 0 {
        assert(0 * 1_000_000_000 * power2::pow2(0) == 0) by (nonlinear_arith);
    } else if !at_least(secs, cap) {
        lemma_below_is_fractional(secs, cap);
        let p = power2::pow2((-secs.e) as nat);
        power2::lemma_pow2_pos((-secs.e) as nat);
        assert(secs.m * 1_000_000_000 <= (cap * 1_000_000_000) * (1 * p)) by (nonlinear_arith)
            requires
                secs.m < cap * p,
        ;
        lemma_half_even_bounds(secs.m * 1_000_000_000, 1 * p, 0, cap * 1_000_000_000);
    }
}

/// What is below a small number has bits behind the point.
proof fn lemma_below_is_fractional(a: Real, n: nat)
    requires
        normal(a),
        a.m > 0,
        n <= u32::MAX,
        !at_least(a, n),
    ensures
        a.e < 0,
{
    if a.e >= 0 {
        let p = power2::pow2(a.e as nat);
        power2::lemma_pow2_pos(a.e as nat);
        assert(a.m * p >= a.m) by (nonlinear_arith)
            requires
                p >= 1,
                a.m >= 0,
        ;
    }
}

/// The time that `remaining` bytes take, in nanoseconds, where `bytes` took so long, and
/// at most `cap` seconds.
pub(crate) fn time_needed(remaining: u64, bytes: u64, whole: u64, nanos: u32, cap: u32) -> (n: u128)
    requires
        0 < remaining,
        0 < bytes,
        nanos < 1_000_000_000,
        whole > 0 || nanos > 0,
        0 < cap,
    ensures
        n == time_for(
            remaining as nat,
            bytes as nat,
            (whole * 1_000_000_000 + nanos) as nat,
            cap as nat,
        ),
        n <= cap * 1_000_000_000,
{
    let ghost all = (whole * 1_000_000_000 + nanos) as nat;
    proof {
        lemma_of(remaining as nat);
        lemma_rate(bytes as nat, all);
        lemma_quotient(of(remaining as nat), rate(bytes as nat, all));
        lemma_time_is_capped(remaining as nat, bytes as nat, all, cap as nat);
    }
    let secs = Double::from_u64(remaining).over(as_rate(bytes, whole, nanos));
    if secs.is_at_least(cap) {
        cap as u128 * 1_000_000_000
    } else {
        proof {
            lemma_below_is_fractional(secs@, cap as nat);
        }
        secs.integer(1_000_000_000, 1)
    }
}

/// All of anything is a whole: it reads as a hundred percent, and fills a bar of 32 cells.
pub proof fn law_all_of_it_is_a_hundred_percent(n: nat)
    requires
        n > 0,
    ensures
        fraction(n, n) == (Real { m: 0x10_0000_0000_0000, e: -52 }),
        to_integer(percent(n, n), 1, 1) == 100,
        to_integer(percent(n, n), 10, 1) == 1000,
        cells_filled(n, n, 32) == 32,
{
    power2::lemma2_to64();
    power2::lemma2_to64_rest();
    lemma_rounded(n, 1, 0);
    let m = of(n).m;
    lemma_shifted_up(m, 52);
    let one = Real { m: 0x10_0000_0000_0000, e: -52 };
    let full = m * 0x10_0000_0000_0000;
    assert(full / m == 0x10_0000_0000_0000 && full % m == 0) by (nonlinear_arith)
        requires
            full == m * 0x10_0000_0000_0000,
            m > 0,
    ;
    assert(fraction(n, n) == one);
    assert(product(one, 100) == (Real { m: 0x19_0000_0000_0000, e: -46 })) by {
        reveal_with_fuel(rounded, 8);
    }
    assert(power2::pow2(46) == 0x4000_0000_0000);
    assert(0x19_0000_0000_0000 == 100 * 0x4000_0000_0000nat);
    assert(product(one, 32) == (Real { m: 0x10_0000_0000_0000, e: -47 })) by {
        reveal_with_fuel(rounded, 8);
    }
    assert(power2::pow2(47) == 0x8000_0000_0000);
    let p = power2::pow2(47);
    assert((2 * 0x10_0000_0000_0000nat + p) / (2 * p) == 32) by (nonlinear_arith)
        requires
            p == 0x8000_0000_0000,
    ;
}

proof fn lemma_shifted_up(m: nat, k: nat)
    requires
        m > 0,
        k <= 52,
    ensures
        rounded(m, m, 0) == rounded(m * power2::pow2(k), m, -(k as int)),
    decreases k,
{
    power2::lemma2_to64();
    power2::lemma2_to64_rest();
    if k == 0 {
        assert(m * power2::pow2(0) == m) by (nonlinear_arith)
            requires
                power2::pow2(0) == 1,
        ;
    } else {
        let j = (k - 1) as nat;
        lemma_shifted_up(m, j);
        power2::lemma_pow2_unfold(k);
        power2::lemma_pow2_strictly_increases(j, 52);
        power2::lemma_pow2_pos(j);
        let p = power2::pow2(j);
        assert(0 < m * p < 0x10_0000_0000_0000 * m && m * (2 * p) == 2 * (m * p))
            by (nonlinear_arith)
            requires
                m > 0,
                0 < p < 0x10_0000_0000_0000,
        ;
    }
}

} // verus!
