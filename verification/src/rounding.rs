//! Rounding to floating-point numbers.
//!
//! A number that is not negative is a mantissa times a power of two. Here is what it means
//! to round a fraction to the nearest such number of a precision, ties to the even mantissa.

use vstd::arithmetic::power2::{lemma2_to64, lemma_pow2_adds, lemma_pow2_pos, lemma_pow2_unfold, pow2};
use vstd::prelude::*;

verus! {

/// A precision of floating-point numbers.
#[derive(Debug, Clone, Copy, PartialEq, Eq, Structural)]
pub enum Precision {
    /// 24 binary digits.
    Single,
    /// 53 binary digits.
    Double,
}

impl Precision {
    /// The smallest mantissa with all its digits.
    pub open spec fn least(self) -> int {
        match self {
            Precision::Single => 0x80_0000,
            Precision::Double => 0x10_0000_0000_0000,
        }
    }
}

/// The integer nearest to `n / d`, and the even one of two that are equally near.
pub open spec fn half_even(n: int, d: int) -> int {
    let q = n / d;
    let r = n % d;
    if 2 * r < d || (2 * r == d && q % 2 == 0) {
        q
    } else {
        q + 1
    }
}

/// The integer `n` times two to the power of `k`, if `k` is positive.
pub open spec fn raised(n: int, k: int) -> int {
    if k > 0 {
        n * pow2(k as nat)
    } else {
        n
    }
}

/// Whether `num / den / 2^k` has as many binary digits before the point as a mantissa.
pub open spec fn has_digits(num: int, den: int, k: int, precision: Precision) -> bool {
    precision.least() * raised(den, k) <= raised(num, -k) < 2 * precision.least() * raised(den, k)
}

/// Whether the mantissa `x.0` and the exponent `x.1` are the rounding of
/// `num / den * 2^shift`.
pub open spec fn is_rounding(num: int, den: int, shift: int, precision: Precision, x: (int, int)) -> bool {
    let k = x.1 - shift;
    if num == 0 {
        x == (0int, 0int)
    } else {
        has_digits(num, den, k, precision) && x.0 == half_even(raised(num, -k), raised(den, k))
    }
}

/// The rounding of `num / den * 2^shift`, as a mantissa and an exponent.
pub open spec fn rounding(num: int, den: int, shift: int, precision: Precision) -> (int, int) {
    choose|x: (int, int)| is_rounding(num, den, shift, precision, x)
}

/// The floating-point number nearest to an integer.
pub open spec fn float_of(n: int, precision: Precision) -> (int, int) {
    rounding(n, 1, 0, precision)
}

/// The rounded quotient of two floating-point numbers.
pub open spec fn quotient(a: (int, int), b: (int, int), precision: Precision) -> (int, int) {
    rounding(a.0, b.0, a.1 - b.1, precision)
}

/// The rounded product of two floating-point numbers.
pub open spec fn product(a: (int, int), b: (int, int), precision: Precision) -> (int, int) {
    rounding(a.0 * b.0, 1, a.1 + b.1, precision)
}

/// The smaller of two exponents.
pub open spec fn least_of(e: int, f: int) -> int {
    if e < f {
        e
    } else {
        f
    }
}

/// The rounded sum of two floating-point numbers.
pub open spec fn sum(a: (int, int), b: (int, int), precision: Precision) -> (int, int) {
    rounding(raised(a.0, a.1 - b.1) + raised(b.0, b.1 - a.1), 1, least_of(a.1, b.1), precision)
}

/// The rounded difference of two floating-point numbers.
pub open spec fn difference(a: (int, int), b: (int, int), precision: Precision) -> (int, int) {
    rounding(raised(a.0, a.1 - b.1) - raised(b.0, b.1 - a.1), 1, least_of(a.1, b.1), precision)
}

/// Whether one floating-point number is smaller than another.
pub open spec fn is_less(a: (int, int), b: (int, int)) -> bool {
    raised(a.0, a.1 - b.1) < raised(b.0, b.1 - a.1)
}

/// The smaller of two floating-point numbers.
pub open spec fn lesser(a: (int, int), b: (int, int)) -> (int, int) {
    if is_less(b, a) {
        b
    } else {
        a
    }
}

/// The largest integer that is not above a floating-point number.
pub open spec fn floor_of(x: (int, int)) -> int {
    raised(x.0, x.1) / raised(1, -x.1)
}

/// The smallest integer that is not below a floating-point number.
pub open spec fn ceil_of(x: (int, int)) -> int {
    (raised(x.0, x.1) + raised(1, -x.1) - 1) / raised(1, -x.1)
}

/// The integer nearest to a floating-point number, and the larger of two that are
/// equally near.
pub open spec fn nearest_of(x: (int, int)) -> int {
    (2 * raised(x.0, x.1) + raised(1, -x.1)) / (2 * raised(1, -x.1))
}

/// An integer as a `usize`, the largest one if it is too large.
pub open spec fn saturated(n: int) -> int {
    if n > usize::MAX {
        usize::MAX as int
    } else {
        n
    }
}

pub(crate) proof fn lemma_raised_step(n: int, k: int)
    ensures
        k >= 0 ==> raised(n, k + 1) == 2 * raised(n, k),
        k < 0 ==> raised(n, k + 1) == raised(n, k) == n,
        n > 0 ==> raised(n, k) > 0,
{
    if k >= 0 {
        lemma_pow2_unfold((k + 1) as nat);
        if k == 0 {
            lemma2_to64();
        } else {
            assert(n * (2 * pow2(k as nat)) == 2 * (n * pow2(k as nat))) by (nonlinear_arith);
        }
    }
    if k > 0 {
        lemma_pow2_pos(k as nat);
        assert(n > 0 ==> n * pow2(k as nat) > 0) by (nonlinear_arith)
            requires
                pow2(k as nat) > 0,
        ;
    }
}

/// A larger exponent leaves fewer digits.
pub(crate) proof fn lemma_fewer_digits(num: int, den: int, k: int, j: int, precision: Precision)
    requires
        num > 0,
        den > 0,
        k < j,
        raised(num, -k) < 2 * precision.least() * raised(den, k),
    ensures
        raised(num, -j) < precision.least() * raised(den, j),
    decreases j - k,
{
    let least = precision.least();
    let (n, d) = (raised(num, -k), raised(den, k));
    let (n2, d2) = (raised(num, -(k + 1)), raised(den, k + 1));
    lemma_raised_step(num, -(k + 1));
    lemma_raised_step(den, k);
    if k >= 0 {
        assert(n == n2 && d2 == 2 * d);
        assert(n2 < least * d2) by (nonlinear_arith)
            requires
                n2 < 2 * least * d,
                d2 == 2 * d,
        ;
    } else {
        assert(-(k + 1) + 1 == -k);
        assert(n == 2 * n2 && d2 == d);
        assert(n2 < least * d2) by (nonlinear_arith)
            requires
                2 * n2 < 2 * least * d2,
        ;
    }
    if k + 1 < j {
        lemma_raised_step(den, k + 1);
        assert(n2 < 2 * least * d2) by (nonlinear_arith)
            requires
                n2 < least * d2,
                d2 > 0,
                least > 0,
        ;
        lemma_fewer_digits(num, den, k + 1, j, precision);
    }
}

/// A number has one rounding only.
pub proof fn rounding_is_unique(
    num: int,
    den: int,
    shift: int,
    precision: Precision,
    x: (int, int),
    y: (int, int),
)
    requires
        num >= 0,
        den > 0,
        is_rounding(num, den, shift, precision, x),
        is_rounding(num, den, shift, precision, y),
    ensures
        x == y,
{
    if num > 0 {
        if x.1 < y.1 {
            lemma_fewer_digits(num, den, x.1 - shift, y.1 - shift, precision);
        } else if y.1 < x.1 {
            lemma_fewer_digits(num, den, y.1 - shift, x.1 - shift, precision);
        }
    }
}

/// A power of two is the product of two others.
pub(crate) proof fn lemma_split(a: int, b: int, c: int)
    requires
        a >= 0,
        b >= 0,
        c == a + b,
    ensures
        pow2(c as nat) == pow2(a as nat) * pow2(b as nat),
        pow2(a as nat) > 0,
        pow2(b as nat) > 0,
        pow2(0) == 1,
{
    lemma_pow2_adds(a as nat, b as nat);
    lemma_pow2_pos(a as nat);
    lemma_pow2_pos(b as nat);
    lemma2_to64();
}

/// Raising to a power that is not negative is multiplying.
pub(crate) proof fn lemma_raised(n: int, k: int)
    requires
        k >= 0,
    ensures
        raised(n, k) == n * pow2(k as nat),
        raised(n, -k) == n,
        pow2(k as nat) >= 1,
{
    lemma_split(0, 0, 0);
    lemma_pow2_pos(k as nat);
    if k == 0 {
        assert(n * pow2(0) == n) by (nonlinear_arith)
            requires
                pow2(0) == 1,
        ;
    }
}

pub(crate) proof fn lemma_digits_below(num: int, den: int, k: int, precision: Precision) -> (j: int)
    requires
        num > 0,
        den > 0,
        k <= 0,
        raised(num, -k) < 2 * precision.least() * den,
    ensures
        has_digits(num, den, j, precision),
    decreases 2 * precision.least() * den - raised(num, -k),
{
    lemma_raised_step(num, -k);
    if precision.least() * den <= raised(num, -k) {
        k
    } else {
        assert(2 * (precision.least() * den) == 2 * precision.least() * den) by (nonlinear_arith);
        assert(-(k - 1) == -k + 1);
        lemma_digits_below(num, den, k - 1, precision)
    }
}

pub(crate) proof fn lemma_digits_above(num: int, den: int, k: int, precision: Precision) -> (j: int)
    requires
        num > 0,
        den > 0,
        k >= 0,
        precision.least() * raised(den, k) <= num,
    ensures
        has_digits(num, den, j, precision),
    decreases num - raised(den, k),
{
    let d = raised(den, k);
    lemma_raised_step(den, k);
    lemma_raised_step(num, -k);
    lemma_raised(num, k);
    if num < 2 * precision.least() * d {
        k
    } else {
        assert(precision.least() * (2 * d) == 2 * precision.least() * d && 2 * d <= precision.least() * (2 * d))
            by (nonlinear_arith)
            requires
                precision.least() >= 1,
                d > 0,
        ;
        lemma_digits_above(num, den, k + 1, precision)
    }
}

/// Every number that is not negative has a rounding.
pub proof fn rounding_exists(num: int, den: int, shift: int, precision: Precision)
    requires
        num >= 0,
        den > 0,
    ensures
        is_rounding(num, den, shift, precision, rounding(num, den, shift, precision)),
{
    if num == 0 {
        assert(is_rounding(num, den, shift, precision, (0int, 0int)));
    } else {
        lemma_raised(num, 0);
        lemma_raised(den, 0);
        let k = if num < 2 * precision.least() * den {
            lemma_digits_below(num, den, 0, precision)
        } else {
            assert(precision.least() * den <= 2 * precision.least() * den) by (nonlinear_arith)
                requires
                    precision.least() >= 1,
                    den > 0,
            ;
            lemma_digits_above(num, den, 0, precision)
        };
        let x = (half_even(raised(num, -k), raised(den, k)), shift + k);
        assert(x.1 - shift == k);
        assert(is_rounding(num, den, shift, precision, x));
    }
}

/// The integer nearest to a fraction is not further from it than a half, and it is even if it is
/// as far as that.
pub proof fn nearest_integers_are_within_a_half(n: int, d: int)
    requires
        d > 0,
    ensures
        -d <= 2 * (n - half_even(n, d) * d) <= d,
        2 * (n - half_even(n, d) * d) == d || 2 * (n - half_even(n, d) * d) == -d ==> half_even(n, d) % 2 == 0,
{
    let (q, r) = (n / d, n % d);
    vstd::arithmetic::div_mod::lemma_fundamental_div_mod(n, d);
    assert(n == d * q + r && 0 <= r < d);
    assert(n - q * d == r && n - (q + 1) * d == r - d) by (nonlinear_arith)
        requires
            n == d * q + r,
    ;
}

/// A rounding differs from the number by a half of its last digit at most, and its last digit is
/// even if it differs by that much.
pub proof fn roundings_are_within_half_a_digit(
    num: int,
    den: int,
    shift: int,
    precision: Precision,
    x: (int, int),
)
    requires
        num > 0,
        den > 0,
        is_rounding(num, den, shift, precision, x),
    ensures
        ({
            let k = x.1 - shift;
            let n = if k < 0 { num * pow2((-k) as nat) } else { num };
            let d = if k > 0 { den * pow2(k as nat) } else { den };
            &&& -d <= 2 * (n - x.0 * d) <= d
            &&& 2 * (n - x.0 * d) == d || 2 * (n - x.0 * d) == -d ==> x.0 % 2 == 0
            &&& precision.least() <= x.0 <= 2 * precision.least()
        }),
{
    let k = x.1 - shift;
    let (n, d) = (raised(num, -k), raised(den, k));
    lemma_raised_step(den, k);
    nearest_integers_are_within_a_half(n, d);
    let (m, least) = (x.0, precision.least());
    assert(least <= m <= 2 * least) by (nonlinear_arith)
        requires
            least * d <= n < 2 * least * d,
            -d <= 2 * (n - m * d) <= d,
            d > 0,
    ;
}

/// The floor of a floating-point number is the largest integer that is not above it, and the
/// ceiling the smallest one that is not below it. The nearest integer is not further than a half,
/// and it is the larger one of two that are equally near.
pub proof fn whole_numbers_are_next_to_their_float(x: (int, int))
    requires
        x.0 >= 0,
    ensures
        x.1 >= 0 ==> floor_of(x) == ceil_of(x) == nearest_of(x) == x.0 * pow2(x.1 as nat),
        x.1 < 0 ==> {
            let t = pow2((-x.1) as nat);
            &&& floor_of(x) * t <= x.0 < (floor_of(x) + 1) * t
            &&& (ceil_of(x) - 1) * t < x.0 <= ceil_of(x) * t
            &&& 2 * nearest_of(x) * t - t <= 2 * x.0 < 2 * nearest_of(x) * t + t
        },
{
    if x.1 >= 0 {
        lemma_raised(x.0, x.1);
        lemma_raised(1, x.1);
        let v = x.0 * pow2(x.1 as nat);
        assert(raised(x.0, x.1) == v && raised(1, -x.1) == 1);
        assert((2 * v + 1) / 2 == v);
    } else {
        lemma_raised(x.0, -x.1);
        lemma_raised(1, -x.1);
        let (m, t) = (x.0, pow2((-x.1) as nat) as int);
        assert(1 * t == t);
        assert(raised(m, x.1) == m && raised(1, -x.1) == t);
        lemma_next_to(m, t);
        lemma_next_to(m + t - 1, t);
        lemma_next_to(2 * m + t, 2 * t);
        let (c, n) = ((m + t - 1) / t, (2 * m + t) / (2 * t));
        assert((c - 1) * t < m <= c * t) by (nonlinear_arith)
            requires
                c * t <= m + t - 1 < (c + 1) * t,
        ;
        assert(2 * n * t - t <= 2 * m < 2 * n * t + t) by (nonlinear_arith)
            requires
                n * (2 * t) <= 2 * m + t < (n + 1) * (2 * t),
        ;
    }
}

/// A quotient is the largest integer that is not above the fraction.
proof fn lemma_next_to(n: int, d: int)
    requires
        d > 0,
    ensures
        (n / d) * d <= n < (n / d + 1) * d,
{
    vstd::arithmetic::div_mod::lemma_fundamental_div_mod(n, d);
    let (q, r) = (n / d, n % d);
    assert(q * d <= n < (q + 1) * d) by (nonlinear_arith)
        requires
            n == d * q + r,
            0 <= r < d,
    ;
}

} // verus!
