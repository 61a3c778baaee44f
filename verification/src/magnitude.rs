//! Sizes that come out of floating-point scale factors.
//!
//! The size of a scaled image is computed with binary floating-point numbers. A
//! [`Magnitude`] is such a number that is not negative, and each of its operations rounds
//! as the machine's does.

use vstd::arithmetic::power2::{lemma2_to64, lemma2_to64_rest, lemma_pow2_adds, lemma_pow2_pos,
    lemma_pow2_strictly_increases, lemma_pow2_unfold, pow2};
use vstd::prelude::*;

use crate::bounds::{lemma_integer_exponent, lemma_integer_value, lemma_mantissa};
use crate::ieee::{value_in_units, Single};
use crate::rounding::{ceil_of, difference, float_of, floor_of, is_less, is_rounding, least_of, lemma_raised,
    lemma_raised_step, lemma_split, lesser, nearest_of, product, quotient, raised, rounding,
    rounding_exists, rounding_is_unique, saturated, sum, Precision};

verus! {

/// A floating-point number that is not negative.
#[derive(Debug, Clone, Copy, PartialEq, Eq, Structural)]
pub struct Magnitude {
    mantissa: u64,
    exponent: i64,
}

impl View for Magnitude {
    type V = (int, int);

    closed spec fn view(&self) -> (int, int) {
        (self.mantissa as int, self.exponent as int)
    }
}

/// Whether a number is one that sizes and their scale factors can have.
pub open spec fn is_ordinary(x: (int, int), reach: int) -> bool {
    0 <= x.0 <= 0x20_0000_0000_0000 && -reach <= x.1 <= reach
}

fn round(num: u128, den: u128, shift: i64, precision: Precision) -> (x: Magnitude)
    requires
        num <= 0x4_0000_0000_0000_0000_0000_0000_0000,
        0 < den <= 0x20_0000_0000_0000,
        -1000 <= shift <= 1000,
    ensures
        x@ == rounding(num as int, den as int, shift as int, precision),
        is_rounding(num as int, den as int, shift as int, precision, x@),
        num == 0 ==> x@ == (0int, 0int),
        num > 0 ==> x@.0 > 0 && shift - 200 <= x@.1 <= shift + 200,
        x@.0 <= 0x20_0000_0000_0000,
{
    if num == 0 {
        let x = Magnitude { mantissa: 0, exponent: 0 };
        proof {
            rounding_is_unique(num as int, den as int, shift as int, precision, x@, rounding(
                num as int,
                den as int,
                shift as int,
                precision,
            ));
        }
        return x;
    }
    let least: u128 = match precision {
        Precision::Single => 0x80_0000,
        Precision::Double => 0x10_0000_0000_0000,
    };
    let mut n: u128 = num;
    let mut d: u128 = den;
    let mut k: i64 = 0;
    assert(least * d <= 0x10_0000_0000_0000 * 0x20_0000_0000_0000) by (nonlinear_arith)
        requires
            least <= 0x10_0000_0000_0000,
            d <= 0x20_0000_0000_0000,
    ;
    let bound: u128 = least * d;
    while n < bound
        invariant
            num > 0,
            den > 0,
            d == den,
            least == precision.least(),
            bound == least * d,
            bound <= 0x10_0000_0000_0000 * 0x20_0000_0000_0000,
            n <= 0x4_0000_0000_0000_0000_0000_0000_0000,
            n == raised(num as int, -k as int),
            n > 0,
            -200 <= k <= 0,
            k < 0 ==> n < 2 * bound,
        decreases 200 + k,
    {
        proof {
            lemma_raised_step(num as int, -k as int);
            assert(-(k - 1) == -k + 1);
            if k <= -200 {
                lemma_pow2_strictly_increases(120, 200);
                lemma_pow2_at_120();
                assert(num * pow2(200) >= pow2(200)) by (nonlinear_arith)
                    requires
                        num >= 1,
                        pow2(200) > 0,
                ;
            }
        }
        n = n * 2;
        k = k - 1;
    }
    proof {
        lemma_raised_step(den as int, k as int);
        assert(2 * least * d == 2 * (least * d)) by (nonlinear_arith);
    }
    while n >= 2 * least * d
        invariant
            num > 0,
            den > 0,
            0 < least <= 0x10_0000_0000_0000,
            least == precision.least(),
            n <= 0x4_0000_0000_0000_0000_0000_0000_0000,
            n == raised(num as int, -k as int),
            d == raised(den as int, k as int),
            d > 0,
            n >= least * d,
            -200 <= k <= 200,
            k < 0 ==> n < 2 * least * d,
            2 * least * d <= 0x8_0000_0000_0000_0000_0000_0000_0000,
            d <= 0x4_0000_0000_0000_0000_0000_0000_0000,
        decreases n - d,
    {
        proof {
            lemma_raised_step(den as int, k as int);
            lemma_raised_step(num as int, -(k + 1));
            lemma_raised_step(num as int, -k as int);
            assert(-(k + 1) + 1 == -k);
            assert(2 * least * d >= 2 * d) by (nonlinear_arith)
                requires
                    least >= 1,
                    d > 0,
            ;
            assert(least * (2 * d) == 2 * least * d) by (nonlinear_arith);
            assert(2 * least * (2 * d) <= 2 * n) by (nonlinear_arith)
                requires
                    n >= 2 * least * d,
            ;
            if k >= 200 {
                lemma_pow2_strictly_increases(120, 200);
                lemma_pow2_at_120();
                assert(den * pow2(200) >= pow2(200)) by (nonlinear_arith)
                    requires
                        den >= 1,
                        pow2(200) > 0,
                ;
            }
        }
        d = d * 2;
        k = k + 1;
    }
    let q: u128 = n / d;
    let r: u128 = n % d;
    proof {
        vstd::arithmetic::div_mod::lemma_fundamental_div_mod(n as int, d as int);
        assert(least <= q < 2 * least) by (nonlinear_arith)
            requires
                n == d * q + r,
                0 <= r < d,
                least * d <= n < 2 * least * d,
        ;
    }
    let mantissa: u64 = if 2 * r < d || (2 * r == d && q % 2 == 0) {
        q as u64
    } else {
        (q + 1) as u64
    };
    let x = Magnitude { mantissa, exponent: shift + k };
    proof {
        assert(x@.1 - shift == k);
        assert(2 * least * d == 2 * precision.least() * raised(den as int, k as int));
        assert(is_rounding(num as int, den as int, shift as int, precision, x@));
        rounding_is_unique(num as int, den as int, shift as int, precision, x@, rounding(
            num as int,
            den as int,
            shift as int,
            precision,
        ));
    }
    x
}

proof fn lemma_pow2_at_120()
    ensures
        pow2(120) == 0x100_0000_0000_0000_0000_0000_0000_0000,
{
    lemma2_to64_rest();
    lemma_pow2_adds(64, 56);
}

/// Two to the power of `k` times `n`, or a number beyond 64 bits that is not larger.
fn raise(n: u64, k: i64) -> (v: u128)
    ensures
        n <= v <= raised(n as int, k as int),
        v <= 2 * u64::MAX,
        v == raised(n as int, k as int) || v > u64::MAX,
{
    let mut v: u128 = n as u128;
    let mut i: i64 = k;
    while i > 0 && v <= u64::MAX as u128
        invariant
            n <= v,
            v <= 2 * u64::MAX,
            i > 0 || i == k || i == 0,
            raised(n as int, k as int) == raised(v as int, i as int),
        decreases i,
    {
        proof {
            lemma_raised_step(v as int, i - 1);
            lemma_pow2_pos((i - 1) as nat);
            if i > 1 {
                assert((2 * v) * pow2((i - 1) as nat) == 2 * (v * pow2((i - 1) as nat))) by (nonlinear_arith);
            }
        }
        v = v * 2;
        i = i - 1;
    }
    proof {
        if i > 0 {
            lemma_pow2_pos(i as nat);
            assert(v <= v * pow2(i as nat)) by (nonlinear_arith)
                requires
                    v >= 0,
                    pow2(i as nat) >= 1,
            ;
        }
    }
    v
}

/// Two to the power of `k` times `n`, for small powers.
fn raise_exactly(n: u64, k: i64) -> (v: u128)
    requires
        n <= 0x20_0000_0000_0000,
        k <= 60 || n == 0,
        k <= 2000,
    ensures
        v == raised(n as int, k as int),
        v <= 0x2_0000_0000_0000_0000_0000_0000_0000,
{
    if n == 0 {
        proof {
            if k > 0 {
                assert(0 * pow2(k as nat) == 0) by (nonlinear_arith);
            }
        }
        return 0;
    }
    let mut v: u128 = n as u128;
    let mut i: i64 = 0;
    proof {
        lemma2_to64();
        lemma2_to64_rest();
        lemma_raised(n as int, 0);
    }
    while i < k
        invariant
            k <= 60,
            0 <= i,
            k > 0 ==> i <= k,
            k <= 0 ==> i == 0,
            n <= 0x20_0000_0000_0000,
            v == n * pow2(i as nat),
            pow2(i as nat) <= pow2(60),
            pow2(60) == 0x1000_0000_0000_0000,
            v <= 0x2_0000_0000_0000_0000_0000_0000_0000,
        decreases k - i,
    {
        proof {
            lemma_pow2_unfold((i + 1) as nat);
            if i + 1 < 60 {
                lemma_pow2_strictly_increases((i + 1) as nat, 60);
            }
            let (a, b) = (pow2(i as nat) as int, pow2((i + 1) as nat) as int);
            assert(n * b == 2 * (n * a)) by (nonlinear_arith)
                requires
                    b == 2 * a,
            ;
            assert(n * b <= 0x20_0000_0000_0000 * 0x1000_0000_0000_0000) by (nonlinear_arith)
                requires
                    0 <= n <= 0x20_0000_0000_0000,
                    0 <= b <= 0x1000_0000_0000_0000,
            ;
        }
        v = v * 2;
        i = i + 1;
    }
    proof {
        lemma_raised(n as int, 0);
    }
    v
}

/// Whether two numbers are near enough to each other to be added exactly.
pub open spec fn are_near(a: (int, int), b: (int, int)) -> bool {
    (-60 <= a.1 - b.1 <= 60) || a.0 == 0 && b.1 <= a.1 || b.0 == 0 && a.1 <= b.1
}

impl Magnitude {
    /// The rounded sum.
    pub fn plus(self, other: Magnitude, precision: Precision) -> (x: Magnitude)
        requires
            is_ordinary(self@, 400),
            is_ordinary(other@, 400),
            are_near(self@, other@),
        ensures
            x@ == sum(self@, other@, precision),
            is_rounding(
                raised(self@.0, self@.1 - other@.1) + raised(other@.0, other@.1 - self@.1),
                1,
                least_of(self@.1, other@.1),
                precision,
                x@,
            ),
            is_ordinary(x@, 600),
    {
        let a = raise_exactly(self.mantissa, self.exponent - other.exponent);
        let b = raise_exactly(other.mantissa, other.exponent - self.exponent);
        let shift = if self.exponent < other.exponent {
            self.exponent
        } else {
            other.exponent
        };
        round(a + b, 1, shift, precision)
    }

    /// The rounded difference.
    pub fn minus(self, other: Magnitude, precision: Precision) -> (x: Magnitude)
        requires
            is_ordinary(self@, 400),
            is_ordinary(other@, 400),
            are_near(self@, other@),
            !is_less(self@, other@),
        ensures
            x@ == difference(self@, other@, precision),
            is_ordinary(x@, 600),
    {
        let a = raise_exactly(self.mantissa, self.exponent - other.exponent);
        let b = raise_exactly(other.mantissa, other.exponent - self.exponent);
        let shift = if self.exponent < other.exponent {
            self.exponent
        } else {
            other.exponent
        };
        round(a - b, 1, shift, precision)
    }

    /// Whether this number is smaller than the other.
    pub fn less_than(self, other: Magnitude) -> (r: bool)
        requires
            is_ordinary(self@, 2000),
            is_ordinary(other@, 2000),
        ensures
            r == is_less(self@, other@),
    {
        let k = self.exponent - other.exponent;
        if k > 0 {
            raise(self.mantissa, k) < other.mantissa as u128
        } else {
            (self.mantissa as u128) < raise(other.mantissa, -k)
        }
    }

    /// The smaller number.
    pub fn min(self, other: Magnitude) -> (x: Magnitude)
        requires
            is_ordinary(self@, 2000),
            is_ordinary(other@, 2000),
        ensures
            x@ == lesser(self@, other@),
    {
        if other.less_than(self) {
            other
        } else {
            self
        }
    }

    /// The largest integer that is not above this number.
    pub fn floor(self) -> (n: usize)
        requires
            is_ordinary(self@, 2000),
        ensures
            n == saturated(floor_of(self@)),
    {
        if self.exponent >= 0 {
            let v = raise(self.mantissa, self.exponent);
            assert(floor_of(self@) == raised(self@.0, self@.1));
            if v > usize::MAX as u128 {
                usize::MAX
            } else {
                v as usize
            }
        } else {
            let d = raise(1, -self.exponent);
            proof {
                self.lemma_small_quotients(d as int);
            }
            let v = self.mantissa as u128 / d;
            if v > usize::MAX as u128 {
                usize::MAX
            } else {
                v as usize
            }
        }
    }

    /// The smallest integer that is not below this number.
    pub fn ceil(self) -> (n: usize)
        requires
            is_ordinary(self@, 2000),
        ensures
            n == saturated(ceil_of(self@)),
    {
        if self.exponent >= 0 {
            let v = raise(self.mantissa, self.exponent);
            assert(ceil_of(self@) == raised(self@.0, self@.1));
            if v > usize::MAX as u128 {
                usize::MAX
            } else {
                v as usize
            }
        } else {
            let d = raise(1, -self.exponent);
            proof {
                self.lemma_small_quotients(d as int);
            }
            let v = (self.mantissa as u128 + (d - 1)) / d;
            if v > usize::MAX as u128 {
                usize::MAX
            } else {
                v as usize
            }
        }
    }

    /// The nearest integer, and the larger of two that are equally near.
    pub fn nearest(self) -> (n: usize)
        requires
            is_ordinary(self@, 2000),
        ensures
            n == saturated(nearest_of(self@)),
    {
        if self.exponent >= 0 {
            let v = raise(self.mantissa, self.exponent);
            proof {
                let r = raised(self@.0, self@.1);
                assert(raised(1, -self@.1) == 1);
                assert((2 * r + 1) / 2 == r);
                assert(nearest_of(self@) == r);
            }
            if v > usize::MAX as u128 {
                usize::MAX
            } else {
                v as usize
            }
        } else {
            let d = raise(1, -self.exponent);
            proof {
                self.lemma_small_quotients(d as int);
            }
            let v = (2 * (self.mantissa as u128) + d) / (2 * d);
            if v > usize::MAX as u128 {
                usize::MAX
            } else {
                v as usize
            }
        }
    }

    /// A divisor beyond 64 bits gives the same small quotients as any larger one.
    proof fn lemma_small_quotients(self, d: int)
        requires
            is_ordinary(self@, 2000),
            self@.1 < 0,
            0 < d <= raised(1, -self@.1),
            d == raised(1, -self@.1) || d > u64::MAX,
        ensures
            self@.0 / d == floor_of(self@),
            (self@.0 + (d - 1)) / d == ceil_of(self@),
            (2 * self@.0 + d) / (2 * d) == nearest_of(self@),
    {
        let m = self@.0;
        let f = raised(1, -self@.1);
        assert(raised(m, self@.1) == m);
        if d != f {
            assert(2 * m < d <= f);
            vstd::arithmetic::div_mod::lemma_basic_div(m, d);
            vstd::arithmetic::div_mod::lemma_basic_div(m, f);
            vstd::arithmetic::div_mod::lemma_basic_div(2 * m + d, 2 * d);
            vstd::arithmetic::div_mod::lemma_basic_div(2 * m + f, 2 * f);
            if m == 0 {
                vstd::arithmetic::div_mod::lemma_basic_div(d - 1, d);
                vstd::arithmetic::div_mod::lemma_basic_div(f - 1, f);
            } else {
                vstd::arithmetic::div_mod::lemma_fundamental_div_mod_converse(m + d - 1, d, 1, m - 1);
                vstd::arithmetic::div_mod::lemma_fundamental_div_mod_converse(m + f - 1, f, 1, m - 1);
            }
        }
    }

    /// The floating-point number nearest to an integer.
    pub fn of(n: u64, precision: Precision) -> (x: Magnitude)
        ensures
            x@ == float_of(n as int, precision),
            is_rounding(n as int, 1, 0, precision, x@),
            is_ordinary(x@, 100),
            n > 0 ==> x@.0 > 0,
    {
        let x = round(n as u128, 1, 0, precision);
        proof {
            if n > 0 {
                lemma_integer_exponent(n as int, precision, x@);
            }
        }
        x
    }

    /// The rounded quotient.
    pub fn divided_by(self, other: Magnitude, precision: Precision) -> (x: Magnitude)
        requires
            is_ordinary(self@, 2000),
            is_ordinary(other@, 2000),
            -1000 <= self@.1 - other@.1 <= 1000,
            other@.0 > 0,
        ensures
            x@ == quotient(self@, other@, precision),
            is_rounding(self@.0, other@.0, self@.1 - other@.1, precision, x@),
            x@.0 <= 0x20_0000_0000_0000,
            self@.0 > 0 ==> x@.0 > 0 && self@.1 - other@.1 - 200 <= x@.1 <= self@.1 - other@.1 + 200,
            self@.0 == 0 ==> x@ == (0int, 0int),
    {
        round(self.mantissa as u128, other.mantissa as u128, self.exponent - other.exponent, precision)
    }

    /// The rounded product.
    pub fn times(self, other: Magnitude, precision: Precision) -> (x: Magnitude)
        requires
            is_ordinary(self@, 400),
            is_ordinary(other@, 600),
        ensures
            x@ == product(self@, other@, precision),
            is_rounding(self@.0 * other@.0, 1, self@.1 + other@.1, precision, x@),
            x@.0 <= 0x20_0000_0000_0000,
            self@.0 * other@.0 > 0 ==> self@.1 + other@.1 - 200 <= x@.1 <= self@.1 + other@.1 + 200,
            self@.0 * other@.0 == 0 ==> x@ == (0int, 0int),
    {
        assert(0 <= self.mantissa * other.mantissa <= 0x20_0000_0000_0000 * 0x20_0000_0000_0000) by (nonlinear_arith)
            requires
                0 <= self.mantissa <= 0x20_0000_0000_0000,
                0 <= other.mantissa <= 0x20_0000_0000_0000,
        ;
        round((self.mantissa as u128) * (other.mantissa as u128), 1, self.exponent + other.exponent, precision)
    }
}

/// The bit pattern of a number in single precision: the exponent, and the mantissa without its
/// first digit.
pub open spec fn pattern(x: (int, int)) -> Single {
    Single {
        bits: if x.0 == 0 {
            0
        } else {
            ((x.1 + 149) * 0x80_0000 + x.0) as u32
        },
    }
}

/// The single-precision number nearest to an integer.
pub open spec fn single_of(n: int) -> Single {
    pattern(float_of(n, Precision::Single))
}

/// The single-precision number nearest to an integer is a number, and not negative.
pub(crate) proof fn lemma_single_of(n: int)
    requires
        0 <= n <= u64::MAX,
    ensures
        !single_of(n).not_a_number(),
        0 <= single_of(n).key(),
{
    let x = float_of(n, Precision::Single);
    rounding_exists(n, 1, 0, Precision::Single);
    if n > 0 {
        lemma_integer_exponent(n, Precision::Single, x);
        lemma_mantissa(n, 1, 0, Precision::Single, x);
    }
}

/// The single-precision number nearest to an integer.
pub fn nearest_single(n: usize) -> (r: Single)
    ensures
        r == single_of(n as int),
{
    let x = Magnitude::of(n as u64, Precision::Single);
    if x.mantissa == 0 {
        return Single { bits: 0 };
    }
    proof {
        assert(n > 0);
        lemma_integer_exponent(n as int, Precision::Single, x@);
        lemma_mantissa(n as int, 1, 0, Precision::Single, x@);
    }
    Single { bits: ((x.exponent + 149) * 0x80_0000 + x.mantissa as i64) as u32 }
}

/// A whole number of up to twenty-three binary digits is a single-precision number of exactly that
/// value.
pub proof fn small_whole_numbers_are_exact(n: int)
    requires
        0 <= n < 0x80_0000,
    ensures
        value_in_units(single_of(n)) == n * pow2(149),
{
    let x = float_of(n, Precision::Single);
    rounding_exists(n, 1, 0, Precision::Single);
    if n > 0 {
        lemma_integer_exponent(n, Precision::Single, x);
        lemma_mantissa(n, 1, 0, Precision::Single, x);
        lemma_integer_value(n, Precision::Single);
        let (m, e) = (x.0, x.1);
        let bits = (e + 149) * 0x80_0000 + m;
        if m == 0x100_0000 {
            assert(bits == (e + 151) * 0x80_0000);
            assert(bits / 0x80_0000 == e + 151 && bits % 0x80_0000 == 0);
            lemma_split(1, e + 149, e + 150);
            lemma2_to64();
        } else {
            assert(bits == (e + 150) * 0x80_0000 + (m - 0x80_0000));
            assert(bits / 0x80_0000 == e + 150 && bits % 0x80_0000 == m - 0x80_0000);
        }
        lemma_split(e + 149, 3851, e + 4000);
        lemma_split(149, 3851, 4000);
        let (a, b, c) = (pow2((e + 149) as nat) as int, pow2(149) as int, pow2(3851) as int);
        assert(m * a == n * b) by (nonlinear_arith)
            requires
                m * (a * c) == n * (b * c),
                c > 0,
        ;
    } else {
        assert(0 * pow2(149) == 0);
    }
}

} // verus!
