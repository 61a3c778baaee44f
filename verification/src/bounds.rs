//! Bounds on rounded sizes and scale factors.

use vstd::arithmetic::power2::{lemma2_to64, lemma2_to64_rest, lemma_pow2_adds, lemma_pow2_pos,
    lemma_pow2_strictly_increases, lemma_pow2_unfold, pow2};
use vstd::prelude::*;

use crate::rounding::{ceil_of, float_of, floor_of, is_less, is_rounding, least_of, lemma_raised, lemma_raised_step,
    lemma_split,
    lesser, nearest_of, product, quotient, raised, rounding_exists, rounding_is_unique,
    whole_numbers_are_next_to_their_float, Precision};

verus! {

/// A number up to a small integer has a rounding without a positive exponent.
pub(crate) proof fn lemma_small_exponent(num: int, den: int, shift: int, precision: Precision, x: (int, int), bound: int)
    requires
        num > 0,
        den > 0,
        is_rounding(num, den, shift, precision, x),
        0 <= bound < precision.least(),
        raised(num, shift) <= bound * raised(den, -shift),
    ensures
        x.1 <= 0,
{
    let least = precision.least();
    let (e, k) = (x.1, x.1 - shift);
    if e > 0 {
        if shift > 0 && k <= 0 {
            lemma_split(e, -k, shift);
            let (t, u) = (pow2(e as nat) as int, pow2((-k) as nat) as int);
            lemma_raised(num, -k);
            lemma_raised(den, -k);
            assert(false) by (nonlinear_arith)
                requires
                    least * den <= num * u,
                    num * (t * u) <= bound * den,
                    t >= 1,
                    bound < least,
                    den > 0,
                    bound >= 0,
            ;
        } else if shift > 0 {
            lemma_split(k, shift, e);
            let (t, u) = (pow2(k as nat) as int, pow2(shift as nat) as int);
            assert(false) by (nonlinear_arith)
                requires
                    least * (den * t) <= num,
                    num * u <= bound * den,
                    t >= 1,
                    u >= 1,
                    bound < least,
                    den > 0,
                    bound >= 0,
            ;
        } else {
            lemma_split(e, -shift, k);
            let (t, u) = (pow2(e as nat) as int, pow2((-shift) as nat) as int);
            lemma_raised(den, -shift);
            lemma_raised(num, -shift);
            assert(false) by (nonlinear_arith)
                requires
                    least * (den * (t * u)) <= num,
                    num <= bound * (den * u),
                    t >= 1,
                    u >= 1,
                    bound < least,
                    den > 0,
                    bound >= 0,
            ;
        }
    }
}

/// The mantissa of the rounding of a number up to a small integer.
pub(crate) proof fn lemma_small_mantissa(num: int, den: int, shift: int, precision: Precision, x: (int, int), bound: int)
    requires
        num > 0,
        den > 0,
        is_rounding(num, den, shift, precision, x),
        0 <= bound,
        x.1 <= 0,
        raised(num, shift) <= bound * raised(den, -shift),
    ensures
        0 <= x.0 <= bound * raised(1, -x.1),
{
    let (e, k) = (x.1, x.1 - shift);
    let (n, d) = (raised(num, -k), raised(den, k));
    let f = raised(1, -e);
    lemma_raised_step(num, -k);
    lemma_raised_step(den, k);
    lemma_raised(1, -e);
    assert(n <= bound * f * d) by {
        if shift > 0 {
            lemma_split(shift, -e, -k);
            lemma_raised(num, -k);
            lemma_raised(den, -k);
            let (t, u) = (pow2(shift as nat) as int, pow2((-e) as nat) as int);
            assert(num * (t * u) <= bound * u * den) by (nonlinear_arith)
                requires
                    num * t <= bound * den,
                    u > 0,
            ;
        } else if k <= 0 {
            lemma_split(-k, -shift, -e);
            lemma_raised(num, -k);
            lemma_raised(den, -k);
            lemma_raised(num, -shift);
            lemma_raised(den, -shift);
            let (t, u) = (pow2((-k) as nat) as int, pow2((-shift) as nat) as int);
            assert(num * t <= bound * (t * u) * den) by (nonlinear_arith)
                requires
                    num <= bound * (den * u),
                    t > 0,
            ;
        } else {
            lemma_split(-e, k, -shift);
            lemma_raised(num, -shift);
            lemma_raised(den, -shift);
            lemma_raised(num, k);
            lemma_raised(den, k);
            let (t, u) = (pow2((-e) as nat) as int, pow2(k as nat) as int);
            assert(num <= bound * t * (den * u)) by (nonlinear_arith)
                requires
                    num <= bound * (den * (t * u)),
            ;
        }
    }
    let top = bound * f;
    let (q, r) = (n / d, n % d);
    vstd::arithmetic::div_mod::lemma_fundamental_div_mod(n, d);
    vstd::arithmetic::div_mod::lemma_mod_bound(n, d);
    assert(0 <= q <= top && (q == top ==> r == 0)) by (nonlinear_arith)
        requires
            n == d * q + r,
            0 <= r < d,
            0 < n <= top * d,
    ;
}

/// A number up to a small integer comes to no more than that integer.
pub(crate) proof fn lemma_bounded(num: int, den: int, shift: int, precision: Precision, x: (int, int), bound: int)
    requires
        num > 0,
        den > 0,
        is_rounding(num, den, shift, precision, x),
        0 <= bound < precision.least(),
        raised(num, shift) <= bound * raised(den, -shift),
    ensures
        0 <= floor_of(x) <= bound,
        0 <= ceil_of(x) <= bound,
        0 <= nearest_of(x) <= bound,
{
    lemma_small_exponent(num, den, shift, precision, x, bound);
    lemma_small_mantissa(num, den, shift, precision, x, bound);
    let f = raised(1, -x.1);
    lemma_raised_step(1, -x.1);
    let m = x.0;
    assert(raised(m, x.1) == m);
    let top = bound * f;
    vstd::arithmetic::div_mod::lemma_div_is_ordered(m, top, f);
    vstd::arithmetic::div_mod::lemma_div_is_ordered(m + f - 1, top + (f - 1), f);
    vstd::arithmetic::div_mod::lemma_div_is_ordered(2 * m + f, 2 * top + f, 2 * f);
    vstd::arithmetic::div_mod::lemma_fundamental_div_mod_converse(top, f, bound, 0);
    vstd::arithmetic::div_mod::lemma_fundamental_div_mod_converse(top + (f - 1), f, bound, f - 1);
    assert(2 * top + f == bound * (2 * f) + f) by (nonlinear_arith)
        requires
            top == bound * f,
    ;
    vstd::arithmetic::div_mod::lemma_fundamental_div_mod_converse(2 * top + f, 2 * f, bound, f);
    vstd::arithmetic::div_mod::lemma_div_pos_is_pos(m, f);
    vstd::arithmetic::div_mod::lemma_div_pos_is_pos(m + f - 1, f);
    vstd::arithmetic::div_mod::lemma_div_pos_is_pos(2 * m + f, 2 * f);
}

/// A small integer is a floating-point number.
pub(crate) proof fn lemma_exact(n: int, precision: Precision, x: (int, int))
    requires
        0 < n < precision.least(),
        is_rounding(n, 1, 0, precision, x),
    ensures
        x.1 <= 0,
        x.0 == n * pow2((-x.1) as nat),
{
    lemma_small_exponent(n, 1, 0, precision, x, n);
    lemma_raised(n, -x.1);
    lemma_raised(1, -x.1);
    let top = raised(n, -x.1);
    assert(top / 1 == top && top % 1 == 0);
}

/// A number that is not above one, as an inequality of integers.
pub(crate) proof fn lemma_at_most_one(one: (int, int), x: (int, int))
    requires
        one.1 <= 0,
        one.0 == pow2((-one.1) as nat),
        0 <= x.0,
        !is_less(one, x),
    ensures
        x.1 > 0 ==> x.0 * pow2(x.1 as nat) <= 1,
        x.1 <= 0 ==> x.0 <= pow2((-x.1) as nat),
{
    let (e, s, m) = (one.1, x.1, x.0);
    lemma_split(0, 0, 0);
    if s >= e {
        let t = pow2((s - e) as nat) as int;
        lemma_raised(m, s - e);
        lemma_raised(one.0, s - e);
        if s > 0 {
            lemma_split(s, -e, s - e);
            let (u, v) = (pow2(s as nat) as int, pow2((-e) as nat) as int);
            assert(m * u <= 1) by (nonlinear_arith)
                requires
                    m * (u * v) <= v,
                    v > 0,
            ;
        } else {
            lemma_split(-s, s - e, -e);
            let u = pow2((-s) as nat) as int;
            assert(m <= u) by (nonlinear_arith)
                requires
                    m * t <= u * t,
                    t > 0,
            ;
        }
    } else {
        lemma_split(-e, e - s, -s);
        lemma_raised(m, e - s);
        lemma_raised(one.0, e - s);
    }
}

/// A side scaled by at most one does not grow.
pub(crate) proof fn lemma_shrinking(
    side: int,
    whole: (int, int),
    scale: (int, int),
    exact: (int, int),
    precision: Precision,
)
    requires
        0 < side < precision.least(),
        is_rounding(side, 1, 0, precision, whole),
        0 <= scale.0,
        !is_less(float_of(1, precision), scale),
        is_rounding(whole.0 * scale.0, 1, whole.1 + scale.1, precision, exact),
    ensures
        0 <= floor_of(exact) <= side,
        0 <= nearest_of(exact) <= side,
{
    let one = float_of(1, precision);
    rounding_exists(1, 1, 0, precision);
    lemma_exact(1, precision, one);
    lemma_exact(side, precision, whole);
    lemma_at_most_one(one, scale);
    let (w, s, m) = (whole.1, scale.1, scale.0);
    let num = whole.0 * m;
    let shift = w + s;
    lemma_split(0, 0, 0);
    if m == 0 {
        assert(num == 0) by (nonlinear_arith)
            requires
                num == whole.0 * m,
                m == 0,
        ;
        assert(raised(0, 0) == 0 && raised(1, -0) == 1);
        return ;
    }
    let v = pow2((-w) as nat) as int;
    lemma_raised(side, -w);
    assert(num > 0) by (nonlinear_arith)
        requires
            num == (side * v) * m,
            side > 0,
            v > 0,
            m > 0,
    ;
    assert(raised(num, shift) <= side * raised(1, -shift)) by {
        if shift > 0 {
            lemma_split(-w, shift, s);
            let (t, u) = (pow2(shift as nat) as int, pow2(s as nat) as int);
            assert(num * t <= side) by (nonlinear_arith)
                requires
                    num == (side * v) * m,
                    u == v * t,
                    m * u <= 1,
                    side > 0,
            ;
        } else {
            let t = pow2((-shift) as nat) as int;
            lemma_raised(1, -shift);
            lemma_raised(num, -shift);
            if s <= 0 {
                lemma_split(-w, -s, -shift);
                let u = pow2((-s) as nat) as int;
                assert(num <= side * t) by (nonlinear_arith)
                    requires
                        num == (side * v) * m,
                        t == v * u,
                        m <= u,
                        side > 0,
                        v > 0,
                ;
            } else {
                lemma_split(-shift, s, -w);
                let u = pow2(s as nat) as int;
                assert(num <= side * t) by (nonlinear_arith)
                    requires
                        num == (side * v) * m,
                        v == t * u,
                        m * u <= 1,
                        side > 0,
                        t > 0,
                ;
            }
        }
    }
    lemma_bounded(num, 1, shift, precision, exact, side);
}

/// A side divided by more than one does not grow.
pub(crate) proof fn lemma_dividing(side: int, whole: (int, int), by: (int, int), exact: (int, int), precision: Precision)
    requires
        0 < side < precision.least(),
        is_rounding(side, 1, 0, precision, whole),
        0 < by.0,
        is_less(float_of(1, precision), by),
        is_rounding(whole.0, by.0, whole.1 - by.1, precision, exact),
    ensures
        0 <= floor_of(exact) <= side,
{
    let one = float_of(1, precision);
    rounding_exists(1, 1, 0, precision);
    lemma_exact(1, precision, one);
    lemma_exact(side, precision, whole);
    let (w, s, m) = (whole.1, by.1, by.0);
    let shift = w - s;
    let v = pow2((-w) as nat) as int;
    lemma_raised(side, -w);
    assert(whole.0 > 0) by (nonlinear_arith)
        requires
            whole.0 == side * v,
            side > 0,
            v > 0,
    ;
    lemma_at_least(one, by);
    assert(raised(whole.0, shift) <= side * raised(m, -shift)) by {
        if shift > 0 {
            lemma_split(-w, shift, -s);
            lemma_raised(whole.0, shift);
            lemma_raised(m, shift);
            let t = pow2(shift as nat) as int;
            assert(side * v * t <= side * m) by (nonlinear_arith)
                requires
                    v * t <= m,
                    side > 0,
            ;
        } else {
            lemma_raised(whole.0, -shift);
            lemma_raised(m, -shift);
            let t = pow2((-shift) as nat) as int;
            if s <= 0 {
                lemma_split(-s, -shift, -w);
                let u = pow2((-s) as nat) as int;
                assert(side * v <= side * (m * t)) by (nonlinear_arith)
                    requires
                        v == u * t,
                        u <= m,
                        side > 0,
                        t > 0,
                ;
            } else {
                lemma_split(-w, s, -shift);
                let u = pow2(s as nat) as int;
                assert(side * v <= side * (m * t)) by (nonlinear_arith)
                    requires
                        t == v * u,
                        m >= 1,
                        u >= 1,
                        v > 0,
                        side > 0,
                ;
            }
        }
    }
    lemma_bounded(whole.0, m, shift, precision, exact, side);
}

/// A number above one, as an inequality of integers.
pub(crate) proof fn lemma_at_least(one: (int, int), x: (int, int))
    requires
        one.1 <= 0,
        one.0 == 1 * pow2((-one.1) as nat),
        0 < x.0,
        is_less(one, x),
    ensures
        x.1 <= 0 ==> pow2((-x.1) as nat) <= x.0,
{
    let (e, s, m) = (one.1, x.1, x.0);
    if s <= 0 {
        if s >= e {
            let t = pow2((s - e) as nat) as int;
            lemma_raised(m, s - e);
            lemma_raised(one.0, s - e);
            lemma_split(-s, s - e, -e);
            let u = pow2((-s) as nat) as int;
            assert(u <= m) by (nonlinear_arith)
                requires
                    u * t < m * t,
                    t > 0,
            ;
        } else {
            lemma_split(-e, e - s, -s);
            lemma_raised(m, e - s);
            lemma_raised(one.0, e - s);
        }
    }
}

/// One is a floating-point number.
pub(crate) proof fn lemma_one_is_a_rounding()
    ensures
        is_rounding(1, 1, 0, Precision::Double, float_of(1, Precision::Double)),
        float_of(1, Precision::Double) == (0x10_0000_0000_0000int, -52int),
{
    lemma2_to64_rest();
    let x = (0x10_0000_0000_0000int, -52int);
    assert(is_rounding(1, 1, 0, Precision::Double, x));
    rounding_is_unique(1, 1, 0, Precision::Double, x, float_of(1, Precision::Double));
}

/// A number from one on has a rounding from one on.
pub(crate) proof fn lemma_at_least_one(num: int, den: int, shift: int, x: (int, int))
    requires
        num > 0,
        den > 0,
        is_rounding(num, den, shift, Precision::Double, x),
        raised(den, -shift) <= raised(num, shift),
    ensures
        x.1 >= -52,
        x.0 >= 0x10_0000_0000_0000,
{
    let least = Precision::Double.least();
    let (e, k) = (x.1, x.1 - shift);
    let (n, d) = (raised(num, -k), raised(den, k));
    lemma_raised_step(num, -k);
    lemma_raised_step(den, k);
    if e < -52 {
        lemma2_to64_rest();
        if -e > 53 {
            lemma_pow2_strictly_increases(53, (-e) as nat);
        }
        let t = pow2((-e) as nat) as int;
        assert(t >= 2 * least);
        if k <= 0 {
            lemma_raised(num, -k);
            lemma_raised(den, -k);
            let u = pow2((-k) as nat) as int;
            if shift >= 0 {
                lemma_split(shift, -e, -k);
                lemma_raised(num, shift);
                lemma_raised(den, shift);
                let v = pow2(shift as nat) as int;
                let w = num * v;
                assert(num * u == w * t) by (nonlinear_arith)
                    requires
                        u == v * t,
                        w == num * v,
                ;
                assert(w * t >= 2 * least * den) by (nonlinear_arith)
                    requires
                        den <= w,
                        t >= 2 * least,
                        den > 0,
                        least > 0,
                ;
            } else {
                lemma_split(-shift, -k, -e);
                lemma_raised(num, -shift);
                lemma_raised(den, -shift);
                let v = pow2((-shift) as nat) as int;
                assert(false) by (nonlinear_arith)
                    requires
                        num * u < 2 * least * den,
                        t == v * u,
                        den * v <= num,
                        t >= 2 * least,
                        den > 0,
                        u > 0,
                ;
            }
        } else {
            lemma_raised(num, k);
            lemma_raised(den, k);
            lemma_raised(num, -shift);
            lemma_raised(den, -shift);
            lemma_split(-e, k, -shift);
            let (u, v) = (pow2(k as nat) as int, pow2((-shift) as nat) as int);
            assert(false) by (nonlinear_arith)
                requires
                    num < 2 * least * (den * u),
                    v == t * u,
                    den * v <= num,
                    t >= 2 * least,
                    den > 0,
                    u > 0,
            ;
        }
    }
    vstd::arithmetic::div_mod::lemma_fundamental_div_mod(n, d);
    vstd::arithmetic::div_mod::lemma_mod_bound(n, d);
    let (q, r) = (n / d, n % d);
    assert(q >= least) by (nonlinear_arith)
        requires
            n == d * q + r,
            0 <= r < d,
            least * d <= n,
    ;
}

/// The quotient of an integer and one that is not larger comes to one at least.
pub(crate) proof fn lemma_quotient_from_one(a: int, b: int)
    requires
        0 < b <= a < Precision::Double.least(),
    ensures
        ({
            let q = quotient(float_of(a, Precision::Double), float_of(b, Precision::Double), Precision::Double);
            q.1 >= -52 && q.0 >= 0x10_0000_0000_0000
        }),
{
    let (x, y) = (float_of(a, Precision::Double), float_of(b, Precision::Double));
    rounding_exists(a, 1, 0, Precision::Double);
    rounding_exists(b, 1, 0, Precision::Double);
    lemma_exact(a, Precision::Double, x);
    lemma_exact(b, Precision::Double, y);
    let shift = x.1 - y.1;
    let (s, t) = (pow2((-x.1) as nat) as int, pow2((-y.1) as nat) as int);
    lemma_raised(a, -x.1);
    lemma_raised(b, -y.1);
    assert(x.0 > 0 && y.0 > 0) by (nonlinear_arith)
        requires
            x.0 == a * s,
            y.0 == b * t,
            a > 0,
            b > 0,
            s > 0,
            t > 0,
    ;
    rounding_exists(x.0, y.0, shift, Precision::Double);
    assert(raised(y.0, -shift) <= raised(x.0, shift)) by {
        if shift >= 0 {
            lemma_split(-x.1, shift, -y.1);
            lemma_raised(x.0, shift);
            lemma_raised(y.0, shift);
            let u = pow2(shift as nat) as int;
            assert(b * (s * u) <= a * s * u) by (nonlinear_arith)
                requires
                    b <= a,
                    s > 0,
                    u > 0,
            ;
        } else {
            lemma_split(-y.1, -shift, -x.1);
            lemma_raised(x.0, -shift);
            lemma_raised(y.0, -shift);
            let u = pow2((-shift) as nat) as int;
            assert(b * t * u <= a * (t * u)) by (nonlinear_arith)
                requires
                    b <= a,
                    t > 0,
                    u > 0,
            ;
        }
    }
    lemma_at_least_one(x.0, y.0, shift, quotient(x, y, Precision::Double));
}

/// One is the smaller of itself and a number from one on.
pub(crate) proof fn lemma_lesser_with_one(x: (int, int))
    requires
        x.1 >= -52,
        x.0 >= 0x10_0000_0000_0000,
    ensures
        !is_less(x, float_of(1, Precision::Double)),
        lesser(x, float_of(1, Precision::Double)) == float_of(1, Precision::Double) || x == float_of(
            1,
            Precision::Double,
        ),
{
    lemma_one_is_a_rounding();
    let one = float_of(1, Precision::Double);
    let k = x.1 + 52;
    lemma_raised(x.0, k);
    lemma_raised(one.0, k);
    let t = pow2(k as nat) as int;
    assert(x.0 * t >= x.0) by (nonlinear_arith)
        requires
            t >= 1,
            x.0 >= 0,
    ;
    if k > 0 {
        lemma_pow2_unfold(k as nat);
        lemma_pow2_pos((k - 1) as nat);
        assert(x.0 * t >= 2 * x.0) by (nonlinear_arith)
            requires
                t >= 2,
                x.0 >= 0,
        ;
    }
}

/// An integer times one is that integer.
pub(crate) proof fn lemma_times_one(n: int)
    requires
        0 < n < Precision::Double.least(),
    ensures
        nearest_of(
            product(float_of(n, Precision::Double), float_of(1, Precision::Double), Precision::Double),
        ) == n,
{
    let x = float_of(n, Precision::Double);
    let one = float_of(1, Precision::Double);
    rounding_exists(n, 1, 0, Precision::Double);
    lemma_exact(n, Precision::Double, x);
    lemma_one_is_a_rounding();
    lemma2_to64_rest();
    let (m, e) = x;
    let f = pow2((-e) as nat) as int;
    let t = one.0;
    let num = m * t;
    let shift = e - 52;
    lemma_raised(n, -e);
    lemma_raised(1, -e);
    assert(m > 0) by (nonlinear_arith)
        requires
            m == n * f,
            n > 0,
            f > 0,
    ;
    assert(num > 0) by (nonlinear_arith)
        requires
            num == m * t,
            m > 0,
            t > 0,
    ;
    assert(raised(n, -e) == m && raised(1, e) == 1);
    let least = Precision::Double.least();
    assert(least <= m < 2 * least);
    assert(least * t <= num < 2 * least * t) by (nonlinear_arith)
        requires
            least <= m < 2 * least,
            num == m * t,
            t > 0,
    ;
    vstd::arithmetic::div_mod::lemma_fundamental_div_mod_converse(num, t, m, 0);
    lemma_raised(1, 52);
    lemma_raised(num, 52);
    assert(1 * t == t);
    assert(x.1 - shift == 52);
    assert(is_rounding(num, 1, shift, Precision::Double, x));
    rounding_exists(num, 1, shift, Precision::Double);
    rounding_is_unique(num, 1, shift, Precision::Double, x, product(x, one, Precision::Double));
    lemma_raised(m, -e);
    assert(2 * m + f == n * (2 * f) + f) by (nonlinear_arith)
        requires
            m == n * f,
    ;
    vstd::arithmetic::div_mod::lemma_fundamental_div_mod_converse(2 * m + f, 2 * f, n, f);
}

/// A power of two in units small enough for all scale factors.
pub open spec fn unit(e: int) -> int {
    pow2((e + 4000) as nat) as int
}

pub(crate) proof fn lemma_unit(e: int, f: int)
    requires
        e >= -4000,
        f >= -4000,
        e + f >= -4000,
    ensures
        unit(e + f) * unit(0) == unit(e) * unit(f),
        unit(e) > 0,
        unit(f) > 0,
        unit(e + f) > 0,
        unit(0) > 0,
{
    lemma_pow2_adds((e + f + 4000) as nat, 4000);
    lemma_pow2_adds((e + 4000) as nat, (f + 4000) as nat);
    lemma_pow2_pos((e + 4000) as nat);
    lemma_pow2_pos((f + 4000) as nat);
    lemma_pow2_pos((e + f + 4000) as nat);
    lemma_pow2_pos(4000);
}

pub(crate) proof fn lemma_unit_step(e: int, k: int)
    requires
        e >= -4000,
        k >= 0,
    ensures
        unit(e + k) == unit(e) * pow2(k as nat),
        unit(e) > 0,
        pow2(k as nat) >= 1,
{
    lemma_split(e + 4000, k, e + k + 4000);
}

pub(crate) proof fn lemma_less_in_units(a: (int, int), b: (int, int))
    requires
        a.1 >= -4000,
        b.1 >= -4000,
    ensures
        is_less(a, b) <==> a.0 * unit(a.1) < b.0 * unit(b.1),
{
    let k = a.1 - b.1;
    if k >= 0 {
        lemma_unit_step(b.1, k);
        lemma_raised(a.0, k);
        lemma_raised(b.0, k);
        let (t, u) = (pow2(k as nat) as int, unit(b.1));
        assert(a.0 * t < b.0 <==> a.0 * (u * t) < b.0 * u) by (nonlinear_arith)
            requires
                u > 0,
        ;
    } else {
        lemma_unit_step(a.1, -k);
        lemma_raised(a.0, -k);
        lemma_raised(b.0, -k);
        let (t, u) = (pow2((-k) as nat) as int, unit(a.1));
        assert(a.0 < b.0 * t <==> a.0 * u < b.0 * (u * t)) by (nonlinear_arith)
            requires
                u > 0,
        ;
    }
}

/// A fraction and its raised form, in units.
proof fn lemma_same_fraction(num: int, den: int, k: int)
    requires
        k >= -4000,
    ensures
        raised(num, -k) * den * unit(k) == num * raised(den, k) * unit(0),
{
    let (p, o) = (unit(k), unit(0));
    if k >= 0 {
        lemma_unit_step(0, k);
        lemma_raised(den, k);
        lemma_raised(num, k);
        let t = pow2(k as nat) as int;
        assert(num * den * (o * t) == num * (den * t) * o) by (nonlinear_arith);
    } else {
        lemma_unit_step(k, -k);
        lemma_raised(num, -k);
        lemma_raised(den, -k);
        let t = pow2((-k) as nat) as int;
        assert((num * t) * den * p == num * den * (p * t)) by (nonlinear_arith);
    }
}

/// A quotient is rounded up by less than one part in two times the least mantissa.
pub(crate) proof fn lemma_rounded_up(num: int, den: int, shift: int, precision: Precision, x: (int, int))
    requires
        num > 0,
        den > 0,
        is_rounding(num, den, shift, precision, x),
        -2000 <= shift <= 2000,
        -2000 <= x.1 <= 2000,
    ensures
        x.0 * den * unit(x.1 - shift) * (2 * precision.least()) <= num * unit(0) * (2 * precision.least() + 1),
{
    let least = precision.least();
    let k = x.1 - shift;
    let (n, d) = (raised(num, -k), raised(den, k));
    lemma_raised_step(num, -k);
    lemma_raised_step(den, k);
    vstd::arithmetic::div_mod::lemma_fundamental_div_mod(n, d);
    vstd::arithmetic::div_mod::lemma_mod_bound(n, d);
    let (q, r) = (n / d, n % d);
    let m = x.0;
    assert(2 * m * d <= 2 * n + d) by (nonlinear_arith)
        requires
            n == d * q + r,
            0 <= r < d,
            m == q || (m == q + 1 && 2 * r >= d),
    ;
    assert(m * d * (2 * least) <= n * (2 * least + 1)) by (nonlinear_arith)
        requires
            2 * m * d <= 2 * n + d,
            least * d <= n,
            least > 0,
            d > 0,
    ;
    let (p, o) = (unit(k), unit(0));
    lemma_same_fraction(num, den, k);
    lemma_unit(k, 0);
    let (a, b) = (2 * least, 2 * least + 1);
    assert(m * den * p * a <= num * o * b) by (nonlinear_arith)
        requires
            m * d * a <= n * b,
            n * den * p == num * d * o,
            d > 0,
            den > 0,
            p > 0,
            a > 0,
            b > 0,
    {
        let c = den * p;
        assert((m * d * a) * c <= (n * b) * c) by (nonlinear_arith)
            requires
                m * d * a <= n * b,
                c == den * p,
                den > 0,
                p > 0,
        ;
        assert((m * d * a) * c == (m * den * p * a) * d) by (nonlinear_arith)
            requires
                c == den * p,
        ;
        assert((n * b) * c == (n * den * p) * b) by (nonlinear_arith)
            requires
                c == den * p,
        ;
        assert((num * d * o) * b == (num * o * b) * d) by (nonlinear_arith);
        let (x1, x2) = (m * den * p * a, num * o * b);
        assert(x1 <= x2) by (nonlinear_arith)
            requires
                x1 * d <= x2 * d,
                d > 0,
        ;
    }
}

/// A quotient is rounded down by less than one part in two times the least mantissa.
pub(crate) proof fn lemma_rounded_down(num: int, den: int, shift: int, precision: Precision, x: (int, int))
    requires
        num > 0,
        den > 0,
        is_rounding(num, den, shift, precision, x),
        -2000 <= shift <= 2000,
        -2000 <= x.1 <= 2000,
    ensures
        x.0 * den * unit(x.1 - shift) * (2 * precision.least()) >= num * unit(0) * (2 * precision.least() - 1),
{
    let least = precision.least();
    let k = x.1 - shift;
    let (n, d) = (raised(num, -k), raised(den, k));
    lemma_raised_step(num, -k);
    lemma_raised_step(den, k);
    vstd::arithmetic::div_mod::lemma_fundamental_div_mod(n, d);
    vstd::arithmetic::div_mod::lemma_mod_bound(n, d);
    let (q, r) = (n / d, n % d);
    let m = x.0;
    assert(2 * m * d >= 2 * n - d) by (nonlinear_arith)
        requires
            n == d * q + r,
            0 <= r < d,
            m == q + 1 || (m == q && 2 * r <= d),
    ;
    assert(m * d * (2 * least) >= n * (2 * least - 1)) by (nonlinear_arith)
        requires
            2 * m * d >= 2 * n - d,
            least * d <= n,
            least > 0,
            d > 0,
    ;
    let (p, o) = (unit(k), unit(0));
    lemma_same_fraction(num, den, k);
    lemma_unit(k, 0);
    let (a, b) = (2 * least, 2 * least - 1);
    let c = den * p;
    assert((m * d * a) * c >= (n * b) * c) by (nonlinear_arith)
        requires
            m * d * a >= n * b,
            c == den * p,
            den > 0,
            p > 0,
    ;
    assert((m * d * a) * c == (m * den * p * a) * d) by (nonlinear_arith)
        requires
            c == den * p,
    ;
    assert((n * b) * c == (n * den * p) * b) by (nonlinear_arith)
        requires
            c == den * p,
    ;
    assert((num * d * o) * b == (num * o * b) * d) by (nonlinear_arith);
    let (x1, x2) = (m * den * p * a, num * o * b);
    assert(x1 >= x2) by (nonlinear_arith)
        requires
            x1 * d >= x2 * d,
            d > 0,
    ;
}

/// A floating-point number in units.
pub open spec fn value(x: (int, int)) -> int {
    x.0 * unit(x.1)
}

/// The exponent of a rounding.
pub(crate) proof fn lemma_exponent_range(num: int, den: int, shift: int, precision: Precision, x: (int, int))
    requires
        0 < num < 0x100_0000_0000_0000_0000_0000_0000_0000,
        0 < den <= u64::MAX,
        is_rounding(num, den, shift, precision, x),
    ensures
        -200 <= x.1 - shift <= 200,
        x.0 > 0,
        x.0 <= 2 * precision.least(),
{
    let least = precision.least();
    let k = x.1 - shift;
    lemma2_to64_rest();
    lemma_pow2_adds(64, 56);
    lemma_raised_step(num, -k);
    lemma_raised_step(den, k);
    if k > 200 {
        lemma_pow2_strictly_increases(120, k as nat);
        lemma_raised(den, k);
        lemma_raised(num, k);
        let t = pow2(k as nat) as int;
        assert(least * (den * t) >= t) by (nonlinear_arith)
            requires
                least >= 1,
                den >= 1,
                t > 0,
        ;
    } else if k < -200 {
        lemma_pow2_strictly_increases(120, (-k) as nat);
        lemma_raised(num, -k);
        lemma_raised(den, -k);
        let t = pow2((-k) as nat) as int;
        assert(num * t >= t) by (nonlinear_arith)
            requires
                num >= 1,
                t > 0,
        ;
        assert(2 * least * den <= 2 * least * u64::MAX) by (nonlinear_arith)
            requires
                least >= 1,
                den <= u64::MAX,
        ;
    }
    let (n, d) = (raised(num, -k), raised(den, k));
    vstd::arithmetic::div_mod::lemma_fundamental_div_mod(n, d);
    vstd::arithmetic::div_mod::lemma_mod_bound(n, d);
    let q = n / d;
    assert(least <= q < 2 * least) by (nonlinear_arith)
        requires
            least * d <= n < 2 * least * d,
            n == d * q + n % d,
            0 <= n % d < d,
    ;
}

/// A quotient in units, up to its rounding.
pub(crate) proof fn lemma_quotient_value(a: (int, int), b: (int, int), precision: Precision)
    requires
        0 < a.0 <= u64::MAX,
        0 < b.0 <= u64::MAX,
        -1600 <= a.1 <= 1600,
        -400 <= b.1 <= 400,
        -1800 <= a.1 - b.1 <= 1800,
    ensures
        ({
            let (q, l) = (quotient(a, b, precision), 2 * precision.least());
            &&& value(a) * unit(0) * (l - 1) <= value(q) * value(b) * l
            &&& value(q) * value(b) * l <= value(a) * unit(0) * (l + 1)
            &&& 0 < q.0 <= l
            &&& a.1 - b.1 - 200 <= q.1 <= a.1 - b.1 + 200
        }),
{
    let q = quotient(a, b, precision);
    let l = 2 * precision.least();
    let shift = a.1 - b.1;
    rounding_exists(a.0, b.0, shift, precision);
    lemma_exponent_range(a.0, b.0, shift, precision, q);
    lemma_rounded_up(a.0, b.0, shift, precision, q);
    lemma_rounded_down(a.0, b.0, shift, precision, q);
    let k = q.1 - shift;
    let (p, o, ua, ub, uq, us) = (unit(k), unit(0), unit(a.1), unit(b.1), unit(q.1), unit(q.1 + b.1));
    lemma_unit(k, a.1);
    lemma_unit(q.1, b.1);
    assert(k + a.1 == q.1 + b.1);
    // q.0 * b.0 * p * l against a.0 * o * (l -+ 1), times ua.
    let (x, lo, hi) = (q.0 * b.0 * p * l, a.0 * o * (l - 1), a.0 * o * (l + 1));
    assert(lo * ua <= x * ua <= hi * ua) by (nonlinear_arith)
        requires
            lo <= x <= hi,
            ua > 0,
    ;
    assert(x * ua == (q.0 * uq) * (b.0 * ub) * l) by (nonlinear_arith)
        requires
            x == q.0 * b.0 * p * l,
            p * ua == uq * ub,
    ;
    assert(lo * ua == (a.0 * ua) * o * (l - 1)) by (nonlinear_arith)
        requires
            lo == a.0 * o * (l - 1),
    ;
    assert(hi * ua == (a.0 * ua) * o * (l + 1)) by (nonlinear_arith)
        requires
            hi == a.0 * o * (l + 1),
    ;
}

/// A product in units, up to its rounding.
pub(crate) proof fn lemma_product_value(a: (int, int), b: (int, int), precision: Precision)
    requires
        0 < a.0 <= 0x20_0000_0000_0000,
        0 < b.0 <= 0x20_0000_0000_0000,
        -500 <= a.1 <= 500,
        -900 <= b.1 <= 900,
    ensures
        ({
            let (p, l) = (product(a, b, precision), 2 * precision.least());
            &&& value(a) * value(b) * (l - 1) <= value(p) * unit(0) * l
            &&& value(p) * unit(0) * l <= value(a) * value(b) * (l + 1)
            &&& 0 < p.0 <= l
            &&& a.1 + b.1 - 200 <= p.1 <= a.1 + b.1 + 200
        }),
{
    let p = product(a, b, precision);
    let l = 2 * precision.least();
    let (num, shift) = (a.0 * b.0, a.1 + b.1);
    assert(0 < num <= 0x20_0000_0000_0000 * 0x20_0000_0000_0000) by (nonlinear_arith)
        requires
            0 < a.0 <= 0x20_0000_0000_0000,
            0 < b.0 <= 0x20_0000_0000_0000,
            num == a.0 * b.0,
    ;
    rounding_exists(num, 1, shift, precision);
    lemma_exponent_range(num, 1, shift, precision, p);
    lemma_rounded_up(num, 1, shift, precision, p);
    lemma_rounded_down(num, 1, shift, precision, p);
    let k = p.1 - shift;
    let (pk, o, ua, ub, up, us) = (unit(k), unit(0), unit(a.1), unit(b.1), unit(p.1), unit(shift));
    lemma_unit(k, shift);
    lemma_unit(a.1, b.1);
    let (x, lo, hi) = (p.0 * 1 * pk * l, num * o * (l - 1), num * o * (l + 1));
    assert(lo * us <= x * us <= hi * us) by (nonlinear_arith)
        requires
            lo <= x <= hi,
            us > 0,
    ;
    assert(x * us == (p.0 * up) * o * l) by (nonlinear_arith)
        requires
            x == p.0 * 1 * pk * l,
            up * o == pk * us,
    ;
    assert(lo * us == (a.0 * ua) * (b.0 * ub) * (l - 1)) by (nonlinear_arith)
        requires
            lo == num * o * (l - 1),
            num == a.0 * b.0,
            us * o == ua * ub,
    ;
    assert(hi * us == (a.0 * ua) * (b.0 * ub) * (l + 1)) by (nonlinear_arith)
        requires
            hi == num * o * (l + 1),
            num == a.0 * b.0,
            us * o == ua * ub,
    ;
}

/// The integer nearest to a number in units.
pub(crate) proof fn lemma_nearest_in_units(x: (int, int), n: int)
    requires
        x.0 >= 0,
        -4000 <= x.1,
    ensures
        2 * value(x) < (2 * n + 1) * unit(0) ==> nearest_of(x) <= n,
        2 * value(x) >= (2 * n - 1) * unit(0) ==> nearest_of(x) >= n,
{
    let o = unit(0);
    let (m, e) = x;
    if e >= 0 {
        lemma_unit_step(0, e);
        lemma_raised(m, e);
        lemma_raised(1, e);
        let t = pow2(e as nat) as int;
        let r = m * t;
        assert(m * (o * t) == r * o) by (nonlinear_arith)
            requires
                r == m * t,
        ;
        assert(nearest_of(x) == (2 * r + 1) / 2);
        assert(2 * (r * o) < (2 * n + 1) * o ==> 2 * r < 2 * n + 1) by (nonlinear_arith)
            requires
                o > 0,
        ;
        assert(2 * (r * o) >= (2 * n - 1) * o ==> 2 * r >= 2 * n - 1) by (nonlinear_arith)
            requires
                o > 0,
        ;
    } else {
        lemma_unit_step(e, -e);
        lemma_raised(m, -e);
        lemma_raised(1, -e);
        let (t, u) = (pow2((-e) as nat) as int, unit(e));
        assert(2 * (m * u) < (2 * n + 1) * (u * t) ==> 2 * m < (2 * n + 1) * t) by (nonlinear_arith)
            requires
                u > 0,
        ;
        assert(2 * (m * u) >= (2 * n - 1) * (u * t) ==> 2 * m >= (2 * n - 1) * t) by (nonlinear_arith)
            requires
                u > 0,
        ;
        let (a, d) = (2 * m + t, 2 * t);
        assert(nearest_of(x) == a / d);
        vstd::arithmetic::div_mod::lemma_fundamental_div_mod(a, d);
        vstd::arithmetic::div_mod::lemma_mod_bound(a, d);
        let (q, r) = (a / d, a % d);
        assert(2 * m < (2 * n + 1) * t ==> q <= n) by (nonlinear_arith)
            requires
                a == d * q + r,
                0 <= r < d,
                a == 2 * m + t,
                d == 2 * t,
                t > 0,
        ;
        assert(2 * m >= (2 * n - 1) * t ==> q >= n) by (nonlinear_arith)
            requires
                a == d * q + r,
                0 <= r < d,
                a == 2 * m + t,
                d == 2 * t,
                t > 0,
        ;
    }
}

/// An integer in units.
pub(crate) proof fn lemma_integer_value(n: int, precision: Precision)
    requires
        0 < n < precision.least(),
    ensures
        value(float_of(n, precision)) == n * unit(0),
        -100 <= float_of(n, precision).1 <= 0,
        0 < float_of(n, precision).0 <= 2 * precision.least(),
{
    let x = float_of(n, precision);
    rounding_exists(n, 1, 0, precision);
    lemma_exact(n, precision, x);
    lemma_integer_exponent(n, precision, x);
    lemma_exponent_range(n, 1, 0, precision, x);
    lemma_unit_step(x.1, -x.1);
    let (t, u) = (pow2((-x.1) as nat) as int, unit(x.1));
    assert((n * t) * u == n * (u * t)) by (nonlinear_arith);
}

/// The size of a rounded integer.
pub(crate) proof fn lemma_whole(n: int, precision: Precision)
    requires
        0 < n <= u64::MAX,
    ensures
        0 < float_of(n, precision).0 <= 2 * precision.least(),
        -100 <= float_of(n, precision).1 <= 100,
        value(float_of(n, precision)) * (2 * precision.least()) >= n * unit(0) * (2 * precision.least() - 1),
{
    let x = float_of(n, precision);
    rounding_exists(n, 1, 0, precision);
    lemma_exponent_range(n, 1, 0, precision, x);
    lemma_integer_exponent(n, precision, x);
    lemma_rounded_down(n, 1, 0, precision, x);
}

/// The quotient of an integer and one that is not larger is one, or above one.
pub(crate) proof fn lemma_quotient_of_larger(a: int, b: int)
    requires
        0 < b <= u32::MAX,
        b <= a <= u64::MAX,
    ensures
        ({
            let one = float_of(1, Precision::Double);
            let q = quotient(float_of(a, Precision::Double), float_of(b, Precision::Double), Precision::Double);
            q == one || is_less(one, q)
        }),
{
    let one = float_of(1, Precision::Double);
    let (x, y) = (float_of(a, Precision::Double), float_of(b, Precision::Double));
    let q = quotient(x, y, Precision::Double);
    if a < Precision::Double.least() {
        lemma_quotient_from_one(a, b);
        lemma_lesser_with_one(q);
    } else {
        let o = unit(0);
        let l = 2 * Precision::Double.least();
        lemma_whole(a, Precision::Double);
        lemma_integer_value(b, Precision::Double);
        lemma_integer_value(1, Precision::Double);
        lemma_quotient_value(x, y, Precision::Double);
        lemma_less_in_units(one, q);
        lemma_unit_step(0, 0);
        let (vx, vq) = (value(x), value(q));
        if vq <= o {
            // vq * (b * o) * l is then too small for a quotient by b.
            assert(vq * (b * o) * l <= o * o * l * u32::MAX) by (nonlinear_arith)
                requires
                    vq <= o,
                    0 < b <= u32::MAX,
                    o > 0,
                    l > 0,
            ;
            assert(vx * l >= o * 0xf_ffff_ffff * l) by (nonlinear_arith)
                requires
                    vx * l >= a * o * (l - 1),
                    a >= 0x10_0000_0000_0000,
                    o > 0,
                    l >= 2,
            ;
            assert(vx >= o * 0xf_ffff_ffff) by (nonlinear_arith)
                requires
                    vx * l >= o * 0xf_ffff_ffff * l,
                    l > 0,
            ;
            assert(vx * o * (l - 1) > o * o * l * u32::MAX) by (nonlinear_arith)
                requires
                    vx >= o * 0xf_ffff_ffff,
                    o > 0,
                    l >= 2,
            ;
        }
    }
}

/// A side that is scaled by no more than the quotient of a goal and itself, in units.
pub(crate) proof fn lemma_fitted_value(
    goal: int,
    side: (int, int),
    scale: (int, int),
    precision: Precision,
)
    requires
        0 < goal < precision.least(),
        0 < side.0 <= 0x20_0000_0000_0000,
        -200 <= side.1 <= 200,
        0 < scale.0 <= 0x20_0000_0000_0000,
        -900 <= scale.1 <= 900,
        !is_less(quotient(float_of(goal, precision), side, precision), scale),
    ensures
        ({
            let (p, l) = (product(side, scale, precision), 2 * precision.least());
            &&& value(p) * l * l <= goal * unit(0) * ((l + 1) * (l + 1))
            &&& scale == quotient(float_of(goal, precision), side, precision) ==> value(p) * l * l >= goal * unit(0) * ((
            l - 1) * (l - 1))
            &&& 0 < p.0 <= l
            &&& -1500 <= p.1 <= 1500
        }),
{
    let l = 2 * precision.least();
    let g = float_of(goal, precision);
    let fit = quotient(g, side, precision);
    let p = product(side, scale, precision);
    let o = unit(0);
    lemma_integer_value(goal, precision);
    lemma_quotient_value(g, side, precision);
    lemma_product_value(side, scale, precision);
    lemma_less_in_units(fit, scale);
    lemma_unit(0, 0);
    lemma_unit_step(side.1, 0);
    lemma_unit_step(scale.1, 0);
    let (vf, vs, vc, vp) = (value(fit), value(side), value(scale), value(p));
    assert(vs > 0 && vc > 0) by (nonlinear_arith)
        requires
            vs == side.0 * unit(side.1),
            vc == scale.0 * unit(scale.1),
            side.0 > 0,
            scale.0 > 0,
            unit(side.1) > 0,
            unit(scale.1) > 0,
    ;
    // vf * vs * l lies between goal * o * o * (l - 1) and goal * o * o * (l + 1).
    let goo = goal * o * o;
    let (f, c) = (vf * vs, vc * vs);
    assert(c <= f) by (nonlinear_arith)
        requires
            vc <= vf,
            vs > 0,
            f == vf * vs,
            c == vc * vs,
    ;
    assert(vs * vc == c) by (nonlinear_arith)
        requires
            c == vc * vs,
    ;
    let (x, y) = (vp * l * l, goal * o);
    assert(x * o <= y * ((l + 1) * (l + 1)) * o) by (nonlinear_arith)
        requires
            vp * o * l <= c * (l + 1),
            c <= f,
            f * l <= goo * (l + 1),
            goo == y * o,
            x == vp * l * l,
            l > 0,
    {
        assert((vp * o * l) * l <= (c * (l + 1)) * l) by (nonlinear_arith)
            requires
                vp * o * l <= c * (l + 1),
                l > 0,
        ;
        assert((c * (l + 1)) * l <= (f * l) * (l + 1)) by (nonlinear_arith)
            requires
                c <= f,
                l > 0,
        ;
        assert((f * l) * (l + 1) <= (goo * (l + 1)) * (l + 1)) by (nonlinear_arith)
            requires
                f * l <= goo * (l + 1),
                l > 0,
        ;
        assert((goo * (l + 1)) * (l + 1) == y * ((l + 1) * (l + 1)) * o) by (nonlinear_arith)
            requires
                goo == y * o,
        ;
        assert((vp * o * l) * l == x * o) by (nonlinear_arith)
            requires
                x == vp * l * l,
        ;
    }
    let top = y * ((l + 1) * (l + 1));
    assert(x <= top) by (nonlinear_arith)
        requires
            x * o <= top * o,
            o > 0,
    ;
    if scale == fit {
        let low = y * ((l - 1) * (l - 1));
        assert((vp * o * l) * l >= (c * (l - 1)) * l) by (nonlinear_arith)
            requires
                vp * o * l >= c * (l - 1),
                l > 0,
        ;
        assert((c * (l - 1)) * l == (f * l) * (l - 1)) by (nonlinear_arith)
            requires
                c == f,
        ;
        assert((f * l) * (l - 1) >= (goo * (l - 1)) * (l - 1)) by (nonlinear_arith)
            requires
                f * l >= goo * (l - 1),
                l > 1,
        ;
        assert((goo * (l - 1)) * (l - 1) == low * o) by (nonlinear_arith)
            requires
                goo == y * o,
                low == y * ((l - 1) * (l - 1)),
        ;
        assert((vp * o * l) * l == x * o) by (nonlinear_arith)
            requires
                x == vp * l * l,
        ;
        assert(x >= low) by (nonlinear_arith)
            requires
                x * o >= low * o,
                o > 0,
        ;
    }
}

/// A side that is scaled by no more than the quotient of a goal and itself comes to no more
/// than the goal, and to the goal if it is scaled by just that.
pub(crate) proof fn lemma_fitted_side(goal: int, side: (int, int), scale: (int, int), precision: Precision)
    requires
        0 < goal,
        4 * goal < precision.least(),
        0 < side.0 <= 0x20_0000_0000_0000,
        -200 <= side.1 <= 200,
        0 < scale.0 <= 0x20_0000_0000_0000,
        -900 <= scale.1 <= 900,
        !is_less(quotient(float_of(goal, precision), side, precision), scale),
    ensures
        0 <= nearest_of(product(side, scale, precision)) <= goal,
        scale == quotient(float_of(goal, precision), side, precision) ==> nearest_of(
            product(side, scale, precision),
        ) == goal,
{
    let l = 2 * precision.least();
    let p = product(side, scale, precision);
    let o = unit(0);
    lemma_fitted_value(goal, side, scale, precision);
    lemma_unit_step(0, 0);
    let v = value(p);
    let y = goal * o;
    assert(2 * v < (2 * goal + 1) * o) by (nonlinear_arith)
        requires
            v * l * l <= y * ((l + 1) * (l + 1)),
            y == goal * o,
            8 * goal < l,
            l >= 8,
            goal > 0,
            o > 0,
    {
        assert(2 * goal * ((l + 1) * (l + 1)) < (2 * goal + 1) * (l * l)) by (nonlinear_arith)
            requires
                8 * goal < l,
                l >= 8,
                goal > 0,
        ;
        let (a, b, ll) = (2 * goal * ((l + 1) * (l + 1)), (2 * goal + 1) * (l * l), l * l);
        assert(2 * (v * l * l) <= a * o) by (nonlinear_arith)
            requires
                v * l * l <= (goal * o) * ((l + 1) * (l + 1)),
                a == 2 * goal * ((l + 1) * (l + 1)),
        ;
        assert(a * o < b * o) by (nonlinear_arith)
            requires
                a < b,
                o > 0,
        ;
        assert(2 * (v * l * l) == (2 * v) * ll && b * o == ((2 * goal + 1) * o) * ll) by (nonlinear_arith)
            requires
                ll == l * l,
                b == (2 * goal + 1) * (l * l),
        ;
        let (c, d) = (2 * v, (2 * goal + 1) * o);
        assert(c < d) by (nonlinear_arith)
            requires
                c * ll < d * ll,
                ll > 0,
        ;
    }
    lemma_nearest_in_units(p, goal);
    lemma_nearest_in_units(p, 0);
    lemma_unit_step(p.1, 0);
    assert(v >= 0) by (nonlinear_arith)
        requires
            v == p.0 * unit(p.1),
            p.0 > 0,
            unit(p.1) > 0,
    ;
    assert((2 * 0 - 1) * o == -o) by (nonlinear_arith);
    if scale == quotient(float_of(goal, precision), side, precision) {
        assert(2 * goal * ((l - 1) * (l - 1)) >= (2 * goal - 1) * (l * l)) by (nonlinear_arith)
            requires
                8 * goal < l,
                goal > 0,
        ;
        let (a, b, ll) = (2 * goal * ((l - 1) * (l - 1)), (2 * goal - 1) * (l * l), l * l);
        assert(2 * (v * l * l) >= a * o) by (nonlinear_arith)
            requires
                v * l * l >= (goal * o) * ((l - 1) * (l - 1)),
                a == 2 * goal * ((l - 1) * (l - 1)),
        ;
        assert(a * o >= b * o) by (nonlinear_arith)
            requires
                a >= b,
                o > 0,
        ;
        assert(2 * (v * l * l) == (2 * v) * ll && b * o == ((2 * goal - 1) * o) * ll) by (nonlinear_arith)
            requires
                ll == l * l,
                b == (2 * goal - 1) * (l * l),
        ;
        assert(ll > 0) by (nonlinear_arith)
            requires
                ll == l * l,
                l > 0,
        ;
        let (c, d) = (2 * v, (2 * goal - 1) * o);
        assert(c >= d) by (nonlinear_arith)
            requires
                c * ll >= d * ll,
                ll > 0,
        ;
    }
}

/// An integer and one that has all its digits compare as their roundings do.
pub(crate) proof fn lemma_integers_compare(a: int, b: int, precision: Precision)
    requires
        0 < a,
        2 * a < precision.least(),
        0 < b <= u64::MAX,
    ensures
        is_less(float_of(a, precision), float_of(b, precision)) <==> a < b,
{
    let (x, y) = (float_of(a, precision), float_of(b, precision));
    let (o, l) = (unit(0), 2 * precision.least());
    lemma_integer_value(a, precision);
    lemma_whole(b, precision);
    lemma_less_in_units(x, y);
    lemma_unit_step(0, 0);
    if b < precision.least() {
        lemma_integer_value(b, precision);
        assert(a * o < b * o <==> a < b) by (nonlinear_arith)
            requires
                o > 0,
        ;
    } else {
        let v = value(y);
        assert(v > a * o) by (nonlinear_arith)
            requires
                v * l >= b * o * (l - 1),
                b >= 2 * a + 1,
                a > 0,
                o > 0,
                l >= 2,
        {
            assert(b * o * (l - 1) >= (2 * a + 1) * o * (l - 1)) by (nonlinear_arith)
                requires
                    b >= 2 * a + 1,
                    o > 0,
                    l >= 2,
            ;
            assert((2 * a + 1) * o * (l - 1) > (a * o) * l) by (nonlinear_arith)
                requires
                    a > 0,
                    o > 0,
                    l >= 2,
            ;
            let w = a * o;
            assert(v > w) by (nonlinear_arith)
                requires
                    v * l > w * l,
                    l > 0,
            ;
        }
    }
}

/// An integer times one, in units.
pub(crate) proof fn lemma_scaled_by_one(n: int, precision: Precision)
    requires
        0 < n < precision.least(),
    ensures
        ({
            let (p, l) = (product(float_of(n, precision), float_of(1, precision), precision), 2 * precision.least());
            &&& value(p) * l * l <= n * unit(0) * ((l + 1) * (l + 1))
            &&& value(p) * l * l >= n * unit(0) * ((l - 1) * (l - 1))
            &&& 0 < p.0 <= l
            &&& -1000 <= p.1 <= 1000
        }),
{
    let (x, one) = (float_of(n, precision), float_of(1, precision));
    let (o, l) = (unit(0), 2 * precision.least());
    lemma_integer_value(n, precision);
    lemma_integer_value(1, precision);
    lemma_product_value(x, one, precision);
    lemma_unit_step(0, 0);
    let v = value(product(x, one, precision));
    let y = n * o;
    assert(v * l <= y * (l + 1) && v * l >= y * (l - 1)) by (nonlinear_arith)
        requires
            y * (1 * o) * (l - 1) <= v * o * l,
            v * o * l <= y * (1 * o) * (l + 1),
            o > 0,
    {
        let (a, b, c) = (v * l, y * (l + 1), y * (l - 1));
        assert(a * o == v * o * l && b * o == y * (1 * o) * (l + 1) && c * o == y * (1 * o) * (l - 1)) by (
        nonlinear_arith)
            requires
                a == v * l,
                b == y * (l + 1),
                c == y * (l - 1),
        ;
        assert(a <= b && a >= c) by (nonlinear_arith)
            requires
                a * o <= b * o,
                a * o >= c * o,
                o > 0,
        ;
    }
    assert(y > 0) by (nonlinear_arith)
        requires
            y == n * o,
            n > 0,
            o > 0,
    ;
    assert(v * l * l <= y * ((l + 1) * (l + 1)) && v * l * l >= y * ((l - 1) * (l - 1))) by (nonlinear_arith)
        requires
            v * l <= y * (l + 1),
            v * l >= y * (l - 1),
            y > 0,
            l > 1,
    {
        assert((v * l) * l <= (y * (l + 1)) * l && (v * l) * l >= (y * (l - 1)) * l) by (nonlinear_arith)
            requires
                v * l <= y * (l + 1),
                v * l >= y * (l - 1),
                l > 0,
        ;
        assert((y * (l + 1)) * l <= y * ((l + 1) * (l + 1))) by (nonlinear_arith)
            requires
                y > 0,
                l > 1,
        ;
        assert((y * (l - 1)) * l >= y * ((l - 1) * (l - 1))) by (nonlinear_arith)
            requires
                y > 0,
                l > 1,
        ;
    }
}

/// The number of steps of 32 that is nearest to what comes to a goal, up to two roundings.
pub(crate) proof fn lemma_nearest_steps(p: (int, int), goal: int)
    requires
        0 < goal <= 0x10_0000,
        0 < p.0 <= u64::MAX,
        -1600 <= p.1 <= 1600,
        ({
            let l = 2 * Precision::Single.least();
            &&& value(p) * l * l <= goal * unit(0) * ((l + 1) * (l + 1))
            &&& value(p) * l * l >= goal * unit(0) * ((l - 1) * (l - 1))
        }),
    ensures
        ({
            let n = nearest_of(quotient(p, float_of(32, Precision::Single), Precision::Single));
            n >= 0 && -16 <= 32 * n - goal <= 16
        }),
{
    let l = 2 * Precision::Single.least();
    let o = unit(0);
    let t = float_of(32, Precision::Single);
    let r = quotient(p, t, Precision::Single);
    lemma_integer_value(32, Precision::Single);
    lemma_quotient_value(p, t, Precision::Single);
    lemma_unit_step(0, 0);
    let (vp, vr, y) = (value(p), value(r), goal * o);
    assert(32 * vr * l <= vp * (l + 1) && 32 * vr * l >= vp * (l - 1)) by (nonlinear_arith)
        requires
            vr * (32 * o) * l <= vp * o * (l + 1),
            vr * (32 * o) * l >= vp * o * (l - 1),
            o > 0,
    {
        let (a, b, c) = (32 * vr * l, vp * (l + 1), vp * (l - 1));
        assert(a * o == vr * (32 * o) * l && b * o == vp * o * (l + 1) && c * o == vp * o * (l - 1)) by (nonlinear_arith)
            requires
                a == 32 * vr * l,
                b == vp * (l + 1),
                c == vp * (l - 1),
        ;
        assert(a <= b && a >= c) by (nonlinear_arith)
            requires
                a * o <= b * o,
                a * o >= c * o,
                o > 0,
        ;
    }
    let (top, low) = ((l + 1) * (l + 1), (l - 1) * (l - 1));
    let (a, ll) = (32 * vr, l * l);
    assert(a * l * ll <= y * top * (l + 1)) by (nonlinear_arith)
        requires
            a * l <= vp * (l + 1),
            vp * l * l <= y * top,
            ll == l * l,
            l > 0,
    {
        assert((a * l) * ll <= (vp * (l + 1)) * ll) by (nonlinear_arith)
            requires
                a * l <= vp * (l + 1),
                ll >= 0,
        ;
        assert((vp * (l + 1)) * ll == (vp * l * l) * (l + 1)) by (nonlinear_arith)
            requires
                ll == l * l,
        ;
        assert((vp * l * l) * (l + 1) <= (y * top) * (l + 1)) by (nonlinear_arith)
            requires
                vp * l * l <= y * top,
                l > 0,
        ;
    }
    assert(a * l * ll >= y * low * (l - 1)) by (nonlinear_arith)
        requires
            a * l >= vp * (l - 1),
            vp * l * l >= y * low,
            ll == l * l,
            l > 1,
    {
        assert((a * l) * ll >= (vp * (l - 1)) * ll) by (nonlinear_arith)
            requires
                a * l >= vp * (l - 1),
                ll >= 0,
        ;
        assert((vp * (l - 1)) * ll == (vp * l * l) * (l - 1)) by (nonlinear_arith)
            requires
                ll == l * l,
        ;
        assert((vp * l * l) * (l - 1) >= (y * low) * (l - 1)) by (nonlinear_arith)
            requires
                vp * l * l >= y * low,
                l > 1,
        ;
    }
    // l is 2^24 and the goal at most 2^20: the roundings change it by less than a quarter.
    let (cube, up, down) = (0x1000000000000000000int, 0x1000003000003000001int, 0xfffffd000002ffffffint);
    assert(l * ll == cube && top * (l + 1) == up && low * (l - 1) == down) by (nonlinear_arith)
        requires
            l == 0x100_0000,
            ll == l * l,
            top == (l + 1) * (l + 1),
            low == (l - 1) * (l - 1),
            cube == 0x1000000000000000000int,
            up == 0x1000003000003000001int,
            down == 0xfffffd000002ffffffint,
    ;
    assert(a * cube == a * l * ll && y * up == y * top * (l + 1) && y * down == y * low * (l - 1)) by (nonlinear_arith)
        requires
            l * ll == cube,
            top * (l + 1) == up,
            low * (l - 1) == down,
    ;
    assert(4 * (y * up) <= (4 * y + o) * cube && 4 * (y * down) >= (4 * y - o) * cube) by (nonlinear_arith)
        requires
            y == goal * o,
            0 < goal <= 0x10_0000,
            o > 0,
            cube == 0x1000000000000000000int,
            up == 0x1000003000003000001int,
            down == 0xfffffd000002ffffffint,
    {
        assert(y <= 0x10_0000 * o) by (nonlinear_arith)
            requires
                y == goal * o,
                goal <= 0x10_0000,
                o > 0,
        ;
    }
    assert(4 * a <= 4 * y + o && 4 * a >= 4 * y - o) by (nonlinear_arith)
        requires
            4 * (a * cube) <= (4 * y + o) * cube,
            4 * (a * cube) >= (4 * y - o) * cube,
            cube > 0,
    ;
    let (high, less) = ((goal + 16) / 32, (goal + 15) / 32);
    lemma_nearest_in_units(r, high);
    lemma_nearest_in_units(r, less);
    assert(64 * ((2 * high + 1) * o) >= 4 * y + 4 * o) by (nonlinear_arith)
        requires
            y == goal * o,
            32 * high >= goal - 15,
            o > 0,
    ;
    assert(64 * ((2 * less - 1) * o) <= 4 * y - 4 * o) by (nonlinear_arith)
        requires
            y == goal * o,
            32 * less <= goal + 15,
            o > 0,
    ;
}

/// A mantissa has all its digits.
pub(crate) proof fn lemma_mantissa(num: int, den: int, shift: int, precision: Precision, x: (int, int))
    requires
        num > 0,
        den > 0,
        is_rounding(num, den, shift, precision, x),
    ensures
        precision.least() <= x.0 <= 2 * precision.least(),
{
    let least = precision.least();
    let (n, d) = (raised(num, -(x.1 - shift)), raised(den, x.1 - shift));
    lemma_raised_step(den, x.1 - shift);
    vstd::arithmetic::div_mod::lemma_fundamental_div_mod(n, d);
    let (q, r) = (n / d, n % d);
    assert(least <= q < 2 * least) by (nonlinear_arith)
        requires
            n == d * q + r,
            0 <= r < d,
            least * d <= n < 2 * least * d,
    ;
}

/// The exponent of an integer.
pub(crate) proof fn lemma_integer_exponent(n: int, precision: Precision, x: (int, int))
    requires
        0 < n <= u64::MAX,
        is_rounding(n, 1, 0, precision, x),
    ensures
        -100 <= x.1 <= 100,
{
    let k = x.1;
    if k > 100 {
        lemma_raised(1, k);
        lemma_raised(n, k);
        lemma2_to64_rest();
        lemma_pow2_strictly_increases(64, k as nat);
    } else if k < -100 {
        lemma_raised(n, -k);
        lemma_raised(1, -k);
        lemma2_to64_rest();
        lemma_pow2_strictly_increases(64, (-k) as nat);
        let t = pow2((-k) as nat) as int;
        assert(n * t >= t) by (nonlinear_arith)
            requires
                n >= 1,
                t > 0,
        ;
    }
}

/// The smaller of two numbers is neither above the first nor above the second.
pub(crate) proof fn lemma_lesser(a: (int, int), b: (int, int))
    requires
        -4000 <= a.1,
        -4000 <= b.1,
    ensures
        !is_less(a, lesser(a, b)),
        !is_less(b, lesser(a, b)),
{
    lemma_less_in_units(a, b);
    lemma_less_in_units(b, a);
    lemma_less_in_units(a, a);
    lemma_less_in_units(b, b);
}

/// A number that is not above one that is not above a third is not above the third.
pub(crate) proof fn lemma_ordered(a: (int, int), b: (int, int), c: (int, int))
    requires
        -4000 <= a.1,
        -4000 <= b.1,
        -4000 <= c.1,
        !is_less(b, a),
        !is_less(c, b),
    ensures
        !is_less(c, a),
{
    lemma_less_in_units(b, a);
    lemma_less_in_units(c, b);
    lemma_less_in_units(c, a);
}

/// Zero, or a number from 2^-45 on that is not above `c`.
pub open spec fn is_small(x: (int, int), c: int) -> bool {
    x == (0int, 0int) || {
        &&& x.0 >= 0x10_0000_0000_0000
        &&& -97 <= x.1 <= -41
        &&& x.0 * unit(x.1) <= c * unit(0)
    }
}

proof fn lemma_fraction_in_units(n: int, d: int, s: int, c: int)
    requires
        s >= -4000,
        n * unit(s) <= c * (d * unit(0)),
    ensures
        raised(n, s) <= c * raised(d, -s),
{
    if s >= 0 {
        lemma_unit_step(0, s);
        lemma_raised(n, s);
        lemma_raised(d, s);
        let (t, u) = (pow2(s as nat) as int, unit(0));
        assert(n * t <= c * d) by (nonlinear_arith)
            requires
                n * (u * t) <= c * (d * u),
                u > 0,
        ;
    } else {
        lemma_unit_step(s, -s);
        lemma_raised(n, -s);
        lemma_raised(d, -s);
        let (t, u) = (pow2((-s) as nat) as int, unit(s));
        assert(n <= c * (d * t)) by (nonlinear_arith)
            requires
                n * u <= c * (d * (u * t)),
                u > 0,
        ;
    }
}

proof fn lemma_one_in_units(n: int, d: int, s: int)
    requires
        s >= -4000,
        d * unit(0) <= n * unit(s),
    ensures
        raised(d, -s) <= raised(n, s),
{
    if s >= 0 {
        lemma_unit_step(0, s);
        lemma_raised(n, s);
        lemma_raised(d, s);
        let (t, u) = (pow2(s as nat) as int, unit(0));
        assert(d <= n * t) by (nonlinear_arith)
            requires
                d * u <= n * (u * t),
                u > 0,
        ;
    } else {
        lemma_unit_step(s, -s);
        lemma_raised(n, -s);
        lemma_raised(d, -s);
        let (t, u) = (pow2((-s) as nat) as int, unit(s));
        assert(d * t <= n) by (nonlinear_arith)
            requires
                d * (u * t) <= n * u,
                u > 0,
        ;
    }
}

/// The rounding of a number from 2^-45 to `c`.
proof fn lemma_small_rounding(num: int, den: int, shift: int, x: (int, int), c: int)
    requires
        num > 0,
        den > 0,
        -1000 <= shift <= 1000,
        is_rounding(num, den, shift, Precision::Double, x),
        0 <= c <= 1024,
        num * unit(shift) <= c * (den * unit(0)),
        den * unit(-45) <= num * unit(shift),
    ensures
        is_small(x, c),
{
    lemma2_to64();
    lemma2_to64_rest();
    let o = unit(0);
    let u = unit(shift);
    // The lower bound.
    lemma_unit_step(shift, 45);
    lemma_unit_step(-45, 45);
    let low = (x.0, x.1 + 45);
    assert(low.1 - (shift + 45) == x.1 - shift);
    assert(is_rounding(num, den, shift + 45, Precision::Double, low));
    let (u45, m45, t45) = (unit(shift + 45), unit(-45), pow2(45) as int);
    assert(den * o <= num * u45) by (nonlinear_arith)
        requires
            den * m45 <= num * u,
            o == m45 * t45,
            u45 == u * t45,
            t45 > 0,
    ;
    lemma_one_in_units(num, den, shift + 45);
    lemma_at_least_one(num, den, shift + 45, low);
    // The upper bound.
    lemma_unit_step(shift, 41);
    let high = (x.0, x.1 + 41);
    assert(high.1 - (shift + 41) == x.1 - shift);
    assert(is_rounding(num, den, shift + 41, Precision::Double, high));
    let (u41, t41) = (unit(shift + 41), pow2(41) as int);
    let bound = c * t41;
    assert(bound < Precision::Double.least());
    assert(num * u41 <= bound * (den * o)) by (nonlinear_arith)
        requires
            num * u <= c * (den * o),
            u41 == u * t41,
            bound == c * t41,
            t41 > 0,
    ;
    assert(bound >= 0) by (nonlinear_arith)
        requires
            bound == c * t41,
            c >= 0,
            t41 > 0,
    ;
    lemma_fraction_in_units(num, den, shift + 41, bound);
    lemma_small_exponent(num, den, shift + 41, Precision::Double, high, bound);
    lemma_small_mantissa(num, den, shift + 41, Precision::Double, high, bound);
    let j = -high.1;
    lemma_raised(1, j);
    lemma_unit_step(high.1, j);
    lemma_unit_step(x.1, 41);
    let (m, f, ux) = (x.0, pow2(j as nat) as int, unit(x.1));
    assert(m * ux <= c * o) by (nonlinear_arith)
        requires
            m <= bound * f,
            bound == c * t41,
            o == (ux * t41) * f,
            ux > 0,
            t41 > 0,
            f > 0,
    {
        assert(m * ux <= (c * t41 * f) * ux) by (nonlinear_arith)
            requires
                m <= c * t41 * f,
                ux > 0,
        ;
        assert((c * t41 * f) * ux == c * ((ux * t41) * f)) by (nonlinear_arith);
    }
}

/// An aligned sum in units.
proof fn lemma_aligned(a: (int, int), b: (int, int))
    requires
        a.1 >= -2000,
        b.1 >= -2000,
    ensures
        raised(a.0, a.1 - b.1) * unit(least_of(a.1, b.1)) == a.0 * unit(a.1),
        raised(b.0, b.1 - a.1) * unit(least_of(a.1, b.1)) == b.0 * unit(b.1),
{
    let k = a.1 - b.1;
    if k >= 0 {
        lemma_unit_step(b.1, k);
        lemma_raised(a.0, k);
        lemma_raised(b.0, k);
        let (t, u) = (pow2(k as nat) as int, unit(b.1));
        assert((a.0 * t) * u == a.0 * (u * t)) by (nonlinear_arith);
    } else {
        lemma_unit_step(a.1, -k);
        lemma_raised(a.0, -k);
        lemma_raised(b.0, -k);
        let (t, u) = (pow2((-k) as nat) as int, unit(a.1));
        assert((b.0 * t) * u == b.0 * (u * t)) by (nonlinear_arith);
    }
}

/// A number from 2^-45 on, in units.
proof fn lemma_small_in_units(x: (int, int), c: int)
    requires
        is_small(x, c),
        x.0 != 0,
    ensures
        x.0 * unit(x.1) >= unit(-45),
{
    lemma2_to64_rest();
    lemma_unit_step(-97, x.1 + 97);
    lemma_unit_step(-97, 52);
    let (u, t, v) = (unit(-97), pow2((x.1 + 97) as nat) as int, unit(x.1));
    let m = x.0;
    assert(m * v >= u * 0x10_0000_0000_0000) by (nonlinear_arith)
        requires
            v == u * t,
            t >= 1,
            u > 0,
            m >= 0x10_0000_0000_0000,
    ;
}

/// The sum of two small numbers.
pub(crate) proof fn lemma_small_sum(a: (int, int), b: (int, int), c: int, d: int, x: (int, int))
    requires
        is_small(a, c),
        is_small(b, d),
        0 <= c,
        0 <= d,
        c + d <= 1024,
        is_rounding(
            raised(a.0, a.1 - b.1) + raised(b.0, b.1 - a.1),
            1,
            least_of(a.1, b.1),
            Precision::Double,
            x,
        ),
    ensures
        is_small(x, c + d),
{
    let (p, q) = (raised(a.0, a.1 - b.1), raised(b.0, b.1 - a.1));
    let shift = least_of(a.1, b.1);
    let u = unit(shift);
    let o = unit(0);
    lemma_aligned(a, b);
    lemma_unit_step(shift, 0);
    lemma_unit_step(0, 0);
    lemma_unit_step(-45, 0);
    assert((p + q) * u == p * u + q * u) by (nonlinear_arith);
    assert((c + d) * o == c * o + d * o) by (nonlinear_arith);
    assert(c * o >= 0 && d * o >= 0) by (nonlinear_arith)
        requires
            c >= 0,
            d >= 0,
            o > 0,
    ;
    assert(a.0 == 0 ==> a.0 * unit(a.1) == 0);
    assert(b.0 == 0 ==> b.0 * unit(b.1) == 0);
    if a.0 != 0 {
        lemma_small_in_units(a, c);
    }
    if b.0 != 0 {
        lemma_small_in_units(b, d);
    }
    if a.0 == 0 && b.0 == 0 {
        assert(p == 0 && q == 0);
    } else {
        assert(p + q > 0) by (nonlinear_arith)
            requires
                (p + q) * u > 0,
                u > 0,
        ;
        assert(1 * o == o);
        assert((c + d) * (1 * o) == (c + d) * o);
        lemma_small_rounding(p + q, 1, shift, x, c + d);
    }
}

/// The mean of bytes is a small number.
pub(crate) proof fn lemma_small_mean(s: int, n: int, a: (int, int), b: (int, int), x: (int, int))
    requires
        0 <= s <= 255 * n,
        0 < n < 0x2000_0000_0000,
        is_rounding(s, 1, 0, Precision::Double, a),
        is_rounding(n, 1, 0, Precision::Double, b),
        -200 <= a.1 <= 200,
        -200 <= b.1 <= 200,
        is_rounding(a.0, b.0, a.1 - b.1, Precision::Double, x),
    ensures
        is_small(x, 255),
{
    if s > 0 {
        lemma2_to64_rest();
        lemma_exact(n, Precision::Double, b);
        lemma_wide_exact(s, a);
        let shift = a.1 - b.1;
        lemma_unit(shift, b.1);
        lemma_unit_step(b.1, -b.1);
        lemma_unit_step(-45, 45);
        let (o, ua, ub, us, low) = (unit(0), unit(a.1), unit(b.1), unit(shift), unit(-45));
        let vb = pow2((-b.1) as nat) as int;
        assert(b.0 * ub == n * o) by (nonlinear_arith)
            requires
                b.0 == n * vb,
                o == ub * vb,
        ;
        assert(a.0 > 0 && b.0 > 0) by (nonlinear_arith)
            requires
                a.0 * ua == s * o,
                b.0 * ub == n * o,
                s > 0,
                n > 0,
                o > 0,
                ua > 0,
                ub > 0,
        ;
        assert(a.0 * us <= 255 * (b.0 * o) && b.0 * low <= a.0 * us) by (nonlinear_arith)
            requires
                us * ub == ua * o,
                a.0 * ua == s * o,
                b.0 * ub == n * o,
                s <= 255 * n,
                s >= 1,
                n <= 0x2000_0000_0000,
                o == low * 0x2000_0000_0000,
                low > 0,
                o > 0,
                ub > 0,
                n > 0,
        {
            assert((a.0 * us) * ub == (s * o) * o) by (nonlinear_arith)
                requires
                    us * ub == ua * o,
                    a.0 * ua == s * o,
            ;
            assert((255 * (b.0 * o)) * ub == (255 * n * o) * o) by (nonlinear_arith)
                requires
                    b.0 * ub == n * o,
            ;
            assert((b.0 * low) * ub == (n * low) * o) by (nonlinear_arith)
                requires
                    b.0 * ub == n * o,
            ;
            assert(n * low <= s * o) by (nonlinear_arith)
                requires
                    n <= 0x2000_0000_0000,
                    o == low * 0x2000_0000_0000,
                    s >= 1,
                    low > 0,
            ;
            let (x1, x2, x3) = (a.0 * us, 255 * (b.0 * o), b.0 * low);
            assert(x1 * ub <= x2 * ub && x3 * ub <= x1 * ub) by (nonlinear_arith)
                requires
                    x1 * ub == (s * o) * o,
                    x2 * ub == (255 * n * o) * o,
                    x3 * ub == (n * low) * o,
                    s <= 255 * n,
                    n * low <= s * o,
                    o > 0,
            ;
            assert(x1 <= x2 && x3 <= x1) by (nonlinear_arith)
                requires
                    x1 * ub <= x2 * ub,
                    x3 * ub <= x1 * ub,
                    ub > 0,
            ;
        }
        lemma_small_rounding(a.0, b.0, shift, x, 255);
    }
}

/// An integer below 2^53 is a floating-point number, in units.
proof fn lemma_wide_exact(s: int, a: (int, int))
    requires
        0 < s < 0x20_0000_0000_0000,
        is_rounding(s, 1, 0, Precision::Double, a),
        -200 <= a.1 <= 200,
    ensures
        a.0 * unit(a.1) == s * unit(0),
{
    lemma_unit_step(0, 0);
    if a.1 > 0 {
        lemma_raised(s, a.1);
        lemma_raised(1, a.1);
        lemma_pow2_unfold(a.1 as nat);
        lemma_pow2_pos((a.1 - 1) as nat);
    } else {
        lemma_raised(s, -a.1);
        lemma_raised(1, -a.1);
        let top = raised(s, -a.1);
        assert(top / 1 == top && top % 1 == 0);
        lemma_unit_step(a.1, -a.1);
        let (t, u) = (pow2((-a.1) as nat) as int, unit(a.1));
        assert((s * t) * u == s * (u * t)) by (nonlinear_arith);
    }
}

/// A small integer is a small number.
pub(crate) proof fn lemma_small_integer(n: int, x: (int, int))
    requires
        0 < n <= 1024,
        is_rounding(n, 1, 0, Precision::Double, x),
    ensures
        is_small(x, n),
{
    lemma_unit_step(-45, 45);
    lemma2_to64_rest();
    let (o, low) = (unit(0), unit(-45));
    assert(1 * o == o);
    assert(n * (1 * o) == n * o);
    assert(1 * low <= n * o) by (nonlinear_arith)
        requires
            o == low * 0x2000_0000_0000,
            low > 0,
            n >= 1,
    ;
    lemma_small_rounding(n, 1, 0, x, n);
}

// ---------------------------------------------------------------------------
// Proportions
// ---------------------------------------------------------------------------

/// How often the unit of the last digit fits into a single-precision number at least.
pub const SINGLE_PARTS: u32 = 0x100_0000;

/// A rounded integer in units, up to its rounding.
proof fn lemma_rounded_integer(n: int)
    requires
        0 < n <= u64::MAX,
    ensures
        ({
            let x = float_of(n, Precision::Single);
            &&& value(x) * SINGLE_PARTS <= n * unit(0) * (SINGLE_PARTS + 1)
            &&& value(x) * SINGLE_PARTS >= n * unit(0) * (SINGLE_PARTS - 1)
            &&& value(x) > 0
            &&& 0 < x.0 <= SINGLE_PARTS
            &&& -100 <= x.1 <= 100
        }),
{
    let x = float_of(n, Precision::Single);
    rounding_exists(n, 1, 0, Precision::Single);
    lemma_whole(n, Precision::Single);
    lemma_rounded_up(n, 1, 0, Precision::Single, x);
    lemma_rounded_down(n, 1, 0, Precision::Single, x);
    lemma_positive_value(x);
    assert(x.0 * 1 * unit(x.1 - 0) == value(x));
}

/// A positive number in units.
pub(crate) proof fn lemma_positive_value(x: (int, int))
    requires
        x.0 > 0,
        x.1 >= -4000,
    ensures
        value(x) > 0,
{
    lemma_unit_step(x.1, 0);
    let u = unit(x.1);
    assert(x.0 * u > 0) by (nonlinear_arith)
        requires
            x.0 > 0,
            u > 0,
    ;
}

/// Dividing both sides of an inequality by what they have in common.
pub(crate) proof fn lemma_cancel(x: int, y: int, c: int)
    by (nonlinear_arith)
    requires
        c > 0,
        x * c <= y * c,
    ensures
        x <= y,
{
}

/// Five roundings make a product and a quotient larger by less than six parts.
proof fn lemma_five_up(x: int, y: int)
    requires
        0 <= y,
        ({
            let l = SINGLE_PARTS as int;
            x * ((l - 1) * (l * (l * l))) <= y * ((l + 1) * ((l + 1) * ((l + 1) * (l + 1))))
        }),
    ensures
        x * SINGLE_PARTS <= y * (SINGLE_PARTS + 6),
{
    let l = SINGLE_PARTS as int;
    let (d, u) = ((l - 1) * (l * (l * l)), (l + 1) * ((l + 1) * ((l + 1) * (l + 1))));
    assert(u * l <= (l + 6) * d && d > 0) by (nonlinear_arith)
        requires
            l == 0x100_0000,
            d == (l - 1) * (l * (l * l)),
            u == (l + 1) * ((l + 1) * ((l + 1) * (l + 1))),
    ;
    assert((x * l) * d <= (y * (l + 6)) * d) by (nonlinear_arith)
        requires
            x * d <= y * u,
            u * l <= (l + 6) * d,
            0 <= y,
            0 < l,
    ;
    lemma_cancel(x * l, y * (l + 6), d);
}

/// Five roundings make a product and a quotient smaller by less than six parts.
proof fn lemma_five_down(x: int, y: int)
    requires
        0 <= y,
        ({
            let l = SINGLE_PARTS as int;
            x * ((l + 1) * (l * (l * l))) >= y * ((l - 1) * ((l - 1) * ((l - 1) * (l - 1))))
        }),
    ensures
        x * SINGLE_PARTS >= y * (SINGLE_PARTS - 6),
{
    let l = SINGLE_PARTS as int;
    let (d, u) = ((l + 1) * (l * (l * l)), (l - 1) * ((l - 1) * ((l - 1) * (l - 1))));
    assert(u * l >= (l - 6) * d && d > 0) by (nonlinear_arith)
        requires
            l == 0x100_0000,
            d == (l + 1) * (l * (l * l)),
            u == (l - 1) * ((l - 1) * ((l - 1) * (l - 1))),
    ;
    assert((y * (l - 6)) * d <= (x * l) * d) by (nonlinear_arith)
        requires
            x * d >= y * u,
            u * l >= (l - 6) * d,
            0 <= y,
            0 < l,
    ;
    lemma_cancel(y * (l - 6), x * l, d);
}

/// A product with a quotient is that of the integers, up to six parts.
pub(crate) proof fn lemma_proportion(s: int, a: int, b: int)
    requires
        0 < s <= u64::MAX,
        0 < a <= u64::MAX,
        0 < b <= u64::MAX,
    ensures
        ({
            let q = quotient(float_of(a, Precision::Single), float_of(b, Precision::Single), Precision::Single);
            let p = product(float_of(s, Precision::Single), q, Precision::Single);
            &&& value(p) * b * SINGLE_PARTS <= s * a * unit(0) * (SINGLE_PARTS + 6)
            &&& value(p) * b * SINGLE_PARTS >= s * a * unit(0) * (SINGLE_PARTS - 6)
            &&& 0 < p.0 <= SINGLE_PARTS
            &&& -1500 <= p.1 <= 1500
        }),
{
    let l = SINGLE_PARTS as int;
    let o = unit(0);
    let (fs, fa, fb) = (
        float_of(s, Precision::Single),
        float_of(a, Precision::Single),
        float_of(b, Precision::Single),
    );
    lemma_unit(0, 0);
    lemma_rounded_integer(s);
    lemma_rounded_integer(a);
    lemma_rounded_integer(b);
    let q = quotient(fa, fb, Precision::Single);
    lemma_quotient_value(fa, fb, Precision::Single);
    let p = product(fs, q, Precision::Single);
    lemma_product_value(fs, q, Precision::Single);
    lemma_positive_value(q);
    lemma_positive_value(p);
    let (vs, va, vb, vq, vp) = (value(fs), value(fa), value(fb), value(q), value(p));
    lemma_chain_up(vs, va, vb, vq, vp, s * o, a * o, b * o, o);
    lemma_chain_down(vs, va, vb, vq, vp, s * o, a * o, b * o, o);
    let (d, u) = ((l - 1) * (l * (l * l)), (l + 1) * ((l + 1) * ((l + 1) * (l + 1))));
    let (d2, u2) = ((l + 1) * (l * (l * l)), (l - 1) * ((l - 1) * ((l - 1) * (l - 1))));
    let (x, y) = (vp * b, s * a * o);
    assert(y >= 0) by (nonlinear_arith)
        requires
            y == s * a * o,
            s > 0,
            a > 0,
            o > 0,
    ;
    assert(vp * (b * o) * d == (x * d) * o) by (nonlinear_arith)
        requires
            x == vp * b,
    ;
    assert((s * o) * (a * o) * u == (y * u) * o) by (nonlinear_arith)
        requires
            y == s * a * o,
    ;
    lemma_cancel(x * d, y * u, o);
    lemma_five_up(x, y);
    assert(vp * (b * o) * d2 == (x * d2) * o) by (nonlinear_arith)
        requires
            x == vp * b,
    ;
    assert((s * o) * (a * o) * u2 == (y * u2) * o) by (nonlinear_arith)
        requires
            y == s * a * o,
    ;
    lemma_cancel(y * u2, x * d2, o);
    lemma_five_down(x, y);
}

/// The roundings of a product with a quotient, all of them up.
proof fn lemma_chain_up(vs: int, va: int, vb: int, vq: int, vp: int, s: int, a: int, b: int, o: int)
    requires
        ({
            let l = SINGLE_PARTS as int;
            &&& vs > 0 && va > 0 && vb > 0 && vq > 0 && vp > 0 && o > 0 && s > 0 && a > 0 && b > 0
            &&& vs * l <= s * (l + 1)
            &&& va * l <= a * (l + 1)
            &&& vb * l >= b * (l - 1)
            &&& vq * vb * l <= va * o * (l + 1)
            &&& vp * o * l <= vs * vq * (l + 1)
        }),
    ensures
        ({
            let l = SINGLE_PARTS as int;
            vp * b * ((l - 1) * (l * (l * l))) <= s * a * ((l + 1) * ((l + 1) * ((l + 1) * (l + 1))))
        }),
{
    let l = SINGLE_PARTS as int;
    let (up, down) = (l + 1, l - 1);
    // vp * vb * l^2 <= vs * va * up^2
    assert((vp * o * l) * (vb * l) <= (vs * vq * up) * (vb * l)) by (nonlinear_arith)
        requires
            vp * o * l <= vs * vq * up,
            vb > 0,
            l > 0,
    ;
    assert((vs * vq * up) * (vb * l) <= (vs * up) * (va * o * up)) by (nonlinear_arith)
        requires
            vq * vb * l <= va * o * up,
            vs > 0,
            up > 0,
    ;
    assert((vp * o * l) * (vb * l) == (vp * vb * (l * l)) * o) by (nonlinear_arith);
    assert((vs * up) * (va * o * up) == (vs * va * (up * up)) * o) by (nonlinear_arith);
    lemma_cancel(vp * vb * (l * l), vs * va * (up * up), o);
    // (vs * l) * (va * l) <= (s * up) * (a * up)
    assert((vs * l) * (va * l) <= (s * up) * (a * up)) by (nonlinear_arith)
        requires
            0 < vs * l <= s * up,
            0 < va * l <= a * up,
    {
        let (g, h, i, j) = (vs * l, va * l, s * up, a * up);
        assert(g * h <= i * j) by (nonlinear_arith)
            requires
                0 < g <= i,
                0 < h <= j,
        ;
    }
    let (w, z) = (vp * vb * (l * l), vs * va * (up * up));
    assert(w * (l * l) <= (s * a) * (up * (up * (up * up)))) by (nonlinear_arith)
        requires
            w <= z,
            z == vs * va * (up * up),
            (vs * l) * (va * l) <= (s * up) * (a * up),
            l > 0,
            up > 0,
    {
        assert(w * (l * l) <= z * (l * l)) by (nonlinear_arith)
            requires
                w <= z,
                l > 0,
        ;
        let (m, n) = ((vs * l) * (va * l), (s * up) * (a * up));
        assert(z * (l * l) == m * (up * up)) by (nonlinear_arith)
            requires
                z == vs * va * (up * up),
                m == (vs * l) * (va * l),
        ;
        assert(m * (up * up) <= n * (up * up)) by (nonlinear_arith)
            requires
                m <= n,
                up > 0,
        ;
        assert(n * (up * up) == (s * a) * (up * (up * (up * up)))) by (nonlinear_arith)
            requires
                n == (s * up) * (a * up),
        ;
    }
    // vp * b * down * l^3 <= vp * (vb * l) * l^3 == w * l^2
    assert(vp * b * (down * (l * (l * l))) <= w * (l * l)) by (nonlinear_arith)
        requires
            vb * l >= b * down,
            w == vp * vb * (l * l),
            vp > 0,
            l > 0,
    {
        let k = vp * (l * (l * l));
        assert(k > 0) by (nonlinear_arith)
            requires
                vp > 0,
                l > 0,
                k == vp * (l * (l * l)),
        ;
        assert(k * (b * down) <= k * (vb * l)) by (nonlinear_arith)
            requires
                vb * l >= b * down,
                k > 0,
        ;
        assert(k * (b * down) == vp * b * (down * (l * (l * l)))) by (nonlinear_arith)
            requires
                k == vp * (l * (l * l)),
        ;
        assert(k * (vb * l) == w * (l * l)) by (nonlinear_arith)
            requires
                k == vp * (l * (l * l)),
                w == vp * vb * (l * l),
        ;
    }
}

/// The roundings of a product with a quotient, all of them down.
proof fn lemma_chain_down(vs: int, va: int, vb: int, vq: int, vp: int, s: int, a: int, b: int, o: int)
    requires
        ({
            let l = SINGLE_PARTS as int;
            &&& vs > 0 && va > 0 && vb > 0 && vq > 0 && vp > 0 && o > 0 && s > 0 && a > 0 && b > 0
            &&& vs * l >= s * (l - 1)
            &&& va * l >= a * (l - 1)
            &&& vb * l <= b * (l + 1)
            &&& vq * vb * l >= va * o * (l - 1)
            &&& vp * o * l >= vs * vq * (l - 1)
        }),
    ensures
        ({
            let l = SINGLE_PARTS as int;
            vp * b * ((l + 1) * (l * (l * l))) >= s * a * ((l - 1) * ((l - 1) * ((l - 1) * (l - 1))))
        }),
{
    let l = SINGLE_PARTS as int;
    let (up, down) = (l + 1, l - 1);
    assert((vp * o * l) * (vb * l) >= (vs * vq * down) * (vb * l)) by (nonlinear_arith)
        requires
            vp * o * l >= vs * vq * down,
            vb > 0,
            l > 0,
    ;
    assert((vs * vq * down) * (vb * l) >= (vs * down) * (va * o * down)) by (nonlinear_arith)
        requires
            vq * vb * l >= va * o * down,
            vs > 0,
            down > 0,
    ;
    assert((vp * o * l) * (vb * l) == (vp * vb * (l * l)) * o) by (nonlinear_arith);
    assert((vs * down) * (va * o * down) == (vs * va * (down * down)) * o) by (nonlinear_arith);
    lemma_cancel(vs * va * (down * down), vp * vb * (l * l), o);
    assert(s * down > 0 && a * down > 0) by (nonlinear_arith)
        requires
            s > 0,
            a > 0,
            down > 0,
    ;
    assert((vs * l) * (va * l) >= (s * down) * (a * down)) by (nonlinear_arith)
        requires
            0 < s * down <= vs * l,
            0 < a * down <= va * l,
    {
        let (g, h, i, j) = (s * down, a * down, vs * l, va * l);
        assert(g * h <= i * j) by (nonlinear_arith)
            requires
                0 < g <= i,
                0 < h <= j,
        ;
    }
    let (w, z) = (vp * vb * (l * l), vs * va * (down * down));
    assert(w * (l * l) >= (s * a) * (down * (down * (down * down)))) by (nonlinear_arith)
        requires
            w >= z,
            z == vs * va * (down * down),
            (vs * l) * (va * l) >= (s * down) * (a * down),
            l > 0,
            down > 0,
    {
        assert(w * (l * l) >= z * (l * l)) by (nonlinear_arith)
            requires
                w >= z,
                l > 0,
        ;
        let (m, n) = ((vs * l) * (va * l), (s * down) * (a * down));
        assert(z * (l * l) == m * (down * down)) by (nonlinear_arith)
            requires
                z == vs * va * (down * down),
                m == (vs * l) * (va * l),
        ;
        assert(m * (down * down) >= n * (down * down)) by (nonlinear_arith)
            requires
                m >= n,
                down > 0,
        ;
        assert(n * (down * down) == (s * a) * (down * (down * (down * down)))) by (nonlinear_arith)
            requires
                n == (s * down) * (a * down),
        ;
    }
    assert(vp * b * (up * (l * (l * l))) >= w * (l * l)) by (nonlinear_arith)
        requires
            vb * l <= b * up,
            w == vp * vb * (l * l),
            vp > 0,
            l > 0,
    {
        let k = vp * (l * (l * l));
        assert(k > 0) by (nonlinear_arith)
            requires
                vp > 0,
                l > 0,
                k == vp * (l * (l * l)),
        ;
        assert(k * (b * up) >= k * (vb * l)) by (nonlinear_arith)
            requires
                vb * l <= b * up,
                k > 0,
        ;
        assert(k * (b * up) == vp * b * (up * (l * (l * l)))) by (nonlinear_arith)
            requires
                k == vp * (l * (l * l)),
        ;
        assert(k * (vb * l) == w * (l * l)) by (nonlinear_arith)
            requires
                k == vp * (l * (l * l)),
                w == vp * vb * (l * l),
        ;
    }
}

/// The whole numbers next to a number, in units.
pub(crate) proof fn lemma_whole_in_units(x: (int, int))
    requires
        x.0 >= 0,
        x.1 >= -4000,
    ensures
        floor_of(x) * unit(0) <= value(x) < (floor_of(x) + 1) * unit(0),
        (ceil_of(x) - 1) * unit(0) < value(x) <= ceil_of(x) * unit(0),
        (2 * nearest_of(x) - 1) * unit(0) <= 2 * value(x) < (2 * nearest_of(x) + 1) * unit(0),
{
    whole_numbers_are_next_to_their_float(x);
    let (m, o) = (x.0, unit(0));
    let (f, c, n) = (floor_of(x), ceil_of(x), nearest_of(x));
    if x.1 >= 0 {
        lemma_unit_step(0, x.1);
        let t = pow2(x.1 as nat) as int;
        assert(m * (o * t) == f * o) by (nonlinear_arith)
            requires
                f == m * t,
        ;
        assert(f * o < (f + 1) * o && (f - 1) * o < f * o && (2 * f - 1) * o <= 2 * (f * o) < (2 * f + 1) * o)
            by (nonlinear_arith)
            requires
                o > 0,
        ;
    } else {
        lemma_unit_step(x.1, -x.1);
        let (t, u) = (pow2((-x.1) as nat) as int, unit(x.1));
        assert(f * (u * t) <= m * u < (f + 1) * (u * t)) by (nonlinear_arith)
            requires
                f * t <= m < (f + 1) * t,
                u > 0,
        ;
        assert((c - 1) * (u * t) < m * u <= c * (u * t)) by (nonlinear_arith)
            requires
                (c - 1) * t < m <= c * t,
                u > 0,
        ;
        assert((2 * n - 1) * (u * t) <= 2 * (m * u) < (2 * n + 1) * (u * t)) by (nonlinear_arith)
            requires
                2 * n * t - t <= 2 * m < 2 * n * t + t,
                u > 0,
        ;
    }
}

/// The quotient of an integer and a quotient is that of the integers, up to six parts.
pub(crate) proof fn lemma_inverse_proportion(g: int, a: int, b: int)
    requires
        0 < g <= u64::MAX,
        0 < a <= u64::MAX,
        0 < b <= u64::MAX,
    ensures
        ({
            let q = quotient(float_of(a, Precision::Single), float_of(b, Precision::Single), Precision::Single);
            let p = quotient(float_of(g, Precision::Single), q, Precision::Single);
            &&& value(p) * a * SINGLE_PARTS <= g * b * unit(0) * (SINGLE_PARTS + 6)
            &&& value(p) * a * SINGLE_PARTS >= g * b * unit(0) * (SINGLE_PARTS - 6)
            &&& 0 < p.0 <= SINGLE_PARTS
            &&& -1500 <= p.1 <= 1500
        }),
{
    let o = unit(0);
    let (fg, fa, fb) = (
        float_of(g, Precision::Single),
        float_of(a, Precision::Single),
        float_of(b, Precision::Single),
    );
    lemma_unit(0, 0);
    lemma_rounded_integer(g);
    lemma_rounded_integer(a);
    lemma_rounded_integer(b);
    let q = quotient(fa, fb, Precision::Single);
    lemma_quotient_value(fa, fb, Precision::Single);
    let p = quotient(fg, q, Precision::Single);
    lemma_quotient_value(fg, q, Precision::Single);
    lemma_positive_value(q);
    lemma_positive_value(p);
    lemma_inverse_chain(value(fg), value(fa), value(fb), value(q), value(p), g, a, b, o);
}

/// The roundings of the quotient of an integer and a quotient.
proof fn lemma_inverse_chain(vg: int, va: int, vb: int, vq: int, vp: int, g: int, a: int, b: int, o: int)
    requires
        ({
            let l = SINGLE_PARTS as int;
            &&& vg > 0 && va > 0 && vb > 0 && vq > 0 && vp > 0 && o > 0 && g > 0 && a > 0 && b > 0
            &&& g * o * (l - 1) <= vg * l <= g * o * (l + 1)
            &&& a * o * (l - 1) <= va * l <= a * o * (l + 1)
            &&& b * o * (l - 1) <= vb * l <= b * o * (l + 1)
            &&& va * o * (l - 1) <= vq * vb * l <= va * o * (l + 1)
            &&& vg * o * (l - 1) <= vp * vq * l <= vg * o * (l + 1)
        }),
    ensures
        vp * a * SINGLE_PARTS <= g * b * o * (SINGLE_PARTS + 6),
        vp * a * SINGLE_PARTS >= g * b * o * (SINGLE_PARTS - 6),
{
    let l = SINGLE_PARTS as int;
    let (up, down) = (l + 1, l - 1);
    // vp * va * down <= vg * vb * up, and vg * vb * down <= vp * va * up
    let (c, d) = (vp * vq * l, vq * vb * l);
    assert(c * vb == d * vp) by (nonlinear_arith)
        requires
            c == vp * vq * l,
            d == vq * vb * l,
    ;
    assert((vp * va * down) * o <= (vg * vb * up) * o) by {
        assert(c * vb <= (vg * o * up) * vb) by (nonlinear_arith)
            requires
                c <= vg * o * up,
                vb > 0,
        ;
        assert((va * o * down) * vp <= d * vp) by (nonlinear_arith)
            requires
                va * o * down <= d,
                vp > 0,
        ;
        assert((va * o * down) * vp == (vp * va * down) * o) by (nonlinear_arith);
        assert((vg * o * up) * vb == (vg * vb * up) * o) by (nonlinear_arith);
    }
    lemma_cancel(vp * va * down, vg * vb * up, o);
    assert((vg * vb * down) * o <= (vp * va * up) * o) by {
        assert(c * vb >= (vg * o * down) * vb) by (nonlinear_arith)
            requires
                c >= vg * o * down,
                vb > 0,
        ;
        assert((va * o * up) * vp >= d * vp) by (nonlinear_arith)
            requires
                va * o * up >= d,
                vp > 0,
        ;
        assert((va * o * up) * vp == (vp * va * up) * o) by (nonlinear_arith);
        assert((vg * o * down) * vb == (vg * vb * down) * o) by (nonlinear_arith);
    }
    lemma_cancel(vg * vb * down, vp * va * up, o);
    let (x, y) = (vp * a, g * b * o);
    let (h, i, j, k) = (vg * l, vb * l, va * l, a * o);
    assert(y >= 0) by (nonlinear_arith)
        requires
            y == g * b * o,
            g > 0,
            b > 0,
            o > 0,
    ;
    assert(h > 0 && i > 0 && g * o > 0 && b * o > 0) by (nonlinear_arith)
        requires
            h == vg * l,
            i == vb * l,
            vg > 0,
            vb > 0,
            l > 0,
            g > 0,
            b > 0,
            o > 0,
    ;
    // up
    assert((x * (l * (down * down))) * o <= (y * (up * (up * up))) * o) by {
        let (gu, bu) = (g * o * up, b * o * up);
        assert(h * i <= gu * bu) by (nonlinear_arith)
            requires
                0 < h <= gu,
                0 < i <= bu,
        ;
        let (m, n) = (vp * va * down, vg * vb * up);
        assert(m * (l * l) <= n * (l * l)) by (nonlinear_arith)
            requires
                m <= n,
                l > 0,
        ;
        assert(n * (l * l) == (h * i) * up) by (nonlinear_arith)
            requires
                n == vg * vb * up,
                h == vg * l,
                i == vb * l,
        ;
        assert((h * i) * up <= (gu * bu) * up) by (nonlinear_arith)
            requires
                h * i <= gu * bu,
                up > 0,
        ;
        assert((gu * bu) * up == (y * (up * (up * up))) * o) by (nonlinear_arith)
            requires
                gu == g * o * up,
                bu == b * o * up,
                y == g * b * o,
        ;
        assert(m * (l * l) == (vp * down * l) * j) by (nonlinear_arith)
            requires
                m == vp * va * down,
                j == va * l,
        ;
        let f = vp * down * l;
        assert(f > 0) by (nonlinear_arith)
            requires
                f == vp * down * l,
                vp > 0,
                down > 0,
                l > 0,
        ;
        assert(f * (k * down) <= f * j) by (nonlinear_arith)
            requires
                k * down <= j,
                f > 0,
        ;
        assert(f * (k * down) == (x * (l * (down * down))) * o) by (nonlinear_arith)
            requires
                f == vp * down * l,
                k == a * o,
                x == vp * a,
        ;
    }
    lemma_cancel(x * (l * (down * down)), y * (up * (up * up)), o);
    let (e, u) = (l * (down * down), up * (up * up));
    assert(u * l <= (l + 6) * e && e > 0) by (nonlinear_arith)
        requires
            l == 0x100_0000,
            up == l + 1,
            down == l - 1,
            e == l * (down * down),
            u == up * (up * up),
    ;
    assert((x * l) * e <= (y * (l + 6)) * e) by (nonlinear_arith)
        requires
            x * e <= y * u,
            u * l <= (l + 6) * e,
            0 <= y,
            0 < l,
    ;
    lemma_cancel(x * l, y * (l + 6), e);
    // down
    assert((y * (down * (down * down))) * o <= (x * (l * (up * up))) * o) by {
        let (gd, bd) = (g * o * down, b * o * down);
        assert(gd > 0 && bd > 0) by (nonlinear_arith)
            requires
                gd == g * o * down,
                bd == b * o * down,
                g * o > 0,
                b * o > 0,
                down > 0,
        ;
        assert(h * i >= gd * bd) by (nonlinear_arith)
            requires
                0 < gd <= h,
                0 < bd <= i,
        ;
        let (m, n) = (vp * va * up, vg * vb * down);
        assert(m * (l * l) >= n * (l * l)) by (nonlinear_arith)
            requires
                m >= n,
                l > 0,
        ;
        assert(n * (l * l) == (h * i) * down) by (nonlinear_arith)
            requires
                n == vg * vb * down,
                h == vg * l,
                i == vb * l,
        ;
        assert((h * i) * down >= (gd * bd) * down) by (nonlinear_arith)
            requires
                h * i >= gd * bd,
                down > 0,
        ;
        assert((gd * bd) * down == (y * (down * (down * down))) * o) by (nonlinear_arith)
            requires
                gd == g * o * down,
                bd == b * o * down,
                y == g * b * o,
        ;
        assert(m * (l * l) == (vp * up * l) * j) by (nonlinear_arith)
            requires
                m == vp * va * up,
                j == va * l,
        ;
        let f = vp * up * l;
        assert(f > 0) by (nonlinear_arith)
            requires
                f == vp * up * l,
                vp > 0,
                up > 0,
                l > 0,
        ;
        assert(f * (k * up) >= f * j) by (nonlinear_arith)
            requires
                k * up >= j,
                f > 0,
        ;
        assert(f * (k * up) == (x * (l * (up * up))) * o) by (nonlinear_arith)
            requires
                f == vp * up * l,
                k == a * o,
                x == vp * a,
        ;
    }
    lemma_cancel(y * (down * (down * down)), x * (l * (up * up)), o);
    let (e2, u2) = (l * (up * up), down * (down * down));
    assert(u2 * l >= (l - 6) * e2 && e2 > 0) by (nonlinear_arith)
        requires
            l == 0x100_0000,
            up == l + 1,
            down == l - 1,
            e2 == l * (up * up),
            u2 == down * (down * down),
    ;
    assert((y * (l - 6)) * e2 <= (x * l) * e2) by (nonlinear_arith)
        requires
            x * e2 >= y * u2,
            u2 * l >= (l - 6) * e2,
            0 <= y,
            0 < l,
    ;
    lemma_cancel(y * (l - 6), x * l, e2);
}

/// What is not above a quotient with a smaller divisor has a divisor that is not much smaller.
pub(crate) proof fn lemma_divisors(g: int, a: int, b: int)
    requires
        0 < g <= u64::MAX,
        0 < a <= u64::MAX,
        0 < b <= u64::MAX,
        ({
            let f = float_of(g, Precision::Single);
            !is_less(
                quotient(f, float_of(a, Precision::Single), Precision::Single),
                quotient(f, float_of(b, Precision::Single), Precision::Single),
            )
        }),
    ensures
        a <= 2 * b,
{
    let l = SINGLE_PARTS as int;
    let o = unit(0);
    let (fg, fa, fb) = (
        float_of(g, Precision::Single),
        float_of(a, Precision::Single),
        float_of(b, Precision::Single),
    );
    lemma_unit(0, 0);
    lemma_rounded_integer(g);
    lemma_rounded_integer(a);
    lemma_rounded_integer(b);
    let (qa, qb) = (quotient(fg, fa, Precision::Single), quotient(fg, fb, Precision::Single));
    lemma_quotient_value(fg, fa, Precision::Single);
    lemma_quotient_value(fg, fb, Precision::Single);
    lemma_less_in_units(qa, qb);
    lemma_positive_value(qa);
    lemma_positive_value(qb);
    let (vg, va, vb, x, y) = (value(fg), value(fa), value(fb), value(qa), value(qb));
    // vg * o * (l - 1) <= y * vb * l, x * va * l <= vg * o * (l + 1), y <= x
    let (c, d) = (vg * o * (l - 1), vg * o * (l + 1));
    assert(c * va <= d * vb) by {
        assert(c * va <= (y * vb * l) * va) by (nonlinear_arith)
            requires
                c <= y * vb * l,
                va > 0,
        ;
        assert((x * va * l) * vb <= d * vb) by (nonlinear_arith)
            requires
                x * va * l <= d,
                vb > 0,
        ;
        let z = vb * l * va;
        assert(z > 0) by (nonlinear_arith)
            requires
                z == vb * l * va,
                vb > 0,
                l > 0,
                va > 0,
        ;
        assert(y * z <= x * z) by (nonlinear_arith)
            requires
                y <= x,
                z > 0,
        ;
        assert((y * vb * l) * va == y * z) by (nonlinear_arith)
            requires
                z == vb * l * va,
        ;
        assert((x * va * l) * vb == x * z) by (nonlinear_arith)
            requires
                z == vb * l * va,
        ;
    }
    let w = vg * o;
    assert(w > 0) by (nonlinear_arith)
        requires
            w == vg * o,
            vg > 0,
            o > 0,
    ;
    assert((va * (l - 1)) * w <= (vb * (l + 1)) * w) by (nonlinear_arith)
        requires
            c * va <= d * vb,
            c == w * (l - 1),
            d == w * (l + 1),
    ;
    lemma_cancel(va * (l - 1), vb * (l + 1), w);
    assert((a * o) * ((l - 1) * (l - 1)) <= (b * o) * ((l + 1) * (l + 1))) by (nonlinear_arith)
        requires
            va * (l - 1) <= vb * (l + 1),
            a * o * (l - 1) <= va * l,
            vb * l <= b * o * (l + 1),
            l == 0x100_0000,
    ;
    assert(a * o <= 2 * (b * o)) by (nonlinear_arith)
        requires
            (a * o) * ((l - 1) * (l - 1)) <= (b * o) * ((l + 1) * (l + 1)),
            l == 0x100_0000,
            b * o >= 0,
    ;
    assert(a * o <= (2 * b) * o) by (nonlinear_arith)
        requires
            a * o <= 2 * (b * o),
    ;
    lemma_cancel(a, 2 * b, o);
}

/// The quotient of two integers and one.
pub(crate) proof fn lemma_ratio_and_one(a: int, b: int)
    requires
        0 < a <= u64::MAX,
        0 < b <= u64::MAX,
    ensures
        ({
            let q = quotient(float_of(a, Precision::Single), float_of(b, Precision::Single), Precision::Single);
            &&& is_less(float_of(1, Precision::Single), q) ==> b <= 2 * a
            &&& !is_less(float_of(1, Precision::Single), q) ==> a <= 2 * b
        }),
{
    let l = SINGLE_PARTS as int;
    let o = unit(0);
    let (fa, fb, one) = (
        float_of(a, Precision::Single),
        float_of(b, Precision::Single),
        float_of(1, Precision::Single),
    );
    lemma_unit(0, 0);
    lemma_rounded_integer(a);
    lemma_rounded_integer(b);
    lemma_integer_value(1, Precision::Single);
    assert(value(one) == o);
    let q = quotient(fa, fb, Precision::Single);
    lemma_quotient_value(fa, fb, Precision::Single);
    lemma_less_in_units(one, q);
    let (va, vb, vq) = (value(fa), value(fb), value(q));
    if is_less(one, q) {
        // o < vq and vq * vb * l <= va * o * (l + 1)
        assert((vb * l) * o <= (va * (l + 1)) * o) by (nonlinear_arith)
            requires
                o <= vq,
                vq * vb * l <= va * o * (l + 1),
                vb > 0,
                l > 0,
        {
            assert(o * (vb * l) <= vq * (vb * l)) by (nonlinear_arith)
                requires
                    o <= vq,
                    vb > 0,
                    l > 0,
            ;
            assert(vq * (vb * l) == vq * vb * l) by (nonlinear_arith);
        }
        lemma_cancel(vb * l, va * (l + 1), o);
        assert(b * o <= (2 * a) * o) by (nonlinear_arith)
            requires
                vb * l <= va * (l + 1),
                b * o * (l - 1) <= vb * l,
                va * l <= a * o * (l + 1),
                l == 0x100_0000,
                a * o > 0,
        ;
        lemma_cancel(b, 2 * a, o);
    } else {
        assert((va * (l - 1)) * o <= (vb * l) * o) by (nonlinear_arith)
            requires
                vq <= o,
                va * o * (l - 1) <= vq * vb * l,
                vb > 0,
                l > 0,
        {
            assert(vq * (vb * l) <= o * (vb * l)) by (nonlinear_arith)
                requires
                    vq <= o,
                    vb > 0,
                    l > 0,
            ;
            assert(vq * (vb * l) == vq * vb * l) by (nonlinear_arith);
        }
        lemma_cancel(va * (l - 1), vb * l, o);
        assert(a * o <= (2 * b) * o) by (nonlinear_arith)
            requires
                va * (l - 1) <= vb * l,
                a * o * (l - 1) <= va * l,
                vb * l <= b * o * (l + 1),
                l == 0x100_0000,
                b * o > 0,
        ;
        lemma_cancel(a, 2 * b, o);
    }
}

} // verus!
