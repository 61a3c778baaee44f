//! Floating-point values held as bit patterns.
//!
//! A [`Single`] is an IEEE 754 single-precision value, a [`Double`] a double-precision
//! one. The library compares and selects such values; arithmetic on them is left to the
//! caller, who reads and writes the bit patterns.

use vstd::arithmetic::power2::{lemma2_to64, lemma_pow2_adds, lemma_pow2_pos, lemma_pow2_unfold, pow2};
use vstd::prelude::*;

verus! {

/// A single-precision value, by its bit pattern.
#[derive(Debug, Clone, Copy, PartialEq, Eq, Structural)]
pub struct Single {
    pub bits: u32,
}

/// A double-precision value, by its bit pattern.
#[derive(Debug, Clone, Copy, PartialEq, Eq, Structural)]
pub struct Double {
    pub bits: u64,
}

impl Single {
    /// Whether the pattern encodes no number: all exponent bits set and a non-zero fraction.
    pub open spec fn not_a_number(self) -> bool {
        self.bits % 0x8000_0000 > 0x7f80_0000
    }

    /// An integer that orders numbers as their values are ordered; both zeros have key 0.
    pub open spec fn key(self) -> int {
        if self.bits < 0x8000_0000 {
            self.bits as int
        } else {
            0x8000_0000 - self.bits as int
        }
    }

    /// Whether `self` is greater than `other`; never, where one is no number.
    pub open spec fn greater(self, other: Single) -> bool {
        !self.not_a_number() && !other.not_a_number() && self.key() > other.key()
    }

    /// The value with this bit pattern.
    pub fn from_bits(bits: u32) -> (r: Single)
        ensures
            r.bits == bits,
    {
        Single { bits }
    }

    /// The bit pattern of the value.
    pub fn to_bits(self) -> (r: u32)
        ensures
            r == self.bits,
    {
        self.bits
    }

    /// Whether the value is no number.
    pub fn is_nan(self) -> (r: bool)
        ensures
            r == self.not_a_number(),
    {
        self.bits % 0x8000_0000 > 0x7f80_0000
    }

    /// The integer by which the value is ordered.
    pub fn order_key(self) -> (r: i64)
        ensures
            r == self.key(),
            -0x8000_0000 < r < 0x8000_0000,
    {
        if self.bits < 0x8000_0000 {
            self.bits as i64
        } else {
            0x8000_0000i64 - self.bits as i64
        }
    }

    /// Whether `self > other`.
    pub fn gt(self, other: Single) -> (r: bool)
        ensures
            r == self.greater(other),
    {
        !self.is_nan() && !other.is_nan() && self.order_key() > other.order_key()
    }

    /// Whether `self < other`.
    pub fn lt(self, other: Single) -> (r: bool)
        ensures
            r == other.greater(self),
    {
        other.gt(self)
    }

    /// The greater of two values: `other` if `self` is no number or less than it, else `self`.
    pub open spec fn max_spec(self, other: Single) -> Single {
        if self.not_a_number() || other.greater(self) {
            other
        } else {
            self
        }
    }

    /// The lesser of two values: `other` if `self` is no number or greater than it, else `self`.
    pub open spec fn min_spec(self, other: Single) -> Single {
        if self.not_a_number() || self.greater(other) {
            other
        } else {
            self
        }
    }

    /// The greater of the two values; where one is no number, the other.
    #[verifier::when_used_as_spec(max_spec)]
    pub fn max(self, other: Single) -> (r: Single)
        ensures
            r == self.max_spec(other),
    {
        if self.is_nan() || other.gt(self) {
            other
        } else {
            self
        }
    }

    /// The lesser of the two values; where one is no number, the other.
    #[verifier::when_used_as_spec(min_spec)]
    pub fn min(self, other: Single) -> (r: Single)
        ensures
            r == self.min_spec(other),
    {
        if self.is_nan() || self.gt(other) {
            other
        } else {
            self
        }
    }

    /// The value, or the nearer end of a range that it is outside of. What is no number stays.
    pub open spec fn clamp_spec(self, low: Single, high: Single) -> Single {
        if low.greater(self) {
            low
        } else if self.greater(high) {
            high
        } else {
            self
        }
    }

    /// The value, or the nearer end of a range that it is outside of. What is no number stays.
    #[verifier::when_used_as_spec(clamp_spec)]
    pub fn clamp(self, low: Single, high: Single) -> (r: Single)
        ensures
            r == self.clamp_spec(low, high),
    {
        if low.gt(self) {
            low
        } else if self.gt(high) {
            high
        } else {
            self
        }
    }

    /// Whether the value lies in a range, its ends among it, or is no number.
    pub open spec fn is_within(self, low: Single, high: Single) -> bool {
        !low.greater(self) && !self.greater(high)
    }
}

impl Double {
    /// The value with this bit pattern.
    pub fn from_bits(bits: u64) -> (r: Double)
        ensures
            r.bits == bits,
    {
        Double { bits }
    }

    /// The bit pattern of the value.
    pub fn to_bits(self) -> (r: u64)
        ensures
            r == self.bits,
    {
        self.bits
    }
}

/// Bit pattern of the greatest finite single-precision value.
pub const SINGLE_MAX: u32 = 0x7f7f_ffff;

/// Bit pattern of the least finite single-precision value.
pub const SINGLE_MIN: u32 = 0xff7f_ffff;

/// Bit pattern of zero in single precision.
pub const SINGLE_ZERO: u32 = 0;

/// Bit pattern of one in single precision.
pub const SINGLE_ONE: u32 = 0x3f80_0000;

/// Being greater is a strict order on the numbers: irreflexive, transitive, and of two
/// numbers with different keys one is greater.
pub proof fn greater_is_strict_order(a: Single, b: Single, c: Single)
    ensures
        !a.greater(a),
        a.greater(b) && b.greater(c) ==> a.greater(c),
        !a.not_a_number() && !b.not_a_number() ==> a.greater(b) || b.greater(a) || a.key() == b.key(),
{
}

/// The maximum and the minimum of two numbers are each one of the two; neither number is
/// greater than the maximum, nor is the minimum greater than either.
pub proof fn max_and_min_bound(a: Single, b: Single)
    requires
        !a.not_a_number(),
        !b.not_a_number(),
    ensures
        a.max(b) == a || a.max(b) == b,
        a.min(b) == a || a.min(b) == b,
        !a.greater(a.max(b)),
        !b.greater(a.max(b)),
        !a.min(b).greater(a),
        !a.min(b).greater(b),
{
}

/// A clamped value lies in the range, is no number only if it was none, and is the same value
/// if it lay in the range before.
pub proof fn clamped_values_lie_within(x: Single, low: Single, high: Single)
    requires
        !low.not_a_number(),
        !high.not_a_number(),
        !low.greater(high),
    ensures
        x.clamp(low, high).is_within(low, high),
        x.clamp(low, high).not_a_number() <==> x.not_a_number(),
        x.is_within(low, high) ==> x.clamp(low, high) == x,
{
}

/// How large a finite number is, its sign left out, in units of the least positive number: the
/// eight bits in front of the fraction scale it, and a fraction that is scaled has a leading one.
pub open spec fn magnitude_in_units(x: Single) -> int {
    let digits = x.bits % 0x8000_0000;
    let (scale, fraction) = (digits / 0x80_0000, digits % 0x80_0000);
    if scale == 0 {
        fraction as int
    } else {
        (0x80_0000 + fraction) * pow2((scale - 1) as nat)
    }
}

/// A finite number in units of the least positive number.
pub open spec fn value_in_units(x: Single) -> int {
    if x.bits < 0x8000_0000 {
        magnitude_in_units(x)
    } else {
        -magnitude_in_units(x)
    }
}

/// Numbers are compared by their values: one is greater than another exactly if its sign, scale
/// and fraction make a greater number. What is no number is never greater and never less.
pub proof fn greater_compares_values(a: Single, b: Single)
    ensures
        a.bits % 0x8000_0000 < 0x7f80_0000 && b.bits % 0x8000_0000 < 0x7f80_0000 ==> (a.greater(b) <==> value_in_units(a)
            > value_in_units(b)),
        a.bits % 0x8000_0000 > 0x7f80_0000 || b.bits % 0x8000_0000 > 0x7f80_0000 ==> !a.greater(b) && !b.greater(a),
        a.bits == 0x7f80_0000 && b.bits % 0x8000_0000 < 0x7f80_0000 ==> a.greater(b),
        a.bits == 0xff80_0000 && b.bits % 0x8000_0000 < 0x7f80_0000 ==> b.greater(a),
{
    let (p, q) = (a.bits % 0x8000_0000, b.bits % 0x8000_0000);
    lemma_larger_pattern(a, b);
    lemma_larger_pattern(b, a);
    lemma_zero_pattern(a);
    lemma_zero_pattern(b);
    if p == q {
        assert(magnitude_in_units(a) == magnitude_in_units(b));
    }
}

/// A larger pattern makes a larger number.
proof fn lemma_larger_pattern(a: Single, b: Single)
    ensures
        a.bits % 0x8000_0000 > b.bits % 0x8000_0000 ==> magnitude_in_units(a) > magnitude_in_units(b),
{
    let (p, q) = (a.bits % 0x8000_0000, b.bits % 0x8000_0000);
    let (s, f) = ((p / 0x80_0000) as int, (p % 0x80_0000) as int);
    let (t, g) = ((q / 0x80_0000) as int, (q % 0x80_0000) as int);
    if p > q {
        assert(s >= t);
        lemma2_to64();
        if t == 0 && s > 0 {
            lemma_pow2_pos((s - 1) as nat);
            let u = pow2((s - 1) as nat) as int;
            assert((0x80_0000 + f) * u >= 0x80_0000 + f) by (nonlinear_arith)
                requires
                    u >= 1,
                    f >= 0,
            ;
        } else if s == t && s > 0 {
            lemma_pow2_pos((s - 1) as nat);
            let u = pow2((s - 1) as nat) as int;
            assert((0x80_0000 + f) * u > (0x80_0000 + g) * u) by (nonlinear_arith)
                requires
                    u >= 1,
                    f > g,
            ;
        } else if s > t > 0 {
            lemma_pow2_adds((t - 1) as nat, (s - t) as nat);
            lemma_pow2_pos((t - 1) as nat);
            lemma_pow2_pos((s - t) as nat);
            lemma_pow2_unfold((s - t) as nat);
            lemma_pow2_pos((s - t - 1) as nat);
            let (u, v) = (pow2((t - 1) as nat) as int, pow2((s - t) as nat) as int);
            assert(v >= 2);
            assert((0x80_0000 + f) * (u * v) > (0x80_0000 + g) * u) by (nonlinear_arith)
                requires
                    u >= 1,
                    v >= 2,
                    0 <= f,
                    0 <= g < 0x80_0000,
            ;
        }
    }
}

/// Only the pattern of zero makes zero.
proof fn lemma_zero_pattern(x: Single)
    ensures
        magnitude_in_units(x) >= 0,
        magnitude_in_units(x) == 0 <==> x.bits % 0x8000_0000 == 0,
{
    let digits = x.bits % 0x8000_0000;
    let (scale, fraction) = ((digits / 0x80_0000) as int, (digits % 0x80_0000) as int);
    if scale > 0 {
        lemma_pow2_pos((scale - 1) as nat);
        let u = pow2((scale - 1) as nat) as int;
        assert((0x80_0000 + fraction) * u > 0) by (nonlinear_arith)
            requires
                u >= 1,
                fraction >= 0,
        ;
    }
}

} // verus!
