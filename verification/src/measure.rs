//! Measurements in the IEEE 754 binary32 format, held by their bit patterns.
//!
//! Signal levels, speaker activities, cosine distances and overlap scores are
//! computed by numeric code outside this crate. What is decided from them only
//! ever compares them, so a measurement is its bit pattern, and comparing two
//! of them means what it means for the numbers that the patterns stand for.

use vstd::arithmetic::power2::{lemma_pow2_pos, lemma_pow2_strictly_increases, lemma_pow2_unfold, pow2};
use vstd::prelude::*;

verus! {

/// A binary32 number, by its bit pattern: one sign bit, eight exponent bits,
/// 23 fraction bits.
#[derive(Clone, Copy, Debug, PartialEq, Eq, Structural)]
pub struct Measure {
    /// The bit pattern.
    pub bits: u32,
}

/// The pattern of positive infinity.
pub const INFINITY_BITS: u32 = 0x7F80_0000;

/// The pattern of negative infinity.
pub const NEG_INFINITY_BITS: u32 = 0xFF80_0000;

/// The number that a pattern without its sign bit stands for, in units of
/// 2^-149, the smallest positive number of the format. Infinity counts as
/// 2^277, which is beyond every finite number of the format.
pub open spec fn magnitude(unsigned: nat) -> nat {
    let exponent = unsigned / 0x80_0000;
    let fraction = unsigned % 0x80_0000;
    if exponent == 0 {
        fraction
    } else {
        (0x80_0000 + fraction) * pow2((exponent - 1) as nat)
    }
}

impl Measure {
    /// The pattern without its sign bit.
    pub open spec fn unsigned(self) -> nat {
        (self.bits % 0x8000_0000) as nat
    }

    /// Whether the sign bit is set.
    pub open spec fn negative(self) -> bool {
        self.bits >= 0x8000_0000
    }

    /// Whether the pattern is no number at all: all exponent bits set and some
    /// fraction bit set.
    pub open spec fn nan(self) -> bool {
        self.unsigned() / 0x80_0000 == 255 && self.unsigned() % 0x80_0000 != 0
    }

    /// The number, in units of 2^-149. Both zeros are 0.
    pub open spec fn value(self) -> int {
        if self.negative() {
            -(magnitude(self.unsigned()) as int)
        } else {
            magnitude(self.unsigned()) as int
        }
    }

    /// Whether `self < other` as numbers; false where either is no number.
    pub open spec fn less(self, other: Measure) -> bool {
        !self.nan() && !other.nan() && self.value() < other.value()
    }

    /// Whether the pattern is no number.
    pub fn is_nan(&self) -> (r: bool)
        ensures
            r == self.nan(),
    {
        self.bits % 0x8000_0000 > 0x7F80_0000
    }

    /// The position of the pattern in the order of the numbers.
    fn rank(&self) -> (r: i64)
        ensures
            r == (if self.negative() {
                -(self.unsigned() as int)
            } else {
                self.unsigned() as int
            }),
    {
        let unsigned: u32 = self.bits % 0x8000_0000;
        if self.bits >= 0x8000_0000 {
            -(unsigned as i64)
        } else {
            unsigned as i64
        }
    }

    /// `self < other`, as the numbers compare.
    pub fn lt(&self, other: &Measure) -> (r: bool)
        ensures
            r == self.less(*other),
    {
        if self.is_nan() || other.is_nan() {
            return false;
        }
        proof {
            lemma_magnitude_order(self.unsigned(), other.unsigned());
            lemma_magnitude_order(0, self.unsigned());
            lemma_magnitude_order(0, other.unsigned());
        }
        self.rank() < other.rank()
    }

    /// `self > other`, as the numbers compare.
    pub fn gt(&self, other: &Measure) -> (r: bool)
        ensures
            r == other.less(*self),
    {
        other.lt(self)
    }
}

/// A larger unsigned pattern is a larger magnitude.
proof fn lemma_magnitude_increases(x: nat, y: nat)
    requires
        x < y,
    ensures
        magnitude(x) < magnitude(y),
{
    let ex = x / 0x80_0000;
    let fx = x % 0x80_0000;
    let ey = y / 0x80_0000;
    let fy = y % 0x80_0000;
    assert(x == ex * 0x80_0000 + fx && y == ey * 0x80_0000 + fy);
    if ey == 0 {
        assert(ex == 0);
    } else {
        let py = pow2((ey - 1) as nat);
        lemma_pow2_pos((ey - 1) as nat);
        assert((0x80_0000 + fy) * py >= 0x80_0000 * py && 0x80_0000 * py >= 0x80_0000)
            by (nonlinear_arith)
            requires
                py > 0,
                fy >= 0,
        ;
        if ex == ey {
            assert((0x80_0000 + fx) * py < (0x80_0000 + fy) * py) by (nonlinear_arith)
                requires
                    py > 0,
                    fx < fy,
            ;
        } else if ex > 0 {
            let px = pow2((ex - 1) as nat);
            lemma_pow2_pos((ex - 1) as nat);
            lemma_pow2_unfold(ex as nat);
            if ex < ey - 1 {
                lemma_pow2_strictly_increases(ex as nat, (ey - 1) as nat);
            }
            assert(2 * px <= py);
            assert((0x80_0000 + fx) * px < 0x80_0000 * py) by (nonlinear_arith)
                requires
                    0 <= fx < 0x80_0000,
                    px > 0,
                    2 * px <= py,
            ;
        }
    }
}

/// Unsigned patterns are ordered as their magnitudes.
pub proof fn lemma_magnitude_order(x: nat, y: nat)
    ensures
        x < y <==> magnitude(x) < magnitude(y),
        x == y <==> magnitude(x) == magnitude(y),
{
    if x < y {
        lemma_magnitude_increases(x, y);
    } else if y < x {
        lemma_magnitude_increases(y, x);
    }
}

/// The order of the numbers is a strict total order: of two numbers either
/// one is less than the other or their values agree, and `less` is transitive.
pub proof fn law_less_is_a_strict_order(a: Measure, b: Measure, c: Measure)
    ensures
        !a.less(a),
        a.less(b) ==> !b.less(a),
        a.less(b) && b.less(c) ==> a.less(c),
        !a.nan() && !b.nan() ==> a.less(b) || b.less(a) || a.value() == b.value(),
{
}

/// No number lies above positive infinity or below negative infinity, and
/// two patterns stand for the same number only where they are equal or are
/// the two zeros.
pub proof fn law_infinities_bound_the_numbers(a: Measure, b: Measure)
    requires
        !a.nan(),
        !b.nan(),
    ensures
        (Measure { bits: NEG_INFINITY_BITS }).value() <= a.value(),
        a.value() <= (Measure { bits: INFINITY_BITS }).value(),
        a.value() == b.value() ==> a == b || (a.unsigned() == 0 && b.unsigned() == 0),
{
    lemma_magnitude_order(a.unsigned(), 0x7F80_0000);
    lemma_magnitude_order(a.unsigned(), b.unsigned());
    lemma_magnitude_order(0, a.unsigned());
    lemma_magnitude_order(0, b.unsigned());
    lemma_magnitude_order(0, 0x7F80_0000);
    assert(magnitude(0) == 0);
}

/// Numbers compare by their patterns: those that are not negative as the
/// patterns do, negative ones the other way round, and a negative one is less
/// than one that is not, but for the two zeros. Patterns with all exponent bits
/// and a fraction bit set are no numbers, and compare with nothing.
pub proof fn law_numbers_compare_by_their_patterns(a: Measure, b: Measure)
    ensures
        a.nan() <==> a.bits % 0x8000_0000 > 0x7F80_0000,
        a.nan() || b.nan() ==> !a.less(b),
        !a.nan() && !b.nan() ==> (a.less(b) <==> a.value() < b.value()),
        !a.nan() && !b.nan() && a.bits < 0x8000_0000 && b.bits < 0x8000_0000 ==> (a.less(b)
            <==> a.bits < b.bits),
        !a.nan() && !b.nan() && a.bits >= 0x8000_0000 && b.bits >= 0x8000_0000 ==> (a.less(b)
            <==> b.bits < a.bits),
        !a.nan() && !b.nan() && a.bits >= 0x8000_0000 && b.bits < 0x8000_0000 ==> (a.less(b)
            <==> !(a.bits == 0x8000_0000 && b.bits == 0)),
        a.bits < 0x8000_0000 && b.bits >= 0x8000_0000 ==> !a.less(b),
{
    lemma_magnitude_order(a.unsigned(), b.unsigned());
    lemma_magnitude_order(0, a.unsigned());
    lemma_magnitude_order(0, b.unsigned());
    assert(magnitude(0) == 0);
}

} // verus!
