//! Measured figures, held by their IEEE 754 binary64 bit pattern.
//!
//! The risk rules never need more of a figure than how it compares: which of
//! two is larger, whether it is finite, whether it is a number at all. Those
//! questions are answered here on the bit pattern alone, so that every rule
//! built on them is exact.

use vstd::arithmetic::power2::{lemma_pow2_pos, lemma_pow2_strictly_increases, lemma_pow2_unfold, pow2};
use vstd::prelude::*;

verus! {

/// The bit that carries the sign.
pub const SIGN_BIT: u64 = 0x8000_0000_0000_0000;

/// The magnitude bits of an infinity; anything above is not a number.
pub const INFINITE_MAGNITUDE: u64 = 0x7FF0_0000_0000_0000;

/// One unit of the exponent field.
pub const EXPONENT_UNIT: u64 = 0x0010_0000_0000_0000;

/// The finite size that magnitude bits stand for, as a whole number of the
/// smallest positive figure: an exponent field of 0 is the fraction alone,
/// and each step above it doubles a fraction with its leading one.
pub open spec fn units(magnitude: int) -> int {
    let field = magnitude / (EXPONENT_UNIT as int);
    let fraction = magnitude % (EXPONENT_UNIT as int);
    if field == 0 {
        fraction
    } else {
        (EXPONENT_UNIT + fraction) * pow2((field - 1) as nat)
    }
}

/// A figure in IEEE 754 binary64, by its bit pattern.
#[derive(Clone, Copy, Debug, PartialEq, Eq, Structural, Hash)]
pub struct Number {
    pub bits: u64,
}

impl Number {
    /// The bit pattern without its sign bit.
    pub open spec fn magnitude(self) -> int {
        if self.bits >= SIGN_BIT {
            self.bits - SIGN_BIT
        } else {
            self.bits as int
        }
    }

    /// Not a number: no comparison holds of it.
    pub open spec fn nan(self) -> bool {
        self.magnitude() > INFINITE_MAGNITUDE
    }

    /// Neither an infinity nor a NaN.
    pub open spec fn finite(self) -> bool {
        self.magnitude() < INFINITE_MAGNITUDE
    }

    /// Position on the number line: both zeros sit at 0, and a larger figure
    /// sits further right.
    pub open spec fn place(self) -> int {
        if self.bits >= SIGN_BIT {
            -self.magnitude()
        } else {
            self.magnitude()
        }
    }

    /// Position in the total order of all bit patterns, in which `-0.0` comes
    /// just before `0.0` and every NaN has its place at one of the ends.
    pub open spec fn total_place(self) -> int {
        if self.bits >= SIGN_BIT {
            -self.magnitude() - 1
        } else {
            self.magnitude()
        }
    }

    /// `self < other`; false when either is a NaN.
    pub open spec fn below(self, other: Number) -> bool {
        !self.nan() && !other.nan() && self.place() < other.place()
    }

    /// `self <= other`; false when either is a NaN.
    pub open spec fn at_most(self, other: Number) -> bool {
        !self.nan() && !other.nan() && self.place() <= other.place()
    }

    /// A finite figure as a whole number of the smallest positive figure.
    pub open spec fn in_smallest_units(self) -> int {
        if self.bits >= SIGN_BIT {
            -units(self.magnitude())
        } else {
            units(self.magnitude())
        }
    }

    /// Positive zero.
    pub fn zero() -> (r: Number)
        ensures
            r.bits == 0,
    {
        Number { bits: 0 }
    }

    /// The bit pattern without its sign bit.
    fn magnitude_bits(&self) -> (r: u64)
        ensures
            r == self.magnitude(),
    {
        if self.bits >= SIGN_BIT {
            self.bits - SIGN_BIT
        } else {
            self.bits
        }
    }

    /// Whether this is not a number.
    pub fn is_nan(&self) -> (r: bool)
        ensures
            r == self.nan(),
    {
        self.magnitude_bits() > INFINITE_MAGNITUDE
    }

    /// Whether this is neither an infinity nor a NaN.
    pub fn is_finite(&self) -> (r: bool)
        ensures
            r == self.finite(),
    {
        self.magnitude_bits() < INFINITE_MAGNITUDE
    }

    /// The position on the number line, as an integer.
    fn place_key(&self) -> (r: i64)
        ensures
            r == self.place(),
    {
        let size: u64 = self.magnitude_bits();
        if self.bits >= SIGN_BIT {
            -(size as i64)
        } else {
            size as i64
        }
    }

    /// The position in the total order of all bit patterns.
    pub fn total_key(&self) -> (r: i64)
        ensures
            r == self.total_place(),
    {
        let size: u64 = self.magnitude_bits();
        if self.bits >= SIGN_BIT {
            -(size as i64) - 1
        } else {
            size as i64
        }
    }

    /// `self < other`.
    pub fn is_below(&self, other: &Number) -> (r: bool)
        ensures
            r == self.below(*other),
    {
        !self.is_nan() && !other.is_nan() && self.place_key() < other.place_key()
    }

    /// `self <= other`.
    pub fn is_at_most(&self, other: &Number) -> (r: bool)
        ensures
            r == self.at_most(*other),
    {
        !self.is_nan() && !other.is_nan() && self.place_key() <= other.place_key()
    }

    /// Whether the figure is greater than zero.
    pub open spec fn positive(self) -> bool {
        !self.nan() && self.place() > 0
    }

    /// Whether the figure is less than zero.
    pub open spec fn negative(self) -> bool {
        !self.nan() && self.place() < 0
    }

    /// `self > 0`.
    pub fn is_positive(&self) -> (r: bool)
        ensures
            r == self.positive(),
    {
        !self.is_nan() && self.place_key() > 0
    }

    /// `self < 0`.
    pub fn is_negative(&self) -> (r: bool)
        ensures
            r == self.negative(),
    {
        !self.is_nan() && self.place_key() < 0
    }

    /// The figure with its sign turned round.
    pub open spec fn turned(self) -> Number {
        if self.bits >= SIGN_BIT {
            Number { bits: (self.bits - SIGN_BIT) as u64 }
        } else {
            Number { bits: (self.bits + SIGN_BIT) as u64 }
        }
    }

    /// `-self`.
    pub fn negated(&self) -> (r: Number)
        ensures
            r == self.turned(),
    {
        if self.bits >= SIGN_BIT {
            Number { bits: self.bits - SIGN_BIT }
        } else {
            Number { bits: self.bits + SIGN_BIT }
        }
    }

    /// The figure without its sign.
    pub open spec fn size(self) -> Number {
        Number { bits: self.magnitude() as u64 }
    }

    /// `|self|`.
    pub fn abs(&self) -> (r: Number)
        ensures
            r == self.size(),
    {
        Number { bits: self.magnitude_bits() }
    }
}

/// Sizes grow with the magnitude bits.
pub proof fn lemma_units_grow(a: int, b: int)
    requires
        0 <= a < b < INFINITE_MAGNITUDE,
    ensures
        0 <= units(a) < units(b),
{
    let unit = EXPONENT_UNIT as int;
    let fa = a / unit;
    let fb = b / unit;
    let ra = a % unit;
    let rb = b % unit;
    assert(fa <= fb);
    let pa = pow2((fa - 1) as nat);
    let pb = pow2((fb - 1) as nat);
    if fa > 0 {
        lemma_pow2_pos((fa - 1) as nat);
        assert((unit + ra) * pa >= 0) by (nonlinear_arith)
            requires
                unit + ra >= 0,
                pa > 0,
        ;
    }
    if fb > 0 {
        lemma_pow2_pos((fb - 1) as nat);
        assert((unit + rb) * pb >= unit * pb) by (nonlinear_arith)
            requires
                rb >= 0,
                pb > 0,
        ;
        assert(unit * pb >= unit) by (nonlinear_arith)
            requires
                unit > 0,
                pb >= 1,
        ;
    }
    if fa == fb {
        assert(ra < rb);
        if fa > 0 {
            assert((unit + ra) * pa < (unit + rb) * pa) by (nonlinear_arith)
                requires
                    ra < rb,
                    pa > 0,
            ;
        }
    } else if fa > 0 {
        lemma_pow2_unfold(fa as nat);
        if fa < fb - 1 {
            lemma_pow2_strictly_increases(fa as nat, (fb - 1) as nat);
        }
        assert(pb >= 2 * pa);
        assert((unit + ra) * pa < 2 * unit * pa) by (nonlinear_arith)
            requires
                ra < unit,
                pa > 0,
        ;
        assert(2 * unit * pa <= unit * pb) by (nonlinear_arith)
            requires
                pb >= 2 * pa,
                unit > 0,
        ;
    }
}

/// Comparing two finite figures by their bit patterns is comparing the exact
/// values they stand for.
pub proof fn law_comparison_is_numeric(a: Number, b: Number)
    requires
        a.finite(),
        b.finite(),
    ensures
        a.below(b) <==> a.in_smallest_units() < b.in_smallest_units(),
        a.at_most(b) <==> a.in_smallest_units() <= b.in_smallest_units(),
{
    let ma = a.magnitude();
    let mb = b.magnitude();
    if ma < mb {
        lemma_units_grow(ma, mb);
    } else if mb < ma {
        lemma_units_grow(mb, ma);
    }
    if ma > 0 {
        lemma_units_grow(0, ma);
    }
    if mb > 0 {
        lemma_units_grow(0, mb);
    }
}

/// Turning the sign round reverses every comparison.
pub proof fn law_negation_reverses(a: Number, b: Number)
    ensures
        a.below(b) <==> b.turned().below(a.turned()),
        a.turned().turned() == a,
        a.finite() <==> a.turned().finite(),
{
}

/// What the bits of a figure say: an exponent field of all ones is an infinity,
/// or not a number where a fraction follows; any other is a finite figure. The
/// top bit is the sign.
pub proof fn law_what_the_bits_say(a: Number)
    ensures
        a.nan() <==> (a.bits / EXPONENT_UNIT) % 2048 == 2047 && a.bits % EXPONENT_UNIT != 0,
        a.finite() <==> (a.bits / EXPONENT_UNIT) % 2048 != 2047,
        a.positive() <==> !a.nan() && a.bits < SIGN_BIT && a.bits != 0,
        a.negative() <==> !a.nan() && a.bits > SIGN_BIT,
        a.size().bits < SIGN_BIT,
        a.size() == a || a.size() == a.turned(),
{
}

/// How a figure that is no number or an infinity compares: the first with
/// nothing, the infinities at the two ends of all figures.
pub proof fn law_infinities_and_no_numbers(a: Number, b: Number)
    ensures
        a.nan() || b.nan() ==> !a.below(b) && !a.at_most(b),
        !a.nan() && !b.nan() ==> (a.at_most(b) <==> !b.below(a)),
        a.finite() && b.bits == INFINITE_MAGNITUDE ==> a.below(b),
        a.finite() && b.bits == SIGN_BIT + INFINITE_MAGNITUDE ==> b.below(a),
{
}

/// The signs of finite figures are those of the sizes they stand for, and a
/// figure turned round or without its sign stands for what one expects.
pub proof fn law_signs_are_numeric(a: Number)
    requires
        a.finite(),
    ensures
        a.positive() <==> a.in_smallest_units() > 0,
        a.negative() <==> a.in_smallest_units() < 0,
        a.turned().in_smallest_units() == -a.in_smallest_units(),
        a.size().in_smallest_units() == if a.in_smallest_units() < 0 {
            -a.in_smallest_units()
        } else {
            a.in_smallest_units()
        },
{
    if a.magnitude() > 0 {
        lemma_units_grow(0, a.magnitude());
    }
}

/// The total order refines comparison: of two figures that compare the lower
/// comes first, negative zero comes just before zero, and what is no number
/// comes at an end.
pub proof fn law_the_total_order_refines_comparison(a: Number, b: Number)
    ensures
        a.below(b) ==> a.total_place() < b.total_place(),
        a.total_place() == b.total_place() <==> a == b,
        a.bits == SIGN_BIT && b.bits == 0 ==> a.total_place() + 1 == b.total_place(),
        a.nan() && !b.nan() ==> (a.total_place() < b.total_place() <==> a.bits >= SIGN_BIT),
{
}

} // verus!
