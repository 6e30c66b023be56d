//! What floating-point arithmetic makes of two figures, as the laws speak of
//! it: IEEE 754 binary64, where each result is the figure nearest to the exact
//! one, and of two as near the even one.
//!
//! Nothing here is executed. It says what the figures are that are computed
//! outside and handed in.

use crate::number::{Number, EXPONENT_UNIT, INFINITE_MAGNITUDE, SIGN_BIT};
use vstd::arithmetic::div_mod::{lemma_div_denominator, lemma_fundamental_div_mod};
use vstd::arithmetic::power2::{lemma_pow2_pos, lemma_pow2_unfold, pow2};
use vstd::prelude::*;

verus! {

/// The bits of a result that is not a number. Which such bits come out does not
/// matter to any comparison.
pub const NOT_A_NUMBER: u64 = 0x7FF8_0000_0000_0000;

/// How many of the smallest positive figure make one.
pub open spec fn units_of_one() -> int {
    pow2(1074) as int
}

/// By how many binary digits a size exceeds the 53 that a figure holds.
pub open spec fn excess(size: int) -> nat
    decreases size,
{
    if size < 2 * EXPONENT_UNIT {
        0
    } else {
        1 + excess(size / 2)
    }
}

/// The magnitude bits of the figure nearest to the size `n / d`, counted in the
/// smallest positive figure. Of two as near it is the even one, and beyond the
/// largest figure it is the infinity.
pub open spec fn nearest(n: int, d: int) -> int {
    let step = d * pow2(excess(n / d));
    let kept = if 2 * (n % step) > step || (2 * (n % step) == step && (n / step) % 2 == 1) {
        n / step + 1
    } else {
        n / step
    };
    let magnitude = excess(n / d) * EXPONENT_UNIT + kept;
    if magnitude < INFINITE_MAGNITUDE {
        magnitude
    } else {
        INFINITE_MAGNITUDE as int
    }
}

/// The figure with these magnitude bits and this sign.
pub open spec fn signed(minus: bool, magnitude: int) -> Number {
    if minus {
        Number { bits: (SIGN_BIT + magnitude) as u64 }
    } else {
        Number { bits: magnitude as u64 }
    }
}

/// Whether two figures have different signs.
pub open spec fn unlike(a: Number, b: Number) -> bool {
    (a.bits >= SIGN_BIT) != (b.bits >= SIGN_BIT)
}

/// `a + b`.
pub open spec fn sum(a: Number, b: Number) -> Number {
    let exact = a.in_smallest_units() + b.in_smallest_units();
    if a.nan() || b.nan() || (!a.finite() && !b.finite() && unlike(a, b)) {
        Number { bits: NOT_A_NUMBER }
    } else if !a.finite() {
        a
    } else if !b.finite() {
        b
    } else if exact > 0 {
        signed(false, nearest(exact, 1))
    } else if exact < 0 {
        signed(true, nearest(-exact, 1))
    } else {
        signed(a.bits == SIGN_BIT && b.bits == SIGN_BIT, 0)
    }
}

/// `a - b`.
pub open spec fn difference(a: Number, b: Number) -> Number {
    sum(a, b.turned())
}

/// `a * b`.
pub open spec fn product(a: Number, b: Number) -> Number {
    if a.nan() || b.nan() || (!a.finite() && b.magnitude() == 0) || (a.magnitude() == 0
        && !b.finite()) {
        Number { bits: NOT_A_NUMBER }
    } else if !a.finite() || !b.finite() {
        signed(unlike(a, b), INFINITE_MAGNITUDE as int)
    } else {
        let exact = crate::number::units(a.magnitude()) * crate::number::units(b.magnitude());
        signed(unlike(a, b), nearest(exact, units_of_one()))
    }
}

/// `a / b`.
pub open spec fn quotient(a: Number, b: Number) -> Number {
    if a.nan() || b.nan() || (!a.finite() && !b.finite()) || (a.magnitude() == 0 && b.magnitude()
        == 0) {
        Number { bits: NOT_A_NUMBER }
    } else if !a.finite() || b.magnitude() == 0 {
        signed(unlike(a, b), INFINITE_MAGNITUDE as int)
    } else if !b.finite() {
        signed(unlike(a, b), 0)
    } else {
        signed(
            unlike(a, b),
            nearest(
                crate::number::units(a.magnitude()) * units_of_one(),
                crate::number::units(b.magnitude()),
            ),
        )
    }
}

/// How far apart two whole numbers are.
pub open spec fn distance(a: int, b: int) -> int {
    if a < b {
        b - a
    } else {
        a - b
    }
}

/// The excess is what brings a size within the 53 digits.
proof fn lemma_excess(size: int)
    requires
        size >= 0,
    ensures
        size < 2 * EXPONENT_UNIT * pow2(excess(size)),
        excess(size) > 0 ==> EXPONENT_UNIT * pow2(excess(size)) <= size,
    decreases size,
{
    let k = excess(size);
    if size < 2 * EXPONENT_UNIT {
        assert(pow2(0) == 1) by {
            vstd::arithmetic::power2::lemma2_to64();
        }
    } else {
        lemma_excess(size / 2);
        lemma_pow2_unfold(k);
        let half = pow2((k - 1) as nat);
        assert(pow2(k) == 2 * half);
        assert(2 * EXPONENT_UNIT * pow2(k) == 2 * (2 * EXPONENT_UNIT * half)) by (nonlinear_arith)
            requires
                pow2(k) == 2 * half,
        ;
        assert(EXPONENT_UNIT * pow2(k) == 2 * (EXPONENT_UNIT * half)) by (nonlinear_arith)
            requires
                pow2(k) == 2 * half,
        ;
        if k == 1 {
            assert(half == 1) by {
                vstd::arithmetic::power2::lemma2_to64();
            }
        }
    }
}

/// The size of a figure of at most 53 digits, each worth `2^k` of the smallest
/// positive figure.
proof fn lemma_units_of_digits(k: nat, digits: int)
    requires
        0 <= digits <= 2 * EXPONENT_UNIT,
        k > 0 ==> EXPONENT_UNIT <= digits,
    ensures
        crate::number::units(k * EXPONENT_UNIT + digits) == digits * pow2(k),
{
    let unit = EXPONENT_UNIT as int;
    let m = k * unit + digits;
    if k == 0 {
        assert(pow2(0) == 1) by {
            vstd::arithmetic::power2::lemma2_to64();
        }
    }
    if digits == 2 * unit {
        assert(m == (k + 2) * unit) by (nonlinear_arith)
            requires
                m == k * unit + 2 * unit,
        ;
        assert(m / unit == k + 2 && m % unit == 0);
        lemma_pow2_unfold((k + 1) as nat);
        assert(unit * pow2((k + 1) as nat) == digits * pow2(k)) by (nonlinear_arith)
            requires
                pow2((k + 1) as nat) == 2 * pow2(k),
                digits == 2 * unit,
        ;
    } else if digits >= unit {
        assert(m == (k + 1) * unit + (digits - unit)) by (nonlinear_arith)
            requires
                m == k * unit + digits,
        ;
        assert(m / unit == k + 1 && m % unit == digits - unit);
    } else {
        assert(m / unit == 0 && m % unit == digits);
        assert(digits * pow2(k) == digits) by (nonlinear_arith)
            requires
                pow2(k) == 1,
        ;
    }
}

/// Rounding takes the nearest figure: no other lies closer to the exact size.
pub proof fn law_no_figure_lies_closer(n: int, d: int, magnitude: int)
    requires
        0 <= n,
        0 < d,
        nearest(n, d) < INFINITE_MAGNITUDE,
        0 <= magnitude < INFINITE_MAGNITUDE,
    ensures
        0 <= nearest(n, d),
        distance(n, d * crate::number::units(nearest(n, d))) <= distance(
            n,
            d * crate::number::units(magnitude),
        ),
{
    let k = excess(n / d);
    let p = pow2(k) as int;
    let step = d * p;
    let (q, r) = (n / step, n % step);
    lemma_digits(n, d);
    lemma_units_of_digits(k, q);
    lemma_units_of_digits(k, q + 1);
    let low = k * EXPONENT_UNIT + q;
    let size = crate::number::units(magnitude);
    assert(d * (q * p) == q * step) by (nonlinear_arith)
        requires
            step == d * p,
    ;
    assert(d * ((q + 1) * p) == q * step + step) by (nonlinear_arith)
        requires
            step == d * p,
    ;
    if magnitude <= low {
        if magnitude < low {
            crate::number::lemma_units_grow(magnitude, low);
        }
        assert(d * size <= d * (q * p)) by (nonlinear_arith)
            requires
                size <= q * p,
                d > 0,
        ;
    } else {
        if low + 1 < magnitude {
            crate::number::lemma_units_grow(low + 1, magnitude);
        }
        assert(d * size >= d * ((q + 1) * p)) by (nonlinear_arith)
            requires
                size >= (q + 1) * p,
                d > 0,
        ;
    }
}

/// A size is a whole number of steps, of at most 53 digits, and less than one
/// step more.
proof fn lemma_digits(n: int, d: int)
    requires
        0 <= n,
        0 < d,
    ensures
        ({
            let k = excess(n / d);
            let step = d * pow2(k);
            &&& 0 < step
            &&& n == (n / step) * step + n % step
            &&& 0 <= n % step < step
            &&& 0 <= n / step < 2 * EXPONENT_UNIT
            &&& k > 0 ==> EXPONENT_UNIT <= n / step
        }),
{
    let s = n / d;
    let k = excess(s);
    let p = pow2(k) as int;
    let step = d * p;
    lemma_pow2_pos(k);
    assert(s >= 0) by (nonlinear_arith)
        requires
            s == n / d,
            n >= 0,
            d > 0,
    ;
    lemma_excess(s);
    assert(step > 0) by (nonlinear_arith)
        requires
            step == d * p,
            d > 0,
            p > 0,
    ;
    lemma_fundamental_div_mod(n, step);
    assert(step * (n / step) == (n / step) * step) by (nonlinear_arith);
    lemma_div_denominator(n, d, p);
    let q = s / p;
    lemma_fundamental_div_mod(s, p);
    assert(q < 2 * EXPONENT_UNIT) by (nonlinear_arith)
        requires
            s == p * q + s % p,
            s % p >= 0,
            s < 2 * EXPONENT_UNIT * p,
            p > 0,
    ;
    assert(q >= 0) by (nonlinear_arith)
        requires
            s == p * q + s % p,
            s % p < p,
            s >= 0,
            p > 0,
    ;
    if k > 0 {
        assert(q >= EXPONENT_UNIT) by (nonlinear_arith)
            requires
                s == p * q + s % p,
                s % p < p,
                EXPONENT_UNIT * p <= s,
                p > 0,
        ;
    }
}

/// Figures that are not below zero add up to one that is not.
pub proof fn law_a_sum_does_not_fall_below_zero(a: Number, b: Number)
    requires
        !a.nan() && !a.negative(),
        !b.nan() && !b.negative(),
    ensures
        !sum(a, b).nan(),
        !sum(a, b).negative(),
{
    if a.finite() && b.finite() {
        lemma_not_below_zero(a);
        lemma_not_below_zero(b);
        let exact = a.in_smallest_units() + b.in_smallest_units();
        lemma_digits(exact, 1);
        assert(excess(exact / 1) * EXPONENT_UNIT >= 0) by (nonlinear_arith)
            requires
                excess(exact / 1) >= 0,
        ;
    }
}

/// A finite figure that is not below zero stands for a size that is not.
proof fn lemma_not_below_zero(a: Number)
    requires
        a.finite(),
        !a.negative(),
    ensures
        a.in_smallest_units() >= 0,
{
    if a.magnitude() > 0 {
        crate::number::lemma_units_grow(0, a.magnitude());
    }
}

/// Whether a figure is the one nearest to the fraction `n / d`: no other lies
/// closer to it.
pub open spec fn closest(a: Number, n: int, d: int) -> bool {
    &&& a.finite()
    &&& forall|b: Number| #[trigger]
        b.finite() ==> distance(n * units_of_one(), d * a.in_smallest_units()) <= distance(
            n * units_of_one(),
            d * b.in_smallest_units(),
        )
}

/// Whether a figure is the fraction `n / d` itself.
pub open spec fn exactly(a: Number, n: int, d: int) -> bool {
    a.finite() && n * units_of_one() == d * a.in_smallest_units()
}

/// One is so many steps of `2^k` of the smallest positive figure.
proof fn lemma_steps_in_one(k: nat, shift: nat)
    requires
        k + shift == 1074,
    ensures
        units_of_one() == pow2(shift) * pow2(k),
{
    vstd::arithmetic::power2::lemma_pow2_adds(shift, k);
}

/// A figure between zero and one that lies within half a step of a fraction is
/// the nearest to it.
pub proof fn lemma_closest(a: Number, k: nat, digits: int, shift: nat, n: int, d: int)
    requires
        k + shift == 1074,
        a.bits == k * EXPONENT_UNIT + digits,
        a.bits < INFINITE_MAGNITUDE,
        EXPONENT_UNIT < digits < 2 * EXPONENT_UNIT,
        0 < d,
        0 <= n,
        2 * distance(n * pow2(shift), d * digits) <= d,
    ensures
        closest(a, n, d),
{
    let p = pow2(k) as int;
    let s = pow2(shift) as int;
    let one = units_of_one();
    lemma_pow2_pos(k);
    lemma_steps_in_one(k, shift);
    lemma_units_of_digits(k, digits);
    lemma_units_of_digits(k, digits + 1);
    lemma_units_of_digits(k, digits - 1);
    let m = a.bits as int;
    assert(k * EXPONENT_UNIT + (digits + 1) == m + 1);
    assert(k * EXPONENT_UNIT + (digits - 1) == m - 1);
    let exact = n * one;
    assert(exact == (n * s) * p) by (nonlinear_arith)
        requires
            exact == n * one,
            one == s * p,
    ;
    let mine = d * (digits * p);
    assert(mine == (d * digits) * p) by (nonlinear_arith)
        requires
            mine == d * (digits * p),
    ;
    let off = distance(n * s, d * digits);
    assert(distance(exact, mine) == off * p) by {
        if n * s < d * digits {
            assert((n * s) * p <= (d * digits) * p && (d * digits - n * s) * p == (d * digits) * p - (n
                * s) * p) by (nonlinear_arith)
                requires
                    n * s < d * digits,
                    p > 0,
            ;
        } else {
            assert((n * s) * p >= (d * digits) * p && (n * s - d * digits) * p == (n * s) * p - (d
                * digits) * p) by (nonlinear_arith)
                requires
                    n * s >= d * digits,
                    p > 0,
            ;
        }
    }
    assert(2 * (off * p) <= d * p) by (nonlinear_arith)
        requires
            2 * off <= d,
            p > 0,
    ;
    assert(d * ((digits + 1) * p) == mine + d * p) by (nonlinear_arith)
        requires
            mine == d * (digits * p),
    ;
    assert(d * ((digits - 1) * p) == mine - d * p) by (nonlinear_arith)
        requires
            mine == d * (digits * p),
    ;
    assert forall|b: Number| #[trigger] b.finite() implies distance(exact, mine) <= distance(
        exact,
        d * b.in_smallest_units(),
    ) by {
        let size = crate::number::units(b.magnitude());
        if b.magnitude() > 0 {
            crate::number::lemma_units_grow(0, b.magnitude());
        }
        let value = b.in_smallest_units();
        if value != digits * p {
            if b.bits < SIGN_BIT && b.magnitude() > m {
                if b.magnitude() > m + 1 {
                    crate::number::lemma_units_grow(m + 1, b.magnitude());
                }
                assert(d * value >= d * ((digits + 1) * p)) by (nonlinear_arith)
                    requires
                        value >= (digits + 1) * p,
                        d > 0,
                ;
            } else {
                if b.bits < SIGN_BIT && b.magnitude() < m - 1 {
                    crate::number::lemma_units_grow(b.magnitude(), m - 1);
                }
                assert((digits - 1) * p >= 0) by (nonlinear_arith)
                    requires
                        digits >= 1,
                        p > 0,
                ;
                assert(d * value <= d * ((digits - 1) * p)) by (nonlinear_arith)
                    requires
                        value <= (digits - 1) * p,
                        d > 0,
                ;
            }
        }
    }
}

/// A figure that is a fraction without rounding.
pub proof fn lemma_exactly(a: Number, k: nat, digits: int, shift: nat, n: int, d: int)
    requires
        k + shift == 1074,
        a.bits == k * EXPONENT_UNIT + digits,
        a.bits < INFINITE_MAGNITUDE,
        EXPONENT_UNIT <= digits < 2 * EXPONENT_UNIT,
        n * pow2(shift) == d * digits,
    ensures
        exactly(a, n, d),
{
    let p = pow2(k) as int;
    let s = pow2(shift) as int;
    lemma_steps_in_one(k, shift);
    lemma_units_of_digits(k, digits);
    assert(n * (s * p) == d * (digits * p)) by (nonlinear_arith)
        requires
            n * s == d * digits,
    ;
}

} // verus!
