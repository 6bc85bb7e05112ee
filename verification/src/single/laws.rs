//! What holds of the arithmetic as a whole: it keeps order, and one and zero
//! behave as they should.

use crate::single::arith::{difference, distance_from_zero, product, quotient, sum};
use crate::single::model::{
    lemma_magnitude_increases, lemma_rounded, lemma_rounded_exact, lemma_rounded_monotonic,
    magnitude, rounded, INFINITY_BITS,
};
use crate::single::{Single, ONE_BITS};
use vstd::arithmetic::power2::{lemma2_to64, lemma_pow2_adds, lemma_pow2_pos, pow2};
use vstd::prelude::*;

verus! {

/// The place of the number nearest to `v` units.
pub open spec fn rounded_place(v: int) -> int {
    if v < 0 {
        -(rounded(distance_from_zero(v), 1) as int)
    } else {
        rounded(distance_from_zero(v), 1) as int
    }
}

/// Whether a number lies between zero and one.
pub open spec fn in_unit(x: Single) -> bool {
    Single::zero().is_at_most(x) && x.is_at_most(Single::one())
}

/// Zero rounds to zero, and every result is a number's pattern.
proof fn lemma_rounded_zero(d: nat)
    requires
        d > 0,
    ensures
        rounded(0, d) == 0,
{
    lemma_rounded_exact(d, 0);
    assert(magnitude(0) * d == 0) by (nonlinear_arith)
        requires
            magnitude(0) == 0,
    ;
}

/// Rounding keeps order.
pub proof fn lemma_rounded_place_monotonic(v: int, w: int)
    requires
        v <= w,
    ensures
        rounded_place(v) <= rounded_place(w),
        v >= 0 ==> rounded_place(v) >= 0,
        v <= 0 ==> rounded_place(v) <= 0,
        -INFINITY_BITS <= rounded_place(v) <= INFINITY_BITS,
        -INFINITY_BITS <= rounded_place(w) <= INFINITY_BITS,
{
    lemma_rounded_zero(1);
    lemma_rounded(distance_from_zero(v), 1);
    lemma_rounded(distance_from_zero(w), 1);
    if 0 <= v {
        lemma_rounded_monotonic(distance_from_zero(v), 1, distance_from_zero(w), 1);
    } else if w < 0 {
        lemma_rounded_monotonic(distance_from_zero(w), 1, distance_from_zero(v), 1);
    }
}

/// The value of a number rounds to its own place.
pub proof fn lemma_place_of_value(a: Single)
    requires
        a.is_finite(),
    ensures
        rounded_place(a.value()) == a.place(),
        a.value() >= 0 <==> a.place() >= 0,
        a.value() <= 0 <==> a.place() <= 0,
{
    let b: nat = a.pattern();
    if b > 0 {
        lemma_magnitude_increases(0, b);
    }
    lemma_rounded_exact(1, b);
    assert(magnitude(b) * 1 == magnitude(b)) by (nonlinear_arith);
    lemma_rounded_zero(1);
}

/// The place of a finite sum.
pub proof fn lemma_sum_place(a: Single, b: Single)
    requires
        a.is_finite(),
        b.is_finite(),
    ensures
        !sum(a, b).is_nan(),
        sum(a, b).place() == rounded_place(a.value() + b.value()),
{
    let v: int = a.value() + b.value();
    lemma_rounded_zero(1);
    lemma_rounded(distance_from_zero(v), 1);
}

/// Adding what is not negative does not decrease a number.
pub proof fn lemma_sum_at_least(a: Single, b: Single)
    requires
        a.is_finite(),
        Single::zero().is_at_most(b),
    ensures
        a.is_at_most(sum(a, b)),
{
    if b.is_finite() {
        lemma_sum_place(a, b);
        lemma_place_of_value(a);
        lemma_place_of_value(b);
        lemma_rounded_place_monotonic(a.value(), a.value() + b.value());
    }
}

/// Subtracting what is not negative does not increase a number.
pub proof fn lemma_difference_at_most(a: Single, b: Single)
    requires
        a.is_finite(),
        Single::zero().is_at_most(b),
    ensures
        difference(a, b).is_at_most(a),
{
    let c = b.negated();
    lemma_negated(b);
    if b.is_finite() {
        lemma_sum_place(a, c);
        lemma_place_of_value(a);
        lemma_place_of_value(c);
        lemma_rounded_place_monotonic(a.value() + c.value(), a.value());
    }
}

/// A number and its negation lie on opposite places.
pub proof fn lemma_negated(b: Single)
    ensures
        b.negated().pattern() == b.pattern(),
        b.negated().is_negative() == !b.is_negative(),
        b.negated().place() == -b.place(),
{
}

/// Adding a smaller number gives no greater sum.
pub proof fn lemma_sum_monotonic(a: Single, b: Single, c: Single)
    requires
        a.is_finite(),
        b.is_finite(),
        c.is_finite(),
        b.value() <= c.value(),
    ensures
        sum(a, b).is_at_most(sum(a, c)),
{
    lemma_sum_place(a, b);
    lemma_sum_place(a, c);
    lemma_rounded_place_monotonic(a.value() + b.value(), a.value() + c.value());
}

/// One is one: its magnitude is that of the unit.
pub proof fn lemma_one()
    ensures
        Single::one().is_finite(),
        !Single::one().is_negative(),
        Single::one().pattern() == ONE_BITS,
        magnitude(ONE_BITS as nat) == pow2(149),
        Single::one().value() == pow2(149),
        pow2(149) > 0,
{
    lemma2_to64();
    lemma_pow2_adds(23, 126);
    lemma_pow2_pos(149);
    assert(0x80_0000 * pow2(126) == pow2(23) * pow2(126)) by (nonlinear_arith)
        requires
            pow2(23) == 0x80_0000,
    ;
}

/// One and one are a finite number, whose pattern is the next power's.
pub proof fn lemma_two()
    ensures
        sum(Single::one(), Single::one()) == (Single { bits: 0x4000_0000 }),
{
    lemma_one();
    lemma2_to64();
    lemma_pow2_adds(22, 127);
    assert(0x80_0000 * pow2(127) == 2 * pow2(149)) by (nonlinear_arith)
        requires
            pow2(149) == pow2(22) * pow2(127),
            pow2(22) == 0x40_0000,
    ;
    lemma_rounded_exact(1, 0x4000_0000);
    assert(magnitude(0x4000_0000) * 1 == 2 * pow2(149)) by (nonlinear_arith)
        requires
            magnitude(0x4000_0000) == 2 * pow2(149),
    ;
}

/// A number times one is itself.
pub proof fn lemma_times_one(x: Single)
    requires
        !x.is_nan(),
    ensures
        product(x, Single::one()) == x,
        product(Single::one(), x) == x,
{
    lemma_one();
    if x.is_finite() {
        let m: nat = magnitude(x.pattern());
        lemma_rounded_exact(pow2(149), x.pattern());
        assert(m * pow2(149) == pow2(149) * m) by (nonlinear_arith);
    }
}

/// A finite number that is not negative, times zero, is zero.
pub proof fn lemma_times_zero(x: Single)
    requires
        x.is_finite(),
        !x.is_negative(),
    ensures
        product(x, Single::zero()) == Single::zero(),
        product(Single::zero(), x) == Single::zero(),
{
    lemma_pow2_pos(149);
    lemma_rounded_zero(pow2(149));
    let m: nat = magnitude(x.pattern());
    assert(magnitude(0) == 0);
    assert(m * 0 == 0 && 0 * m == 0) by (nonlinear_arith);
}

/// The product of two numbers that are not negative is not negative either.
pub proof fn lemma_product_sign(a: Single, b: Single)
    requires
        Single::zero().is_at_most(a),
        Single::zero().is_at_most(b),
    ensures
        product(a, b).is_nan() || Single::zero().is_at_most(product(a, b)),
{
    if a.is_finite() && b.is_finite() {
        let n: nat = magnitude(a.pattern()) * magnitude(b.pattern());
        lemma_pow2_pos(149);
        lemma_rounded(n, pow2(149));
        if a.is_zero() || b.is_zero() {
            lemma_rounded_zero(pow2(149));
            assert(n == 0) by (nonlinear_arith)
                requires
                    n == magnitude(a.pattern()) * magnitude(b.pattern()),
                    magnitude(a.pattern()) == 0 || magnitude(b.pattern()) == 0,
            ;
        }
    }
}

/// Negating a factor negates the product.
pub proof fn lemma_product_negated(a: Single, b: Single)
    requires
        a.is_finite(),
        b.is_finite(),
    ensures
        !product(a, b).is_nan(),
        product(a.negated(), b).place() == -product(a, b).place(),
{
    lemma_negated(a);
    lemma_pow2_pos(149);
    lemma_rounded(magnitude(a.pattern()) * magnitude(b.pattern()), pow2(149));
}

/// The quotient of what is not negative by what is positive is not negative.
pub proof fn lemma_quotient_sign(a: Single, b: Single)
    requires
        Single::zero().is_at_most(a),
        Single::zero().is_less(b),
    ensures
        quotient(a, b).is_nan() || Single::zero().is_at_most(quotient(a, b)),
{
    if a.is_finite() && b.is_finite() {
        lemma_magnitude_increases(0, b.pattern());
        let n: nat = magnitude(a.pattern()) * pow2(149);
        lemma_rounded(n, magnitude(b.pattern()));
        if a.is_zero() {
            lemma_rounded_zero(magnitude(b.pattern()));
            assert(n == 0) by (nonlinear_arith)
                requires
                    n == magnitude(a.pattern()) * pow2(149),
                    magnitude(a.pattern()) == 0,
            ;
        }
    }
}

/// A finite number that is not negative, scaled by a factor between zero and
/// one, lies between zero and itself.
pub proof fn lemma_product_unit(a: Single, b: Single)
    requires
        Single::zero().is_at_most(a),
        a.is_finite(),
        in_unit(b),
    ensures
        Single::zero().is_at_most(product(a, b)),
        product(a, b).is_at_most(a),
{
    lemma_one();
    lemma_product_sign(a, b);
    let x: nat = magnitude(a.pattern());
    let y: nat = magnitude(b.pattern());
    let unit: nat = pow2(149);
    if b.pattern() < ONE_BITS {
        lemma_magnitude_increases(b.pattern(), ONE_BITS as nat);
    }
    assert((x * y) * unit <= (x * unit) * unit) by (nonlinear_arith)
        requires
            y <= unit,
    ;
    lemma_rounded_monotonic(x * y, unit, x * unit, unit);
    lemma_rounded_exact(unit, a.pattern());
    lemma_rounded(x * y, unit);
}

/// The order of the factors does not matter.
pub proof fn lemma_product_commutes(a: Single, b: Single)
    ensures
        product(a, b) == product(b, a),
{
    let x: nat = magnitude(a.pattern());
    let y: nat = magnitude(b.pattern());
    assert(x * y == y * x) by (nonlinear_arith);
}

/// Scaling what is not negative by what is not negative keeps order.
pub proof fn lemma_product_monotonic(t: Single, a: Single, b: Single)
    requires
        t.is_finite() && !t.is_negative(),
        !a.is_nan() && !a.is_negative(),
        !b.is_nan() && !b.is_negative(),
        a.is_at_most(b),
        b.is_infinite() ==> !t.is_zero(),
    ensures
        !product(t, a).is_nan() && !product(t, a).is_negative(),
        !product(t, b).is_nan() && !product(t, b).is_negative(),
        product(t, a).pattern() <= product(t, b).pattern(),
{
    let unit: nat = pow2(149);
    let m: nat = magnitude(t.pattern());
    let x: nat = magnitude(a.pattern());
    let y: nat = magnitude(b.pattern());
    lemma_pow2_pos(149);
    lemma_rounded(m * x, unit);
    lemma_rounded(m * y, unit);
    if a.is_finite() && b.is_finite() {
        if a.pattern() < b.pattern() {
            lemma_magnitude_increases(a.pattern(), b.pattern());
        }
        assert((m * x) * unit <= (m * y) * unit) by (nonlinear_arith)
            requires
                x <= y,
        ;
        lemma_rounded_monotonic(m * x, unit, m * y, unit);
    }
}

} // verus!
