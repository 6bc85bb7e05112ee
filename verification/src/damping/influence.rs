//! How the influence of a field runs from its centre to its radius.
//!
//! The smooth step is computed in single precision, so it follows the curve
//! `t * t * (3 - 2 * t)` up to rounding only. The bounds here are counted in
//! grains: half of the distance between the numbers just below one.

use crate::damping::laws::lemma_two_and_three;
use crate::damping::{smooth, SoundDampingField, THREE_BITS, TWO_BITS};
use crate::single::arith::{difference, product, quotient};
use crate::single::laws::{in_unit, lemma_negated, lemma_one};
use crate::single::model::{
    lemma_magnitude_increases, lemma_rounded, lemma_rounded_exact, lemma_rounded_is,
    lemma_rounded_monotonic, lemma_rounding_error, lemma_spacing, lemma_spacing_grows, magnitude,
    rounded, spacing, BINADE, INFINITY_BITS,
};
use crate::single::{Single, ONE_BITS};
use vstd::arithmetic::power2::{lemma2_to64, lemma_pow2_adds, lemma_pow2_pos, pow2};
use vstd::prelude::*;

verus! {

/// The bits of one half.
const HALF_BITS: u32 = 0x3f00_0000;

/// Half of the distance between the numbers just below one.
spec fn grain() -> nat {
    pow2(124)
}

/// How many grains make one, and how far apart the numbers below one, two and
/// three lie in grains.
proof fn lemma_grain()
    ensures
        grain() > 0,
        pow2(149) == 0x200_0000 * grain(),
        pow2(125) == 2 * grain(),
        pow2(126) == 4 * grain(),
        spacing((ONE_BITS - 1) as nat) == 2 * grain(),
        spacing(ONE_BITS as nat) == 4 * grain(),
        spacing((TWO_BITS - 1) as nat) == 4 * grain(),
        spacing((THREE_BITS - 1) as nat) == 8 * grain(),
{
    lemma2_to64();
    lemma_pow2_pos(124);
    lemma_pow2_adds(25, 124);
    lemma_pow2_adds(1, 124);
    lemma_pow2_adds(2, 124);
    lemma_pow2_adds(3, 124);
    assert(pow2(25) == 0x200_0000);
    assert(pow2(149) == pow2(25) * pow2(124));
}

/// The curve of the smooth step in whole numbers: `t * t * (3 - 2 * t)`, where `t`
/// is `x` parts of `unit`, times the cube of `unit`.
spec fn cubic(x: int, unit: int) -> int {
    (x * x) * (3 * unit - 2 * x)
}

/// The way between two points of the curve, divided by the way between their
/// positions.
spec fn slope(a: int, b: int, unit: int) -> int {
    3 * (unit * (a + b)) - 2 * (a * a + a * b + b * b)
}

/// The slope is what it says.
proof fn lemma_slope(a: int, b: int, unit: int)
    ensures
        cubic(b, unit) - cubic(a, unit) == (b - a) * slope(a, b, unit),
{
    assert((b * b) * (3 * unit - 2 * b) - (a * a) * (3 * unit - 2 * a) == (b - a) * (3 * (unit * (a
        + b)) - 2 * (a * a + a * b + b * b))) by (nonlinear_arith);
}

/// The slope of the curve is nowhere negative and nowhere more than three halves.
proof fn lemma_slope_range(a: int, b: int, unit: int)
    requires
        0 <= a <= unit,
        0 <= b <= unit,
    ensures
        slope(a, b, unit) >= 0,
        2 * slope(a, b, unit) <= 3 * (unit * unit),
{
    assert(a * a <= unit * a && b * b <= unit * b && 2 * (a * b) <= unit * a + unit * b)
        by (nonlinear_arith)
        requires
            0 <= a <= unit,
            0 <= b <= unit,
    ;
    assert(unit * (a + b) == unit * a + unit * b) by (nonlinear_arith);
    let p: int = 2 * a - unit;
    let q: int = 2 * b - unit;
    assert(p * p + p * q + q * q == 3 * (unit * unit) - 2 * (3 * (unit * (a + b)) - 2 * (a * a + a
        * b + b * b))) by (nonlinear_arith)
        requires
            p == 2 * a - unit,
            q == 2 * b - unit,
    ;
    assert(p * p + p * q + q * q >= 0) by (nonlinear_arith);
}

/// The curve rises.
proof fn lemma_cubic_rises(a: int, b: int, unit: int)
    requires
        0 <= a <= b <= unit,
    ensures
        cubic(a, unit) <= cubic(b, unit),
{
    lemma_slope(a, b, unit);
    lemma_slope_range(a, b, unit);
    assert((b - a) * slope(a, b, unit) >= 0) by (nonlinear_arith)
        requires
            a <= b,
            slope(a, b, unit) >= 0,
    ;
}

/// The square in the smooth step is off by a grain at most.
proof fn lemma_square(t: Single)
    requires
        in_unit(t),
    ensures
        ({
            let x = magnitude(t.pattern());
            let s = product(t, t);
            let y = magnitude(s.pattern());
            &&& x <= pow2(149)
            &&& s.is_finite() && !s.is_negative() && y <= pow2(149)
            &&& -(grain() * pow2(149)) <= y * pow2(149) - x * x <= grain() * pow2(149)
        }),
{
    lemma_one();
    lemma_grain();
    let unit: nat = pow2(149);
    let x: nat = magnitude(t.pattern());
    if t.pattern() < ONE_BITS {
        lemma_magnitude_increases(t.pattern(), ONE_BITS as nat);
    }
    assert(x * x <= unit * unit) by (nonlinear_arith)
        requires
            x <= unit,
    ;
    lemma_rounding_error(x * x, unit, ONE_BITS as nat);
    let y: nat = magnitude(rounded(x * x, unit));
    if rounded(x * x, unit) < ONE_BITS {
        lemma_magnitude_increases(rounded(x * x, unit), ONE_BITS as nat);
    }
    assert((2 * grain()) * unit == 2 * (grain() * unit)) by (nonlinear_arith);
}

/// The other factor of the smooth step is off by six grains at most.
proof fn lemma_rest(t: Single)
    requires
        in_unit(t),
    ensures
        ({
            let x = magnitude(t.pattern());
            let w = product(Single { bits: TWO_BITS }, t);
            let r = difference(Single { bits: THREE_BITS }, w);
            let z = magnitude(r.pattern());
            &&& w.is_finite() && w.pattern() <= TWO_BITS
            &&& r.is_finite() && !r.is_negative() && z <= 3 * pow2(149)
            &&& -(6 * grain()) <= z - (3 * pow2(149) - 2 * x) <= 6 * grain()
            &&& r.pattern() == rounded((3 * pow2(149) - magnitude(w.pattern())) as nat, 1)
        }),
{
    lemma_one();
    lemma_grain();
    lemma_two_and_three();
    let unit: nat = pow2(149);
    let g: nat = grain();
    let x: nat = magnitude(t.pattern());
    if t.pattern() < ONE_BITS {
        lemma_magnitude_increases(t.pattern(), ONE_BITS as nat);
    }
    let n: nat = (2 * unit) * x;
    assert(n <= (2 * unit) * unit) by (nonlinear_arith)
        requires
            n == (2 * unit) * x,
            x <= unit,
    ;
    lemma_rounding_error(n, unit, TWO_BITS as nat);
    let b: nat = rounded(n, unit);
    let w: nat = magnitude(b);
    if b < TWO_BITS {
        lemma_magnitude_increases(b, TWO_BITS as nat);
    }
    assert(-(2 * g) <= w - 2 * x <= 2 * g) by (nonlinear_arith)
        requires
            2 * (w * unit - n) <= (4 * g) * unit,
            2 * (n - w * unit) <= (4 * g) * unit,
            n == (2 * unit) * x,
            unit > 0,
    ;
    let twice = product(Single { bits: TWO_BITS }, t);
    assert(twice.pattern() == b);
    lemma_negated(twice);
    let v: int = 3 * unit - w;
    assert(w == 0 ==> twice.value() == 0);
    assert(twice.is_negative() ==> w == 0) by {
        if t.is_negative() {
            assert(t.pattern() == 0);
            lemma_rounded_exact(unit, 0);
            assert(n == 0 && 0 * unit == 0) by (nonlinear_arith)
                requires
                    n == (2 * unit) * x,
                    x == 0,
            ;
        }
    }
    assert((Single { bits: THREE_BITS }).value() + twice.negated().value() == v);
    assert(3 * unit * 1 == 3 * unit);
    lemma_rounding_error(v as nat, 1, THREE_BITS as nat);
    let rest: nat = rounded(v as nat, 1);
    if rest < THREE_BITS {
        lemma_magnitude_increases(rest, THREE_BITS as nat);
    }
}

/// The product that the smooth step is, before it is rounded.
spec fn smooth_product(t: Single) -> nat {
    let w = product(Single { bits: TWO_BITS }, t);
    magnitude(product(t, t).pattern()) * magnitude(
        difference(Single { bits: THREE_BITS }, w).pattern(),
    )
}

/// From one half on, the other factor of the smooth step is exact.
proof fn lemma_rest_is_exact(t: Single)
    requires
        in_unit(t),
        t.pattern() >= HALF_BITS,
    ensures
        ({
            let x = magnitude(t.pattern());
            let w = product(Single { bits: TWO_BITS }, t);
            let r = difference(Single { bits: THREE_BITS }, w);
            magnitude(r.pattern()) == 3 * pow2(149) - 2 * x
        }),
{
    lemma_one();
    lemma_grain();
    lemma_two_and_three();
    lemma_rest(t);
    let unit: nat = pow2(149);
    let g: nat = grain();
    let b: nat = t.pattern();
    let k: nat = (b - HALF_BITS) as nat;
    let x: nat = magnitude(b);
    let twice: nat = b + BINADE as nat;
    let left: nat = (ONE_BITS + (BINADE - k)) as nat;
    assert(k <= 0x80_0000);
    if k < 0x80_0000 {
        assert(b / 0x80_0000 == 126 && b % 0x80_0000 == k);
        assert(twice / 0x80_0000 == 127 && twice % 0x80_0000 == k);
        assert(x == (0x80_0000 + k) as nat * pow2(125));
        assert(magnitude(twice) == (0x80_0000 + k) as nat * pow2(126));
        assert(x == 0x100_0000 * g + 2 * (k * g)) by (nonlinear_arith)
            requires
                x == (0x80_0000 + k) as nat * (2 * g),
        ;
        assert(magnitude(twice) == 0x200_0000 * g + 4 * (k * g)) by (nonlinear_arith)
            requires
                magnitude(twice) == (0x80_0000 + k) as nat * (4 * g),
        ;
    } else {
        assert(k * g == 0x80_0000 * g);
        assert(twice == TWO_BITS);
    }
    assert(magnitude(twice) == 2 * x);
    if k > 0 {
        let j: nat = (0x80_0000 - k) as nat;
        assert(left / 0x80_0000 == 127 && left % 0x80_0000 == j);
        assert(magnitude(left) == (0x80_0000 + j) as nat * pow2(126));
        assert(magnitude(left) == 0x400_0000 * g - 4 * (k * g)) by (nonlinear_arith)
            requires
                magnitude(left) == (0x80_0000 + j) as nat * (4 * g),
                j == 0x80_0000 - k,
        ;
    } else {
        assert(k * g == 0) by (nonlinear_arith)
            requires
                k == 0,
        ;
        assert(left == TWO_BITS);
    }
    assert(magnitude(left) == 3 * unit - 2 * x);
    // Both have a pattern of their own, so both round to it.
    lemma_rounded_exact(unit, twice);
    assert((2 * unit) * x == magnitude(twice) * unit) by (nonlinear_arith)
        requires
            magnitude(twice) == 2 * x,
    ;
    lemma_rounded_exact(1, left);
    assert(magnitude(left) * 1 == magnitude(left));
}

/// The smooth step never exceeds one.
proof fn lemma_smooth_in_unit(t: Single)
    requires
        in_unit(t),
    ensures
        smooth(t).is_finite(),
        !smooth(t).is_negative(),
        smooth(t).pattern() <= ONE_BITS,
        smooth(t).pattern() == rounded(smooth_product(t), pow2(149)),
        magnitude(smooth(t).pattern()) <= pow2(149),
{
    lemma_one();
    lemma_grain();
    lemma_square(t);
    lemma_rest(t);
    let unit: nat = pow2(149);
    let g: nat = grain();
    let x: nat = magnitude(t.pattern());
    let s: nat = magnitude(product(t, t).pattern());
    let w = product(Single { bits: TWO_BITS }, t);
    let r: nat = magnitude(difference(Single { bits: THREE_BITS }, w).pattern());
    let n: nat = smooth_product(t);
    assert(n == s * r);
    // What is handed to the last rounding is at most one and two grains.
    assert(n <= unit * unit + 2 * (g * unit)) by {
        if t.pattern() >= HALF_BITS {
            lemma_rest_is_exact(t);
            let half: nat = magnitude(HALF_BITS as nat);
            assert(half == 0x80_0000 * pow2(125)) by {
                assert(0x3f00_0000nat / 0x80_0000 == 126 && 0x3f00_0000nat % 0x80_0000 == 0);
            }
            if t.pattern() > HALF_BITS {
                lemma_magnitude_increases(HALF_BITS as nat, t.pattern());
            }
            assert(2 * x >= unit);
            lemma_cubic_rises(x as int, unit as int, unit as int);
            assert(cubic(unit as int, unit as int) == (unit * unit) * unit) by (nonlinear_arith)
                requires
                    cubic(unit as int, unit as int) == (unit * unit) * (3 * unit - 2 * unit),
            ;
            lemma_bounded_product(s, r, x, unit, g);
        } else {
            let half: nat = magnitude(HALF_BITS as nat);
            assert(half == 0x80_0000 * pow2(125)) by {
                assert(0x3f00_0000nat / 0x80_0000 == 126 && 0x3f00_0000nat % 0x80_0000 == 0);
            }
            lemma_magnitude_increases(t.pattern(), HALF_BITS as nat);
            assert(2 * x <= unit);
            lemma_small_product(s, r, x, unit, g);
        }
    }
    // Which is no further from one than from the next number.
    lemma_spacing(ONE_BITS as nat);
    let top: nat = unit * unit + 2 * (g * unit);
    let y: nat = magnitude((ONE_BITS + 1) as nat);
    let below: nat = magnitude((ONE_BITS - 1) as nat);
    lemma_magnitude_increases((ONE_BITS - 1) as nat, ONE_BITS as nat);
    assert((unit + y) * unit == 2 * top) by (nonlinear_arith)
        requires
            y == unit + 4 * g,
            top == unit * unit + 2 * (g * unit),
    ;
    assert((below + unit) * unit < 2 * top) by (nonlinear_arith)
        requires
            below < unit,
            unit > 0,
            top == unit * unit + 2 * (g * unit),
    ;
    lemma_rounded_is(top, unit, ONE_BITS as nat);
    assert(n * unit <= top * unit) by (nonlinear_arith)
        requires
            n <= top,
    ;
    lemma_rounded_monotonic(n, unit, top, unit);
    if rounded(n, unit) < ONE_BITS {
        lemma_magnitude_increases(rounded(n, unit), ONE_BITS as nat);
    }
}

/// The product of the factors from one half on: the curve is at most one there,
/// and the square misses by a grain, twice.
proof fn lemma_bounded_product(s: nat, r: nat, x: nat, unit: nat, g: nat)
    requires
        unit > 0,
        s * unit - x * x <= g * unit,
        r == 3 * unit - 2 * x,
        2 * x >= unit,
        cubic(x as int, unit as int) <= (unit * unit) * unit,
    ensures
        s * r <= unit * unit + 2 * (g * unit),
{
    let c: nat = (x * x) * r;
    assert(c <= (unit * unit) * unit);
    assert((s * unit) * r <= (x * x + g * unit) * r) by (nonlinear_arith)
        requires
            s * unit <= x * x + g * unit,
    ;
    assert((x * x + g * unit) * r == c + (g * unit) * r) by (nonlinear_arith)
        requires
            c == (x * x) * r,
    ;
    assert((g * unit) * r <= (g * unit) * (2 * unit)) by (nonlinear_arith)
        requires
            r <= 2 * unit,
    ;
    let top: nat = unit * unit + 2 * (g * unit);
    assert((s * r) * unit == (s * unit) * r) by (nonlinear_arith);
    assert(top * unit == (unit * unit) * unit + (g * unit) * (2 * unit)) by (nonlinear_arith)
        requires
            top == unit * unit + 2 * (g * unit),
    ;
    assert(s * r <= top) by (nonlinear_arith)
        requires
            (s * r) * unit <= top * unit,
            unit > 0,
    ;
}

/// The product of the factors below one half, where both bounds have room.
proof fn lemma_small_product(s: nat, r: nat, x: nat, unit: nat, g: nat)
    requires
        unit == 0x200_0000 * g,
        g > 0,
        s * unit - x * x <= g * unit,
        r <= 3 * unit,
        2 * x <= unit,
    ensures
        s * r <= unit * unit + 2 * (g * unit),
{
    assert(4 * (x * x) <= unit * unit) by (nonlinear_arith)
        requires
            2 * x <= unit,
    ;
    assert(unit * unit == 0x200_0000 * (g * unit)) by (nonlinear_arith)
        requires
            unit == 0x200_0000 * g,
    ;
    assert(3 * (s * unit) <= unit * unit);
    assert(3 * s <= unit) by (nonlinear_arith)
        requires
            3 * (s * unit) <= unit * unit,
            unit > 0,
    ;
    assert(s * r <= s * (3 * unit)) by (nonlinear_arith)
        requires
            r <= 3 * unit,
    ;
    assert(s * (3 * unit) <= unit * unit) by (nonlinear_arith)
        requires
            3 * s <= unit,
    ;
}

/// The smooth step follows its curve up to eleven grains.
proof fn lemma_smooth_error(t: Single)
    requires
        in_unit(t),
    ensures
        ({
            let unit = pow2(149);
            let x = magnitude(t.pattern()) as int;
            let p = magnitude(smooth(t).pattern());
            -(11 * (grain() * (unit * unit))) <= p * (unit * unit) - cubic(x, unit as int) <= 11 * (
            grain() * (unit * unit))
        }),
{
    lemma_one();
    lemma_grain();
    lemma_square(t);
    lemma_rest(t);
    lemma_smooth_in_unit(t);
    let unit: nat = pow2(149);
    let g: nat = grain();
    let x: nat = magnitude(t.pattern());
    let s: nat = magnitude(product(t, t).pattern());
    let w = product(Single { bits: TWO_BITS }, t);
    let r: nat = magnitude(difference(Single { bits: THREE_BITS }, w).pattern());
    let n: nat = smooth_product(t);
    assert(n == s * r);
    lemma_rounding_error(n, unit, (ONE_BITS + 1) as nat);
    let p: nat = magnitude(smooth(t).pattern());
    lemma_steps_add_up(p, s, r, x, unit, g);
}

/// How the misses of the steps add up.
proof fn lemma_steps_add_up(p: nat, s: nat, r: nat, x: nat, unit: nat, g: nat)
    requires
        unit > 0,
        x <= unit,
        r <= 3 * unit,
        2 * (p * unit - s * r) <= (4 * g) * unit,
        2 * (s * r - p * unit) <= (4 * g) * unit,
        -(g * unit) <= s * unit - x * x <= g * unit,
        -(6 * g) <= r - (3 * unit - 2 * x) <= 6 * g,
    ensures
        -(11 * (g * (unit * unit))) <= p * (unit * unit) - cubic(x as int, unit as int) <= 11 * (g
            * (unit * unit)),
{
    let big: nat = g * (unit * unit);
    let e1: int = p * unit - s * r;
    let e2: int = s * unit - x * x;
    let e3: int = r - (3 * unit - 2 * x);
    // The last rounding.
    assert(-(2 * (g * unit)) <= e1 <= 2 * (g * unit)) by (nonlinear_arith)
        requires
            2 * e1 <= (4 * g) * unit,
            -(2 * e1) <= (4 * g) * unit,
    ;
    assert(-(2 * big) <= e1 * unit <= 2 * big) by (nonlinear_arith)
        requires
            -(2 * (g * unit)) <= e1 <= 2 * (g * unit),
            big == g * (unit * unit),
            unit > 0,
    ;
    // The square.
    assert(-(3 * big) <= r * e2 <= 3 * big) by (nonlinear_arith)
        requires
            -(g * unit) <= e2 <= g * unit,
            0 <= r <= 3 * unit,
            big == g * (unit * unit),
            unit > 0,
            g >= 0,
    ;
    // The other factor.
    assert(0 <= x * x <= unit * unit) by (nonlinear_arith)
        requires
            x <= unit,
    ;
    assert(-(6 * big) <= (x * x) * e3 <= 6 * big) by (nonlinear_arith)
        requires
            -(6 * g) <= e3 <= 6 * g,
            0 <= x * x <= unit * unit,
            big == g * (unit * unit),
            g >= 0,
    ;
    assert(p * (unit * unit) - (x * x) * (3 * unit - 2 * x) == e1 * unit + r * e2 + (x * x) * e3)
        by (nonlinear_arith)
        requires
            e1 == p * unit - s * r,
            e2 == s * unit - x * x,
            e3 == r - (3 * unit - 2 * x),
    ;
}

/// The influence of a field follows its curve up to twelve grains, and lies
/// between zero and one.
proof fn lemma_influence_error(field: SoundDampingField, distance: Single)
    requires
        !field.radius.is_at_most(Single::zero()),
        in_unit(field.depth_lost(distance)),
    ensures
        ({
            let unit = pow2(149);
            let x = magnitude(field.depth_lost(distance).pattern()) as int;
            let influence = field.influence(distance);
            &&& 0 <= x <= unit
            &&& influence.is_finite() && !influence.is_negative() && in_unit(influence)
            &&& 0 <= influence.value() <= unit
            &&& -(12 * (grain() * (unit * unit))) <= (unit - influence.value()) * (unit * unit)
                - cubic(x, unit as int) <= 12 * (grain() * (unit * unit))
        }),
{
    let t = field.depth_lost(distance);
    let unit: nat = pow2(149);
    let g: nat = grain();
    lemma_one();
    lemma_grain();
    lemma_square(t);
    lemma_smooth_in_unit(t);
    lemma_smooth_error(t);
    let p: nat = magnitude(smooth(t).pattern());
    let v: nat = (unit - p) as nat;
    lemma_negated(smooth(t));
    assert(Single::one().value() + smooth(t).negated().value() == v);
    assert(unit * 1 == unit);
    lemma_rounding_error(v, 1, ONE_BITS as nat);
    lemma_rounded_exact(1, 0);
    assert(magnitude(0) * 1 == 0);
    let influence = field.influence(distance);
    assert(influence.pattern() == rounded(v, 1) && !influence.is_negative());
    if rounded(v, 1) < ONE_BITS {
        lemma_magnitude_increases(rounded(v, 1), ONE_BITS as nat);
    }
    let i: int = influence.value();
    let e: int = v - i;
    assert(-g <= e <= g);
    assert(-(g * (unit * unit)) <= e * (unit * unit) <= g * (unit * unit)) by (nonlinear_arith)
        requires
            -g <= e <= g,
    ;
    assert((unit - i) * (unit * unit) == p * (unit * unit) + e * (unit * unit))
        by (nonlinear_arith)
        requires
            e == unit - p - i,
    ;
}

/// Where it is a number how far out a point is, the influence there is one.
pub(crate) proof fn influence_is_a_number_inside(field: SoundDampingField, distance: Single)
    requires
        !field.depth_lost(distance).is_nan(),
    ensures
        !field.influence(distance).is_nan(),
{
    lemma_one();
    if !field.radius.is_at_most(Single::zero()) {
        lemma_influence_error(field, distance);
    }
}

/// A field's influence is never negative and never more than full.
pub proof fn influence_stays_between_none_and_full(field: SoundDampingField, distance: Single)
    ensures
        field.influence(distance).is_nan() || (in_unit(field.influence(distance))
            && !field.influence(distance).is_negative()),
{
    let t = field.depth_lost(distance);
    lemma_one();
    if !field.radius.is_at_most(Single::zero()) && !t.is_nan() {
        lemma_influence_error(field, distance);
    }
}

/// How far out a point is grows with its distance.
proof fn lemma_depth_lost_grows(field: SoundDampingField, near: Single, far: Single)
    requires
        field.acts(),
        field.radius.is_finite(),
        near.is_finite(),
        far.is_finite(),
        Single::zero().is_at_most(near),
        near.is_at_most(far),
    ensures
        in_unit(field.depth_lost(near)),
        in_unit(field.depth_lost(far)),
        field.depth_lost(near).pattern() <= field.depth_lost(far).pattern(),
{
    lemma_one();
    let unit: nat = pow2(149);
    let r: nat = magnitude(field.radius.pattern());
    let a: nat = magnitude(near.pattern());
    let b: nat = magnitude(far.pattern());
    lemma_magnitude_increases(0, field.radius.pattern());
    if near.pattern() < far.pattern() {
        lemma_magnitude_increases(near.pattern(), far.pattern());
    }
    lemma_rounded(a * unit, r);
    lemma_rounded(b * unit, r);
    lemma_rounded_exact(r, 0);
    assert(0 * r == 0 && 0 * unit == 0) by (nonlinear_arith);
    assert((a * unit) * r <= (b * unit) * r) by (nonlinear_arith)
        requires
            a <= b,
    ;
    lemma_rounded_monotonic(a * unit, r, b * unit, r);
    assert(quotient(near, field.radius).pattern() == rounded(a * unit, r));
    assert(quotient(far, field.radius).pattern() == rounded(b * unit, r));
}

/// A field's influence falls with the distance, up to rounding: further out it is
/// greater by less than a millionth, if it is greater at all.
pub proof fn influence_falls_with_the_distance(
    field: SoundDampingField,
    near: Single,
    far: Single,
)
    requires
        field.radius.is_finite(),
        near.is_finite(),
        far.is_finite(),
        Single::zero().is_at_most(near),
        near.is_at_most(far),
    ensures
        field.influence(near).is_finite(),
        field.influence(far).is_finite(),
        1_000_000 * (field.influence(far).value() - field.influence(near).value())
            < Single::one().value(),
{
    lemma_one();
    if field.acts() {
        let unit: nat = pow2(149);
        let g: nat = grain();
        lemma_grain();
        lemma_depth_lost_grows(field, near, far);
        lemma_influence_error(field, near);
        lemma_influence_error(field, far);
        let a: nat = field.depth_lost(near).pattern();
        let b: nat = field.depth_lost(far).pattern();
        if a < b {
            lemma_magnitude_increases(a, b);
        }
        lemma_cubic_rises(magnitude(a) as int, magnitude(b) as int, unit as int);
        let i: int = field.influence(near).value();
        let j: int = field.influence(far).value();
        let square: nat = unit * unit;
        assert(square > 0) by (nonlinear_arith)
            requires
                square == unit * unit,
                unit > 0,
        ;
        assert(j - i <= 24 * g) by (nonlinear_arith)
            requires
                (unit - i) * square - (unit - j) * square <= 24 * (g * square),
                square > 0,
        ;
    }
}

/// How far out two points are whose distances make up the radius: together by
/// one, up to four grains.
proof fn lemma_depths_make_one(field: SoundDampingField, distance: Single)
    requires
        field.acts(),
        field.radius.is_finite(),
        Single::zero().is_at_most(distance),
        distance.is_at_most(field.radius),
    ensures
        ({
            let other = difference(field.radius, distance);
            let t = field.depth_lost(distance);
            let u = field.depth_lost(other);
            let together = magnitude(t.pattern()) + magnitude(u.pattern());
            &&& in_unit(t) && in_unit(u)
            &&& -(4 * grain()) <= together - pow2(149) <= 4 * grain()
        }),
{
    lemma_one();
    lemma_grain();
    let unit: nat = pow2(149);
    let g: nat = grain();
    let top: nat = field.radius.pattern();
    let r: nat = magnitude(top);
    let d: nat = magnitude(distance.pattern());
    let other = difference(field.radius, distance);
    lemma_magnitude_increases(0, top);
    if distance.pattern() < top {
        lemma_magnitude_increases(distance.pattern(), top);
    }
    lemma_negated(distance);
    assert(distance.is_negative() ==> d == 0);
    let v: nat = (r - d) as nat;
    assert(field.radius.value() + distance.negated().value() == v);
    assert(r * 1 == r);
    lemma_rounding_error(v, 1, top);
    lemma_rounded_exact(1, 0);
    assert(magnitude(0) * 1 == 0);
    assert(other.pattern() == rounded(v, 1) && !other.is_negative());
    let x: nat = magnitude(other.pattern());
    if other.pattern() < top {
        lemma_magnitude_increases(other.pattern(), top);
    }
    assert(-(r as int) <= 0x100_0000 * (x - v) <= r) by {
        lemma_relative_error(v, top);
    }
    lemma_depth(field, distance);
    lemma_depth(field, other);
    let t: nat = magnitude(field.depth_lost(distance).pattern());
    let u: nat = magnitude(field.depth_lost(other).pattern());
    let e: int = x - v;
    let f: int = 0x100_0000 * e;
    assert(e * unit == 2 * (g * f)) by (nonlinear_arith)
        requires
            unit == 0x200_0000 * g,
            f == 0x100_0000 * e,
    ;
    assert(-(g * r) <= g * f <= g * r) by (nonlinear_arith)
        requires
            -(r as int) <= f <= r,
    ;
    let miss: int = t + u - unit;
    assert(e * unit == x * unit - r * unit + d * unit) by (nonlinear_arith)
        requires
            e == x - (r - d),
    ;
    assert(miss * r == t * r + u * r - r * unit) by (nonlinear_arith)
        requires
            miss == t + u - unit,
    ;
    assert(-(4 * g) <= miss <= 4 * g) by (nonlinear_arith)
        requires
            -(4 * (g * r)) <= miss * r <= 4 * (g * r),
            r > 0,
    ;
}

/// Rounding a whole number of units to pattern `b` or below misses by a small part
/// of what `b` stands for.
proof fn lemma_relative_error(v: nat, b: nat)
    requires
        v <= magnitude(b),
        0 < b < INFINITY_BITS,
    ensures
        -(magnitude(b) as int) <= 0x100_0000 * (magnitude(rounded(v, 1)) - v) <= magnitude(b),
{
    if b < BINADE {
        lemma_rounded_exact(1, v);
        assert(magnitude(v) * 1 == v);
    } else {
        let e: nat = (b / (BINADE as nat) - 1) as nat;
        let m: nat = (BINADE + b % (BINADE as nat)) as nat;
        lemma_rounding_error(v, 1, b);
        lemma_spacing_grows((b - 1) as nat, b);
        assert(0x80_0000 * pow2(e) <= m * pow2(e)) by (nonlinear_arith)
            requires
                m >= 0x80_0000,
        ;
    }
}

/// How far out a point inside the radius is, up to a grain.
proof fn lemma_depth(field: SoundDampingField, distance: Single)
    requires
        field.acts(),
        field.radius.is_finite(),
        Single::zero().is_at_most(distance),
        distance.is_at_most(field.radius),
    ensures
        ({
            let r = magnitude(field.radius.pattern());
            let d = magnitude(distance.pattern());
            let t = field.depth_lost(distance);
            &&& in_unit(t)
            &&& -(grain() * r) <= magnitude(t.pattern()) * r - d * pow2(149) <= grain() * r
        }),
{
    lemma_one();
    lemma_grain();
    lemma_depth_lost_grows(field, distance, distance);
    let unit: nat = pow2(149);
    let g: nat = grain();
    let r: nat = magnitude(field.radius.pattern());
    let d: nat = magnitude(distance.pattern());
    lemma_magnitude_increases(0, field.radius.pattern());
    if distance.pattern() < field.radius.pattern() {
        lemma_magnitude_increases(distance.pattern(), field.radius.pattern());
    }
    assert(d * unit <= unit * r) by (nonlinear_arith)
        requires
            d <= r,
    ;
    lemma_rounding_error(d * unit, r, ONE_BITS as nat);
    assert((2 * g) * r == 2 * (g * r)) by (nonlinear_arith);
    assert(quotient(distance, field.radius).pattern() == rounded(d * unit, r));
    assert(distance.is_negative() ==> rounded(d * unit, r) == 0) by {
        if distance.is_negative() {
            lemma_rounded_exact(r, 0);
            assert(d * unit == 0 && 0 * r == 0) by (nonlinear_arith)
                requires
                    d == 0,
            ;
        }
    }
}

/// A field's influence is symmetric about half its radius: at two distances that
/// make up the radius it adds up to one, within a millionth.
pub proof fn influence_is_symmetric(field: SoundDampingField, distance: Single)
    requires
        field.acts(),
        field.radius.is_finite(),
        Single::zero().is_at_most(distance),
        distance.is_at_most(field.radius),
    ensures
        ({
            let other = difference(field.radius, distance);
            let together = field.influence(distance).value() + field.influence(other).value();
            &&& field.influence(distance).is_finite() && field.influence(other).is_finite()
            &&& 1_000_000 * (together - Single::one().value()) < Single::one().value()
            &&& 1_000_000 * (Single::one().value() - together) < Single::one().value()
        }),
{
    let other = difference(field.radius, distance);
    let unit: int = pow2(149) as int;
    let g: int = grain() as int;
    lemma_one();
    lemma_grain();
    lemma_depths_make_one(field, distance);
    lemma_influence_error(field, distance);
    lemma_influence_error(field, other);
    let t: int = magnitude(field.depth_lost(distance).pattern()) as int;
    let u: int = magnitude(field.depth_lost(other).pattern()) as int;
    let mirror: int = unit - t;
    let square: int = unit * unit;
    // The curve itself is symmetric, and nowhere steep.
    assert(cubic(t, unit) + cubic(mirror, unit) == square * unit) by (nonlinear_arith)
        requires
            cubic(t, unit) == (t * t) * (3 * unit - 2 * t),
            cubic(mirror, unit) == (mirror * mirror) * (3 * unit - 2 * mirror),
            mirror == unit - t,
            square == unit * unit,
    ;
    lemma_slope(mirror, u, unit);
    lemma_slope_range(mirror, u, unit);
    let k: int = slope(mirror, u, unit);
    let e: int = u - mirror;
    assert(-(6 * (g * square)) <= e * k <= 6 * (g * square)) by (nonlinear_arith)
        requires
            -(4 * g) <= e <= 4 * g,
            0 <= k,
            2 * k <= 3 * square,
            g >= 0,
    ;
    let i: int = field.influence(distance).value();
    let j: int = field.influence(other).value();
    assert(square > 0) by (nonlinear_arith)
        requires
            square == unit * unit,
            unit > 0,
    ;
    let miss: int = unit - (i + j);
    assert(miss * square == ((unit - i) * square + (unit - j) * square) - square * unit)
        by (nonlinear_arith)
        requires
            miss == unit - (i + j),
    ;
    assert(-(30 * g) <= miss <= 30 * g) by (nonlinear_arith)
        requires
            -(30 * (g * square)) <= miss * square <= 30 * (g * square),
            square > 0,
    ;
}

/// The influence of a field is a smooth step: at a share `t` of the radius, what is
/// missing of it is `t * t * (3 - 2 * t)`, within a millionth. Here `t` is the
/// distance `d` over the radius `r`, and both sides are multiplied by the cube of `r`.
pub proof fn influence_is_a_smooth_step(field: SoundDampingField, distance: Single)
    requires
        field.acts(),
        field.radius.is_finite(),
        Single::zero().is_at_most(distance),
        distance.is_at_most(field.radius),
    ensures
        ({
            let one = Single::one().value();
            let r = field.radius.value();
            let d = distance.value();
            let missing = one - field.influence(distance).value();
            let miss = missing * (r * r * r) - one * (d * d * (3 * r - 2 * d));
            &&& r > 0
            &&& 1_000_000 * miss < one * (r * r * r)
            &&& -(one * (r * r * r)) < 1_000_000 * miss
        }),
{
    lemma_one();
    lemma_grain();
    lemma_depth(field, distance);
    lemma_influence_error(field, distance);
    lemma_magnitude_increases(0, field.radius.pattern());
    let unit: int = pow2(149) as int;
    let g: int = grain() as int;
    let r: int = field.radius.value();
    let d: int = distance.value();
    assert(distance.is_negative() ==> d == 0);
    if distance.pattern() < field.radius.pattern() {
        lemma_magnitude_increases(distance.pattern(), field.radius.pattern());
    }
    let x: int = magnitude(field.depth_lost(distance).pattern()) as int;
    let i: int = field.influence(distance).value();
    // The curve at the share as rounded, and as it is, over one unit times the radius.
    let whole: int = unit * r;
    let a: int = x * r;
    let b: int = d * unit;
    let cube: int = r * r * r;
    assert(0 <= a <= whole && 0 <= b <= whole && whole > 0) by (nonlinear_arith)
        requires
            a == x * r,
            b == d * unit,
            whole == unit * r,
            0 <= x <= unit,
            0 <= d <= r,
            r > 0,
            unit > 0,
    ;
    lemma_slope(b, a, whole);
    lemma_slope_range(b, a, whole);
    lemma_smooth_miss(unit, g, r, d, x, i, slope(b, a, whole));
}

/// How the misses of the curve and of the share add up.
proof fn lemma_smooth_miss(unit: int, g: int, r: int, d: int, x: int, i: int, k: int)
    requires
        unit == 0x200_0000 * g,
        g > 0,
        r > 0,
        -(g * r) <= x * r - d * unit <= g * r,
        -(12 * (g * (unit * unit))) <= (unit - i) * (unit * unit) - cubic(x, unit) <= 12 * (g * (
        unit * unit)),
        0 <= k,
        2 * k <= 3 * ((unit * r) * (unit * r)),
        cubic(x * r, unit * r) - cubic(d * unit, unit * r) == (x * r - d * unit) * k,
    ensures
        ({
            let cube = r * r * r;
            let miss = (unit - i) * cube - unit * (d * d * (3 * r - 2 * d));
            &&& 1_000_000 * miss < unit * cube
            &&& -(unit * cube) < 1_000_000 * miss
        }),
{
    let cube: int = r * r * r;
    let square: int = unit * unit;
    let e: int = x * r - d * unit;
    let f: int = (unit - i) * square - cubic(x, unit);
    let miss: int = (unit - i) * cube - unit * (d * d * (3 * r - 2 * d));
    assert(cube > 0) by (nonlinear_arith)
        requires
            cube == r * r * r,
            r > 0,
    ;
    assert(square > 0) by (nonlinear_arith)
        requires
            square == unit * unit,
            unit > 0,
    ;
    assert(cubic(x * r, unit * r) == cubic(x, unit) * cube) by (nonlinear_arith)
        requires
            cubic(x * r, unit * r) == ((x * r) * (x * r)) * (3 * (unit * r) - 2 * (x * r)),
            cubic(x, unit) == (x * x) * (3 * unit - 2 * x),
            cube == r * r * r,
    ;
    let share: int = d * d * (3 * r - 2 * d);
    assert(cubic(d * unit, unit * r) == (unit * share) * square) by (nonlinear_arith)
        requires
            cubic(d * unit, unit * r) == ((d * unit) * (d * unit)) * (3 * (unit * r) - 2 * (d
                * unit)),
            share == d * d * (3 * r - 2 * d),
            square == unit * unit,
    ;
    assert(miss * square == f * cube + e * k) by (nonlinear_arith)
        requires
            miss == (unit - i) * cube - unit * share,
            f == (unit - i) * square - cubic(x, unit),
            cubic(x * r, unit * r) == cubic(x, unit) * cube,
            cubic(d * unit, unit * r) == (unit * share) * square,
            cubic(x * r, unit * r) - cubic(d * unit, unit * r) == e * k,
    ;
    let big: int = (g * square) * cube;
    assert(-(12 * big) <= f * cube <= 12 * big) by (nonlinear_arith)
        requires
            -(12 * (g * square)) <= f <= 12 * (g * square),
            cube > 0,
            big == (g * square) * cube,
    ;
    let area: int = (unit * r) * (unit * r);
    assert((g * r) * area == big) by (nonlinear_arith)
        requires
            area == (unit * r) * (unit * r),
            big == (g * square) * cube,
            square == unit * unit,
            cube == r * r * r,
    ;
    assert(-(3 * big) <= 2 * (e * k) <= 3 * big) by (nonlinear_arith)
        requires
            -(g * r) <= e <= g * r,
            0 <= k,
            2 * k <= 3 * area,
            (g * r) * area == big,
            g * r >= 0,
    ;
    assert(g * r >= 0) by (nonlinear_arith)
        requires
            g > 0,
            r > 0,
    ;
    let top: int = g * cube;
    assert(big == top * square) by (nonlinear_arith)
        requires
            big == (g * square) * cube,
            top == g * cube,
    ;
    assert(-(14 * top) <= miss <= 14 * top) by (nonlinear_arith)
        requires
            -(14 * (top * square)) <= miss * square <= 14 * (top * square),
            square > 0,
    ;
    assert(unit * cube == 0x200_0000 * top) by (nonlinear_arith)
        requires
            unit == 0x200_0000 * g,
            top == g * cube,
    ;
    assert(top > 0) by (nonlinear_arith)
        requires
            top == g * cube,
            g > 0,
            cube > 0,
    ;
}

} // verus!
