//! What a bit pattern stands for, and what it means to round to one.
//!
//! Every finite single-precision number is a whole multiple of two to the
//! power of minus 149, so its magnitude is modelled as a natural number in
//! that unit. The patterns of the non-negative numbers then count those
//! magnitudes upwards: pattern `b + 1` is the next number above pattern `b`.

use vstd::arithmetic::power2::{
    lemma_pow2_pos, lemma_pow2_strictly_increases, lemma_pow2_unfold, pow2,
};
use vstd::prelude::*;

verus! {

/// Where the patterns of the finite magnitudes end: positive infinity.
pub const INFINITY_BITS: u32 = 0x7f80_0000;

/// How many patterns share one exponent.
pub const BINADE: u32 = 0x80_0000;

/// The exponent of the unit that magnitudes are counted in, negated.
pub const UNIT_EXPONENT: u32 = 149;

/// The magnitude of pattern `b`, in units of two to the power of minus 149.
/// Infinity stands where the next number after the largest would be.
pub open spec fn magnitude(b: nat) -> nat {
    if b < BINADE {
        b
    } else {
        (BINADE + b % (BINADE as nat)) as nat * pow2((b / (BINADE as nat) - 1) as nat)
    }
}

/// The distance from pattern `b` to the next pattern.
pub open spec fn spacing(b: nat) -> nat {
    if b < BINADE {
        1
    } else {
        pow2((b / (BINADE as nat) - 1) as nat)
    }
}

/// Whether `b` is the pattern nearest to the quotient `n / d`, the even one of
/// two that are equally near. Beyond the last finite number it is infinity.
pub open spec fn is_nearest(n: nat, d: nat, b: nat) -> bool {
    &&& b <= INFINITY_BITS
    &&& b > 0 ==> {
        let middle = (magnitude((b - 1) as nat) + magnitude(b)) * d;
        2 * n > middle || (2 * n == middle && b % 2 == 0)
    }
    &&& b < INFINITY_BITS ==> {
        let middle = (magnitude(b) + magnitude(b + 1)) * d;
        2 * n < middle || (2 * n == middle && b % 2 == 0)
    }
}

/// The pattern nearest to the quotient `n / d`.
pub open spec fn rounded(n: nat, d: nat) -> nat {
    choose|b: nat| is_nearest(n, d, b)
}

/// Consecutive patterns lie one spacing apart.
pub proof fn lemma_spacing(b: nat)
    ensures
        magnitude(b + 1) == magnitude(b) + spacing(b),
        spacing(b) > 0,
{
    vstd::arithmetic::power2::lemma2_to64();
    let e: nat = (b / 0x80_0000 - 1) as nat;
    let m: nat = b % 0x80_0000;
    if b + 1 < 0x80_0000 {
    } else if b + 1 == 0x80_0000 {
        assert((b + 1) % 0x80_0000 == 0 && (b + 1) / 0x80_0000 == 1);
        assert(magnitude(b + 1) == 0x80_0000 * pow2(0));
    } else if m + 1 < 0x80_0000 {
        lemma_pow2_pos(e);
        assert(magnitude(b) == (0x80_0000 + m) * pow2(e));
        assert((b + 1) / 0x80_0000 == b / 0x80_0000 && (b + 1) % 0x80_0000 == m + 1);
        assert((0x80_0000 + m + 1) * pow2(e) == (0x80_0000 + m) * pow2(e) + pow2(e))
            by (nonlinear_arith);
        assert(magnitude(b + 1) == (0x80_0000 + m + 1) * pow2(e));
    } else {
        lemma_pow2_pos(e);
        assert(magnitude(b) == (0x80_0000 + m) * pow2(e));
        assert((b + 1) / 0x80_0000 == b / 0x80_0000 + 1 && (b + 1) % 0x80_0000 == 0);
        lemma_pow2_unfold(e + 1);
        assert((0x80_0000 + m) * pow2(e) == 0xff_ffff * pow2(e)) by (nonlinear_arith)
            requires
                m == 0x7f_ffff,
        ;
        assert(magnitude(b + 1) == 0x80_0000 * pow2(e + 1));
    }
}

/// Larger patterns stand for larger magnitudes.
pub proof fn lemma_magnitude_increases(a: nat, b: nat)
    requires
        a < b,
    ensures
        magnitude(a) < magnitude(b),
    decreases b - a,
{
    lemma_spacing((b - 1) as nat);
    if a + 1 < b {
        lemma_magnitude_increases(a, (b - 1) as nat);
    }
}

/// Whichever pattern is nearest, no other one is.
pub proof fn lemma_nearest_unique(n: nat, d: nat, a: nat, b: nat)
    requires
        d > 0,
        is_nearest(n, d, a),
        is_nearest(n, d, b),
    ensures
        a == b,
{
    lemma_nearest_ordered(n, d, a, b);
    lemma_nearest_ordered(n, d, b, a);
}

proof fn lemma_nearest_ordered(n: nat, d: nat, a: nat, b: nat)
    requires
        d > 0,
        is_nearest(n, d, a),
        is_nearest(n, d, b),
    ensures
        b <= a,
{
    let p: nat = (b - 1) as nat;
    let low: nat = magnitude(a) + magnitude(a + 1);
    let high: nat = magnitude(p) + magnitude(b);
    if a + 1 < b {
        lemma_magnitude_increases(a, p);
        lemma_magnitude_increases(a + 1, b);
        assert(low * d < high * d) by (nonlinear_arith)
            requires
                low < high,
                d > 0,
        ;
    }
}

/// Some pattern is nearest to every quotient.
pub proof fn lemma_rounded(n: nat, d: nat)
    requires
        d > 0,
    ensures
        is_nearest(n, d, rounded(n, d)),
{
    lemma_nearest_below(n, d, INFINITY_BITS as nat);
}

proof fn lemma_nearest_below(n: nat, d: nat, b: nat)
    requires
        d > 0,
        b <= INFINITY_BITS,
        b < INFINITY_BITS ==> {
            let middle = (magnitude(b) + magnitude(b + 1)) * d;
            2 * n < middle || (2 * n == middle && b % 2 == 0)
        },
    ensures
        exists|r: nat| is_nearest(n, d, r),
    decreases b,
{
    if is_nearest(n, d, b) {
    } else {
        lemma_nearest_below(n, d, (b - 1) as nat);
    }
}

/// A pattern shown to be nearest is the rounded one.
pub proof fn lemma_rounded_is(n: nat, d: nat, b: nat)
    requires
        d > 0,
        is_nearest(n, d, b),
    ensures
        rounded(n, d) == b,
{
    lemma_rounded(n, d);
    lemma_nearest_unique(n, d, rounded(n, d), b);
}

/// Deciding between a pattern below and the one above it by the middle of the
/// two finds the nearest.
pub proof fn lemma_nearest_of_two(n: nat, d: nat, b: nat)
    requires
        d > 0,
        b < INFINITY_BITS,
        magnitude(b) * d <= n,
        n < magnitude(b + 1) * d,
    ensures
        ({
            let middle = (magnitude(b) + magnitude(b + 1)) * d;
            &&& 2 * n < middle ==> is_nearest(n, d, b)
            &&& 2 * n > middle ==> is_nearest(n, d, b + 1)
            &&& 2 * n == middle ==> is_nearest(n, d, if b % 2 == 0 {
                b
            } else {
                b + 1
            })
        }),
{
    let x: nat = magnitude(b);
    let y: nat = magnitude(b + 1);
    assert((x + y) * d == x * d + y * d) by (nonlinear_arith);
    if b > 0 {
        let w: nat = magnitude((b - 1) as nat);
        lemma_magnitude_increases((b - 1) as nat, b);
        assert((w + x) * d < 2 * (x * d)) by (nonlinear_arith)
            requires
                w < x,
                d > 0,
        ;
    }
    let z: nat = magnitude(b + 2);
    lemma_magnitude_increases(b + 1, b + 2);
    assert((y + z) * d > 2 * (y * d)) by (nonlinear_arith)
        requires
            y < z,
            d > 0,
    ;
}

/// From the end of the finite magnitudes on, infinity is nearest.
pub proof fn lemma_nearest_beyond(n: nat, d: nat)
    requires
        d > 0,
        magnitude(INFINITY_BITS as nat) * d <= n,
    ensures
        is_nearest(n, d, INFINITY_BITS as nat),
{
    let x: nat = magnitude((INFINITY_BITS - 1) as nat);
    let y: nat = magnitude(INFINITY_BITS as nat);
    lemma_magnitude_increases((INFINITY_BITS - 1) as nat, INFINITY_BITS as nat);
    assert((x + y) * d < 2 * (y * d)) by (nonlinear_arith)
        requires
            x < y,
            d > 0,
    ;
}

/// A magnitude that has a pattern rounds to it.
pub proof fn lemma_rounded_exact(d: nat, b: nat)
    requires
        d > 0,
        b <= INFINITY_BITS,
    ensures
        rounded(magnitude(b) * d, d) == b,
{
    let n: nat = magnitude(b) * d;
    if b < INFINITY_BITS {
        lemma_magnitude_increases(b, b + 1);
        let x: nat = magnitude(b);
        let y: nat = magnitude(b + 1);
        assert(x * d < y * d && 2 * (x * d) < (x + y) * d) by (nonlinear_arith)
            requires
                x < y,
                d > 0,
        ;
        lemma_nearest_of_two(n, d, b);
    } else {
        lemma_nearest_beyond(n, d);
    }
    lemma_rounded_is(n, d, b);
}

/// Rounding keeps order.
pub proof fn lemma_rounded_monotonic(n1: nat, d1: nat, n2: nat, d2: nat)
    requires
        d1 > 0,
        d2 > 0,
        n1 * d2 <= n2 * d1,
    ensures
        rounded(n1, d1) <= rounded(n2, d2),
{
    let a: nat = rounded(n1, d1);
    let b: nat = rounded(n2, d2);
    lemma_rounded(n1, d1);
    lemma_rounded(n2, d2);
    if b < a {
        let p: nat = (a - 1) as nat;
        let low: nat = magnitude(b) + magnitude(b + 1);
        let high: nat = magnitude(p) + magnitude(a);
        // The quotient that rounds to the larger pattern is at least `high / 2`,
        // the other at most `low / 2`, and `low <= high`.
        if b == p {
        } else {
            lemma_magnitude_increases(b, p);
            lemma_magnitude_increases(b + 1, a);
        }
        assert(2 * n1 >= high * d1);
        assert(2 * n2 <= low * d2);
        assert(low <= high);
        assert(2 * (n1 * d2) >= high * (d1 * d2)) by (nonlinear_arith)
            requires
                2 * n1 >= high * d1,
        ;
        assert(2 * (n2 * d1) <= low * (d1 * d2)) by (nonlinear_arith)
            requires
                2 * n2 <= low * d2,
        ;
        assert(d1 * d2 > 0) by (nonlinear_arith)
            requires
                d1 > 0,
                d2 > 0,
        ;
        if low < high {
            assert(low * (d1 * d2) < high * (d1 * d2)) by (nonlinear_arith)
                requires
                    low < high,
                    d1 * d2 > 0,
            ;
        } else {
            // Equal middles are ties on both sides, and neighbours are not both even.
            assert(b == p) by {
                if b != p {
                    lemma_magnitude_increases(b, p);
                    lemma_magnitude_increases(b + 1, a);
                }
            }
            assert(2 * n1 == high * d1) by (nonlinear_arith)
                requires
                    2 * n1 >= high * d1,
                    2 * (n1 * d2) <= 2 * (n2 * d1),
                    2 * (n2 * d1) <= high * (d1 * d2),
                    d2 > 0,
            ;
            assert(2 * n2 == low * d2) by (nonlinear_arith)
                requires
                    2 * n2 <= low * d2,
                    2 * (n1 * d2) <= 2 * (n2 * d1),
                    2 * (n1 * d2) >= low * (d1 * d2),
                    d1 > 0,
            ;
        }
    }
}

/// Larger patterns lie no closer together.
pub proof fn lemma_spacing_grows(a: nat, b: nat)
    requires
        a <= b,
    ensures
        spacing(a) <= spacing(b),
{
    if b >= BINADE {
        let e: nat = (b / (BINADE as nat) - 1) as nat;
        lemma_pow2_pos(e);
        if a >= BINADE && a / (BINADE as nat) < b / (BINADE as nat) {
            lemma_pow2_strictly_increases((a / (BINADE as nat) - 1) as nat, e);
        }
    }
}

/// Rounding to pattern `b` or below misses by at most half the spacing below `b`.
pub proof fn lemma_rounding_error(n: nat, d: nat, b: nat)
    requires
        d > 0,
        0 < b <= INFINITY_BITS,
        n <= magnitude(b) * d || rounded(n, d) < b,
    ensures
        rounded(n, d) <= b,
        2 * (magnitude(rounded(n, d)) * d - n) <= spacing((b - 1) as nat) * d,
        2 * (n - magnitude(rounded(n, d)) * d) <= spacing((b - 1) as nat) * d,
{
    let r: nat = rounded(n, d);
    let below: nat = spacing((b - 1) as nat);
    lemma_rounded(n, d);
    if n <= magnitude(b) * d {
        assert(n * d <= (magnitude(b) * d) * d) by (nonlinear_arith)
            requires
                n <= magnitude(b) * d,
        ;
        lemma_rounded_monotonic(n, d, magnitude(b) * d, d);
        lemma_rounded_exact(d, b);
    }
    let m: nat = magnitude(r);
    if r > 0 {
        let gap: nat = spacing((r - 1) as nat);
        lemma_spacing((r - 1) as nat);
        lemma_spacing_grows((r - 1) as nat, (b - 1) as nat);
        let w: nat = magnitude((r - 1) as nat);
        assert(2 * (m * d) - (w + m) * d <= below * d) by (nonlinear_arith)
            requires
                m == w + gap,
                gap <= below,
        ;
    } else {
        assert(m * d == 0) by (nonlinear_arith)
            requires
                m == 0,
        ;
        assert(below * d >= 0) by (nonlinear_arith);
    }
    if r < b {
        let gap: nat = spacing(r);
        lemma_spacing(r);
        lemma_spacing_grows(r, (b - 1) as nat);
        let y: nat = magnitude(r + 1);
        assert((m + y) * d - 2 * (m * d) <= below * d) by (nonlinear_arith)
            requires
                y == m + gap,
                gap <= below,
        ;
    } else {
        assert(below * d >= 0) by (nonlinear_arith);
    }
}

} // verus!
