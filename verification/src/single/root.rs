//! The square root.

use crate::single::arith::not_a_number;
use crate::single::model::{lemma_magnitude_increases, magnitude, INFINITY_BITS};
use crate::single::pack::{bit_length, lemma_pattern};
use crate::single::{Single, NAN_BITS};
use vstd::arithmetic::power2::{
    lemma2_to64, lemma2_to64_rest, lemma_pow2_adds, lemma_pow2_pos, lemma_pow2_strictly_increases,
    lemma_pow2_unfold, pow2,
};
use vstd::bits::lemma_u64_shl_is_mul;
use vstd::prelude::*;

verus! {

/// Whether `b` is the pattern nearest to the square root of `n`, the even one
/// of two that are equally near.
pub open spec fn is_nearest_root(n: nat, b: nat) -> bool {
    &&& b <= INFINITY_BITS
    &&& b > 0 ==> {
        let middle = magnitude((b - 1) as nat) + magnitude(b);
        4 * n > middle * middle || (4 * n == middle * middle && b % 2 == 0)
    }
    &&& b < INFINITY_BITS ==> {
        let middle = magnitude(b) + magnitude(b + 1);
        4 * n < middle * middle || (4 * n == middle * middle && b % 2 == 0)
    }
}

/// The pattern nearest to the square root of `n`.
pub open spec fn rounded_root(n: nat) -> nat {
    choose|b: nat| is_nearest_root(n, b)
}

/// The square root of `a`.
pub open spec fn square_root(a: Single) -> Single {
    if a.is_nan() {
        not_a_number()
    } else if a.is_zero() {
        a
    } else if a.is_negative() {
        not_a_number()
    } else if a.is_infinite() {
        a
    } else {
        Single::spec_with_sign(false, rounded_root(magnitude(a.pattern()) * pow2(149)))
    }
}

proof fn lemma_nearest_root_ordered(n: nat, a: nat, b: nat)
    requires
        is_nearest_root(n, a),
        is_nearest_root(n, b),
    ensures
        b <= a,
{
    if a < b {
        let p: nat = (b - 1) as nat;
        let low: nat = magnitude(a) + magnitude(a + 1);
        let high: nat = magnitude(p) + magnitude(b);
        if a + 1 < b {
            lemma_magnitude_increases(a, p);
            lemma_magnitude_increases(a + 1, b);
            assert(low * low < high * high) by (nonlinear_arith)
                requires
                    low < high,
            ;
        }
    }
}

/// A pattern shown to be nearest to the root is the rounded one.
pub proof fn lemma_rounded_root_is(n: nat, b: nat)
    requires
        is_nearest_root(n, b),
    ensures
        rounded_root(n) == b,
{
    lemma_nearest_root_ordered(n, rounded_root(n), b);
    lemma_nearest_root_ordered(n, b, rounded_root(n));
}

/// Some pattern is nearest to every square root.
pub proof fn lemma_rounded_root(n: nat)
    ensures
        is_nearest_root(n, rounded_root(n)),
{
    lemma_nearest_root_below(n, INFINITY_BITS as nat);
}

proof fn lemma_nearest_root_below(n: nat, b: nat)
    requires
        b <= INFINITY_BITS,
        b < INFINITY_BITS ==> {
            let middle = magnitude(b) + magnitude(b + 1);
            4 * n < middle * middle || (4 * n == middle * middle && b % 2 == 0)
        },
    ensures
        exists|r: nat| is_nearest_root(n, r),
    decreases b,
{
    if is_nearest_root(n, b) {
    } else {
        lemma_nearest_root_below(n, (b - 1) as nat);
    }
}

/// The whole part of the square root of `t`.
fn whole_root(t: u64) -> (h: u64)
    requires
        0x1000_0000_0000_0000 <= t < 0x4000_0000_0000_0000,
    ensures
        0x4000_0000 <= h < 0x8000_0000,
        h * h <= t,
        t < (h + 1) * (h + 1),
{
    let mut h: u64 = 0x4000_0000;
    let mut step: u64 = 0x2000_0000;
    let mut left: u32 = 30;
    assert(0x4000_0000 * 0x4000_0000 == 0x1000_0000_0000_0000) by (nonlinear_arith);
    assert(0x8000_0000 * 0x8000_0000 == 0x4000_0000_0000_0000) by (nonlinear_arith);
    proof {
        lemma2_to64();
    }
    while left > 0
        invariant
            left <= 30,
            0x4000_0000 <= h,
            h + pow2(left as nat) <= 0x8000_0000,
            left > 0 ==> step == pow2((left - 1) as nat),
            h * h <= t,
            t < (h + pow2(left as nat)) * (h + pow2(left as nat)),
        decreases left,
    {
        proof {
            lemma_pow2_unfold(left as nat);
            lemma_pow2_pos((left - 1) as nat);
            if left > 1 {
                lemma_pow2_unfold((left - 1) as nat);
            }
        }
        let c: u64 = h + step;
        assert(c * c < 0x8000_0000 * 0x8000_0000) by (nonlinear_arith)
            requires
                c < 0x8000_0000,
        ;
        if c * c <= t {
            h = c;
        }
        step = step / 2;
        left = left - 1;
    }
    proof {
        lemma2_to64();
    }
    h
}

/// Deciding by the middle finds the pattern nearest to the root.
proof fn lemma_root_of_two(n: nat, b: nat)
    requires
        b < INFINITY_BITS,
        magnitude(b) * magnitude(b) <= n,
        n < magnitude(b + 1) * magnitude(b + 1),
    ensures
        ({
            let middle = magnitude(b) + magnitude(b + 1);
            &&& 4 * n < middle * middle ==> is_nearest_root(n, b)
            &&& 4 * n > middle * middle ==> is_nearest_root(n, b + 1)
            &&& 4 * n == middle * middle ==> is_nearest_root(n, if b % 2 == 0 {
                b
            } else {
                b + 1
            })
        }),
{
    let x: nat = magnitude(b);
    let y: nat = magnitude(b + 1);
    if b > 0 {
        let w: nat = magnitude((b - 1) as nat);
        lemma_magnitude_increases((b - 1) as nat, b);
        assert((w + x) * (w + x) < 4 * (x * x)) by (nonlinear_arith)
            requires
                w < x,
        ;
    }
    let z: nat = magnitude(b + 2);
    lemma_magnitude_increases(b + 1, b + 2);
    assert((y + z) * (y + z) > 4 * (y * y)) by (nonlinear_arith)
        requires
            y < z,
    ;
}

/// Where the root lies around `q` spacings of two to the power of `e + 7`.
proof fn lemma_root_placed(n: nat, t: nat, h: nat, e: nat, q: nat, r: nat)
    requires
        n == t * pow2(2 * e),
        h * h <= t,
        t < (h + 1) * (h + 1),
        h == q * 128 + r,
        r < 128,
    ensures
        ({
            let x = q * pow2(e + 7);
            let y = (q + 1) * pow2(e + 7);
            let middle = x + y;
            &&& x * x <= n
            &&& n < y * y
            &&& r < 64 ==> 4 * n < middle * middle
            &&& r > 64 ==> 4 * n > middle * middle
            &&& r == 64 && t > h * h ==> 4 * n > middle * middle
            &&& r == 64 && t == h * h ==> 4 * n == middle * middle
        }),
{
    lemma2_to64();
    lemma_pow2_adds(e, 7);
    lemma_pow2_adds(e, e);
    lemma_pow2_pos(e);
    let u: nat = pow2(e);
    let uu: nat = u * u;
    assert(uu > 0) by (nonlinear_arith)
        requires
            u > 0,
            uu == u * u,
    ;
    let x: nat = q * pow2(e + 7);
    let y: nat = (q + 1) * pow2(e + 7);
    let low: nat = q * 128;
    let cut: nat = q * 128 + 64;
    let high: nat = q * 128 + 128;
    assert(x == low * u) by (nonlinear_arith)
        requires
            x == q * (u * 128),
            low == q * 128,
    ;
    assert(y == high * u) by (nonlinear_arith)
        requires
            y == (q + 1) * (u * 128),
            high == q * 128 + 128,
    ;
    assert(x * x == (low * low) * uu) by (nonlinear_arith)
        requires
            x == low * u,
            uu == u * u,
    ;
    assert(y * y == (high * high) * uu) by (nonlinear_arith)
        requires
            y == high * u,
            uu == u * u,
    ;
    assert((x + y) * (x + y) == 4 * ((cut * cut) * uu)) by (nonlinear_arith)
        requires
            x == low * u,
            y == high * u,
            uu == u * u,
            low + high == 2 * cut,
    ;
    assert(low * low <= h * h) by (nonlinear_arith)
        requires
            low <= h,
    ;
    assert((h + 1) * (h + 1) <= high * high) by (nonlinear_arith)
        requires
            h + 1 <= high,
    ;
    assert((low * low) * uu <= t * uu) by (nonlinear_arith)
        requires
            low * low <= t,
    ;
    assert(t * uu < (high * high) * uu) by (nonlinear_arith)
        requires
            t < high * high,
            uu > 0,
    ;
    if r < 64 {
        assert((h + 1) * (h + 1) <= cut * cut) by (nonlinear_arith)
            requires
                h + 1 <= cut,
        ;
        assert(t * uu < (cut * cut) * uu) by (nonlinear_arith)
            requires
                t < cut * cut,
                uu > 0,
        ;
    } else if r > 64 {
        assert(cut * cut < h * h) by (nonlinear_arith)
            requires
                cut < h,
        ;
        assert(t * uu > (cut * cut) * uu) by (nonlinear_arith)
            requires
                t > cut * cut,
                uu > 0,
        ;
    } else {
        assert(h == cut);
        if t > h * h {
            assert(t * uu > (cut * cut) * uu) by (nonlinear_arith)
                requires
                    t > cut * cut,
                    uu > 0,
            ;
        }
    }
}

impl Single {
    /// The number nearest to the square root.
    pub fn sqrt(self) -> (r: Single)
        ensures
            r == square_root(self),
    {
        if self.is_nan() {
            return Single { bits: NAN_BITS };
        }
        if self.is_zero() {
            return self;
        }
        if self.is_negative() {
            return Single { bits: NAN_BITS };
        }
        if self.is_infinite() {
            return self;
        }
        let (ma, ea): (u64, i32) = self.parts();
        let ghost n: nat = magnitude(self.pattern()) * pow2(149);
        proof {
            lemma2_to64();
            lemma2_to64_rest();
        }
        let len: u32 = bit_length(ma);
        proof {
            if len > 24 {
                lemma_pow2_strictly_increases(24, len as nat);
                if len > 25 {
                    lemma_pow2_strictly_increases(24, (len - 1) as nat);
                }
            }
        }
        let base: i32 = 61 - len as i32;
        let spare: i32 = ea + 149 - base;
        let shift: i32 = if spare % 2 == 0 {
            base
        } else {
            base + 1
        };
        let twice: i32 = ea + 149 - shift;
        let e: i32 = twice / 2;
        proof {
            // The shifted significand has 61 or 62 bits.
            let p: nat = pow2(shift as nat);
            lemma_pow2_pos(shift as nat);
            lemma_pow2_adds(len as nat, shift as nat);
            lemma_pow2_adds((len - 1) as nat, shift as nat);
            if len + shift == 61 {
                assert(pow2((len + shift) as nat) == pow2(61));
                assert(pow2((len - 1 + shift) as nat) == pow2(60));
            } else {
                assert(pow2((len + shift) as nat) == pow2(62));
                assert(pow2((len - 1 + shift) as nat) == pow2(61));
            }
            let big: nat = pow2(len as nat);
            let small: nat = pow2((len - 1) as nat);
            assert(small * p <= ma * p && ma * p < big * p) by (nonlinear_arith)
                requires
                    small <= ma,
                    ma < big,
                    p > 0,
            ;
            lemma_u64_shl_is_mul(ma, shift as u64);
        }
        let t: u64 = ma << (shift as u64);
        let h: u64 = whole_root(t);
        let q: u64 = h / 128;
        let r: u64 = h % 128;
        assert(h * h <= 0x7fff_ffff * 0x7fff_ffff) by (nonlinear_arith)
            requires
                h <= 0x7fff_ffff,
        ;
        let up: bool = r > 64 || (r == 64 && (t > h * h || q % 2 == 1));
        let k: i32 = e + 7;
        let pattern: u32 = (k as u32) * 0x80_0000 + q as u32 + if up {
            1
        } else {
            0
        };
        proof {
            let en: nat = e as nat;
            assert(2 * en == ea + 149 - shift);
            lemma_pow2_adds(shift as nat, 2 * en);
            lemma_pow2_adds(ea as nat, 149);
            assert(n == t as nat * pow2(2 * en)) by (nonlinear_arith)
                requires
                    n == (ma * pow2(ea as nat)) * pow2(149),
                    t == ma * pow2(shift as nat),
                    pow2(shift as nat) * pow2(2 * en) == pow2(ea as nat) * pow2(149),
            ;
            lemma_root_placed(n, t as nat, h as nat, en, q as nat, r as nat);
            lemma_pattern(k as nat, q as nat);
            lemma_pattern(k as nat, (q + 1) as nat);
            let floor: nat = (k as nat) * 0x80_0000 + q as nat;
            assert(floor % 2 == q % 2);
            lemma_root_of_two(n, floor);
            lemma_rounded_root_is(n, pattern as nat);
        }
        Single::with_sign(false, pattern)
    }
}

} // verus!
