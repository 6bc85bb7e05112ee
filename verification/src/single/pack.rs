//! Rounding an intermediate result to a bit pattern.

use crate::single::model::{
    lemma_magnitude_increases, lemma_nearest_beyond, lemma_nearest_of_two, lemma_rounded_exact,
    lemma_rounded_is, magnitude, rounded, INFINITY_BITS,
};
use vstd::arithmetic::power2::{
    lemma2_to64, lemma2_to64_rest, lemma_pow2_adds, lemma_pow2_pos, lemma_pow2_strictly_increases,
    lemma_pow2_unfold, pow2,
};
use vstd::bits::lemma_u64_shl_is_mul;
use vstd::prelude::*;

verus! {

/// Two to the power of `e`, as the numerator of a fraction over `unit_below`.
pub open spec fn unit_above(e: int) -> nat {
    if e >= 0 {
        pow2(e as nat)
    } else {
        1
    }
}

/// Two to the power of `-e`, as the denominator of a fraction under
/// `unit_above`.
pub open spec fn unit_below(e: int) -> nat {
    if e < 0 {
        pow2((-e) as nat)
    } else {
        1
    }
}

/// Whether cutting the quotient `n / d` down to whole units of two to the
/// power of `e` leaves `m` of them; `sticky` tells whether anything was cut.
pub open spec fn truncates(n: nat, d: nat, m: nat, e: int, sticky: bool) -> bool {
    let x = n * unit_below(e);
    let y = unit_above(e) * d;
    if sticky {
        m * y < x && x < (m + 1) * y
    } else {
        x == m * y
    }
}

proof fn lemma_units(e: int)
    ensures
        unit_above(e) > 0,
        unit_below(e) > 0,
{
    if e >= 0 {
        lemma_pow2_pos(e as nat);
    } else {
        lemma_pow2_pos((-e) as nat);
    }
}

/// `k` units above `e` are reached from it by a shift of `k - e`.
proof fn lemma_shift_units(k: nat, e: int, drop: nat)
    requires
        drop == k - e,
    ensures
        pow2(k) * unit_below(e) == pow2(drop) * unit_above(e),
{
    if e >= 0 {
        lemma_pow2_adds(drop, e as nat);
    } else {
        lemma_pow2_adds(k, (-e) as nat);
    }
}

/// The pattern whose spacing is two to the power of `k` and which is `q`
/// spacings from zero.
pub proof fn lemma_pattern(k: nat, q: nat)
    requires
        q <= 0x100_0000,
        k == 0 || q >= 0x80_0000,
    ensures
        magnitude(k * 0x80_0000 + q) == q * pow2(k),
{
    lemma2_to64();
    let b: nat = k * 0x80_0000 + q;
    if q < 0x80_0000 {
    } else if q < 0x100_0000 {
        assert(b / 0x80_0000 == k + 1 && b % 0x80_0000 == q - 0x80_0000);
        assert(magnitude(b) == q * pow2(k));
    } else {
        assert(b / 0x80_0000 == k + 2 && b % 0x80_0000 == 0);
        lemma_pow2_unfold(k + 1);
        assert(magnitude(b) == 0x80_0000 * pow2(k + 1));
        assert(q * pow2(k) == 0x100_0000 * pow2(k)) by (nonlinear_arith)
            requires
                q == 0x100_0000,
        ;
    }
}

/// How many bits `m` takes.
pub(crate) fn bit_length(m: u64) -> (len: u32)
    ensures
        len <= 64,
        m < pow2(len as nat),
        len > 0 ==> pow2((len - 1) as nat) <= m,
        len == 0 <==> m == 0,
{
    let mut rest: u64 = m;
    let mut len: u32 = 0;
    proof {
        lemma2_to64();
    }
    while rest > 0
        invariant
            len <= 64,
            rest * pow2(len as nat) <= m,
            m < (rest + 1) * pow2(len as nat),
            len > 0 ==> pow2((len - 1) as nat) <= m,
            len == 0 ==> rest == m,
            len > 0 ==> m > 0,
            pow2(64) == 0x1_0000_0000_0000_0000,
        decreases rest,
    {
        proof {
            lemma_pow2_pos(len as nat);
            lemma_pow2_unfold((len + 1) as nat);
            let p: nat = pow2(len as nat);
            assert(rest * p >= p) by (nonlinear_arith)
                requires
                    rest >= 1,
            ;
            if len == 64 {
                assert(false);
            }
            let half: nat = rest as nat / 2;
            assert(half * (2 * p) <= rest * p) by (nonlinear_arith)
                requires
                    2 * half <= rest,
            ;
            assert((rest + 1) * p <= (half + 1) * (2 * p)) by (nonlinear_arith)
                requires
                    rest + 1 <= 2 * (half + 1),
            ;
        }
        rest = rest / 2;
        len = len + 1;
    }
    assert(1 * pow2(len as nat) == pow2(len as nat));
    len
}

/// Where the exact result lies around `q` spacings of two to the power of `k`.
proof fn lemma_placed(n: nat, d: nat, m: nat, e: int, sticky: bool, k: nat, drop: nat, q: nat, r: nat)
    requires
        d > 0,
        truncates(n, d, m, e, sticky),
        drop == k - e,
        drop >= 1,
        m == q * pow2(drop) + r,
        r < pow2(drop),
    ensures
        (q * pow2(k)) * d <= n,
        n < ((q + 1) * pow2(k)) * d,
        ({
            let middle = (q * pow2(k) + (q + 1) * pow2(k)) * d;
            let half = pow2((drop - 1) as nat);
            &&& r < half ==> 2 * n < middle
            &&& r > half ==> 2 * n > middle
            &&& r == half && sticky ==> 2 * n > middle
            &&& r == half && !sticky ==> 2 * n == middle
        }),
{
    lemma_units(e);
    lemma_shift_units(k, e, drop);
    lemma_pow2_pos(drop);
    lemma_pow2_pos((drop - 1) as nat);
    lemma_pow2_unfold(drop);
    let p: nat = pow2(drop);
    let half: nat = pow2((drop - 1) as nat);
    let g: nat = pow2(k);
    let ua: nat = unit_above(e);
    let ub: nat = unit_below(e);
    let x: nat = n * ub;
    let y: nat = ua * d;
    assert(y > 0) by (nonlinear_arith)
        requires
            y == ua * d,
            ua > 0,
            d > 0,
    ;
    // Both sides of each comparison are multiplied by `ub`.
    assert(((q * g) * d) * ub == (q * p) * y) by (nonlinear_arith)
        requires
            g * ub == p * ua,
            y == ua * d,
    ;
    assert((((q + 1) * g) * d) * ub == ((q + 1) * p) * y) by (nonlinear_arith)
        requires
            g * ub == p * ua,
            y == ua * d,
    ;
    assert(((q * g + (q + 1) * g) * d) * ub == 2 * ((q * p + half) * y)) by (nonlinear_arith)
        requires
            g * ub == p * ua,
            y == ua * d,
            p == 2 * half,
    ;
    assert((q + 1) * p == q * p + p) by (nonlinear_arith);
    let low: nat = q * p;
    assert(low * y <= m * y) by (nonlinear_arith)
        requires
            low <= m,
    ;
    assert((m + 1) * y <= (low + p) * y) by (nonlinear_arith)
        requires
            m + 1 <= low + p,
    ;
    assert((m + 1) * y == m * y + y) by (nonlinear_arith);
    assert((q * g) * d <= n) by (nonlinear_arith)
        requires
            ((q * g) * d) * ub <= n * ub,
            ub > 0,
    ;
    assert(n < ((q + 1) * g) * d) by (nonlinear_arith)
        requires
            n * ub < (((q + 1) * g) * d) * ub,
            ub > 0,
    ;
    let middle: nat = (q * g + (q + 1) * g) * d;
    let cut: nat = low + half;
    if r < half {
        assert((m + 1) * y <= cut * y) by (nonlinear_arith)
            requires
                m + 1 <= cut,
        ;
        assert(2 * n < middle) by (nonlinear_arith)
            requires
                2 * (n * ub) < middle * ub,
                ub > 0,
        ;
    } else if r > half {
        assert(cut * y + y <= m * y) by (nonlinear_arith)
            requires
                cut + 1 <= m,
        ;
        assert(2 * n > middle) by (nonlinear_arith)
            requires
                2 * (n * ub) > middle * ub,
                ub > 0,
        ;
    } else if sticky {
        assert(2 * n > middle) by (nonlinear_arith)
            requires
                2 * (n * ub) > middle * ub,
                ub > 0,
        ;
    } else {
        assert(2 * n == middle) by (nonlinear_arith)
            requires
                2 * (n * ub) == middle * ub,
                ub > 0,
        ;
    }
}

/// The nearest pattern, given where the exact result lies.
proof fn lemma_decided(n: nat, d: nat, k: nat, q: nat, up: bool)
    requires
        d > 0,
        q < 0x100_0000,
        k == 0 || q >= 0x80_0000,
        (q * pow2(k)) * d <= n,
        n < ((q + 1) * pow2(k)) * d,
        ({
            let middle = (q * pow2(k) + (q + 1) * pow2(k)) * d;
            if up {
                2 * n > middle || (2 * n == middle && q % 2 == 1)
            } else {
                2 * n < middle || (2 * n == middle && q % 2 == 0)
            }
        }),
    ensures
        ({
            let b = k * 0x80_0000 + q + if up {
                1nat
            } else {
                0nat
            };
            rounded(n, d) == if b < INFINITY_BITS {
                b
            } else {
                INFINITY_BITS as nat
            }
        }),
{
    lemma_pattern(k, q);
    lemma_pattern(k, q + 1);
    let floor: nat = k * 0x80_0000 + q;
    assert(floor % 2 == q % 2);
    if floor < INFINITY_BITS {
        lemma_nearest_of_two(n, d, floor);
        lemma_rounded_is(n, d, if up {
            floor + 1
        } else {
            floor
        });
    } else {
        let top: nat = magnitude(INFINITY_BITS as nat);
        if floor > INFINITY_BITS {
            lemma_magnitude_increases(INFINITY_BITS as nat, floor);
        }
        assert(top * d <= magnitude(floor) * d) by (nonlinear_arith)
            requires
                top <= magnitude(floor),
        ;
        lemma_nearest_beyond(n, d);
        lemma_rounded_is(n, d, INFINITY_BITS as nat);
    }
}

/// The pattern nearest to `m` units of two to the power of `e`, and a fraction
/// of one more where `sticky` is set.
pub(crate) fn pack(m: u64, e: i32, sticky: bool, Ghost(n): Ghost<nat>, Ghost(d): Ghost<nat>) -> (b: u32)
    requires
        d > 0,
        m < 0x8000_0000_0000_0000,
        -2000 <= e <= 2000,
        sticky ==> m >= 0x200_0000,
        truncates(n, d, m as nat, e as int, sticky),
    ensures
        b == rounded(n, d),
        b <= INFINITY_BITS,
{
    proof {
        lemma2_to64();
        lemma2_to64_rest();
        lemma_units(e as int);
    }
    if m == 0 {
        proof {
            assert(n == 0) by (nonlinear_arith)
                requires
                    n * unit_below(e as int) == 0,
                    unit_below(e as int) > 0,
            ;
            lemma_rounded_exact(d, 0);
            assert(magnitude(0) * d == 0) by (nonlinear_arith)
                requires
                    magnitude(0) == 0,
            ;
        }
        return 0;
    }
    let len: u32 = bit_length(m);
    proof {
        if len == 64 {
            assert(pow2(63) <= m);
        }
    }
    let excess: i32 = len as i32 + e - 24;
    let k: i32 = if excess > 0 {
        excess
    } else {
        0
    };
    let drop: i32 = k - e;
    let ghost kn: nat = k as nat;
    if drop <= 0 {
        let up: u64 = (0 - drop) as u64;
        assert(0 <= up <= 24 - len) by {
            if len > 24 {
                assert(drop >= 1);
            }
            if sticky {
                assert(len > 24) by {
                    if len <= 24 {
                        if len < 24 {
                            lemma_pow2_strictly_increases(len as nat, 24);
                        }
                    }
                }
            }
        }
        proof {
            lemma_pow2_adds(len as nat, up as nat);
            lemma_pow2_adds((len - 1) as nat, up as nat);
            if len + up < 24 {
                lemma_pow2_strictly_increases((len + up) as nat, 24);
            }
            let s: nat = pow2(up as nat);
            let big: nat = pow2(len as nat);
            let small: nat = pow2((len - 1) as nat);
            assert(m * s < big * s && small * s <= m * s) by (nonlinear_arith)
                requires
                    small <= m,
                    m < big,
                    s > 0,
            ;
            lemma_u64_shl_is_mul(m, up);
        }
        let q: u64 = m << up;
        proof {
            let s: nat = pow2(up as nat);
            assert(q == m * s);
            if k > 0 {
                assert(len + up == 24);
                assert(pow2((len - 1 + up) as nat) == 0x80_0000);
            }
            lemma_pattern(kn, q as nat);
            // `n / d` is exactly `q` spacings of two to the power of `k`.
            lemma_pow2_adds(up as nat, kn);
            let ua: nat = unit_above(e as int);
            assert(e >= 0);
            assert(ua == s * pow2(kn));
            assert(n == ((m * s) * pow2(kn)) * d) by (nonlinear_arith)
                requires
                    n * 1 == m * (ua * d),
                    ua == s * pow2(kn),
            ;
            let floor: nat = kn * 0x80_0000 + q as nat;
            if floor < INFINITY_BITS {
                lemma_rounded_exact(d, floor);
            } else {
                let top: nat = magnitude(INFINITY_BITS as nat);
                if floor > INFINITY_BITS {
                    lemma_magnitude_increases(INFINITY_BITS as nat, floor);
                }
                assert(top * d <= magnitude(floor) * d) by (nonlinear_arith)
                    requires
                        top <= magnitude(floor),
                ;
                lemma_nearest_beyond(n, d);
                lemma_rounded_is(n, d, INFINITY_BITS as nat);
            }
        }
        let whole: u64 = (k as u64) * 0x80_0000 + q;
        return if whole < INFINITY_BITS as u64 {
            whole as u32
        } else {
            INFINITY_BITS
        };
    }
    if drop >= 64 {
        proof {
            // Less than half of the smallest magnitude.
            assert(k == 0);
            lemma_pow2_strictly_increases(63, drop as nat);
            let r: nat = m as nat;
            assert(r == 0 * pow2(drop as nat) + r);
            lemma_placed(n, d, r, e as int, sticky, 0, drop as nat, 0, r);
            if drop - 1 > 63 {
                lemma_pow2_strictly_increases(63, (drop - 1) as nat);
            }
            lemma_decided(n, d, 0, 0, false);
        }
        return 0;
    }
    proof {
        lemma_pow2_strictly_increases(drop as nat, 64);
        lemma_u64_shl_is_mul(1, drop as u64);
        lemma_pow2_unfold(drop as nat);
        lemma_pow2_pos(drop as nat);
    }
    let p: u64 = 1u64 << (drop as u64);
    let half: u64 = p / 2;
    let q: u64 = m / p;
    let r: u64 = m % p;
    let up: bool = r > half || (r == half && (sticky || q % 2 == 1));
    proof {
        assert(p == pow2(drop as nat));
        assert(m == q * p + r && r < p) by (nonlinear_arith)
            requires
                q == m / p,
                r == m % p,
                p > 0,
        ;
        // `q` fits a significand: `m` is below `pow2(len)`, and `len - drop` is at most 24.
        assert(q < 0x100_0000) by {
            lemma_pow2_adds(24, drop as nat);
            if len < 24 + drop {
                lemma_pow2_strictly_increases(len as nat, (24 + drop) as nat);
            }
            assert(q < 0x100_0000) by (nonlinear_arith)
                requires
                    m == q * p + r,
                    m < 0x100_0000 * p,
                    p > 0,
            ;
        }
        if k > 0 {
            assert(len - drop == 24);
            lemma_pow2_adds(23, drop as nat);
            assert(q >= 0x80_0000) by (nonlinear_arith)
                requires
                    m == q * p + r,
                    r < p,
                    m >= 0x80_0000 * p,
                    p > 0,
            ;
        }
        lemma_placed(n, d, m as nat, e as int, sticky, kn, drop as nat, q as nat, r as nat);
        lemma_decided(n, d, kn, q as nat, up);
    }
    let whole: u64 = (k as u64) * 0x80_0000 + q + if up {
        1
    } else {
        0
    };
    if whole < INFINITY_BITS as u64 {
        whole as u32
    } else {
        INFINITY_BITS
    }
}

} // verus!
