//! Addition, subtraction, multiplication and division.
//!
//! Each finite result is the exact one rounded once, to the nearest number and
//! to the even pattern on a tie.

use crate::single::model::{lemma_rounded_exact, magnitude, rounded, BINADE, INFINITY_BITS};
use crate::single::pack::{pack, truncates, unit_above, unit_below};
use crate::single::{Single, NAN_BITS, SIGN_BIT};
use vstd::arithmetic::power2::{
    lemma2_to64, lemma2_to64_rest, lemma_pow2_adds, lemma_pow2_pos, lemma_pow2_strictly_increases,
    pow2,
};
use vstd::bits::lemma_u64_shl_is_mul;
use vstd::prelude::*;

verus! {

/// The distance of `v` from zero.
pub open spec fn distance_from_zero(v: int) -> nat {
    if v < 0 {
        (-v) as nat
    } else {
        v as nat
    }
}

/// What an invalid operation gives.
pub open spec fn not_a_number() -> Single {
    Single { bits: NAN_BITS }
}

/// The infinity with the given sign.
pub open spec fn infinity(negative: bool) -> Single {
    Single::spec_with_sign(negative, INFINITY_BITS as nat)
}

/// The zero with the given sign.
pub open spec fn zero(negative: bool) -> Single {
    Single::spec_with_sign(negative, 0)
}

/// `a + b`.
pub open spec fn sum(a: Single, b: Single) -> Single {
    if a.is_nan() || b.is_nan() {
        not_a_number()
    } else if a.is_infinite() {
        if b.is_infinite() && a.is_negative() != b.is_negative() {
            not_a_number()
        } else {
            a
        }
    } else if b.is_infinite() {
        b
    } else {
        let v = a.value() + b.value();
        if v == 0 {
            zero(a.is_negative() && b.is_negative())
        } else {
            Single::spec_with_sign(v < 0, rounded(distance_from_zero(v), 1))
        }
    }
}

/// `a - b`.
pub open spec fn difference(a: Single, b: Single) -> Single {
    sum(a, b.negated())
}

/// `a * b`.
pub open spec fn product(a: Single, b: Single) -> Single {
    let negative = a.is_negative() != b.is_negative();
    if a.is_nan() || b.is_nan() {
        not_a_number()
    } else if a.is_infinite() || b.is_infinite() {
        if a.is_zero() || b.is_zero() {
            not_a_number()
        } else {
            infinity(negative)
        }
    } else {
        Single::spec_with_sign(
            negative,
            rounded(magnitude(a.pattern()) * magnitude(b.pattern()), pow2(149)),
        )
    }
}

/// `a / b`.
pub open spec fn quotient(a: Single, b: Single) -> Single {
    let negative = a.is_negative() != b.is_negative();
    if a.is_nan() || b.is_nan() {
        not_a_number()
    } else if a.is_infinite() {
        if b.is_infinite() {
            not_a_number()
        } else {
            infinity(negative)
        }
    } else if b.is_infinite() {
        zero(negative)
    } else if b.is_zero() {
        if a.is_zero() {
            not_a_number()
        } else {
            infinity(negative)
        }
    } else {
        Single::spec_with_sign(
            negative,
            rounded(magnitude(a.pattern()) * pow2(149), magnitude(b.pattern())),
        )
    }
}

/// An exact intermediate result.
proof fn lemma_truncates_exact(m: nat, s: nat, t: nat)
    ensures
        truncates(m * pow2(s), pow2(t), m, s - t, false),
{
    let e: int = s - t;
    if e >= 0 {
        lemma_pow2_adds(e as nat, t);
        assert(m * pow2(s) * 1 == m * (pow2(e as nat) * pow2(t))) by (nonlinear_arith)
            requires
                pow2(s) == pow2(e as nat) * pow2(t),
        ;
    } else {
        lemma_pow2_adds(s, (-e) as nat);
        assert(m * pow2(s) * pow2((-e) as nat) == m * (1 * pow2(t))) by (nonlinear_arith)
            requires
                pow2(t) == pow2(s) * pow2((-e) as nat),
        ;
    }
}

proof fn lemma_shl(x: u64, s: u64, top: nat)
    requires
        x < pow2(top),
        top + s <= 63,
    ensures
        x << s == x * pow2(s as nat),
        x * pow2(s as nat) < pow2(top + s as nat),
        pow2(top + s as nat) <= 0x8000_0000_0000_0000,
{
    lemma2_to64_rest();
    lemma2_to64();
    lemma_pow2_adds(top, s as nat);
    lemma_pow2_pos(s as nat);
    let p: nat = pow2(s as nat);
    assert(x * p < pow2(top) * p) by (nonlinear_arith)
        requires
            x < pow2(top),
            p > 0,
    ;
    if top + s < 63 {
        lemma_pow2_strictly_increases(top + s as nat, 63);
    }
    lemma_u64_shl_is_mul(x, s);
}

impl Single {
    /// The significand and the exponent of a finite number.
    pub(crate) fn parts(self) -> (r: (u64, i32))
        requires
            self.is_finite(),
        ensures
            0 <= r.1 <= 253,
            r.0 < 0x100_0000,
            r.1 > 0 ==> r.0 >= 0x80_0000,
            r.0 == 0 <==> self.is_zero(),
            magnitude(self.pattern()) == r.0 * pow2(r.1 as nat),
    {
        let b: u32 = self.bits % SIGN_BIT;
        proof {
            lemma2_to64();
            assert(b * pow2(0) == b) by (nonlinear_arith)
                requires
                    pow2(0) == 1,
            ;
        }
        if b < BINADE {
            (b as u64, 0)
        } else {
            ((BINADE + b % BINADE) as u64, (b / BINADE) as i32 - 1)
        }
    }

    /// The number nearest to `a * b`.
    pub fn times(self, other: Single) -> (r: Single)
        ensures
            r == product(self, other),
    {
        let negative: bool = self.is_negative() != other.is_negative();
        if self.is_nan() || other.is_nan() {
            return Single { bits: NAN_BITS };
        }
        if self.is_infinite() || other.is_infinite() {
            return if self.is_zero() || other.is_zero() {
                Single { bits: NAN_BITS }
            } else {
                Single::with_sign(negative, INFINITY_BITS)
            };
        }
        let (ma, ea): (u64, i32) = self.parts();
        let (mb, eb): (u64, i32) = other.parts();
        assert(ma * mb <= 0xff_ffff * 0xff_ffff) by (nonlinear_arith)
            requires
                ma <= 0xff_ffff,
                mb <= 0xff_ffff,
        ;
        let m: u64 = ma * mb;
        let ghost n: nat = magnitude(self.pattern()) * magnitude(other.pattern());
        proof {
            let s: nat = (ea + eb) as nat;
            lemma_pow2_adds(ea as nat, eb as nat);
            assert(n == m as nat * pow2(s)) by (nonlinear_arith)
                requires
                    n == (ma * pow2(ea as nat)) * (mb * pow2(eb as nat)),
                    m == ma * mb,
                    pow2(s) == pow2(ea as nat) * pow2(eb as nat),
            ;
            lemma_truncates_exact(m as nat, s, 149);
            lemma_pow2_pos(149);
        }
        let pattern: u32 = pack(m, ea + eb - 149, false, Ghost(n), Ghost(pow2(149)));
        Single::with_sign(negative, pattern)
    }

    /// The number nearest to `a / b`.
    pub fn over(self, other: Single) -> (r: Single)
        ensures
            r == quotient(self, other),
    {
        let negative: bool = self.is_negative() != other.is_negative();
        if self.is_nan() || other.is_nan() {
            return Single { bits: NAN_BITS };
        }
        if self.is_infinite() {
            return if other.is_infinite() {
                Single { bits: NAN_BITS }
            } else {
                Single::with_sign(negative, INFINITY_BITS)
            };
        }
        if other.is_infinite() {
            return Single::with_sign(negative, 0);
        }
        if other.is_zero() {
            return if self.is_zero() {
                Single { bits: NAN_BITS }
            } else {
                Single::with_sign(negative, INFINITY_BITS)
            };
        }
        let (ma, ea): (u64, i32) = self.parts();
        let (mb, eb): (u64, i32) = other.parts();
        let ghost n: nat = magnitude(self.pattern()) * pow2(149);
        let ghost d: nat = magnitude(other.pattern());
        proof {
            lemma_pow2_pos(149);
            lemma_pow2_pos(eb as nat);
            assert(d > 0) by (nonlinear_arith)
                requires
                    d == mb * pow2(eb as nat),
                    mb > 0,
                    pow2(eb as nat) > 0,
            ;
        }
        if ma == 0 {
            proof {
                assert(n == 0) by (nonlinear_arith)
                    requires
                        n == (0 * pow2(ea as nat)) * pow2(149),
                ;
                lemma_rounded_exact(d, 0);
                assert(magnitude(0) * d == 0) by (nonlinear_arith)
                    requires
                        magnitude(0) == 0,
                ;
            }
            return Single::with_sign(negative, 0);
        }
        // Bring the dividend to a full significand, then add bits for the quotient.
        let mut wide: u64 = ma;
        let mut shift: i32 = 0;
        proof {
            lemma2_to64();
            assert(ma * pow2(0) == ma) by (nonlinear_arith)
                requires
                    pow2(0) == 1,
            ;
        }
        while wide < 0x80_0000
            invariant
                0 < wide < 0x100_0000,
                0 <= shift <= 23,
                wide == ma * pow2(shift as nat),
                ma > 0,
            decreases 0x100_0000 - wide,
        {
            proof {
                vstd::arithmetic::power2::lemma_pow2_unfold((shift + 1) as nat);
                assert(ma * (2 * pow2(shift as nat)) == 2 * wide) by (nonlinear_arith)
                    requires
                        wide == ma * pow2(shift as nat),
                ;
                lemma_pow2_pos(shift as nat);
                assert(wide >= pow2(shift as nat)) by (nonlinear_arith)
                    requires
                        wide == ma * pow2(shift as nat),
                        ma >= 1,
                        pow2(shift as nat) > 0,
                ;
                lemma2_to64();
                if shift == 23 {
                    assert(false);
                }
            }
            wide = wide * 2;
            shift = shift + 1;
        }
        proof {
            lemma2_to64();
            lemma2_to64_rest();
            lemma_shl(wide, 39, 24);
        }
        let num: u64 = wide << 39;
        let m: u64 = num / mb;
        let rest: u64 = num % mb;
        let e: i32 = ea - shift - 39 - eb + 149;
        proof {
            let top: nat = (shift + 39) as nat;
            let whole: nat = (ea + 149) as nat;
            lemma_pow2_adds(shift as nat, 39);
            lemma_pow2_adds(ea as nat, 149);
            let pt: nat = pow2(top);
            let pw: nat = pow2(whole);
            let pb: nat = pow2(eb as nat);
            let ua: nat = unit_above(e as int);
            let ub: nat = unit_below(e as int);
            assert(num == ma * pt) by (nonlinear_arith)
                requires
                    num == wide * pow2(39),
                    wide == ma * pow2(shift as nat),
                    pt == pow2(shift as nat) * pow2(39),
            ;
            assert(n == ma * pw) by (nonlinear_arith)
                requires
                    n == (ma * pow2(ea as nat)) * pow2(149),
                    pw == pow2(ea as nat) * pow2(149),
            ;
            // Both fractions name the same power of two.
            assert(ub * pw == (ua * pb) * pt) by {
                lemma_pow2_adds(eb as nat, top);
                if e >= 0 {
                    lemma_pow2_adds(e as nat, (eb + top) as nat);
                    assert(1 * pw == (ua * pb) * pt) by (nonlinear_arith)
                        requires
                            pw == ua * pow2((eb + top) as nat),
                            pow2((eb + top) as nat) == pb * pt,
                    ;
                } else {
                    lemma_pow2_adds((-e) as nat, whole);
                    assert(ub * pw == (1 * pb) * pt) by (nonlinear_arith)
                        requires
                            ub * pw == pb * pt,
                    ;
                }
            }
            let g: nat = ua * pb;
            let x: nat = n * ub;
            let y: nat = ua * d;
            assert(x == num * g) by (nonlinear_arith)
                requires
                    x == (ma * pw) * ub,
                    ub * pw == g * pt,
                    num == ma * pt,
            ;
            assert(y == mb * g) by (nonlinear_arith)
                requires
                    y == ua * (mb * pb),
                    g == ua * pb,
            ;
            if e >= 0 {
                lemma_pow2_pos(e as nat);
            }
            assert(g > 0) by (nonlinear_arith)
                requires
                    g == ua * pb,
                    ua > 0,
                    pb > 0,
            ;
            assert(num == m * mb + rest && rest < mb) by (nonlinear_arith)
                requires
                    m == num / mb,
                    rest == num % mb,
                    mb > 0,
            ;
            assert(x == m * y + rest * g) by (nonlinear_arith)
                requires
                    x == num * g,
                    y == mb * g,
                    num == m * mb + rest,
            ;
            assert(rest * g < y && (rest > 0 <==> rest * g > 0)) by (nonlinear_arith)
                requires
                    y == mb * g,
                    rest < mb,
                    g > 0,
            ;
            assert((m + 1) * y == m * y + y) by (nonlinear_arith);
            assert(truncates(n, d, m as nat, e as int, rest > 0));
            assert(m >= 0x200_0000) by (nonlinear_arith)
                requires
                    num == m * mb + rest,
                    rest < mb,
                    mb < 0x100_0000,
                    num >= 0x80_0000 * 0x80_0000_0000,
            ;
        }
        let pattern: u32 = pack(m, e, rest > 0, Ghost(n), Ghost(d));
        Single::with_sign(negative, pattern)
    }

    /// The number nearest to `a + b`.
    pub fn plus(self, other: Single) -> (r: Single)
        ensures
            r == sum(self, other),
    {
        if self.is_nan() || other.is_nan() {
            return Single { bits: NAN_BITS };
        }
        if self.is_infinite() {
            return if other.is_infinite() && self.is_negative() != other.is_negative() {
                Single { bits: NAN_BITS }
            } else {
                self
            };
        }
        if other.is_infinite() {
            return other;
        }
        if self.bits % SIGN_BIT < other.bits % SIGN_BIT {
            proof {
                crate::single::model::lemma_magnitude_increases(self.pattern(), other.pattern());
            }
            return Single::plus_smaller(other, self);
        }
        proof {
            if other.pattern() < self.pattern() {
                crate::single::model::lemma_magnitude_increases(other.pattern(), self.pattern());
            }
        }
        Single::plus_smaller(self, other)
    }

    /// The number nearest to `a + b`, where `a` is no nearer to zero than `b`.
    fn plus_smaller(a: Single, b: Single) -> (r: Single)
        requires
            a.is_finite(),
            b.is_finite(),
            b.pattern() <= a.pattern(),
            magnitude(b.pattern()) <= magnitude(a.pattern()),
        ensures
            r == sum(a, b),
            r == sum(b, a),
    {
        let (ma, ea): (u64, i32) = a.parts();
        let (mb, eb): (u64, i32) = b.parts();
        let ghost va: nat = magnitude(a.pattern());
        let ghost vb: nat = magnitude(b.pattern());
        let same: bool = a.is_negative() == b.is_negative();
        let ghost n: nat = if same {
            va + vb
        } else {
            (va - vb) as nat
        };
        proof {
            lemma2_to64();
            lemma_pow2_pos(ea as nat);
            lemma_pow2_pos(eb as nat);
        }
        if mb == 0 {
            proof {
                assert(vb == 0) by (nonlinear_arith)
                    requires
                        vb == 0 * pow2(eb as nat),
                ;
                lemma_rounded_exact(1, a.pattern());
            }
            return if ma == 0 {
                assert(va == 0) by (nonlinear_arith)
                    requires
                        va == 0 * pow2(ea as nat),
                ;
                Single::with_sign(a.is_negative() && b.is_negative(), 0)
            } else {
                assert(va > 0) by (nonlinear_arith)
                    requires
                        va == ma * pow2(ea as nat),
                        ma > 0,
                        pow2(ea as nat) > 0,
                ;
                a
            };
        }
        proof {
            // The larger magnitude does not have the smaller exponent.
            if ea < eb {
                lemma_pow2_adds((eb - ea) as nat, ea as nat);
                vstd::arithmetic::power2::lemma_pow2_unfold((eb - ea) as nat);
                lemma_pow2_pos((eb - ea - 1) as nat);
                assert(vb > va) by (nonlinear_arith)
                    requires
                        vb == mb * (pow2((eb - ea) as nat) * pow2(ea as nat)),
                        va == ma * pow2(ea as nat),
                        pow2((eb - ea) as nat) >= 2,
                        pow2(ea as nat) > 0,
                        mb >= 0x80_0000,
                        ma < 0x100_0000,
                ;
            }
            assert(vb > 0) by (nonlinear_arith)
                requires
                    vb == mb * pow2(eb as nat),
                    mb > 0,
                    pow2(eb as nat) > 0,
            ;
        }
        let gap: i32 = ea - eb;
        if gap <= 38 {
            proof {
                lemma_shl(ma, gap as u64, 24);
                lemma_pow2_adds(gap as nat, eb as nat);
                assert(va == (ma * pow2(gap as nat)) * pow2(eb as nat)) by (nonlinear_arith)
                    requires
                        va == ma * (pow2(gap as nat) * pow2(eb as nat)),
                ;
                lemma_pow2_adds(24, gap as nat);
                lemma_pow2_strictly_increases((24 + gap) as nat, 63);
                lemma2_to64_rest();
            }
            let big: u64 = ma << (gap as u64);
            proof {
                let p: nat = pow2(eb as nat);
                if !same {
                    assert(big >= mb) by (nonlinear_arith)
                        requires
                            big * p >= mb * p,
                            p > 0,
                    ;
                }
            }
            if !same && big == mb {
                return Single::with_sign(false, 0);
            }
            let m: u64 = if same {
                big + mb
            } else {
                big - mb
            };
            proof {
                let p: nat = pow2(eb as nat);
                assert((big + mb) * p == va + vb && (big - mb) * p == va - vb) by (nonlinear_arith)
                    requires
                        va == big * p,
                        vb == mb * p,
                ;
                lemma_truncates_exact(m as nat, eb as nat, 0);
                assert(n > 0) by (nonlinear_arith)
                    requires
                        n == m * p,
                        m > 0,
                        p > 0,
                ;
            }
            let pattern: u32 = pack(m, eb, false, Ghost(n), Ghost(1nat));
            return Single::with_sign(a.is_negative(), pattern);
        }
        Single::plus_distant(a, b, ma, ea, mb, eb)
    }

    /// The number nearest to `a + b`, where `b` is far too small to reach the
    /// last place that matters of `a`.
    fn plus_distant(a: Single, b: Single, ma: u64, ea: i32, mb: u64, eb: i32) -> (r: Single)
        requires
            a.is_finite(),
            b.is_finite(),
            0 <= eb,
            ea <= 253,
            ea - eb >= 39,
            0x80_0000 <= ma < 0x100_0000,
            0 < mb < 0x100_0000,
            magnitude(a.pattern()) == ma * pow2(ea as nat),
            magnitude(b.pattern()) == mb * pow2(eb as nat),
        ensures
            r == sum(a, b),
            r == sum(b, a),
    {
        let same: bool = a.is_negative() == b.is_negative();
        let ghost va: nat = magnitude(a.pattern());
        let ghost vb: nat = magnitude(b.pattern());
        let m: u64 = if same {
            ma * 8
        } else {
            ma * 8 - 1
        };
        let e: i32 = ea - 3;
        proof {
            lemma2_to64();
            let unit: nat = pow2(e as nat);
            lemma_pow2_pos(e as nat);
            lemma_pow2_pos(eb as nat);
            lemma_pow2_adds(e as nat, 3);
            lemma_pow2_adds(24, eb as nat);
            lemma_pow2_strictly_increases((24 + eb) as nat, e as nat);
            let p: nat = pow2(eb as nat);
            assert(0 < vb < unit) by (nonlinear_arith)
                requires
                    vb == mb * p,
                    0 < mb,
                    mb < 0x100_0000,
                    p > 0,
                    0x100_0000 * p < unit,
            ;
            assert(va == (8 * ma) * unit) by (nonlinear_arith)
                requires
                    va == ma * (unit * 8),
            ;
            assert(m * unit == if same {
                va as int
            } else {
                va - unit
            }) by (nonlinear_arith)
                requires
                    va == (8 * ma) * unit,
                    m == if same {
                        8 * ma
                    } else {
                        8 * ma - 1
                    },
            ;
            assert((m + 1) * unit == m * unit + unit) by (nonlinear_arith);
            assert(va >= unit) by (nonlinear_arith)
                requires
                    va == (8 * ma) * unit,
                    ma >= 1,
            ;
        }
        let ghost n: nat = if same {
            va + vb
        } else {
            (va - vb) as nat
        };
        proof {
            let unit: nat = pow2(e as nat);
            let y: nat = unit_above(e as int) * 1;
            let x: nat = n * unit_below(e as int);
            assert(x == n) by (nonlinear_arith)
                requires
                    x == n * unit_below(e as int),
                    unit_below(e as int) == 1,
            ;
            assert(y == unit);
            assert((m + 1) * unit == m * unit + unit) by (nonlinear_arith);
            assert(m * y < x && x < (m + 1) * y);
            assert(truncates(n, 1, m as nat, e as int, true));
        }
        let pattern: u32 = pack(m, e, true, Ghost(n), Ghost(1nat));
        Single::with_sign(a.is_negative(), pattern)
    }

    /// The number nearest to `a - b`.
    pub fn minus(self, other: Single) -> (r: Single)
        ensures
            r == difference(self, other),
    {
        self.plus(other.negated())
    }
}

} // verus!
