//! Spans of time.

use crate::single::laws::lemma_place_of_value;
use crate::single::model::magnitude;
use crate::single::Single;
use vstd::arithmetic::power2::{
    lemma2_to64, lemma2_to64_rest, lemma_pow2_adds, lemma_pow2_pos, lemma_pow2_strictly_increases,
    pow2,
};
use vstd::bits::lemma_u64_shl_is_mul;
use vstd::prelude::*;

verus! {

/// The longest span there is: the largest number of whole seconds that 64 bits
/// hold, and all but one nanosecond of another.
pub const MAX_NANOS: u128 = 18_446_744_073_709_551_615_999_999_999;

/// A span of time, in whole nanoseconds.
#[derive(Clone, Copy, Debug, PartialEq, Eq, Structural, Hash)]
pub struct Duration {
    pub nanos: u128,
}

impl Duration {
    /// No time at all.
    pub open spec fn spec_zero() -> Duration {
        Duration { nanos: 0 }
    }

    pub open spec fn spec_from_millis(millis: u64) -> Duration {
        Duration { nanos: (millis * 1_000_000) as u128 }
    }

    pub open spec fn spec_from_secs(secs: u64) -> Duration {
        Duration { nanos: (secs * 1_000_000_000) as u128 }
    }

    /// The sum of two spans.
    pub open spec fn spec_plus(self, other: Duration) -> Duration {
        Duration { nanos: (self.nanos + other.nanos) as u128 }
    }

    /// What is left of this span after `other`, nothing where `other` is longer.
    pub open spec fn spec_saturating_sub(self, other: Duration) -> Duration {
        Duration {
            nanos: if self.nanos >= other.nanos {
                (self.nanos - other.nanos) as u128
            } else {
                0
            },
        }
    }

    /// Whether the sum of two spans is a span.
    pub open spec fn fits(self, other: Duration) -> bool {
        self.nanos + other.nanos <= MAX_NANOS
    }

    /// No time at all.
    #[verifier::when_used_as_spec(spec_zero)]
    pub fn zero() -> (d: Duration)
        ensures
            d == Duration::zero(),
    {
        Duration { nanos: 0 }
    }

    #[verifier::when_used_as_spec(spec_from_millis)]
    pub fn from_millis(millis: u64) -> (d: Duration)
        ensures
            d == Duration::from_millis(millis),
    {
        Duration { nanos: millis as u128 * 1_000_000 }
    }

    #[verifier::when_used_as_spec(spec_from_secs)]
    pub fn from_secs(secs: u64) -> (d: Duration)
        ensures
            d == Duration::from_secs(secs),
    {
        Duration { nanos: secs as u128 * 1_000_000_000 }
    }

    /// The sum of two spans.
    #[verifier::when_used_as_spec(spec_plus)]
    pub fn plus(self, other: Duration) -> (d: Duration)
        requires
            self.fits(other),
        ensures
            d == self.plus(other),
    {
        Duration { nanos: self.nanos + other.nanos }
    }

    /// What is left of this span after `other`, nothing where `other` is longer.
    #[verifier::when_used_as_spec(spec_saturating_sub)]
    pub fn saturating_sub(self, other: Duration) -> (d: Duration)
        ensures
            d == self.saturating_sub(other),
    {
        if self.nanos >= other.nanos {
            Duration { nanos: self.nanos - other.nanos }
        } else {
            Duration { nanos: 0 }
        }
    }
}

/// The whole number nearest to the quotient `n / d`, the even one of two that
/// are equally near.
pub open spec fn nearest_whole(n: nat, d: nat) -> nat {
    let q = n / d;
    let r = n % d;
    if 2 * r > d || (2 * r == d && q % 2 == 1) {
        q + 1
    } else {
        q
    }
}

/// Whether a number of seconds is a span: a number that is neither negative
/// nor too large for 64 bits of whole seconds.
pub open spec fn is_span(secs: Single) -> bool {
    secs.is_finite() && (secs.is_zero() || !secs.is_negative()) && magnitude(secs.pattern()) < pow2(
        64,
    ) * pow2(149)
}

impl Duration {
    /// The span of a number of seconds, to the nearest nanosecond.
    pub open spec fn spec_try_from_secs(secs: Single) -> Option<Duration> {
        if is_span(secs) {
            Some(
                Duration {
                    nanos: nearest_whole(
                        magnitude(secs.pattern()) * 1_000_000_000,
                        pow2(149),
                    ) as u128,
                },
            )
        } else {
            None
        }
    }

    /// The span of a number of seconds, to the nearest nanosecond; `None`
    /// where the number is not a span: it is negative, not finite or too large.
    #[verifier::when_used_as_spec(spec_try_from_secs)]
    pub fn try_from_secs(secs: Single) -> (r: Option<Duration>)
        ensures
            r == Duration::try_from_secs(secs),
    {
        if !secs.is_finite() {
            return None;
        }
        proof {
            lemma_pow2_pos(149);
            lemma_pow2_pos(64);
            lemma2_to64();
            lemma2_to64_rest();
        }
        if secs.is_zero() {
            assert(magnitude(0) == 0);
            assert(0 < pow2(64) * pow2(149)) by (nonlinear_arith)
                requires
                    pow2(64) > 0,
                    pow2(149) > 0,
            ;
            assert(nearest_whole(0, pow2(149)) == 0) by {
                vstd::arithmetic::div_mod::lemma_small_mod(0, pow2(149));
                vstd::arithmetic::div_mod::lemma_basic_div(0, pow2(149) as int);
            }
            return Some(Duration { nanos: 0 });
        }
        if secs.is_negative() {
            return None;
        }
        let (m, e): (u64, i32) = secs.parts();
        let ghost v: nat = magnitude(secs.pattern());
        if e >= 149 {
            let s: i32 = e - 149;
            proof {
                lemma_pow2_adds(s as nat, 149);
                assert(v == (m * pow2(s as nat)) * pow2(149)) by (nonlinear_arith)
                    requires
                        v == m * pow2(e as nat),
                        pow2(e as nat) == pow2(s as nat) * pow2(149),
                ;
            }
            if s > 40 {
                proof {
                    lemma_pow2_adds(23, 41);
                    if s > 41 {
                        lemma_pow2_strictly_increases(41, s as nat);
                    }
                    assert(v >= pow2(64) * pow2(149)) by (nonlinear_arith)
                        requires
                            v == (m * pow2(s as nat)) * pow2(149),
                            m >= pow2(23),
                            pow2(s as nat) >= pow2(41),
                            pow2(64) == pow2(23) * pow2(41),
                    ;
                }
                return None;
            }
            proof {
                lemma_pow2_adds(24, s as nat);
                lemma_pow2_pos(s as nat);
                if s < 40 {
                    lemma_pow2_strictly_increases((24 + s) as nat, 64);
                }
                assert(m * pow2(s as nat) < pow2(24) * pow2(s as nat)) by (nonlinear_arith)
                    requires
                        m < pow2(24),
                        pow2(s as nat) > 0,
                ;
                lemma_u64_shl_is_mul(m, s as u64);
            }
            let whole: u64 = m << (s as u64);
            proof {
                let unit: nat = pow2(149);
                assert(v < pow2(64) * unit) by (nonlinear_arith)
                    requires
                        v == whole * unit,
                        whole < pow2(64),
                        unit > 0,
                ;
                let nanos: nat = (whole * 1_000_000_000) as nat;
                assert(v * 1_000_000_000 == unit * nanos) by (nonlinear_arith)
                    requires
                        v == whole * unit,
                        nanos == whole * 1_000_000_000,
                ;
                vstd::arithmetic::div_mod::lemma_fundamental_div_mod_converse(
                    (v * 1_000_000_000) as int,
                    unit as int,
                    nanos as int,
                    0,
                );
            }
            Some(Duration { nanos: whole as u128 * 1_000_000_000 })
        } else {
            let k: i32 = 149 - e;
            let n: u64 = m * 1_000_000_000;
            proof {
                lemma_pow2_adds(e as nat, k as nat);
                lemma_pow2_pos(e as nat);
                lemma_pow2_pos(k as nat);
                lemma_below_a_second(v, m as nat, e as nat, k as nat);
            }
            if k >= 64 {
                proof {
                    if k > 64 {
                        lemma_pow2_strictly_increases(64, k as nat);
                    }
                    vstd::arithmetic::div_mod::lemma_small_mod(n as nat, pow2(k as nat));
                    vstd::arithmetic::div_mod::lemma_basic_div(n as int, pow2(k as nat) as int);
                }
                return Some(Duration { nanos: 0 });
            }
            proof {
                if k < 63 {
                    lemma_pow2_strictly_increases(k as nat, 63);
                }
                assert(1 * pow2(k as nat) == pow2(k as nat)) by (nonlinear_arith);
                lemma_u64_shl_is_mul(1, k as u64);
            }
            let d: u64 = 1u64 << (k as u64);
            let q: u64 = n / d;
            let r: u64 = n % d;
            if r > d - r || (r == d - r && q % 2 == 1) {
                Some(Duration { nanos: q as u128 + 1 })
            } else {
                Some(Duration { nanos: q as u128 })
            }
        }
    }
}

/// A number below two to the power of 64 seconds, in nanoseconds, without the
/// common power of two.
proof fn lemma_below_a_second(v: nat, m: nat, e: nat, k: nat)
    requires
        v == m * pow2(e),
        m < 0x100_0000,
        pow2(149) == pow2(e) * pow2(k),
        pow2(e) > 0,
        pow2(k) > 0,
        pow2(64) == 0x1_0000_0000_0000_0000,
    ensures
        v < pow2(64) * pow2(149),
        nearest_whole(v * 1_000_000_000, pow2(149)) == nearest_whole(m * 1_000_000_000, pow2(k)),
{
    let p: nat = pow2(e);
    let d: nat = pow2(k);
    let n: nat = m * 1_000_000_000;
    assert(v < pow2(64) * pow2(149)) by (nonlinear_arith)
        requires
            v == m * p,
            m < 0x100_0000,
            pow2(149) == p * d,
            p > 0,
            d > 0,
            pow2(64) == 0x1_0000_0000_0000_0000,
    ;
    let q: nat = n / d;
    let r: nat = n % d;
    vstd::arithmetic::div_mod::lemma_fundamental_div_mod(n as int, d as int);
    assert(v * 1_000_000_000 == q * (p * d) + p * r) by (nonlinear_arith)
        requires
            v == m * p,
            n == m * 1_000_000_000,
            n == d * q + r,
    ;
    assert(0 <= p * r < p * d) by (nonlinear_arith)
        requires
            0 <= r < d,
            p > 0,
    ;
    vstd::arithmetic::div_mod::lemma_fundamental_div_mod_converse(
        (v * 1_000_000_000) as int,
        (p * d) as int,
        q as int,
        (p * r) as int,
    );
    assert(2 * (p * r) > p * d <==> 2 * r > d) by (nonlinear_arith)
        requires
            p > 0,
    ;
    assert(2 * (p * r) == p * d <==> 2 * r == d) by (nonlinear_arith)
        requires
            p > 0,
    ;
}

/// The span of a number of seconds is that many nanoseconds, to the nearest one, and
/// to the even one of two that are equally near.
pub proof fn a_span_is_the_seconds_it_is_made_of(secs: Single)
    requires
        secs.is_finite(),
        Single::zero().is_at_most(secs),
        secs.value() < pow2(64) * pow2(149),
    ensures
        Duration::try_from_secs(secs) matches Some(span) && -(pow2(149) as int) <= 2 * (span.nanos
            * pow2(149) - secs.value() * 1_000_000_000) <= pow2(149),
        ({
            let span = Duration::try_from_secs(secs)->0;
            let miss = 2 * (span.nanos * pow2(149) - secs.value() * 1_000_000_000);
            miss == pow2(149) || miss == -(pow2(149) as int) ==> span.nanos % 2 == 0
        }),
{
    let unit: nat = pow2(149);
    let v: nat = magnitude(secs.pattern());
    let n: nat = v * 1_000_000_000;
    lemma_pow2_pos(149);
    lemma2_to64();
    lemma2_to64_rest();
    assert(secs.is_negative() ==> v == 0);
    let q: nat = n / unit;
    let r: nat = n % unit;
    vstd::arithmetic::div_mod::lemma_fundamental_div_mod(n as int, unit as int);
    assert(q < 0x1_0000_0000_0000_0000 * 1_000_000_000) by (nonlinear_arith)
        requires
            n == unit * q + r,
            n == v * 1_000_000_000,
            v < 0x1_0000_0000_0000_0000 * unit,
            r >= 0,
            unit > 0,
    ;
    let nanos: nat = nearest_whole(n, unit);
    assert(nanos * unit == n - r + (nanos - q) * unit) by (nonlinear_arith)
        requires
            n == unit * q + r,
    ;
    assert((nanos - q) * unit == if nanos == q {
        0int
    } else {
        unit as int
    }) by (nonlinear_arith)
        requires
            nanos == q || nanos == q + 1,
    ;
}

/// What is no span of seconds gives none: a negative number, one that is not
/// finite, and one beyond 64 bits of seconds.
pub proof fn what_is_no_span_gives_none(secs: Single)
    requires
        !secs.is_finite() || secs.is_less(Single::zero()) || secs.value() >= pow2(64) * pow2(149),
    ensures
        Duration::try_from_secs(secs) is None,
{
    lemma_pow2_pos(149);
    lemma_pow2_pos(64);
    assert(pow2(64) * pow2(149) > 0) by (nonlinear_arith)
        requires
            pow2(64) > 0,
            pow2(149) > 0,
    ;
    if secs.is_finite() {
        lemma_place_of_value(secs);
    }
}

/// A second is a thousand milliseconds, a millisecond a million nanoseconds; what
/// is left of a span after a shorter one makes it up again with that one, and after
/// a longer one nothing is.
pub proof fn spans_add_up(secs: u64, millis: u64, a: Duration, b: Duration)
    ensures
        Duration::from_millis(millis).nanos == millis * 1_000_000,
        Duration::from_secs(secs).nanos == secs * 1_000_000_000,
        Duration::zero().nanos == 0,
        b.nanos <= a.nanos ==> a.saturating_sub(b).nanos + b.nanos == a.nanos,
        a.nanos <= b.nanos ==> a.saturating_sub(b).nanos == 0,
        a.nanos + b.nanos <= u128::MAX ==> a.plus(b).nanos == a.nanos + b.nanos,
{
}

} // verus!
