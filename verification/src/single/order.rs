//! Comparison of numbers.

use crate::single::model::{lemma_magnitude_increases, INFINITY_BITS};
use crate::single::{Single, SIGN_BIT};
use vstd::prelude::*;

verus! {

impl Single {
    /// The place of a number on the line from negative to positive infinity.
    /// Both zeros share one place; of what is not a number this says nothing.
    pub open spec fn place(self) -> int {
        if self.is_negative() {
            -(self.pattern() as int)
        } else {
            self.pattern() as int
        }
    }

    /// The place in the total order of all bit patterns, in which a negative
    /// zero comes before a positive one, and what is not a number lies beyond
    /// the infinity of its sign.
    pub open spec fn spec_total_place(self) -> i64 {
        if self.is_negative() {
            (-(self.pattern() as int) - 1) as i64
        } else {
            self.pattern() as i64
        }
    }

    pub open spec fn spec_equals(self, other: Single) -> bool {
        !self.is_nan() && !other.is_nan() && self.place() == other.place()
    }

    pub open spec fn spec_is_less(self, other: Single) -> bool {
        !self.is_nan() && !other.is_nan() && self.place() < other.place()
    }

    pub open spec fn spec_is_at_most(self, other: Single) -> bool {
        !self.is_nan() && !other.is_nan() && self.place() <= other.place()
    }

    pub open spec fn spec_max(self, other: Single) -> Single {
        if self.is_nan() {
            other
        } else if other.is_nan() {
            self
        } else if self.spec_total_place() < other.spec_total_place() {
            other
        } else {
            self
        }
    }

    pub open spec fn spec_min(self, other: Single) -> Single {
        if self.is_nan() {
            other
        } else if other.is_nan() {
            self
        } else if other.spec_total_place() < self.spec_total_place() {
            other
        } else {
            self
        }
    }

    pub open spec fn spec_clamp(self, low: Single, high: Single) -> Single {
        if self.spec_is_less(low) {
            low
        } else if high.spec_is_less(self) {
            high
        } else {
            self
        }
    }

    /// The number at a place among the numbers in their order.
    pub open spec fn at_place(place: int) -> Single {
        if place < 0 {
            Single::spec_with_sign(true, (-place) as nat)
        } else {
            Single::spec_with_sign(false, place as nat)
        }
    }

    pub open spec fn spec_next_above(self) -> Single {
        if self.is_nan() || self.place() == INFINITY_BITS {
            self
        } else {
            Single::at_place(self.place() + 1)
        }
    }

    pub open spec fn spec_next_below(self) -> Single {
        if self.is_nan() || self.place() == -INFINITY_BITS {
            self
        } else {
            Single::at_place(self.place() - 1)
        }
    }

    /// The next greater number; there is none above infinity.
    #[verifier::when_used_as_spec(spec_next_above)]
    pub fn next_above(self) -> (r: Single)
        ensures
            r == self.next_above(),
    {
        let pattern: u32 = self.bits % SIGN_BIT;
        if pattern > INFINITY_BITS {
            self
        } else if pattern == 0 {
            Single { bits: 1 }
        } else if self.is_negative() {
            if pattern == 1 {
                Single { bits: 0 }
            } else {
                Single { bits: self.bits - 1 }
            }
        } else if pattern == INFINITY_BITS {
            self
        } else {
            Single { bits: self.bits + 1 }
        }
    }

    /// The next smaller number; there is none below negative infinity.
    #[verifier::when_used_as_spec(spec_next_below)]
    pub fn next_below(self) -> (r: Single)
        ensures
            r == self.next_below(),
    {
        let pattern: u32 = self.bits % SIGN_BIT;
        if pattern > INFINITY_BITS {
            self
        } else if pattern == 0 {
            Single { bits: SIGN_BIT + 1 }
        } else if !self.is_negative() {
            Single { bits: self.bits - 1 }
        } else if pattern == INFINITY_BITS {
            self
        } else {
            Single { bits: self.bits + 1 }
        }
    }

    /// The place in the total order of all bit patterns.
    #[verifier::when_used_as_spec(spec_total_place)]
    pub fn total_place(self) -> (r: i64)
        ensures
            r == self.total_place(),
    {
        let pattern: i64 = (self.bits % SIGN_BIT) as i64;
        if self.is_negative() {
            -pattern - 1
        } else {
            pattern
        }
    }

    /// Whether both are numbers, and the same one. The two zeros are the same.
    #[verifier::when_used_as_spec(spec_equals)]
    pub fn equals(self, other: Single) -> (r: bool)
        ensures
            r == self.equals(other),
    {
        let a: u32 = self.bits % SIGN_BIT;
        let b: u32 = other.bits % SIGN_BIT;
        a <= INFINITY_BITS && b <= INFINITY_BITS && a == b && (a == 0 || self.is_negative()
            == other.is_negative())
    }

    /// Whether both are numbers, and this one is the smaller.
    #[verifier::when_used_as_spec(spec_is_less)]
    pub fn is_less(self, other: Single) -> (r: bool)
        ensures
            r == self.is_less(other),
    {
        let a: u32 = self.bits % SIGN_BIT;
        let b: u32 = other.bits % SIGN_BIT;
        if a > INFINITY_BITS || b > INFINITY_BITS {
            false
        } else if self.is_negative() {
            if other.is_negative() {
                b < a
            } else {
                a > 0 || b > 0
            }
        } else {
            !other.is_negative() && a < b
        }
    }

    /// Whether both are numbers, and this one is not the greater.
    #[verifier::when_used_as_spec(spec_is_at_most)]
    pub fn is_at_most(self, other: Single) -> (r: bool)
        ensures
            r == self.is_at_most(other),
    {
        self.is_less(other) || self.equals(other)
    }

    /// The greater of two numbers, a positive zero counting as greater than a
    /// negative one; the other where one is not a number.
    #[verifier::when_used_as_spec(spec_max)]
    pub fn max(self, other: Single) -> (r: Single)
        ensures
            r == self.max(other),
    {
        if self.is_nan() {
            other
        } else if other.is_nan() {
            self
        } else if self.total_place() < other.total_place() {
            other
        } else {
            self
        }
    }

    /// The smaller of two numbers, a negative zero counting as smaller than a
    /// positive one; the other where one is not a number.
    #[verifier::when_used_as_spec(spec_min)]
    pub fn min(self, other: Single) -> (r: Single)
        ensures
            r == self.min(other),
    {
        if self.is_nan() {
            other
        } else if other.is_nan() {
            self
        } else if other.total_place() < self.total_place() {
            other
        } else {
            self
        }
    }

    /// The number, moved to the nearer bound where it lies outside both. What
    /// is not a number stays as it is.
    #[verifier::when_used_as_spec(spec_clamp)]
    pub fn clamp(self, low: Single, high: Single) -> (r: Single)
        ensures
            r == self.clamp(low, high),
    {
        if self.is_less(low) {
            low
        } else if high.is_less(self) {
            high
        } else {
            self
        }
    }
}

impl PartialEq for Single {
    fn eq(&self, other: &Single) -> (r: bool) {
        self.equals(*other)
    }
}

impl vstd::std_specs::cmp::PartialEqSpecImpl for Single {
    open spec fn obeys_eq_spec() -> bool {
        true
    }

    open spec fn eq_spec(&self, other: &Single) -> bool {
        self.equals(*other)
    }
}

/// Finite numbers lie in the order of their values.
pub proof fn lemma_place_is_value(a: Single, b: Single)
    requires
        a.is_finite(),
        b.is_finite(),
    ensures
        a.is_less(b) <==> a.value() < b.value(),
        a.equals(b) <==> a.value() == b.value(),
        a.is_at_most(b) <==> a.value() <= b.value(),
{
    let x: nat = a.pattern();
    let y: nat = b.pattern();
    if x < y {
        lemma_magnitude_increases(x, y);
    } else if y < x {
        lemma_magnitude_increases(y, x);
    }
    if x > 0 {
        lemma_magnitude_increases(0, x);
    }
    if y > 0 {
        lemma_magnitude_increases(0, y);
    }
}

/// Only one number has a place in the total order.
pub proof fn lemma_total_place_tells(a: Single, b: Single)
    requires
        a.total_place() == b.total_place(),
    ensures
        a == b,
{
}

} // verus!
