//! Points in the world.

use crate::single::arith::{difference, product, sum};
use crate::single::laws::{lemma_negated, lemma_sum_at_least, lemma_sum_place};
use crate::single::model::{lemma_rounded, magnitude};
use crate::single::root::{lemma_rounded_root, square_root};
use crate::single::Single;
use vstd::arithmetic::power2::{lemma_pow2_pos, pow2};
use vstd::prelude::*;

verus! {

/// A point in the plane.
#[derive(Clone, Copy, Debug, PartialEq)]
pub struct Vec2 {
    pub x: Single,
    pub y: Single,
}

/// A point in space.
#[derive(Clone, Copy, Debug, PartialEq)]
pub struct Vec3 {
    pub x: Single,
    pub y: Single,
    pub z: Single,
}

impl Vec2 {
    pub open spec fn spec_distance_squared(self, other: Vec2) -> Single {
        let dx = difference(self.x, other.x);
        let dy = difference(self.y, other.y);
        sum(product(dx, dx), product(dy, dy))
    }

    pub open spec fn spec_distance(self, other: Vec2) -> Single {
        square_root(self.spec_distance_squared(other))
    }

    pub fn new(x: Single, y: Single) -> (v: Vec2)
        ensures
            v == (Vec2 { x, y }),
    {
        Vec2 { x, y }
    }

    /// The square of the distance to `other`.
    #[verifier::when_used_as_spec(spec_distance_squared)]
    pub fn distance_squared(self, other: Vec2) -> (r: Single)
        ensures
            r == self.distance_squared(other),
    {
        let dx = self.x.minus(other.x);
        let dy = self.y.minus(other.y);
        dx.times(dx).plus(dy.times(dy))
    }

    /// The distance to `other`.
    #[verifier::when_used_as_spec(spec_distance)]
    pub fn distance(self, other: Vec2) -> (r: Single)
        ensures
            r == self.distance(other),
    {
        self.distance_squared(other).sqrt()
    }
}

impl Vec3 {
    pub open spec fn spec_truncate(self) -> Vec2 {
        Vec2 { x: self.x, y: self.y }
    }

    pub fn new(x: Single, y: Single, z: Single) -> (v: Vec3)
        ensures
            v == (Vec3 { x, y, z }),
    {
        Vec3 { x, y, z }
    }

    /// The point below this one in the XY plane.
    #[verifier::when_used_as_spec(spec_truncate)]
    pub fn truncate(self) -> (v: Vec2)
        ensures
            v == self.truncate(),
    {
        Vec2 { x: self.x, y: self.y }
    }
}

/// The distance between two points with finite coordinates is a number.
pub proof fn distances_are_numbers(a: Vec2, b: Vec2)
    requires
        a.x.is_finite() && a.y.is_finite(),
        b.x.is_finite() && b.y.is_finite(),
    ensures
        !a.distance(b).is_nan(),
{
    let dx = difference(a.x, b.x);
    let dy = difference(a.y, b.y);
    lemma_negated(b.x);
    lemma_negated(b.y);
    lemma_sum_place(a.x, b.x.negated());
    lemma_sum_place(a.y, b.y.negated());
    lemma_square_sign(dx);
    lemma_square_sign(dy);
    let xx = product(dx, dx);
    let yy = product(dy, dy);
    let squared = a.distance_squared(b);
    if xx.is_finite() && yy.is_finite() {
        lemma_sum_at_least(xx, yy);
    }
    lemma_rounded_root(magnitude(squared.pattern()) * pow2(149));
}

/// A square is a number that is not negative.
proof fn lemma_square_sign(x: Single)
    requires
        !x.is_nan(),
    ensures
        !product(x, x).is_nan(),
        !product(x, x).is_negative(),
{
    lemma_pow2_pos(149);
    lemma_rounded(magnitude(x.pattern()) * magnitude(x.pattern()), pow2(149));
}

/// The square of a distance is the sum of the squares of the ways along both axes,
/// and the distance its root.
pub proof fn a_distance_is_the_root_of_both_ways(a: Vec2, b: Vec2)
    ensures
        ({
            let dx = difference(a.x, b.x);
            let dy = difference(a.y, b.y);
            &&& a.distance_squared(b) == sum(product(dx, dx), product(dy, dy))
            &&& a.distance(b) == square_root(a.distance_squared(b))
        }),
{
}

/// Seen from above, a point in space is where its first two coordinates say.
pub proof fn heights_are_dropped(point: Vec3)
    ensures
        point.truncate() == (Vec2 { x: point.x, y: point.y }),
{
}

} // verus!
