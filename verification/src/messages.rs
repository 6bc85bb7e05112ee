//! Requests to play, stop and fade sounds.

use crate::geometry::{Vec2, Vec3};
use crate::randomization::Randomization;
use crate::single::Single;
use vstd::prelude::*;

verus! {

/// A sample, by the kind of its asset id and the number in it.
#[derive(Clone, Copy, Debug, PartialEq, Eq, Structural, Hash)]
pub struct SampleId {
    pub kind: u8,
    pub number: u128,
}

impl SampleId {
    pub open spec fn spec_key(self) -> (u8, u128) {
        (self.kind, self.number)
    }

    /// The sample as the key of a table.
    #[verifier::when_used_as_spec(spec_key)]
    pub fn key(self) -> (r: (u8, u128))
        ensures
            r == self.key(),
    {
        (self.kind, self.number)
    }
}

/// A position in the world, in the plane or in space.
#[derive(Clone, Copy, Debug, PartialEq)]
pub enum SpatialPosition {
    /// A position in the XY plane.
    TwoD(Vec2),
    /// A position in space.
    ThreeD(Vec3),
}

impl SpatialPosition {
    pub open spec fn spec_as_vec3(self) -> Vec3 {
        match self {
            SpatialPosition::TwoD(v) => Vec3 { x: v.x, y: v.y, z: Single::zero() },
            SpatialPosition::ThreeD(v) => v,
        }
    }

    /// The position in space; one in the plane lies at a `z` of zero.
    #[verifier::when_used_as_spec(spec_as_vec3)]
    pub fn as_vec3(self) -> (v: Vec3)
        ensures
            v == self.as_vec3(),
    {
        match self {
            SpatialPosition::TwoD(v) => Vec3 { x: v.x, y: v.y, z: Single::zero() },
            SpatialPosition::ThreeD(v) => v,
        }
    }
}

impl From<Vec2> for SpatialPosition {
    fn from(v: Vec2) -> (p: SpatialPosition) {
        SpatialPosition::TwoD(v)
    }
}

impl vstd::std_specs::convert::FromSpecImpl<Vec2> for SpatialPosition {
    open spec fn obeys_from_spec() -> bool {
        true
    }

    open spec fn from_spec(v: Vec2) -> SpatialPosition {
        SpatialPosition::TwoD(v)
    }
}

impl From<Vec3> for SpatialPosition {
    fn from(v: Vec3) -> (p: SpatialPosition) {
        SpatialPosition::ThreeD(v)
    }
}

impl vstd::std_specs::convert::FromSpecImpl<Vec3> for SpatialPosition {
    open spec fn obeys_from_spec() -> bool {
        true
    }

    open spec fn from_spec(v: Vec3) -> SpatialPosition {
        SpatialPosition::ThreeD(v)
    }
}

/// A request to play one sound.
#[derive(Clone, Copy, Debug)]
pub struct PlayAudio<C> {
    pub handle: SampleId,
    pub category: C,
    pub looping: bool,
    pub parent: Option<u64>,
    pub position: Option<SpatialPosition>,
    /// Base volume multiplier, before category and master. One by default.
    pub volume: Single,
    pub randomization: Randomization,
}

impl<C> PlayAudio<C> {
    /// A request with default settings.
    pub fn new(handle: SampleId, category: C) -> (r: PlayAudio<C>)
        ensures
            r == (PlayAudio {
                handle,
                category,
                looping: false,
                parent: None,
                position: None,
                volume: Single::one(),
                randomization: Randomization::Default,
            }),
    {
        PlayAudio {
            handle,
            category,
            looping: false,
            parent: None,
            position: None,
            volume: Single::one(),
            randomization: Randomization::Default,
        }
    }

    /// Sets playback to loop endlessly.
    pub fn looping(self) -> (r: PlayAudio<C>)
        ensures
            r == (PlayAudio { looping: true, ..self }),
    {
        PlayAudio { looping: true, ..self }
    }

    /// Attaches the sound to a parent entity, which makes it spatial.
    pub fn with_parent(self, parent: u64) -> (r: PlayAudio<C>)
        ensures
            r == (PlayAudio { parent: Some(parent), ..self }),
    {
        PlayAudio { parent: Some(parent), ..self }
    }

    /// Sets the spatial position.
    pub fn at<P: Into<SpatialPosition>>(self, position: P) -> (r: PlayAudio<C>)
        ensures
            exists|p: SpatialPosition| #[trigger]
                call_ensures(P::into, (position,), p) && r == (PlayAudio {
                    position: Some(p),
                    ..self
                }),
    {
        let p: SpatialPosition = position.into();
        PlayAudio { position: Some(p), ..self }
    }

    /// Sets the base volume multiplier.
    pub fn with_volume(self, volume: Single) -> (r: PlayAudio<C>)
        ensures
            r == (PlayAudio { volume, ..self }),
    {
        PlayAudio { volume, ..self }
    }

    /// Sets how volume and speed deviate.
    pub fn randomized(self, randomization: Randomization) -> (r: PlayAudio<C>)
        ensures
            r == (PlayAudio { randomization, ..self }),
    {
        PlayAudio { randomization, ..self }
    }
}

/// A request to stop sounds.
#[derive(Clone, Copy, Debug)]
pub struct StopAudio<C> {
    /// The category to stop. `None` stops every sound.
    pub category: Option<C>,
}

impl<C> StopAudio<C> {
    /// Stops all sounds of a category.
    pub fn category(category: C) -> (r: StopAudio<C>)
        ensures
            r == (StopAudio { category: Some(category) }),
    {
        StopAudio { category: Some(category) }
    }

    /// Stops all sounds.
    pub fn all() -> (r: StopAudio<C>)
        ensures
            r == (StopAudio::<C> { category: None }),
    {
        StopAudio { category: None }
    }
}

/// A request to fade the sounds of a category to silence, in place.
#[derive(Clone, Copy, Debug)]
pub struct FadeAudio<C> {
    pub category: C,
    /// Seconds the fade takes.
    pub duration_secs: Single,
}

impl<C> FadeAudio<C> {
    pub fn new(category: C, duration_secs: Single) -> (r: FadeAudio<C>)
        ensures
            r == (FadeAudio { category, duration_secs }),
    {
        FadeAudio { category, duration_secs }
    }
}

/// A position in the plane lies at a height of zero, and one in space where it says.
pub proof fn the_plane_lies_at_height_zero(flat: Vec2, point: Vec3)
    ensures
        SpatialPosition::TwoD(flat).as_vec3() == (Vec3 {
            x: flat.x,
            y: flat.y,
            z: Single { bits: 0 },
        }),
        SpatialPosition::ThreeD(point).as_vec3() == point,
{
}

/// Samples of different kinds or numbers have different keys.
pub proof fn keys_tell_samples_apart(a: SampleId, b: SampleId)
    ensures
        a.key() == b.key() <==> a.kind == b.kind && a.number == b.number,
        a.key() == (a.kind, a.number),
{
}

} // verus!
