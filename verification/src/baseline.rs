//! Per-sound baselines: the part of a sound's gain and speed that belongs to
//! the sound itself, underneath every layer that scales it.
//!
//! A sound's final volume is a product of independently owned layers, the
//! category volume, its [`BaseVolume`], the damping and the duck, and its
//! playback speed is its [`BasePitch`] times the damping. A system that owns
//! one layer recomputes the whole product instead of writing an absolute
//! value. A sound without a baseline reads as one on that axis.

use crate::single::arith::product;
use crate::single::laws::{lemma_product_commutes, lemma_times_one, lemma_times_zero};
use crate::single::Single;
use vstd::prelude::*;

verus! {

/// An authored weight (a gain, a volume, a priority): one that is not finite
/// is zero, and a negative one is zero.
pub open spec fn spec_sanitize_weight(value: Single) -> Single {
    if value.is_finite() {
        value.max(Single::zero())
    } else {
        Single::zero()
    }
}

/// Sanitizes an authored weight (a gain, a volume, a priority): one that is
/// not finite becomes zero, and a negative one becomes zero.
#[verifier::when_used_as_spec(spec_sanitize_weight)]
pub fn sanitize_weight(value: Single) -> (r: Single)
    ensures
        r == sanitize_weight(value),
{
    if value.is_finite() {
        value.max(Single::zero())
    } else {
        Single::zero()
    }
}

/// The per-sound share of a sound's volume: the volume of its request times
/// whatever volume randomization drew for it, and nothing else.
///
/// A completed fade-out that keeps its entity lands the sound on zero: it was
/// faded to silence deliberately, so a later config change must not bring it
/// back.
#[derive(Clone, Copy, Debug, PartialEq)]
pub struct BaseVolume(pub Single);

/// The per-sound share of a sound's playback speed: whatever speed
/// randomization drew for it, one for an unrandomized sound.
#[derive(Clone, Copy, Debug, PartialEq)]
pub struct BasePitch(pub Single);

impl BaseVolume {
    pub open spec fn spec_silent() -> BaseVolume {
        BaseVolume(Single::zero())
    }

    pub open spec fn spec_unity() -> BaseVolume {
        BaseVolume(Single::one())
    }

    pub open spec fn spec_resolve(self, category_volume: Single) -> Single {
        product(category_volume, self.0)
    }

    /// Silence that survives a config change.
    #[verifier::when_used_as_spec(spec_silent)]
    pub fn silent() -> (r: BaseVolume)
        ensures
            r == BaseVolume::silent(),
    {
        BaseVolume(Single::zero())
    }

    /// A baseline from an authored gain: one that is not finite becomes zero,
    /// and a negative one becomes zero.
    pub fn new(volume: Single) -> (r: BaseVolume)
        ensures
            r == BaseVolume(sanitize_weight(volume)),
    {
        BaseVolume(sanitize_weight(volume))
    }

    /// The gain to write to a volume node for this sound at `category_volume`,
    /// before damping and ducking scale it further.
    #[verifier::when_used_as_spec(spec_resolve)]
    pub fn resolve(self, category_volume: Single) -> (r: Single)
        ensures
            r == self.resolve(category_volume),
    {
        category_volume.times(self.0)
    }
}

impl Default for BaseVolume {
    fn default() -> (r: BaseVolume)
        ensures
            r == BaseVolume::spec_unity(),
    {
        BaseVolume(Single::one())
    }
}

impl BasePitch {
    pub open spec fn spec_unity() -> BasePitch {
        BasePitch(Single::one())
    }

    pub open spec fn spec_new(speed: Single) -> BasePitch {
        if speed.is_finite() && Single::zero().is_less(speed) {
            BasePitch(speed)
        } else {
            BasePitch(Single::one())
        }
    }

    /// A baseline from an authored speed, discarding one that is not finite or
    /// not positive.
    #[verifier::when_used_as_spec(spec_new)]
    pub fn new(speed: Single) -> (r: BasePitch)
        ensures
            r == BasePitch::new(speed),
    {
        if speed.is_finite() && Single::zero().is_less(speed) {
            BasePitch(speed)
        } else {
            BasePitch(Single::one())
        }
    }
}

impl Default for BasePitch {
    fn default() -> (r: BasePitch)
        ensures
            r == BasePitch::spec_unity(),
    {
        BasePitch(Single::one())
    }
}

/// The baseline of a sound that may have none.
pub open spec fn base_or_unity(base: Option<BaseVolume>) -> BaseVolume {
    match base {
        Some(base) => base,
        None => BaseVolume::spec_unity(),
    }
}

/// A sanitized weight is finite and not negative, and a weight that already
/// was stays as it is: a hostile value silences a sound rather than inverting
/// its phase or poisoning a later product.
pub proof fn sanitized_weights_are_harmless(value: Single)
    ensures
        sanitize_weight(value).is_finite(),
        !sanitize_weight(value).is_negative(),
        sanitize_weight(sanitize_weight(value)) == sanitize_weight(value),
        value.is_finite() && !value.is_negative() ==> sanitize_weight(value) == value,
{
}

/// A weight that is negative, infinite or no number at all is zero.
pub proof fn hostile_weights_are_silent(value: Single)
    requires
        !value.is_finite() || value.is_less(Single::zero()),
    ensures
        sanitize_weight(value) == Single::zero(),
{
}

/// A speed that is finite and positive stands; every other is one.
pub proof fn only_positive_speeds_stand(speed: Single)
    ensures
        speed.is_finite() && Single::zero().is_less(speed) ==> BasePitch::new(speed).0 == speed,
        !speed.is_finite() || speed.is_at_most(Single::zero()) ==> BasePitch::new(speed).0
            == Single::one(),
{
}

/// A sound's own level scales its category's: it is all that is left where the
/// category is at full, it leaves the category's alone where it is one itself, the
/// two can be swapped, and a silent sound stays silent at every finite level.
pub proof fn a_baseline_scales_its_category(base: BaseVolume, category_volume: Single)
    ensures
        base.resolve(category_volume) == product(category_volume, base.0),
        base.resolve(category_volume) == BaseVolume(category_volume).resolve(base.0),
        !base.0.is_nan() ==> base.resolve(Single::one()) == base.0,
        !category_volume.is_nan() ==> BaseVolume(Single::one()).resolve(category_volume)
            == category_volume,
        category_volume.is_finite() && !category_volume.is_negative() ==> BaseVolume(
            Single::zero(),
        ).resolve(category_volume) == Single::zero(),
        base_or_unity(Some(base)) == base,
        base_or_unity(None).0 == Single::one(),
{
    lemma_product_commutes(category_volume, base.0);
    if !base.0.is_nan() {
        lemma_times_one(base.0);
    }
    if !category_volume.is_nan() {
        lemma_times_one(category_volume);
    }
    if category_volume.is_finite() && !category_volume.is_negative() {
        lemma_times_zero(category_volume);
    }
}

} // verus!
