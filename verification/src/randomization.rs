//! Per-sound randomization of volume and speed.

use crate::single::arith::{difference, product, sum};
use crate::single::laws::{
    lemma_difference_at_most, lemma_negated, lemma_one, lemma_product_monotonic,
    lemma_product_unit, lemma_rounded_place_monotonic, lemma_sum_at_least, lemma_sum_monotonic,
    lemma_sum_place, lemma_times_one, lemma_two,
};
use crate::single::order::lemma_place_is_value;
use crate::single::Single;
use vstd::prelude::*;

verus! {

/// The bits of a fifth, the default deviation on both axes.
pub const DEFAULT_DEVIATION: u32 = 0x3e4c_cccd;

/// How volume and speed are randomized for one sound.
///
/// A deviation is a range around one: with a fifth, the value is drawn between
/// four fifths and six fifths.
#[derive(Clone, Copy, Debug, Default)]
pub enum Randomization {
    /// Use the configured defaults for both volume and speed.
    #[default]
    Default,
    /// Custom volume deviation; speed uses the default.
    Volume(Single),
    /// Custom speed deviation; volume uses the default.
    Speed(Single),
    /// Custom deviations for both volume and speed.
    VolumeAndSpeed { volume: Single, speed: Single },
}

/// The default randomization settings. `None` means no randomization for that
/// axis.
#[derive(Clone, Copy, Debug)]
pub struct DefaultRandomization {
    /// Default volume deviation.
    pub volume: Option<Single>,
    /// Default speed deviation.
    pub speed: Option<Single>,
}

impl Default for DefaultRandomization {
    fn default() -> (r: DefaultRandomization)
        ensures
            r.volume == Some(Single { bits: DEFAULT_DEVIATION }),
            r.speed == Some(Single { bits: DEFAULT_DEVIATION }),
    {
        DefaultRandomization {
            volume: Some(Single { bits: DEFAULT_DEVIATION }),
            speed: Some(Single { bits: DEFAULT_DEVIATION }),
        }
    }
}

pub open spec fn spec_resolve_randomization(
    randomization: Randomization,
    defaults: &DefaultRandomization,
) -> (Option<Single>, Option<Single>) {
    match randomization {
        Randomization::Default => (defaults.volume, defaults.speed),
        Randomization::Volume(v) => (Some(v), defaults.speed),
        Randomization::Speed(s) => (defaults.volume, Some(s)),
        Randomization::VolumeAndSpeed { volume, speed } => (Some(volume), Some(speed)),
    }
}

/// The volume and speed deviation of a request; `None` means no randomization
/// for that axis.
#[verifier::when_used_as_spec(spec_resolve_randomization)]
pub fn resolve_randomization(
    randomization: Randomization,
    defaults: &DefaultRandomization,
) -> (r: (Option<Single>, Option<Single>))
    ensures
        r == resolve_randomization(randomization, defaults),
{
    match randomization {
        Randomization::Default => (defaults.volume, defaults.speed),
        Randomization::Volume(v) => (Some(v), defaults.speed),
        Randomization::Speed(s) => (defaults.volume, Some(s)),
        Randomization::VolumeAndSpeed { volume, speed } => (Some(volume), Some(speed)),
    }
}

/// Whether an axis deviates at all: by a finite, positive deviation.
pub open spec fn deviates(deviation: Option<Single>) -> bool {
    deviation matches Some(d) && d.is_finite() && Single::zero().is_less(d)
}

/// The low end of the band around `centre`: `centre` less the deviation, and
/// zero where the deviation is wider than one.
pub open spec fn band_low(centre: Single, deviation: Single) -> Single {
    product(centre, difference(Single::one(), deviation).max(Single::zero()))
}

/// The high end of the band around `centre`: `centre` plus the deviation, and
/// twice `centre` where the deviation is wider than one.
pub open spec fn band_high(centre: Single, deviation: Single) -> Single {
    product(centre, sum(Single::one(), deviation.min(Single::one())))
}

/// Whether there is anything to draw: the axis deviates and its band is not
/// empty.
pub open spec fn draws(centre: Single, deviation: Option<Single>) -> bool {
    deviates(deviation) && band_low(centre, deviation->0).is_less(band_high(centre, deviation->0))
}

/// Draws `centre` scaled by a factor of one plus or minus the deviation.
///
/// `draw` is called with the low and high end of the band. No deviation, or
/// one that is not positive or not finite, returns `centre` untouched and
/// draws nothing. A deviation wider than one floors the low end at zero rather
/// than flipping the sign, so the widest possible spread is from zero to twice
/// the centre. Around a zero (or degenerate) centre there is nothing to draw.
pub fn deviate<D: FnOnce(Single, Single) -> Single>(
    centre: Single,
    deviation: Option<Single>,
    draw: D,
) -> (r: Single)
    requires
        draws(centre, deviation) ==> call_requires(
            draw,
            (band_low(centre, deviation->0), band_high(centre, deviation->0)),
        ),
    ensures
        !deviates(deviation) ==> r == centre,
        draws(centre, deviation) ==> call_ensures(
            draw,
            (band_low(centre, deviation->0), band_high(centre, deviation->0)),
            r,
        ),
        deviates(deviation) && !draws(centre, deviation) ==> r == band_low(
            centre,
            deviation->0,
        ).min(band_high(centre, deviation->0)),
{
    match deviation {
        Some(d) => {
            if !d.is_finite() || !Single::zero().is_less(d) {
                return centre;
            }
            let low = centre.times(Single::one().minus(d).max(Single::zero()));
            let high = centre.times(Single::one().plus(d.min(Single::one())));
            if low.is_less(high) {
                draw(low, high)
            } else {
                low.min(high)
            }
        },
        None => centre,
    }
}

/// The band around a centre never reaches below zero nor above twice the centre,
/// however wide the deviation is, and the centre lies in it.
pub proof fn bands_reach_from_zero_to_twice_the_centre(centre: Single, deviation: Single)
    requires
        centre.is_finite() && !centre.is_negative(),
        deviates(Some(deviation)),
    ensures
        Single::zero().is_at_most(band_low(centre, deviation)),
        band_low(centre, deviation).is_at_most(centre),
        centre.is_at_most(band_high(centre, deviation)),
        band_high(centre, deviation).is_at_most(product(centre, sum(Single::one(), Single::one()))),
{
    let one = Single::one();
    lemma_one();
    lemma_difference_at_most(one, deviation);
    lemma_product_unit(centre, difference(one, deviation).max(Single::zero()));
    let capped = deviation.min(one);
    lemma_place_is_value(capped, one);
    lemma_sum_monotonic(one, capped, one);
    lemma_sum_at_least(one, capped);
    lemma_times_one(centre);
    let high = sum(one, capped);
    let two = sum(one, one);
    assert(two.is_finite()) by {
        lemma_two();
    }
    lemma_product_monotonic(centre, one, high);
    lemma_product_monotonic(centre, high, two);
}

/// A request overrides the deviation of the axes it names, and leaves the other to
/// the defaults.
pub proof fn an_override_replaces_its_own_axis(
    randomization: Randomization,
    defaults: DefaultRandomization,
)
    ensures
        ({
            let (volume, speed) = resolve_randomization(randomization, &defaults);
            match randomization {
                Randomization::Default => volume == defaults.volume && speed == defaults.speed,
                Randomization::Volume(v) => volume == Some(v) && speed == defaults.speed,
                Randomization::Speed(s) => volume == defaults.volume && speed == Some(s),
                Randomization::VolumeAndSpeed { volume: v, speed: s } => volume == Some(v)
                    && speed == Some(s),
            }
        }),
{
}

/// The band around one reaches from one less the deviation to one and the
/// deviation, and from zero to two where the deviation is wider than one. The band
/// around any other centre is that band, scaled.
pub proof fn bands_are_as_wide_as_the_deviation(centre: Single, deviation: Single)
    requires
        deviation.is_finite(),
        Single::zero().is_less(deviation),
    ensures
        band_low(centre, deviation) == product(centre, band_low(Single::one(), deviation)),
        band_high(centre, deviation) == product(centre, band_high(Single::one(), deviation)),
        deviation.is_at_most(Single::one()) ==> {
            &&& band_low(Single::one(), deviation) == difference(Single::one(), deviation)
            &&& band_high(Single::one(), deviation) == sum(Single::one(), deviation)
        },
        Single::one().is_at_most(deviation) ==> {
            &&& band_low(Single::one(), deviation) == Single::zero()
            &&& band_high(Single::one(), deviation) == sum(Single::one(), Single::one())
        },
{
    let one = Single::one();
    lemma_one();
    lemma_two();
    let low = difference(one, deviation).max(Single::zero());
    let high = sum(one, deviation.min(one));
    lemma_negated(deviation);
    lemma_sum_place(one, deviation.negated());
    lemma_place_is_value(deviation, one);
    lemma_place_is_value(one, deviation);
    lemma_rounded_place_monotonic(0, 0);
    let v: int = one.value() - deviation.value();
    if v >= 0 {
        lemma_rounded_place_monotonic(0, v);
    } else {
        lemma_rounded_place_monotonic(v, 0);
    }
    lemma_place_is_value(Single::zero(), deviation);
    lemma_sum_place(one, deviation.min(one));
    lemma_times_one(low);
    lemma_times_one(high);
}

/// Whether an axis deviates: exactly if its deviation is finite and positive.
pub proof fn only_positive_deviations_draw(deviation: Option<Single>)
    ensures
        deviates(deviation) <==> (deviation matches Some(d) && d.is_finite()
            && Single::zero().is_less(d)),
        deviation matches Some(d) ==> (d.is_nan() || d.is_infinite() || d.is_at_most(
            Single::zero(),
        ) ==> !deviates(deviation)),
{
}

} // verus!
