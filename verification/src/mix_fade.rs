//! Fading the whole mix: one ramp on the main bus, above every category.
//!
//! Whoever engages a fade owns restoring it: a [`FadeMix::out`] is paired with
//! a later [`FadeMix::back`] by the same caller. [`MixFadeState`] records where
//! the bus was last pointed, so that the config-driven master write stands down
//! while the mix is away at [`MixLevel::Silent`].

use crate::single::order::lemma_place_is_value;
use crate::single::Single;
use crate::sound::{Ramp, Volume};
use crate::time::Duration;
use crate::traits::{has_effective_volume, AudioConfig};
use vstd::arithmetic::power2::{lemma2_to64, lemma_pow2_adds, pow2};
use vstd::prelude::*;

verus! {

/// Fades at least this many milliseconds long run in decibel space: a ramp of
/// linear amplitude that long sags audibly down its middle and hangs inaudibly
/// on its tail.
pub const DB_SPACE_FADE_MIN_MILLIS: u64 = 500;

/// The bits of the level in decibels that counts as silence, minus sixty.
pub const DB_FADE_SILENCE_DB: u32 = 0xc270_0000;

/// Whether a fade of `duration` runs in decibel space.
pub open spec fn runs_in_decibels(duration: Duration) -> bool {
    duration.nanos >= Duration::from_millis(DB_SPACE_FADE_MIN_MILLIS).nanos
}

/// The target of a fade toward a gain of `decibels`, no lower than the floor.
pub open spec fn spec_floored(decibels: Single) -> Volume {
    Volume::Decibels(decibels.max(Single { bits: DB_FADE_SILENCE_DB }))
}

/// The target of a fade toward a gain of `decibels`, no lower than the floor.
#[verifier::when_used_as_spec(spec_floored)]
pub fn floored(decibels: Single) -> (r: Volume)
    ensures
        r == floored(decibels),
{
    Volume::Decibels(decibels.max(Single { bits: DB_FADE_SILENCE_DB }))
}

/// Whether `target` is the target of a fade of `duration` toward a gain of
/// `linear`, where `decibels` converts a linear gain.
pub open spec fn is_fade_target<D: FnOnce(Single) -> Single>(
    linear: Single,
    duration: Duration,
    decibels: D,
    target: Volume,
) -> bool {
    if runs_in_decibels(duration) {
        exists|db: Single| #[trigger]
            call_ensures(decibels, (linear,), db) && target == floored(db)
    } else {
        target == Volume::Linear(linear)
    }
}

/// The target of a fade of `duration` toward a gain of `linear`: linear for
/// short fades, in decibels for those of half a second or longer.
///
/// `decibels` converts a linear gain, and is called for long fades only. In
/// decibel space a gain of zero becomes the floor of minus sixty decibels
/// rather than true silence, which no finite ramp leads to.
pub fn fade_target<D: FnOnce(Single) -> Single>(
    linear: Single,
    duration: Duration,
    decibels: D,
) -> (r: Volume)
    requires
        runs_in_decibels(duration) ==> call_requires(decibels, (linear,)),
    ensures
        is_fade_target(linear, duration, decibels, r),
{
    if duration.nanos < Duration::from_millis(DB_SPACE_FADE_MIN_MILLIS).nanos {
        return Volume::Linear(linear);
    }
    floored(decibels(linear))
}

/// Where a [`FadeMix`] points the main bus.
#[derive(Clone, Copy, Debug, PartialEq, Eq, Structural)]
pub enum MixLevel {
    /// Silence, or as close as the fade gets: a long fade bottoms out at the
    /// floor of its decibel space.
    Silent,
    /// Whatever the configuration makes the mix when the fade is fired.
    Full,
}

/// Where the mix was last pointed by a [`FadeMix`].
#[derive(Clone, Copy, Debug, PartialEq, Eq, Structural)]
pub struct MixFadeState {
    /// Where the last [`FadeMix`] pointed the bus; [`MixLevel::Full`] before
    /// any fade fires.
    pub target: MixLevel,
}

impl Default for MixFadeState {
    fn default() -> (r: MixFadeState)
        ensures
            r.target == MixLevel::Full,
    {
        MixFadeState { target: MixLevel::Full }
    }
}

/// Fades the whole mix to a [`MixLevel`] over `duration`.
#[derive(Clone, Copy, Debug, PartialEq, Eq, Structural)]
pub struct FadeMix {
    /// Where the bus is headed.
    pub to: MixLevel,
    /// How long the audio thread has to get there.
    pub duration: Duration,
}

impl FadeMix {
    /// Fades out to silence.
    pub fn out(duration: Duration) -> (r: FadeMix)
        ensures
            r == (FadeMix { to: MixLevel::Silent, duration }),
    {
        FadeMix { to: MixLevel::Silent, duration }
    }

    /// Fades back to the level the configuration makes the mix.
    pub fn back(duration: Duration) -> (r: FadeMix)
        ensures
            r == (FadeMix { to: MixLevel::Full, duration }),
    {
        FadeMix { to: MixLevel::Full, duration }
    }
}

/// Whether `level` is the gain that a fade to `to` heads for.
pub open spec fn is_mix_gain<Conf: AudioConfig>(to: MixLevel, config: Conf, level: Single) -> bool {
    match to {
        MixLevel::Silent => level == Single::zero(),
        MixLevel::Full => has_effective_volume(config, level),
    }
}

/// Answers a [`FadeMix`]: records where the mix is pointed, and returns the
/// ramp for the main bus. `decibels` converts a linear gain.
pub fn on_fade_mix<Conf: AudioConfig, D: FnOnce(Single) -> Single>(
    fade: FadeMix,
    config: &Conf,
    state: &mut MixFadeState,
    decibels: D,
) -> (r: Ramp)
    requires
        runs_in_decibels(fade.duration) ==> forall|level: Single| #[trigger]
            is_mix_gain(fade.to, *config, level) ==> call_requires(decibels, (level,)),
    ensures
        final(state).target == fade.to,
        r.duration == fade.duration,
        exists|level: Single| #[trigger]
            is_mix_gain(fade.to, *config, level) && is_fade_target(
                level,
                fade.duration,
                decibels,
                r.to,
            ),
{
    state.target = fade.to;
    let level: Single = match fade.to {
        MixLevel::Silent => Single::zero(),
        MixLevel::Full => config.effective_volume(),
    };
    assert(is_mix_gain(fade.to, *config, level));
    Ramp { to: fade_target(level, fade.duration, decibels), duration: fade.duration }
}

/// A target in decibels never lies below the floor, and silence, which has no
/// level in decibels but negative infinity, lands on the floor itself.
pub proof fn decibel_targets_stay_above_the_floor(decibels: Single)
    ensures
        floored(decibels) matches Volume::Decibels(db) && (Single {
            bits: DB_FADE_SILENCE_DB,
        }).is_at_most(db) || decibels.is_nan(),
        decibels.is_nan() || (decibels.is_negative() && decibels.is_infinite()) ==> floored(
            decibels,
        ) == Volume::Decibels(Single { bits: DB_FADE_SILENCE_DB }),
{
}

/// The floor is at minus sixty decibels.
proof fn lemma_floor()
    ensures
        (Single { bits: DB_FADE_SILENCE_DB }).is_finite(),
        (Single { bits: DB_FADE_SILENCE_DB }).value() == -60 * pow2(149),
{
    lemma2_to64();
    lemma_pow2_adds(18, 131);
    assert(0xf0_0000 * pow2(131) == 60 * pow2(149)) by (nonlinear_arith)
        requires
            pow2(149) == pow2(18) * pow2(131),
            pow2(18) == 0x4_0000,
    ;
}

/// What lies at the floor or above it is the target unchanged: a fade back to full
/// volume gets there. Only what lies below minus sixty decibels, or is no level at
/// all, is raised to it.
pub proof fn levels_above_the_floor_are_kept(decibels: Single)
    ensures
        ({
            let floor = -60 * pow2(149);
            &&& floored(decibels) is Decibels
            &&& decibels.is_finite() && decibels.value() >= floor ==> floored(decibels)
                == Volume::Decibels(decibels)
            &&& decibels.is_infinite() && !decibels.is_negative() ==> floored(decibels)
                == Volume::Decibels(decibels)
            &&& decibels.is_nan() || (decibels.is_finite() && decibels.value() < floor) || (
            decibels.is_infinite() && decibels.is_negative()) ==> (floored(
                decibels,
            ) matches Volume::Decibels(db) && db.is_finite() && db.value() == floor)
        }),
{
    let floor = Single { bits: DB_FADE_SILENCE_DB };
    lemma_floor();
    if decibels.is_finite() {
        lemma_place_is_value(decibels, floor);
        lemma_place_is_value(floor, decibels);
    }
}

/// A fade of half a second or longer is given in decibels, at what the conversion
/// says of the level but no lower than minus sixty; a shorter one is given as the
/// level itself.
pub proof fn long_fades_run_in_decibels<D: FnOnce(Single) -> Single>(
    linear: Single,
    duration: Duration,
    decibels: D,
    target: Volume,
)
    requires
        is_fade_target(linear, duration, decibels, target),
    ensures
        duration.nanos < 500_000_000 ==> target == Volume::Linear(linear),
        duration.nanos >= 500_000_000 ==> (target matches Volume::Decibels(level) && exists|
            db: Single,
        | #[trigger]
            call_ensures(decibels, (linear,), db) && (level == db || (level.is_finite()
                && level.value() == -60 * pow2(149) && !(db.is_finite() && db.value() >= -60 * pow2(
                149,
            ))))),
{
    if duration.nanos >= 500_000_000 {
        let db = choose|db: Single| #[trigger]
            call_ensures(decibels, (linear,), db) && target == floored(db);
        levels_above_the_floor_are_kept(db);
    }
}

/// Fading out heads for silence, whatever the configuration says, and fading back
/// for what the configuration makes the mix.
pub proof fn fades_head_where_they_point<Conf: AudioConfig>(config: Conf, level: Single)
    ensures
        is_mix_gain(MixLevel::Silent, config, level) <==> level == (Single { bits: 0 }),
        is_mix_gain(MixLevel::Full, config, level) <==> call_ensures(
            Conf::effective_volume,
            (&config,),
            level,
        ),
{
}

} // verus!
