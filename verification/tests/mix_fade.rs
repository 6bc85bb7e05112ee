//! Fading the whole mix.

use msg_seedling::mix_fade::{
    fade_target, on_fade_mix, FadeMix, MixFadeState, MixLevel, DB_FADE_SILENCE_DB,
};
use msg_seedling::single::Single;
use msg_seedling::sound::Volume;
use msg_seedling::time::Duration;
use msg_seedling::traits::AudioConfig;

fn s(x: f32) -> Single {
    Single::from_bits(x.to_bits())
}

fn f(x: Single) -> f32 {
    f32::from_bits(x.to_bits())
}

/// The decibels of a linear gain, negative infinity for silence.
fn decibels(linear: Single) -> Single {
    let linear = f(linear);
    if linear == 0.0 {
        s(f32::NEG_INFINITY)
    } else {
        s(20.0 * linear.log10())
    }
}

#[derive(Clone, Default)]
struct Config {
    master: f32,
    muted: bool,
}

impl AudioConfig for Config {
    fn master_volume(&self) -> Single {
        s(self.master)
    }

    fn is_muted(&self) -> bool {
        self.muted
    }
}

#[test]
fn short_fades_stay_linear() {
    let target = fade_target(s(0.5), Duration::from_millis(100), decibels);
    assert_eq!(target, Volume::Linear(s(0.5)));
}

#[test]
fn music_length_fades_run_in_decibel_space() {
    let target = fade_target(s(0.5), Duration::from_secs(2), decibels);
    let Volume::Decibels(db) = target else {
        panic!("expected a decibel-space target, got {target:?}");
    };
    assert!((f(db) - f(decibels(s(0.5)))).abs() < 1e-4);
}

#[test]
fn silence_clamps_to_the_decibel_floor() {
    let target = fade_target(s(0.0), Duration::from_secs(2), decibels);
    assert_eq!(
        target,
        Volume::Decibels(Single::from_bits(DB_FADE_SILENCE_DB))
    );
    assert_eq!(f(Single::from_bits(DB_FADE_SILENCE_DB)), -60.0);
}

#[test]
fn the_mix_starts_pointed_at_full() {
    assert_eq!(MixFadeState::default().target, MixLevel::Full);
}

#[test]
fn constructors_point_the_right_way() {
    let out = FadeMix::out(Duration::from_secs(1));
    assert_eq!(out.to, MixLevel::Silent);
    let back = FadeMix::back(Duration::from_secs(1));
    assert_eq!(back.to, MixLevel::Full);
}

#[test]
fn half_a_second_is_music_length() {
    let just_under = Duration { nanos: 499_999_999 };
    assert_eq!(
        fade_target(s(0.5), just_under, |_| unreachable!("a short fade")),
        Volume::Linear(s(0.5))
    );
    assert!(matches!(
        fade_target(s(0.5), Duration::from_millis(500), decibels),
        Volume::Decibels(_)
    ));
}

#[test]
fn a_mix_fade_records_where_it_points() {
    let config = Config {
        master: 0.8,
        muted: false,
    };
    let mut state = MixFadeState::default();

    let ramp = on_fade_mix(
        FadeMix::out(Duration::from_millis(100)),
        &config,
        &mut state,
        decibels,
    );
    assert_eq!(state.target, MixLevel::Silent);
    assert_eq!(ramp.to, Volume::Linear(s(0.0)));
    assert_eq!(ramp.duration, Duration::from_millis(100));

    let ramp = on_fade_mix(
        FadeMix::back(Duration::from_millis(100)),
        &config,
        &mut state,
        decibels,
    );
    assert_eq!(state.target, MixLevel::Full);
    assert_eq!(ramp.to, Volume::Linear(s(0.8)));

    let muted = Config {
        master: 0.8,
        muted: true,
    };
    let ramp = on_fade_mix(
        FadeMix::back(Duration::from_secs(1)),
        &muted,
        &mut state,
        decibels,
    );
    assert_eq!(ramp.to, Volume::Decibels(s(-60.0)));
}
