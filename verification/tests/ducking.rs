//! The ducking envelope.

use msg_seedling::ducking::{tick_ducking_envelope, DuckingEnvelope};
use msg_seedling::single::Single;

fn s(x: f32) -> Single {
    Single::from_bits(x.to_bits())
}

fn f(x: Single) -> f32 {
    f32::from_bits(x.to_bits())
}

#[test]
fn a_trigger_attacks_holds_and_releases() {
    let mut duck = DuckingEnvelope::default();
    assert!(duck.is_idle());

    duck.trigger();
    duck.tick(duck.attack_secs);
    assert_eq!(
        duck.gain, duck.ducked_gain,
        "the attack bottoms out on time"
    );
    assert_eq!(
        duck.hold_remaining, duck.hold_secs,
        "the hold clock starts only at full depth"
    );

    // Holding: still at depth just before the hold lapses.
    duck.tick(s(f(duck.hold_secs) - 0.01));
    assert_eq!(duck.gain, duck.ducked_gain);
    assert!(!duck.is_idle());

    // Releasing: recovered to unity after the release window.
    duck.tick(s(0.02));
    duck.tick(duck.release_secs);
    assert_eq!(duck.gain, s(1.0));
    assert!(duck.is_idle());
}

#[test]
fn a_retrigger_extends_the_hold() {
    let mut duck = DuckingEnvelope::default();
    duck.trigger();
    duck.tick(s(f(duck.hold_secs) - 0.01));
    duck.trigger();
    duck.tick(s(f(duck.hold_secs) - 0.01));
    assert_eq!(
        duck.gain, duck.ducked_gain,
        "a sustained barrage keeps the bed down"
    );
}

#[test]
fn only_duckable_sounds_duck() {
    let mut duck = DuckingEnvelope::default();
    duck.trigger();
    duck.tick(duck.attack_secs);

    // The routine mix steps back...
    assert_eq!(duck.gain_for(true), duck.ducked_gain);
    // ...while unmarked sounds hold steady.
    assert_eq!(duck.gain_for(false), s(1.0));
}

#[test]
fn custom_shape_parameters_drive_the_same_curve() {
    let mut duck = DuckingEnvelope {
        ducked_gain: s(0.25),
        attack_secs: s(0.1),
        hold_secs: s(1.0),
        release_secs: s(2.0),
        ..Default::default()
    };
    duck.trigger();
    duck.tick(s(0.1));
    assert_eq!(duck.gain, s(0.25));
    duck.tick(s(1.0));
    duck.tick(s(2.0));
    assert_eq!(duck.gain, s(1.0));
    assert!(duck.is_idle());
}

#[test]
fn hostile_shape_values_cannot_wedge_the_envelope() {
    let mut duck = DuckingEnvelope {
        ducked_gain: s(2.0),
        attack_secs: s(0.0),
        hold_secs: s(-1.0),
        release_secs: s(0.0),
        ..Default::default()
    };
    duck.trigger();
    for _ in 0..8 {
        duck.tick(s(0.05));
        assert!(
            (0.0..=1.0).contains(&f(duck.gain())),
            "gain {} escaped the unit range",
            f(duck.gain())
        );
    }
    assert!(duck.is_idle(), "a hostile shape must still come to rest");
}

#[test]
fn a_negative_ducked_gain_bottoms_out_at_silence() {
    let mut duck = DuckingEnvelope {
        ducked_gain: s(-0.5),
        ..Default::default()
    };
    duck.trigger();
    duck.tick(duck.attack_secs);
    assert_eq!(duck.gain(), s(0.0), "the duck stops at silence, not below");

    duck.tick(duck.hold_secs);
    duck.tick(duck.release_secs);
    assert!(duck.is_idle());
}

#[test]
fn an_idle_envelope_is_left_alone() {
    let mut duck = DuckingEnvelope::default();
    let before = duck;
    tick_ducking_envelope(s(0.5), &mut duck);
    assert_eq!(duck, before);

    duck.trigger();
    tick_ducking_envelope(s(0.02), &mut duck);
    // Half way down: the attack takes four hundredths of a second.
    assert!((f(duck.gain()) - 0.75).abs() < 1e-6);
}

#[test]
fn no_shape_pushes_the_gain_out_of_range() {
    let hostile = [f32::NAN, f32::INFINITY, f32::NEG_INFINITY, -1.0, 0.0, 0.3, 1e30];
    for ducked in hostile {
        for attack in hostile {
            for release in hostile {
                let mut duck = DuckingEnvelope {
                    ducked_gain: s(ducked),
                    attack_secs: s(attack),
                    hold_secs: s(0.1),
                    release_secs: s(release),
                    ..Default::default()
                };
                duck.trigger();
                for delta in [0.0, 0.016, 1.0, f32::INFINITY, f32::NAN, 0.016] {
                    duck.tick(s(delta));
                    let gain = f(duck.gain());
                    assert!((0.0..=1.0).contains(&gain), "{ducked} {attack} {release}: {gain}");
                }
            }
        }
    }
}

/// The number `places` representable numbers above `x`.
fn places_from(x: f32, places: i32) -> f32 {
    f32::from_bits(x.to_bits().wrapping_add_signed(places))
}

/// Frames of a twentieth of a second until the envelope is idle, with its gain
/// kept in range on the way.
fn frames_to_rest(duck: &mut DuckingEnvelope) -> usize {
    let mut frames = 0;
    while !duck.is_idle() {
        tick_ducking_envelope(s(0.05), duck);
        assert!((0.0..=1.0).contains(&f(duck.gain())));
        frames += 1;
        assert!(frames < 100_000, "never came to rest: {duck:?}");
    }
    frames
}

#[test]
fn every_trigger_holds_for_a_finite_time() {
    for hold in [f32::NAN, f32::INFINITY, f32::NEG_INFINITY, 0.0, -0.0, 0.25, f32::MAX] {
        let mut duck = DuckingEnvelope {
            hold_secs: s(hold),
            ..Default::default()
        };
        duck.trigger();
        let held = f(duck.hold_remaining);
        assert!(held > 0.0 && held.is_finite(), "{hold}: {held}");
    }
}

#[test]
fn an_infinite_hold_is_read_finite_and_runs_down() {
    let mut duck = DuckingEnvelope {
        hold_secs: s(f32::INFINITY),
        ..Default::default()
    };
    duck.trigger();
    assert_eq!(f(duck.hold_remaining), f32::MAX);
    duck.tick(duck.attack_secs);
    duck.tick(s(0.05));
    assert_eq!(duck.gain(), s(0.5));
    assert_eq!(f(duck.hold_remaining), places_from(f32::MAX, -1));
}

#[test]
fn a_long_hold_is_kept_through_frames_it_does_not_feel() {
    let mut duck = DuckingEnvelope {
        gain: s(0.5),
        hold_remaining: s(1_000_000.0),
        ..Default::default()
    };
    duck.tick(s(1.0 / 64.0));
    assert_eq!(f(duck.hold_remaining), 999_999.94);
    assert_eq!(duck.gain(), s(0.5));
}

#[test]
fn an_infinite_attack_moves_a_place_at_a_time() {
    let mut duck = DuckingEnvelope {
        attack_secs: s(f32::INFINITY),
        ..Default::default()
    };
    duck.trigger();
    duck.tick(s(0.05));
    assert_eq!(f(duck.gain()), places_from(1.0, -1));
    // It stops at the depth and not below it.
    duck.gain = s(places_from(0.5, 3));
    for _ in 0..3 {
        assert_eq!(duck.hold_remaining, duck.hold_secs);
        duck.tick(s(0.05));
    }
    assert_eq!(duck.gain(), s(0.5));
    duck.tick(s(0.05));
    assert_eq!(duck.gain(), s(0.5));
    assert!(f(duck.hold_remaining) < f(duck.hold_secs));
}

#[test]
fn an_infinite_release_moves_a_place_at_a_time() {
    let mut duck = DuckingEnvelope {
        gain: s(0.5),
        release_secs: s(f32::INFINITY),
        ..Default::default()
    };
    duck.tick(s(0.05));
    assert_eq!(f(duck.gain()), places_from(0.5, 1));
    duck.gain = s(places_from(1.0, -1000));
    assert_eq!(frames_to_rest(&mut duck), 1000);
    assert_eq!(duck.gain(), s(1.0));
}

#[test]
fn very_short_frames_do_not_pop_the_default_shape() {
    let mut duck = DuckingEnvelope {
        gain: s(0.75),
        ..Default::default()
    };
    duck.tick(s(1e-9));
    assert_eq!(f(duck.gain()), places_from(0.75, 1));
    duck.trigger();
    duck.tick(s(1e-10));
    assert_eq!(duck.gain(), s(0.75));
    duck.gain = s(0.5);
    duck.tick(s(1e-9));
    assert_eq!(f(duck.hold_remaining), places_from(0.25, -1));
}

#[test]
fn a_depth_rewritten_while_ducked_does_not_wedge_the_release() {
    // Ducked, with no way left between the new depth and one.
    for rewritten in [1.0, places_from(1.0, -1), 2.0, f32::INFINITY, f32::NAN] {
        let mut duck = DuckingEnvelope {
            ducked_gain: s(0.999),
            ..Default::default()
        };
        duck.trigger();
        duck.tick(duck.attack_secs);
        assert_eq!(duck.gain(), s(0.999));
        duck.ducked_gain = s(rewritten);
        frames_to_rest(&mut duck);
        assert_eq!(duck.gain(), s(1.0), "{rewritten}");
    }
}

#[test]
fn every_hostile_shape_comes_to_rest() {
    let hostile = [
        f32::NAN,
        f32::INFINITY,
        f32::NEG_INFINITY,
        f32::MAX,
        f32::from_bits(1),
        1e30,
        -1.0,
        0.0,
        1.0,
    ];
    for ducked in [f32::NAN, f32::INFINITY, 2.0, 1.0, places_from(1.0, -1), 0.9999] {
        for attack in hostile {
            for hold in [f32::NAN, f32::NEG_INFINITY, 0.0, 1.0] {
                for release in hostile {
                    let mut duck = DuckingEnvelope {
                        ducked_gain: s(ducked),
                        attack_secs: s(attack),
                        hold_secs: s(hold),
                        release_secs: s(release),
                        ..Default::default()
                    };
                    duck.trigger();
                    frames_to_rest(&mut duck);
                    assert_eq!(duck.gain(), s(1.0));
                }
            }
        }
    }
}

#[test]
fn a_frame_of_no_length_moves_nothing() {
    let mut duck = DuckingEnvelope::default();
    duck.trigger();
    let before = duck;
    duck.tick(s(0.0));
    assert_eq!(duck, before);
    duck.tick(duck.attack_secs);
    let before = duck;
    duck.tick(s(0.0));
    assert_eq!(duck, before);
    duck.tick(s(1.0));
    let before = duck;
    duck.tick(s(0.0));
    assert_eq!(duck, before);
}

#[test]
fn frames_of_any_lengths_bring_rest() {
    let mut duck = DuckingEnvelope::default();
    duck.trigger();
    let lengths = [0.001, 0.3, 1e-12, 0.016, 7.0, 1e-30];
    let mut frames = 0;
    while !duck.is_idle() {
        duck.tick(s(lengths[frames % lengths.len()]));
        frames += 1;
        assert!(frames < 100);
    }
    assert_eq!(duck.gain(), s(1.0));
}
