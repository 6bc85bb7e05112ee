//! Per-sound baselines.

use msg_seedling::baseline::{sanitize_weight, BasePitch, BaseVolume};
use msg_seedling::single::Single;

fn s(x: f32) -> Single {
    Single::from_bits(x.to_bits())
}

fn f(x: Single) -> f32 {
    f32::from_bits(x.to_bits())
}

#[test]
fn baselines_default_to_leaving_a_sound_alone() {
    assert_eq!(BaseVolume::default(), BaseVolume(s(1.0)));
    assert_eq!(BasePitch::default(), BasePitch(s(1.0)));
}

#[test]
fn a_hostile_gain_silences_rather_than_poisoning_the_product() {
    assert_eq!(BaseVolume::new(s(f32::NAN)), BaseVolume(s(0.0)));
    assert_eq!(BaseVolume::new(s(f32::INFINITY)), BaseVolume(s(0.0)));
    assert_eq!(BaseVolume::new(s(-2.0)), BaseVolume(s(0.0)));
    assert_eq!(BaseVolume::new(s(0.25)), BaseVolume(s(0.25)));
}

#[test]
fn a_hostile_speed_falls_back_to_unbent() {
    assert_eq!(BasePitch::new(s(f32::NAN)), BasePitch(s(1.0)));
    assert_eq!(BasePitch::new(s(0.0)), BasePitch(s(1.0)));
    assert_eq!(BasePitch::new(s(-1.0)), BasePitch(s(1.0)));
    assert_eq!(BasePitch::new(s(1.5)), BasePitch(s(1.5)));
}

#[test]
fn resolve_multiplies_the_category_in() {
    assert!((f(BaseVolume(s(0.5)).resolve(s(0.8))) - 0.4).abs() < f32::EPSILON);
    assert_eq!(BaseVolume::silent().resolve(s(1.0)), s(0.0));
}

#[test]
fn sanitized_weights_are_finite_and_not_negative() {
    for x in [
        f32::NAN,
        f32::INFINITY,
        f32::NEG_INFINITY,
        -0.0,
        -1.0,
        0.0,
        0.3,
        f32::MAX,
        f32::MIN_POSITIVE,
    ] {
        let once = sanitize_weight(s(x));
        assert!(once.is_finite() && !once.is_negative(), "{x}");
        assert_eq!(sanitize_weight(once).to_bits(), once.to_bits());
        if x.is_finite() && x.is_sign_positive() {
            assert_eq!(once.to_bits(), x.to_bits());
        }
    }
}

#[test]
fn an_infinite_speed_falls_back_to_unbent() {
    assert_eq!(BasePitch::new(s(f32::INFINITY)), BasePitch(s(1.0)));
    assert_eq!(BasePitch::new(s(f32::NEG_INFINITY)), BasePitch(s(1.0)));
}
