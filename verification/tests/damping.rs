//! Sound damping fields.

use msg_seedling::baseline::{BasePitch, BaseVolume};
use msg_seedling::damping::{
    apply_sound_damping, nearest_listener, ActiveField, DampingTargets, SoundDamping,
    SoundDampingField, OPEN_CUTOFF_HZ,
};
use msg_seedling::ducking::{tick_ducking_envelope, DuckingEnvelope};
use msg_seedling::fade::FadeOutAudio;
use msg_seedling::geometry::Vec2;
use msg_seedling::messages::SampleId;
use msg_seedling::single::Single;
use msg_seedling::sound::{Effects, OnComplete, Player, Settings, Sound, Volume};
use msg_seedling::time::Duration;
use msg_seedling::traits::{AudioCategory, AudioConfig};
use msg_seedling::volume::update_category_volumes;

const OPEN: f32 = 20_000.0;

fn s(x: f32) -> Single {
    Single::from_bits(x.to_bits())
}

fn f(x: Single) -> f32 {
    f32::from_bits(x.to_bits())
}

fn at(x: f32, y: f32) -> Vec2 {
    Vec2::new(s(x), s(y))
}

fn far() -> Vec2 {
    at(1000.0, 0.0)
}

fn power(base: Single, exponent: Single) -> Single {
    s(f(base).powf(f(exponent)))
}

fn field(radius: f32, volume: f32, cutoff_hz: f32, speed: f32) -> SoundDampingField {
    SoundDampingField {
        radius: s(radius),
        volume: s(volume),
        cutoff_hz: s(cutoff_hz),
        speed: s(speed),
        ..Default::default()
    }
}

/// Resolves one field with the listener nowhere near it.
fn damping_at(damper: &SoundDampingField, source: Vec2) -> SoundDamping {
    let active = ActiveField::new(at(0.0, 0.0), damper, Some(far()));
    SoundDamping::resolve(&[active], source, &power)
}

#[test]
fn influence_is_full_at_the_centre_and_zero_at_the_rim() {
    let field = field(10.0, 0.0, 500.0, 0.8);
    assert_eq!(field.influence(s(0.0)), s(1.0));
    assert_eq!(field.influence(s(10.0)), s(0.0));
    assert_eq!(field.influence(s(50.0)), s(0.0));
    let halfway = f(field.influence(s(5.0)));
    assert!(
        (halfway - 0.5).abs() < 1e-6,
        "smoothstep is symmetric about the midpoint, got {halfway}"
    );
}

#[test]
fn a_zero_radius_field_never_acts() {
    assert_eq!(field(0.0, 0.0, 100.0, 0.5).influence(s(0.0)), s(0.0));
    assert_eq!(field(-5.0, 0.0, 100.0, 0.5).influence(s(0.0)), s(0.0));
}

#[test]
fn a_source_outside_every_field_is_untouched() {
    let damper = field(10.0, 0.0, 200.0, 0.5);
    assert!(damping_at(&damper, at(20.0, 0.0)).is_none());
}

#[test]
fn a_source_at_the_centre_gets_the_authored_values() {
    let damper = field(10.0, 0.25, 400.0, 0.75);
    let damping = damping_at(&damper, at(0.0, 0.0));
    assert!((f(damping.volume) - 0.25).abs() < 1e-6);
    assert!((f(damping.cutoff_hz) - 400.0).abs() < 1e-3);
    assert!((f(damping.speed) - 0.75).abs() < 1e-6);
}

#[test]
fn damping_tapers_between_centre_and_rim() {
    let damper = field(10.0, 0.0, 200.0, 0.5);
    let damping = damping_at(&damper, at(5.0, 0.0));
    let (volume, cutoff_hz, speed) = (f(damping.volume), f(damping.cutoff_hz), f(damping.speed));
    assert!(
        volume > 0.0 && volume < 1.0,
        "half-way volume should sit between silence and full, got {volume}"
    );
    assert!(
        cutoff_hz > 200.0 && cutoff_hz < OPEN,
        "half-way cutoff should sit between the authored and open cutoff, got {cutoff_hz}"
    );
    assert!(
        speed > 0.5 && speed < 1.0,
        "half-way speed should sit between the authored and unbent speed, got {speed}"
    );
}

#[test]
fn overlapping_fields_do_not_stack() {
    let mild = field(10.0, 0.5, 1000.0, 0.9);
    let here = ActiveField::new(at(0.0, 0.0), &mild, Some(far()));
    let nearby = ActiveField::new(at(1.0, 0.0), &mild, Some(far()));
    let damping = SoundDamping::resolve(&[here, nearby], at(0.0, 0.0), &power);
    assert!(
        f(damping.volume) >= 0.5,
        "two 0.5 fields must not multiply down to 0.25, got {}",
        f(damping.volume)
    );
}

#[test]
fn the_strongest_field_wins_each_axis() {
    let mild = field(10.0, 0.8, 8000.0, 0.95);
    let strong = field(10.0, 0.1, 300.0, 0.6);
    let mild = ActiveField::new(at(0.0, 0.0), &mild, Some(far()));
    let strong = ActiveField::new(at(0.0, 0.0), &strong, Some(far()));
    let damping = SoundDamping::resolve(&[mild, strong], at(0.0, 0.0), &power);
    assert!((f(damping.volume) - 0.1).abs() < 1e-6);
    assert!((f(damping.cutoff_hz) - 300.0).abs() < 1e-3);
    assert!((f(damping.speed) - 0.6).abs() < 1e-6);
}

#[test]
fn an_absurd_cutoff_stays_inside_the_audible_range() {
    let broken = field(10.0, 1.0, -100.0, 1.0);
    let damping = damping_at(&broken, at(0.0, 0.0));
    let cutoff_hz = f(damping.cutoff_hz);
    assert!(
        cutoff_hz >= 1.0 && cutoff_hz <= OPEN,
        "cutoff {cutoff_hz} escaped the audible range"
    );
}

#[test]
fn a_listener_inside_a_field_hears_the_world_outside_damped() {
    let damper = field(10.0, 0.2, 400.0, 0.8);
    let active = ActiveField::new(at(0.0, 0.0), &damper, Some(at(0.0, 0.0)));
    let damping = SoundDamping::resolve(&[active], far(), &power);
    assert!((f(damping.volume) - 0.2).abs() < 1e-6);
    assert!((f(damping.cutoff_hz) - 400.0).abs() < 1e-3);
}

#[test]
fn both_endpoints_inside_damp_exactly_once() {
    let damper = field(10.0, 0.2, 400.0, 0.8);
    let source_only = ActiveField::new(at(0.0, 0.0), &damper, Some(far()));
    let both = ActiveField::new(at(0.0, 0.0), &damper, Some(at(0.0, 0.0)));

    let outside_ear = SoundDamping::resolve(&[source_only], at(0.0, 0.0), &power);
    let inside_ear = SoundDamping::resolve(&[both], at(0.0, 0.0), &power);

    assert_eq!(
        inside_ear, outside_ear,
        "submerging the listener next to the source must not damp twice"
    );
}

#[test]
fn source_only_fields_ignore_the_listener() {
    let damper = SoundDampingField {
        targets: DampingTargets::Sources,
        ..field(10.0, 0.2, 400.0, 0.8)
    };
    let active = ActiveField::new(at(0.0, 0.0), &damper, Some(at(0.0, 0.0)));
    assert!(
        SoundDamping::resolve(&[active], far(), &power).is_none(),
        "a Sources field must not damp a distant source just because the listener is inside"
    );
    assert!(!SoundDamping::resolve(&[active], at(0.0, 0.0), &power).is_none());
}

#[test]
fn listener_only_fields_ignore_the_source() {
    let damper = SoundDampingField {
        targets: DampingTargets::Listeners,
        ..field(10.0, 0.2, 400.0, 0.8)
    };
    let outside_ear = ActiveField::new(at(0.0, 0.0), &damper, Some(far()));
    assert!(
        SoundDamping::resolve(&[outside_ear], at(0.0, 0.0), &power).is_none(),
        "a Listeners field must not damp a source inside it while the ear is outside"
    );
    let inside_ear = ActiveField::new(at(0.0, 0.0), &damper, Some(at(0.0, 0.0)));
    assert!(!SoundDamping::resolve(&[inside_ear], far(), &power).is_none());
}

#[test]
fn a_positionless_sound_follows_the_listener_only() {
    let damper = field(10.0, 0.2, 400.0, 0.8);

    // Something falling into the field cannot muffle the music...
    let outside_ear = ActiveField::new(at(0.0, 0.0), &damper, Some(far()));
    assert!(SoundDamping::resolve_positionless(&[outside_ear], &power).is_none());

    // ...but sinking into it yourself does.
    let inside_ear = ActiveField::new(at(0.0, 0.0), &damper, Some(at(0.0, 0.0)));
    let damping = SoundDamping::resolve_positionless(&[inside_ear], &power);
    assert!((f(damping.volume) - 0.2).abs() < 1e-6);
}

#[test]
fn a_field_with_no_listener_still_damps_its_sources() {
    let damper = field(10.0, 0.2, 400.0, 0.8);
    let active = ActiveField::new(at(0.0, 0.0), &damper, None);
    let damping = SoundDamping::resolve(&[active], at(0.0, 0.0), &power);
    assert!((f(damping.volume) - 0.2).abs() < 1e-6);
}

#[test]
fn nearest_listener_picks_the_closest() {
    let listeners = [at(5.0, 0.0), at(1.0, 0.0)];
    assert_eq!(
        nearest_listener(&listeners, at(0.0, 0.0)),
        Some(at(1.0, 0.0))
    );
    assert_eq!(nearest_listener(&[], at(0.0, 0.0)), None);
}

// ==================== The apply system ====================

#[derive(Clone, Copy, Debug, PartialEq, Eq)]
enum TestSound {
    World,
    Interface,
}

#[derive(Clone, Default)]
struct TestConfig;

impl AudioConfig for TestConfig {
    fn master_volume(&self) -> Single {
        s(1.0)
    }
}

impl AudioCategory for TestSound {
    type Config = TestConfig;

    fn volume(&self, _config: &TestConfig) -> Single {
        s(1.0)
    }

    fn is_dampable(&self) -> bool {
        matches!(self, TestSound::World)
    }
}

/// One step of the fixed clock, in seconds.
const STEP_SECS: f32 = 0.015625;

#[derive(Default)]
struct Mix {
    fields: Vec<(Vec2, SoundDampingField)>,
    listeners: Vec<Vec2>,
    sounds: Vec<Sound<TestSound>>,
    duck: DuckingEnvelope,
    was_active: bool,
}

impl Mix {
    fn update_n(&mut self, n: usize) {
        for _ in 0..n {
            tick_ducking_envelope(s(STEP_SECS), &mut self.duck);
            apply_sound_damping(
                &TestConfig,
                &self.duck,
                &self.fields,
                &self.listeners,
                &mut self.sounds,
                &mut self.was_active,
                &power,
            );
        }
    }

    fn spawn_sound(&mut self, category: TestSound, position: Vec2) -> usize {
        self.spawn_sound_with_volume(category, position, 1.0)
    }

    /// Spawns a sound the way a play request does: a node seeded at the
    /// category volume times the base, and the base recorded.
    fn spawn_sound_with_volume(
        &mut self,
        category: TestSound,
        position: Vec2,
        volume: f32,
    ) -> usize {
        self.sounds.push(Sound {
            player: Some(Player {
                sample: SampleId { kind: 0, number: 0 },
                looping: false,
            }),
            category: Some(category),
            base_volume: Some(BaseVolume(s(volume))),
            position: Some(position),
            effects: Some(Effects {
                volume: Some(Volume::Linear(s(volume))),
                cutoff_hz: None,
                ready: false,
            }),
            ..Sound::bare(self.sounds.len() as u64)
        });
        self.sounds.len() - 1
    }

    fn volume_of(&self, sound: usize) -> f32 {
        match self.sounds[sound].effects.and_then(|effects| effects.volume) {
            Some(Volume::Linear(volume)) => f(volume),
            other => panic!("expected a linear volume node, got {other:?}"),
        }
    }

    fn cutoff_of(&self, sound: usize) -> f32 {
        f(self.sounds[sound]
            .effects
            .and_then(|effects| effects.cutoff_hz)
            .expect("effect chain has a low-pass node"))
    }

    fn speed_of(&self, sound: usize) -> f32 {
        f(self.sounds[sound].settings.expect("playback settings").speed)
    }
}

fn settings() -> Settings {
    Settings {
        speed: s(1.0),
        on_complete: OnComplete::Despawn,
    }
}

#[test]
fn a_sound_in_a_field_is_attenuated_and_restored() {
    let mut mix = Mix::default();
    mix.fields.push((at(0.0, 0.0), field(10.0, 0.25, 400.0, 1.0)));
    let sound = mix.spawn_sound(TestSound::World, at(0.0, 0.0));
    mix.update_n(2);
    assert!((mix.volume_of(sound) - 0.25).abs() < 1e-6);

    // The field collapses: the restoring pass brings the sound back.
    mix.fields[0].1.radius = s(0.0);
    mix.update_n(2);
    assert!((mix.volume_of(sound) - 1.0).abs() < 1e-6);
}

#[test]
fn exempt_sounds_are_left_alone() {
    let mut mix = Mix::default();
    mix.fields.push((at(0.0, 0.0), field(10.0, 0.25, 400.0, 1.0)));

    // A non-dampable category is skipped entirely.
    let interface = mix.spawn_sound(TestSound::Interface, at(0.0, 0.0));
    // An undamped sound is skipped whatever its category says.
    let undamped = mix.spawn_sound(TestSound::World, at(0.0, 0.0));
    mix.sounds[undamped].undamped = true;
    // A self-driven sound keeps its volume for its owner.
    let self_driven = mix.spawn_sound(TestSound::World, at(0.0, 0.0));
    mix.sounds[self_driven].self_driven_volume = true;

    mix.update_n(2);
    assert!((mix.volume_of(interface) - 1.0).abs() < 1e-6);
    assert!((mix.volume_of(undamped) - 1.0).abs() < 1e-6);
    assert!((mix.volume_of(self_driven) - 1.0).abs() < 1e-6);
}

#[test]
fn the_duck_rides_the_same_volume_write() {
    let mut mix = Mix::default();
    let ducked = mix.spawn_sound(TestSound::World, at(0.0, 0.0));
    mix.sounds[ducked].ducks = true;
    let clear = mix.spawn_sound(TestSound::World, at(0.0, 0.0));

    mix.duck.trigger();
    // Enough fixed steps (~15.6ms each) to bottom the 40ms attack out.
    mix.update_n(5);

    let ducked_gain = f(mix.duck.ducked_gain);
    assert!((mix.volume_of(ducked) - ducked_gain).abs() < 1e-6);
    assert!((mix.volume_of(clear) - 1.0).abs() < 1e-6);
}

#[test]
fn speed_interpolates_geometrically() {
    // Two octaves down at the centre: half influence is one octave, not the
    // linear midpoint 0.625.
    let damper = field(10.0, 1.0, OPEN, 0.25);
    let damping = damping_at(&damper, at(5.0, 0.0));
    assert!(
        (f(damping.speed) - 0.5).abs() < 1e-6,
        "half influence over two octaves should be one octave, got {}",
        f(damping.speed)
    );

    // A non-positive authored speed is clamped, never zero or negative.
    let broken = field(10.0, 1.0, OPEN, -3.0);
    assert!(f(damping_at(&broken, at(0.0, 0.0)).speed) > 0.0);
}

#[test]
fn a_sound_outside_every_field_keeps_its_spawn_volume() {
    let mut mix = Mix::default();
    // A field alive elsewhere makes the system touch every dampable sound;
    // ones it does not reach must keep their exact spawn volume.
    mix.fields
        .push((at(500.0, 0.0), field(10.0, 0.0, 400.0, 1.0)));
    let sound = mix.spawn_sound_with_volume(TestSound::World, at(0.0, 0.0), 0.3);
    mix.update_n(2);
    assert!((mix.volume_of(sound) - 0.3).abs() < 1e-6);

    // Same for a duck the sound stands clear of.
    mix.duck.trigger();
    mix.update_n(5);
    assert!((mix.volume_of(sound) - 0.3).abs() < 1e-6);
}

#[test]
fn a_sound_without_a_baseline_reads_as_full() {
    let mut mix = Mix::default();
    mix.fields.push((at(0.0, 0.0), field(10.0, 0.25, 400.0, 1.0)));
    // A hand-spawned sound with no baseline is documented to read as `1.0`, so
    // the field scales the bare category volume.
    let sound = mix.spawn_sound(TestSound::World, at(0.0, 0.0));
    mix.sounds[sound].base_volume = None;
    mix.update_n(2);
    assert!((mix.volume_of(sound) - 0.25).abs() < 1e-6);
}

#[test]
fn a_per_sound_volume_survives_a_damp_and_release_cycle() {
    let mut mix = Mix::default();
    mix.fields.push((at(0.0, 0.0), field(10.0, 0.25, 400.0, 1.0)));
    let sound = mix.spawn_sound_with_volume(TestSound::World, at(0.0, 0.0), 0.3);
    mix.update_n(2);
    assert!(
        (mix.volume_of(sound) - 0.3 * 0.25).abs() < 1e-6,
        "the field scales the sound's own volume, not the bare category"
    );

    // The field collapses: the release pass recomputes the product with both
    // damping factors back at unity.
    mix.fields[0].1.radius = s(0.0);
    mix.update_n(2);
    assert!((mix.volume_of(sound) - 0.3).abs() < 1e-6);
}

#[test]
fn the_duck_scales_the_spawn_volume_and_releases_it() {
    let mut mix = Mix::default();
    let sound = mix.spawn_sound_with_volume(TestSound::World, at(0.0, 0.0), 0.3);
    mix.sounds[sound].ducks = true;

    mix.duck.trigger();
    mix.update_n(5);
    let ducked_gain = f(mix.duck.ducked_gain);
    assert!((mix.volume_of(sound) - 0.3 * ducked_gain).abs() < 1e-6);

    // Ride the whole hold and release out; the restore pass returns the exact
    // spawn volume.
    mix.update_n(60);
    assert!(mix.duck.is_idle());
    assert!((mix.volume_of(sound) - 0.3).abs() < 1e-6);
}

#[test]
fn a_fade_owns_only_the_volume_axis() {
    let mut mix = Mix::default();
    mix.fields.push((at(0.0, 0.0), field(10.0, 0.25, 400.0, 0.5)));
    // No fade systems run here, so the sound is mid-fade for the whole test.
    let sound = mix.spawn_sound(TestSound::World, at(0.0, 0.0));
    mix.sounds[sound].base_volume = None;
    mix.sounds[sound].effects = Some(Effects {
        volume: Some(Volume::Linear(s(0.8))),
        cutoff_hz: Some(Single::from_bits(OPEN_CUTOFF_HZ)),
        ready: false,
    });
    mix.sounds[sound].base_pitch = Some(BasePitch(s(1.0)));
    mix.sounds[sound].settings = Some(settings());
    mix.sounds[sound].fade_out =
        Some(FadeOutAudio::new(Duration::from_secs(60)).keep_entity());
    mix.update_n(2);

    // The fade keeps the volume node; filter and pitch still damp.
    assert!((mix.volume_of(sound) - 0.8).abs() < 1e-6);
    assert!((mix.cutoff_of(sound) - 400.0).abs() < 1e-3);
    assert!((mix.speed_of(sound) - 0.5).abs() < 1e-6);

    // The field collapses mid-fade: the restore pass must still reopen the
    // filter and unbend the pitch.
    mix.fields[0].1.radius = s(0.0);
    mix.update_n(2);
    assert!((mix.cutoff_of(sound) - OPEN).abs() < 1e-3);
    assert!((mix.speed_of(sound) - 1.0).abs() < 1e-6);
    assert!((mix.volume_of(sound) - 0.8).abs() < 1e-6);
}

#[test]
fn base_pitch_is_bent_by_the_field() {
    let mut mix = Mix::default();
    mix.fields.push((at(0.0, 0.0), field(10.0, 1.0, OPEN, 0.5)));
    let sound = mix.spawn_sound(TestSound::World, at(0.0, 0.0));
    mix.sounds[sound].base_pitch = Some(BasePitch(s(2.0)));
    mix.sounds[sound].settings = Some(settings());
    mix.update_n(2);

    let speed = mix.speed_of(sound);
    assert!(
        (speed - 1.0).abs() < 1e-6,
        "2.0 base pitch bent by the 0.5 field should land at 1.0, got {speed}"
    );

    // A sound without a base pitch is never pitch-bent.
    let unbent = mix.spawn_sound(TestSound::World, at(0.0, 0.0));
    mix.sounds[unbent].settings = Some(settings());
    mix.update_n(2);
    assert!((mix.speed_of(unbent) - 1.0).abs() < 1e-6);
}

#[test]
fn an_idle_mix_is_not_written_at_all() {
    let mut mix = Mix::default();
    let sound = mix.spawn_sound_with_volume(TestSound::World, at(0.0, 0.0), 0.3);
    // Written past the baseline by hand; with nothing alive nobody corrects it.
    mix.sounds[sound].effects = Some(Effects {
        volume: Some(Volume::Linear(s(0.9))),
        cutoff_hz: None,
        ready: false,
    });
    mix.update_n(3);
    assert!((mix.volume_of(sound) - 0.9).abs() < 1e-6);
    assert!(!mix.was_active);
}

#[test]
fn the_release_pass_agrees_with_the_config_write() {
    let mut mix = Mix::default();
    mix.fields.push((at(0.0, 0.0), field(10.0, 0.25, 400.0, 1.0)));
    let sound = mix.spawn_sound_with_volume(TestSound::World, at(0.0, 0.0), 0.3);
    mix.update_n(2);
    mix.fields.clear();
    mix.update_n(1);
    let released = mix.volume_of(sound);
    update_category_volumes(&TestConfig, &mut mix.sounds);
    assert_eq!(released.to_bits(), mix.volume_of(sound).to_bits());
}

#[test]
fn a_field_measures_itself_against_its_nearest_listener() {
    let mut mix = Mix::default();
    mix.fields.push((
        at(100.0, 0.0),
        SoundDampingField {
            targets: DampingTargets::Listeners,
            ..field(10.0, 0.5, OPEN, 1.0)
        },
    ));
    mix.listeners = vec![at(0.0, 0.0), at(100.0, 0.0)];
    let sound = mix.spawn_sound(TestSound::World, at(-500.0, 0.0));
    let music = mix.spawn_sound(TestSound::World, at(0.0, 0.0));
    mix.sounds[music].position = None;
    mix.update_n(1);
    assert!((mix.volume_of(sound) - 0.5).abs() < 1e-6);
    assert!((mix.volume_of(music) - 0.5).abs() < 1e-6);
}

#[test]
fn equally_near_listeners_resolve_by_their_order() {
    let listeners = [at(0.0, 3.0), at(3.0, 0.0), at(0.0, -3.0)];
    assert_eq!(
        nearest_listener(&listeners, at(0.0, 0.0)),
        Some(at(0.0, 3.0))
    );
}

#[test]
fn no_field_amplifies() {
    for volume in [f32::NAN, f32::INFINITY, -4.0, 0.0, 0.4, 1.0, 7.0] {
        let damper = field(10.0, volume, 400.0, 0.8);
        for x in [0.0, 1.0, 2.5, 5.0, 9.0, 9.999, 10.0, 11.0] {
            let damping = damping_at(&damper, at(x, 0.0));
            let left = f(damping.volume);
            assert!((0.0..=1.0).contains(&left), "{volume} at {x}: {left}");
            assert!(f(damping.cutoff_hz) <= OPEN);
        }
    }
}

#[test]
fn the_default_damping_leaves_a_sound_alone() {
    let damping = SoundDamping::default();
    assert!(damping.is_none());
    assert_eq!(damping, SoundDamping::none());
    assert_eq!(f(damping.volume), 1.0);
    assert_eq!(f(damping.cutoff_hz), OPEN);
    assert_eq!(f(damping.speed), 1.0);
}

#[test]
fn an_exact_taper() {
    // A quarter of the way out: 1 - t*t*(3 - 2t) with t = 0.25 is 0.84375.
    let damper = field(8.0, 0.5, OPEN, 1.0);
    assert_eq!(damper.influence(s(2.0)), s(0.84375));
    let damping = damping_at(&damper, at(2.0, 0.0));
    assert_eq!(damping.volume, s(1.0 + (0.5 - 1.0) * 0.84375));
}

// ==================== What holds of every field ====================

/// Fields around the origin, some of them overlapping, and their centres.
fn cluster() -> Vec<(Vec2, SoundDampingField)> {
    vec![
        (at(0.0, 0.0), field(10.0, 0.2, 900.0, 0.5)),
        (at(3.0, 0.0), field(8.0, 0.7, 300.0, 2.0)),
        (at(-4.0, 1.0), field(6.0, 0.9, 12_000.0, 1.3)),
        (at(50.0, 0.0), field(5.0, 0.0, 100.0, 0.1)),
        (
            at(1.0, 1.0),
            SoundDampingField {
                targets: DampingTargets::Listeners,
                ..field(4.0, 0.5, 800.0, 0.75)
            },
        ),
    ]
}

fn paired(fields: &[(Vec2, SoundDampingField)], listener: Option<Vec2>) -> Vec<ActiveField<'_>> {
    fields
        .iter()
        .map(|(centre, field)| ActiveField::new(*centre, field, listener))
        .collect()
}

fn bend(damping: SoundDamping) -> f32 {
    (f(damping.speed) - 1.0).abs()
}

#[test]
fn repeating_the_fields_changes_nothing() {
    let fields = cluster();
    for listener in [None, Some(at(1.0, 2.0)), Some(far())] {
        let once = paired(&fields, listener);
        let twice = [once.clone(), once.clone()].concat();
        for x in -12..12 {
            let position = at(x as f32, 0.5);
            assert_eq!(
                SoundDamping::resolve(&twice, position, &power),
                SoundDamping::resolve(&once, position, &power)
            );
        }
        assert_eq!(
            SoundDamping::resolve_positionless(&twice, &power),
            SoundDamping::resolve_positionless(&once, &power)
        );
    }
}

#[test]
fn reordering_the_fields_changes_no_axis() {
    let fields = cluster();
    let forward = paired(&fields, Some(at(1.0, 2.0)));
    let mut backward = forward.clone();
    backward.reverse();
    for x in -12..12 {
        let position = at(x as f32, 0.5);
        let a = SoundDamping::resolve(&forward, position, &power);
        let b = SoundDamping::resolve(&backward, position, &power);
        assert_eq!(a.volume, b.volume);
        assert_eq!(a.cutoff_hz, b.cutoff_hz);
        assert_eq!(bend(a), bend(b));
    }
}

#[test]
fn a_further_field_only_strengthens() {
    let fields = cluster();
    let all = paired(&fields, Some(at(1.0, 2.0)));
    for x in -12..12 {
        let position = at(x as f32, 0.5);
        for n in 0..all.len() {
            let without = SoundDamping::resolve(&all[..n], position, &power);
            let with_it = SoundDamping::resolve(&all[..=n], position, &power);
            assert!(f(with_it.volume) <= f(without.volume));
            assert!(f(with_it.cutoff_hz) <= f(without.cutoff_hz));
            assert!(bend(with_it) >= bend(without));
        }
    }
}

#[test]
fn no_place_is_a_place_outside() {
    let fields = cluster();
    for listener in [None, Some(at(1.0, 2.0)), Some(at(3.0, -2.0)), Some(far())] {
        let active = paired(&fields, listener);
        let positionless = SoundDamping::resolve_positionless(&active, &power);
        for outside in [at(0.0, 200.0), at(-300.0, 4.0), far()] {
            assert_eq!(SoundDamping::resolve(&active, outside, &power), positionless);
        }
    }
    let active = paired(&fields, Some(at(1.0, 2.0)));
    assert!(!SoundDamping::resolve_positionless(&active, &power).is_none());
}

#[test]
fn influence_falls_from_full_to_none_and_mirrors() {
    for radius in [1e-40, 1e-3, 0.7, 10.0, 12_345.6, 1e38] {
        let field = field(radius, 0.0, 500.0, 0.8);
        let mut nearer = 1.0;
        for step in 0..=2000 {
            let distance = radius * (step as f32 / 2000.0);
            let influence = f(field.influence(s(distance)));
            assert!((0.0..=1.0).contains(&influence));
            assert!(influence.is_sign_positive());
            assert!(influence - nearer < 1e-6, "{radius} {step}");
            nearer = influence;
            let mirrored = f(field.influence(s(radius - distance)));
            assert!((influence + mirrored - 1.0).abs() < 1e-6, "{radius} {step}");
        }
        assert_eq!(field.influence(s(radius)), s(0.0));
        assert_eq!(field.influence(s(f32::INFINITY)), s(0.0));
    }
    assert_eq!(field(-3.0, 0.0, 500.0, 0.8).influence(s(0.0)), s(0.0));
    assert!(field(1.0, 0.0, 500.0, 0.8).influence(s(f32::NAN)).is_nan());
}

#[test]
fn the_nearest_listener_is_the_first_of_the_least() {
    let listeners = [at(9.0, 0.0), at(0.0, 3.0), at(3.0, 0.0), at(-3.0, 0.0)];
    assert_eq!(nearest_listener(&listeners, at(0.0, 0.0)), Some(at(0.0, 3.0)));
    assert_eq!(nearest_listener(&listeners[2..], at(0.0, 0.0)), Some(at(3.0, 0.0)));
    // What is no distance at all is farther than every distance.
    let lost = [at(f32::NAN, 0.0), at(1e30, 0.0)];
    assert_eq!(nearest_listener(&lost, at(0.0, 0.0)), Some(at(1e30, 0.0)));
}
