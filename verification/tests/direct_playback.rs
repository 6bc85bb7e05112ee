//! Configuration, requests and the systems of the direct playback path.

use msg_seedling::baseline::{BasePitch, BaseVolume};
use msg_seedling::fade::{FadeInAudio, FadeOutAudio};
use msg_seedling::geometry::{Vec2, Vec3};
use msg_seedling::handlers::{handle_fade_audio, handle_play_audio, handle_stop_audio};
use msg_seedling::messages::{FadeAudio, PlayAudio, SampleId, SpatialPosition, StopAudio};
use msg_seedling::mix_fade::{MixFadeState, MixLevel};
use msg_seedling::plugin::MsgSeedlingPlugin;
use msg_seedling::randomization::{
    deviate, resolve_randomization, DefaultRandomization, Randomization,
};
use msg_seedling::single::Single;
use msg_seedling::sound::{Effects, OnComplete, Placement, Player, Pool, Sound, Volume};
use msg_seedling::time::Duration;
use msg_seedling::traits::{AudioCategory, AudioConfig};
use msg_seedling::volume::{update_category_volumes, update_master_volume};
use rand::rngs::SmallRng;
use rand::{Rng, SeedableRng};

fn s(x: f32) -> Single {
    Single::from_bits(x.to_bits())
}

fn f(x: Single) -> f32 {
    f32::from_bits(x.to_bits())
}

fn draw(rng: &mut SmallRng) -> impl FnOnce(Single, Single) -> Single + '_ {
    |low, high| s(rng.random_range(f(low)..=f(high)))
}

// -- Test types --

#[derive(Clone, Copy, Debug, PartialEq, Eq)]
enum TestSound {
    Music,
    Sfx,
    Ambience,
}

#[derive(Clone, Default)]
struct TestConfig {
    master: f32,
    music: f32,
    sfx: f32,
    ambience: f32,
    muted: bool,
}

impl AudioConfig for TestConfig {
    fn master_volume(&self) -> Single {
        s(self.master)
    }

    fn is_muted(&self) -> bool {
        self.muted
    }
}

impl AudioCategory for TestSound {
    type Config = TestConfig;

    fn volume(&self, config: &TestConfig) -> Single {
        match self {
            TestSound::Music => s(config.music),
            TestSound::Sfx => s(config.sfx),
            TestSound::Ambience => s(config.ambience),
        }
    }
}

fn handle() -> SampleId {
    SampleId { kind: 0, number: 0 }
}

// -- AudioConfig trait tests --

#[test]
fn effective_volume_when_not_muted() {
    let config = TestConfig {
        master: 0.8,
        muted: false,
        ..Default::default()
    };
    assert!((f(config.effective_volume()) - 0.8).abs() < f32::EPSILON);
}

#[test]
fn effective_volume_when_muted() {
    let config = TestConfig {
        master: 0.8,
        muted: true,
        ..Default::default()
    };
    assert!((f(config.effective_volume()) - 0.0).abs() < f32::EPSILON);
}

#[derive(Clone, Default)]
struct SimpleConfig;

impl AudioConfig for SimpleConfig {
    fn master_volume(&self) -> Single {
        s(0.5)
    }
}

#[test]
fn default_is_muted_returns_false() {
    let config = SimpleConfig;
    assert!(!config.is_muted());
    assert!((f(config.effective_volume()) - 0.5).abs() < f32::EPSILON);
}

#[test]
fn master_volume_independent_of_mute() {
    let config = TestConfig {
        master: 0.75,
        muted: true,
        ..Default::default()
    };
    assert!((f(config.master_volume()) - 0.75).abs() < f32::EPSILON);
    assert!((f(config.effective_volume()) - 0.0).abs() < f32::EPSILON);
}

// -- AudioCategory trait tests --

#[test]
fn category_volume_multiplier() {
    let config = TestConfig {
        master: 0.8,
        music: 0.5,
        sfx: 0.75,
        ambience: 0.3,
        muted: false,
    };

    assert!((f(TestSound::Music.volume(&config)) - 0.5).abs() < f32::EPSILON);
    assert!((f(TestSound::Sfx.volume(&config)) - 0.75).abs() < f32::EPSILON);
    assert!((f(TestSound::Ambience.volume(&config)) - 0.3).abs() < f32::EPSILON);
}

#[test]
fn categories_are_dampable_by_default() {
    assert!(TestSound::Sfx.is_dampable());
}

// -- Randomization tests --

fn defaults(volume: Option<f32>, speed: Option<f32>) -> DefaultRandomization {
    DefaultRandomization {
        volume: volume.map(s),
        speed: speed.map(s),
    }
}

#[test]
fn randomization_debug() {
    let r = Randomization::Volume(s(0.5));
    let debug = format!("{r:?}");
    assert!(debug.contains("Volume"));
    // Numbers print as their bits.
    assert!(debug.contains(&0.5f32.to_bits().to_string()));
}

#[test]
fn randomization_default_uses_plugin_defaults() {
    let defaults = defaults(Some(0.2), Some(0.3));
    let (vol, spd) = resolve_randomization(Randomization::Default, &defaults);
    assert_eq!(vol, Some(s(0.2)));
    assert_eq!(spd, Some(s(0.3)));
}

#[test]
fn randomization_volume_overrides_volume_keeps_speed_default() {
    let defaults = defaults(Some(0.2), Some(0.3));
    let (vol, spd) = resolve_randomization(Randomization::Volume(s(0.5)), &defaults);
    assert_eq!(vol, Some(s(0.5)));
    assert_eq!(spd, Some(s(0.3)));
}

#[test]
fn randomization_speed_overrides_speed_keeps_volume_default() {
    let defaults = defaults(Some(0.2), Some(0.3));
    let (vol, spd) = resolve_randomization(Randomization::Speed(s(0.1)), &defaults);
    assert_eq!(vol, Some(s(0.2)));
    assert_eq!(spd, Some(s(0.1)));
}

#[test]
fn randomization_volume_and_speed_overrides_both() {
    let defaults = defaults(Some(0.2), Some(0.3));
    let (vol, spd) = resolve_randomization(
        Randomization::VolumeAndSpeed {
            volume: s(0.4),
            speed: s(0.6),
        },
        &defaults,
    );
    assert_eq!(vol, Some(s(0.4)));
    assert_eq!(spd, Some(s(0.6)));
}

#[test]
fn randomization_with_none_defaults() {
    let defaults = defaults(None, None);
    let (vol, spd) = resolve_randomization(Randomization::Default, &defaults);
    assert_eq!(vol, None);
    assert_eq!(spd, None);
}

#[test]
fn deviate_returns_the_centre_without_a_deviation() {
    let mut rng = SmallRng::seed_from_u64(7);
    assert_eq!(deviate(s(0.6), None, draw(&mut rng)), s(0.6));
    assert_eq!(deviate(s(0.6), Some(s(0.0)), draw(&mut rng)), s(0.6));
    assert_eq!(deviate(s(0.6), Some(s(f32::NAN)), draw(&mut rng)), s(0.6));
}

#[test]
fn deviate_stays_inside_its_band_and_never_goes_negative() {
    let mut rng = SmallRng::seed_from_u64(11);
    for _ in 0..64 {
        let drawn = f(deviate(s(0.5), Some(s(0.2)), draw(&mut rng)));
        assert!(
            (0.4..=0.6).contains(&drawn),
            "a ±20% draw around 0.5 escaped its band: {drawn}"
        );
    }
    // A deviation wider than 1.0 floors at zero rather than flipping sign.
    for _ in 0..64 {
        let drawn = f(deviate(s(0.5), Some(s(3.0)), draw(&mut rng)));
        assert!((0.0..=2.0).contains(&drawn), "wide draw escaped: {drawn}");
    }
}

#[test]
fn deviate_around_zero_has_nothing_to_draw() {
    let mut rng = SmallRng::seed_from_u64(13);
    assert_eq!(deviate(s(0.0), Some(s(0.5)), draw(&mut rng)), s(0.0));
}

#[test]
fn deviate_draws_from_its_band() {
    let seen = core::cell::Cell::new((s(0.0), s(0.0)));
    let drawn = deviate(s(0.5), Some(s(0.25)), |low, high| {
        seen.set((low, high));
        high
    });
    assert_eq!(seen.get(), (s(0.375), s(0.625)));
    assert_eq!(drawn, s(0.625));

    // The widest possible spread is from zero to twice the centre.
    deviate(s(0.5), Some(s(3.0)), |low, high| {
        seen.set((low, high));
        low
    });
    assert_eq!(seen.get(), (s(0.0), s(1.0)));

    // An unrandomized axis never consumes a draw.
    deviate(s(0.5), Some(s(-1.0)), |_, _| unreachable!("no draw"));
    deviate(s(0.5), Some(s(f32::INFINITY)), |_, _| unreachable!("no draw"));
    deviate(s(0.5), None, |_, _| unreachable!("no draw"));
}

#[test]
fn bands_stay_between_zero_and_twice_the_centre() {
    for centre in [0.0f32, 1e-40, 0.3, 1.0, 7.5, 1e30] {
        for deviation in [1e-9f32, 0.2, 0.5, 1.0, 1.5, 1e20] {
            deviate(s(centre), Some(s(deviation)), |low, high| {
                assert!(0.0 <= f(low) && f(low) <= centre, "{centre} {deviation}");
                assert!(
                    centre <= f(high) && f(high) <= 2.0 * centre,
                    "{centre} {deviation}"
                );
                low
            });
        }
    }
}

#[test]
fn default_randomization_resource_defaults() {
    let defaults = DefaultRandomization::default();
    assert_eq!(defaults.volume, Some(s(0.2)));
    assert_eq!(defaults.speed, Some(s(0.2)));
}

// -- SpatialPosition tests --

#[test]
fn spatial_position_from_vec2() {
    let pos = SpatialPosition::from(Vec2::new(s(1.0), s(2.0)));
    let v3 = pos.as_vec3();
    assert!((f(v3.x) - 1.0).abs() < f32::EPSILON);
    assert!((f(v3.y) - 2.0).abs() < f32::EPSILON);
    assert!((f(v3.z) - 0.0).abs() < f32::EPSILON);
}

#[test]
fn spatial_position_from_vec3() {
    let pos = SpatialPosition::from(Vec3::new(s(1.0), s(2.0), s(3.0)));
    let v3 = pos.as_vec3();
    assert!((f(v3.x) - 1.0).abs() < f32::EPSILON);
    assert!((f(v3.y) - 2.0).abs() < f32::EPSILON);
    assert!((f(v3.z) - 3.0).abs() < f32::EPSILON);
}

// -- PlayAudio builder tests --

#[test]
fn play_audio_defaults() {
    let msg = PlayAudio::new(handle(), TestSound::Sfx);
    assert_eq!(msg.category, TestSound::Sfx);
    assert!(!msg.looping);
    assert!(msg.parent.is_none());
    assert!(msg.position.is_none());
    assert!((f(msg.volume) - 1.0).abs() < f32::EPSILON);
    assert!(matches!(msg.randomization, Randomization::Default));
}

#[test]
fn play_audio_looping() {
    let msg = PlayAudio::new(handle(), TestSound::Music).looping();
    assert!(msg.looping);
}

#[test]
fn play_audio_with_parent() {
    let entity = 42;
    let msg = PlayAudio::new(handle(), TestSound::Sfx).with_parent(entity);
    assert_eq!(msg.parent, Some(entity));
}

#[test]
fn play_audio_at_vec2() {
    let msg = PlayAudio::new(handle(), TestSound::Sfx).at(Vec2::new(s(10.0), s(20.0)));
    assert!(msg.position.is_some());
    let v3 = msg.position.unwrap().as_vec3();
    assert!((f(v3.x) - 10.0).abs() < f32::EPSILON);
    assert!((f(v3.y) - 20.0).abs() < f32::EPSILON);
}

#[test]
fn play_audio_at_vec3() {
    let msg = PlayAudio::new(handle(), TestSound::Sfx).at(Vec3::new(s(1.0), s(2.0), s(3.0)));
    assert!(msg.position.is_some());
    let v3 = msg.position.unwrap().as_vec3();
    assert!((f(v3.z) - 3.0).abs() < f32::EPSILON);
}

#[test]
fn play_audio_with_volume() {
    let msg = PlayAudio::new(handle(), TestSound::Sfx).with_volume(s(0.5));
    assert!((f(msg.volume) - 0.5).abs() < f32::EPSILON);
}

#[test]
fn play_audio_randomized() {
    let msg =
        PlayAudio::new(handle(), TestSound::Sfx).randomized(Randomization::Volume(s(0.3)));
    assert!(
        matches!(msg.randomization, Randomization::Volume(v) if (f(v) - 0.3).abs() < f32::EPSILON)
    );
}

#[test]
fn play_audio_builder_chaining() {
    let entity = 1;
    let msg = PlayAudio::new(handle(), TestSound::Music)
        .looping()
        .with_volume(s(0.8))
        .with_parent(entity)
        .randomized(Randomization::Speed(s(0.1)));

    assert!(msg.looping);
    assert!((f(msg.volume) - 0.8).abs() < f32::EPSILON);
    assert_eq!(msg.parent, Some(entity));
    assert!(
        matches!(msg.randomization, Randomization::Speed(v) if (f(v) - 0.1).abs() < f32::EPSILON)
    );
}

// -- StopAudio tests --

#[test]
fn stop_audio_category() {
    let msg = StopAudio::category(TestSound::Music);
    assert_eq!(msg.category, Some(TestSound::Music));
}

#[test]
fn stop_audio_all() {
    let msg = StopAudio::<TestSound>::all();
    assert!(msg.category.is_none());
}

// -- FadeAudio tests --

#[test]
fn fade_audio_new() {
    let msg = FadeAudio::new(TestSound::Music, s(2.5));
    assert_eq!(msg.category, TestSound::Music);
    assert!((f(msg.duration_secs) - 2.5).abs() < f32::EPSILON);
}

// -- Plugin settings --

#[test]
fn plugin_inserts_default_randomization() {
    let plugin = MsgSeedlingPlugin::<TestSound>::default();
    let defaults = plugin.default_randomization;
    assert_eq!(defaults.volume, Some(s(0.2)));
    assert_eq!(defaults.speed, Some(s(0.2)));
}

#[test]
fn plugin_custom_randomization() {
    let plugin = MsgSeedlingPlugin::<TestSound>::new()
        .with_default_randomization(defaults(Some(0.1), None));
    let defaults = plugin.default_randomization;
    assert_eq!(defaults.volume, Some(s(0.1)));
    assert_eq!(defaults.speed, None);
}

#[test]
fn plugin_settings_are_kept() {
    let scale = Vec3::new(s(0.01), s(0.01), s(0.01));
    let plugin = MsgSeedlingPlugin::<TestSound>::new().with_spatial_scale(scale);
    assert_eq!(plugin.spatial_scale, Some(scale));
    let follow = plugin.device_follow.expect("following is on by default");
    assert_eq!(follow.poll_interval, Duration::from_secs(1));
    let plugin = plugin.without_device_follow();
    assert!(plugin.device_follow.is_none());
    let plugin = plugin.with_device_follow(follow);
    assert!(plugin.device_follow.is_some());
}

// -- Spawn-time baselines --

fn play_config() -> TestConfig {
    TestConfig {
        sfx: 0.8,
        ..Default::default()
    }
}

fn play(msg: PlayAudio<TestSound>) -> Sound<TestSound> {
    let mut volume_rng = SmallRng::seed_from_u64(3);
    let mut speed_rng = SmallRng::seed_from_u64(5);
    handle_play_audio(
        9,
        &msg,
        &DefaultRandomization::default(),
        &play_config(),
        draw(&mut volume_rng),
        draw(&mut speed_rng),
    )
}

/// Everything a request resolves.
fn spawned(sound: &Sound<TestSound>) -> (BaseVolume, BasePitch, f64, f32) {
    (
        sound.base_volume.expect("a base volume"),
        sound.base_pitch.expect("a base pitch"),
        f64::from(f(sound.settings.expect("playback settings").speed)),
        node_volume(sound),
    )
}

fn node_volume(sound: &Sound<TestSound>) -> f32 {
    match sound.effects.and_then(|effects| effects.volume) {
        Some(Volume::Linear(volume)) => f(volume),
        other => panic!("expected a linear volume node, got {other:?}"),
    }
}

fn exact() -> Randomization {
    Randomization::VolumeAndSpeed {
        volume: s(0.0),
        speed: s(0.0),
    }
}

#[test]
fn a_request_records_its_own_volume_and_seeds_the_node_with_it() {
    let sound = play(
        PlayAudio::new(handle(), TestSound::Sfx)
            .with_volume(s(0.5))
            .randomized(exact()),
    );

    let (base, pitch, speed, node_volume) = spawned(&sound);
    assert_eq!(
        base,
        BaseVolume(s(0.5)),
        "the request's own level is recorded"
    );
    assert_eq!(pitch, BasePitch(s(1.0)));
    assert!((speed - 1.0).abs() < f64::EPSILON);
    assert!(
        (node_volume - 0.4).abs() < f32::EPSILON,
        "the node is seeded with category × base, got {node_volume}"
    );
}

#[test]
fn randomization_lands_in_the_baselines_rather_than_only_the_node() {
    let sound = play(PlayAudio::new(handle(), TestSound::Sfx).randomized(
        Randomization::VolumeAndSpeed {
            volume: s(0.2),
            speed: s(0.2),
        },
    ));

    let (base, pitch, speed, node_volume) = spawned(&sound);
    let (base, pitch) = (f(base.0), f(pitch.0));
    assert!(
        (0.8..=1.2).contains(&base),
        "the drawn volume is the baseline, got {base}"
    );
    assert!(
        (0.8..=1.2).contains(&pitch),
        "the drawn speed is the baseline, got {pitch}"
    );
    assert!(
        (speed - f64::from(pitch)).abs() < 1e-9,
        "playback speed starts at the pitch baseline, so a damping field \
         has something to bend from"
    );
    assert!((node_volume - 0.8 * base).abs() < 1e-6);
}

#[test]
fn a_hostile_request_volume_silences_rather_than_poisoning_the_mix() {
    let sound = play(
        PlayAudio::new(handle(), TestSound::Sfx)
            .with_volume(s(f32::NAN))
            .randomized(exact()),
    );

    let (base, _, _, node_volume) = spawned(&sound);
    assert_eq!(base, BaseVolume::silent());
    assert_eq!(node_volume, 0.0);
}

#[test]
fn requests_with_a_place_are_spatial() {
    let flat = play(PlayAudio::new(handle(), TestSound::Sfx));
    assert_eq!(flat.pool, Some(Pool::Default));
    assert_eq!(flat.placement, Placement::Nowhere);
    assert_eq!(
        flat.settings.map(|settings| settings.on_complete),
        Some(OnComplete::Despawn)
    );
    assert_eq!(
        flat.player,
        Some(Player {
            sample: handle(),
            looping: false
        })
    );

    let here = Vec2::new(s(1.0), s(2.0));
    let placed = play(PlayAudio::new(handle(), TestSound::Sfx).at(here).looping());
    assert_eq!(placed.pool, Some(Pool::Spatial));
    assert_eq!(
        placed.placement,
        Placement::At(Vec3::new(s(1.0), s(2.0), s(0.0)))
    );
    assert!(placed.player.is_some_and(|player| player.looping));

    // A parent wins over a position.
    let child = play(
        PlayAudio::new(handle(), TestSound::Sfx)
            .at(here)
            .with_parent(7),
    );
    assert_eq!(child.pool, Some(Pool::Spatial));
    assert_eq!(child.placement, Placement::Under(7));
}

// -- Stop requests --

fn playing(category: Option<TestSound>, player: bool) -> Sound<TestSound> {
    Sound {
        category,
        player: player.then_some(Player {
            sample: handle(),
            looping: false,
        }),
        ..Sound::bare(1)
    }
}

#[test]
fn stops_reach_their_category_or_everything_that_plays() {
    let sounds = vec![
        playing(Some(TestSound::Sfx), true),
        playing(Some(TestSound::Music), true),
        playing(Some(TestSound::Sfx), false),
        playing(None, true),
        playing(None, false),
    ];

    let mut stopped = sounds.clone();
    handle_stop_audio(&[StopAudio::category(TestSound::Sfx)], &mut stopped);
    let gone: Vec<bool> = stopped.iter().map(|sound| sound.despawned).collect();
    assert_eq!(gone, [true, false, true, false, false]);

    let mut stopped = sounds.clone();
    handle_stop_audio(&[StopAudio::<TestSound>::all()], &mut stopped);
    let gone: Vec<bool> = stopped.iter().map(|sound| sound.despawned).collect();
    assert_eq!(gone, [true, true, false, true, false]);

    let mut stopped = sounds.clone();
    handle_stop_audio(&[], &mut stopped);
    assert!(stopped.iter().all(|sound| !sound.despawned));
}

// -- Category volume update tests --

fn sample() -> Sound<TestSound> {
    Sound {
        category: Some(TestSound::Sfx),
        effects: Some(Effects {
            volume: Some(Volume::Linear(s(0.4))),
            cutoff_hz: None,
            ready: false,
        }),
        ..Sound::bare(1)
    }
}

fn config_with_sfx(sfx: f32) -> TestConfig {
    TestConfig {
        sfx,
        ..Default::default()
    }
}

#[test]
fn config_change_updates_steady_samples() {
    let mut sounds = vec![sample()];
    update_category_volumes(&config_with_sfx(0.9), &mut sounds);
    assert!((node_volume(&sounds[0]) - 0.9).abs() < f32::EPSILON);
}

#[test]
fn config_change_leaves_fading_samples_untouched() {
    let fading_out = Sound {
        fade_out: Some(FadeOutAudio::new(Duration::from_secs(1)).keep_entity()),
        ..sample()
    };
    let fading_in = Sound {
        fade_in: Some(FadeInAudio::new(Duration::from_secs(1), s(1.0))),
        ..sample()
    };
    let mut sounds = vec![fading_out, fading_in, sample()];

    update_category_volumes(&config_with_sfx(0.9), &mut sounds);

    // The fades own their volume nodes; only the steady sample follows the
    // config change.
    assert!((node_volume(&sounds[0]) - 0.4).abs() < f32::EPSILON);
    assert!((node_volume(&sounds[1]) - 0.4).abs() < f32::EPSILON);
    assert!((node_volume(&sounds[2]) - 0.9).abs() < f32::EPSILON);
}

#[test]
fn a_config_change_keeps_each_sound_s_own_level() {
    // Two sounds of one category at different levels.
    let quiet = Sound {
        base_volume: Some(BaseVolume(s(0.25))),
        ..sample()
    };
    let full = Sound {
        base_volume: Some(BaseVolume(s(1.0))),
        ..sample()
    };
    let mut sounds = vec![quiet, full];

    update_category_volumes(&config_with_sfx(0.8), &mut sounds);

    assert!(
        (node_volume(&sounds[0]) - 0.2).abs() < f32::EPSILON,
        "the config change scales the sound's own level, it does not replace it"
    );
    assert!((node_volume(&sounds[1]) - 0.8).abs() < f32::EPSILON);
}

#[test]
fn a_sound_without_a_baseline_still_follows_the_category() {
    let mut sounds = vec![sample()];
    update_category_volumes(&config_with_sfx(0.9), &mut sounds);
    // Documented fallback: no base volume reads as `1.0`.
    assert!((node_volume(&sounds[0]) - 0.9).abs() < f32::EPSILON);
}

#[test]
fn a_faded_out_sound_is_not_revived_by_a_config_change() {
    let mut sounds = vec![Sound {
        base_volume: Some(BaseVolume::silent()),
        ..sample()
    }];
    update_category_volumes(&config_with_sfx(0.9), &mut sounds);
    assert_eq!(
        node_volume(&sounds[0]),
        0.0,
        "a volume-slider change must not bring a faded-out sound back"
    );
}

#[test]
fn a_config_change_leaves_self_driven_volumes_to_their_owner() {
    let mut sounds = vec![Sound {
        self_driven_volume: true,
        ..sample()
    }];
    update_category_volumes(&config_with_sfx(0.9), &mut sounds);
    assert!((node_volume(&sounds[0]) - 0.4).abs() < f32::EPSILON);
}

#[test]
fn fade_audio_message_attaches_a_keep_entity_fade() {
    let other = Sound {
        category: Some(TestSound::Music),
        ..sample()
    };
    let mut sounds = vec![sample(), other];

    handle_fade_audio(&[FadeAudio::new(TestSound::Sfx, s(1.0))], &mut sounds);

    let fade = sounds[0].fade_out.expect("matching sample fades out");
    assert!(!fade.despawn_on_complete, "the entity outlives the fade");
    assert_eq!(fade.duration, Duration::from_secs(1));
    assert!(
        sounds[1].fade_out.is_none(),
        "other categories are left alone"
    );

    // While the fade holds the node, config rewrites stand down.
    update_category_volumes(&config_with_sfx(0.9), &mut sounds);
    assert!((node_volume(&sounds[0]) - 0.4).abs() < f32::EPSILON);
}

#[test]
fn a_hostile_fade_duration_counts_as_none() {
    for secs in [-1.0, f32::NAN, f32::INFINITY, 1e30] {
        let mut sounds = vec![sample()];
        handle_fade_audio(&[FadeAudio::new(TestSound::Sfx, s(secs))], &mut sounds);
        let fade = sounds[0].fade_out.expect("the sample fades out");
        assert_eq!(fade.duration, Duration::zero());
    }
}

#[test]
fn the_last_fade_request_wins() {
    let mut sounds = vec![sample()];
    handle_fade_audio(
        &[
            FadeAudio::new(TestSound::Sfx, s(1.0)),
            FadeAudio::new(TestSound::Music, s(5.0)),
            FadeAudio::new(TestSound::Sfx, s(2.0)),
        ],
        &mut sounds,
    );
    let fade = sounds[0].fade_out.expect("the sample fades out");
    assert_eq!(fade.duration, Duration::from_secs(2));
}

// -- Master volume and the mix fade --

fn master_config(master: f32) -> TestConfig {
    TestConfig {
        master,
        ..Default::default()
    }
}

#[test]
fn a_config_change_reaches_the_master_bus_at_full() {
    let state = MixFadeState::default();
    let mut bus = Volume::Linear(s(1.0));
    update_master_volume::<TestSound>(&master_config(0.4), Some(&state), &mut bus);
    assert_eq!(bus, Volume::Linear(s(0.4)));

    // Without a mix fade there is nothing to stand down for.
    update_master_volume::<TestSound>(&master_config(0.3), None, &mut bus);
    assert_eq!(bus, Volume::Linear(s(0.3)));
}

#[test]
fn a_config_change_does_not_snap_a_faded_out_mix() {
    let mut bus = Volume::Linear(s(1.0));
    // The mix is pointed at silence (faded out, or still fading).
    let mut state = MixFadeState {
        target: MixLevel::Silent,
    };
    update_master_volume::<TestSound>(&master_config(0.4), Some(&state), &mut bus);
    assert_eq!(
        bus,
        Volume::Linear(s(1.0)),
        "the engaged fade owns the bus"
    );

    // Pointed back at full, config changes land again.
    state.target = MixLevel::Full;
    update_master_volume::<TestSound>(&master_config(0.4), Some(&state), &mut bus);
    assert_eq!(bus, Volume::Linear(s(0.4)));
}

// -- Randomization enum coverage --

#[test]
fn randomization_default_variant() {
    let r = Randomization::default();
    assert!(matches!(r, Randomization::Default));
}

#[test]
fn randomization_clone_copy() {
    let r = Randomization::VolumeAndSpeed {
        volume: s(0.1),
        speed: s(0.2),
    };
    let r2 = r;
    let r3 = r;
    assert!(
        matches!(r2, Randomization::VolumeAndSpeed { volume, speed } if (f(volume) - 0.1).abs() < f32::EPSILON && (f(speed) - 0.2).abs() < f32::EPSILON)
    );
    assert!(
        matches!(r3, Randomization::VolumeAndSpeed { volume, speed } if (f(volume) - 0.1).abs() < f32::EPSILON && (f(speed) - 0.2).abs() < f32::EPSILON)
    );
}

// -- Seconds --

#[test]
fn seconds_round_to_the_nearest_nanosecond() {
    for secs in [
        0.0f32, -0.0, 1.0, 2.5, 0.1, 1e-9, 0.4e-9, 0.6e-9, 1.5e-9, 2.5e-9, 0.999e-9, 123456.79,
        1e10, 1.8e19, 1e-38, 1e-45,
    ] {
        let ours = Duration::try_from_secs(s(secs)).map(|d| d.nanos);
        let theirs = core::time::Duration::try_from_secs_f32(secs)
            .ok()
            .map(|d| d.as_nanos());
        assert_eq!(ours, theirs, "{secs:e}");
    }
    // Exactly half a nanosecond too much: the even one of the two neighbours.
    let tie = Single::from_bits(0x3A80_0000);
    assert_eq!(Duration::try_from_secs(tie).map(|d| d.nanos), Some(976_562));
    let tie = Single::from_bits(0x3B40_0000);
    assert_eq!(
        Duration::try_from_secs(tie).map(|d| d.nanos),
        Some(2_929_688)
    );
    for secs in [-1.0, -1e-45, f32::NAN, f32::INFINITY, 2e19] {
        assert_eq!(Duration::try_from_secs(s(secs)), None, "{secs:e}");
    }
}
