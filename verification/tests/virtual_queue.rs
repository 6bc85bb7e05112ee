//! The significance-ranked virtual voice queue.

use std::collections::HashMap;

use msg_seedling::baseline::{BasePitch, BaseVolume};
use msg_seedling::damping::apply_sound_damping;
use msg_seedling::ducking::{tick_ducking_envelope, DuckingEnvelope};
use msg_seedling::fade::{fade_in_audio_system, fade_out_audio_system, FadeOutAudio};
use msg_seedling::geometry::{Vec2, Vec3};
use msg_seedling::messages::SampleId;
use msg_seedling::single::Single;
use msg_seedling::sound::{Effects, OnComplete, Placement, Player, Pool, Sound, Volume};
use msg_seedling::time::Duration;
use msg_seedling::traits::{AudioCategory, AudioConfig};
use msg_seedling::virtual_queue::admission::{
    AdmissionGate, AdmissionRejection, AdmissionRequest, AdmissionState, PRUNE_THRESHOLD,
};
use msg_seedling::virtual_queue::displacement::{
    displacement_target, DisplacementCandidate, DEFAULT_DISPLACEMENT_MARGIN,
};
use msg_seedling::virtual_queue::lifecycle::{
    default_route, demote, finish_demotions, handle_stop_queued_audio, reclaim_lost_voices,
    release_voice,
};
use msg_seedling::virtual_queue::ranking::{
    rank_by_significance, SignificanceEntry, VoiceDecision,
};
use msg_seedling::virtual_queue::requests::{
    enqueue_queued_audio, PlayQueuedAudio, StopQueuedAudio, VirtualVoiceBudget,
};
use msg_seedling::virtual_queue::voices::rank_virtual_voices;
use msg_seedling::virtual_queue::VirtualSound;
use msg_seedling::volume::update_category_volumes;

fn s(x: f32) -> Single {
    Single::from_bits(x.to_bits())
}

fn f(x: Single) -> f32 {
    f32::from_bits(x.to_bits())
}

fn at(x: f32, y: f32) -> Vec2 {
    Vec2::new(s(x), s(y))
}

#[derive(Clone, Copy, Debug, PartialEq, Eq)]
enum TestSound {
    Sfx,
    Ambience,
}

#[derive(Clone)]
struct TestConfig {
    sfx: f32,
    ambience: f32,
}

impl Default for TestConfig {
    fn default() -> Self {
        Self {
            sfx: 1.0,
            ambience: 1.0,
        }
    }
}

impl AudioConfig for TestConfig {
    fn master_volume(&self) -> Single {
        s(1.0)
    }
}

impl AudioCategory for TestSound {
    type Config = TestConfig;

    fn volume(&self, config: &TestConfig) -> Single {
        match self {
            TestSound::Sfx => s(config.sfx),
            TestSound::Ambience => s(config.ambience),
        }
    }
}

/// One step of the fixed clock, in nanoseconds.
const STEP_NANOS: u128 = 15_625_000;

/// A queue of one category type, driven frame by frame.
struct Queue<C: AudioCategory> {
    budget: VirtualVoiceBudget<C>,
    config: C::Config,
    admission: AdmissionState<C>,
    sounds: Vec<Sound<C>>,
    listeners: Vec<Vec2>,
    parents: Vec<u64>,
    now: Duration,
    next_entity: u64,
    plays: Vec<PlayQueuedAudio<C>>,
    stops: Vec<StopQueuedAudio<C>>,
    /// The pool a host routes every promotion into.
    host_pool: Option<u64>,
}

impl<C: AudioCategory> Queue<C> {
    fn new(budget: VirtualVoiceBudget<C>) -> Self {
        Queue {
            budget,
            config: C::Config::default(),
            admission: AdmissionState::default(),
            sounds: Vec::new(),
            listeners: Vec::new(),
            parents: Vec::new(),
            now: Duration::zero(),
            next_entity: 0,
            plays: Vec::new(),
            stops: Vec::new(),
            host_pool: None,
        }
    }

    fn play(&mut self, msg: PlayQueuedAudio<C>) {
        self.plays.push(msg);
    }

    fn stop(&mut self, msg: StopQueuedAudio<C>) {
        self.stops.push(msg);
    }

    fn spawn(&mut self, sound: Sound<C>) -> u64 {
        let entity = self.next_entity;
        self.next_entity += 1;
        self.sounds.push(Sound { entity, ..sound });
        entity
    }

    fn update(&mut self) {
        let delta = Duration { nanos: STEP_NANOS };
        self.now = self.now.plus(delta);
        for sound in &mut self.sounds {
            let parent = sound.queued.and_then(|entry| entry.parent);
            sound.orphaned = parent.is_some_and(|parent| !self.parents.contains(&parent));
        }

        fade_out_audio_system(&mut self.sounds, delta);
        fade_in_audio_system(&mut self.sounds);
        self.sounds.retain(|sound| !sound.despawned);

        let spawned = enqueue_queued_audio(
            &self.plays,
            &self.budget,
            &mut self.admission,
            &self.sounds,
            &self.listeners,
            self.now,
        );
        reclaim_lost_voices(&mut self.sounds);
        finish_demotions(&mut self.sounds);
        handle_stop_queued_audio(&self.stops, &self.budget, &mut self.sounds);
        self.plays.clear();
        self.stops.clear();
        for entry in spawned {
            let orphaned = entry
                .parent
                .is_some_and(|parent| !self.parents.contains(&parent));
            self.spawn(Sound {
                queued: Some(entry),
                orphaned,
                ..Sound::bare(0)
            });
        }
        self.sounds.retain(|sound| !sound.despawned);

        let host_pool = self.host_pool;
        let route = |entry: VirtualSound<C>| match host_pool {
            Some(label) => Pool::Host(label),
            None => default_route(entry),
        };
        rank_virtual_voices(
            &self.config,
            &self.budget,
            &route,
            self.now,
            &mut self.sounds,
        );
        self.sounds.retain(|sound| !sound.despawned);
    }

    fn update_n(&mut self, n: usize) {
        for _ in 0..n {
            self.update();
        }
    }

    fn get(&self, entity: u64) -> Option<&Sound<C>> {
        self.sounds.iter().find(|sound| sound.entity == entity)
    }

    fn get_mut(&mut self, entity: u64) -> &mut Sound<C> {
        self.sounds
            .iter_mut()
            .find(|sound| sound.entity == entity)
            .expect("the entity is there")
    }

    fn audible(&self, entity: u64) -> bool {
        self.get(entity).is_some_and(|sound| sound.audible)
    }

    fn retiring(&self, entity: u64) -> bool {
        self.get(entity).is_some_and(|sound| sound.retiring)
    }

    fn entries(&self) -> Vec<VirtualSound<C>> {
        self.sounds.iter().filter_map(|sound| sound.queued).collect()
    }

    fn handles(&self) -> Vec<SampleId> {
        self.entries().iter().map(VirtualSound::handle).collect()
    }

    fn audible_sounds(&self) -> Vec<&Sound<C>> {
        self.sounds.iter().filter(|sound| sound.audible).collect()
    }

    /// The one audible voice.
    fn voice(&self) -> u64 {
        let audible = self.audible_sounds();
        assert_eq!(audible.len(), 1, "expected one audible voice");
        audible[0].entity
    }
}

fn queue(budget: VirtualVoiceBudget<TestSound>) -> Queue<TestSound> {
    Queue::new(budget)
}

fn handle(id: u128) -> SampleId {
    SampleId {
        kind: 1,
        number: id,
    }
}

fn default_handle() -> SampleId {
    SampleId { kind: 0, number: 0 }
}

fn entry(id: u64, significance: f32, audible: bool) -> SignificanceEntry {
    SignificanceEntry {
        entity: id,
        significance: s(significance),
        audible,
    }
}

fn decide(
    entries: &[SignificanceEntry],
    max_audible: usize,
    retiring: usize,
) -> HashMap<u64, VoiceDecision> {
    rank_by_significance(entries, max_audible, retiring)
        .into_iter()
        .collect()
}

// ==================== Ranking ====================

#[test]
fn top_n_by_significance_are_promoted() {
    let entries = [
        entry(0, 1.0, false),
        entry(1, 0.5, false),
        entry(2, 0.8, false),
    ];
    let decisions = decide(&entries, 2, 0);

    assert_eq!(decisions[&0], VoiceDecision::Promote);
    assert_eq!(decisions[&2], VoiceDecision::Promote);
    assert_eq!(decisions[&1], VoiceDecision::Hold);
}

#[test]
fn a_more_significant_newcomer_demotes_the_weakest_audible() {
    let entries = [
        entry(0, 0.9, true),  // audible, mid
        entry(1, 0.2, true),  // audible, weakest
        entry(2, 1.0, false), // new, most significant
    ];
    let decisions = decide(&entries, 2, 0);

    assert_eq!(decisions[&2], VoiceDecision::Promote);
    assert_eq!(decisions[&0], VoiceDecision::Hold);
    assert_eq!(decisions[&1], VoiceDecision::Demote);
}

#[test]
fn a_less_significant_newcomer_does_not_disturb_playing_voices() {
    let entries = [
        entry(0, 0.9, true),
        entry(1, 0.7, true),
        entry(2, 0.1, false), // new, weakest
    ];
    let decisions = decide(&entries, 2, 0);

    assert_eq!(decisions[&0], VoiceDecision::Hold);
    assert_eq!(decisions[&1], VoiceDecision::Hold);
    assert_eq!(decisions[&2], VoiceDecision::Hold);
}

#[test]
fn retiring_voices_reserve_their_slot_until_gone() {
    // Budget of 2, but one voice is already retiring (mid fade-out): only one
    // new promotion should fit until it's gone.
    let entries = [entry(0, 1.0, false), entry(1, 0.9, false)];
    let decisions = decide(&entries, 2, 1);

    assert_eq!(decisions[&0], VoiceDecision::Promote);
    assert_eq!(decisions[&1], VoiceDecision::Hold);
}

#[test]
fn retiring_voices_never_evict_audible_holds() {
    // Budget 2: A=1.0 and B=0.9 audible when a louder C=1.1 arrives.
    // Frame 1: C displaces B (the weakest), crossfading past it.
    let decisions = decide(
        &[
            entry(0, 1.0, true),
            entry(1, 0.9, true),
            entry(2, 1.1, false),
        ],
        2,
        0,
    );
    assert_eq!(decisions[&0], VoiceDecision::Hold);
    assert_eq!(decisions[&1], VoiceDecision::Demote);
    assert_eq!(decisions[&2], VoiceDecision::Promote);

    // Frames 2+: B is retiring (excluded from entries). However many retiring
    // voices linger mid-fade, A and C keep their voices: the reservation
    // throttles promotions only, never evicts audible holds.
    for retiring in 1..=2 {
        let decisions = decide(&[entry(0, 1.0, true), entry(2, 1.1, true)], 2, retiring);
        assert_eq!(decisions[&0], VoiceDecision::Hold, "retiring={retiring}");
        assert_eq!(decisions[&2], VoiceDecision::Hold, "retiring={retiring}");
    }
}

#[test]
fn ties_resolve_by_input_order() {
    let entries = [
        entry(0, 0.5, false),
        entry(1, 0.5, false),
        entry(2, 0.5, false),
    ];
    let decisions = decide(&entries, 2, 0);

    assert_eq!(decisions[&0], VoiceDecision::Promote);
    assert_eq!(decisions[&1], VoiceDecision::Promote);
    assert_eq!(decisions[&2], VoiceDecision::Hold);
}

#[test]
fn zero_budget_holds_or_demotes_everything() {
    let entries = [entry(0, 1.0, true), entry(1, 0.5, false)];
    let decisions = decide(&entries, 0, 0);

    assert_eq!(decisions[&0], VoiceDecision::Demote);
    assert_eq!(decisions[&1], VoiceDecision::Hold);
}

#[test]
fn nan_significance_does_not_panic() {
    // The total order places NaN above every finite value; the queue's enqueue
    // path sanitizes weights so NaN never reaches ranking.
    let entries = [entry(0, f32::NAN, false), entry(1, 0.5, false)];
    let decisions = decide(&entries, 1, 0);

    assert_eq!(decisions[&0], VoiceDecision::Promote);
    assert_eq!(decisions[&1], VoiceDecision::Hold);
}

#[test]
fn decisions_are_returned_in_input_order() {
    let entries = [
        entry(7, 0.1, false),
        entry(3, 0.9, false),
        entry(5, 0.5, false),
    ];
    let decisions = rank_by_significance(&entries, 1, 0);

    let order: Vec<u64> = decisions.iter().map(|(entity, _)| *entity).collect();
    assert_eq!(order, vec![7, 3, 5]);
}

/// Ranks by sorting, the plain way.
fn rank_by_sorting(
    entries: &[SignificanceEntry],
    max_audible: usize,
    retiring: usize,
) -> Vec<VoiceDecision> {
    let mut order: Vec<usize> = (0..entries.len()).collect();
    order.sort_by(|&a, &b| {
        f(entries[b].significance).total_cmp(&f(entries[a].significance))
    });
    let (top, rest) = order.split_at(max_audible.min(order.len()));
    let mut decisions = vec![VoiceDecision::Hold; entries.len()];
    let mut in_flight = top.iter().filter(|&&i| entries[i].audible).count() + retiring;
    for &i in top {
        if !entries[i].audible && in_flight < max_audible {
            in_flight += 1;
            decisions[i] = VoiceDecision::Promote;
        }
    }
    for &i in rest {
        if entries[i].audible {
            decisions[i] = VoiceDecision::Demote;
        }
    }
    decisions
}

#[test]
fn ranking_agrees_with_sorting() {
    let levels = [0.0, -0.0, 0.5, 0.5, 1.0, f32::NAN, -1.0, f32::INFINITY];
    let mut seed: u64 = 17;
    let mut draw = |n: u64| {
        seed = seed.wrapping_mul(6364136223846793005).wrapping_add(1442695040888963407);
        (seed >> 33) % n
    };
    for _ in 0..400 {
        let n = draw(9);
        let entries: Vec<SignificanceEntry> = (0..n)
            .map(|id| entry(id, levels[draw(8) as usize], draw(2) == 0))
            .collect();
        let max_audible = draw(6) as usize;
        let retiring = draw(4) as usize;
        let ours: Vec<VoiceDecision> = rank_by_significance(&entries, max_audible, retiring)
            .into_iter()
            .map(|(_, decision)| decision)
            .collect();
        assert_eq!(
            ours,
            rank_by_sorting(&entries, max_audible, retiring),
            "{entries:?} {max_audible} {retiring}"
        );
    }
}

#[test]
fn a_huge_retiring_count_only_throttles() {
    let entries = [entry(0, 1.0, false), entry(1, 0.9, true)];
    let decisions = decide(&entries, usize::MAX, usize::MAX);
    assert_eq!(decisions[&0], VoiceDecision::Hold);
    assert_eq!(decisions[&1], VoiceDecision::Hold);
}

// ==================== Budget and requests ====================

#[test]
fn budget_builder_sets_all_fields() {
    let budget = VirtualVoiceBudget::<TestSound>::new(8)
        .with_crossfade(Duration::from_millis(30))
        .with_max_wait(Duration::from_millis(200))
        .with_sample_priority(5)
        .with_displacement_margin(s(2.0));

    assert_eq!(budget.max_audible, 8);
    assert_eq!(budget.crossfade, Duration::from_millis(30));
    assert_eq!(budget.max_wait, Duration::from_millis(200));
    assert_eq!(budget.sample_priority, 5);
    assert_eq!(budget.displacement_margin, s(2.0));
}

#[test]
fn budget_defaults() {
    let budget = VirtualVoiceBudget::<TestSound>::default();
    assert_eq!(budget.max_audible, 16);
    assert_eq!(budget.crossfade, Duration::from_millis(50));
    assert_eq!(budget.max_wait, Duration::from_millis(500));
    assert_eq!(budget.sample_priority, 2);
    assert_eq!(budget.max_admissions_per_frame, None);
    assert_eq!(budget.displacement_margin, s(1.25));
    assert_eq!(f32::from_bits(DEFAULT_DISPLACEMENT_MARGIN), 1.25);
}

#[test]
fn budget_builder_sanitizes_the_displacement_margin() {
    let below_one = VirtualVoiceBudget::<TestSound>::new(1).with_displacement_margin(s(0.5));
    assert_eq!(below_one.displacement_margin, s(1.0));

    let non_finite = VirtualVoiceBudget::<TestSound>::new(1).with_displacement_margin(s(f32::NAN));
    assert_eq!(non_finite.displacement_margin, s(1.0));
}

#[test]
fn play_queued_audio_defaults() {
    let msg = PlayQueuedAudio::new(default_handle(), TestSound::Sfx);
    assert!((f(msg.volume) - 1.0).abs() < f32::EPSILON);
    assert!((f(msg.priority) - 1.0).abs() < f32::EPSILON);
    assert!(!msg.looping);

    let msg = msg.with_priority(s(2.5)).with_volume(s(0.3)).looping();
    assert!((f(msg.priority) - 2.5).abs() < f32::EPSILON);
    assert!((f(msg.volume) - 0.3).abs() < f32::EPSILON);
    assert!(msg.looping);
}

#[test]
fn enqueue_sanitizes_non_finite_and_negative_weights() {
    let mut queue = queue(VirtualVoiceBudget::new(0));
    queue.play(
        PlayQueuedAudio::new(default_handle(), TestSound::Sfx)
            .with_volume(s(f32::NAN))
            .with_priority(s(-3.0)),
    );
    queue.update_n(1);

    let entries = queue.entries();
    assert_eq!(entries.len(), 1, "entry spawned");
    assert_eq!(entries[0].base_volume, s(0.0));
    assert_eq!(entries[0].priority, s(0.0));
}

// ==================== Lifecycle ====================

#[test]
fn promotion_carries_elevated_sample_priority_and_name() {
    let mut queue = queue(VirtualVoiceBudget::new(1).with_sample_priority(3));
    queue.play(PlayQueuedAudio::new(default_handle(), TestSound::Sfx).looping());
    queue.update_n(1);

    let voice = queue.get(queue.voice()).expect("promoted voice");
    assert_eq!(voice.priority, Some(3));
    assert!(matches!(
        voice.settings.expect("playback settings").on_complete,
        OnComplete::Remove
    ));
    // A voice is named after its category.
    assert_eq!(voice.category, Some(TestSound::Sfx));
}

#[test]
fn demoted_looping_entry_returns_to_virtual() {
    let mut queue = queue(VirtualVoiceBudget::new(1).with_crossfade(Duration::zero()));
    queue.play(
        PlayQueuedAudio::new(handle(1), TestSound::Sfx)
            .looping()
            .with_volume(s(0.5)),
    );
    queue.update_n(1);

    let quiet = queue.voice();
    assert!(queue.audible(quiet));

    // A louder loop displaces it.
    queue.play(PlayQueuedAudio::new(handle(2), TestSound::Sfx).looping());
    queue.update_n(1);
    assert!(!queue.audible(quiet));
    assert!(queue.retiring(quiet));
    let sound = queue.get(quiet).expect("still there");
    let fade = sound.fade_out.expect("fading out");
    assert!(!fade.despawn_on_complete);
    // The retiring fader drops to default priority so pool pressure steals it
    // before any live promoted voice.
    assert_eq!(sound.priority, Some(0));

    // Effects never resolve in tests, so completion waits out the grace; step
    // well past it.
    queue.update_n(60);
    let sound = queue.get(quiet).expect("loop entry survives");
    assert!(!sound.retiring);
    assert!(!sound.audible);
    assert!(sound.player.is_none());
    assert!(sound.queued.is_some());
}

#[test]
fn demoted_one_shot_despawns_after_its_fade() {
    let mut queue = queue(VirtualVoiceBudget::new(1).with_crossfade(Duration::zero()));
    queue.play(
        PlayQueuedAudio::new(handle(1), TestSound::Sfx)
            .looping()
            .with_volume(s(0.5)),
    );
    queue.update_n(1);
    // Swap looping/one-shot roles: demote a one-shot instead.
    let one_shot = queue.voice();
    let sound = queue.get_mut(one_shot);
    sound.queued = sound.queued.map(|entry| VirtualSound {
        looping: false,
        ..entry
    });

    queue.play(PlayQueuedAudio::new(handle(2), TestSound::Sfx).looping());
    queue.update_n(60);
    assert!(queue.get(one_shot).is_none(), "one-shot dropped");
}

#[test]
fn released_loop_is_repromoted_when_a_slot_frees_up() {
    let mut queue = queue(VirtualVoiceBudget::new(1).with_crossfade(Duration::zero()));
    queue.play(
        PlayQueuedAudio::new(handle(1), TestSound::Sfx)
            .looping()
            .with_volume(s(0.5)),
    );
    queue.play(PlayQueuedAudio::new(handle(2), TestSound::Sfx).looping());
    queue.update_n(1);

    let quiet: Vec<u64> = queue
        .sounds
        .iter()
        .filter(|sound| sound.queued.is_some() && !sound.audible)
        .map(|sound| sound.entity)
        .collect();
    assert_eq!(quiet.len(), 1, "quieter loop waits as virtual");
    let quiet = quiet[0];

    // Stop the loud loop; once its fade-out completes and its retiring slot
    // clears, the waiting loop is promoted.
    queue.stop(StopQueuedAudio::all().with_handle(handle(2)));
    queue.update_n(60);
    assert!(queue.audible(quiet));
}

fn lost_voice(looping: bool) -> Sound<TestSound> {
    Sound {
        queued: Some(VirtualSound {
            handle: default_handle(),
            category: TestSound::Sfx,
            looping,
            parent: None,
            position: None,
            base_volume: s(1.0),
            priority: s(1.0),
            requested_at: Duration::zero(),
        }),
        audible: true,
        ..Sound::bare(0)
    }
}

#[test]
fn reclaim_applies_policy_to_voices_seedling_ended() {
    // Budget 0 so a reclaimed loop is not immediately re-promoted.
    let mut queue = queue(VirtualVoiceBudget::new(0));
    // What is left when the sampler ended the voice: audible without a player.
    let looping = queue.spawn(lost_voice(true));
    let one_shot = queue.spawn(lost_voice(false));

    queue.update_n(1);
    assert!(queue.get(one_shot).is_none(), "one-shot dropped");
    assert!(queue.get(looping).is_some(), "loop kept");
    assert!(!queue.audible(looping));
}

#[derive(Clone, Copy, Debug, PartialEq, Eq)]
enum OtherSound {
    Music,
}

impl AudioCategory for OtherSound {
    type Config = TestConfig;

    fn volume(&self, _config: &TestConfig) -> Single {
        s(1.0)
    }
}

#[test]
fn retiring_entries_of_another_category_type_do_not_shrink_the_budget() {
    let mut queue = queue(VirtualVoiceBudget::new(1));
    let mut other: Queue<OtherSound> = Queue::new(VirtualVoiceBudget::new(1));

    // A retiring entry in the *other* category's queue.
    other.spawn(Sound {
        queued: Some(VirtualSound {
            handle: default_handle(),
            category: OtherSound::Music,
            looping: true,
            parent: None,
            position: None,
            base_volume: s(1.0),
            priority: s(1.0),
            requested_at: Duration::zero(),
        }),
        retiring: true,
        fade_out: Some(FadeOutAudio::new(Duration::from_secs(10)).keep_entity()),
        ..Sound::bare(0)
    });

    queue.play(PlayQueuedAudio::new(default_handle(), TestSound::Sfx).looping());
    queue.update_n(1);
    other.update_n(1);

    assert_eq!(
        queue.audible_sounds().len(),
        1,
        "TestSound promotion unaffected by OtherSound's retiring voice"
    );
}

#[test]
fn config_volume_changes_rerank_waiting_and_audible_entries() {
    let mut queue = queue(VirtualVoiceBudget::new(1).with_crossfade(Duration::zero()));
    queue.play(PlayQueuedAudio::new(handle(1), TestSound::Sfx).looping());
    queue.play(
        PlayQueuedAudio::new(handle(2), TestSound::Ambience)
            .looping()
            .with_volume(s(0.5)),
    );
    queue.update_n(1);

    let audible_first = queue.voice();
    let sound = queue.get(audible_first).expect("one audible voice");
    assert_eq!(sound.queued.unwrap().category(), TestSound::Sfx);

    // Boost ambience volume: the waiting entry now outranks the SFX one.
    queue.config.ambience = 10.0;
    queue.update_n(1);

    let audible: Vec<TestSound> = queue
        .audible_sounds()
        .iter()
        .filter_map(|sound| sound.queued)
        .map(|entry| entry.category())
        .collect();
    assert_eq!(audible, vec![TestSound::Ambience]);
    assert!(queue.retiring(audible_first));
}

#[test]
fn loops_are_exempt_from_max_wait() {
    let mut queue =
        queue(VirtualVoiceBudget::new(0).with_max_wait(Duration::from_millis(50)));
    queue.play(PlayQueuedAudio::new(handle(1), TestSound::Sfx).looping());
    queue.play(PlayQueuedAudio::new(handle(2), TestSound::Sfx));
    queue.update_n(10);

    let remaining: Vec<bool> = queue.entries().iter().map(VirtualSound::looping).collect();
    assert_eq!(remaining, vec![true], "one-shot dropped, loop waits on");
}

#[test]
fn entries_with_a_dead_parent_are_dropped() {
    let mut queue = queue(VirtualVoiceBudget::new(1));
    let parent = 1000;
    queue.parents.push(parent);
    queue.play(
        PlayQueuedAudio::new(default_handle(), TestSound::Sfx)
            .looping()
            .with_parent(parent),
    );
    queue.parents.clear();
    queue.update_n(1);

    assert_eq!(queue.entries().len(), 0);
}

#[test]
fn entries_with_a_live_parent_play_under_it() {
    let mut queue = queue(VirtualVoiceBudget::new(1));
    queue.parents.push(1000);
    queue.play(
        PlayQueuedAudio::new(handle(5), TestSound::Sfx)
            .looping()
            .at(at(1.0, 2.0))
            .with_parent(1000)
            .with_volume(s(0.25)),
    );
    queue.update_n(1);
    let voice = queue.get(queue.voice()).expect("promoted voice");
    assert_eq!(voice.placement, Placement::Under(1000));
    assert_eq!(voice.pool, Some(Pool::Spatial));
    assert_eq!(
        voice.player,
        Some(Player {
            sample: handle(5),
            looping: true
        })
    );
    let fade = voice.fade_in.expect("fading in");
    assert_eq!(fade.target_volume, s(0.25));
    assert_eq!(fade.duration, Duration::from_millis(50));
    assert_eq!(
        voice.effects.and_then(|effects| effects.volume),
        Some(Volume::silent())
    );

    // The parent goes, and the voice goes with it.
    queue.parents.clear();
    queue.update_n(1);
    assert_eq!(queue.entries().len(), 0);
}

#[test]
fn stop_queued_audio_despawns_virtual_and_fades_audible() {
    let mut queue = queue(VirtualVoiceBudget::new(1));
    queue.play(PlayQueuedAudio::new(handle(1), TestSound::Sfx).looping());
    queue.play(
        PlayQueuedAudio::new(handle(2), TestSound::Sfx)
            .looping()
            .with_volume(s(0.5)),
    );
    queue.update_n(1);

    queue.stop(StopQueuedAudio::category(TestSound::Sfx));
    queue.update_n(1);

    assert_eq!(queue.sounds.len(), 1, "only the audible entry remains");
    let fade = queue.sounds[0].fade_out.expect("fading out");
    assert!(fade.despawn_on_complete);

    queue.update_n(60);
    assert_eq!(queue.entries().len(), 0);
}

#[test]
fn newcomer_inside_the_displacement_margin_does_not_displace() {
    let mut queue = queue(VirtualVoiceBudget::new(1));
    queue.play(PlayQueuedAudio::new(handle(1), TestSound::Sfx).looping());
    queue.update_n(1);
    let incumbent = queue.voice();

    // 10% louder: inside the default 1.25 margin, so no churn.
    queue.play(
        PlayQueuedAudio::new(handle(2), TestSound::Sfx)
            .looping()
            .with_volume(s(1.1)),
    );
    queue.update_n(2);

    assert!(queue.audible(incumbent));
    assert!(!queue.retiring(incumbent));
}

#[test]
fn newcomer_beyond_the_displacement_margin_displaces() {
    let mut queue = queue(VirtualVoiceBudget::new(1));
    queue.play(PlayQueuedAudio::new(handle(1), TestSound::Sfx).looping());
    queue.update_n(1);
    let incumbent = queue.voice();

    // 30% louder: beats the default 1.25 margin.
    queue.play(
        PlayQueuedAudio::new(handle(2), TestSound::Sfx)
            .looping()
            .with_volume(s(1.3)),
    );
    queue.update_n(1);

    assert!(!queue.audible(incumbent));
    assert!(queue.retiring(incumbent));
}

#[test]
fn priority_decides_between_equally_loud_requests() {
    let mut queue = queue(VirtualVoiceBudget::new(1));
    queue.play(
        PlayQueuedAudio::new(handle(1), TestSound::Sfx)
            .looping()
            .with_volume(s(0.5)),
    );
    queue.play(
        PlayQueuedAudio::new(handle(2), TestSound::Sfx)
            .looping()
            .with_volume(s(0.5))
            .with_priority(s(2.0)),
    );
    queue.update_n(1);
    let voice = queue.get(queue.voice()).expect("promoted voice");
    assert_eq!(voice.queued.map(|entry| entry.handle()), Some(handle(2)));
}

#[test]
fn nan_config_volume_is_sanitized_before_ranking() {
    let mut queue = queue(VirtualVoiceBudget::new(1));
    queue.config.sfx = f32::NAN;
    queue.play(PlayQueuedAudio::new(handle(1), TestSound::Sfx).looping());
    queue.play(
        PlayQueuedAudio::new(handle(2), TestSound::Ambience)
            .looping()
            .with_volume(s(0.5)),
    );
    queue.update_n(1);

    // NaN significance would outrank everything in the total order; the
    // sanitized recompute ranks the NaN-config category at zero instead.
    let audible: Vec<TestSound> = queue
        .audible_sounds()
        .iter()
        .filter_map(|sound| sound.queued)
        .map(|entry| entry.category())
        .collect();
    assert_eq!(audible, vec![TestSound::Ambience]);
}

#[test]
fn stop_around_fade_completion_always_despawns() {
    // A stop arriving on the exact frame a keep-entity demotion fade completes
    // must not be lost to the fade's own self-removal: sweep stop delivery
    // across the completion window to cover it.
    for stop_after in (0..=40).step_by(2) {
        let mut queue = queue(VirtualVoiceBudget::new(1).with_crossfade(Duration::zero()));
        queue.play(PlayQueuedAudio::new(handle(1), TestSound::Sfx).looping());
        queue.update_n(1);
        // Loud enough to beat the displacement margin and demote the incumbent
        // into its keep-entity retiring fade.
        queue.play(
            PlayQueuedAudio::new(handle(2), TestSound::Sfx)
                .looping()
                .with_volume(s(2.0)),
        );
        queue.update_n(1);

        queue.update_n(stop_after);
        queue.stop(StopQueuedAudio::all().with_handle(handle(1)));
        queue.update_n(60);

        assert_eq!(queue.handles(), vec![handle(2)], "stop_after={stop_after}");
    }
}

#[test]
fn handed_over_fades_end_after_their_duration() {
    let mut queue = queue(VirtualVoiceBudget::new(1));
    queue.play(PlayQueuedAudio::new(handle(1), TestSound::Sfx).looping());
    queue.update_n(1);
    let voice = queue.voice();
    queue.get_mut(voice).effects = Some(Effects {
        volume: Some(Volume::silent()),
        cutoff_hz: None,
        ready: true,
    });
    queue.update_n(1);
    let sound = queue.get(voice).expect("the voice");
    assert!(sound.fade_in.is_none(), "handed to the audio thread");
    let ramp = sound.ramp.expect("a ramp to play");
    assert_eq!(ramp.to, Volume::Linear(s(1.0)));
    assert_eq!(ramp.duration, Duration::from_millis(50));

    // A stop hands a ramp to silence over, and the entry is gone 50 ms later:
    // one step to stop, one to hand over, four to elapse.
    queue.stop(StopQueuedAudio::all());
    queue.update_n(2);
    let ramp = queue.get(voice).and_then(|sound| sound.ramp);
    assert_eq!(ramp.map(|ramp| ramp.to), Some(Volume::silent()));
    queue.update_n(3);
    assert!(queue.get(voice).is_some());
    queue.update_n(1);
    assert!(queue.get(voice).is_none());
}

// ==================== Admission controls ====================

#[test]
fn global_per_frame_budget_caps_admissions() {
    let mut queue = queue(VirtualVoiceBudget::new(0).with_max_admissions_per_frame(1));
    for id in 1..=3 {
        queue.play(PlayQueuedAudio::new(handle(id), TestSound::Sfx).looping());
    }
    queue.update_n(1);
    assert_eq!(queue.entries().len(), 1, "two of three dropped this frame");

    // The cap is per frame, not cumulative.
    queue.play(PlayQueuedAudio::new(handle(4), TestSound::Sfx).looping());
    queue.update_n(1);
    assert_eq!(queue.entries().len(), 2);
}

#[test]
fn per_sound_per_frame_cap_only_limits_that_sample() {
    let mut queue = queue(VirtualVoiceBudget::new(0));
    for _ in 0..3 {
        queue.play(
            PlayQueuedAudio::new(handle(1), TestSound::Sfx)
                .looping()
                .with_max_per_frame(1),
        );
    }
    queue.play(PlayQueuedAudio::new(handle(2), TestSound::Sfx).looping());
    queue.update_n(1);

    let mut handles = queue.handles();
    handles.sort_by_key(|handle| handle.number);
    assert_eq!(handles, vec![handle(1), handle(2)]);
}

#[test]
fn max_concurrent_counts_live_entries_across_frames() {
    let mut queue = queue(VirtualVoiceBudget::new(0));
    let request = || {
        PlayQueuedAudio::new(handle(1), TestSound::Sfx)
            .looping()
            .with_max_concurrent(1)
    };

    // Two same-frame requests: the second already sees the first.
    queue.play(request());
    queue.play(request());
    queue.update_n(1);
    assert_eq!(queue.entries().len(), 1);

    // A later request still sees the live entry.
    queue.play(request());
    queue.update_n(1);
    assert_eq!(queue.entries().len(), 1);

    // Once the entry is gone, the next request is admitted again.
    queue.stop(StopQueuedAudio::all());
    queue.update_n(1);
    queue.play(request());
    queue.update_n(1);
    assert_eq!(queue.entries().len(), 1);
}

#[test]
fn min_repeat_interval_rejects_rapid_repeats() {
    let mut queue = queue(VirtualVoiceBudget::new(0));
    let request = || {
        PlayQueuedAudio::new(handle(1), TestSound::Sfx)
            .looping()
            .with_min_repeat_interval(Duration::from_millis(100))
    };

    queue.play(request());
    queue.update_n(1);
    // Immediately re-requested: inside the interval, dropped.
    queue.play(request());
    queue.update_n(1);
    assert_eq!(queue.entries().len(), 1);

    // Past the interval (fixed steps are ~15.6ms), admitted again.
    queue.update_n(8);
    queue.play(request());
    queue.update_n(1);
    assert_eq!(queue.entries().len(), 2);
}

#[test]
fn max_distance_culls_far_requests_when_a_listener_exists() {
    let mut queue = queue(VirtualVoiceBudget::new(0));
    queue.listeners.push(at(0.0, 0.0));

    let request = |id: u128, position: Vec2| {
        PlayQueuedAudio::new(handle(id), TestSound::Sfx)
            .looping()
            .at(position)
            .with_max_distance(s(100.0))
    };
    queue.play(request(1, at(50.0, 0.0)));
    queue.play(request(2, at(500.0, 0.0)));
    queue.update_n(1);

    assert_eq!(queue.handles(), vec![handle(1)], "the far request is culled");
}

#[test]
fn the_nearest_listener_decides_the_distance() {
    let mut queue = queue(VirtualVoiceBudget::new(0));
    queue.listeners = vec![at(1000.0, 0.0), at(3.0, 4.0), at(-1000.0, 0.0)];
    let request = |id: u128, max_distance: f32| {
        PlayQueuedAudio::new(handle(id), TestSound::Sfx)
            .looping()
            .at(Vec3::new(s(0.0), s(0.0), s(77.0)))
            .with_max_distance(s(max_distance))
    };
    // Exactly at the limit is near enough.
    queue.play(request(1, 5.0));
    queue.play(request(2, 4.999));
    queue.update_n(1);
    assert_eq!(queue.handles(), vec![handle(1)]);
}

#[test]
fn max_distance_never_culls_without_a_listener_or_position() {
    let mut queue = queue(VirtualVoiceBudget::new(0));

    // No listener in the world: nothing to measure from, nothing culled.
    queue.play(
        PlayQueuedAudio::new(handle(1), TestSound::Sfx)
            .looping()
            .at(at(5000.0, 0.0))
            .with_max_distance(s(10.0)),
    );
    // A positionless request has nowhere to be measured from either.
    queue.play(
        PlayQueuedAudio::new(handle(2), TestSound::Sfx)
            .looping()
            .with_max_distance(s(10.0)),
    );
    queue.update_n(1);
    assert_eq!(queue.entries().len(), 2);
}

#[test]
fn with_max_distance_sanitizes_hostile_values() {
    let nan = PlayQueuedAudio::new(handle(1), TestSound::Sfx).with_max_distance(s(f32::NAN));
    assert_eq!(nan.max_distance, None, "a non-finite distance never culls");

    let negative = PlayQueuedAudio::new(handle(1), TestSound::Sfx).with_max_distance(s(-5.0));
    assert_eq!(negative.max_distance, Some(s(0.0)));
}

#[test]
fn admission_bookkeeping_stays_bounded() {
    let mut queue = queue(VirtualVoiceBudget::new(0));

    // Interval-less admissions are not recorded at all.
    for id in 1..=8 {
        queue.play(PlayQueuedAudio::new(handle(id), TestSound::Sfx).looping());
    }
    queue.update_n(1);
    assert_eq!(queue.admission.recorded(), 0);

    // Recorded admissions past the prune threshold shed every entry too old to
    // block a request again.
    for id in 1..=80 {
        queue.play(
            PlayQueuedAudio::new(handle(id), TestSound::Sfx)
                .looping()
                .with_min_repeat_interval(Duration::from_millis(1)),
        );
    }
    queue.update_n(1);
    assert_eq!(queue.admission.recorded(), 80);

    // A frame later everything recorded is older than its interval; the next
    // recorded admission prunes the lot.
    queue.update_n(1);
    queue.play(
        PlayQueuedAudio::new(handle(1000), TestSound::Sfx)
            .looping()
            .with_min_repeat_interval(Duration::from_millis(1)),
    );
    queue.update_n(1);
    assert_eq!(queue.admission.recorded(), 1);
}

#[test]
fn a_config_change_keeps_a_promoted_entry_s_own_volume() {
    let mut queue = queue(VirtualVoiceBudget::new(1));
    queue.play(
        PlayQueuedAudio::new(handle(1), TestSound::Sfx)
            .looping()
            .with_volume(s(0.25)),
    );
    queue.update_n(1);

    let voice = queue.voice();
    assert_eq!(
        queue.get(voice).and_then(|sound| sound.base_volume),
        Some(BaseVolume(s(0.25))),
        "promotion records the entry's own level"
    );

    // Stand in for the promotion fade completing.
    queue.get_mut(voice).fade_in = None;

    // The config writes now reach this voice through its category.
    queue.config.sfx = 0.8;
    update_category_volumes(&queue.config, &mut queue.sounds);
    queue.update_n(1);

    let volume = linear_volume(queue.get(voice).expect("the voice"));
    assert!(
        (volume - 0.2).abs() < 1e-6,
        "a settings change scales the entry's own volume, it does not flatten \
         every promoted voice to the category level, got {volume}"
    );
}

fn linear_volume(sound: &Sound<TestSound>) -> f32 {
    match sound.effects.and_then(|effects| effects.volume) {
        Some(Volume::Linear(volume)) => f(volume),
        other => panic!("expected a linear volume node, got {other:?}"),
    }
}

#[test]
fn a_released_voice_sheds_its_baselines() {
    let mut queue = queue(VirtualVoiceBudget::new(1));
    queue.play(
        PlayQueuedAudio::new(handle(1), TestSound::Sfx)
            .looping()
            .with_volume(s(0.25)),
    );
    queue.update_n(1);
    let voice = queue.voice();
    assert_eq!(
        queue.get(voice).and_then(|sound| sound.base_pitch),
        Some(BasePitch(s(1.0)))
    );

    // Released without another update: a further frame would simply promote
    // the entry again, putting the baselines straight back.
    let sound = queue.get_mut(voice);
    *sound = release_voice(*sound);

    let sound = queue.get(voice).expect("entry survives");
    assert!(sound.base_volume.is_none());
    assert!(sound.base_pitch.is_none());
    assert!(
        (f(sound.queued.expect("still an entry").base_volume) - 0.25).abs() < 1e-6,
        "the entry's authored volume survives for the next promotion"
    );
    assert!(!sound.interrupted, "no sampler was playing it");
}

#[test]
fn releasing_a_playing_voice_interrupts_it() {
    let playing = Sound {
        sampling: true,
        ..lost_voice(true)
    };
    let released = release_voice(playing);
    assert!(released.interrupted);
    assert!(!released.sampling);
}

#[test]
fn promoted_voices_are_reached_by_ducking() {
    let mut queue = queue(VirtualVoiceBudget::new(1));
    queue.play(PlayQueuedAudio::new(handle(1), TestSound::Sfx).looping());
    queue.update_n(1);

    let voice = queue.voice();
    assert!(
        queue.get(voice).is_some_and(|sound| sound.category.is_some()),
        "promotion gives the voice its bare category"
    );

    // Stand in for the promotion fade completing by removing it and settling
    // the node at the fade's target.
    let sound = queue.get_mut(voice);
    sound.fade_in = None;
    sound.effects = Some(Effects {
        volume: Some(Volume::Linear(s(1.0))),
        cutoff_hz: None,
        ready: false,
    });

    sound.ducks = true;
    let mut duck = DuckingEnvelope::default();
    let mut was_active = false;
    duck.trigger();
    let power = |base: Single, exponent: Single| s(f(base).powf(f(exponent)));
    for _ in 0..5 {
        tick_ducking_envelope(s(0.015625), &mut duck);
        apply_sound_damping(
            &queue.config,
            &duck,
            &[],
            &[],
            &mut queue.sounds,
            &mut was_active,
            &power,
        );
        queue.update_n(1);
    }

    let ducked_gain = f(duck.ducked_gain);
    let volume = linear_volume(queue.get(voice).expect("the voice"));
    assert!(
        (volume - ducked_gain).abs() < 1e-6,
        "the promoted voice ducks with the envelope, got {volume}"
    );
}

#[test]
fn stop_queued_audio_handle_filter_stops_only_matching_entries() {
    let mut queue = queue(VirtualVoiceBudget::new(0));
    queue.play(PlayQueuedAudio::new(handle(1), TestSound::Sfx).looping());
    queue.play(PlayQueuedAudio::new(handle(2), TestSound::Sfx).looping());
    queue.update_n(1);

    queue.stop(StopQueuedAudio::all().with_handle(handle(1)));
    queue.update_n(1);

    assert_eq!(queue.handles(), vec![handle(2)]);
}

#[test]
fn stop_queued_audio_category_filter_stops_only_matching_entries() {
    let mut queue = queue(VirtualVoiceBudget::new(0));
    queue.play(PlayQueuedAudio::new(handle(1), TestSound::Sfx).looping());
    queue.play(PlayQueuedAudio::new(handle(2), TestSound::Ambience).looping());
    queue.update_n(1);

    queue.stop(StopQueuedAudio::category(TestSound::Sfx));
    queue.update_n(1);
    assert_eq!(queue.handles(), vec![handle(2)]);
}

#[test]
fn a_sound_requested_with_the_stop_plays_on() {
    let mut queue = queue(VirtualVoiceBudget::new(1));
    queue.play(PlayQueuedAudio::new(handle(1), TestSound::Sfx).looping());
    queue.stop(StopQueuedAudio::all());
    queue.update_n(1);
    assert_eq!(queue.audible_sounds().len(), 1);
}

// ==================== Pool-agnostic admission ====================

/// Admits with an empty environment: no live entries, no listener.
fn answer(
    gate: &mut AdmissionGate<'_, TestSound>,
    request: &AdmissionRequest,
) -> Result<(), AdmissionRejection> {
    gate.try_admit(request, || 0, |_| None)
}

#[test]
fn gate_frame_budget_caps_across_samples() {
    let mut state = AdmissionState::<TestSound>::default();
    let mut gate = AdmissionGate::new(&mut state, Some(2), Duration::zero());

    assert_eq!(answer(&mut gate, &AdmissionRequest::new(handle(1))), Ok(()));
    assert_eq!(answer(&mut gate, &AdmissionRequest::new(handle(2))), Ok(()));
    assert_eq!(
        answer(&mut gate, &AdmissionRequest::new(handle(3))),
        Err(AdmissionRejection::FrameBudgetSpent)
    );
    assert_eq!(gate.admitted(), 2);
}

#[test]
fn gate_per_frame_cap_is_per_sample() {
    let mut state = AdmissionState::<TestSound>::default();
    let mut gate = AdmissionGate::new(&mut state, None, Duration::zero());
    let capped = AdmissionRequest::new(handle(1)).with_max_per_frame(1);

    assert_eq!(answer(&mut gate, &capped), Ok(()));
    assert_eq!(
        answer(&mut gate, &capped),
        Err(AdmissionRejection::PerFrameCap)
    );
    // Another sample is untouched by the first one's cap.
    assert_eq!(
        answer(
            &mut gate,
            &AdmissionRequest::new(handle(2)).with_max_per_frame(1)
        ),
        Ok(())
    );
}

#[test]
fn gate_concurrent_cap_counts_live_plus_this_frame() {
    let mut state = AdmissionState::<TestSound>::default();
    let mut gate = AdmissionGate::new(&mut state, None, Duration::zero());
    let request = AdmissionRequest::new(handle(1)).with_max_concurrent(2);

    // One live from before this frame, none admitted yet: room for one.
    assert_eq!(gate.try_admit(&request, || 1, |_| None), Ok(()));
    // The first admission now counts toward the cap.
    assert_eq!(
        gate.try_admit(&request, || 1, |_| None),
        Err(AdmissionRejection::ConcurrentCap)
    );
}

#[test]
fn gate_repeat_interval_spans_frames_and_ignores_interval_less_admissions() {
    let mut state = AdmissionState::<TestSound>::default();
    let plain = AdmissionRequest::new(handle(1));
    let spaced =
        AdmissionRequest::new(handle(1)).with_min_repeat_interval(Duration::from_millis(100));

    let mut gate = AdmissionGate::new(&mut state, None, Duration::zero());
    // An interval-less admission does not start the clock...
    assert_eq!(answer(&mut gate, &plain), Ok(()));
    // ...so a spaced request right after it is still admitted.
    assert_eq!(answer(&mut gate, &spaced), Ok(()));

    // The next frame is inside the interval; a later one is past it.
    let mut gate = AdmissionGate::new(&mut state, None, Duration::from_millis(50));
    assert_eq!(
        answer(&mut gate, &spaced),
        Err(AdmissionRejection::RepeatTooSoon)
    );
    let mut gate = AdmissionGate::new(&mut state, None, Duration::from_millis(150));
    assert_eq!(answer(&mut gate, &spaced), Ok(()));
}

#[test]
fn gate_distance_culls_only_measurable_far_requests() {
    let mut state = AdmissionState::<TestSound>::default();
    let mut gate = AdmissionGate::new(&mut state, None, Duration::zero());
    let request = AdmissionRequest::new(handle(1))
        .at(at(500.0, 0.0))
        .with_max_distance(s(100.0));

    assert_eq!(
        gate.try_admit(&request, || 0, |position| Some(
            position.distance(at(0.0, 0.0))
        )),
        Err(AdmissionRejection::TooFar)
    );
    // No listener to measure against: never culled.
    assert_eq!(gate.try_admit(&request, || 0, |_| None), Ok(()));
    // A positionless request has nowhere to be measured from either.
    let positionless = AdmissionRequest::new(handle(2)).with_max_distance(s(100.0));
    assert_eq!(
        gate.try_admit(&positionless, || 0, |_| Some(s(f32::INFINITY))),
        Ok(())
    );
}

#[test]
fn gate_queries_the_environment_only_for_set_controls() {
    let mut state = AdmissionState::<TestSound>::default();
    let mut gate = AdmissionGate::new(&mut state, None, Duration::zero());
    let request = AdmissionRequest::new(handle(1));

    let admitted = gate.try_admit(
        &request,
        || unreachable!("no max_concurrent set"),
        |_| unreachable!("no max_distance set"),
    );
    assert_eq!(admitted, Ok(()));
}

#[test]
fn gate_counts_do_not_overflow() {
    let mut state = AdmissionState::<TestSound>::default();
    let mut gate = AdmissionGate::new(&mut state, None, Duration::zero());
    let request = AdmissionRequest::new(handle(1));
    assert_eq!(answer(&mut gate, &request), Ok(()));
    assert_eq!(
        gate.try_admit(&request.with_max_concurrent(usize::MAX), || usize::MAX, |_| None),
        Err(AdmissionRejection::ConcurrentCap)
    );
}

#[test]
fn gate_bookkeeping_outlives_the_gate() {
    let mut state = AdmissionState::<TestSound>::default();
    for id in 0..PRUNE_THRESHOLD as u128 {
        let mut gate = AdmissionGate::new(&mut state, None, Duration::zero());
        let request =
            AdmissionRequest::new(handle(id)).with_min_repeat_interval(Duration::from_secs(1));
        assert_eq!(answer(&mut gate, &request), Ok(()));
        assert_eq!(
            answer(&mut gate, &request),
            Err(AdmissionRejection::RepeatTooSoon)
        );
    }
    assert_eq!(state.recorded(), PRUNE_THRESHOLD);

    // At the threshold a sample that is on record is recorded again without
    // dropping the others; a new one drops all that are a second old.
    let later = Duration::from_secs(1);
    let again = AdmissionRequest::new(handle(0)).with_min_repeat_interval(Duration::from_secs(1));
    let mut gate = AdmissionGate::new(&mut state, None, later);
    assert_eq!(answer(&mut gate, &again), Ok(()));
    assert_eq!(state.recorded(), PRUNE_THRESHOLD);
    let fresh =
        AdmissionRequest::new(handle(7777)).with_min_repeat_interval(Duration::from_millis(1));
    let mut gate = AdmissionGate::new(&mut state, None, later);
    assert_eq!(answer(&mut gate, &fresh), Ok(()));
    assert_eq!(state.recorded(), 2);
    // The one recorded again was kept, and still blocks.
    let mut gate = AdmissionGate::new(&mut state, None, later);
    assert_eq!(
        answer(&mut gate, &again),
        Err(AdmissionRejection::RepeatTooSoon)
    );
}

#[test]
fn admission_request_mirrors_the_message_controls() {
    let msg = PlayQueuedAudio::new(handle(1), TestSound::Sfx)
        .at(at(3.0, 4.0))
        .with_max_concurrent(4)
        .with_max_per_frame(2)
        .with_min_repeat_interval(Duration::from_millis(40))
        .with_max_distance(s(1200.0));
    let request = msg.admission_request();

    assert_eq!(request.sample, handle(1));
    assert_eq!(request.position, Some(at(3.0, 4.0)));
    assert_eq!(request.max_concurrent, Some(4));
    assert_eq!(request.max_per_frame, Some(2));
    assert_eq!(request.min_repeat_interval, Some(Duration::from_millis(40)));
    assert_eq!(request.max_distance, Some(s(1200.0)));
}

// ==================== Displacement query ====================

#[test]
fn displacement_picks_the_weakest_beyond_the_margin() {
    let candidates = [
        DisplacementCandidate::new(0, s(1.0)),
        DisplacementCandidate::new(1, s(0.5)),
    ];

    // Inside the margin over the weakest: no displacement.
    assert_eq!(
        displacement_target(&candidates, &(), s(0.6), s(1.25)),
        None
    );
    // Beyond it: the weakest goes, not the loud one.
    assert_eq!(
        displacement_target(&candidates, &(), s(0.7), s(1.25)),
        Some(1)
    );
}

#[test]
fn displacement_of_nothing_is_none() {
    let candidates: [DisplacementCandidate; 0] = [];
    assert_eq!(displacement_target(&candidates, &(), s(10.0), s(1.0)), None);
}

#[derive(Clone, Copy, PartialEq, Eq, PartialOrd, Ord)]
enum Tier {
    Low,
    Normal,
    Critical,
}

#[test]
fn displacement_tier_gate_beats_any_significance() {
    let candidates = [
        DisplacementCandidate::new(0, s(100.0)).with_tier(Tier::Low),
        DisplacementCandidate::new(1, s(0.1)).with_tier(Tier::Critical),
    ];

    // The weakest is the loud Low voice, not the quiet Critical one, and a
    // higher-tier newcomer takes it however quiet the newcomer is.
    assert_eq!(
        displacement_target(&candidates, &Tier::Critical, s(0.05), s(1.25)),
        Some(0)
    );
    assert_eq!(
        displacement_target(&candidates, &Tier::Normal, s(0.0), s(1.25)),
        Some(0)
    );

    // And a lower tier never displaces a higher one, however loud.
    let critical_only = [DisplacementCandidate::new(1, s(0.1)).with_tier(Tier::Critical)];
    assert_eq!(
        displacement_target(&critical_only, &Tier::Low, s(1000.0), s(1.0)),
        None
    );
}

#[test]
fn displacement_same_tier_uses_the_margin() {
    let candidates = [DisplacementCandidate::new(0, s(1.0)).with_tier(1u8)];

    assert_eq!(
        displacement_target(&candidates, &1u8, s(1.2), s(1.25)),
        None
    );
    assert_eq!(
        displacement_target(&candidates, &1u8, s(1.3), s(1.25)),
        Some(0)
    );
}

#[test]
fn displacement_margin_is_sanitized() {
    let candidates = [DisplacementCandidate::new(0, s(1.0))];

    // Non-finite and sub-1.0 margins behave as 1.0...
    assert_eq!(
        displacement_target(&candidates, &(), s(1.01), s(f32::NAN)),
        Some(0)
    );
    assert_eq!(
        displacement_target(&candidates, &(), s(1.01), s(0.0)),
        Some(0)
    );
    // ...and equal significance never displaces, even at margin 1.0.
    assert_eq!(displacement_target(&candidates, &(), s(1.0), s(1.0)), None);
}

#[test]
fn displacement_weakest_ties_resolve_by_input_order() {
    let candidates = [
        DisplacementCandidate::new(0, s(0.5)),
        DisplacementCandidate::new(1, s(0.5)),
    ];
    assert_eq!(
        displacement_target(&candidates, &(), s(1.0), s(1.0)),
        Some(0)
    );
}

#[test]
fn displacement_example() {
    let candidates = [DisplacementCandidate::new(3, s(8.0)).with_tier(Tier::Low)];
    let margin = Single::from_bits(DEFAULT_DISPLACEMENT_MARGIN);

    // A quiet critical cue displaces arbitrarily loud low-tier voices...
    assert_eq!(
        displacement_target(&candidates, &Tier::Critical, s(0.1), margin),
        Some(3)
    );
    // ...while a same-tier newcomer must beat the incumbent by the margin.
    assert_eq!(
        displacement_target(&candidates, &Tier::Low, s(9.0), margin),
        None
    );
}

// ==================== Pool routing ====================

#[test]
fn default_routing_splits_spatial_and_non_spatial() {
    let mut queue = queue(VirtualVoiceBudget::new(2));
    queue.play(PlayQueuedAudio::new(handle(1), TestSound::Sfx).looping());
    queue.play(
        PlayQueuedAudio::new(handle(2), TestSound::Sfx)
            .looping()
            .at(at(1.0, 2.0)),
    );
    queue.update_n(1);

    let promoted = queue.audible_sounds();
    for sound in &promoted {
        if sound.queued.expect("an entry").position().is_some() {
            assert_eq!(sound.pool, Some(Pool::Spatial), "positioned voice");
            assert_eq!(
                sound.placement,
                Placement::At(Vec3::new(s(1.0), s(2.0), s(0.0)))
            );
        } else {
            assert_eq!(sound.pool, Some(Pool::Default), "positionless voice");
            assert_eq!(sound.placement, Placement::Nowhere);
        }
    }
    assert_eq!(promoted.len(), 2);
}

#[test]
fn a_custom_pool_router_replaces_promotion_routing_and_release() {
    let mut queue = queue(VirtualVoiceBudget::new(1).with_crossfade(Duration::zero()));
    queue.host_pool = Some(7);
    queue.play(
        PlayQueuedAudio::new(handle(1), TestSound::Sfx)
            .looping()
            .with_volume(s(0.5)),
    );
    queue.update_n(1);

    let voice = queue.voice();
    assert_eq!(
        queue.get(voice).and_then(|sound| sound.pool),
        Some(Pool::Host(7))
    );

    // Displace it; once the demotion fade completes, the release strips the
    // custom label along with the rest of the voice.
    queue.play(PlayQueuedAudio::new(handle(2), TestSound::Sfx).looping());
    queue.update_n(60);

    let sound = queue.get(voice).expect("loop returns to virtual");
    assert!(!sound.audible);
    assert!(sound.pool.is_none());
}

#[test]
fn the_budget_holds_through_a_busy_session() {
    let mut queue = queue(VirtualVoiceBudget::new(3));
    for frame in 0..200u128 {
        let volume = ((frame * 37) % 50) as f32 / 25.0;
        let mut msg = PlayQueuedAudio::new(handle(frame % 7), TestSound::Sfx).with_volume(s(volume));
        if frame % 3 == 0 {
            msg = msg.looping();
        }
        queue.play(msg);
        if frame % 41 == 40 {
            queue.stop(StopQueuedAudio::all().with_handle(handle(frame % 5)));
        }
        queue.update_n(1);
        assert!(queue.audible_sounds().len() <= 3, "frame {frame}");
        for sound in &queue.sounds {
            // Whoever holds a voice carries its category, whoever waits does not.
            assert_eq!(sound.category.is_some(), sound.audible || sound.retiring);
            assert!(!(sound.audible && sound.retiring));
        }
    }
}

// ==================== What holds over many calls ====================

/// A simple generator of test values.
fn next_random(seed: &mut u64) -> u64 {
    *seed = seed.wrapping_mul(6_364_136_223_846_793_005).wrapping_add(1_442_695_040_888_963_407);
    *seed >> 33
}

#[test]
fn one_pass_settles_the_set() {
    let mut seed = 7;
    for _ in 0..200 {
        let count = next_random(&mut seed) % 9;
        let max_audible = (next_random(&mut seed) % 5) as usize;
        let entries: Vec<SignificanceEntry> = (0..count)
            .map(|id| {
                let significance = (next_random(&mut seed) % 4) as f32;
                entry(id, significance, next_random(&mut seed) % 2 == 0)
            })
            .collect();
        let decisions = decide(&entries, max_audible, 0);
        let settled: Vec<SignificanceEntry> = entries
            .iter()
            .filter(|entry| decisions[&entry.entity] != VoiceDecision::Demote)
            .map(|entry| SignificanceEntry {
                audible: entry.audible || decisions[&entry.entity] == VoiceDecision::Promote,
                ..*entry
            })
            .collect();
        for retiring in [0, 1, 3, 100] {
            for (_, decision) in rank_by_significance(&settled, max_audible, retiring) {
                assert_eq!(decision, VoiceDecision::Hold);
            }
        }
    }
}

#[test]
fn pruning_never_changes_an_answer() {
    let interval = Duration::from_millis(500);
    let mut state = AdmissionState::<TestSound>::default();
    // Every admission there ever was, kept here and not in the state.
    let mut admitted: Vec<(SampleId, u128)> = Vec::new();
    let mut seed = 11;
    let mut refusals = 0;
    for frame in 0..400u128 {
        let now = Duration { nanos: frame * STEP_NANOS };
        let mut gate = AdmissionGate::new(&mut state, None, now);
        for _ in 0..5 {
            let sample = handle((next_random(&mut seed) % 300) as u128);
            let request = AdmissionRequest::new(sample).with_min_repeat_interval(interval);
            let blocked = admitted
                .iter()
                .any(|(other, time)| *other == sample && now.nanos - time < interval.nanos);
            if blocked {
                refusals += 1;
                assert_eq!(
                    answer(&mut gate, &request),
                    Err(AdmissionRejection::RepeatTooSoon)
                );
            } else {
                assert_eq!(answer(&mut gate, &request), Ok(()));
                admitted.push((sample, now.nanos));
            }
        }
    }
    assert!(refusals > 50, "the interval was put to use");
    assert!(state.recorded() < 200, "old admissions were dropped");
}

#[test]
fn a_stop_at_any_frame_of_a_demotion_is_final() {
    for ready in [false, true] {
        for frame in 0..70 {
            let mut queue = queue(VirtualVoiceBudget::new(1));
            queue.play(PlayQueuedAudio::new(handle(1), TestSound::Sfx).looping());
            queue.update_n(1);
            let voice = queue.voice();
            if let Some(effects) = &mut queue.get_mut(voice).effects {
                effects.ready = ready;
            }
            queue.play(
                PlayQueuedAudio::new(handle(2), TestSound::Sfx)
                    .looping()
                    .with_volume(s(2.0)),
            );
            queue.update_n(1);
            assert!(queue.retiring(voice));
            queue.update_n(frame);
            // The winner leaves too, so the stopped entry would have a slot.
            queue.stop(StopQueuedAudio::all().with_handle(handle(1)));
            queue.update_n(1);
            queue.stop(StopQueuedAudio::all().with_handle(handle(2)));
            for _ in 0..80 {
                queue.update_n(1);
                assert!(!queue.audible(voice), "frame={frame}");
            }
            assert!(queue.get(voice).is_none(), "frame={frame}");
        }
    }
}

#[test]
fn a_stop_leaves_an_unmatched_retiring_entry_alone() {
    // A fade that no clock could outlast, which no message concerns.
    let endless = FadeOutAudio::new(Duration { nanos: u128::MAX });
    let held = Sound::<TestSound> {
        queued: Some(VirtualSound {
            handle: handle(2),
            ..queued_entry()
        }),
        retiring: true,
        fade_out: Some(endless),
        ..Sound::bare(0)
    };
    let mut sounds = vec![held];
    let stop = StopQueuedAudio::all().with_handle(handle(1));
    handle_stop_queued_audio(&[stop], &VirtualVoiceBudget::new(1), &mut sounds);
    assert!(!sounds[0].despawned && sounds[0].retiring);
    assert!(sounds[0].fade_out.is_some());

    // One that concerns it waits for the fade, which is not over.
    let stop = StopQueuedAudio::all().with_handle(handle(2));
    handle_stop_queued_audio(&[stop], &VirtualVoiceBudget::new(1), &mut sounds);
    assert!(!sounds[0].despawned);
    assert_eq!(sounds[0].fade_out.map(|fade| fade.despawn_on_complete), Some(true));
}

/// The entry that a plain request becomes.
fn queued_entry() -> VirtualSound<TestSound> {
    let mut queue = queue(VirtualVoiceBudget::new(0));
    queue.play(PlayQueuedAudio::new(handle(1), TestSound::Sfx));
    queue.update_n(1);
    queue.entries()[0]
}

/// A demoted entry, its fade advanced through frames of the given milliseconds.
fn demoted_through(looping: bool, frames: &[(u64, bool)]) -> Sound<TestSound> {
    let entry = VirtualSound {
        looping,
        ..queued_entry()
    };
    let voice = Sound {
        queued: Some(entry),
        audible: true,
        player: Some(Player {
            sample: handle(1),
            looping,
        }),
        effects: Some(Effects {
            volume: Some(Volume::silent()),
            cutoff_hz: None,
            ready: false,
        }),
        ..Sound::bare(0)
    };
    let mut sounds = vec![demote(voice, looping, Duration::from_millis(50))];
    for (millis, ready) in frames {
        if let Some(effects) = &mut sounds[0].effects {
            effects.ready = *ready;
        }
        fade_out_audio_system(&mut sounds, Duration::from_millis(*millis));
        reclaim_lost_voices(&mut sounds);
        finish_demotions(&mut sounds);
    }
    sounds[0]
}

#[test]
fn demotions_end_through_frames_of_any_lengths() {
    for frames in [
        [(3, false), (400, false), (46, false), (101, false), (1, false)],
        [(700, true), (1, true), (48, true), (1, true), (9, true)],
        [(300, false), (249, false), (16, true), (20, false), (30, false)],
    ] {
        let returned = demoted_through(true, &frames);
        assert!(!returned.despawned && !returned.retiring && !returned.audible);
        assert!(returned.fade_out.is_none() && returned.player.is_none());
        assert!(returned.queued.is_some_and(|entry| entry.looping));

        assert!(demoted_through(false, &frames).despawned);
        assert!(demoted_through(true, &frames[..3]).retiring);
    }
}
