//! The handlers of play, stop and fade requests.

use crate::baseline::{sanitize_weight, BasePitch, BaseVolume};
use crate::fade::FadeOutAudio;
use crate::messages::{FadeAudio, PlayAudio, StopAudio};
use crate::randomization::{
    band_high, band_low, bands_are_as_wide_as_the_deviation, deviate, deviates, draws,
    resolve_randomization, DefaultRandomization,
};
use crate::single::arith::{difference, product, sum};
use crate::single::laws::lemma_one;
use crate::single::Single;
use crate::sound::{Effects, OnComplete, Placement, Player, Pool, Settings, Sound, Volume};
use crate::time::{a_span_is_the_seconds_it_is_made_of, Duration};
use crate::traits::{has_volume, is_asked_for, says_asked_for, AudioCategory};
use crate::volume::{follows_config, retuned};
use vstd::arithmetic::power2::{lemma_pow2_pos, pow2};
use vstd::prelude::*;

verus! {

/// Where a requested sound is placed: at its parent, else at its position.
pub open spec fn placement_of<C>(msg: PlayAudio<C>) -> Placement {
    match msg.parent {
        Some(parent) => Placement::Under(parent),
        None => match msg.position {
            Some(position) => Placement::At(position.as_vec3()),
            None => Placement::Nowhere,
        },
    }
}

/// The sound of a request, at a category volume and with its baselines.
pub open spec fn requested_sound<C>(
    entity: u64,
    msg: PlayAudio<C>,
    category_volume: Single,
    base: BaseVolume,
    pitch: BasePitch,
) -> Sound<C> {
    Sound {
        player: Some(Player { sample: msg.handle, looping: msg.looping }),
        category: Some(msg.category),
        base_volume: Some(base),
        base_pitch: Some(pitch),
        settings: Some(Settings { speed: pitch.0, on_complete: OnComplete::Despawn }),
        effects: Some(
            Effects {
                volume: Some(Volume::Linear(base.resolve(category_volume))),
                cutoff_hz: None,
                ready: false,
            },
        ),
        placement: placement_of(msg),
        pool: Some(
            if msg.parent is Some || msg.position is Some {
                Pool::Spatial
            } else {
                Pool::Default
            },
        ),
        ..Sound::bare(entity)
    }
}

/// The sound of a request, with its baselines already resolved.
///
/// The volume node is seeded with the category volume times the base, and the
/// base itself is recorded on the sound, so that later writes can derive the
/// product again. A request with a parent or a position is an event somewhere
/// in the world and plays in the spatial pool; everything else plays flat.
pub fn spawn_requested_sound<C: AudioCategory>(
    entity: u64,
    msg: &PlayAudio<C>,
    config: &C::Config,
    base: BaseVolume,
    pitch: BasePitch,
) -> (r: Sound<C>)
    ensures
        exists|volume: Single| #[trigger]
            has_volume(msg.category, *config, volume) && r == requested_sound(
                entity,
                *msg,
                volume,
                base,
                pitch,
            ),
{
    let volume: Single = msg.category.volume(config);
    assert(has_volume(msg.category, *config, volume));
    let (placement, pool) = match msg.parent {
        Some(parent) => (Placement::Under(parent), Pool::Spatial),
        None => match msg.position {
            Some(position) => (Placement::At(position.as_vec3()), Pool::Spatial),
            None => (Placement::Nowhere, Pool::Default),
        },
    };
    Sound {
        player: Some(Player { sample: msg.handle, looping: msg.looping }),
        category: Some(msg.category),
        base_volume: Some(base),
        base_pitch: Some(pitch),
        settings: Some(Settings { speed: pitch.0, on_complete: OnComplete::Despawn }),
        effects: Some(
            Effects {
                volume: Some(Volume::Linear(base.resolve(volume))),
                cutoff_hz: None,
                ready: false,
            },
        ),
        placement,
        pool: Some(pool),
        ..Sound::bare(entity)
    }
}

/// Whether `r` is what `draw` makes of `centre` and the deviation.
pub open spec fn is_deviated<D: FnOnce(Single, Single) -> Single>(
    centre: Single,
    deviation: Option<Single>,
    draw: D,
    r: Single,
) -> bool {
    if draws(centre, deviation) {
        call_ensures(draw, (band_low(centre, deviation->0), band_high(centre, deviation->0)), r)
    } else if deviates(deviation) {
        r == band_low(centre, deviation->0).min(band_high(centre, deviation->0))
    } else {
        r == centre
    }
}

/// Whether `draw` can be called for `centre` and the deviation.
pub open spec fn can_deviate<D: FnOnce(Single, Single) -> Single>(
    centre: Single,
    deviation: Option<Single>,
    draw: D,
) -> bool {
    draws(centre, deviation) ==> call_requires(
        draw,
        (band_low(centre, deviation->0), band_high(centre, deviation->0)),
    )
}

/// Answers one play request with the sound to spawn as `entity`.
///
/// Both axes of randomization are drawn here, by `draw_volume` and
/// `draw_speed`, and recorded as the sound's baselines rather than in its
/// volume node and playback speed alone.
pub fn handle_play_audio<C, V, S>(
    entity: u64,
    msg: &PlayAudio<C>,
    defaults: &DefaultRandomization,
    config: &C::Config,
    draw_volume: V,
    draw_speed: S,
) -> (r: Sound<C>) where
    C: AudioCategory,
    V: FnOnce(Single, Single) -> Single,
    S: FnOnce(Single, Single) -> Single,

    requires
        can_deviate(
            msg.volume,
            resolve_randomization(msg.randomization, defaults).0,
            draw_volume,
        ),
        can_deviate(
            Single::one(),
            resolve_randomization(msg.randomization, defaults).1,
            draw_speed,
        ),
    ensures
        exists|level: Single, speed: Single, volume: Single|
            {
                &&& is_deviated(
                    msg.volume,
                    resolve_randomization(msg.randomization, defaults).0,
                    draw_volume,
                    level,
                )
                &&& is_deviated(
                    Single::one(),
                    resolve_randomization(msg.randomization, defaults).1,
                    draw_speed,
                    speed,
                )
                &&& has_volume(msg.category, *config, volume)
                &&& r == #[trigger] requested_sound(
                    entity,
                    *msg,
                    volume,
                    BaseVolume(sanitize_weight(level)),
                    BasePitch::new(speed),
                )
            },
{
    let (volume_deviation, speed_deviation) = resolve_randomization(msg.randomization, defaults);
    let level: Single = deviate(msg.volume, volume_deviation, draw_volume);
    let speed: Single = deviate(Single::one(), speed_deviation, draw_speed);
    spawn_requested_sound(entity, msg, config, BaseVolume::new(level), BasePitch::new(speed))
}

/// Whether a stop request concerns a sound: one of the `same` category, or any
/// that plays where the request names none.
pub open spec fn stop_concerns<C>(msg: StopAudio<C>, s: Sound<C>, same: bool) -> bool {
    match msg.category {
        Some(_) => s.category is Some && same,
        None => s.player is Some,
    }
}

/// The sound after a stop request.
pub open spec fn stopped<C>(msg: StopAudio<C>, s: Sound<C>, same: bool) -> Sound<C> {
    if stop_concerns(msg, s, same) {
        Sound { despawned: true, ..s }
    } else {
        s
    }
}

/// The sound after stop requests in turn, where `same` tells of each whether it
/// asks for the sound's category.
pub open spec fn stopped_by_all<C>(
    messages: Seq<StopAudio<C>>,
    s: Sound<C>,
    same: Seq<bool>,
) -> Sound<C>
    decreases messages.len(),
{
    if messages.len() == 0 {
        s
    } else {
        stopped(
            messages.last(),
            stopped_by_all(messages.drop_last(), s, same.drop_last()),
            same.last(),
        )
    }
}

/// Whether `same` tells of each stop request whether it asks for the category of
/// a sound.
pub open spec fn stops_compared<C: AudioCategory>(
    messages: Seq<StopAudio<C>>,
    s: Sound<C>,
    same: Seq<bool>,
) -> bool {
    same.len() == messages.len() && forall|k: int|
        0 <= k < messages.len() ==> says_asked_for(
            s.category,
            messages[k].category,
            #[trigger] same[k],
        )
}

/// Whether `after` is what stop requests in turn make of `before`.
pub open spec fn is_stopped<C: AudioCategory>(
    messages: Seq<StopAudio<C>>,
    before: Sound<C>,
    after: Sound<C>,
) -> bool {
    exists|same: Seq<bool>| #[trigger]
        stops_compared(messages, before, same) && after == stopped_by_all(messages, before, same)
}

fn stop_sound<C: Copy>(msg: &StopAudio<C>, s: Sound<C>, same: bool) -> (r: Sound<C>)
    ensures
        r == stopped(*msg, s, same),
{
    let concerned: bool = match msg.category {
        Some(_) => s.category.is_some() && same,
        None => s.player.is_some(),
    };
    if concerned {
        Sound { despawned: true, ..s }
    } else {
        s
    }
}

fn stop_by_all<C: AudioCategory>(messages: &[StopAudio<C>], sound: Sound<C>) -> (r: Sound<C>)
    ensures
        is_stopped(messages@, sound, r),
{
    let mut s = sound;
    let ghost mut answers: Seq<bool> = Seq::empty();
    let mut k: usize = 0;
    assert(messages@.take(0) =~= Seq::empty());
    while k < messages.len()
        invariant
            k <= messages@.len(),
            answers.len() == k,
            forall|j: int|
                0 <= j < k ==> says_asked_for(
                    sound.category,
                    messages@[j].category,
                    #[trigger] answers[j],
                ),
            s.category == sound.category,
            s == stopped_by_all(messages@.take(k as int), sound, answers),
        decreases messages@.len() - k,
    {
        let same: bool = is_asked_for(s.category, messages[k].category);
        s = stop_sound(&messages[k], s, same);
        proof {
            let before = answers;
            answers = before.push(same);
            assert(answers.drop_last() =~= before);
            assert(messages@.take(k + 1).drop_last() =~= messages@.take(k as int));
        }
        k = k + 1;
    }
    assert(messages@.take(k as int) =~= messages@);
    assert(stops_compared(messages@, sound, answers));
    s
}

/// Answers stop requests by despawning the sounds they concern.
pub fn handle_stop_audio<C: AudioCategory>(
    messages: &[StopAudio<C>],
    sounds: &mut Vec<Sound<C>>,
)
    ensures
        final(sounds)@.len() == old(sounds)@.len(),
        forall|i: int|
            0 <= i < old(sounds)@.len() ==> is_stopped(
                messages@,
                old(sounds)@[i],
                #[trigger] final(sounds)@[i],
            ),
{
    let mut i: usize = 0;
    while i < sounds.len()
        invariant
            i <= sounds@.len() == old(sounds)@.len(),
            forall|j: int|
                0 <= j < i ==> is_stopped(messages@, old(sounds)@[j], #[trigger] sounds@[j]),
            forall|j: int| i <= j < sounds@.len() ==> #[trigger] sounds@[j] == old(sounds)@[j],
        decreases sounds@.len() - i,
    {
        let s = stop_by_all(messages, sounds[i]);
        sounds.set(i, s);
        i = i + 1;
    }
}

/// The span of a number of seconds, no time at all where it is not a span.
pub open spec fn span_or_zero(secs: Single) -> Duration {
    match Duration::try_from_secs(secs) {
        Some(duration) => duration,
        None => Duration::zero(),
    }
}

/// The sound after a fade request: one of the `same` category with an effects
/// chain fades out in place.
pub open spec fn faded<C>(msg: FadeAudio<C>, s: Sound<C>, same: bool) -> Sound<C> {
    if !s.despawned && s.effects is Some && s.category is Some && same {
        Sound {
            fade_out: Some(FadeOutAudio::new(span_or_zero(msg.duration_secs)).keep_entity()),
            ..s
        }
    } else {
        s
    }
}

/// The sound after fade requests in turn, where `same` tells of each whether it
/// asks for the sound's category.
pub open spec fn faded_by_all<C>(
    messages: Seq<FadeAudio<C>>,
    s: Sound<C>,
    same: Seq<bool>,
) -> Sound<C>
    decreases messages.len(),
{
    if messages.len() == 0 {
        s
    } else {
        faded(
            messages.last(),
            faded_by_all(messages.drop_last(), s, same.drop_last()),
            same.last(),
        )
    }
}

/// Whether `same` tells of each fade request whether it asks for the category of
/// a sound.
pub open spec fn fades_compared<C: AudioCategory>(
    messages: Seq<FadeAudio<C>>,
    s: Sound<C>,
    same: Seq<bool>,
) -> bool {
    same.len() == messages.len() && forall|k: int|
        0 <= k < messages.len() ==> says_asked_for(
            s.category,
            Some(messages[k].category),
            #[trigger] same[k],
        )
}

/// Whether `after` is what fade requests in turn make of `before`.
pub open spec fn is_faded<C: AudioCategory>(
    messages: Seq<FadeAudio<C>>,
    before: Sound<C>,
    after: Sound<C>,
) -> bool {
    exists|same: Seq<bool>| #[trigger]
        fades_compared(messages, before, same) && after == faded_by_all(messages, before, same)
}

fn fade_sound<C: Copy>(msg: &FadeAudio<C>, s: Sound<C>, same: bool) -> (r: Sound<C>)
    ensures
        r == faded(*msg, s, same),
{
    let duration = match Duration::try_from_secs(msg.duration_secs) {
        Some(duration) => duration,
        None => Duration::zero(),
    };
    if !s.despawned && s.effects.is_some() && s.category.is_some() && same {
        Sound { fade_out: Some(FadeOutAudio::new(duration).keep_entity()), ..s }
    } else {
        s
    }
}

fn fade_by_all<C: AudioCategory>(messages: &[FadeAudio<C>], sound: Sound<C>) -> (r: Sound<C>)
    ensures
        is_faded(messages@, sound, r),
{
    let mut s = sound;
    let ghost mut answers: Seq<bool> = Seq::empty();
    let mut k: usize = 0;
    assert(messages@.take(0) =~= Seq::empty());
    while k < messages.len()
        invariant
            k <= messages@.len(),
            answers.len() == k,
            forall|j: int|
                0 <= j < k ==> says_asked_for(
                    sound.category,
                    Some(messages@[j].category),
                    #[trigger] answers[j],
                ),
            s.category == sound.category,
            s == faded_by_all(messages@.take(k as int), sound, answers),
        decreases messages@.len() - k,
    {
        let same: bool = is_asked_for(s.category, Some(messages[k].category));
        s = fade_sound(&messages[k], s, same);
        proof {
            let before = answers;
            answers = before.push(same);
            assert(answers.drop_last() =~= before);
            assert(messages@.take(k + 1).drop_last() =~= messages@.take(k as int));
        }
        k = k + 1;
    }
    assert(messages@.take(k as int) =~= messages@);
    assert(fades_compared(messages@, sound, answers));
    s
}

/// Answers fade requests by fading the sounds they concern to silence.
///
/// The fade marks the sound for the other volume writers, which leave a fading
/// sound's volume node alone. The sound is kept once the fade completes. A
/// duration that is not a span of time counts as none.
pub fn handle_fade_audio<C: AudioCategory>(
    messages: &[FadeAudio<C>],
    sounds: &mut Vec<Sound<C>>,
)
    ensures
        final(sounds)@.len() == old(sounds)@.len(),
        forall|i: int|
            0 <= i < old(sounds)@.len() ==> is_faded(
                messages@,
                old(sounds)@[i],
                #[trigger] final(sounds)@[i],
            ),
{
    let mut i: usize = 0;
    while i < sounds.len()
        invariant
            i <= sounds@.len() == old(sounds)@.len(),
            forall|j: int|
                0 <= j < i ==> is_faded(messages@, old(sounds)@[j], #[trigger] sounds@[j]),
            forall|j: int| i <= j < sounds@.len() ==> #[trigger] sounds@[j] == old(sounds)@[j],
        decreases sounds@.len() - i,
    {
        let s = fade_by_all(messages, sounds[i]);
        sounds.set(i, s);
        i = i + 1;
    }
}

/// What a play request spawns is the sound that was asked for: it plays the sample
/// once or in a loop as asked, under the category asked for, at the category volume
/// times its own, at its own speed, somewhere in the world exactly if the request
/// is, and goes when it has played. Nothing else is on it.
pub proof fn a_request_spawns_what_it_asks_for<C>(
    entity: u64,
    msg: PlayAudio<C>,
    category_volume: Single,
    base: BaseVolume,
    pitch: BasePitch,
)
    ensures
        ({
            let s = requested_sound(entity, msg, category_volume, base, pitch);
            &&& s.entity == entity
            &&& s.player matches Some(player) && player.sample == msg.handle && player.looping
                == msg.looping
            &&& s.category == Some(msg.category)
            &&& s.base_volume == Some(base) && s.base_pitch == Some(pitch)
            &&& s.settings matches Some(settings) && settings.speed == pitch.0
                && settings.on_complete == OnComplete::Despawn
            &&& s.effects matches Some(effects) && effects.volume == Some(
                Volume::Linear(product(category_volume, base.0)),
            ) && effects.cutoff_hz is None && !effects.ready
            &&& s.pool == Some(Pool::Spatial) <==> msg.parent is Some || msg.position is Some
            &&& s.pool == Some(Pool::Default) <==> msg.parent is None && msg.position is None
            &&& msg.parent matches Some(parent) ==> s.placement == Placement::Under(parent)
            &&& msg.parent is None ==> (msg.position matches Some(position) ==> s.placement
                == Placement::At(position.as_vec3()))
            &&& msg.parent is None && msg.position is None ==> s.placement == Placement::Nowhere
            &&& !s.despawned && !s.undamped && !s.self_driven_volume && !s.ducks && !s.sampling
            &&& s.fade_in is None && s.fade_out is None && s.ramp is None && s.priority is None
            &&& s.queued is None && !s.audible && !s.retiring && !s.orphaned && !s.interrupted
        }),
{
}

/// What a play request spawns answers to its category: a stop for that category, or
/// for every sound, ends it, a fade of that category fades it where it stands, and
/// a change of the category's volume is written to it; a stop or a fade of another
/// category leaves it as it is.
pub proof fn a_requested_sound_answers_to_its_category<C>(
    entity: u64,
    msg: PlayAudio<C>,
    category_volume: Single,
    base: BaseVolume,
    pitch: BasePitch,
    fade: FadeAudio<C>,
    new_volume: Single,
)
    ensures
        ({
            let s = requested_sound(entity, msg, category_volume, base, pitch);
            let stop = StopAudio { category: Some(msg.category) };
            &&& stopped(stop, s, true) == (Sound { despawned: true, ..s })
            &&& stopped(StopAudio { category: None }, s, false) == (Sound { despawned: true, ..s })
            &&& faded(fade, s, true).fade_out is Some && !faded(fade, s, true).despawned
            &&& follows_config(s)
            &&& (retuned(s, new_volume).effects->0).volume == Some(
                Volume::Linear(product(new_volume, base.0)),
            )
            &&& stopped(stop, s, false) == s
            &&& faded(fade, s, false) == s
        }),
{
}

/// A stop of a category ends the sounds of that category and no other; a stop of
/// everything ends what plays. A stop changes nothing else of a sound.
pub proof fn a_stop_ends_what_it_concerns<C>(msg: StopAudio<C>, s: Sound<C>, same: bool)
    ensures
        ({
            let r = stopped(msg, s, same);
            &&& r == (Sound { despawned: r.despawned, ..s })
            &&& msg.category is Some && s.category is Some && same ==> r.despawned
            &&& msg.category is Some && (s.category is None || !same) ==> r == s
            &&& msg.category is None && s.player is Some ==> r.despawned
            &&& msg.category is None && s.player is None ==> r == s
        }),
{
}

/// A fade request starts a fade-out of the sounds of its category that have an
/// effects chain, from the start, over the time asked for, and keeps them; it
/// changes nothing else, and nothing of any other sound.
pub proof fn a_fade_request_fades_in_place<C>(msg: FadeAudio<C>, s: Sound<C>, same: bool)
    ensures
        ({
            let r = faded(msg, s, same);
            &&& r == (Sound { fade_out: r.fade_out, ..s })
            &&& !s.despawned && s.effects is Some && s.category is Some && same ==> (
            r.fade_out matches Some(fade) && !fade.despawn_on_complete && !fade.triggered
                && fade.elapsed.nanos == 0 && fade.waiting.nanos == 0 && fade.duration
                == span_or_zero(msg.duration_secs))
            &&& s.despawned || s.effects is None || s.category is None || !same ==> r == s
        }),
{
}

/// The time of a fade is the number of seconds asked for, to half a nanosecond, and
/// none where that is no span of time: negative, not finite or beyond 64 bits of
/// seconds.
pub proof fn fade_times_are_the_seconds_asked_for(secs: Single)
    ensures
        ({
            let nanos = span_or_zero(secs).nanos;
            &&& !secs.is_finite() || secs.is_less(Single::zero()) ==> nanos == 0
            &&& secs.is_finite() && Single::zero().is_at_most(secs) && secs.value() < pow2(64)
                * pow2(149) ==> -(pow2(149) as int) <= 2 * (nanos * pow2(149) - secs.value()
                * 1_000_000_000) <= pow2(149)
        }),
{
    lemma_pow2_pos(149);
    lemma_pow2_pos(64);
    if secs.is_finite() && Single::zero().is_at_most(secs) && secs.value() < pow2(64) * pow2(149) {
        a_span_is_the_seconds_it_is_made_of(secs);
    }
}

/// Requests in turn end a sound as soon as one of them concerns it, and leave it as
/// it is where none does.
pub proof fn any_stop_that_concerns_a_sound_ends_it<C>(
    messages: Seq<StopAudio<C>>,
    s: Sound<C>,
    same: Seq<bool>,
)
    requires
        same.len() == messages.len(),
    ensures
        ({
            let concerned = exists|k: int|
                0 <= k < messages.len() && if (#[trigger] messages[k]).category is Some {
                    s.category is Some && same[k]
                } else {
                    s.player is Some
                };
            &&& concerned ==> stopped_by_all(messages, s, same) == (Sound {
                despawned: true,
                ..s
            })
            &&& !concerned ==> stopped_by_all(messages, s, same) == s
        }),
    decreases messages.len(),
{
    if messages.len() > 0 {
        let earlier = messages.drop_last();
        let last: int = messages.len() - 1;
        any_stop_that_concerns_a_sound_ends_it(earlier, s, same.drop_last());
        assert(forall|k: int| 0 <= k < last ==> #[trigger] messages[k] == earlier[k]);
        assert(messages[last] == messages.last() && same[last] == same.last());
        assert(forall|k: int| 0 <= k < last ==> same[k] == #[trigger] same.drop_last()[k]);
        let hit = exists|k: int|
            0 <= k < earlier.len() && if (#[trigger] earlier[k]).category is Some {
                s.category is Some && same.drop_last()[k]
            } else {
                s.player is Some
            };
        if hit {
            let k = choose|k: int|
                0 <= k < earlier.len() && if (#[trigger] earlier[k]).category is Some {
                    s.category is Some && same.drop_last()[k]
                } else {
                    s.player is Some
                };
            assert(messages[k] == earlier[k]);
        }
    }
}

/// Requests in turn fade a sound as the last of them that concerns it asks for, and
/// leave it as it is where none does.
pub proof fn the_last_fade_request_counts<C>(
    messages: Seq<FadeAudio<C>>,
    s: Sound<C>,
    same: Seq<bool>,
    k: int,
)
    requires
        same.len() == messages.len(),
        !s.despawned && s.effects is Some && s.category is Some,
        -1 <= k < messages.len(),
        k >= 0 ==> same[k],
        forall|j: int| k < j < messages.len() ==> !#[trigger] same[j],
    ensures
        k < 0 ==> faded_by_all(messages, s, same) == s,
        k >= 0 ==> (faded_by_all(messages, s, same) == Sound {
            fade_out: faded_by_all(messages, s, same).fade_out,
            ..s
        }),
        k >= 0 ==> (faded_by_all(messages, s, same).fade_out matches Some(fade) && fade.duration
            == span_or_zero(messages[k].duration_secs) && !fade.triggered),
    decreases messages.len(),
{
    if messages.len() > 0 {
        let last: int = messages.len() - 1;
        assert(same[last] == same.last() && messages[last] == messages.last());
        if k < last {
            the_last_fade_request_counts(messages.drop_last(), s, same.drop_last(), k);
        } else {
            lemma_fades_change_nothing_else(messages.drop_last(), s, same.drop_last());
        }
    }
}

/// Fade requests in turn leave all but the fade-out of a sound as it was.
proof fn lemma_fades_change_nothing_else<C>(
    messages: Seq<FadeAudio<C>>,
    s: Sound<C>,
    same: Seq<bool>,
)
    ensures
        faded_by_all(messages, s, same) == (Sound {
            fade_out: faded_by_all(messages, s, same).fade_out,
            ..s
        }),
    decreases messages.len(),
{
    if messages.len() > 0 {
        lemma_fades_change_nothing_else(messages.drop_last(), s, same.drop_last());
    }
}

/// An axis that does not deviate is at its centre, and one that does at what was
/// drawn from its band, the low end handed out first.
pub proof fn what_is_drawn_is_drawn_from_the_band<D: FnOnce(Single, Single) -> Single>(
    centre: Single,
    deviation: Option<Single>,
    draw: D,
    r: Single,
)
    requires
        is_deviated(centre, deviation, draw, r),
    ensures
        deviation is None ==> r == centre,
        deviation matches Some(d) ==> (!d.is_finite() || d.is_at_most(Single::zero()) ==> r
            == centre),
        deviation matches Some(d) ==> (d.is_finite() && Single::zero().is_less(d)
            && d.is_at_most(Single::one()) ==> ({
            let low = product(centre, difference(Single::one(), d));
            let high = product(centre, sum(Single::one(), d));
            &&& low.is_less(high) ==> call_ensures(draw, (low, high), r)
            &&& !low.is_less(high) ==> r == low.min(high)
        })),
        deviation matches Some(d) ==> (d.is_finite() && Single::one().is_at_most(d) ==> ({
            let low = product(centre, Single::zero());
            let high = product(centre, sum(Single::one(), Single::one()));
            &&& low.is_less(high) ==> call_ensures(draw, (low, high), r)
            &&& !low.is_less(high) ==> r == low.min(high)
        })),
{
    lemma_one();
    if let Some(d) = deviation {
        if d.is_finite() && Single::zero().is_less(d) {
            bands_are_as_wide_as_the_deviation(centre, d);
        }
    }
}

/// Whether a stop asks for the category of a sound is what comparing the two answers.
pub proof fn stops_compare_categories<C: AudioCategory>(
    messages: Seq<StopAudio<C>>,
    s: Sound<C>,
    same: Seq<bool>,
    k: int,
    own: C,
    asked: C,
)
    requires
        stops_compared(messages, s, same),
        0 <= k < messages.len(),
        s.category == Some(own),
        messages[k].category == Some(asked),
    ensures
        call_ensures(C::eq, (&own, &asked), same[k]),
{
    assert(says_asked_for(s.category, messages[k].category, same[k]));
}

/// Whether a fade asks for the category of a sound is what comparing the two answers.
pub proof fn fades_compare_categories<C: AudioCategory>(
    messages: Seq<FadeAudio<C>>,
    s: Sound<C>,
    same: Seq<bool>,
    k: int,
    own: C,
)
    requires
        fades_compared(messages, s, same),
        0 <= k < messages.len(),
        s.category == Some(own),
    ensures
        call_ensures(C::eq, (&own, &messages[k].category), same[k]),
{
    assert(says_asked_for(s.category, Some(messages[k].category), same[k]));
}

} // verus!
