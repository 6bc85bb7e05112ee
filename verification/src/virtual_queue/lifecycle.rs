//! The life of a queue entry: promotion, demotion, release and stop.

use crate::baseline::{BasePitch, BaseVolume};
use crate::fade::{
    clocks_fit, every_fade_out_ends, faded_in, faded_out, faded_through,
    fades_end_as_they_were_told, met, outlasts, total, FadeInAudio, FadeOutAudio, Frame,
    UNRESOLVED_EFFECTS_GRACE,
};
use crate::single::Single;
use crate::sound::{Effects, OnComplete, Placement, Player, Pool, Settings, Sound, Volume};
use crate::time::Duration;
use crate::traits::{is_asked_for, says_asked_for, AudioCategory};
use crate::virtual_queue::requests::{StopQueuedAudio, VirtualVoiceBudget};
use crate::virtual_queue::VirtualSound;
use vstd::prelude::*;

verus! {

pub open spec fn spec_default_route<C>(entry: VirtualSound<C>) -> Pool {
    if entry.parent is Some || entry.position is Some {
        Pool::Spatial
    } else {
        Pool::Default
    }
}

/// Where promoted voices go by default: spatial entries, those with a parent or
/// a position, into the spatial pool and the rest into the default one.
#[verifier::when_used_as_spec(spec_default_route)]
pub fn default_route<C>(entry: VirtualSound<C>) -> (r: Pool)
    ensures
        r == default_route(entry),
{
    if entry.parent.is_some() || entry.position.is_some() {
        Pool::Spatial
    } else {
        Pool::Default
    }
}

/// The sound of an entry that was given a real voice in `pool`.
pub open spec fn promoted_sound<C: AudioCategory>(
    s: Sound<C>,
    target_volume: Single,
    budget: VirtualVoiceBudget<C>,
    pool: Pool,
) -> Sound<C> {
    let entry = s.queued->0;
    Sound {
        player: Some(Player { sample: entry.handle, looping: entry.looping }),
        category: Some(entry.category),
        base_volume: Some(BaseVolume(entry.base_volume)),
        base_pitch: Some(BasePitch::spec_unity()),
        settings: Some(Settings { speed: Single::one(), on_complete: OnComplete::Remove }),
        priority: Some(budget.sample_priority),
        effects: Some(
            Effects { volume: Some(Volume::silent()), cutoff_hz: None, ready: false },
        ),
        fade_in: Some(FadeInAudio::new(budget.crossfade, target_volume)),
        audible: true,
        pool: Some(pool),
        placement: match entry.parent {
            Some(parent) => Placement::Under(parent),
            None => match entry.position {
                Some(position) => Placement::At(position.as_vec3()),
                None => s.placement,
            },
        },
        ..s
    }
}

/// Gives an entry a real voice in `pool`.
///
/// The priority is raised on every promotion, so a loop promoted again defends
/// its voice again. The category rides along so that the per-sound category
/// systems see the voice, and the baselines so that they derive its own level.
pub fn promote<C: AudioCategory>(
    s: Sound<C>,
    entry: VirtualSound<C>,
    target_volume: Single,
    budget: &VirtualVoiceBudget<C>,
    pool: Pool,
) -> (r: Sound<C>)
    requires
        s.queued == Some(entry),
    ensures
        r == promoted_sound(s, target_volume, *budget, pool),
{
    let placement = match entry.parent {
        Some(parent) => Placement::Under(parent),
        None => match entry.position {
            Some(position) => Placement::At(position.as_vec3()),
            None => s.placement,
        },
    };
    Sound {
        player: Some(Player { sample: entry.handle, looping: entry.looping }),
        category: Some(entry.category),
        base_volume: Some(BaseVolume(entry.base_volume)),
        base_pitch: Some(BasePitch(Single::one())),
        settings: Some(Settings { speed: Single::one(), on_complete: OnComplete::Remove }),
        priority: Some(budget.sample_priority),
        effects: Some(
            Effects { volume: Some(Volume::silent()), cutoff_hz: None, ready: false },
        ),
        fade_in: Some(FadeInAudio::new(budget.crossfade, target_volume)),
        audible: true,
        pool: Some(pool),
        placement,
        ..s
    }
}

/// The sound of an entry whose voice fades out.
pub open spec fn demoted_sound<C>(s: Sound<C>, looping: bool, crossfade: Duration) -> Sound<C> {
    Sound {
        audible: false,
        fade_in: None,
        retiring: true,
        priority: Some(0),
        fade_out: Some(
            if looping {
                FadeOutAudio::new(crossfade).keep_entity()
            } else {
                FadeOutAudio::new(crossfade)
            },
        ),
        ..s
    }
}

/// Starts a demotion fade: looping entries keep their entity and return to
/// virtual once the fade completes, one-shots despawn with it. The voice drops
/// back to the default priority, so pool pressure steals the fader before any
/// live voice.
pub fn demote<C: Copy>(s: Sound<C>, looping: bool, crossfade: Duration) -> (r: Sound<C>)
    ensures
        r == demoted_sound(s, looping, crossfade),
{
    let fade = if looping {
        FadeOutAudio::new(crossfade).keep_entity()
    } else {
        FadeOutAudio::new(crossfade)
    };
    Sound {
        audible: false,
        fade_in: None,
        retiring: true,
        priority: Some(0),
        fade_out: Some(fade),
        ..s
    }
}

/// The sound of an entry that lost its voice: everything a promotion added is
/// gone, and its playback is interrupted where a sampler still plays it.
pub open spec fn released_sound<C>(s: Sound<C>) -> Sound<C> {
    Sound {
        interrupted: s.interrupted || s.sampling,
        sampling: false,
        player: None,
        settings: None,
        priority: None,
        pool: None,
        effects: None,
        category: None,
        base_volume: None,
        base_pitch: None,
        audible: false,
        retiring: false,
        fade_in: None,
        fade_out: None,
        ..s
    }
}

/// Strips everything a promotion added, leaving a bare entry eligible for
/// promotion again. The entry's authored volume survives in the entry.
pub fn release_voice<C: Copy>(s: Sound<C>) -> (r: Sound<C>)
    ensures
        r == released_sound(s),
{
    Sound {
        interrupted: s.interrupted || s.sampling,
        sampling: false,
        player: None,
        settings: None,
        priority: None,
        pool: None,
        effects: None,
        category: None,
        base_volume: None,
        base_pitch: None,
        audible: false,
        retiring: false,
        fade_in: None,
        fade_out: None,
        ..s
    }
}

/// Whether a demotion fade is over and has left its entry behind.
pub open spec fn demotion_finished<C>(s: Sound<C>) -> bool {
    !s.despawned && s.queued is Some && s.retiring && s.fade_out is None
}

/// Returns demoted looping entries to the virtual state once their fade-out
/// completes.
pub fn finish_demotions<C: AudioCategory>(sounds: &mut Vec<Sound<C>>)
    ensures
        final(sounds)@.len() == old(sounds)@.len(),
        forall|i: int|
            0 <= i < old(sounds)@.len() ==> #[trigger] final(sounds)@[i] == if demotion_finished(
                old(sounds)@[i],
            ) {
                released_sound(old(sounds)@[i])
            } else {
                old(sounds)@[i]
            },
{
    let mut i: usize = 0;
    while i < sounds.len()
        invariant
            i <= sounds@.len() == old(sounds)@.len(),
            forall|j: int|
                0 <= j < i ==> #[trigger] sounds@[j] == if demotion_finished(old(sounds)@[j]) {
                    released_sound(old(sounds)@[j])
                } else {
                    old(sounds)@[j]
                },
            forall|j: int| i <= j < sounds@.len() ==> #[trigger] sounds@[j] == old(sounds)@[j],
        decreases sounds@.len() - i,
    {
        let s = sounds[i];
        if !s.despawned && s.queued.is_some() && s.retiring && s.fade_out.is_none() {
            sounds.set(i, release_voice(s));
        }
        i = i + 1;
    }
}

/// Whether a promoted entry has lost its voice.
pub open spec fn voice_lost<C>(s: Sound<C>) -> bool {
    !s.despawned && s.queued is Some && s.audible && s.player is None && !s.retiring
}

/// The sound of an entry that lost its voice: a loop returns to virtual, a
/// one-shot is gone.
pub open spec fn reclaimed_sound<C>(s: Sound<C>) -> Sound<C> {
    if !voice_lost(s) {
        s
    } else if (s.queued->0).looping {
        released_sound(s)
    } else {
        Sound { despawned: true, ..s }
    }
}

/// Applies queue policy to promoted entries whose voice ended: looping entries
/// return to virtual, finished or dead one-shots despawn.
pub fn reclaim_lost_voices<C: AudioCategory>(sounds: &mut Vec<Sound<C>>)
    ensures
        final(sounds)@.len() == old(sounds)@.len(),
        forall|i: int|
            0 <= i < old(sounds)@.len() ==> #[trigger] final(sounds)@[i] == reclaimed_sound(
                old(sounds)@[i],
            ),
{
    let mut i: usize = 0;
    while i < sounds.len()
        invariant
            i <= sounds@.len() == old(sounds)@.len(),
            forall|j: int|
                0 <= j < i ==> #[trigger] sounds@[j] == reclaimed_sound(old(sounds)@[j]),
            forall|j: int| i <= j < sounds@.len() ==> #[trigger] sounds@[j] == old(sounds)@[j],
        decreases sounds@.len() - i,
    {
        let s = sounds[i];
        if !s.despawned && s.audible && s.player.is_none() && !s.retiring {
            if let Some(entry) = s.queued {
                if entry.looping {
                    sounds.set(i, release_voice(s));
                } else {
                    sounds.set(i, Sound { despawned: true, ..s });
                }
            }
        }
        i = i + 1;
    }
}

/// The category that an entry was requested under.
pub open spec fn entry_category<C>(s: Sound<C>) -> Option<C> {
    match s.queued {
        Some(entry) => Some(entry.category),
        None => None,
    }
}

/// Whether a stop request concerns a sound, where `same` tells whether it asks
/// for the category of the entry.
pub open spec fn stop_matches<C>(msg: StopQueuedAudio<C>, s: Sound<C>, same: bool) -> bool {
    !s.despawned && (s.queued matches Some(entry) && (msg.category is Some ==> same) && (
    msg.handle matches Some(handle) ==> entry.handle == handle))
}

/// The sound after a stop request.
pub open spec fn stopped_sound<C>(
    msg: StopQueuedAudio<C>,
    s: Sound<C>,
    same: bool,
    crossfade: Duration,
) -> Sound<C> {
    if !stop_matches(msg, s, same) {
        s
    } else if s.audible {
        demoted_sound(s, false, crossfade)
    } else if s.retiring && s.fade_out is Some && !(s.fade_out->0).is_complete() {
        Sound {
            fade_out: Some(FadeOutAudio { despawn_on_complete: true, ..s.fade_out->0 }),
            ..s
        }
    } else {
        Sound { despawned: true, ..s }
    }
}

/// The sound after stop requests in turn, where `same` tells of each whether it
/// asks for the category of the entry.
pub open spec fn stopped_by_all<C>(
    messages: Seq<StopQueuedAudio<C>>,
    s: Sound<C>,
    same: Seq<bool>,
    crossfade: Duration,
) -> Sound<C>
    decreases messages.len(),
{
    if messages.len() == 0 {
        s
    } else {
        stopped_sound(
            messages.last(),
            stopped_by_all(messages.drop_last(), s, same.drop_last(), crossfade),
            same.last(),
            crossfade,
        )
    }
}

/// Whether `same` tells of each stop request whether it asks for the category of
/// an entry.
pub open spec fn stops_compared<C: AudioCategory>(
    messages: Seq<StopQueuedAudio<C>>,
    s: Sound<C>,
    same: Seq<bool>,
) -> bool {
    same.len() == messages.len() && forall|k: int|
        0 <= k < messages.len() ==> says_asked_for(
            entry_category(s),
            messages[k].category,
            #[trigger] same[k],
        )
}

/// Whether `after` is what stop requests in turn make of `before`.
pub open spec fn is_stopped<C: AudioCategory>(
    messages: Seq<StopQueuedAudio<C>>,
    before: Sound<C>,
    crossfade: Duration,
    after: Sound<C>,
) -> bool {
    exists|same: Seq<bool>| #[trigger]
        stops_compared(messages, before, same) && after == stopped_by_all(
            messages,
            before,
            same,
            crossfade,
        )
}

/// Whether a fade has run its course, its deadline a span of time or not.
fn has_run_out(fade: &FadeOutAudio) -> (r: bool)
    ensures
        r == fade.is_complete(),
{
    if fade.triggered {
        fade.elapsed.nanos >= fade.duration.nanos
    } else {
        let grace = Duration::from_millis(UNRESOLVED_EFFECTS_GRACE);
        fade.waiting.nanos >= grace.nanos && fade.waiting.nanos - grace.nanos
            >= fade.duration.nanos
    }
}

fn stop_entry<C: Copy>(
    msg: &StopQueuedAudio<C>,
    s: Sound<C>,
    same: bool,
    crossfade: Duration,
) -> (r: Sound<C>)
    ensures
        r == stopped_sound(*msg, s, same, crossfade),
{
    let entry = match s.queued {
        Some(entry) => entry,
        None => {
            return s;
        },
    };
    if s.despawned || (msg.category.is_some() && !same) {
        return s;
    }
    if let Some(handle) = msg.handle {
        if entry.handle != handle {
            return s;
        }
    }
    if s.audible {
        // Fade out through the demotion path, but always despawn.
        return demote(s, false, crossfade);
    }
    if s.retiring {
        if let Some(fade) = s.fade_out {
            if !has_run_out(&fade) {
                return Sound {
                    fade_out: Some(FadeOutAudio { despawn_on_complete: true, ..fade }),
                    ..s
                };
            }
        }
    }
    Sound { despawned: true, ..s }
}

fn stop_by_all<C: AudioCategory>(
    messages: &[StopQueuedAudio<C>],
    sound: Sound<C>,
    crossfade: Duration,
) -> (r: Sound<C>)
    ensures
        is_stopped(messages@, sound, crossfade, r),
{
    let mut s = sound;
    let own: Option<C> = match sound.queued {
        Some(entry) => Some(entry.category),
        None => None,
    };
    let ghost mut answers: Seq<bool> = Seq::empty();
    let mut k: usize = 0;
    assert(messages@.take(0) =~= Seq::empty());
    while k < messages.len()
        invariant
            k <= messages@.len(),
            own == entry_category(sound),
            answers.len() == k,
            forall|j: int|
                0 <= j < k ==> says_asked_for(own, messages@[j].category, #[trigger] answers[j]),
            s == stopped_by_all(messages@.take(k as int), sound, answers, crossfade),
        decreases messages@.len() - k,
    {
        let same: bool = is_asked_for(own, messages[k].category);
        s = stop_entry(&messages[k], s, same, crossfade);
        proof {
            let before = answers;
            answers = before.push(same);
            assert(answers.drop_last() =~= before);
            assert(messages@.take(k + 1).drop_last() =~= messages@.take(k as int));
        }
        k = k + 1;
    }
    assert(messages@.take(k as int) =~= messages@);
    assert(stops_compared(messages@, sound, answers));
    s
}

/// Answers stop requests: audible entries fade out over the crossfade and
/// despawn, waiting ones despawn at once, and retiring ones despawn when their
/// fade completes.
pub fn handle_stop_queued_audio<C: AudioCategory>(
    messages: &[StopQueuedAudio<C>],
    budget: &VirtualVoiceBudget<C>,
    sounds: &mut Vec<Sound<C>>,
)
    ensures
        final(sounds)@.len() == old(sounds)@.len(),
        forall|i: int|
            0 <= i < old(sounds)@.len() ==> is_stopped(
                messages@,
                old(sounds)@[i],
                budget.crossfade,
                #[trigger] final(sounds)@[i],
            ),
{
    let mut i: usize = 0;
    while i < sounds.len()
        invariant
            i <= sounds@.len() == old(sounds)@.len(),
            forall|j: int|
                0 <= j < i ==> is_stopped(
                    messages@,
                    old(sounds)@[j],
                    budget.crossfade,
                    #[trigger] sounds@[j],
                ),
            forall|j: int| i <= j < sounds@.len() ==> #[trigger] sounds@[j] == old(sounds)@[j],
        decreases sounds@.len() - i,
    {
        let s = stop_by_all(messages, sounds[i], budget.crossfade);
        sounds.set(i, s);
        i = i + 1;
    }
}

/// Whether a sound has nothing of a promotion on it.
pub open spec fn is_bare<C>(s: Sound<C>) -> bool {
    &&& s.player is None && s.category is None && s.effects is None && s.pool is None
    &&& s.base_volume is None && s.base_pitch is None && !s.fading()
}

/// Whether an entry is as its state asks for: an audible one, and one whose voice
/// retires, carries its category, a waiting one has nothing of a promotion on it,
/// and none is audible and retiring at once.
pub open spec fn is_in_order<C>(s: Sound<C>) -> bool {
    s.queued matches Some(entry) ==> s.despawned || if s.audible || s.retiring {
        !(s.audible && s.retiring) && s.category == Some(entry.category)
    } else {
        is_bare(s)
    }
}

/// Whether an entry is on its way out: gone, or fading with nothing to keep it.
pub open spec fn leaving<C>(s: Sound<C>) -> bool {
    s.despawned || (s.fade_out matches Some(fade) && fade.despawn_on_complete)
}

/// A stop is never lost: an entry that a stop concerns is gone at once, or it
/// fades out and is gone once the fade completes, whatever state the stop finds
/// it in.
pub proof fn a_stop_always_ends_the_entry<C>(
    msg: StopQueuedAudio<C>,
    s: Sound<C>,
    same: bool,
    crossfade: Duration,
)
    requires
        stop_matches(msg, s, same),
    ensures
        leaving(stopped_sound(msg, s, same, crossfade)),
        !s.audible && !s.retiring ==> stopped_sound(msg, s, same, crossfade).despawned,
{
}

/// What is on its way out stays so: neither another stop nor the fade itself
/// turns it back.
pub proof fn what_leaves_does_not_come_back<C>(
    msg: StopQueuedAudio<C>,
    s: Sound<C>,
    same: bool,
    crossfade: Duration,
    delta: Duration,
)
    requires
        leaving(s),
    ensures
        leaving(stopped_sound(msg, s, same, crossfade)),
        leaving(faded_out(s, delta)),
{
}

/// The sound after a frame of the queue's upkeep: its fade-out advances by
/// `delta`, a lost voice is reclaimed and a demotion whose fade is over returns
/// to waiting.
pub open spec fn kept_up<C>(s: Sound<C>, delta: Duration) -> Sound<C> {
    let reclaimed = reclaimed_sound(faded_out(s, delta));
    if demotion_finished(reclaimed) {
        released_sound(reclaimed)
    } else {
        reclaimed
    }
}

/// The sound after frames of upkeep in turn.
pub open spec fn kept_up_through<C>(s: Sound<C>, frames: Seq<Frame>) -> Sound<C>
    decreases frames.len(),
{
    if frames.len() == 0 {
        s
    } else {
        kept_up(met(kept_up_through(s, frames.drop_last()), frames.last()), frames.last().delta)
    }
}

/// Whether an entry is out of the running for good: gone, or fading with nothing
/// to keep it, and in neither case audible or up for a voice.
pub open spec fn out_of_the_running<C>(s: Sound<C>) -> bool {
    !s.audible && (s.despawned || (s.retiring && leaving(s)))
}

/// Whether frames give the fade-out of a sound, if it has one, all the time it may
/// take, and its clocks stay spans of time.
pub open spec fn outlasts_fade<C>(frames: Seq<Frame>, s: Sound<C>) -> bool {
    s.fade_out matches Some(fade) ==> outlasts(frames, fade.duration) && clocks_fit(fade, frames)
}

/// A stop is final: through frames of whatever lengths, an entry that a stop
/// concerns is never audible nor up for a voice again, and it is gone once its fade
/// has had its time, and stays so. An entry that the stop does not concern is as it
/// was.
pub proof fn a_stop_is_final<C>(
    msg: StopQueuedAudio<C>,
    s: Sound<C>,
    same: bool,
    crossfade: Duration,
    frames: Seq<Frame>,
    more: Seq<Frame>,
)
    ensures
        ({
            let stopped = stopped_sound(msg, s, same, crossfade);
            if !stop_matches(msg, s, same) {
                stopped == s
            } else {
                &&& out_of_the_running(kept_up_through(stopped, frames))
                &&& outlasts_fade(frames, stopped) ==> kept_up_through(
                    stopped,
                    frames + more,
                ).despawned
            }
        }),
{
    let stopped = stopped_sound(msg, s, same, crossfade);
    if stop_matches(msg, s, same) {
        lemma_upkeep_only_fades(stopped, frames);
        if outlasts_fade(frames, stopped) {
            if stopped.despawned {
                lemma_gone_stays_gone(stopped, Seq::empty(), frames);
                assert(Seq::<Frame>::empty() + frames =~= frames);
            } else {
                every_fade_out_ends(stopped, frames);
                fades_end_as_they_were_told(stopped, frames);
            }
            lemma_gone_stays_gone(stopped, frames, more);
        }
    }
}

/// Upkeep does no more to an entry that is out of the running than to advance its
/// fade, and the entry stays out of it.
proof fn lemma_upkeep_only_fades<C>(s: Sound<C>, frames: Seq<Frame>)
    requires
        out_of_the_running(s),
    ensures
        kept_up_through(s, frames) == faded_through(s, frames),
        out_of_the_running(kept_up_through(s, frames)),
    decreases frames.len(),
{
    if frames.len() > 0 {
        lemma_upkeep_only_fades(s, frames.drop_last());
    }
}

/// What is gone after some frames is gone after more.
proof fn lemma_gone_stays_gone<C>(s: Sound<C>, frames: Seq<Frame>, more: Seq<Frame>)
    requires
        kept_up_through(s, frames).despawned,
    ensures
        kept_up_through(s, frames + more).despawned,
    decreases more.len(),
{
    if more.len() == 0 {
        assert(frames + more =~= frames);
    } else {
        lemma_gone_stays_gone(s, frames, more.drop_last());
        assert((frames + more).drop_last() =~= frames + more.drop_last());
    }
}

/// A stop around the end of a fade is never lost: after whichever frames of a
/// demoted loop's fade it comes, before the fade completes, on that frame or after
/// it, the stop concerns the entry, the entry is never audible again, and it is
/// gone once a fade over the crossfade has had its time.
pub proof fn a_stop_at_any_frame_of_a_demotion_is_final<C>(
    msg: StopQueuedAudio<C>,
    s: Sound<C>,
    same: bool,
    crossfade: Duration,
    earlier: Seq<Frame>,
    frames: Seq<Frame>,
    more: Seq<Frame>,
)
    requires
        stop_matches(msg, s, same),
        total(earlier) + total(frames) <= u128::MAX,
    ensures
        ({
            let demoted = kept_up_through(demoted_sound(s, true, crossfade), earlier);
            let stopped = stopped_sound(msg, demoted, same, crossfade);
            &&& stop_matches(msg, demoted, same)
            &&& out_of_the_running(kept_up_through(stopped, frames))
            &&& outlasts(frames, crossfade) ==> kept_up_through(stopped, frames + more).despawned
        }),
{
    let demoted = kept_up_through(demoted_sound(s, true, crossfade), earlier);
    lemma_demotion_frames(s, crossfade, earlier);
    a_stop_is_final(msg, demoted, same, crossfade, frames, more);
}

/// What frames leave of a demoted loop: the entry, retiring with its fade still
/// over the crossfade, or waiting once its fade is over.
proof fn lemma_demotion_frames<C>(s: Sound<C>, crossfade: Duration, frames: Seq<Frame>)
    requires
        s.queued is Some,
        !s.despawned,
        total(frames) <= u128::MAX,
    ensures
        ({
            let demoted = demoted_sound(s, true, crossfade);
            let r = kept_up_through(demoted, frames);
            let faded = faded_through(demoted, frames);
            &&& r.queued == s.queued && !r.despawned && !r.audible
            &&& r.retiring == r.fade_out is Some
            &&& r.fade_out == faded.fade_out
            &&& faded.fade_out is Some ==> r == faded
            &&& (r.fade_out matches Some(fade) ==> fade.duration == crossfade
                && !fade.despawn_on_complete && fade.elapsed.nanos <= total(frames)
                && fade.waiting.nanos <= total(frames))
        }),
    decreases frames.len(),
{
    if frames.len() > 0 {
        lemma_demotion_frames(s, crossfade, frames.drop_last());
        fades_end_as_they_were_told(demoted_sound(s, true, crossfade), frames.drop_last());
    }
}

/// A release leaves a bare entry: nothing of a promotion is left, and the entry
/// itself, its authored volume with it, is as it was.
pub proof fn a_release_leaves_a_bare_entry<C>(s: Sound<C>)
    ensures
        ({
            let r = released_sound(s);
            &&& r.queued == s.queued
            &&& r.entity == s.entity && r.despawned == s.despawned
            &&& !r.audible && !r.retiring
            &&& is_bare(r)
        }),
{
}

/// Waiting entries carry no category and audible ones do, whatever happens to
/// them: a new entry is in order, and neither a fade, a stop, the end of a
/// demotion nor the loss of a voice puts one out of order.
pub proof fn entries_stay_in_order<C>(
    s: Sound<C>,
    msg: StopQueuedAudio<C>,
    same: bool,
    crossfade: Duration,
    delta: Duration,
)
    requires
        is_in_order(s),
    ensures
        s.queued matches Some(entry) ==> is_in_order(
            (Sound { queued: Some(entry), ..Sound::bare(s.entity) }),
        ),
        is_in_order(faded_out(s, delta)),
        is_in_order(faded_in(s)),
        is_in_order(stopped_sound(msg, s, same, crossfade)),
        is_in_order(reclaimed_sound(s)),
        is_in_order(released_sound(s)),
{
}

/// A displaced loop comes back: once the fade of a demoted looping entry has had
/// its time, through frames of whatever lengths, the entry is still there, waiting
/// with the request it had; what its fade leaves is finished as a demotion, which
/// makes it bare.
pub proof fn a_demoted_loop_returns_to_virtual<C>(
    s: Sound<C>,
    crossfade: Duration,
    frames: Seq<Frame>,
)
    requires
        s.queued is Some,
        !s.despawned,
        outlasts(frames, crossfade),
        total(frames) <= u128::MAX,
    ensures
        ({
            let r = kept_up_through(demoted_sound(s, true, crossfade), frames);
            &&& !r.despawned && r.queued == s.queued
            &&& !r.retiring && !r.audible && r.fade_out is None
        }),
        ({
            let faded = faded_through(demoted_sound(s, true, crossfade), frames);
            &&& demotion_finished(faded)
            &&& is_bare(released_sound(faded)) && released_sound(faded).queued == s.queued
        }),
{
    let demoted = demoted_sound(s, true, crossfade);
    every_fade_out_ends(demoted, frames);
    fades_end_as_they_were_told(demoted, frames);
    lemma_demotion_frames(s, crossfade, frames);
}

/// A displaced one-shot is gone once its fade has had its time, through frames of
/// whatever lengths.
pub proof fn a_demoted_one_shot_despawns<C>(
    s: Sound<C>,
    crossfade: Duration,
    frames: Seq<Frame>,
)
    requires
        !s.despawned,
        outlasts(frames, crossfade),
        total(frames) <= u128::MAX,
    ensures
        kept_up_through(demoted_sound(s, false, crossfade), frames).despawned,
{
    let demoted = demoted_sound(s, false, crossfade);
    every_fade_out_ends(demoted, frames);
    fades_end_as_they_were_told(demoted, frames);
    lemma_upkeep_only_fades(demoted, frames);
}

/// A promoted voice starts in silence and fades in to a level between zero and
/// one.
pub proof fn promotions_fade_in<C: AudioCategory>(
    s: Sound<C>,
    target_volume: Single,
    budget: VirtualVoiceBudget<C>,
    pool: Pool,
)
    requires
        !target_volume.is_nan(),
    ensures
        ({
            let r = promoted_sound(s, target_volume, budget, pool);
            &&& (r.effects->0).volume == Some(Volume::silent())
            &&& r.fade_in is Some && (r.fade_in->0).duration == budget.crossfade
            &&& Single::zero().is_at_most((r.fade_in->0).target_volume)
            &&& (r.fade_in->0).target_volume.is_at_most(Single::one())
        }),
{
}

/// A promotion gives an entry the voice it was requested for: it plays the entry's
/// sample, in a loop exactly if the entry loops, under its category, at its own
/// level and at unchanged speed, with the budget's priority; it starts silent and
/// fades in over the budget's crossfade to the volume it was promoted at; it is
/// placed under its parent, else at its position; and the entity stays when the
/// playback ends. The entry itself and everything else is as it was.
pub proof fn a_promotion_carries_the_request<C: AudioCategory>(
    s: Sound<C>,
    entry: VirtualSound<C>,
    target_volume: Single,
    budget: VirtualVoiceBudget<C>,
    pool: Pool,
)
    requires
        s.queued == Some(entry),
    ensures
        ({
            let r = promoted_sound(s, target_volume, budget, pool);
            &&& r.player matches Some(player) && player.sample == entry.handle && player.looping
                == entry.looping
            &&& r.category == Some(entry.category)
            &&& r.base_volume == Some(BaseVolume(entry.base_volume))
            &&& r.base_pitch matches Some(pitch) && pitch.0 == Single::one()
            &&& r.settings matches Some(settings) && settings.speed == Single::one()
                && settings.on_complete == OnComplete::Remove
            &&& r.priority == Some(budget.sample_priority)
            &&& r.effects matches Some(effects) && effects.volume == Some(
                Volume::Linear(Single::zero()),
            ) && effects.cutoff_hz is None && !effects.ready
            &&& r.fade_in matches Some(fade) && fade.duration == budget.crossfade && (
            Single::zero().is_at_most(target_volume) && target_volume.is_at_most(Single::one())
                ==> fade.target_volume == target_volume) && (Single::one().is_less(target_volume)
                ==> fade.target_volume == Single::one())
            &&& r.audible && r.pool == Some(pool)
            &&& entry.parent matches Some(parent) ==> r.placement == Placement::Under(parent)
            &&& entry.parent is None ==> (entry.position matches Some(position) ==> r.placement
                == Placement::At(position.as_vec3()))
            &&& entry.parent is None && entry.position is None ==> r.placement == s.placement
            &&& r.queued == s.queued && r.entity == s.entity && r.despawned == s.despawned
            &&& r.retiring == s.retiring && r.fade_out == s.fade_out && r.orphaned == s.orphaned
            &&& r.ducks == s.ducks && r.undamped == s.undamped && r.self_driven_volume
                == s.self_driven_volume && r.ramp == s.ramp && r.position == s.position
                && r.sampling == s.sampling && r.interrupted == s.interrupted
        }),
{
}

/// A demotion takes the voice away gently: the entry is audible no more and retires,
/// fading out over the crossfade from the start, at the lowest priority; a loop is
/// kept when the fade is over and a one-shot is not. Everything else is as it was.
pub proof fn a_demotion_fades_the_voice_out<C>(s: Sound<C>, looping: bool, crossfade: Duration)
    ensures
        ({
            let r = demoted_sound(s, looping, crossfade);
            &&& !r.audible && r.retiring && r.fade_in is None && r.priority == Some(0i32)
            &&& r.fade_out matches Some(fade) && fade.duration == crossfade && !fade.triggered
                && fade.elapsed.nanos == 0 && fade.waiting.nanos == 0 && fade.despawn_on_complete
                == !looping
            &&& r == (Sound {
                audible: r.audible,
                retiring: r.retiring,
                fade_in: r.fade_in,
                fade_out: r.fade_out,
                priority: r.priority,
                ..s
            })
        }),
{
}

/// A release interrupts what a sampler plays, and takes off what a promotion put on;
/// the entry, its place and its marks are as they were.
pub proof fn a_release_interrupts_what_plays<C>(s: Sound<C>)
    ensures
        ({
            let r = released_sound(s);
            &&& s.sampling ==> r.interrupted
            &&& !s.sampling ==> r.interrupted == s.interrupted
            &&& !r.sampling && r.settings is None && r.priority is None && r.player is None
            &&& r.fade_in is None && r.fade_out is None && r.effects is None
            &&& r.category is None && r.base_volume is None && r.base_pitch is None
            &&& r.pool is None && !r.audible && !r.retiring
            &&& r.entity == s.entity && r.despawned == s.despawned
            &&& r.queued == s.queued && r.placement == s.placement && r.position == s.position
            &&& r.ducks == s.ducks && r.undamped == s.undamped && r.self_driven_volume
                == s.self_driven_volume && r.orphaned == s.orphaned && r.ramp == s.ramp
        }),
{
}

/// Once the voice of an audible entry has ended, a loop waits again and a one-shot is
/// gone; what still plays, what retires, what waits and what is no entry is left
/// alone.
pub proof fn lost_voices_are_reclaimed<C>(s: Sound<C>)
    ensures
        ({
            let r = reclaimed_sound(s);
            let lost = !s.despawned && s.audible && s.player is None && !s.retiring;
            &&& !lost || s.queued is None ==> r == s
            &&& lost ==> (s.queued matches Some(entry) ==> (entry.looping ==> !r.despawned
                && !r.audible && r.player is None && r.queued == s.queued) && (!entry.looping
                ==> r == (Sound { despawned: true, ..s })))
        }),
{
}

/// A demotion is finished exactly once its fade is gone from an entry that retires.
pub proof fn a_demotion_ends_with_its_fade<C>(s: Sound<C>)
    ensures
        demotion_finished(s) <==> !s.despawned && s.queued is Some && s.retiring && s.fade_out
            is None,
{
}

/// A stop concerns an entry exactly if it is there, of the category asked for, if one
/// is, and of the sample asked for, if one is.
pub proof fn a_stop_concerns_what_it_names<C>(msg: StopQueuedAudio<C>, s: Sound<C>, same: bool)
    ensures
        s.despawned || s.queued is None ==> !stop_matches(msg, s, same),
        msg.category is Some && !same ==> !stop_matches(msg, s, same),
        !s.despawned ==> (s.queued matches Some(entry) ==> {
            let sample = msg.handle is None || msg.handle == Some(entry.handle);
            let category = msg.category is None || same;
            stop_matches(msg, s, same) <==> sample && category
        }),
{
}

/// What a stop does to an entry it concerns: an audible one fades out over the
/// crossfade and is then gone, one that waits is gone at once, and one that retires
/// fades on as it did and is then gone, or is gone at once if its fade has run out.
pub proof fn a_stop_fades_what_plays<C>(
    msg: StopQueuedAudio<C>,
    s: Sound<C>,
    same: bool,
    crossfade: Duration,
)
    requires
        stop_matches(msg, s, same),
    ensures
        ({
            let r = stopped_sound(msg, s, same, crossfade);
            &&& s.audible ==> !r.despawned && !r.audible && r.retiring && (
            r.fade_out matches Some(fade) && fade.duration == crossfade
                && fade.despawn_on_complete && !fade.triggered)
            &&& !s.audible && !s.retiring ==> r == (Sound { despawned: true, ..s })
            &&& !s.audible && s.retiring && s.fade_out is None ==> r == (Sound {
                despawned: true,
                ..s
            })
            &&& !s.audible && s.retiring ==> (s.fade_out matches Some(fade) ==> {
                let over = if fade.triggered {
                    fade.elapsed.nanos >= fade.duration.nanos
                } else {
                    fade.waiting.nanos >= fade.duration.nanos + 500_000_000
                };
                r == if over {
                    Sound { despawned: true, ..s }
                } else {
                    Sound {
                        fade_out: Some(FadeOutAudio { despawn_on_complete: true, ..fade }),
                        ..s
                    }
                }
            })
        }),
{
}

/// Stops in turn leave an entry alone exactly if none of them concerns it.
pub proof fn an_entry_no_stop_names_is_left_alone<C>(
    messages: Seq<StopQueuedAudio<C>>,
    s: Sound<C>,
    same: Seq<bool>,
    crossfade: Duration,
)
    requires
        same.len() == messages.len(),
    ensures
        (forall|k: int|
            0 <= k < messages.len() ==> !stop_matches(#[trigger] messages[k], s, same[k]))
            ==> stopped_by_all(messages, s, same, crossfade) == s,
        (exists|k: int|
            0 <= k < messages.len() && stop_matches(#[trigger] messages[k], s, same[k]))
            ==> out_of_the_running(stopped_by_all(messages, s, same, crossfade)),
        out_of_the_running(s) ==> out_of_the_running(
            stopped_by_all(messages, s, same, crossfade),
        ),
        stopped_by_all(messages, s, same, crossfade).queued == s.queued,
    decreases messages.len(),
{
    if messages.len() > 0 {
        let earlier = messages.drop_last();
        let before = same.drop_last();
        let last: int = messages.len() - 1;
        an_entry_no_stop_names_is_left_alone(earlier, s, before, crossfade);
        assert(forall|k: int| 0 <= k < last ==> #[trigger] messages[k] == earlier[k]);
        assert(forall|k: int| 0 <= k < last ==> #[trigger] before[k] == same[k]);
        assert(messages[last] == messages.last() && same[last] == same.last());
        if exists|k: int| 0 <= k < last && stop_matches(#[trigger] messages[k], s, same[k]) {
            let k = choose|k: int|
                0 <= k < last && stop_matches(#[trigger] messages[k], s, same[k]);
            assert(stop_matches(earlier[k], s, before[k]));
        } else {
            assert forall|k: int| 0 <= k < earlier.len() implies !stop_matches(
                #[trigger] earlier[k],
                s,
                before[k],
            ) by {
                assert(messages[k] == earlier[k]);
            }
        }
    }
}

/// An entry with a parent or a position goes into the spatial pool, every other into
/// the default one.
pub proof fn what_is_somewhere_is_spatial<C>(entry: VirtualSound<C>)
    ensures
        default_route(entry) == Pool::Spatial <==> entry.parent is Some || entry.position is Some,
        default_route(entry) == Pool::Default <==> entry.parent is None && entry.position is None,
{
}

/// Whether a stop asks for the category of an entry is what comparing the category
/// that the entry was requested under with the one the stop names answers, whatever
/// category its sound plays in.
pub proof fn stops_compare_what_was_requested<C: AudioCategory>(
    messages: Seq<StopQueuedAudio<C>>,
    s: Sound<C>,
    same: Seq<bool>,
    k: int,
    entry: VirtualSound<C>,
    asked: C,
)
    requires
        stops_compared(messages, s, same),
        0 <= k < messages.len(),
        s.queued == Some(entry),
        messages[k].category == Some(asked),
    ensures
        call_ensures(C::eq, (&entry.category, &asked), same[k]),
{
    assert(says_asked_for(entry_category(s), messages[k].category, same[k]));
}

} // verus!
