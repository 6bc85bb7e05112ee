//! Fade-in and fade-out for any sound, whatever its category.
//!
//! A [`FadeInAudio`] or [`FadeOutAudio`] on a sound hands a ramp of its volume
//! node to the audio thread instead of snapping it.

use crate::baseline::BaseVolume;
use crate::single::Single;
use crate::sound::{Effects, Ramp, Sound, Volume};
use crate::time::Duration;
use vstd::prelude::*;

verus! {

/// How long past its duration an untriggered fade-out waits for its effects,
/// in milliseconds.
pub const UNRESOLVED_EFFECTS_GRACE: u64 = 500;

/// Fades a sound in from silence to a target volume.
///
/// Goes once the fade has been handed to the audio thread, and is retried
/// every frame until the sound's volume node can be handed ramps.
#[derive(Clone, Copy, Debug, PartialEq)]
pub struct FadeInAudio {
    /// Duration of the fade.
    pub duration: Duration,
    /// Target linear volume, between zero and one.
    pub target_volume: Single,
}

impl FadeInAudio {
    pub open spec fn spec_new(duration: Duration, target_volume: Single) -> FadeInAudio {
        FadeInAudio { duration, target_volume: target_volume.clamp(Single::zero(), Single::one()) }
    }

    /// A fade-in to `target_volume` over `duration`.
    #[verifier::when_used_as_spec(spec_new)]
    pub fn new(duration: Duration, target_volume: Single) -> (r: FadeInAudio)
        ensures
            r == FadeInAudio::new(duration, target_volume),
    {
        FadeInAudio { duration, target_volume: target_volume.clamp(Single::zero(), Single::one()) }
    }
}

/// Fades a sound out to silence, despawning it once the fade completes unless
/// told to keep it.
///
/// The fade is handed to the audio thread as soon as the volume node can be
/// handed ramps; elapsed time is counted from then on to schedule completion.
/// On completion the sound is despawned, or with [`Self::keep_entity`] it stays
/// and lands on silence. A sound whose effects never resolve still completes
/// once its duration plus a grace period has passed.
#[derive(Clone, Copy, Debug, PartialEq, Eq, Structural)]
pub struct FadeOutAudio {
    /// Duration of the fade.
    pub duration: Duration,
    /// Whether to despawn the sound once the fade completes.
    pub despawn_on_complete: bool,
    /// Whether the fade has been handed to the audio thread yet.
    pub triggered: bool,
    /// Time elapsed since the fade was handed to the audio thread.
    pub elapsed: Duration,
    /// Time spent waiting for the effects to resolve.
    pub waiting: Duration,
}

impl FadeOutAudio {
    pub open spec fn spec_new(duration: Duration) -> FadeOutAudio {
        FadeOutAudio {
            duration,
            despawn_on_complete: true,
            triggered: false,
            elapsed: Duration::zero(),
            waiting: Duration::zero(),
        }
    }

    pub open spec fn spec_keep_entity(self) -> FadeOutAudio {
        FadeOutAudio { despawn_on_complete: false, ..self }
    }

    pub open spec fn spec_is_complete(&self) -> bool {
        if self.triggered {
            self.elapsed.nanos >= self.duration.nanos
        } else {
            self.waiting.nanos >= self.duration.nanos + Duration::from_millis(
                UNRESOLVED_EFFECTS_GRACE,
            ).nanos
        }
    }

    /// Whether the deadline of the fade is a span of time.
    pub open spec fn deadline_fits(&self) -> bool {
        self.triggered || self.duration.fits(Duration::from_millis(UNRESOLVED_EFFECTS_GRACE))
    }

    /// A fade-out to silence over `duration`, despawning the sound on
    /// completion.
    #[verifier::when_used_as_spec(spec_new)]
    pub fn new(duration: Duration) -> (r: FadeOutAudio)
        ensures
            r == FadeOutAudio::new(duration),
    {
        FadeOutAudio {
            duration,
            despawn_on_complete: true,
            triggered: false,
            elapsed: Duration::zero(),
            waiting: Duration::zero(),
        }
    }

    /// Keeps the sound after the fade completes instead of despawning it.
    #[verifier::when_used_as_spec(spec_keep_entity)]
    pub fn keep_entity(self) -> (r: FadeOutAudio)
        ensures
            r == self.keep_entity(),
    {
        FadeOutAudio { despawn_on_complete: false, ..self }
    }

    /// Whether the fade has run its course: its duration elapsed since being
    /// handed to the audio thread, or the grace for unresolved effects is
    /// exhausted.
    #[verifier::when_used_as_spec(spec_is_complete)]
    pub fn is_complete(&self) -> (r: bool)
        requires
            self.deadline_fits(),
        ensures
            r == self.is_complete(),
    {
        if self.triggered {
            self.elapsed.nanos >= self.duration.nanos
        } else {
            let grace = Duration::from_millis(UNRESOLVED_EFFECTS_GRACE);
            self.waiting.nanos >= self.duration.plus(grace).nanos
        }
    }
}

/// The sound after its fade-out, now at `fade`, completes if it has.
pub open spec fn settled<C>(s: Sound<C>, fade: FadeOutAudio) -> Sound<C> {
    if !fade.is_complete() {
        Sound { fade_out: Some(fade), ..s }
    } else if fade.despawn_on_complete {
        Sound { fade_out: Some(fade), despawned: true, ..s }
    } else {
        Sound { fade_out: None, base_volume: Some(BaseVolume::silent()), ..s }
    }
}

/// The sound after its fade-out was advanced by `delta`.
pub open spec fn faded_out<C>(s: Sound<C>, delta: Duration) -> Sound<C> {
    match s.fade_out {
        Some(fade) => if s.despawned {
            s
        } else if fade.triggered {
            settled(s, FadeOutAudio { elapsed: fade.elapsed.plus(delta), ..fade })
        } else if s.takes_ramps() {
            Sound {
                ramp: Some(Ramp { to: Volume::silent(), duration: fade.duration }),
                fade_out: Some(FadeOutAudio { triggered: true, ..fade }),
                ..s
            }
        } else {
            settled(s, FadeOutAudio { waiting: fade.waiting.plus(delta), ..fade })
        },
        None => s,
    }
}

/// Whether the fade-out of a sound can be advanced by `delta`: the clock that
/// runs, and the deadline it is held against, stay spans of time.
pub open spec fn can_fade_out<C>(s: Sound<C>, delta: Duration) -> bool {
    s.fade_out matches Some(fade) ==> s.despawned || if fade.triggered {
        fade.elapsed.fits(delta)
    } else {
        s.takes_ramps() || (fade.waiting.fits(delta) && fade.deadline_fits())
    }
}

/// The sound after its fade-in was handed to the audio thread, if it could be.
pub open spec fn faded_in<C>(s: Sound<C>) -> Sound<C> {
    match s.fade_in {
        Some(fade) => if !s.despawned && s.takes_ramps() {
            Sound {
                ramp: Some(Ramp { to: Volume::Linear(fade.target_volume), duration: fade.duration }),
                fade_in: None,
                ..s
            }
        } else {
            s
        },
        None => s,
    }
}

fn settle<C: Copy>(s: Sound<C>, fade: FadeOutAudio) -> (r: Sound<C>)
    requires
        fade.deadline_fits(),
    ensures
        r == settled(s, fade),
{
    if !fade.is_complete() {
        Sound { fade_out: Some(fade), ..s }
    } else if fade.despawn_on_complete {
        Sound { fade_out: Some(fade), despawned: true, ..s }
    } else {
        Sound { fade_out: None, base_volume: Some(BaseVolume::silent()), ..s }
    }
}

/// Advances the fade-out of one sound by `delta`.
pub fn fade_out_sound<C: Copy>(s: Sound<C>, delta: Duration) -> (r: Sound<C>)
    requires
        can_fade_out(s, delta),
    ensures
        r == faded_out(s, delta),
{
    match s.fade_out {
        Some(fade) => {
            if s.despawned {
                s
            } else if fade.triggered {
                settle(s, FadeOutAudio { elapsed: fade.elapsed.plus(delta), ..fade })
            } else if s.takes_ramps() {
                Sound {
                    ramp: Some(Ramp { to: Volume::silent(), duration: fade.duration }),
                    fade_out: Some(FadeOutAudio { triggered: true, ..fade }),
                    ..s
                }
            } else {
                settle(s, FadeOutAudio { waiting: fade.waiting.plus(delta), ..fade })
            }
        },
        None => s,
    }
}

/// Hands the fade-in of one sound to the audio thread, if it can be.
pub fn fade_in_sound<C: Copy>(s: Sound<C>) -> (r: Sound<C>)
    ensures
        r == faded_in(s),
{
    match s.fade_in {
        Some(fade) => {
            if !s.despawned && s.takes_ramps() {
                Sound {
                    ramp: Some(
                        Ramp { to: Volume::Linear(fade.target_volume), duration: fade.duration },
                    ),
                    fade_in: None,
                    ..s
                }
            } else {
                s
            }
        },
        None => s,
    }
}

/// Hands each fade-out to the audio thread on first sight, then completes it
/// once its duration has elapsed since.
pub fn fade_out_audio_system<C: Copy>(sounds: &mut Vec<Sound<C>>, delta: Duration)
    requires
        forall|i: int|
            0 <= i < old(sounds)@.len() ==> can_fade_out(#[trigger] old(sounds)@[i], delta),
    ensures
        final(sounds)@.len() == old(sounds)@.len(),
        forall|i: int|
            0 <= i < old(sounds)@.len() ==> #[trigger] final(sounds)@[i] == faded_out(
                old(sounds)@[i],
                delta,
            ),
{
    let mut i: usize = 0;
    while i < sounds.len()
        invariant
            i <= sounds@.len() == old(sounds)@.len(),
            forall|j: int| 0 <= j < i ==> #[trigger] sounds@[j] == faded_out(old(sounds)@[j], delta),
            forall|j: int| i <= j < sounds@.len() ==> #[trigger] sounds@[j] == old(sounds)@[j],
            forall|j: int|
                0 <= j < old(sounds)@.len() ==> can_fade_out(#[trigger] old(sounds)@[j], delta),
        decreases sounds@.len() - i,
    {
        assert(can_fade_out(old(sounds)@[i as int], delta));
        let s = fade_out_sound(sounds[i], delta);
        sounds.set(i, s);
        i = i + 1;
    }
}

/// Hands each fade-in to the audio thread and takes it off the sound.
pub fn fade_in_audio_system<C: Copy>(sounds: &mut Vec<Sound<C>>)
    ensures
        final(sounds)@.len() == old(sounds)@.len(),
        forall|i: int|
            0 <= i < old(sounds)@.len() ==> #[trigger] final(sounds)@[i] == faded_in(
                old(sounds)@[i],
            ),
{
    let mut i: usize = 0;
    while i < sounds.len()
        invariant
            i <= sounds@.len() == old(sounds)@.len(),
            forall|j: int| 0 <= j < i ==> #[trigger] sounds@[j] == faded_in(old(sounds)@[j]),
            forall|j: int| i <= j < sounds@.len() ==> #[trigger] sounds@[j] == old(sounds)@[j],
        decreases sounds@.len() - i,
    {
        let s = fade_in_sound(sounds[i]);
        sounds.set(i, s);
        i = i + 1;
    }
}

/// One frame as a sound meets it: how long it takes, and what the host has by then
/// resolved of the sound's effects.
pub struct Frame {
    pub delta: Duration,
    pub effects: Option<Effects>,
}

impl Frame {
    /// Whether a fade can be handed to the audio thread in this frame.
    pub open spec fn takes_ramps(self) -> bool {
        self.effects matches Some(effects) && effects.volume is Some && effects.ready
    }
}

/// How long frames take together, in nanoseconds.
pub open spec fn total(frames: Seq<Frame>) -> nat
    decreases frames.len(),
{
    if frames.len() == 0 {
        0
    } else {
        total(frames.drop_last()) + frames.last().delta.nanos as nat
    }
}

/// A sound with its effects as a frame finds them.
pub open spec fn met<C>(s: Sound<C>, frame: Frame) -> Sound<C> {
    Sound { effects: frame.effects, ..s }
}

/// The sound after its fade-out was advanced by frames in turn.
pub open spec fn faded_through<C>(s: Sound<C>, frames: Seq<Frame>) -> Sound<C>
    decreases frames.len(),
{
    if frames.len() == 0 {
        s
    } else {
        faded_out(met(faded_through(s, frames.drop_last()), frames.last()), frames.last().delta)
    }
}

/// Whether the clocks of a fade-out stay spans of time through frames.
pub open spec fn clocks_fit(fade: FadeOutAudio, frames: Seq<Frame>) -> bool {
    fade.elapsed.nanos + total(frames) <= u128::MAX && fade.waiting.nanos + total(frames)
        <= u128::MAX
}

/// The longest that a fade-out over `duration` waits for its effects, in
/// nanoseconds.
pub open spec fn patience(duration: Duration) -> nat {
    (duration.nanos + Duration::from_millis(UNRESOLVED_EFFECTS_GRACE).nanos) as nat
}

/// Whether frames give a fade-out over `duration` all the time it may take. Where
/// the effects can take ramps in every frame, or in none, the frames after the
/// first take the duration and the grace. Where that changes from frame to frame,
/// they take the duration once more, whichever one frame goes to handing over.
pub open spec fn outlasts(frames: Seq<Frame>, duration: Duration) -> bool {
    &&& frames.len() > 0
    &&& {
        ||| is_steady(frames) && total(frames) - frames[0].delta.nanos >= patience(duration)
        ||| forall|h: int|
            0 <= h < frames.len() ==> total(frames) - (#[trigger] frames[h]).delta.nanos
                >= patience(duration) + duration.nanos
    }
}

/// Whether effects can take ramps in every frame, or in none.
pub open spec fn is_steady(frames: Seq<Frame>) -> bool {
    forall|k: int|
        0 <= k < frames.len() ==> (#[trigger] frames[k]).takes_ramps() == frames[0].takes_ramps()
}

/// Whether no fade-out is left to advance.
pub open spec fn fade_out_over<C>(s: Sound<C>) -> bool {
    s.despawned || s.fade_out is None
}

/// Nothing leaks: through frames of whatever lengths, a fade-out ends, by
/// despawning its sound or by going from it. One that was handed to the audio
/// thread ends once its duration has elapsed, one whose effects never resolve once
/// its grace is exhausted too, one that is handed over at first sight once its
/// duration has elapsed since, and any other once it has had all of that time.
pub proof fn every_fade_out_ends<C>(s: Sound<C>, frames: Seq<Frame>)
    requires
        !s.despawned,
        s.fade_out matches Some(fade) && clocks_fit(fade, frames),
        frames.len() > 0,
    ensures
        ({
            let fade = s.fade_out->0;
            let over = fade_out_over(faded_through(s, frames));
            &&& fade.triggered && fade.elapsed.nanos + total(frames) >= fade.duration.nanos ==> over
            &&& !fade.triggered && !frames[0].takes_ramps() && is_steady(frames)
                && fade.waiting.nanos + total(frames) >= patience(fade.duration) ==> over
            &&& !fade.triggered && frames[0].takes_ramps() && frames.len() > 1
                && fade.elapsed.nanos + total(frames) - frames[0].delta.nanos
                >= fade.duration.nanos ==> over
            &&& outlasts(frames, fade.duration) ==> over
        }),
{
    let fade = s.fade_out->0;
    let h: int = lemma_fade_progresses(s, frames);
    let r = faded_through(s, frames);
    if !fade_out_over(r) && !fade.triggered && (r.fade_out->0).triggered {
        lemma_total_take(frames, h);
        lemma_total_grows(frames, h + 1);
        assert(frames.take(0) =~= Seq::empty());
        if frames[0].takes_ramps() {
            assert(h == 0);
        }
    }
    lemma_total_take(frames, 0);
    assert(frames.take(0) =~= Seq::empty());
    lemma_total_grows(frames, 1);
}

/// The frames up to one take what those before it take, and what it takes.
proof fn lemma_total_take(frames: Seq<Frame>, h: int)
    requires
        0 <= h < frames.len(),
    ensures
        total(frames.take(h + 1)) == total(frames.take(h)) + frames[h].delta.nanos,
{
    assert(frames.take(h + 1).drop_last() =~= frames.take(h));
}

/// The first frames take no longer than all of them.
proof fn lemma_total_grows(frames: Seq<Frame>, k: int)
    requires
        0 <= k <= frames.len(),
    ensures
        total(frames.take(k)) <= total(frames),
    decreases frames.len(),
{
    if k == frames.len() {
        assert(frames.take(k) =~= frames);
    } else {
        lemma_total_grows(frames.drop_last(), k);
        assert(frames.drop_last().take(k) =~= frames.take(k));
    }
}

/// What ends a fade-out is settled from the start: advancing it despawns its
/// sound only if it was told to, goes from it only if it was not, and leaves the
/// sound's place in the queue alone.
pub proof fn fades_end_as_they_were_told<C>(s: Sound<C>, frames: Seq<Frame>)
    requires
        !s.despawned,
        s.fade_out is Some,
    ensures
        ({
            let r = faded_through(s, frames);
            &&& r.queued == s.queued && r.retiring == s.retiring && r.audible == s.audible
            &&& if (s.fade_out->0).despawn_on_complete {
                r.fade_out matches Some(fade) && fade.despawn_on_complete
            } else {
                !r.despawned && (r.fade_out matches Some(fade) ==> !fade.despawn_on_complete)
            }
        }),
    decreases frames.len(),
{
    if frames.len() > 0 {
        fades_end_as_they_were_told(s, frames.drop_last());
    }
}

/// What frames leave of a fade-out: it has ended; or it waits, and its clock has
/// moved on by all of them; or it runs, and its clock has moved on by those since
/// it was handed over, in frame `h` if not before.
proof fn lemma_fade_progresses<C>(s: Sound<C>, frames: Seq<Frame>) -> (h: int)
    requires
        s.fade_out matches Some(fade) && clocks_fit(fade, frames),
        !s.despawned,
    ensures
        ({
            let r = faded_through(s, frames);
            let was = s.fade_out->0;
            let now = r.fade_out->0;
            fade_out_over(r) || {
                &&& now.duration == was.duration
                &&& if !now.triggered {
                    &&& !was.triggered && now.elapsed == was.elapsed
                    &&& now.waiting.nanos == was.waiting.nanos + total(frames)
                    &&& forall|k: int|
                        0 <= k < frames.len() ==> !(#[trigger] frames[k]).takes_ramps()
                    &&& frames.len() > 0 ==> now.waiting.nanos < patience(was.duration)
                } else if was.triggered {
                    &&& now.elapsed.nanos == was.elapsed.nanos + total(frames)
                    &&& frames.len() > 0 ==> now.elapsed.nanos < was.duration.nanos
                } else {
                    &&& 0 <= h < frames.len() && frames[h].takes_ramps()
                    &&& forall|k: int| 0 <= k < h ==> !(#[trigger] frames[k]).takes_ramps()
                    &&& h > 0 ==> was.waiting.nanos + total(frames.take(h)) < patience(
                        was.duration,
                    )
                    &&& now.elapsed.nanos == was.elapsed.nanos + total(frames) - total(
                        frames.take(h + 1),
                    )
                    &&& h + 1 < frames.len() ==> now.elapsed.nanos < was.duration.nanos
                }
            }
        }),
    decreases frames.len(),
{
    if frames.len() == 0 {
        0
    } else {
        let last: int = frames.len() - 1;
        let earlier = frames.drop_last();
        let h: int = lemma_fade_progresses(s, earlier);
        let before = faded_through(s, earlier);
        assert(forall|k: int| 0 <= k < last ==> #[trigger] frames[k] == earlier[k]);
        if fade_out_over(before) {
            0
        } else if !(before.fade_out->0).triggered {
            // It waits still, or this frame hands it over.
            assert(frames.take(last) =~= earlier);
            assert(frames.take(last + 1) =~= frames);
            last
        } else if !(s.fade_out->0).triggered {
            assert(frames.take(h) =~= earlier.take(h));
            assert(frames.take(h + 1) =~= earlier.take(h + 1));
            lemma_total_grows(earlier, h + 1);
            h
        } else {
            0
        }
    }
}

/// A fade-out that keeps its sound lands it on silence: once the fade has run
/// its course, the sound is still there, and its own level is zero.
pub proof fn a_kept_sound_lands_on_silence<C>(s: Sound<C>, delta: Duration)
    requires
        s.fade_out matches Some(fade) && !fade.despawn_on_complete,
        !s.despawned,
        faded_out(s, delta).fade_out is None,
    ensures
        !faded_out(s, delta).despawned,
        faded_out(s, delta).base_volume == Some(BaseVolume::silent()),
{
}

/// No fade-out ends early: one that was handed to the audio thread goes on until its
/// duration has elapsed, and one whose effects do not resolve waits for as long and
/// half a second more. Until then the sound keeps its fade and is not despawned.
pub proof fn no_fade_out_ends_early<C>(s: Sound<C>, frames: Seq<Frame>)
    requires
        !s.despawned,
        s.fade_out is Some,
    ensures
        ({
            let fade = s.fade_out->0;
            let r = faded_through(s, frames);
            &&& fade.triggered && fade.elapsed.nanos + total(frames) < fade.duration.nanos ==> {
                &&& !r.despawned
                &&& r.fade_out == Some(
                    FadeOutAudio {
                        elapsed: Duration { nanos: (fade.elapsed.nanos + total(frames)) as u128 },
                        ..fade
                    },
                )
            }
            &&& !fade.triggered && (forall|k: int|
                0 <= k < frames.len() ==> !(#[trigger] frames[k]).takes_ramps())
                && fade.waiting.nanos + total(frames) < fade.duration.nanos + 500_000_000
                && fade.waiting.nanos + total(frames) <= u128::MAX ==> {
                &&& !r.despawned
                &&& r.fade_out == Some(
                    FadeOutAudio {
                        waiting: Duration { nanos: (fade.waiting.nanos + total(frames)) as u128 },
                        ..fade
                    },
                )
            }
        }),
    decreases frames.len(),
{
    if frames.len() > 0 {
        let earlier = frames.drop_last();
        assert(forall|k: int| 0 <= k < earlier.len() ==> #[trigger] earlier[k] == frames[k]);
        no_fade_out_ends_early(s, earlier);
        assert(frames.last() == frames[frames.len() - 1]);
        let last = frames.last();
        assert(met(faded_through(s, earlier), last).takes_ramps() == last.takes_ramps());
    }
}

/// The frame in which a fade-out is handed to the audio thread hands over a ramp to
/// silence over the fade's duration, starts its clock and changes nothing else.
pub proof fn handing_over_ramps_to_silence<C>(s: Sound<C>, delta: Duration, fade: FadeOutAudio)
    requires
        !s.despawned,
        s.fade_out == Some(fade),
        !fade.triggered,
        s.effects matches Some(effects) && effects.volume is Some && effects.ready,
    ensures
        ({
            let r = faded_out(s, delta);
            &&& r.ramp matches Some(ramp) && ramp.to == Volume::Linear(Single::zero())
                && ramp.duration == fade.duration
            &&& r.fade_out == Some(FadeOutAudio { triggered: true, ..fade })
            &&& r == (Sound { ramp: r.ramp, fade_out: r.fade_out, ..s })
        }),
{
}

/// A frame that does not hand a fade-out over plays no ramp; what has no fade-out,
/// and what is gone, is left alone.
pub proof fn only_handing_over_plays_a_ramp<C>(s: Sound<C>, delta: Duration)
    ensures
        s.fade_out is None || s.despawned ==> faded_out(s, delta) == s,
        s.fade_out matches Some(fade) ==> (fade.triggered || s.effects is None || (
        s.effects->0).volume is None || !(s.effects->0).ready ==> faded_out(s, delta).ramp
            == s.ramp),
        faded_out(s, delta).effects == s.effects,
        faded_out(s, delta).queued == s.queued,
        faded_out(s, delta).fade_in == s.fade_in,
{
}

/// A fade-in is handed to the audio thread as a ramp to its target over its
/// duration, as soon as the volume node can be handed ramps and not before, and is
/// then done. Nothing else of the sound changes.
pub proof fn a_fade_in_ramps_to_its_target<C>(s: Sound<C>, fade: FadeInAudio)
    requires
        !s.despawned,
        s.fade_in == Some(fade),
    ensures
        ({
            let ready = s.effects matches Some(effects) && effects.volume is Some
                && effects.ready;
            let r = faded_in(s);
            &&& !ready ==> r == s
            &&& ready ==> r.fade_in is None && (r.ramp matches Some(ramp) && ramp.to
                == Volume::Linear(fade.target_volume) && ramp.duration == fade.duration)
            &&& r == (Sound { ramp: r.ramp, fade_in: r.fade_in, ..s })
        }),
{
}

/// The target of a fade-in is the volume asked for, moved into the range from
/// silence to full.
pub proof fn fade_in_targets_are_clamped(duration: Duration, target: Single)
    ensures
        ({
            let fade = FadeInAudio::new(duration, target);
            &&& fade.duration == duration
            &&& Single::zero().is_at_most(target) && target.is_at_most(Single::one())
                ==> fade.target_volume == target
            &&& target.is_less(Single::zero()) ==> fade.target_volume == Single::zero()
            &&& Single::one().is_less(target) ==> fade.target_volume == Single::one()
        }),
{
}

/// A new fade-out has everything ahead of it and despawns its sound in the end; one
/// that keeps its sound is the same but for that.
pub proof fn a_fade_out_starts_from_the_start(duration: Duration)
    ensures
        ({
            let fade = FadeOutAudio::new(duration);
            &&& fade.duration == duration && fade.despawn_on_complete && !fade.triggered
            &&& fade.elapsed.nanos == 0 && fade.waiting.nanos == 0
            &&& fade.keep_entity() == (FadeOutAudio { despawn_on_complete: false, ..fade })
        }),
{
}

} // verus!
