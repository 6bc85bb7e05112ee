//! The budget of the queue and the requests it answers.

use crate::baseline::sanitize_weight;
use crate::counting::{count, lemma_count_same};
use crate::geometry::Vec2;
use crate::messages::{SampleId, SpatialPosition};
use crate::single::order::lemma_total_place_tells;
use crate::single::Single;
use crate::sound::Sound;
use crate::time::Duration;
use crate::traits::AudioCategory;
use crate::virtual_queue::admission::{
    opened, sanitized_distance, AdmissionGate, AdmissionRequest, AdmissionState, GateState,
};
use crate::virtual_queue::displacement::{sanitized_margin, DEFAULT_DISPLACEMENT_MARGIN};
use crate::virtual_queue::VirtualSound;
use core::marker::PhantomData;
use vstd::arithmetic::power2::{lemma2_to64, lemma_pow2_adds, pow2};
use vstd::prelude::*;

verus! {

/// How many voices a queue holds by default.
pub const DEFAULT_MAX_AUDIBLE: usize = 16;

/// The default crossfade, in milliseconds.
pub const DEFAULT_CROSSFADE_MILLIS: u64 = 50;

/// The default wait of a one-shot, in milliseconds.
pub const DEFAULT_MAX_WAIT_MILLIS: u64 = 500;

/// The default priority of a promoted voice.
pub const DEFAULT_SAMPLE_PRIORITY: i32 = 2;

/// Budget for one category type's significance-ranked voice queue.
#[derive(Debug)]
pub struct VirtualVoiceBudget<C: AudioCategory> {
    /// Maximum number of entries that may hold a real voice at once.
    pub max_audible: usize,
    /// Duration of the crossfade when an entry is promoted or demoted.
    pub crossfade: Duration,
    /// How long a never-promoted one-shot waits before it is dropped. Looping
    /// entries wait indefinitely.
    pub max_wait: Duration,
    /// Priority given to promoted voices.
    pub sample_priority: i32,
    /// Cap on how many requests may be admitted into the queue per frame.
    /// `None` admits everything. Requests past the cap are dropped.
    pub max_admissions_per_frame: Option<usize>,
    /// Incumbent bonus: a newcomer must exceed an audible voice's significance
    /// by this factor to displace it.
    pub displacement_margin: Single,
    pub _phantom: PhantomData<C>,
}

impl<C: AudioCategory> VirtualVoiceBudget<C> {
    pub open spec fn spec_new(max_audible: usize) -> VirtualVoiceBudget<C> {
        VirtualVoiceBudget {
            max_audible,
            crossfade: Duration::from_millis(DEFAULT_CROSSFADE_MILLIS),
            max_wait: Duration::from_millis(DEFAULT_MAX_WAIT_MILLIS),
            sample_priority: DEFAULT_SAMPLE_PRIORITY,
            max_admissions_per_frame: None,
            displacement_margin: Single { bits: DEFAULT_DISPLACEMENT_MARGIN },
            _phantom: PhantomData,
        }
    }

    /// A budget for up to `max_audible` simultaneous voices, with the default
    /// crossfade, wait, priority and displacement margin.
    #[verifier::when_used_as_spec(spec_new)]
    pub fn new(max_audible: usize) -> (r: VirtualVoiceBudget<C>)
        ensures
            r == VirtualVoiceBudget::<C>::new(max_audible),
    {
        VirtualVoiceBudget {
            max_audible,
            crossfade: Duration::from_millis(DEFAULT_CROSSFADE_MILLIS),
            max_wait: Duration::from_millis(DEFAULT_MAX_WAIT_MILLIS),
            sample_priority: DEFAULT_SAMPLE_PRIORITY,
            max_admissions_per_frame: None,
            displacement_margin: Single { bits: DEFAULT_DISPLACEMENT_MARGIN },
            _phantom: PhantomData,
        }
    }

    /// Sets the crossfade of promotions and demotions.
    pub fn with_crossfade(self, crossfade: Duration) -> (r: VirtualVoiceBudget<C>)
        ensures
            r == (VirtualVoiceBudget { crossfade, ..self }),
    {
        VirtualVoiceBudget { crossfade, ..self }
    }

    /// Sets how long a never-promoted one-shot waits before being dropped.
    pub fn with_max_wait(self, max_wait: Duration) -> (r: VirtualVoiceBudget<C>)
        ensures
            r == (VirtualVoiceBudget { max_wait, ..self }),
    {
        VirtualVoiceBudget { max_wait, ..self }
    }

    /// Sets the priority given to promoted voices.
    pub fn with_sample_priority(self, sample_priority: i32) -> (r: VirtualVoiceBudget<C>)
        ensures
            r == (VirtualVoiceBudget { sample_priority, ..self }),
    {
        VirtualVoiceBudget { sample_priority, ..self }
    }

    /// Caps how many requests may be admitted into the queue per frame.
    pub fn with_max_admissions_per_frame(self, cap: usize) -> (r: VirtualVoiceBudget<C>)
        ensures
            r == (VirtualVoiceBudget { max_admissions_per_frame: Some(cap), ..self }),
    {
        VirtualVoiceBudget { max_admissions_per_frame: Some(cap), ..self }
    }

    /// Sets the displacement margin; one that is not finite, or below one,
    /// becomes one.
    pub fn with_displacement_margin(self, displacement_margin: Single) -> (r: VirtualVoiceBudget<C>)
        ensures
            r == (VirtualVoiceBudget {
                displacement_margin: sanitized_margin(displacement_margin),
                ..self
            }),
    {
        VirtualVoiceBudget { displacement_margin: sanitized_margin(displacement_margin), ..self }
    }
}

impl<C: AudioCategory> Clone for VirtualVoiceBudget<C> {
    fn clone(&self) -> (r: VirtualVoiceBudget<C>)
        ensures
            r == *self,
    {
        VirtualVoiceBudget {
            max_audible: self.max_audible,
            crossfade: self.crossfade,
            max_wait: self.max_wait,
            sample_priority: self.sample_priority,
            max_admissions_per_frame: self.max_admissions_per_frame,
            displacement_margin: self.displacement_margin,
            _phantom: PhantomData,
        }
    }
}

impl<C: AudioCategory> Default for VirtualVoiceBudget<C> {
    fn default() -> (r: VirtualVoiceBudget<C>)
        ensures
            r == VirtualVoiceBudget::<C>::new(DEFAULT_MAX_AUDIBLE),
    {
        VirtualVoiceBudget::new(DEFAULT_MAX_AUDIBLE)
    }
}

/// A request for a sound through the queue, instead of playing it
/// unconditionally.
#[derive(Clone, Copy, Debug)]
pub struct PlayQueuedAudio<C> {
    pub handle: SampleId,
    pub category: C,
    pub looping: bool,
    pub parent: Option<u64>,
    pub position: Option<SpatialPosition>,
    /// Base volume multiplier, before category and master. One by default.
    pub volume: Single,
    /// Priority weight multiplying audible significance. One by default.
    pub priority: Single,
    /// Cap on live queue entries playing this same sample.
    pub max_concurrent: Option<usize>,
    /// Cap on admissions of this same sample within one frame.
    pub max_per_frame: Option<usize>,
    /// Minimum time since this same sample was last admitted with an interval.
    pub min_repeat_interval: Option<Duration>,
    /// Maximum distance from the nearest listener worth admitting at.
    pub max_distance: Option<Single>,
}

impl<C: Copy> PlayQueuedAudio<C> {
    /// A request with default settings.
    pub fn new(handle: SampleId, category: C) -> (r: PlayQueuedAudio<C>)
        ensures
            r == (PlayQueuedAudio {
                handle,
                category,
                looping: false,
                parent: None,
                position: None,
                volume: Single::one(),
                priority: Single::one(),
                max_concurrent: None,
                max_per_frame: None,
                min_repeat_interval: None,
                max_distance: None,
            }),
    {
        PlayQueuedAudio {
            handle,
            category,
            looping: false,
            parent: None,
            position: None,
            volume: Single::one(),
            priority: Single::one(),
            max_concurrent: None,
            max_per_frame: None,
            min_repeat_interval: None,
            max_distance: None,
        }
    }

    /// Sets playback to loop endlessly once promoted.
    pub fn looping(self) -> (r: PlayQueuedAudio<C>)
        ensures
            r == (PlayQueuedAudio { looping: true, ..self }),
    {
        PlayQueuedAudio { looping: true, ..self }
    }

    /// Attaches the sound to a parent entity, which makes it spatial.
    pub fn with_parent(self, parent: u64) -> (r: PlayQueuedAudio<C>)
        ensures
            r == (PlayQueuedAudio { parent: Some(parent), ..self }),
    {
        PlayQueuedAudio { parent: Some(parent), ..self }
    }

    /// Sets the spatial position.
    pub fn at<P: Into<SpatialPosition>>(self, position: P) -> (r: PlayQueuedAudio<C>)
        ensures
            exists|p: SpatialPosition| #[trigger]
                call_ensures(P::into, (position,), p) && r == (PlayQueuedAudio {
                    position: Some(p),
                    ..self
                }),
    {
        let p: SpatialPosition = position.into();
        PlayQueuedAudio { position: Some(p), ..self }
    }

    /// Sets the base volume multiplier.
    pub fn with_volume(self, volume: Single) -> (r: PlayQueuedAudio<C>)
        ensures
            r == (PlayQueuedAudio { volume, ..self }),
    {
        PlayQueuedAudio { volume, ..self }
    }

    /// Sets the priority weight multiplying audible significance.
    pub fn with_priority(self, priority: Single) -> (r: PlayQueuedAudio<C>)
        ensures
            r == (PlayQueuedAudio { priority, ..self }),
    {
        PlayQueuedAudio { priority, ..self }
    }

    /// Caps live queue entries playing this same sample.
    pub fn with_max_concurrent(self, max_concurrent: usize) -> (r: PlayQueuedAudio<C>)
        ensures
            r == (PlayQueuedAudio { max_concurrent: Some(max_concurrent), ..self }),
    {
        PlayQueuedAudio { max_concurrent: Some(max_concurrent), ..self }
    }

    /// Caps admissions of this same sample within one frame.
    pub fn with_max_per_frame(self, max_per_frame: usize) -> (r: PlayQueuedAudio<C>)
        ensures
            r == (PlayQueuedAudio { max_per_frame: Some(max_per_frame), ..self }),
    {
        PlayQueuedAudio { max_per_frame: Some(max_per_frame), ..self }
    }

    /// Sets the minimum time since this same sample was last admitted, measured
    /// against admissions that themselves set an interval.
    pub fn with_min_repeat_interval(self, interval: Duration) -> (r: PlayQueuedAudio<C>)
        ensures
            r == (PlayQueuedAudio { min_repeat_interval: Some(interval), ..self }),
    {
        PlayQueuedAudio { min_repeat_interval: Some(interval), ..self }
    }

    /// Culls the request when its position is farther than this from the
    /// nearest listener. A distance that is not finite is discarded, a negative
    /// one counts as zero.
    pub fn with_max_distance(self, max_distance: Single) -> (r: PlayQueuedAudio<C>)
        ensures
            r == (PlayQueuedAudio { max_distance: sanitized_distance(max_distance), ..self }),
    {
        PlayQueuedAudio { max_distance: sanitized_distance(max_distance), ..self }
    }

    pub open spec fn spec_admission_request(&self) -> AdmissionRequest {
        AdmissionRequest {
            sample: self.handle,
            position: match self.position {
                Some(position) => Some(position.as_vec3().truncate()),
                None => None,
            },
            max_concurrent: self.max_concurrent,
            max_per_frame: self.max_per_frame,
            min_repeat_interval: self.min_repeat_interval,
            max_distance: self.max_distance,
        }
    }

    /// The admission-control part of this request.
    #[verifier::when_used_as_spec(spec_admission_request)]
    pub fn admission_request(&self) -> (r: AdmissionRequest)
        ensures
            r == self.admission_request(),
    {
        AdmissionRequest {
            sample: self.handle,
            position: match self.position {
                Some(position) => Some(position.as_vec3().truncate()),
                None => None,
            },
            max_concurrent: self.max_concurrent,
            max_per_frame: self.max_per_frame,
            min_repeat_interval: self.min_repeat_interval,
            max_distance: self.max_distance,
        }
    }
}

/// A request to stop entries of the queue.
///
/// Audible entries fade out over the budget's crossfade and despawn; waiting
/// entries despawn immediately; retiring entries are switched to despawn when
/// their fade completes.
#[derive(Clone, Copy, Debug)]
pub struct StopQueuedAudio<C> {
    /// The category to stop. `None` stops every entry.
    pub category: Option<C>,
    /// Only stop entries playing this sample. `None` means any sample.
    pub handle: Option<SampleId>,
}

impl<C> StopQueuedAudio<C> {
    /// Stops all entries of a category.
    pub fn category(category: C) -> (r: StopQueuedAudio<C>)
        ensures
            r == (StopQueuedAudio { category: Some(category), handle: None }),
    {
        StopQueuedAudio { category: Some(category), handle: None }
    }

    /// Stops all entries.
    pub fn all() -> (r: StopQueuedAudio<C>)
        ensures
            r == (StopQueuedAudio::<C> { category: None, handle: None }),
    {
        StopQueuedAudio { category: None, handle: None }
    }

    /// Restricts the stop to entries playing `handle`.
    pub fn with_handle(self, handle: SampleId) -> (r: StopQueuedAudio<C>)
        ensures
            r == (StopQueuedAudio { handle: Some(handle), ..self }),
    {
        StopQueuedAudio { handle: Some(handle), ..self }
    }
}

/// Whether a sound is a live entry of the queue playing `sample`: waiting or
/// audible, not retiring.
pub open spec fn plays_live<C>(s: Sound<C>, sample: SampleId) -> bool {
    !s.despawned && !s.retiring && (s.queued matches Some(entry) && entry.handle == sample)
}

/// The live entries playing `sample`.
pub open spec fn live_entries<C>(sounds: Seq<Sound<C>>, sample: SampleId) -> spec_fn(int) -> bool {
    |i: int| plays_live(sounds[i], sample)
}

/// How many live entries play `sample`.
pub open spec fn live_count<C>(sounds: Seq<Sound<C>>, sample: SampleId) -> nat {
    count(sounds.len(), live_entries(sounds, sample))
}

fn count_live<C: Copy>(sounds: &[Sound<C>], sample: SampleId) -> (n: usize)
    ensures
        n == live_count(sounds@, sample),
{
    let mut n: usize = 0;
    let mut i: usize = 0;
    while i < sounds.len()
        invariant
            n <= i <= sounds@.len(),
            n == count(i as nat, live_entries(sounds@, sample)),
        decreases sounds@.len() - i,
    {
        let s = &sounds[i];
        let same: bool = match &s.queued {
            Some(entry) => entry.handle == sample,
            None => false,
        };
        assert(live_entries(sounds@, sample)(i as int) == (!s.despawned && !s.retiring && same));
        if !s.despawned && !s.retiring && same {
            n = n + 1;
        }
        i = i + 1;
    }
    n
}

/// Whether a distance is that of some listener from `position`, and none is less
/// in the total order.
pub open spec fn is_least_distance(
    listeners: Seq<Vec2>,
    position: Vec2,
    distance: Single,
) -> bool {
    &&& exists|i: int|
        0 <= i < listeners.len() && distance == (#[trigger] listeners[i]).distance(position)
    &&& forall|j: int|
        0 <= j < listeners.len() ==> distance.total_place() <= (#[trigger] listeners[j]).distance(
            position,
        ).total_place()
}

/// The distance from `position` to the nearest listener; none where there is no
/// listener.
pub open spec fn listener_distance(listeners: Seq<Vec2>, position: Vec2) -> Option<Single> {
    if listeners.len() == 0 {
        None
    } else {
        Some(choose|distance: Single| is_least_distance(listeners, position, distance))
    }
}

/// The distance from `position` to the nearest listener.
fn nearest_distance(listeners: &[Vec2], position: Vec2) -> (r: Option<Single>)
    ensures
        r is None <==> listeners@.len() == 0,
        r matches Some(distance) ==> is_least_distance(listeners@, position, distance),
        r == listener_distance(listeners@, position),
{
    if listeners.len() == 0 {
        return None;
    }
    let mut best: Single = listeners[0].distance(position);
    let mut i: usize = 1;
    let ghost mut at: int = 0;
    while i < listeners.len()
        invariant
            0 <= at < i <= listeners@.len(),
            best == listeners@[at].distance(position),
            forall|j: int|
                0 <= j < i ==> best.total_place() <= (#[trigger] listeners@[j]).distance(
                    position,
                ).total_place(),
        decreases listeners@.len() - i,
    {
        let distance = listeners[i].distance(position);
        if distance.total_place() < best.total_place() {
            best = distance;
            proof {
                at = i as int;
            }
        }
        i = i + 1;
    }
    assert(is_least_distance(listeners@, position, best));
    proof {
        let chosen = choose|d: Single| is_least_distance(listeners@, position, d);
        lemma_one_is_least(listeners@, position, chosen, best);
    }
    Some(best)
}

/// Where there is a listener, the distance to the nearest is that of some listener,
/// and none is less.
pub proof fn the_nearest_listener_is_measured(listeners: Seq<Vec2>, position: Vec2)
    ensures
        listener_distance(listeners, position) is None <==> listeners.len() == 0,
        listener_distance(listeners, position) matches Some(distance) ==> is_least_distance(
            listeners,
            position,
            distance,
        ),
    decreases listeners.len(),
{
    if listeners.len() > 0 {
        let earlier = listeners.drop_last();
        let last = listeners.last().distance(position);
        assert(listeners[listeners.len() - 1] == listeners.last());
        assert(forall|j: int| 0 <= j < earlier.len() ==> #[trigger] listeners[j] == earlier[j]);
        the_nearest_listener_is_measured(earlier, position);
        if earlier.len() > 0 && (listener_distance(earlier, position)->0).total_place()
            < last.total_place() {
            let best = listener_distance(earlier, position)->0;
            let i = choose|i: int|
                0 <= i < earlier.len() && best == (#[trigger] earlier[i]).distance(position);
            assert(best == listeners[i].distance(position));
            assert(is_least_distance(listeners, position, best));
        } else {
            assert(is_least_distance(listeners, position, last));
        }
    }
}

/// No two distances are the least.
proof fn lemma_one_is_least(listeners: Seq<Vec2>, position: Vec2, a: Single, b: Single)
    requires
        is_least_distance(listeners, position, a),
        is_least_distance(listeners, position, b),
    ensures
        a == b,
{
    assert(a.total_place() == b.total_place());
    lemma_total_place_tells(a, b);
}

/// The entry that an admitted request becomes.
pub open spec fn entry_of<C>(msg: PlayQueuedAudio<C>, now: Duration) -> VirtualSound<C> {
    VirtualSound {
        handle: msg.handle,
        category: msg.category,
        looping: msg.looping,
        parent: msg.parent,
        position: msg.position,
        base_volume: sanitize_weight(msg.volume),
        priority: sanitize_weight(msg.priority),
        requested_at: now,
    }
}

/// What the entrance answers to a request, in front of the given sounds and
/// listeners.
pub open spec fn answer<C: Copy>(
    gate: GateState,
    msg: PlayQueuedAudio<C>,
    sounds: Seq<Sound<C>>,
    listeners: Seq<Vec2>,
) -> bool {
    let request = msg.admission_request();
    gate.verdict(
        request,
        live_count(sounds, request.sample) as usize,
        match request.position {
            Some(position) => listener_distance(listeners, position),
            None => None,
        },
    ) is Ok
}

/// What the entrance knows after requests in turn.
pub open spec fn gate_after<C: Copy>(
    gate: GateState,
    messages: Seq<PlayQueuedAudio<C>>,
    sounds: Seq<Sound<C>>,
    listeners: Seq<Vec2>,
) -> GateState
    decreases messages.len(),
{
    if messages.len() == 0 {
        gate
    } else {
        let before = gate_after(gate, messages.drop_last(), sounds, listeners);
        if answer(before, messages.last(), sounds, listeners) {
            before.admitting(messages.last().admission_request())
        } else {
            before
        }
    }
}

/// The entries that requests in turn become.
pub open spec fn entries_after<C: Copy>(
    gate: GateState,
    messages: Seq<PlayQueuedAudio<C>>,
    sounds: Seq<Sound<C>>,
    listeners: Seq<Vec2>,
    now: Duration,
) -> Seq<VirtualSound<C>>
    decreases messages.len(),
{
    if messages.len() == 0 {
        Seq::empty()
    } else {
        let entries = entries_after(gate, messages.drop_last(), sounds, listeners, now);
        let before = gate_after(gate, messages.drop_last(), sounds, listeners);
        if answer(before, messages.last(), sounds, listeners) {
            entries.push(entry_of(messages.last(), now))
        } else {
            entries
        }
    }
}

/// Answers play requests: runs each through the entrance, in front of the entries
/// that exist already, and returns the entries to spawn for those that pass.
pub fn enqueue_queued_audio<C: AudioCategory>(
    messages: &[PlayQueuedAudio<C>],
    budget: &VirtualVoiceBudget<C>,
    admission: &mut AdmissionState<C>,
    sounds: &[Sound<C>],
    listeners: &[Vec2],
    now: Duration,
) -> (r: Vec<VirtualSound<C>>)
    ensures
        ({
            let gate = opened(*old(admission), budget.max_admissions_per_frame, now);
            let after = gate_after(gate, messages@, sounds@, listeners@);
            &&& r@ == entries_after(gate, messages@, sounds@, listeners@, now)
            &&& final(admission).admissions() == after.admissions
            &&& final(admission).longest_interval == after.longest_interval
        }),
{
    let ghost start = opened(*admission, budget.max_admissions_per_frame, now);
    let mut gate = AdmissionGate::new(admission, budget.max_admissions_per_frame, now);
    let mut r: Vec<VirtualSound<C>> = Vec::new();
    let mut i: usize = 0;
    assert(messages@.take(0) =~= Seq::empty());
    while i < messages.len()
        invariant
            i <= messages@.len(),
            start == opened(*old(admission), budget.max_admissions_per_frame, now),
            gate@ == gate_after(start, messages@.take(i as int), sounds@, listeners@),
            gate@.wf(),
            gate@.admitted <= i,
            *final(gate.state) == *after_borrow(admission),
            r@ == entries_after(start, messages@.take(i as int), sounds@, listeners@, now),
        decreases messages@.len() - i,
    {
        let msg = messages[i];
        let request = msg.admission_request();
        let ghost before = gate@;
        assert(messages@.take(i + 1).drop_last() =~= messages@.take(i as int));
        assert(messages@.take(i + 1).last() == msg);
        let sample: SampleId = request.sample;
        let live = || -> (n: usize)
            ensures
                n == live_count(sounds@, sample),
        {
            count_live(sounds, sample)
        };
        let away = |position: Vec2| -> (d: Option<Single>)
            ensures
                d == listener_distance(listeners@, position),
        {
            nearest_distance(listeners, position)
        };
        let admitted = gate.try_admit(&request, live, away);
        assert(admitted is Ok == answer(before, msg, sounds@, listeners@));
        if admitted.is_ok() {
            r.push(
                VirtualSound {
                    handle: msg.handle,
                    category: msg.category,
                    looping: msg.looping,
                    parent: msg.parent,
                    position: msg.position,
                    base_volume: sanitize_weight(msg.volume),
                    priority: sanitize_weight(msg.priority),
                    requested_at: now,
                },
            );
        }
        i = i + 1;
    }
    assert(messages@.take(i as int) =~= messages@);
    r
}

/// An entry is what was requested: its sample, category, loop, parent and position
/// are those of the request, its volume and priority too where they are finite and
/// not negative, and it was requested now.
pub proof fn an_entry_is_what_was_requested<C>(msg: PlayQueuedAudio<C>, now: Duration)
    ensures
        ({
            let entry = entry_of(msg, now);
            &&& entry.handle == msg.handle && entry.category == msg.category
            &&& entry.looping == msg.looping && entry.parent == msg.parent
            &&& entry.position == msg.position && entry.requested_at == now
            &&& msg.volume.is_finite() && !msg.volume.is_negative() ==> entry.base_volume
                == msg.volume
            &&& !msg.volume.is_finite() || msg.volume.is_negative() ==> entry.base_volume
                == Single::zero()
            &&& msg.priority.is_finite() && !msg.priority.is_negative() ==> entry.priority
                == msg.priority
            &&& !msg.priority.is_finite() || msg.priority.is_negative() ==> entry.priority
                == Single::zero()
        }),
{
}

/// The controls of a request are handed to the entrance as they are, and its
/// position as where it lies in the XY plane.
pub proof fn the_controls_of_a_request_are_its_own<C: Copy>(msg: PlayQueuedAudio<C>)
    ensures
        ({
            let request = msg.admission_request();
            &&& request.sample == msg.handle
            &&& request.max_concurrent == msg.max_concurrent
            &&& request.max_per_frame == msg.max_per_frame
            &&& request.min_repeat_interval == msg.min_repeat_interval
            &&& request.max_distance == msg.max_distance
            &&& match msg.position {
                Some(SpatialPosition::TwoD(v)) => request.position == Some(v),
                Some(SpatialPosition::ThreeD(v)) => request.position == Some(
                    Vec2 { x: v.x, y: v.y },
                ),
                None => request.position is None,
            }
        }),
{
}

/// Each live entry of a sample counts once, waiting or audible, and nothing else
/// does: not what retires, what is gone, what plays another sample or what is no
/// entry.
pub proof fn each_live_entry_counts_once<C>(
    sounds: Seq<Sound<C>>,
    more: Sound<C>,
    sample: SampleId,
)
    ensures
        live_count(Seq::<Sound<C>>::empty(), sample) == 0,
        live_count(sounds.push(more), sample) == live_count(sounds, sample) + if !more.despawned
            && !more.retiring && (more.queued matches Some(entry) && entry.handle == sample) {
            1int
        } else {
            0
        },
{
    let all = sounds.push(more);
    let n: nat = sounds.len();
    assert forall|j: int| 0 <= j < n implies #[trigger] live_entries(all, sample)(j)
        == live_entries(sounds, sample)(j) by {
        assert(all[j] == sounds[j]);
    }
    lemma_count_same(n, live_entries(all, sample), live_entries(sounds, sample));
    assert(all[n as int] == more);
    assert(live_entries(all, sample)(n as int) == plays_live(more, sample));
}

/// A request that limits its distance and nothing else is admitted if some listener
/// is within the limit, and refused if there are listeners and all are beyond it.
/// Without a listener, and without a position, there is nothing to refuse it for.
pub proof fn the_distance_to_any_listener_will_do<C: Copy>(
    gate: GateState,
    msg: PlayQueuedAudio<C>,
    sounds: Seq<Sound<C>>,
    listeners: Seq<Vec2>,
    position: Vec2,
    limit: Single,
)
    requires
        gate.frame_budget is None,
        msg.max_concurrent is None,
        msg.max_per_frame is None,
        msg.min_repeat_interval is None,
        msg.max_distance == Some(limit),
        msg.position == Some(SpatialPosition::TwoD(position)) || msg.position is None,
    ensures
        msg.position is None || listeners.len() == 0 ==> answer(gate, msg, sounds, listeners),
        (exists|i: int|
            0 <= i < listeners.len() && (#[trigger] listeners[i]).distance(position).is_at_most(
                limit,
            )) ==> answer(gate, msg, sounds, listeners),
        msg.position is Some && listeners.len() > 0 && (forall|i: int|
            0 <= i < listeners.len() ==> limit.is_less(
                (#[trigger] listeners[i]).distance(position),
            )) ==> !answer(gate, msg, sounds, listeners),
{
    the_nearest_listener_is_measured(listeners, position);
    if listeners.len() > 0 {
        let nearest = listener_distance(listeners, position)->0;
        assert(is_least_distance(listeners, position, nearest));
        let i = choose|i: int|
            0 <= i < listeners.len() && nearest == (#[trigger] listeners[i]).distance(position);
        assert(nearest == listeners[i].distance(position));
    }
}

/// Every entry is that of a request: each entry that requests in turn become is the
/// one that some of them asks for, there are as many as the entrance admitted, and
/// no more than there were requests.
pub proof fn every_entry_was_requested<C: Copy>(
    gate: GateState,
    messages: Seq<PlayQueuedAudio<C>>,
    sounds: Seq<Sound<C>>,
    listeners: Seq<Vec2>,
    now: Duration,
)
    ensures
        ({
            let entries = entries_after(gate, messages, sounds, listeners, now);
            &&& entries.len() == gate_after(gate, messages, sounds, listeners).admitted
                - gate.admitted
            &&& entries.len() <= messages.len()
            &&& gate_after(gate, messages, sounds, listeners).frame_budget == gate.frame_budget
            &&& forall|e: int|
                0 <= e < entries.len() ==> exists|k: int|
                    0 <= k < messages.len() && (#[trigger] entries[e]) == entry_of(
                        #[trigger] messages[k],
                        now,
                    )
            &&& gate.frame_budget matches Some(cap) ==> gate.admitted <= cap ==> gate.admitted
                + entries.len() <= cap
        }),
    decreases messages.len(),
{
    if messages.len() > 0 {
        let earlier = messages.drop_last();
        every_entry_was_requested(gate, earlier, sounds, listeners, now);
        let before = entries_after(gate, earlier, sounds, listeners, now);
        let entries = entries_after(gate, messages, sounds, listeners, now);
        assert forall|e: int| 0 <= e < entries.len() implies exists|k: int|
            0 <= k < messages.len() && (#[trigger] entries[e]) == entry_of(
                #[trigger] messages[k],
                now,
            ) by {
            if e < before.len() {
                assert(entries[e] == before[e]);
                let k = choose|k: int|
                    0 <= k < earlier.len() && before[e] == entry_of(#[trigger] earlier[k], now);
                assert(messages[k] == earlier[k]);
            } else {
                assert(messages[messages.len() - 1] == messages.last());
            }
        }
    }
}

/// Requests without controls all enter, in the order they came, up to the frame's
/// budget.
pub proof fn requests_without_controls_enter_in_order<C: Copy>(
    gate: GateState,
    messages: Seq<PlayQueuedAudio<C>>,
    sounds: Seq<Sound<C>>,
    listeners: Seq<Vec2>,
    now: Duration,
)
    requires
        gate.admitted == 0,
        forall|k: int|
            0 <= k < messages.len() ==> (#[trigger] messages[k]).max_concurrent is None
                && messages[k].max_per_frame is None && messages[k].min_repeat_interval is None
                && messages[k].max_distance is None,
    ensures
        ({
            let entries = entries_after(gate, messages, sounds, listeners, now);
            &&& entries.len() == match gate.frame_budget {
                Some(cap) => if messages.len() <= cap {
                    messages.len()
                } else {
                    cap as nat
                },
                None => messages.len(),
            }
            &&& forall|k: int|
                0 <= k < entries.len() ==> #[trigger] entries[k] == entry_of(messages[k], now)
        }),
    decreases messages.len(),
{
    if messages.len() > 0 {
        let earlier = messages.drop_last();
        assert(forall|k: int| 0 <= k < earlier.len() ==> #[trigger] earlier[k] == messages[k]);
        requests_without_controls_enter_in_order(gate, earlier, sounds, listeners, now);
        every_entry_was_requested(gate, earlier, sounds, listeners, now);
        assert(messages.last() == messages[messages.len() - 1]);
    }
}

/// A new budget holds the voices it is made for, crossfades over fifty milliseconds,
/// lets a one-shot wait for half a second, admits everything, and asks a newcomer for
/// a quarter more.
pub proof fn a_budget_starts_from_its_defaults<C: AudioCategory>(max_audible: usize)
    ensures
        ({
            let budget = VirtualVoiceBudget::<C>::new(max_audible);
            &&& budget.max_audible == max_audible
            &&& budget.crossfade.nanos == 50_000_000 && budget.max_wait.nanos == 500_000_000
            &&& budget.sample_priority == 2 && budget.max_admissions_per_frame is None
            &&& budget.displacement_margin.is_finite()
            &&& 4 * budget.displacement_margin.value() == 5 * Single::one().value()
        }),
{
    lemma2_to64();
    lemma_pow2_adds(23, 126);
    assert(4 * (0xa0_0000 * pow2(126)) == 5 * (0x80_0000 * pow2(126))) by (nonlinear_arith);
}

} // verus!
