//! Admission controls: the entrance of the queue, open to hosts that have a
//! stream of requests of their own too.

use crate::geometry::Vec2;
use crate::messages::SampleId;
use crate::single::Single;
use crate::time::Duration;
use crate::traits::AudioCategory;
use crate::virtual_queue::table::{
    contents, empty_table, is_recent, no_entries, recent_entries, table_get, table_insert,
    table_len, table_retain_recent, SampleKey,
};
use bevy::platform::collections::HashMap;
use core::marker::PhantomData;
use vstd::prelude::*;

verus! {

/// Once this many admissions are recorded, those past the horizon are dropped
/// before another sample's is recorded.
pub const PRUNE_THRESHOLD: usize = 64;

/// Per-category admission bookkeeping: when each sample was last admitted
/// under an interval.
///
/// Bounded however many distinct samples stream through a session: only
/// admissions that carry an interval are recorded, and once the table has
/// grown to a threshold, entries older than the longest interval seen are
/// dropped before recording more.
pub struct AdmissionState<C: AudioCategory> {
    /// When each sample was last admitted, in nanoseconds.
    pub last_admitted: HashMap<SampleKey, u128>,
    /// The longest interval any recorded admission carried.
    pub longest_interval: Duration,
    pub _phantom: PhantomData<C>,
}

/// The longer of two spans.
pub open spec fn longer(a: Duration, b: Duration) -> Duration {
    if a.nanos < b.nanos {
        b
    } else {
        a
    }
}

/// What a table of admissions holds after the admission of `id` at `now`, where
/// entries as old as `horizon` cannot block any more.
pub open spec fn with_admission(
    held: Map<SampleKey, u128>,
    id: SampleKey,
    now: Duration,
    horizon: Duration,
) -> Map<SampleKey, u128> {
    let kept = if held.dom().len() >= PRUNE_THRESHOLD && !held.contains_key(id) {
        recent_entries(held, now.nanos, horizon.nanos)
    } else {
        held
    };
    kept.insert(id, now.nanos)
}

impl<C: AudioCategory> AdmissionState<C> {
    /// When each sample was last admitted under an interval, in nanoseconds.
    pub open spec fn admissions(&self) -> Map<SampleKey, u128> {
        contents(self.last_admitted)
    }

    /// Records an admission of `id` at `now` under `interval`.
    fn record(&mut self, id: SampleKey, now: Duration, interval: Duration)
        ensures
            final(self).longest_interval == longer(old(self).longest_interval, interval),
            final(self).admissions() == with_admission(
                old(self).admissions(),
                id,
                now,
                longer(old(self).longest_interval, interval),
            ),
    {
        if self.longest_interval.nanos < interval.nanos {
            self.longest_interval = interval;
        }
        if table_len(&self.last_admitted) >= PRUNE_THRESHOLD && table_get(
            &self.last_admitted,
            id,
        ).is_none() {
            table_retain_recent(&mut self.last_admitted, now.nanos, self.longest_interval.nanos);
        }
        table_insert(&mut self.last_admitted, id, now.nanos);
    }

    /// How many samples have an admission on record.
    pub fn recorded(&self) -> (n: usize)
        ensures
            n == self.admissions().dom().len(),
    {
        table_len(&self.last_admitted)
    }
}

impl<C: AudioCategory> Default for AdmissionState<C> {
    fn default() -> (state: AdmissionState<C>)
        ensures
            state.admissions() == no_entries(),
            state.longest_interval == Duration::zero(),
    {
        AdmissionState {
            last_admitted: empty_table(),
            longest_interval: Duration::zero(),
            _phantom: PhantomData,
        }
    }
}

/// The admission-control part of one request. Every control defaults to off:
/// a request using none of them is admitted up to the entrance's frame budget.
#[derive(Clone, Copy, Debug)]
pub struct AdmissionRequest {
    /// The sample being requested; the per-sample controls key on it.
    pub sample: SampleId,
    /// Position in the XY plane, measured against listeners for
    /// `max_distance`. `None` is never distance-culled.
    pub position: Option<Vec2>,
    /// Cap on live entries playing this same sample.
    pub max_concurrent: Option<usize>,
    /// Cap on admissions of this same sample within one frame.
    pub max_per_frame: Option<usize>,
    /// Minimum time since this same sample was last admitted with an interval.
    pub min_repeat_interval: Option<Duration>,
    /// Maximum distance from the nearest listener worth admitting at.
    pub max_distance: Option<Single>,
}

/// A distance that is finite stands, at least zero; every other is discarded.
pub open spec fn spec_sanitized_distance(distance: Single) -> Option<Single> {
    if distance.is_finite() {
        Some(distance.max(Single::zero()))
    } else {
        None
    }
}

/// A distance that is finite stands, at least zero; every other is discarded.
#[verifier::when_used_as_spec(spec_sanitized_distance)]
pub fn sanitized_distance(distance: Single) -> (r: Option<Single>)
    ensures
        r == sanitized_distance(distance),
{
    if distance.is_finite() {
        Some(distance.max(Single::zero()))
    } else {
        None
    }
}

impl AdmissionRequest {
    /// A request for `sample` with every control off.
    pub fn new(sample: SampleId) -> (r: AdmissionRequest)
        ensures
            r == (AdmissionRequest {
                sample,
                position: None,
                max_concurrent: None,
                max_per_frame: None,
                min_repeat_interval: None,
                max_distance: None,
            }),
    {
        AdmissionRequest {
            sample,
            position: None,
            max_concurrent: None,
            max_per_frame: None,
            min_repeat_interval: None,
            max_distance: None,
        }
    }

    /// Sets the position that the maximum distance is measured from.
    pub fn at(self, position: Vec2) -> (r: AdmissionRequest)
        ensures
            r == (AdmissionRequest { position: Some(position), ..self }),
    {
        AdmissionRequest { position: Some(position), ..self }
    }

    /// Caps live entries playing this same sample.
    pub fn with_max_concurrent(self, max_concurrent: usize) -> (r: AdmissionRequest)
        ensures
            r == (AdmissionRequest { max_concurrent: Some(max_concurrent), ..self }),
    {
        AdmissionRequest { max_concurrent: Some(max_concurrent), ..self }
    }

    /// Caps admissions of this same sample within one frame.
    pub fn with_max_per_frame(self, max_per_frame: usize) -> (r: AdmissionRequest)
        ensures
            r == (AdmissionRequest { max_per_frame: Some(max_per_frame), ..self }),
    {
        AdmissionRequest { max_per_frame: Some(max_per_frame), ..self }
    }

    /// Sets the minimum time since this same sample was last admitted.
    pub fn with_min_repeat_interval(self, interval: Duration) -> (r: AdmissionRequest)
        ensures
            r == (AdmissionRequest { min_repeat_interval: Some(interval), ..self }),
    {
        AdmissionRequest { min_repeat_interval: Some(interval), ..self }
    }

    /// Culls the request when farther than this from the nearest listener. A
    /// distance that is not finite is discarded, a negative one counts as zero.
    pub fn with_max_distance(self, max_distance: Single) -> (r: AdmissionRequest)
        ensures
            r == (AdmissionRequest { max_distance: sanitized_distance(max_distance), ..self }),
    {
        AdmissionRequest { max_distance: sanitized_distance(max_distance), ..self }
    }
}

/// Why [`AdmissionGate::try_admit`] rejected a request.
#[derive(Clone, Copy, Debug, PartialEq, Eq, Structural)]
pub enum AdmissionRejection {
    /// The entrance's budget for the frame is spent.
    FrameBudgetSpent,
    /// The sample already reached its cap for the frame.
    PerFrameCap,
    /// The sample already has its maximum of live entries, admissions of this
    /// frame included.
    ConcurrentCap,
    /// The sample was last admitted less than its interval ago.
    RepeatTooSoon,
    /// The request's position is too far from the nearest listener.
    TooFar,
}

/// What an open entrance knows.
pub struct GateState {
    pub frame_budget: Option<usize>,
    pub now: Duration,
    /// How many requests the entrance has admitted.
    pub admitted: nat,
    /// How many admissions of each sample the entrance has granted.
    pub counts: Map<SampleKey, u128>,
    /// When each sample was last admitted under an interval, in nanoseconds.
    pub admissions: Map<SampleKey, u128>,
    /// The longest interval any recorded admission carried.
    pub longest_interval: Duration,
}

impl GateState {
    /// How many admissions of `sample` the entrance has granted.
    pub open spec fn same_this_frame(self, sample: SampleId) -> nat {
        if self.counts.contains_key(sample.key()) {
            self.counts[sample.key()] as nat
        } else {
            0
        }
    }

    /// No sample was admitted more often than the entrance admitted requests.
    pub open spec fn wf(self) -> bool {
        forall|sample: SampleKey| #[trigger]
            self.counts.contains_key(sample) ==> self.counts[sample] <= self.admitted
    }

    pub open spec fn budget_spent(self) -> bool {
        self.frame_budget matches Some(cap) && self.admitted >= cap
    }

    pub open spec fn at_frame_cap(self, request: AdmissionRequest) -> bool {
        request.max_per_frame matches Some(cap) && self.same_this_frame(request.sample) >= cap
    }

    /// Whether the answer depends on how many live entries play the sample.
    pub open spec fn counts_live(self, request: AdmissionRequest) -> bool {
        !self.budget_spent() && !self.at_frame_cap(request) && request.max_concurrent is Some
    }

    pub open spec fn at_concurrent_cap(self, request: AdmissionRequest, live: usize) -> bool {
        request.max_concurrent matches Some(cap) && live + self.same_this_frame(request.sample)
            >= cap
    }

    pub open spec fn too_soon(self, request: AdmissionRequest) -> bool {
        request.min_repeat_interval matches Some(interval) && self.admissions.contains_key(
            request.sample.key(),
        ) && is_recent(self.now.nanos, self.admissions[request.sample.key()], interval.nanos)
    }

    /// Whether the answer depends on the distance to the nearest listener.
    pub open spec fn measures_distance(self, request: AdmissionRequest, live: usize) -> bool {
        !self.budget_spent() && !self.at_frame_cap(request) && !self.at_concurrent_cap(
            request,
            live,
        ) && !self.too_soon(request) && request.max_distance is Some && request.position is Some
    }

    /// What the entrance answers, where `live` entries play the sample already and
    /// the nearest listener is `distance` away, if there is one.
    pub open spec fn verdict(
        self,
        request: AdmissionRequest,
        live: usize,
        distance: Option<Single>,
    ) -> Result<(), AdmissionRejection> {
        if self.budget_spent() {
            Err(AdmissionRejection::FrameBudgetSpent)
        } else if self.at_frame_cap(request) {
            Err(AdmissionRejection::PerFrameCap)
        } else if self.at_concurrent_cap(request, live) {
            Err(AdmissionRejection::ConcurrentCap)
        } else if self.too_soon(request) {
            Err(AdmissionRejection::RepeatTooSoon)
        } else if request.position is Some && request.max_distance is Some && distance is Some
            && (request.max_distance->0).is_less(distance->0) {
            Err(AdmissionRejection::TooFar)
        } else {
            Ok(())
        }
    }

    /// What the entrance knows after admitting a request.
    pub open spec fn admitting(self, request: AdmissionRequest) -> GateState {
        let counted = GateState {
            admitted: self.admitted + 1,
            counts: self.counts.insert(
                request.sample.key(),
                (self.same_this_frame(request.sample) + 1) as u128,
            ),
            ..self
        };
        match request.min_repeat_interval {
            Some(interval) => GateState {
                admissions: with_admission(
                    self.admissions,
                    request.sample.key(),
                    self.now,
                    longer(self.longest_interval, interval),
                ),
                longest_interval: longer(self.longest_interval, interval),
                ..counted
            },
            None => counted,
        }
    }
}

/// The entrance of the queue, for one frame.
///
/// Create one per frame over the category's [`AdmissionState`] and feed it
/// each request in arrival order; [`Self::try_admit`] answers per request and
/// does the bookkeeping for the ones that pass.
pub struct AdmissionGate<'a, C: AudioCategory> {
    pub state: &'a mut AdmissionState<C>,
    pub frame_budget: Option<usize>,
    pub now: Duration,
    pub admitted: usize,
    pub admitted_per_sample: HashMap<SampleKey, u128>,
}

impl<'a, C: AudioCategory> View for AdmissionGate<'a, C> {
    type V = GateState;

    open spec fn view(&self) -> GateState {
        GateState {
            frame_budget: self.frame_budget,
            now: self.now,
            admitted: self.admitted as nat,
            counts: contents(self.admitted_per_sample),
            admissions: self.state.admissions(),
            longest_interval: self.state.longest_interval,
        }
    }
}

/// What an entrance knows when it opens.
pub open spec fn opened<C: AudioCategory>(
    state: AdmissionState<C>,
    frame_budget: Option<usize>,
    now: Duration,
) -> GateState {
    GateState {
        frame_budget,
        now,
        admitted: 0,
        counts: no_entries(),
        admissions: state.admissions(),
        longest_interval: state.longest_interval,
    }
}

impl<'a, C: AudioCategory> AdmissionGate<'a, C> {
    /// Opens the entrance for one frame. `frame_budget` caps admissions across
    /// every sound this frame; `None` admits everything. `now` is the time
    /// since startup.
    pub fn new(
        state: &'a mut AdmissionState<C>,
        frame_budget: Option<usize>,
        now: Duration,
    ) -> (gate: AdmissionGate<'a, C>)
        ensures
            gate@ == opened(*old(state), frame_budget, now),
            gate@.wf(),
            *gate.state == *old(state),
            *final(gate.state) == *final(state),
    {
        AdmissionGate {
            state,
            frame_budget,
            now,
            admitted: 0,
            admitted_per_sample: empty_table(),
        }
    }

    /// How many requests this entrance has admitted so far.
    pub fn admitted(&self) -> (n: usize)
        ensures
            n == self@.admitted,
    {
        self.admitted
    }

    /// Checks one request against every admission control and, when it passes,
    /// records the admission.
    ///
    /// The environment comes in as closures, called only for requests that set
    /// the control needing it: `live_count` counts the live entries already
    /// playing the request's sample from before this frame's admissions;
    /// `nearest_listener_distance` is the distance from the given position to
    /// the nearest listener, `None` when there is no listener to measure
    /// against, which never culls.
    pub fn try_admit<L, D>(
        &mut self,
        request: &AdmissionRequest,
        live_count: L,
        nearest_listener_distance: D,
    ) -> (r: Result<(), AdmissionRejection>) where
        L: FnOnce() -> usize,
        D: FnOnce(Vec2) -> Option<Single>,

        requires
            old(self)@.wf(),
            old(self)@.admitted < usize::MAX,
            old(self)@.counts_live(*request) ==> call_requires(live_count, ()),
            forall|live: usize| #[trigger]
                old(self)@.measures_distance(*request, live) ==> call_requires(
                    nearest_listener_distance,
                    (request.position->0,),
                ),
        ensures
            exists|live: usize, distance: Option<Single>|
                {
                    &&& r == #[trigger] old(self)@.verdict(*request, live, distance)
                    &&& old(self)@.counts_live(*request) ==> call_ensures(live_count, (), live)
                    &&& old(self)@.measures_distance(*request, live) ==> call_ensures(
                        nearest_listener_distance,
                        (request.position->0,),
                        distance,
                    )
                },
            final(self)@ == if r is Ok {
                old(self)@.admitting(*request)
            } else {
                old(self)@
            },
            final(self)@.wf(),
            *final(final(self).state) == *final(old(self).state),
    {
        let ghost start = self@;
        if let Some(cap) = self.frame_budget {
            if self.admitted >= cap {
                assert(start.verdict(*request, 0, None) is Err);
                return Err(AdmissionRejection::FrameBudgetSpent);
            }
        }
        let same: u128 = match table_get(&self.admitted_per_sample, request.sample.key()) {
            Some(n) => n,
            None => 0,
        };
        if let Some(cap) = request.max_per_frame {
            if same >= cap as u128 {
                assert(start.verdict(*request, 0, None) is Err);
                return Err(AdmissionRejection::PerFrameCap);
            }
        }
        let mut live: usize = 0;
        if let Some(cap) = request.max_concurrent {
            live = live_count();
            if live as u128 + same >= cap as u128 {
                assert(start.verdict(*request, live, None) is Err);
                return Err(AdmissionRejection::ConcurrentCap);
            }
        }
        if let Some(interval) = request.min_repeat_interval {
            if let Some(last) = table_get(&self.state.last_admitted, request.sample.key()) {
                if is_recent(self.now.nanos, last, interval.nanos) {
                    assert(start.verdict(*request, live, None) is Err);
                    return Err(AdmissionRejection::RepeatTooSoon);
                }
            }
        }
        let mut distance: Option<Single> = None;
        if let Some(max_distance) = request.max_distance {
            if let Some(position) = request.position {
                assert(start.measures_distance(*request, live));
                distance = nearest_listener_distance(position);
                if let Some(away) = distance {
                    if max_distance.is_less(away) {
                        assert(start.verdict(*request, live, distance) is Err);
                        return Err(AdmissionRejection::TooFar);
                    }
                }
            }
        }
        assert(start.verdict(*request, live, distance) is Ok);
        self.admitted = self.admitted + 1;
        table_insert(&mut self.admitted_per_sample, request.sample.key(), same + 1);
        if let Some(interval) = request.min_repeat_interval {
            self.state.record(request.sample.key(), self.now, interval);
        }
        assert(self@ == start.admitting(*request));
        Ok(())
    }
}

/// An admission stays within every cap that the entrance and the request set: the
/// frame's budget, the sample's cap for the frame, its cap on live entries with
/// this frame's admissions counted in, its interval and its distance.
pub proof fn admissions_respect_every_cap(
    gate: GateState,
    request: AdmissionRequest,
    live: usize,
    distance: Option<Single>,
)
    requires
        gate.verdict(request, live, distance) is Ok,
    ensures
        gate.frame_budget matches Some(cap) ==> gate.admitting(request).admitted <= cap,
        request.max_per_frame matches Some(cap) ==> gate.same_this_frame(request.sample) + 1 <= cap,
        request.max_concurrent matches Some(cap) ==> live + gate.same_this_frame(request.sample) + 1
            <= cap,
        request.min_repeat_interval matches Some(interval) ==> gate.admissions.contains_key(
            request.sample.key(),
        ) ==> interval.nanos == 0 || gate.now.nanos >= gate.admissions[request.sample.key()]
            + interval.nanos,
        request.max_distance is Some && request.position is Some && distance is Some
            ==> !(request.max_distance->0).is_less(distance->0),
{
}

/// A request that uses none of the controls is admitted as long as the frame's
/// budget lasts, whatever plays and wherever the listeners are.
pub proof fn requests_without_controls_are_admitted(
    gate: GateState,
    request: AdmissionRequest,
    live: usize,
    distance: Option<Single>,
)
    requires
        request.max_concurrent is None,
        request.max_per_frame is None,
        request.min_repeat_interval is None,
        request.max_distance is None,
    ensures
        gate.verdict(request, live, distance) is Ok <==> !gate.budget_spent(),
{
}

/// A request without a position, and an app without a listener, is never
/// culled for its distance.
pub proof fn nothing_to_measure_never_culls(
    gate: GateState,
    request: AdmissionRequest,
    live: usize,
    distance: Option<Single>,
)
    requires
        request.position is None || distance is None,
    ensures
        gate.verdict(request, live, distance) != Err::<(), AdmissionRejection>(
            AdmissionRejection::TooFar,
        ),
{
}

/// Admissions without an interval leave no trace in the bookkeeping: they do
/// not reset the clock of a sample.
pub proof fn only_intervals_are_recorded(gate: GateState, request: AdmissionRequest)
    requires
        request.min_repeat_interval is None,
    ensures
        gate.admitting(request).admissions == gate.admissions,
        gate.admitting(request).longest_interval == gate.longest_interval,
{
}

/// What the bookkeeping drops could not have blocked a request any more:
/// dropping the entries that are `horizon` old changes no answer, then or
/// later, to a request whose interval is not longer than the horizon.
pub proof fn dropped_entries_never_block(
    gate: GateState,
    request: AdmissionRequest,
    live: usize,
    distance: Option<Single>,
    dropped_at: Duration,
    horizon: Duration,
)
    requires
        dropped_at.nanos <= gate.now.nanos,
        request.min_repeat_interval matches Some(interval) ==> interval.nanos <= horizon.nanos,
    ensures
        (GateState {
            admissions: recent_entries(gate.admissions, dropped_at.nanos, horizon.nanos),
            ..gate
        }).verdict(request, live, distance) == gate.verdict(request, live, distance),
{
}

/// Once the bookkeeping has reached its threshold, recording another sample
/// leaves nothing in it that is as old as the horizon.
pub proof fn bookkeeping_keeps_only_what_can_block(
    held: Map<SampleKey, u128>,
    id: SampleKey,
    now: Duration,
    horizon: Duration,
    other: SampleKey,
)
    requires
        held.dom().len() >= PRUNE_THRESHOLD,
        !held.contains_key(id),
        other != id,
        with_admission(held, id, now, horizon).contains_key(other),
    ensures
        is_recent(now.nanos, with_admission(held, id, now, horizon)[other], horizon.nanos),
        held.contains_key(other) && with_admission(held, id, now, horizon)[other] == held[other],
{
}

/// A sample admitted under an interval is refused until the interval is over:
/// after an admission at one time, a request whose interval reaches beyond the
/// present is not admitted, by the same entrance or a later one.
pub proof fn an_interval_is_kept(
    gate: GateState,
    admitted: AdmissionRequest,
    later: GateState,
    request: AdmissionRequest,
    live: usize,
    distance: Option<Single>,
)
    requires
        admitted.min_repeat_interval is Some,
        later.admissions == gate.admitting(admitted).admissions,
        request.sample == admitted.sample,
        gate.now.nanos <= later.now.nanos,
        request.min_repeat_interval matches Some(interval) && later.now.nanos < gate.now.nanos
            + interval.nanos,
    ensures
        later.verdict(request, live, distance) is Err,
{
}

/// One request of a history, and when it was offered.
pub struct Offer {
    pub request: AdmissionRequest,
    pub now: Duration,
}

/// Whether a request sets `interval` and no other control.
pub open spec fn sets_only(request: AdmissionRequest, interval: Duration) -> bool {
    request.min_repeat_interval == Some(interval) && request.max_concurrent is None
        && request.max_per_frame is None && request.max_distance is None
}

/// Whether every request of a history sets `interval` and no other control, and
/// its clock never runs back.
pub open spec fn is_uniform(offers: Seq<Offer>, interval: Duration) -> bool {
    &&& forall|k: int|
        0 <= k < offers.len() ==> sets_only((#[trigger] offers[k]).request, interval)
    &&& forall|j: int, k: int|
        0 <= j <= k < offers.len() ==> (#[trigger] offers[j]).now.nanos <= (
        #[trigger] offers[k]).now.nanos
}

/// What an entrance without a frame budget knows when a history is offered to it,
/// with the clock at each offer, and nothing was on record before.
pub open spec fn known_after(offers: Seq<Offer>) -> GateState
    decreases offers.len(),
{
    if offers.len() == 0 {
        GateState {
            frame_budget: None,
            now: Duration::zero(),
            admitted: 0,
            counts: no_entries(),
            admissions: no_entries(),
            longest_interval: Duration::zero(),
        }
    } else {
        let gate = GateState { now: offers.last().now, ..known_after(offers.drop_last()) };
        if gate.verdict(offers.last().request, 0, None) is Ok {
            gate.admitting(offers.last().request)
        } else {
            gate
        }
    }
}

/// Whether offer `k` of a history was admitted.
pub open spec fn was_admitted(offers: Seq<Offer>, k: int) -> bool {
    (GateState { now: offers[k].now, ..known_after(offers.take(k)) }).verdict(
        offers[k].request,
        0,
        None,
    ) is Ok
}

/// Whether offer `k` of a history was an admission of `sample`.
pub open spec fn admitted_sample(offers: Seq<Offer>, k: int, sample: SampleKey) -> bool {
    offers[k].request.sample.key() == sample && was_admitted(offers, k)
}

/// Dropping old bookkeeping never changes an answer: where every request carries
/// the same interval and no other control, and the clock never runs back, a
/// request is refused if its sample was admitted less than the interval ago, at
/// any time in the history, and admitted otherwise. Any entrance without a frame
/// budget answers so, and leaves the record that the history with that request
/// leaves.
pub proof fn pruning_never_changes_an_answer(
    offers: Seq<Offer>,
    interval: Duration,
    gate: GateState,
    request: AdmissionRequest,
    live: usize,
    distance: Option<Single>,
)
    requires
        is_uniform(offers.push(Offer { request, now: gate.now }), interval),
        gate.frame_budget is None,
        gate.admissions == known_after(offers).admissions,
        gate.longest_interval == known_after(offers).longest_interval,
    ensures
        gate.verdict(request, live, distance) == if exists|k: int|
            0 <= k < offers.len() && offers[k].request.sample == request.sample
                && #[trigger] was_admitted(offers, k) && gate.now.nanos - offers[k].now.nanos
                < interval.nanos {
            Err(AdmissionRejection::RepeatTooSoon)
        } else {
            Ok::<(), AdmissionRejection>(())
        },
        ({
            let known = known_after(offers.push(Offer { request, now: gate.now }));
            let left = if gate.verdict(request, live, distance) is Ok {
                gate.admitting(request)
            } else {
                gate
            };
            known.admissions == left.admissions && known.longest_interval == left.longest_interval
        }),
{
    let all = offers.push(Offer { request, now: gate.now });
    assert forall|k: int| 0 <= k < offers.len() implies (#[trigger] offers[k]) == all[k] by {}
    assert(is_uniform(offers, interval));
    lemma_record(offers, interval);
    assert(all.drop_last() =~= offers);
    let key = request.sample.key();
    let held = gate.admissions;
    assert(all[offers.len() as int].now == gate.now);
    if gate.too_soon(request) {
        assert(on_record(offers, key, held[key]));
        let k = choose|k: int|
            0 <= k < offers.len() && #[trigger] admitted_sample(offers, k, key)
                && offers[k].now.nanos == held[key];
        lemma_keys_differ(offers[k].request.sample, request.sample);
        assert(was_admitted(offers, k));
        assert(all[k].now.nanos <= all[offers.len() as int].now.nanos);
    }
    assert forall|k: int|
        0 <= k < offers.len() && offers[k].request.sample == request.sample
            && #[trigger] was_admitted(offers, k) && gate.now.nanos - offers[k].now.nanos
            < interval.nanos implies gate.too_soon(request) by {
        assert(admitted_sample(offers, k, key));
        let last: int = offers.len() - 1;
        assert(all[last].now.nanos <= all[offers.len() as int].now.nanos);
        assert(held.contains_key(key));
        assert(on_record(offers, key, held[key]));
    }
}

/// Two samples have the same key only if they are the same.
proof fn lemma_keys_differ(a: SampleId, b: SampleId)
    ensures
        a.key() == b.key() ==> a == b,
{
}

/// Whether a history admitted `sample` at `time`.
spec fn on_record(offers: Seq<Offer>, sample: SampleKey, time: u128) -> bool {
    exists|k: int|
        0 <= k < offers.len() && #[trigger] admitted_sample(offers, k, sample)
            && offers[k].now.nanos == time
}

/// What is on record after a history under one interval: only admissions, and of
/// each sample the latest, unless it is as old as the interval.
proof fn lemma_record(offers: Seq<Offer>, interval: Duration)
    requires
        is_uniform(offers, interval),
    ensures
        known_after(offers).frame_budget is None,
        known_after(offers).longest_interval.nanos == 0 || known_after(offers).longest_interval
            == interval,
        forall|id: SampleKey| #[trigger]
            known_after(offers).admissions.contains_key(id) ==> on_record(
                offers,
                id,
                known_after(offers).admissions[id],
            ),
        forall|k: int, id: SampleKey|
            0 <= k < offers.len() && #[trigger] admitted_sample(offers, k, id) ==> (
            known_after(offers).admissions.contains_key(id) && offers[k].now.nanos
                <= known_after(offers).admissions[id]) || offers.last().now.nanos
                - offers[k].now.nanos >= interval.nanos,
    decreases offers.len(),
{
    if offers.len() > 0 {
        let n: int = offers.len() - 1;
        let earlier = offers.drop_last();
        assert forall|k: int| 0 <= k < n implies (#[trigger] earlier[k]) == offers[k] by {}
        assert(is_uniform(earlier, interval));
        lemma_record(earlier, interval);
        let gate = GateState { now: offers[n].now, ..known_after(earlier) };
        let request = offers[n].request;
        assert(sets_only(request, interval));
        assert(offers.take(n) =~= earlier);
        let before = known_after(earlier).admissions;
        let after = known_after(offers).admissions;
        assert forall|k: int, id: SampleKey| 0 <= k < n implies #[trigger] admitted_sample(
            offers,
            k,
            id,
        ) == admitted_sample(earlier, k, id) by {
            assert(offers.take(k) =~= earlier.take(k));
        }
        assert forall|id: SampleKey| #[trigger] after.contains_key(id) implies on_record(
            offers,
            id,
            after[id],
        ) by {
            if before.contains_key(id) && after[id] == before[id] {
                assert(on_record(earlier, id, before[id]));
                let k = choose|k: int|
                    0 <= k < earlier.len() && #[trigger] admitted_sample(earlier, k, id)
                        && earlier[k].now.nanos == before[id];
                assert(admitted_sample(offers, k, id));
            } else {
                assert(admitted_sample(offers, n, id));
            }
        }
        assert forall|k: int, id: SampleKey|
            0 <= k < offers.len() && #[trigger] admitted_sample(offers, k, id) implies (
        after.contains_key(id) && offers[k].now.nanos <= after[id]) || offers.last().now.nanos
            - offers[k].now.nanos >= interval.nanos by {
            assert(offers[k].now.nanos <= offers[n].now.nanos);
            if k < n {
                assert(admitted_sample(earlier, k, id));
                assert(earlier.last() == offers[n - 1]);
                assert(offers[n - 1].now.nanos <= offers[n].now.nanos);
            }
        }
    }
}

/// A request is admitted exactly if it stays within every control that is set: the
/// admissions so far are fewer than the frame's budget, its sample's admissions of
/// this frame, this one counted in, are no more than its cap for the frame, with
/// the live entries no more than its cap on those, its interval has passed since
/// its sample was last admitted, and the nearest listener is near enough.
pub proof fn what_stays_within_every_control_is_admitted(
    gate: GateState,
    request: AdmissionRequest,
    live: usize,
    distance: Option<Single>,
)
    ensures
        ({
            let key = (request.sample.kind, request.sample.number);
            let same: nat = if gate.counts.contains_key(key) {
                gate.counts[key] as nat
            } else {
                0
            };
            let last = gate.admissions[key];
            gate.verdict(request, live, distance) is Ok <==> {
                &&& gate.frame_budget matches Some(cap) ==> gate.admitted + 1 <= cap
                &&& request.max_per_frame matches Some(cap) ==> same + 1 <= cap
                &&& request.max_concurrent matches Some(cap) ==> live + same + 1 <= cap
                &&& request.min_repeat_interval matches Some(interval)
                    ==> !gate.admissions.contains_key(key) || interval.nanos == 0 || last
                    + interval.nanos <= gate.now.nanos
                &&& request.max_distance matches Some(limit) ==> request.position is None
                    || distance is None || !limit.is_less(distance->0)
            }
        }),
{
}

/// A refusal names the first control that is not met, in the order of the frame's
/// budget, the cap for the frame, the cap on live entries, the interval and the
/// distance.
pub proof fn a_refusal_names_the_first_control_not_met(
    gate: GateState,
    request: AdmissionRequest,
    live: usize,
    distance: Option<Single>,
)
    ensures
        ({
            let key = (request.sample.kind, request.sample.number);
            let same: nat = if gate.counts.contains_key(key) {
                gate.counts[key] as nat
            } else {
                0
            };
            let spent = gate.frame_budget matches Some(cap) && gate.admitted >= cap;
            let capped = request.max_per_frame matches Some(cap) && same >= cap;
            let crowded = request.max_concurrent matches Some(cap) && live + same >= cap;
            let early = request.min_repeat_interval matches Some(interval)
                && gate.admissions.contains_key(key) && interval.nanos > 0 && gate.now.nanos
                < gate.admissions[key] + interval.nanos;
            let r = gate.verdict(request, live, distance);
            &&& r == Err::<(), _>(AdmissionRejection::FrameBudgetSpent) <==> spent
            &&& r == Err::<(), _>(AdmissionRejection::PerFrameCap) <==> !spent && capped
            &&& r == Err::<(), _>(AdmissionRejection::ConcurrentCap) <==> !spent && !capped
                && crowded
            &&& r == Err::<(), _>(AdmissionRejection::RepeatTooSoon) <==> !spent && !capped
                && !crowded && early
            &&& r is Err && !spent && !capped && !crowded && !early ==> r == Err::<(), _>(
                AdmissionRejection::TooFar,
            )
        }),
{
}

/// An admission counts once: the entrance has admitted one request more, and one
/// more of its sample and of no other. Under an interval its time is on record.
/// The budget and the clock are as they were.
pub proof fn an_admission_counts_once(
    gate: GateState,
    request: AdmissionRequest,
    other: SampleKey,
)
    requires
        gate.wf(),
        gate.admitted < u128::MAX,
    ensures
        ({
            let key = (request.sample.kind, request.sample.number);
            let r = gate.admitting(request);
            &&& r.admitted == gate.admitted + 1
            &&& r.counts.contains_key(key)
            &&& r.counts[key] == if gate.counts.contains_key(key) {
                gate.counts[key] + 1
            } else {
                1int
            }
            &&& other != key ==> r.counts.contains_key(other) == gate.counts.contains_key(other)
                && r.counts[other] == gate.counts[other]
            &&& r.frame_budget == gate.frame_budget && r.now == gate.now
            &&& request.min_repeat_interval matches Some(interval) ==> r.admissions.contains_key(
                key,
            ) && r.admissions[key] == gate.now.nanos && r.longest_interval.nanos
                >= interval.nanos && r.longest_interval.nanos >= gate.longest_interval.nanos
            &&& request.min_repeat_interval is None ==> r.admissions == gate.admissions
        }),
{
}

/// An entrance opens with nothing admitted, on the record that there is.
pub proof fn an_entrance_opens_with_nothing_admitted<C: AudioCategory>(
    state: AdmissionState<C>,
    frame_budget: Option<usize>,
    now: Duration,
    sample: SampleKey,
)
    ensures
        ({
            let gate = opened(state, frame_budget, now);
            &&& gate.admitted == 0 && !gate.counts.contains_key(sample)
            &&& gate.frame_budget == frame_budget && gate.now == now
            &&& gate.admissions == state.admissions()
            &&& gate.longest_interval == state.longest_interval
            &&& gate.wf()
        }),
{
}

/// How many of requests in turn an entrance admits, in front of `live` entries that
/// play each sample already.
pub open spec fn let_in(gate: GateState, requests: Seq<AdmissionRequest>, live: usize) -> nat {
    (entered(gate, requests, live).admitted - gate.admitted) as nat
}

/// What an entrance knows after requests in turn.
pub open spec fn entered(gate: GateState, requests: Seq<AdmissionRequest>, live: usize) -> GateState
    decreases requests.len(),
{
    if requests.len() == 0 {
        gate
    } else {
        let before = entered(gate, requests.drop_last(), live);
        if before.verdict(requests.last(), live, None) is Ok {
            before.admitting(requests.last())
        } else {
            before
        }
    }
}

/// The lesser of two numbers, and nothing where that is negative.
spec fn at_most(a: int, b: int) -> nat {
    if b <= 0 {
        0
    } else if a <= b {
        a as nat
    } else {
        b as nat
    }
}

/// A cap lets in exactly as many: of requests for one sample that set a cap for the
/// frame and nothing else, as many are admitted as there are, up to the cap less
/// what the frame has admitted of the sample already.
pub proof fn a_frame_cap_lets_in_exactly_as_many(
    gate: GateState,
    requests: Seq<AdmissionRequest>,
    live: usize,
    sample: SampleId,
    cap: usize,
)
    requires
        gate.frame_budget is None,
        gate.wf(),
        gate.admitted + requests.len() <= u128::MAX,
        forall|k: int|
            0 <= k < requests.len() ==> (#[trigger] requests[k]) == (AdmissionRequest {
                sample,
                position: requests[k].position,
                max_concurrent: None,
                max_per_frame: Some(cap),
                min_repeat_interval: None,
                max_distance: None,
            }),
    ensures
        ({
            let key = (sample.kind, sample.number);
            let already: int = if gate.counts.contains_key(key) {
                gate.counts[key] as int
            } else {
                0
            };
            let n = requests.len() as int;
            let room = cap - already;
            let_in(gate, requests, live) == if room <= 0 {
                0
            } else if n <= room {
                n
            } else {
                room
            }
        }),
{
    lemma_frame_cap(gate, requests, live, sample, cap);
}

/// How far a cap per frame has been used up after requests in turn.
proof fn lemma_frame_cap(
    gate: GateState,
    requests: Seq<AdmissionRequest>,
    live: usize,
    sample: SampleId,
    cap: usize,
)
    requires
        gate.frame_budget is None,
        gate.wf(),
        gate.admitted + requests.len() <= u128::MAX,
        forall|k: int|
            0 <= k < requests.len() ==> (#[trigger] requests[k]) == (AdmissionRequest {
                sample,
                position: requests[k].position,
                max_concurrent: None,
                max_per_frame: Some(cap),
                min_repeat_interval: None,
                max_distance: None,
            }),
    ensures
        ({
            let r = entered(gate, requests, live);
            let n = at_most(requests.len() as int, cap - gate.same_this_frame(sample));
            &&& r.admitted == gate.admitted + n
            &&& r.same_this_frame(sample) == gate.same_this_frame(sample) + n
            &&& r.frame_budget is None
            &&& r.wf()
        }),
    decreases requests.len(),
{
    if requests.len() > 0 {
        let earlier = requests.drop_last();
        assert(forall|k: int| 0 <= k < earlier.len() ==> #[trigger] earlier[k] == requests[k]);
        lemma_frame_cap(gate, earlier, live, sample, cap);
        assert(requests.last() == requests[requests.len() - 1]);
        let before = entered(gate, earlier, live);
        assert(before.same_this_frame(sample) <= before.admitted);
        lemma_admitting_keeps(before, requests.last());
    }
}

/// An admission keeps the entrance as it should be.
proof fn lemma_admitting_keeps(gate: GateState, request: AdmissionRequest)
    requires
        gate.wf(),
        gate.admitted < u128::MAX,
    ensures
        gate.admitting(request).wf(),
        gate.admitting(request).same_this_frame(request.sample) == gate.same_this_frame(
            request.sample,
        ) + 1,
{
    let r = gate.admitting(request);
    assert forall|sample: SampleKey| #[trigger] r.counts.contains_key(sample) implies r.counts[sample]
        <= r.admitted by {
        assert(sample != request.sample.key() ==> gate.counts.contains_key(sample));
    }
}

/// A cap on live entries lets in exactly as many: of requests for one sample that
/// set such a cap and nothing else, as many are admitted as there are, up to the
/// cap less what is live and what the frame has admitted of the sample already.
pub proof fn a_concurrency_cap_lets_in_exactly_as_many(
    gate: GateState,
    requests: Seq<AdmissionRequest>,
    live: usize,
    sample: SampleId,
    cap: usize,
)
    requires
        gate.frame_budget is None,
        gate.wf(),
        gate.admitted + requests.len() <= u128::MAX,
        forall|k: int|
            0 <= k < requests.len() ==> (#[trigger] requests[k]) == (AdmissionRequest {
                sample,
                position: requests[k].position,
                max_concurrent: Some(cap),
                max_per_frame: None,
                min_repeat_interval: None,
                max_distance: None,
            }),
    ensures
        ({
            let key = (sample.kind, sample.number);
            let already: int = if gate.counts.contains_key(key) {
                gate.counts[key] as int
            } else {
                0
            };
            let n = requests.len() as int;
            let room = cap - live - already;
            let_in(gate, requests, live) == if room <= 0 {
                0
            } else if n <= room {
                n
            } else {
                room
            }
        }),
{
    lemma_concurrency_cap(gate, requests, live, sample, cap);
}

/// How far a cap on live entries has been used up after requests in turn.
proof fn lemma_concurrency_cap(
    gate: GateState,
    requests: Seq<AdmissionRequest>,
    live: usize,
    sample: SampleId,
    cap: usize,
)
    requires
        gate.frame_budget is None,
        gate.wf(),
        gate.admitted + requests.len() <= u128::MAX,
        forall|k: int|
            0 <= k < requests.len() ==> (#[trigger] requests[k]) == (AdmissionRequest {
                sample,
                position: requests[k].position,
                max_concurrent: Some(cap),
                max_per_frame: None,
                min_repeat_interval: None,
                max_distance: None,
            }),
    ensures
        ({
            let r = entered(gate, requests, live);
            let n = at_most(requests.len() as int, cap - live - gate.same_this_frame(sample));
            &&& r.admitted == gate.admitted + n
            &&& r.same_this_frame(sample) == gate.same_this_frame(sample) + n
            &&& r.frame_budget is None
            &&& r.wf()
        }),
    decreases requests.len(),
{
    if requests.len() > 0 {
        let earlier = requests.drop_last();
        assert(forall|k: int| 0 <= k < earlier.len() ==> #[trigger] earlier[k] == requests[k]);
        lemma_concurrency_cap(gate, earlier, live, sample, cap);
        assert(requests.last() == requests[requests.len() - 1]);
        let before = entered(gate, earlier, live);
        assert(before.same_this_frame(sample) <= before.admitted);
        lemma_admitting_keeps(before, requests.last());
    }
}

/// A frame's budget lets in exactly as many: of requests that set no control, as
/// many are admitted as there are, up to the budget less what was admitted already.
pub proof fn a_frame_budget_lets_in_exactly_as_many(
    gate: GateState,
    requests: Seq<AdmissionRequest>,
    live: usize,
    budget: usize,
)
    requires
        gate.frame_budget == Some(budget),
        forall|k: int|
            0 <= k < requests.len() ==> (#[trigger] requests[k]) == (AdmissionRequest {
                sample: requests[k].sample,
                position: requests[k].position,
                max_concurrent: None,
                max_per_frame: None,
                min_repeat_interval: None,
                max_distance: None,
            }),
    ensures
        entered(gate, requests, live).frame_budget == Some(budget),
        let_in(gate, requests, live) == ({
            let n = requests.len() as int;
            let room = budget - gate.admitted;
            if room <= 0 {
                0
            } else if n <= room {
                n
            } else {
                room
            }
        }),
        entered(gate, requests, live).admitted >= gate.admitted,
    decreases requests.len(),
{
    if requests.len() > 0 {
        let earlier = requests.drop_last();
        assert(forall|k: int| 0 <= k < earlier.len() ==> #[trigger] earlier[k] == requests[k]);
        a_frame_budget_lets_in_exactly_as_many(gate, earlier, live, budget);
        assert(requests.last() == requests[requests.len() - 1]);
    }
}

/// A distance that is finite and not negative stands, a negative one is zero, and
/// one that is not finite sets no limit.
pub proof fn only_finite_distances_limit(distance: Single)
    ensures
        distance.is_finite() && !distance.is_negative() ==> sanitized_distance(distance) == Some(
            distance,
        ),
        distance.is_finite() && distance.is_negative() ==> sanitized_distance(distance) == Some(
            Single::zero(),
        ),
        !distance.is_finite() ==> sanitized_distance(distance) is None,
{
}

/// The table of admissions forgets nothing while it holds fewer than 64 samples, nor
/// when it is told of a sample that it knows. When it is full and told of a new one,
/// it forgets the samples that were admitted a horizon ago or longer, and no others.
pub proof fn only_a_full_table_forgets(
    held: Map<SampleKey, u128>,
    id: SampleKey,
    now: Duration,
    horizon: Duration,
    other: SampleKey,
)
    requires
        other != id,
        held.contains_key(other),
    ensures
        ({
            let after = with_admission(held, id, now, horizon);
            let full = held.dom().len() >= 64 && !held.contains_key(id);
            &&& after.contains_key(id) && after[id] == now.nanos
            &&& after.contains_key(other) ==> after[other] == held[other]
            &&& !full ==> after.contains_key(other)
            &&& full && held[other] <= now.nanos ==> (after.contains_key(other) <==> now.nanos
                < held[other] + horizon.nanos)
        }),
{
}

/// The live entries of a sample are counted only for a request that caps them and is
/// not refused before; the listeners are measured only for a request that limits its
/// distance, is somewhere, and is not refused by anything else.
pub proof fn nothing_is_measured_in_vain(
    gate: GateState,
    request: AdmissionRequest,
    live: usize,
    distance: Option<Single>,
)
    ensures
        gate.counts_live(request) <==> request.max_concurrent is Some && gate.verdict(
            AdmissionRequest {
                max_concurrent: None,
                min_repeat_interval: None,
                max_distance: None,
                ..request
            },
            live,
            distance,
        ) is Ok,
        gate.measures_distance(request, live) <==> request.max_distance is Some
            && request.position is Some && gate.verdict(request, live, None) is Ok,
        !gate.measures_distance(request, live) ==> gate.verdict(request, live, distance)
            == gate.verdict(request, live, None),
{
}

} // verus!
