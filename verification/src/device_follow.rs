//! Keeps the audio stream bound to the operating system's default output
//! device.
//!
//! The default output device is polled on an interval; when it changes while
//! no specific device is pinned, the stream is restarted and opens whatever is
//! the default then.

use crate::time::{Duration, MAX_NANOS};
use vstd::prelude::*;

verus! {

/// How many nanoseconds a second has.
pub const NANOS_PER_SEC: u128 = 1_000_000_000;

/// Enables following the operating system's default audio output device.
#[derive(Clone, Copy, Debug)]
pub struct FollowDefaultAudioDevice {
    /// How often to check which output device is the default. Changing it
    /// retimes the poll on the next run.
    pub poll_interval: Duration,
}

impl Default for FollowDefaultAudioDevice {
    fn default() -> (r: FollowDefaultAudioDevice)
        ensures
            r.poll_interval == Duration::from_secs(1),
    {
        FollowDefaultAudioDevice { poll_interval: Duration::from_secs(1) }
    }
}

/// A repeating timer.
#[derive(Clone, Copy, Debug)]
pub struct PollTimer {
    pub duration: Duration,
    pub elapsed: Duration,
}

/// A span of whole seconds and nanoseconds, in nanoseconds.
pub open spec fn in_nanos(secs: u64, nanos: u32) -> nat {
    (secs * 1_000_000_000 + nanos) as nat
}

/// Where a repeating timer stands after a tick, before it starts over: the time
/// elapsed, as far as a span of time reaches.
pub open spec fn reached(elapsed: nat, delta: nat) -> nat {
    if elapsed + delta <= MAX_NANOS {
        elapsed + delta
    } else {
        MAX_NANOS as nat
    }
}

/// Whether a repeating timer of `duration` finishes on reaching `time`. The
/// times it finished are counted in 32 bits: where a tick passes a multiple of
/// that many, it counts none.
pub open spec fn finishes(duration: nat, time: nat) -> bool {
    time >= duration && (duration == 0 || (time / duration) % 0x1_0000_0000 != 0)
}

/// What a repeating timer of `duration` has elapsed after reaching `time`: the
/// remainder, counted in 64 bits.
pub open spec fn left_over(duration: nat, time: nat) -> nat {
    if time < duration {
        time
    } else if duration == 0 {
        0
    } else {
        (time % duration) % 0x1_0000_0000_0000_0000
    }
}

/// `Timer::tick` of bevy, on a timer made by `Timer::new` in repeating mode and
/// set by `Timer::set_elapsed`, with `Timer::just_finished` and
/// `Timer::elapsed` read afterwards: the time elapsed grows by `delta` as far
/// as a span of time reaches, and the timer finishes and starts over with the
/// remainder once that reaches its duration. Spans are handed over as whole
/// seconds and nanoseconds.
#[verifier::external_body]
fn tick_repeating(duration: (u64, u32), elapsed: (u64, u32), delta: (u64, u32)) -> (r: (
    bool,
    u64,
    u32,
))
    requires
        duration.1 < 1_000_000_000,
        elapsed.1 < 1_000_000_000,
        delta.1 < 1_000_000_000,
    ensures
        r.0 == finishes(
            in_nanos(duration.0, duration.1),
            reached(in_nanos(elapsed.0, elapsed.1), in_nanos(delta.0, delta.1)),
        ),
        in_nanos(r.1, r.2) == left_over(
            in_nanos(duration.0, duration.1),
            reached(in_nanos(elapsed.0, elapsed.1), in_nanos(delta.0, delta.1)),
        ),
{
    let span = core::time::Duration::new(duration.0, duration.1);
    let mut timer = bevy::time::Timer::new(span, bevy::time::TimerMode::Repeating);
    timer.set_elapsed(core::time::Duration::new(elapsed.0, elapsed.1));
    timer.tick(core::time::Duration::new(delta.0, delta.1));
    let left = timer.elapsed();
    (timer.just_finished(), left.as_secs(), left.subsec_nanos())
}

/// A span as whole seconds and nanoseconds.
fn split(d: Duration) -> (r: (u64, u32))
    requires
        d.nanos <= MAX_NANOS,
    ensures
        r.1 < 1_000_000_000,
        in_nanos(r.0, r.1) == d.nanos,
{
    ((d.nanos / NANOS_PER_SEC) as u64, (d.nanos % NANOS_PER_SEC) as u32)
}

impl PollTimer {
    /// Whether both times of the timer are spans of time.
    pub open spec fn wf(&self) -> bool {
        self.duration.nanos <= MAX_NANOS && self.elapsed.nanos <= MAX_NANOS
    }

    /// A timer that starts over every `duration`.
    pub fn new(duration: Duration) -> (r: PollTimer)
        ensures
            r == (PollTimer { duration, elapsed: Duration::zero() }),
    {
        PollTimer { duration, elapsed: Duration::zero() }
    }

    /// Changes the duration, keeping the time elapsed.
    pub fn set_duration(&mut self, duration: Duration)
        ensures
            *final(self) == (PollTimer { duration, ..*old(self) }),
    {
        self.duration = duration;
    }

    /// Advances the timer by `delta`; whether it finished.
    pub fn tick(&mut self, delta: Duration) -> (finished: bool)
        requires
            old(self).wf(),
            delta.nanos <= MAX_NANOS,
        ensures
            final(self).wf(),
            final(self).duration == old(self).duration,
            finished == finishes(
                old(self).duration.nanos as nat,
                reached(old(self).elapsed.nanos as nat, delta.nanos as nat),
            ),
            final(self).elapsed.nanos == left_over(
                old(self).duration.nanos as nat,
                reached(old(self).elapsed.nanos as nat, delta.nanos as nat),
            ),
    {
        let (finished, secs, nanos): (bool, u64, u32) = tick_repeating(
            split(self.duration),
            split(self.elapsed),
            split(delta),
        );
        self.elapsed = Duration { nanos: secs as u128 * NANOS_PER_SEC + nanos as u128 };
        proof {
            lemma_left_over(
                self.duration.nanos as nat,
                reached(old(self).elapsed.nanos as nat, delta.nanos as nat),
            );
        }
        finished
    }
}

/// What is left over of a span is a span.
proof fn lemma_left_over(duration: nat, time: nat)
    requires
        time <= MAX_NANOS,
    ensures
        left_over(duration, time) <= MAX_NANOS,
{
}

/// The polling state: the timer and the default output device last observed.
pub struct FollowDefaultState {
    pub timer: PollTimer,
    pub last_default: Option<String>,
}

impl Default for FollowDefaultState {
    fn default() -> (r: FollowDefaultState)
        ensures
            r.timer == (PollTimer { duration: Duration::from_secs(1), elapsed: Duration::zero() }),
            r.last_default is None,
    {
        FollowDefaultState {
            timer: PollTimer::new(Duration::from_secs(1)),
            last_default: None,
        }
    }
}

/// The name of a device, if there is one.
pub open spec fn name_of(device: Option<String>) -> Option<Seq<char>> {
    match device {
        Some(name) => Some(name@),
        None => None,
    }
}

/// Whether observing `current` after `before` leaves `after` in the cache, and
/// whether the device `changed`: a device observed before gave way to another.
/// The first observation seeds the cache, and a failed one leaves it untouched.
pub open spec fn observes(
    before: Option<String>,
    current: Option<String>,
    after: Option<String>,
    changed: bool,
) -> bool {
    &&& changed == (before is Some && current is Some && name_of(before) != name_of(current))
    &&& name_of(after) == if current is Some {
        name_of(current)
    } else {
        name_of(before)
    }
}

/// Compares the default device last observed with the current one.
///
/// Returns `true` only when a device observed before is replaced by another
/// one. The first observation seeds the cache, and a failed enumeration leaves
/// it untouched, so neither asks for a restart.
pub fn default_changed(last: &mut Option<String>, current: Option<String>) -> (r: bool)
    ensures
        observes(*old(last), current, *final(last), r),
{
    let current = match current {
        Some(current) => current,
        None => {
            return false;
        },
    };
    let changed: bool = match last {
        Some(previous) => !(*previous == current),
        None => false,
    };
    *last = Some(current);
    changed
}

/// Whether the default having moved warrants a restart of the stream.
///
/// `enumerate` yields the device that is currently the default, and is called
/// only when no device is pinned. A pinned device is never overridden: the
/// cache is left untouched while one is set.
pub fn restart_needed<E: FnOnce() -> Option<String>>(
    pinned: bool,
    last_default: &mut Option<String>,
    enumerate: E,
) -> (r: bool)
    requires
        !pinned ==> call_requires(enumerate, ()),
    ensures
        pinned ==> !r && *final(last_default) == *old(last_default),
        !pinned ==> exists|current: Option<String>| #[trigger]
            call_ensures(enumerate, (), current) && observes(
                *old(last_default),
                current,
                *final(last_default),
                r,
            ),
{
    if pinned {
        return false;
    }
    default_changed(last_default, enumerate())
}

/// Whether the poll is due after `delta`, on a timer retimed to `interval`.
pub open spec fn poll_due(timer: PollTimer, interval: Duration, delta: Duration) -> bool {
    finishes(interval.nanos as nat, reached(timer.elapsed.nanos as nat, delta.nanos as nat))
}

/// Polls the default output device; whether the stream has to restart.
///
/// `pinned` tells whether a specific device is configured, and `enumerate`
/// yields the device that is currently the default. Neither is looked at unless
/// the poll is due.
pub fn follow_default_device<E: FnOnce() -> Option<String>>(
    delta: Duration,
    settings: &FollowDefaultAudioDevice,
    state: &mut FollowDefaultState,
    pinned: bool,
    enumerate: E,
) -> (restart: bool)
    requires
        old(state).timer.wf(),
        settings.poll_interval.nanos <= MAX_NANOS,
        delta.nanos <= MAX_NANOS,
        !pinned && poll_due(old(state).timer, settings.poll_interval, delta) ==> call_requires(
            enumerate,
            (),
        ),
    ensures
        final(state).timer.wf(),
        final(state).timer.duration == settings.poll_interval,
        final(state).timer.elapsed.nanos == left_over(
            settings.poll_interval.nanos as nat,
            reached(old(state).timer.elapsed.nanos as nat, delta.nanos as nat),
        ),
        pinned || !poll_due(old(state).timer, settings.poll_interval, delta) ==> !restart
            && final(state).last_default == old(state).last_default,
        !pinned && poll_due(old(state).timer, settings.poll_interval, delta) ==> exists|
            current: Option<String>,
        | #[trigger]
            call_ensures(enumerate, (), current) && observes(
                old(state).last_default,
                current,
                final(state).last_default,
                restart,
            ),
{
    state.timer.set_duration(settings.poll_interval);
    if !state.timer.tick(delta) {
        return false;
    }
    restart_needed(pinned, &mut state.last_default, enumerate)
}

/// Records the default device that the stream just started on, so that a
/// restart begun elsewhere is not followed by another from the poll.
pub fn resync_on_stream_start(state: &mut FollowDefaultState, current: Option<String>)
    ensures
        final(state).timer == old(state).timer,
        final(state).last_default == current,
{
    state.last_default = current;
}

/// A restart is asked for once: after an observation, observing the same device
/// again does not ask for another.
pub proof fn the_same_device_is_followed_once(
    before: Option<String>,
    current: Option<String>,
    after: Option<String>,
    changed: bool,
    again: Option<String>,
    changed_again: bool,
)
    requires
        current is Some,
        observes(before, current, after, changed),
        observes(after, current, again, changed_again),
    ensures
        !changed_again,
        name_of(again) == name_of(after),
{
}

/// A poll is due once the interval has passed since the last, by the interval that is
/// asked for now; the timer starts over with what is left of the time, a whole number
/// of intervals short of it.
pub proof fn a_poll_is_due_once_the_interval_has_passed(
    timer: PollTimer,
    interval: Duration,
    delta: Duration,
)
    requires
        interval.nanos > 0,
        timer.elapsed.nanos + delta.nanos <= MAX_NANOS,
        timer.elapsed.nanos + delta.nanos < 0x1_0000_0000 * interval.nanos,
    ensures
        poll_due(timer, interval, delta) <==> timer.elapsed.nanos + delta.nanos >= interval.nanos,
        ({
            let time = (timer.elapsed.nanos + delta.nanos) as nat;
            let left = left_over(
                interval.nanos as nat,
                reached(timer.elapsed.nanos as nat, delta.nanos as nat),
            );
            &&& time < interval.nanos ==> left == time
            &&& interval.nanos <= 0x1_0000_0000_0000_0000 ==> left < interval.nanos && exists|
                k: nat,
            |
                time == left + #[trigger] (k * interval.nanos)
        }),
{
    let time: nat = (timer.elapsed.nanos + delta.nanos) as nat;
    let d: nat = interval.nanos as nat;
    vstd::arithmetic::div_mod::lemma_fundamental_div_mod(time as int, d as int);
    let q: nat = time / d;
    let r: nat = time % d;
    assert(time == q * d + r) by (nonlinear_arith)
        requires
            time == d * q + r,
    ;
    assert(q < 0x1_0000_0000) by (nonlinear_arith)
        requires
            time == q * d + r,
            time < 0x1_0000_0000 * d,
            r >= 0,
            d > 0,
    ;
    if time >= d {
        assert(q >= 1) by (nonlinear_arith)
            requires
                time == q * d + r,
                r < d,
                time >= d,
                d > 0,
        ;
    } else {
        assert(0 * d == 0) by (nonlinear_arith);
        assert(time == time + 0nat * interval.nanos);
    }
    if d <= 0x1_0000_0000_0000_0000 && time >= d {
        assert(r % 0x1_0000_0000_0000_0000 == r);
        assert(time == r + q * interval.nanos);
    }
}

/// A restart is asked for exactly if a device was observed before, one is observed
/// now, and their names differ; what is observed is remembered, and where nothing is,
/// what was.
pub proof fn only_another_device_asks_for_a_restart(
    before: Option<String>,
    current: Option<String>,
    after: Option<String>,
    changed: bool,
)
    requires
        observes(before, current, after, changed),
    ensures
        before is None || current is None ==> !changed,
        before is Some && current is Some ==> (changed <==> (before->0)@ != (current->0)@),
        current is Some ==> after is Some && (after->0)@ == (current->0)@,
        current is None ==> after is Some == before is Some,
        current is None && before is Some ==> (after->0)@ == (before->0)@,
{
}

} // verus!
