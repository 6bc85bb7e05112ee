//! Sidechain-style ducking: high-priority cues dip the routine mix.
//!
//! One [`DuckingEnvelope`] serves the whole mix. It is triggered when a cue
//! actually spawns, attacks fast, holds briefly and releases slowly. It never
//! touches a volume node itself: [`DuckingEnvelope::gain_for`] is folded into
//! whichever volume write a system owns already.

use crate::single::arith::{difference, product, quotient, sum};
use crate::single::laws::{
    in_unit, lemma_difference_at_most, lemma_negated, lemma_one, lemma_product_sign,
    lemma_quotient_sign, lemma_rounded_place_monotonic, lemma_sum_at_least, lemma_sum_place,
};
use crate::single::order::lemma_place_is_value;
use crate::single::Single;
use vstd::prelude::*;

verus! {

/// The bits of the floor for the timing fields when read, a ten-thousandth of a
/// second: a zero, negative or absent time still yields a finite rate.
pub const MIN_SHAPE_SECS: u32 = 0x38d1_b717;

/// The bits of the ceiling for the timing fields when read, the largest finite
/// number: an infinite time still yields a finite one.
pub const MAX_SHAPE_SECS: u32 = 0x7f7f_ffff;

/// The bits of the default ducked gain, one half.
pub const DEFAULT_DUCKED_GAIN: u32 = 0x3f00_0000;

/// The bits of the default attack, a twenty-fifth of a second.
pub const DEFAULT_ATTACK_SECS: u32 = 0x3d23_d70a;

/// The bits of the default hold, a quarter of a second.
pub const DEFAULT_HOLD_SECS: u32 = 0x3e80_0000;

/// The bits of the default release, nine twentieths of a second.
pub const DEFAULT_RELEASE_SECS: u32 = 0x3ee6_6666;

/// The one mix-wide ducking envelope.
///
/// At one while at rest; pulled toward `ducked_gain` while a cue holds it. The
/// shape fields are freely writable and sanitized where they are read: no
/// configuration can push the gain out of the range from zero to one, or keep
/// `is_idle` from ever returning true. A tick whose step is lost in rounding
/// moves to the next number on its way.
#[derive(Clone, Copy, Debug, PartialEq)]
pub struct DuckingEnvelope {
    /// Current linear gain applied to duckable sounds.
    pub gain: Single,
    /// Seconds of full-depth hold left before the release begins.
    pub hold_remaining: Single,
    /// Linear gain the routine mix is pulled down to while a cue plays. Read
    /// clamped between zero and one.
    pub ducked_gain: Single,
    /// Seconds to reach `ducked_gain` once triggered. Read floored just above
    /// zero, and finite.
    pub attack_secs: Single,
    /// Seconds the duck holds at full depth after the most recent trigger; the
    /// hold clock starts once the attack is over. Read floored just above zero,
    /// and finite.
    pub hold_secs: Single,
    /// Seconds to recover to unity after the hold lapses. Read floored just
    /// above zero, and finite.
    pub release_secs: Single,
}

impl Default for DuckingEnvelope {
    fn default() -> (r: DuckingEnvelope)
        ensures
            r == (DuckingEnvelope {
                gain: Single::one(),
                hold_remaining: Single::zero(),
                ducked_gain: Single { bits: DEFAULT_DUCKED_GAIN },
                attack_secs: Single { bits: DEFAULT_ATTACK_SECS },
                hold_secs: Single { bits: DEFAULT_HOLD_SECS },
                release_secs: Single { bits: DEFAULT_RELEASE_SECS },
            }),
    {
        DuckingEnvelope {
            gain: Single::one(),
            hold_remaining: Single::zero(),
            ducked_gain: Single { bits: DEFAULT_DUCKED_GAIN },
            attack_secs: Single { bits: DEFAULT_ATTACK_SECS },
            hold_secs: Single { bits: DEFAULT_HOLD_SECS },
            release_secs: Single { bits: DEFAULT_RELEASE_SECS },
        }
    }
}

/// A time as it is read: no shorter than the floor, no longer than the ceiling.
pub open spec fn secs_as_read(secs: Single) -> Single {
    secs.max(Single { bits: MIN_SHAPE_SECS }).min(Single { bits: MAX_SHAPE_SECS })
}

/// A time as it is read.
fn read_secs(secs: Single) -> (r: Single)
    ensures
        r == secs_as_read(secs),
{
    secs.max(Single { bits: MIN_SHAPE_SECS }).min(Single { bits: MAX_SHAPE_SECS })
}

impl DuckingEnvelope {
    /// The ducked gain as it is read.
    pub open spec fn depth(self) -> Single {
        self.ducked_gain.clamp(Single::zero(), Single::one())
    }

    /// How far the gain moves in `delta_secs` where the whole way takes `secs`.
    pub open spec fn step(self, secs: Single, delta_secs: Single) -> Single {
        product(quotient(difference(Single::one(), self.depth()), secs_as_read(secs)), delta_secs)
    }

    pub open spec fn holding(self) -> bool {
        Single::zero().is_less(self.hold_remaining)
    }

    pub open spec fn attacking(self) -> bool {
        self.holding() && self.depth().is_less(self.gain)
    }

    pub open spec fn spec_is_idle(&self) -> bool {
        self.hold_remaining.is_at_most(Single::zero()) && Single::one().is_at_most(self.gain)
    }

    /// The envelope after a trigger.
    pub open spec fn triggered(self) -> DuckingEnvelope {
        DuckingEnvelope { hold_remaining: secs_as_read(self.hold_secs), ..self }
    }

    /// The gain after `delta_secs` of attack.
    pub open spec fn gain_toward_depth(self, delta_secs: Single) -> Single {
        let next = difference(self.gain, self.step(self.attack_secs, delta_secs)).max(
            self.depth(),
        );
        if Single::zero().is_less(delta_secs) && !next.is_less(self.gain) {
            self.gain.next_below().max(self.depth())
        } else {
            next
        }
    }

    /// What is left of the hold after `delta_secs` of it.
    pub open spec fn hold_after(self, delta_secs: Single) -> Single {
        let left = difference(self.hold_remaining, delta_secs);
        if Single::zero().is_less(delta_secs) && !left.is_less(self.hold_remaining) {
            self.hold_remaining.next_below()
        } else {
            left
        }
    }

    /// The gain after `delta_secs` of release.
    pub open spec fn gain_toward_one(self, delta_secs: Single) -> Single {
        let next = sum(self.gain, self.step(self.release_secs, delta_secs)).min(Single::one());
        if Single::zero().is_less(delta_secs) && !self.gain.is_less(next) {
            self.gain.next_above().min(Single::one())
        } else {
            next
        }
    }

    /// The envelope after `delta_secs`.
    pub open spec fn ticked(self, delta_secs: Single) -> DuckingEnvelope {
        if self.attacking() {
            DuckingEnvelope { gain: self.gain_toward_depth(delta_secs), ..self }
        } else if self.holding() {
            DuckingEnvelope { hold_remaining: self.hold_after(delta_secs), ..self }
        } else {
            DuckingEnvelope { gain: self.gain_toward_one(delta_secs), ..self }
        }
    }

    /// Starts, or extends, the duck.
    pub fn trigger(&mut self)
        ensures
            *final(self) == old(self).triggered(),
    {
        self.hold_remaining = read_secs(self.hold_secs);
    }

    /// Whether the envelope is at rest and leaving every sound alone.
    #[verifier::when_used_as_spec(spec_is_idle)]
    pub fn is_idle(&self) -> (r: bool)
        ensures
            r == self.is_idle(),
    {
        self.hold_remaining.is_at_most(Single::zero()) && Single::one().is_at_most(self.gain)
    }

    /// The envelope's current linear gain.
    pub fn gain(&self) -> (r: Single)
        ensures
            r == self.gain,
    {
        self.gain
    }

    pub open spec fn spec_gain_for(&self, ducks: bool) -> Single {
        if ducks {
            self.gain
        } else {
            Single::one()
        }
    }

    /// The gain this envelope applies to one sound: the current gain when the
    /// sound ducks, unity when it stands clear.
    #[verifier::when_used_as_spec(spec_gain_for)]
    pub fn gain_for(&self, ducks: bool) -> (r: Single)
        ensures
            r == self.gain_for(ducks),
    {
        if ducks {
            self.gain
        } else {
            Single::one()
        }
    }

    /// Advances the envelope by `delta_secs`.
    pub fn tick(&mut self, delta_secs: Single)
        ensures
            *final(self) == old(self).ticked(delta_secs),
    {
        let ducked = self.ducked_gain.clamp(Single::zero(), Single::one());
        let way = Single::one().minus(ducked);
        // A frame of no length moves nothing; any other moves something.
        let due = Single::zero().is_less(delta_secs);
        if Single::zero().is_less(self.hold_remaining) {
            if ducked.is_less(self.gain) {
                // The hold clock waits until full depth is reached.
                let rate = way.over(read_secs(self.attack_secs));
                let next = self.gain.minus(rate.times(delta_secs)).max(ducked);
                self.gain = if due && !next.is_less(self.gain) {
                    self.gain.next_below().max(ducked)
                } else {
                    next
                };
            } else {
                let left = self.hold_remaining.minus(delta_secs);
                self.hold_remaining = if due && !left.is_less(self.hold_remaining) {
                    self.hold_remaining.next_below()
                } else {
                    left
                };
            }
        } else {
            let rate = way.over(read_secs(self.release_secs));
            let next = self.gain.plus(rate.times(delta_secs)).min(Single::one());
            self.gain = if due && !self.gain.is_less(next) {
                self.gain.next_above().min(Single::one())
            } else {
                next
            };
        }
    }
}

/// Advances the envelope each frame; a no-op while it is idle.
pub fn tick_ducking_envelope(delta_secs: Single, duck: &mut DuckingEnvelope)
    ensures
        *final(duck) == if old(duck).is_idle() {
            *old(duck)
        } else {
            old(duck).ticked(delta_secs)
        },
{
    if duck.is_idle() {
        return;
    }
    duck.tick(delta_secs);
}

/// The step of an envelope is not negative, unless it is not a number.
proof fn lemma_step_sign(duck: DuckingEnvelope, secs: Single, delta_secs: Single)
    requires
        delta_secs.is_nan() || Single::zero().is_at_most(delta_secs),
    ensures
        duck.step(secs, delta_secs).is_nan() || Single::zero().is_at_most(
            duck.step(secs, delta_secs),
        ),
{
    let depth = duck.depth();
    if !depth.is_nan() && !delta_secs.is_nan() {
        let way = difference(Single::one(), depth);
        lemma_way(depth);
        lemma_quotient_sign(way, secs_as_read(secs));
        let rate = quotient(way, secs_as_read(secs));
        if !rate.is_nan() {
            lemma_product_sign(rate, delta_secs);
        }
    }
}

/// The way from a gain between zero and one up to one is not negative.
proof fn lemma_way(depth: Single)
    requires
        in_unit(depth),
    ensures
        Single::zero().is_at_most(difference(Single::one(), depth)),
{
    lemma_one();
    let c = depth.negated();
    lemma_negated(depth);
    lemma_sum_place(Single::one(), c);
    lemma_place_is_value(depth, Single::one());
    lemma_rounded_place_monotonic(0, Single::one().value() + c.value());
    lemma_rounded_place_monotonic(0, 0);
}

/// No configuration pushes the gain out of its range: whatever the shape
/// fields hold, a gain between zero and one stays between zero and one.
pub proof fn the_gain_stays_in_range(duck: DuckingEnvelope, delta_secs: Single)
    requires
        in_unit(duck.gain),
        delta_secs.is_nan() || Single::zero().is_at_most(delta_secs),
    ensures
        in_unit(duck.ticked(delta_secs).gain),
        in_unit(duck.triggered().gain),
{
    lemma_one();
    if duck.attacking() {
        lemma_step_sign(duck, duck.attack_secs, delta_secs);
        let step = duck.step(duck.attack_secs, delta_secs);
        if !step.is_nan() {
            lemma_difference_at_most(duck.gain, step);
        }
    } else if !duck.holding() {
        lemma_step_sign(duck, duck.release_secs, delta_secs);
        let step = duck.step(duck.release_secs, delta_secs);
        if !step.is_nan() {
            lemma_sum_at_least(duck.gain, step);
        }
    }
}

/// A trigger always holds the duck, and always for a finite time, whatever the
/// shape fields hold.
pub proof fn every_trigger_holds_for_a_finite_time(duck: DuckingEnvelope)
    ensures
        duck.triggered().holding(),
        duck.triggered().hold_remaining.is_finite(),
{
}

/// How far an envelope is from rest: over the attack, the hold and the release
/// that lie ahead of it, in places.
pub open spec fn distance_to_rest(duck: DuckingEnvelope) -> int {
    let release = Single::one().place() - duck.gain.place();
    if duck.attacking() {
        duck.gain.place() - duck.depth().place() + duck.hold_remaining.place()
            + Single::one().place() + 1
    } else if duck.holding() {
        duck.hold_remaining.place() + Single::one().place() + 1
    } else {
        release
    }
}

/// A step of the attack that takes time ends below the gain and not below the depth.
proof fn lemma_moves_down(gain: Single, depth: Single, raw: Single)
    requires
        in_unit(gain),
        in_unit(depth),
        depth.is_less(gain),
    ensures
        ({
            let next = raw.max(depth);
            let r = if !next.is_less(gain) {
                gain.next_below().max(depth)
            } else {
                next
            };
            !r.is_nan() && depth.place() <= r.place() < gain.place()
        }),
{
    lemma_one();
}

/// A step of the hold that takes time leaves less of it.
proof fn lemma_runs_down(hold: Single, left: Single)
    requires
        Single::zero().is_less(hold),
    ensures
        ({
            let r = if !left.is_less(hold) {
                hold.next_below()
            } else {
                left
            };
            !r.is_nan() && r.place() < hold.place()
        }),
{
}

/// A step of the release that takes time ends above the gain and not above one.
proof fn lemma_moves_up(gain: Single, raw: Single)
    requires
        in_unit(gain),
        gain.is_less(Single::one()),
    ensures
        ({
            let next = raw.min(Single::one());
            let r = if !gain.is_less(next) {
                gain.next_above().min(Single::one())
            } else {
                next
            };
            !r.is_nan() && gain.place() < r.place() <= Single::one().place()
        }),
{
    lemma_one();
}

/// Every tick that takes time brings an envelope closer to rest, by a whole place
/// at least, and at no distance it is idle.
pub proof fn every_tick_nears_rest(duck: DuckingEnvelope, delta_secs: Single)
    requires
        in_unit(duck.gain),
        !duck.hold_remaining.is_nan(),
        Single::zero().is_less(delta_secs),
    ensures
        distance_to_rest(duck) >= 0,
        distance_to_rest(duck) == 0 <==> duck.is_idle(),
        !duck.is_idle() ==> distance_to_rest(duck.ticked(delta_secs)) < distance_to_rest(duck),
        !duck.ticked(delta_secs).hold_remaining.is_nan(),
{
    lemma_one();
    let gain = duck.gain;
    if duck.attacking() {
        let step = duck.step(duck.attack_secs, delta_secs);
        lemma_moves_down(gain, duck.depth(), difference(gain, step));
    } else if duck.holding() {
        lemma_runs_down(duck.hold_remaining, difference(duck.hold_remaining, delta_secs));
    } else if gain.is_less(Single::one()) {
        let step = duck.step(duck.release_secs, delta_secs);
        lemma_moves_up(gain, sum(gain, step));
    }
}

/// The envelope after `n` frames of `delta_secs`.
pub open spec fn after_frames(duck: DuckingEnvelope, delta_secs: Single, n: nat) -> DuckingEnvelope
    decreases n,
{
    if n == 0 {
        duck
    } else {
        let before = after_frames(duck, delta_secs, (n - 1) as nat);
        if before.is_idle() {
            before
        } else {
            before.ticked(delta_secs)
        }
    }
}

/// A hostile shape must still come to rest: whatever the shape fields hold, and
/// however long a frame takes, an envelope is idle, at a gain of one, after a
/// finite number of frames.
pub proof fn every_envelope_comes_to_rest(duck: DuckingEnvelope, delta_secs: Single)
    requires
        in_unit(duck.gain),
        !duck.hold_remaining.is_nan(),
        Single::zero().is_less(delta_secs),
    ensures
        exists|n: nat|
            (#[trigger] after_frames(duck, delta_secs, n)).is_idle() && after_frames(
                duck,
                delta_secs,
                n,
            ).gain == Single::one(),
{
    lemma_one();
    every_tick_nears_rest(duck, delta_secs);
    let n: nat = distance_to_rest(duck) as nat;
    lemma_frames_near_rest(duck, delta_secs, n);
    let last = after_frames(duck, delta_secs, n);
    every_tick_nears_rest(last, delta_secs);
    lemma_place_of_unit(last.gain);
}

/// A gain between zero and one that is no less than one is one.
proof fn lemma_place_of_unit(gain: Single)
    requires
        in_unit(gain),
        Single::one().is_at_most(gain),
    ensures
        gain == Single::one(),
{
    lemma_one();
}

/// What frames leave of the way to rest: none, or one place less for each.
proof fn lemma_frames_near_rest(duck: DuckingEnvelope, delta_secs: Single, n: nat)
    requires
        in_unit(duck.gain),
        !duck.hold_remaining.is_nan(),
        Single::zero().is_less(delta_secs),
    ensures
        in_unit(after_frames(duck, delta_secs, n).gain),
        !after_frames(duck, delta_secs, n).hold_remaining.is_nan(),
        after_frames(duck, delta_secs, n).is_idle() || distance_to_rest(
            after_frames(duck, delta_secs, n),
        ) + n <= distance_to_rest(duck),
    decreases n,
{
    if n > 0 {
        let m: nat = (n - 1) as nat;
        lemma_frames_near_rest(duck, delta_secs, m);
        let before = after_frames(duck, delta_secs, m);
        every_tick_nears_rest(before, delta_secs);
        the_gain_stays_in_range(before, delta_secs);
    }
}

/// The envelope after frames of the given lengths in turn.
pub open spec fn after_all(duck: DuckingEnvelope, deltas: Seq<Single>) -> DuckingEnvelope
    decreases deltas.len(),
{
    if deltas.len() == 0 {
        duck
    } else {
        let before = after_all(duck, deltas.drop_last());
        if before.is_idle() {
            before
        } else {
            before.ticked(deltas.last())
        }
    }
}

/// The frames need not be of one length: an envelope is idle, at a gain of one,
/// after as many frames that take time as it was places from rest.
pub proof fn frames_of_any_lengths_bring_rest(duck: DuckingEnvelope, deltas: Seq<Single>)
    requires
        in_unit(duck.gain),
        !duck.hold_remaining.is_nan(),
        forall|k: int| 0 <= k < deltas.len() ==> Single::zero().is_less(#[trigger] deltas[k]),
        deltas.len() >= distance_to_rest(duck),
    ensures
        after_all(duck, deltas).is_idle(),
        after_all(duck, deltas).gain == Single::one(),
{
    lemma_one();
    lemma_all_near_rest(duck, deltas);
    let last = after_all(duck, deltas);
    every_tick_nears_rest(last, Single::one());
    lemma_place_of_unit(last.gain);
}

/// What frames of any lengths leave of the way to rest: none, or one place less for
/// each.
proof fn lemma_all_near_rest(duck: DuckingEnvelope, deltas: Seq<Single>)
    requires
        in_unit(duck.gain),
        !duck.hold_remaining.is_nan(),
        forall|k: int| 0 <= k < deltas.len() ==> Single::zero().is_less(#[trigger] deltas[k]),
    ensures
        in_unit(after_all(duck, deltas).gain),
        !after_all(duck, deltas).hold_remaining.is_nan(),
        after_all(duck, deltas).is_idle() || distance_to_rest(after_all(duck, deltas))
            + deltas.len() <= distance_to_rest(duck),
    decreases deltas.len(),
{
    if deltas.len() > 0 {
        let earlier = deltas.drop_last();
        assert(forall|k: int| 0 <= k < earlier.len() ==> #[trigger] earlier[k] == deltas[k]);
        lemma_all_near_rest(duck, earlier);
        let before = after_all(duck, earlier);
        let delta = deltas[deltas.len() - 1];
        every_tick_nears_rest(before, delta);
        the_gain_stays_in_range(before, delta);
    }
}

/// A time as it is read: one between the floor and the largest finite number stands,
/// one below the floor, or no number at all, is the floor, and an infinite one is
/// finite.
pub proof fn times_are_read_as_they_are_written(secs: Single)
    ensures
        ({
            let floor = Single { bits: 0x38d1_b717 };
            &&& secs.is_finite() && floor.is_at_most(secs) ==> secs_as_read(secs) == secs
            &&& secs.is_nan() || secs.is_less(floor) ==> secs_as_read(secs) == floor
            &&& secs.is_infinite() ==> secs_as_read(secs).is_finite()
        }),
{
}

/// A trigger sets the hold to its time as read, and nothing else.
pub proof fn a_trigger_sets_the_hold(duck: DuckingEnvelope)
    ensures
        duck.triggered() == (DuckingEnvelope {
            hold_remaining: duck.triggered().hold_remaining,
            ..duck
        }),
        duck.hold_secs.is_finite() && (Single { bits: MIN_SHAPE_SECS }).is_at_most(duck.hold_secs)
            ==> duck.triggered().hold_remaining == duck.hold_secs,
{
}

/// The attack comes first: while a hold is set and the gain lies above the depth, a
/// tick lowers the gain, by the way from one down to the depth over the time of the
/// attack, times the time that passed, and stops at the depth. The hold waits.
pub proof fn the_attack_goes_down_at_its_rate(duck: DuckingEnvelope, delta_secs: Single)
    requires
        Single::zero().is_less(duck.hold_remaining),
        in_unit(duck.ducked_gain),
        duck.ducked_gain.is_less(duck.gain),
        duck.attack_secs.is_finite(),
        (Single { bits: MIN_SHAPE_SECS }).is_at_most(duck.attack_secs),
    ensures
        ({
            let rate = quotient(difference(Single::one(), duck.ducked_gain), duck.attack_secs);
            let down = difference(duck.gain, product(rate, delta_secs));
            let r = duck.ticked(delta_secs);
            &&& r == (DuckingEnvelope { gain: r.gain, ..duck })
            &&& duck.ducked_gain.is_at_most(down) && down.is_less(duck.gain) ==> r.gain.equals(down)
            &&& down.is_less(duck.ducked_gain) ==> r.gain == duck.ducked_gain
        }),
{
    lemma_one();
}

/// Then the hold runs down with the time that passed, and the gain stays.
pub proof fn the_hold_runs_down_with_time(duck: DuckingEnvelope, delta_secs: Single)
    requires
        Single::zero().is_less(duck.hold_remaining),
        in_unit(duck.ducked_gain),
        duck.gain.is_at_most(duck.ducked_gain),
    ensures
        ({
            let left = difference(duck.hold_remaining, delta_secs);
            let r = duck.ticked(delta_secs);
            &&& r == (DuckingEnvelope { hold_remaining: r.hold_remaining, ..duck })
            &&& left.is_less(duck.hold_remaining) ==> r.hold_remaining == left
        }),
{
}

/// Then the release raises the gain, by the way from the depth up to one over the
/// time of the release, times the time that passed, and stops at one.
pub proof fn the_release_goes_up_at_its_rate(duck: DuckingEnvelope, delta_secs: Single)
    requires
        duck.hold_remaining.is_at_most(Single::zero()),
        in_unit(duck.ducked_gain),
        in_unit(duck.gain),
        duck.release_secs.is_finite(),
        (Single { bits: MIN_SHAPE_SECS }).is_at_most(duck.release_secs),
    ensures
        ({
            let rate = quotient(difference(Single::one(), duck.ducked_gain), duck.release_secs);
            let up = sum(duck.gain, product(rate, delta_secs));
            let r = duck.ticked(delta_secs);
            &&& r == (DuckingEnvelope { gain: r.gain, ..duck })
            &&& duck.gain.is_less(up) && up.is_at_most(Single::one()) ==> r.gain == up
            &&& Single::one().is_less(up) ==> r.gain == Single::one()
        }),
{
    lemma_one();
}

/// The depth is the ducked gain, moved into the range from silence to full.
pub proof fn the_depth_is_the_ducked_gain(duck: DuckingEnvelope)
    ensures
        in_unit(duck.ducked_gain) ==> duck.depth() == duck.ducked_gain,
        duck.ducked_gain.is_less(Single::zero()) ==> duck.depth() == Single::zero(),
        Single::one().is_less(duck.ducked_gain) ==> duck.depth() == Single::one(),
{
}

/// The duck touches the sounds that step back for it, by its gain, and no other; it
/// is idle exactly when it holds nothing and would leave those alone too.
pub proof fn the_duck_touches_only_what_ducks(duck: DuckingEnvelope)
    ensures
        duck.gain_for(true) == duck.gain,
        duck.gain_for(false) == Single::one(),
        duck.is_idle() <==> duck.hold_remaining.is_at_most(Single::zero())
            && Single::one().is_at_most(duck.gain),
        duck.is_idle() && in_unit(duck.gain) ==> duck.gain_for(true) == duck.gain_for(false),
{
    lemma_one();
}

/// The number below a gain lies one place down, and no lower than a depth below it.
proof fn lemma_one_place_down(gain: Single, depth: Single, raw: Single)
    requires
        in_unit(gain),
        in_unit(depth),
        depth.is_less(gain),
        gain.is_at_most(raw),
    ensures
        !raw.max(depth).is_less(gain),
        raw.max(depth).equals(raw),
        gain.next_below().max(depth).place() == gain.place() - 1,
{
    lemma_one();
}

/// The number below a hold lies one place down.
proof fn lemma_hold_one_place_down(hold: Single)
    requires
        Single::zero().is_less(hold),
    ensures
        hold.next_below().place() == hold.place() - 1,
{
}

/// The number above a gain lies one place up, and no higher than one.
proof fn lemma_one_place_up(gain: Single, raw: Single)
    requires
        in_unit(gain),
        gain.is_less(Single::one()),
        raw.is_at_most(gain),
    ensures
        !gain.is_less(raw.min(Single::one())),
        raw.min(Single::one()).equals(raw),
        gain.next_above().min(Single::one()).place() == gain.place() + 1,
{
    lemma_one();
}

/// A step that is lost in rounding still moves the envelope, to the next number on
/// its way and no further: down in the attack and the hold, up in the release.
pub proof fn lost_steps_move_one_place(duck: DuckingEnvelope, delta_secs: Single)
    requires
        in_unit(duck.gain),
        Single::zero().is_less(delta_secs),
    ensures
        ({
            let r = duck.ticked(delta_secs);
            let holds = Single::zero().is_less(duck.hold_remaining);
            let above = duck.depth().is_less(duck.gain);
            let down = difference(duck.gain, duck.step(duck.attack_secs, delta_secs));
            let left = difference(duck.hold_remaining, delta_secs);
            let up = sum(duck.gain, duck.step(duck.release_secs, delta_secs));
            &&& holds && above && duck.gain.is_at_most(down) && !duck.depth().is_nan()
                ==> r.gain.place() == duck.gain.place() - 1
            &&& holds && !above && duck.hold_remaining.is_at_most(left)
                ==> r.hold_remaining.place() == duck.hold_remaining.place() - 1
            &&& !holds && up.is_at_most(duck.gain) && duck.gain.is_less(Single::one())
                ==> r.gain.place() == duck.gain.place() + 1
        }),
{
    lemma_one();
    let gain = duck.gain;
    let depth = duck.depth();
    if duck.attacking() {
        let down = difference(gain, duck.step(duck.attack_secs, delta_secs));
        if gain.is_at_most(down) && !depth.is_nan() {
            lemma_one_place_down(gain, depth, down);
        }
    } else if duck.holding() {
        lemma_hold_one_place_down(duck.hold_remaining);
    } else {
        let up = sum(gain, duck.step(duck.release_secs, delta_secs));
        if up.is_at_most(gain) && gain.is_less(Single::one()) {
            lemma_one_place_up(gain, up);
        }
    }
}

/// A frame of no length is not rounded on: what it leaves is what the arithmetic says.
pub proof fn only_time_moves_what_rounding_keeps(duck: DuckingEnvelope, delta_secs: Single)
    requires
        in_unit(duck.gain),
        !Single::zero().is_less(delta_secs),
    ensures
        ({
            let r = duck.ticked(delta_secs);
            let holds = Single::zero().is_less(duck.hold_remaining);
            let above = duck.depth().is_less(duck.gain);
            let down = difference(duck.gain, duck.step(duck.attack_secs, delta_secs));
            let left = difference(duck.hold_remaining, delta_secs);
            let up = sum(duck.gain, duck.step(duck.release_secs, delta_secs));
            &&& holds && above && !duck.depth().is_nan() && duck.gain.is_at_most(down)
                ==> r.gain.equals(down)
            &&& holds && !above ==> r.hold_remaining == left
            &&& !holds && up.is_at_most(duck.gain) && duck.gain.is_less(Single::one())
                ==> r.gain.equals(up)
        }),
{
    lemma_one();
    let gain = duck.gain;
    let depth = duck.depth();
    if duck.attacking() {
        let down = difference(gain, duck.step(duck.attack_secs, delta_secs));
        if gain.is_at_most(down) && !depth.is_nan() {
            lemma_one_place_down(gain, depth, down);
        }
    } else if !duck.holding() {
        let up = sum(gain, duck.step(duck.release_secs, delta_secs));
        if up.is_at_most(gain) && gain.is_less(Single::one()) {
            lemma_one_place_up(gain, up);
        }
    }
}

} // verus!
