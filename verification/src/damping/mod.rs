//! Sound damping fields: volumes of the world that muffle the sound crossing
//! them.
//!
//! A [`SoundDampingField`] attenuates a sound on three axes: its volume, the
//! cutoff of its low-pass filter and its playback speed. All three taper from
//! full strength at the centre of the field to nothing at its edge. A field
//! reads the position of the source, of the listener or of both, and combines
//! the two by their maximum: it damps a sound once, whichever ends it covers.
//! Membership is measured in the XY plane.
//!
//! Raising to a power is left to the host, which hands it in as `power`.

pub mod influence;
pub mod laws;
pub mod writes;

use crate::baseline::{base_or_unity, BaseVolume};
use crate::ducking::DuckingEnvelope;
use crate::geometry::Vec2;
use crate::single::arith::{difference, product, quotient, sum};
use crate::single::Single;
use crate::sound::{Effects, Settings, Sound, Volume};
use crate::traits::{has_volume, says_dampable, AudioCategory};
use vstd::prelude::*;

verus! {

/// The bits of the low-pass cutoff at which the filter is effectively
/// transparent, twenty thousand hertz.
pub const OPEN_CUTOFF_HZ: u32 = 0x469c_4000;

/// The bits of the slowest speed a field applies, one hundredth.
pub const MIN_FIELD_SPEED: u32 = 0x3c23_d70a;

/// The bits of the fastest speed a field applies, one hundred.
pub const MAX_FIELD_SPEED: u32 = 0x42c8_0000;

/// The bits of two.
pub const TWO_BITS: u32 = 0x4000_0000;

/// The bits of three.
pub const THREE_BITS: u32 = 0x4040_0000;

/// Which end of the sound's path a field reads.
#[derive(Clone, Copy, Debug, PartialEq, Eq, Structural, Default)]
pub enum DampingTargets {
    /// Only sources inside the field are damped.
    Sources,
    /// Only a listener inside the field is damped, for every sound it hears.
    Listeners,
    /// Both ends count, combined with a maximum.
    #[default]
    Both,
}

impl DampingTargets {
    pub open spec fn spec_reads_sources(self) -> bool {
        self is Sources || self is Both
    }

    pub open spec fn spec_reads_listeners(self) -> bool {
        self is Listeners || self is Both
    }

    /// Whether a source's own position places it in the field.
    #[verifier::when_used_as_spec(spec_reads_sources)]
    pub fn reads_sources(self) -> (r: bool)
        ensures
            r == self.reads_sources(),
    {
        matches!(self, DampingTargets::Sources | DampingTargets::Both)
    }

    /// Whether the listener's position places every sound it hears in the field.
    #[verifier::when_used_as_spec(spec_reads_listeners)]
    pub fn reads_listeners(self) -> (r: bool)
        ensures
            r == self.reads_listeners(),
    {
        matches!(self, DampingTargets::Listeners | DampingTargets::Both)
    }
}

/// A volume of the world that muffles the sound crossing it.
///
/// The three sound knobs describe a sound at the centre; at `radius` and beyond
/// nothing is changed.
#[derive(Clone, Copy, Debug, PartialEq)]
pub struct SoundDampingField {
    /// Radius of influence. Not positive disables the field.
    pub radius: Single,
    /// Linear volume multiplier at the centre.
    pub volume: Single,
    /// Low-pass cutoff in hertz at the centre.
    pub cutoff_hz: Single,
    /// Playback-speed multiplier at the centre.
    pub speed: Single,
    /// Whose position the field measures.
    pub targets: DampingTargets,
}

impl Default for SoundDampingField {
    fn default() -> (r: SoundDampingField)
        ensures
            r == (SoundDampingField {
                radius: Single::zero(),
                volume: Single::one(),
                cutoff_hz: Single { bits: OPEN_CUTOFF_HZ },
                speed: Single::one(),
                targets: DampingTargets::Both,
            }),
    {
        SoundDampingField {
            radius: Single::zero(),
            volume: Single::one(),
            cutoff_hz: Single { bits: OPEN_CUTOFF_HZ },
            speed: Single::one(),
            targets: DampingTargets::Both,
        }
    }
}

/// The smooth step from zero to one: `t * t * (3 - 2 * t)`.
pub open spec fn smooth(t: Single) -> Single {
    product(
        product(t, t),
        difference(Single { bits: THREE_BITS }, product(Single { bits: TWO_BITS }, t)),
    )
}

impl SoundDampingField {
    /// Whether the field acts on anything.
    pub open spec fn acts(self) -> bool {
        Single::zero().is_less(self.radius)
    }

    /// How far out a point `distance` from the centre is: zero at the centre,
    /// one at the radius and beyond.
    pub open spec fn depth_lost(self, distance: Single) -> Single {
        quotient(distance, self.radius).clamp(Single::zero(), Single::one())
    }

    pub open spec fn spec_influence(&self, distance: Single) -> Single {
        if self.radius.is_at_most(Single::zero()) {
            Single::zero()
        } else {
            difference(Single::one(), smooth(self.depth_lost(distance)))
        }
    }

    /// How deep inside the field a point `distance` from the centre is: one at
    /// the centre, zero at `radius` and beyond, a smooth step in between.
    #[verifier::when_used_as_spec(spec_influence)]
    pub fn influence(&self, distance: Single) -> (r: Single)
        ensures
            r == self.influence(distance),
    {
        if self.radius.is_at_most(Single::zero()) {
            return Single::zero();
        }
        let t = distance.over(self.radius).clamp(Single::zero(), Single::one());
        let two = Single { bits: TWO_BITS };
        let three = Single { bits: THREE_BITS };
        Single::one().minus(t.times(t).times(three.minus(two.times(t))))
    }

    /// What is raised to the influence for the cutoff: the ratio of the cutoff,
    /// kept inside the audible range, to the open one.
    pub open spec fn cutoff_ratio(self) -> Single {
        quotient(
            self.cutoff_hz.clamp(Single::one(), Single { bits: OPEN_CUTOFF_HZ }),
            Single { bits: OPEN_CUTOFF_HZ },
        )
    }

    /// What is raised to the influence for the speed: the speed, kept positive.
    pub open spec fn speed_ratio(self) -> Single {
        self.speed.clamp(Single { bits: MIN_FIELD_SPEED }, Single { bits: MAX_FIELD_SPEED })
    }
}

/// A field paired with how deeply the listener sits in it.
#[derive(Clone, Copy, Debug)]
pub struct ActiveField<'a> {
    /// Centre of the field.
    pub centre: Vec2,
    /// The field itself.
    pub field: &'a SoundDampingField,
    /// How deeply the listener sits in this field, zero when the field does not
    /// read listeners.
    pub listener_influence: Single,
}

impl<'a> ActiveField<'a> {
    pub open spec fn spec_new(
        centre: Vec2,
        field: &'a SoundDampingField,
        listener: Option<Vec2>,
    ) -> ActiveField<'a> {
        ActiveField {
            centre,
            field,
            listener_influence: match listener {
                Some(listener) => if field.targets.reads_listeners() {
                    field.influence(centre.distance(listener))
                } else {
                    Single::zero()
                },
                None => Single::zero(),
            },
        }
    }

    /// How deep a source at `position` is in the field, zero when the field
    /// does not read sources.
    pub open spec fn source_influence(&self, position: Vec2) -> Single {
        if self.field.targets.reads_sources() {
            self.field.influence(self.centre.distance(position))
        } else {
            Single::zero()
        }
    }

    pub open spec fn spec_influence_on(&self, position: Vec2) -> Single {
        self.source_influence(position).max(self.listener_influence)
    }

    /// Pairs a field with a listener.
    #[verifier::when_used_as_spec(spec_new)]
    pub fn new(centre: Vec2, field: &'a SoundDampingField, listener: Option<Vec2>) -> (r:
        ActiveField<'a>)
        ensures
            r == ActiveField::new(centre, field, listener),
    {
        let listener_influence: Single = match listener {
            Some(listener) => {
                if field.targets.reads_listeners() {
                    field.influence(centre.distance(listener))
                } else {
                    Single::zero()
                }
            },
            None => Single::zero(),
        };
        ActiveField { centre, field, listener_influence }
    }

    /// How strongly this field acts on a source at `position`: the maximum of
    /// the two ends' depths.
    #[verifier::when_used_as_spec(spec_influence_on)]
    pub fn influence_on(&self, position: Vec2) -> (r: Single)
        ensures
            r == self.influence_on(position),
    {
        let source: Single = if self.field.targets.reads_sources() {
            self.field.influence(self.centre.distance(position))
        } else {
            Single::zero()
        };
        source.max(self.listener_influence)
    }
}

/// The combined effect of every field acting on one point in the world.
#[derive(Clone, Copy, Debug, PartialEq)]
pub struct SoundDamping {
    /// Linear volume multiplier.
    pub volume: Single,
    /// Low-pass cutoff in hertz.
    pub cutoff_hz: Single,
    /// Playback-speed multiplier.
    pub speed: Single,
}

/// The volume that a field leaves of a sound at `influence`: between one and
/// the field's own.
pub open spec fn field_volume(field: SoundDampingField, influence: Single) -> Single {
    let authored = field.volume.clamp(Single::zero(), Single::one());
    sum(Single::one(), product(difference(authored, Single::one()), influence))
}

/// How far a speed is from unbent.
pub open spec fn bend(speed: Single) -> Single {
    difference(speed, Single::one()).abs()
}

impl SoundDamping {
    pub open spec fn spec_none() -> SoundDamping {
        SoundDamping {
            volume: Single::one(),
            cutoff_hz: Single { bits: OPEN_CUTOFF_HZ },
            speed: Single::one(),
        }
    }

    /// The damping with one field's contribution folded in, where the field's
    /// cutoff ratio and speed ratio, raised to the influence, are
    /// `cutoff_power` and `speed_power`.
    pub open spec fn accumulated(
        self,
        field: SoundDampingField,
        influence: Single,
        cutoff_power: Single,
        speed_power: Single,
    ) -> SoundDamping {
        if influence.is_at_most(Single::zero()) {
            self
        } else {
            SoundDamping {
                volume: self.volume.min(field_volume(field, influence)),
                cutoff_hz: self.cutoff_hz.min(
                    product(Single { bits: OPEN_CUTOFF_HZ }, cutoff_power),
                ),
                speed: if bend(self.speed).is_less(bend(speed_power)) {
                    speed_power
                } else {
                    self.speed
                },
            }
        }
    }

    pub open spec fn spec_is_none(&self) -> bool {
        self.volume.equals(Single::one()) && self.cutoff_hz.equals(Single { bits: OPEN_CUTOFF_HZ })
            && self.speed.equals(Single::one())
    }

    /// Leaves a sound exactly as it was.
    #[verifier::when_used_as_spec(spec_none)]
    pub fn none() -> (r: SoundDamping)
        ensures
            r == SoundDamping::none(),
    {
        SoundDamping {
            volume: Single::one(),
            cutoff_hz: Single { bits: OPEN_CUTOFF_HZ },
            speed: Single::one(),
        }
    }

    /// Whether this damping leaves a sound untouched.
    #[verifier::when_used_as_spec(spec_is_none)]
    pub fn is_none(&self) -> (r: bool)
        ensures
            r == self.is_none(),
    {
        self.volume.equals(Single::one()) && self.cutoff_hz.equals(Single { bits: OPEN_CUTOFF_HZ })
            && self.speed.equals(Single::one())
    }

    /// Folds one field's contribution in, the strongest winning on each axis:
    /// the quietest volume, the lowest cutoff and the speed furthest from
    /// unbent.
    ///
    /// Cutoff and speed are heard in octaves, so they interpolate
    /// geometrically: `cutoff_power` and `speed_power` are the field's ratios
    /// raised to the influence.
    pub fn accumulate(
        &mut self,
        field: &SoundDampingField,
        influence: Single,
        cutoff_power: Single,
        speed_power: Single,
    )
        ensures
            *final(self) == old(self).accumulated(*field, influence, cutoff_power, speed_power),
    {
        if influence.is_at_most(Single::zero()) {
            return;
        }
        let one = Single::one();
        let authored = field.volume.clamp(Single::zero(), one);
        let volume = one.plus(authored.minus(one).times(influence));
        self.volume = self.volume.min(volume);
        let open = Single { bits: OPEN_CUTOFF_HZ };
        self.cutoff_hz = self.cutoff_hz.min(open.times(cutoff_power));
        if self.speed.minus(one).abs().is_less(speed_power.minus(one).abs()) {
            self.speed = speed_power;
        }
    }

    /// Folds one field in, with `power` to raise its ratios to the influence.
    fn accumulate_with<P: Fn(Single, Single) -> Single>(
        &mut self,
        field: &SoundDampingField,
        influence: Single,
        power: &P,
    ) -> (powers: Ghost<(Single, Single)>)
        requires
            forall|base: Single, exponent: Single| #[trigger]
                call_requires(*power, (base, exponent)),
        ensures
            *final(self) == old(self).accumulated(*field, influence, powers@.0, powers@.1),
            !influence.is_at_most(Single::zero()) ==> raises(*power, *field, influence, powers@),
    {
        if influence.is_at_most(Single::zero()) {
            return Ghost((influence, influence));
        }
        let open = Single { bits: OPEN_CUTOFF_HZ };
        let cutoff_ratio = field.cutoff_hz.clamp(Single::one(), open).over(open);
        let speed_ratio = field.speed.clamp(
            Single { bits: MIN_FIELD_SPEED },
            Single { bits: MAX_FIELD_SPEED },
        );
        let cutoff_power = power(cutoff_ratio, influence);
        let speed_power = power(speed_ratio, influence);
        self.accumulate(field, influence, cutoff_power, speed_power);
        Ghost((cutoff_power, speed_power))
    }

    /// Resolves every field acting on a source at `position` into a single
    /// damping.
    ///
    /// Overlapping fields do not stack: on each axis the strongest one wins.
    pub fn resolve<P: Fn(Single, Single) -> Single>(
        fields: &[ActiveField],
        position: Vec2,
        power: &P,
    ) -> (r: SoundDamping)
        requires
            forall|base: Single, exponent: Single| #[trigger]
                call_requires(*power, (base, exponent)),
        ensures
            is_resolved(*power, fields@, influences_at(fields@, Some(position)), r),
    {
        resolve_at(fields, Some(position), power)
    }

    /// Resolves every field for a sound that has no position of its own: only
    /// the listener's own membership can damp it.
    pub fn resolve_positionless<P: Fn(Single, Single) -> Single>(
        fields: &[ActiveField],
        power: &P,
    ) -> (r: SoundDamping)
        requires
            forall|base: Single, exponent: Single| #[trigger]
                call_requires(*power, (base, exponent)),
        ensures
            is_resolved(*power, fields@, influences_at(fields@, None), r),
    {
        resolve_at(fields, None, power)
    }
}

impl Default for SoundDamping {
    fn default() -> (r: SoundDamping)
        ensures
            r == SoundDamping::none(),
    {
        SoundDamping::none()
    }
}

/// Whether `powers` are what `power` makes of a field's cutoff ratio and speed
/// ratio at `influence`.
pub open spec fn raises<P: Fn(Single, Single) -> Single>(
    power: P,
    field: SoundDampingField,
    influence: Single,
    powers: (Single, Single),
) -> bool {
    call_ensures(power, (field.cutoff_ratio(), influence), powers.0) && call_ensures(
        power,
        (field.speed_ratio(), influence),
        powers.1,
    )
}

/// How strongly each field acts on a sound, at a position or at none.
pub open spec fn influences_at(fields: Seq<ActiveField>, position: Option<Vec2>) -> Seq<Single> {
    Seq::new(
        fields.len(),
        |i: int|
            match position {
                Some(position) => fields[i].influence_on(position),
                None => fields[i].listener_influence,
            },
    )
}

/// Every field folded into a damping in turn.
pub open spec fn resolved(
    fields: Seq<ActiveField>,
    influences: Seq<Single>,
    powers: Seq<(Single, Single)>,
) -> SoundDamping
    decreases fields.len(),
{
    if fields.len() == 0 {
        SoundDamping::none()
    } else {
        resolved(fields.drop_last(), influences.drop_last(), powers.drop_last()).accumulated(
            *fields.last().field,
            influences.last(),
            powers.last().0,
            powers.last().1,
        )
    }
}

/// Whether `powers` are what `power` makes of each field's ratios at its
/// influence.
pub open spec fn raises_all<P: Fn(Single, Single) -> Single>(
    power: P,
    fields: Seq<ActiveField>,
    influences: Seq<Single>,
    powers: Seq<(Single, Single)>,
) -> bool {
    powers.len() == fields.len() && forall|i: int|
        0 <= i < fields.len() && !(#[trigger] influences[i]).is_at_most(Single::zero()) ==> raises(
            power,
            *fields[i].field,
            influences[i],
            powers[i],
        )
}

/// Whether `r` is what the fields make of a sound at the given influences.
pub open spec fn is_resolved<P: Fn(Single, Single) -> Single>(
    power: P,
    fields: Seq<ActiveField>,
    influences: Seq<Single>,
    r: SoundDamping,
) -> bool {
    exists|powers: Seq<(Single, Single)>| #[trigger]
        raises_all(power, fields, influences, powers) && r == resolved(fields, influences, powers)
}

fn resolve_at<P: Fn(Single, Single) -> Single>(
    fields: &[ActiveField],
    position: Option<Vec2>,
    power: &P,
) -> (r: SoundDamping)
    requires
        forall|base: Single, exponent: Single| #[trigger] call_requires(*power, (base, exponent)),
    ensures
        is_resolved(*power, fields@, influences_at(fields@, position), r),
{
    let mut r = SoundDamping::none();
    let ghost all = influences_at(fields@, position);
    let ghost mut powers: Seq<(Single, Single)> = Seq::empty();
    let mut i: usize = 0;
    assert(fields@.take(0) =~= Seq::empty());
    while i < fields.len()
        invariant
            forall|base: Single, exponent: Single| #[trigger]
                call_requires(*power, (base, exponent)),
            i <= fields@.len(),
            all == influences_at(fields@, position),
            powers.len() == i,
            forall|j: int|
                0 <= j < i && !(#[trigger] all[j]).is_at_most(Single::zero()) ==> raises(
                    *power,
                    *fields@[j].field,
                    all[j],
                    powers[j],
                ),
            r == resolved(fields@.take(i as int), all.take(i as int), powers),
        decreases fields@.len() - i,
    {
        let influence: Single = match position {
            Some(position) => fields[i].influence_on(position),
            None => fields[i].listener_influence,
        };
        assert(influence == all[i as int]);
        let ghost before = powers;
        let found: Ghost<(Single, Single)> = r.accumulate_with(fields[i].field, influence, power);
        proof {
            powers = before.push(found@);
            assert(powers.drop_last() =~= before);
            assert(fields@.take(i + 1).drop_last() =~= fields@.take(i as int));
            assert(all.take(i + 1).drop_last() =~= all.take(i as int));
        }
        i = i + 1;
    }
    assert(fields@.take(i as int) =~= fields@);
    assert(all.take(i as int) =~= all);
    assert(raises_all(*power, fields@, all, powers));
    r
}

/// Whether listener `i` is the one nearest to `centre`: none is nearer, in the
/// total order of their distances, and none before it is as near.
pub open spec fn is_nearest_to(listeners: Seq<Vec2>, centre: Vec2, i: int) -> bool {
    0 <= i < listeners.len() && forall|j: int|
        0 <= j < listeners.len() ==> {
            let here = centre.distance_squared(listeners[i]).total_place();
            let there = centre.distance_squared(#[trigger] listeners[j]).total_place();
            here <= there && (j < i ==> here < there)
        }
}

/// The listener nearest to `centre`, the first of those equally near; none where
/// there is no listener.
pub open spec fn nearest_of(listeners: Seq<Vec2>, centre: Vec2) -> Option<Vec2> {
    if listeners.len() == 0 {
        None
    } else {
        Some(listeners[choose|i: int| is_nearest_to(listeners, centre, i)])
    }
}

/// The listener whose ears a field centred at `centre` covers: the nearest
/// one. Without a listener there is none to be inside anything.
pub fn nearest_listener(listeners: &[Vec2], centre: Vec2) -> (r: Option<Vec2>)
    ensures
        r is None <==> listeners@.len() == 0,
        r matches Some(listener) ==> exists|i: int| #[trigger]
            is_nearest_to(listeners@, centre, i) && listener == listeners@[i],
        r == nearest_of(listeners@, centre),
{
    if listeners.len() == 0 {
        return None;
    }
    let mut best: usize = 0;
    let mut least: i64 = centre.distance_squared(listeners[0]).total_place();
    let mut i: usize = 1;
    while i < listeners.len()
        invariant
            best < i <= listeners@.len(),
            least == centre.distance_squared(listeners@[best as int]).total_place(),
            forall|j: int|
                0 <= j < i ==> {
                    let there = centre.distance_squared(#[trigger] listeners@[j]).total_place();
                    least <= there && (j < best ==> least < there)
                },
        decreases listeners@.len() - i,
    {
        let place: i64 = centre.distance_squared(listeners[i]).total_place();
        if place < least {
            best = i;
            least = place;
        }
        i = i + 1;
    }
    assert(is_nearest_to(listeners@, centre, best as int));
    proof {
        let chosen = choose|k: int| is_nearest_to(listeners@, centre, k);
        lemma_one_is_nearest(listeners@, centre, chosen, best as int);
    }
    Some(listeners[best])
}

/// Where there is a listener, the nearest is one of them: none is nearer, and none
/// before it is as near.
pub proof fn the_nearest_listener_is_the_first_of_the_least(listeners: Seq<Vec2>, centre: Vec2)
    ensures
        nearest_of(listeners, centre) is None <==> listeners.len() == 0,
        nearest_of(listeners, centre) matches Some(listener) ==> exists|i: int| #[trigger]
            is_nearest_to(listeners, centre, i) && listener == listeners[i],
    decreases listeners.len(),
{
    if listeners.len() > 0 {
        let earlier = listeners.drop_last();
        let last: int = listeners.len() - 1;
        assert(forall|j: int| 0 <= j < last ==> #[trigger] listeners[j] == earlier[j]);
        the_nearest_listener_is_the_first_of_the_least(earlier, centre);
        if last > 0 {
            let i = choose|i: int| is_nearest_to(earlier, centre, i);
            let here = centre.distance_squared(listeners[i]).total_place();
            let there = centre.distance_squared(listeners[last]).total_place();
            if there < here {
                assert(is_nearest_to(listeners, centre, last));
            } else {
                assert(is_nearest_to(listeners, centre, i));
            }
        } else {
            assert(is_nearest_to(listeners, centre, 0));
        }
    }
}

/// No two listeners are the nearest.
proof fn lemma_one_is_nearest(listeners: Seq<Vec2>, centre: Vec2, i: int, k: int)
    requires
        is_nearest_to(listeners, centre, i),
        is_nearest_to(listeners, centre, k),
    ensures
        i == k,
{
    let here = centre.distance_squared(listeners[i]).total_place();
    let there = centre.distance_squared(listeners[k]).total_place();
    assert(here == there);
}

/// The fields that act, each paired with the listener nearest to it.
pub open spec fn active_fields<'a>(
    fields: Seq<(Vec2, SoundDampingField)>,
    listeners: Seq<Vec2>,
) -> Seq<ActiveField<'a>>
    decreases fields.len(),
{
    if fields.len() == 0 {
        Seq::empty()
    } else {
        let before = active_fields(fields.drop_last(), listeners);
        let (centre, field) = fields.last();
        if field.acts() {
            before.push(ActiveField::new(centre, &field, nearest_of(listeners, centre)))
        } else {
            before
        }
    }
}

/// Whether any field acts.
pub open spec fn any_acts(fields: Seq<(Vec2, SoundDampingField)>) -> bool {
    exists|i: int| 0 <= i < fields.len() && (#[trigger] fields[i]).1.acts()
}

/// Whether fields may touch a sound at all.
pub open spec fn open_to_damping<C>(s: Sound<C>) -> bool {
    !s.despawned && s.category is Some && s.effects is Some && s.player is Some && !s.undamped
}

/// Whether the damping writes the volume node of a sound.
pub open spec fn drives_volume<C>(s: Sound<C>) -> bool {
    !s.self_driven_volume && !s.fading() && (s.effects matches Some(effects)
        && effects.volume is Some)
}

/// The level of a sound's node: its category volume times its own times the
/// damping times the duck.
pub open spec fn node_volume(
    category_volume: Single,
    base: BaseVolume,
    damping: Single,
    duck: Single,
) -> Volume {
    Volume::Linear(product(product(base.resolve(category_volume), damping), duck))
}

/// A number, or another that is not the same.
pub open spec fn rewritten(held: Single, wanted: Single) -> Single {
    if held.equals(wanted) {
        held
    } else {
        wanted
    }
}

/// The sound under a damping, at a category volume and with the duck.
pub open spec fn damped<C>(
    s: Sound<C>,
    category_volume: Single,
    damping: SoundDamping,
    duck: DuckingEnvelope,
) -> Sound<C> {
    let wanted = node_volume(
        category_volume,
        base_or_unity(s.base_volume),
        damping.volume,
        duck.gain_for(s.ducks),
    );
    Sound {
        effects: match s.effects {
            Some(effects) => Some(
                Effects {
                    volume: match effects.volume {
                        Some(held) => Some(
                            if drives_volume(s) && !held.same(wanted) {
                                wanted
                            } else {
                                held
                            },
                        ),
                        None => None,
                    },
                    cutoff_hz: match effects.cutoff_hz {
                        Some(held) => Some(rewritten(held, damping.cutoff_hz)),
                        None => None,
                    },
                    ..effects
                },
            ),
            None => None,
        },
        settings: match s.settings {
            Some(settings) => Some(
                Settings {
                    speed: match s.base_pitch {
                        Some(base) => rewritten(settings.speed, product(base.0, damping.speed)),
                        None => settings.speed,
                    },
                    ..settings
                },
            ),
            None => None,
        },
        ..s
    }
}

/// Whether `after` is what the fields and the duck make of `before`.
pub open spec fn is_damped<C: AudioCategory, P: Fn(Single, Single) -> Single>(
    before: Sound<C>,
    config: C::Config,
    duck: DuckingEnvelope,
    fields: Seq<ActiveField>,
    power: P,
    after: Sound<C>,
) -> bool {
    if !open_to_damping(before) {
        after == before
    } else {
        exists|dampable: bool| #[trigger]
            says_dampable(before.category->0, dampable) && if dampable {
                exists|volume: Single, damping: SoundDamping|
                    {
                        &&& drives_volume(before) ==> has_volume(
                            before.category->0,
                            config,
                            volume,
                        )
                        &&& is_resolved(
                            power,
                            fields,
                            influences_at(fields, before.position),
                            damping,
                        )
                        &&& after == #[trigger] damped(before, volume, damping, duck)
                    }
            } else {
                after == before
            }
    }
}

fn damp_sound<C: AudioCategory, P: Fn(Single, Single) -> Single>(
    s: Sound<C>,
    config: &C::Config,
    duck: &DuckingEnvelope,
    fields: &[ActiveField],
    power: &P,
) -> (r: Sound<C>)
    requires
        forall|base: Single, exponent: Single| #[trigger] call_requires(*power, (base, exponent)),
    ensures
        is_damped(s, *config, *duck, fields@, *power, r),
{
    if s.despawned || s.player.is_none() || s.undamped {
        return s;
    }
    let category = match s.category {
        Some(category) => category,
        None => {
            return s;
        },
    };
    let effects = match s.effects {
        Some(effects) => effects,
        None => {
            return s;
        },
    };
    let dampable: bool = category.is_dampable();
    assert(says_dampable(category, dampable));
    if !dampable {
        return s;
    }
    let damping = resolve_at(fields, s.position, power);
    let fading: bool = s.fade_in.is_some() || s.fade_out.is_some();
    let mut category_volume = Single::one();
    let volume: Option<Volume> = match effects.volume {
        Some(held) => {
            if !s.self_driven_volume && !fading {
                category_volume = category.volume(config);
                let base = match s.base_volume {
                    Some(base) => base,
                    None => BaseVolume(Single::one()),
                };
                let wanted = Volume::Linear(
                    base.resolve(category_volume).times(damping.volume).times(
                        duck.gain_for(s.ducks),
                    ),
                );
                if held.same(wanted) {
                    Some(held)
                } else {
                    Some(wanted)
                }
            } else {
                Some(held)
            }
        },
        None => None,
    };
    let cutoff_hz: Option<Single> = match effects.cutoff_hz {
        Some(held) => {
            if held.equals(damping.cutoff_hz) {
                Some(held)
            } else {
                Some(damping.cutoff_hz)
            }
        },
        None => None,
    };
    let settings: Option<Settings> = match s.settings {
        Some(settings) => match s.base_pitch {
            Some(base) => {
                let speed = base.0.times(damping.speed);
                if settings.speed.equals(speed) {
                    Some(settings)
                } else {
                    Some(Settings { speed, ..settings })
                }
            },
            None => Some(settings),
        },
        None => None,
    };
    let r = Sound { effects: Some(Effects { volume, cutoff_hz, ..effects }), settings, ..s };
    assert(r == damped(s, category_volume, damping, *duck));
    r
}

/// Applies every field, and the current duck, to the sounds playing inside.
///
/// With no field acting and the duck idle the system does nothing, except for
/// the one frame after the last of them lets go: that pass writes every held
/// sound back to its undamped level.
///
/// Sounds in the middle of a fade leave only their volume to the fade: filter
/// and pitch stay driven. `was_active` carries over whether the last run was
/// active, and `power` raises its first argument to its second.
pub fn apply_sound_damping<C: AudioCategory, P: Fn(Single, Single) -> Single>(
    config: &C::Config,
    duck: &DuckingEnvelope,
    fields: &[(Vec2, SoundDampingField)],
    listeners: &[Vec2],
    sounds: &mut Vec<Sound<C>>,
    was_active: &mut bool,
    power: &P,
)
    requires
        forall|base: Single, exponent: Single| #[trigger] call_requires(*power, (base, exponent)),
    ensures
        *final(was_active) == (any_acts(fields@) || !duck.is_idle()),
        final(sounds)@.len() == old(sounds)@.len(),
        !any_acts(fields@) && duck.is_idle() && !*old(was_active) ==> final(sounds)@ == old(
            sounds,
        )@,
        any_acts(fields@) || !duck.is_idle() || *old(was_active) ==> forall|i: int|
            0 <= i < old(sounds)@.len() ==> is_damped(
                old(sounds)@[i],
                *config,
                *duck,
                active_fields(fields@, listeners@),
                *power,
                #[trigger] final(sounds)@[i],
            ),
{
    let mut active: Vec<ActiveField> = Vec::new();
    let mut acts: bool = false;
    let mut k: usize = 0;
    assert(fields@.take(0) =~= Seq::empty());
    while k < fields.len()
        invariant
            k <= fields@.len(),
            active@ == active_fields(fields@.take(k as int), listeners@),
            acts == any_acts(fields@.take(k as int)),
        decreases fields@.len() - k,
    {
        let ghost earlier = fields@.take(k as int);
        let ghost now = fields@.take(k + 1);
        let centre = fields[k].0;
        assert(now.drop_last() =~= earlier);
        proof {
            assert forall|j: int| 0 <= j < earlier.len() implies now[j] == #[trigger] earlier[j] by {}
            if any_acts(earlier) {
                let j: int = choose|j: int|
                    0 <= j < earlier.len() && (#[trigger] earlier[j]).1.acts();
                assert(now[j].1.acts());
            }
            assert(now[k as int].1.acts() ==> any_acts(now));
            if any_acts(now) && !now[k as int].1.acts() {
                let j: int = choose|j: int| 0 <= j < now.len() && (#[trigger] now[j]).1.acts();
                assert(earlier[j].1.acts());
            }
        }
        if Single::zero().is_less(fields[k].1.radius) {
            acts = true;
            active.push(ActiveField::new(centre, &fields[k].1, nearest_listener(listeners, centre)));
        }
        k = k + 1;
    }
    assert(fields@.take(k as int) =~= fields@);
    let engaged: bool = acts || !duck.is_idle();
    if !engaged && !*was_active {
        *was_active = false;
        return;
    }
    *was_active = engaged;
    let mut i: usize = 0;
    while i < sounds.len()
        invariant
            forall|base: Single, exponent: Single| #[trigger]
                call_requires(*power, (base, exponent)),
            active@ == active_fields(fields@, listeners@),
            i <= sounds@.len() == old(sounds)@.len(),
            forall|j: int|
                0 <= j < i ==> is_damped(
                    old(sounds)@[j],
                    *config,
                    *duck,
                    active_fields(fields@, listeners@),
                    *power,
                    #[trigger] sounds@[j],
                ),
            forall|j: int| i <= j < sounds@.len() ==> #[trigger] sounds@[j] == old(sounds)@[j],
        decreases sounds@.len() - i,
    {
        let s = damp_sound(sounds[i], config, duck, active.as_slice(), power);
        sounds.set(i, s);
        i = i + 1;
    }
}

} // verus!
