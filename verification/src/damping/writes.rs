//! What the fields and the duck write to a sound.

use crate::baseline::BaseVolume;
use crate::damping::{
    active_fields, any_acts, bend, damped, influences_at, is_damped, is_nearest_to, is_resolved,
    nearest_of, node_volume, raises, the_nearest_listener_is_the_first_of_the_least, ActiveField,
    DampingTargets, SoundDamping, SoundDampingField, OPEN_CUTOFF_HZ,
};
use crate::ducking::DuckingEnvelope;
use crate::geometry::Vec2;
use crate::single::arith::{difference, product, quotient, sum};
use crate::single::laws::{in_unit, lemma_negated, lemma_one, lemma_times_one};
use crate::single::model::{
    lemma_magnitude_increases, lemma_rounded, lemma_rounded_exact, magnitude,
};
use crate::single::{Single, ONE_BITS};
use crate::sound::{Effects, Sound, Volume};
use crate::traits::{has_volume, says_dampable, AudioCategory};
use vstd::arithmetic::power2::pow2;
use vstd::prelude::*;

verus! {

/// The level of a sound's own: one where it has none.
pub open spec fn own_level<C>(s: Sound<C>) -> Single {
    match s.base_volume {
        Some(base) => base.0,
        None => Single::one(),
    }
}

/// The level that the duck leaves of a sound: its gain where the sound ducks, all of
/// it where it does not.
pub open spec fn ducked_level<C>(s: Sound<C>, duck: DuckingEnvelope) -> Single {
    if s.ducks {
        duck.gain
    } else {
        Single::one()
    }
}

/// Every layer counts: the level written to a sound's node is its category's volume
/// times its own times what the fields leave times what the duck leaves. A node that
/// is at that level already is left as it is.
pub proof fn the_level_is_the_product_of_its_layers<C>(
    s: Sound<C>,
    category_volume: Single,
    damping: SoundDamping,
    duck: DuckingEnvelope,
    effects: Effects,
    held: Volume,
)
    requires
        s.effects == Some(effects),
        effects.volume == Some(held),
        !s.self_driven_volume,
        s.fade_in is None,
        s.fade_out is None,
    ensures
        ({
            let level = product(
                product(product(category_volume, own_level(s)), damping.volume),
                ducked_level(s, duck),
            );
            let node = (damped(s, category_volume, damping, duck).effects->0).volume;
            node == Some(Volume::Linear(level)) || (node == Some(held)
                && (held matches Volume::Linear(there) && there.equals(level)))
        }),
{
}

/// With two layers at full, the level is the product of the other two, whichever two
/// they are: no layer is lost in another, and no two are taken for one.
pub proof fn any_two_layers_multiply(a: Single, b: Single)
    requires
        !a.is_nan(),
        !b.is_nan(),
    ensures
        ({
            let one = Single::one();
            let both = Volume::Linear(product(a, b));
            &&& node_volume(a, BaseVolume(b), one, one) == both
            &&& node_volume(a, BaseVolume(one), b, one) == both
            &&& node_volume(a, BaseVolume(one), one, b) == both
            &&& node_volume(one, BaseVolume(a), b, one) == both
            &&& node_volume(one, BaseVolume(a), one, b) == both
            &&& node_volume(one, BaseVolume(one), a, b) == both
        }),
{
    lemma_times_one(a);
    lemma_times_one(b);
    lemma_times_one(Single::one());
    lemma_product_times_one(a, b);
}

/// A product times one is itself, a number or not.
proof fn lemma_product_times_one(a: Single, b: Single)
    ensures
        product(product(a, b), Single::one()) == product(a, b),
{
    lemma_one();
    lemma_rounded(magnitude(a.pattern()) * magnitude(b.pattern()), pow2(149));
    if !product(a, b).is_nan() {
        lemma_times_one(product(a, b));
    }
}

/// A deeper duck lowers the level in proportion, whatever the other layers are: the
/// level under a duck is the level without one times the duck's gain. So it is with
/// the fields, at any duck.
pub proof fn a_duck_scales_the_level(
    category_volume: Single,
    base: BaseVolume,
    damping: Single,
    duck: Single,
)
    ensures
        ({
            let undamped = node_volume(category_volume, base, Single::one(), Single::one());
            let unducked = node_volume(category_volume, base, damping, Single::one());
            let ducked = node_volume(category_volume, base, damping, duck);
            &&& unducked matches Volume::Linear(level) ==> ducked == Volume::Linear(
                product(level, duck),
            )
            &&& undamped matches Volume::Linear(level) ==> ducked == Volume::Linear(
                product(product(level, damping), duck),
            )
            &&& unducked is Linear && undamped is Linear
        }),
{
    lemma_product_times_one(category_volume, base.0);
    lemma_product_times_one(product(category_volume, base.0), damping);
}

/// The filter of a sound, if it has one, is put at the cutoff that the fields resolve
/// to; its speed, if it has one of its own, at that times the speed of the fields.
/// Nothing is written that is there already, a sound without a speed of its own keeps
/// the one it plays at, and nothing else of the sound changes.
pub proof fn the_fields_set_the_filter_and_the_speed<C>(
    s: Sound<C>,
    category_volume: Single,
    damping: SoundDamping,
    duck: DuckingEnvelope,
)
    ensures
        ({
            let r = damped(s, category_volume, damping, duck);
            &&& r == (Sound { effects: r.effects, settings: r.settings, ..s })
            &&& r.effects is Some == s.effects is Some
            &&& r.settings is Some == s.settings is Some
            &&& s.effects matches Some(before) ==> {
                let after = r.effects->0;
                &&& after.ready == before.ready
                &&& after.volume is Some == before.volume is Some
                &&& before.cutoff_hz is None ==> after.cutoff_hz is None
                &&& before.cutoff_hz matches Some(held) ==> after.cutoff_hz == Some(
                    damping.cutoff_hz,
                ) || (after.cutoff_hz == Some(held) && held.equals(damping.cutoff_hz))
            }
            &&& s.settings matches Some(before) ==> {
                let after = r.settings->0;
                &&& after.on_complete == before.on_complete
                &&& s.base_pitch is None ==> after.speed == before.speed
                &&& s.base_pitch matches Some(pitch) ==> {
                    let speed = product(pitch.0, damping.speed);
                    after.speed == speed || (after.speed == before.speed && before.speed.equals(
                        speed,
                    ))
                }
            }
        }),
{
}

/// Fields touch what plays, has a category that may be damped and an effects chain,
/// and is not exempt; everything else is left as it is.
pub proof fn fields_leave_the_rest_alone<C: AudioCategory, P: Fn(Single, Single) -> Single>(
    before: Sound<C>,
    config: C::Config,
    duck: DuckingEnvelope,
    fields: Seq<ActiveField>,
    power: P,
    after: Sound<C>,
)
    requires
        is_damped(before, config, duck, fields, power, after),
    ensures
        before.despawned || before.category is None || before.effects is None || before.player
            is None || before.undamped ==> after == before,
        before.category matches Some(category) ==> (call_ensures(
            C::is_dampable,
            (&category,),
            true,
        ) || after == before),
{
}

/// And what they touch is written what its fields resolve to where it is, at its
/// category's volume.
pub proof fn fields_touch_what_may_be_damped<C: AudioCategory, P: Fn(Single, Single) -> Single>(
    before: Sound<C>,
    config: C::Config,
    duck: DuckingEnvelope,
    fields: Seq<ActiveField>,
    power: P,
    after: Sound<C>,
    category: C,
)
    requires
        is_damped(before, config, duck, fields, power, after),
        before.category == Some(category),
        !before.despawned,
        before.effects is Some,
        before.player is Some,
        !before.undamped,
        !call_ensures(C::is_dampable, (&category,), false),
    ensures
        exists|volume: Single, damping: SoundDamping|
            {
                &&& is_resolved(power, fields, influences_at(fields, before.position), damping)
                &&& after == #[trigger] damped(before, volume, damping, duck)
                &&& (!before.self_driven_volume && before.fade_in is None && before.fade_out
                    is None && (before.effects->0).volume is Some) ==> call_ensures(
                    C::volume,
                    (&category, &config),
                    volume,
                )
            },
{
    let dampable = choose|dampable: bool| #[trigger]
        says_dampable(category, dampable) && if dampable {
            exists|volume: Single, damping: SoundDamping|
                {
                    &&& (!before.self_driven_volume && !before.fading() && (
                    before.effects matches Some(effects) && effects.volume is Some))
                        ==> has_volume(category, config, volume)
                    &&& is_resolved(power, fields, influences_at(fields, before.position), damping)
                    &&& after == #[trigger] damped(before, volume, damping, duck)
                }
        } else {
            after == before
        };
    assert(dampable);
}

/// What one field adds to a damping. One without influence adds nothing. One with it
/// lowers the volume to what it leaves at that influence, which runs straight from
/// all of it down to the field's own volume, lowers the cutoff to the open one times
/// the power of its ratio, and takes the speed over if it bends further.
pub proof fn what_one_field_adds(
    so_far: SoundDamping,
    field: SoundDampingField,
    influence: Single,
    cutoff_power: Single,
    speed_power: Single,
)
    requires
        in_unit(field.volume),
        !so_far.volume.is_nan(),
        !so_far.cutoff_hz.is_nan(),
    ensures
        ({
            let r = so_far.accumulated(field, influence, cutoff_power, speed_power);
            let left = sum(
                Single::one(),
                product(difference(field.volume, Single::one()), influence),
            );
            let cutoff = product(Single { bits: 0x469c_4000 }, cutoff_power);
            let held = difference(so_far.speed, Single::one()).abs();
            let bent = difference(speed_power, Single::one()).abs();
            &&& influence.is_at_most(Single::zero()) ==> r == so_far
            &&& !influence.is_at_most(Single::zero()) ==> {
                &&& left.is_less(so_far.volume) ==> r.volume == left
                &&& left.is_nan() || so_far.volume.is_less(left) ==> r.volume == so_far.volume
                &&& cutoff.is_less(so_far.cutoff_hz) ==> r.cutoff_hz == cutoff
                &&& cutoff.is_nan() || so_far.cutoff_hz.is_less(cutoff) ==> r.cutoff_hz
                    == so_far.cutoff_hz
                &&& held.is_less(bent) ==> r.speed == speed_power
                &&& !held.is_less(bent) ==> r.speed == so_far.speed
            }
        }),
{
}

/// Without damping a sound is at full volume, its filter open and its pitch unbent.
pub proof fn no_damping_leaves_everything()
    ensures
        SoundDamping::none().volume == Single::one(),
        SoundDamping::none().cutoff_hz == (Single { bits: 0x469c_4000 }),
        SoundDamping::none().speed == Single::one(),
        SoundDamping::none().is_none(),
{
    lemma_one();
}

/// What is raised to the influence: for the cutoff, its share of the open one, which
/// is all of it from there on up, and that of one hertz below; for the speed, the
/// speed itself, between a hundredth and a hundred.
pub proof fn ratios_are_shares_of_the_open_cutoff(field: SoundDampingField)
    ensures
        ({
            let open = Single { bits: 0x469c_4000 };
            let slow = Single { bits: 0x3c23_d70a };
            let fast = Single { bits: 0x42c8_0000 };
            &&& Single::one().is_at_most(field.cutoff_hz) && field.cutoff_hz.is_at_most(open)
                ==> field.cutoff_ratio() == quotient(field.cutoff_hz, open)
            &&& open.is_at_most(field.cutoff_hz) ==> field.cutoff_ratio() == Single::one()
            &&& field.cutoff_hz.is_at_most(Single::one()) ==> field.cutoff_ratio() == quotient(
                Single::one(),
                open,
            )
            &&& slow.is_at_most(field.speed) && field.speed.is_at_most(fast)
                ==> field.speed_ratio() == field.speed
            &&& field.speed.is_less(slow) ==> field.speed_ratio() == slow
            &&& fast.is_less(field.speed) ==> field.speed_ratio() == fast
        }),
{
    lemma_one();
    let open = Single { bits: OPEN_CUTOFF_HZ };
    let m: nat = magnitude(OPEN_CUTOFF_HZ as nat);
    lemma_magnitude_increases(0, OPEN_CUTOFF_HZ as nat);
    lemma_rounded_exact(m, ONE_BITS as nat);
    assert(m * pow2(149) == pow2(149) * m) by (nonlinear_arith);
    assert(quotient(open, open) == Single::one());
}

/// A power is asked for each ratio at the influence of the field, and for nothing
/// else.
pub proof fn ratios_are_raised_to_the_influence<P: Fn(Single, Single) -> Single>(
    power: P,
    field: SoundDampingField,
    influence: Single,
    powers: (Single, Single),
)
    ensures
        raises(power, field, influence, powers) <==> call_ensures(
            power,
            (field.cutoff_ratio(), influence),
            powers.0,
        ) && call_ensures(power, (field.speed_ratio(), influence), powers.1),
        bend(Single::one()).is_zero(),
{
    lemma_one();
    lemma_negated(Single::one());
}

/// Which ends of a sound's path a field reads.
pub proof fn targets_say_which_ends_are_read()
    ensures
        DampingTargets::Sources.reads_sources() && !DampingTargets::Sources.reads_listeners(),
        !DampingTargets::Listeners.reads_sources() && DampingTargets::Listeners.reads_listeners(),
        DampingTargets::Both.reads_sources() && DampingTargets::Both.reads_listeners(),
{
}

/// How strongly a field acts on a sound: where it reads sources, as deep as the source
/// is in it, and where it reads listeners, as deep as the listener is, the deeper of
/// the two; on a sound without a place, as deep as the listener is.
pub proof fn a_field_acts_by_the_deeper_end(
    centre: Vec2,
    field: SoundDampingField,
    listener: Option<Vec2>,
    fields: Seq<ActiveField>,
    i: int,
    position: Vec2,
)
    requires
        0 <= i < fields.len(),
        fields[i] == ActiveField::new(centre, &field, listener),
    ensures
        ({
            let heard = match listener {
                Some(listener) => if field.targets != DampingTargets::Sources {
                    field.influence(centre.distance(listener))
                } else {
                    Single::zero()
                },
                None => Single::zero(),
            };
            let made = if field.targets != DampingTargets::Listeners {
                field.influence(centre.distance(position))
            } else {
                Single::zero()
            };
            &&& influences_at(fields, None)[i] == heard
            &&& influences_at(fields, Some(position))[i] == made.max(heard)
            &&& influences_at(fields, None).len() == fields.len()
            &&& influences_at(fields, Some(position)).len() == fields.len()
        }),
{
}

/// The fields that act are those with a positive radius, each once and in order,
/// paired with the listener nearest to its centre; the rest are left out.
pub proof fn the_fields_that_act_are_paired(
    fields: Seq<(Vec2, SoundDampingField)>,
    listeners: Seq<Vec2>,
    centre: Vec2,
    field: SoundDampingField,
)
    ensures
        active_fields(Seq::<(Vec2, SoundDampingField)>::empty(), listeners).len() == 0,
        Single::zero().is_less(field.radius) ==> active_fields(
            fields.push((centre, field)),
            listeners,
        ) == active_fields(fields, listeners).push(
            ActiveField::new(centre, &field, nearest_of(listeners, centre)),
        ),
        !Single::zero().is_less(field.radius) ==> active_fields(
            fields.push((centre, field)),
            listeners,
        ) == active_fields(fields, listeners),
        any_acts(fields.push((centre, field))) <==> any_acts(fields) || Single::zero().is_less(
            field.radius,
        ),
        !any_acts(Seq::<(Vec2, SoundDampingField)>::empty()),
{
    let all = fields.push((centre, field));
    assert(all.drop_last() =~= fields);
    assert(all[fields.len() as int] == (centre, field));
    if any_acts(fields) {
        let i = choose|i: int| 0 <= i < fields.len() && (#[trigger] fields[i]).1.acts();
        assert(all[i].1.acts());
    }
    if any_acts(all) && !Single::zero().is_less(field.radius) {
        let i = choose|i: int| 0 <= i < all.len() && (#[trigger] all[i]).1.acts();
        assert(fields[i].1.acts());
    }
}

/// A fade, and a system of the sound's own, keep the volume node to themselves.
pub proof fn what_drives_a_node_keeps_it<C>(
    s: Sound<C>,
    category_volume: Single,
    damping: SoundDamping,
    duck: DuckingEnvelope,
    effects: Effects,
)
    requires
        s.effects == Some(effects),
        s.fade_in is Some || s.fade_out is Some || s.self_driven_volume || effects.volume is None,
    ensures
        (damped(s, category_volume, damping, duck).effects->0).volume == effects.volume,
{
}

/// A damping is none exactly if it leaves volume, filter and speed alone.
pub proof fn none_means_none_of_the_three(damping: SoundDamping)
    ensures
        damping.is_none() <==> damping.volume.equals(Single::one()) && damping.cutoff_hz.equals(
            Single { bits: 0x469c_4000 },
        ) && damping.speed.equals(Single::one()),
{
}

/// No listener is nearer to a field's centre than the one it is paired with, and none
/// before that one is as near.
pub proof fn no_listener_is_nearer_than_the_nearest(listeners: Seq<Vec2>, centre: Vec2, j: int)
    requires
        0 <= j < listeners.len(),
    ensures
        exists|i: int|
            {
                let here = centre.distance_squared(#[trigger] listeners[i]).total_place();
                let there = centre.distance_squared(listeners[j]).total_place();
                &&& 0 <= i < listeners.len() && nearest_of(listeners, centre) == Some(listeners[i])
                &&& here < there || (here == there && i <= j)
            },
        nearest_of(Seq::<Vec2>::empty(), centre) is None,
{
    the_nearest_listener_is_the_first_of_the_least(listeners, centre);
    let i = choose|i: int| #[trigger]
        is_nearest_to(listeners, centre, i) && nearest_of(listeners, centre) == Some(listeners[i]);
    let here = centre.distance_squared(listeners[i]).total_place();
    let there = centre.distance_squared(listeners[j]).total_place();
    assert(here <= there && (j < i ==> here < there));
}

} // verus!
