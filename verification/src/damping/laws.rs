//! What holds of damping as a whole.

use crate::baseline::{base_or_unity, BaseVolume};
use crate::damping::influence::{
    influence_is_a_number_inside, influence_stays_between_none_and_full,
};
use crate::damping::{
    bend, damped, drives_volume, field_volume, influences_at, is_resolved, open_to_damping, raises,
    raises_all, resolved, smooth, ActiveField, SoundDamping, SoundDampingField, OPEN_CUTOFF_HZ,
    THREE_BITS, TWO_BITS,
};
use crate::ducking::DuckingEnvelope;
use crate::geometry::{distances_are_numbers, Vec2};
use crate::single::arith::{difference, product, quotient};
use crate::single::laws::{
    in_unit, lemma_negated, lemma_one, lemma_place_of_value, lemma_product_negated,
    lemma_product_unit, lemma_rounded_place_monotonic, lemma_sum_place, lemma_times_one,
    lemma_times_zero,
};
use crate::single::model::{
    lemma_magnitude_increases, lemma_rounded, lemma_rounded_exact, lemma_rounded_monotonic,
    magnitude,
};
use crate::single::order::{lemma_place_is_value, lemma_total_place_tells};
use crate::single::{Single, ONE_BITS};
use crate::sound::{Sound, Volume};
use crate::volume::{follows_config, retuned};
use vstd::arithmetic::power2::{lemma2_to64, lemma_pow2_adds, pow2};
use vstd::prelude::*;

verus! {

/// Two and three are twice and three times one.
pub(crate) proof fn lemma_two_and_three()
    ensures
        (Single { bits: TWO_BITS }).is_finite(),
        (Single { bits: THREE_BITS }).is_finite(),
        (Single { bits: TWO_BITS }).value() == 2 * pow2(149),
        (Single { bits: THREE_BITS }).value() == 3 * pow2(149),
{
    lemma2_to64();
    lemma_pow2_adds(22, 127);
    assert(0x80_0000 * pow2(127) == 2 * pow2(149)) by (nonlinear_arith)
        requires
            pow2(149) == pow2(22) * pow2(127),
            pow2(22) == 0x40_0000,
    ;
    assert(0xc0_0000 * pow2(127) == 3 * pow2(149)) by (nonlinear_arith)
        requires
            pow2(149) == pow2(22) * pow2(127),
            pow2(22) == 0x40_0000,
    ;
}

/// A difference that is exactly one.
proof fn lemma_difference_is_one(a: Single, b: Single)
    requires
        a.is_finite(),
        b.is_finite(),
        a.value() - b.value() == pow2(149),
    ensures
        difference(a, b) == Single::one(),
{
    lemma_one();
    lemma_negated(b);
    lemma_rounded_exact(1, ONE_BITS as nat);
    assert(magnitude(ONE_BITS as nat) * 1 == pow2(149)) by (nonlinear_arith)
        requires
            magnitude(ONE_BITS as nat) == pow2(149),
    ;
}

/// The smooth step starts at zero and ends at one.
proof fn lemma_smooth_ends()
    ensures
        smooth(Single::zero()) == Single::zero(),
        smooth(Single::one()) == Single::one(),
{
    let two = Single { bits: TWO_BITS };
    let three = Single { bits: THREE_BITS };
    lemma_one();
    lemma_two_and_three();
    // At zero: the square is zero, and so is its product with what is finite.
    lemma_times_zero(Single::zero());
    lemma_times_zero(two);
    lemma_negated(Single::zero());
    lemma_sum_place(three, Single::zero().negated());
    lemma_place_of_value(three);
    assert(difference(three, Single::zero()).place() == three.place());
    lemma_times_zero(difference(three, Single::zero()));
    // At one: the square is one, and three less two is one.
    lemma_times_one(Single::one());
    lemma_times_one(two);
    lemma_difference_is_one(three, two);
}

/// A field that acts is at full strength at its centre.
pub proof fn influence_is_full_at_the_centre(field: SoundDampingField)
    requires
        field.acts(),
    ensures
        field.influence(Single::zero()) == Single::one(),
{
    lemma_one();
    lemma_smooth_ends();
    if field.radius.is_finite() {
        let m: nat = magnitude(field.radius.pattern());
        lemma_magnitude_increases(0, field.radius.pattern());
        lemma_rounded_exact(m, 0);
        assert(magnitude(0) * m == 0 && magnitude(0) * pow2(149) == 0) by (nonlinear_arith)
            requires
                magnitude(0) == 0,
        ;
    }
    assert(field.depth_lost(Single::zero()) == Single::zero());
    lemma_difference_is_one(Single::one(), Single::zero());
}

/// A field does nothing at its radius and beyond.
pub proof fn influence_ends_at_the_radius(field: SoundDampingField, distance: Single)
    requires
        field.acts(),
        field.radius.is_finite(),
        field.radius.is_at_most(distance),
    ensures
        field.influence(distance) == Single::zero(),
{
    lemma_one();
    lemma_smooth_ends();
    let r: nat = magnitude(field.radius.pattern());
    let q = quotient(distance, field.radius);
    if distance.is_finite() {
        let d: nat = magnitude(distance.pattern());
        lemma_place_is_value(field.radius, distance);
        lemma_magnitude_increases(0, field.radius.pattern());
        assert((pow2(149) * r) * r <= (d * pow2(149)) * r) by (nonlinear_arith)
            requires
                r <= d,
        ;
        lemma_rounded_monotonic(pow2(149) * r, r, d * pow2(149), r);
        lemma_rounded_exact(r, ONE_BITS as nat);
        lemma_rounded(d * pow2(149), r);
    }
    assert(Single::one().is_at_most(q));
    assert(field.depth_lost(distance) == Single::one());
    lemma_negated(Single::one());
}

/// A field that does not act has no influence anywhere.
pub proof fn a_field_without_a_radius_never_acts(field: SoundDampingField, distance: Single)
    requires
        field.radius.is_at_most(Single::zero()),
    ensures
        field.influence(distance) == Single::zero(),
{
}

/// What one field leaves of a volume lies between silence and all of it, unless
/// the field's own volume is not a number.
pub proof fn field_volumes_stay_in_range(field: SoundDampingField, influence: Single)
    requires
        in_unit(influence),
    ensures
        field_volume(field, influence).is_nan() || in_unit(field_volume(field, influence)),
{
    lemma_one();
    let one = Single::one();
    let authored = field.volume.clamp(Single::zero(), one);
    if !authored.is_nan() {
        // The way down from one, between minus one and zero.
        let down = difference(authored, one);
        lemma_place_is_value(Single::zero(), authored);
        lemma_place_is_value(authored, one);
        lemma_negated(one);
        lemma_sum_place(authored, one.negated());
        lemma_rounded_place_monotonic(-one.value(), authored.value() - one.value());
        lemma_rounded_place_monotonic(authored.value() - one.value(), 0);
        lemma_place_of_value(one.negated());
        lemma_rounded_place_monotonic(0, 0);
        lemma_negated(down);
        let up = down.negated();
        lemma_product_unit(up, influence);
        // Scaling it and negating it can be swapped.
        let scaled = product(down, influence);
        lemma_product_negated(down, influence);
        assert(-one.place() <= scaled.place() <= 0);
        lemma_place_is_value(one.negated(), scaled);
        lemma_place_is_value(scaled, Single::zero());
        lemma_sum_place(one, scaled);
        lemma_rounded_place_monotonic(0, one.value() + scaled.value());
        lemma_rounded_place_monotonic(one.value() + scaled.value(), one.value());
        lemma_place_of_value(one);
    }
}

/// Damping never amplifies and never inverts: whatever the fields, the volume
/// factor stays between silence and all of it, and the cutoff never rises above
/// the open one.
pub proof fn damping_stays_in_range(
    fields: Seq<ActiveField>,
    influences: Seq<Single>,
    powers: Seq<(Single, Single)>,
)
    requires
        influences.len() == fields.len(),
        powers.len() == fields.len(),
        forall|i: int|
            0 <= i < influences.len() ==> (#[trigger] influences[i]).is_nan()
                || influences[i].is_at_most(Single::one()),
    ensures
        in_unit(resolved(fields, influences, powers).volume),
        resolved(fields, influences, powers).cutoff_hz.is_at_most(Single { bits: OPEN_CUTOFF_HZ }),
    decreases fields.len(),
{
    lemma_one();
    if fields.len() > 0 {
        damping_stays_in_range(fields.drop_last(), influences.drop_last(), powers.drop_last());
        let influence = influences.last();
        assert(influence == influences[influences.len() - 1]);
        if !influence.is_nan() && !influence.is_at_most(Single::zero()) {
            field_volumes_stay_in_range(*fields.last().field, influence);
        }
    }
}

/// A sound that no field reaches is left alone.
pub proof fn out_of_reach_is_untouched(
    fields: Seq<ActiveField>,
    influences: Seq<Single>,
    powers: Seq<(Single, Single)>,
)
    requires
        influences.len() == fields.len(),
        powers.len() == fields.len(),
        forall|i: int|
            0 <= i < influences.len() ==> (#[trigger] influences[i]).is_at_most(Single::zero()),
    ensures
        resolved(fields, influences, powers) == SoundDamping::none(),
    decreases fields.len(),
{
    if fields.len() > 0 {
        out_of_reach_is_untouched(fields.drop_last(), influences.drop_last(), powers.drop_last());
        assert(influences.last() == influences[influences.len() - 1]);
    }
}

/// The cutoff that a field alone would give.
pub open spec fn field_cutoff(cutoff_power: Single) -> Single {
    product(Single { bits: OPEN_CUTOFF_HZ }, cutoff_power)
}

/// Overlapping fields do not stack, the strongest wins: on each axis the
/// resolved damping is no weaker than what any field that acts gives alone.
pub proof fn the_strongest_field_wins(
    fields: Seq<ActiveField>,
    influences: Seq<Single>,
    powers: Seq<(Single, Single)>,
    i: int,
)
    requires
        influences.len() == fields.len(),
        powers.len() == fields.len(),
        0 <= i < fields.len(),
        !influences[i].is_at_most(Single::zero()),
    ensures
        ({
            let r = resolved(fields, influences, powers);
            let volume = field_volume(*fields[i].field, influences[i]);
            let cutoff = field_cutoff(powers[i].0);
            &&& volume.is_nan() || r.volume.is_at_most(volume)
            &&& cutoff.is_nan() || r.cutoff_hz.is_at_most(cutoff)
            &&& !bend(r.speed).is_less(bend(powers[i].1))
        }),
    decreases fields.len(),
{
    lemma_axes_hold_numbers(fields.drop_last(), influences.drop_last(), powers.drop_last());
    if i < fields.len() - 1 {
        the_strongest_field_wins(
            fields.drop_last(),
            influences.drop_last(),
            powers.drop_last(),
            i,
        );
    }
}

/// Volume and cutoff of a resolved damping are numbers, and the speed is one or
/// a number.
proof fn lemma_axes_hold_numbers(
    fields: Seq<ActiveField>,
    influences: Seq<Single>,
    powers: Seq<(Single, Single)>,
)
    ensures
        !resolved(fields, influences, powers).volume.is_nan(),
        !resolved(fields, influences, powers).cutoff_hz.is_nan(),
        !bend(resolved(fields, influences, powers).speed).is_nan(),
    decreases fields.len(),
{
    lemma_one();
    if fields.len() > 0 {
        lemma_axes_hold_numbers(fields.drop_last(), influences.drop_last(), powers.drop_last());
    } else {
        lemma_negated(Single::one());
    }
}

/// Nor is it any stronger: on each axis the resolved damping is untouched, or
/// what one of the fields that act gives alone.
pub proof fn no_two_fields_stack(
    fields: Seq<ActiveField>,
    influences: Seq<Single>,
    powers: Seq<(Single, Single)>,
)
    requires
        influences.len() == fields.len(),
        powers.len() == fields.len(),
    ensures
        ({
            let r = resolved(fields, influences, powers);
            &&& r.volume == Single::one() || exists|i: int|
                #[trigger] acts_on(influences, i) && r.volume == field_volume(
                    *fields[i].field,
                    influences[i],
                )
            &&& r.cutoff_hz == (Single { bits: OPEN_CUTOFF_HZ }) || exists|i: int|
                #[trigger] acts_on(influences, i) && r.cutoff_hz == field_cutoff(powers[i].0)
            &&& r.speed == Single::one() || exists|i: int|
                #[trigger] acts_on(influences, i) && r.speed == powers[i].1
        }),
    decreases fields.len(),
{
    if fields.len() > 0 {
        let f = fields.drop_last();
        let n = influences.drop_last();
        let p = powers.drop_last();
        no_two_fields_stack(f, n, p);
        let before = resolved(f, n, p);
        let last: int = fields.len() - 1;
        assert(influences.last() == influences[last]);
        assert(!influences.last().is_at_most(Single::zero()) ==> acts_on(influences, last));
        if before.volume != Single::one() {
            let i: int = choose|i: int|
                #[trigger] acts_on(n, i) && before.volume == field_volume(*f[i].field, n[i]);
            assert(acts_on(influences, i));
        }
        if before.cutoff_hz != (Single { bits: OPEN_CUTOFF_HZ }) {
            let i: int = choose|i: int|
                #[trigger] acts_on(n, i) && before.cutoff_hz == field_cutoff(p[i].0);
            assert(acts_on(influences, i));
        }
        if before.speed != Single::one() {
            let i: int = choose|i: int| #[trigger] acts_on(n, i) && before.speed == p[i].1;
            assert(acts_on(influences, i));
        }
    }
}

/// Whether `power` has one answer for each base and exponent.
pub open spec fn has_one_answer<P: Fn(Single, Single) -> Single>(power: P) -> bool {
    forall|base: Single, exponent: Single, a: Single, b: Single| #[trigger]
        call_ensures(power, (base, exponent), a) && #[trigger] call_ensures(
            power,
            (base, exponent),
            b,
        ) ==> a == b
}

/// Fields never stack: the same fields once more leave the damping as it is, at
/// any position and at none.
pub proof fn repeating_the_fields_changes_nothing<P: Fn(Single, Single) -> Single>(
    power: P,
    fields: Seq<ActiveField>,
    position: Option<Vec2>,
    once: SoundDamping,
    twice: SoundDamping,
)
    requires
        has_one_answer(power),
        is_resolved(power, fields, influences_at(fields, position), once),
        is_resolved(power, fields + fields, influences_at(fields + fields, position), twice),
    ensures
        twice == once,
{
    let n = influences_at(fields, position);
    let p = choose|p: Seq<(Single, Single)>| #[trigger]
        raises_all(power, fields, n, p) && once == resolved(fields, n, p);
    let ff = fields + fields;
    let nn = influences_at(ff, position);
    let q = choose|q: Seq<(Single, Single)>| #[trigger]
        raises_all(power, ff, nn, q) && twice == resolved(ff, nn, q);
    assert forall|i: int| #[trigger] acts_on(nn, i) implies exists|j: int| #[trigger]
        acts_on(n, j) && acts_alike(fields, n, p, j, ff, nn, q, i) && (i < fields.len() ==> j
        == i) by {
        let j: int = lemma_doubled(power, fields, position, p, q, i);
        assert(acts_on(n, j));
    }
    lemma_influences_doubled(fields, position);
    lemma_repeated_whole(fields, n, p, ff, nn, q);
}

/// A doubled list acts as the list does, twice.
proof fn lemma_influences_doubled(fields: Seq<ActiveField>, position: Option<Vec2>)
    ensures
        influences_at(fields + fields, position) == influences_at(fields, position)
            + influences_at(fields, position),
{
    assert(influences_at(fields + fields, position) =~= influences_at(fields, position)
        + influences_at(fields, position));
}

/// A list that starts with `fields`, and whose every acting field acts as one of
/// them does, gives what they give.
proof fn lemma_repeated_whole(
    fields: Seq<ActiveField>,
    n: Seq<Single>,
    p: Seq<(Single, Single)>,
    others: Seq<ActiveField>,
    nn: Seq<Single>,
    q: Seq<(Single, Single)>,
)
    requires
        n.len() == fields.len() && p.len() == fields.len(),
        nn.len() == others.len() && q.len() == others.len(),
        fields.len() <= others.len(),
        forall|i: int| 0 <= i < fields.len() ==> #[trigger] nn[i] == n[i],
        forall|i: int| #[trigger] acts_on(nn, i) ==> exists|j: int| #[trigger]
            acts_on(n, j) && acts_alike(fields, n, p, j, others, nn, q, i) && (i < fields.len()
                ==> j == i),
    ensures
        resolved(others, nn, q) == resolved(fields, n, p),
{
    let k: int = others.len() as int;
    let first: int = fields.len() as int;
    lemma_repeated(fields, n, p, others, nn, q, others.len());
    assert(others.take(k) =~= others && nn.take(k) =~= nn && q.take(k) =~= q);
    assert(fields.take(first) =~= fields && n.take(first) =~= n && p.take(first) =~= p);
}

/// Every field of a doubled list acts as it does in the list.
proof fn lemma_doubled<P: Fn(Single, Single) -> Single>(
    power: P,
    fields: Seq<ActiveField>,
    position: Option<Vec2>,
    p: Seq<(Single, Single)>,
    q: Seq<(Single, Single)>,
    i: int,
) -> (j: int)
    requires
        has_one_answer(power),
        raises_all(power, fields, influences_at(fields, position), p),
        raises_all(power, fields + fields, influences_at(fields + fields, position), q),
        acts_on(influences_at(fields + fields, position), i),
    ensures
        acts_on(influences_at(fields, position), j),
        acts_alike(
            fields,
            influences_at(fields, position),
            p,
            j,
            fields + fields,
            influences_at(fields + fields, position),
            q,
            i,
        ),
        i < fields.len() ==> j == i,
{
    let j: int = if i < fields.len() {
        i
    } else {
        i - fields.len()
    };
    let n = influences_at(fields, position);
    let nn = influences_at(fields + fields, position);
    assert((fields + fields)[i] == fields[j]);
    assert(nn[i] == n[j]);
    lemma_same_powers(power, fields, n, p, j, fields + fields, nn, q, i);
    j
}

/// The order of the fields does not matter: the same fields in another order
/// leave the volume, the cutoff and the size of the bend, at any position and at
/// none.
pub proof fn reordering_the_fields_changes_no_axis<P: Fn(Single, Single) -> Single>(
    power: P,
    fields: Seq<ActiveField>,
    reordered: Seq<ActiveField>,
    position: Option<Vec2>,
    r: SoundDamping,
    other: SoundDamping,
)
    requires
        has_one_answer(power),
        fields.to_multiset() == reordered.to_multiset(),
        is_resolved(power, fields, influences_at(fields, position), r),
        is_resolved(power, reordered, influences_at(reordered, position), other),
    ensures
        other.volume == r.volume,
        other.cutoff_hz == r.cutoff_hz,
        bend(other.speed) == bend(r.speed),
{
    broadcast use vstd::seq_lib::group_to_multiset_ensures;

    assert forall|x: ActiveField| fields.contains(x) == #[trigger] reordered.contains(x) by {
        assert(fields.contains(x) == fields.to_multiset().contains(x));
        assert(reordered.contains(x) == reordered.to_multiset().contains(x));
    }
    lemma_more_fields(power, fields, reordered, position, r, other);
    lemma_more_fields(power, reordered, fields, position, other, r);
    lemma_total_place_tells(r.volume, other.volume);
    lemma_total_place_tells(r.cutoff_hz, other.cutoff_hz);
    lemma_total_place_tells(bend(r.speed), bend(other.speed));
}

/// A further field never weakens the damping: the volume and the cutoff are no
/// higher with it than without, and the bend is no smaller.
pub proof fn a_further_field_only_strengthens<P: Fn(Single, Single) -> Single>(
    power: P,
    fields: Seq<ActiveField>,
    further: ActiveField,
    position: Option<Vec2>,
    r: SoundDamping,
    with_it: SoundDamping,
)
    requires
        has_one_answer(power),
        is_resolved(power, fields, influences_at(fields, position), r),
        is_resolved(
            power,
            fields.push(further),
            influences_at(fields.push(further), position),
            with_it,
        ),
    ensures
        with_it.volume.is_at_most(r.volume),
        with_it.cutoff_hz.is_at_most(r.cutoff_hz),
        bend(r.speed).is_at_most(bend(with_it.speed)),
{
    assert forall|x: ActiveField| fields.contains(x) implies #[trigger] fields.push(
        further,
    ).contains(x) by {
        let i = choose|i: int| 0 <= i < fields.len() && fields[i] == x;
        assert(fields.push(further)[i] == x);
    }
    lemma_more_fields(power, fields, fields.push(further), position, r, with_it);
}

/// Whether influence `i` is one of a field that acts.
pub open spec fn acts_on(influences: Seq<Single>, i: int) -> bool {
    0 <= i < influences.len() && !influences[i].is_at_most(Single::zero())
}

/// Whether field `i` of one list acts as field `j` of another does.
spec fn acts_alike(
    fields: Seq<ActiveField>,
    influences: Seq<Single>,
    powers: Seq<(Single, Single)>,
    i: int,
    others: Seq<ActiveField>,
    other_influences: Seq<Single>,
    other_powers: Seq<(Single, Single)>,
    j: int,
) -> bool {
    fields[i].field == others[j].field && influences[i] == other_influences[j] && powers[i]
        == other_powers[j]
}

/// The same field at the same influence is raised to the same powers.
proof fn lemma_same_powers<P: Fn(Single, Single) -> Single>(
    power: P,
    fields: Seq<ActiveField>,
    influences: Seq<Single>,
    powers: Seq<(Single, Single)>,
    i: int,
    others: Seq<ActiveField>,
    other_influences: Seq<Single>,
    other_powers: Seq<(Single, Single)>,
    j: int,
)
    requires
        has_one_answer(power),
        raises_all(power, fields, influences, powers),
        raises_all(power, others, other_influences, other_powers),
        influences.len() == fields.len(),
        other_influences.len() == others.len(),
        acts_on(influences, i),
        0 <= j < others.len(),
        fields[i] == others[j],
        influences[i] == other_influences[j],
    ensures
        acts_alike(fields, influences, powers, i, others, other_influences, other_powers, j),
{
    let field = *fields[i].field;
    assert(raises(power, field, influences[i], powers[i]));
    assert(raises(power, field, other_influences[j], other_powers[j]));
}

/// What an acting field gives alone is no stronger than the resolved damping, in
/// the total order of all numbers.
proof fn lemma_strongest(
    fields: Seq<ActiveField>,
    influences: Seq<Single>,
    powers: Seq<(Single, Single)>,
    i: int,
)
    requires
        influences.len() == fields.len(),
        powers.len() == fields.len(),
        acts_on(influences, i),
    ensures
        ({
            let r = resolved(fields, influences, powers);
            let volume = field_volume(*fields[i].field, influences[i]);
            let cutoff = field_cutoff(powers[i].0);
            &&& volume.is_nan() || r.volume.total_place() <= volume.total_place()
            &&& cutoff.is_nan() || r.cutoff_hz.total_place() <= cutoff.total_place()
            &&& !bend(r.speed).is_less(bend(powers[i].1))
        }),
    decreases fields.len(),
{
    lemma_axes_hold_numbers(fields.drop_last(), influences.drop_last(), powers.drop_last());
    if i < fields.len() - 1 {
        lemma_strongest(fields.drop_last(), influences.drop_last(), powers.drop_last(), i);
    }
}

/// Damping starts from none on each axis.
proof fn lemma_no_weaker_than_none(
    fields: Seq<ActiveField>,
    influences: Seq<Single>,
    powers: Seq<(Single, Single)>,
)
    ensures
        ({
            let r = resolved(fields, influences, powers);
            &&& r.volume.total_place() <= Single::one().total_place()
            &&& r.cutoff_hz.total_place() <= (Single { bits: OPEN_CUTOFF_HZ }).total_place()
        }),
    decreases fields.len(),
{
    if fields.len() > 0 {
        lemma_no_weaker_than_none(
            fields.drop_last(),
            influences.drop_last(),
            powers.drop_last(),
        );
        lemma_axes_hold_numbers(fields.drop_last(), influences.drop_last(), powers.drop_last());
    }
}

/// A list that holds every field of another damps no less on each axis.
proof fn lemma_more_fields<P: Fn(Single, Single) -> Single>(
    power: P,
    fields: Seq<ActiveField>,
    more: Seq<ActiveField>,
    position: Option<Vec2>,
    r: SoundDamping,
    stronger: SoundDamping,
)
    requires
        has_one_answer(power),
        forall|x: ActiveField| fields.contains(x) ==> #[trigger] more.contains(x),
        is_resolved(power, fields, influences_at(fields, position), r),
        is_resolved(power, more, influences_at(more, position), stronger),
    ensures
        !r.volume.is_nan() && !stronger.volume.is_nan(),
        !r.cutoff_hz.is_nan() && !stronger.cutoff_hz.is_nan(),
        !bend(r.speed).is_nan() && !bend(stronger.speed).is_nan(),
        stronger.volume.total_place() <= r.volume.total_place(),
        stronger.cutoff_hz.total_place() <= r.cutoff_hz.total_place(),
        bend(r.speed).total_place() <= bend(stronger.speed).total_place(),
{
    let n = influences_at(fields, position);
    let p = choose|p: Seq<(Single, Single)>| #[trigger]
        raises_all(power, fields, n, p) && r == resolved(fields, n, p);
    let nn = influences_at(more, position);
    let q = choose|q: Seq<(Single, Single)>| #[trigger]
        raises_all(power, more, nn, q) && stronger == resolved(more, nn, q);
    assert forall|i: int| #[trigger] acts_on(n, i) implies exists|j: int| #[trigger]
        acts_on(nn, j) && acts_alike(fields, n, p, i, more, nn, q, j) by {
        assert(fields.contains(fields[i]));
        assert(more.contains(fields[i]));
        let j = choose|j: int| 0 <= j < more.len() && more[j] == fields[i];
        assert(nn[j] == n[i]);
        assert(acts_on(nn, j));
        lemma_same_powers(power, fields, n, p, i, more, nn, q, j);
    }
    lemma_more_acts(fields, n, p, more, nn, q);
}

/// A list in which some field acts as each acting field of another does damps no
/// less on each axis.
proof fn lemma_more_acts(
    fields: Seq<ActiveField>,
    n: Seq<Single>,
    p: Seq<(Single, Single)>,
    more: Seq<ActiveField>,
    nn: Seq<Single>,
    q: Seq<(Single, Single)>,
)
    requires
        n.len() == fields.len() && p.len() == fields.len(),
        nn.len() == more.len() && q.len() == more.len(),
        forall|i: int| #[trigger] acts_on(n, i) ==> exists|j: int| #[trigger]
            acts_on(nn, j) && acts_alike(fields, n, p, i, more, nn, q, j),
    ensures
        ({
            let r = resolved(fields, n, p);
            let stronger = resolved(more, nn, q);
            &&& !r.volume.is_nan() && !stronger.volume.is_nan()
            &&& !r.cutoff_hz.is_nan() && !stronger.cutoff_hz.is_nan()
            &&& !bend(r.speed).is_nan() && !bend(stronger.speed).is_nan()
            &&& stronger.volume.total_place() <= r.volume.total_place()
            &&& stronger.cutoff_hz.total_place() <= r.cutoff_hz.total_place()
            &&& bend(r.speed).total_place() <= bend(stronger.speed).total_place()
        }),
{
    lemma_axes_hold_numbers(fields, n, p);
    lemma_axes_hold_numbers(more, nn, q);
    lemma_quieter(fields, n, p, more, nn, q);
    lemma_duller(fields, n, p, more, nn, q);
    lemma_more_bent(fields, n, p, more, nn, q);
}

/// The same of the volume alone.
proof fn lemma_quieter(
    fields: Seq<ActiveField>,
    n: Seq<Single>,
    p: Seq<(Single, Single)>,
    more: Seq<ActiveField>,
    nn: Seq<Single>,
    q: Seq<(Single, Single)>,
)
    requires
        n.len() == fields.len() && p.len() == fields.len(),
        nn.len() == more.len() && q.len() == more.len(),
        forall|i: int| #[trigger] acts_on(n, i) ==> exists|j: int| #[trigger]
            acts_on(nn, j) && acts_alike(fields, n, p, i, more, nn, q, j),
    ensures
        resolved(more, nn, q).volume.total_place() <= resolved(fields, n, p).volume.total_place(),
{
    let volume = resolved(fields, n, p).volume;
    lemma_axes_hold_numbers(fields, n, p);
    no_two_fields_stack(fields, n, p);
    if volume == Single::one() {
        lemma_no_weaker_than_none(more, nn, q);
    } else {
        let i: int = choose|i: int|
            #[trigger] acts_on(n, i) && volume == field_volume(*fields[i].field, n[i]);
        let j: int = choose|j: int| #[trigger]
            acts_on(nn, j) && acts_alike(fields, n, p, i, more, nn, q, j);
        lemma_strongest(more, nn, q, j);
    }
}

/// The same of the cutoff alone.
proof fn lemma_duller(
    fields: Seq<ActiveField>,
    n: Seq<Single>,
    p: Seq<(Single, Single)>,
    more: Seq<ActiveField>,
    nn: Seq<Single>,
    q: Seq<(Single, Single)>,
)
    requires
        n.len() == fields.len() && p.len() == fields.len(),
        nn.len() == more.len() && q.len() == more.len(),
        forall|i: int| #[trigger] acts_on(n, i) ==> exists|j: int| #[trigger]
            acts_on(nn, j) && acts_alike(fields, n, p, i, more, nn, q, j),
    ensures
        resolved(more, nn, q).cutoff_hz.total_place() <= resolved(
            fields,
            n,
            p,
        ).cutoff_hz.total_place(),
{
    let cutoff = resolved(fields, n, p).cutoff_hz;
    lemma_axes_hold_numbers(fields, n, p);
    no_two_fields_stack(fields, n, p);
    if cutoff == (Single { bits: OPEN_CUTOFF_HZ }) {
        lemma_no_weaker_than_none(more, nn, q);
    } else {
        let i: int = choose|i: int| #[trigger] acts_on(n, i) && cutoff == field_cutoff(p[i].0);
        let j: int = choose|j: int| #[trigger]
            acts_on(nn, j) && acts_alike(fields, n, p, i, more, nn, q, j);
        lemma_strongest(more, nn, q, j);
    }
}

/// The same of the bend alone.
proof fn lemma_more_bent(
    fields: Seq<ActiveField>,
    n: Seq<Single>,
    p: Seq<(Single, Single)>,
    more: Seq<ActiveField>,
    nn: Seq<Single>,
    q: Seq<(Single, Single)>,
)
    requires
        n.len() == fields.len() && p.len() == fields.len(),
        nn.len() == more.len() && q.len() == more.len(),
        forall|i: int| #[trigger] acts_on(n, i) ==> exists|j: int| #[trigger]
            acts_on(nn, j) && acts_alike(fields, n, p, i, more, nn, q, j),
    ensures
        bend(resolved(fields, n, p).speed).total_place() <= bend(
            resolved(more, nn, q).speed,
        ).total_place(),
{
    let speed = resolved(fields, n, p).speed;
    lemma_axes_hold_numbers(fields, n, p);
    lemma_axes_hold_numbers(more, nn, q);
    no_two_fields_stack(fields, n, p);
    if speed == Single::one() {
        lemma_one_is_unbent();
    } else {
        let i: int = choose|i: int| #[trigger] acts_on(n, i) && speed == p[i].1;
        let j: int = choose|j: int| #[trigger]
            acts_on(nn, j) && acts_alike(fields, n, p, i, more, nn, q, j);
        lemma_strongest(more, nn, q, j);
    }
    lemma_bends(speed, resolved(more, nn, q).speed);
}

/// A bend that is not less than another comes no earlier in the total order.
proof fn lemma_bends(a: Single, b: Single)
    requires
        !bend(a).is_nan(),
        !bend(b).is_nan(),
        !bend(b).is_less(bend(a)),
    ensures
        bend(a).total_place() <= bend(b).total_place(),
{
}

/// One is no bend at all.
proof fn lemma_one_is_unbent()
    ensures
        bend(Single::one()) == Single::zero(),
{
    lemma_one();
    lemma_negated(Single::one());
}

/// The first `k` fields of a list whose every acting field acts as one of `fields`
/// does, and which starts with them, give what those of `fields` among them give.
proof fn lemma_repeated(
    fields: Seq<ActiveField>,
    n: Seq<Single>,
    p: Seq<(Single, Single)>,
    others: Seq<ActiveField>,
    nn: Seq<Single>,
    q: Seq<(Single, Single)>,
    k: nat,
)
    requires
        n.len() == fields.len() && p.len() == fields.len(),
        nn.len() == others.len() && q.len() == others.len(),
        k <= others.len(),
        fields.len() <= others.len(),
        forall|i: int| 0 <= i < fields.len() ==> #[trigger] nn[i] == n[i],
        forall|i: int| #[trigger] acts_on(nn, i) ==> exists|j: int| #[trigger]
            acts_on(n, j) && acts_alike(fields, n, p, j, others, nn, q, i) && (i < fields.len()
                ==> j == i),
    ensures
        ({
            let first: int = if k < fields.len() {
                k as int
            } else {
                fields.len() as int
            };
            resolved(others.take(k as int), nn.take(k as int), q.take(k as int)) == resolved(
                fields.take(first),
                n.take(first),
                p.take(first),
            )
        }),
    decreases k,
{
    if k > 0 {
        let i: int = k - 1;
        lemma_repeated(fields, n, p, others, nn, q, i as nat);
        assert(others.take(k as int).drop_last() =~= others.take(i));
        assert(nn.take(k as int).drop_last() =~= nn.take(i));
        assert(q.take(k as int).drop_last() =~= q.take(i));
        if i < fields.len() {
            assert(fields.take(k as int).drop_last() =~= fields.take(i));
            assert(n.take(k as int).drop_last() =~= n.take(i));
            assert(p.take(k as int).drop_last() =~= p.take(i));
            assert(nn[i] == n[i]);
            if acts_on(nn, i) {
                assert(acts_alike(fields, n, p, i, others, nn, q, i));
            }
        } else {
            let all: int = fields.len() as int;
            assert(fields.take(all) =~= fields && n.take(all) =~= n && p.take(all) =~= p);
            if acts_on(nn, i) {
                let j: int = choose|j: int| #[trigger]
                    acts_on(n, j) && acts_alike(fields, n, p, j, others, nn, q, i);
                lemma_strongest(fields, n, p, j);
                lemma_axes_hold_numbers(fields, n, p);
                let r = resolved(fields, n, p);
                let volume = field_volume(*fields[j].field, n[j]);
                let cutoff = field_cutoff(p[j].0);
                if r.volume.total_place() == volume.total_place() {
                    lemma_total_place_tells(r.volume, volume);
                }
                if r.cutoff_hz.total_place() == cutoff.total_place() {
                    lemma_total_place_tells(r.cutoff_hz, cutoff);
                }
            }
        }
    }
}

/// Whether a field was paired with its listener by finite values.
pub open spec fn is_finitely_paired(active: ActiveField) -> bool {
    &&& active.centre.x.is_finite() && active.centre.y.is_finite()
    &&& active.field.radius.is_finite()
    &&& exists|listener: Option<Vec2>| #[trigger]
        is_finite_point(listener) && active == ActiveField::new(
            active.centre,
            active.field,
            listener,
        )
}

/// Whether a point, if there is one, has finite coordinates.
pub open spec fn is_finite_point(point: Option<Vec2>) -> bool {
    point matches Some(p) ==> p.x.is_finite() && p.y.is_finite()
}

/// A sound without a place is damped as one outside every field is: only the
/// listener's own membership damps it.
pub proof fn no_place_is_a_place_outside<P: Fn(Single, Single) -> Single>(
    power: P,
    fields: Seq<ActiveField>,
    position: Vec2,
    positionless: SoundDamping,
    outside: SoundDamping,
)
    requires
        has_one_answer(power),
        forall|i: int|
            0 <= i < fields.len() ==> is_finitely_paired(#[trigger] fields[i])
                && fields[i].field.radius.is_at_most(fields[i].centre.distance(position)),
        is_resolved(power, fields, influences_at(fields, None), positionless),
        is_resolved(power, fields, influences_at(fields, Some(position)), outside),
    ensures
        influences_at(fields, Some(position)) == influences_at(fields, None),
        positionless == outside,
{
    let n = influences_at(fields, None);
    let nn = influences_at(fields, Some(position));
    assert forall|i: int| 0 <= i < fields.len() implies #[trigger] nn[i] == n[i] by {
        lemma_outside(fields[i], position);
    }
    assert(nn =~= n);
    let p = choose|p: Seq<(Single, Single)>| #[trigger]
        raises_all(power, fields, n, p) && positionless == resolved(fields, n, p);
    let q = choose|q: Seq<(Single, Single)>| #[trigger]
        raises_all(power, fields, n, q) && outside == resolved(fields, n, q);
    assert forall|i: int| #[trigger] acts_on(n, i) implies exists|j: int| #[trigger]
        acts_on(n, j) && acts_alike(fields, n, q, j, fields, n, p, i) && (i < fields.len() ==> j
        == i) by {
        lemma_same_powers(power, fields, n, q, i, fields, n, p, i);
    }
    lemma_repeated_whole(fields, n, q, fields, n, p);
}

/// At a point outside a field, only the listener's depth in it is left.
proof fn lemma_outside(active: ActiveField, position: Vec2)
    requires
        is_finitely_paired(active),
        active.field.radius.is_at_most(active.centre.distance(position)),
    ensures
        active.influence_on(position) == active.listener_influence,
{
    lemma_nothing_at_a_distance(*active.field, active.centre.distance(position));
    lemma_listener_influence(active);
    lemma_more_than_nothing(active.listener_influence);
}

/// Of nothing and what is not less, the latter is the greater.
proof fn lemma_more_than_nothing(x: Single)
    requires
        !x.is_nan(),
        !x.is_negative(),
    ensures
        Single::zero().max(x) == x,
{
}

/// At its radius and beyond, a field with a finite radius does nothing.
proof fn lemma_nothing_at_a_distance(field: SoundDampingField, distance: Single)
    requires
        field.radius.is_finite(),
        field.radius.is_at_most(distance),
    ensures
        field.influence(distance) == Single::zero(),
{
    if field.acts() {
        influence_ends_at_the_radius(field, distance);
    }
}

/// A listener's depth in a field is a number that is not negative.
proof fn lemma_listener_influence(active: ActiveField)
    requires
        is_finitely_paired(active),
    ensures
        !active.listener_influence.is_nan(),
        !active.listener_influence.is_negative(),
{
    let field = *active.field;
    let listener = choose|listener: Option<Vec2>| #[trigger]
        is_finite_point(listener) && active == ActiveField::new(
            active.centre,
            active.field,
            listener,
        );
    if let Some(point) = listener {
        let distance = active.centre.distance(point);
        distances_are_numbers(active.centre, point);
        lemma_influence_is_a_number(field, distance);
        influence_stays_between_none_and_full(field, distance);
    }
}

/// At a distance that is a number, a field with a finite radius has an influence.
proof fn lemma_influence_is_a_number(field: SoundDampingField, distance: Single)
    requires
        field.radius.is_finite(),
        !distance.is_nan(),
    ensures
        !field.influence(distance).is_nan(),
{
    let t = field.depth_lost(distance);
    lemma_one();
    if field.acts() {
        let n: nat = magnitude(distance.pattern()) * pow2(149);
        lemma_magnitude_increases(0, field.radius.pattern());
        lemma_rounded(n, magnitude(field.radius.pattern()));
        assert(!t.is_nan());
        influence_is_a_number_inside(field, distance);
    }
}

/// One field damps a sound once, whichever ends of its path it covers: the
/// influence is that of the deeper end, never of both together.
pub proof fn both_ends_damp_once(
    centre: Vec2,
    field: SoundDampingField,
    source: Vec2,
    listener: Vec2,
)
    ensures
        ({
            let at_source = field.influence(centre.distance(source));
            let at_listener = field.influence(centre.distance(listener));
            let influence = ActiveField::new(centre, &field, Some(listener)).influence_on(source);
            &&& field.targets.reads_sources() && field.targets.reads_listeners() ==> influence
                == at_source.max(at_listener)
            &&& influence == at_source || influence == at_listener || influence == Single::zero()
        }),
{
}

/// A field that reads sources only does not ask where the listener is, and one
/// that reads listeners only does not ask where the source is.
pub proof fn targets_pick_the_ends(
    centre: Vec2,
    field: SoundDampingField,
    source: Vec2,
    other_source: Vec2,
    listener: Option<Vec2>,
    other_listener: Option<Vec2>,
)
    ensures
        !field.targets.reads_listeners() ==> ActiveField::new(
            centre,
            &field,
            listener,
        ).influence_on(source) == ActiveField::new(centre, &field, other_listener).influence_on(
            source,
        ),
        !field.targets.reads_sources() ==> ActiveField::new(centre, &field, listener).influence_on(
            source,
        ) == ActiveField::new(centre, &field, listener).influence_on(other_source),
{
}

/// A fade, and a system of the sound's own, keep the volume node to themselves:
/// damping then changes the filter and the pitch only.
pub proof fn fades_keep_the_volume<C>(
    s: Sound<C>,
    category_volume: Single,
    damping: SoundDamping,
    duck: DuckingEnvelope,
)
    requires
        s.fading() || s.self_driven_volume,
        s.effects is Some,
    ensures
        ({
            let r = damped(s, category_volume, damping, duck);
            &&& r.effects is Some
            &&& (r.effects->0).volume == (s.effects->0).volume
        }),
{
}

/// Handing a sound back is seamless: with no field acting and the duck at rest,
/// damping leaves the same level in the node as the config-driven write does,
/// the filter open and the speed at the sound's own pitch.
pub proof fn the_hand_off_is_seamless<C>(
    s: Sound<C>,
    category_volume: Single,
    duck: DuckingEnvelope,
)
    requires
        open_to_damping(s),
        drives_volume(s),
        duck.is_idle(),
        in_unit(duck.gain),
        !base_or_unity(s.base_volume).resolve(category_volume).is_nan(),
    ensures
        follows_config(s),
        ({
            let r = damped(s, category_volume, SoundDamping::none(), duck);
            let level = base_or_unity(s.base_volume).resolve(category_volume);
            &&& r.effects is Some && (r.effects->0).volume is Some
            &&& ((r.effects->0).volume->0).same(Volume::Linear(level))
            &&& (retuned(s, category_volume).effects->0).volume == Some(Volume::Linear(level))
            &&& (r.effects->0).cutoff_hz matches Some(cutoff) ==> cutoff.equals(
                Single { bits: OPEN_CUTOFF_HZ },
            )
            &&& r.settings is Some && s.base_pitch is Some && !(s.base_pitch->0).0.is_nan()
                ==> (r.settings->0).speed.equals((s.base_pitch->0).0)
        }),
{
    lemma_one();
    let level = base_or_unity(s.base_volume).resolve(category_volume);
    assert(duck.gain == Single::one());
    lemma_times_one(level);
    if s.base_pitch is Some && !(s.base_pitch->0).0.is_nan() {
        lemma_times_one((s.base_pitch->0).0);
    }
}

/// What is silent stays silent: a sound faded out for good has a node at zero
/// after every write, whatever the category volume, the damping and the duck,
/// as long as they are finite and not negative.
pub proof fn silence_survives_every_write<C>(
    s: Sound<C>,
    category_volume: Single,
    damping: SoundDamping,
    duck: DuckingEnvelope,
)
    requires
        follows_config(s),
        s.base_volume == Some(BaseVolume::silent()),
        category_volume.is_finite() && !category_volume.is_negative(),
        damping.volume.is_finite() && !damping.volume.is_negative(),
        duck.gain.is_finite() && !duck.gain.is_negative(),
    ensures
        (retuned(s, category_volume).effects->0).volume == Some(Volume::silent()),
        drives_volume(s) ==> ((damped(
            s,
            category_volume,
            damping,
            duck,
        ).effects->0).volume->0).same(Volume::silent()),
{
    lemma_one();
    lemma_times_zero(category_volume);
    lemma_times_zero(damping.volume);
    lemma_times_zero(duck.gain_for(s.ducks));
}

} // verus!
