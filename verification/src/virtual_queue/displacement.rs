//! Whether a newcomer outranks the weakest voice it may displace.

use crate::single::arith::product;
use crate::single::laws::{lemma_one, lemma_times_one};
use crate::single::Single;
use core::cmp::Ordering;
use vstd::laws_cmp::obeys_cmp;
use vstd::laws_cmp::{obeys_cmp_ord, obeys_cmp_partial_ord, obeys_partial_cmp_spec_properties};
use vstd::laws_eq::obeys_eq_spec_properties;
use vstd::prelude::*;
use vstd::std_specs::cmp::{OrdSpec, PartialOrdSpec};

verus! {

/// The bits of the default displacement margin, 1.25 (about two decibels): a
/// newcomer must be this factor more significant than an audible voice to
/// displace it.
pub const DEFAULT_DISPLACEMENT_MARGIN: u32 = 0x3fa0_0000;

/// One audible voice as a candidate for [`displacement_target`].
///
/// `tier` is a hard priority layer above significance: a higher-tier newcomer
/// displaces a lower-tier voice however the significances compare, and a
/// lower-tier newcomer never displaces a higher-tier voice, however loud. The
/// default `()` puts every candidate in the same tier.
#[derive(Clone, Copy, Debug)]
pub struct DisplacementCandidate<T = ()> {
    /// The voice's entity, returned when it is the displacement target.
    pub entity: u64,
    /// The voice's audible significance: its volume times its priority weight.
    pub significance: Single,
    /// The voice's hard priority tier; the higher one wins.
    pub tier: T,
}

impl DisplacementCandidate {
    /// A candidate with no tier: displacement resolves on significance and
    /// margin alone.
    pub fn new(entity: u64, significance: Single) -> (r: DisplacementCandidate)
        ensures
            r == (DisplacementCandidate { entity, significance, tier: () }),
    {
        DisplacementCandidate { entity, significance, tier: () }
    }
}

impl<T> DisplacementCandidate<T> {
    /// Places the candidate in a hard priority tier.
    pub fn with_tier<U: Ord>(self, tier: U) -> (r: DisplacementCandidate<U>)
        ensures
            r == (DisplacementCandidate {
                entity: self.entity,
                significance: self.significance,
                tier,
            }),
    {
        DisplacementCandidate { entity: self.entity, significance: self.significance, tier }
    }
}

/// How one tier stands to another.
#[derive(Clone, Copy, Debug, PartialEq, Eq, Structural)]
pub enum TierOrder {
    Lower,
    Same,
    Higher,
}

/// Whether `order` is what comparing two tiers answers.
pub open spec fn says_order<T: Ord>(a: T, b: T, order: TierOrder) -> bool {
    match order {
        TierOrder::Lower => call_ensures(T::cmp, (&a, &b), Ordering::Less),
        TierOrder::Same => call_ensures(T::cmp, (&a, &b), Ordering::Equal),
        TierOrder::Higher => call_ensures(T::cmp, (&a, &b), Ordering::Greater),
    }
}

/// Whether the tiers are known to be in a total order, with nothing but that
/// order to be answered by comparing them.
pub open spec fn tiers_are_ordered<T: Ord>() -> bool {
    obeys_cmp::<T>()
}

/// How one tier stands to another in a known order.
pub open spec fn tier_order<T: Ord>(a: T, b: T) -> TierOrder {
    match a.cmp_spec(&b) {
        Ordering::Less => TierOrder::Lower,
        Ordering::Equal => TierOrder::Same,
        Ordering::Greater => TierOrder::Higher,
    }
}

/// Compares two tiers.
fn compare_tiers<T: Ord>(a: &T, b: &T) -> (order: TierOrder)
    ensures
        says_order(*a, *b, order),
        tiers_are_ordered::<T>() ==> order == tier_order(*a, *b),
{
    proof {
        reveal(obeys_cmp_ord);
    }
    match a.cmp(b) {
        Ordering::Less => TierOrder::Lower,
        Ordering::Equal => TierOrder::Same,
        Ordering::Greater => TierOrder::Higher,
    }
}

/// Whether a candidate gives way to another as the weakest, where `order` is how
/// its tier stands to the other's: it is in a higher tier, or in the same one and
/// more significant.
pub open spec fn gives_way(order: TierOrder, significance: Single, other: Single) -> bool {
    match order {
        TierOrder::Higher => true,
        TierOrder::Same => other.total_place() < significance.total_place(),
        TierOrder::Lower => false,
    }
}

/// The weakest of the first `n` candidates, where `orders` tells of each how the
/// tier of the weakest before it stands to its own.
pub open spec fn weakest_of<T>(
    candidates: Seq<DisplacementCandidate<T>>,
    orders: Seq<TierOrder>,
    n: int,
) -> int
    decreases n,
{
    if n <= 1 {
        0
    } else {
        let w = weakest_of(candidates, orders, n - 1);
        if gives_way(orders[n - 1], candidates[w].significance, candidates[n - 1].significance) {
            n - 1
        } else {
            w
        }
    }
}

/// Whether `orders` tells of each candidate how the tier of the weakest before it
/// stands to its own.
pub open spec fn tiers_compared<T: Ord>(
    candidates: Seq<DisplacementCandidate<T>>,
    orders: Seq<TierOrder>,
) -> bool {
    orders.len() == candidates.len() && forall|i: int|
        1 <= i < candidates.len() ==> says_order(
            candidates[weakest_of(candidates, orders, i)].tier,
            candidates[i].tier,
            #[trigger] orders[i],
        )
}

/// Whether `a` is strictly weaker than `b`, in a known order of tiers: in a lower
/// tier, or in the same one and less significant.
pub open spec fn weaker<T: Ord>(a: DisplacementCandidate<T>, b: DisplacementCandidate<T>) -> bool {
    gives_way(tier_order(b.tier, a.tier), b.significance, a.significance)
}

/// Whether candidate `w` is the weakest one, and the earliest of those that
/// are equally weak.
pub open spec fn is_weakest<T: Ord>(candidates: Seq<DisplacementCandidate<T>>, w: int) -> bool {
    &&& 0 <= w < candidates.len()
    &&& forall|j: int|
        0 <= j < candidates.len() ==> !#[trigger] weaker(candidates[j], candidates[w])
    &&& forall|j: int| 0 <= j < w ==> #[trigger] weaker(candidates[w], candidates[j])
}

/// A margin that is finite and at least one stands; every other is one.
pub open spec fn spec_sanitized_margin(margin: Single) -> Single {
    if margin.is_finite() {
        margin.max(Single::one())
    } else {
        Single::one()
    }
}

/// Whether a newcomer displaces a voice of `weakest` significance, where `order`
/// is how its tier stands to the voice's: it is in a higher tier, or in the same
/// one and its significance exceeds the other's times the margin.
pub open spec fn displaces(
    order: TierOrder,
    significance: Single,
    margin: Single,
    weakest: Single,
) -> bool {
    match order {
        TierOrder::Higher => true,
        TierOrder::Same => product(weakest, spec_sanitized_margin(margin)).is_less(significance),
        TierOrder::Lower => false,
    }
}

/// A margin that is finite and at least one stands; every other is one.
#[verifier::when_used_as_spec(spec_sanitized_margin)]
pub fn sanitized_margin(margin: Single) -> (r: Single)
    ensures
        r == sanitized_margin(margin),
{
    if margin.is_finite() {
        margin.max(Single::one())
    } else {
        Single::one()
    }
}

/// Being weaker is transitive, and carries over between candidates that are
/// equally weak.
proof fn lemma_weaker<T: Ord>(
    a: DisplacementCandidate<T>,
    b: DisplacementCandidate<T>,
    c: DisplacementCandidate<T>,
)
    requires
        tiers_are_ordered::<T>(),
    ensures
        !weaker(a, a),
        weaker(a, b) ==> !weaker(b, a),
        weaker(a, b) && !weaker(c, b) ==> weaker(a, c),
        weaker(a, b) && weaker(b, c) ==> weaker(a, c),
        !weaker(b, a) && !weaker(c, b) ==> !weaker(c, a),
{
    reveal(obeys_eq_spec_properties);
    reveal(obeys_partial_cmp_spec_properties);
    reveal(obeys_cmp_partial_ord);
    reveal(obeys_cmp_ord);
    let x: T = a.tier;
    let y: T = b.tier;
    let z: T = c.tier;
    assert(x.partial_cmp_spec(&x) == Some(x.cmp_spec(&x)));
    assert(x.partial_cmp_spec(&y) == Some(x.cmp_spec(&y)));
    assert(y.partial_cmp_spec(&x) == Some(y.cmp_spec(&x)));
    assert(y.partial_cmp_spec(&z) == Some(y.cmp_spec(&z)));
    assert(z.partial_cmp_spec(&y) == Some(z.cmp_spec(&y)));
    assert(x.partial_cmp_spec(&z) == Some(x.cmp_spec(&z)));
    assert(z.partial_cmp_spec(&x) == Some(z.cmp_spec(&x)));
}

/// Whether a candidate gives way to another as the weakest.
fn yields(order: TierOrder, significance: Single, other: Single) -> (r: bool)
    ensures
        r == gives_way(order, significance, other),
{
    match order {
        TierOrder::Higher => true,
        TierOrder::Same => other.total_place() < significance.total_place(),
        TierOrder::Lower => false,
    }
}

/// Whether a newcomer displaces a voice of `weakest` significance.
fn newcomer_displaces(order: TierOrder, significance: Single, margin: Single, weakest: Single) -> (r:
    bool)
    ensures
        r == displaces(order, significance, margin, weakest),
{
    match order {
        TierOrder::Higher => true,
        TierOrder::Same => weakest.times(sanitized_margin(margin)).is_less(significance),
        TierOrder::Lower => false,
    }
}

/// What is displaced, where the weakest candidate is number `w`, and `order` is how
/// the newcomer's tier stands to its.
pub open spec fn target<T>(
    candidates: Seq<DisplacementCandidate<T>>,
    w: int,
    order: TierOrder,
    significance: Single,
    margin: Single,
) -> Option<u64> {
    if displaces(order, significance, margin, candidates[w].significance) {
        Some(candidates[w].entity)
    } else {
        None
    }
}

/// Whether `r` is what is displaced by a newcomer, by what comparing its tier and
/// those of the candidates answers.
pub open spec fn is_target<T: Ord>(
    candidates: Seq<DisplacementCandidate<T>>,
    tier: T,
    significance: Single,
    margin: Single,
    r: Option<u64>,
) -> bool {
    exists|orders: Seq<TierOrder>, order: TierOrder|
        {
            &&& #[trigger] tiers_compared(candidates, orders)
            &&& says_order(
                tier,
                candidates[weakest_of(candidates, orders, candidates.len() as int)].tier,
                order,
            )
            &&& r == #[trigger] target(
                candidates,
                weakest_of(candidates, orders, candidates.len() as int),
                order,
                significance,
                margin,
            )
        }
}

/// Answers whether a newcomer outranks the weakest voice it may displace.
///
/// The weakest candidate is the minimum by tier first and significance within
/// the tier, the earliest where several are equally weak. The newcomer
/// displaces it when its tier is strictly higher, or when the tiers are equal
/// and its significance exceeds the incumbent's times `margin`. A margin that
/// is not finite, or below one, counts as one.
///
/// Returns the entity to displace, or `None` when the newcomer should not
/// play, or when there is no candidate: no live voices means a free slot, not
/// a displacement.
pub fn displacement_target<T: Ord>(
    candidates: &[DisplacementCandidate<T>],
    newcomer_tier: &T,
    newcomer_significance: Single,
    margin: Single,
) -> (r: Option<u64>)
    ensures
        candidates@.len() == 0 ==> r is None,
        candidates@.len() > 0 ==> is_target(
            candidates@,
            *newcomer_tier,
            newcomer_significance,
            margin,
            r,
        ),
        tiers_are_ordered::<T>() && candidates@.len() > 0 ==> exists|w: int|
            #[trigger] is_weakest(candidates@, w),
        tiers_are_ordered::<T>() ==> forall|w: int| #[trigger]
            is_weakest(candidates@, w) ==> r == target(
                candidates@,
                w,
                tier_order(*newcomer_tier, candidates@[w].tier),
                newcomer_significance,
                margin,
            ),
{
    if candidates.len() == 0 {
        return None;
    }
    let mut w: usize = 0;
    let mut i: usize = 1;
    let ghost mut orders: Seq<TierOrder> = seq![TierOrder::Same];
    proof {
        if tiers_are_ordered::<T>() {
            lemma_weaker(candidates@[0], candidates@[0], candidates@[0]);
        }
    }
    while i < candidates.len()
        invariant
            w < i <= candidates@.len(),
            orders.len() == i,
            w == weakest_of(candidates@, orders, i as int),
            tiers_compared(candidates@.take(i as int), orders),
            tiers_are_ordered::<T>() ==> is_weakest(candidates@.take(i as int), w as int),
        decreases candidates@.len() - i,
    {
        let order = compare_tiers(&candidates[w].tier, &candidates[i].tier);
        let gone: bool = yields(order, candidates[w].significance, candidates[i].significance);
        proof {
            if tiers_are_ordered::<T>() {
                if gone {
                    lemma_newly_weakest(candidates@, w as int, i as int);
                } else {
                    lemma_still_weakest(candidates@, w as int, i as int);
                }
            }
            lemma_compared_further(candidates@, orders, i as int, order);
            orders = orders.push(order);
        }
        if gone {
            w = i;
        }
        i = i + 1;
    }
    assert(candidates@.take(i as int) =~= candidates@);
    proof {
        if tiers_are_ordered::<T>() {
            assert forall|v: int| #[trigger] is_weakest(candidates@, v) implies v == w by {
                lemma_one_weakest(candidates@, v, w as int);
            }
        }
    }
    let order = compare_tiers(newcomer_tier, &candidates[w].tier);
    let r: Option<u64> = if newcomer_displaces(
        order,
        newcomer_significance,
        margin,
        candidates[w].significance,
    ) {
        Some(candidates[w].entity)
    } else {
        None
    };
    assert(tiers_compared(candidates@, orders) && r == target(
        candidates@,
        weakest_of(candidates@, orders, candidates@.len() as int),
        order,
        newcomer_significance,
        margin,
    ));
    r
}

/// Which of the first candidates is the weakest depends on nothing that comes
/// after them.
proof fn lemma_weakest_of_first<T>(
    candidates: Seq<DisplacementCandidate<T>>,
    orders: Seq<TierOrder>,
    more: Seq<DisplacementCandidate<T>>,
    more_orders: Seq<TierOrder>,
    n: int,
)
    requires
        n <= candidates.len() <= more.len(),
        n <= orders.len() <= more_orders.len(),
        forall|j: int| 0 <= j < n ==> #[trigger] more[j] == candidates[j],
        forall|j: int| 0 <= j < n ==> #[trigger] more_orders[j] == orders[j],
    ensures
        weakest_of(more, more_orders, n) == weakest_of(candidates, orders, n),
        n > 0 ==> 0 <= weakest_of(candidates, orders, n) < n,
    decreases n,
{
    if n > 1 {
        lemma_weakest_of_first(candidates, orders, more, more_orders, n - 1);
        assert(more[n - 1] == candidates[n - 1]);
        assert(more_orders[n - 1] == orders[n - 1]);
        let w: int = weakest_of(candidates, orders, n - 1);
        assert(more[w] == candidates[w]);
    }
}

/// Comparing one candidate more.
proof fn lemma_compared_further<T: Ord>(
    candidates: Seq<DisplacementCandidate<T>>,
    orders: Seq<TierOrder>,
    i: int,
    order: TierOrder,
)
    requires
        1 <= i < candidates.len(),
        orders.len() == i,
        tiers_compared(candidates.take(i), orders),
        says_order(candidates[weakest_of(candidates, orders, i)].tier, candidates[i].tier, order),
    ensures
        tiers_compared(candidates.take(i + 1), orders.push(order)),
        weakest_of(candidates, orders.push(order), i) == weakest_of(candidates, orders, i),
{
    let now = candidates.take(i + 1);
    let told = orders.push(order);
    lemma_weakest_of_first(candidates, orders, candidates, told, i);
    assert forall|j: int| 1 <= j < now.len() implies says_order(
        now[weakest_of(now, told, j)].tier,
        now[j].tier,
        #[trigger] told[j],
    ) by {
        lemma_weakest_of_first(candidates.take(i), orders, now, told, if j < i {
            j
        } else {
            i
        });
        lemma_weakest_of_first(candidates.take(i), orders, candidates, orders, i);
        if j < i {
            assert(says_order(
                candidates.take(i)[weakest_of(candidates.take(i), orders, j)].tier,
                candidates.take(i)[j].tier,
                orders[j],
            ));
        }
    }
}

/// A candidate weaker than the weakest one before it is the weakest so far.
proof fn lemma_newly_weakest<T: Ord>(candidates: Seq<DisplacementCandidate<T>>, w: int, i: int)
    requires
        tiers_are_ordered::<T>(),
        0 <= i < candidates.len(),
        is_weakest(candidates.take(i), w),
        weaker(candidates[i], candidates[w]),
    ensures
        is_weakest(candidates.take(i + 1), i),
{
    let before = candidates.take(i);
    let now = candidates.take(i + 1);
    assert forall|j: int| 0 <= j < now.len() implies !#[trigger] weaker(now[j], now[i]) by {
        lemma_weaker(candidates[i], candidates[w], candidates[j]);
        if j < i {
            assert(now[j] == before[j]);
            assert(!weaker(before[j], before[w]));
            lemma_weaker(candidates[i], candidates[j], candidates[j]);
        }
    }
    assert forall|j: int| 0 <= j < i implies #[trigger] weaker(now[i], now[j]) by {
        assert(now[j] == before[j]);
        assert(!weaker(before[j], before[w]));
        lemma_weaker(candidates[i], candidates[w], candidates[j]);
    }
}

/// A candidate no weaker than the weakest one before it leaves that one.
proof fn lemma_still_weakest<T: Ord>(candidates: Seq<DisplacementCandidate<T>>, w: int, i: int)
    requires
        tiers_are_ordered::<T>(),
        0 <= i < candidates.len(),
        is_weakest(candidates.take(i), w),
        !weaker(candidates[i], candidates[w]),
    ensures
        is_weakest(candidates.take(i + 1), w),
{
    let before = candidates.take(i);
    let now = candidates.take(i + 1);
    assert forall|j: int| 0 <= j < now.len() implies !#[trigger] weaker(now[j], now[w]) by {
        if j < i {
            assert(now[j] == before[j]);
            assert(!weaker(before[j], before[w]));
        }
    }
    assert forall|j: int| 0 <= j < w implies #[trigger] weaker(now[w], now[j]) by {
        assert(now[j] == before[j]);
        assert(weaker(before[w], before[j]));
    }
}

/// There is only one weakest candidate.
proof fn lemma_one_weakest<T: Ord>(candidates: Seq<DisplacementCandidate<T>>, v: int, w: int)
    requires
        is_weakest(candidates, v),
        is_weakest(candidates, w),
    ensures
        v == w,
{
    if v < w {
        assert(weaker(candidates[w], candidates[v]));
    } else if w < v {
        assert(weaker(candidates[v], candidates[w]));
    }
}

/// A newcomer of a lower tier than the weakest candidate displaces nothing,
/// however significant it is; one of a higher tier displaces it, however
/// insignificant.
pub proof fn tiers_are_a_hard_gate(significance: Single, margin: Single, weakest: Single)
    ensures
        !displaces(TierOrder::Lower, significance, margin, weakest),
        displaces(TierOrder::Higher, significance, margin, weakest),
{
}

/// Whoever cannot beat the weakest cannot beat any: in a known order of tiers, a
/// newcomer of a lower tier than the weakest candidate is of a lower tier than
/// every candidate.
pub proof fn below_the_weakest_is_below_all<T: Ord>(
    candidates: Seq<DisplacementCandidate<T>>,
    w: int,
    tier: T,
    i: int,
)
    requires
        tiers_are_ordered::<T>(),
        is_weakest(candidates, w),
        0 <= i < candidates.len(),
        tier_order(tier, candidates[w].tier) is Lower,
    ensures
        tier_order(tier, candidates[i].tier) is Lower,
{
    reveal(obeys_eq_spec_properties);
    reveal(obeys_partial_cmp_spec_properties);
    reveal(obeys_cmp_partial_ord);
    reveal(obeys_cmp_ord);
    assert(!weaker(candidates[i], candidates[w]));
    let x: T = tier;
    let y: T = candidates[w].tier;
    let z: T = candidates[i].tier;
    assert(x.partial_cmp_spec(&y) == Some(x.cmp_spec(&y)));
    assert(y.partial_cmp_spec(&x) == Some(y.cmp_spec(&x)));
    assert(y.partial_cmp_spec(&z) == Some(y.cmp_spec(&z)));
    assert(z.partial_cmp_spec(&y) == Some(z.cmp_spec(&y)));
    assert(x.partial_cmp_spec(&z) == Some(x.cmp_spec(&z)));
    assert(z.partial_cmp_spec(&x) == Some(z.cmp_spec(&x)));
}

/// A newcomer that is not more significant than an incumbent of its own tier,
/// times the margin, does not displace it.
pub proof fn the_incumbent_keeps_its_margin(significance: Single, margin: Single, weakest: Single)
    requires
        significance.is_at_most(product(weakest, sanitized_margin(margin))),
    ensures
        !displaces(TierOrder::Same, significance, margin, weakest),
{
}

/// A margin that is finite and at least one stands; below one, and where it is not
/// finite, there is none: it counts as one.
pub proof fn margins_never_favour_the_newcomer(margin: Single)
    ensures
        margin.is_finite() && Single::one().is_at_most(margin) ==> sanitized_margin(margin)
            == margin,
        !margin.is_finite() || margin.is_less(Single::one()) ==> sanitized_margin(margin)
            == Single::one(),
{
}

/// In its own tier, a newcomer displaces a voice exactly if it is more significant
/// than the voice times the margin; without a margin, exactly if it is more
/// significant.
pub proof fn a_newcomer_displaces_what_it_outweighs(
    significance: Single,
    margin: Single,
    weakest: Single,
)
    requires
        !weakest.is_nan(),
    ensures
        margin.is_finite() && Single::one().is_at_most(margin) ==> (displaces(
            TierOrder::Same,
            significance,
            margin,
            weakest,
        ) <==> product(weakest, margin).is_less(significance)),
        !margin.is_finite() || margin.is_at_most(Single::one()) ==> (displaces(
            TierOrder::Same,
            significance,
            margin,
            weakest,
        ) <==> weakest.is_less(significance)),
{
    lemma_one();
    lemma_times_one(weakest);
}

/// What is displaced is the weakest candidate or nothing.
pub proof fn only_the_weakest_is_displaced<T>(
    candidates: Seq<DisplacementCandidate<T>>,
    w: int,
    order: TierOrder,
    significance: Single,
    margin: Single,
)
    ensures
        ({
            let r = target(candidates, w, order, significance, margin);
            &&& order is Higher ==> r == Some(candidates[w].entity)
            &&& order is Lower ==> r is None
            &&& r is Some ==> r == Some(candidates[w].entity)
            &&& r is Some <==> displaces(order, significance, margin, candidates[w].significance)
        }),
{
}

/// Whether candidate `w` is no stronger than candidate `j`, where numbers stand for
/// their tiers: it is in a lower tier, or in the same one and no more significant;
/// and weaker, where `j` comes before it.
pub open spec fn no_stronger<T>(
    candidates: Seq<DisplacementCandidate<T>>,
    tiers: Seq<int>,
    w: int,
    j: int,
) -> bool {
    ||| tiers[w] < tiers[j]
    ||| tiers[w] == tiers[j] && candidates[w].significance.total_place()
        < candidates[j].significance.total_place()
    ||| tiers[w] == tiers[j] && candidates[w].significance.total_place()
        == candidates[j].significance.total_place() && w <= j
}

/// The weakest candidate is in the lowest tier, of those the least significant one,
/// and of those the earliest, whatever numbers stand for the tiers.
pub proof fn the_weakest_is_least_by_tier_then_significance<T>(
    candidates: Seq<DisplacementCandidate<T>>,
    orders: Seq<TierOrder>,
    tiers: Seq<int>,
    n: int,
)
    requires
        1 <= n <= candidates.len(),
        orders.len() >= n,
        tiers.len() >= n,
        forall|i: int|
            1 <= i < n ==> (#[trigger] orders[i]) == ({
                let held = tiers[weakest_of(candidates, orders, i)];
                if held > tiers[i] {
                    TierOrder::Higher
                } else if held == tiers[i] {
                    TierOrder::Same
                } else {
                    TierOrder::Lower
                }
            }),
    ensures
        ({
            let w = weakest_of(candidates, orders, n);
            &&& 0 <= w < n
            &&& forall|j: int| 0 <= j < n ==> #[trigger] no_stronger(candidates, tiers, w, j)
        }),
    decreases n,
{
    if n > 1 {
        the_weakest_is_least_by_tier_then_significance(candidates, orders, tiers, n - 1);
        let w: int = weakest_of(candidates, orders, n - 1);
        let last: int = n - 1;
        let v: int = weakest_of(candidates, orders, n);
        assert(orders[last] == orders[n - 1]);
        assert forall|j: int| 0 <= j < n implies #[trigger] no_stronger(
            candidates,
            tiers,
            v,
            j,
        ) by {
            if j < last {
                assert(no_stronger(candidates, tiers, w, j));
            }
        }
    }
}

/// In a known order of tiers, no candidate is in a lower tier than the weakest, none
/// of its own tier is less significant, and none of those before it is as little.
pub proof fn nothing_is_weaker_than_the_weakest<T: Ord>(
    candidates: Seq<DisplacementCandidate<T>>,
    w: int,
    j: int,
)
    requires
        is_weakest(candidates, w),
        0 <= j < candidates.len(),
    ensures
        ({
            let order = candidates[w].tier.cmp_spec(&candidates[j].tier);
            let here = candidates[w].significance.total_place();
            let there = candidates[j].significance.total_place();
            &&& order != Ordering::Greater
            &&& order == Ordering::Equal ==> here <= there
        }),
        j < w ==> ({
            let order = candidates[j].tier.cmp_spec(&candidates[w].tier);
            let here = candidates[w].significance.total_place();
            let there = candidates[j].significance.total_place();
            order == Ordering::Greater || (order == Ordering::Equal && here < there)
        }),
{
    assert(!weaker(candidates[j], candidates[w]));
    if j < w {
        assert(weaker(candidates[w], candidates[j]));
    }
}

/// How one tier stands to another is what comparing them answers.
pub proof fn tiers_stand_as_they_compare<T: Ord>(a: T, b: T)
    ensures
        says_order(a, b, TierOrder::Lower) <==> call_ensures(T::cmp, (&a, &b), Ordering::Less),
        says_order(a, b, TierOrder::Same) <==> call_ensures(T::cmp, (&a, &b), Ordering::Equal),
        says_order(a, b, TierOrder::Higher) <==> call_ensures(T::cmp, (&a, &b), Ordering::Greater),
        tier_order(a, b) is Lower <==> a.cmp_spec(&b) == Ordering::Less,
        tier_order(a, b) is Same <==> a.cmp_spec(&b) == Ordering::Equal,
{
}

} // verus!
