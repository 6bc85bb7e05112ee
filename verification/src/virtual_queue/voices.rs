//! Ranking the entries of the queue, and carrying the decisions out.

use crate::baseline::sanitize_weight;
use crate::counting::{count, lemma_count_bounded, lemma_count_same};
use crate::single::arith::product;
use crate::single::laws::{
    lemma_one, lemma_product_commutes, lemma_product_monotonic, lemma_product_negated,
    lemma_times_one,
};
use crate::single::Single;
use crate::sound::{Pool, Sound};
use crate::time::Duration;
use crate::traits::{has_volume, AudioCategory};
use crate::virtual_queue::lifecycle::{
    demote, demoted_sound, is_in_order, kept_up, out_of_the_running, promote, promoted_sound,
    released_sound, stopped_sound,
};
use crate::virtual_queue::ranking::{
    a_voice_is_lost_only_to_others, decision, no_more_voices_than_the_budget,
    no_slot_is_left_empty, promoted, promotions_leave_room_for_retiring_voices,
    rank_by_significance, the_more_significant_comes_first, voiced_after, SignificanceEntry,
    VoiceDecision,
};
use crate::virtual_queue::requests::{StopQueuedAudio, VirtualVoiceBudget};
use crate::virtual_queue::VirtualSound;
use vstd::prelude::*;

verus! {

/// Whether a sound is an entry that competes for voices: waiting or audible,
/// not retiring.
pub open spec fn eligible<C>(s: Sound<C>) -> bool {
    !s.despawned && s.queued is Some && !s.retiring
}

/// Whether an entry was requested under a parent that is gone.
pub open spec fn without_parent<C>(s: Sound<C>) -> bool {
    eligible(s) && (s.queued->0).parent is Some && s.orphaned
}

/// Whether an entry is ranked.
pub open spec fn ranked<C>(s: Sound<C>) -> bool {
    eligible(s) && !without_parent(s)
}

/// The entries that are ranked.
pub open spec fn ranked_entries<C>(sounds: Seq<Sound<C>>) -> spec_fn(int) -> bool {
    |i: int| ranked(sounds[i])
}

/// The entries whose voices are retiring.
pub open spec fn retiring_entries<C>(sounds: Seq<Sound<C>>) -> spec_fn(int) -> bool {
    |i: int| !sounds[i].despawned && sounds[i].retiring && sounds[i].queued is Some
}

/// The volume an entry would play at, at a category volume.
pub open spec fn target_volume<C>(entry: VirtualSound<C>, category_volume: Single) -> Single {
    sanitize_weight(product(category_volume, entry.base_volume))
}

/// How significant an entry is: the volume it would play at, times its
/// priority, times the margin if it is audible.
pub open spec fn significance<C>(s: Sound<C>, category_volume: Single, margin: Single) -> Single {
    let entry = s.queued->0;
    let bare = product(target_volume(entry, category_volume), entry.priority);
    if s.audible {
        product(bare, margin)
    } else {
        bare
    }
}

/// What is ranked of the first `n` sounds, at their category volumes.
pub open spec fn standings<C>(
    sounds: Seq<Sound<C>>,
    volumes: Seq<Single>,
    margin: Single,
    n: nat,
) -> Seq<SignificanceEntry>
    decreases n,
{
    if n == 0 {
        Seq::empty()
    } else {
        let before = standings(sounds, volumes, margin, (n - 1) as nat);
        let s = sounds[n - 1];
        if ranked(s) {
            before.push(
                SignificanceEntry {
                    entity: s.entity,
                    significance: significance(s, volumes[n - 1], margin),
                    audible: s.audible,
                },
            )
        } else {
            before
        }
    }
}

/// Where sound `i` stands among those that are ranked.
pub open spec fn standing<C>(sounds: Seq<Sound<C>>, i: int) -> int {
    count(i as nat, ranked_entries(sounds)) as int
}

/// What the ranking decides for sound `i`.
pub open spec fn decided<C: AudioCategory>(
    sounds: Seq<Sound<C>>,
    volumes: Seq<Single>,
    budget: VirtualVoiceBudget<C>,
    i: int,
) -> VoiceDecision {
    decision(
        standings(sounds, volumes, budget.displacement_margin.max(Single::one()), sounds.len()),
        budget.max_audible as nat,
        count(sounds.len(), retiring_entries(sounds)),
        standing(sounds, i),
    )
}

/// Whether a waiting entry has waited too long: a one-shot, longer than the
/// budget's limit.
pub open spec fn overdue<C: AudioCategory>(
    s: Sound<C>,
    budget: VirtualVoiceBudget<C>,
    now: Duration,
) -> bool {
    !s.audible && !(s.queued->0).looping && now.saturating_sub((s.queued->0).requested_at).nanos
        > budget.max_wait.nanos
}

/// Sound `i` after the ranking was carried out, with `pool` to promote it into.
pub open spec fn carried_out<C: AudioCategory>(
    sounds: Seq<Sound<C>>,
    volumes: Seq<Single>,
    budget: VirtualVoiceBudget<C>,
    now: Duration,
    pool: Pool,
    i: int,
) -> Sound<C> {
    let s = sounds[i];
    if without_parent(s) {
        Sound { despawned: true, ..s }
    } else if !ranked(s) {
        s
    } else {
        match decided(sounds, volumes, budget, i) {
            VoiceDecision::Promote => promoted_sound(
                s,
                target_volume(s.queued->0, volumes[i]),
                budget,
                pool,
            ),
            VoiceDecision::Demote => demoted_sound(s, (s.queued->0).looping, budget.crossfade),
            VoiceDecision::Hold => if overdue(s, budget, now) {
                Sound { despawned: true, ..s }
            } else {
                s
            },
        }
    }
}

/// Whether `volumes` are the category volumes of the ranked entries.
pub open spec fn are_category_volumes<C: AudioCategory>(
    sounds: Seq<Sound<C>>,
    config: C::Config,
    volumes: Seq<Single>,
) -> bool {
    volumes.len() == sounds.len() && forall|i: int|
        0 <= i < sounds.len() && ranked(#[trigger] sounds[i]) ==> has_volume(
            (sounds[i].queued->0).category,
            config,
            volumes[i],
        )
}

/// Whether `after` is what ranking makes of the sounds, at the given category
/// volumes.
pub open spec fn is_carried_out<C: AudioCategory, R: Fn(VirtualSound<C>) -> Pool>(
    before: Seq<Sound<C>>,
    volumes: Seq<Single>,
    budget: VirtualVoiceBudget<C>,
    route: R,
    now: Duration,
    after: Seq<Sound<C>>,
) -> bool {
    after.len() == before.len() && forall|i: int|
        0 <= i < before.len() ==> is_outcome(
            before,
            volumes,
            budget,
            route,
            now,
            i,
            #[trigger] after[i],
        )
}

/// Whether `after` is what ranking makes of sound `i`.
pub open spec fn is_outcome<C: AudioCategory, R: Fn(VirtualSound<C>) -> Pool>(
    before: Seq<Sound<C>>,
    volumes: Seq<Single>,
    budget: VirtualVoiceBudget<C>,
    route: R,
    now: Duration,
    i: int,
    after: Sound<C>,
) -> bool {
    if ranked(before[i]) && decided(before, volumes, budget, i) == VoiceDecision::Promote {
        exists|pool: Pool| #[trigger]
            call_ensures(route, (before[i].queued->0,), pool) && after == carried_out(
                before,
                volumes,
                budget,
                now,
                pool,
                i,
            )
    } else {
        after == carried_out(before, volumes, budget, now, Pool::Default, i)
    }
}

/// The standings hold one entry for each sound that is ranked, where it stands.
proof fn lemma_standings<C>(
    sounds: Seq<Sound<C>>,
    volumes: Seq<Single>,
    margin: Single,
    n: nat,
)
    requires
        n <= sounds.len(),
    ensures
        standings(sounds, volumes, margin, n).len() == count(n, ranked_entries(sounds)),
        forall|i: int|
            0 <= i < n && ranked(#[trigger] sounds[i]) ==> {
                &&& 0 <= standing(sounds, i) < count(n, ranked_entries(sounds))
                &&& standings(sounds, volumes, margin, n)[standing(sounds, i)] == (
                SignificanceEntry {
                    entity: sounds[i].entity,
                    significance: significance(sounds[i], volumes[i], margin),
                    audible: sounds[i].audible,
                })
            },
    decreases n,
{
    if n > 0 {
        let m: nat = (n - 1) as nat;
        lemma_standings(sounds, volumes, margin, m);
        assert(ranked_entries(sounds)(m as int) == ranked(sounds[m as int]));
        assert(standing(sounds, m as int) == count(m, ranked_entries(sounds)));
    }
}

fn count_retiring<C: Copy>(sounds: &Vec<Sound<C>>) -> (n: usize)
    ensures
        n == count(sounds@.len(), retiring_entries(sounds@)),
{
    let mut n: usize = 0;
    let mut i: usize = 0;
    while i < sounds.len()
        invariant
            n <= i <= sounds@.len(),
            n == count(i as nat, retiring_entries(sounds@)),
        decreases sounds@.len() - i,
    {
        let counts: bool = !sounds[i].despawned && sounds[i].retiring
            && sounds[i].queued.is_some();
        assert(retiring_entries(sounds@)(i as int) == counts);
        if counts {
            n = n + 1;
        }
        i = i + 1;
    }
    n
}

/// The entry of a sound that is ranked.
fn ranked_entry<C: Copy>(s: &Sound<C>) -> (r: Option<VirtualSound<C>>)
    ensures
        r is Some == ranked(*s),
        r is Some ==> r == s.queued,
{
    if s.despawned || s.retiring {
        return None;
    }
    match s.queued {
        Some(entry) => {
            if entry.parent.is_some() && s.orphaned {
                None
            } else {
                Some(entry)
            }
        },
        None => None,
    }
}

/// Ranks the entries of the queue by significance and carries the decisions
/// out: promotes and demotes, drops one-shots that waited too long, and drops
/// entries whose parent is gone, which must not play at the origin.
///
/// `route` picks the pool that a promoted entry goes into.
pub fn rank_virtual_voices<C: AudioCategory, R: Fn(VirtualSound<C>) -> Pool>(
    config: &C::Config,
    budget: &VirtualVoiceBudget<C>,
    route: &R,
    now: Duration,
    sounds: &mut Vec<Sound<C>>,
)
    requires
        forall|entry: VirtualSound<C>| #[trigger] call_requires(*route, (entry,)),
    ensures
        exists|volumes: Seq<Single>| #[trigger]
            are_category_volumes(old(sounds)@, *config, volumes) && is_carried_out(
                old(sounds)@,
                volumes,
                *budget,
                *route,
                now,
                final(sounds)@,
            ),
{
    let retiring: usize = count_retiring(sounds);
    let margin = budget.displacement_margin.max(Single::one());
    let ghost before = sounds@;
    let mut entries: Vec<SignificanceEntry> = Vec::new();
    let mut volumes: Vec<Single> = Vec::new();
    let mut i: usize = 0;
    while i < sounds.len()
        invariant
            sounds@ == before,
            i <= before.len(),
            volumes@.len() == i,
            forall|j: int|
                0 <= j < i && ranked(#[trigger] before[j]) ==> has_volume(
                    (before[j].queued->0).category,
                    *config,
                    volumes@[j],
                ),
            entries@ == standings(before, volumes@, margin, i as nat),
        decreases before.len() - i,
    {
        let s = sounds[i];
        let ghost earlier = volumes@;
        match ranked_entry(&s) {
            Some(entry) => {
                let volume: Single = entry.category.volume(config);
                assert(has_volume(entry.category, *config, volume));
                let target = sanitize_weight(volume.times(entry.base_volume));
                let bare = target.times(entry.priority);
                volumes.push(volume);
                entries.push(
                    SignificanceEntry {
                        entity: s.entity,
                        significance: if s.audible {
                            bare.times(margin)
                        } else {
                            bare
                        },
                        audible: s.audible,
                    },
                );
            },
            None => {
                volumes.push(Single::zero());
            },
        }
        proof {
            lemma_standings_prefix(before, earlier, volumes@, margin, i as nat);
        }
        i = i + 1;
    }
    let ghost all = volumes@;
    assert(are_category_volumes(before, *config, all));
    proof {
        lemma_standings(before, all, margin, before.len());
        lemma_count_bounded(before.len(), ranked_entries(before));
    }
    let decisions = rank_by_significance(entries.as_slice(), budget.max_audible, retiring);
    let mut k: usize = 0;
    let mut next: usize = 0;
    while k < sounds.len()
        invariant
            forall|entry: VirtualSound<C>| #[trigger] call_requires(*route, (entry,)),
            k <= sounds@.len() == before.len(),
            volumes@ == all,
            all.len() == before.len(),
            margin == budget.displacement_margin.max(Single::one()),
            retiring == count(before.len(), retiring_entries(before)),
            next <= k,
            next == count(k as nat, ranked_entries(before)),
            entries@ == standings(before, all, margin, before.len()),
            entries@.len() == count(before.len(), ranked_entries(before)),
            forall|j: int|
                0 <= j < before.len() && ranked(#[trigger] before[j]) ==> 0 <= standing(before, j)
                    < entries@.len(),
            decisions@.len() == entries@.len(),
            forall|j: int|
                0 <= j < entries@.len() ==> (#[trigger] decisions@[j]).1 == decision(
                    entries@,
                    budget.max_audible as nat,
                    retiring as nat,
                    j,
                ),
            forall|j: int|
                0 <= j < k ==> is_outcome(
                    before,
                    all,
                    *budget,
                    *route,
                    now,
                    j,
                    #[trigger] sounds@[j],
                ),
            forall|j: int| k <= j < before.len() ==> #[trigger] sounds@[j] == before[j],
        decreases before.len() - k,
    {
        let s = sounds[k];
        assert(s == before[k as int]);
        assert(ranked_entries(before)(k as int) == ranked(s));
        match ranked_entry(&s) {
            Some(entry) => {
                assert(standing(before, k as int) == next);
                let verdict: VoiceDecision = decisions[next].1;
                assert(verdict == decided(before, all, *budget, k as int));
                match verdict {
                    VoiceDecision::Promote => {
                        let target = sanitize_weight(volumes[k].times(entry.base_volume));
                        let pool: Pool = route(entry);
                        let r = promote(s, entry, target, budget, pool);
                        assert(call_ensures(*route, (before[k as int].queued->0,), pool));
                        sounds.set(k, r);
                    },
                    VoiceDecision::Demote => {
                        sounds.set(k, demote(s, entry.looping, budget.crossfade));
                    },
                    VoiceDecision::Hold => {
                        if !s.audible && !entry.looping && now.saturating_sub(
                            entry.requested_at,
                        ).nanos > budget.max_wait.nanos {
                            sounds.set(k, Sound { despawned: true, ..s });
                        }
                    },
                }
                next = next + 1;
            },
            None => {
                if let Some(entry) = s.queued {
                    if !s.despawned && !s.retiring && entry.parent.is_some() && s.orphaned {
                        sounds.set(k, Sound { despawned: true, ..s });
                    }
                }
            },
        }
        k = k + 1;
    }
}

/// The standings of the first sounds depend on their volumes only.
proof fn lemma_standings_prefix<C>(
    sounds: Seq<Sound<C>>,
    volumes: Seq<Single>,
    longer: Seq<Single>,
    margin: Single,
    n: nat,
)
    requires
        n <= volumes.len() <= longer.len(),
        forall|i: int| 0 <= i < n ==> #[trigger] longer[i] == volumes[i],
    ensures
        standings(sounds, longer, margin, n) == standings(sounds, volumes, margin, n),
    decreases n,
{
    if n > 0 {
        lemma_standings_prefix(sounds, volumes, longer, margin, (n - 1) as nat);
        assert(longer[n - 1] == volumes[n - 1]);
    }
}

/// Counting a property of standings over the sounds that hold them.
proof fn lemma_count_standings<C>(sounds: Seq<Sound<C>>, p: spec_fn(int) -> bool, n: nat)
    requires
        n <= sounds.len(),
    ensures
        count(n, |i: int| ranked(sounds[i]) && p(standing(sounds, i))) == count(
            count(n, ranked_entries(sounds)),
            p,
        ),
    decreases n,
{
    if n > 0 {
        let m: nat = (n - 1) as nat;
        lemma_count_standings(sounds, p, m);
        let held = |i: int| ranked(sounds[i]) && p(standing(sounds, i));
        assert(ranked_entries(sounds)(m as int) == ranked(sounds[m as int]));
        assert(held(m as int) == (ranked(sounds[m as int]) && p(standing(sounds, m as int))));
        assert(standing(sounds, m as int) == count(m, ranked_entries(sounds)));
    }
}

/// The sounds that hold a voice of the queue.
pub open spec fn holding_voices<C>(sounds: Seq<Sound<C>>) -> spec_fn(int) -> bool {
    |i: int| eligible(sounds[i]) && sounds[i].audible
}

/// The budget is never exceeded: after a ranking, no more than `max_audible`
/// entries of the queue hold a voice, however many did before.
pub proof fn the_budget_is_never_exceeded<C: AudioCategory, R: Fn(VirtualSound<C>) -> Pool>(
    before: Seq<Sound<C>>,
    volumes: Seq<Single>,
    budget: VirtualVoiceBudget<C>,
    route: R,
    now: Duration,
    after: Seq<Sound<C>>,
)
    requires
        volumes.len() == before.len(),
        is_carried_out(before, volumes, budget, route, now, after),
    ensures
        count(after.len(), holding_voices(after)) <= budget.max_audible,
{
    let n: nat = before.len();
    let margin = budget.displacement_margin.max(Single::one());
    let board = standings(before, volumes, margin, n);
    let retiring: nat = count(n, retiring_entries(before));
    let p = voiced_after(board, budget.max_audible as nat, retiring);
    let held = |i: int| ranked(before[i]) && p(standing(before, i));
    lemma_standings(before, volumes, margin, n);
    no_more_voices_than_the_budget(board, budget.max_audible as nat, retiring);
    lemma_count_standings(before, p, n);
    assert forall|i: int| 0 <= i < n implies #[trigger] holding_voices(after)(i) == held(i) by {
        assert(is_outcome(before, volumes, budget, route, now, i, after[i]));
        if ranked(before[i]) {
            let at: int = standing(before, i);
            assert(board[at].audible == before[i].audible);
        }
    }
    lemma_count_same(n, holding_voices(after), held);
}

/// A ranking keeps every entry in order: those it promotes carry their category,
/// and those it demotes keep it until their voices are gone.
pub proof fn rankings_keep_entries_in_order<C: AudioCategory, R: Fn(VirtualSound<C>) -> Pool>(
    before: Seq<Sound<C>>,
    volumes: Seq<Single>,
    budget: VirtualVoiceBudget<C>,
    route: R,
    now: Duration,
    after: Seq<Sound<C>>,
    i: int,
)
    requires
        volumes.len() == before.len(),
        is_carried_out(before, volumes, budget, route, now, after),
        0 <= i < before.len(),
        is_in_order(before[i]),
    ensures
        is_in_order(after[i]),
{
    assert(is_outcome(before, volumes, budget, route, now, i, after[i]));
    if ranked(before[i]) {
        let margin = budget.displacement_margin.max(Single::one());
        lemma_standings(before, volumes, margin, before.len());
    }
}

/// What is sanitized keeps the ranking a matter of numbers: the significance of
/// an entry whose weights are finite and not negative is a number, whatever the
/// category volume is, under a finite margin that is not below one.
pub proof fn significance_is_a_number<C>(s: Sound<C>, category_volume: Single, margin: Single)
    requires
        s.queued matches Some(entry) && entry.priority.is_finite()
            && !entry.priority.is_negative(),
        margin.is_finite() && Single::one().is_at_most(margin),
    ensures
        !significance(s, category_volume, margin).is_nan(),
{
    lemma_one();
    let entry = s.queued->0;
    let target = target_volume(entry, category_volume);
    let bare = product(target, entry.priority);
    lemma_product_negated(target, entry.priority);
    if bare.is_finite() {
        lemma_product_negated(bare, margin);
    }
}

/// Priority decides at equal volume: of two entries that would play equally loud,
/// both waiting or both audible, the one of the higher priority is never the less
/// significant one. They tie only where rounding leaves nothing between them, as
/// at no volume at all.
pub proof fn priority_decides_at_equal_volume<C>(
    first: Sound<C>,
    second: Sound<C>,
    first_category_volume: Single,
    second_category_volume: Single,
    margin: Single,
)
    requires
        first.queued is Some && second.queued is Some,
        first.audible == second.audible,
        target_volume(first.queued->0, first_category_volume) == target_volume(
            second.queued->0,
            second_category_volume,
        ),
        (first.queued->0).priority.is_finite() && !(first.queued->0).priority.is_negative(),
        (second.queued->0).priority.is_finite() && !(second.queued->0).priority.is_negative(),
        (second.queued->0).priority.is_at_most((first.queued->0).priority),
        margin.is_finite() && Single::one().is_at_most(margin),
    ensures
        significance(second, second_category_volume, margin).total_place() <= significance(
            first,
            first_category_volume,
            margin,
        ).total_place(),
{
    lemma_one();
    let target = target_volume(first.queued->0, first_category_volume);
    let more = product(target, (first.queued->0).priority);
    let less = product(target, (second.queued->0).priority);
    lemma_product_monotonic(target, (second.queued->0).priority, (first.queued->0).priority);
    lemma_product_commutes(less, margin);
    lemma_product_commutes(more, margin);
    lemma_product_monotonic(margin, less, more);
}

/// A loop that lost its voice competes again: once released it is ranked, as a
/// waiting entry, unless its parent is gone.
pub proof fn a_released_entry_is_ranked_again<C>(s: Sound<C>)
    requires
        s.queued is Some,
        !s.despawned,
        !s.orphaned,
    ensures
        ranked(released_sound(s)),
        !released_sound(s).audible,
{
}

/// Loops wait for ever: no ranking drops a looping entry whose parent is there.
pub proof fn loops_are_never_dropped<C: AudioCategory>(
    sounds: Seq<Sound<C>>,
    volumes: Seq<Single>,
    budget: VirtualVoiceBudget<C>,
    now: Duration,
    pool: Pool,
    i: int,
)
    requires
        0 <= i < sounds.len(),
        ranked(sounds[i]),
        (sounds[i].queued->0).looping,
    ensures
        !carried_out(sounds, volumes, budget, now, pool, i).despawned,
        carried_out(sounds, volumes, budget, now, pool, i).queued == sounds[i].queued,
{
}

/// Nothing gives an entry that is out of the running a voice: a ranking leaves it
/// alone, and neither a frame of upkeep nor a further stop brings it back.
pub proof fn nothing_brings_a_stopped_entry_back<C: AudioCategory>(
    sounds: Seq<Sound<C>>,
    volumes: Seq<Single>,
    budget: VirtualVoiceBudget<C>,
    now: Duration,
    pool: Pool,
    i: int,
    msg: StopQueuedAudio<C>,
    same: bool,
    delta: Duration,
)
    requires
        out_of_the_running(sounds[i]),
    ensures
        carried_out(sounds, volumes, budget, now, pool, i) == sounds[i],
        out_of_the_running(kept_up(sounds[i], delta)),
        out_of_the_running(stopped_sound(msg, sounds[i], same, budget.crossfade)),
{
}

/// What a ranking leaves of a sound. What is gone, retires or is no entry is left
/// alone, and an entry whose parent is gone goes with it. An audible entry is as it
/// was or retires. A waiting entry is given a voice or none; one that is not, if it
/// is a one-shot, is gone exactly if it was requested longer ago than the budget's
/// `max_wait`, and is as it was otherwise.
pub proof fn what_a_ranking_leaves<C: AudioCategory, R: Fn(VirtualSound<C>) -> Pool>(
    before: Seq<Sound<C>>,
    volumes: Seq<Single>,
    budget: VirtualVoiceBudget<C>,
    route: R,
    now: Duration,
    after: Seq<Sound<C>>,
    i: int,
)
    requires
        volumes.len() == before.len(),
        is_carried_out(before, volumes, budget, route, now, after),
        0 <= i < before.len(),
    ensures
        ({
            let s = before[i];
            let r = after[i];
            if s.despawned || s.retiring || s.queued is None {
                r == s
            } else {
                let entry = s.queued->0;
                if entry.parent is Some && s.orphaned {
                    r == (Sound { despawned: true, ..s })
                } else if s.audible {
                    r == s || r == demoted_sound(s, entry.looping, budget.crossfade)
                } else if r.audible {
                    exists|pool: Pool| #[trigger]
                        call_ensures(route, (entry,), pool) && r == promoted_sound(
                            s,
                            target_volume(entry, volumes[i]),
                            budget,
                            pool,
                        )
                } else if !entry.looping && now.nanos > entry.requested_at.nanos
                    + budget.max_wait.nanos {
                    r == (Sound { despawned: true, ..s })
                } else {
                    r == s
                }
            }
        }),
{
    assert(is_outcome(before, volumes, budget, route, now, i, after[i]));
    if ranked(before[i]) {
        let margin = budget.displacement_margin.max(Single::one());
        lemma_standings(before, volumes, margin, before.len());
        let board = standings(before, volumes, margin, before.len());
        let at: int = standing(before, i);
        a_voice_is_lost_only_to_others(
            board,
            budget.max_audible as nat,
            count(before.len(), retiring_entries(before)),
            at,
        );
        assert(board[at].audible == before[i].audible);
    }
}

/// How long voices fade has no say in who gets one or who waits: under budgets that
/// differ in nothing but the crossfade, a ranking decides the same, and what it
/// neither promotes nor demotes comes out the same.
pub proof fn the_crossfade_decides_nothing<C: AudioCategory>(
    sounds: Seq<Sound<C>>,
    volumes: Seq<Single>,
    budget: VirtualVoiceBudget<C>,
    crossfade: Duration,
    now: Duration,
    pool: Pool,
    i: int,
)
    requires
        0 <= i < sounds.len(),
        volumes.len() == sounds.len(),
    ensures
        ({
            let other = VirtualVoiceBudget { crossfade, ..budget };
            let a = carried_out(sounds, volumes, budget, now, pool, i);
            let b = carried_out(sounds, volumes, other, now, pool, i);
            &&& a.audible == b.audible && a.retiring == b.retiring && a.despawned == b.despawned
            &&& a.audible == sounds[i].audible ==> a == b
        }),
{
    let other = VirtualVoiceBudget { crossfade, ..budget };
    assert(decided(sounds, volumes, budget, i) == decided(sounds, volumes, other, i));
    if ranked(sounds[i]) {
        let margin = budget.displacement_margin.max(Single::one());
        lemma_standings(sounds, volumes, margin, sounds.len());
        let board = standings(sounds, volumes, margin, sounds.len());
        a_voice_is_lost_only_to_others(
            board,
            budget.max_audible as nat,
            count(sounds.len(), retiring_entries(sounds)),
            standing(sounds, i),
        );
        assert(board[standing(sounds, i)].audible == sounds[i].audible);
    }
}

/// The volume an entry would play at is its category's times its own; where that is
/// not finite, or negative, it is none.
pub proof fn an_entry_plays_at_the_product_of_its_volumes<C>(
    entry: VirtualSound<C>,
    category_volume: Single,
)
    ensures
        ({
            let level = product(category_volume, entry.base_volume);
            let r = target_volume(entry, category_volume);
            &&& level.is_finite() && !level.is_negative() ==> r == level
            &&& !level.is_finite() || level.is_negative() ==> r == Single::zero()
        }),
{
}

/// Each weight of an entry counts in its significance, and no other: a waiting
/// entry's is the volume it would play at times its priority, that volume alone at a
/// priority of one, and an audible entry's is what it would be waiting times the
/// margin.
pub proof fn every_weight_counts<C>(s: Sound<C>, category_volume: Single, margin: Single)
    requires
        s.queued is Some,
    ensures
        ({
            let entry = s.queued->0;
            let level = target_volume(entry, category_volume);
            let waiting = significance(Sound { audible: false, ..s }, category_volume, margin);
            &&& waiting == product(level, entry.priority)
            &&& entry.priority == Single::one() && !level.is_nan() ==> waiting == level
            &&& level == Single::one() && !entry.priority.is_nan() ==> waiting == entry.priority
            &&& significance(Sound { audible: true, ..s }, category_volume, margin) == product(
                waiting,
                margin,
            )
        }),
{
    let entry = s.queued->0;
    let level = target_volume(entry, category_volume);
    if !level.is_nan() {
        lemma_times_one(level);
    }
    if !entry.priority.is_nan() {
        lemma_times_one(entry.priority);
    }
}

/// Louder is more significant: of two entries of the same priority, both waiting or
/// both audible, the one that would play louder is never the less significant one.
pub proof fn volume_decides_at_equal_priority<C>(
    first: Sound<C>,
    second: Sound<C>,
    first_category_volume: Single,
    second_category_volume: Single,
    margin: Single,
)
    requires
        first.queued is Some && second.queued is Some,
        first.audible == second.audible,
        (first.queued->0).priority == (second.queued->0).priority,
        (first.queued->0).priority.is_finite() && !(first.queued->0).priority.is_negative(),
        target_volume(second.queued->0, second_category_volume).is_at_most(
            target_volume(first.queued->0, first_category_volume),
        ),
        margin.is_finite() && Single::one().is_at_most(margin),
    ensures
        significance(second, second_category_volume, margin).total_place() <= significance(
            first,
            first_category_volume,
            margin,
        ).total_place(),
{
    lemma_one();
    let priority = (first.queued->0).priority;
    let loud = target_volume(first.queued->0, first_category_volume);
    let quiet = target_volume(second.queued->0, second_category_volume);
    let more = product(loud, priority);
    let less = product(quiet, priority);
    lemma_product_commutes(loud, priority);
    lemma_product_commutes(quiet, priority);
    lemma_product_monotonic(priority, quiet, loud);
    lemma_product_commutes(less, margin);
    lemma_product_commutes(more, margin);
    lemma_product_monotonic(margin, less, more);
}

/// The more significant entry is never passed over: where a waiting entry is given a
/// voice, one that is more significant has one too, or is given one. Entries compete
/// at their significance under the budget's margin, or under none below one.
pub proof fn a_ranking_passes_over_nothing_more_significant<
    C: AudioCategory,
    R: Fn(VirtualSound<C>) -> Pool,
>(
    before: Seq<Sound<C>>,
    volumes: Seq<Single>,
    budget: VirtualVoiceBudget<C>,
    route: R,
    now: Duration,
    after: Seq<Sound<C>>,
    i: int,
    j: int,
)
    requires
        volumes.len() == before.len(),
        is_carried_out(before, volumes, budget, route, now, after),
        0 <= i < before.len(),
        0 <= j < before.len(),
        competes(before[i]),
        competes(before[j]),
        ({
            let margin = budget.displacement_margin.max(Single::one());
            significance(before[i], volumes[i], margin).total_place() > significance(
                before[j],
                volumes[j],
                margin,
            ).total_place()
        }),
        !before[j].audible && after[j].audible,
    ensures
        after[i].audible,
{
    let margin = budget.displacement_margin.max(Single::one());
    let n: nat = before.len();
    let board = standings(before, volumes, margin, n);
    let retiring: nat = count(n, retiring_entries(before));
    lemma_standings(before, volumes, margin, n);
    assert(ranked(before[i]) && ranked(before[j]));
    let a: int = standing(before, i);
    let b: int = standing(before, j);
    assert(board[a].significance == significance(before[i], volumes[i], margin));
    assert(board[b].significance == significance(before[j], volumes[j], margin));
    the_more_significant_comes_first(board, budget.max_audible as nat, retiring, a, b);
    assert(is_outcome(before, volumes, budget, route, now, i, after[i]));
    assert(is_outcome(before, volumes, budget, route, now, j, after[j]));
}

/// Whether an entry competes for a voice: it is there, does not retire, and its
/// parent, if it has one, is there too.
pub open spec fn competes<C>(s: Sound<C>) -> bool {
    !s.despawned && !s.retiring && (s.queued matches Some(entry) && (entry.parent is None
        || !s.orphaned))
}

/// Retiring voices keep their slots: where a ranking gives any entry a voice, the
/// entries that hold one afterwards and the voices that were retiring stay within
/// the budget. And no slot is left empty: where an entry that competes is left
/// without a voice, they fill it.
pub proof fn slots_are_filled_but_not_overfilled<
    C: AudioCategory,
    R: Fn(VirtualSound<C>) -> Pool,
>(
    before: Seq<Sound<C>>,
    volumes: Seq<Single>,
    budget: VirtualVoiceBudget<C>,
    route: R,
    now: Duration,
    after: Seq<Sound<C>>,
    i: int,
)
    requires
        volumes.len() == before.len(),
        is_carried_out(before, volumes, budget, route, now, after),
        0 <= i < before.len(),
        competes(before[i]),
        !before[i].audible,
    ensures
        ({
            let n = before.len();
            let holding = |k: int|
                !after[k].despawned && after[k].queued is Some && !after[k].retiring
                    && after[k].audible;
            let fading = |k: int|
                !before[k].despawned && before[k].queued is Some && before[k].retiring;
            &&& after[i].audible ==> count(n, holding) + count(n, fading) <= budget.max_audible
            &&& !after[i].audible ==> count(n, holding) + count(n, fading) >= budget.max_audible
        }),
{
    let n: nat = before.len();
    let margin = budget.displacement_margin.max(Single::one());
    let max: nat = budget.max_audible as nat;
    let board = standings(before, volumes, margin, n);
    let retiring: nat = count(n, retiring_entries(before));
    let holding = |k: int|
        !after[k].despawned && after[k].queued is Some && !after[k].retiring && after[k].audible;
    let fading = |k: int|
        !before[k].despawned && before[k].queued is Some && before[k].retiring;
    let p = voiced_after(board, max, retiring);
    let held = |k: int| ranked(before[k]) && p(standing(before, k));
    lemma_standings(before, volumes, margin, n);
    lemma_count_standings(before, p, n);
    assert forall|k: int| 0 <= k < n implies #[trigger] fading(k) == retiring_entries(before)(
        k,
    ) by {}
    lemma_count_same(n, fading, retiring_entries(before));
    assert forall|k: int| 0 <= k < n implies #[trigger] holding(k) == held(k) by {
        assert(is_outcome(before, volumes, budget, route, now, k, after[k]));
        if ranked(before[k]) {
            assert(board[standing(before, k)].audible == before[k].audible);
        }
    }
    lemma_count_same(n, holding, held);
    assert(is_outcome(before, volumes, budget, route, now, i, after[i]));
    let at: int = standing(before, i);
    assert(ranked(before[i]));
    assert(!board[at].audible);
    a_voice_is_lost_only_to_others(board, max, retiring, at);
    if after[i].audible {
        lemma_some_promoted(board, max, retiring, at);
        promotions_leave_room_for_retiring_voices(board, max, retiring);
    } else {
        no_slot_is_left_empty(board, max, retiring, at);
        let left = |j: int|
            {
                let decided = decision(board, max, retiring, j);
                decided == VoiceDecision::Promote || (board[j].audible && decided
                    == VoiceDecision::Hold)
            };
        assert forall|j: int| 0 <= j < board.len() implies #[trigger] left(j) == p(j) by {}
        lemma_count_same(board.len(), left, p);
    }
}

/// Where an entry is promoted, some are.
proof fn lemma_some_promoted(
    entries: Seq<SignificanceEntry>,
    max_audible: nat,
    retiring: nat,
    i: int,
)
    requires
        0 <= i < entries.len(),
        decision(entries, max_audible, retiring, i) == VoiceDecision::Promote,
    ensures
        count(entries.len(), promoted(entries, max_audible, retiring)) > 0,
{
    let p = promoted(entries, max_audible, retiring);
    assert(p(i));
    lemma_count_positive(entries.len(), p, i);
}

/// Where one index counts, the count is positive.
proof fn lemma_count_positive(n: nat, p: spec_fn(int) -> bool, i: int)
    requires
        0 <= i < n,
        p(i),
    ensures
        count(n, p) > 0,
    decreases n,
{
    if i < n - 1 {
        lemma_count_positive((n - 1) as nat, p, i);
    }
}

/// A voice is never taken for less: where an audible entry loses its voice, nothing
/// less significant that competes holds one afterwards.
pub proof fn a_voice_is_never_taken_for_less<C: AudioCategory, R: Fn(VirtualSound<C>) -> Pool>(
    before: Seq<Sound<C>>,
    volumes: Seq<Single>,
    budget: VirtualVoiceBudget<C>,
    route: R,
    now: Duration,
    after: Seq<Sound<C>>,
    i: int,
    j: int,
)
    requires
        volumes.len() == before.len(),
        is_carried_out(before, volumes, budget, route, now, after),
        0 <= i < before.len(),
        0 <= j < before.len(),
        competes(before[i]),
        competes(before[j]),
        ({
            let margin = budget.displacement_margin.max(Single::one());
            significance(before[i], volumes[i], margin).total_place() > significance(
                before[j],
                volumes[j],
                margin,
            ).total_place()
        }),
        before[i].audible && !after[i].audible,
    ensures
        !after[j].audible,
{
    let margin = budget.displacement_margin.max(Single::one());
    let n: nat = before.len();
    let board = standings(before, volumes, margin, n);
    let retiring: nat = count(n, retiring_entries(before));
    lemma_standings(before, volumes, margin, n);
    assert(ranked(before[i]) && ranked(before[j]));
    let a: int = standing(before, i);
    let b: int = standing(before, j);
    assert(board[a].significance == significance(before[i], volumes[i], margin));
    assert(board[b].significance == significance(before[j], volumes[j], margin));
    assert(board[b].audible == before[j].audible);
    the_more_significant_comes_first(board, budget.max_audible as nat, retiring, a, b);
    assert(is_outcome(before, volumes, budget, route, now, i, after[i]));
    assert(is_outcome(before, volumes, budget, route, now, j, after[j]));
}

} // verus!
