//! Which of a set of queue entries should hold a real voice.

use crate::counting::{
    count, lemma_count_bounded, lemma_count_disjoint, lemma_count_implies, lemma_count_same,
    lemma_count_without,
};
use crate::single::Single;
use vstd::prelude::*;

verus! {

/// One queue entry's ranking inputs, for [`rank_by_significance`].
#[derive(Clone, Copy, Debug)]
pub struct SignificanceEntry {
    pub entity: u64,
    pub significance: Single,
    pub audible: bool,
}

/// What [`rank_by_significance`] decided an entry should do.
#[derive(Clone, Copy, Debug, PartialEq, Eq, Structural)]
pub enum VoiceDecision {
    /// Give this virtual entry a real voice: it ranks among the audible set
    /// and does not have one yet.
    Promote,
    /// Take this entry's real voice away: it no longer ranks among the audible
    /// set but currently has one.
    Demote,
    /// No change: either already in the right state, or still waiting for a
    /// slot to open up.
    Hold,
}

/// Whether entry `j` ranks before entry `i`: it is more significant, or as
/// significant and earlier.
pub open spec fn ranks_before(entries: Seq<SignificanceEntry>, j: int, i: int) -> bool {
    let a = entries[j].significance.total_place();
    let b = entries[i].significance.total_place();
    a > b || (a == b && j < i)
}

/// The entries that rank before entry `i`.
pub open spec fn before(entries: Seq<SignificanceEntry>, i: int) -> spec_fn(int) -> bool {
    |j: int| ranks_before(entries, j, i)
}

/// How many entries rank before entry `i`.
pub open spec fn rank(entries: Seq<SignificanceEntry>, i: int) -> nat {
    count(entries.len(), before(entries, i))
}

/// Whether entry `i` belongs to the audible set: the `max_audible` entries
/// that rank first.
pub open spec fn in_set(entries: Seq<SignificanceEntry>, max_audible: nat, i: int) -> bool {
    rank(entries, i) < max_audible
}

/// The entries of the audible set.
pub open spec fn audible_set(entries: Seq<SignificanceEntry>, max_audible: nat) -> spec_fn(
    int,
) -> bool {
    |j: int| in_set(entries, max_audible, j)
}

/// The entries of the audible set that hold a voice already.
pub open spec fn voiced(entries: Seq<SignificanceEntry>, max_audible: nat) -> spec_fn(int) -> bool {
    |j: int| in_set(entries, max_audible, j) && entries[j].audible
}

/// The entries of the audible set that rank before entry `i` and hold no voice.
pub open spec fn waiting_before(
    entries: Seq<SignificanceEntry>,
    max_audible: nat,
    i: int,
) -> spec_fn(int) -> bool {
    |j: int|
        in_set(entries, max_audible, j) && !entries[j].audible && ranks_before(entries, j, i)
}

/// What entry `i` should do, with `retiring` voices fading out.
pub open spec fn decision(
    entries: Seq<SignificanceEntry>,
    max_audible: nat,
    retiring: nat,
    i: int,
) -> VoiceDecision {
    let n = entries.len();
    if in_set(entries, max_audible, i) {
        let in_flight = count(n, voiced(entries, max_audible)) + retiring + count(
            n,
            waiting_before(entries, max_audible, i),
        );
        if !entries[i].audible && in_flight < max_audible {
            VoiceDecision::Promote
        } else {
            VoiceDecision::Hold
        }
    } else if entries[i].audible {
        VoiceDecision::Demote
    } else {
        VoiceDecision::Hold
    }
}

/// How many entries rank before entry `i`.
fn rank_of(entries: &[SignificanceEntry], i: usize) -> (r: usize)
    requires
        i < entries@.len(),
    ensures
        r == rank(entries@, i as int),
{
    let place: i64 = entries[i].significance.total_place();
    let mut r: usize = 0;
    let mut j: usize = 0;
    while j < entries.len()
        invariant
            i < entries@.len(),
            place == entries@[i as int].significance.total_place(),
            j <= entries@.len(),
            r == count(j as nat, before(entries@, i as int)),
            r <= j,
        decreases entries@.len() - j,
    {
        let other: i64 = entries[j].significance.total_place();
        assert(before(entries@, i as int)(j as int) == (other > place || (other == place && j
            < i)));
        if other > place || (other == place && j < i) {
            r = r + 1;
        }
        j = j + 1;
    }
    r
}

/// How many entries of the audible set hold a voice already.
fn count_voiced(entries: &[SignificanceEntry], ranks: &Vec<usize>, max_audible: usize) -> (r: usize)
    requires
        ranks@.len() == entries@.len(),
        forall|j: int| 0 <= j < ranks@.len() ==> ranks@[j] == rank(entries@, j),
    ensures
        r == count(entries@.len(), voiced(entries@, max_audible as nat)),
{
    let mut r: usize = 0;
    let mut j: usize = 0;
    while j < entries.len()
        invariant
            ranks@.len() == entries@.len(),
            forall|k: int| 0 <= k < ranks@.len() ==> ranks@[k] == rank(entries@, k),
            j <= entries@.len(),
            r == count(j as nat, voiced(entries@, max_audible as nat)),
            r <= j,
        decreases entries@.len() - j,
    {
        assert(voiced(entries@, max_audible as nat)(j as int) == (ranks@[j as int] < max_audible
            && entries@[j as int].audible));
        if ranks[j] < max_audible && entries[j].audible {
            r = r + 1;
        }
        j = j + 1;
    }
    r
}

/// How many entries of the audible set rank before entry `i` and hold no voice.
fn count_waiting_before(
    entries: &[SignificanceEntry],
    ranks: &Vec<usize>,
    max_audible: usize,
    i: usize,
) -> (r: usize)
    requires
        i < entries@.len(),
        ranks@.len() == entries@.len(),
        forall|j: int| 0 <= j < ranks@.len() ==> ranks@[j] == rank(entries@, j),
    ensures
        r == count(entries@.len(), waiting_before(entries@, max_audible as nat, i as int)),
{
    let place: i64 = entries[i].significance.total_place();
    let mut r: usize = 0;
    let mut j: usize = 0;
    while j < entries.len()
        invariant
            i < entries@.len(),
            place == entries@[i as int].significance.total_place(),
            ranks@.len() == entries@.len(),
            forall|k: int| 0 <= k < ranks@.len() ==> ranks@[k] == rank(entries@, k),
            j <= entries@.len(),
            r == count(j as nat, waiting_before(entries@, max_audible as nat, i as int)),
            r <= j,
        decreases entries@.len() - j,
    {
        let other: i64 = entries[j].significance.total_place();
        let earlier: bool = other > place || (other == place && j < i);
        assert(waiting_before(entries@, max_audible as nat, i as int)(j as int) == (ranks@[j as int]
            < max_audible && !entries@[j as int].audible && earlier));
        if ranks[j] < max_audible && !entries[j].audible && earlier {
            r = r + 1;
        }
        j = j + 1;
    }
    r
}

/// Decides which entries should hold a real voice, for callers with their own
/// promotion target.
///
/// Entries are ranked by significance, the greatest first; equally significant
/// ones keep their input order. The first `max_audible` form the audible set:
///
/// - An audible entry in the set is held: it keeps its voice. Voices already
///   retiring never evict an audible hold.
/// - A virtual entry in the set is promoted, but only while the audible holds
///   in the set, the `retiring` voices and the promotions granted so far stay
///   under `max_audible`; otherwise it is held until retiring fades free their
///   slots.
/// - Below the set, audible entries are demoted and virtual entries held.
///
/// An entry demoted now does not count against promotions: its replacement
/// fades in while it fades out. Decisions come in input order, one per entry.
/// Significance is compared in the total order of all bit patterns, so what is
/// not a number ranks above every finite value.
pub fn rank_by_significance(
    entries: &[SignificanceEntry],
    max_audible: usize,
    retiring: usize,
) -> (r: Vec<(u64, VoiceDecision)>)
    ensures
        r@.len() == entries@.len(),
        forall|i: int|
            0 <= i < entries@.len() ==> #[trigger] r@[i] == (
                entries@[i].entity,
                decision(entries@, max_audible as nat, retiring as nat, i),
            ),
{
    let n: usize = entries.len();
    let mut ranks: Vec<usize> = Vec::new();
    let mut i: usize = 0;
    while i < n
        invariant
            n == entries@.len(),
            i <= n,
            ranks@.len() == i,
            forall|j: int| 0 <= j < i ==> ranks@[j] == rank(entries@, j),
        decreases n - i,
    {
        ranks.push(rank_of(entries, i));
        i = i + 1;
    }
    let held: usize = count_voiced(entries, &ranks, max_audible);
    // The slots that neither the audible holds nor the retiring voices take.
    let free: usize = if held >= max_audible || retiring >= max_audible - held {
        0
    } else {
        max_audible - held - retiring
    };
    let mut r: Vec<(u64, VoiceDecision)> = Vec::new();
    let mut k: usize = 0;
    while k < n
        invariant
            n == entries@.len(),
            k <= n,
            ranks@.len() == n,
            forall|j: int| 0 <= j < n ==> ranks@[j] == rank(entries@, j),
            held == count(n as nat, voiced(entries@, max_audible as nat)),
            held + retiring >= max_audible ==> free == 0,
            held + retiring < max_audible ==> free == max_audible - held - retiring,
            r@.len() == k,
            forall|j: int|
                0 <= j < k ==> #[trigger] r@[j] == (
                    entries@[j].entity,
                    decision(entries@, max_audible as nat, retiring as nat, j),
                ),
        decreases n - k,
    {
        let decided: VoiceDecision = if ranks[k] < max_audible {
            if !entries[k].audible && count_waiting_before(entries, &ranks, max_audible, k) < free {
                VoiceDecision::Promote
            } else {
                VoiceDecision::Hold
            }
        } else if entries[k].audible {
            VoiceDecision::Demote
        } else {
            VoiceDecision::Hold
        };
        r.push((entries[k].entity, decided));
        k = k + 1;
    }
    r
}

/// Of the first `n` positions that have the property `p`, where there is one,
/// some position ranks after all the others.
proof fn lemma_last_of(entries: Seq<SignificanceEntry>, n: nat, p: spec_fn(int) -> bool) -> (last:
    int)
    requires
        n <= entries.len(),
        count(n, p) > 0,
    ensures
        0 <= last < n,
        p(last),
        forall|j: int| 0 <= j < n && j != last && #[trigger] p(j) ==> ranks_before(entries, j, last),
    decreases n,
{
    let m: nat = (n - 1) as nat;
    if count(m, p) > 0 {
        let last: int = lemma_last_of(entries, m, p);
        if p(m as int) && ranks_before(entries, last, m as int) {
            m as int
        } else {
            last
        }
    } else {
        lemma_none_of(m, p);
        m as int
    }
}

proof fn lemma_none_of(n: nat, p: spec_fn(int) -> bool)
    requires
        count(n, p) == 0,
    ensures
        forall|j: int| 0 <= j < n ==> !#[trigger] p(j),
    decreases n,
{
    if n > 0 {
        lemma_none_of((n - 1) as nat, p);
    }
}

/// The audible set never holds more than `max_audible` entries.
pub proof fn audible_set_is_bounded(entries: Seq<SignificanceEntry>, max_audible: nat)
    ensures
        count(entries.len(), audible_set(entries, max_audible)) <= max_audible,
{
    let p = audible_set(entries, max_audible);
    let n: nat = entries.len();
    if count(n, p) > 0 {
        let last: int = lemma_last_of(entries, n, p);
        // Every other entry of the set ranks before the last one.
        lemma_count_without(n, p, before(entries, last), last);
        assert(rank(entries, last) < max_audible);
    }
}

/// The entries that hold a voice once every decision is carried out: the
/// audible ones that are held and the promoted ones.
pub open spec fn voiced_after(
    entries: Seq<SignificanceEntry>,
    max_audible: nat,
    retiring: nat,
) -> spec_fn(int) -> bool {
    |j: int|
        {
            let decided = decision(entries, max_audible, retiring, j);
            decided == VoiceDecision::Promote || (entries[j].audible && decided
                == VoiceDecision::Hold)
        }
}

/// The entries that the decisions promote.
pub open spec fn promoted(
    entries: Seq<SignificanceEntry>,
    max_audible: nat,
    retiring: nat,
) -> spec_fn(int) -> bool {
    |j: int| decision(entries, max_audible, retiring, j) == VoiceDecision::Promote
}

/// Once every decision is carried out, no more than `max_audible` entries hold
/// a voice, whatever is still retiring.
pub proof fn no_more_voices_than_the_budget(
    entries: Seq<SignificanceEntry>,
    max_audible: nat,
    retiring: nat,
)
    ensures
        count(entries.len(), voiced_after(entries, max_audible, retiring)) <= max_audible,
{
    audible_set_is_bounded(entries, max_audible);
    lemma_count_implies(
        entries.len(),
        voiced_after(entries, max_audible, retiring),
        audible_set(entries, max_audible),
    );
}

/// Where the decisions promote anything, the held voices, the retiring voices
/// and the promotions together stay within the budget: promotions only fill
/// slots that neither a hold nor a retiring voice takes.
pub proof fn promotions_leave_room_for_retiring_voices(
    entries: Seq<SignificanceEntry>,
    max_audible: nat,
    retiring: nat,
)
    ensures
        count(entries.len(), promoted(entries, max_audible, retiring)) > 0 ==> count(
            entries.len(),
            voiced_after(entries, max_audible, retiring),
        ) + retiring <= max_audible,
{
    let n: nat = entries.len();
    let p = promoted(entries, max_audible, retiring);
    if count(n, p) > 0 {
        let last: int = lemma_last_of(entries, n, p);
        lemma_count_without(n, p, waiting_before(entries, max_audible, last), last);
        assert(p(last));
        assert forall|j: int| 0 <= j < n implies !(#[trigger] p(j) && voiced(
            entries,
            max_audible,
        )(j)) by {}
        lemma_count_disjoint(
            n,
            p,
            voiced(entries, max_audible),
            voiced_after(entries, max_audible, retiring),
        );
    }
}

/// Retiring voices never evict an audible hold: what an audible entry should
/// do does not depend on how many voices are retiring.
pub proof fn retiring_voices_never_evict(
    entries: Seq<SignificanceEntry>,
    max_audible: nat,
    retiring: nat,
    other_retiring: nat,
    i: int,
)
    requires
        0 <= i < entries.len(),
        entries[i].audible,
    ensures
        decision(entries, max_audible, retiring, i) == decision(
            entries,
            max_audible,
            other_retiring,
            i,
        ),
{
}

/// An entry that ranks before another has the smaller rank; of two entries,
/// exactly one ranks before the other.
pub proof fn ranks_are_a_strict_order(entries: Seq<SignificanceEntry>, i: int, j: int)
    requires
        0 <= i < entries.len(),
        0 <= j < entries.len(),
        i != j,
    ensures
        ranks_before(entries, i, j) <==> rank(entries, i) < rank(entries, j),
        ranks_before(entries, i, j) != ranks_before(entries, j, i),
{
    if ranks_before(entries, i, j) {
        lemma_rank_increases(entries, i, j);
    } else {
        lemma_rank_increases(entries, j, i);
    }
}

proof fn lemma_rank_increases(entries: Seq<SignificanceEntry>, i: int, j: int)
    requires
        0 <= i < entries.len(),
        0 <= j < entries.len(),
        ranks_before(entries, i, j),
    ensures
        rank(entries, i) < rank(entries, j),
{
    let n: nat = entries.len();
    let only = |k: int| k == i;
    let either = |k: int| ranks_before(entries, k, i) || k == i;
    lemma_count_disjoint(n, before(entries, i), only, either);
    lemma_count_implies(n, either, before(entries, j));
    lemma_count_one(n, i, only);
}

proof fn lemma_count_one(n: nat, i: int, only: spec_fn(int) -> bool)
    requires
        0 <= i < n,
        only(i),
    ensures
        count(n, only) >= 1,
    decreases n,
{
    if i < n - 1 {
        lemma_count_one((n - 1) as nat, i, only);
    }
}

/// A more significant entry is never passed over for a less significant one:
/// where an entry ranks before another, the set that has the second has the
/// first, and if both wait for a voice and the second is promoted, so is the
/// first.
pub proof fn the_more_significant_comes_first(
    entries: Seq<SignificanceEntry>,
    max_audible: nat,
    retiring: nat,
    i: int,
    j: int,
)
    requires
        0 <= i < entries.len(),
        0 <= j < entries.len(),
        ranks_before(entries, i, j),
    ensures
        in_set(entries, max_audible, j) ==> in_set(entries, max_audible, i),
        !entries[i].audible && decision(entries, max_audible, retiring, j)
            == VoiceDecision::Promote ==> decision(entries, max_audible, retiring, i)
            == VoiceDecision::Promote,
        entries[i].audible && decision(entries, max_audible, retiring, j) == VoiceDecision::Promote
            ==> decision(entries, max_audible, retiring, i) == VoiceDecision::Hold,
{
    lemma_rank_increases(entries, i, j);
    lemma_count_implies(
        entries.len(),
        waiting_before(entries, max_audible, i),
        waiting_before(entries, max_audible, j),
    );
}

/// With a slot for every entry and nothing retiring, every waiting entry is
/// promoted and every audible one held.
pub proof fn room_for_all_promotes_all(
    entries: Seq<SignificanceEntry>,
    max_audible: nat,
    i: int,
)
    requires
        0 <= i < entries.len() <= max_audible,
    ensures
        decision(entries, max_audible, 0, i) == if entries[i].audible {
            VoiceDecision::Hold
        } else {
            VoiceDecision::Promote
        },
{
    let n: nat = entries.len();
    let only = |k: int| k == i;
    let either = |k: int| ranks_before(entries, k, i) || k == i;
    lemma_count_disjoint(n, before(entries, i), only, either);
    lemma_count_one(n, i, only);
    lemma_count_bounded(n, either);
    // The voiced entries, the waiting ones before this one, and this one.
    if !entries[i].audible {
        let waiting = waiting_before(entries, max_audible, i);
        let taken = |k: int| voiced(entries, max_audible)(k) || waiting(k);
        let all = |k: int| taken(k) || k == i;
        lemma_count_disjoint(n, voiced(entries, max_audible), waiting, taken);
        lemma_count_disjoint(n, taken, only, all);
        lemma_count_bounded(n, all);
    }
}

/// The entries that a pass with nothing retiring does not demote.
pub open spec fn kept(entries: Seq<SignificanceEntry>, max_audible: nat) -> spec_fn(int) -> bool {
    |j: int| decision(entries, max_audible, 0, j) != VoiceDecision::Demote
}

/// What a pass with nothing retiring leaves of the first `n` entries, in the
/// same order: the demoted ones are gone and the promoted ones audible.
pub open spec fn settled_entries(
    entries: Seq<SignificanceEntry>,
    max_audible: nat,
    n: nat,
) -> Seq<SignificanceEntry>
    decreases n,
{
    if n == 0 {
        Seq::empty()
    } else {
        let earlier = settled_entries(entries, max_audible, (n - 1) as nat);
        let entry = entries[n - 1];
        match decision(entries, max_audible, 0, n - 1) {
            VoiceDecision::Promote => earlier.push(SignificanceEntry { audible: true, ..entry }),
            VoiceDecision::Demote => earlier,
            VoiceDecision::Hold => earlier.push(entry),
        }
    }
}

/// One pass settles the set: with the demoted entries gone and the promoted ones
/// audible, a second pass holds every entry, however many voices retire.
pub proof fn one_pass_settles_the_set(
    entries: Seq<SignificanceEntry>,
    max_audible: nat,
    retiring: nat,
    at: int,
)
    requires
        0 <= at < settled_entries(entries, max_audible, entries.len()).len(),
    ensures
        decision(
            settled_entries(entries, max_audible, entries.len()),
            max_audible,
            retiring,
            at,
        ) == VoiceDecision::Hold,
{
    let n: nat = entries.len();
    let after = settled_entries(entries, max_audible, n);
    let p = kept(entries, max_audible);
    lemma_settled_entries(entries, max_audible, n);
    let i: int = lemma_position_of(n, p, at);
    let both = |j: int| p(j) && ranks_before(entries, j, i);
    lemma_rank_among_settled(entries, max_audible, i, n, both);
    if in_set(entries, max_audible, i) {
        lemma_count_implies(n, both, before(entries, i));
        if !entries[i].audible {
            lemma_the_set_is_promoted(entries, max_audible, i);
        }
    } else {
        lemma_the_set_is_full(entries, max_audible, i);
        let set = audible_set(entries, max_audible);
        assert forall|j: int| 0 <= j < n && #[trigger] set(j) implies both(j) by {
            if !ranks_before(entries, j, i) {
                // It would follow the entry outside the set.
                lemma_count_implies(n, before(entries, i), before(entries, j));
            }
        }
        lemma_count_implies(n, set, both);
    }
}

/// With nothing retiring, every waiting entry of the audible set is promoted.
proof fn lemma_the_set_is_promoted(entries: Seq<SignificanceEntry>, max_audible: nat, i: int)
    requires
        0 <= i < entries.len(),
        in_set(entries, max_audible, i),
        !entries[i].audible,
    ensures
        decision(entries, max_audible, 0, i) == VoiceDecision::Promote,
{
    let n: nat = entries.len();
    let set = audible_set(entries, max_audible);
    let held = voiced(entries, max_audible);
    let ahead = waiting_before(entries, max_audible, i);
    let either = |j: int| held(j) || ahead(j);
    let others = |j: int| set(j) && j != i;
    audible_set_is_bounded(entries, max_audible);
    lemma_count_disjoint(n, held, ahead, either);
    lemma_count_implies(n, either, others);
    lemma_count_drops(n, set, others, i);
}

/// A property that holds wherever `p` does but at `k` holds one position less.
proof fn lemma_count_drops(n: nat, p: spec_fn(int) -> bool, q: spec_fn(int) -> bool, k: int)
    requires
        0 <= k < n,
        p(k),
        forall|j: int| 0 <= j < n ==> #[trigger] q(j) == (p(j) && j != k),
    ensures
        count(n, q) + 1 == count(n, p),
    decreases n,
{
    let m: nat = (n - 1) as nat;
    assert(q(n - 1) == (p(n - 1) && n - 1 != k));
    if k < m {
        lemma_count_drops(m, p, q, k);
    } else {
        assert forall|j: int| 0 <= j < m implies #[trigger] p(j) == q(j) by {
            assert(q(j) == (p(j) && j != k));
        }
        lemma_count_same(m, p, q);
    }
}

/// Where an entry is left outside the audible set, the set is full.
proof fn lemma_the_set_is_full(entries: Seq<SignificanceEntry>, max_audible: nat, i: int)
    requires
        0 <= i < entries.len(),
        !in_set(entries, max_audible, i),
    ensures
        count(entries.len(), audible_set(entries, max_audible)) >= max_audible,
{
    let n: nat = entries.len();
    let outside = |j: int| !in_set(entries, max_audible, j);
    let first: int = lemma_first_of(entries, n, outside, i);
    assert forall|j: int| 0 <= j < n && #[trigger] before(entries, first)(j) implies audible_set(
        entries,
        max_audible,
    )(j) by {
        if outside(j) {
            assert(ranks_before(entries, first, j) || j == first);
        }
    }
    lemma_count_implies(n, before(entries, first), audible_set(entries, max_audible));
    assert(outside(first));
}

/// Of the first `n` positions that have the property `p`, as position `k` has,
/// some position ranks before all the others.
proof fn lemma_first_of(
    entries: Seq<SignificanceEntry>,
    n: nat,
    p: spec_fn(int) -> bool,
    k: int,
) -> (first: int)
    requires
        0 <= k < n <= entries.len(),
        p(k),
    ensures
        0 <= first < n,
        p(first),
        forall|j: int|
            0 <= j < n && j != first && #[trigger] p(j) ==> ranks_before(entries, first, j),
    decreases n,
{
    let m: nat = (n - 1) as nat;
    if count(m, p) > 0 {
        let any: int = lemma_last_of(entries, m, p);
        let first: int = lemma_first_of(entries, m, p, any);
        if p(m as int) && ranks_before(entries, m as int, first) {
            m as int
        } else {
            first
        }
    } else {
        lemma_none_of(m, p);
        m as int
    }
}

/// The position at which the count of a property reaches `at`.
proof fn lemma_position_of(n: nat, p: spec_fn(int) -> bool, at: int) -> (i: int)
    requires
        0 <= at < count(n, p),
    ensures
        0 <= i < n,
        p(i),
        count(i as nat, p) == at,
    decreases n,
{
    let m: nat = (n - 1) as nat;
    if at < count(m, p) {
        lemma_position_of(m, p, at)
    } else {
        m as int
    }
}

/// What is settled holds one entry for each that is kept, where it stands among
/// them.
proof fn lemma_settled_entries(entries: Seq<SignificanceEntry>, max_audible: nat, n: nat)
    requires
        n <= entries.len(),
    ensures
        ({
            let after = settled_entries(entries, max_audible, n);
            let p = kept(entries, max_audible);
            &&& after.len() == count(n, p)
            &&& forall|i: int|
                0 <= i < n && #[trigger] p(i) ==> count(i as nat, p) < count(n, p)
                    && after[count(i as nat, p) as int] == (SignificanceEntry {
                    audible: entries[i].audible || decision(entries, max_audible, 0, i)
                        == VoiceDecision::Promote,
                    ..entries[i]
                })
        }),
    decreases n,
{
    if n > 0 {
        let m: nat = (n - 1) as nat;
        let p = kept(entries, max_audible);
        lemma_settled_entries(entries, max_audible, m);
        assert(p(m as int) == (decision(entries, max_audible, 0, m as int)
            != VoiceDecision::Demote));
    }
}

/// The rank of a kept entry among the settled ones counts the kept entries that
/// rank before it.
proof fn lemma_rank_among_settled(
    entries: Seq<SignificanceEntry>,
    max_audible: nat,
    i: int,
    n: nat,
    both: spec_fn(int) -> bool,
)
    requires
        0 <= i < entries.len(),
        n <= entries.len(),
        kept(entries, max_audible)(i),
        forall|j: int|
            0 <= j < n ==> #[trigger] both(j) == (kept(entries, max_audible)(j) && ranks_before(
                entries,
                j,
                i,
            )),
    ensures
        ({
            let after = settled_entries(entries, max_audible, entries.len());
            let p = kept(entries, max_audible);
            count(count(n, p), before(after, count(i as nat, p) as int)) == count(n, both)
        }),
    decreases n,
{
    if n > 0 {
        let m: nat = (n - 1) as nat;
        let p = kept(entries, max_audible);
        let after = settled_entries(entries, max_audible, entries.len());
        let spot: int = count(i as nat, p) as int;
        lemma_rank_among_settled(entries, max_audible, i, m, both);
        lemma_settled_entries(entries, max_audible, entries.len());
        assert(both(m as int) == (p(m as int) && ranks_before(entries, m as int, i)));
        if p(m as int) {
            lemma_count_grows(m, i as nat, p);
            lemma_count_grows(i as nat, m, p);
            assert(before(after, spot)(count(m, p) as int) == ranks_before(
                entries,
                m as int,
                i,
            ));
        }
    }
}

/// The count of a property at one position grows past those that have it.
proof fn lemma_count_grows(i: nat, k: nat, p: spec_fn(int) -> bool)
    ensures
        i <= k ==> count(i, p) <= count(k, p),
        i < k && p(i as int) ==> count(i, p) < count(k, p),
    decreases k,
{
    if i < k {
        lemma_count_grows(i, (k - 1) as nat, p);
    }
}

/// An audible entry loses its voice exactly if the budget's voices all go to others:
/// if at least `max_audible` entries are more significant, or as significant and
/// earlier. What waits is never demoted, and nothing promoted twice.
pub proof fn a_voice_is_lost_only_to_others(
    entries: Seq<SignificanceEntry>,
    max_audible: nat,
    retiring: nat,
    i: int,
)
    requires
        0 <= i < entries.len(),
    ensures
        ({
            let ahead = |j: int|
                {
                    let here = entries[i].significance.total_place();
                    let there = entries[j].significance.total_place();
                    there > here || (there == here && j < i)
                };
            let decided = decision(entries, max_audible, retiring, i);
            &&& entries[i].audible ==> decided == if count(entries.len(), ahead) >= max_audible {
                VoiceDecision::Demote
            } else {
                VoiceDecision::Hold
            }
            &&& !entries[i].audible ==> decided != VoiceDecision::Demote
            &&& decided == VoiceDecision::Promote ==> count(entries.len(), ahead) < max_audible
        }),
{
    let ahead = |j: int|
        {
            let here = entries[i].significance.total_place();
            let there = entries[j].significance.total_place();
            there > here || (there == here && j < i)
        };
    assert forall|j: int| 0 <= j < entries.len() implies #[trigger] ahead(j) == before(
        entries,
        i,
    )(j) by {}
    lemma_count_same(entries.len(), ahead, before(entries, i));
}

/// No slot is left empty: an entry is left waiting only where the entries that hold
/// a voice once every decision is carried out, and the voices that retire, fill the
/// budget.
pub proof fn no_slot_is_left_empty(
    entries: Seq<SignificanceEntry>,
    max_audible: nat,
    retiring: nat,
    i: int,
)
    requires
        0 <= i < entries.len(),
        !entries[i].audible,
        decision(entries, max_audible, retiring, i) == VoiceDecision::Hold,
    ensures
        count(
            entries.len(),
            |j: int|
                {
                    let decided = decision(entries, max_audible, retiring, j);
                    decided == VoiceDecision::Promote || (entries[j].audible && decided
                        == VoiceDecision::Hold)
                },
        ) + retiring >= max_audible,
{
    let n: nat = entries.len();
    let after = |j: int|
        {
            let decided = decision(entries, max_audible, retiring, j);
            decided == VoiceDecision::Promote || (entries[j].audible && decided
                == VoiceDecision::Hold)
        };
    let passed = |j: int|
        in_set(entries, max_audible, j) && !entries[j].audible && decision(
            entries,
            max_audible,
            retiring,
            j,
        ) == VoiceDecision::Hold;
    if exists|k: int| 0 <= k < n && #[trigger] passed(k) {
        let k = choose|k: int| 0 <= k < n && #[trigger] passed(k);
        let first: int = lemma_first_of(entries, n, passed, k);
        let held = voiced(entries, max_audible);
        let ahead = waiting_before(entries, max_audible, first);
        let either = |j: int| held(j) || ahead(j);
        lemma_count_disjoint(n, held, ahead, either);
        assert forall|j: int| 0 <= j < n && #[trigger] either(j) implies after(j) by {
            if ahead(j) && passed(j) {
                assert(ranks_before(entries, first, j) || j == first);
            }
        }
        lemma_count_implies(n, either, after);
        assert(passed(first));
    } else {
        let set = audible_set(entries, max_audible);
        assert(!passed(i));
        lemma_the_set_is_full(entries, max_audible, i);
        assert forall|j: int| 0 <= j < n && #[trigger] set(j) implies after(j) by {
            assert(!passed(j));
        }
        lemma_count_implies(n, set, after);
    }
}

} // verus!
