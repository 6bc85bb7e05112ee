//! Counting the positions of a sequence that have a property.

use vstd::prelude::*;

verus! {

/// How many of the first `n` positions have the property `p`.
pub open spec fn count(n: nat, p: spec_fn(int) -> bool) -> nat
    decreases n,
{
    if n == 0 {
        0
    } else {
        count((n - 1) as nat, p) + if p(n - 1) {
            1nat
        } else {
            0nat
        }
    }
}

/// A property that implies another holds at no more positions.
pub proof fn lemma_count_implies(n: nat, p: spec_fn(int) -> bool, q: spec_fn(int) -> bool)
    requires
        forall|j: int| 0 <= j < n && #[trigger] p(j) ==> q(j),
    ensures
        count(n, p) <= count(n, q),
    decreases n,
{
    if n > 0 {
        lemma_count_implies((n - 1) as nat, p, q);
    }
}

/// No more positions have a property than there are positions.
pub proof fn lemma_count_bounded(n: nat, p: spec_fn(int) -> bool)
    ensures
        count(n, p) <= n,
    decreases n,
{
    if n > 0 {
        lemma_count_bounded((n - 1) as nat, p);
    }
}

/// Two properties that exclude each other together hold where either does.
pub proof fn lemma_count_disjoint(
    n: nat,
    p: spec_fn(int) -> bool,
    q: spec_fn(int) -> bool,
    either: spec_fn(int) -> bool,
)
    requires
        forall|j: int| 0 <= j < n ==> !(#[trigger] p(j) && q(j)),
        forall|j: int| 0 <= j < n ==> #[trigger] either(j) == (p(j) || q(j)),
    ensures
        count(n, p) + count(n, q) == count(n, either),
    decreases n,
{
    if n > 0 {
        let m: nat = (n - 1) as nat;
        lemma_count_disjoint(m, p, q, either);
        assert(either(n - 1) == (p(n - 1) || q(n - 1)));
        assert(!(p(n - 1) && q(n - 1)));
    }
}

/// Two properties that hold at the same positions hold equally often.
pub proof fn lemma_count_same(n: nat, p: spec_fn(int) -> bool, q: spec_fn(int) -> bool)
    requires
        forall|j: int| 0 <= j < n ==> #[trigger] p(j) == q(j),
    ensures
        count(n, p) == count(n, q),
{
    lemma_count_implies(n, p, q);
    assert forall|j: int| 0 <= j < n && #[trigger] q(j) implies p(j) by {
        assert(p(j) == q(j));
    }
    lemma_count_implies(n, q, p);
}

/// A property that holds wherever `p` does, but not at `k`, where `p` does,
/// holds at fewer positions.
pub proof fn lemma_count_without(n: nat, p: spec_fn(int) -> bool, q: spec_fn(int) -> bool, k: int)
    requires
        0 <= k < n,
        p(k),
        forall|j: int| 0 <= j < n && j != k && #[trigger] p(j) ==> q(j),
    ensures
        count(n, p) <= count(n, q) + 1,
    decreases n,
{
    if k < n - 1 {
        lemma_count_without((n - 1) as nat, p, q, k);
    } else {
        lemma_count_implies((n - 1) as nat, p, q);
    }
}

} // verus!
