//! Quorum arithmetic over stake-weighted vote sets: any two quorums of a
//! committee whose total stake is `3f + 1` overlap in at least one honest
//! validator, the property every commit-safety argument reduces to.

use vstd::prelude::*;
use crate::committee::{Stake, byz_tolerance, quorum_of, sum_upto, voted_stake, voted_upto};

verus! {

/// Pointwise intersection of two vote sets.
pub open spec fn inter_votes(a: Seq<bool>, b: Seq<bool>) -> Seq<bool> {
    Seq::new(a.len(), |i: int| a[i] && b[i])
}

/// Pointwise union of two vote sets.
pub open spec fn union_votes(a: Seq<bool>, b: Seq<bool>) -> Seq<bool> {
    Seq::new(a.len(), |i: int| a[i] || b[i])
}

/// Voted stake is never negative.
pub proof fn lemma_voted_nonneg(stakes: Seq<Stake>, votes: Seq<bool>, n: int)
    ensures
        voted_upto(stakes, votes, n) >= 0,
    decreases n,
{
    if n > 0 {
        lemma_voted_nonneg(stakes, votes, n - 1);
    }
}

/// Voted stake never exceeds the sum over the same prefix.
pub proof fn lemma_voted_le_sum(stakes: Seq<Stake>, votes: Seq<bool>, n: int)
    ensures
        voted_upto(stakes, votes, n) <= sum_upto(stakes, n),
    decreases n,
{
    if n > 0 {
        lemma_voted_le_sum(stakes, votes, n - 1);
    }
}

/// A vote set contained in another accumulates no more stake.
pub proof fn lemma_voted_monotone(stakes: Seq<Stake>, a: Seq<bool>, b: Seq<bool>, n: int)
    requires
        n <= a.len(),
        n <= b.len(),
        forall|i: int| 0 <= i < n ==> (a[i] ==> b[i]),
    ensures
        voted_upto(stakes, a, n) <= voted_upto(stakes, b, n),
    decreases n,
{
    if n > 0 {
        lemma_voted_monotone(stakes, a, b, n - 1);
    }
}

/// Inclusion–exclusion: the stakes of two vote sets add up to the stakes of
/// their union and intersection.
pub proof fn lemma_inclusion_exclusion(stakes: Seq<Stake>, a: Seq<bool>, b: Seq<bool>, n: int)
    requires
        a.len() == b.len(),
        n <= a.len(),
    ensures
        voted_upto(stakes, a, n) + voted_upto(stakes, b, n)
            == voted_upto(stakes, union_votes(a, b), n) + voted_upto(stakes, inter_votes(a, b), n),
    decreases n,
{
    if n > 0 {
        lemma_inclusion_exclusion(stakes, a, b, n - 1);
    }
}

/// Setting one vote to `true` adds exactly that validator's stake, or
/// nothing if the vote was already cast.
pub proof fn lemma_voted_update(stakes: Seq<Stake>, votes: Seq<bool>, j: int, n: int)
    requires
        0 <= j < votes.len(),
        n <= votes.len(),
        n <= stakes.len(),
    ensures
        voted_upto(stakes, votes.update(j, true), n) == voted_upto(stakes, votes, n)
            + if j < n && !votes[j] { stakes[j] as int } else { 0 },
    decreases n,
{
    if n > 0 {
        lemma_voted_update(stakes, votes, j, n - 1);
    }
}

/// Quorum intersection: in a committee whose total stake is exactly
/// `3f + 1`, any two vote sets that each reach the quorum threshold
/// `2f + 1` share a validator outside any faulty set of stake at most `f`.
///
/// The bound is tight in the total: with total `3f + 2` (say five
/// validators of stake one, `f = 1`) two quorums of stake three can meet
/// in a single faulty validator.
pub proof fn lemma_quorum_intersection(stakes: Seq<Stake>, a: Seq<bool>, b: Seq<bool>, faulty: Seq<bool>)
    requires
        a.len() == stakes.len(),
        b.len() == stakes.len(),
        faulty.len() == stakes.len(),
        sum_upto(stakes, stakes.len() as int) == 3 * byz_tolerance(sum_upto(stakes, stakes.len() as int)) + 1,
        voted_stake(stakes, a) >= quorum_of(sum_upto(stakes, stakes.len() as int)),
        voted_stake(stakes, b) >= quorum_of(sum_upto(stakes, stakes.len() as int)),
        voted_stake(stakes, faulty) <= byz_tolerance(sum_upto(stakes, stakes.len() as int)),
    ensures
        exists|i: int| 0 <= i < stakes.len() && a[i] && b[i] && !faulty[i],
{
    let n = stakes.len() as int;
    let total = sum_upto(stakes, n);
    let f = byz_tolerance(total);
    let c = inter_votes(a, b);
    let u = union_votes(a, b);
    lemma_inclusion_exclusion(stakes, a, b, n);
    lemma_voted_le_sum(stakes, u, n);
    assert(voted_upto(stakes, c, n) >= 2 * quorum_of(total) - total);
    assert(voted_upto(stakes, c, n) >= f + 1);
    if forall|i: int| 0 <= i < n ==> !(#[trigger] a[i] && b[i] && !faulty[i]) {
        assert(forall|i: int| 0 <= i < n ==> (#[trigger] c[i] ==> faulty[i]));
        lemma_voted_monotone(stakes, c, faulty, n);
        assert(false);
    }
}

} // verus!
