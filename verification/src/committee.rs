//! Static committee of stake-weighted validators for one epoch, with the
//! quorum arithmetic the whole protocol rests on: a quorum is any set of
//! validators whose combined stake reaches `2f + 1`, where `f` is the
//! Byzantine stake tolerance, `3f < total`.

use vstd::prelude::*;

verus! {

/// Stake weight carried by one validator.
pub type Stake = u64;

/// A committee member: an identity key (a plain-value stand-in for the
/// validator's public key, which only the external crypto layer can use)
/// and its stake weight.
#[derive(Clone, Copy)]
pub struct Validator {
    pub key: u64,
    pub stake: Stake,
}

/// Sum of the first `n` stakes.
pub open spec fn sum_upto(stakes: Seq<Stake>, n: int) -> int
    decreases n,
{
    if n <= 0 {
        0
    } else {
        sum_upto(stakes, n - 1) + stakes[n - 1]
    }
}

/// Total stake of the committee.
pub open spec fn total_of(stakes: Seq<Stake>) -> int {
    sum_upto(stakes, stakes.len() as int)
}

/// Stake accumulated by the validators marked `true` among the first `n`.
pub open spec fn voted_upto(stakes: Seq<Stake>, votes: Seq<bool>, n: int) -> int
    decreases n,
{
    if n <= 0 {
        0
    } else {
        voted_upto(stakes, votes, n - 1) + if votes[n - 1] {
            stakes[n - 1] as int
        } else {
            0
        }
    }
}

/// Stake accumulated by the validators marked `true`.
pub open spec fn voted_stake(stakes: Seq<Stake>, votes: Seq<bool>) -> int {
    voted_upto(stakes, votes, stakes.len() as int)
}

/// Largest Byzantine stake `f` tolerated for a given total: `3f < total`.
pub open spec fn byz_tolerance(total: int) -> int {
    (total - 1) / 3
}

/// Quorum threshold: `2f + 1` by stake.
pub open spec fn quorum_of(total: int) -> int {
    2 * byz_tolerance(total) + 1
}

/// Ordered set of validators for one epoch, immutable once built.
pub struct Committee {
    pub validators: Vec<Validator>,
    pub total: u64,
}

impl Committee {
    /// The stake column of the committee table.
    pub open spec fn stakes(self) -> Seq<Stake> {
        self.validators@.map(|i: int, v: Validator| v.stake)
    }

    pub open spec fn spec_size(self) -> int {
        self.validators@.len() as int
    }

    /// Every member carries positive stake and the cached total is the sum.
    pub open spec fn wf(self) -> bool {
        &&& self.validators@.len() > 0
        &&& (forall|i: int| 0 <= i < self.validators@.len() ==> self.validators@[i].stake >= 1)
        &&& self.total as int == total_of(self.stakes())
    }

    /// Builds a committee, rejecting an empty table, a zero stake, or a
    /// total that does not fit the stake type.
    pub fn new(validators: Vec<Validator>) -> (r: Option<Committee>)
        ensures
            r is Some ==> r->Some_0.wf() && r->Some_0.validators@ == validators@,
            r is None <==> (validators@.len() == 0
                || (exists|i: int| 0 <= i < validators@.len() && #[trigger] validators@[i].stake < 1)
                || total_of(validators@.map(|i: int, v: Validator| v.stake)) > u64::MAX),
    {
        if validators.len() == 0 {
            return None;
        }
        let ghost stakes = validators@.map(|i: int, v: Validator| v.stake);
        let mut total: u64 = 0;
        let mut i: usize = 0;
        while i < validators.len()
            invariant
                0 <= i <= validators@.len(),
                stakes == validators@.map(|k: int, v: Validator| v.stake),
                total as int == sum_upto(stakes, i as int),
                forall|k: int| 0 <= k < i ==> validators@[k].stake >= 1,
            decreases validators@.len() - i,
        {
            let s = validators[i].stake;
            if s < 1 {
                return None;
            }
            if total > u64::MAX - s {
                proof {
                    lemma_sum_upto_monotone(stakes, i + 1, stakes.len() as int);
                }
                return None;
            }
            total = total + s;
            i = i + 1;
        }
        Some(Committee { validators, total })
    }

    pub fn size(&self) -> (r: usize)
        ensures
            r == self.spec_size(),
    {
        self.validators.len()
    }

    pub fn total_stake(&self) -> (r: u64)
        ensures
            r as int == self.total as int,
    {
        self.total
    }

    pub fn stake_of(&self, index: usize) -> (r: Stake)
        requires
            index < self.spec_size(),
        ensures
            r == self.stakes()[index as int],
    {
        self.validators[index].stake
    }

    /// The stake a set of validators must reach to be a quorum.
    pub fn quorum_threshold(&self) -> (r: u64)
        requires
            self.wf(),
        ensures
            r as int == quorum_of(self.total as int),
    {
        proof {
            lemma_total_positive(self.stakes());
        }
        2 * ((self.total - 1) / 3) + 1
    }

    /// The largest Byzantine stake the committee tolerates.
    pub fn byzantine_tolerance(&self) -> (r: u64)
        requires
            self.wf(),
        ensures
            r as int == byz_tolerance(self.total as int),
    {
        proof {
            lemma_total_positive(self.stakes());
        }
        (self.total - 1) / 3
    }
}

/// Partial sums only grow along a table of nonnegative stakes.
pub proof fn lemma_sum_upto_monotone(stakes: Seq<Stake>, n: int, m: int)
    requires
        n <= m,
    ensures
        sum_upto(stakes, n) <= sum_upto(stakes, m),
    decreases m - n,
{
    if n < m {
        lemma_sum_upto_monotone(stakes, n, m - 1);
    }
}

/// A committee of positive stakes has positive total.
pub proof fn lemma_total_positive(stakes: Seq<Stake>)
    requires
        stakes.len() > 0,
        forall|i: int| 0 <= i < stakes.len() ==> stakes[i] >= 1,
    ensures
        total_of(stakes) >= stakes.len(),
    decreases stakes.len(),
{
    lemma_sum_upto_ge_count(stakes, stakes.len() as int);
}

proof fn lemma_sum_upto_ge_count(stakes: Seq<Stake>, n: int)
    requires
        n <= stakes.len(),
        forall|i: int| 0 <= i < stakes.len() ==> stakes[i] >= 1,
    ensures
        n >= 0 ==> sum_upto(stakes, n) >= n,
    decreases n,
{
    if n > 0 {
        lemma_sum_upto_ge_count(stakes, n - 1);
    }
}

} // verus!
