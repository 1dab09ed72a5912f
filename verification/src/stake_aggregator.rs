//! Accumulator over (validator, stake) votes for one tracked question.
//! Duplicate votes from the same validator are rejected, and the crossing
//! of the quorum threshold is reported exactly once, on the vote that
//! crosses it.

use vstd::prelude::*;
use crate::committee::{Committee, quorum_of, voted_stake, voted_upto};
use crate::quorum::{lemma_voted_le_sum, lemma_voted_update};

verus! {

pub struct StakeAggregator {
    pub votes: Vec<bool>,
    pub stake: u64,
}

impl StakeAggregator {
    /// One vote flag per committee member; the cached stake is the stake
    /// of the set of voters.
    pub open spec fn wf(self, c: Committee) -> bool {
        &&& self.votes@.len() == c.spec_size()
        &&& self.stake as int == voted_stake(c.stakes(), self.votes@)
    }

    pub open spec fn spec_voted(self, authority: int) -> bool {
        self.votes@[authority]
    }

    /// Whether the accumulated stake has reached the quorum threshold.
    pub open spec fn spec_reached_quorum(self, c: Committee) -> bool {
        self.stake as int >= quorum_of(c.total as int)
    }

    pub fn new(c: &Committee) -> (r: StakeAggregator)
        ensures
            r.wf(*c),
            r.stake == 0,
            forall|i: int| 0 <= i < c.spec_size() ==> !(#[trigger] r.votes@[i]),
    {
        let n = c.size();
        let mut votes: Vec<bool> = Vec::new();
        let mut i: usize = 0;
        while i < n
            invariant
                0 <= i <= n,
                votes@.len() == i,
                forall|k: int| 0 <= k < i ==> !(#[trigger] votes@[k]),
            decreases n - i,
        {
            votes.push(false);
            i = i + 1;
        }
        proof {
            lemma_all_false_zero(c.stakes(), votes@, n as int);
        }
        StakeAggregator { votes, stake: 0 }
    }

    /// Records a vote. A duplicate vote leaves the aggregator unchanged.
    /// Returns `true` exactly when this vote crosses the quorum threshold:
    /// the accumulated stake was below it before and reaches it now.
    pub fn add(&mut self, authority: usize, c: &Committee) -> (crossed: bool)
        requires
            old(self).wf(*c),
            c.wf(),
            authority < c.spec_size(),
        ensures
            final(self).wf(*c),
            final(self).votes@ == old(self).votes@.update(authority as int, true),
            old(self).spec_voted(authority as int) ==> *final(self) == *old(self),
            final(self).stake as int == voted_stake(c.stakes(), old(self).votes@)
                + if old(self).spec_voted(authority as int) { 0int } else {
                    c.stakes()[authority as int] as int
                },
            crossed == (!old(self).spec_reached_quorum(*c) && final(self).spec_reached_quorum(*c)),
    {
        proof {
            lemma_voted_update(c.stakes(), self.votes@, authority as int, c.spec_size());
        }
        if self.votes[authority] {
            proof {
                assert(self.votes@ =~= self.votes@.update(authority as int, true));
            }
            return false;
        }
        let before = self.stake;
        let added = c.stake_of(authority);
        proof {
            lemma_voted_le_sum(c.stakes(), self.votes@.update(authority as int, true), c.spec_size());
        }
        self.votes.set(authority, true);
        self.stake = before + added;
        let threshold = c.quorum_threshold();
        before < threshold && self.stake >= threshold
    }

    /// Whether the voters so far are a quorum.
    pub fn reached_quorum(&self, c: &Committee) -> (r: bool)
        requires
            self.wf(*c),
            c.wf(),
        ensures
            r == self.spec_reached_quorum(*c),
    {
        self.stake >= c.quorum_threshold()
    }
}

proof fn lemma_all_false_zero(stakes: Seq<u64>, votes: Seq<bool>, n: int)
    requires
        forall|k: int| 0 <= k < n ==> !(#[trigger] votes[k]),
    ensures
        voted_upto(stakes, votes, n) == 0,
    decreases n,
{
    if n > 0 {
        lemma_all_false_zero(stakes, votes, n - 1);
    }
}

} // verus!
