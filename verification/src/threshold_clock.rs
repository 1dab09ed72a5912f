//! Threshold clock: tracks the highest round for which a stake quorum of
//! accepted blocks has been observed, and gates local round advancement.
//! The clock round never moves backward.

use vstd::prelude::*;
use crate::block::{BlockRef, Round};
use crate::committee::Committee;
use crate::stake_aggregator::StakeAggregator;

verus! {

pub struct ThresholdClock {
    pub round: Round,
    pub aggregator: StakeAggregator,
}

impl ThresholdClock {
    pub open spec fn wf(self, c: Committee) -> bool {
        self.aggregator.wf(c)
    }

    /// The vote set holding exactly one vote, for `author`.
    pub open spec fn single_vote(c: Committee, author: int) -> Seq<bool> {
        Seq::new(c.spec_size() as nat, |i: int| i == author)
    }

    pub fn new(c: &Committee) -> (r: ThresholdClock)
        ensures
            r.wf(*c),
            r.round == 0,
            r.aggregator.stake == 0,
    {
        ThresholdClock { round: 0, aggregator: StakeAggregator::new(c) }
    }

    pub fn get_round(&self) -> (r: Round)
        ensures
            r == self.round,
    {
        self.round
    }

    /// Feeds one accepted block into the clock. Blocks from rounds already
    /// left behind are ignored; a block from the current round accumulates
    /// its author's stake, and on quorum the clock advances to the next
    /// round; a block from a higher round pulls the clock forward to that
    /// round. In every case the clock round is monotone.
    pub fn observe(&mut self, block_ref: BlockRef, c: &Committee) -> (advanced: bool)
        requires
            old(self).wf(*c),
            c.wf(),
            block_ref.author < c.spec_size(),
            block_ref.round < Round::MAX,
        ensures
            final(self).wf(*c),
            final(self).round >= old(self).round,
            advanced == (final(self).round > old(self).round),
            block_ref.round < old(self).round ==> *final(self) == *old(self),
            block_ref.round > old(self).round ==> final(self).round == block_ref.round
                && final(self).aggregator.votes@ == Self::single_vote(*c, block_ref.author as int),
            block_ref.round == old(self).round
                ==> if old(self).aggregator.votes@[block_ref.author as int] {
                    *final(self) == *old(self)
                } else {
                    (if final(self).round == old(self).round {
                        final(self).aggregator.votes@
                            == old(self).aggregator.votes@.update(block_ref.author as int, true)
                    } else {
                        final(self).round == old(self).round + 1 && final(self).aggregator.stake == 0
                    })
                },
    {
        if block_ref.round < self.round {
            return false;
        }
        if block_ref.round > self.round {
            self.round = block_ref.round;
            let mut fresh = StakeAggregator::new(c);
            fresh.add(block_ref.author, c);
            proof {
                assert(fresh.votes@ =~= Self::single_vote(*c, block_ref.author as int));
            }
            self.aggregator = fresh;
            return true;
        }
        if self.aggregator.votes[block_ref.author] {
            return false;
        }
        self.aggregator.add(block_ref.author, c);
        if self.aggregator.reached_quorum(c) {
            self.round = self.round + 1;
            self.aggregator = StakeAggregator::new(c);
            true
        } else {
            false
        }
    }
}

} // verus!
