//! The proposal engine: decides when this validator may produce a block
//! and what it contains. Proposal is gated on the threshold clock's round
//! and on quorum coverage of the previous round by the selected ancestor
//! set; ancestors are the highest-round known block of every author not
//! excluded by policy (equivocators, stale peers). The proposal is
//! unsigned: the external crypto layer signs it and computes its digest,
//! and the result comes back through the block verifier like any other
//! block. Proposal state moves strictly forward by round.

use vstd::prelude::*;
use crate::block::{AuthorityIndex, BlockRef, Round, Transaction};
use crate::committee::{Committee, quorum_of, voted_stake};
use crate::dag_state::DagState;
use crate::stake_aggregator::StakeAggregator;

verus! {

/// Most transaction batches one proposal carries.
pub const MAX_PROPOSAL_TRANSACTIONS: usize = 512;

/// An assembled, not yet signed block.
pub struct BlockProposal {
    pub author: AuthorityIndex,
    pub round: Round,
    pub timestamp_ms: u64,
    pub ancestors: Vec<BlockRef>,
    pub transactions: Vec<Transaction>,
}

/// A stored block by `author` from a round strictly below `round`.
pub open spec fn ancestor_candidate(dag: DagState, author: int, round: Round, x: BlockRef) -> bool {
    x.author == author && x.round < round && dag.contains_ref(x)
}

/// Preference among candidates of one author: higher round first, then
/// smaller digest (a deterministic choice among equivocating blocks).
pub open spec fn preferred(x: BlockRef, y: BlockRef) -> bool {
    x.round > y.round || (x.round == y.round && x.digest <= y.digest)
}

/// The vote set formed by an ancestor list at round `round - 1`.
pub open spec fn ancestor_votes(ancestors: Seq<BlockRef>, round: Round, n: int) -> Seq<bool> {
    Seq::new(n as nat, |i: int| exists|k: int| 0 <= k < ancestors.len()
        && (#[trigger] ancestors[k]).author == i && ancestors[k].round == round - 1)
}

/// The previous-round vote set the default ancestor selection yields: an
/// author contributes exactly when it is not excluded and has a stored
/// block at `round - 1` (its preferred block then sits at that round).
pub open spec fn proposal_votes(dag: DagState, c: Committee, round: Round, excluded: Seq<bool>) -> Seq<bool> {
    Seq::new(c.spec_size() as nat, |i: int| !excluded[i]
        && exists|x: BlockRef| #[trigger] ancestor_candidate(dag, i, round, x)
            && x.round == round - 1)
}

/// The best stored block of one author below `round`, if any.
#[verifier::loop_isolation(false)]
fn best_of_author(dag: &DagState, author: usize, round: Round) -> (o: Option<BlockRef>)
    ensures
        o is Some ==> ancestor_candidate(*dag, author as int, round, o->Some_0)
            && (forall|y: BlockRef| ancestor_candidate(*dag, author as int, round, y)
                ==> preferred(o->Some_0, y)),
        (o is Some) <==> exists|y: BlockRef| ancestor_candidate(*dag, author as int, round, y),
{
    let mut best: Option<BlockRef> = None;
    let mut i: usize = 0;
    while i < dag.blocks.len()
        invariant
            0 <= i <= dag.blocks@.len(),
            best is Some ==> ancestor_candidate(*dag, author as int, round, best->Some_0),
            forall|j: int| 0 <= j < i
                && ancestor_candidate(*dag, author as int, round, #[trigger] dag.refs()[j])
                ==> best is Some && preferred(best->Some_0, dag.refs()[j]),
            best is None ==> forall|j: int| 0 <= j < i
                ==> !ancestor_candidate(*dag, author as int, round, #[trigger] dag.refs()[j]),
        decreases dag.blocks@.len() - i,
    {
        let r = dag.blocks[i].reference();
        proof {
            assert(dag.refs()[i as int] == r);
            assert(dag.contains_ref(r));
        }
        if r.author == author && r.round < round {
            match best {
                None => {
                    best = Some(r);
                },
                Some(cur) => {
                    if r.round > cur.round || (r.round == cur.round && r.digest < cur.digest) {
                        best = Some(r);
                    }
                },
            }
        }
        i = i + 1;
    }
    proof {
        match best {
            Some(b) => {
                assert forall|y: BlockRef| ancestor_candidate(*dag, author as int, round, y)
                    implies preferred(b, y) by {
                    let j = choose|j: int| 0 <= j < dag.refs().len() && dag.refs()[j] == y;
                    assert(ancestor_candidate(*dag, author as int, round, dag.refs()[j]));
                }
            },
            None => {
                assert forall|y: BlockRef|
                    !ancestor_candidate(*dag, author as int, round, y) by {
                    if dag.contains_ref(y) {
                        let j = choose|j: int| 0 <= j < dag.refs().len() && dag.refs()[j] == y;
                        assert(!ancestor_candidate(*dag, author as int, round,
                            dag.refs()[j]));
                    }
                }
            },
        }
    }
    best
}

/// Selects the ancestor set for a proposal at `round`: the preferred
/// stored block of every author not excluded by policy — at most one per
/// author, all from lower rounds, exactly the authors with a usable
/// block.
#[verifier::loop_isolation(false)]
pub fn select_ancestors(dag: &DagState, c: &Committee, round: Round, excluded: &Vec<bool>)
    -> (out: Vec<BlockRef>)
    requires
        dag.wf(*c),
        c.wf(),
        excluded@.len() == c.spec_size(),
    ensures
        forall|i: int, j: int| 0 <= i < j < out@.len()
            ==> (#[trigger] out@[i]).author != (#[trigger] out@[j]).author,
        forall|i: int| 0 <= i < out@.len()
            ==> ancestor_candidate(*dag, (#[trigger] out@[i]).author as int, round, out@[i])
                && out@[i].author < c.spec_size()
                && !excluded@[out@[i].author as int]
                && (forall|y: BlockRef| ancestor_candidate(*dag, out@[i].author as int,
                    round, y) ==> preferred(out@[i], y)),
        forall|a: int| 0 <= a < c.spec_size() && !excluded@[a]
            && (exists|y: BlockRef| ancestor_candidate(*dag, a, round, y))
            ==> exists|i: int| 0 <= i < out@.len() && (#[trigger] out@[i]).author as int == a,
{
    let n = c.size();
    let mut out: Vec<BlockRef> = Vec::new();
    let mut a: usize = 0;
    while a < n
        invariant
            0 <= a <= n,
            forall|i: int| 0 <= i < out@.len() ==> (#[trigger] out@[i]).author < a,
            forall|i: int, j: int| 0 <= i < j < out@.len()
                ==> (#[trigger] out@[i]).author != (#[trigger] out@[j]).author,
            forall|i: int| 0 <= i < out@.len()
                ==> ancestor_candidate(*dag, (#[trigger] out@[i]).author as int, round, out@[i])
                    && out@[i].author < c.spec_size()
                    && !excluded@[out@[i].author as int]
                    && (forall|y: BlockRef| ancestor_candidate(*dag, out@[i].author as int,
                        round, y) ==> preferred(out@[i], y)),
            forall|a2: int| 0 <= a2 < a && !excluded@[a2]
                && (exists|y: BlockRef| ancestor_candidate(*dag, a2, round, y))
                ==> exists|i: int| 0 <= i < out@.len()
                    && (#[trigger] out@[i]).author as int == a2,
        decreases n - a,
    {
        if !excluded[a] {
            match best_of_author(dag, a, round) {
                Some(b) => {
                    let ghost pre = out@;
                    out.push(b);
                    proof {
                        assert(out@[pre.len() as int] == b);
                        assert forall|i: int| 0 <= i < out@.len()
                            implies (#[trigger] out@[i]).author < a + 1 by {
                            if i < pre.len() {
                                assert(out@[i] == pre[i]);
                            }
                        }
                        assert forall|a2: int| 0 <= a2 < a + 1 && !excluded@[a2]
                            && (exists|y: BlockRef| ancestor_candidate(*dag, a2, round, y))
                            implies exists|i: int| 0 <= i < out@.len()
                                && (#[trigger] out@[i]).author as int == a2 by {
                            if a2 == a as int {
                                assert(out@[pre.len() as int].author as int == a2);
                            } else {
                                let i = choose|i: int| 0 <= i < pre.len()
                                    && (#[trigger] pre[i]).author as int == a2;
                                assert(out@[i].author as int == a2);
                            }
                        }
                    }
                },
                None => {},
            }
        }
        a = a + 1;
    }
    out
}

/// The sequential proposal state of this validator.
pub struct Core {
    pub author: AuthorityIndex,
    pub last_proposed_round: Round,
}

impl Core {
    pub fn new(author: AuthorityIndex) -> (r: Core)
        ensures
            r.author == author,
            r.last_proposed_round == 0,
    {
        Core { author, last_proposed_round: 0 }
    }

    /// Assembles a proposal for `clock_round` exactly when one is due:
    /// the clock must have moved past the last proposed round, and the
    /// default ancestor selection must cover a stake quorum of the
    /// previous round — under those two conditions a proposal is owed,
    /// and under no others. Transactions beyond the batch cap are left
    /// for a later proposal. On success the proposal round is exactly
    /// the clock round and the state advances to it; the proposal state
    /// never moves backward.
    #[verifier::loop_isolation(false)]
    pub fn try_propose(
        &mut self,
        dag: &DagState,
        c: &Committee,
        clock_round: Round,
        timestamp_ms: u64,
        mut transactions: Vec<Transaction>,
        excluded: &Vec<bool>,
    ) -> (o: Option<BlockProposal>)
        requires
            dag.wf(*c),
            c.wf(),
            excluded@.len() == c.spec_size(),
            clock_round >= 1,
        ensures
            final(self).author == old(self).author,
            final(self).last_proposed_round >= old(self).last_proposed_round,
            o is None ==> *final(self) == *old(self),
            o is Some ==> final(self).last_proposed_round == clock_round
                && clock_round > old(self).last_proposed_round,
            (o is None) <==> (clock_round <= old(self).last_proposed_round
                || voted_stake(c.stakes(), proposal_votes(*dag, *c, clock_round, excluded@))
                    < quorum_of(c.total as int)),
            o is Some ==> ({
                let p = o->Some_0;
                &&& p.author == old(self).author
                &&& p.round == clock_round
                &&& p.timestamp_ms == timestamp_ms
                &&& p.transactions@.len() <= MAX_PROPOSAL_TRANSACTIONS
                &&& (forall|i: int, j: int| 0 <= i < j < p.ancestors@.len()
                    ==> (#[trigger] p.ancestors@[i]).author
                        != (#[trigger] p.ancestors@[j]).author)
                &&& (forall|i: int| 0 <= i < p.ancestors@.len()
                    ==> (#[trigger] p.ancestors@[i]).round < clock_round
                        && dag.contains_ref(p.ancestors@[i]))
                &&& voted_stake(c.stakes(), ancestor_votes(p.ancestors@, clock_round,
                    c.spec_size())) >= quorum_of(c.total as int)
            }),
    {
        if clock_round <= self.last_proposed_round {
            return None;
        }
        let ancestors = select_ancestors(dag, c, clock_round, excluded);
        // the previous round must be covered by a stake quorum
        let n = c.size();
        let mut agg = StakeAggregator::new(c);
        let ghost target = ancestor_votes(ancestors@, clock_round, c.spec_size());
        let mut k: usize = 0;
        while k < ancestors.len()
            invariant
                0 <= k <= ancestors@.len(),
                agg.wf(*c),
                forall|i: int| 0 <= i < ancestors@.len()
                    ==> 0 <= (#[trigger] ancestors@[i]).author < n,
                forall|i: int| 0 <= i < c.spec_size()
                    ==> (#[trigger] agg.votes@[i] <==> exists|w: int| 0 <= w < k
                        && (#[trigger] ancestors@[w]).author == i
                        && ancestors@[w].round == clock_round - 1),
            decreases ancestors@.len() - k,
        {
            let x = ancestors[k];
            if x.round == clock_round - 1 {
                agg.add(x.author, c);
                proof {
                    assert forall|i: int| 0 <= i < c.spec_size()
                        implies (#[trigger] agg.votes@[i] <==> exists|w: int| 0 <= w < k + 1
                            && (#[trigger] ancestors@[w]).author == i
                            && ancestors@[w].round == clock_round - 1) by {
                        if agg.votes@[i] && i == x.author as int {
                            assert(ancestors@[k as int].author == i
                                && ancestors@[k as int].round == clock_round - 1);
                        }
                    }
                }
            }
            k = k + 1;
        }
        proof {
            assert(agg.votes@ =~= target);
            // the selected set carries a previous-round parent for exactly
            // the authors that proposal_votes admits
            assert forall|i: int| 0 <= i < c.spec_size()
                implies target[i] == proposal_votes(*dag, *c, clock_round, excluded@)[i] by {
                if target[i] {
                    let w = choose|w: int| 0 <= w < ancestors@.len()
                        && (#[trigger] ancestors@[w]).author == i
                        && ancestors@[w].round == clock_round - 1;
                    assert(ancestor_candidate(*dag, i, clock_round, ancestors@[w]));
                    assert(!excluded@[i]);
                }
                if proposal_votes(*dag, *c, clock_round, excluded@)[i] {
                    let x = choose|x: BlockRef| #[trigger] ancestor_candidate(*dag, i,
                        clock_round, x) && x.round == clock_round - 1;
                    let w = choose|w: int| 0 <= w < ancestors@.len()
                        && (#[trigger] ancestors@[w]).author as int == i;
                    assert(preferred(ancestors@[w], x));
                    assert(ancestors@[w].round == clock_round - 1);
                }
            }
            assert(target =~= proposal_votes(*dag, *c, clock_round, excluded@));
        }
        if !agg.reached_quorum(c) {
            return None;
        }
        transactions.truncate(MAX_PROPOSAL_TRANSACTIONS);
        self.last_proposed_round = clock_round;
        Some(BlockProposal {
            author: self.author,
            round: clock_round,
            timestamp_ms,
            ancestors,
            transactions,
        })
    }
}

} // verus!
