//! Structural validation of incoming blocks. Signature checking happens in
//! the external crypto layer before a block reaches this core; equivocation
//! against already-accepted blocks is the block manager's job, since it
//! needs the DAG. Rejection is per block and never fatal.

use vstd::prelude::*;
use crate::block::{Block, BlockData};
use crate::committee::Committee;
use crate::stake_aggregator::StakeAggregator;

verus! {

/// Most transaction batches a block may carry.
pub const MAX_TRANSACTIONS: usize = 512;

/// Largest accepted transaction batch, in bytes.
pub const MAX_TRANSACTION_BYTES: usize = 262144;

#[derive(Clone, Copy, PartialEq, Eq, Structural, Debug)]
pub enum VerifyError {
    /// The claimed author is not a committee member.
    UnknownAuthor,
    /// An ancestor's author is not a committee member.
    UnknownAncestorAuthor,
    /// An ancestor does not come from a strictly lower round.
    AncestorRoundNotLower,
    /// Two ancestors claim the same author.
    DuplicateAncestorAuthor,
    /// A genesis block carries ancestors.
    GenesisWithAncestors,
    /// The ancestors at the previous round do not cover a stake quorum.
    InsufficientAncestorStake,
    /// The block carries more transaction batches than allowed.
    TooManyTransactions,
    /// A transaction batch exceeds the byte limit.
    TransactionTooLarge,
}

/// The vote set formed by a block's ancestors from its previous round.
pub open spec fn parent_votes(b: BlockData, n: int) -> Seq<bool> {
    Seq::new(n as nat, |i: int| exists|k: int|
        0 <= k < b.ancestors.len() && (#[trigger] b.ancestors[k]).author == i
            && b.ancestors[k].round == b.round - 1)
}

/// The decision the verifier owes for each block: the first failed check,
/// in a fixed order, or acceptance.
pub open spec fn verify_spec(b: BlockData, c: Committee) -> Result<(), VerifyError> {
    let n = c.spec_size();
    if !(0 <= b.author < n) {
        Err(VerifyError::UnknownAuthor)
    } else if b.round == 0 && b.ancestors.len() > 0 {
        Err(VerifyError::GenesisWithAncestors)
    } else if !(forall|k: int| 0 <= k < b.ancestors.len()
        ==> 0 <= (#[trigger] b.ancestors[k]).author < n) {
        Err(VerifyError::UnknownAncestorAuthor)
    } else if !(forall|k: int| 0 <= k < b.ancestors.len()
        ==> (#[trigger] b.ancestors[k]).round < b.round) {
        Err(VerifyError::AncestorRoundNotLower)
    } else if !(forall|i: int, j: int| 0 <= i < j < b.ancestors.len()
        ==> (#[trigger] b.ancestors[i]).author != (#[trigger] b.ancestors[j]).author) {
        Err(VerifyError::DuplicateAncestorAuthor)
    } else if b.round > 0
        && crate::committee::voted_stake(c.stakes(), parent_votes(b, n))
            < crate::committee::quorum_of(c.total as int) {
        Err(VerifyError::InsufficientAncestorStake)
    } else if b.transactions.len() > MAX_TRANSACTIONS {
        Err(VerifyError::TooManyTransactions)
    } else if !(forall|t: int| 0 <= t < b.transactions.len()
        ==> (#[trigger] b.transactions[t]).len() <= MAX_TRANSACTION_BYTES) {
        Err(VerifyError::TransactionTooLarge)
    } else {
        Ok(())
    }
}

/// Checks one incoming block against the committee. Returns `Ok` exactly
/// when every structural rule holds, and otherwise the first violated
/// rule, so that a misbehaving peer can be penalized but never crashes
/// the node.
#[verifier::loop_isolation(false)]
pub fn verify_block(b: &Block, c: &Committee) -> (r: Result<(), VerifyError>)
    requires
        c.wf(),
    ensures
        r == verify_spec(b@, *c),
        r is Ok ==> b@.valid_structure(c.spec_size()),
{
    let n = c.size();
    if b.author >= n {
        return Err(VerifyError::UnknownAuthor);
    }
    if b.round == 0 && b.ancestors.len() > 0 {
        return Err(VerifyError::GenesisWithAncestors);
    }
    let mut k: usize = 0;
    while k < b.ancestors.len()
        invariant
            0 <= k <= b@.ancestors.len(),
            forall|j: int| 0 <= j < k ==> 0 <= (#[trigger] b@.ancestors[j]).author < n,
        decreases b@.ancestors.len() - k,
    {
        if b.ancestors[k].author >= n {
            return Err(VerifyError::UnknownAncestorAuthor);
        }
        k = k + 1;
    }
    k = 0;
    while k < b.ancestors.len()
        invariant
            0 <= k <= b@.ancestors.len(),
            forall|j: int| 0 <= j < k ==> (#[trigger] b@.ancestors[j]).round < b@.round,
        decreases b@.ancestors.len() - k,
    {
        if b.ancestors[k].round >= b.round {
            return Err(VerifyError::AncestorRoundNotLower);
        }
        k = k + 1;
    }
    k = 0;
    while k < b.ancestors.len()
        invariant
            0 <= k <= b@.ancestors.len(),
            forall|i: int, j: int| 0 <= i < j < k
                ==> (#[trigger] b@.ancestors[i]).author != (#[trigger] b@.ancestors[j]).author,
        decreases b@.ancestors.len() - k,
    {
        let mut j: usize = 0;
        while j < k
            invariant
                0 <= j <= k < b@.ancestors.len(),
                forall|i: int| 0 <= i < j
                    ==> (#[trigger] b@.ancestors[i]).author != b@.ancestors[k as int].author,
            decreases k - j,
        {
            if b.ancestors[j].author == b.ancestors[k].author {
                return Err(VerifyError::DuplicateAncestorAuthor);
            }
            j = j + 1;
        }
        k = k + 1;
    }
    if b.round > 0 {
        let mut agg = StakeAggregator::new(c);
        let ghost target = parent_votes(b@, c.spec_size());
        k = 0;
        while k < b.ancestors.len()
            invariant
                0 <= k <= b@.ancestors.len(),
                agg.wf(*c),
                forall|i: int| 0 <= i < c.spec_size()
                    ==> (#[trigger] agg.votes@[i] <==> exists|w: int|
                        0 <= w < k && (#[trigger] b@.ancestors[w]).author == i
                            && b@.ancestors[w].round == b@.round - 1),
            decreases b@.ancestors.len() - k,
        {
            let a = b.ancestors[k];
            if a.round == b.round - 1 {
                agg.add(a.author, c);
                proof {
                    assert forall|i: int| 0 <= i < c.spec_size()
                        implies (#[trigger] agg.votes@[i] <==> exists|w: int|
                            0 <= w < k + 1 && (#[trigger] b@.ancestors[w]).author == i
                                && b@.ancestors[w].round == b@.round - 1) by {
                        if agg.votes@[i] {
                            if i == a.author as int {
                                assert(b@.ancestors[k as int].author == i
                                    && b@.ancestors[k as int].round == b@.round - 1);
                            }
                        }
                    }
                }
            } else {
                proof {
                    assert forall|i: int| 0 <= i < c.spec_size()
                        implies (#[trigger] agg.votes@[i] <==> exists|w: int|
                            0 <= w < k + 1 && (#[trigger] b@.ancestors[w]).author == i
                                && b@.ancestors[w].round == b@.round - 1) by {
                    }
                }
            }
            k = k + 1;
        }
        proof {
            assert(agg.votes@ =~= target);
        }
        if !agg.reached_quorum(c) {
            return Err(VerifyError::InsufficientAncestorStake);
        }
    }
    if b.transactions.len() > MAX_TRANSACTIONS {
        return Err(VerifyError::TooManyTransactions);
    }
    let mut t: usize = 0;
    while t < b.transactions.len()
        invariant
            0 <= t <= b@.transactions.len(),
            forall|i: int| 0 <= i < t
                ==> (#[trigger] b@.transactions[i]).len() <= MAX_TRANSACTION_BYTES,
        decreases b@.transactions.len() - t,
    {
        if b.transactions[t].data.len() > MAX_TRANSACTION_BYTES {
            proof {
                assert(b@.transactions[t as int].len() > MAX_TRANSACTION_BYTES);
            }
            return Err(VerifyError::TransactionTooLarge);
        }
        t = t + 1;
    }
    Ok(())
}

} // verus!
