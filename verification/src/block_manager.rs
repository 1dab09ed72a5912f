//! Admits verified blocks into the DAG only once causally complete.
//! Blocks with missing ancestors are buffered (up to a fixed cap) and
//! re-evaluated whenever a new block is accepted, which may cascade.
//! Equivocations — two blocks by one author at one round with different
//! digests — are detected and retained as evidence; both blocks stay in
//! the DAG but the pair is reported.

use vstd::prelude::*;
use crate::block::{Block, BlockRef};
use crate::committee::Committee;
use crate::dag_state::{DagState, InsertResult};

verus! {

/// Most blocks the manager will buffer while their ancestors are fetched.
pub const MAX_SUSPENDED: usize = 2048;

/// What became of one offered block.
#[derive(Clone, Copy, PartialEq, Eq, Structural, Debug)]
pub enum AcceptStatus {
    /// Stored in the DAG (or already there).
    Accepted,
    /// Buffered until the missing ancestors arrive.
    Suspended,
    /// The buffer is full; the block was dropped and must be re-sent.
    Dropped,
}

/// Block `b` misses at least one ancestor in `dag`: some ancestor
/// reference above the garbage-collection horizon is not stored.
pub open spec fn misses_ancestor(b: Block, dag: DagState) -> bool {
    exists|k: int| 0 <= k < b@.ancestors.len()
        && !dag.ancestor_satisfied(#[trigger] b@.ancestors[k])
}

pub struct BlockManager {
    /// Verified blocks waiting for missing ancestors.
    pub suspended: Vec<Block>,
    /// Evidence of equivocation: pairs of same-slot references with
    /// different digests, first the stored block, then the newcomer.
    pub equivocations: Vec<(BlockRef, BlockRef)>,
}

impl BlockManager {
    /// The buffer is bounded, every buffered block is structurally valid
    /// (so re-offering it to the DAG stays legitimate), and every
    /// buffered block genuinely misses an ancestor in the DAG — nothing
    /// admissible is ever left behind.
    pub open spec fn wf(self, dag: DagState, c: Committee) -> bool {
        &&& self.suspended@.len() <= MAX_SUSPENDED
        &&& forall|i: int| 0 <= i < self.suspended@.len()
            ==> (#[trigger] self.suspended@[i]@).valid_structure(c.spec_size())
        &&& forall|i: int| 0 <= i < self.suspended@.len()
            ==> misses_ancestor(#[trigger] self.suspended@[i], dag)
    }

    pub fn new() -> (r: BlockManager)
        ensures
            r.suspended@.len() == 0,
            r.equivocations@.len() == 0,
    {
        BlockManager { suspended: Vec::new(), equivocations: Vec::new() }
    }

    /// Offers one verified block. If all its ancestors are satisfied it is
    /// accepted at once (idempotently on duplicates), and buffered blocks
    /// are re-evaluated until a full pass admits none, so nothing
    /// admissible stays buffered; otherwise it is buffered — or dropped
    /// when the buffer is full — and the missing ancestor references are
    /// returned for the synchronizer to fetch. A block occupying an
    /// already-filled slot with a different digest is recorded as
    /// equivocation evidence, and still stored.
    ///
    /// The DAG only grows, its invariants are preserved, and the offered
    /// block is accepted exactly when its ancestors were satisfied at the
    /// moment of the call.
    pub fn try_accept(&mut self, dag: &mut DagState, b: Block, c: &Committee)
        -> (r: (AcceptStatus, Vec<BlockRef>))
        requires
            old(self).wf(*old(dag), *c),
            old(dag).wf(*c),
            b@.valid_structure(c.spec_size()),
        ensures
            final(self).wf(*final(dag), *c),
            final(dag).wf(*c),
            final(dag).gc_round == old(dag).gc_round,
            final(dag).last_commit_round == old(dag).last_commit_round,
            forall|x: BlockRef| old(dag).contains_ref(x) ==> final(dag).contains_ref(x),
            r.0 is Accepted <==> (old(dag).contains_ref(b@.reference())
                || (forall|k: int| 0 <= k < b@.ancestors.len()
                    ==> old(dag).ancestor_satisfied(#[trigger] b@.ancestors[k]))),
            r.0 is Accepted ==> final(dag).contains_ref(b@.reference()),
            r.0 is Accepted ==> r.1@.len() == 0,
            !(r.0 is Accepted) ==> (forall|a: BlockRef| #[trigger] r.1@.contains(a)
                <==> (b@.ancestors.contains(a) && !old(dag).ancestor_satisfied(a))),
            old(dag).contains_ref(b@.reference()) ==> *final(dag) == *old(dag),
            // the buffer: admitted below the cap, dropped at it
            r.0 is Suspended <==> (!(r.0 is Accepted)
                && old(self).suspended@.len() < MAX_SUSPENDED),
            r.0 is Suspended ==> final(self).suspended@ == old(self).suspended@.push(b),
            r.0 is Dropped <==> (!(r.0 is Accepted)
                && old(self).suspended@.len() == MAX_SUSPENDED),
            r.0 is Dropped ==> final(self).suspended@ == old(self).suspended@,
            // quiescence: every block still buffered misses an ancestor
            forall|i: int| 0 <= i < final(self).suspended@.len()
                ==> misses_ancestor(#[trigger] final(self).suspended@[i], *final(dag)),
            // equivocation evidence: recorded exactly when the slot is
            // already occupied by a block with another digest
            (exists|x: BlockRef| #[trigger] old(dag).contains_ref(x) && x.author == b@.author
                && x.round == b@.round && x.digest != b@.digest)
                ==> final(self).equivocations@.len() == old(self).equivocations@.len() + 1
                    && final(self).equivocations@.last().1 == b@.reference()
                    && old(dag).contains_ref(final(self).equivocations@.last().0)
                    && final(self).equivocations@.last().0.author == b@.author
                    && final(self).equivocations@.last().0.round == b@.round
                    && final(self).equivocations@.last().0.digest != b@.digest
                    && final(self).equivocations@.subrange(0,
                        old(self).equivocations@.len() as int) == old(self).equivocations@,
            !(exists|x: BlockRef| #[trigger] old(dag).contains_ref(x) && x.author == b@.author
                && x.round == b@.round && x.digest != b@.digest)
                ==> final(self).equivocations@ == old(self).equivocations@,
    {
        let block_ref = b.reference();
        let equivocator = self.find_equivocation(dag, &b);
        match equivocator {
            Some(other) => {
                let ghost pre_ev = self.equivocations@;
                self.equivocations.push((other, block_ref));
                proof {
                    assert(self.equivocations@.last() == (other, block_ref));
                    assert(self.equivocations@.subrange(0, pre_ev.len() as int) =~= pre_ev);
                }
            },
            None => {},
        }
        let outcome = dag.insert(&b, c);
        match outcome {
            InsertResult::Duplicate => (AcceptStatus::Accepted, Vec::new()),
            InsertResult::Accepted => {
                self.flush_suspended(dag, c);
                (AcceptStatus::Accepted, Vec::new())
            },
            InsertResult::MissingAncestors(missing) => {
                if self.suspended.len() < MAX_SUSPENDED {
                    let ghost pre = self.suspended@;
                    let ghost m0 = missing@[0];
                    self.suspended.push(b);
                    proof {
                        assert(missing@.contains(m0)) by {
                            assert(missing@[0] == m0);
                        }
                        let kk = choose|kk: int| 0 <= kk < b@.ancestors.len()
                            && b@.ancestors[kk] == m0;
                        assert(misses_ancestor(b, *dag)) by {
                            assert(!dag.ancestor_satisfied(b@.ancestors[kk]));
                        }
                        assert forall|i: int| 0 <= i < self.suspended@.len()
                            implies (#[trigger] self.suspended@[i]@).valid_structure(c.spec_size())
                                && misses_ancestor(self.suspended@[i], *dag) by {
                            if i < pre.len() {
                                assert(self.suspended@[i] == pre[i]);
                                assert(pre[i] == old(self).suspended@[i]);
                            } else {
                                assert(self.suspended@[i] == b);
                            }
                        }
                    }
                    (AcceptStatus::Suspended, missing)
                } else {
                    (AcceptStatus::Dropped, missing)
                }
            },
        }
    }

    /// Re-inserts buffered blocks until a full pass accepts none. Any
    /// block whose ancestors have all arrived moves into the DAG; the
    /// rest stay buffered.
    #[verifier::loop_isolation(false)]
    fn flush_suspended(&mut self, dag: &mut DagState, c: &Committee)
        requires
            old(self).suspended@.len() <= MAX_SUSPENDED,
            forall|i: int| 0 <= i < old(self).suspended@.len()
                ==> (#[trigger] old(self).suspended@[i]@).valid_structure(c.spec_size()),
            old(dag).wf(*c),
        ensures
            final(self).wf(*final(dag), *c),
            final(dag).wf(*c),
            final(dag).gc_round == old(dag).gc_round,
            final(dag).last_commit_round == old(dag).last_commit_round,
            forall|x: BlockRef| old(dag).contains_ref(x) ==> final(dag).contains_ref(x),
            final(self).suspended@.len() <= old(self).suspended@.len(),
            final(self).equivocations@ == old(self).equivocations@,
    {
        let mut progress = true;
        while progress
            invariant
                self.suspended@.len() <= old(self).suspended@.len(),
                forall|i: int| 0 <= i < self.suspended@.len()
                    ==> (#[trigger] self.suspended@[i]@).valid_structure(c.spec_size()),
                dag.wf(*c),
                dag.gc_round == old(dag).gc_round,
                dag.last_commit_round == old(dag).last_commit_round,
                forall|x: BlockRef| old(dag).contains_ref(x) ==> dag.contains_ref(x),
                self.equivocations@ == old(self).equivocations@,
                !progress ==> forall|i: int| 0 <= i < self.suspended@.len()
                    ==> misses_ancestor(#[trigger] self.suspended@[i], *dag),
            decreases 2 * self.suspended@.len() + if progress { 1int } else { 0int },
        {
            progress = false;
            let mut remaining: Vec<Block> = Vec::new();
            let mut queue: Vec<Block> = Vec::new();
            core::mem::swap(&mut queue, &mut self.suspended);
            let ghost qlen = queue@.len();
            let ghost pass_dag = *dag;
            while queue.len() > 0
                invariant
                    dag.wf(*c),
                    dag.gc_round == old(dag).gc_round,
                    dag.last_commit_round == old(dag).last_commit_round,
                    forall|x: BlockRef| old(dag).contains_ref(x) ==> dag.contains_ref(x),
                    forall|i: int| 0 <= i < queue@.len()
                        ==> (#[trigger] queue@[i]@).valid_structure(c.spec_size()),
                    forall|i: int| 0 <= i < remaining@.len()
                        ==> (#[trigger] remaining@[i]@).valid_structure(c.spec_size()),
                    remaining@.len() + queue@.len() <= qlen,
                    progress ==> remaining@.len() + queue@.len() < qlen,
                    !progress ==> *dag == pass_dag,
                    !progress ==> forall|i: int| 0 <= i < remaining@.len()
                        ==> misses_ancestor(#[trigger] remaining@[i], *dag),
                decreases queue@.len(),
            {
                match queue.pop() {
                    Some(candidate) => {
                        match dag.insert(&candidate, c) {
                            InsertResult::MissingAncestors(gap) => {
                                let ghost pre_rem = remaining@;
                                let ghost m0 = gap@[0];
                                remaining.push(candidate);
                                proof {
                                    if !progress {
                                        assert(gap@.contains(m0)) by {
                                            assert(gap@[0] == m0);
                                        }
                                        let kk = choose|kk: int|
                                            0 <= kk < remaining@.last()@.ancestors.len()
                                            && remaining@.last()@.ancestors[kk] == m0;
                                        assert(misses_ancestor(remaining@.last(), *dag)) by {
                                            assert(!dag.ancestor_satisfied(
                                                remaining@.last()@.ancestors[kk]));
                                        }
                                        assert forall|i: int| 0 <= i < remaining@.len()
                                            implies misses_ancestor(
                                                #[trigger] remaining@[i], *dag) by {
                                            if i < pre_rem.len() {
                                                assert(remaining@[i] == pre_rem[i]);
                                            } else {
                                                assert(remaining@[i] == remaining@.last());
                                            }
                                        }
                                    }
                                }
                            },
                            _ => {
                                progress = true;
                            },
                        }
                    },
                    None => {},
                }
            }
            let ghost rem = remaining@;
            self.suspended = remaining;
            proof {
                if !progress {
                    assert forall|i: int| 0 <= i < self.suspended@.len()
                        implies misses_ancestor(#[trigger] self.suspended@[i], *dag) by {
                        assert(self.suspended@[i] == rem[i]);
                        assert(misses_ancestor(rem[i], *dag));
                    }
                }
            }
        }
    }

    /// Scans the DAG for a block occupying the same slot as `b` with a
    /// different digest.
    fn find_equivocation(&self, dag: &DagState, b: &Block) -> (o: Option<BlockRef>)
        ensures
            o is Some ==> dag.contains_ref(o->Some_0)
                && o->Some_0.author == b@.author && o->Some_0.round == b@.round
                && o->Some_0.digest != b@.digest,
            o is None ==> forall|x: BlockRef| #[trigger] dag.contains_ref(x)
                ==> !(x.author == b@.author && x.round == b@.round && x.digest != b@.digest),
    {
        let mut i: usize = 0;
        while i < dag.blocks.len()
            invariant
                0 <= i <= dag.blocks@.len(),
                forall|k: int| 0 <= k < i
                    ==> !((#[trigger] dag.refs()[k]).author == b@.author
                        && dag.refs()[k].round == b@.round && dag.refs()[k].digest != b@.digest),
            decreases dag.blocks@.len() - i,
        {
            let candidate = dag.blocks[i].reference();
            if candidate.author == b.author && candidate.round == b.round
                && candidate.digest != b.digest {
                proof {
                    assert(dag.refs()[i as int] == candidate);
                    assert(dag.contains_ref(candidate));
                }
                return Some(candidate);
            }
            i = i + 1;
        }
        proof {
            assert forall|x: BlockRef| #[trigger] dag.contains_ref(x)
                implies !(x.author == b@.author && x.round == b@.round && x.digest != b@.digest) by {
                let k = choose|k: int| 0 <= k < dag.refs().len() && dag.refs()[k] == x;
            }
        }
        None
    }
}

} // verus!
