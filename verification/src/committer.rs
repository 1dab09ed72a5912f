//! The commit rule. For each round's leader slot the base committer
//! evaluates a direct decision — the leader block is committed when a
//! stake quorum of next-round blocks references it, and skipped when a
//! stake quorum of next-round blocks ignores the slot — and an indirect
//! decision against a later committed anchor. Decisions are terminal and
//! deterministic: ties among equivocating leader candidates break by
//! smallest digest, never by arrival time.

use vstd::prelude::*;
use crate::block::{Block, BlockData, BlockRef, Round, Slot};
use crate::committee::{Committee, byz_tolerance, quorum_of, voted_stake};
use crate::dag_state::DagState;
use crate::quorum::lemma_quorum_intersection;
use crate::stake_aggregator::StakeAggregator;

verus! {

/// The fate of one leader slot.
#[derive(Clone, Copy, PartialEq, Eq, Structural, Debug)]
pub enum LeaderStatus {
    Undecided,
    Commit(BlockRef),
    Skip(Slot),
}

impl LeaderStatus {
    pub open spec fn is_terminal(self) -> bool {
        !(self is Undecided)
    }
}

/// Author `i` has a stored block at round `target.round + 1` that lists
/// `target` among its ancestors.
pub open spec fn author_voted(dag: DagState, i: int, target: BlockRef) -> bool {
    exists|j: int| 0 <= j < dag.blocks@.len()
        && (#[trigger] dag.blocks@[j]@).author == i
        && dag.blocks@[j]@.round == target.round + 1
        && dag.blocks@[j]@.references(target)
}

/// The vote set certifying `target`.
pub open spec fn votes_for(dag: DagState, target: BlockRef, n: int) -> Seq<bool> {
    Seq::new(n as nat, |i: int| author_voted(dag, i, target))
}

/// `target` is certified: a stake quorum of next-round blocks references it.
pub open spec fn certified_spec(dag: DagState, c: Committee, target: BlockRef) -> bool {
    voted_stake(c.stakes(), votes_for(dag, target, c.spec_size())) >= quorum_of(c.total as int)
}

/// A stored block occupying the slot.
pub open spec fn slot_block(dag: DagState, slot: Slot, r: BlockRef) -> bool {
    r.author == slot.author && r.round == slot.round && dag.contains_ref(r)
}

pub open spec fn certified_slot_block(dag: DagState, c: Committee, slot: Slot, r: BlockRef) -> bool {
    slot_block(dag, slot, r) && certified_spec(dag, c, r)
}

/// A block's ancestor list points into the slot (any digest).
pub open spec fn block_supports(bd: BlockData, slot: Slot) -> bool {
    exists|k: int| 0 <= k < bd.ancestors.len()
        && (#[trigger] bd.ancestors[k]).author == slot.author
        && bd.ancestors[k].round == slot.round
}

pub open spec fn author_has_block_at(dag: DagState, i: int, round: int) -> bool {
    exists|j: int| 0 <= j < dag.blocks@.len()
        && (#[trigger] dag.blocks@[j]@).author == i && dag.blocks@[j]@.round == round
}

pub open spec fn author_supports_slot(dag: DagState, i: int, slot: Slot) -> bool {
    exists|j: int| 0 <= j < dag.blocks@.len()
        && (#[trigger] dag.blocks@[j]@).author == i
        && dag.blocks@[j]@.round == slot.round + 1
        && block_supports(dag.blocks@[j]@, slot)
}

/// Author `i` blames the slot: it produced a next-round block, and none
/// of its next-round blocks references the slot.
pub open spec fn author_blames(dag: DagState, i: int, slot: Slot) -> bool {
    author_has_block_at(dag, i, slot.round + 1) && !author_supports_slot(dag, i, slot)
}

pub open spec fn blame_votes(dag: DagState, slot: Slot, n: int) -> Seq<bool> {
    Seq::new(n as nat, |i: int| author_blames(dag, i, slot))
}

/// The slot is skipped directly when a stake quorum blames it.
pub open spec fn skipped_spec(dag: DagState, c: Committee, slot: Slot) -> bool {
    voted_stake(c.stakes(), blame_votes(dag, slot, c.spec_size())) >= quorum_of(c.total as int)
}

/// Everything the direct decision owes: committed exactly when a
/// certified leader block exists (the smallest digest wins a tie),
/// skipped exactly when no certified block exists and a quorum blames
/// the slot, undecided otherwise.
pub open spec fn direct_status_ok(dag: DagState, c: Committee, slot: Slot, st: LeaderStatus) -> bool {
    &&& ((st is Commit) <==> exists|r: BlockRef| certified_slot_block(dag, c, slot, r))
    &&& (st is Commit ==> certified_slot_block(dag, c, slot, st->Commit_0)
        && (forall|r2: BlockRef| certified_slot_block(dag, c, slot, r2)
            ==> st->Commit_0.digest <= r2.digest))
    &&& ((st is Skip) <==> (!(exists|r: BlockRef| certified_slot_block(dag, c, slot, r))
        && skipped_spec(dag, c, slot)))
    &&& (st is Skip ==> st->Skip_0 == slot)
}

/// Everything the indirect decision owes, relative to a committed later
/// anchor: committed exactly when a slot block lies in the anchor's
/// causal history (smallest digest wins), skipped otherwise — always
/// terminal.
pub open spec fn indirect_status_ok(
    dag: DagState,
    slot: Slot,
    anchor: BlockRef,
    st: LeaderStatus,
) -> bool {
    &&& ((st is Commit) <==> exists|r: BlockRef|
        slot_block(dag, slot, r) && dag.spec_is_ancestor(r, anchor))
    &&& (st is Commit ==> slot_block(dag, slot, st->Commit_0)
        && dag.spec_is_ancestor(st->Commit_0, anchor)
        && (forall|r2: BlockRef| slot_block(dag, slot, r2) && dag.spec_is_ancestor(r2, anchor)
            ==> st->Commit_0.digest <= r2.digest))
    &&& ((st is Skip) <==> !(exists|r: BlockRef|
        slot_block(dag, slot, r) && dag.spec_is_ancestor(r, anchor)))
    &&& (st is Skip ==> st->Skip_0 == slot)
    &&& st.is_terminal()
}

/// Scan for a vote by `author` certifying `target`.
#[verifier::loop_isolation(false)]
fn author_votes_for(dag: &DagState, author: usize, target: &BlockRef) -> (r: bool)
    ensures
        r == author_voted(*dag, author as int, *target),
{
    let want: u64 = target.round as u64 + 1;
    let mut j: usize = 0;
    while j < dag.blocks.len()
        invariant
            0 <= j <= dag.blocks@.len(),
            forall|i: int| 0 <= i < j ==> !((#[trigger] dag.blocks@[i]@).author == author as int
                && dag.blocks@[i]@.round == target.round + 1
                && dag.blocks@[i]@.references(*target)),
        decreases dag.blocks@.len() - j,
    {
        let b = &dag.blocks[j];
        if b.author == author && b.round as u64 == want && b.references(target) {
            return true;
        }
        j = j + 1;
    }
    false
}

/// Whether a stake quorum of next-round blocks references `target`.
#[verifier::loop_isolation(false)]
pub fn certified(dag: &DagState, c: &Committee, target: &BlockRef) -> (r: bool)
    requires
        c.wf(),
    ensures
        r == certified_spec(*dag, *c, *target),
{
    let n = c.size();
    let mut agg = StakeAggregator::new(c);
    let mut i: usize = 0;
    while i < n
        invariant
            0 <= i <= n,
            agg.wf(*c),
            forall|k: int| 0 <= k < i
                ==> #[trigger] agg.votes@[k] == author_voted(*dag, k, *target),
            forall|k: int| i <= k < n ==> !(#[trigger] agg.votes@[k]),
        decreases n - i,
    {
        if author_votes_for(dag, i, target) {
            agg.add(i, c);
        }
        i = i + 1;
    }
    proof {
        assert(agg.votes@ =~= votes_for(*dag, *target, c.spec_size()));
    }
    agg.reached_quorum(c)
}

/// Scan the ancestors of `b` for a reference into the slot.
fn supports_slot(b: &Block, slot: &Slot) -> (r: bool)
    ensures
        r == block_supports(b@, *slot),
{
    let mut k: usize = 0;
    while k < b.ancestors.len()
        invariant
            0 <= k <= b@.ancestors.len(),
            forall|j: int| 0 <= j < k ==> !((#[trigger] b@.ancestors[j]).author == slot.author
                && b@.ancestors[j].round == slot.round),
        decreases b@.ancestors.len() - k,
    {
        let a = b.ancestors[k];
        if a.author == slot.author && a.round == slot.round {
            return true;
        }
        k = k + 1;
    }
    false
}

/// Whether `author` blames the slot: produced a next-round block but
/// never referenced the slot there.
#[verifier::loop_isolation(false)]
fn author_blames_slot(dag: &DagState, author: usize, slot: &Slot) -> (r: bool)
    ensures
        r == author_blames(*dag, author as int, *slot),
{
    let want: u64 = slot.round as u64 + 1;
    let mut seen: bool = false;
    let mut j: usize = 0;
    while j < dag.blocks.len()
        invariant
            0 <= j <= dag.blocks@.len(),
            seen ==> author_has_block_at(*dag, author as int, slot.round + 1),
            !seen ==> forall|i: int| 0 <= i < j
                ==> !((#[trigger] dag.blocks@[i]@).author == author as int
                    && dag.blocks@[i]@.round == slot.round + 1),
            forall|i: int| 0 <= i < j ==> !((#[trigger] dag.blocks@[i]@).author == author as int
                && dag.blocks@[i]@.round == slot.round + 1
                && block_supports(dag.blocks@[i]@, *slot)),
        decreases dag.blocks@.len() - j,
    {
        let b = &dag.blocks[j];
        if b.author == author && b.round as u64 == want {
            if supports_slot(b, slot) {
                return false;
            }
            seen = true;
        }
        j = j + 1;
    }
    seen
}

/// Whether a stake quorum blames the slot.
#[verifier::loop_isolation(false)]
pub fn slot_blamed(dag: &DagState, c: &Committee, slot: &Slot) -> (r: bool)
    requires
        c.wf(),
    ensures
        r == skipped_spec(*dag, *c, *slot),
{
    let n = c.size();
    let mut agg = StakeAggregator::new(c);
    let mut i: usize = 0;
    while i < n
        invariant
            0 <= i <= n,
            agg.wf(*c),
            forall|k: int| 0 <= k < i
                ==> #[trigger] agg.votes@[k] == author_blames(*dag, k, *slot),
            forall|k: int| i <= k < n ==> !(#[trigger] agg.votes@[k]),
        decreases n - i,
    {
        if author_blames_slot(dag, i, slot) {
            agg.add(i, c);
        }
        i = i + 1;
    }
    proof {
        assert(agg.votes@ =~= blame_votes(*dag, *slot, c.spec_size()));
    }
    agg.reached_quorum(c)
}

/// The direct decision for a leader slot.
#[verifier::loop_isolation(false)]
pub fn try_direct_decide(dag: &DagState, c: &Committee, slot: Slot) -> (st: LeaderStatus)
    requires
        dag.wf(*c),
        c.wf(),
    ensures
        direct_status_ok(*dag, *c, slot, st),
{
    let mut best: Option<BlockRef> = None;
    let mut i: usize = 0;
    while i < dag.blocks.len()
        invariant
            0 <= i <= dag.blocks@.len(),
            best is Some ==> certified_slot_block(*dag, *c, slot, best->Some_0),
            forall|j: int| 0 <= j < i && certified_slot_block(*dag, *c, slot,
                #[trigger] dag.refs()[j])
                ==> best is Some && best->Some_0.digest <= dag.refs()[j].digest,
            best is None ==> forall|j: int| 0 <= j < i
                ==> !certified_slot_block(*dag, *c, slot, #[trigger] dag.refs()[j]),
        decreases dag.blocks@.len() - i,
    {
        let r = dag.blocks[i].reference();
        proof {
            assert(dag.refs()[i as int] == r);
            assert(dag.contains_ref(r));
        }
        if r.author == slot.author && r.round == slot.round {
            if certified(dag, c, &r) {
                match best {
                    None => {
                        best = Some(r);
                    },
                    Some(cur) => {
                        if r.digest < cur.digest {
                            best = Some(r);
                        }
                    },
                }
            }
        }
        i = i + 1;
    }
    match best {
        Some(winner) => {
            proof {
                assert forall|r2: BlockRef| certified_slot_block(*dag, *c, slot, r2)
                    implies winner.digest <= r2.digest by {
                    let j = choose|j: int| 0 <= j < dag.refs().len() && dag.refs()[j] == r2;
                    assert(certified_slot_block(*dag, *c, slot, dag.refs()[j]));
                }
            }
            LeaderStatus::Commit(winner)
        },
        None => {
            proof {
                assert forall|r2: BlockRef| !certified_slot_block(*dag, *c, slot, r2) by {
                    if dag.contains_ref(r2) {
                        let j = choose|j: int| 0 <= j < dag.refs().len() && dag.refs()[j] == r2;
                        assert(!certified_slot_block(*dag, *c, slot, dag.refs()[j]));
                    }
                }
            }
            if slot_blamed(dag, c, &slot) {
                LeaderStatus::Skip(slot)
            } else {
                LeaderStatus::Undecided
            }
        },
    }
}

/// The indirect decision for a leader slot, against a later committed
/// anchor: the slot is committed when one of its blocks lies in the
/// anchor's causal history, and skipped otherwise. Always terminal.
#[verifier::loop_isolation(false)]
pub fn try_indirect_decide(dag: &DagState, c: &Committee, slot: Slot, anchor: &BlockRef)
    -> (st: LeaderStatus)
    requires
        dag.wf(*c),
        c.wf(),
    ensures
        indirect_status_ok(*dag, slot, *anchor, st),
{
    let mut best: Option<BlockRef> = None;
    let mut i: usize = 0;
    while i < dag.blocks.len()
        invariant
            0 <= i <= dag.blocks@.len(),
            best is Some ==> slot_block(*dag, slot, best->Some_0)
                && dag.spec_is_ancestor(best->Some_0, *anchor),
            forall|j: int| 0 <= j < i && slot_block(*dag, slot, #[trigger] dag.refs()[j])
                && dag.spec_is_ancestor(dag.refs()[j], *anchor)
                ==> best is Some && best->Some_0.digest <= dag.refs()[j].digest,
            best is None ==> forall|j: int| 0 <= j < i
                ==> !(slot_block(*dag, slot, #[trigger] dag.refs()[j])
                    && dag.spec_is_ancestor(dag.refs()[j], *anchor)),
        decreases dag.blocks@.len() - i,
    {
        let r = dag.blocks[i].reference();
        proof {
            assert(dag.refs()[i as int] == r);
            assert(dag.contains_ref(r));
        }
        if r.author == slot.author && r.round == slot.round {
            if dag.is_ancestor(&r, anchor, c) {
                match best {
                    None => {
                        best = Some(r);
                    },
                    Some(cur) => {
                        if r.digest < cur.digest {
                            best = Some(r);
                        }
                    },
                }
            }
        }
        i = i + 1;
    }
    match best {
        Some(winner) => {
            proof {
                assert forall|r2: BlockRef| slot_block(*dag, slot, r2)
                    && dag.spec_is_ancestor(r2, *anchor)
                    implies winner.digest <= r2.digest by {
                    let j = choose|j: int| 0 <= j < dag.refs().len() && dag.refs()[j] == r2;
                    assert(slot_block(*dag, slot, dag.refs()[j]));
                }
            }
            LeaderStatus::Commit(winner)
        },
        None => {
            proof {
                assert forall|r2: BlockRef| !(slot_block(*dag, slot, r2)
                    && dag.spec_is_ancestor(r2, *anchor)) by {
                    if dag.contains_ref(r2) {
                        let j = choose|j: int| 0 <= j < dag.refs().len() && dag.refs()[j] == r2;
                        assert(!(slot_block(*dag, slot, dag.refs()[j])
                            && dag.spec_is_ancestor(dag.refs()[j], *anchor)));
                    }
                }
            }
            LeaderStatus::Skip(slot)
        },
    }
}

/// Author `i` equivocates at `round`: two stored blocks by `i` at `round`.
/// Under `wf` their references are distinct, so their digests differ.
pub open spec fn equivocator_at(dag: DagState, i: int, round: int) -> bool {
    exists|j1: int, j2: int| 0 <= j1 < j2 < dag.blocks@.len()
        && (#[trigger] dag.blocks@[j1]@).author == i && (#[trigger] dag.blocks@[j2]@).author == i
        && dag.blocks@[j1]@.round == round && dag.blocks@[j2]@.round == round
}

pub open spec fn equivocator_votes(dag: DagState, round: int, n: int) -> Seq<bool> {
    Seq::new(n as nat, |i: int| equivocator_at(dag, i, round))
}

/// Commit safety: in a committee whose total stake is `3f + 1`, if the
/// stake of authors equivocating at the voting round is at most `f`,
/// then any two certified blocks in one leader slot are the same block —
/// at most one block is ever committed per slot.
pub proof fn lemma_commit_safety(dag: DagState, c: Committee, b1: BlockRef, b2: BlockRef)
    requires
        dag.wf(c),
        c.wf(),
        c.total as int == 3 * byz_tolerance(c.total as int) + 1,
        b1.author == b2.author,
        b1.round == b2.round,
        certified_spec(dag, c, b1),
        certified_spec(dag, c, b2),
        voted_stake(c.stakes(), equivocator_votes(dag, b1.round + 1, c.spec_size()))
            <= byz_tolerance(c.total as int),
    ensures
        b1 == b2,
{
    if b1.digest == b2.digest {
        return;
    }
    let n = c.spec_size();
    let stakes = c.stakes();
    let v1 = votes_for(dag, b1, n);
    let v2 = votes_for(dag, b2, n);
    let eq = equivocator_votes(dag, b1.round + 1, n);
    lemma_quorum_intersection(stakes, v1, v2, eq);
    let i = choose|i: int| 0 <= i < n && v1[i] && v2[i] && !eq[i];
    assert(author_voted(dag, i, b1));
    assert(author_voted(dag, i, b2));
    let j1 = choose|j: int| 0 <= j < dag.blocks@.len()
        && (#[trigger] dag.blocks@[j]@).author == i
        && dag.blocks@[j]@.round == b1.round + 1
        && dag.blocks@[j]@.references(b1);
    let j2 = choose|j: int| 0 <= j < dag.blocks@.len()
        && (#[trigger] dag.blocks@[j]@).author == i
        && dag.blocks@[j]@.round == b2.round + 1
        && dag.blocks@[j]@.references(b2);
    if j1 != j2 {
        assert(equivocator_at(dag, i, b1.round + 1)) by {
            if j1 < j2 {
                assert(0 <= j1 < j2 < dag.blocks@.len()
                    && dag.blocks@[j1]@.author == i && dag.blocks@[j2]@.author == i
                    && dag.blocks@[j1]@.round == b1.round + 1
                    && dag.blocks@[j2]@.round == b1.round + 1);
            } else {
                assert(0 <= j2 < j1 < dag.blocks@.len()
                    && dag.blocks@[j2]@.author == i && dag.blocks@[j1]@.author == i
                    && dag.blocks@[j2]@.round == b1.round + 1
                    && dag.blocks@[j1]@.round == b1.round + 1);
            }
        }
        assert(false);
    } else {
        let bd = dag.blocks@[j1]@;
        assert(bd.valid_structure(c.spec_size()));
        let k1 = choose|k: int| 0 <= k < bd.ancestors.len() && bd.ancestors[k] == b1;
        let k2 = choose|k: int| 0 <= k < bd.ancestors.len() && bd.ancestors[k] == b2;
        assert(bd.ancestors[k1] == b1 && bd.ancestors[k2] == b2);
        assert(k1 != k2);
        if k1 < k2 {
            assert(bd.ancestors[k1].author != bd.ancestors[k2].author);
        } else {
            assert(bd.ancestors[k2].author != bd.ancestors[k1].author);
        }
        assert(false);
    }
}

/// Bounded resolution of one slot: as soon as either quorum condition
/// holds — a certified leader block, or a stake quorum blaming the slot,
/// which a synchronous round with a responsive quorum delivers — the
/// direct decision is terminal, never undecided.
pub proof fn lemma_quorum_round_resolves(dag: DagState, c: Committee, slot: Slot, st: LeaderStatus)
    requires
        direct_status_ok(dag, c, slot, st),
        (exists|r: BlockRef| certified_slot_block(dag, c, slot, r)) || skipped_spec(dag, c, slot),
    ensures
        st.is_terminal(),
{
}

/// Determinism of the direct decision: any two statuses that satisfy the
/// direct contract for the same DAG, committee and slot are equal — all
/// honest replicas with the same accepted DAG prefix decide alike.
pub proof fn lemma_direct_determinism(
    dag: DagState,
    c: Committee,
    slot: Slot,
    st1: LeaderStatus,
    st2: LeaderStatus,
)
    requires
        direct_status_ok(dag, c, slot, st1),
        direct_status_ok(dag, c, slot, st2),
    ensures
        st1 == st2,
{
    if st1 is Commit {
        assert(st2 is Commit);
        let r1 = st1->Commit_0;
        let r2 = st2->Commit_0;
        assert(r1.digest <= r2.digest && r2.digest <= r1.digest);
        assert(r1.author == slot.author && r2.author == slot.author);
        assert(r1.round == slot.round && r2.round == slot.round);
    }
}

/// Determinism of the indirect decision, likewise.
pub proof fn lemma_indirect_determinism(
    dag: DagState,
    slot: Slot,
    anchor: BlockRef,
    st1: LeaderStatus,
    st2: LeaderStatus,
)
    requires
        indirect_status_ok(dag, slot, anchor, st1),
        indirect_status_ok(dag, slot, anchor, st2),
    ensures
        st1 == st2,
{
    if st1 is Commit {
        assert(st2 is Commit);
        let r1 = st1->Commit_0;
        let r2 = st2->Commit_0;
        assert(r1.digest <= r2.digest && r2.digest <= r1.digest);
    }
}

/// Pins down what a decision batch may look like: consecutive rounds
/// above `base`, the scheduled leader in each, the deterministic direct
/// decision for each slot, all terminal, and no early stop — the batch
/// ends only at `up_to` or at the first genuinely undecided round.
pub open spec fn decision_batch_ok(
    dag: DagState,
    c: Committee,
    schedule: crate::leader_schedule::LeaderSchedule,
    base: Round,
    up_to: Round,
    d: Seq<(Slot, LeaderStatus)>,
) -> bool {
    &&& base + d.len() <= up_to
    &&& forall|i: int| 0 <= i < d.len() ==> (#[trigger] d[i]).0.round == base + 1 + i
    &&& forall|i: int| 0 <= i < d.len()
        ==> (#[trigger] d[i]).0.author as int == schedule.leader_spec(d[i].0.round)
    &&& forall|i: int| 0 <= i < d.len()
        ==> direct_status_ok(dag, c, (#[trigger] d[i]).0, d[i].1)
    &&& forall|i: int| 0 <= i < d.len() ==> (#[trigger] d[i]).1.is_terminal()
    &&& (base + d.len() < up_to ==> direct_status_ok(dag, c,
        Slot {
            author: schedule.leader_spec((base + d.len() + 1) as Round) as usize,
            round: (base + d.len() + 1) as Round,
        },
        LeaderStatus::Undecided))
}

/// Agreement: two honest replicas that run the committer over the same
/// accepted DAG, committee, schedule and round window produce the same
/// decision sequence.
pub proof fn lemma_commit_sequence_agreement(
    dag: DagState,
    c: Committee,
    schedule: crate::leader_schedule::LeaderSchedule,
    base: Round,
    up_to: Round,
    d1: Seq<(Slot, LeaderStatus)>,
    d2: Seq<(Slot, LeaderStatus)>,
)
    requires
        up_to < Round::MAX,
        decision_batch_ok(dag, c, schedule, base, up_to, d1),
        decision_batch_ok(dag, c, schedule, base, up_to, d2),
    ensures
        d1 == d2,
{
    if d1.len() < d2.len() {
        let i = d1.len() as int;
        assert(d2[i].0.round == base + 1 + i);
        lemma_direct_determinism(dag, c, d2[i].0, d2[i].1, LeaderStatus::Undecided);
        assert(false);
    }
    if d2.len() < d1.len() {
        let i = d2.len() as int;
        assert(d1[i].0.round == base + 1 + i);
        lemma_direct_determinism(dag, c, d1[i].0, d1[i].1, LeaderStatus::Undecided);
        assert(false);
    }
    assert forall|i: int| 0 <= i < d1.len() implies d1[i] == d2[i] by {
        assert(d1[i].0.round == d2[i].0.round);
        assert(d1[i].0.author == d2[i].0.author);
        lemma_direct_determinism(dag, c, d1[i].0, d1[i].1, d2[i].1);
    }
    assert(d1 =~= d2);
}

/// Serializes per-round direct decisions into one strictly increasing
/// sequence. A decision, once recorded, is never revisited: the committer
/// only ever decides rounds above `last_decided_round`.
pub struct UniversalCommitter {
    pub last_decided_round: Round,
}

impl UniversalCommitter {
    pub fn new() -> (r: UniversalCommitter)
        ensures
            r.last_decided_round == 0,
    {
        UniversalCommitter { last_decided_round: 0 }
    }

    /// Decides leader slots round by round, from the first undecided
    /// round up to `up_to`, stopping at the first round whose direct
    /// decision is still undecided. Each decision is the deterministic
    /// direct decision for that round's scheduled leader; decided rounds
    /// are consecutive and the committer's watermark only advances.
    #[verifier::loop_isolation(false)]
    pub fn try_commit(
        &mut self,
        dag: &DagState,
        c: &Committee,
        schedule: &crate::leader_schedule::LeaderSchedule,
        up_to: Round,
    ) -> (decisions: Vec<(Slot, LeaderStatus)>)
        requires
            dag.wf(*c),
            c.wf(),
            schedule.wf(*c),
            up_to < Round::MAX,
        ensures
            final(self).last_decided_round >= old(self).last_decided_round,
            final(self).last_decided_round as int
                == old(self).last_decided_round as int + decisions@.len(),
            forall|i: int| 0 <= i < decisions@.len()
                ==> (#[trigger] decisions@[i]).0.round
                    == old(self).last_decided_round + 1 + i,
            forall|i: int| 0 <= i < decisions@.len()
                ==> (#[trigger] decisions@[i]).0.author as int
                    == schedule.leader_spec(decisions@[i].0.round),
            forall|i: int| 0 <= i < decisions@.len()
                ==> direct_status_ok(*dag, *c, (#[trigger] decisions@[i]).0, decisions@[i].1),
            forall|i: int| 0 <= i < decisions@.len()
                ==> (#[trigger] decisions@[i]).1.is_terminal(),
            final(self).last_decided_round < up_to
                ==> direct_status_ok(*dag, *c,
                    Slot {
                        author: schedule.leader_spec((final(self).last_decided_round + 1) as Round) as usize,
                        round: (final(self).last_decided_round + 1) as Round,
                    },
                    LeaderStatus::Undecided),
            old(self).last_decided_round <= up_to
                ==> decision_batch_ok(*dag, *c, *schedule, old(self).last_decided_round,
                    up_to, decisions@),
    {
        let mut decisions: Vec<(Slot, LeaderStatus)> = Vec::new();
        let base = self.last_decided_round;
        if up_to <= base {
            return decisions;
        }
        let mut round = base;
        while round < up_to
            invariant
                base <= round <= up_to,
                self.last_decided_round == round,
                decisions@.len() == round - base,
                forall|i: int| 0 <= i < decisions@.len()
                    ==> (#[trigger] decisions@[i]).0.round == base + 1 + i,
                forall|i: int| 0 <= i < decisions@.len()
                    ==> (#[trigger] decisions@[i]).0.author as int
                        == schedule.leader_spec(decisions@[i].0.round),
                forall|i: int| 0 <= i < decisions@.len()
                    ==> direct_status_ok(*dag, *c, (#[trigger] decisions@[i]).0,
                        decisions@[i].1),
                forall|i: int| 0 <= i < decisions@.len()
                    ==> (#[trigger] decisions@[i]).1.is_terminal(),
            decreases up_to - round,
        {
            let next = round + 1;
            let leader = schedule.leader_for(next, c);
            let slot = Slot::new(leader, next);
            let status = try_direct_decide(dag, c, slot);
            match status {
                LeaderStatus::Undecided => {
                    proof {
                        assert(direct_status_ok(*dag, *c, slot, LeaderStatus::Undecided));
                    }
                    break;
                },
                _ => {
                    decisions.push((slot, status));
                    self.last_decided_round = next;
                    round = next;
                },
            }
        }
        decisions
    }
}

} // verus!
