//! Authoritative in-memory store of accepted blocks. Acceptance preserves
//! three invariants: references are distinct (content addressing), every
//! stored block is structurally valid, and every ancestor of a stored block
//! is itself stored unless it lies at or below the garbage-collection
//! horizon (causal completeness).

use vstd::prelude::*;
use crate::block::{Block, BlockData, BlockRef, Round};
use crate::committee::Committee;

verus! {

/// Outcome of offering a block to the store.
pub enum InsertResult {
    /// The block was stored; all its ancestors were already present.
    Accepted,
    /// A block with the same reference is already stored; nothing changed.
    Duplicate,
    /// Some ancestors above the garbage-collection horizon are missing;
    /// nothing changed. The payload lists exactly the missing references.
    MissingAncestors(Vec<BlockRef>),
}

pub struct DagState {
    pub blocks: Vec<Block>,
    pub gc_round: Round,
    pub last_commit_round: Round,
}

impl DagState {
    /// References of the stored blocks, in storage order.
    pub open spec fn refs(self) -> Seq<BlockRef> {
        self.blocks@.map(|i: int, b: Block| b@.reference())
    }

    pub open spec fn contains_ref(self, r: BlockRef) -> bool {
        self.refs().contains(r)
    }

    /// Index of the block holding reference `r` (unique when `wf` holds).
    pub open spec fn index_of(self, r: BlockRef) -> int {
        choose|i: int| 0 <= i < self.refs().len() && self.refs()[i] == r
    }

    /// Content of the block holding reference `r`.
    pub open spec fn data_of(self, r: BlockRef) -> BlockData {
        self.blocks@[self.index_of(r)]@
    }

    /// An ancestor reference is satisfied if the block is stored or the
    /// reference points at or below the garbage-collection horizon.
    pub open spec fn ancestor_satisfied(self, a: BlockRef) -> bool {
        a.round <= self.gc_round || self.contains_ref(a)
    }

    pub open spec fn wf(self, c: Committee) -> bool {
        &&& forall|i: int, j: int| 0 <= i < j < self.refs().len()
            ==> self.refs()[i] != self.refs()[j]
        &&& forall|i: int| 0 <= i < self.blocks@.len()
            ==> (#[trigger] self.blocks@[i]@).valid_structure(c.spec_size())
        &&& forall|i: int, k: int|
            0 <= i < self.blocks@.len() && 0 <= k < (#[trigger] self.blocks@[i]@).ancestors.len()
                ==> self.ancestor_satisfied(#[trigger] self.blocks@[i]@.ancestors[k])
        &&& self.gc_round <= self.last_commit_round
    }

    pub fn new() -> (r: DagState)
        ensures
            forall|c: Committee| r.wf(c),
            r.refs().len() == 0,
            r.gc_round == 0,
            r.last_commit_round == 0,
    {
        let r = DagState { blocks: Vec::new(), gc_round: 0, last_commit_round: 0 };
        proof {
            assert forall|c: Committee| r.wf(c) by {
                assert(r.refs().len() == 0);
            }
        }
        r
    }

    /// Index of the block with reference `r`, if stored.
    pub fn find_index(&self, r: &BlockRef) -> (o: Option<usize>)
        ensures
            o is Some ==> 0 <= o->Some_0 < self.refs().len() && self.refs()[o->Some_0 as int] == *r,
            o is None ==> !self.contains_ref(*r),
            (o is Some) == self.contains_ref(*r),
    {
        let mut i: usize = 0;
        while i < self.blocks.len()
            invariant
                0 <= i <= self.blocks@.len(),
                forall|k: int| 0 <= k < i ==> self.refs()[k] != *r,
            decreases self.blocks@.len() - i,
        {
            let candidate = self.blocks[i].reference();
            if candidate == *r {
                proof {
                    assert(self.refs()[i as int] == *r);
                    assert(self.contains_ref(*r));
                }
                return Some(i);
            }
            i = i + 1;
        }
        None
    }

    pub fn contains(&self, r: &BlockRef) -> (found: bool)
        ensures
            found == self.contains_ref(*r),
    {
        self.find_index(r).is_some()
    }

    /// A copy of the stored block with reference `r`.
    pub fn get(&self, r: &BlockRef) -> (o: Option<Block>)
        requires
            forall|i: int, j: int| 0 <= i < j < self.refs().len()
                ==> self.refs()[i] != self.refs()[j],
        ensures
            (o is Some) == self.contains_ref(*r),
            o is Some ==> o->Some_0@ == self.data_of(*r),
    {
        match self.find_index(r) {
            Some(i) => {
                proof {
                    assert(self.refs()[self.index_of(*r)] == *r);
                    assert(self.index_of(*r) == i);
                }
                Some(self.blocks[i].duplicate())
            },
            None => None,
        }
    }

    /// Offers a block to the store. Idempotent on duplicates; accepts only
    /// causally complete blocks; otherwise reports exactly the missing
    /// ancestor references and leaves the store unchanged.
    pub fn insert(&mut self, b: &Block, c: &Committee) -> (r: InsertResult)
        requires
            old(self).wf(*c),
            b@.valid_structure(c.spec_size()),
        ensures
            final(self).wf(*c),
            final(self).gc_round == old(self).gc_round,
            final(self).last_commit_round == old(self).last_commit_round,
            r is Duplicate <==> old(self).contains_ref(b@.reference()),
            r is Duplicate ==> *final(self) == *old(self),
            r is Accepted <==> (!old(self).contains_ref(b@.reference())
                && (forall|k: int| 0 <= k < b@.ancestors.len()
                    ==> old(self).ancestor_satisfied(#[trigger] b@.ancestors[k]))),
            r is Accepted ==> final(self).blocks@.len() == old(self).blocks@.len() + 1
                && final(self).blocks@[old(self).blocks@.len() as int]@ == b@
                && final(self).blocks@.subrange(0, old(self).blocks@.len() as int)
                    == old(self).blocks@
                && final(self).refs() == old(self).refs().push(b@.reference()),
            r is MissingAncestors ==> *final(self) == *old(self)
                && (forall|a: BlockRef| #[trigger] (r->MissingAncestors_0@.contains(a))
                    <==> (b@.ancestors.contains(a) && !old(self).ancestor_satisfied(a)))
                && r->MissingAncestors_0@.len() > 0,
            old(self).contains_ref(b@.reference()) ==> final(self).contains_ref(b@.reference()),
            final(self).contains_ref(b@.reference()) || r is MissingAncestors,
            forall|x: BlockRef| old(self).contains_ref(x) ==> final(self).contains_ref(x),
    {
        let block_ref = b.reference();
        if self.contains(&block_ref) {
            return InsertResult::Duplicate;
        }
        let mut missing: Vec<BlockRef> = Vec::new();
        let mut k: usize = 0;
        while k < b.ancestors.len()
            invariant
                0 <= k <= b@.ancestors.len(),
                forall|x: BlockRef| #[trigger] missing@.contains(x)
                    ==> b@.ancestors.contains(x) && !self.ancestor_satisfied(x),
                forall|j: int| 0 <= j < k ==> (self.ancestor_satisfied(#[trigger] b@.ancestors[j])
                    || missing@.contains(b@.ancestors[j])),
            decreases b@.ancestors.len() - k,
        {
            let a = b.ancestors[k];
            if a.round > self.gc_round && !self.contains(&a) {
                let ghost pre = missing@;
                missing.push(a);
                proof {
                    assert(b@.ancestors[k as int] == a);
                    assert(b@.ancestors.contains(a));
                    assert(missing@[pre.len() as int] == a);
                    assert(missing@.contains(a));
                    assert forall|x: BlockRef| #[trigger] missing@.contains(x)
                        implies b@.ancestors.contains(x) && !self.ancestor_satisfied(x) by {
                        let i = choose|i: int| 0 <= i < missing@.len() && missing@[i] == x;
                        if i < pre.len() {
                            assert(pre[i] == x);
                            assert(pre.contains(x));
                        } else {
                            assert(x == a);
                        }
                    }
                    assert forall|x: BlockRef| pre.contains(x)
                        implies #[trigger] missing@.contains(x) by {
                        let i = choose|i: int| 0 <= i < pre.len() && pre[i] == x;
                        assert(missing@[i] == x);
                    }
                }
            }
            k = k + 1;
        }
        if missing.len() > 0 {
            proof {
                assert forall|a: BlockRef| b@.ancestors.contains(a) && !self.ancestor_satisfied(a)
                    implies #[trigger] missing@.contains(a) by {
                    let j = choose|j: int| 0 <= j < b@.ancestors.len() && b@.ancestors[j] == a;
                    assert(self.ancestor_satisfied(b@.ancestors[j]) || missing@.contains(b@.ancestors[j]));
                }
                let m0 = missing@[0];
                assert(missing@.contains(m0));
                let j = choose|j: int| 0 <= j < b@.ancestors.len() && b@.ancestors[j] == m0;
                assert(!self.ancestor_satisfied(b@.ancestors[j]));
            }
            return InsertResult::MissingAncestors(missing);
        }
        proof {
            assert(forall|j: int| 0 <= j < b@.ancestors.len()
                ==> self.ancestor_satisfied(#[trigger] b@.ancestors[j]));
        }
        let ghost before = *self;
        self.blocks.push(b.duplicate());
        proof {
            assert(self.blocks@.subrange(0, before.blocks@.len() as int) =~= before.blocks@);
            assert(self.refs() =~= before.refs().push(self.blocks@.last()@.reference()));
            assert(self.refs()[before.refs().len() as int] == b@.reference());
            assert(self.contains_ref(b@.reference()));
            assert forall|x: BlockRef| before.contains_ref(x)
                implies self.contains_ref(x) by {
                let w = choose|w: int| 0 <= w < before.refs().len() && before.refs()[w] == x;
                assert(self.refs()[w] == x);
            }
            assert forall|i: int, k2: int|
                0 <= i < self.blocks@.len() && 0 <= k2 < (#[trigger] self.blocks@[i]@).ancestors.len()
                implies self.ancestor_satisfied(#[trigger] self.blocks@[i]@.ancestors[k2]) by {
                if i < before.blocks@.len() {
                    assert(before.ancestor_satisfied(before.blocks@[i]@.ancestors[k2]));
                    if before.contains_ref(before.blocks@[i]@.ancestors[k2]) {
                        let w = choose|w: int| 0 <= w < before.refs().len()
                            && before.refs()[w] == before.blocks@[i]@.ancestors[k2];
                        assert(self.refs()[w] == before.blocks@[i]@.ancestors[k2]);
                    }
                } else {
                    assert(before.ancestor_satisfied(self.blocks@[i]@.ancestors[k2]));
                    if before.contains_ref(self.blocks@[i]@.ancestors[k2]) {
                        let w = choose|w: int| 0 <= w < before.refs().len()
                            && before.refs()[w] == self.blocks@[i]@.ancestors[k2];
                        assert(self.refs()[w] == self.blocks@[i]@.ancestors[k2]);
                    }
                }
            }
        }
        InsertResult::Accepted
    }

    /// Raises the garbage-collection horizon and evicts the blocks at or
    /// below it. Only rounds already covered by a commit may be evicted,
    /// so no block reachable from the uncommitted frontier is lost.
    #[verifier::loop_isolation(false)]
    pub fn evict_below(&mut self, watermark: Round, c: &Committee)
        requires
            old(self).wf(*c),
            old(self).gc_round <= watermark <= old(self).last_commit_round,
        ensures
            final(self).wf(*c),
            final(self).gc_round == watermark,
            final(self).last_commit_round == old(self).last_commit_round,
            forall|x: BlockRef| final(self).contains_ref(x)
                <==> (old(self).contains_ref(x) && x.round > watermark),
            forall|x: BlockRef| final(self).contains_ref(x)
                ==> final(self).data_of(x) == old(self).data_of(x),
    {
        let ghost before = *self;
        let ghost n = before.blocks@.len() as int;
        proof {
            assert(before.blocks@.subrange(0, n) =~= before.blocks@);
        }
        let mut stack: Vec<Block> = Vec::new();
        while self.blocks.len() > 0
            invariant
                self.gc_round == before.gc_round,
                self.last_commit_round == before.last_commit_round,
                self.blocks@ == before.blocks@.subrange(0, n - stack@.len()),
                stack@.len() <= n,
                forall|m: int| 0 <= m < stack@.len()
                    ==> #[trigger] stack@[m] == before.blocks@[n - 1 - m],
            decreases self.blocks@.len(),
        {
            let ghost pre_stack = stack@;
            match self.blocks.pop() {
                Some(b) => {
                    proof {
                        assert(b == before.blocks@[n - stack@.len() - 1]);
                    }
                    stack.push(b);
                    proof {
                        assert(self.blocks@ =~= before.blocks@.subrange(0, n - stack@.len()));
                    }
                },
                None => {},
            }
        }
        let mut kept: Vec<Block> = Vec::new();
        let ghost f = |b: Block| b@.reference().round > watermark;
        proof {
            reveal_with_fuel(Seq::filter, 1);
            assert(before.blocks@.subrange(0, n - stack@.len()).filter(f) =~= Seq::<Block>::empty());
        }
        while stack.len() > 0
            invariant
                self.blocks@.len() == 0,
                self.gc_round == before.gc_round,
                self.last_commit_round == before.last_commit_round,
                stack@.len() <= n,
                forall|m: int| 0 <= m < stack@.len()
                    ==> #[trigger] stack@[m] == before.blocks@[n - 1 - m],
                kept@ == before.blocks@.subrange(0, n - stack@.len()).filter(f),
            decreases stack@.len(),
        {
            match stack.pop() {
                Some(b) => {
                    let ghost j = n - stack@.len() - 1;
                    proof {
                        assert(b == before.blocks@[j]);
                        let prefix = before.blocks@.subrange(0, j);
                        assert(before.blocks@.subrange(0, j + 1) =~= prefix.push(b));
                        seq_filter_push(prefix, b, f);
                    }
                    if b.round > watermark {
                        proof {
                            assert(b@.reference().round == b.round);
                            assert(f(b));
                        }
                        kept.push(b);
                    } else {
                        proof {
                            assert(!f(b));
                        }
                    }
                },
                None => {},
            }
        }
        proof {
            assert(before.blocks@.subrange(0, n) =~= before.blocks@);
        }
        self.blocks = kept;
        self.gc_round = watermark;
        proof {
            let f = |b: Block| b@.reference().round > watermark;
            seq_filter_membership(before.blocks@, f);
            lemma_filter_refs(before, *self, watermark);
        }
    }

    /// Causal reachability with bounded recursion depth: `dst` is reached
    /// from `src` by following stored ancestor edges, in at most `fuel`
    /// steps.
    pub open spec fn reach_within(self, src: BlockRef, dst: BlockRef, fuel: nat) -> bool
        decreases fuel,
    {
        if src == dst {
            true
        } else if fuel == 0 {
            false
        } else if !self.contains_ref(src) {
            false
        } else {
            exists|k: int| 0 <= k < self.data_of(src).ancestors.len()
                && self.reach_within(#[trigger] self.data_of(src).ancestors[k], dst,
                    (fuel - 1) as nat)
        }
    }

    /// `a` lies in the causal history of `b`. Since every stored edge
    /// descends by at least one round, `b.round` steps always suffice.
    pub open spec fn spec_is_ancestor(self, a: BlockRef, b: BlockRef) -> bool {
        self.reach_within(b, a, b.round as nat)
    }

    /// Causal reachability query: whether `a` is `b` itself or lies in
    /// the stored ancestor closure of `b`.
    #[verifier::loop_isolation(false)]
    pub fn is_ancestor(&self, a: &BlockRef, b: &BlockRef, c: &Committee) -> (r: bool)
        requires
            self.wf(*c),
        ensures
            r == self.spec_is_ancestor(*a, *b),
        decreases b.round,
    {
        if a.author == b.author && a.round == b.round && a.digest == b.digest {
            return true;
        }
        proof {
            assert(*a != *b);
        }
        match self.find_index(b) {
            None => false,
            Some(i) => {
                let block = &self.blocks[i];
                proof {
                    assert(self.refs()[i as int] == *b);
                    assert(self.index_of(*b) == i);
                    assert(block@ == self.data_of(*b));
                    assert(block@.valid_structure(c.spec_size()));
                    assert(block@.round == b.round);
                }
                let mut k: usize = 0;
                while k < block.ancestors.len()
                    invariant
                        0 <= k <= block@.ancestors.len(),
                        forall|j: int| 0 <= j < k ==> !self.reach_within(
                            #[trigger] block@.ancestors[j], *a, (b.round - 1) as nat),
                    decreases block@.ancestors.len() - k,
                {
                    let x = block.ancestors[k];
                    proof {
                        assert(block@.ancestors[k as int].round < b.round);
                    }
                    if self.is_ancestor(a, &x, c) {
                        proof {
                            self.lemma_reach_fuel_mono(x, *a, x.round as nat,
                                (b.round - 1) as nat);
                            assert(self.reach_within(*b, *a, b.round as nat));
                        }
                        return true;
                    }
                    proof {
                        if self.reach_within(x, *a, (b.round - 1) as nat) {
                            self.lemma_reach_round_cap(x, *a, (b.round - 1) as nat, *c);
                            assert(false);
                        }
                        assert(!self.reach_within(block@.ancestors[k as int], *a,
                            (b.round - 1) as nat));
                    }
                    k = k + 1;
                }
                proof {
                    assert(!self.reach_within(*b, *a, b.round as nat));
                }
                false
            },
        }
    }

    /// More fuel never loses a path.
    pub proof fn lemma_reach_fuel_mono(self, src: BlockRef, dst: BlockRef, f1: nat, f2: nat)
        requires
            f1 <= f2,
            self.reach_within(src, dst, f1),
        ensures
            self.reach_within(src, dst, f2),
        decreases f1,
    {
        if src != dst && f1 > 0 && self.contains_ref(src) {
            let k = choose|k: int| 0 <= k < self.data_of(src).ancestors.len()
                && self.reach_within(#[trigger] self.data_of(src).ancestors[k], dst,
                    (f1 - 1) as nat);
            self.lemma_reach_fuel_mono(self.data_of(src).ancestors[k], dst, (f1 - 1) as nat,
                (f2 - 1) as nat);
        }
    }

    /// In a well-formed DAG every edge descends by at least one round, so
    /// `src.round` steps of fuel decide reachability.
    pub proof fn lemma_reach_round_cap(self, src: BlockRef, dst: BlockRef, fuel: nat, c: Committee)
        requires
            self.wf(c),
            self.reach_within(src, dst, fuel),
        ensures
            self.reach_within(src, dst, src.round as nat),
        decreases fuel,
    {
        if src != dst && fuel > 0 && self.contains_ref(src) {
            let k = choose|k: int| 0 <= k < self.data_of(src).ancestors.len()
                && self.reach_within(#[trigger] self.data_of(src).ancestors[k], dst,
                    (fuel - 1) as nat);
            let x = self.data_of(src).ancestors[k];
            let i = self.index_of(src);
            assert(0 <= i < self.refs().len() && self.refs()[i] == src);
            assert(self.blocks@[i]@.valid_structure(c.spec_size()));
            assert(self.data_of(src).round == src.round);
            assert(x.round < src.round);
            self.lemma_reach_round_cap(x, dst, (fuel - 1) as nat, c);
            self.lemma_reach_fuel_mono(x, dst, x.round as nat, (src.round - 1) as nat);
            assert(self.reach_within(src, dst, src.round as nat));
        }
    }

    /// Records that a leader at `round` has been committed. The recorded
    /// commit round never moves backward.
    pub fn set_last_commit_round(&mut self, round: Round, c: &Committee)
        requires
            old(self).wf(*c),
            round >= old(self).last_commit_round,
        ensures
            final(self).wf(*c),
            final(self).blocks@ == old(self).blocks@,
            final(self).gc_round == old(self).gc_round,
            final(self).last_commit_round == round,
    {
        let ghost before = *self;
        self.last_commit_round = round;
        proof {
            assert(self.refs() == before.refs());
            assert forall|a: BlockRef| #[trigger] before.ancestor_satisfied(a)
                implies self.ancestor_satisfied(a) by {
            }
        }
    }
}

/// Filtering a sequence extended by one element keeps the element exactly
/// when it passes the predicate.
pub proof fn seq_filter_push(s: Seq<Block>, x: Block, f: spec_fn(Block) -> bool)
    ensures
        s.push(x).filter(f) == if f(x) { s.filter(f).push(x) } else { s.filter(f) },
{
    reveal_with_fuel(Seq::filter, 2);
    assert(s.push(x).drop_last() =~= s);
    assert(s.push(x).last() == x);
}

proof fn seq_filter_membership(s: Seq<Block>, f: spec_fn(Block) -> bool)
    ensures
        forall|b: Block| #[trigger] s.filter(f).contains(b) <==> (s.contains(b) && f(b)),
    decreases s.len(),
{
    if s.len() > 0 {
        seq_filter_membership(s.drop_last(), f);
        reveal_with_fuel(Seq::filter, 2);
        assert forall|b: Block| #[trigger] s.contains(b) && f(b)
            implies s.filter(f).contains(b) by {
            if b == s.last() {
                assert(s.filter(f).last() == b);
            } else {
                let i = choose|i: int| 0 <= i < s.len() && s[i] == b;
                assert(s.drop_last()[i] == b);
                assert(s.drop_last().contains(b));
            }
        }
        assert forall|b: Block| #[trigger] s.filter(f).contains(b)
            implies s.contains(b) && f(b) by {
            if f(s.last()) && b == s.last() {
                assert(s.contains(b));
            } else {
                let g = s.filter(f);
                if s.drop_last().filter(f).contains(b) {
                    let i = choose|i: int| 0 <= i < s.drop_last().len() && s.drop_last()[i] == b;
                    assert(s[i] == b);
                }
            }
        }
    }
}

/// After filtering on round, the kept store contains exactly the old
/// references above the watermark, with unchanged content, and keeps the
/// well-formedness invariants.
proof fn lemma_filter_refs(before: DagState, after: DagState, watermark: Round)
    requires
        after.blocks@ == before.blocks@.filter(|b: Block| b@.reference().round > watermark),
        after.gc_round == watermark,
        after.last_commit_round == before.last_commit_round,
        forall|i: int, j: int| 0 <= i < j < before.refs().len()
            ==> before.refs()[i] != before.refs()[j],
        watermark <= before.last_commit_round,
        before.gc_round <= watermark,
    ensures
        forall|x: BlockRef| after.contains_ref(x)
            <==> (before.contains_ref(x) && x.round > watermark),
        forall|i: int, j: int| 0 <= i < j < after.refs().len()
            ==> after.refs()[i] != after.refs()[j],
        forall|x: BlockRef| after.contains_ref(x) ==> after.data_of(x) == before.data_of(x),
        forall|i: int| 0 <= i < after.blocks@.len()
            ==> before.blocks@.contains(#[trigger] after.blocks@[i]),
        forall|i: int, k: int|
            0 <= i < after.blocks@.len() && 0 <= k < (#[trigger] after.blocks@[i]@).ancestors.len()
                && before.ancestor_satisfied(#[trigger] after.blocks@[i]@.ancestors[k])
                ==> after.ancestor_satisfied(after.blocks@[i]@.ancestors[k]),
{
    let f = |b: Block| b@.reference().round > watermark;
    seq_filter_membership(before.blocks@, f);
    assert forall|i: int| 0 <= i < after.blocks@.len()
        implies before.blocks@.contains(#[trigger] after.blocks@[i]) by {
        assert(after.blocks@.contains(after.blocks@[i]));
    }
    assert forall|x: BlockRef| after.contains_ref(x)
        implies before.contains_ref(x) && x.round > watermark by {
        let i = choose|i: int| 0 <= i < after.refs().len() && after.refs()[i] == x;
        assert(before.blocks@.contains(after.blocks@[i]));
        let j = choose|j: int| 0 <= j < before.blocks@.len() && before.blocks@[j] == after.blocks@[i];
        assert(before.refs()[j] == x);
        assert(f(after.blocks@[i]));
    }
    assert forall|x: BlockRef| before.contains_ref(x) && x.round > watermark
        implies after.contains_ref(x) by {
        let i = choose|i: int| 0 <= i < before.refs().len() && before.refs()[i] == x;
        assert(f(before.blocks@[i]));
        assert(before.blocks@.contains(before.blocks@[i]));
        assert(after.blocks@.contains(before.blocks@[i]));
        let j = choose|j: int| 0 <= j < after.blocks@.len() && after.blocks@[j] == before.blocks@[i];
        assert(after.refs()[j] == x);
    }
    assert forall|p: int, q: int| 0 <= p < q < before.blocks@.len()
        implies #[trigger] ref_at(before.blocks@, p) != #[trigger] ref_at(before.blocks@, q) by {
        assert(before.refs()[p] == ref_at(before.blocks@, p));
        assert(before.refs()[q] == ref_at(before.blocks@, q));
    }
    assert forall|i: int, j: int| 0 <= i < j < after.refs().len()
        implies after.refs()[i] != after.refs()[j] by {
        filter_distinct(before.blocks@, f, i, j);
        assert(after.refs()[i] == ref_at(after.blocks@, i));
        assert(after.refs()[j] == ref_at(after.blocks@, j));
    }
    assert forall|x: BlockRef| after.contains_ref(x)
        implies after.data_of(x) == before.data_of(x) by {
        let i = after.index_of(x);
        assert(0 <= i < after.refs().len() && after.refs()[i] == x);
        assert(before.blocks@.contains(after.blocks@[i]));
        let j = choose|j: int| 0 <= j < before.blocks@.len() && before.blocks@[j] == after.blocks@[i];
        assert(before.refs()[j] == x);
        assert(before.index_of(x) == j);
    }
    assert forall|i: int, k: int|
        0 <= i < after.blocks@.len() && 0 <= k < (#[trigger] after.blocks@[i]@).ancestors.len()
            && before.ancestor_satisfied(#[trigger] after.blocks@[i]@.ancestors[k])
        implies after.ancestor_satisfied(after.blocks@[i]@.ancestors[k]) by {
        let a = after.blocks@[i]@.ancestors[k];
        if a.round > watermark && before.contains_ref(a) {
            assert(after.contains_ref(a));
        }
    }
}

/// Reference of the block at position `i`.
pub open spec fn ref_at(s: Seq<Block>, i: int) -> BlockRef {
    s[i]@.reference()
}

/// Distinct elements stay distinct under `filter`.
proof fn filter_distinct(s: Seq<Block>, f: spec_fn(Block) -> bool, i: int, j: int)
    requires
        forall|p: int, q: int| 0 <= p < q < s.len() ==> #[trigger] ref_at(s, p) != #[trigger] ref_at(s, q),
        0 <= i < j < s.filter(f).len(),
    ensures
        ref_at(s.filter(f), i) != ref_at(s.filter(f), j),
    decreases s.len(),
{
    if s.len() > 0 {
        reveal_with_fuel(Seq::filter, 2);
        let t = s.drop_last();
        assert forall|p: int, q: int| 0 <= p < q < t.len()
            implies #[trigger] ref_at(t, p) != #[trigger] ref_at(t, q) by {
            assert(ref_at(s, p) == ref_at(t, p));
            assert(ref_at(s, q) == ref_at(t, q));
        }
        if f(s.last()) && j == s.filter(f).len() - 1 {
            seq_filter_membership(t, f);
            let g = s.filter(f);
            assert(g[j] == s.last());
            assert(g[i] == t.filter(f)[i]);
            assert(t.filter(f).contains(t.filter(f)[i]));
            let p = choose|p: int| 0 <= p < t.len() && t[p] == t.filter(f)[i];
            assert(ref_at(s, p) != ref_at(s, s.len() - 1));
            assert(s[p] == t[p]);
            assert(ref_at(g, i) == ref_at(s, p));
            assert(ref_at(g, j) == ref_at(s, s.len() - 1));
        } else {
            filter_distinct(t, f, i, j);
            assert(s.filter(f)[i] == t.filter(f)[i]);
            assert(s.filter(f)[j] == t.filter(f)[j]);
            assert(ref_at(s.filter(f), i) == ref_at(t.filter(f), i));
            assert(ref_at(s.filter(f), j) == ref_at(t.filter(f), j));
        }
    }
}

} // verus!
