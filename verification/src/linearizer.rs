//! Deterministic linearization of a committed sub-DAG: given a newly
//! committed leader, collect every stored block reachable from it through
//! blocks not yet committed, and order them by (round, author, digest).
//! The output is pinned completely by its contract — strictly sorted with
//! exact membership — so every honest replica computes byte-identical
//! sequences from the same DAG state, and re-running a commit boundary
//! reproduces the same output.

use vstd::prelude::*;
use crate::block::{Block, BlockRef};
use crate::committee::Committee;
use crate::dag_state::DagState;

verus! {

/// Strict total order on distinct references: by round, then author,
/// then digest.
pub open spec fn key_lt(a: BlockRef, b: BlockRef) -> bool {
    ||| a.round < b.round
    ||| (a.round == b.round && a.author < b.author)
    ||| (a.round == b.round && a.author == b.author && a.digest < b.digest)
}

/// Executable mirror of `key_lt`.
pub fn ref_before(a: &BlockRef, b: &BlockRef) -> (r: bool)
    ensures
        r == key_lt(*a, *b),
{
    if a.round != b.round {
        a.round < b.round
    } else if a.author != b.author {
        a.author < b.author
    } else {
        a.digest < b.digest
    }
}

impl DagState {
    /// `x` belongs to the sub-DAG of leader `b`: there is a path of
    /// stored, uncommitted blocks from `b` down to `x`, within `fuel`
    /// steps.
    pub open spec fn in_subdag(
        self,
        b: BlockRef,
        x: BlockRef,
        committed: Seq<BlockRef>,
        fuel: nat,
    ) -> bool
        decreases fuel,
    {
        if !self.contains_ref(b) || committed.contains(b) {
            false
        } else if x == b {
            true
        } else if fuel == 0 {
            false
        } else {
            exists|k: int| 0 <= k < self.data_of(b).ancestors.len()
                && self.in_subdag(#[trigger] self.data_of(b).ancestors[k], x, committed,
                    (fuel - 1) as nat)
        }
    }

    /// Sub-DAG membership; since stored edges descend by a round each,
    /// `leader.round` steps decide it.
    pub open spec fn subdag_member(
        self,
        leader: BlockRef,
        x: BlockRef,
        committed: Seq<BlockRef>,
    ) -> bool {
        self.in_subdag(leader, x, committed, leader.round as nat)
    }

    /// More fuel never loses a path.
    pub proof fn lemma_subdag_fuel_mono(
        self,
        b: BlockRef,
        x: BlockRef,
        committed: Seq<BlockRef>,
        f1: nat,
        f2: nat,
    )
        requires
            f1 <= f2,
            self.in_subdag(b, x, committed, f1),
        ensures
            self.in_subdag(b, x, committed, f2),
        decreases f1,
    {
        if x != b && f1 > 0 {
            let k = choose|k: int| 0 <= k < self.data_of(b).ancestors.len()
                && self.in_subdag(#[trigger] self.data_of(b).ancestors[k], x, committed,
                    (f1 - 1) as nat);
            self.lemma_subdag_fuel_mono(self.data_of(b).ancestors[k], x, committed,
                (f1 - 1) as nat, (f2 - 1) as nat);
        }
    }

    /// In a well-formed DAG, `b.round` steps of fuel decide sub-DAG
    /// membership.
    pub proof fn lemma_subdag_round_cap(
        self,
        b: BlockRef,
        x: BlockRef,
        committed: Seq<BlockRef>,
        fuel: nat,
        c: Committee,
    )
        requires
            self.wf(c),
            self.in_subdag(b, x, committed, fuel),
        ensures
            self.in_subdag(b, x, committed, b.round as nat),
        decreases fuel,
    {
        if x != b && fuel > 0 {
            let k = choose|k: int| 0 <= k < self.data_of(b).ancestors.len()
                && self.in_subdag(#[trigger] self.data_of(b).ancestors[k], x, committed,
                    (fuel - 1) as nat);
            let y = self.data_of(b).ancestors[k];
            let i = self.index_of(b);
            assert(0 <= i < self.refs().len() && self.refs()[i] == b);
            assert(self.blocks@[i]@.valid_structure(c.spec_size()));
            assert(y.round < b.round);
            self.lemma_subdag_round_cap(y, x, committed, (fuel - 1) as nat, c);
            self.lemma_subdag_fuel_mono(y, x, committed, y.round as nat, (b.round - 1) as nat);
        }
    }

    /// Walking one stored, uncommitted ancestor edge from a sub-DAG
    /// member reaches another member.
    pub proof fn lemma_subdag_step(
        self,
        leader: BlockRef,
        x: BlockRef,
        a: BlockRef,
        committed: Seq<BlockRef>,
        c: Committee,
    )
        requires
            self.wf(c),
            self.subdag_member(leader, x, committed),
            self.data_of(x).ancestors.contains(a),
            self.contains_ref(a),
            !committed.contains(a),
        ensures
            self.subdag_member(leader, a, committed),
    {
        self.lemma_subdag_extend(leader, x, a, committed, leader.round as nat);
        self.lemma_subdag_round_cap(leader, a, committed, (leader.round + 1) as nat, c);
    }

    proof fn lemma_subdag_extend(
        self,
        b: BlockRef,
        x: BlockRef,
        a: BlockRef,
        committed: Seq<BlockRef>,
        fuel: nat,
    )
        requires
            self.in_subdag(b, x, committed, fuel),
            self.data_of(x).ancestors.contains(a),
            self.contains_ref(a),
            !committed.contains(a),
        ensures
            self.in_subdag(b, a, committed, (fuel + 1) as nat),
        decreases fuel,
    {
        if x == b {
            let k = choose|k: int| 0 <= k < self.data_of(b).ancestors.len()
                && self.data_of(b).ancestors[k] == a;
            assert(self.in_subdag(self.data_of(b).ancestors[k], a, committed, fuel));
        } else if fuel > 0 {
            let k = choose|k: int| 0 <= k < self.data_of(b).ancestors.len()
                && self.in_subdag(#[trigger] self.data_of(b).ancestors[k], x, committed,
                    (fuel - 1) as nat);
            self.lemma_subdag_extend(self.data_of(b).ancestors[k], x, a, committed,
                (fuel - 1) as nat);
            assert(self.in_subdag(self.data_of(b).ancestors[k], a, committed, fuel));
        }
    }

    /// Any set of references that holds the leader and is closed under
    /// stored, uncommitted ancestor edges holds the whole sub-DAG.
    pub proof fn lemma_subdag_closed(
        self,
        collected: Seq<BlockRef>,
        b: BlockRef,
        x: BlockRef,
        committed: Seq<BlockRef>,
        fuel: nat,
    )
        requires
            collected.contains(b),
            self.in_subdag(b, x, committed, fuel),
            forall|r: BlockRef, k: int| #[trigger] collected.contains(r)
                && 0 <= k < self.data_of(r).ancestors.len()
                && self.contains_ref(#[trigger] self.data_of(r).ancestors[k])
                && !committed.contains(self.data_of(r).ancestors[k])
                ==> collected.contains(self.data_of(r).ancestors[k]),
        ensures
            collected.contains(x),
        decreases fuel,
    {
        if x != b && fuel > 0 {
            let k = choose|k: int| 0 <= k < self.data_of(b).ancestors.len()
                && self.in_subdag(#[trigger] self.data_of(b).ancestors[k], x, committed,
                    (fuel - 1) as nat);
            let y = self.data_of(b).ancestors[k];
            assert(self.contains_ref(y) && !committed.contains(y));
            assert(collected.contains(y));
            self.lemma_subdag_closed(collected, y, x, committed, (fuel - 1) as nat);
        }
    }
}

/// The reference column of a block sequence.
pub open spec fn refs_of(s: Seq<Block>) -> Seq<BlockRef> {
    s.map(|i: int, b: Block| b@.reference())
}

/// Strictly sorted sequences of references with the same members are
/// identical: linearization output is unique, so all honest replicas
/// agree on it and re-running a boundary reproduces it.
pub proof fn lemma_sorted_unique(s1: Seq<BlockRef>, s2: Seq<BlockRef>)
    requires
        forall|i: int, j: int| 0 <= i < j < s1.len() ==> key_lt(#[trigger] s1[i], #[trigger] s1[j]),
        forall|i: int, j: int| 0 <= i < j < s2.len() ==> key_lt(#[trigger] s2[i], #[trigger] s2[j]),
        forall|x: BlockRef| s1.contains(x) <==> s2.contains(x),
    ensures
        s1 == s2,
    decreases s1.len(),
{
    if s1.len() == 0 {
        if s2.len() > 0 {
            assert(s2.contains(s2[0]));
            assert(s1.contains(s2[0]));
        }
        assert(s1 =~= s2);
    } else {
        assert(s1.contains(s1[0]));
        assert(s2.contains(s1[0]));
        assert(s2.len() > 0);
        let j = choose|j: int| 0 <= j < s2.len() && s2[j] == s1[0];
        let i = choose|i: int| 0 <= i < s1.len() && s1[i] == s2[0];
        assert(s1.contains(s2[0]) && s2.contains(s2[0]));
        if j > 0 && i > 0 {
            assert(key_lt(s2[0], s2[j]));
            assert(key_lt(s1[0], s1[i]));
            assert(false);
        }
        assert(s1[0] == s2[0]);
        let t1 = s1.subrange(1, s1.len() as int);
        let t2 = s2.subrange(1, s2.len() as int);
        assert forall|x: BlockRef| t1.contains(x) implies t2.contains(x) by {
            let p = choose|p: int| 0 <= p < t1.len() && t1[p] == x;
            assert(s1[p + 1] == x);
            assert(key_lt(s1[0], x));
            assert(s1.contains(x));
            assert(s2.contains(x));
            let q = choose|q: int| 0 <= q < s2.len() && s2[q] == x;
            if q == 0 {
                assert(x == s1[0]);
                assert(false);
            }
            assert(t2[q - 1] == x);
        }
        assert forall|x: BlockRef| t2.contains(x) implies t1.contains(x) by {
            let p = choose|p: int| 0 <= p < t2.len() && t2[p] == x;
            assert(s2[p + 1] == x);
            assert(key_lt(s2[0], x));
            assert(s2.contains(x));
            assert(s1.contains(x));
            let q = choose|q: int| 0 <= q < s1.len() && s1[q] == x;
            if q == 0 {
                assert(x == s2[0]);
                assert(false);
            }
            assert(t1[q - 1] == x);
        }
        assert forall|p: int, q: int| 0 <= p < q < t1.len()
            implies key_lt(#[trigger] t1[p], #[trigger] t1[q]) by {
            assert(t1[p] == s1[p + 1] && t1[q] == s1[q + 1]);
        }
        assert forall|p: int, q: int| 0 <= p < q < t2.len()
            implies key_lt(#[trigger] t2[p], #[trigger] t2[q]) by {
            assert(t2[p] == s2[p + 1] && t2[q] == s2[q + 1]);
        }
        lemma_sorted_unique(t1, t2);
        assert(s1.len() == s2.len());
        assert forall|q: int| 0 <= q < s1.len() implies s1[q] == s2[q] by {
            if q > 0 {
                assert(t1[q - 1] == s1[q]);
                assert(t2[q - 1] == s2[q]);
            }
        }
        assert(s1 =~= s2);
    }
}

/// Count of set flags, for the traversal's termination measure.
pub open spec fn count_true(s: Seq<bool>) -> int
    decreases s.len(),
{
    if s.len() == 0 {
        0
    } else {
        count_true(s.drop_last()) + if s.last() { 1int } else { 0int }
    }
}

proof fn lemma_count_true_update(s: Seq<bool>, i: int)
    requires
        0 <= i < s.len(),
        !s[i],
    ensures
        count_true(s.update(i, true)) == count_true(s) + 1,
    decreases s.len(),
{
    let t = s.update(i, true);
    if i == s.len() - 1 {
        assert(t.drop_last() =~= s.drop_last());
    } else {
        assert(t.drop_last() =~= s.drop_last().update(i, true));
        lemma_count_true_update(s.drop_last(), i);
    }
}

proof fn lemma_count_true_bounds(s: Seq<bool>)
    ensures
        0 <= count_true(s) <= s.len(),
    decreases s.len(),
{
    if s.len() > 0 {
        lemma_count_true_bounds(s.drop_last());
    }
}

proof fn lemma_count_all_false(s: Seq<bool>)
    requires
        forall|k: int| 0 <= k < s.len() ==> !(#[trigger] s[k]),
    ensures
        count_true(s) == 0,
    decreases s.len(),
{
    if s.len() > 0 {
        lemma_count_all_false(s.drop_last());
    }
}

proof fn lemma_count_true_missing(s: Seq<bool>, i: int)
    requires
        0 <= i < s.len(),
        !s[i],
    ensures
        count_true(s) < s.len(),
    decreases s.len(),
{
    lemma_count_true_bounds(s.drop_last());
    if i < s.len() - 1 {
        lemma_count_true_missing(s.drop_last(), i);
    }
}

/// Collects and orders the sub-DAG of `leader`: exactly the stored
/// blocks reachable from the leader through uncommitted blocks, strictly
/// sorted by (round, author, digest). The contract pins the output
/// uniquely (see `lemma_sorted_unique`).
#[verifier::loop_isolation(false)]
pub fn linearize_subdag(
    dag: &DagState,
    c: &Committee,
    leader: &BlockRef,
    committed: &Vec<BlockRef>,
) -> (out: Vec<Block>)
    requires
        dag.wf(*c),
        c.wf(),
    ensures
        forall|i: int, j: int| 0 <= i < j < out@.len()
            ==> key_lt(#[trigger] refs_of(out@)[i], #[trigger] refs_of(out@)[j]),
        forall|x: BlockRef| refs_of(out@).contains(x)
            <==> dag.subdag_member(*leader, x, committed@),
        forall|i: int| 0 <= i < out@.len()
            ==> (#[trigger] out@[i])@ == dag.data_of(refs_of(out@)[i]),
{
    let mut sorted: Vec<BlockRef> = Vec::new();
    let mut worklist: Vec<BlockRef> = Vec::new();
    let mut visited: Vec<bool> = Vec::new();
    let mut v: usize = 0;
    let dag_len = dag.blocks.len();
    while v < dag_len
        invariant
            0 <= v <= dag_len,
            visited@.len() == v,
            forall|k: int| 0 <= k < v ==> !(#[trigger] visited@[k]),
        decreases dag_len - v,
    {
        visited.push(false);
        v = v + 1;
    }
    proof {
        lemma_count_all_false(visited@);
    }
    if !contains_ref_exec(dag, leader) || contains_ref_vec(committed, leader) {
        return Vec::new();
    }
    worklist.push(*leader);
    proof {
        assert(worklist@.contains(*leader)) by {
            assert(worklist@[0] == *leader);
        }
        assert(dag.subdag_member(*leader, *leader, committed@));
        assert forall|p: int| 0 <= p < worklist@.len()
            implies dag.contains_ref(#[trigger] worklist@[p])
                && !committed@.contains(worklist@[p])
                && dag.subdag_member(*leader, worklist@[p], committed@)
                && !visited@[dag.index_of(worklist@[p])] by {
            assert(worklist@[p] == *leader);
            assert(0 <= dag.index_of(*leader) < visited@.len());
        }
    }
    while worklist.len() > 0
        invariant
            visited@.len() == dag.blocks@.len(),
            // worklist entries: distinct, stored, uncommitted, members, unvisited
            forall|p: int, q: int| 0 <= p < q < worklist@.len()
                ==> #[trigger] worklist@[p] != #[trigger] worklist@[q],
            forall|p: int| 0 <= p < worklist@.len()
                ==> dag.contains_ref(#[trigger] worklist@[p])
                    && !committed@.contains(worklist@[p])
                    && dag.subdag_member(*leader, worklist@[p], committed@)
                    && !visited@[dag.index_of(worklist@[p])],
            // sorted: strictly ordered members, visited, stored
            forall|i: int, j: int| 0 <= i < j < sorted@.len()
                ==> key_lt(#[trigger] sorted@[i], #[trigger] sorted@[j]),
            forall|x: BlockRef| #[trigger] sorted@.contains(x)
                ==> dag.contains_ref(x) && dag.subdag_member(*leader, x, committed@)
                    && visited@[dag.index_of(x)],
            // visited marks exactly the collected references
            forall|idx: int| 0 <= idx < visited@.len() && #[trigger] visited@[idx]
                ==> sorted@.contains(dag.refs()[idx]),
            // closure up to the worklist
            forall|x: BlockRef, k: int| #[trigger] sorted@.contains(x)
                && 0 <= k < dag.data_of(x).ancestors.len()
                && dag.contains_ref(#[trigger] dag.data_of(x).ancestors[k])
                && !committed@.contains(dag.data_of(x).ancestors[k])
                ==> sorted@.contains(dag.data_of(x).ancestors[k])
                    || worklist@.contains(dag.data_of(x).ancestors[k]),
            // the leader is somewhere
            sorted@.contains(*leader) || worklist@.contains(*leader),
            0 <= count_true(visited@) <= visited@.len(),
        decreases dag.blocks@.len() - count_true(visited@),
    {
        let ghost pre_work = worklist@;
        let ghost pre_sorted = sorted@;
        let ghost pre_visited = visited@;
        let x = match worklist.pop() {
            Some(x) => x,
            None => {
                proof {
                    assert(false);
                }
                *leader
            },
        };
        proof {
            assert(x == pre_work.last());
            assert(pre_work.contains(x)) by {
                assert(pre_work[pre_work.len() - 1] == x);
            }
            assert(worklist@ =~= pre_work.drop_last());
        }
        let idx = match dag.find_index(&x) {
            Some(i) => i,
            None => {
                proof {
                    assert(false);
                }
                0
            },
        };
        proof {
            assert(dag.refs()[idx as int] == x);
            assert(dag.index_of(x) == idx);
            assert(!visited@[idx as int]);
            lemma_count_true_update(visited@, idx as int);
            lemma_count_true_bounds(visited@);
            lemma_count_true_missing(visited@, idx as int);
        }
        visited.set(idx, true);
        // insert x into the sorted list
        let mut p: usize = 0;
        while p < sorted.len() && ref_before(&sorted[p], &x)
            invariant
                0 <= p <= sorted@.len(),
                forall|q: int| 0 <= q < p ==> key_lt(#[trigger] sorted@[q], x),
            decreases sorted@.len() - p,
        {
            p = p + 1;
        }
        proof {
            if p < sorted@.len() {
                assert(!key_lt(sorted@[p as int], x));
            }
            assert(!pre_sorted.contains(x));
        }
        sorted.insert(p, x);
        proof {
            assert(sorted@ =~= pre_sorted.subrange(0, p as int).push(x)
                + pre_sorted.subrange(p as int, pre_sorted.len() as int));
            assert forall|i: int, j: int| 0 <= i < j < sorted@.len()
                implies key_lt(#[trigger] sorted@[i], #[trigger] sorted@[j]) by {
                lemma_insert_sorted(pre_sorted, sorted@, x, p as int, i, j);
            }
            assert forall|y: BlockRef| #[trigger] sorted@.contains(y)
                implies pre_sorted.contains(y) || y == x by {
                let q = choose|q: int| 0 <= q < sorted@.len() && sorted@[q] == y;
                if q < p {
                    assert(pre_sorted[q] == y);
                } else if q > p {
                    assert(pre_sorted[q - 1] == y);
                }
            }
            assert forall|y: BlockRef| pre_sorted.contains(y)
                implies #[trigger] sorted@.contains(y) by {
                let q = choose|q: int| 0 <= q < pre_sorted.len() && pre_sorted[q] == y;
                if q < p {
                    assert(sorted@[q] == y);
                } else {
                    assert(sorted@[q + 1] == y);
                }
            }
            assert(sorted@.contains(x)) by {
                assert(sorted@[p as int] == x);
            }
        }
        // push unseen, uncommitted, stored ancestors
        let block = &dag.blocks[idx];
        proof {
            assert(block@ == dag.data_of(x));
            assert(block@.valid_structure(c.spec_size()));
        }
        let mut k: usize = 0;
        while k < block.ancestors.len()
            invariant
                0 <= k <= block@.ancestors.len(),
                visited@.len() == dag.blocks@.len(),
                visited@ == pre_visited.update(idx as int, true),
                forall|p2: int, q2: int| 0 <= p2 < q2 < worklist@.len()
                    ==> #[trigger] worklist@[p2] != #[trigger] worklist@[q2],
                forall|p2: int| 0 <= p2 < worklist@.len()
                    ==> dag.contains_ref(#[trigger] worklist@[p2])
                        && !committed@.contains(worklist@[p2])
                        && dag.subdag_member(*leader, worklist@[p2], committed@)
                        && !visited@[dag.index_of(worklist@[p2])],
                forall|j: int| 0 <= j < k
                    ==> (dag.contains_ref(#[trigger] block@.ancestors[j])
                        && !committed@.contains(block@.ancestors[j])
                        ==> sorted@.contains(block@.ancestors[j])
                            || worklist@.contains(block@.ancestors[j])),
                forall|w: BlockRef| pre_work.drop_last().contains(w)
                    ==> #[trigger] worklist@.contains(w),
            decreases block@.ancestors.len() - k,
        {
            let a = block.ancestors[k];
            {
                match dag.find_index(&a) {
                    Some(ai) => {
                        if !contains_ref_vec(committed, &a) && !visited[ai]
                            && !contains_ref_vec(&worklist, &a) {
                            proof {
                                assert(dag.refs()[ai as int] == a);
                                assert(dag.index_of(a) == ai);
                                assert(block@.ancestors.contains(a)) by {
                                    assert(block@.ancestors[k as int] == a);
                                }
                                dag.lemma_subdag_step(*leader, x, a, committed@, *c);
                            }
                            let ghost pw = worklist@;
                            worklist.push(a);
                            proof {
                                assert forall|w: BlockRef| pw.contains(w)
                                    implies #[trigger] worklist@.contains(w) by {
                                    let q = choose|q: int| 0 <= q < pw.len() && pw[q] == w;
                                    assert(worklist@[q] == w);
                                }
                                assert(worklist@.contains(a)) by {
                                    assert(worklist@[pw.len() as int] == a);
                                }
                                assert forall|w: BlockRef| #[trigger] worklist@.contains(w)
                                    implies pw.contains(w) || w == a by {
                                    let q = choose|q: int| 0 <= q < worklist@.len()
                                        && worklist@[q] == w;
                                    if q < pw.len() {
                                        assert(pw[q] == w);
                                    }
                                }
                                assert forall|p2: int, q2: int|
                                    0 <= p2 < q2 < worklist@.len()
                                    implies #[trigger] worklist@[p2]
                                        != #[trigger] worklist@[q2] by {
                                    if q2 == worklist@.len() - 1 {
                                        assert(pw.contains(worklist@[p2])) by {
                                            assert(pw[p2] == worklist@[p2]);
                                        }
                                    } else {
                                        assert(pw[p2] == worklist@[p2]);
                                        assert(pw[q2] == worklist@[q2]);
                                    }
                                }
                            }
                        } else {
                            proof {
                                assert(dag.refs()[ai as int] == a);
                                assert(dag.index_of(a) == ai);
                                if !committed@.contains(a) && visited@[ai as int] {
                                    if ai == idx {
                                        assert(sorted@.contains(x));
                                    } else {
                                        assert(pre_visited[ai as int]);
                                        assert(pre_sorted.contains(dag.refs()[ai as int]));
                                    }
                                }
                            }
                        }
                    },
                    None => {},
                }
            }
            k = k + 1;
        }
        proof {
            assert forall|x2: BlockRef, k2: int| #[trigger] sorted@.contains(x2)
                && 0 <= k2 < dag.data_of(x2).ancestors.len()
                && dag.contains_ref(#[trigger] dag.data_of(x2).ancestors[k2])
                && !committed@.contains(dag.data_of(x2).ancestors[k2])
                implies sorted@.contains(dag.data_of(x2).ancestors[k2])
                    || worklist@.contains(dag.data_of(x2).ancestors[k2]) by {
                let a2 = dag.data_of(x2).ancestors[k2];
                if x2 != x {
                    assert(pre_sorted.contains(x2));
                    if pre_work.contains(a2) {
                        let q = choose|q: int| 0 <= q < pre_work.len() && pre_work[q] == a2;
                        if q == pre_work.len() - 1 {
                            assert(a2 == x);
                        } else {
                            assert(pre_work.drop_last()[q] == a2);
                            assert(pre_work.drop_last().contains(a2));
                        }
                    }
                }
            }
            if *leader != x && !pre_sorted.contains(*leader) {
                assert(pre_work.contains(*leader));
                let q = choose|q: int| 0 <= q < pre_work.len() && pre_work[q] == *leader;
                assert(q < pre_work.len() - 1);
                assert(pre_work.drop_last()[q] == *leader);
                assert(pre_work.drop_last().contains(*leader));
            }
        }
    }
    proof {
        // worklist empty: sorted is closed and holds the leader
        assert(sorted@.contains(*leader));
        assert forall|x: BlockRef| dag.subdag_member(*leader, x, committed@)
            implies #[trigger] sorted@.contains(x) by {
            dag.lemma_subdag_closed(sorted@, *leader, x, committed@, leader.round as nat);
        }
    }
    // materialize the blocks in sorted order
    let mut out: Vec<Block> = Vec::new();
    let mut i: usize = 0;
    while i < sorted.len()
        invariant
            0 <= i <= sorted@.len(),
            out@.len() == i,
            forall|j: int| 0 <= j < i ==> refs_of(out@)[j] == sorted@[j]
                && (#[trigger] out@[j])@ == dag.data_of(sorted@[j]),
        decreases sorted@.len() - i,
    {
        let r = sorted[i];
        proof {
            assert(sorted@.contains(r)) by {
                assert(sorted@[i as int] == r);
            }
        }
        let b = match dag.get(&r) {
            Some(b) => b,
            None => {
                proof {
                    assert(false);
                }
                dag.blocks[0].duplicate()
            },
        };
        proof {
            assert(b@ == dag.data_of(r));
            assert(dag.refs()[dag.index_of(r)] == r);
            assert(b@.reference() == r);
        }
        out.push(b);
        i = i + 1;
    }
    proof {
        assert(refs_of(out@) =~= sorted@);
        assert forall|x: BlockRef| refs_of(out@).contains(x)
            implies dag.subdag_member(*leader, x, committed@) by {
        }
    }
    out
}

/// Whether a sorted insertion at position `p` keeps strict order.
proof fn lemma_insert_sorted(
    pre: Seq<BlockRef>,
    post: Seq<BlockRef>,
    x: BlockRef,
    p: int,
    i: int,
    j: int,
)
    requires
        0 <= p <= pre.len(),
        post == pre.subrange(0, p).push(x) + pre.subrange(p, pre.len() as int),
        forall|a: int, b: int| 0 <= a < b < pre.len() ==> key_lt(#[trigger] pre[a], #[trigger] pre[b]),
        forall|q: int| 0 <= q < p ==> key_lt(#[trigger] pre[q], x),
        p < pre.len() ==> !key_lt(pre[p], x),
        !pre.contains(x),
        0 <= i < j < post.len(),
    ensures
        key_lt(post[i], post[j]),
{
    assert(post.len() == pre.len() + 1);
    assert(forall|q: int| 0 <= q < p ==> post[q] == pre[q]);
    assert(post[p] == x);
    assert(forall|q: int| p < q < post.len() ==> post[q] == pre[q - 1]);
    if p < pre.len() {
        assert(pre.contains(pre[p])) by {
            assert(pre[p] == pre[p]);
        }
        assert(pre[p] != x);
        assert(key_lt(x, pre[p]) || key_lt(pre[p], x) || pre[p] == x);
    }
    if i < p && j == p {
        assert(key_lt(pre[i], x));
    } else if i == p && j > p {
        assert(key_lt(x, pre[j - 1])) by {
            if j - 1 > p {
                assert(key_lt(pre[p], pre[j - 1]));
            }
        }
    }
}

/// Linear scan of the DAG for a reference.
fn contains_ref_exec(dag: &DagState, r: &BlockRef) -> (found: bool)
    ensures
        found == dag.contains_ref(*r),
{
    dag.contains(r)
}

/// Linear scan of a reference list.
fn contains_ref_vec(v: &Vec<BlockRef>, r: &BlockRef) -> (found: bool)
    ensures
        found == v@.contains(*r),
{
    let mut i: usize = 0;
    while i < v.len()
        invariant
            0 <= i <= v@.len(),
            forall|k: int| 0 <= k < i ==> v@[k] != *r,
        decreases v@.len() - i,
    {
        if v[i] == *r {
            proof {
                assert(v@.contains(*r)) by {
                    assert(v@[i as int] == *r);
                }
            }
            return true;
        }
        i = i + 1;
    }
    false
}

} // verus!
