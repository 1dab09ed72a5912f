//! Deterministic leader-per-round assignment, weighted by reputation
//! scores. Scores are versioned in an append-only list of windows, each
//! taking effect at a round boundary, so a recomputation never changes
//! the leader of an earlier round and replay stays reproducible. Every
//! validator keeps a score of at least one, so none is ever excluded
//! from selection (liveness floor).

use vstd::prelude::*;
use crate::block::Round;
use crate::committee::{Committee, sum_upto};

verus! {

/// Multiplier used to spread rounds over the score space.
pub const ROUND_MIXER: u64 = 0x9E3779B97F4A7C15;

/// One versioned score table: effective from `from_round` onward.
pub struct ScoreWindow {
    pub from_round: Round,
    pub scores: Vec<u64>,
    pub total: u64,
}

impl ScoreWindow {
    pub open spec fn wf(self, c: Committee) -> bool {
        &&& self.scores@.len() == c.spec_size()
        &&& forall|i: int| 0 <= i < self.scores@.len() ==> self.scores@[i] >= 1
        &&& self.total as int == sum_upto(self.scores@, self.scores@.len() as int)
    }
}

/// Index of the last window whose boundary is at or before `round`,
/// scanning from the newest window backward.
pub open spec fn win_idx(ws: Seq<ScoreWindow>, round: Round) -> int
    decreases ws.len(),
{
    if ws.len() <= 1 {
        0
    } else if ws.last().from_round <= round {
        ws.len() - 1
    } else {
        win_idx(ws.drop_last(), round)
    }
}

/// Weighted pick: walks the score table from `i`, consuming `target`
/// until it falls inside one validator's score span.
pub open spec fn pick_from(scores: Seq<u64>, i: int, target: int) -> int
    decreases scores.len() - i,
{
    if i >= scores.len() - 1 {
        i
    } else if target < scores[i] {
        i
    } else {
        pick_from(scores, i + 1, target - scores[i])
    }
}

/// Pseudo-random, deterministic spread of a round number.
pub open spec fn mix(round: Round) -> int {
    (round * ROUND_MIXER) % 0x1_0000_0000_0000_0000
}

pub struct LeaderSchedule {
    pub windows: Vec<ScoreWindow>,
}

impl LeaderSchedule {
    /// At least one window, anchored at round zero, boundaries strictly
    /// increasing, every window well formed for the committee.
    pub open spec fn wf(self, c: Committee) -> bool {
        &&& self.windows@.len() >= 1
        &&& self.windows@[0].from_round == 0
        &&& forall|i: int, j: int| 0 <= i < j < self.windows@.len()
            ==> (#[trigger] self.windows@[i]).from_round < (#[trigger] self.windows@[j]).from_round
        &&& forall|i: int| 0 <= i < self.windows@.len()
            ==> (#[trigger] self.windows@[i]).wf(c)
    }

    /// The leader of `round`: a weighted pick over the scores of the
    /// window in force at `round`.
    pub open spec fn leader_spec(self, round: Round) -> int {
        let w = self.windows@[win_idx(self.windows@, round)];
        pick_from(w.scores@, 0, mix(round) % (w.total as int))
    }

    /// Starts with every validator at score one.
    pub fn new(c: &Committee) -> (r: LeaderSchedule)
        requires
            c.wf(),
        ensures
            r.wf(*c),
            r.windows@.len() == 1,
    {
        let n = c.size();
        let mut scores: Vec<u64> = Vec::new();
        let mut i: usize = 0;
        while i < n
            invariant
                0 <= i <= n,
                scores@.len() == i,
                forall|k: int| 0 <= k < i ==> #[trigger] scores@[k] == 1u64,
            decreases n - i,
        {
            scores.push(1);
            i = i + 1;
        }
        proof {
            lemma_sum_of_ones(scores@, n as int);
        }
        let window = ScoreWindow { from_round: 0, scores, total: n as u64 };
        let mut windows: Vec<ScoreWindow> = Vec::new();
        windows.push(window);
        LeaderSchedule { windows }
    }

    /// The deterministic leader of `round`, always a committee member.
    #[verifier::loop_isolation(false)]
    pub fn leader_for(&self, round: Round, c: &Committee) -> (r: usize)
        requires
            self.wf(*c),
            c.wf(),
        ensures
            r as int == self.leader_spec(round),
            r < c.spec_size(),
    {
        let mut i: usize = self.windows.len() - 1;
        proof {
            assert(self.windows@.subrange(0, self.windows@.len() as int) =~= self.windows@);
        }
        while i > 0 && self.windows[i].from_round > round
            invariant
                0 <= i < self.windows@.len(),
                win_idx(self.windows@, round)
                    == win_idx(self.windows@.subrange(0, i + 1), round),
            decreases i,
        {
            proof {
                assert(self.windows@.subrange(0, i + 1).drop_last()
                    =~= self.windows@.subrange(0, i as int));
                assert(self.windows@.subrange(0, i + 1).last() == self.windows@[i as int]);
            }
            i = i - 1;
        }
        proof {
            if i == 0 {
                lemma_win_idx_bottom(self.windows@.subrange(0, 1), round);
            }
            assert(self.windows@.subrange(0, i + 1).last() == self.windows@[i as int]);
            assert(win_idx(self.windows@, round) == i);
        }
        let window = &self.windows[i];
        let seed = (round as u64).wrapping_mul(ROUND_MIXER);
        proof {
            crate::committee::lemma_total_positive(window.scores@);
        }
        let target = seed % window.total;
        pick_step(&window.scores, 0, target)
    }

    /// Installs a new score table taking effect at `from_round`, strictly
    /// after every existing boundary. The new table is appended; nothing
    /// already in force is touched, so leaders of earlier rounds are
    /// unchanged (see `lemma_update_preserves_past`).
    #[verifier::loop_isolation(false)]
    pub fn update_scores(&mut self, from_round: Round, scores: Vec<u64>, c: &Committee)
        -> (ok: bool)
        requires
            old(self).wf(*c),
            c.wf(),
        ensures
            final(self).wf(*c),
            ok ==> final(self).windows@.len() == old(self).windows@.len() + 1
                && final(self).windows@.subrange(0, old(self).windows@.len() as int)
                    == old(self).windows@
                && final(self).windows@.last().from_round == from_round
                && final(self).windows@.last().scores@ == scores@,
            !ok ==> *final(self) == *old(self),
            ok <==> (from_round > old(self).windows@.last().from_round
                && scores@.len() == c.spec_size()
                && (forall|i: int| 0 <= i < scores@.len() ==> scores@[i] >= 1)
                && sum_upto(scores@, scores@.len() as int) <= u64::MAX),
    {
        let last_from = self.windows[self.windows.len() - 1].from_round;
        if from_round <= last_from {
            return false;
        }
        if scores.len() != c.size() {
            return false;
        }
        let mut total: u64 = 0;
        let mut i: usize = 0;
        let ghost sv = scores@;
        while i < scores.len()
            invariant
                0 <= i <= sv.len(),
                sv == scores@,
                total as int == sum_upto(sv, i as int),
                forall|k: int| 0 <= k < i ==> sv[k] >= 1,
            decreases sv.len() - i,
        {
            let s = scores[i];
            if s < 1 {
                proof {
                    assert(sv[i as int] < 1);
                }
                return false;
            }
            if total > u64::MAX - s {
                proof {
                    crate::committee::lemma_sum_upto_monotone(sv, i + 1, sv.len() as int);
                }
                return false;
            }
            total = total + s;
            i = i + 1;
        }
        let ghost pre = self.windows@;
        self.windows.push(ScoreWindow { from_round, scores, total });
        proof {
            assert(self.windows@.subrange(0, pre.len() as int) =~= pre);
            assert forall|w: int| 0 <= w < self.windows@.len()
                implies (#[trigger] self.windows@[w]).wf(*c) by {
                if w < pre.len() {
                    assert(self.windows@[w] == pre[w]);
                }
            }
            assert forall|a: int, b: int| 0 <= a < b < self.windows@.len()
                implies (#[trigger] self.windows@[a]).from_round
                    < (#[trigger] self.windows@[b]).from_round by {
                if b < pre.len() {
                } else {
                    assert(self.windows@[b].from_round == from_round);
                    if a < pre.len() {
                        assert(pre[a].from_round <= pre[pre.len() - 1].from_round);
                    }
                }
            }
        }
        true
    }
}

/// A score update that takes effect at a future boundary leaves the
/// leader of every earlier round exactly as it was: schedule
/// recomputation is never retroactive.
pub proof fn lemma_update_preserves_past(
    before: LeaderSchedule,
    after: LeaderSchedule,
    round: Round,
)
    requires
        before.windows@.len() >= 1,
        after.windows@.len() == before.windows@.len() + 1,
        after.windows@.subrange(0, before.windows@.len() as int) == before.windows@,
        round < after.windows@.last().from_round,
    ensures
        after.leader_spec(round) == before.leader_spec(round),
{
    assert(after.windows@.drop_last() =~= before.windows@);
    assert(win_idx(after.windows@, round) == win_idx(before.windows@, round));
    assert(after.windows@[win_idx(after.windows@, round)]
        == before.windows@[win_idx(before.windows@, round)]) by {
        lemma_win_idx_in_range(before.windows@, round);
    }
}

/// `win_idx` always lands inside the window list.
pub proof fn lemma_win_idx_in_range(ws: Seq<ScoreWindow>, round: Round)
    requires
        ws.len() >= 1,
    ensures
        0 <= win_idx(ws, round) < ws.len(),
    decreases ws.len(),
{
    if ws.len() > 1 && ws.last().from_round > round {
        lemma_win_idx_in_range(ws.drop_last(), round);
    }
}

proof fn lemma_win_idx_bottom(ws: Seq<ScoreWindow>, round: Round)
    requires
        ws.len() == 1,
    ensures
        win_idx(ws, round) == 0,
{
}

proof fn lemma_sum_of_ones(s: Seq<u64>, n: int)
    requires
        0 <= n <= s.len(),
        forall|k: int| 0 <= k < s.len() ==> #[trigger] s[k] == 1u64,
    ensures
        sum_upto(s, n) == n,
    decreases n,
{
    if n > 0 {
        lemma_sum_of_ones(s, n - 1);
    }
}

/// Executable mirror of `pick_from`.
fn pick_step(scores: &Vec<u64>, i: usize, target: u64) -> (r: usize)
    requires
        scores@.len() > 0,
        i < scores@.len(),
    ensures
        r as int == pick_from(scores@, i as int, target as int),
        i <= r < scores@.len(),
    decreases scores@.len() - i,
{
    if i >= scores.len() - 1 {
        i
    } else if target < scores[i] {
        i
    } else {
        pick_step(scores, i + 1, target - scores[i])
    }
}

} // verus!
