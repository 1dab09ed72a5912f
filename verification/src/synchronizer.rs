//! Fetch scheduling for missing ancestors: bounded concurrency,
//! de-duplication of in-flight requests, and exponential backoff with a
//! retry cap. The decisions live here, fully verified; the host performs
//! the network transfers and reports each outcome back.

use vstd::prelude::*;
use crate::block::BlockRef;

verus! {

/// Most fetches in flight at once.
pub const MAX_INFLIGHT: usize = 64;

/// A fetch is abandoned after this many failed attempts.
pub const MAX_ATTEMPTS: u32 = 8;

/// First retry delay.
pub const BACKOFF_BASE_MS: u64 = 100;

/// Retry delays never exceed this.
pub const BACKOFF_CAP_MS: u64 = 60000;

/// Delay before retry number `attempts`: doubles each failure, capped.
pub open spec fn backoff_ms(attempts: u32) -> u64
    decreases attempts,
{
    if attempts == 0 {
        BACKOFF_BASE_MS
    } else if 2 * backoff_ms((attempts - 1) as u32) >= BACKOFF_CAP_MS {
        BACKOFF_CAP_MS
    } else {
        (2 * backoff_ms((attempts - 1) as u32)) as u64
    }
}

/// One tracked fetch.
pub struct FetchState {
    pub target: BlockRef,
    pub attempts: u32,
    pub not_before_ms: u64,
}

pub struct Synchronizer {
    pub inflight: Vec<FetchState>,
}

impl Synchronizer {
    /// Tracked targets are distinct and the set is bounded.
    pub open spec fn wf(self) -> bool {
        &&& self.inflight@.len() <= MAX_INFLIGHT
        &&& forall|i: int, j: int| 0 <= i < j < self.inflight@.len()
            ==> (#[trigger] self.inflight@[i]).target != (#[trigger] self.inflight@[j]).target
    }

    pub open spec fn tracks(self, r: BlockRef) -> bool {
        exists|i: int| 0 <= i < self.inflight@.len()
            && (#[trigger] self.inflight@[i]).target == r
    }

    /// The tracked entry for `r` (unique under `wf`).
    pub open spec fn entry_of(self, r: BlockRef) -> FetchState {
        self.inflight@[choose|i: int| 0 <= i < self.inflight@.len()
            && (#[trigger] self.inflight@[i]).target == r]
    }

    pub fn new() -> (r: Synchronizer)
        ensures
            r.wf(),
            r.inflight@.len() == 0,
    {
        Synchronizer { inflight: Vec::new() }
    }

    fn find(&self, r: &BlockRef) -> (o: Option<usize>)
        ensures
            o is Some ==> 0 <= o->Some_0 < self.inflight@.len()
                && self.inflight@[o->Some_0 as int].target == *r,
            (o is Some) == self.tracks(*r),
    {
        let mut i: usize = 0;
        while i < self.inflight.len()
            invariant
                0 <= i <= self.inflight@.len(),
                forall|k: int| 0 <= k < i ==> (#[trigger] self.inflight@[k]).target != *r,
            decreases self.inflight@.len() - i,
        {
            if self.inflight[i].target == *r {
                proof {
                    assert(self.tracks(*r)) by {
                        assert(self.inflight@[i as int].target == *r);
                    }
                }
                return Some(i);
            }
            i = i + 1;
        }
        None
    }

    /// Schedules fetches for the given missing references: each one not
    /// already in flight is admitted, immediately due, while capacity
    /// lasts. Returns the references actually scheduled; what was
    /// tracked before stays tracked.
    #[verifier::loop_isolation(false)]
    pub fn request_fetches(&mut self, missing: &Vec<BlockRef>, now_ms: u64)
        -> (scheduled: Vec<BlockRef>)
        requires
            old(self).wf(),
        ensures
            final(self).wf(),
            forall|x: BlockRef| #[trigger] scheduled@.contains(x)
                ==> missing@.contains(x) && !old(self).tracks(x),
            forall|x: BlockRef| old(self).tracks(x) ==> final(self).tracks(x),
            forall|x: BlockRef| #[trigger] scheduled@.contains(x) ==> final(self).tracks(x),
            forall|x: BlockRef| missing@.contains(x) && !(#[trigger] scheduled@.contains(x))
                && !old(self).tracks(x)
                ==> final(self).inflight@.len() == MAX_INFLIGHT,
    {
        let mut scheduled: Vec<BlockRef> = Vec::new();
        let mut i: usize = 0;
        while i < missing.len()
            invariant
                0 <= i <= missing@.len(),
                self.wf(),
                forall|x: BlockRef| #[trigger] scheduled@.contains(x)
                    ==> missing@.contains(x) && !old(self).tracks(x),
                forall|x: BlockRef| old(self).tracks(x) ==> self.tracks(x),
                forall|x: BlockRef| #[trigger] scheduled@.contains(x) ==> self.tracks(x),
                forall|x: BlockRef| self.tracks(x)
                    ==> old(self).tracks(x) || scheduled@.contains(x),
                forall|k: int| 0 <= k < i && !(#[trigger] scheduled@.contains(missing@[k]))
                    && !old(self).tracks(missing@[k])
                    ==> self.inflight@.len() == MAX_INFLIGHT,
                self.inflight@.len() >= old(self).inflight@.len(),
            decreases missing@.len() - i,
        {
            let r = missing[i];
            if self.inflight.len() < MAX_INFLIGHT {
                if self.find(&r).is_none() {
                    let ghost pre = self.inflight@;
                    let ghost pre_sched = scheduled@;
                    self.inflight.push(FetchState { target: r, attempts: 0, not_before_ms: now_ms });
                    scheduled.push(r);
                    proof {
                        assert(self.inflight@[pre.len() as int].target == r);
                        assert(scheduled@[pre_sched.len() as int] == r);
                        assert(missing@.contains(r)) by {
                            assert(missing@[i as int] == r);
                        }
                        assert forall|p: int, q: int| 0 <= p < q < self.inflight@.len()
                            implies (#[trigger] self.inflight@[p]).target
                                != (#[trigger] self.inflight@[q]).target by {
                            if q == self.inflight@.len() - 1 {
                                assert(self.inflight@[p] == pre[p]);
                                if pre[p].target == r {
                                    assert(Synchronizer { inflight: self.inflight }.tracks(r));
                                }
                            } else {
                                assert(self.inflight@[p] == pre[p]
                                    && self.inflight@[q] == pre[q]);
                            }
                        }
                        assert forall|x: BlockRef| #[trigger] scheduled@.contains(x)
                            implies pre_sched.contains(x) || x == r by {
                            let k = choose|k: int| 0 <= k < scheduled@.len()
                                && scheduled@[k] == x;
                            if k < pre_sched.len() {
                                assert(pre_sched[k] == x);
                            }
                        }
                        assert forall|x: BlockRef| pre_sched.contains(x)
                            implies #[trigger] scheduled@.contains(x) by {
                            let k = choose|k: int| 0 <= k < pre_sched.len()
                                && pre_sched[k] == x;
                            assert(scheduled@[k] == x);
                        }
                        assert forall|x: BlockRef|
                            (exists|p: int| 0 <= p < pre.len()
                                && (#[trigger] pre[p]).target == x)
                            implies self.tracks(x) by {
                            let p = choose|p: int| 0 <= p < pre.len()
                                && (#[trigger] pre[p]).target == x;
                            assert(self.inflight@[p].target == x);
                        }
                        assert forall|x: BlockRef| self.tracks(x)
                            implies (exists|p: int| 0 <= p < pre.len()
                                && (#[trigger] pre[p]).target == x) || x == r by {
                            let p = choose|p: int| 0 <= p < self.inflight@.len()
                                && (#[trigger] self.inflight@[p]).target == x;
                            if p < pre.len() {
                                assert(pre[p].target == x);
                            }
                        }
                    }
                }
            }
            i = i + 1;
        }
        scheduled
    }

    /// Records the outcome of one fetch. Success removes the entry; a
    /// failure bumps the attempt count and backs the retry off
    /// exponentially, or abandons the entry once the attempt cap is
    /// reached; an unknown target changes nothing.
    #[verifier::loop_isolation(false)]
    pub fn on_fetch_result(&mut self, target: &BlockRef, success: bool, now_ms: u64)
        requires
            old(self).wf(),
            now_ms <= u64::MAX - BACKOFF_CAP_MS,
        ensures
            final(self).wf(),
            success ==> !final(self).tracks(*target),
            forall|x: BlockRef| x != *target
                ==> (final(self).tracks(x) == old(self).tracks(x)),
            !old(self).tracks(*target) ==> *final(self) == *old(self),
            old(self).tracks(*target) && !success
                && old(self).entry_of(*target).attempts < MAX_ATTEMPTS
                ==> final(self).tracks(*target)
                    && final(self).entry_of(*target).attempts
                        == old(self).entry_of(*target).attempts + 1
                    && final(self).entry_of(*target).not_before_ms
                        == now_ms + backoff_ms((old(self).entry_of(*target).attempts + 1) as u32),
            old(self).tracks(*target) && !success
                && old(self).entry_of(*target).attempts >= MAX_ATTEMPTS
                ==> !final(self).tracks(*target),
    {
        let found = self.find(target);
        match found {
            None => {},
            Some(pos) => {
                let attempts = self.inflight[pos].attempts;
                let ghost snapshot = *self;
                proof {
                    let i = choose|i: int| 0 <= i < snapshot.inflight@.len()
                        && (#[trigger] snapshot.inflight@[i]).target == *target;
                    if i != pos {
                        assert(snapshot.inflight@[i].target
                            != snapshot.inflight@[pos as int].target);
                    }
                    assert(snapshot.entry_of(*target) == snapshot.inflight@[pos as int]);
                }
                if success || attempts >= MAX_ATTEMPTS {
                    let ghost pre = self.inflight@;
                    self.remove_at(pos);
                    proof {
                        assert(pre[pos as int].target == *target);
                    }
                } else {
                    let delay = compute_backoff(attempts + 1);
                    let ghost pre = self.inflight@;
                    let entry = FetchState {
                        target: self.inflight[pos].target,
                        attempts: attempts + 1,
                        not_before_ms: now_ms + delay,
                    };
                    self.inflight.set(pos, entry);
                    proof {
                        assert(entry.target == pre[pos as int].target);
                        assert forall|x: BlockRef| self.tracks(x)
                            implies snapshot.tracks(x) by {
                            let p = choose|p: int| 0 <= p < self.inflight@.len()
                                && (#[trigger] self.inflight@[p]).target == x;
                            assert(pre[p].target == x);
                        }
                        assert forall|x: BlockRef| snapshot.tracks(x)
                            implies self.tracks(x) by {
                            let p = choose|p: int| 0 <= p < pre.len()
                                && (#[trigger] pre[p]).target == x;
                            assert(self.inflight@[p].target == x);
                        }
                        assert(self.inflight@[pos as int].target == *target);
                        assert(self.tracks(*target));
                        let i = choose|i: int| 0 <= i < self.inflight@.len()
                            && (#[trigger] self.inflight@[i]).target == *target;
                        if i != pos {
                            assert(self.inflight@[i].target
                                != self.inflight@[pos as int].target);
                        }
                        assert(self.entry_of(*target) == entry);
                    }
                }
            },
        }
    }

    /// Removes the entry at `pos`, keeping targets distinct; nothing
    /// else changes membership except the removed target.
    fn remove_at(&mut self, pos: usize)
        requires
            old(self).wf(),
            pos < old(self).inflight@.len(),
        ensures
            final(self).wf(),
            !final(self).tracks(old(self).inflight@[pos as int].target),
            forall|x: BlockRef| x != old(self).inflight@[pos as int].target
                ==> (final(self).tracks(x) == old(self).tracks(x)),
            final(self).inflight@.len() == old(self).inflight@.len() - 1,
    {
        let ghost pre = self.inflight@;
        let _removed = self.inflight.remove(pos);
        proof {
            assert(self.inflight@ =~= pre.subrange(0, pos as int)
                + pre.subrange(pos as int + 1, pre.len() as int));
            assert forall|x: BlockRef| self.tracks(x)
                implies (exists|p: int| 0 <= p < pre.len() && (#[trigger] pre[p]).target == x
                    && p != pos) by {
                let p = choose|p: int| 0 <= p < self.inflight@.len()
                    && (#[trigger] self.inflight@[p]).target == x;
                if p < pos {
                    assert(pre[p].target == x);
                } else {
                    assert(pre[p + 1].target == x);
                }
            }
            assert forall|p: int| 0 <= p < pre.len() && p != pos
                implies self.tracks(#[trigger] pre[p].target) by {
                if p < pos {
                    assert(self.inflight@[p].target == pre[p].target);
                } else {
                    assert(self.inflight@[p - 1].target == pre[p].target);
                }
            }
            assert forall|p: int, q: int| 0 <= p < q < self.inflight@.len()
                implies (#[trigger] self.inflight@[p]).target
                    != (#[trigger] self.inflight@[q]).target by {
                let p2: int = if p < pos { p } else { p + 1 };
                let q2: int = if q < pos { q } else { q + 1 };
                assert(self.inflight@[p] == pre[p2]);
                assert(self.inflight@[q] == pre[q2]);
            }
            if self.tracks(pre[pos as int].target) {
                let p = choose|p: int| 0 <= p < pre.len()
                    && (#[trigger] pre[p]).target == pre[pos as int].target && p != pos;
                assert(false);
            }
        }
    }

    /// The tracked fetches that are due at `now_ms`.
    pub fn due_fetches(&self, now_ms: u64) -> (due: Vec<BlockRef>)
        ensures
            forall|x: BlockRef| #[trigger] due@.contains(x)
                <==> exists|i: int| 0 <= i < self.inflight@.len()
                    && (#[trigger] self.inflight@[i]).target == x
                    && self.inflight@[i].not_before_ms <= now_ms,
    {
        let mut due: Vec<BlockRef> = Vec::new();
        let mut i: usize = 0;
        while i < self.inflight.len()
            invariant
                0 <= i <= self.inflight@.len(),
                forall|x: BlockRef| #[trigger] due@.contains(x)
                    <==> exists|k: int| 0 <= k < i
                        && (#[trigger] self.inflight@[k]).target == x
                        && self.inflight@[k].not_before_ms <= now_ms,
            decreases self.inflight@.len() - i,
        {
            let entry = &self.inflight[i];
            if entry.not_before_ms <= now_ms {
                let ghost pre = due@;
                due.push(entry.target);
                proof {
                    assert forall|x: BlockRef| #[trigger] due@.contains(x)
                        implies pre.contains(x) || x == self.inflight@[i as int].target by {
                        let k = choose|k: int| 0 <= k < due@.len() && due@[k] == x;
                        if k < pre.len() {
                            assert(pre[k] == x);
                        }
                    }
                    assert forall|x: BlockRef| pre.contains(x)
                        implies #[trigger] due@.contains(x) by {
                        let k = choose|k: int| 0 <= k < pre.len() && pre[k] == x;
                        assert(due@[k] == x);
                    }
                    assert(due@.contains(self.inflight@[i as int].target)) by {
                        assert(due@[pre.len() as int] == self.inflight@[i as int].target);
                    }
                }
            }
            i = i + 1;
        }
        due
    }
}

/// Executable mirror of `backoff_ms`.
fn compute_backoff(attempts: u32) -> (r: u64)
    ensures
        r == backoff_ms(attempts),
        r <= BACKOFF_CAP_MS,
    decreases attempts,
{
    if attempts == 0 {
        BACKOFF_BASE_MS
    } else {
        let prev = compute_backoff(attempts - 1);
        if 2 * prev >= BACKOFF_CAP_MS {
            BACKOFF_CAP_MS
        } else {
            2 * prev
        }
    }
}

} // verus!
