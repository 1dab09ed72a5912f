//! Commit records and the commit observer. The observer serializes the
//! stream handed to the execution layer: commit indices are consecutive —
//! strictly increasing, no gaps, no repeats — replays are deduplicated,
//! and recovery resumes exactly at the last durably recorded index.

use vstd::prelude::*;
use crate::block::{Block, BlockRef};

verus! {

/// One commit decision: a strictly increasing index and the committed
/// leader block.
#[derive(Clone, Copy, PartialEq, Eq, Structural, Debug)]
pub struct Commit {
    pub index: u64,
    pub leader: BlockRef,
    pub timestamp_ms: u64,
}

/// A commit plus the blocks of its linearized sub-DAG, in the order the
/// linearizer fixed.
pub struct CommittedSubDag {
    pub commit: Commit,
    pub blocks: Vec<Block>,
}

/// What the observer did with one offered commit.
#[derive(Clone, Copy, PartialEq, Eq, Structural, Debug)]
pub enum HandleOutcome {
    /// Passed downstream; the recorded index advanced to it.
    Emitted,
    /// A replay of an index already emitted; dropped, nothing changed.
    Duplicate,
    /// Skips ahead of the next expected index; refused, nothing changed.
    Gap,
}

pub struct CommitObserver {
    /// Index of the last commit emitted downstream; zero before any.
    pub last_index: u64,
}

impl CommitObserver {
    /// Resumes from a durably recovered index: nothing below it is
    /// re-emitted, nothing above it is skipped.
    pub fn new(recovered_index: u64) -> (r: CommitObserver)
        ensures
            r.last_index == recovered_index,
    {
        CommitObserver { last_index: recovered_index }
    }

    /// Accepts a commit for emission. Exactly the commit with index one
    /// past the last emitted is passed through, so the downstream stream
    /// of indices is consecutive; replays and gaps leave the observer
    /// unchanged.
    pub fn handle_commit(&mut self, commit: &Commit) -> (o: HandleOutcome)
        requires
            old(self).last_index < u64::MAX,
        ensures
            final(self).last_index >= old(self).last_index,
            (o is Emitted) <==> commit.index == old(self).last_index + 1,
            o is Emitted ==> final(self).last_index == commit.index,
            (o is Duplicate) <==> commit.index <= old(self).last_index,
            (o is Gap) <==> commit.index > old(self).last_index + 1,
            !(o is Emitted) ==> *final(self) == *old(self),
    {
        if commit.index == self.last_index + 1 {
            self.last_index = commit.index;
            HandleOutcome::Emitted
        } else if commit.index <= self.last_index {
            HandleOutcome::Duplicate
        } else {
            HandleOutcome::Gap
        }
    }
}

} // verus!
