use consensus_core::block::{Block, BlockRef, Slot, Transaction};
use consensus_core::block_manager::{AcceptStatus, BlockManager};
use consensus_core::block_verifier::{verify_block, VerifyError, MAX_TRANSACTIONS};
use consensus_core::commit::{Commit, CommitObserver, HandleOutcome};
use consensus_core::committee::{Committee, Validator};
use consensus_core::committer::{try_direct_decide, try_indirect_decide, LeaderStatus, UniversalCommitter};
use consensus_core::dag_state::{DagState, InsertResult};
use consensus_core::leader_schedule::LeaderSchedule;
use consensus_core::linearizer::linearize_subdag;
use consensus_core::stake_aggregator::StakeAggregator;
use consensus_core::threshold_clock::ThresholdClock;

fn committee4() -> Committee {
    let validators = vec![
        Validator { key: 10, stake: 1 },
        Validator { key: 11, stake: 1 },
        Validator { key: 12, stake: 1 },
        Validator { key: 13, stake: 1 },
    ];
    Committee::new(validators).expect("valid committee")
}

fn block(author: usize, round: u32, digest: u64, ancestors: Vec<BlockRef>) -> Block {
    Block {
        author,
        round,
        timestamp_ms: 1000 + round as u64,
        ancestors,
        transactions: Vec::new(),
        digest,
        signature: 7,
    }
}

fn genesis_refs() -> Vec<BlockRef> {
    (0..4).map(|a| BlockRef { author: a, round: 0, digest: a as u64 }).collect()
}

/// Builds the four-validator example: genesis, a full round 1, and
/// round-2 blocks from validators 1, 2, 3 referencing all of round 1.
fn build_example_dag(c: &Committee) -> DagState {
    let mut dag = DagState::new();
    for a in 0..4 {
        let g = block(a, 0, a as u64, Vec::new());
        assert!(verify_block(&g, c).is_ok());
        assert!(matches!(dag.insert(&g, c), InsertResult::Accepted));
    }
    let round1_refs: Vec<BlockRef> =
        (0..4).map(|a| BlockRef { author: a, round: 1, digest: 100 + a as u64 }).collect();
    for a in 0..4 {
        let b = block(a, 1, 100 + a as u64, genesis_refs());
        assert!(verify_block(&b, c).is_ok());
        assert!(matches!(dag.insert(&b, c), InsertResult::Accepted));
    }
    for a in 1..4 {
        let b = block(a, 2, 200 + a as u64, round1_refs.clone());
        assert!(verify_block(&b, c).is_ok());
        assert!(matches!(dag.insert(&b, c), InsertResult::Accepted));
    }
    dag
}

#[test]
fn quorum_threshold_of_four_equal_validators_is_three() {
    let c = committee4();
    assert_eq!(c.total_stake(), 4);
    assert_eq!(c.quorum_threshold(), 3);
    assert_eq!(c.byzantine_tolerance(), 1);
}

#[test]
fn committee_rejects_zero_stake_and_empty_table() {
    assert!(Committee::new(Vec::new()).is_none());
    assert!(Committee::new(vec![Validator { key: 1, stake: 0 }]).is_none());
}

#[test]
fn stake_aggregator_rejects_duplicates_and_triggers_once() {
    let c = committee4();
    let mut agg = StakeAggregator::new(&c);
    assert!(!agg.add(0, &c));
    assert!(!agg.add(0, &c)); // duplicate: no stake added, no crossing
    assert!(!agg.add(1, &c));
    assert!(agg.add(2, &c)); // third distinct vote crosses 3-of-4
    assert!(!agg.add(3, &c)); // already over the threshold: not a crossing
    assert!(agg.reached_quorum(&c));
}

#[test]
fn threshold_clock_advances_on_quorum_and_never_backward() {
    let c = committee4();
    let mut clock = ThresholdClock::new(&c);
    assert_eq!(clock.get_round(), 0);
    for a in 0..3 {
        clock.observe(BlockRef { author: a, round: 0, digest: a as u64 }, &c);
    }
    assert_eq!(clock.get_round(), 1); // quorum of round 0 seen
    clock.observe(BlockRef { author: 3, round: 0, digest: 3 }, &c);
    assert_eq!(clock.get_round(), 1); // an old round never moves it back
    clock.observe(BlockRef { author: 0, round: 5, digest: 50 }, &c);
    assert_eq!(clock.get_round(), 5); // a higher round pulls it forward
}

#[test]
fn verifier_rejects_each_malformed_shape() {
    let c = committee4();
    let ok = block(0, 1, 1, genesis_refs());
    assert!(verify_block(&ok, &c).is_ok());

    let unknown_author = block(9, 1, 1, genesis_refs());
    assert_eq!(verify_block(&unknown_author, &c), Err(VerifyError::UnknownAuthor));

    let genesis_with_parents = block(0, 0, 1, genesis_refs());
    assert_eq!(verify_block(&genesis_with_parents, &c), Err(VerifyError::GenesisWithAncestors));

    let mut bad_anc = genesis_refs();
    bad_anc[0].author = 9;
    assert_eq!(
        verify_block(&block(0, 1, 1, bad_anc), &c),
        Err(VerifyError::UnknownAncestorAuthor)
    );

    let mut high_round = genesis_refs();
    high_round[0].round = 1;
    assert_eq!(
        verify_block(&block(0, 1, 1, high_round), &c),
        Err(VerifyError::AncestorRoundNotLower)
    );

    let mut dup = genesis_refs();
    dup[1].author = 0;
    assert_eq!(
        verify_block(&block(0, 1, 1, dup), &c),
        Err(VerifyError::DuplicateAncestorAuthor)
    );

    // only two of four parents from the previous round: below quorum
    let thin = vec![
        BlockRef { author: 0, round: 0, digest: 0 },
        BlockRef { author: 1, round: 0, digest: 1 },
    ];
    assert_eq!(
        verify_block(&block(0, 1, 1, thin), &c),
        Err(VerifyError::InsufficientAncestorStake)
    );

    let mut fat = block(0, 1, 1, genesis_refs());
    for _ in 0..(MAX_TRANSACTIONS + 1) {
        fat.transactions.push(Transaction { data: vec![1] });
    }
    assert_eq!(verify_block(&fat, &c), Err(VerifyError::TooManyTransactions));
}

#[test]
fn dag_insert_is_idempotent_and_causally_complete() {
    let c = committee4();
    let mut dag = DagState::new();
    let g = block(0, 0, 0, Vec::new());
    assert!(matches!(dag.insert(&g, &c), InsertResult::Accepted));
    let before = dag.blocks.len();
    // re-delivery: no state change
    assert!(matches!(dag.insert(&g, &c), InsertResult::Duplicate));
    assert_eq!(dag.blocks.len(), before);
    // a block whose ancestors are absent is refused with the exact gap
    let orphan = block(1, 2, 9, vec![BlockRef { author: 0, round: 1, digest: 77 }]);
    match dag.insert(&orphan, &c) {
        InsertResult::MissingAncestors(missing) => {
            assert_eq!(missing, vec![BlockRef { author: 0, round: 1, digest: 77 }]);
        }
        _ => panic!("orphan must be refused"),
    }
    assert_eq!(dag.blocks.len(), before);
}

#[test]
fn block_manager_buffers_and_cascades() {
    let c = committee4();
    let mut dag = DagState::new();
    let mut manager = BlockManager::new();
    for a in 0..4 {
        let g = block(a, 0, a as u64, Vec::new());
        let (status, _) = manager.try_accept(&mut dag, g, &c);
        assert_eq!(status, AcceptStatus::Accepted);
    }
    // a round-2 block arrives before its round-1 parent
    let parent_ref = BlockRef { author: 0, round: 1, digest: 100 };
    let mut r2_parents = genesis_refs();
    r2_parents[0] = parent_ref;
    let child = block(0, 2, 200, r2_parents);
    let (status, missing) = manager.try_accept(&mut dag, child, &c);
    assert_eq!(status, AcceptStatus::Suspended);
    assert_eq!(missing, vec![parent_ref]);
    // the parent arrives: the child cascades in
    let parent = block(0, 1, 100, genesis_refs());
    let (status, _) = manager.try_accept(&mut dag, parent, &c);
    assert_eq!(status, AcceptStatus::Accepted);
    assert!(dag.contains(&BlockRef { author: 0, round: 2, digest: 200 }));
    assert_eq!(manager.suspended.len(), 0);
}

#[test]
fn block_manager_records_equivocation_evidence() {
    let c = committee4();
    let mut dag = DagState::new();
    let mut manager = BlockManager::new();
    let b1 = block(0, 0, 1, Vec::new());
    let b2 = block(0, 0, 2, Vec::new()); // same slot, different digest
    manager.try_accept(&mut dag, b1, &c);
    manager.try_accept(&mut dag, b2, &c);
    assert_eq!(manager.equivocations.len(), 1);
    let (stored, newcomer) = manager.equivocations[0];
    assert_eq!(stored, BlockRef { author: 0, round: 0, digest: 1 });
    assert_eq!(newcomer, BlockRef { author: 0, round: 0, digest: 2 });
    // both retained for evidence
    assert!(dag.contains(&stored) && dag.contains(&newcomer));
}

/// Example: committee of four, equal stake, quorum three. Validator 0's
/// round-1 block is referenced by the three round-2 blocks, so the slot
/// commits directly to it, and the linearized sub-DAG above the genesis
/// boundary is exactly that block.
#[test]
fn direct_commit_of_round_one_leader() {
    let c = committee4();
    let dag = build_example_dag(&c);
    let slot = Slot::new(0, 1);
    let status = try_direct_decide(&dag, &c, slot);
    let leader_ref = BlockRef { author: 0, round: 1, digest: 100 };
    assert_eq!(status, LeaderStatus::Commit(leader_ref));

    let committed = genesis_refs();
    let subdag = linearize_subdag(&dag, &c, &leader_ref, &committed);
    assert_eq!(subdag.len(), 1);
    assert_eq!(subdag[0].reference(), leader_ref);

    let mut observer = CommitObserver::new(0);
    let commit = Commit { index: 1, leader: leader_ref, timestamp_ms: 0 };
    assert_eq!(observer.handle_commit(&commit), HandleOutcome::Emitted);
    assert_eq!(observer.last_index, 1);
}

/// Example: the round-5 leader crashed and produced nothing; once round 6
/// reaches quorum without it, the slot resolves to skipped, and the
/// commit index continues without a gap.
#[test]
fn crashed_leader_slot_is_skipped() {
    let c = committee4();
    let mut dag = DagState::new();
    // rounds up to 4 are committed and below the retention horizon
    dag.set_last_commit_round(4, &c);
    dag.evict_below(4, &c);
    let r4_refs: Vec<BlockRef> =
        (0..4).map(|a| BlockRef { author: a, round: 4, digest: 400 + a as u64 }).collect();
    // validators 0..2 produce round 5; validator 3 (the leader) crashed
    let r5_refs: Vec<BlockRef> =
        (0..3).map(|a| BlockRef { author: a, round: 5, digest: 500 + a as u64 }).collect();
    for a in 0..3 {
        let b = block(a, 5, 500 + a as u64, r4_refs.clone());
        assert!(matches!(dag.insert(&b, &c), InsertResult::Accepted));
    }
    // round 6 reaches quorum, referencing only the three round-5 blocks
    for a in 0..3 {
        let b = block(a, 6, 600 + a as u64, r5_refs.clone());
        assert!(matches!(dag.insert(&b, &c), InsertResult::Accepted));
    }
    let slot = Slot::new(3, 5);
    let status = try_direct_decide(&dag, &c, slot);
    assert_eq!(status, LeaderStatus::Skip(slot));

    // index numbering counts commits, not rounds: the next commit after
    // index 4 is index 5, whatever round its leader sits at
    let mut observer = CommitObserver::new(4);
    let commit = Commit {
        index: 5,
        leader: BlockRef { author: 0, round: 6, digest: 600 },
        timestamp_ms: 0,
    };
    assert_eq!(observer.handle_commit(&commit), HandleOutcome::Emitted);
    assert_eq!(observer.last_index, 5);
}

#[test]
fn indirect_decision_is_always_terminal() {
    let c = committee4();
    let dag = build_example_dag(&c);
    let anchor = BlockRef { author: 1, round: 2, digest: 201 };
    // validator 0's round-1 block lies in the anchor's history: committed
    let in_history = try_indirect_decide(&dag, &c, Slot::new(0, 1), &anchor);
    assert_eq!(
        in_history,
        LeaderStatus::Commit(BlockRef { author: 0, round: 1, digest: 100 })
    );
    // no block of validator 0 at round 2 reaches the anchor: skipped
    let absent = try_indirect_decide(&dag, &c, Slot::new(0, 2), &anchor);
    assert_eq!(absent, LeaderStatus::Skip(Slot::new(0, 2)));
}

#[test]
fn linearizer_is_deterministic_and_idempotent() {
    let c = committee4();
    let dag = build_example_dag(&c);
    let leader_ref = BlockRef { author: 1, round: 2, digest: 201 };
    let committed: Vec<BlockRef> = Vec::new();
    let first = linearize_subdag(&dag, &c, &leader_ref, &committed);
    let second = linearize_subdag(&dag, &c, &leader_ref, &committed);
    let refs1: Vec<BlockRef> = first.iter().map(|b| b.reference()).collect();
    let refs2: Vec<BlockRef> = second.iter().map(|b| b.reference()).collect();
    assert_eq!(refs1, refs2);
    // the history of the round-2 block: 4 genesis + 4 round-1 + itself,
    // in strictly increasing (round, author, digest) order
    assert_eq!(refs1.len(), 9);
    for w in refs1.windows(2) {
        assert!((w[0].round, w[0].author, w[0].digest) < (w[1].round, w[1].author, w[1].digest));
    }
    assert_eq!(*refs1.last().unwrap(), leader_ref);
}

#[test]
fn universal_committer_decides_consecutive_rounds() {
    let c = committee4();
    let dag = build_example_dag(&c);
    let schedule = LeaderSchedule::new(&c);
    let mut committer = UniversalCommitter::new();
    let decisions = committer.try_commit(&dag, &c, &schedule, 2);
    // round 1 is decidable (full round-2 votes); each decided round is
    // consecutive and terminal
    assert!(!decisions.is_empty());
    for (i, (slot, status)) in decisions.iter().enumerate() {
        assert_eq!(slot.round, 1 + i as u32);
        assert!(!matches!(status, LeaderStatus::Undecided));
    }
    assert_eq!(committer.last_decided_round as usize, decisions.len());
}

#[test]
fn leader_schedule_is_reproducible_and_never_retroactive() {
    let c = committee4();
    let mut schedule = LeaderSchedule::new(&c);
    let before: Vec<usize> = (0..10).map(|r| schedule.leader_for(r, &c)).collect();
    assert!(schedule.update_scores(10, vec![5, 1, 1, 1], &c));
    let after: Vec<usize> = (0..10).map(|r| schedule.leader_for(r, &c)).collect();
    // rounds below the new boundary keep their leaders
    assert_eq!(before, after);
    // a second derivation is identical: no dependence on call history
    let again: Vec<usize> = (0..10).map(|r| schedule.leader_for(r, &c)).collect();
    assert_eq!(after, again);
    // a boundary not strictly in the future is refused
    assert!(!schedule.update_scores(10, vec![1, 1, 1, 1], &c));
    // a zero score is refused: no validator is ever excluded outright
    assert!(!schedule.update_scores(20, vec![0, 1, 1, 1], &c));
}

#[test]
fn commit_observer_deduplicates_and_refuses_gaps() {
    let mut observer = CommitObserver::new(0);
    let leader = BlockRef { author: 0, round: 1, digest: 1 };
    let c1 = Commit { index: 1, leader, timestamp_ms: 0 };
    let c3 = Commit { index: 3, leader, timestamp_ms: 0 };
    assert_eq!(observer.handle_commit(&c3), HandleOutcome::Gap);
    assert_eq!(observer.handle_commit(&c1), HandleOutcome::Emitted);
    assert_eq!(observer.handle_commit(&c1), HandleOutcome::Duplicate);
    assert_eq!(observer.last_index, 1);
    let c2 = Commit { index: 2, leader, timestamp_ms: 0 };
    assert_eq!(observer.handle_commit(&c2), HandleOutcome::Emitted);
    assert_eq!(observer.last_index, 2);
}
