//! Consensus core of a proof-of-stake validator: a leaderless, round-based
//! DAG construction protocol that reaches Byzantine-fault-tolerant agreement
//! on a total order of transaction batches proposed by a fixed committee of
//! stake-weighted validators.
//!
//! The modules mirror the control flow: incoming blocks pass the verifier,
//! the block manager admits causally complete blocks into the DAG state,
//! the threshold clock gates round advancement, the committer decides each
//! leader slot, and the linearizer flattens committed sub-DAGs into a total
//! order handed to the commit observer.

pub mod block;
pub mod block_manager;
pub mod block_verifier;
pub mod commit;
pub mod committee;
pub mod committer;
pub mod dag_state;
pub mod governance;
pub mod leader_schedule;
pub mod linearizer;
pub mod linkage;
pub mod package;
pub mod proposer;
pub mod quorum;
pub mod stake_aggregator;
pub mod synchronizer;
pub mod threshold_clock;
