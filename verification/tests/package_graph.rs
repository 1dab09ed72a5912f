use consensus_core::governance::{
    canonical_u64_bytes, reference_gas_price, system_state_layout, GovernanceError,
    SystemStateLayout,
};
use consensus_core::linkage::{merge_linkage, LinkageError, PackageGraph};
use consensus_core::package::{
    LockfileDependencyInfo, Manifest, Package, PackageError, PackagePath,
    PinnedDependencyInfo, Publication,
};
use consensus_core::block::{Block, BlockRef};
use consensus_core::committee::{Committee, Validator};
use consensus_core::dag_state::{DagState, InsertResult};
use consensus_core::proposer::Core;
use consensus_core::synchronizer::{Synchronizer, BACKOFF_BASE_MS, MAX_ATTEMPTS, MAX_INFLIGHT};

fn sample_package(name: &str, env: &str, original_id: u64) -> Package {
    Package {
        manifest: Manifest {
            package_name: name.to_string(),
            environments: vec![(env.to_string(), "chain-1".to_string())],
            dependencies: Vec::new(),
        },
        path: PackagePath { path: format!("/pkgs/{name}") },
        source: LockfileDependencyInfo::Local(".".to_string()),
        deps: vec![(
            env.to_string(),
            vec![PinnedDependencyInfo {
                name: "dep".to_string(),
                locator: "git:dep#1".to_string(),
                is_override: false,
            }],
        )],
        publications: vec![(
            env.to_string(),
            Publication {
                chain_id: "chain-1".to_string(),
                original_id,
                published_at: original_id + 1,
                version: 1,
            },
        )],
    }
}

#[test]
fn package_getters_expose_loaded_fields() {
    let p = sample_package("demo", "mainnet", 0xA0);
    assert_eq!(p.path().path, "/pkgs/demo");
    assert_eq!(p.name(), "demo");
    assert_eq!(p.manifest().package_name, "demo");
    match p.dep_for_self() {
        LockfileDependencyInfo::Local(path) => assert_eq!(path, "."),
        _ => panic!("expected the local lockfile entry"),
    }
}

#[test]
fn publication_is_found_exactly_for_published_environments() {
    let p = sample_package("demo", "mainnet", 0xA0);
    let env = "mainnet".to_string();
    let publication = p.publication(&env).expect("published on mainnet");
    assert_eq!(publication.original_id, 0xA0);
    assert_eq!(publication.published_at, 0xA1);
    let other = "testnet".to_string();
    assert!(p.publication(&other).is_none());
}

#[test]
fn direct_deps_requires_a_declared_environment() {
    let p = sample_package("demo", "mainnet", 0xA0);
    let env = "mainnet".to_string();
    let deps = p.direct_deps(&env).expect("declared environment");
    assert_eq!(deps.len(), 1);
    assert_eq!(deps[0].name, "dep");
    let unknown = "devnet".to_string();
    assert!(matches!(
        p.direct_deps(&unknown),
        Err(PackageError::UndeclaredEnvironment)
    ));
}

#[test]
fn merge_linkage_unions_tables_and_detects_conflicts() {
    let mut parent = vec![(0xA0u64, 0u32)];
    let child = vec![(0xA0u64, 0u32), (0xB0u64, 1u32)];
    assert!(merge_linkage(&mut parent, &child));
    parent.sort();
    assert_eq!(parent, vec![(0xA0, 0), (0xB0, 1)]);

    // the same original address resolved to a different package
    let mut parent2 = vec![(0xA0u64, 0u32)];
    let conflicting = vec![(0xA0u64, 2u32)];
    assert!(!merge_linkage(&mut parent2, &conflicting));
    assert_eq!(parent2, vec![(0xA0, 0)]);
}

#[test]
fn linkage_builds_the_root_table_in_topological_order() {
    let env = "mainnet".to_string();
    let mut graph = PackageGraph::new();
    let root = graph.add_package(sample_package("root", "mainnet", 0x01));
    let a = graph.add_package(sample_package("a", "mainnet", 0x0A));
    let b = graph.add_package(sample_package("b", "mainnet", 0x0B));
    graph.add_dependency(root, a, "a".to_string());
    graph.add_dependency(root, b, "b".to_string());
    graph.add_dependency(a, b, "b".to_string());
    let table = graph.linkage(&env).expect("acyclic and consistent");
    // the table arrives already ordered by address, so equal graphs give
    // byte-identical tables
    assert_eq!(
        table,
        vec![(0x01, root as u32), (0x0A, a as u32), (0x0B, b as u32)]
    );
    let again = graph.linkage(&env).expect("same graph, same table");
    assert_eq!(table, again);
}

#[test]
fn overrides_lists_overridden_original_addresses() {
    let env = "mainnet".to_string();
    let mut graph = PackageGraph::new();
    let mut root = sample_package("root", "mainnet", 0x01);
    root.deps = vec![(
        "mainnet".to_string(),
        vec![
            PinnedDependencyInfo {
                name: "a".to_string(),
                locator: "git:a#1".to_string(),
                is_override: true,
            },
            PinnedDependencyInfo {
                name: "b".to_string(),
                locator: "git:b#1".to_string(),
                is_override: false,
            },
        ],
    )];
    let r = graph.add_package(root);
    let a = graph.add_package(sample_package("a", "mainnet", 0x0A));
    let b = graph.add_package(sample_package("b", "mainnet", 0x0B));
    graph.add_dependency(r, a, "a".to_string());
    graph.add_dependency(r, b, "b".to_string());
    // only the edge whose dependency is flagged as an override counts
    assert_eq!(graph.overrides(&env, r), vec![0x0A]);
    assert_eq!(graph.overrides(&env, a), Vec::<u64>::new());
}

#[test]
fn linkage_reports_cycles() {
    let env = "mainnet".to_string();
    let mut graph = PackageGraph::new();
    let a = graph.add_package(sample_package("a", "mainnet", 0x0A));
    let b = graph.add_package(sample_package("b", "mainnet", 0x0B));
    graph.add_dependency(a, b, "b".to_string());
    graph.add_dependency(b, a, "a".to_string());
    assert!(matches!(
        graph.linkage(&env),
        Err(LinkageError::CyclicDependencies(_))
    ));
}

#[test]
fn linkage_rejects_two_versions_of_one_address() {
    let env = "mainnet".to_string();
    let mut graph = PackageGraph::new();
    let root = graph.add_package(sample_package("root", "mainnet", 0x01));
    // two distinct packages claiming the same original address
    let a = graph.add_package(sample_package("a-v1", "mainnet", 0xA0));
    let b = graph.add_package(sample_package("a-v2", "mainnet", 0xA0));
    graph.add_dependency(root, a, "a-v1".to_string());
    graph.add_dependency(root, b, "a-v2".to_string());
    assert!(matches!(
        graph.linkage(&env),
        Err(LinkageError::InconsistentLinkage)
    ));
}

#[test]
fn system_state_layout_knows_exactly_two_versions() {
    assert_eq!(system_state_layout(1), Ok(SystemStateLayout::V1));
    assert_eq!(system_state_layout(2), Ok(SystemStateLayout::V2));
    assert_eq!(system_state_layout(3), Err(GovernanceError::UnexpectedVersion));
    assert_eq!(system_state_layout(0), Err(GovernanceError::UnexpectedVersion));
}

#[test]
fn reference_gas_price_converts_nonnegative_rows() {
    assert_eq!(reference_gas_price(0), Ok(0));
    assert_eq!(reference_gas_price(1_000), Ok(1_000));
    assert_eq!(reference_gas_price(-1), Err(GovernanceError::NegativePrice));
}

#[test]
fn canonical_u64_bytes_matches_the_wire_encoding() {
    for x in [0u64, 1, 2, 255, 256, 0xDEADBEEF, u64::MAX] {
        let mine = canonical_u64_bytes(x);
        let wire = bcs::to_bytes(&x).expect("u64 serializes");
        assert_eq!(mine, wire);
        assert_eq!(mine, x.to_le_bytes().to_vec());
    }
}

#[test]
fn synchronizer_deduplicates_and_backs_off() {
    let mut sync = Synchronizer::new();
    let r1 = BlockRef { author: 0, round: 1, digest: 1 };
    let r2 = BlockRef { author: 1, round: 1, digest: 2 };
    let scheduled = sync.request_fetches(&vec![r1, r2, r1], 1_000);
    assert_eq!(scheduled, vec![r1, r2]); // the repeat is not scheduled twice
    assert!(sync.due_fetches(1_000).contains(&r1));
    // a failure delays the retry by the base backoff
    sync.on_fetch_result(&r1, false, 1_000);
    assert!(!sync.due_fetches(1_000).contains(&r1));
    assert!(sync.due_fetches(1_000 + 2 * BACKOFF_BASE_MS).contains(&r1));
    // success removes the entry
    sync.on_fetch_result(&r2, true, 1_000);
    assert!(!sync.due_fetches(u64::MAX - 100_000).contains(&r2));
    // capacity is bounded
    let many: Vec<BlockRef> =
        (0..(MAX_INFLIGHT as u64 + 10)).map(|d| BlockRef { author: 2, round: 2, digest: d }).collect();
    sync.request_fetches(&many, 2_000);
    assert_eq!(sync.inflight.len(), MAX_INFLIGHT);
}

#[test]
fn synchronizer_abandons_after_the_attempt_cap() {
    let mut sync = Synchronizer::new();
    let r = BlockRef { author: 0, round: 1, digest: 9 };
    sync.request_fetches(&vec![r], 0);
    // MAX_ATTEMPTS failures leave the entry tracked; one more abandons it
    for k in 0..MAX_ATTEMPTS {
        assert_eq!(sync.inflight.len(), 1);
        assert_eq!(sync.inflight[0].attempts, k);
        sync.on_fetch_result(&r, false, 1_000 * (k as u64 + 1));
    }
    assert_eq!(sync.inflight.len(), 1);
    assert_eq!(sync.inflight[0].attempts, MAX_ATTEMPTS);
    sync.on_fetch_result(&r, false, 100_000);
    assert_eq!(sync.inflight.len(), 0);
}

#[test]
fn proposer_waits_for_the_clock_and_parent_quorum() {
    let c = Committee::new(vec![
        Validator { key: 1, stake: 1 },
        Validator { key: 2, stake: 1 },
        Validator { key: 3, stake: 1 },
        Validator { key: 4, stake: 1 },
    ])
    .unwrap();
    let mut dag = DagState::new();
    for a in 0..3 {
        let g = Block {
            author: a,
            round: 0,
            timestamp_ms: 0,
            ancestors: Vec::new(),
            transactions: Vec::new(),
            digest: a as u64,
            signature: 0,
        };
        assert!(matches!(dag.insert(&g, &c), InsertResult::Accepted));
    }
    let excluded = vec![false; 4];
    let mut core = Core::new(0);
    let proposal = core
        .try_propose(&dag, &c, 1, 42, Vec::new(), &excluded)
        .expect("three of four genesis parents are a quorum");
    assert_eq!(proposal.round, 1);
    assert_eq!(proposal.author, 0);
    assert_eq!(proposal.ancestors.len(), 3);
    // the same round is never proposed twice
    assert!(core.try_propose(&dag, &c, 1, 43, Vec::new(), &excluded).is_none());
}
