use metadata_engine::pipeline::chains::{
    admit_chain_index, settle_index_lease, ChainContractIndex, RootStorage,
};
use metadata_engine::pipeline::collector_plan::{
    build_scope_collector_memory_plan, ScopeCollectorMemoryPlan,
};
use metadata_engine::pipeline::collectors::ScopeCollectors;
use metadata_engine::pipeline::compaction::{
    compact_catalog_scope_batch_by_chain, compact_scope_edges_with_scratch, ScopeCompactionScratch,
};
use metadata_engine::pipeline::components::{
    reduce_component_scopes, reduce_pending_scopes, release_reused_component_runs,
    ComponentScopeKind, ComponentScopePlan,
};
use metadata_engine::pipeline::connectivity::{
    connectivity_manifest, has_mapped_runs, reduce_total, run_edge_count, stored_edge_count,
};
use metadata_engine::pipeline::catalog::SerializableIndexMetrics;
use metadata_engine::pipeline::collectors::ScopeForestRuns;
use metadata_engine::pipeline::error::PipelineError;
use metadata_engine::pipeline::gathering::{
    finalize_scopes, gather_components, pending_reduce_work, plan_component_scopes,
};
use metadata_engine::pipeline::pairs::{chain_pair_index, chain_pairs};
use metadata_engine::pipeline::scopes::{ChainPairRoots, ScopeComponents};
use metadata_engine::reduce::codec::ComponentSnapshotIdentity;
use metadata_engine::reduce::component::{
    planned_reduce_work, reduce_components, reduce_stored_components_with_progress,
};
use metadata_engine::reduce::error::ReduceError;
use metadata_engine::reduce::forest::{EdgeBudget, ForestRun};
use metadata_engine::reduce::graph::Edge;
use metadata_engine::reduce::storage::{ForestRunStorage, MappedForestRun};
use metadata_engine::resource::{MemoryBroker, GIB};
use std::collections::BTreeMap;

fn no_limit() -> EdgeBudget {
    EdgeBudget {
        max_buffer_bytes: u64::MAX,
        max_run_edges: u64::MAX,
        max_total_bytes: u64::MAX,
    }
}

fn collector_plan(
    node_count: u32,
    chain_pair_count: usize,
    edge_bytes: u64,
    threads: usize,
) -> ScopeCollectorMemoryPlan {
    let memory = MemoryBroker::new(2 * GIB, GIB).unwrap();
    build_scope_collector_memory_plan(&memory, node_count, chain_pair_count, edge_bytes, threads)
        .unwrap()
}

fn find(parent: &mut [usize], mut node: usize) -> usize {
    while parent[node] != node {
        node = parent[node];
    }
    node
}

fn canonical_edge_components(node_count: usize, edges: &[Edge]) -> Vec<Vec<u32>> {
    let mut parent = (0..node_count).collect::<Vec<_>>();
    let mut touched = vec![false; node_count];
    for edge in edges {
        let left = edge.left as usize;
        let right = edge.right as usize;
        touched[left] = true;
        touched[right] = true;
        let left_root = find(&mut parent, left);
        let right_root = find(&mut parent, right);
        if left_root != right_root {
            parent[right_root] = left_root;
        }
    }
    let mut groups = BTreeMap::<usize, Vec<u32>>::new();
    for (node, &is_touched) in touched.iter().enumerate() {
        if is_touched {
            groups
                .entry(find(&mut parent, node))
                .or_default()
                .push(node as u32);
        }
    }
    let mut groups = groups.into_values().collect::<Vec<_>>();
    groups.sort();
    groups
}

fn identity(scope_identity: &str, node_count: u32) -> ComponentSnapshotIdentity {
    ComponentSnapshotIdentity {
        schema_revision: 1,
        snapshot_fingerprint: "snapshot".into(),
        connectivity_revision: 1,
        connectivity_plan_digest: "plan".into(),
        scope_identity: scope_identity.into(),
        node_count,
    }
}

#[test]
fn chain_pair_local_nodes_sum_to_linear_storage_even_with_empty_chains() {
    let contract_chain = [4, 0, 2, 4, 2, 0, 4];
    let chain_count = 6;
    let index = ChainContractIndex::build(&contract_chain, chain_count).unwrap();
    let pair_nodes = chain_pairs(chain_count)
        .into_iter()
        .map(|(left, right)| {
            u64::from(
                index
                    .pair_node_count(left as usize, right as usize)
                    .unwrap(),
            )
        })
        .sum::<u64>();

    assert_eq!(
        pair_nodes,
        (chain_count as u64 - 1) * contract_chain.len() as u64
    );
}

#[test]
fn external_chain_contract_index_matches_resident_and_cleans_workspace() {
    let contract_chain = [4, 0, 2, 4, 2, 0, 4];
    let chain_count = 6;
    let resident = ChainContractIndex::build(&contract_chain, chain_count).unwrap();
    let external = ChainContractIndex::build_external(&contract_chain, chain_count).unwrap();
    assert!(external.offsets.is_mapped());
    assert!(external.contracts.is_mapped());
    assert!(external.local_rank.is_mapped());
    assert_eq!(external.offsets.as_slice(), resident.offsets.as_slice());
    assert_eq!(external.contracts.as_slice(), resident.contracts.as_slice());
    assert_eq!(external.local_rank.as_slice(), resident.local_rank.as_slice());
    for (left, right) in chain_pairs(chain_count) {
        assert_eq!(
            external
                .pair_node_count(left as usize, right as usize)
                .unwrap(),
            resident
                .pair_node_count(left as usize, right as usize)
                .unwrap()
        );
    }
}

#[test]
fn a_chain_outside_the_table_has_no_lists() {
    assert!(matches!(
        ChainContractIndex::build(&[0, 3], 3),
        Err(PipelineError::Invariant(_))
    ));
    let index = ChainContractIndex::build(&[0, 1, 0], 2).unwrap();
    assert_eq!(index.contracts_for_chain(0).unwrap(), &[0, 2]);
    assert!(index.contracts_for_chain(2).is_err());
}

#[test]
fn pair_local_reduction_expands_to_exact_global_reference_components() {
    let contract_chain = [1, 0, 2, 1, 0, 2];
    let node_count = contract_chain.len() as u32;
    let chain_count = 3;
    let budget = no_limit();
    let global_runs = vec![
        vec![ForestRun::from_edges(
            node_count,
            vec![Edge::new(1, 0), Edge::new(4, 3), Edge::new(1, 3)],
            budget,
        )
        .unwrap()],
        vec![ForestRun::from_edges(node_count, vec![Edge::new(4, 2)], budget).unwrap()],
        vec![ForestRun::from_edges(node_count, vec![Edge::new(3, 5)], budget).unwrap()],
    ];
    let pairs = chain_pairs(chain_count);
    let index = ChainContractIndex::build(&contract_chain, chain_count).unwrap();
    let mut pair_roots = Vec::new();
    let mut expected_global = Vec::new();
    for (&(left, right), runs) in pairs.iter().zip(&global_runs) {
        let resident = runs
            .iter()
            .cloned()
            .map(ForestRunStorage::resident)
            .collect::<Vec<_>>();
        let mapped = runs
            .iter()
            .map(|run| ForestRunStorage::Mapped(MappedForestRun::store(run)))
            .collect::<Vec<_>>();
        let pair_node_count = index
            .pair_node_count(left as usize, right as usize)
            .unwrap();
        let reduce = |stored: &[ForestRunStorage]| {
            reduce_stored_components_with_progress(
                stored,
                node_count,
                pair_node_count,
                |edge: Edge| {
                    Ok(Edge::new(
                        index
                            .pair_local_contract(
                                &contract_chain,
                                edge.left,
                                left as usize,
                                right as usize,
                            )
                            .unwrap(),
                        index
                            .pair_local_contract(
                                &contract_chain,
                                edge.right,
                                left as usize,
                                right as usize,
                            )
                            .unwrap(),
                    ))
                },
                &mut Vec::new(),
            )
            .unwrap()
        };
        let resident_roots = reduce(&resident);
        let mapped_roots = reduce(&mapped);
        assert_eq!(resident_roots, mapped_roots);
        assert!(mapped.iter().all(ForestRunStorage::is_mapped));
        pair_roots.push(ChainPairRoots {
            left_chain: left,
            right_chain: right,
            left_contract_count: index.chain_contract_count(left as usize).unwrap(),
            roots: RootStorage::resident(resident_roots),
        });
        expected_global.push(reduce_components(runs, node_count).unwrap());
    }
    let scopes = ScopeComponents {
        intra_roots: RootStorage::resident(Vec::new()),
        cross_roots: RootStorage::resident(Vec::new()),
        chain_pair_roots: pair_roots,
        chain_contract_offsets: RootStorage::resident(index.offsets.as_slice().to_vec()),
        chain_contracts: RootStorage::resident(index.contracts.as_slice().to_vec()),
    };

    for (pair, global_roots) in scopes.chain_pair_roots.iter().zip(expected_global) {
        assert_eq!(pair.expand_global_roots(&scopes).unwrap(), global_roots);
    }
}

#[test]
fn component_resume_releases_reused_forests_without_touching_pending_runs() {
    let budget = no_limit();
    let mut scopes = vec![
        ComponentScopePlan {
            kind: ComponentScopeKind::Pair { left: 0, right: 1 },
            identity: identity("pair:0:1", 2),
            runs: vec![ForestRunStorage::resident(
                ForestRun::from_edges(3, vec![Edge::new(0, 2)], budget).unwrap(),
            )],
            roots: Some(RootStorage::resident(vec![0, 1])),
            needs_rebuild: false,
            committed: true,
        },
        ComponentScopePlan {
            kind: ComponentScopeKind::Pair { left: 1, right: 2 },
            identity: identity("pair:1:2", 2),
            runs: vec![ForestRunStorage::resident(
                ForestRun::from_edges(3, vec![Edge::new(1, 2)], budget).unwrap(),
            )],
            roots: None,
            needs_rebuild: true,
            committed: false,
        },
    ];

    release_reused_component_runs(&mut scopes);

    assert!(scopes[0].runs.is_empty());
    assert_eq!(scopes[1].runs[0].node_count(), 3);
    match &scopes[1].runs[0] {
        ForestRunStorage::Resident(run) => {
            assert_eq!(run.edges, vec![Edge::new(1, 2)]);
        }
        ForestRunStorage::Mapped(_) => panic!("pending test forest unexpectedly mapped"),
    }
}

#[test]
fn scope_collector_broker_shards_scopes_within_thread_ceiling() {
    let contract_chain = [0, 0, 1, 1, 2, 2];
    let plan = collector_plan(6, 3, 1024 * 1024, 4);
    let mut broker = ScopeCollectors::new(6, 3, no_limit(), u64::MAX, &plan).unwrap();

    assert_eq!(plan.active_sink_workers, 2);
    assert_eq!(broker.scorer_lanes(), 2);
    broker
        .push_edges_by_chain(&contract_chain, 3, &vec![Edge::new(0, 1), Edge::new(0, 2)])
        .unwrap();
    broker
        .push_edges_by_chain(&contract_chain, 3, &vec![Edge::new(2, 4)])
        .unwrap();
    let accepted = broker.accepted_edges();
    let runs = broker.finish().unwrap();

    assert_eq!(accepted, 3);
    assert_eq!(
        canonical_edge_components(6, &runs.intra[0].materialized_edges()),
        vec![vec![0, 1]]
    );
    let cross_edges = runs
        .cross
        .iter()
        .flat_map(ForestRunStorage::materialized_edges)
        .collect::<Vec<_>>();
    assert_eq!(
        canonical_edge_components(6, &cross_edges),
        vec![vec![0, 2, 4]]
    );
    assert_eq!(
        canonical_edge_components(6, &runs.pairs[0][0].materialized_edges()),
        vec![vec![0, 2]]
    );
    assert_eq!(
        canonical_edge_components(6, &runs.pairs[2][0].materialized_edges()),
        vec![vec![2, 4]]
    );
    assert!(runs.pairs[1].is_empty());
}

#[test]
fn scope_collector_broker_spills_on_retained_budget_overflow() {
    let plan = collector_plan(2, 0, 1024 * 1024, 2);
    let mut broker = ScopeCollectors::new(2, 0, no_limit(), 0, &plan).unwrap();

    broker
        .push_edges_by_chain(&[0, 0], 1, &vec![Edge::new(0, 1)])
        .unwrap();
    let runs = broker.finish().unwrap();

    assert_eq!(runs.intra.len(), 1);
    assert!(runs.intra[0].is_mapped());
    assert_eq!(
        runs.intra[0].materialized_edges(),
        vec![Edge::new(0, 1)]
    );
    assert!(runs.cross.is_empty());
    assert!(runs.pairs.is_empty());
    assert!(has_mapped_runs(&runs));
}

#[test]
fn scope_collector_broker_preserves_scorer_capacity_with_many_scopes() {
    let plan = collector_plan(1, 120, 1024 * 1024, 128);
    let broker = ScopeCollectors::new(1, 120, no_limit(), u64::MAX, &plan).unwrap();

    assert_eq!(plan.active_sink_workers, 32);
    assert_eq!(broker.scorer_lanes(), 96);
    broker.finish().unwrap();
}

fn two_scopes(node_count: u32, first: Vec<Edge>, second: Vec<Edge>) -> Vec<ComponentScopePlan> {
    let budget = no_limit();
    vec![
        ComponentScopePlan {
            kind: ComponentScopeKind::Intra,
            identity: identity("intra", node_count),
            runs: vec![ForestRunStorage::resident(
                ForestRun::from_edges(node_count, first, budget).unwrap(),
            )],
            roots: None,
            needs_rebuild: true,
            committed: false,
        },
        ComponentScopePlan {
            kind: ComponentScopeKind::Cross,
            identity: identity("cross", node_count),
            runs: vec![ForestRunStorage::resident(
                ForestRun::from_edges(node_count, second, budget).unwrap(),
            )],
            roots: None,
            needs_rebuild: true,
            committed: false,
        },
    ]
}

#[test]
fn independent_component_scopes_reduce_in_parallel_with_exact_progress() {
    let mut scopes = two_scopes(
        5,
        vec![Edge::new(0, 1), Edge::new(1, 2)],
        vec![Edge::new(3, 4)],
    );
    let total = scopes
        .iter()
        .map(|scope| planned_reduce_work(run_edge_count(&scope.runs), 5).unwrap())
        .sum();
    let mut events = Vec::new();
    let contract_chain = vec![0; 5];
    let chain_index = ChainContractIndex::build(&contract_chain, 1).unwrap();

    reduce_pending_scopes(
        &mut scopes,
        &chain_index,
        &contract_chain,
        total,
        false,
        &mut events,
    )
    .unwrap();

    assert_eq!(
        scopes[0].roots.as_ref().unwrap().as_slice(),
        &[0, 0, 0, 3, 4]
    );
    assert_eq!(
        scopes[1].roots.as_ref().unwrap().as_slice(),
        &[0, 1, 2, 3, 3]
    );
    assert_eq!(events.last().unwrap().completed, total);
}

#[test]
fn resident_and_mapped_component_roots_are_semantically_identical_and_cleanup_spill() {
    let make_scopes = || {
        two_scopes(
            6,
            vec![Edge::new(0, 1), Edge::new(1, 2)],
            vec![Edge::new(3, 4), Edge::new(4, 5)],
        )
    };
    let mut resident = make_scopes();
    let mut mapped = make_scopes();
    let total = resident
        .iter()
        .map(|scope| planned_reduce_work(run_edge_count(&scope.runs), 6).unwrap())
        .sum();
    let contract_chain = vec![0; 6];
    let chain_index = ChainContractIndex::build(&contract_chain, 1).unwrap();

    reduce_pending_scopes(
        &mut resident,
        &chain_index,
        &contract_chain,
        total,
        false,
        &mut Vec::new(),
    )
    .unwrap();
    reduce_pending_scopes(
        &mut mapped,
        &chain_index,
        &contract_chain,
        total,
        true,
        &mut Vec::new(),
    )
    .unwrap();

    assert!(mapped
        .iter()
        .all(|scope| scope.roots.as_ref().unwrap().is_mapped()));
    for (resident, mapped) in resident.iter().zip(&mapped) {
        assert_eq!(resident.roots, mapped.roots);
    }
}

#[test]
fn pair_first_cross_compaction_preserves_pair_and_global_connectivity() {
    let contract_chain = [0, 0, 1, 1, 2, 2];
    let edges = vec![
        Edge::new(0, 1),
        Edge::new(2, 3),
        Edge::new(0, 2),
        Edge::new(1, 3),
        Edge::new(0, 3),
        Edge::new(0, 2),
        Edge::new(2, 4),
        Edge::new(3, 5),
        Edge::new(2, 5),
        Edge::new(1, 4),
    ];
    let mut scratch = ScopeCompactionScratch::new(contract_chain.len(), usize::MAX);

    let compacted = compact_catalog_scope_batch_by_chain(&contract_chain, 3, &edges, &mut scratch);

    let expected_intra = edges
        .iter()
        .copied()
        .filter(|edge| contract_chain[edge.left as usize] == contract_chain[edge.right as usize])
        .collect::<Vec<_>>();
    let expected_cross = edges
        .iter()
        .copied()
        .filter(|edge| contract_chain[edge.left as usize] != contract_chain[edge.right as usize])
        .collect::<Vec<_>>();
    assert_eq!(compacted.accepted_edges, edges.len() as u64);
    assert_eq!(
        canonical_edge_components(contract_chain.len(), &compacted.intra),
        canonical_edge_components(contract_chain.len(), &expected_intra)
    );
    assert_eq!(
        canonical_edge_components(contract_chain.len(), &compacted.cross),
        canonical_edge_components(contract_chain.len(), &expected_cross)
    );
    let expected_pairs = expected_cross.iter().copied().fold(
        BTreeMap::<usize, Vec<Edge>>::new(),
        |mut pairs, edge| {
            pairs
                .entry(chain_pair_index(
                    contract_chain[edge.left as usize] as usize,
                    contract_chain[edge.right as usize] as usize,
                    3,
                ))
                .or_default()
                .push(edge);
            pairs
        },
    );
    assert_eq!(compacted.chain_pairs.len(), expected_pairs.len());
    for (pair, pair_edges) in compacted.chain_pairs {
        let expected = &expected_pairs[&pair];
        assert_eq!(
            canonical_edge_components(contract_chain.len(), &pair_edges),
            canonical_edge_components(contract_chain.len(), expected)
        );
    }
}

#[test]
fn iterator_scope_compaction_builds_a_forest_without_a_candidate_copy() {
    let groups = [
        vec![Edge::new(0, 2), Edge::new(1, 3), Edge::new(0, 3)],
        vec![Edge::new(2, 4), Edge::new(3, 5), Edge::new(2, 5)],
    ];
    let expected = groups.iter().flatten().copied().collect::<Vec<_>>();
    let mut scratch = ScopeCompactionScratch::new(6, usize::MAX);

    let compacted = compact_scope_edges_with_scratch(&expected, &mut scratch);

    assert_eq!(
        canonical_edge_components(6, &compacted),
        canonical_edge_components(6, &expected)
    );
}

#[test]
fn lane_local_scope_compaction_preserves_connectivity() {
    let mut scratch = ScopeCompactionScratch::new(3, 0);
    let compacted = compact_scope_edges_with_scratch(
        &vec![
            Edge::new(0, 1),
            Edge::new(1, 2),
            Edge::new(0, 2),
            Edge::new(0, 1),
        ],
        &mut scratch,
    );

    assert_eq!(compacted.len(), 2);
    let mut parent = [0usize, 1, 2];
    for edge in &compacted {
        let left = find(&mut parent, edge.left as usize);
        let right = find(&mut parent, edge.right as usize);
        if left != right {
            parent[right] = left;
        }
    }
    let roots: std::collections::BTreeSet<_> =
        (0..3).map(|node| find(&mut parent, node)).collect();
    assert_eq!(roots.len(), 1);
}

#[test]
fn reducing_all_scopes_gives_the_roots_of_each() {
    let contract_chain = [0, 1, 0, 1];
    let plan = collector_plan(4, 1, 1024 * 1024, 4);
    let mut broker = ScopeCollectors::new(4, 1, no_limit(), u64::MAX, &plan).unwrap();
    broker
        .push_edges_by_chain(
            &contract_chain,
            2,
            &vec![Edge::new(0, 2), Edge::new(1, 2), Edge::new(1, 3)],
        )
        .unwrap();
    let runs = broker.finish().unwrap();
    let index = ChainContractIndex::build(&contract_chain, 2).unwrap();
    let total = reduce_total(&runs, &index, 2, &contract_chain).unwrap();
    assert_eq!(total, stored_edge_count(&runs) + 4 + 4 + 4);
    let mut reports = Vec::new();
    let components =
        reduce_component_scopes(&runs, index, &contract_chain, 2, total, false, &mut reports)
            .unwrap();
    assert_eq!(components.intra_roots.as_slice(), &[0, 1, 0, 1]);
    assert_eq!(components.cross_roots.as_slice(), &[0, 1, 1, 3]);
    assert_eq!(components.chain_pair_roots.len(), 1);
    let pair = &components.chain_pair_roots[0];
    assert_eq!(pair.left_contract_count, 2);
    assert_eq!(pair.roots.as_slice(), &[0, 1, 1, 3]);
    assert_eq!(
        pair.expand_global_roots(&components).unwrap(),
        vec![0, 1, 1, 3]
    );
    assert_eq!(reports.last().unwrap().completed, total);
    assert_eq!(ComponentScopeKind::Cross.identity(), "cross");
    assert_eq!(
        ComponentScopeKind::Pair { left: 3, right: 12 }.identity(),
        "pair:3:12"
    );
}

#[test]
fn an_endpoint_of_another_chain_is_refused() {
    let contract_chain = [0, 1, 2];
    let index = ChainContractIndex::build(&contract_chain, 3).unwrap();
    let mut scopes = vec![ComponentScopePlan {
        kind: ComponentScopeKind::Pair { left: 0, right: 1 },
        identity: identity("pair:0:1", 2),
        runs: vec![ForestRunStorage::resident(
            ForestRun::from_edges(3, vec![Edge::new(0, 2)], no_limit()).unwrap(),
        )],
        roots: None,
        needs_rebuild: true,
        committed: false,
    }];
    assert!(matches!(
        reduce_pending_scopes(
            &mut scopes,
            &index,
            &contract_chain,
            3,
            false,
            &mut Vec::new()
        ),
        Err(PipelineError::Reduce(_))
    ));
}

#[test]
fn stored_forests_are_used_again_only_for_the_same_snapshot_and_plan() {
    let runs = ScopeForestRuns {
        intra: vec![ForestRunStorage::resident(
            ForestRun::from_edges(2, vec![Edge::new(0, 1)], no_limit()).unwrap(),
        )],
        cross: Vec::new(),
        pairs: vec![Vec::new()],
    };
    assert!(!has_mapped_runs(&runs));
    let manifest = connectivity_manifest(
        "snapshot",
        "plan",
        2,
        &runs,
        SerializableIndexMetrics::none(),
        7,
        1,
    )
    .unwrap();
    assert_eq!(manifest.intra_runs, 1);
    assert_eq!(manifest.pair_runs, vec![0]);
    assert_eq!(manifest.candidate_pair_visits, 7);
    assert!(manifest.is_current(&"snapshot".to_string(), &"plan".to_string(), 2));
    assert!(!manifest.is_current(&"snapshot".to_string(), &"other".to_string(), 2));
    assert!(!manifest.is_current(&"snapshot".to_string(), &"plan".to_string(), 3));
}

#[test]
fn reused_and_rebuilt_scopes_gather_to_components() {
    let chains = vec![0, 1, 0];
    let index = ChainContractIndex::build(&chains, 2).unwrap();
    let mut scopes = two_scopes(3, vec![Edge::new(0, 2)], vec![Edge::new(0, 1)]);
    scopes.push(ComponentScopePlan {
        kind: ComponentScopeKind::Pair { left: 0, right: 1 },
        identity: identity("pair:0:1", 3),
        runs: Vec::new(),
        roots: Some(RootStorage::mapped(vec![0, 1, 0])),
        needs_rebuild: false,
        committed: true,
    });
    assert_eq!(pending_reduce_work(&scopes).unwrap(), 8);
    let mut reports = Vec::new();
    assert!(matches!(
        finalize_scopes(&scopes, true, &mut reports),
        Err(PipelineError::Invariant(text)) if text == "missing reduced roots"
    ));
    reports.clear();
    reduce_pending_scopes(&mut scopes, &index, &chains, 8, false, &mut reports).unwrap();
    assert_eq!(reports.last().unwrap().completed, 8);
    reports.clear();
    finalize_scopes(&scopes, true, &mut reports).unwrap();
    assert_eq!(reports.len(), 4);
    assert_eq!(reports[3].counters.matched, 1);
    assert_eq!(reports[3].counters.groups, 2);
    let gathered = gather_components(scopes, index).unwrap();
    assert_eq!(gathered.intra_roots.as_slice(), &[0, 1, 0]);
    assert_eq!(gathered.cross_roots.as_slice(), &[0, 0, 2]);
    assert_eq!(gathered.chain_pair_roots[0].left_contract_count, 2);
    assert_eq!(gathered.chain_pair_roots[0].roots.as_slice(), &[0, 1, 0]);
    assert_eq!(gathered.contracts_for_chain(0).unwrap(), &[0, 2]);
}

#[test]
fn scopes_without_roots_do_not_gather() {
    let chains = vec![0, 0];
    let index = || ChainContractIndex::build(&chains, 1).unwrap();
    let pending = two_scopes(2, vec![Edge::new(0, 1)], Vec::new());
    assert!(matches!(
        gather_components(pending, index()),
        Err(PipelineError::Invariant(text)) if text == "component scope has no recovered roots"
    ));
    assert!(matches!(
        gather_components(Vec::new(), index()),
        Err(PipelineError::Invariant(text)) if text == "missing intra component scope"
    ));
    let mut reduced = two_scopes(2, vec![Edge::new(0, 1)], Vec::new());
    reduce_pending_scopes(&mut reduced, &index(), &chains, 5, false, &mut Vec::new()).unwrap();
    reduced.pop();
    assert!(matches!(
        gather_components(reduced, index()),
        Err(PipelineError::Invariant(text)) if text == "missing cross component scope"
    ));
}

#[test]
fn an_empty_batch_is_accepted() {
    let plan = collector_plan(2, 0, 1024 * 1024, 2);
    let mut broker = ScopeCollectors::new(2, 0, no_limit(), 0, &plan).unwrap();
    broker.submit_scope(7, Vec::new()).unwrap();
    broker.push_edges_by_chain(&[0, 0], 1, &Vec::new()).unwrap();
    assert_eq!(broker.accepted_edges(), 0);
    let runs = broker.finish().unwrap();
    assert!(runs.intra.is_empty() && runs.cross.is_empty() && runs.pairs.is_empty());
}

#[test]
fn an_edge_outside_the_nodes_stops_the_collectors() {
    let plan = collector_plan(2, 0, 1024 * 1024, 2);
    let mut broker = ScopeCollectors::new(2, 0, no_limit(), u64::MAX, &plan).unwrap();
    let refused = broker.submit_scope(0, vec![Edge::new(0, 2)]);
    assert!(matches!(
        refused,
        Err(PipelineError::Reduce(ReduceError::Endpoint {
            endpoint: 2,
            node_count: 2
        }))
    ));
    assert!(matches!(
        broker.submit_scope(0, vec![Edge::new(0, 1)]),
        Err(PipelineError::Parallel(_))
    ));
}

#[test]
fn the_chain_index_is_external_where_it_does_not_fit() {
    let contract_chain = [0, 1, 0];
    let mut advisories = Vec::new();
    let mut memory = MemoryBroker::new(GIB, 48).unwrap();
    let (index, lease) =
        admit_chain_index(&contract_chain, 2, &mut memory, &mut advisories).unwrap();
    assert!(advisories.is_empty());
    assert!(!index.contracts.mapped);
    assert_eq!(lease.unwrap().bytes(&memory), index.total_bytes());
    assert_eq!(index.total_bytes(), 36);

    let mut short = MemoryBroker::new(GIB, 47).unwrap();
    let (external, none) =
        admit_chain_index(&contract_chain, 2, &mut short, &mut advisories).unwrap();
    assert!(none.is_none());
    assert!(external.contracts.mapped);
    assert_eq!(external.contracts.words, index.contracts.words);
    assert_eq!(short.used_bytes(), 0);
    assert_eq!(
        advisories,
        vec![
            "chain-local component index exceeds the remaining broker budget: requested=48 bytes, \
             used=0 bytes, hard_top=47 bytes; rebuilding in linear-time checksummed typed arrays \
             and demand-paged mmap instead of allocating outside the broker"
        ]
    );
}

#[test]
fn a_measured_index_keeps_its_lease_where_that_fits() {
    let mut advisories = Vec::new();
    let mut memory = MemoryBroker::new(GIB, 48).unwrap();
    let lease = memory.reserve(40).unwrap();
    let grown = settle_index_lease(lease, 48, &mut memory, &mut advisories)
        .unwrap()
        .unwrap();
    assert_eq!(grown.bytes(&memory), 48);
    assert!(advisories.is_empty());

    let refused = settle_index_lease(grown, 49, &mut memory, &mut advisories).unwrap();
    assert!(refused.is_none());
    assert_eq!(memory.used_bytes(), 0);
    assert_eq!(advisories.len(), 1);
    assert!(advisories[0].starts_with(
        "measured chain-local component index requires 49 bytes beyond its estimate ("
    ));
    assert!(advisories[0].ends_with(
        "); retaining the completed index and letting actual allocation pressure determine \
         whether execution can continue"
    ));
}

#[test]
fn roots_are_equal_where_their_words_are() {
    let resident = RootStorage::resident(vec![0, 0, 2]);
    assert!(resident == RootStorage::mapped(vec![0, 0, 2]));
    assert!(resident != RootStorage::mapped(vec![0, 1, 2]));
    assert!(resident != RootStorage::resident(vec![0, 0]));
}

#[test]
fn scopes_are_planned_in_order_with_their_identities() {
    let contract_chain = [0, 1, 1, 2];
    let index = ChainContractIndex::build(&contract_chain, 3).unwrap();
    let runs = |pairs: usize| ScopeForestRuns {
        intra: Vec::new(),
        cross: Vec::new(),
        pairs: (0..pairs).map(|_| Vec::new()).collect(),
    };
    let fingerprint = String::from("snapshot");
    let digest = String::from("plan");
    let scopes = plan_component_scopes(runs(3), &index, 3, &fingerprint, &digest).unwrap();
    let planned = scopes
        .iter()
        .map(|scope| (scope.identity.scope_identity.as_str(), scope.identity.node_count))
        .collect::<Vec<_>>();
    assert_eq!(
        planned,
        vec![("intra", 4), ("cross", 4), ("pair:0:1", 3), ("pair:0:2", 2), ("pair:1:2", 3)]
    );
    assert!(scopes
        .iter()
        .all(|scope| scope.roots.is_none() && scope.needs_rebuild && !scope.committed));
    assert!(matches!(
        plan_component_scopes(runs(2), &index, 3, &fingerprint, &digest),
        Err(PipelineError::Invariant(text)) if text == "missing chain-pair forest runs"
    ));
    assert!(matches!(
        plan_component_scopes(runs(4), &index, 3, &fingerprint, &digest),
        Err(PipelineError::Invariant(text)) if text == "unexpected extra chain-pair forest runs"
    ));
}
