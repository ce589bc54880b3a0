use metadata_engine::pipeline::compaction::{
    compact_scope_edges_with_scratch, ScopeCompactionScratch,
};
use metadata_engine::reduce::chain::{
    build_component_snapshot_chain, recover_component_snapshots, validate_component_snapshot_chain,
    ComponentSnapshot, SnapshotCadence,
};
use metadata_engine::reduce::codec::{
    decode_component_roots, encode_component_roots, ComponentSnapshotIdentity, StoredRoots,
};
use metadata_engine::reduce::collector::EdgeCollector;
use metadata_engine::reduce::commit::{
    open_snapshot_chain, plan_chain_commit, plan_root_commit, ChainMarker, ChainReadError,
    CommitStep, StoredSnapshot,
};
use metadata_engine::reduce::component::{reduce_components, reduce_components_with_progress};
use metadata_engine::reduce::error::ReduceError;
use metadata_engine::reduce::forest::{EdgeBudget, ForestRun};
use metadata_engine::reduce::graph::Edge;
use metadata_engine::reduce::scratch::{EdgeCollectorScratch, EdgeCollectorScratchKind};
use metadata_engine::reduce::storage::{ForestRunStorage, MappedForestRun};
use std::collections::HashMap;

#[test]
fn iterator_scope_compaction_uses_the_candidate_capacity_hint() {
    let edges = vec![Edge::new(0, 1); 64];
    let mut scratch = ScopeCompactionScratch::new(2, usize::MAX);

    let compacted = compact_scope_edges_with_scratch(&edges, &mut scratch);

    assert_eq!(compacted, vec![Edge::new(0, 1)]);
    assert!(compacted.capacity() >= edges.len());
}

#[test]
fn parallel_atomic_reduce_preserves_minimum_component_roots_and_progress() {
    let runs = vec![
        ForestRun {
            node_count: 8,
            edges: vec![Edge::new(4, 7), Edge::new(1, 3), Edge::new(3, 7)],
        },
        ForestRun {
            node_count: 8,
            edges: vec![Edge::new(0, 2), Edge::new(2, 4), Edge::new(5, 6)],
        },
    ];
    let mut reports = Vec::new();
    let roots = reduce_components_with_progress(&runs, 8, &mut reports).unwrap();
    assert_eq!(roots, vec![0, 0, 0, 0, 0, 5, 5, 0]);
    assert_eq!(*reports.last().unwrap(), (14, 14));
}

#[test]
fn edge_collector_reuses_run_dsu_across_forced_flushes() {
    let mut collector = EdgeCollector::new(
        6,
        EdgeBudget {
            max_buffer_bytes: std::mem::size_of::<Edge>() as u64,
            max_run_edges: 6,
            max_total_bytes: u64::MAX,
        },
        u32::MAX,
    );
    for edge in [Edge::new(0, 1), Edge::new(1, 2), Edge::new(3, 4)] {
        collector.push(edge).unwrap();
    }
    let runs = collector.finish().unwrap();
    let roots = reduce_components(&runs, 6).unwrap();
    assert_eq!(roots, vec![0, 0, 0, 3, 3, 5]);
}

#[test]
fn shared_sparse_collector_preserves_components_without_per_scope_dense_arrays() {
    let budget = EdgeBudget {
        max_buffer_bytes: 2 * std::mem::size_of::<Edge>() as u64,
        max_run_edges: 8,
        max_total_bytes: 8 * std::mem::size_of::<Edge>() as u64,
    };
    let mut collector = EdgeCollector::new_serial_shared(8, budget, 2).unwrap();
    assert_eq!(collector.owned_node_slots(), (0, 0));
    let mut scratch =
        EdgeCollectorScratch::try_new(EdgeCollectorScratchKind::Sparse, 8, 8).unwrap();

    collector
        .push_batch_shared(
            vec![
                Edge::new(0, 1),
                Edge::new(1, 2),
                Edge::new(2, 0),
                Edge::new(4, 5),
            ],
            &mut scratch,
        )
        .unwrap();
    collector
        .push_batch_shared(
            vec![Edge::new(2, 3), Edge::new(5, 6), Edge::new(3, 6)],
            &mut scratch,
        )
        .unwrap();

    let runs = collector.finish_shared(&mut scratch).unwrap();
    assert_eq!(
        reduce_components(&runs, 8).unwrap(),
        vec![0, 0, 0, 0, 0, 0, 0, 7]
    );
}

#[test]
fn shared_dense_collector_reuses_one_worker_scratch_across_scopes() {
    let budget = EdgeBudget {
        max_buffer_bytes: 4 * std::mem::size_of::<Edge>() as u64,
        max_run_edges: 8,
        max_total_bytes: 8 * std::mem::size_of::<Edge>() as u64,
    };
    let mut first = EdgeCollector::new_serial_shared(6, budget, u32::MAX).unwrap();
    let mut second = EdgeCollector::new_serial_shared(6, budget, u32::MAX).unwrap();
    let mut scratch =
        EdgeCollectorScratch::try_new(EdgeCollectorScratchKind::Dense, 6, 6).unwrap();

    first
        .push_batch_shared(vec![Edge::new(0, 1), Edge::new(1, 2)], &mut scratch)
        .unwrap();
    second
        .push_batch_shared(vec![Edge::new(3, 4), Edge::new(4, 5)], &mut scratch)
        .unwrap();

    assert_eq!(
        reduce_components(&first.finish_shared(&mut scratch).unwrap(), 6).unwrap(),
        vec![0, 0, 0, 3, 4, 5]
    );
    assert_eq!(
        reduce_components(&second.finish_shared(&mut scratch).unwrap(), 6).unwrap(),
        vec![0, 1, 2, 3, 3, 3]
    );
}

#[test]
fn highly_compressible_flushes_do_not_retain_candidate_vector_capacity_per_run() {
    let edge_size = std::mem::size_of::<Edge>() as u64;
    let budget = EdgeBudget {
        max_buffer_bytes: 100 * edge_size,
        max_run_edges: 100,
        max_total_bytes: u64::MAX,
    };
    let mut collector = EdgeCollector::new_serial_shared(2, budget, u32::MAX).unwrap();
    let mut scratch =
        EdgeCollectorScratch::try_new(EdgeCollectorScratchKind::Dense, 2, 2).unwrap();
    let edges = (0..10_000).map(|_| Edge::new(0, 1)).collect::<Vec<_>>();

    collector.push_batch_shared(edges, &mut scratch).unwrap();
    let runs = collector.finish_shared(&mut scratch).unwrap();

    assert!(runs.len() > 50);
    assert!(runs
        .iter()
        .all(|run| run.edges.capacity() == run.edges.len()));
    assert_eq!(
        runs.iter()
            .map(|run| run.edges.capacity() as u64 * edge_size)
            .sum::<u64>(),
        runs.len() as u64 * edge_size
    );
}

fn identity(scope_identity: &str, node_count: u32) -> ComponentSnapshotIdentity {
    ComponentSnapshotIdentity {
        schema_revision: 1,
        snapshot_fingerprint: "snapshot".into(),
        connectivity_revision: 1,
        connectivity_plan_digest: "plan".into(),
        scope_identity: scope_identity.into(),
        node_count,
    }
}

#[test]
fn borrowed_component_roots_commit_without_transferring_the_result_vector() {
    let identity = identity("intra", 4);
    let roots = vec![0, 0, 2, 2];

    identity.validate_component_roots(&roots).unwrap();
    let stored = encode_component_roots(&roots);

    assert_eq!(roots, vec![0, 0, 2, 2]);
    let snapshot = ComponentSnapshot::from_reduced_roots(
        0,
        decode_component_roots(stored, identity.node_count).unwrap(),
    )
    .unwrap();
    assert_eq!(recover_component_snapshots(&[snapshot]).unwrap().roots, roots);
}

#[test]
fn sparse_component_roots_roundtrip_identity_defaults() {
    let identity = identity("pair-0-1", 64);
    let mut roots = (0..64).collect::<Vec<_>>();
    roots[1] = 0;

    let stored = encode_component_roots(&roots);

    assert!(matches!(&stored, StoredRoots::Sparse { nodes, values } if *nodes == vec![1] && *values == vec![0]));
    let snapshot = ComponentSnapshot::from_reduced_roots(
        0,
        decode_component_roots(stored, identity.node_count).unwrap(),
    )
    .unwrap();
    assert_eq!(recover_component_snapshots(&[snapshot]).unwrap().roots, roots);
}

#[test]
fn tiny_component_snapshot_stays_dense_when_two_sparse_headers_cost_more() {
    let roots = vec![0, 0, 2, 3, 4, 5, 6, 7];

    let stored = encode_component_roots(&roots);

    assert!(matches!(&stored, StoredRoots::Dense(words) if *words == roots));
    assert_eq!(decode_component_roots(stored, 8).unwrap(), roots);
}

#[test]
fn roots_of_another_scope_are_not_reused() {
    let one = identity("intra", 4);
    let other = identity("cross", 4);
    assert!(one.is_current(metadata_engine::reduce::codec::COMPONENT_SNAPSHOT_CHAIN_REVISION, &one));
    assert!(!one.is_current(metadata_engine::reduce::codec::COMPONENT_SNAPSHOT_CHAIN_REVISION, &other));
    assert!(matches!(
        one.validate_component_roots(&[0, 0, 9, 3]),
        Err(ReduceError::SnapshotChain(_))
    ));
    assert!(matches!(
        one.validate_component_roots(&[0, 0]),
        Err(ReduceError::SnapshotChain(_))
    ));
}

#[test]
fn a_run_over_other_nodes_is_refused() {
    let budget = EdgeBudget {
        max_buffer_bytes: u64::MAX,
        max_run_edges: u64::MAX,
        max_total_bytes: u64::MAX,
    };
    let run = ForestRun::from_edges(3, vec![Edge::new(0, 1)], budget).unwrap();
    assert!(matches!(
        reduce_components(&[run.clone()], 4),
        Err(ReduceError::Endpoint { .. })
    ));
    assert!(matches!(
        ForestRun::from_edges(2, vec![Edge::new(0, 2)], budget),
        Err(ReduceError::Endpoint { .. })
    ));
    let tight = EdgeBudget {
        max_run_edges: 0,
        ..budget
    };
    assert!(matches!(
        ForestRun::from_edges(3, vec![Edge::new(0, 1)], tight),
        Err(ReduceError::Budget { .. })
    ));
    let mapped = ForestRunStorage::Mapped(MappedForestRun::store(&run));
    assert!(mapped.is_mapped());
    assert_eq!(mapped.materialized_edges(), run.edges);
    assert_eq!(mapped.resident_capacity_bytes(), 0);
}

#[test]
fn snapshots_of_a_chain_recover_the_components_of_all_runs() {
    let budget = EdgeBudget {
        max_buffer_bytes: u64::MAX,
        max_run_edges: u64::MAX,
        max_total_bytes: u64::MAX,
    };
    let runs = vec![
        ForestRun::from_edges(5, vec![Edge::new(0, 1)], budget).unwrap(),
        ForestRun::from_edges(5, vec![Edge::new(3, 4)], budget).unwrap(),
        ForestRun::from_edges(5, vec![Edge::new(1, 3)], budget).unwrap(),
    ];
    let base = ComponentSnapshot::full(0, &runs[..1], 5).unwrap();
    let next = ComponentSnapshot::delta(1, &base, &runs[1..]).unwrap();
    let chain = vec![base, next];
    validate_component_snapshot_chain(5, &chain).unwrap();
    assert_eq!(
        recover_component_snapshots(&chain).unwrap().roots,
        reduce_components(&runs, 5).unwrap()
    );
    let cadence = SnapshotCadence {
        max_epoch_edges: 1,
        full_every_epochs: 8,
        max_replay_epochs: 8,
        max_replay_bytes: u64::MAX,
    };
    let built = build_component_snapshot_chain(&runs, 5, cadence).unwrap();
    validate_component_snapshot_chain(5, &built).unwrap();
    assert_eq!(
        recover_component_snapshots(&built).unwrap().roots,
        vec![0, 0, 2, 0, 0]
    );
    let stopped = SnapshotCadence {
        max_epoch_edges: 0,
        ..cadence
    };
    assert!(matches!(
        build_component_snapshot_chain(&runs, 5, stopped),
        Err(ReduceError::SnapshotCadence(_))
    ));
}

fn runs_of(edges: &[(u32, u32)], budget: EdgeBudget, trigger: u32) -> Vec<ForestRun> {
    let mut collector = EdgeCollector::new(6, budget, trigger);
    for &(left, right) in edges {
        collector.push(Edge::new(left, right)).unwrap();
    }
    collector.finish().unwrap()
}

#[test]
fn budgets_and_triggers_change_no_component() {
    let edges = [(4, 3), (0, 1), (1, 0), (2, 2), (1, 2), (0, 2), (3, 5), (4, 5)];
    let wide = EdgeBudget {
        max_buffer_bytes: u64::MAX,
        max_run_edges: u64::MAX,
        max_total_bytes: u64::MAX,
    };
    let narrow = EdgeBudget {
        max_buffer_bytes: 16,
        max_run_edges: 5,
        max_total_bytes: 40,
    };
    for (budget, trigger) in [(wide, u32::MAX), (wide, 2), (narrow, u32::MAX), (narrow, 1)] {
        let runs = runs_of(&edges, budget, trigger);
        assert_eq!(
            reduce_components(&runs, 6).unwrap(),
            vec![0, 0, 0, 3, 3, 3]
        );
        for run in &runs {
            assert!(run.edges.len() <= 5);
            assert!(run.edges.iter().all(|edge| edge.left != edge.right));
            assert!(run
                .edges
                .windows(2)
                .all(|pair| (pair[0].left, pair[0].right) < (pair[1].left, pair[1].right)));
        }
    }
    let whole = runs_of(&edges, wide, u32::MAX);
    assert_eq!(whole.len(), 1);
    assert_eq!(
        whole[0].edges,
        vec![
            Edge::new(0, 1),
            Edge::new(0, 2),
            Edge::new(3, 4),
            Edge::new(3, 5)
        ]
    );
}

#[test]
fn snapshot_chains_keep_their_cadence() {
    let budget = EdgeBudget {
        max_buffer_bytes: u64::MAX,
        max_run_edges: u64::MAX,
        max_total_bytes: u64::MAX,
    };
    let runs: Vec<ForestRun> = (0..7u32)
        .map(|node| {
            ForestRun::from_edges(8, vec![Edge::new(node, node + 1)], budget).unwrap()
        })
        .collect();
    let cadence = SnapshotCadence {
        max_epoch_edges: 1,
        full_every_epochs: 5,
        max_replay_epochs: 8,
        max_replay_bytes: u64::MAX,
    };
    for (cadence, epochs) in [
        (cadence, vec![5, 6]),
        (
            SnapshotCadence {
                max_replay_epochs: 1,
                ..cadence
            },
            vec![5, 6],
        ),
        (
            SnapshotCadence {
                full_every_epochs: 100,
                max_replay_bytes: 64,
                ..cadence
            },
            vec![6],
        ),
        (
            SnapshotCadence {
                full_every_epochs: 100,
                ..cadence
            },
            vec![0, 1, 2, 3, 4, 5, 6],
        ),
    ] {
        let chain = build_component_snapshot_chain(&runs, 8, cadence).unwrap();
        assert_eq!(
            chain.iter().map(|snapshot| snapshot.epoch).collect::<Vec<_>>(),
            epochs
        );
        assert_eq!(chain[0].base_epoch, None);
        assert!(chain
            .windows(2)
            .all(|pair| pair[1].base_epoch == Some(pair[0].epoch)));
        let last = recover_component_snapshots(&chain).unwrap();
        assert_eq!(last.roots, reduce_components(&runs, 8).unwrap());
    }
}

/// A directory of snapshots in memory.
#[derive(Default)]
struct Directory {
    marker: Option<ChainMarker>,
    snapshots: HashMap<u32, StoredSnapshot>,
}

impl Directory {
    fn perform(&mut self, steps: Vec<CommitStep>, mut on_committed: impl FnMut(&Directory)) {
        for step in steps {
            match step {
                CommitStep::Withdraw => self.marker = None,
                CommitStep::Store(snapshot) => {
                    self.snapshots.insert(snapshot.epoch, snapshot);
                }
                CommitStep::Announce(marker) => self.marker = Some(marker),
                CommitStep::Tell => on_committed(self),
            }
        }
    }

    fn open(
        &mut self,
        expected: &ComponentSnapshotIdentity,
    ) -> Result<Option<Vec<ComponentSnapshot>>, ChainReadError> {
        let marker = self.marker.as_ref().unwrap();
        let stored = marker
            .epochs
            .iter()
            .map(|epoch| self.snapshots.remove(epoch).unwrap())
            .collect();
        open_snapshot_chain(marker, stored, expected)
    }
}

#[test]
fn component_root_republish_invalidates_old_identity_before_reusing_epoch_files() {
    let mut dir = Directory::default();
    let identity = identity("intra", 4);
    dir.perform(
        plan_root_commit(&identity, &[0, 0, 2, 3], false).unwrap(),
        |_| {},
    );
    assert!(dir.marker.is_some());
    let mut commits = 0;

    dir.perform(
        plan_root_commit(&identity, &[0, 1, 2, 2], false).unwrap(),
        |dir| {
            commits += 1;
            if commits == 1 {
                assert!(dir.marker.is_none());
            }
        },
    );
    assert_eq!(commits, 2);

    let chain = dir.open(&identity).unwrap().unwrap();
    assert_eq!(
        recover_component_snapshots(&chain).unwrap().roots,
        vec![0, 1, 2, 2]
    );
}

#[test]
fn committed_chains_are_read_back_for_their_identity_alone() {
    let own = identity("intra", 3);
    let snapshot = |epoch: u32, base_epoch: Option<u32>, roots: Vec<u32>| ComponentSnapshot {
        revision: 1,
        epoch,
        base_epoch,
        roots,
    };
    let chain = vec![
        snapshot(0, None, vec![0, 1, 2]),
        snapshot(4, Some(0), vec![0, 0, 2]),
    ];
    let mut dir = Directory::default();
    let mut told = 0;
    dir.perform(plan_chain_commit(&own, &chain).unwrap(), |_| told += 1);
    assert_eq!(told, 3);
    assert_eq!(dir.open(&own).unwrap().unwrap(), chain);

    dir.perform(plan_chain_commit(&own, &chain).unwrap(), |_| {});
    assert_eq!(dir.open(&identity("intra", 4)).unwrap(), None);

    dir.perform(
        plan_root_commit(&own, &[0, 0, 0], true).unwrap(),
        |_| {},
    );
    dir.snapshots.get_mut(&0).unwrap().epoch = 1;
    assert!(matches!(
        dir.open(&own),
        Err(ChainReadError::Snapshot { epoch: 0, .. })
    ));
    assert!(plan_root_commit(&own, &[0, 0], true).is_err());
    assert!(matches!(
        plan_chain_commit(&own, &[]),
        Err(ReduceError::SnapshotChain(_))
    ));

    dir.perform(
        plan_root_commit(&own, &[0, 0, 0], true).unwrap(),
        |_| {},
    );
    dir.snapshots.get_mut(&0).unwrap().base_epoch = Some(7);
    assert!(matches!(dir.open(&own), Err(ChainReadError::Chain(_))));
}
