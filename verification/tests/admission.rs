use metadata_engine::pipeline::admission::{
    admit_component_commits, admitted_evidence_partition, component_reserved_bytes,
    component_retained_bytes, forest_fit, plan_evidence_memory, split_samples, EvidenceMemory,
    ForestFit, COMPONENT_COMMIT_BYTES_PER_SCOPE,
};
use metadata_engine::pipeline::collectors::ScopeForestRuns;
use metadata_engine::pipeline::plans::{ComponentMemoryPlan, ComponentRootMode};
use metadata_engine::reduce::forest::{EdgeBudget, ForestRun};
use metadata_engine::reduce::graph::Edge;
use metadata_engine::reduce::storage::{ForestRunStorage, MappedForestRun};
use metadata_engine::resource::{MemoryBroker, GIB};

#[test]
fn evidence_takes_a_share_of_the_hard_top() {
    let plan = plan_evidence_memory(96 * GIB, u64::MAX, false);
    assert_eq!(plan.partition_bytes, GIB);
    assert_eq!(plan.peak_bytes, 8 * GIB);
    assert_eq!(
        plan_evidence_memory(u64::MAX, u64::MAX, false).partition_bytes,
        8 * GIB / 3
    );
    assert_eq!(plan_evidence_memory(96 * GIB, 10, false).partition_bytes, 160);
    assert_eq!(plan_evidence_memory(96 * GIB, 10, true).partition_bytes, 65_536);
    assert_eq!(plan_evidence_memory(0, 0, false).partition_bytes, 1);
    let admitted = EvidenceMemory {
        partition_bytes: 100,
        peak_bytes: 800,
    };
    assert_eq!(admitted_evidence_partition(&admitted, 800), 100);
    assert_eq!(admitted_evidence_partition(&admitted, 79), 9);
}

#[test]
fn samples_alternate_between_calibration_and_holdout() {
    assert_eq!(
        split_samples(&vec![1, 4, 9, 16, 25]),
        (vec![1, 9, 25], vec![4, 16])
    );
    assert_eq!(split_samples(&Vec::new()), (Vec::new(), Vec::new()));
}

#[test]
fn component_commits_shrink_to_one_scope_without_memory() {
    let mut memory = MemoryBroker::new(GIB, 3 * COMPONENT_COMMIT_BYTES_PER_SCOPE).unwrap();
    let wide = admit_component_commits(&memory, 8, 5);
    assert_eq!((wide.requested_scopes, wide.scopes), (5, 3));
    assert_eq!(wide.bytes, 3 * COMPONENT_COMMIT_BYTES_PER_SCOPE);
    let _full = memory.reserve(3 * COMPONENT_COMMIT_BYTES_PER_SCOPE).unwrap();
    let narrow = admit_component_commits(&memory, 0, 0);
    assert_eq!((narrow.requested_scopes, narrow.scopes, narrow.bytes), (1, 1, 0));
}

#[test]
fn resident_roots_are_kept_and_mapped_ones_are_not() {
    let mut plan = ComponentMemoryPlan {
        root_mode: ComponentRootMode::Resident,
        parallel_scopes: 0,
        total_root_bytes: 40,
        transient_bytes_per_scope: 20,
        peak_bytes: 60,
        host_headroom_bytes: 20,
    };
    assert_eq!(component_reserved_bytes(&plan), 40);
    assert_eq!(component_retained_bytes(&plan), 40);
    plan.parallel_scopes = 1;
    assert_eq!(component_reserved_bytes(&plan), 60);
    plan.root_mode = ComponentRootMode::Mapped;
    plan.parallel_scopes = 0;
    assert_eq!(component_reserved_bytes(&plan), 60);
    assert_eq!(component_retained_bytes(&plan), 0);
}

#[test]
fn forests_are_resident_spilled_or_recovered() {
    let budget = EdgeBudget {
        max_buffer_bytes: u64::MAX,
        max_run_edges: u64::MAX,
        max_total_bytes: u64::MAX,
    };
    let run = ForestRun::from_edges(3, vec![Edge::new(0, 1), Edge::new(1, 2)], budget).unwrap();
    let resident = ScopeForestRuns {
        intra: vec![ForestRunStorage::resident(run.clone())],
        cross: Vec::new(),
        pairs: Vec::new(),
    };
    assert_eq!(forest_fit(&resident, false, 16), ForestFit::Resident);
    let mapped = ScopeForestRuns {
        intra: vec![ForestRunStorage::Mapped(MappedForestRun::store(&run))],
        cross: Vec::new(),
        pairs: Vec::new(),
    };
    assert_eq!(
        forest_fit(&mapped, false, 16),
        ForestFit::Spilled { payload_bytes: 16 }
    );
    assert_eq!(forest_fit(&mapped, true, 16), ForestFit::Resident);
    assert_eq!(
        forest_fit(&mapped, true, 15),
        ForestFit::Recovered { payload_bytes: 16 }
    );
}
