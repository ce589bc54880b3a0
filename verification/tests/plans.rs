use metadata_engine::pipeline::collector_plan::{
    build_scope_collector_memory_plan, scope_collector_topology, ScopeCollectorMemoryPlan,
};
use metadata_engine::pipeline::plans::{
    plan_component_memory, reserve_summary_memory, ComponentRootMode,
    SUMMARY_STREAM_MAX_SCRATCH_BYTES,
};
use metadata_engine::pipeline::run_plan::{
    admit_catalog_execution, admit_catalog_lanes, admit_shared_execution, bounded_catalog_config,
    edge_budget, estimate_run,
    resident_catalog_config, shared_execution, SnapshotResidency,
};
use metadata_engine::reduce::scratch::EdgeCollectorScratchKind;
use metadata_engine::resource::{MemoryBroker, GIB};

fn broker() -> MemoryBroker {
    MemoryBroker::new(512 * GIB, 448 * GIB).unwrap()
}

#[test]
fn component_memory_plan_charges_final_roots_once_plus_one_parent_per_lane() {
    let memory = broker();
    let roots = vec![(GIB / 4) as u32; 8];
    let plan = plan_component_memory(memory.available_bytes(), 128, &roots).unwrap();

    assert_eq!(plan.root_mode, ComponentRootMode::Resident);
    assert_eq!(plan.parallel_scopes, 8);
    assert_eq!(plan.total_root_bytes, 8 * GIB);
    assert_eq!(plan.transient_bytes_per_scope, GIB);
    assert_eq!(plan.peak_bytes, 16 * GIB);
}

#[test]
fn component_memory_plan_reduces_scope_concurrency_to_remaining_budget() {
    let mut memory = broker();
    let _occupied = memory.reserve(437 * GIB).unwrap();
    let roots = vec![(GIB / 4) as u32; 8];
    let plan = plan_component_memory(memory.available_bytes(), 128, &roots).unwrap();

    assert_eq!(plan.parallel_scopes, 3);
    assert_eq!(plan.peak_bytes, 11 * GIB);
}

#[test]
fn component_memory_plan_uses_actual_pair_sizes_for_unbalanced_parallelism() {
    let mut memory = broker();
    let _occupied = memory.reserve(430 * GIB).unwrap();
    let mut roots = vec![(2 * 1024 * 1024) as u32; 128];
    roots[0] = (2 * GIB) as u32;
    let total_root_bytes = roots
        .iter()
        .map(|&nodes| u64::from(nodes) * std::mem::size_of::<u32>() as u64)
        .sum::<u64>();

    let plan = plan_component_memory(memory.available_bytes(), 128, &roots).unwrap();

    assert_eq!(plan.root_mode, ComponentRootMode::Resident);
    assert_eq!(plan.parallel_scopes, 128);
    assert_eq!(plan.total_root_bytes, total_root_bytes);
    assert_eq!(plan.peak_bytes, total_root_bytes * 2);
}

#[test]
fn component_memory_plan_uses_mapped_waves_when_global_roots_do_not_fit() {
    let mut memory = broker();
    let _occupied = memory.reserve(447 * GIB).unwrap();
    let roots = vec![(GIB / 2) as u32; 8];
    let plan = plan_component_memory(memory.available_bytes(), 128, &roots).unwrap();

    assert_eq!(plan.root_mode, ComponentRootMode::Mapped);
    assert_eq!(plan.parallel_scopes, 0);
    assert_eq!(plan.peak_bytes, 0);
    assert_eq!(plan.host_headroom_bytes, 4 * GIB);
}

#[test]
fn mapped_waves_take_the_largest_scopes_that_fit_twice() {
    let plan = plan_component_memory(100, 8, &vec![10, 3, 7, 20]).unwrap();
    assert_eq!(plan.root_mode, ComponentRootMode::Mapped);
    assert_eq!(plan.total_root_bytes, 160);
    assert_eq!(plan.parallel_scopes, 0);
    let plan = plan_component_memory(170, 8, &vec![10, 3, 7, 20, 5]).unwrap();
    assert_eq!(plan.root_mode, ComponentRootMode::Mapped);
    assert_eq!(plan.parallel_scopes, 1);
    assert_eq!(plan.peak_bytes, 160);
    assert_eq!(plan.host_headroom_bytes, 0);
    let plan = plan_component_memory(100, 4, &Vec::new()).unwrap();
    assert_eq!(plan.parallel_scopes, 0);
    assert_eq!(plan.total_root_bytes, 0);
}

#[test]
fn summary_memory_plan_uses_bounded_headroom_when_no_full_lane_fits() {
    let mut memory = broker();
    let _occupied = memory.reserve(448 * GIB).unwrap();
    let (plan, _summary_memory) =
        reserve_summary_memory(&mut memory, 128, 2, 8, 16 * GIB, 8 * GIB).unwrap();

    assert_eq!(plan.parallel_primary_scopes, 0);
    assert_eq!(plan.parallel_pair_scopes, 0);
    assert_eq!(plan.peak_bytes, 0);
    assert_eq!(plan.stream_scratch_bytes, SUMMARY_STREAM_MAX_SCRATCH_BYTES);
    assert_eq!(plan.stream_headroom_bytes, SUMMARY_STREAM_MAX_SCRATCH_BYTES);
}

#[test]
fn summary_memory_plan_reserves_available_bytes_for_external_merge() {
    let mut memory = broker();
    let remaining = 32 * 1024 * 1024;
    let _occupied = memory.reserve(448 * GIB - remaining).unwrap();
    let (plan, _summary_memory) =
        reserve_summary_memory(&mut memory, 128, 2, 8, GIB, GIB / 2).unwrap();

    assert_eq!(plan.parallel_primary_scopes, 0);
    assert_eq!(plan.parallel_pair_scopes, 0);
    assert_eq!(plan.peak_bytes, remaining);
    assert_eq!(plan.stream_scratch_bytes, remaining);
    assert_eq!(plan.stream_headroom_bytes, 0);
}

#[test]
fn summary_memory_plan_accounts_stream_scratch_when_only_primary_spills() {
    let mut memory = broker();
    let remaining = 32 * 1024 * 1024;
    let _occupied = memory.reserve(448 * GIB - remaining).unwrap();
    let (plan, summary_memory) =
        reserve_summary_memory(&mut memory, 128, 2, 2, 64 * 1024 * 1024, 16 * 1024 * 1024)
            .unwrap();

    assert_eq!(plan.parallel_primary_scopes, 0);
    assert_eq!(plan.parallel_pair_scopes, 2);
    assert_eq!(plan.peak_bytes, remaining);
    assert_eq!(plan.stream_scratch_bytes, remaining);
    assert_eq!(plan.stream_headroom_bytes, 0);
    assert_eq!(summary_memory.bytes(&memory), remaining);
}

#[test]
fn scope_collector_plan_falls_back_to_exact_sparse_when_one_dense_lane_does_not_fit() {
    let mib = 1024 * 1024;
    let memory = MemoryBroker::new(32 * mib, 16 * mib).unwrap();
    let plan = build_scope_collector_memory_plan(&memory, 4_000_000, 3, mib, 4).unwrap();

    assert_eq!(plan.scratch_kind, EdgeCollectorScratchKind::Sparse);
    assert_eq!(plan.edge_bytes, mib);
    assert!(plan.reserved_bytes <= memory.available_bytes());
    assert!(plan.active_sink_workers > 0);
}

#[test]
fn scope_collector_dense_scratch_scales_with_sink_workers_not_scope_count() {
    let memory = broker();
    let few = build_scope_collector_memory_plan(&memory, 1_000_000, 1, 1024 * 1024, 4).unwrap();
    let many = build_scope_collector_memory_plan(&memory, 1_000_000, 120, 1024 * 1024, 4).unwrap();

    assert_eq!(few.scratch_kind, EdgeCollectorScratchKind::Dense);
    assert_eq!(many.scratch_kind, EdgeCollectorScratchKind::Dense);
    assert_eq!(few.active_sink_workers, many.active_sink_workers);
    assert!(many.scratch_bytes <= few.scratch_bytes);
}

#[test]
fn topology_leaves_threads_for_scoring() {
    assert_eq!(scope_collector_topology(3, 1), (5, 0, 1));
    assert_eq!(scope_collector_topology(3, 4), (10, 2, 2));
    assert_eq!(scope_collector_topology(0, 2), (2, 1, 1));
}

#[test]
fn estimates_count_two_scopes_and_one_for_each_other_chain() {
    let estimates = estimate_run(1_000, 3, 1 << 40).unwrap();
    assert_eq!(estimates.chain_pair_count, 3);
    assert_eq!(estimates.component_bytes, 16_000);
    assert_eq!(estimates.component_artifact_bytes, 5 * 8_192 + 16_000);
    assert_eq!(estimates.component_partial_peak_bytes, 4_000 + 8_192);
    assert_eq!(estimates.forest_upper_bytes, 32_000);
    assert_eq!(estimates.edge_bytes, 65_536);
    assert_eq!(estimate_run(0, 0, 7).unwrap().edge_bytes, 7);
    assert!(estimate_run(u32::MAX, usize::MAX - 1, 7).is_err());
}

#[test]
fn every_scope_gets_an_equal_part_of_the_edges() {
    let memory = broker();
    let plan: ScopeCollectorMemoryPlan =
        build_scope_collector_memory_plan(&memory, 100, 0, 8_000, 1).unwrap();
    let budget = edge_budget(&plan, 4);
    assert_eq!(budget.max_run_edges, plan.edge_bytes / 8 / 4);
    assert_eq!(budget.max_total_bytes, plan.edge_bytes);
    assert!(budget.max_buffer_bytes <= budget.max_run_edges * 8);
    assert_eq!(edge_budget(&plan, 0).max_run_edges, plan.edge_bytes / 8);
}

#[test]
fn catalog_lanes_settle_where_their_indexes_fit() {
    let mut memory = broker();
    let _occupied = memory.reserve(348 * GIB).unwrap();
    assert_eq!(admit_catalog_lanes(&memory, 8, 0, GIB, 10 * GIB), 8);
    assert_eq!(admit_catalog_lanes(&memory, 16, 0, GIB, 10 * GIB), 10);
    assert_eq!(admit_catalog_lanes(&memory, 8, 8, 5 * GIB, 10 * GIB), 6);
    assert_eq!(admit_catalog_lanes(&memory, 8, 8, 200 * GIB, 10 * GIB), 0);
    assert_eq!(admit_catalog_lanes(&memory, 0, 0, 0, 10 * GIB), 1);
}

#[test]
fn bounded_lanes_shrink_their_batches_with_their_bytes() {
    assert_eq!(resident_catalog_config(3).edge_batch, 32_768);
    let (config, index) = bounded_catalog_config(3, 128 * 1_000);
    assert!(config.bounded_mode);
    assert_eq!(config.edge_batch, 1_000);
    assert_eq!(index, 65_536);
    let (config, index) = bounded_catalog_config(3, 64 * 1024 * 1024);
    assert_eq!(config.edge_batch, 4_096);
    assert_eq!(index, 62 * 1024 * 1024);
    assert_eq!(shared_execution(4, 77, 0).cache_entries, 65_536);
    let bounded = shared_execution(0, 77, 64_000);
    assert_eq!(bounded.lanes, 1);
    assert_eq!(bounded.group_index_budget_bytes, 0);
    assert_eq!(bounded.cache_entries, 1_000);
}

#[test]
fn paging_is_told_once_for_each_loss() {
    let mut memory = broker();
    let lease = memory.reserve_reclaimable(400 * GIB).unwrap();
    let mut residency = SnapshotResidency::new(lease, 400 * GIB);
    assert!(residency.report_paging("snapshot open", &memory).is_none());
    let _work = memory.reserve(100 * GIB).unwrap();
    let told = residency.report_paging("summary admission", &memory).unwrap();
    assert!(told.contains("during summary admission"));
    assert!(told.contains(&format!("newly_paged={} bytes", 52 * GIB)));
    assert!(residency.report_paging("summary admission", &memory).is_none());
}

#[test]
fn catalog_lanes_are_resident_where_one_fits_and_else_bounded() {
    let mut advisories = Vec::new();
    let mut memory = MemoryBroker::new(GIB, 1_000).unwrap();
    let (config, budget, lease) =
        admit_catalog_execution(&mut memory, 4, 2, 100, 200, 3, &mut advisories).unwrap();
    assert!(!config.bounded_mode);
    assert_eq!((config.chain_count, config.edge_batch, budget), (3, 32_768, 0));
    assert_eq!(lease.bytes(&memory), 1_000);
    assert!(advisories.is_empty());

    let mut short = MemoryBroker::new(GIB, 150).unwrap();
    let (config, budget, lease) =
        admit_catalog_execution(&mut short, 4, 2, 100, 200, 3, &mut advisories).unwrap();
    assert!(config.bounded_mode);
    assert_eq!((config.edge_batch, budget), (256, 65_536));
    assert_eq!(lease.bytes(&short), 150);
    assert_eq!(
        advisories,
        vec![
            "one resident catalog scoring lane does not fit: hot_index=100 bytes, \
             lane_scratch=200 bytes, available=150 bytes; switching to one bounded lane with \
             direct contract expansion, edge_batch=256, hot_index_budget=65536 bytes \
             (reserved=150 bytes) instead of terminating"
        ]
    );
}

#[test]
fn token_lanes_are_resident_where_one_fits_and_else_bounded() {
    let mut advisories = Vec::new();
    let mut memory = MemoryBroker::new(GIB, 20_000_000).unwrap();
    let (execution, lease) =
        admit_shared_execution(&mut memory, 4, 1_000, &mut advisories).unwrap();
    assert_eq!((execution.lanes, execution.group_index_budget_bytes), (2, 1_000));
    assert_eq!(lease.bytes(&memory), 2 * (8_388_608 + 1_000));
    assert!(advisories.is_empty());

    let mut short = MemoryBroker::new(GIB, 6_400).unwrap();
    let (execution, lease) =
        admit_shared_execution(&mut short, 4, 1_000, &mut advisories).unwrap();
    assert_eq!(
        (execution.lanes, execution.group_index_budget_bytes, execution.cache_entries),
        (1, 0, 100)
    );
    assert_eq!(lease.bytes(&short), 6_400);
    assert_eq!(
        advisories,
        vec![
            "one resident shared-token scoring lane does not fit: largest_group_index=1000 bytes, \
             lane_scratch=8388608 bytes, available=6400 bytes; switching to one bounded lane with \
             group_index_budget=0 bytes and payload_cache_entries=100 (reserved=6400 bytes). \
             Oversized groups use exact pairwise scoring instead of terminating"
        ]
    );
}
