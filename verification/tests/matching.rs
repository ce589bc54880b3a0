use metadata_engine::pipeline::atoms::atom_contracts;
use metadata_engine::pipeline::catalog::{
    catalog_atom_score, expand_catalog_atom_pair_streaming, CatalogExecutionConfig, CatalogLane,
    RoutedJob, SerializableIndexMetrics,
};
use metadata_engine::pipeline::collector_plan::build_scope_collector_memory_plan;
use metadata_engine::pipeline::collectors::ScopeCollectors;
use metadata_engine::pipeline::expansion::emit_complete_bipartite_forest;
use metadata_engine::pipeline::fallback::{
    append_fallback_atom_edges, fallback_atom_forest, next_fallback_pair_task, FallbackPairCursor,
};
use metadata_engine::pipeline::rescue_edges::rescue_expansion_tiles;
use metadata_engine::pipeline::rescue_memory::{
    admit_rescue, rescue_final_match_bytes, rescue_spill_batch_pairs, rescue_stream_buffer_bytes,
    RESCUE_CHUNK_BYTES, RESCUE_PAIR_BYTES,
};
use metadata_engine::pipeline::rescue_plan::{
    build_rescue_execution_plan, RescueExecutionPlan, RescueMatches,
};
use metadata_engine::pipeline::rescue_scan::{
    prepare_rescue, record_rescue_plan_work, take_rescue_plan_work, RescuePlan,
};
use metadata_engine::pipeline::rescue_store::{decode_pairs, encode_pairs, RescueSpillWrite};
use metadata_engine::pipeline::run::{
    connect_contracts, CatalogStage, RescueStage, SharedStage,
};
use metadata_engine::pipeline::run_plan::max_catalog_expansion_scratch_bytes;
use metadata_engine::pipeline::sampling::{
    deterministic_sample, evidence_scan_is_exhaustive, pair_frontier_covers_all_unordered_pairs,
    shared_token_work_stratum, stratified_active_token_sample,
};
use metadata_engine::pipeline::shared::{
    append_shared_token_edges, max_shared_group_index_bytes_with_progress,
    payloads_have_duplicates, SharedPayloadScoreCache,
};
use metadata_engine::pipeline::tokens::{contracts_share_retained_token, retained_tokens_disjoint};
use metadata_engine::progress::{ProgressEvent, ProgressPhase, TotalKind};
use metadata_engine::reduce::forest::EdgeBudget;
use metadata_engine::reduce::graph::Edge;
use metadata_engine::resource::{release_all, MemoryBroker, MemoryError, GIB};
use metadata_engine::scheduler::jobs::{CatalogJobs, JobDescriptor, JobShape};
use metadata_engine::snapshot::features::FeatureView;

/// Contracts with chain, payload and tokens; every payload has one template and one content term.
fn features(contracts: &[(u32, u32, Vec<u32>)], payloads: usize, atoms: &[Vec<u32>]) -> FeatureView {
    let tokens = contracts
        .iter()
        .flat_map(|contract| contract.2.iter().copied())
        .max()
        .map_or(0, |token| token as usize + 1);
    let mut members = vec![Vec::new(); tokens];
    let mut contract_token_offsets = vec![0u64];
    let mut contract_tokens = Vec::new();
    for (id, contract) in contracts.iter().enumerate() {
        for &token in &contract.2 {
            contract_tokens.push(token);
            members[token as usize].push(id as u32);
        }
        contract_token_offsets.push(contract_tokens.len() as u64);
    }
    let mut token_member_offsets = vec![0u64];
    let mut token_member_contracts = Vec::new();
    for list in &members {
        token_member_contracts.extend_from_slice(list);
        token_member_offsets.push(token_member_contracts.len() as u64);
    }
    let mut fallback_atom_offsets = vec![0u64];
    let mut fallback_atom_contracts = Vec::new();
    for atom in atoms {
        fallback_atom_contracts.extend_from_slice(atom);
        fallback_atom_offsets.push(fallback_atom_contracts.len() as u64);
    }
    FeatureView {
        source_to_payload: contracts.iter().map(|contract| contract.1).collect(),
        payload_template_offsets: (0..=payloads as u64).collect(),
        payload_template_terms: vec![1; payloads],
        payload_template_freqs: vec![1; payloads],
        payload_content_offsets: (0..=payloads as u64).collect(),
        payload_content_terms: vec![2; payloads],
        payload_content_freqs: vec![1; payloads],
        payload_template_sigs: Vec::new(),
        payload_content_sigs: Vec::new(),
        contract_token_offsets,
        contract_tokens,
        token_member_offsets,
        token_member_sources: token_member_contracts.clone(),
        token_member_contracts,
        payload_lengths: vec![1; payloads],
        query_denominators: vec![0; payloads],
        prepared_weight_offsets: (0..=payloads as u64).collect(),
        prepared_weights: vec![0; payloads],
        contract_source: (0..contracts.len() as u32).collect(),
        contract_chain: contracts.iter().map(|contract| contract.0).collect(),
        contract_payload: contracts.iter().map(|contract| contract.1).collect(),
        contract_weight: vec![1; contracts.len()],
        fallback_atom_offsets,
        fallback_atom_contracts,
    }
}

fn collectors(nodes: u32, pairs: usize) -> ScopeCollectors {
    let memory = MemoryBroker::new(2 * GIB, GIB).unwrap();
    let plan = build_scope_collector_memory_plan(&memory, nodes, pairs, 1024 * 1024, 4).unwrap();
    let budget = EdgeBudget {
        max_buffer_bytes: u64::MAX,
        max_run_edges: u64::MAX,
        max_total_bytes: u64::MAX,
    };
    ScopeCollectors::new(nodes, pairs, budget, u64::MAX, &plan).unwrap()
}

#[test]
fn payload_score_cache_is_only_enabled_for_repeated_payloads() {
    assert!(!payloads_have_duplicates(&[]));
    assert!(!payloads_have_duplicates(&[7]));
    assert!(!payloads_have_duplicates(&[9, 3, 7, 1]));
    assert!(payloads_have_duplicates(&[9, 3, 7, 3]));
}

#[test]
fn a_cached_score_is_the_scorer_s() {
    let asked = std::cell::Cell::new(0);
    let scorer = |left: u32, right: u32| {
        asked.set(asked.get() + 1);
        left + right == 10
    };
    let mut cache = SharedPayloadScoreCache::new(true, 8);
    assert!(cache.exact_match(3, 7, &scorer));
    assert!(cache.exact_match(7, 3, &scorer));
    assert!(!cache.exact_match(3, 8, &scorer));
    assert_eq!(asked.get(), 2);
}

#[test]
fn fallback_pair_tasks_cover_each_pair_once_in_stable_order() {
    let member_counts = vec![0usize, 1, 4, 3];
    let mut cursor = FallbackPairCursor::default();
    let mut pairs = Vec::new();
    while let Some(task) = next_fallback_pair_task(&mut cursor, &member_counts, 2) {
        for right in task.right_begin..task.right_end {
            pairs.push((task.atom, task.left, right));
        }
    }
    let expected = member_counts
        .iter()
        .copied()
        .enumerate()
        .flat_map(|(atom, members)| {
            (0..members)
                .flat_map(move |left| (left + 1..members).map(move |right| (atom, left, right)))
        })
        .collect::<Vec<_>>();

    assert_eq!(pairs, expected);
}

#[test]
fn fallback_atom_with_empty_retained_tokens_uses_linear_star_forest() {
    let view = features(
        &[
            (0, 0, vec![1]),
            (0, 0, vec![1, 2]),
            (0, 0, vec![]),
            (0, 0, vec![3]),
        ],
        1,
        &[vec![0, 1, 2, 3]],
    );

    let (visits, edges) = fallback_atom_forest(&view, 0);
    let mut actual = edges
        .iter()
        .map(|edge| (edge.left, edge.right))
        .collect::<Vec<_>>();
    actual.sort_unstable();
    let mut expected = [0, 1, 3]
        .into_iter()
        .map(|contract| {
            let edge = Edge::new(2, contract);
            (edge.left, edge.right)
        })
        .collect::<Vec<_>>();
    expected.sort_unstable();

    assert_eq!(visits, 3);
    assert_eq!(actual, expected);
    assert!(edges
        .iter()
        .all(|edge| !contracts_share_retained_token(&view, edge.left, edge.right)));
}

#[test]
fn members_that_share_tokens_are_left_to_the_tokens() {
    let view = features(
        &[(0, 0, vec![0]), (0, 0, vec![0]), (0, 0, vec![1])],
        1,
        &[vec![0, 1, 2]],
    );
    let (visits, edges) = fallback_atom_forest(&view, 0);
    assert!(visits <= 3);
    assert!(edges.iter().all(|edge| edge.right == 2));
    assert!(!edges.is_empty());
    let mut broker = collectors(3, 0);
    let mut reports = Vec::new();
    let done = append_fallback_atom_edges(&view, &mut broker, 1, &mut reports).unwrap();
    assert_eq!(done, visits);
    assert_eq!(reports.last().unwrap().completed, visits);
}

#[test]
fn rescue_expansion_tiles_cover_each_cartesian_visit_once() {
    let tiles = rescue_expansion_tiles(&vec![(3, 5)], 2);
    let mut visits = Vec::new();
    for tile in tiles {
        for left in tile.left_begin..tile.left_end {
            for right in tile.right_begin..tile.right_end {
                visits.push((left, right));
            }
        }
    }
    visits.sort_unstable();

    assert_eq!(
        visits,
        (0..3)
            .flat_map(|left| (0..5).map(move |right| (left, right)))
            .collect::<Vec<_>>()
    );
}

#[test]
fn catalog_expansion_counter_excludes_nonmatching_atom_products() {
    let contracts = (0..4).map(|id| (0, id / 2, vec![])).collect::<Vec<_>>();
    let view = features(&contracts, 2, &[vec![0, 1], vec![2, 3]]);
    let mut batch = Vec::new();

    let work = expand_catalog_atom_pair_streaming(
        &view,
        0,
        1,
        false,
        &|left: u32, right: u32, _proven: bool| left == right,
        1,
        &mut batch,
    );

    assert_eq!(work, 0);
    assert!(batch.is_empty());
}

#[test]
fn bounded_catalog_disjoint_fast_path_matches_chain_scoped_resident_forest() {
    let contracts = (0..32u32)
        .map(|id| {
            let token = if id < 16 { id } else { 1_000 + id };
            (u32::from(id >= 16), 0, vec![token])
        })
        .collect::<Vec<_>>();
    let view = features(&contracts, 1, &[(0..16).collect(), (16..32).collect()]);
    let scorer = |left: u32, right: u32, _proven: bool| left == right;
    let mut resident = Vec::new();
    let work = expand_catalog_atom_pair_streaming(&view, 0, 1, false, &scorer, 2, &mut resident);
    let left = atom_contracts(&view, 0);
    let right = atom_contracts(&view, 1);

    assert!(retained_tokens_disjoint(&view, left, right));
    let mut bounded = Vec::new();
    emit_complete_bipartite_forest(left, right, &mut bounded);
    resident.sort_unstable();
    bounded.sort_unstable();

    assert_eq!(work, 256);
    assert_eq!(resident.len(), 16 + 16 - 1);
    assert_eq!(bounded, resident);

    let mut lane = CatalogLane::new(
        &view,
        CatalogExecutionConfig {
            chain_count: 2,
            edge_batch: 64,
            dense_compaction_scratch_bytes: 0,
            bounded_mode: true,
        },
    );
    let mut broker = collectors(32, 1);
    let bounded_work = lane
        .expand(&view, &mut broker, 0, 1, false, &scorer)
        .unwrap();
    assert_eq!(bounded_work, 256);
    lane.submit(&view, &mut broker).unwrap();
    let runs = broker.finish().unwrap();
    let edges = runs
        .cross
        .iter()
        .map(|run| run.edge_count())
        .sum::<usize>();
    assert_eq!(edges, 31);
}

#[test]
fn contract_level_rescue_expands_across_large_shared_token_groups() {
    let contracts = (0..256u32)
        .map(|id| (0, id, vec![1, 2]))
        .collect::<Vec<_>>();
    let atoms = (0..256u32).map(|id| vec![id]).collect::<Vec<_>>();
    let view = features(&contracts, 256, &atoms);
    let rescue = RescuePlan {
        pair_atoms: vec![],
        shared_contracts: vec![0],
        shared_edges: vec![(1, 2)],
    };
    let scorer = |left: u32, right: u32| left == right;
    let mut events = Vec::new();
    let plan = |lanes: usize, events: &mut Vec<ProgressEvent>| {
        let mut memory = MemoryBroker::new(512 << 30, 448 << 30).unwrap();
        let admission = admit_rescue(&memory, lanes, 256, 256, 1, 1).unwrap();
        let seeds = prepare_rescue(&view, &rescue, 256, events).unwrap();
        let mut spill = RescueSpillWrite {
            atom: Vec::new(),
            shared: Vec::new(),
        };
        build_rescue_execution_plan(
            &view,
            &rescue,
            &seeds,
            &admission,
            &scorer,
            &mut memory,
            "rescue",
            &mut spill,
            &mut Vec::new(),
            events,
        )
        .unwrap()
        .0
    };
    let serial = plan(1, &mut events);
    let parallel = plan(4, &mut Vec::new());
    let matched = |plan: &RescueExecutionPlan| match &plan.matches {
        RescueMatches::Sorted { shared_edges, .. } => shared_edges.clone(),
        _ => panic!("the matches fit in memory"),
    };
    assert_eq!(serial.shared_score_visits, 510);
    assert_eq!(serial.total_visits(), 511);
    assert_eq!(matched(&serial), vec![(1, 2)]);
    assert_eq!(parallel.shared_score_visits, serial.shared_score_visits);
    assert_eq!(matched(&parallel), matched(&serial));
    for phase in [
        ProgressPhase::PrepareRescuePairs,
        ProgressPhase::FinalizeRescuePlan,
    ] {
        let phase_events = events
            .iter()
            .filter(|event| event.phase == phase)
            .collect::<Vec<_>>();
        assert!(!phase_events.is_empty());
        assert!(phase_events
            .iter()
            .all(|event| event.total_kind == TotalKind::Unknown && event.total.is_none()));
    }
}

fn three_atoms() -> (FeatureView, RescuePlan) {
    let contracts = (0..3u32).map(|id| (0, id, vec![id])).collect::<Vec<_>>();
    let view = features(&contracts, 3, &[vec![0], vec![1], vec![2]]);
    let rescue = RescuePlan {
        pair_atoms: vec![0],
        shared_contracts: vec![],
        shared_edges: vec![],
    };
    (view, rescue)
}

/// Plans the rescue of three atoms that all match, with so many bytes beside those of the lanes.
fn plan_three_atoms(
    spare: Option<u64>,
    advisories: &mut Vec<String>,
    events: &mut Vec<ProgressEvent>,
) -> (RescueExecutionPlan, RescueSpillWrite) {
    let (view, rescue) = three_atoms();
    let roomy = MemoryBroker::new(512 * GIB, 448 * GIB).unwrap();
    let admission = admit_rescue(&roomy, 1, 3, 3, 0, 0).unwrap();
    let held = admission.reservation_bytes + admission.stream_buffer_bytes;
    let mut memory = match spare {
        Some(spare) => MemoryBroker::new(512 * GIB, held + spare).unwrap(),
        None => roomy,
    };
    let _held = memory.reserve(held).unwrap();
    let seeds = prepare_rescue(&view, &rescue, 3, events).unwrap();
    let mut spill = RescueSpillWrite {
        atom: Vec::new(),
        shared: Vec::new(),
    };
    let available = memory.available_bytes();
    let (plan, leases) = build_rescue_execution_plan(
        &view,
        &rescue,
        &seeds,
        &admission,
        &|_left: u32, _right: u32| true,
        &mut memory,
        "disk-fallback",
        &mut spill,
        advisories,
        events,
    )
    .unwrap();
    let reserved = match &plan.matches {
        RescueMatches::Sorted { .. } => 2 * RESCUE_PAIR_BYTES,
        RescueMatches::Chunks { atom, shared } => {
            (atom.len() + shared.len()) as u64 * RESCUE_CHUNK_BYTES
        }
        RescueMatches::Spilled => 0,
    };
    assert_eq!(available - memory.available_bytes(), reserved);
    release_all(leases, &mut memory);
    assert_eq!(memory.available_bytes(), available);
    (plan, spill)
}

#[test]
fn rescue_execution_plan_counts_atom_scores_before_contract_expansion() {
    let mut events = Vec::new();

    let mut advisories = Vec::new();
    let (plan, _spill) = plan_three_atoms(None, &mut advisories, &mut events);
    assert!(advisories.is_empty());

    assert_eq!(plan.atom_score_visits, 2);
    match &plan.matches {
        RescueMatches::Sorted { atom_pairs, .. } => {
            assert_eq!(*atom_pairs, vec![(0, 1), (0, 2)]);
        }
        _ => panic!("the matches fit in memory"),
    }
    assert_eq!(plan.contract_expansion_visits, 2);
    assert_eq!(plan.total_visits(), 4);
    let score_terminal = events
        .iter()
        .rfind(|event| event.phase == ProgressPhase::PlanRescuePairs)
        .unwrap();
    assert_eq!(score_terminal.completed, 2);
    assert_eq!(score_terminal.total, Some(2));
    let finalize_terminal = events.last().unwrap();
    assert_eq!(finalize_terminal.phase, ProgressPhase::FinalizeRescuePlan);
    assert_eq!(finalize_terminal.total, None);
    assert_eq!(finalize_terminal.total_kind, TotalKind::Unknown);
}

#[test]
fn rescue_flatten_regression_uses_one_pair_width_for_reported_failure() {
    const MATCHES: u64 = 17_180_694_886;
    const USED: u64 = 290_749_377_591;
    const HARD_TOP: u64 = 465_352_376_832;
    const EXPECTED_BYTES: u64 = 137_445_559_088;

    let bytes = rescue_final_match_bytes(MATCHES, 0).unwrap();
    assert_eq!(bytes, EXPECTED_BYTES);
    assert_eq!(HARD_TOP - USED - bytes, 37_157_440_153);

    let mut broker = MemoryBroker::new(512 * GIB, HARD_TOP).unwrap();
    let _used = broker.reserve(USED).unwrap();
    assert!(broker.reserve(bytes).is_ok());

    let mut old_broker = MemoryBroker::new(512 * GIB, HARD_TOP).unwrap();
    let _used = old_broker.reserve(USED).unwrap();
    assert!(matches!(
        old_broker.reserve(bytes * 2),
        Err(MemoryError::Budget { .. })
    ));
    assert!(matches!(
        rescue_final_match_bytes(u64::MAX, 1),
        Err(MemoryError::Overflow)
    ));
}

#[test]
fn rescue_flatten_budget_shortage_warns_and_keeps_resident_chunks() {
    let mut advisories = Vec::new();
    let (plan, spill) =
        plan_three_atoms(Some(RESCUE_CHUNK_BYTES), &mut advisories, &mut Vec::new());

    assert!(matches!(&plan.matches, RescueMatches::Chunks { .. }));
    assert_eq!(plan.contract_expansion_visits, 2);
    assert_eq!(plan.execution_work(), 2);
    assert!(spill.atom.is_empty());
    assert!(advisories
        .iter()
        .any(|message| message.contains("streaming them directly")));
    assert_eq!(advisories.len(), 1);
    assert!(advisories[0].starts_with(
        "metadata rescue flatten needs 16 additional resident bytes but cannot be admitted (memory \
         budget exceeded: requested 16, used "
    ));
    assert!(advisories[0].ends_with(
        "); retaining the already admitted chunks and streaming them directly without a global sort"
    ));
}

#[test]
fn rescue_corpus_budget_shortage_warns_and_spills_once() {
    let mut advisories = Vec::new();
    let (plan, spill) = plan_three_atoms(Some(0), &mut advisories, &mut Vec::new());

    assert!(matches!(&plan.matches, RescueMatches::Spilled));
    let mut pairs = decode_pairs(&spill.atom).unwrap();
    pairs.sort_unstable();
    assert_eq!(pairs, vec![(0, 1), (0, 2)]);
    assert_eq!(spill.atom.len(), 16);
    assert_eq!(plan.contract_expansion_visits, 2);
    assert_eq!(plan.execution_work(), 2);
    assert!(rescue_spill_batch_pairs(plan.stream_buffer_bytes) > 0);
    assert_eq!(
        advisories
            .iter()
            .filter(|message| message.contains("disk streaming"))
            .count(),
        1
    );
    assert_eq!(advisories.len(), 1);
    assert!(advisories[0].starts_with(
        "metadata rescue matched-pair corpus exceeded the resident memory budget (memory budget \
         exceeded: requested 32816, used "
    ));
    assert!(advisories[0]
        .ends_with("); switching to bounded one-pass disk streaming in disk-fallback"));
}

#[test]
fn stored_pairs_are_read_as_they_were_written() {
    let pairs = vec![(1, 0x0203_0405), (u32::MAX, 0)];
    let mut bytes = Vec::new();
    encode_pairs(&pairs, &mut bytes);
    assert_eq!(&bytes[..8], &[1, 0, 0, 0, 5, 4, 3, 2]);
    assert_eq!(decode_pairs(&bytes).unwrap(), pairs);
    assert_eq!(decode_pairs(&bytes[..9]), Err(9));
    assert_eq!(
        rescue_stream_buffer_bytes(1).unwrap(),
        7 * RESCUE_CHUNK_BYTES
    );
}

#[test]
fn unknown_rescue_seeds_are_refused() {
    let (view, _) = three_atoms();
    let rescue = RescuePlan {
        pair_atoms: vec![3],
        shared_contracts: vec![],
        shared_edges: vec![],
    };
    assert!(prepare_rescue(&view, &rescue, 3, &mut Vec::new()).is_err());
}

#[test]
fn pair_frontier_proof_uses_distinct_in_range_atoms() {
    assert!(!pair_frontier_covers_all_unordered_pairs(&[0, 0], &[1], 4));
    assert!(!pair_frontier_covers_all_unordered_pairs(&[0, 1], &[4], 4));
    assert!(pair_frontier_covers_all_unordered_pairs(&[0, 2], &[1], 4));
    assert!(pair_frontier_covers_all_unordered_pairs(&[], &[], 1));
}

#[test]
fn exhaustive_evidence_requires_full_shared_pair_population() {
    assert!(!evidence_scan_is_exhaustive(
        true, true, 4_000_000, 10_000_000
    ));
    assert!(evidence_scan_is_exhaustive(
        true, true, 10_000_000, 10_000_000
    ));
    assert!(!evidence_scan_is_exhaustive(
        false, true, 10_000_000, 10_000_000
    ));
}

#[test]
fn shared_token_sample_stratifies_pair_work_across_both_partitions() {
    let offsets = vec![0, 2, 4, 20, 36];
    let sampled = stratified_active_token_sample(&offsets, 4);
    assert_eq!(sampled.len(), 4);
    let strata = |tokens: &[u32]| {
        tokens
            .iter()
            .map(|&token| shared_token_work_stratum(&offsets, token).unwrap())
            .collect::<std::collections::BTreeSet<_>>()
    };
    assert_eq!(
        strata(&sampled.iter().step_by(2).copied().collect::<Vec<_>>()).len(),
        2
    );
    assert_eq!(
        strata(
            &sampled
                .iter()
                .skip(1)
                .step_by(2)
                .copied()
                .collect::<Vec<_>>()
        )
        .len(),
        2
    );
}

#[test]
fn shared_token_sample_keeps_even_positions_without_retaining_all_tokens() {
    let offsets = (0..=10).map(|token| token * 2).collect::<Vec<_>>();

    assert_eq!(
        stratified_active_token_sample(&offsets, 4),
        vec![0, 2, 5, 7]
    );
}

#[test]
fn samples_spread_evenly_and_strata_are_logarithms() {
    assert_eq!(deterministic_sample(10, 4), vec![0, 2, 5, 7]);
    assert_eq!(deterministic_sample(3, 8), vec![0, 1, 2]);
    assert!(deterministic_sample(0, 8).is_empty());
    assert_eq!(shared_token_work_stratum(&[0, 1], 0), None);
    assert_eq!(shared_token_work_stratum(&[0, 2], 0), Some(0));
    assert_eq!(shared_token_work_stratum(&[0, 16], 0), Some(6));
    assert_eq!(shared_token_work_stratum(&[0, u64::MAX], 0), None);
    assert!(stratified_active_token_sample(&[0, 2], 0).is_empty());
}

#[test]
fn catalog_scores_one_representative_per_atom_pair_before_expansion() {
    let contracts = (0..16u32)
        .map(|id| (0, u32::from(id >= 8), vec![id]))
        .collect::<Vec<_>>();
    let view = features(&contracts, 2, &[(0..8).collect(), (8..16).collect()]);
    let asked = std::cell::Cell::new(0);
    let scorer = |_left: u32, _right: u32, _proven: bool| {
        asked.set(asked.get() + 1);
        true
    };
    assert_eq!(
        catalog_atom_score(&view, 0, 1, false, &scorer),
        catalog_atom_score(&view, 0, 1, true, &scorer),
        "hot-block template pushdown must preserve the exact scoring decision"
    );
    let mut edges = Vec::new();
    asked.set(0);

    let work = expand_catalog_atom_pair_streaming(&view, 0, 1, false, &scorer, 1, &mut edges);

    assert_eq!(work, 64);
    let edges = edges
        .iter()
        .map(|edge: &Edge| (edge.left, edge.right))
        .collect::<Vec<_>>();
    let expected = (8..16)
        .map(|right| (0, right))
        .chain((1..8).map(|left| (left, 8)))
        .collect::<Vec<_>>();
    assert_eq!(edges, expected);
    assert_eq!(edges.len(), 8 + 8 - 1);
    assert_eq!(asked.get(), 1);

    let mut planning_events = Vec::new();
    let _ = max_shared_group_index_bytes_with_progress(&view, &mut planning_events).unwrap();
    let terminal = planning_events.last().unwrap();
    assert_eq!(terminal.phase, ProgressPhase::PlanSharedTokenPairs);
    assert_eq!(terminal.completed, terminal.total.unwrap());
}

#[test]
fn token_members_that_match_are_connected_whatever_the_budget() {
    let contracts = vec![
        (0, 0, vec![0]),
        (0, 1, vec![0]),
        (1, 0, vec![0]),
        (1, 2, vec![0]),
    ];
    let view = features(&contracts, 3, &[]);
    let scorer = |left: u32, right: u32| left == right;
    for budget in [0, u64::MAX] {
        let mut broker = collectors(4, 1);
        let routes = vec![vec![(0, 1), (0, 2), (0, 3), (1, 2), (1, 3), (2, 3)]];
        append_shared_token_edges(
            &view,
            &routes,
            budget,
            16,
            &scorer,
            &mut broker,
            2,
            &mut Vec::new(),
        )
        .unwrap();
        let runs = broker.finish().unwrap();
        let cross = runs
            .cross
            .iter()
            .flat_map(|run| run.materialized_edges())
            .collect::<Vec<_>>();
        assert_eq!(cross, vec![Edge::new(0, 2)]);
        assert!(runs.intra.is_empty());
    }
}

#[test]
fn expansion_scratch_grows_with_the_largest_atom() {
    let contracts = (0..8u32).map(|id| (0, 0, vec![id])).collect::<Vec<_>>();
    let view = features(&contracts, 1, &[vec![0, 1, 2], vec![3, 4, 5, 6, 7]]);
    assert_eq!(
        max_catalog_expansion_scratch_bytes(&view, 3).unwrap(),
        5 * 16 + 3 * 48 + 4_194_304
    );
}

#[test]
fn a_run_connects_the_matches_of_all_stages() {
    let contracts = vec![
        (0, 0, vec![0]),
        (0, 0, vec![1]),
        (1, 1, vec![0]),
        (1, 1, vec![2]),
        (0, 2, vec![3]),
        (1, 3, vec![4]),
    ];
    let view = features(&contracts, 4, &[vec![0, 1], vec![2, 3], vec![4], vec![5]]);
    let jobs = CatalogJobs::resident(vec![JobDescriptor {
        job_id: 0,
        first_block: 0,
        block_count: 1,
        shape: JobShape::MicroBatch,
        risk: 0,
        rescue: 0,
        tile_row: 0,
        tile_col: 0,
        estimated_work: 1,
    }]);
    let order = vec![0];
    let routed = vec![RoutedJob {
        pairs: vec![(0, 1)],
        work: vec![1],
        totals: SerializableIndexMetrics::none(),
    }];
    let catalog = CatalogStage {
        jobs: &jobs,
        order: &order,
        routed: &routed,
        config: CatalogExecutionConfig {
            chain_count: 2,
            edge_batch: 32,
            dense_compaction_scratch_bytes: 4_096,
            bounded_mode: false,
        },
    };
    let routes = vec![Vec::new(); view.token_member_offsets.len() - 1];
    let shared = SharedStage {
        routes: &routes,
        group_index_budget_bytes: u64::MAX,
        max_cache_entries: 8,
    };
    let plan = RescueExecutionPlan {
        atom_score_visits: 0,
        contract_expansion_visits: 0,
        shared_score_visits: 0,
        matches: RescueMatches::Sorted {
            atom_pairs: vec![(2, 3)],
            shared_edges: Vec::new(),
        },
        matched_shared_edge_count: 0,
        stream_buffer_bytes: 0,
    };
    let base = Vec::new();
    let spill = RescueSpillWrite {
        atom: Vec::new(),
        shared: Vec::new(),
    };
    let rescue = RescueStage {
        plan: &plan,
        base: &base,
        spill: &spill,
        atom_path: "atom",
        shared_path: "shared",
        available: 1 << 20,
    };
    let mut reports = Vec::new();
    let run = connect_contracts(
        &view,
        2,
        &catalog,
        &shared,
        &rescue,
        &|left: u32, right: u32, _proven: bool| left + right == 1,
        &|_left: u32, _right: u32| false,
        collectors(6, 1),
        false,
        false,
        &mut reports,
    )
    .unwrap();
    assert_eq!(run.components.intra_roots.as_slice(), &[0, 0, 2, 2, 4, 5]);
    assert_eq!(run.components.cross_roots.as_slice(), &[0, 0, 0, 0, 4, 4]);
    let pair = &run.components.chain_pair_roots[0];
    assert_eq!(
        pair.expand_global_roots(&run.components).unwrap(),
        vec![0, 0, 0, 0, 4, 4]
    );
    assert!(run.candidate_pair_visits > 0);
    assert_eq!(
        reports.last().unwrap().phase,
        ProgressPhase::ReduceScopes
    );
}

#[test]
fn a_run_without_matches_succeeds() {
    let contracts = vec![(0, 0, vec![0]), (1, 1, vec![0]), (0, 2, vec![1])];
    let view = features(&contracts, 3, &[vec![0], vec![1], vec![2]]);
    let jobs = CatalogJobs::resident(vec![JobDescriptor {
        job_id: 0,
        first_block: 0,
        block_count: 1,
        shape: JobShape::MicroBatch,
        risk: 0,
        rescue: 0,
        tile_row: 0,
        tile_col: 0,
        estimated_work: 1,
    }]);
    let order = vec![0];
    let routed = vec![RoutedJob {
        pairs: vec![(0, 1), (1, 2)],
        work: vec![2],
        totals: SerializableIndexMetrics::none(),
    }];
    let routes = vec![Vec::new(); view.token_member_offsets.len() - 1];
    let plan = RescueExecutionPlan {
        atom_score_visits: 0,
        contract_expansion_visits: 0,
        shared_score_visits: 0,
        matches: RescueMatches::Sorted {
            atom_pairs: Vec::new(),
            shared_edges: Vec::new(),
        },
        matched_shared_edge_count: 0,
        stream_buffer_bytes: 0,
    };
    let mut reports = Vec::new();
    let run = connect_contracts(
        &view,
        2,
        &CatalogStage {
            jobs: &jobs,
            order: &order,
            routed: &routed,
            config: CatalogExecutionConfig {
                chain_count: 2,
                edge_batch: 32,
                dense_compaction_scratch_bytes: 4_096,
                bounded_mode: false,
            },
        },
        &SharedStage {
            routes: &routes,
            group_index_budget_bytes: u64::MAX,
            max_cache_entries: 8,
        },
        &RescueStage {
            plan: &plan,
            base: &Vec::new(),
            spill: &RescueSpillWrite {
                atom: Vec::new(),
                shared: Vec::new(),
            },
            atom_path: "atom",
            shared_path: "shared",
            available: 1 << 20,
        },
        &|_left: u32, _right: u32, _proven: bool| false,
        &|_left: u32, _right: u32| false,
        collectors(3, 1),
        false,
        false,
        &mut reports,
    )
    .unwrap();
    assert_eq!(run.components.intra_roots.as_slice(), &[0, 1, 2]);
    assert_eq!(run.components.cross_roots.as_slice(), &[0, 1, 2]);
    assert_eq!(run.accepted_edge_count, 0);
    assert_eq!(run.edge_count, 0);
    let catalog_events = reports
        .iter()
        .filter(|event| event.phase == ProgressPhase::CatalogPairs)
        .collect::<Vec<_>>();
    assert_eq!(catalog_events[0].completed, 0);
    assert!(catalog_events
        .iter()
        .all(|event| event.total.is_none() && event.total_kind == TotalKind::Unknown));
    assert!(reports
        .iter()
        .filter(|event| event.phase == ProgressPhase::SharedTokenPairs)
        .all(|event| event.total == Some(1) && event.total_kind == TotalKind::UpperBound));
}

#[test]
fn rescue_plan_work_is_emitted_in_bounded_chunks() {
    let mut pending = 0u64;
    let mut reports = Vec::new();
    for _ in 0..10 {
        reports.extend(record_rescue_plan_work(&mut pending, 4));
    }
    let terminal_work = take_rescue_plan_work(&mut pending);

    assert_eq!(reports, vec![4, 4]);
    assert_eq!(terminal_work, 2);
}
