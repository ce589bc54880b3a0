use metadata_engine::pipeline::chains::RootStorage;
use metadata_engine::pipeline::plans::SummaryMemoryPlan;
use metadata_engine::pipeline::scopes::{ChainPairRoots, ScopeComponents};
use metadata_engine::pipeline::summary::{SummaryChainSelection, SummaryEntry, SummaryStats};
use metadata_engine::pipeline::summary_rows::{
    build_summary_rows, summary_fallback_advisory, summary_stream_report_advisory,
    SummaryAllocation,
};
use metadata_engine::pipeline::summary_runs::{
    flush_summary_run, merge_all_runs, merge_summary_runs, read_summary_entry, sort_entries,
    write_summary_entry,
};
use metadata_engine::pipeline::summary_scope::{
    next_summary_chunk, summarize_entries_external, summarize_entries_without_allocation,
    summarize_sorted_entries, summary_entries, summary_stream_layout, SummaryChunkStep,
    SummaryRootView, SummaryStreamReport,
};
use metadata_engine::snapshot::features::{ChainTotal, FeatureReady, FeatureView};

fn features(chains: &[u32], weights: &[u64]) -> FeatureView {
    FeatureView {
        source_to_payload: Vec::new(),
        payload_template_offsets: vec![0],
        payload_template_terms: Vec::new(),
        payload_template_freqs: Vec::new(),
        payload_content_offsets: vec![0],
        payload_content_terms: Vec::new(),
        payload_content_freqs: Vec::new(),
        payload_template_sigs: Vec::new(),
        payload_content_sigs: Vec::new(),
        contract_token_offsets: vec![0; chains.len() + 1],
        contract_tokens: Vec::new(),
        token_member_offsets: vec![0],
        token_member_contracts: Vec::new(),
        token_member_sources: Vec::new(),
        payload_lengths: Vec::new(),
        query_denominators: Vec::new(),
        prepared_weight_offsets: vec![0],
        prepared_weights: Vec::new(),
        contract_source: vec![0; chains.len()],
        contract_chain: chains.to_vec(),
        contract_payload: vec![0; chains.len()],
        contract_weight: weights.to_vec(),
        fallback_atom_offsets: vec![0],
        fallback_atom_contracts: Vec::new(),
    }
}

fn ready() -> FeatureReady {
    FeatureReady {
        schema_revision: 3,
        source_count: 0,
        payload_count: 0,
        signature_bytes: 0,
        artifact_run_id: None,
        chains: vec!["a".into(), "b".into(), "c".into()],
        chain_totals: vec![
            ChainTotal {
                name: "a".into(),
                contracts: 3,
                nfts: 90,
            },
            ChainTotal {
                name: "b".into(),
                contracts: 2,
                nfts: 80,
            },
        ],
    }
}

#[derive(Default)]
struct Group {
    total: i64,
    primary: i64,
    primary_nfts: i64,
}

fn dense_summary_stats(
    roots: &[u32],
    contracts: &[(usize, bool, i64)],
    require_secondary: bool,
) -> SummaryStats {
    let mut groups = std::collections::BTreeMap::<u32, Group>::new();
    for &(contract, primary, nfts) in contracts {
        let group = groups.entry(roots[contract]).or_default();
        group.total += 1;
        if primary {
            group.primary += 1;
            group.primary_nfts = group.primary_nfts.saturating_add(nfts);
        }
    }
    let mut stats = SummaryStats::none();
    for group in groups.values() {
        let secondary = group.total > group.primary;
        if group.primary != 0 && group.total >= 2 && (!require_secondary || secondary) {
            stats.group_count += 1;
            stats.duplicate_contract_count += group.primary;
            stats.duplicate_nft_count = stats.duplicate_nft_count.saturating_add(group.primary_nfts);
            stats.group_size_ge_2_count += 1;
            stats.group_size_gt_2_count += i64::from(group.total > 2);
        }
    }
    stats
}

#[test]
fn dense_summary_scratch_matches_primary_secondary_group_semantics() {
    let roots = [0, 0, 0, 3];
    let contracts = [(0usize, true, 10i64), (1, true, 20), (2, false, 30)];
    let entries = contracts
        .iter()
        .map(|&(contract, primary, nfts)| SummaryEntry {
            root: roots[contract],
            chain: u32::from(!primary),
            nfts,
        })
        .collect::<Vec<_>>();
    let stats =
        summarize_sorted_entries(&entries, true, SummaryChainSelection::All(2))[0];

    assert_eq!(stats, dense_summary_stats(&roots, &contracts, true));
    assert_eq!(stats.group_count, 1);
    assert_eq!(stats.duplicate_contract_count, 2);
    assert_eq!(stats.duplicate_nft_count, 30);
    assert_eq!(stats.group_size_ge_2_count, 1);
    assert_eq!(stats.group_size_gt_2_count, 1);
}

#[test]
fn external_and_constant_memory_summaries_match_in_memory_sort() {
    let view = features(&[0, 0, 1, 2, 1, 0, 2], &[10, 20, 30, 40, 50, 60, 70]);
    let roots = [0, 0, 0, 3, 3, 5, 5];
    let cases = [
        (SummaryChainSelection::All(3), false),
        (SummaryChainSelection::All(3), true),
        (SummaryChainSelection::Pair { left: 0, right: 2 }, true),
    ];

    for (selection, require_secondary) in cases {
        let roots = SummaryRootView::Global {
            roots: &roots,
            selection,
        };
        let entries = sort_entries(&summary_entries(&view, &roots, &mut 0, &mut Vec::new()));
        let expected = summarize_sorted_entries(&entries, require_secondary, selection);

        let mut external_progress = 0u64;
        let (requested, _) = summary_stream_layout(64);
        let (external, report) = summarize_entries_external(
            &view,
            &roots,
            require_secondary,
            64,
            requested,
            &mut external_progress,
            &mut Vec::new(),
        );
        assert!(!report.emergency_no_alloc);
        assert_eq!(report.actual_chunk_entries, 3);
        assert_eq!(external_progress, roots.len() as u64);
        assert_eq!(external, expected);

        let mut no_alloc_progress = 0u64;
        let no_alloc = summarize_entries_without_allocation(
            &view,
            &roots,
            require_secondary,
            &mut no_alloc_progress,
            &mut Vec::new(),
        );
        assert_eq!(no_alloc_progress, roots.len() as u64);
        assert_eq!(no_alloc, expected);

        let (emergency, report) = summarize_entries_external(
            &view,
            &roots,
            require_secondary,
            64,
            0,
            &mut 0,
            &mut Vec::new(),
        );
        assert!(report.emergency_no_alloc);
        assert_eq!(emergency, expected);
    }
}

#[test]
fn sorted_scope_summary_matches_dense_chain_pair_semantics() {
    let roots = [0, 0, 0, 3, 3];
    let chains = [0usize, 0, 1, 0, 1];
    let nfts = [10i64, 20, 30, 40, 50];
    let mut entries = roots
        .iter()
        .copied()
        .enumerate()
        .map(|(contract, root)| SummaryEntry {
            root,
            chain: chains[contract] as u32,
            nfts: nfts[contract],
        })
        .collect::<Vec<_>>();
    entries.sort_unstable_by_key(|entry| (entry.root, entry.chain));
    let sorted = summarize_sorted_entries(
        &entries,
        true,
        SummaryChainSelection::Pair { left: 0, right: 1 },
    );

    for (primary, sorted_stats) in sorted.iter().enumerate() {
        let contracts = (0..roots.len())
            .map(|contract| (contract, chains[contract] == primary, nfts[contract]))
            .collect::<Vec<_>>();
        let dense = dense_summary_stats(&roots, &contracts, true);
        assert_eq!(*sorted_stats, dense);
    }
}

#[test]
fn three_chains_of_one_root_count_for_each_of_them() {
    let entries = (0..3)
        .map(|chain| SummaryEntry {
            root: 7,
            chain,
            nfts: i64::MAX,
        })
        .collect::<Vec<_>>();
    let stats = summarize_sorted_entries(&entries, true, SummaryChainSelection::All(3));
    for one in &stats {
        assert_eq!(one.group_count, 1);
        assert_eq!(one.duplicate_contract_count, 1);
        assert_eq!(one.group_size_gt_2_count, 1);
    }
    let within = summarize_sorted_entries(&entries, false, SummaryChainSelection::All(3));
    assert!(within.iter().all(|one| one.group_count == 0));
    let twice = vec![entries[0], entries[0]];
    let within = summarize_sorted_entries(&twice, false, SummaryChainSelection::All(1));
    assert_eq!(within[0].duplicate_nft_count, i64::MAX);
    assert_eq!(within[0].group_size_gt_2_count, 0);
}

#[test]
fn runs_are_read_as_they_were_written_and_merge_in_order() {
    let entry = SummaryEntry {
        root: 0x0102_0304,
        chain: 9,
        nfts: -2,
    };
    let mut bytes = Vec::new();
    write_summary_entry(&mut bytes, entry);
    assert_eq!(bytes.len(), 16);
    assert_eq!(&bytes[..8], &[4, 3, 2, 1, 9, 0, 0, 0]);
    assert_eq!(&bytes[8..], &(-2i64).to_le_bytes());
    assert_eq!(read_summary_entry(&bytes, 0), Some(entry));
    assert_eq!(read_summary_entry(&bytes, 1), None);

    let at = |root, chain, nfts| SummaryEntry { root, chain, nfts };
    let mut first = vec![at(4, 1, 1), at(0, 3, 2), at(4, 0, 3)];
    let mut second = vec![at(2, 0, 4), at(0, 3, 5)];
    let left = flush_summary_run(&mut first);
    let right = flush_summary_run(&mut second);
    assert!(first.is_empty());
    let merged = merge_summary_runs(&left, &right);
    let keys = (0..5)
        .map(|k| merged.read(k).unwrap())
        .map(|entry| (entry.root, entry.chain))
        .collect::<Vec<_>>();
    assert_eq!(keys, vec![(0, 3), (0, 3), (2, 0), (4, 0), (4, 1)]);
    assert!(merged.read(5).is_none());
    let mut third = vec![at(1, 1, 6)];
    let all = merge_all_runs(vec![left, right, flush_summary_run(&mut third)]);
    assert_eq!(all.read(2).unwrap(), at(1, 1, 6));
}

#[test]
fn parallel_sorting_orders_many_entries() {
    let entries = (0..20_000u32)
        .map(|k| SummaryEntry {
            root: (k * 7919) % 20_000,
            chain: k % 3,
            nfts: i64::from(k),
        })
        .collect::<Vec<_>>();
    let ordered = sort_entries(&entries);
    assert_eq!(ordered.len(), entries.len());
    assert!(ordered
        .windows(2)
        .all(|pair| (pair[0].root, pair[0].chain) <= (pair[1].root, pair[1].chain)));
    assert_ne!(ordered[1], entries[1]);
}

#[test]
fn layouts_leave_room_for_a_buffer() {
    assert_eq!(summary_stream_layout(0), (3, 16));
    assert_eq!(summary_stream_layout(64), (3, 16));
    assert_eq!(summary_stream_layout(1_048_576), (49_152, 262_144));
    assert_eq!(summary_stream_layout(64 * 1024 * 1024), (4_177_920, 262_144));
}

#[test]
fn chunks_are_halved_until_one_is_granted() {
    assert_eq!(next_summary_chunk(8, 8, Some(8)), SummaryChunkStep::Use(8));
    assert_eq!(next_summary_chunk(8, 8, Some(9)), SummaryChunkStep::Retry(4));
    assert_eq!(next_summary_chunk(8, 4, None), SummaryChunkStep::Retry(2));
    assert_eq!(next_summary_chunk(8, 1, None), SummaryChunkStep::GiveUp);
    assert_eq!(next_summary_chunk(0, 1, Some(4)), SummaryChunkStep::Use(1));
}

fn components() -> ScopeComponents {
    ScopeComponents {
        intra_roots: RootStorage::resident(vec![0, 0, 2, 2, 4]),
        cross_roots: RootStorage::resident(vec![0, 1, 0, 3, 4]),
        chain_pair_roots: vec![ChainPairRoots {
            left_chain: 0,
            right_chain: 1,
            left_contract_count: 3,
            roots: RootStorage::resident(vec![0, 1, 2, 0, 4]),
        }],
        chain_contract_offsets: RootStorage::resident(vec![0, 3, 5]),
        chain_contracts: RootStorage::resident(vec![0, 1, 4, 2, 3]),
    }
}

fn memory(primary: usize, pair: usize) -> SummaryMemoryPlan {
    SummaryMemoryPlan {
        parallel_primary_scopes: primary,
        parallel_pair_scopes: pair,
        primary_bytes_per_scope: 0,
        pair_bytes_per_scope: 0,
        peak_bytes: 0,
        stream_scratch_bytes: 1_048_576,
        stream_headroom_bytes: 0,
    }
}

fn granted(error: Option<&str>, chunk_entries: usize) -> SummaryAllocation {
    SummaryAllocation {
        entries_error: error.map(str::to_string),
        chunk_entries,
    }
}

#[test]
fn rows_count_chains_then_pairs_however_they_are_counted() {
    let view = features(&[0, 0, 1, 1, 0], &[10, 20, 30, 40, 50]);
    let mut seen = Vec::new();
    let ways = [
        (memory(1, 1), granted(None, 8)),
        (memory(1, 1), granted(Some("no room"), 2)),
        (memory(0, 0), granted(None, 1)),
        (memory(0, 0), granted(None, 0)),
    ];
    for (plan, allocation) in ways {
        let allocations = (0..3)
            .map(|_| {
                granted(
                    allocation.entries_error.as_deref(),
                    allocation.chunk_entries,
                )
            })
            .collect::<Vec<_>>();
        let mut advisories = Vec::new();
        let mut reports = Vec::new();
        let rows = build_summary_rows(
            &ready(),
            &view,
            &components(),
            2,
            &plan,
            &allocations,
            &mut advisories,
            &mut reports,
        )
        .unwrap();
        assert_eq!(reports.last().unwrap().completed, 15);
        seen.push((rows, advisories));
    }
    for (rows, _) in &seen {
        let shape = rows
            .iter()
            .map(|row| {
                (
                    row.scope.as_str(),
                    row.primary_chain.as_str(),
                    row.secondary_chain.as_str(),
                )
            })
            .collect::<Vec<_>>();
        assert_eq!(
            shape,
            vec![
                ("intra_chain", "a", ""),
                ("cross_chain_summary", "a", ""),
                ("intra_chain", "b", ""),
                ("cross_chain_summary", "b", ""),
                ("chain_matrix", "a", "b"),
                ("chain_matrix", "b", "a"),
            ]
        );
        assert_eq!(rows[0].total_contracts, 3);
        assert_eq!(rows[0].group_count, 1);
        assert_eq!(rows[0].duplicate_contract_count, 2);
        assert_eq!(rows[0].duplicate_nft_count, 30);
        assert_eq!(rows[0].group_size_gt_2_count, 0);
        assert_eq!(rows[1].group_count, 1);
        assert_eq!(rows[1].duplicate_nft_count, 10);
        assert_eq!(rows[2].duplicate_nft_count, 70);
        assert_eq!(rows[3].duplicate_nft_count, 30);
        assert_eq!(rows[4].duplicate_nft_count, 10);
        assert_eq!(rows[5].duplicate_nft_count, 30);
    }
    assert!(seen[0].1.is_empty());
    assert_eq!(seen[1].1.len(), 3);
    assert!(seen[1].1[2].contains("pair-0-1: no room"));
    assert!(seen[2].1[0].contains("was reduced from 49152 to 1 entries"));
    assert!(seen[3].1[1].contains("failed for cross; used the exact"));
}

#[test]
fn pairs_whose_lists_do_not_fit_are_refused() {
    let view = features(&[0, 0, 1, 1, 0], &[1; 5]);
    let allocations = vec![granted(None, 1), granted(None, 1), granted(None, 1)];
    let fails = |scopes: &ScopeComponents| {
        let error = build_summary_rows(
            &ready(),
            &view,
            scopes,
            2,
            &memory(1, 1),
            &allocations,
            &mut Vec::new(),
            &mut Vec::new(),
        )
        .unwrap_err();
        format!("{error:?}")
    };
    let mut scopes = components();
    scopes.chain_pair_roots[0].left_contract_count = 2;
    assert!(fails(&scopes).contains("pair-local left chain cardinality mismatch"));
    let mut scopes = components();
    scopes.chain_pair_roots[0].roots = RootStorage::resident(vec![0, 1]);
    assert!(fails(&scopes).contains("pair-local roots do not match the two chain CSR slices"));
    let mut scopes = components();
    scopes.chain_pair_roots[0].right_chain = 2;
    assert!(fails(&scopes).contains("missing right chain CSR slice"));
    let mut scopes = components();
    scopes.chain_contract_offsets = RootStorage::resident(vec![0]);
    assert!(fails(&scopes).contains("missing left chain CSR slice"));
}

#[test]
fn advisories_say_how_the_scope_was_counted() {
    let report = SummaryStreamReport {
        requested_chunk_entries: 8,
        actual_chunk_entries: 3,
        emergency_no_alloc: false,
    };
    assert_eq!(
        summary_fallback_advisory("intra", "no room", report),
        "metadata summary fast allocation failed for intra: no room; switched to bounded external merge with 3 entries per chunk (requested 8) and the pipeline continued"
    );
    assert_eq!(
        summary_stream_report_advisory("cross", report).unwrap(),
        "metadata summary external chunk allocation for cross was reduced from 8 to 3 entries; bounded merge continued"
    );
    let full = SummaryStreamReport {
        actual_chunk_entries: 8,
        ..report
    };
    assert!(summary_stream_report_advisory("cross", full).is_none());
}
