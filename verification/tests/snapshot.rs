use metadata_engine::pipeline::admission::check_identities;
use metadata_engine::digest::{digest_hex, hash_u32};
use metadata_engine::identity::checked_u32_identity;
use metadata_engine::scheduler::catalog::{
    estimate_catalog_contract_pair_work, job_routing_pair_work, UniverseBudget, WorkCatalog,
};
use metadata_engine::scheduler::jobs::{JobShape, SchedulerError};
use metadata_engine::scheduler::recall::{CoverageCertificate, RecallPlan};
use metadata_engine::snapshot::blocking::BlockingView;
use metadata_engine::snapshot::error::SnapshotError;
use metadata_engine::snapshot::features::{ChainTotal, FeatureReady, FeatureView};
use metadata_engine::snapshot::metadata::{BlockingReady, MetadataSnapshot, SNAPSHOT_COLUMNS};
use metadata_engine::text::{decimal, hex_digest};

fn ready() -> FeatureReady {
    FeatureReady {
        schema_revision: 3,
        source_count: 3,
        payload_count: 2,
        signature_bytes: 1,
        artifact_run_id: None,
        chains: vec!["a".into(), "b".into()],
        chain_totals: vec![
            ChainTotal {
                name: "a".into(),
                contracts: 2,
                nfts: 2,
            },
            ChainTotal {
                name: "b".into(),
                contracts: 1,
                nfts: 1,
            },
        ],
    }
}

fn features() -> FeatureView {
    let one = 1.0f64.to_bits();
    FeatureView {
        source_to_payload: vec![0, 0, 1],
        payload_template_offsets: vec![0, 1, 2],
        payload_template_terms: vec![1, 3],
        payload_template_freqs: vec![1, 1],
        payload_content_offsets: vec![0, 1, 2],
        payload_content_terms: vec![2, 4],
        payload_content_freqs: vec![1, 1],
        payload_template_sigs: vec![0, 0],
        payload_content_sigs: vec![0, 0],
        contract_token_offsets: vec![0, 1, 2, 3],
        contract_tokens: vec![0, 0, 1],
        token_member_offsets: vec![0, 2, 3],
        token_member_contracts: vec![0, 1, 2],
        token_member_sources: vec![0, 1, 2],
        payload_lengths: vec![1, 1],
        query_denominators: vec![one, one],
        prepared_weight_offsets: vec![0, 1, 2],
        prepared_weights: vec![one, one],
        contract_source: vec![0, 1, 2],
        contract_chain: vec![0, 0, 1],
        contract_payload: vec![0, 0, 1],
        contract_weight: vec![1, 1, 1],
        fallback_atom_offsets: vec![0, 2, 3],
        fallback_atom_contracts: vec![0, 1, 2],
    }
}

fn blocking() -> BlockingView {
    BlockingView {
        primary_storage_shards: vec![0, 0],
        template_simhashes: vec![0, 0],
        content_simhashes: vec![0, 0],
        routing_statuses: vec![0, 0],
        atom_block_offsets: vec![0, 1, 2],
        atom_block_ids: vec![0, 0],
        block_atom_offsets: vec![0, 2],
        block_atoms: vec![0, 1],
        block_kinds: vec![0],
        block_keys: vec![7],
    }
}

fn blocking_ready() -> BlockingReady {
    BlockingReady {
        blocking_revision: 3,
        atom_count: 2,
        artifact_run_id: None,
    }
}

fn open(
    ready: FeatureReady,
    features: FeatureView,
    blocking: BlockingView,
) -> Result<MetadataSnapshot, SnapshotError> {
    MetadataSnapshot::open(
        ready,
        blocking_ready(),
        features,
        blocking,
        vec![Vec::new(); SNAPSHOT_COLUMNS],
    )
}

fn fault(result: Result<MetadataSnapshot, SnapshotError>) -> String {
    match result {
        Ok(_) => panic!("the snapshot is consistent"),
        Err(SnapshotError::Invariant(text)) => text,
        Err(SnapshotError::Revision { artifact, .. }) => format!("revision of {artifact}"),
    }
}

#[test]
fn a_consistent_snapshot_opens_and_keeps_its_counts() {
    let snapshot = open(ready(), features(), blocking()).unwrap();
    assert_eq!(snapshot.atom_count(), 2);
    assert_eq!(snapshot.contract_count(), 3);
    assert_eq!(snapshot.chain_names().len(), 2);
    assert_eq!(snapshot.fingerprint().len(), 64);
    let again = open(ready(), features(), blocking()).unwrap();
    assert_eq!(snapshot.fingerprint(), again.fingerprint());
    let mut other = ready();
    other.chain_totals[0].nfts = 9;
    let other = open(other, features(), blocking()).unwrap();
    assert_ne!(snapshot.fingerprint(), other.fingerprint());
}

#[test]
fn inconsistent_columns_are_refused() {
    let mut bad = ready();
    bad.schema_revision = 2;
    assert!(fault(open(bad, features(), blocking())).starts_with("revision of"));
    let mut bad = ready();
    bad.source_count = 4;
    assert_eq!(fault(open(bad, features(), blocking())), "source_count");
    let mut bad = features();
    bad.contract_payload[1] = 1;
    assert_eq!(
        fault(open(ready(), bad, blocking())),
        "contract source/payload identity mismatch"
    );
    let mut bad = features();
    bad.prepared_weights[0] = f64::INFINITY.to_bits();
    assert_eq!(
        fault(open(ready(), bad, blocking())),
        "invalid prepared template weight"
    );
    let mut bad = features();
    bad.payload_template_freqs[0] = 0;
    assert_eq!(
        fault(open(ready(), bad, blocking())),
        "payload term frequency must be positive"
    );
    let mut bad = features();
    bad.contract_tokens[1] = 1;
    assert_eq!(
        fault(open(ready(), bad, blocking())),
        "token membership directions disagree"
    );
    let mut bad = features();
    bad.contract_chain[2] = 5;
    assert_eq!(
        fault(open(ready(), bad, blocking())),
        "contract references missing chain"
    );
    let mut bad = ready();
    bad.chains[1] = "a".into();
    assert_eq!(
        fault(open(bad, features(), blocking())),
        "chain identities are empty or duplicated"
    );
    let mut bad = blocking();
    bad.atom_block_offsets = vec![0, 0, 1];
    bad.atom_block_ids = vec![0];
    assert_eq!(
        fault(open(ready(), features(), bad)),
        "routable atom 0 has no block membership"
    );
}

#[test]
fn columns_are_reported_as_far_as_they_are_read() {
    let sizes = vec![10; SNAPSHOT_COLUMNS];
    let mut reports = Vec::new();
    MetadataSnapshot::open_with_progress(
        ready(),
        blocking_ready(),
        features(),
        blocking(),
        vec![Vec::new(); SNAPSHOT_COLUMNS],
        &sizes,
        &mut reports,
    )
    .unwrap();
    assert_eq!(reports, sizes);
    assert_eq!(
        MetadataSnapshot::verification_bytes(&sizes).unwrap(),
        10 * SNAPSHOT_COLUMNS as u64
    );
    assert!(MetadataSnapshot::verification_bytes(&vec![u64::MAX, 1]).is_err());
}

#[test]
fn a_catalog_covers_its_blocks_and_is_bound_to_its_snapshot() {
    let snapshot = open(ready(), features(), blocking()).unwrap();
    let budget = UniverseBudget {
        max_jobs: 10,
        max_catalog_bytes: u64::MAX,
        cold_members_per_job: 262_144,
    };
    let catalog = WorkCatalog::build(&snapshot, budget, 1_000).unwrap();
    assert_eq!(catalog.jobs.len(), 1);
    let job = catalog.jobs.get(0).unwrap();
    assert_eq!(job.shape, JobShape::MicroBatch);
    assert_eq!(job.block_count, 1);
    assert_eq!(job_routing_pair_work(&snapshot, &job).unwrap(), 1);
    assert_eq!(estimate_catalog_contract_pair_work(&snapshot).unwrap(), 2);
    let hot = WorkCatalog::build(&snapshot, budget, 1).unwrap();
    assert_eq!(hot.jobs.get(0).unwrap().shape, JobShape::LeftTileFanout);
    assert_eq!(
        WorkCatalog::descriptor_count(&snapshot, budget, 1_000).unwrap(),
        1
    );
    let tight = UniverseBudget {
        max_jobs: 0,
        ..budget
    };
    assert!(matches!(
        WorkCatalog::build(&snapshot, tight, 1_000),
        Err(SchedulerError::Budget { .. })
    ));
    let (stored, columns) = catalog.commit().unwrap();
    let opened = WorkCatalog::open(stored, columns, &snapshot).unwrap();
    assert!(opened.jobs.same_jobs(&catalog.jobs));
    let mut other = ready();
    other.chain_totals[0].nfts = 9;
    let other = open(other, features(), blocking()).unwrap();
    let (stored, columns) = catalog.commit().unwrap();
    assert!(matches!(
        WorkCatalog::open(stored, columns, &other),
        Err(SchedulerError::StaleCoverage)
    ));
}

#[test]
fn a_current_catalog_with_corrupt_columns_is_refused() {
    let snapshot = open(ready(), features(), blocking()).unwrap();
    let budget = UniverseBudget {
        max_jobs: 10,
        max_catalog_bytes: u64::MAX,
        cold_members_per_job: 262_144,
    };
    let catalog = WorkCatalog::build(&snapshot, budget, 1_000).unwrap();
    let mut reports = Vec::new();
    let reopened = WorkCatalog::open_or_rebuild_with_progress(
        Some(catalog.commit().unwrap()),
        &snapshot,
        budget,
        1_000,
        &mut reports,
    )
    .unwrap();
    assert!(reopened.jobs.same_jobs(&catalog.jobs));
    assert!(reports.is_empty());

    let (stored, mut columns) = catalog.commit().unwrap();
    columns.flags[0] = 7;
    assert!(matches!(
        WorkCatalog::open_or_rebuild_with_progress(
            Some((stored, columns)),
            &snapshot,
            budget,
            1_000,
            &mut reports,
        ),
        Err(SchedulerError::StaleCoverage)
    ));
    let (stored, mut columns) = catalog.commit().unwrap();
    columns.block_counts.push(1);
    assert!(matches!(
        WorkCatalog::open_or_rebuild_with_progress(
            Some((stored, columns)),
            &snapshot,
            budget,
            1_000,
            &mut reports,
        ),
        Err(SchedulerError::StaleCoverage)
    ));
    assert!(reports.is_empty());

    let (mut stale, columns) = catalog.commit().unwrap();
    stale.snapshot_fingerprint = "another".to_string();
    let rebuilt = WorkCatalog::open_or_rebuild_with_progress(
        Some((stale, columns)),
        &snapshot,
        budget,
        1_000,
        &mut reports,
    )
    .unwrap();
    assert!(rebuilt.jobs.same_jobs(&catalog.jobs));
    assert!(!reports.is_empty());
}

#[test]
fn a_recall_plan_is_frozen_and_a_certificate_is_of_one_frontier() {
    let snapshot = open(ready(), features(), blocking()).unwrap();
    let budget = UniverseBudget {
        max_jobs: 10,
        max_catalog_bytes: u64::MAX,
        cold_members_per_job: 262_144,
    };
    let catalog = WorkCatalog::build(&snapshot, budget, 1_000).unwrap();
    let plan = RecallPlan::freeze(&catalog, vec![1, 0], Vec::new());
    assert!(plan.frozen);
    assert_eq!(plan.ordered_job_ids, vec![0]);
    assert_eq!(plan.snapshot_fingerprint, snapshot.fingerprint());
    let certificate = CoverageCertificate::issue(&catalog, 0, &[1, 2]);
    certificate.validate(&catalog, &[1, 2]).unwrap();
    assert!(matches!(
        certificate.validate(&catalog, &[2, 1]),
        Err(SchedulerError::StaleCoverage)
    ));
}

#[test]
fn digests_and_texts_are_the_usual_ones() {
    assert_eq!(
        digest_hex(&b"abc".to_vec()),
        "ba7816bf8f01cfea414140de5dae2223b00361a396177a9cb410ff61f20015ad"
    );
    assert_eq!(
        hash_u32(&[]),
        "e3b0c44298fc1c149afbf4c8996fb92427ae41e4649b934ca495991b7852b855"
    );
    assert_eq!(hex_digest(&[0, 255, 16]), "00ff10");
    assert_eq!(decimal(0), "0");
    assert_eq!(decimal(u64::MAX), "18446744073709551615");
    assert_eq!(checked_u32_identity("contracts", 7).unwrap(), 7);
    assert!(checked_u32_identity("contracts", 1 << 32).is_err());
}

#[test]
fn identities_beyond_32_bits_are_named() {
    let mut snapshot = open(ready(), features(), blocking()).unwrap();
    assert!(check_identities(&snapshot).is_ok());
    snapshot.blocking_ready.atom_count = 1 << 33;
    let overflow = check_identities(&snapshot).unwrap_err();
    assert_eq!((overflow.what, overflow.count), ("atoms", 1 << 33));
}
