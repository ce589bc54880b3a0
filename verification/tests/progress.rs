use metadata_engine::progress::{
    ProgressCounters, ProgressEvent, ProgressPhase, TotalKind, WorkClass, WorkUnit,
};

fn no_counters() -> ProgressCounters {
    ProgressCounters {
        candidates: 0,
        scored: 0,
        expanded: 0,
        matched: 0,
        groups: 0,
    }
}

#[test]
fn exact_progress_preserves_and_reports_plan_overrun() {
    let event = ProgressEvent::determinate(
        ProgressPhase::CatalogPairs,
        11,
        10,
        WorkUnit::Pairs,
        no_counters(),
    );

    assert_eq!(event.completed, 11);
    assert_eq!(event.exact_total_overrun(), Some(1));
}

#[test]
fn unknown_progress_cannot_claim_a_finite_total() {
    let event = ProgressEvent::indeterminate(
        ProgressPhase::SharedTokenPairs,
        3,
        WorkUnit::Pairs,
        no_counters(),
    );

    assert_eq!(event.total, None);
    assert_eq!(event.total_kind, TotalKind::Unknown);
    assert_eq!(event.exact_total_overrun(), None);
}

#[test]
fn a_plan_replaces_the_class_of_work_and_keeps_the_counts() {
    let event = ProgressEvent::determinate(
        ProgressPhase::CommitConnectivityRuns,
        2,
        5,
        WorkUnit::Files,
        no_counters(),
    )
    .with_plan(WorkClass::ArtifactFiles, TotalKind::Exact);
    assert_eq!(event.work_class, WorkClass::ArtifactFiles);
    assert_eq!(event.total_kind, TotalKind::Exact);
    assert_eq!(event.completed, 2);
    assert_eq!(event.total, Some(5));
    assert_eq!(event.exact_total_overrun(), None);
}

#[test]
fn every_label_is_its_own() {
    assert_eq!(ProgressPhase::PrepareRescuePairs.label(), "prepare rescue pairs");
    assert_eq!(ProgressPhase::FinalizeComponents.label(), "finalize components");
    assert_ne!(WorkUnit::Pairs.label(), WorkUnit::Edges.label());
}
