//! Progress of the engine's phases.

use vstd::prelude::*;

verus! {

/// A phase of the engine.
#[derive(Debug, Clone, Copy, PartialEq, Eq, Hash, Structural)]
pub enum ProgressPhase {
    EncodeCollectTokenSources,
    EncodeTokenSources,
    EncodePrepareFallbackTokenSources,
    EncodeTokenFallbackSources,
    EncodeResolveTokenMemberships,
    EncodeLoadTokenSources,
    EncodeLoadTokenMemberships,
    EncodeSortTokenMemberships,
    EncodeReadRepresentatives,
    EncodeRegisterPayloads,
    EncodeResolveFallbacks,
    EncodeParseUniquePayloads,
    EncodeBuildTermDictionary,
    EncodeBuildColumns,
    EncodeBuildAtoms,
    EncodeRows,
    EncodeFallbackSources,
    EncodeFinalize,
    EncodePersist,
    EncodePublish,
    BlockingCompile,
    BlockingFinalize,
    OpenSnapshot,
    BuildCatalog,
    PairExactIsland,
    PairExactFinalize,
    PairExactHoldout,
    PairExactHoldoutFinalize,
    SharedTokenExactIsland,
    SharedTokenExactFinalize,
    FallbackPairs,
    CatalogPairs,
    PlanSharedTokenPairs,
    SharedTokenPairs,
    PrepareRescuePairs,
    PlanRescuePairs,
    FinalizeRescuePlan,
    RescuePairs,
    EdgeDispatch,
    FinalizeEdgeCollectors,
    CommitConnectivityRuns,
    ReduceScopes,
    FinalizeComponents,
    BuildRecoveryChain,
    CommitComponents,
    BuildSummary,
    CommitArtifacts,
}

impl ProgressPhase {
    /// What the phase is called.
    pub open spec fn label_text(self) -> Seq<char> {
        match self {
            ProgressPhase::EncodeCollectTokenSources => "collect retained-token sources"@,
            ProgressPhase::EncodeTokenSources => "classify retained-token sources"@,
            ProgressPhase::EncodePrepareFallbackTokenSources => "prepare retained-token fallback sources"@,
            ProgressPhase::EncodeTokenFallbackSources => "classify retained-token fallback sources"@,
            ProgressPhase::EncodeResolveTokenMemberships => "resolve retained-token memberships"@,
            ProgressPhase::EncodeLoadTokenSources => "load retained-token source documents"@,
            ProgressPhase::EncodeLoadTokenMemberships => "load retained-token memberships"@,
            ProgressPhase::EncodeSortTokenMemberships => "sort retained-token memberships"@,
            ProgressPhase::EncodeReadRepresentatives => "read representative rows"@,
            ProgressPhase::EncodeRegisterPayloads => "register unique payloads"@,
            ProgressPhase::EncodeResolveFallbacks => "resolve fallback sources"@,
            ProgressPhase::EncodeParseUniquePayloads => "parse unique payloads"@,
            ProgressPhase::EncodeBuildTermDictionary => "build term dictionary"@,
            ProgressPhase::EncodeBuildColumns => "build encode columns"@,
            ProgressPhase::EncodeBuildAtoms => "build encode atoms"@,
            ProgressPhase::EncodeRows => "encode representative rows"@,
            ProgressPhase::EncodeFallbackSources => "resolve fallback metadata sources"@,
            ProgressPhase::EncodeFinalize => "finalize encoded features"@,
            ProgressPhase::EncodePersist => "persist encoded features"@,
            ProgressPhase::EncodePublish => "publish encoded snapshot"@,
            ProgressPhase::BlockingCompile => "compile blocking"@,
            ProgressPhase::BlockingFinalize => "finalize blocking artifacts"@,
            ProgressPhase::OpenSnapshot => "open snapshot"@,
            ProgressPhase::BuildCatalog => "build catalog"@,
            ProgressPhase::PairExactIsland => "pair exact island"@,
            ProgressPhase::PairExactFinalize => "finalize pair exact evidence"@,
            ProgressPhase::PairExactHoldout => "pair exact holdout"@,
            ProgressPhase::PairExactHoldoutFinalize => "finalize pair exact holdout"@,
            ProgressPhase::SharedTokenExactIsland => "shared-token exact island"@,
            ProgressPhase::SharedTokenExactFinalize => "finalize shared-token exact evidence"@,
            ProgressPhase::FallbackPairs => "fallback pairs"@,
            ProgressPhase::CatalogPairs => "catalog pairs"@,
            ProgressPhase::PlanSharedTokenPairs => "plan shared-token pairs"@,
            ProgressPhase::SharedTokenPairs => "shared-token pairs"@,
            ProgressPhase::PrepareRescuePairs => "prepare rescue pairs"@,
            ProgressPhase::PlanRescuePairs => "plan rescue pairs"@,
            ProgressPhase::FinalizeRescuePlan => "finalize rescue plan"@,
            ProgressPhase::RescuePairs => "frozen rescue pairs"@,
            ProgressPhase::EdgeDispatch => "edge dispatch"@,
            ProgressPhase::FinalizeEdgeCollectors => "finalize edge collectors"@,
            ProgressPhase::CommitConnectivityRuns => "commit connectivity runs"@,
            ProgressPhase::ReduceScopes => "reduce scopes"@,
            ProgressPhase::FinalizeComponents => "finalize components"@,
            ProgressPhase::BuildRecoveryChain => "build recovery snapshot chain"@,
            ProgressPhase::CommitComponents => "commit component snapshots"@,
            ProgressPhase::BuildSummary => "build metadata summary"@,
            ProgressPhase::CommitArtifacts => "commit artifacts"@,
        }
    }

    pub fn label(self) -> (label: &'static str)
        ensures
            label@ == self.label_text(),
    {
        match self {
            ProgressPhase::EncodeCollectTokenSources => "collect retained-token sources",
            ProgressPhase::EncodeTokenSources => "classify retained-token sources",
            ProgressPhase::EncodePrepareFallbackTokenSources => "prepare retained-token fallback sources",
            ProgressPhase::EncodeTokenFallbackSources => "classify retained-token fallback sources",
            ProgressPhase::EncodeResolveTokenMemberships => "resolve retained-token memberships",
            ProgressPhase::EncodeLoadTokenSources => "load retained-token source documents",
            ProgressPhase::EncodeLoadTokenMemberships => "load retained-token memberships",
            ProgressPhase::EncodeSortTokenMemberships => "sort retained-token memberships",
            ProgressPhase::EncodeReadRepresentatives => "read representative rows",
            ProgressPhase::EncodeRegisterPayloads => "register unique payloads",
            ProgressPhase::EncodeResolveFallbacks => "resolve fallback sources",
            ProgressPhase::EncodeParseUniquePayloads => "parse unique payloads",
            ProgressPhase::EncodeBuildTermDictionary => "build term dictionary",
            ProgressPhase::EncodeBuildColumns => "build encode columns",
            ProgressPhase::EncodeBuildAtoms => "build encode atoms",
            ProgressPhase::EncodeRows => "encode representative rows",
            ProgressPhase::EncodeFallbackSources => "resolve fallback metadata sources",
            ProgressPhase::EncodeFinalize => "finalize encoded features",
            ProgressPhase::EncodePersist => "persist encoded features",
            ProgressPhase::EncodePublish => "publish encoded snapshot",
            ProgressPhase::BlockingCompile => "compile blocking",
            ProgressPhase::BlockingFinalize => "finalize blocking artifacts",
            ProgressPhase::OpenSnapshot => "open snapshot",
            ProgressPhase::BuildCatalog => "build catalog",
            ProgressPhase::PairExactIsland => "pair exact island",
            ProgressPhase::PairExactFinalize => "finalize pair exact evidence",
            ProgressPhase::PairExactHoldout => "pair exact holdout",
            ProgressPhase::PairExactHoldoutFinalize => "finalize pair exact holdout",
            ProgressPhase::SharedTokenExactIsland => "shared-token exact island",
            ProgressPhase::SharedTokenExactFinalize => "finalize shared-token exact evidence",
            ProgressPhase::FallbackPairs => "fallback pairs",
            ProgressPhase::CatalogPairs => "catalog pairs",
            ProgressPhase::PlanSharedTokenPairs => "plan shared-token pairs",
            ProgressPhase::SharedTokenPairs => "shared-token pairs",
            ProgressPhase::PrepareRescuePairs => "prepare rescue pairs",
            ProgressPhase::PlanRescuePairs => "plan rescue pairs",
            ProgressPhase::FinalizeRescuePlan => "finalize rescue plan",
            ProgressPhase::RescuePairs => "frozen rescue pairs",
            ProgressPhase::EdgeDispatch => "edge dispatch",
            ProgressPhase::FinalizeEdgeCollectors => "finalize edge collectors",
            ProgressPhase::CommitConnectivityRuns => "commit connectivity runs",
            ProgressPhase::ReduceScopes => "reduce scopes",
            ProgressPhase::FinalizeComponents => "finalize components",
            ProgressPhase::BuildRecoveryChain => "build recovery snapshot chain",
            ProgressPhase::CommitComponents => "commit component snapshots",
            ProgressPhase::BuildSummary => "build metadata summary",
            ProgressPhase::CommitArtifacts => "commit artifacts",
        }
    }
}

/// What work is counted in.
#[derive(Debug, Clone, Copy, PartialEq, Eq, Structural)]
pub enum WorkUnit {
    Work,
    Items,
    Pairs,
    Edges,
    Nodes,
    Bytes,
    Files,
}

/// Stable cost dimensions by which progress is aggregated across phases. A class describes
/// one kind of work.
#[derive(Debug, Clone, Copy, PartialEq, Eq, Hash, Structural)]
pub enum WorkClass {
    Generic,
    SnapshotBytes,
    ScanItems,
    CatalogRoutes,
    AtomScores,
    ContractExpansions,
    SharedScores,
    ReduceItems,
    ArtifactBytes,
    ArtifactFiles,
}

/// Whether a phase total can support a finite estimate of the time left.
#[derive(Debug, Clone, Copy, PartialEq, Eq, Hash, Structural)]
pub enum TotalKind {
    Exact,
    UpperBound,
    Estimate,
    Unknown,
}

impl WorkUnit {
    /// What the unit is called.
    pub open spec fn label_text(self) -> Seq<char> {
        match self {
            WorkUnit::Work => "work"@,
            WorkUnit::Items => "items"@,
            WorkUnit::Pairs => "pairs"@,
            WorkUnit::Edges => "edges"@,
            WorkUnit::Nodes => "nodes"@,
            WorkUnit::Bytes => "bytes"@,
            WorkUnit::Files => "files"@,
        }
    }

    pub fn label(self) -> (label: &'static str)
        ensures
            label@ == self.label_text(),
    {
        match self {
            WorkUnit::Work => "work",
            WorkUnit::Items => "items",
            WorkUnit::Pairs => "pairs",
            WorkUnit::Edges => "edges",
            WorkUnit::Nodes => "nodes",
            WorkUnit::Bytes => "bytes",
            WorkUnit::Files => "files",
        }
    }
}

/// What has been found so far.
#[derive(Debug, Clone, Copy, PartialEq, Eq, Structural)]
pub struct ProgressCounters {
    pub candidates: u64,
    pub scored: u64,
    pub expanded: u64,
    pub matched: u64,
    pub groups: u64,
}

impl Default for ProgressCounters {
    fn default() -> (counters: ProgressCounters)
        ensures
            counters == (ProgressCounters {
                candidates: 0,
                scored: 0,
                expanded: 0,
                matched: 0,
                groups: 0,
            }),
    {
        ProgressCounters { candidates: 0, scored: 0, expanded: 0, matched: 0, groups: 0 }
    }
}

/// One report of progress.
#[derive(Debug, Clone, Copy, PartialEq, Eq, Structural)]
pub struct ProgressEvent {
    pub phase: ProgressPhase,
    pub completed: u64,
    pub total: Option<u64>,
    pub unit: WorkUnit,
    pub work_class: WorkClass,
    pub total_kind: TotalKind,
    pub counters: ProgressCounters,
}

impl ProgressEvent {
    /// Progress towards an exact total. The completed work is kept as it is, even beyond the
    /// total.
    pub fn determinate(
        phase: ProgressPhase,
        completed: u64,
        total: u64,
        unit: WorkUnit,
        counters: ProgressCounters,
    ) -> (event: ProgressEvent)
        ensures
            event == (ProgressEvent {
                phase,
                completed,
                total: Some(total),
                unit,
                work_class: WorkClass::Generic,
                total_kind: TotalKind::Exact,
                counters,
            }),
    {
        ProgressEvent {
            phase,
            completed,
            total: Some(total),
            unit,
            work_class: WorkClass::Generic,
            total_kind: TotalKind::Exact,
            counters,
        }
    }

    /// Progress without a known total.
    pub fn indeterminate(
        phase: ProgressPhase,
        completed: u64,
        unit: WorkUnit,
        counters: ProgressCounters,
    ) -> (event: ProgressEvent)
        ensures
            event == (ProgressEvent {
                phase,
                completed,
                total: None,
                unit,
                work_class: WorkClass::Generic,
                total_kind: TotalKind::Unknown,
                counters,
            }),
    {
        ProgressEvent {
            phase,
            completed,
            total: None,
            unit,
            work_class: WorkClass::Generic,
            total_kind: TotalKind::Unknown,
            counters,
        }
    }

    /// The same progress under another work class and kind of total.
    pub fn with_plan(self, work_class: WorkClass, total_kind: TotalKind) -> (event: ProgressEvent)
        ensures
            event == (ProgressEvent { work_class, total_kind, ..self }),
    {
        ProgressEvent {
            phase: self.phase,
            completed: self.completed,
            total: self.total,
            unit: self.unit,
            work_class,
            total_kind,
            counters: self.counters,
        }
    }

    /// How far the completed work exceeds an exact total, if it does.
    pub fn exact_total_overrun(self) -> (overrun: Option<u64>)
        ensures
            overrun == (match self.total {
                Some(total) if self.total_kind == TotalKind::Exact && self.completed > total => Some(
                    (self.completed - total) as u64,
                ),
                _ => None::<u64>,
            }),
    {
        match self.total {
            Some(total) => {
                if self.total_kind == TotalKind::Exact && self.completed > total {
                    Some(self.completed - total)
                } else {
                    None
                }
            },
            None => None,
        }
    }
}

} // verus!
