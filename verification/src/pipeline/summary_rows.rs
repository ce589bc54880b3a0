//! The rows of the duplicate summary.

use crate::pipeline::catalog;
use crate::pipeline::error::{invariant_error, PipelineError, PipelineFault};
use crate::pipeline::plans::SummaryMemoryPlan;
use crate::pipeline::scopes::{ChainPairRoots, ScopeComponents};
use crate::pipeline::summary;
use crate::pipeline::summary::{SummaryChainSelection, SummaryEntry, SummaryStats};
use crate::pipeline::summary_runs::sort_entries;
use crate::pipeline::summary_scope;
use crate::pipeline::summary_scope::{
    summarize_entries_external, summarize_sorted_entries, summary_entries, SummaryRootView,
    SummaryStreamReport,
};
use crate::progress::{ProgressCounters, ProgressEvent, ProgressPhase, WorkUnit};
use crate::snapshot::features::{FeatureReady, FeatureView};
use crate::text;
use crate::text::decimal;
use vstd::prelude::*;
use vstd::string::*;

verus! {

/// Where a scope is counted.
#[derive(Debug, Clone, Copy, PartialEq, Eq, Structural)]
pub enum SummaryExecutionMode {
    /// In memory.
    Fast,
    /// In bounded space.
    Streaming,
}

impl SummaryExecutionMode {
    /// In memory where a lane was affordable.
    pub fn from_fast_lanes(lanes: usize) -> (mode: SummaryExecutionMode)
        ensures
            mode == mode_of(lanes),
    {
        if lanes == 0 {
            SummaryExecutionMode::Streaming
        } else {
            SummaryExecutionMode::Fast
        }
    }
}

/// What the allocator granted a scope.
#[derive(Debug)]
pub struct SummaryAllocation {
    /// Why its entries could not be kept in memory.
    pub entries_error: Option<String>,
    /// The entries of a chunk, none where not even one could be had.
    pub chunk_entries: usize,
}

/// What is told of a scope whose entries could not be kept in memory.
pub open spec fn fallback_advisory(
    label: Seq<char>,
    error: Seq<char>,
    report: SummaryStreamReport,
) -> Seq<char> {
    let head = "metadata summary fast allocation failed for "@ + label + ": "@ + error;
    if report.emergency_no_alloc {
        head
            + "; bounded external scratch allocation also failed, so the scope used the exact constant-memory multi-pass fallback and the pipeline continued"@
    } else {
        head + "; switched to bounded external merge with "@ + text::decimal_text(
            report.actual_chunk_entries as nat,
        ) + " entries per chunk (requested "@ + text::decimal_text(
            report.requested_chunk_entries as nat,
        ) + ") and the pipeline continued"@
    }
}

/// What is told of a scope whose entries could not be kept in memory.
pub fn summary_fallback_advisory(label: &str, error: &str, report: SummaryStreamReport) -> (text:
    String)
    ensures
        text@ == fallback_advisory(label@, error@, report),
{
    let head = "metadata summary fast allocation failed for ".to_owned().concat(label).concat(
        ": ",
    ).concat(error);
    if report.emergency_no_alloc {
        head.concat(
            "; bounded external scratch allocation also failed, so the scope used the exact constant-memory multi-pass fallback and the pipeline continued",
        )
    } else {
        head.concat("; switched to bounded external merge with ").concat(
            decimal(report.actual_chunk_entries as u64).as_str(),
        ).concat(" entries per chunk (requested ").concat(
            decimal(report.requested_chunk_entries as u64).as_str(),
        ).concat(") and the pipeline continued")
    }
}

/// What is told of a scope that was counted in bounded space.
pub open spec fn stream_advisory(label: Seq<char>, report: SummaryStreamReport) -> Option<
    Seq<char>,
> {
    if report.emergency_no_alloc {
        Some(
            "metadata summary external scratch allocation failed for "@ + label
                + "; used the exact constant-memory multi-pass fallback and the pipeline continued"@,
        )
    } else if report.actual_chunk_entries < report.requested_chunk_entries {
        Some(
            "metadata summary external chunk allocation for "@ + label + " was reduced from "@
                + text::decimal_text(report.requested_chunk_entries as nat) + " to "@
                + text::decimal_text(report.actual_chunk_entries as nat)
                + " entries; bounded merge continued"@,
        )
    } else {
        None
    }
}

/// The text, where there is one.
pub open spec fn text_of(text: Option<String>) -> Option<Seq<char>> {
    match text {
        Some(text) => Some(text@),
        None => None,
    }
}

/// What is told of a scope that was counted in bounded space.
pub fn summary_stream_report_advisory(label: &str, report: SummaryStreamReport) -> (text: Option<
    String,
>)
    ensures
        text_of(text) == stream_advisory(label@, report),
{
    if report.emergency_no_alloc {
        Some(
            "metadata summary external scratch allocation failed for ".to_owned().concat(
                label,
            ).concat(
                "; used the exact constant-memory multi-pass fallback and the pipeline continued",
            ),
        )
    } else if report.actual_chunk_entries < report.requested_chunk_entries {
        Some(
            "metadata summary external chunk allocation for ".to_owned().concat(label).concat(
                " was reduced from ",
            ).concat(decimal(report.requested_chunk_entries as u64).as_str()).concat(" to ").concat(
                decimal(report.actual_chunk_entries as u64).as_str(),
            ).concat(" entries; bounded merge continued"),
        )
    } else {
        None
    }
}

/// How a scope of so much scratch is counted externally.
pub open spec fn stream_report(scratch_bytes: u64, chunk_entries: usize) -> SummaryStreamReport {
    SummaryStreamReport {
        requested_chunk_entries: summary_scope::stream_layout(
            if scratch_bytes > usize::MAX {
                usize::MAX as int
            } else {
                scratch_bytes as int
            },
        ).0 as usize,
        actual_chunk_entries: chunk_entries,
        emergency_no_alloc: chunk_entries == 0,
    }
}

/// What is told of a scope.
pub open spec fn scope_advisory(
    label: Seq<char>,
    mode: SummaryExecutionMode,
    scratch_bytes: u64,
    allocation: SummaryAllocation,
) -> Option<Seq<char>> {
    let report = stream_report(scratch_bytes, allocation.chunk_entries);
    match (mode, allocation.entries_error) {
        (SummaryExecutionMode::Fast, None) => None,
        (SummaryExecutionMode::Fast, Some(error)) => Some(
            fallback_advisory(label, error@, report),
        ),
        (SummaryExecutionMode::Streaming, _) => stream_advisory(label, report),
    }
}

/// The stats of a scope, and what is told of it.
pub struct SummaryComputation {
    pub stats: Vec<SummaryStats>,
    pub advisory: Option<String>,
}

/// Counts a scope. However it is counted, the counts are the same.
pub fn summarize_scope(
    features: &FeatureView,
    roots: &SummaryRootView,
    require_secondary: bool,
    label: &str,
    mode: SummaryExecutionMode,
    scratch_bytes: u64,
    allocation: &SummaryAllocation,
    completed: &mut u64,
    reports: &mut Vec<ProgressEvent>,
) -> (result: SummaryComputation)
    requires
        roots.fits(*features),
    ensures
        summary::are_stats(
            result.stats@,
            roots.selection_of(),
            roots.entries(*features),
            require_secondary,
        ),
        text_of(result.advisory) == scope_advisory(label@, mode, scratch_bytes, *allocation),
        *final(completed) == summary_scope::saturated(*old(completed) + roots.roots_of().len()),
        catalog::tells_open(
            final(reports)@,
            old(reports)@,
            ProgressPhase::BuildSummary,
            WorkUnit::Nodes,
        ),
{
    match mode {
        SummaryExecutionMode::Fast => {
            match &allocation.entries_error {
                None => {
                    let entries: Vec<SummaryEntry> = summary_entries(
                        features,
                        roots,
                        completed,
                        reports,
                    );
                    proof {
                        summary_scope::lemma_entries(
                            *roots,
                            *features,
                            roots.roots_of().len() as int,
                        );
                    }
                    let ordered = sort_entries(&entries);
                    let stats = summarize_sorted_entries(
                        &ordered,
                        require_secondary,
                        roots.selection(),
                    );
                    proof {
                        summary_scope::lemma_stats_order(
                            stats@,
                            roots.selection_of(),
                            entries@,
                            ordered@,
                            require_secondary,
                        );
                    }
                    SummaryComputation { stats, advisory: None }
                },
                Some(error) => {
                    let (stats, report) = summarize_entries_external(
                        features,
                        roots,
                        require_secondary,
                        scratch_bytes,
                        allocation.chunk_entries,
                        completed,
                        reports,
                    );
                    SummaryComputation {
                        stats,
                        advisory: Some(summary_fallback_advisory(label, error.as_str(), report)),
                    }
                },
            }
        },
        SummaryExecutionMode::Streaming => {
            let (stats, report) = summarize_entries_external(
                features,
                roots,
                require_secondary,
                scratch_bytes,
                allocation.chunk_entries,
                completed,
                reports,
            );
            SummaryComputation { stats, advisory: summary_stream_report_advisory(label, report) }
        },
    }
}

/// Why the roots of a pair of chains cannot be counted.
pub open spec fn pair_fault(scopes: ScopeComponents, pair: ChainPairRoots) -> Option<Seq<char>> {
    match (scopes.row(pair.left_chain as int), scopes.row(pair.right_chain as int)) {
        (None, _) => Some("missing left chain CSR slice"@),
        (_, None) => Some("missing right chain CSR slice"@),
        (Some(left), Some(right)) => if left.len() != pair.left_contract_count {
            Some("pair-local left chain cardinality mismatch"@)
        } else if pair.roots@.len() != left.len() + right.len() {
            Some("pair-local roots do not match the two chain CSR slices"@)
        } else {
            None
        },
    }
}

/// The entry of the contract at a position of a pair of chains.
pub open spec fn pair_entry(
    features: FeatureView,
    pair: ChainPairRoots,
    left: Seq<u32>,
    right: Seq<u32>,
    local: int,
) -> Option<SummaryEntry> {
    let is_left = local < left.len();
    let contract = if is_left {
        left[local]
    } else {
        right[local - left.len()]
    };
    if local < left.len() + right.len() && contract < features.contract_weight@.len() {
        Some(
            SummaryEntry {
                root: pair.roots@[local],
                chain: if is_left {
                    pair.left_chain
                } else {
                    pair.right_chain
                },
                nfts: summary_scope::token_count(features.contract_weight@[contract as int]),
            },
        )
    } else {
        None
    }
}

/// The entries of the first `count` contracts of a pair of chains.
pub open spec fn pair_entries(
    features: FeatureView,
    pair: ChainPairRoots,
    left: Seq<u32>,
    right: Seq<u32>,
    count: int,
) -> Seq<SummaryEntry>
    decreases count,
{
    if count <= 0 {
        Seq::empty()
    } else {
        match pair_entry(features, pair, left, right, count - 1) {
            Some(entry) => pair_entries(features, pair, left, right, count - 1).push(entry),
            None => pair_entries(features, pair, left, right, count - 1),
        }
    }
}

proof fn lemma_pair_entries(
    view: SummaryRootView,
    features: FeatureView,
    pair: ChainPairRoots,
    left: Seq<u32>,
    right: Seq<u32>,
    count: int,
)
    requires
        view matches SummaryRootView::PairLocal {
            roots,
            left_chain,
            right_chain,
            left_contracts,
            right_contracts,
        } && roots@ == pair.roots@ && left_chain == pair.left_chain && right_chain
            == pair.right_chain && left_contracts@ == left && right_contracts@ == right,
        0 <= count <= pair.roots@.len(),
    ensures
        view.entries_below(features, count) == pair_entries(features, pair, left, right, count),
    decreases count,
{
    if count > 0 {
        lemma_pair_entries(view, features, pair, left, right, count - 1);
        assert(view.entry_of(features, count - 1) == pair_entry(
            features,
            pair,
            left,
            right,
            count - 1,
        ));
    }
}

/// The entries of a pair of chains.
pub open spec fn entries_of_pair(
    features: FeatureView,
    scopes: ScopeComponents,
    pair: ChainPairRoots,
) -> Seq<SummaryEntry> {
    pair_entries(
        features,
        pair,
        scopes.row(pair.left_chain as int)->0,
        scopes.row(pair.right_chain as int)->0,
        pair.roots@.len() as int,
    )
}

/// Every root is a position.
pub open spec fn are_positions(roots: Seq<u32>) -> bool {
    &&& roots.len() <= u32::MAX
    &&& forall|i: int| 0 <= i < roots.len() ==> (#[trigger] roots[i]) < roots.len()
}

/// Counts the duplicates between two chains.
pub fn summary_stats_for_chain_pair(
    features: &FeatureView,
    scopes: &ScopeComponents,
    pair: &ChainPairRoots,
    mode: SummaryExecutionMode,
    scratch_bytes: u64,
    allocation: &SummaryAllocation,
    completed: &mut u64,
    reports: &mut Vec<ProgressEvent>,
) -> (result: Result<SummaryComputation, PipelineError>)
    requires
        features.contract_weight@.len() == features.contract_chain@.len(),
        are_positions(pair.roots@),
    ensures
        match pair_fault(*scopes, *pair) {
            Some(text) => result matches Err(e) && e@ == PipelineFault::Invariant(text),
            None => result matches Ok(computed) && summary::are_stats(
                computed.stats@,
                SummaryChainSelection::Pair { left: pair.left_chain, right: pair.right_chain },
                entries_of_pair(*features, *scopes, *pair),
                true,
            ) && text_of(computed.advisory) == scope_advisory(
                pair_label(*pair),
                mode,
                scratch_bytes,
                *allocation,
            ),
        },
        catalog::tells_open(
            final(reports)@,
            old(reports)@,
            ProgressPhase::BuildSummary,
            WorkUnit::Nodes,
        ),
        *final(completed) == if result is Ok {
            summary_scope::saturated(*old(completed) + pair.roots@.len())
        } else {
            *old(completed) as int
        },
{
    proof {
        assert(reports@.take(reports@.len() as int) =~= reports@);
    }
    let left: &[u32] = match scopes.contracts_for_chain(pair.left_chain) {
        Some(row) => row,
        None => {
            return Err(invariant_error("missing left chain CSR slice"));
        },
    };
    let right: &[u32] = match scopes.contracts_for_chain(pair.right_chain) {
        Some(row) => row,
        None => {
            return Err(invariant_error("missing right chain CSR slice"));
        },
    };
    if left.len() != pair.left_contract_count as usize {
        return Err(invariant_error("pair-local left chain cardinality mismatch"));
    }
    let view = match SummaryRootView::pair(
        pair.roots.as_slice(),
        pair.left_chain,
        pair.right_chain,
        left,
        right,
    ) {
        Ok(view) => view,
        Err(error) => {
            return Err(error);
        },
    };
    let label = "pair-".to_owned().concat(decimal(pair.left_chain as u64).as_str()).concat(
        "-",
    ).concat(decimal(pair.right_chain as u64).as_str());
    proof {
        lemma_pair_entries(view, *features, *pair, left@, right@, pair.roots@.len() as int);
    }
    Ok(
        summarize_scope(
            features,
            &view,
            true,
            label.as_str(),
            mode,
            scratch_bytes,
            allocation,
            completed,
            reports,
        ),
    )
}

/// The name of a pair of chains in what is told.
pub open spec fn pair_label(pair: ChainPairRoots) -> Seq<char> {
    "pair-"@ + text::decimal_text(pair.left_chain as nat) + "-"@ + text::decimal_text(
        pair.right_chain as nat,
    )
}

/// A row of the summary.
#[derive(Debug)]
pub struct MetadataSummaryRow {
    pub scope: String,
    pub primary_chain: String,
    pub secondary_chain: String,
    pub total_contracts: i64,
    pub total_nfts: i64,
    pub group_count: i64,
    pub duplicate_contract_count: i64,
    pub duplicate_nft_count: i64,
    pub group_size_ge_2_count: i64,
    pub group_size_gt_2_count: i64,
}

impl MetadataSummaryRow {
    /// The counts of the row.
    pub open spec fn stats(self) -> SummaryStats {
        SummaryStats {
            group_count: self.group_count,
            duplicate_contract_count: self.duplicate_contract_count,
            duplicate_nft_count: self.duplicate_nft_count,
            group_size_ge_2_count: self.group_size_ge_2_count,
            group_size_gt_2_count: self.group_size_gt_2_count,
        }
    }

    /// The row is that of a chain, or of a chain beside another.
    pub open spec fn is_of(
        self,
        ready: FeatureReady,
        scope: Seq<char>,
        primary: int,
        secondary: Option<int>,
    ) -> bool {
        &&& self.scope@ == scope
        &&& self.primary_chain@ == (if primary < ready.chains@.len() {
            ready.chains@[primary]@
        } else {
            "chain-"@ + text::decimal_text(primary as nat)
        })
        &&& self.secondary_chain@ == (match secondary {
            Some(chain) => if chain < ready.chains@.len() {
                ready.chains@[chain]@
            } else {
                ""@
            },
            None => ""@,
        })
        &&& self.total_contracts == (if primary < ready.chain_totals@.len() {
            ready.chain_totals@[primary].contracts
        } else {
            0
        })
        &&& self.total_nfts == (if primary < ready.chain_totals@.len() {
            ready.chain_totals@[primary].nfts
        } else {
            0
        })
    }
}

/// The row of a chain, or of a chain beside another.
pub fn summary_row_from_stats(
    ready: &FeatureReady,
    scope: &str,
    primary: usize,
    secondary: Option<usize>,
    stats: SummaryStats,
) -> (row: MetadataSummaryRow)
    ensures
        row.stats() == stats,
        row.is_of(
            *ready,
            scope@,
            primary as int,
            match secondary {
                Some(chain) => Some(chain as int),
                None => None,
            },
        ),
{
    let name = if primary < ready.chains.len() {
        ready.chains[primary].as_str().to_owned()
    } else {
        "chain-".to_owned().concat(decimal(primary as u64).as_str())
    };
    let other = match secondary {
        Some(chain) => if chain < ready.chains.len() {
            ready.chains[chain].as_str().to_owned()
        } else {
            "".to_owned()
        },
        None => "".to_owned(),
    };
    let (total_contracts, total_nfts): (i64, i64) = if primary < ready.chain_totals.len() {
        (ready.chain_totals[primary].contracts, ready.chain_totals[primary].nfts)
    } else {
        (0, 0)
    };
    MetadataSummaryRow {
        scope: scope.to_owned(),
        primary_chain: name,
        secondary_chain: other,
        total_contracts,
        total_nfts,
        group_count: stats.group_count,
        duplicate_contract_count: stats.duplicate_contract_count,
        duplicate_nft_count: stats.duplicate_nft_count,
        group_size_ge_2_count: stats.group_size_ge_2_count,
        group_size_gt_2_count: stats.group_size_gt_2_count,
    }
}

/// The view of roots that every contract has.
pub open spec fn entries_of_roots(features: FeatureView, roots: Seq<u32>, chain_count: int, count: int) -> Seq<
    SummaryEntry,
>
    decreases count,
{
    if count <= 0 {
        Seq::empty()
    } else {
        let before = entries_of_roots(features, roots, chain_count, count - 1);
        let chain = features.contract_chain@[count - 1];
        if count - 1 < features.contract_chain@.len() && chain < chain_count {
            before.push(
                SummaryEntry {
                    root: roots[count - 1],
                    chain,
                    nfts: summary_scope::token_count(features.contract_weight@[count - 1]),
                },
            )
        } else {
            before
        }
    }
}

proof fn lemma_global_entries(
    view: SummaryRootView,
    features: FeatureView,
    roots: Seq<u32>,
    chain_count: usize,
    count: int,
)
    requires
        view matches SummaryRootView::Global { roots: held, selection } && held@ == roots
            && selection == SummaryChainSelection::All(chain_count),
        0 <= count <= roots.len(),
    ensures
        view.entries_below(features, count) == entries_of_roots(
            features,
            roots,
            chain_count as int,
            count,
        ),
    decreases count,
{
    if count > 0 {
        lemma_global_entries(view, features, roots, chain_count, count - 1);
    }
}

/// The entries of the contracts of all chains, by the roots of a scope.
pub open spec fn scope_entries(features: FeatureView, roots: Seq<u32>, chain_count: int) -> Seq<
    SummaryEntry,
> {
    entries_of_roots(features, roots, chain_count, roots.len() as int)
}

/// Counts the duplicates of every chain in a scope.
pub fn summary_stats_by_chain(
    features: &FeatureView,
    roots: &[u32],
    chain_count: usize,
    require_secondary: bool,
    label: &str,
    mode: SummaryExecutionMode,
    scratch_bytes: u64,
    allocation: &SummaryAllocation,
    completed: &mut u64,
    reports: &mut Vec<ProgressEvent>,
) -> (result: SummaryComputation)
    requires
        features.contract_weight@.len() == features.contract_chain@.len(),
        are_positions(roots@),
        chain_count <= u32::MAX,
    ensures
        summary::are_stats(
            result.stats@,
            SummaryChainSelection::All(chain_count),
            scope_entries(*features, roots@, chain_count as int),
            require_secondary,
        ),
        text_of(result.advisory) == scope_advisory(label@, mode, scratch_bytes, *allocation),
        *final(completed) == summary_scope::saturated(*old(completed) + roots@.len()),
        catalog::tells_open(
            final(reports)@,
            old(reports)@,
            ProgressPhase::BuildSummary,
            WorkUnit::Nodes,
        ),
{
    let view = SummaryRootView::Global {
        roots,
        selection: SummaryChainSelection::All(chain_count),
    };
    proof {
        lemma_global_entries(view, *features, roots@, chain_count, roots@.len() as int);
    }
    summarize_scope(
        features,
        &view,
        require_secondary,
        label,
        mode,
        scratch_bytes,
        allocation,
        completed,
        reports,
    )
}

/// Every scope has roots that are positions.
pub open spec fn have_positions(scopes: ScopeComponents) -> bool {
    &&& are_positions(scopes.intra_roots@)
    &&& are_positions(scopes.cross_roots@)
    &&& forall|k: int|
        0 <= k < scopes.chain_pair_roots@.len() ==> are_positions(
            (#[trigger] scopes.chain_pair_roots@[k]).roots@,
        )
}

/// The rows of each chain: within chains and, where there are others, across chains.
pub open spec fn rows_per_chain(chain_count: int) -> int {
    if chain_count > 1 {
        2
    } else {
        1
    }
}

/// The rows of a chain count its duplicates.
pub open spec fn counts_chain(
    rows: Seq<MetadataSummaryRow>,
    ready: FeatureReady,
    features: FeatureView,
    scopes: ScopeComponents,
    chain_count: int,
    chain: int,
) -> bool {
    let at = chain * rows_per_chain(chain_count);
    &&& at + rows_per_chain(chain_count) <= rows.len()
    &&& rows[at].is_of(ready, "intra_chain"@, chain, None)
    &&& rows[at].stats().counts(
        summary::chain_totals(
            scope_entries(features, scopes.intra_roots@, chain_count),
            false,
            chain,
        ),
    )
    &&& chain_count > 1 ==> {
        &&& rows[at + 1].is_of(ready, "cross_chain_summary"@, chain, None)
        &&& rows[at + 1].stats().counts(
            summary::chain_totals(
                scope_entries(features, scopes.cross_roots@, chain_count),
                true,
                chain,
            ),
        )
    }
}

/// The two rows from `at` on count the duplicates between two chains.
pub open spec fn counts_pair(
    rows: Seq<MetadataSummaryRow>,
    ready: FeatureReady,
    features: FeatureView,
    scopes: ScopeComponents,
    at: int,
    k: int,
) -> bool {
    let pair = scopes.chain_pair_roots@[k];
    let entries = entries_of_pair(features, scopes, pair);
    let left = pair.left_chain as int;
    let right = pair.right_chain as int;
    &&& at + 2 <= rows.len()
    &&& rows[at].is_of(ready, "chain_matrix"@, left, Some(right))
    &&& rows[at].stats().counts(summary::chain_totals(entries, true, left))
    &&& rows[at + 1].is_of(ready, "chain_matrix"@, right, Some(left))
    &&& left != right ==> rows[at + 1].stats().counts(summary::chain_totals(entries, true, right))
}

/// The rows of the summary: those of each chain, then those of each pair of chains.
pub open spec fn are_summary_rows(
    rows: Seq<MetadataSummaryRow>,
    ready: FeatureReady,
    features: FeatureView,
    scopes: ScopeComponents,
    chain_count: int,
) -> bool {
    let first = chain_count * rows_per_chain(chain_count);
    &&& rows.len() == first + 2 * scopes.chain_pair_roots@.len()
    &&& forall|chain: int|
        0 <= chain < chain_count ==> #[trigger] counts_chain(
            rows,
            ready,
            features,
            scopes,
            chain_count,
            chain,
        )
    &&& forall|k: int|
        0 <= k < scopes.chain_pair_roots@.len() ==> #[trigger] counts_pair(
            rows,
            ready,
            features,
            scopes,
            first + 2 * k,
            k,
        )
}

proof fn lemma_rows_grow(
    before: Seq<MetadataSummaryRow>,
    rows: Seq<MetadataSummaryRow>,
    ready: FeatureReady,
    features: FeatureView,
    scopes: ScopeComponents,
    chain_count: int,
    chain: int,
)
    requires
        before.len() <= rows.len(),
        rows.take(before.len() as int) == before,
        chain >= 0,
        counts_chain(before, ready, features, scopes, chain_count, chain),
    ensures
        counts_chain(rows, ready, features, scopes, chain_count, chain),
{
    let at = chain * rows_per_chain(chain_count);
    assert(at >= 0) by (nonlinear_arith)
        requires
            chain >= 0,
            at == chain * rows_per_chain(chain_count),
            rows_per_chain(chain_count) >= 0,
    ;
    assert(rows.take(before.len() as int)[at] == rows[at]);
    if chain_count > 1 {
        assert(rows.take(before.len() as int)[at + 1] == rows[at + 1]);
    }
}

/// What is told of a scope: within chains, across chains where there are others, then the pairs.
pub open spec fn advisory_of(
    scopes: ScopeComponents,
    chain_count: int,
    memory: SummaryMemoryPlan,
    allocations: Seq<SummaryAllocation>,
    scope: int,
) -> Option<Seq<char>> {
    let primary = mode_of(memory.parallel_primary_scopes);
    let pair = mode_of(memory.parallel_pair_scopes);
    let scratch = memory.stream_scratch_bytes;
    if scope == 0 {
        scope_advisory("intra"@, primary, scratch, allocations[0])
    } else if scope == 1 {
        if chain_count > 1 {
            scope_advisory("cross"@, primary, scratch, allocations[1])
        } else {
            None
        }
    } else {
        scope_advisory(
            pair_label(scopes.chain_pair_roots@[scope - 2]),
            pair,
            scratch,
            allocations[scope],
        )
    }
}

/// In memory where a lane was affordable.
pub open spec fn mode_of(lanes: usize) -> SummaryExecutionMode {
    if lanes == 0 {
        SummaryExecutionMode::Streaming
    } else {
        SummaryExecutionMode::Fast
    }
}

/// What is told of the first `count` scopes, in order.
pub open spec fn advisories_below(
    scopes: ScopeComponents,
    chain_count: int,
    memory: SummaryMemoryPlan,
    allocations: Seq<SummaryAllocation>,
    count: int,
) -> Seq<Seq<char>>
    decreases count,
{
    if count <= 0 {
        Seq::empty()
    } else {
        let before = advisories_below(scopes, chain_count, memory, allocations, count - 1);
        match advisory_of(scopes, chain_count, memory, allocations, count - 1) {
            Some(text) => before.push(text),
            None => before,
        }
    }
}

/// The texts.
pub open spec fn texts_of(texts: Seq<String>) -> Seq<Seq<char>> {
    Seq::new(texts.len(), |i: int| texts[i]@)
}

fn tell(advisory: Option<String>, advisories: &mut Vec<String>)
    ensures
        texts_of(final(advisories)@) == (match text_of(advisory) {
            Some(text) => texts_of(old(advisories)@).push(text),
            None => texts_of(old(advisories)@),
        }),
{
    let ghost before = texts_of(advisories@);
    if let Some(text) = advisory {
        advisories.push(text);
        assert(texts_of(advisories@) =~= before.push(text@));
    }
}

/// The fault is that of the first pair of chains that cannot be counted.
pub open spec fn is_first_fault(scopes: ScopeComponents, k: int, fault: PipelineFault) -> bool {
    &&& 0 <= k < scopes.chain_pair_roots@.len()
    &&& pair_fault(scopes, scopes.chain_pair_roots@[k]) is Some
    &&& fault == PipelineFault::Invariant(pair_fault(scopes, scopes.chain_pair_roots@[k])->0)
    &&& forall|j: int|
        0 <= j < k ==> pair_fault(scopes, #[trigger] scopes.chain_pair_roots@[j]) is None
}

/// The rows of the summary. `allocations` says what the allocator granted each scope: within
/// chains, across chains, then the pairs. How the scopes are counted changes no row.
#[verifier::loop_isolation(false)]
#[verifier::rlimit(40)]
pub fn build_summary_rows(
    ready: &FeatureReady,
    features: &FeatureView,
    scopes: &ScopeComponents,
    chain_count: usize,
    memory: &SummaryMemoryPlan,
    allocations: &Vec<SummaryAllocation>,
    advisories: &mut Vec<String>,
    reports: &mut Vec<ProgressEvent>,
) -> (result: Result<Vec<MetadataSummaryRow>, PipelineError>)
    requires
        features.contract_weight@.len() == features.contract_chain@.len(),
        have_positions(*scopes),
        chain_count <= u32::MAX,
        chain_count * 2 <= usize::MAX,
        allocations@.len() == scopes.chain_pair_roots@.len() + 2,
    ensures
        match result {
            Ok(rows) => {
                &&& are_summary_rows(rows@, *ready, *features, *scopes, chain_count as int)
                &&& forall|k: int|
                    0 <= k < scopes.chain_pair_roots@.len() ==> pair_fault(
                        *scopes,
                        #[trigger] scopes.chain_pair_roots@[k],
                    ) is None
                &&& texts_of(final(advisories)@) == texts_of(old(advisories)@) + advisories_below(
                    *scopes,
                    chain_count as int,
                    *memory,
                    allocations@,
                    scopes.chain_pair_roots@.len() as int + 2,
                )
            },
            Err(e) => exists|k: int| #[trigger] is_first_fault(*scopes, k, e@),
        },
        catalog::tells_open(
            final(reports)@,
            old(reports)@,
            ProgressPhase::BuildSummary,
            WorkUnit::Nodes,
        ),
{
    let ghost told = reports@;
    let ghost heard = texts_of(advisories@);
    let counters = ProgressCounters {
        candidates: 0,
        scored: 0,
        expanded: 0,
        matched: 0,
        groups: 0,
    };
    reports.push(
        ProgressEvent::indeterminate(ProgressPhase::BuildSummary, 0, WorkUnit::Nodes, counters),
    );
    assert(reports@.take(told.len() as int) =~= told);
    let mut completed: u64 = 0;
    let primary_mode = SummaryExecutionMode::from_fast_lanes(memory.parallel_primary_scopes);
    let pair_mode = SummaryExecutionMode::from_fast_lanes(memory.parallel_pair_scopes);
    let scratch_bytes: u64 = memory.stream_scratch_bytes;
    let ghost c = chain_count as int;
    let ghost per = rows_per_chain(c);
    let ghost intra_told = reports@;
    let intra = summary_stats_by_chain(
        features,
        scopes.intra_roots.as_slice(),
        chain_count,
        false,
        "intra",
        primary_mode,
        scratch_bytes,
        &allocations[0],
        &mut completed,
        reports,
    );
    proof {
        catalog::lemma_tells_open(
            reports@,
            intra_told,
            told,
            ProgressPhase::BuildSummary,
            WorkUnit::Nodes,
        );
    }
    let cross: Option<SummaryComputation> = if chain_count > 1 {
        let ghost cross_told = reports@;
        let computed = summary_stats_by_chain(
            features,
            scopes.cross_roots.as_slice(),
            chain_count,
            true,
            "cross",
            primary_mode,
            scratch_bytes,
            &allocations[1],
            &mut completed,
            reports,
        );
        proof {
            catalog::lemma_tells_open(
                reports@,
                cross_told,
                told,
                ProgressPhase::BuildSummary,
                WorkUnit::Nodes,
            );
        }
        Some(computed)
    } else {
        None
    };
    tell(intra.advisory, advisories);
    let (cross_stats, cross_advisory): (Vec<SummaryStats>, Option<String>) = match cross {
        Some(computed) => (computed.stats, computed.advisory),
        None => (Vec::new(), None),
    };
    tell(cross_advisory, advisories);
    proof {
        reveal_with_fuel(advisories_below, 3);
        assert(texts_of(advisories@) =~= heard + advisories_below(
            *scopes,
            c,
            *memory,
            allocations@,
            2,
        ));
    }
    let mut rows: Vec<MetadataSummaryRow> = Vec::new();
    let mut chain: usize = 0;
    assert(0 * per == 0) by (nonlinear_arith);
    while chain < chain_count
        invariant
            chain <= chain_count,
            rows@.len() == chain * per,
            forall|i: int|
                0 <= i < chain ==> #[trigger] counts_chain(
                    rows@,
                    *ready,
                    *features,
                    *scopes,
                    c,
                    i,
                ),
        decreases chain_count - chain,
    {
        let ghost before = rows@;
        proof {
            assert(SummaryChainSelection::All(chain_count).slot_of(chain as int) == Some(
                chain as int,
            ));
            assert((chain + 1) * per == chain * per + per) by (nonlinear_arith);
        }
        rows.push(
            summary_row_from_stats(ready, "intra_chain", chain, None, intra.stats[chain]),
        );
        if chain_count > 1 {
            rows.push(
                summary_row_from_stats(
                    ready,
                    "cross_chain_summary",
                    chain,
                    None,
                    cross_stats[chain],
                ),
            );
        }
        proof {
            assert(rows@.take(before.len() as int) =~= before);
            assert forall|i: int| 0 <= i < chain + 1 implies #[trigger] counts_chain(
                rows@,
                *ready,
                *features,
                *scopes,
                c,
                i,
            ) by {
                if i < chain {
                    lemma_rows_grow(before, rows@, *ready, *features, *scopes, c, i);
                }
            }
        }
        chain = chain + 1;
    }
    let ghost first = c * per;
    let pair_count: usize = scopes.chain_pair_roots.len();
    let granted: usize = allocations.len();
    let mut k: usize = 0;
    while k < pair_count
        invariant
            k <= pair_count,
            rows@.len() == first + 2 * k,
            catalog::tells_open(
                reports@,
                told,
                ProgressPhase::BuildSummary,
                WorkUnit::Nodes,
            ),
            texts_of(advisories@) == heard + advisories_below(
                *scopes,
                c,
                *memory,
                allocations@,
                k + 2,
            ),
            forall|i: int|
                0 <= i < c ==> #[trigger] counts_chain(rows@, *ready, *features, *scopes, c, i),
            forall|j: int|
                0 <= j < k ==> #[trigger] counts_pair(
                    rows@,
                    *ready,
                    *features,
                    *scopes,
                    first + 2 * j,
                    j,
                ),
            forall|j: int|
                0 <= j < k ==> pair_fault(*scopes, #[trigger] scopes.chain_pair_roots@[j]) is None,
        decreases pair_count - k,
    {
        let ghost before = rows@;
        let pair = &scopes.chain_pair_roots[k];
        let ghost middle = reports@;
        let counted = summary_stats_for_chain_pair(
            features,
            scopes,
            pair,
            pair_mode,
            scratch_bytes,
            &allocations[k + 2],
            &mut completed,
            reports,
        );
        proof {
            catalog::lemma_tells_open(
                reports@,
                middle,
                told,
                ProgressPhase::BuildSummary,
                WorkUnit::Nodes,
            );
            assert(scopes.chain_pair_roots@[k as int] == *pair);
        }
        let computed = match counted {
            Ok(computed) => computed,
            Err(error) => {
                assert(is_first_fault(*scopes, k as int, error@));
                return Err(error);
            },
        };
        proof {
            let selection = SummaryChainSelection::Pair {
                left: pair.left_chain,
                right: pair.right_chain,
            };
            assert(selection.slot_of(pair.left_chain as int) == Some(0int));
            if pair.left_chain != pair.right_chain {
                assert(selection.slot_of(pair.right_chain as int) == Some(1int));
            }
            assert(first >= 0) by (nonlinear_arith)
                requires
                    first == c * per,
                    c >= 0,
                    per >= 0,
            ;
        }
        rows.push(
            summary_row_from_stats(
                ready,
                "chain_matrix",
                pair.left_chain as usize,
                Some(pair.right_chain as usize),
                computed.stats[0],
            ),
        );
        rows.push(
            summary_row_from_stats(
                ready,
                "chain_matrix",
                pair.right_chain as usize,
                Some(pair.left_chain as usize),
                computed.stats[1],
            ),
        );
        tell(computed.advisory, advisories);
        proof {
            assert(texts_of(advisories@) =~= heard + advisories_below(
                *scopes,
                c,
                *memory,
                allocations@,
                k + 3,
            ));
            assert(rows@.take(before.len() as int) =~= before);
            assert forall|i: int| 0 <= i < c implies #[trigger] counts_chain(
                rows@,
                *ready,
                *features,
                *scopes,
                c,
                i,
            ) by {
                lemma_rows_grow(before, rows@, *ready, *features, *scopes, c, i);
            }
            assert forall|j: int| 0 <= j < k + 1 implies #[trigger] counts_pair(
                rows@,
                *ready,
                *features,
                *scopes,
                first + 2 * j,
                j,
            ) by {
                if j < k {
                    assert(counts_pair(before, *ready, *features, *scopes, first + 2 * j, j));
                    assert(before[first + 2 * j] == rows@[first + 2 * j]);
                    assert(before[first + 2 * j + 1] == rows@[first + 2 * j + 1]);
                }
            }
        }
        k = k + 1;
    }
    Ok(rows)
}

} // verus!
