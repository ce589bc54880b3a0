//! Counting the duplicates of a scope, in memory or in bounded space.

use crate::pipeline::catalog;
use crate::pipeline::error::{invariant_error, PipelineError, PipelineFault};
use crate::pipeline::summary;
use crate::pipeline::summary::{
    accumulate_summary, capped_sum, SortedSummaryAccumulator, SummaryChainSelection, SummaryEntry,
    SummaryStats,
};
use crate::pipeline::summary_runs;
use crate::pipeline::summary_runs::{
    flush_summary_run, merge_all_runs, SummaryRun, SUMMARY_ENTRY_ENCODED_BYTES,
    SUMMARY_STREAM_MAX_IO_BUFFER_BYTES,
};
use crate::progress::{ProgressCounters, ProgressEvent, ProgressPhase, WorkUnit};
use crate::snapshot::features::FeatureView;
use vstd::prelude::*;

verus! {

/// Contracts between two progress reports.
pub const SUMMARY_PROGRESS_CHUNK: usize = 65_536;

/// The sum, or the greatest that a report holds.
pub open spec fn saturated(count: int) -> int {
    if count > u64::MAX {
        u64::MAX as int
    } else {
        count
    }
}

/// The roots of a scope, and the contracts that they belong to.
#[derive(Clone, Copy)]
pub enum SummaryRootView<'a> {
    /// A root for every contract.
    Global { roots: &'a [u32], selection: SummaryChainSelection },
    /// Roots for the contracts of one chain and then those of another.
    PairLocal {
        roots: &'a [u32],
        left_chain: u32,
        right_chain: u32,
        left_contracts: &'a [u32],
        right_contracts: &'a [u32],
    },
}

/// The tokens of a contract, up to the greatest that is kept.
pub open spec fn token_count(weight: u64) -> i64 {
    summary::capped(weight as nat) as i64
}

fn capped_tokens(weight: u64) -> (tokens: i64)
    ensures
        tokens == token_count(weight),
        tokens >= 0,
{
    if weight > i64::MAX as u64 {
        i64::MAX
    } else {
        weight as i64
    }
}

impl<'a> SummaryRootView<'a> {
    /// The roots.
    pub open spec fn roots_of(self) -> Seq<u32> {
        match self {
            SummaryRootView::Global { roots, .. } => roots@,
            SummaryRootView::PairLocal { roots, .. } => roots@,
        }
    }

    /// The chains that stats are kept for.
    pub open spec fn selection_of(self) -> SummaryChainSelection {
        match self {
            SummaryRootView::Global { selection, .. } => selection,
            SummaryRootView::PairLocal { left_chain, right_chain, .. } =>
                SummaryChainSelection::Pair { left: left_chain, right: right_chain },
        }
    }

    /// The entry of the contract at a position, where it belongs to a chain with stats.
    pub open spec fn entry_of(self, features: FeatureView, local: int) -> Option<SummaryEntry> {
        match self {
            SummaryRootView::Global { roots, selection } => if local < roots@.len() && local
                < features.contract_chain@.len() && selection.slot_of(
                features.contract_chain@[local] as int,
            ) is Some {
                Some(
                    SummaryEntry {
                        root: roots@[local],
                        chain: features.contract_chain@[local],
                        nfts: token_count(features.contract_weight@[local]),
                    },
                )
            } else {
                None
            },
            SummaryRootView::PairLocal {
                roots,
                left_chain,
                right_chain,
                left_contracts,
                right_contracts,
            } => {
                let left = left_contracts@.len();
                let is_left = local < left;
                let known = local < left + right_contracts@.len();
                let contract = if is_left {
                    left_contracts@[local]
                } else {
                    right_contracts@[local - left]
                };
                if local < roots@.len() && known && contract < features.contract_weight@.len() {
                    Some(
                        SummaryEntry {
                            root: roots@[local],
                            chain: if is_left {
                                left_chain
                            } else {
                                right_chain
                            },
                            nfts: token_count(features.contract_weight@[contract as int]),
                        },
                    )
                } else {
                    None
                }
            },
        }
    }

    /// The entries of the first `count` positions.
    pub open spec fn entries_below(self, features: FeatureView, count: int) -> Seq<SummaryEntry>
        decreases count,
    {
        if count <= 0 {
            Seq::empty()
        } else {
            match self.entry_of(features, count - 1) {
                Some(entry) => self.entries_below(features, count - 1).push(entry),
                None => self.entries_below(features, count - 1),
            }
        }
    }

    /// The entries of the scope.
    pub open spec fn entries(self, features: FeatureView) -> Seq<SummaryEntry> {
        self.entries_below(features, self.roots_of().len() as int)
    }

    /// The roots are positions, and every contract has a weight.
    pub open spec fn fits(self, features: FeatureView) -> bool {
        &&& self.roots_of().len() <= u32::MAX
        &&& features.contract_weight@.len() == features.contract_chain@.len()
        &&& forall|i: int|
            0 <= i < self.roots_of().len() ==> (#[trigger] self.roots_of()[i])
                < self.roots_of().len()
        &&& self.selection_of() matches SummaryChainSelection::All(count) ==> count <= u32::MAX
    }

    /// Roots for the contracts of two chains. Refuses another number of roots than contracts.
    pub fn pair(
        roots: &'a [u32],
        left_chain: u32,
        right_chain: u32,
        left_contracts: &'a [u32],
        right_contracts: &'a [u32],
    ) -> (result: Result<SummaryRootView<'a>, PipelineError>)
        ensures
            match result {
                Ok(view) => {
                    &&& roots@.len() == left_contracts@.len() + right_contracts@.len()
                    &&& view == (SummaryRootView::PairLocal {
                        roots,
                        left_chain,
                        right_chain,
                        left_contracts,
                        right_contracts,
                    })
                },
                Err(e) => {
                    &&& roots@.len() != left_contracts@.len() + right_contracts@.len()
                    &&& e@ == PipelineFault::Invariant(
                        "pair-local roots do not match the two chain CSR slices"@,
                    )
                },
            },
    {
        let left: usize = left_contracts.len();
        let right: usize = right_contracts.len();
        let count: usize = roots.len();
        let matching: bool = match left.checked_add(right) {
            Some(sum) => count == sum,
            None => false,
        };
        if !matching {
            return Err(
                invariant_error("pair-local roots do not match the two chain CSR slices"),
            );
        }
        Ok(
            SummaryRootView::PairLocal {
                roots,
                left_chain,
                right_chain,
                left_contracts,
                right_contracts,
            },
        )
    }

    /// The number of roots.
    pub fn len(&self) -> (len: usize)
        ensures
            len == self.roots_of().len(),
    {
        match self {
            SummaryRootView::Global { roots, .. } => roots.len(),
            SummaryRootView::PairLocal { roots, .. } => roots.len(),
        }
    }

    /// The chains that stats are kept for.
    pub fn selection(&self) -> (selection: SummaryChainSelection)
        ensures
            selection == self.selection_of(),
    {
        match self {
            SummaryRootView::Global { selection, .. } => *selection,
            SummaryRootView::PairLocal { left_chain, right_chain, .. } =>
                SummaryChainSelection::Pair { left: *left_chain, right: *right_chain },
        }
    }

    /// The entry of the contract at a position, where it belongs to a chain with stats.
    pub fn entry(&self, features: &FeatureView, local: usize) -> (entry: Option<SummaryEntry>)
        requires
            features.contract_weight@.len() == features.contract_chain@.len(),
        ensures
            entry == self.entry_of(*features, local as int),
    {
        match self {
            SummaryRootView::Global { roots, selection } => {
                if local >= roots.len() || local >= features.contract_chain.len() {
                    return None;
                }
                let chain: u32 = features.contract_chain[local];
                if !selection.includes(chain) {
                    return None;
                }
                Some(
                    SummaryEntry {
                        root: roots[local],
                        chain,
                        nfts: capped_tokens(features.contract_weight[local]),
                    },
                )
            },
            SummaryRootView::PairLocal {
                roots,
                left_chain,
                right_chain,
                left_contracts,
                right_contracts,
            } => {
                if local >= roots.len() {
                    return None;
                }
                let left: usize = left_contracts.len();
                let right: usize = right_contracts.len();
                let (contract, chain): (u32, u32) = if local < left {
                    (left_contracts[local], *left_chain)
                } else if local - left < right {
                    (right_contracts[local - left], *right_chain)
                } else {
                    return None;
                };
                if contract as usize >= features.contract_weight.len() {
                    return None;
                }
                Some(
                    SummaryEntry {
                        root: roots[local],
                        chain,
                        nfts: capped_tokens(features.contract_weight[contract as usize]),
                    },
                )
            },
        }
    }
}

/// The entries are no more than the positions, lie below the number of roots, and have no
/// negative tokens.
pub proof fn lemma_entries(view: SummaryRootView, features: FeatureView, count: int)
    requires
        0 <= count <= view.roots_of().len(),
        forall|i: int|
            0 <= i < view.roots_of().len() ==> (#[trigger] view.roots_of()[i])
                < view.roots_of().len(),
    ensures
        view.entries_below(features, count).len() <= count,
        summary_runs::are_counted(view.entries_below(features, count)),
        forall|i: int|
            0 <= i < view.entries_below(features, count).len() ==> (
            #[trigger] view.entries_below(features, count)[i]).root < view.roots_of().len(),
    decreases count,
{
    if count > 0 {
        lemma_entries(view, features, count - 1);
        assert(view.roots_of()[count - 1] < view.roots_of().len());
    }
}

fn report_summary_work(delta: usize, completed: &mut u64, reports: &mut Vec<ProgressEvent>)
    ensures
        *final(completed) == saturated(*old(completed) + delta),
        catalog::tells_open(
            final(reports)@,
            old(reports)@,
            ProgressPhase::BuildSummary,
            WorkUnit::Nodes,
        ),
        final(reports)@.len() == old(reports)@.len() + 1,
        final(reports)@.last().phase == ProgressPhase::BuildSummary,
        final(reports)@.last().completed == *final(completed),
{
    *completed = completed.saturating_add(delta as u64);
    let counters = ProgressCounters {
        candidates: 0,
        scored: 0,
        expanded: 0,
        matched: 0,
        groups: 0,
    };
    reports.push(
        ProgressEvent::indeterminate(
            ProgressPhase::BuildSummary,
            *completed,
            WorkUnit::Nodes,
            counters,
        ),
    );
    assert(reports@.take(old(reports)@.len() as int) =~= old(reports)@);
}

/// The end of the progress chunk that starts at a position.
fn chunk_end(begin: usize, len: usize) -> (end: usize)
    requires
        begin < len,
    ensures
        begin < end <= len,
        end == len || end == begin + 65_536,
{
    if len - begin > SUMMARY_PROGRESS_CHUNK {
        begin + SUMMARY_PROGRESS_CHUNK
    } else {
        len
    }
}

/// The entries of a scope.
#[verifier::loop_isolation(false)]
pub fn summary_entries(
    features: &FeatureView,
    roots: &SummaryRootView,
    completed: &mut u64,
    reports: &mut Vec<ProgressEvent>,
) -> (entries: Vec<SummaryEntry>)
    requires
        features.contract_weight@.len() == features.contract_chain@.len(),
    ensures
        entries@ == roots.entries(*features),
        *final(completed) == saturated(*old(completed) + roots.roots_of().len()),
        catalog::tells_open(
            final(reports)@,
            old(reports)@,
            ProgressPhase::BuildSummary,
            WorkUnit::Nodes,
        ),
{
    let ghost told = reports@;
    let ghost before = *completed;
    let mut entries: Vec<SummaryEntry> = Vec::new();
    let len: usize = roots.len();
    let mut begin: usize = 0;
    assert(reports@.take(told.len() as int) =~= told);
    while begin < len
        invariant
            begin <= len,
            entries@ == roots.entries_below(*features, begin as int),
            *completed == saturated(before + begin),
            catalog::tells_open(
                reports@,
                told,
                ProgressPhase::BuildSummary,
                WorkUnit::Nodes,
            ),
        decreases len - begin,
    {
        let end: usize = chunk_end(begin, len);
        let mut local: usize = begin;
        while local < end
            invariant
                begin <= local <= end,
                entries@ == roots.entries_below(*features, local as int),
            decreases end - local,
        {
            if let Some(entry) = roots.entry(features, local) {
                entries.push(entry);
            }
            local = local + 1;
        }
        let ghost middle = reports@;
        report_summary_work(end - begin, completed, reports);
        proof {
            catalog::lemma_tells_open(
                reports@,
                middle,
                told,
                ProgressPhase::BuildSummary,
                WorkUnit::Nodes,
            );
        }
        begin = end;
    }
    entries
}

/// Counts entries that are in order.
#[verifier::loop_isolation(false)]
pub fn summarize_sorted_entries(
    entries: &Vec<SummaryEntry>,
    require_secondary: bool,
    selection: SummaryChainSelection,
) -> (stats: Vec<SummaryStats>)
    requires
        summary_runs::are_ordered(entries@),
        summary_runs::are_counted(entries@),
        entries@.len() <= u32::MAX,
    ensures
        summary::are_stats(stats@, selection, entries@, require_secondary),
{
    let mut state = SortedSummaryAccumulator::new(require_secondary, selection);
    let mut i: usize = 0;
    assert(entries@.take(0) =~= state.seen@);
    while i < entries.len()
        invariant
            i <= entries@.len(),
            state.wf(),
            state.seen@ == entries@.take(i as int),
            state.selection == selection,
            state.require_secondary == require_secondary,
        decreases entries.len() - i,
    {
        assert(entries@[i as int].nfts >= 0);
        assert(i > 0 ==> entries@[i - 1].precedes(entries@[i as int]));
        state.push(entries[i]);
        assert(entries@.take(i + 1) =~= entries@.take(i as int).push(entries@[i as int]));
        i = i + 1;
    }
    assert(entries@.take(i as int) =~= entries@);
    state.finish()
}

/// Stats of entries that count alike.
pub proof fn lemma_stats_order(
    stats: Seq<SummaryStats>,
    selection: SummaryChainSelection,
    a: Seq<SummaryEntry>,
    b: Seq<SummaryEntry>,
    secondary: bool,
)
    requires
        summary::are_stats(stats, selection, b, secondary),
        summary::same_tallies(a, b),
    ensures
        summary::are_stats(stats, selection, a, secondary),
{
    assert forall|chain: int| (#[trigger] selection.slot_of(
        chain,
    )) is Some implies stats[selection.slot_of(chain)->0].counts(
        summary::chain_totals(a, secondary, chain),
    ) by {
        summary::lemma_totals_order(a, b, secondary, chain);
    }
}

/// How the external count went.
#[derive(Debug, Clone, Copy, PartialEq, Eq, Structural)]
pub struct SummaryStreamReport {
    pub requested_chunk_entries: usize,
    pub actual_chunk_entries: usize,
    pub emergency_no_alloc: bool,
}

/// Entries of a chunk and bytes of a buffer that the scratch bytes allow.
pub open spec fn stream_layout(scratch_bytes: int) -> (int, int) {
    let scratch = if scratch_bytes < 64 {
        64
    } else {
        scratch_bytes
    };
    let buffer = if scratch / 4 > 262_144 {
        262_144
    } else {
        scratch / 4 / 16 * 16
    };
    ((scratch - buffer) / 16, buffer)
}

/// Entries of a chunk and bytes of a buffer that the scratch bytes allow.
pub fn summary_stream_layout(scratch_bytes: u64) -> (layout: (usize, usize))
    ensures
        (layout.0 as int, layout.1 as int) == stream_layout(
            if scratch_bytes > usize::MAX {
                usize::MAX as int
            } else {
                scratch_bytes as int
            },
        ),
        layout.0 >= 1,
        layout.1 >= 16,
{
    let wanted: usize = if scratch_bytes > usize::MAX as u64 {
        usize::MAX
    } else {
        scratch_bytes as usize
    };
    let scratch: usize = if wanted < SUMMARY_ENTRY_ENCODED_BYTES * 4 {
        SUMMARY_ENTRY_ENCODED_BYTES * 4
    } else {
        wanted
    };
    let buffer: usize = if scratch / 4 > SUMMARY_STREAM_MAX_IO_BUFFER_BYTES {
        SUMMARY_STREAM_MAX_IO_BUFFER_BYTES
    } else {
        scratch / 4 / SUMMARY_ENTRY_ENCODED_BYTES * SUMMARY_ENTRY_ENCODED_BYTES
    };
    ((scratch - buffer) / SUMMARY_ENTRY_ENCODED_BYTES, buffer)
}

/// What follows an attempt to allocate a chunk.
#[derive(Debug, Clone, Copy, PartialEq, Eq, Structural)]
pub enum SummaryChunkStep {
    /// Use chunks of so many entries.
    Use(usize),
    /// Try so many entries.
    Retry(usize),
    /// Not even one entry can be had.
    GiveUp,
}

/// What follows an attempt to allocate `tried` entries that gave `capacity`, or nothing.
pub fn next_summary_chunk(requested: usize, tried: usize, capacity: Option<usize>) -> (step:
    SummaryChunkStep)
    ensures
        step == (match capacity {
            Some(given) if given <= requested => SummaryChunkStep::Use(
                if given == 0 {
                    1
                } else {
                    given
                },
            ),
            _ => if tried <= 1 {
                if capacity is Some {
                    SummaryChunkStep::Use(1)
                } else {
                    SummaryChunkStep::GiveUp
                }
            } else {
                SummaryChunkStep::Retry((tried / 2) as usize)
            },
        }),
        step matches SummaryChunkStep::Use(entries) ==> entries >= 1,
        step matches SummaryChunkStep::Retry(entries) ==> 1 <= entries < tried,
{
    if let Some(given) = capacity {
        if given <= requested {
            return SummaryChunkStep::Use(
                if given == 0 {
                    1
                } else {
                    given
                },
            );
        }
        if tried <= 1 {
            return SummaryChunkStep::Use(1);
        }
    }
    if tried <= 1 {
        return SummaryChunkStep::GiveUp;
    }
    SummaryChunkStep::Retry(tried / 2)
}

/// Counts the entries of a scope in chunks of so many entries, stored in order and merged; with
/// no chunk, in as many passes as there are roots. Either way the counts are those of the
/// entries.
#[verifier::loop_isolation(false)]
pub fn summarize_entries_external(
    features: &FeatureView,
    roots: &SummaryRootView,
    require_secondary: bool,
    scratch_bytes: u64,
    chunk_entries: usize,
    completed: &mut u64,
    reports: &mut Vec<ProgressEvent>,
) -> (result: (Vec<SummaryStats>, SummaryStreamReport))
    requires
        roots.fits(*features),
    ensures
        summary::are_stats(
            result.0@,
            roots.selection_of(),
            roots.entries(*features),
            require_secondary,
        ),
        result.1.requested_chunk_entries == stream_layout(
            if scratch_bytes > usize::MAX {
                usize::MAX as int
            } else {
                scratch_bytes as int
            },
        ).0,
        result.1.actual_chunk_entries == chunk_entries,
        result.1.emergency_no_alloc == (chunk_entries == 0),
        *final(completed) == saturated(*old(completed) + roots.roots_of().len()),
        catalog::tells_open(
            final(reports)@,
            old(reports)@,
            ProgressPhase::BuildSummary,
            WorkUnit::Nodes,
        ),
{
    let (requested_chunk_entries, _) = summary_stream_layout(scratch_bytes);
    if chunk_entries == 0 {
        let stats = summarize_entries_without_allocation(
            features,
            roots,
            require_secondary,
            completed,
            reports,
        );
        return (
            stats,
            SummaryStreamReport {
                requested_chunk_entries,
                actual_chunk_entries: 0,
                emergency_no_alloc: true,
            },
        );
    }
    let report = SummaryStreamReport {
        requested_chunk_entries,
        actual_chunk_entries: chunk_entries,
        emergency_no_alloc: false,
    };
    let ghost told = reports@;
    let ghost before = *completed;
    let selection: SummaryChainSelection = roots.selection();
    let mut runs: Vec<SummaryRun> = Vec::new();
    let mut entries: Vec<SummaryEntry> = Vec::new();
    let ghost mut counted: Seq<SummaryEntry> = Seq::empty();
    let len: usize = roots.len();
    let mut begin: usize = 0;
    assert(reports@.take(told.len() as int) =~= told);
    while begin < len
        invariant
            begin <= len,
            roots.entries_below(*features, begin as int) == counted + entries@,
            summary_runs::are_runs(runs@),
            summary::same_tallies(counted, summary_runs::all_entries(runs@)),
            counted.len() > 0 ==> runs@.len() > 0,
            *completed == saturated(before + begin),
            catalog::tells_open(
                reports@,
                told,
                ProgressPhase::BuildSummary,
                WorkUnit::Nodes,
            ),
        decreases len - begin,
    {
        let end: usize = chunk_end(begin, len);
        let mut local: usize = begin;
        while local < end
            invariant
                begin <= local <= end,
                roots.entries_below(*features, local as int) == counted + entries@,
                summary_runs::are_runs(runs@),
                summary::same_tallies(counted, summary_runs::all_entries(runs@)),
                counted.len() > 0 ==> runs@.len() > 0,
            decreases end - local,
        {
            if let Some(entry) = roots.entry(features, local) {
                let ghost some = entries@;
                entries.push(entry);
                assert(counted + entries@ =~= (counted + some).push(entry));
                if entries.len() == chunk_entries {
                    let ghost more = entries@;
                    let ghost earlier = runs@;
                    proof {
                        lemma_entries(*roots, *features, local + 1);
                        lemma_counted_part(counted, entries@);
                    }
                    let run = flush_summary_run(&mut entries);
                    proof {
                        summary_runs::lemma_add_run(earlier, run, counted, more);
                        counted = counted + more;
                        assert(counted + entries@ =~= counted);
                    }
                    runs.push(run);
                }
            }
            local = local + 1;
        }
        let ghost middle = reports@;
        report_summary_work(end - begin, completed, reports);
        proof {
            catalog::lemma_tells_open(
                reports@,
                middle,
                told,
                ProgressPhase::BuildSummary,
                WorkUnit::Nodes,
            );
        }
        begin = end;
    }
    let ghost all = roots.entries(*features);
    proof {
        lemma_entries(*roots, *features, len as int);
        lemma_counted_part(counted, entries@);
    }
    if entries.len() > 0 {
        let ghost more = entries@;
        let ghost earlier = runs@;
        let run = flush_summary_run(&mut entries);
        proof {
            summary_runs::lemma_add_run(earlier, run, counted, more);
            counted = counted + more;
        }
        runs.push(run);
    } else {
        assert(counted + entries@ =~= counted);
    }
    assert(counted == all);
    if runs.len() == 0 {
        let state = SortedSummaryAccumulator::new(require_secondary, selection);
        assert(state.seen@ =~= all);
        return (state.finish(), report);
    }
    let merged = merge_all_runs(runs);
    let ghost last = merged.entries@;
    proof {
        lemma_same_length(all, last);
    }
    let mut state = SortedSummaryAccumulator::new(require_secondary, selection);
    let mut i: usize = 0;
    let mut next: Option<SummaryEntry> = merged.read(0);
    assert(last.take(0) =~= state.seen@);
    while next.is_some()
        invariant
            i <= last.len(),
            next is Some <==> i < last.len(),
            i < last.len() ==> next == Some(last[i as int]),
            state.wf(),
            state.seen@ == last.take(i as int),
            state.selection == selection,
            state.require_secondary == require_secondary,
        decreases last.len() - i,
    {
        if let Some(entry) = next {
            assert(last[i as int].nfts >= 0);
            assert(i > 0 ==> last[i - 1].precedes(last[i as int]));
            state.push(entry);
            assert(last.take(i + 1) =~= last.take(i as int).push(last[i as int]));
            i = i + 1;
            next = merged.read(i);
        }
    }
    assert(last.take(i as int) =~= last);
    let stats = state.finish();
    proof {
        lemma_stats_order(stats@, selection, all, last, require_secondary);
    }
    (stats, report)
}

proof fn lemma_counted_part(counted: Seq<SummaryEntry>, entries: Seq<SummaryEntry>)
    requires
        summary_runs::are_counted(counted + entries),
    ensures
        summary_runs::are_counted(entries),
{
    assert forall|i: int| 0 <= i < entries.len() implies (#[trigger] entries[i]).nfts >= 0 by {
        assert((counted + entries)[counted.len() + i] == entries[i]);
    }
}

proof fn lemma_same_length(a: Seq<SummaryEntry>, b: Seq<SummaryEntry>)
    requires
        summary::same_tallies(a, b),
    ensures
        a.len() == b.len(),
{
    let one = |entry: SummaryEntry| 1nat;
    assert(summary::tally(a, one) == summary::tally(b, one));
    lemma_one_each(a);
    lemma_one_each(b);
}

proof fn lemma_one_each(entries: Seq<SummaryEntry>)
    ensures
        summary::tally(entries, |entry: SummaryEntry| 1nat) == entries.len(),
    decreases entries.len(),
{
    if entries.len() > 0 {
        lemma_one_each(entries.drop_last());
    }
}

/// The number of entries of a root.
#[verifier::loop_isolation(false)]
fn count_root(features: &FeatureView, roots: &SummaryRootView, root: u32) -> (total: i64)
    requires
        roots.fits(*features),
    ensures
        total == summary::root_count(roots.entries(*features), root as int),
        total <= u32::MAX,
{
    let len: usize = roots.len();
    let mut total: i64 = 0;
    let mut local: usize = 0;
    while local < len
        invariant
            local <= len,
            0 <= total <= local,
            total == summary::root_count(
                roots.entries_below(*features, local as int),
                root as int,
            ),
        decreases len - local,
    {
        if let Some(entry) = roots.entry(features, local) {
            proof {
                summary::lemma_tally_push(
                    roots.entries_below(*features, local as int),
                    entry,
                    summary::of_root(root as int),
                );
            }
            if entry.root == root {
                total = total + 1;
            }
        }
        local = local + 1;
    }
    total
}

/// The number of entries and the tokens of a root and chain.
#[verifier::loop_isolation(false)]
fn count_chain(features: &FeatureView, roots: &SummaryRootView, root: u32, chain: u32) -> (counts: (
    i64,
    i64,
))
    requires
        roots.fits(*features),
    ensures
        counts.0 == summary::chain_count(roots.entries(*features), root as int, chain as int),
        counts.1 == summary::capped(
            summary::chain_nfts(roots.entries(*features), root as int, chain as int),
        ),
        0 <= counts.0 <= u32::MAX,
{
    let len: usize = roots.len();
    let mut count: i64 = 0;
    let mut nfts: i64 = 0;
    let mut local: usize = 0;
    while local < len
        invariant
            local <= len,
            0 <= count <= local,
            count == summary::chain_count(
                roots.entries_below(*features, local as int),
                root as int,
                chain as int,
            ),
            nfts == summary::capped(
                summary::chain_nfts(
                    roots.entries_below(*features, local as int),
                    root as int,
                    chain as int,
                ),
            ),
        decreases len - local,
    {
        if let Some(entry) = roots.entry(features, local) {
            proof {
                summary::lemma_counts_push(
                    roots.entries_below(*features, local as int),
                    entry,
                );
                assert(roots.entries_below(*features, local + 1) == roots.entries_below(
                    *features,
                    local as int,
                ).push(entry));
            }
            if entry.root == root && entry.chain == chain {
                count = count + 1;
                nfts = capped_sum(nfts, entry.nfts);
            }
        }
        local = local + 1;
    }
    (count, nfts)
}

/// Counts what a root counts for a chain.
fn add_group(
    features: &FeatureView,
    roots: &SummaryRootView,
    require_secondary: bool,
    root: u32,
    total: i64,
    chain: u32,
    stats: &mut SummaryStats,
)
    requires
        roots.fits(*features),
        total == summary::root_count(roots.entries(*features), root as int),
        old(stats).counts(
            summary::totals_below(
                roots.entries(*features),
                require_secondary,
                chain as int,
                root as int,
            ),
        ),
    ensures
        final(stats).counts(
            summary::totals_below(
                roots.entries(*features),
                require_secondary,
                chain as int,
                root + 1,
            ),
        ),
{
    let ghost all = roots.entries(*features);
    let ghost c = chain as int;
    let (count, nfts) = count_chain(features, roots, root, chain);
    proof {
        lemma_entries(*roots, *features, roots.roots_of().len() as int);
        summary::lemma_totals_bounded(all, require_secondary, c, root as int);
        summary::lemma_totals_bounded(all, require_secondary, c, root + 1);
        assert(summary::totals_below(all, require_secondary, c, root + 1) == summary::joined(
            summary::totals_below(all, require_secondary, c, root as int),
            summary::group_totals(all, require_secondary, root as int, c),
        ));
    }
    let qualifies: bool = if require_secondary {
        count != 0 && total > count
    } else {
        count >= 2
    };
    if qualifies {
        let size: i64 = if require_secondary {
            total
        } else {
            count
        };
        accumulate_summary(stats, count, nfts, size > 2);
    }
}

/// Counts the entries of a scope without keeping them.
#[verifier::loop_isolation(false)]
#[verifier::rlimit(30)]
pub fn summarize_entries_without_allocation(
    features: &FeatureView,
    roots: &SummaryRootView,
    require_secondary: bool,
    completed: &mut u64,
    reports: &mut Vec<ProgressEvent>,
) -> (stats: Vec<SummaryStats>)
    requires
        roots.fits(*features),
    ensures
        summary::are_stats(
            stats@,
            roots.selection_of(),
            roots.entries(*features),
            require_secondary,
        ),
        *final(completed) == saturated(*old(completed) + roots.roots_of().len()),
        catalog::tells_open(
            final(reports)@,
            old(reports)@,
            ProgressPhase::BuildSummary,
            WorkUnit::Nodes,
        ),
{
    let ghost told = reports@;
    let ghost before = *completed;
    let len: usize = roots.len();
    let mut begin: usize = 0;
    assert(reports@.take(told.len() as int) =~= told);
    while begin < len
        invariant
            begin <= len,
            *completed == saturated(before + begin),
            catalog::tells_open(
                reports@,
                told,
                ProgressPhase::BuildSummary,
                WorkUnit::Nodes,
            ),
        decreases len - begin,
    {
        let end: usize = chunk_end(begin, len);
        let ghost middle = reports@;
        report_summary_work(end - begin, completed, reports);
        proof {
            catalog::lemma_tells_open(
                reports@,
                middle,
                told,
                ProgressPhase::BuildSummary,
                WorkUnit::Nodes,
            );
        }
        begin = end;
    }
    let ghost all = roots.entries(*features);
    let selection: SummaryChainSelection = roots.selection();
    let mut stats = selection.no_stats();
    let slots: usize = stats.len();
    let mut root: usize = 0;
    while root < len
        invariant
            root <= len,
            stats@.len() == slots,
            forall|chain: int|
                (#[trigger] selection.slot_of(chain)) is Some ==> stats@[selection.slot_of(
                    chain,
                )->0].counts(
                    summary::totals_below(all, require_secondary, chain, root as int),
                ),
        decreases len - root,
    {
        let total: i64 = count_root(features, roots, root as u32);
        if total >= 2 {
            let mut k: usize = 0;
            while k < slots
                invariant
                    k <= slots,
                    stats@.len() == slots,
                    forall|chain: int|
                        (#[trigger] selection.slot_of(chain)) is Some
                            ==> stats@[selection.slot_of(chain)->0].counts(
                            summary::totals_below(
                                all,
                                require_secondary,
                                chain,
                                if selection.slot_of(chain)->0 < k {
                                    root + 1
                                } else {
                                    root as int
                                },
                            ),
                        ),
                decreases slots - k,
            {
                let chain: u32 = match selection {
                    SummaryChainSelection::All(_) => k as u32,
                    SummaryChainSelection::Pair { left, right } => if k == 0 {
                        left
                    } else {
                        right
                    },
                };
                if let Some(slot) = selection.slot(chain) {
                    if slot == k {
                        let mut one: SummaryStats = stats[k];
                        proof {
                            assert(selection.slot_of(chain as int) == Some(k as int));
                        }
                        add_group(
                            features,
                            roots,
                            require_secondary,
                            root as u32,
                            total,
                            chain,
                            &mut one,
                        );
                        stats.set(k, one);
                    }
                }
                k = k + 1;
            }
        } else {
            proof {
                assert forall|chain: int| (#[trigger] selection.slot_of(
                    chain,
                )) is Some implies stats@[selection.slot_of(chain)->0].counts(
                    summary::totals_below(all, require_secondary, chain, root + 1),
                ) by {
                    summary::lemma_chain_within_root(all, root as int, chain);
                    assert(summary::group_totals(all, require_secondary, root as int, chain)
                        == summary::no_totals());
                }
            }
        }
        root = root + 1;
    }
    proof {
        lemma_entries(*roots, *features, len as int);
        assert forall|chain: int| (#[trigger] selection.slot_of(
            chain,
        )) is Some implies stats@[selection.slot_of(chain)->0].counts(
            summary::chain_totals(all, require_secondary, chain),
        ) by {
            assert forall|r: int| len <= r < u32::MAX + 1 implies #[trigger] summary::group_totals(
                all,
                require_secondary,
                r,
                chain,
            ) == summary::no_totals() by {
                lemma_no_root(all, r, len as int);
                summary::lemma_chain_within_root(all, r, chain);
            }
            summary::lemma_totals_gap(all, require_secondary, chain, len as int, u32::MAX + 1);
        }
    }
    stats
}

proof fn lemma_no_root(entries: Seq<SummaryEntry>, root: int, bound: int)
    requires
        root >= bound,
        forall|i: int| 0 <= i < entries.len() ==> (#[trigger] entries[i]).root < bound,
    ensures
        summary::root_count(entries, root) == 0,
    decreases entries.len(),
{
    if entries.len() > 0 {
        assert(entries[entries.len() - 1].root < bound);
        assert forall|i: int| 0 <= i < entries.drop_last().len() implies (
        #[trigger] entries.drop_last()[i]).root < bound by {
            assert(entries[i].root < bound);
        }
        lemma_no_root(entries.drop_last(), root, bound);
    }
}

} // verus!
