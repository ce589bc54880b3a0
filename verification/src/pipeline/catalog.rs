//! Scoring the catalog: matching pairs of atoms become edges between their contracts.

use crate::pipeline::atoms;
use crate::pipeline::atoms::{atom_contracts, atom_payload};
use crate::pipeline::collectors;
use crate::pipeline::collectors::ScopeCollectors;
use crate::pipeline::compaction;
use crate::pipeline::compaction::ScopeCompactionScratch;
use crate::pipeline::error;
use crate::pipeline::error::{overflow_error, PipelineError, PipelineFault};
use crate::pipeline::expansion;
use crate::pipeline::expansion::expand_contract_pairs;
use crate::pipeline::submission;
use crate::pipeline::submission::submit_catalog_lane_batch;
use crate::pipeline::tokens;
use crate::pipeline::tokens::{
    contracts_share_retained_token, retained_tokens_disjoint_bounded,
};
use crate::progress::{
    ProgressCounters, ProgressEvent, ProgressPhase, TotalKind, WorkClass, WorkUnit,
};
use crate::reduce::graph::Edge;
use crate::scheduler::jobs::{CatalogJobs, JobDescriptor, JobShape};
use crate::snapshot::features::FeatureView;
use vstd::prelude::*;

verus! {

/// Expansion work is reported in portions of at least this many pairs.
pub const EXPANSION_REPORT_PAIRS: u64 = 100_000;

/// What routing the catalog took.
#[derive(Debug, Clone, Copy, PartialEq, Eq, Structural)]
pub struct SerializableIndexMetrics {
    pub block_pair_visits: u64,
    pub contract_pair_visits: u64,
    pub routed_pairs: u64,
    pub duplicate_routes: u64,
    pub exact_full_build_bytes: u64,
    pub exact_full_mmap_bytes: u64,
}

impl SerializableIndexMetrics {
    /// Nothing routed.
    pub fn none() -> (metrics: SerializableIndexMetrics)
        ensures
            metrics == no_metrics(),
    {
        SerializableIndexMetrics {
            block_pair_visits: 0,
            contract_pair_visits: 0,
            routed_pairs: 0,
            duplicate_routes: 0,
            exact_full_build_bytes: 0,
            exact_full_mmap_bytes: 0,
        }
    }
}

/// Nothing routed.
pub open spec fn no_metrics() -> SerializableIndexMetrics {
    SerializableIndexMetrics {
        block_pair_visits: 0,
        contract_pair_visits: 0,
        routed_pairs: 0,
        duplicate_routes: 0,
        exact_full_build_bytes: 0,
        exact_full_mmap_bytes: 0,
    }
}

/// The scorer can be asked about any two payloads and always gives the same answer.
pub open spec fn is_scorer<F: Fn(u32, u32, bool) -> bool>(scorer: F) -> bool {
    &&& forall|left: u32, right: u32, proven: bool| #[trigger]
        call_requires(scorer, (left, right, proven))
    &&& forall|left: u32, right: u32, proven: bool|
        !(#[trigger] call_ensures(scorer, (left, right, proven), true) && call_ensures(
            scorer,
            (left, right, proven),
            false,
        ))
}

/// The scorer matches the payloads. `proven` says that their templates are known to match.
pub open spec fn matches<F: Fn(u32, u32, bool) -> bool>(
    scorer: F,
    left: u32,
    right: u32,
    proven: bool,
) -> bool {
    call_ensures(scorer, (left, right, proven), true)
}

/// The features that expansion reads are consistent.
pub open spec fn is_expandable(view: FeatureView, chain_count: int) -> bool {
    &&& tokens::tokens_sorted(view)
    &&& atoms::atoms_sorted(view)
    &&& atoms::chains_known(view, chain_count)
}

/// The scratch takes all contracts, and pending edges are between contracts.
pub open spec fn is_lane(view: FeatureView, batch: Seq<Edge>, scratch: ScopeCompactionScratch) -> bool {
    &&& scratch.wf()
    &&& forall|contract: u32|
        contract < view.contract_count() ==> #[trigger] scratch.admits(contract)
    &&& forall|i: int|
        0 <= i < batch.len() ==> (#[trigger] batch[i]).left < view.contract_count()
            && batch[i].right < view.contract_count()
}

proof fn lemma_lane_ready(
    view: FeatureView,
    chain_count: int,
    batch: Seq<Edge>,
    scratch: ScopeCompactionScratch,
)
    requires
        is_expandable(view, chain_count),
        is_lane(view, batch, scratch),
    ensures
        scratch.admits_all(batch),
        compaction::ends_below_max(batch),
        compaction::edges_known(batch, view.contract_chain@, chain_count),
{
    let chains = view.contract_chain@;
    assert forall|i: int| 0 <= i < batch.len() implies (#[trigger] batch[i]).left < chains.len()
        && batch[i].right < chains.len() && chains[batch[i].left as int] < chain_count
        && chains[batch[i].right as int] < chain_count by {
        assert(chains[batch[i].left as int] < chain_count);
        assert(chains[batch[i].right as int] < chain_count);
    }
}

/// Whether the atoms match: the scorer is asked about their payloads.
pub fn catalog_atom_score<F: Fn(u32, u32, bool) -> bool>(
    features: &FeatureView,
    left_atom: u32,
    right_atom: u32,
    proven: bool,
    scorer: &F,
) -> (matched: bool)
    requires
        atoms::atoms_sorted(*features),
        left_atom < atoms::atom_count(*features),
        right_atom < atoms::atom_count(*features),
        is_scorer(*scorer),
    ensures
        matched == matches(
            *scorer,
            atoms::payload_of(*features, left_atom as int),
            atoms::payload_of(*features, right_atom as int),
            proven,
        ),
{
    let left: u32 = atom_payload(features, left_atom);
    let right: u32 = atom_payload(features, right_atom);
    scorer(left, right, proven)
}

/// The direct edges between two atoms, where they match.
pub open spec fn pair_edges<F: Fn(u32, u32, bool) -> bool>(
    view: FeatureView,
    scorer: F,
    left: u32,
    right: u32,
    proven: bool,
) -> Seq<Edge> {
    if matches(
        scorer,
        atoms::payload_of(view, left as int),
        atoms::payload_of(view, right as int),
        proven,
    ) {
        expansion::direct_pairs(
            view,
            atoms::members_of(view, left as int),
            atoms::members_of(view, right as int),
        )
    } else {
        Seq::empty()
    }
}

/// The pairs of contracts that two atoms expand to, where they match.
pub open spec fn pair_work<F: Fn(u32, u32, bool) -> bool>(
    view: FeatureView,
    scorer: F,
    left: u32,
    right: u32,
    proven: bool,
) -> nat {
    if matches(
        scorer,
        atoms::payload_of(view, left as int),
        atoms::payload_of(view, right as int),
        proven,
    ) {
        atoms::members_of(view, left as int).len() * atoms::members_of(view, right as int).len()
    } else {
        0
    }
}

proof fn lemma_expanded_ends(
    view: FeatureView,
    left: Seq<u32>,
    right: Seq<u32>,
    chain_count: int,
    k: int,
)
    requires
        0 <= k < expansion::expanded_pairs(view, left, right, chain_count).len(),
        tokens::are_contracts(view, left),
        tokens::are_contracts(view, right),
    ensures
        expansion::expanded_pairs(view, left, right, chain_count)[k].left < view.contract_count(),
        expansion::expanded_pairs(view, left, right, chain_count)[k].right < view.contract_count(),
{
    let edge = expansion::expanded_pairs(view, left, right, chain_count)[k];
    let (i, j) = expansion::lemma_expanded_edge(view, left, right, chain_count, k);
    assert(left[i] < view.contract_count() && right[j] < view.contract_count());
}

/// Expands two atoms, where they match, into pending edges. Returns the number of pairs.
pub fn expand_catalog_atom_pair_streaming<F: Fn(u32, u32, bool) -> bool>(
    features: &FeatureView,
    left_atom: u32,
    right_atom: u32,
    proven: bool,
    scorer: &F,
    chain_count: usize,
    batch: &mut Vec<Edge>,
) -> (work: u64)
    requires
        is_expandable(*features, chain_count as int),
        left_atom < atoms::atom_count(*features),
        right_atom < atoms::atom_count(*features),
        is_scorer(*scorer),
    ensures
        work == pair_work(*features, *scorer, left_atom, right_atom, proven),
        final(batch)@ == old(batch)@ + (if matches(
            *scorer,
            atoms::payload_of(*features, left_atom as int),
            atoms::payload_of(*features, right_atom as int),
            proven,
        ) {
            expansion::expanded_pairs(
                *features,
                atoms::members_of(*features, left_atom as int),
                atoms::members_of(*features, right_atom as int),
                chain_count as int,
            )
        } else {
            Seq::empty()
        }),
{
    if !catalog_atom_score(features, left_atom, right_atom, proven, scorer) {
        assert(batch@ =~= old(batch)@ + Seq::<Edge>::empty());
        return 0;
    }
    let left = atom_contracts(features, left_atom);
    let right = atom_contracts(features, right_atom);
    proof {
        lemma_chains_of(*features, left@, chain_count as int);
        lemma_chains_of(*features, right@, chain_count as int);
        lemma_product_fits(left@.len(), right@.len());
    }
    expand_contract_pairs(features, left, right, chain_count, batch);
    left.len() as u64 * right.len() as u64
}

/// The product of two 32 bit counts fits 64 bits.
pub proof fn lemma_product_fits(left: nat, right: nat)
    requires
        left <= u32::MAX,
        right <= u32::MAX,
    ensures
        left * right <= u64::MAX,
{
    assert(left * right <= 0xffff_ffff * 0xffff_ffff) by (nonlinear_arith)
        requires
            left <= 0xffff_ffff,
            right <= 0xffff_ffff,
    ;
}

proof fn lemma_chains_of(view: FeatureView, contracts: Seq<u32>, chain_count: int)
    requires
        is_expandable(view, chain_count),
        tokens::are_contracts(view, contracts),
    ensures
        expansion::are_of_chains(view, contracts, chain_count),
{
    assert forall|i: int| 0 <= i < contracts.len() implies view.contract_chain@[
        #[trigger] contracts[i] as int] < chain_count by {
        assert(contracts[i] < view.contract_count());
        assert(view.contract_chain@[contracts[i] as int] < chain_count);
    }
}

/// The edges that two atoms emit, where they match.
pub open spec fn emitted_pair<F: Fn(u32, u32, bool) -> bool>(
    view: FeatureView,
    scorer: F,
    left: u32,
    right: u32,
    proven: bool,
    bounded: bool,
    chain_count: int,
) -> Seq<Edge> {
    let a = atoms::members_of(view, left as int);
    let b = atoms::members_of(view, right as int);
    if !matches(
        scorer,
        atoms::payload_of(view, left as int),
        atoms::payload_of(view, right as int),
        proven,
    ) {
        Seq::empty()
    } else if bounded {
        expansion::bounded_pairs(view, a, b, chain_count)
    } else {
        expansion::expanded_pairs(view, a, b, chain_count)
    }
}

/// What two atoms emit connects, in every scope, what their direct edges connect.
proof fn lemma_emitted_pair<F: Fn(u32, u32, bool) -> bool>(
    view: FeatureView,
    scorer: F,
    left: u32,
    right: u32,
    proven: bool,
    bounded: bool,
    chain_count: int,
)
    requires
        is_expandable(view, chain_count),
        left < atoms::atom_count(view),
        right < atoms::atom_count(view),
    ensures
        submission::same_scopes(
            emitted_pair(view, scorer, left, right, proven, bounded, chain_count),
            pair_edges(view, scorer, left, right, proven),
            view.contract_chain@,
            chain_count,
        ),
{
    let a = atoms::members_of(view, left as int);
    let b = atoms::members_of(view, right as int);
    atoms::lemma_members_known(view, left as int);
    atoms::lemma_members_known(view, right as int);
    lemma_chains_of(view, a, chain_count);
    lemma_chains_of(view, b, chain_count);
    expansion::lemma_bounded_connectivity(view, a, b, chain_count);
    expansion::lemma_expanded_connectivity(view, a, b, chain_count);
    submission::lemma_same_scopes_reflexive(Seq::empty(), view.contract_chain@, chain_count);
}

/// How the catalog is scored.
#[derive(Debug, Clone, Copy, PartialEq, Eq, Structural)]
pub struct CatalogExecutionConfig {
    pub chain_count: usize,
    pub edge_batch: usize,
    pub dense_compaction_scratch_bytes: usize,
    pub bounded_mode: bool,
}

/// The state of one scoring lane.
pub struct CatalogLane {
    pub config: CatalogExecutionConfig,
    pub batch: Vec<Edge>,
    pub pending_expansion: u64,
    pub scratch: ScopeCompactionScratch,
}

impl CatalogLane {
    /// The lane takes edges between the contracts.
    pub open spec fn wf(self, view: FeatureView) -> bool {
        is_lane(view, self.batch@, self.scratch)
    }

    /// A lane without pending edges.
    pub fn new(features: &FeatureView, config: CatalogExecutionConfig) -> (lane: CatalogLane)
        ensures
            lane.wf(*features),
            lane.config == config,
            lane.batch@.len() == 0,
            lane.pending_expansion == 0,
    {
        CatalogLane {
            config,
            batch: Vec::new(),
            pending_expansion: 0,
            scratch: ScopeCompactionScratch::new(
                features.contract_source.len(),
                config.dense_compaction_scratch_bytes,
            ),
        }
    }

    /// Submits the pending edges.
    pub fn submit(&mut self, features: &FeatureView, collectors: &mut ScopeCollectors) -> (result: Result<
        (),
        PipelineError,
    >)
        requires
            is_expandable(*features, old(self).config.chain_count as int),
            old(self).wf(*features),
            old(collectors).wf(),
            submission::covers_chains(*old(collectors), old(self).config.chain_count as int),
        ensures
            lane_steps(
                *features,
                *final(self),
                *final(collectors),
                *old(self),
                *old(collectors),
                result,
                Seq::empty(),
            ),
            final(self).pending_expansion == old(self).pending_expansion,
            result is Ok ==> final(self).batch@.len() == 0,
            old(self).batch@.len() == 0 ==> result is Ok,
    {
        let ghost view = *features;
        let ghost c = self.config.chain_count as int;
        let ghost pending = self.batch@;
        let ghost before = *collectors;
        let ghost lane_before = *self;
        proof {
            lemma_lane_ready(view, c, pending, self.scratch);
        }
        let mut ready: Vec<Edge> = Vec::new();
        std::mem::swap(&mut ready, &mut self.batch);
        let result = submit_catalog_lane_batch(
            collectors,
            features.contract_chain.as_slice(),
            self.config.chain_count,
            &ready,
            &mut self.scratch,
        );
        proof {
            compaction::lemma_admits_as(self.scratch, self.scratch, lane_before.scratch);
            collectors::lemma_continues(*collectors, before);
            assert(pending + Seq::<Edge>::empty() =~= pending);
            if result is Ok {
                assert(self.batch@ =~= Seq::<Edge>::empty());
                submission::lemma_moves_all(
                    *collectors,
                    before,
                    pending,
                    Seq::empty(),
                    view.contract_chain@,
                    c,
                );
            }
        }
        result
    }

    /// Adds a pending edge, and submits where the batch is full.
    fn push(&mut self, features: &FeatureView, collectors: &mut ScopeCollectors, edge: Edge) -> (result: Result<
        (),
        PipelineError,
    >)
        requires
            is_expandable(*features, old(self).config.chain_count as int),
            old(self).wf(*features),
            old(collectors).wf(),
            submission::covers_chains(*old(collectors), old(self).config.chain_count as int),
            edge.left < features.contract_count(),
            edge.right < features.contract_count(),
        ensures
            lane_steps(
                *features,
                *final(self),
                *final(collectors),
                *old(self),
                *old(collectors),
                result,
                seq![edge],
            ),
            final(self).pending_expansion == old(self).pending_expansion,
    {
        let ghost view = *features;
        let ghost c = self.config.chain_count as int;
        let ghost first = *self;
        let ghost before = *collectors;
        self.batch.push(edge);
        proof {
            assert(self.batch@ =~= first.batch@ + seq![edge]);
            submission::lemma_moves_none(
                before,
                first.batch@,
                seq![edge],
                view.contract_chain@,
                c,
            );
            collectors::lemma_continues_on(before, before, before);
        }
        let ghost middle = *self;
        if self.batch.len() >= self.config.edge_batch {
            let result = self.submit(features, collectors);
            proof {
                lemma_lane_steps_more(
                    view,
                    *self,
                    *collectors,
                    middle,
                    before,
                    first,
                    before,
                    Ok(()),
                    result,
                    seq![edge],
                    Seq::empty(),
                );
                assert(seq![edge] + Seq::<Edge>::empty() =~= seq![edge]);
            }
            return result;
        }
        Ok(())
    }
}

/// A lane and the collectors after taking edges: on success some of the pending and new edges
/// were submitted and the rest is pending.
pub open spec fn lane_steps(
    view: FeatureView,
    after: CatalogLane,
    collectors_after: ScopeCollectors,
    before: CatalogLane,
    collectors_before: ScopeCollectors,
    result: Result<(), PipelineError>,
    edges: Seq<Edge>,
) -> bool {
    &&& after.wf(view)
    &&& after.config == before.config
    &&& collectors_after.wf()
    &&& collectors_after.continues(collectors_before)
    &&& collectors_after.scopes() == collectors_before.scopes()
    &&& collectors_before.is_cancelled() ==> collectors_after.is_cancelled()
    &&& !collectors_before.is_cancelled() ==> (collectors_after.is_cancelled() <==> result is Err)
    &&& match result {
        Ok(_) => submission::moves(
            collectors_after,
            after.batch@,
            collectors_before,
            before.batch@,
            edges,
            view.contract_chain@,
            before.config.chain_count as int,
        ),
        Err(e) => submission::is_refusal(
            e@,
            collectors_before,
            collectors_after,
            before.batch@ + edges,
            view.contract_chain@,
            before.config.chain_count as int,
        ),
    }
    &&& before.batch@.len() + edges.len() == 0 ==> result is Ok && collectors_after
        == collectors_before && after.batch@.len() == 0
}

/// Taking edges and then others.
proof fn lemma_lane_steps_more(
    view: FeatureView,
    last: CatalogLane,
    collectors_last: ScopeCollectors,
    middle: CatalogLane,
    collectors_middle: ScopeCollectors,
    first: CatalogLane,
    collectors_first: ScopeCollectors,
    result: Result<(), PipelineError>,
    next: Result<(), PipelineError>,
    edges: Seq<Edge>,
    more: Seq<Edge>,
)
    requires
        lane_steps(view, middle, collectors_middle, first, collectors_first, result, edges),
        result is Ok,
        lane_steps(view, last, collectors_last, middle, collectors_middle, next, more),
    ensures
        lane_steps(view, last, collectors_last, first, collectors_first, next, edges + more),
{
    collectors::lemma_continues_on(collectors_last, collectors_middle, collectors_first);
    if next is Ok {
        submission::lemma_moves_more(
            collectors_last,
            last.batch@,
            collectors_middle,
            middle.batch@,
            collectors_first,
            first.batch@,
            edges,
            more,
            view.contract_chain@,
            first.config.chain_count as int,
        );
    } else if !collectors_first.is_cancelled() {
        submission::lemma_moves_stop(
            collectors_last,
            collectors_middle,
            middle.batch@,
            collectors_first,
            first.batch@,
            edges,
            more,
            view.contract_chain@,
            first.config.chain_count as int,
            next->Err_0@,
        );
    }
}

/// Failing on edges is failing on edges that begin with those.
proof fn lemma_lane_fails(
    view: FeatureView,
    after: CatalogLane,
    collectors_after: ScopeCollectors,
    before: CatalogLane,
    collectors_before: ScopeCollectors,
    result: Result<(), PipelineError>,
    edges: Seq<Edge>,
    longer: Seq<Edge>,
)
    requires
        lane_steps(view, after, collectors_after, before, collectors_before, result, edges),
        result is Err,
        submission::begins(longer, edges),
    ensures
        lane_steps(view, after, collectors_after, before, collectors_before, result, longer),
{
    submission::lemma_begins_more(before.batch@, longer, edges);
    submission::lemma_refusal_longer(
        result->Err_0@,
        collectors_before,
        collectors_after,
        before.batch@ + edges,
        before.batch@ + longer,
        view.contract_chain@,
        before.config.chain_count as int,
    );
}

proof fn lemma_no_step(view: FeatureView, lane: CatalogLane, collectors: ScopeCollectors)
    requires
        lane.wf(view),
        collectors.wf(),
        submission::covers_chains(collectors, lane.config.chain_count as int),
    ensures
        lane_steps(view, lane, collectors, lane, collectors, Ok(()), Seq::empty()),
{
    collectors::lemma_continues_on(collectors, collectors, collectors);
    submission::lemma_moves_none(
        collectors,
        lane.batch@,
        Seq::empty(),
        view.contract_chain@,
        lane.config.chain_count as int,
    );
    assert(lane.batch@ + Seq::<Edge>::empty() =~= lane.batch@);
}

/// The first contract of each chain.
fn chain_roots(features: &FeatureView, contracts: &[u32], chain_count: usize) -> (roots: Vec<
    Option<u32>,
>)
    requires
        is_expandable(*features, chain_count as int),
        tokens::are_contracts(*features, contracts@),
    ensures
        roots@.len() == chain_count,
        forall|k: int|
            0 <= k < chain_count ==> #[trigger] roots@[k] == first_of(
                expansion::of_chain(*features, contracts@, k),
            ),
{
    let ghost view = *features;
    let mut roots: Vec<Option<u32>> = Vec::new();
    let mut k: usize = 0;
    while k < chain_count
        invariant
            k <= chain_count,
            roots@.len() == k,
            forall|b: int| 0 <= b < k ==> #[trigger] roots@[b] is None,
        decreases chain_count - k,
    {
        roots.push(None);
        k = k + 1;
    }
    let mut i: usize = 0;
    assert(contracts@.take(0) =~= Seq::<u32>::empty());
    while i < contracts.len()
        invariant
            i <= contracts@.len(),
            view == *features,
            is_expandable(view, chain_count as int),
            tokens::are_contracts(view, contracts@),
            roots@.len() == chain_count,
            forall|k: int|
                0 <= k < chain_count ==> #[trigger] roots@[k] == first_of(
                    expansion::of_chain(view, contracts@.take(i as int), k),
                ),
        decreases contracts.len() - i,
    {
        let contract: u32 = contracts[i];
        assert(contracts@[i as int] < view.contract_count());
        assert(view.contract_chain@[contract as int] < chain_count);
        let chain: usize = features.contract_chain[contract as usize] as usize;
        assert(contracts@.take(i + 1).drop_last() =~= contracts@.take(i as int));
        if roots[chain].is_none() {
            roots.set(chain, Some(contract));
        }
        i = i + 1;
    }
    assert(contracts@.take(i as int) =~= contracts@);
    roots
}

/// The first value, if there is one.
pub open spec fn first_of(values: Seq<u32>) -> Option<u32> {
    if values.len() > 0 {
        Some(values[0])
    } else {
        None
    }
}

impl CatalogLane {
    /// Takes the edges of one contract to the first contract of each chain.
    #[verifier::loop_isolation(false)]
    fn push_root_row(
        &mut self,
        features: &FeatureView,
        collectors: &mut ScopeCollectors,
        contract: u32,
        roots: &Vec<Option<u32>>,
        Ghost(others): Ghost<Seq<u32>>,
    ) -> (result: Result<(), PipelineError>)
        requires
            is_expandable(*features, old(self).config.chain_count as int),
            old(self).wf(*features),
            old(collectors).wf(),
            submission::covers_chains(*old(collectors), old(self).config.chain_count as int),
            contract < features.contract_count(),
            tokens::are_contracts(*features, others),
            roots@.len() == old(self).config.chain_count,
            forall|k: int|
                0 <= k < roots@.len() ==> #[trigger] roots@[k] == first_of(
                    expansion::of_chain(*features, others, k),
                ),
        ensures
            lane_steps(
                *features,
                *final(self),
                *final(collectors),
                *old(self),
                *old(collectors),
                result,
                expansion::root_row(*features, contract, others, roots@.len() as int),
            ),
            final(self).pending_expansion == old(self).pending_expansion,
    {
        let ghost view = *features;
        let ghost first = *self;
        let ghost before = *collectors;
        let mut k: usize = 0;
        proof {
            lemma_no_step(view, first, before);
        }
        while k < roots.len()
            invariant
                k <= roots@.len(),
                self.pending_expansion == first.pending_expansion,
                lane_steps(
                    view,
                    *self,
                    *collectors,
                    first,
                    before,
                    Ok(()),
                    expansion::root_row(view, contract, others, k as int),
                ),
            decreases roots.len() - k,
        {
            let ghost done = expansion::root_row(view, contract, others, k as int);
            let ghost own = expansion::of_chain(view, others, k as int);
            let ghost middle = *self;
            let ghost collectors_middle = *collectors;
            assert(roots@[k as int] == first_of(own));
            if let Some(root) = roots[k] {
                proof {
                    expansion::lemma_of_chain_known(view, others, k as int);
                    assert(own[0] < view.contract_count());
                }
                if root != contract {
                    let edge = Edge::new(root, contract);
                    let result = self.push(features, collectors, edge);
                    proof {
                        lemma_lane_steps_more(
                            view,
                            *self,
                            *collectors,
                            middle,
                            collectors_middle,
                            first,
                            before,
                            Ok(()),
                            result,
                            done,
                            seq![edge],
                        );
                    }
                    if let Err(error) = result {
                        proof {
                            expansion::lemma_root_row_grows(
                                view,
                                contract,
                                others,
                                k + 1,
                                roots@.len() as int,
                            );
                            lemma_lane_fails(
                                view,
                                *self,
                                *collectors,
                                first,
                                before,
                                result,
                                done + seq![edge],
                                expansion::root_row(view, contract, others, roots@.len() as int),
                            );
                        }
                        return Err(error);
                    }
                } else {
                    assert(done + expansion::proper_edge(root, contract) =~= done);
                }
            }
            k = k + 1;
        }
        Ok(())
    }

    /// Takes the edges of contracts to the first contracts of the other side's chains.
    #[verifier::loop_isolation(false)]
    fn push_root_rows(
        &mut self,
        features: &FeatureView,
        collectors: &mut ScopeCollectors,
        contracts: &[u32],
        own_roots: &Vec<Option<u32>>,
        others: &[u32],
        roots: &Vec<Option<u32>>,
        skip_roots: bool,
    ) -> (result: Result<(), PipelineError>)
        requires
            is_expandable(*features, old(self).config.chain_count as int),
            old(self).wf(*features),
            old(collectors).wf(),
            submission::covers_chains(*old(collectors), old(self).config.chain_count as int),
            tokens::are_contracts(*features, contracts@),
            tokens::are_contracts(*features, others@),
            roots@.len() == old(self).config.chain_count,
            own_roots@.len() == old(self).config.chain_count,
            forall|k: int|
                0 <= k < roots@.len() ==> #[trigger] roots@[k] == first_of(
                    expansion::of_chain(*features, others@, k),
                ),
            forall|k: int|
                0 <= k < own_roots@.len() ==> #[trigger] own_roots@[k] == first_of(
                    expansion::of_chain(*features, contracts@, k),
                ),
        ensures
            lane_steps(
                *features,
                *final(self),
                *final(collectors),
                *old(self),
                *old(collectors),
                result,
                expansion::root_rows(
                    *features,
                    contracts@,
                    others@,
                    roots@.len() as int,
                    skip_roots,
                    contracts@.len() as int,
                ),
            ),
            final(self).pending_expansion == old(self).pending_expansion,
    {
        let ghost view = *features;
        let ghost c = roots@.len() as int;
        let ghost first = *self;
        let ghost before = *collectors;
        let mut i: usize = 0;
        proof {
            lemma_no_step(view, first, before);
        }
        while i < contracts.len()
            invariant
                i <= contracts@.len(),
                self.pending_expansion == first.pending_expansion,
                lane_steps(
                    view,
                    *self,
                    *collectors,
                    first,
                    before,
                    Ok(()),
                    expansion::root_rows(view, contracts@, others@, c, skip_roots, i as int),
                ),
            decreases contracts.len() - i,
        {
            let contract: u32 = contracts[i];
            let ghost done = expansion::root_rows(
                view,
                contracts@,
                others@,
                c,
                skip_roots,
                i as int,
            );
            let ghost middle = *self;
            let ghost collectors_middle = *collectors;
            assert(contracts@[i as int] < view.contract_count());
            assert(view.contract_chain@[contract as int] < c);
            let chain: usize = features.contract_chain[contract as usize] as usize;
            let is_root: bool = match own_roots[chain] {
                Some(root) => root == contract,
                None => false,
            };
            proof {
                assert(contracts@.contains(contract));
                expansion::lemma_of_chain_holds(view, contracts@, contract);
                assert(own_roots@[chain as int] == first_of(
                    expansion::of_chain(view, contracts@, chain as int),
                ));
                assert(is_root == expansion::is_chain_root(view, contracts@, contract));
            }
            if !(skip_roots && is_root) {
                let result = self.push_root_row(
                    features,
                    collectors,
                    contract,
                    roots,
                    Ghost(others@),
                );
                proof {
                    lemma_lane_steps_more(
                        view,
                        *self,
                        *collectors,
                        middle,
                        collectors_middle,
                        first,
                        before,
                        Ok(()),
                        result,
                        done,
                        expansion::root_row(view, contract, others@, c),
                    );
                }
                if let Err(error) = result {
                    proof {
                        expansion::lemma_root_rows_grow(
                            view,
                            contracts@,
                            others@,
                            c,
                            skip_roots,
                            i + 1,
                            contracts@.len() as int,
                        );
                        lemma_lane_fails(
                            view,
                            *self,
                            *collectors,
                            first,
                            before,
                            result,
                            done + expansion::root_row(view, contract, others@, c),
                            expansion::root_rows(
                                view,
                                contracts@,
                                others@,
                                c,
                                skip_roots,
                                contracts@.len() as int,
                            ),
                        );
                    }
                    return Err(error);
                }
            }
            i = i + 1;
        }
        Ok(())
    }

    /// Takes the direct edges between two sides.
    #[verifier::loop_isolation(false)]
    fn push_direct_pairs(
        &mut self,
        features: &FeatureView,
        collectors: &mut ScopeCollectors,
        left: &[u32],
        right: &[u32],
    ) -> (result: Result<(), PipelineError>)
        requires
            is_expandable(*features, old(self).config.chain_count as int),
            old(self).wf(*features),
            old(collectors).wf(),
            submission::covers_chains(*old(collectors), old(self).config.chain_count as int),
            tokens::are_contracts(*features, left@),
            tokens::are_contracts(*features, right@),
        ensures
            lane_steps(
                *features,
                *final(self),
                *final(collectors),
                *old(self),
                *old(collectors),
                result,
                expansion::direct_pairs(*features, left@, right@),
            ),
            final(self).pending_expansion == old(self).pending_expansion,
    {
        let ghost view = *features;
        let ghost first = *self;
        let ghost before = *collectors;
        let mut i: usize = 0;
        proof {
            lemma_no_step(view, first, before);
        }
        while i < left.len()
            invariant
                i <= left@.len(),
                self.pending_expansion == first.pending_expansion,
                lane_steps(
                    view,
                    *self,
                    *collectors,
                    first,
                    before,
                    Ok(()),
                    expansion::direct_rows(view, left@, right@, i as int),
                ),
            decreases left.len() - i,
        {
            let ghost rows = expansion::direct_rows(view, left@, right@, i as int);
            let mut j: usize = 0;
            assert(left@[i as int] < view.contract_count());
            assert(rows + expansion::direct_row(view, left@[i as int], right@, 0) =~= rows);
            while j < right.len()
                invariant
                    j <= right@.len(),
                    self.pending_expansion == first.pending_expansion,
                    lane_steps(
                        view,
                        *self,
                        *collectors,
                        first,
                        before,
                        Ok(()),
                        rows + expansion::direct_row(view, left@[i as int], right@, j as int),
                    ),
                decreases right.len() - j,
            {
                let ghost done = rows + expansion::direct_row(
                    view,
                    left@[i as int],
                    right@,
                    j as int,
                );
                let ghost middle = *self;
                let ghost collectors_middle = *collectors;
                assert(right@[j as int] < view.contract_count());
                if left[i] != right[j] && !contracts_share_retained_token(
                    features,
                    left[i],
                    right[j],
                ) {
                    let edge = Edge::new(left[i], right[j]);
                    let result = self.push(features, collectors, edge);
                    proof {
                        lemma_lane_steps_more(
                            view,
                            *self,
                            *collectors,
                            middle,
                            collectors_middle,
                            first,
                            before,
                            Ok(()),
                            result,
                            done,
                            seq![edge],
                        );
                        assert(done + seq![edge] =~= rows + expansion::direct_row(
                            view,
                            left@[i as int],
                            right@,
                            j + 1,
                        ));
                    }
                    if let Err(error) = result {
                        proof {
                            expansion::lemma_direct_row_grows(
                                view,
                                left@[i as int],
                                right@,
                                j + 1,
                                right@.len() as int,
                            );
                            expansion::lemma_direct_rows_grow(
                                view,
                                left@,
                                right@,
                                i + 1,
                                left@.len() as int,
                            );
                            let row = expansion::direct_row(view, left@[i as int], right@, j + 1);
                            let full = expansion::direct_row(
                                view,
                                left@[i as int],
                                right@,
                                right@.len() as int,
                            );
                            let all = expansion::direct_pairs(view, left@, right@);
                            submission::lemma_begins_more(rows, full, row);
                            submission::lemma_begins_more(all, rows + full, rows + row);
                            lemma_lane_fails(
                                view,
                                *self,
                                *collectors,
                                first,
                                before,
                                result,
                                rows + row,
                                all,
                            );
                        }
                        return Err(error);
                    }
                }
                j = j + 1;
            }
            i = i + 1;
        }
        Ok(())
    }
}

impl CatalogLane {
    /// Expands two atoms, where they match, and submits full batches. Returns the number of
    /// pairs.
    pub fn expand<F: Fn(u32, u32, bool) -> bool>(
        &mut self,
        features: &FeatureView,
        collectors: &mut ScopeCollectors,
        left_atom: u32,
        right_atom: u32,
        proven: bool,
        scorer: &F,
    ) -> (result: Result<u64, PipelineError>)
        requires
            is_expandable(*features, old(self).config.chain_count as int),
            old(self).wf(*features),
            old(collectors).wf(),
            submission::covers_chains(*old(collectors), old(self).config.chain_count as int),
            left_atom < atoms::atom_count(*features),
            right_atom < atoms::atom_count(*features),
            is_scorer(*scorer),
        ensures
            result matches Ok(work) ==> work == pair_work(
                *features,
                *scorer,
                left_atom,
                right_atom,
                proven,
            ),
            lane_steps(
                *features,
                *final(self),
                *final(collectors),
                *old(self),
                *old(collectors),
                outcome(result),
                emitted_pair(
                    *features,
                    *scorer,
                    left_atom,
                    right_atom,
                    proven,
                    old(self).config.bounded_mode,
                    old(self).config.chain_count as int,
                ),
            ),
            final(self).pending_expansion == old(self).pending_expansion,
    {
        if self.config.bounded_mode {
            self.expand_bounded(features, collectors, left_atom, right_atom, proven, scorer)
        } else {
            self.expand_streaming(features, collectors, left_atom, right_atom, proven, scorer)
        }
    }

    fn expand_streaming<F: Fn(u32, u32, bool) -> bool>(
        &mut self,
        features: &FeatureView,
        collectors: &mut ScopeCollectors,
        left_atom: u32,
        right_atom: u32,
        proven: bool,
        scorer: &F,
    ) -> (result: Result<u64, PipelineError>)
        requires
            is_expandable(*features, old(self).config.chain_count as int),
            old(self).wf(*features),
            old(collectors).wf(),
            submission::covers_chains(*old(collectors), old(self).config.chain_count as int),
            left_atom < atoms::atom_count(*features),
            right_atom < atoms::atom_count(*features),
            is_scorer(*scorer),
        ensures
            result matches Ok(work) ==> work == pair_work(
                *features,
                *scorer,
                left_atom,
                right_atom,
                proven,
            ),
            lane_steps(
                *features,
                *final(self),
                *final(collectors),
                *old(self),
                *old(collectors),
                outcome(result),
                emitted_pair(
                    *features,
                    *scorer,
                    left_atom,
                    right_atom,
                    proven,
                    false,
                    old(self).config.chain_count as int,
                ),
            ),
            final(self).pending_expansion == old(self).pending_expansion,
    {
        let ghost view = *features;
        let ghost c = self.config.chain_count as int;
        let ghost first = *self;
        let ghost before = *collectors;
        let ghost emitted = emitted_pair(view, *scorer, left_atom, right_atom, proven, false, c);
        let work: u64 = expand_catalog_atom_pair_streaming(
            features,
            left_atom,
            right_atom,
            proven,
            scorer,
            self.config.chain_count,
            &mut self.batch,
        );
        let ghost middle = *self;
        proof {
            assert(self.batch@ == first.batch@ + emitted);
            assert forall|i: int| 0 <= i < self.batch@.len() implies (
            #[trigger] self.batch@[i]).left < view.contract_count() && self.batch@[i].right
                < view.contract_count() by {
                if i < first.batch@.len() {
                    assert(self.batch@[i] == first.batch@[i]);
                } else {
                    let a = atoms::members_of(view, left_atom as int);
                    let b = atoms::members_of(view, right_atom as int);
                    atoms::lemma_members_known(view, left_atom as int);
                    atoms::lemma_members_known(view, right_atom as int);
                    lemma_expanded_ends(view, a, b, c, i - first.batch@.len());
                }
            }
            submission::lemma_moves_none(
                before,
                first.batch@,
                emitted,
                view.contract_chain@,
                c,
            );
            collectors::lemma_continues_on(before, before, before);
            assert(lane_steps(view, middle, before, first, before, Ok(()), emitted));
        }
        if self.batch.len() >= self.config.edge_batch {
            let result = self.submit(features, collectors);
            proof {
                lemma_lane_steps_more(
                    view,
                    *self,
                    *collectors,
                    middle,
                    before,
                    first,
                    before,
                    Ok(()),
                    result,
                    emitted,
                    Seq::empty(),
                );
                assert(emitted + Seq::<Edge>::empty() =~= emitted);
            }
            if let Err(error) = result {
                return Err(error);
            }
        }
        Ok(work)
    }

    fn expand_bounded<F: Fn(u32, u32, bool) -> bool>(
        &mut self,
        features: &FeatureView,
        collectors: &mut ScopeCollectors,
        left_atom: u32,
        right_atom: u32,
        proven: bool,
        scorer: &F,
    ) -> (result: Result<u64, PipelineError>)
        requires
            is_expandable(*features, old(self).config.chain_count as int),
            old(self).wf(*features),
            old(collectors).wf(),
            submission::covers_chains(*old(collectors), old(self).config.chain_count as int),
            left_atom < atoms::atom_count(*features),
            right_atom < atoms::atom_count(*features),
            is_scorer(*scorer),
        ensures
            result matches Ok(work) ==> work == pair_work(
                *features,
                *scorer,
                left_atom,
                right_atom,
                proven,
            ),
            lane_steps(
                *features,
                *final(self),
                *final(collectors),
                *old(self),
                *old(collectors),
                outcome(result),
                emitted_pair(
                    *features,
                    *scorer,
                    left_atom,
                    right_atom,
                    proven,
                    true,
                    old(self).config.chain_count as int,
                ),
            ),
            final(self).pending_expansion == old(self).pending_expansion,
    {
        let ghost view = *features;
        let ghost c = self.config.chain_count as int;
        let ghost first = *self;
        let ghost before = *collectors;
        if !catalog_atom_score(features, left_atom, right_atom, proven, scorer) {
            proof {
                lemma_no_step(view, first, before);
            }
            return Ok(0);
        }
        let left = atom_contracts(features, left_atom);
        let right = atom_contracts(features, right_atom);
        proof {
            lemma_product_fits(left@.len(), right@.len());
        }
        let work: u64 = left.len() as u64 * right.len() as u64;
        if work >= expansion::FOREST_FAST_PATH_MIN_PAIR_WORK as u64
            && retained_tokens_disjoint_bounded(features, left, right) {
            let left_roots = chain_roots(features, left, self.config.chain_count);
            let right_roots = chain_roots(features, right, self.config.chain_count);
            let result = self.push_root_rows(
                features,
                collectors,
                right,
                &right_roots,
                left,
                &left_roots,
                false,
            );
            if let Err(error) = result {
                proof {
                    let rows = expansion::root_rows(
                        view,
                        right@,
                        left@,
                        c,
                        false,
                        right@.len() as int,
                    );
                    let others = expansion::root_rows(
                        view,
                        left@,
                        right@,
                        c,
                        true,
                        left@.len() as int,
                    );
                    submission::lemma_begins(rows, others);
                    lemma_lane_fails(
                        view,
                        *self,
                        *collectors,
                        first,
                        before,
                        result,
                        rows,
                        rows + others,
                    );
                }
                return Err(error);
            }
            let ghost middle = *self;
            let ghost collectors_middle = *collectors;
            let next = self.push_root_rows(
                features,
                collectors,
                left,
                &left_roots,
                right,
                &right_roots,
                true,
            );
            proof {
                lemma_lane_steps_more(
                    view,
                    *self,
                    *collectors,
                    middle,
                    collectors_middle,
                    first,
                    before,
                    result,
                    next,
                    expansion::root_rows(view, right@, left@, c, false, right@.len() as int),
                    expansion::root_rows(view, left@, right@, c, true, left@.len() as int),
                );
            }
            if let Err(error) = next {
                return Err(error);
            }
            return Ok(work);
        }
        let result = self.push_direct_pairs(features, collectors, left, right);
        if let Err(error) = result {
            return Err(error);
        }
        Ok(work)
    }
}

/// Whether a step succeeded.
pub open spec fn outcome<T>(result: Result<T, PipelineError>) -> Result<(), PipelineError> {
    match result {
        Ok(_) => Ok(()),
        Err(error) => Err(error),
    }
}

/// The pairs of atoms that a job was routed to.
#[derive(Debug, Clone)]
pub struct RoutedJob {
    pub pairs: Vec<(u32, u32)>,
    /// The portions of routing work.
    pub work: Vec<u64>,
    /// What routing took, up to and with this job.
    pub totals: SerializableIndexMetrics,
}

/// The pairs of a job, each with whether templates are known to match.
pub open spec fn job_candidates(pairs: Seq<(u32, u32)>, proven: bool) -> Seq<(u32, u32, bool)> {
    Seq::new(pairs.len(), |k: int| (pairs[k].0, pairs[k].1, proven))
}

/// The templates of a job's candidates are known to match.
pub open spec fn is_proven(job: JobDescriptor) -> bool {
    job.shape == JobShape::LeftTileFanout
}

/// The candidates of the first `count` jobs in order; jobs outside the catalog have none.
pub open spec fn candidates(
    jobs: Seq<JobDescriptor>,
    order: Seq<u32>,
    routed: Seq<RoutedJob>,
    count: int,
) -> Seq<(u32, u32, bool)>
    decreases count,
{
    if count <= 0 {
        Seq::empty()
    } else if order[count - 1] < jobs.len() {
        candidates(jobs, order, routed, count - 1) + job_candidates(
            routed[count - 1].pairs@,
            is_proven(jobs[order[count - 1] as int]),
        )
    } else {
        candidates(jobs, order, routed, count - 1)
    }
}

/// The sum of portions of work.
pub open spec fn work_sum(work: Seq<u64>) -> nat
    decreases work.len(),
{
    if work.len() == 0 {
        0
    } else {
        work_sum(work.drop_last()) + work.last() as nat
    }
}

/// The routing work of the first `count` jobs.
pub open spec fn routing_sum(
    jobs: Seq<JobDescriptor>,
    order: Seq<u32>,
    routed: Seq<RoutedJob>,
    count: int,
) -> nat
    decreases count,
{
    if count <= 0 {
        0
    } else if order[count - 1] < jobs.len() {
        routing_sum(jobs, order, routed, count - 1) + work_sum(routed[count - 1].work@)
    } else {
        routing_sum(jobs, order, routed, count - 1)
    }
}

/// What routing the first `count` jobs took.
pub open spec fn routing_totals(
    jobs: Seq<JobDescriptor>,
    order: Seq<u32>,
    routed: Seq<RoutedJob>,
    count: int,
) -> SerializableIndexMetrics
    decreases count,
{
    if count <= 0 {
        no_metrics()
    } else if order[count - 1] < jobs.len() {
        routed[count - 1].totals
    } else {
        routing_totals(jobs, order, routed, count - 1)
    }
}

/// The direct edges of the matching candidates.
pub open spec fn matched_edges<F: Fn(u32, u32, bool) -> bool>(
    view: FeatureView,
    scorer: F,
    some: Seq<(u32, u32, bool)>,
) -> Seq<Edge>
    decreases some.len(),
{
    if some.len() == 0 {
        Seq::empty()
    } else {
        let last = some.last();
        matched_edges(view, scorer, some.drop_last()) + pair_edges(
            view,
            scorer,
            last.0,
            last.1,
            last.2,
        )
    }
}

/// The edges that the matching candidates emit.
pub open spec fn emitted_edges<F: Fn(u32, u32, bool) -> bool>(
    view: FeatureView,
    scorer: F,
    some: Seq<(u32, u32, bool)>,
    bounded: bool,
    chain_count: int,
) -> Seq<Edge>
    decreases some.len(),
{
    if some.len() == 0 {
        Seq::empty()
    } else {
        let last = some.last();
        emitted_edges(view, scorer, some.drop_last(), bounded, chain_count) + emitted_pair(
            view,
            scorer,
            last.0,
            last.1,
            last.2,
            bounded,
            chain_count,
        )
    }
}

/// The pairs of contracts that the matching candidates expand to.
pub open spec fn expansion_work<F: Fn(u32, u32, bool) -> bool>(
    view: FeatureView,
    scorer: F,
    some: Seq<(u32, u32, bool)>,
) -> nat
    decreases some.len(),
{
    if some.len() == 0 {
        0
    } else {
        let last = some.last();
        expansion_work(view, scorer, some.drop_last()) + pair_work(
            view,
            scorer,
            last.0,
            last.1,
            last.2,
        )
    }
}

/// The candidates are pairs of atoms.
pub open spec fn are_atom_pairs(view: FeatureView, pairs: Seq<(u32, u32)>) -> bool {
    forall|k: int|
        0 <= k < pairs.len() ==> (#[trigger] pairs[k]).0 < atoms::atom_count(view) && pairs[k].1
            < atoms::atom_count(view)
}

/// What the candidates emit connects, in every scope, what their direct edges connect.
pub proof fn lemma_emitted_connectivity<F: Fn(u32, u32, bool) -> bool>(
    view: FeatureView,
    scorer: F,
    some: Seq<(u32, u32, bool)>,
    bounded: bool,
    chain_count: int,
)
    requires
        is_expandable(view, chain_count),
        forall|k: int|
            0 <= k < some.len() ==> (#[trigger] some[k]).0 < atoms::atom_count(view) && some[k].1
                < atoms::atom_count(view),
    ensures
        submission::same_scopes(
            emitted_edges(view, scorer, some, bounded, chain_count),
            matched_edges(view, scorer, some),
            view.contract_chain@,
            chain_count,
        ),
    decreases some.len(),
{
    if some.len() > 0 {
        let rest = some.drop_last();
        let last = some.last();
        assert forall|k: int| 0 <= k < rest.len() implies (#[trigger] rest[k]).0
            < atoms::atom_count(view) && rest[k].1 < atoms::atom_count(view) by {
            assert(rest[k] == some[k]);
        }
        assert(last == some[some.len() - 1]);
        lemma_emitted_connectivity(view, scorer, rest, bounded, chain_count);
        lemma_emitted_pair(view, scorer, last.0, last.1, last.2, bounded, chain_count);
        submission::lemma_same_scopes_concat(
            emitted_edges(view, scorer, rest, bounded, chain_count),
            emitted_pair(view, scorer, last.0, last.1, last.2, bounded, chain_count),
            matched_edges(view, scorer, rest),
            pair_edges(view, scorer, last.0, last.1, last.2),
            view.contract_chain@,
            chain_count,
        );
    } else {
        submission::lemma_same_scopes_reflexive(Seq::empty(), view.contract_chain@, chain_count);
    }
}

/// Where the candidates have no direct edges, they emit nothing.
pub proof fn lemma_emitted_none<F: Fn(u32, u32, bool) -> bool>(
    view: FeatureView,
    scorer: F,
    some: Seq<(u32, u32, bool)>,
    bounded: bool,
    chain_count: int,
)
    requires
        is_expandable(view, chain_count),
        forall|k: int|
            0 <= k < some.len() ==> (#[trigger] some[k]).0 < atoms::atom_count(view) && some[k].1
                < atoms::atom_count(view),
    ensures
        matched_edges(view, scorer, some).len() == 0 ==> emitted_edges(
            view,
            scorer,
            some,
            bounded,
            chain_count,
        ).len() == 0,
    decreases some.len(),
{
    if some.len() > 0 {
        let rest = some.drop_last();
        let last = some.last();
        assert forall|k: int| 0 <= k < rest.len() implies (#[trigger] rest[k]).0
            < atoms::atom_count(view) && rest[k].1 < atoms::atom_count(view) by {
            assert(rest[k] == some[k]);
        }
        assert(last == some[some.len() - 1]);
        lemma_emitted_none(view, scorer, rest, bounded, chain_count);
        let left = atoms::members_of(view, last.0 as int);
        let right = atoms::members_of(view, last.1 as int);
        atoms::lemma_members_known(view, last.0 as int);
        atoms::lemma_members_known(view, last.1 as int);
        if expansion::direct_pairs(view, left, right).len() == 0 {
            expansion::lemma_emits_none(view, left, right, chain_count);
        }
    }
}

/// A report on catalog pairs.
pub open spec fn is_catalog_report(
    event: ProgressEvent,
    completed: int,
    routed: u64,
    expanded: int,
    matched: u64,
) -> bool {
    &&& is_catalog_event(event)
    &&& event.completed == (if completed <= u64::MAX {
        completed as u64
    } else {
        u64::MAX
    })
    &&& event.counters.candidates == routed
    &&& event.counters.expanded == expanded
    &&& event.counters.matched == matched
}

/// The event is of catalog pairs, of which no total is known; all routed pairs were scored.
pub open spec fn is_catalog_event(event: ProgressEvent) -> bool {
    &&& event.phase == ProgressPhase::CatalogPairs
    &&& event.unit == WorkUnit::Pairs
    &&& event.work_class == WorkClass::Generic
    &&& event.total is None
    &&& event.total_kind == TotalKind::Unknown
    &&& event.counters.scored == event.counters.candidates
    &&& event.counters.groups == 0
}

/// Reports of catalog pairs were added.
pub open spec fn tells_catalog(after: Seq<ProgressEvent>, before: Seq<ProgressEvent>) -> bool {
    &&& extends(after, before)
    &&& forall|k: int| before.len() <= k < after.len() ==> is_catalog_event(#[trigger] after[k])
}

proof fn lemma_tells_catalog(
    last: Seq<ProgressEvent>,
    middle: Seq<ProgressEvent>,
    first: Seq<ProgressEvent>,
)
    requires
        tells_catalog(last, middle),
        tells_catalog(middle, first),
    ensures
        tells_catalog(last, first),
        forall|k: int| 0 <= k < middle.len() ==> #[trigger] last[k] == middle[k],
{
    lemma_extends(last, middle, first);
    assert forall|k: int| 0 <= k < middle.len() implies #[trigger] last[k] == middle[k] by {
        assert(last.take(middle.len() as int)[k] == last[k]);
    }
    assert forall|k: int| first.len() <= k < last.len() implies is_catalog_event(
        #[trigger] last[k],
    ) by {
        if k < middle.len() {
            assert(is_catalog_event(middle[k]));
        }
    }
}

/// The progress of scoring the catalog.
#[derive(Debug, Clone, Copy)]
pub struct CatalogTotals {
    pub completed: u64,
    pub expanded: u64,
    pub metrics: SerializableIndexMetrics,
}

impl CatalogTotals {
    fn report(&self, matched: u64, reports: &mut Vec<ProgressEvent>)
        ensures
            final(reports)@.len() == old(reports)@.len() + 1,
            final(reports)@.drop_last() == old(reports)@,
            is_catalog_report(
                final(reports)@.last(),
                self.completed + self.expanded,
                self.metrics.routed_pairs,
                self.expanded as int,
                matched,
            ),
    {
        let counters = ProgressCounters {
            candidates: self.metrics.routed_pairs,
            scored: self.metrics.routed_pairs,
            expanded: self.expanded,
            matched,
            groups: 0,
        };
        reports.push(
            ProgressEvent::indeterminate(
                ProgressPhase::CatalogPairs,
                self.completed.saturating_add(self.expanded),
                WorkUnit::Pairs,
                counters,
            ),
        );
        assert(reports@.drop_last() =~= old(reports)@);
    }

    /// Counts expansion work.
    fn add_expansion(&mut self, work: u64, matched: u64, reports: &mut Vec<ProgressEvent>) -> (result: Result<
        (),
        PipelineError,
    >)
        ensures
            final(self).completed == old(self).completed,
            final(self).metrics == old(self).metrics,
            tells_catalog(final(reports)@, old(reports)@),
            if old(self).expanded + work <= u64::MAX {
                result is Ok && final(self).expanded == old(self).expanded + work
            } else {
                result matches Err(e) && e@ == error::overflow_fault()
            },
    {
        match self.expanded.checked_add(work) {
            Some(expanded) => {
                self.expanded = expanded;
                self.report(matched, reports);
                assert(reports@.take(old(reports)@.len() as int) =~= old(reports)@);
                Ok(())
            },
            None => {
                assert(reports@.take(old(reports)@.len() as int) =~= old(reports)@);
                Err(overflow_error())
            },
        }
    }

    /// Counts routing work.
    fn add_routing(&mut self, work: u64, matched: u64, reports: &mut Vec<ProgressEvent>) -> (result: Result<
        (),
        PipelineError,
    >)
        ensures
            final(self).expanded == old(self).expanded,
            final(self).metrics == old(self).metrics,
            tells_catalog(final(reports)@, old(reports)@),
            if old(self).completed + work <= u64::MAX {
                result is Ok && final(self).completed == old(self).completed + work
            } else {
                result matches Err(e) && e@ == error::overflow_fault()
            },
    {
        assert(reports@.take(old(reports)@.len() as int) =~= old(reports)@);
        if work == 0 {
            return Ok(());
        }
        match self.completed.checked_add(work) {
            Some(completed) => {
                self.completed = completed;
                self.report(matched, reports);
                assert(reports@.take(old(reports)@.len() as int) =~= old(reports)@);
                Ok(())
            },
            None => Err(overflow_error()),
        }
    }
}

/// Reports were added.
pub open spec fn extends(after: Seq<ProgressEvent>, before: Seq<ProgressEvent>) -> bool {
    after.len() >= before.len() && after.take(before.len() as int) == before
}

/// The event is of a phase of which no total is known.
pub open spec fn is_open_event(event: ProgressEvent, phase: ProgressPhase, unit: WorkUnit) -> bool {
    &&& event.phase == phase
    &&& event.unit == unit
    &&& event.work_class == WorkClass::Generic
    &&& event.total is None
    &&& event.total_kind == TotalKind::Unknown
}

/// Reports of a phase without a known total were added.
pub open spec fn tells_open(
    after: Seq<ProgressEvent>,
    before: Seq<ProgressEvent>,
    phase: ProgressPhase,
    unit: WorkUnit,
) -> bool {
    &&& extends(after, before)
    &&& forall|k: int|
        before.len() <= k < after.len() ==> is_open_event(#[trigger] after[k], phase, unit)
}

/// Adding such reports twice is adding such reports.
pub proof fn lemma_tells_open(
    last: Seq<ProgressEvent>,
    middle: Seq<ProgressEvent>,
    first: Seq<ProgressEvent>,
    phase: ProgressPhase,
    unit: WorkUnit,
)
    requires
        tells_open(last, middle, phase, unit),
        tells_open(middle, first, phase, unit),
    ensures
        tells_open(last, first, phase, unit),
{
    lemma_extends(last, middle, first);
    assert forall|k: int| first.len() <= k < last.len() implies is_open_event(
        #[trigger] last[k],
        phase,
        unit,
    ) by {
        if k < middle.len() {
            assert(last.take(middle.len() as int)[k] == last[k]);
            assert(is_open_event(middle[k], phase, unit));
        }
    }
}

/// Adding reports twice is adding reports.
pub proof fn lemma_extends(last: Seq<ProgressEvent>, middle: Seq<ProgressEvent>, first: Seq<ProgressEvent>)
    requires
        extends(last, middle),
        extends(middle, first),
    ensures
        extends(last, first),
{
    assert(last.take(first.len() as int) =~= last.take(middle.len() as int).take(
        first.len() as int,
    ));
}

proof fn lemma_pair_work_bound<F: Fn(u32, u32, bool) -> bool>(
    view: FeatureView,
    scorer: F,
    left: u32,
    right: u32,
    proven: bool,
)
    requires
        atoms::atoms_sorted(view),
        left < atoms::atom_count(view),
        right < atoms::atom_count(view),
    ensures
        pair_work(view, scorer, left, right, proven) <= u64::MAX - EXPANSION_REPORT_PAIRS,
{
    let a = atoms::members_of(view, left as int).len();
    let b = atoms::members_of(view, right as int).len();
    atoms::lemma_members_known(view, left as int);
    atoms::lemma_members_known(view, right as int);
    assert(a * b <= 0xffff_ffff * 0xffff_ffff) by (nonlinear_arith)
        requires
            a <= 0xffff_ffff,
            b <= 0xffff_ffff,
    ;
}

/// What a failed scoring says: the collectors refused edges, or a count does not fit.
pub open spec fn score_fails(
    after: ScopeCollectors,
    before: ScopeCollectors,
    fault: PipelineFault,
    overflows: bool,
    edges: Seq<Edge>,
    chains: Seq<u32>,
    chain_count: int,
) -> bool {
    &&& after.wf()
    &&& after.continues(before)
    &&& before.is_cancelled() ==> after.is_cancelled()
    &&& if !before.is_cancelled() && after.is_cancelled() {
        submission::stops_on(after, before, edges, chains, chain_count, fault)
    } else {
        (fault == error::overflow_fault() && overflows) || (before.is_cancelled()
            && submission::is_refusal(fault, before, after, edges, chains, chain_count))
    }
}

/// Taking edges and then failing on others is failing on both, and on all that they begin.
pub proof fn lemma_score_fails(
    after: ScopeCollectors,
    between: ScopeCollectors,
    before: ScopeCollectors,
    fault: PipelineFault,
    overflows: bool,
    edges: Seq<Edge>,
    more: Seq<Edge>,
    all: Seq<Edge>,
    chains: Seq<u32>,
    chain_count: int,
)
    requires
        submission::gains(between, before, edges, chains, chain_count),
        between.continues(before),
        between.is_cancelled() == before.is_cancelled(),
        score_fails(after, between, fault, overflows, more, chains, chain_count),
        submission::begins(all, edges + more),
    ensures
        score_fails(after, before, fault, overflows, all, chains, chain_count),
{
    collectors::lemma_continues_on(after, between, before);
    if !before.is_cancelled() && after.is_cancelled() {
        submission::lemma_stops_on_later(
            after,
            between,
            before,
            edges,
            more,
            chains,
            chain_count,
            fault,
        );
        submission::lemma_stops_on_longer(
            after,
            before,
            edges + more,
            all,
            chains,
            chain_count,
            fault,
        );
    }
}

proof fn lemma_expansion_work_grows<F: Fn(u32, u32, bool) -> bool>(
    view: FeatureView,
    scorer: F,
    some: Seq<(u32, u32, bool)>,
    count: int,
    bounded: bool,
    chain_count: int,
)
    requires
        0 <= count <= some.len(),
    ensures
        expansion_work(view, scorer, some.take(count)) <= expansion_work(view, scorer, some),
        submission::begins(
            emitted_edges(view, scorer, some, bounded, chain_count),
            emitted_edges(view, scorer, some.take(count), bounded, chain_count),
        ),
    decreases some.len() - count,
{
    let all = emitted_edges(view, scorer, some, bounded, chain_count);
    let few = emitted_edges(view, scorer, some.take(count), bounded, chain_count);
    if count < some.len() {
        let next = some.take(count + 1);
        assert(next.drop_last() =~= some.take(count));
        lemma_expansion_work_grows(view, scorer, some, count + 1, bounded, chain_count);
        submission::lemma_begins(
            few,
            emitted_pair(
                view,
                scorer,
                next.last().0,
                next.last().1,
                next.last().2,
                bounded,
                chain_count,
            ),
        );
        submission::lemma_begins_more(
            all,
            emitted_edges(view, scorer, next, bounded, chain_count),
            few,
        );
    } else {
        assert(some.take(count) =~= some);
        assert(all.take(all.len() as int) =~= all);
    }
}

/// Scores the candidates of a job.
#[verifier::loop_isolation(false)]
fn score_job<F: Fn(u32, u32, bool) -> bool>(
    features: &FeatureView,
    lane: &mut CatalogLane,
    totals: &mut CatalogTotals,
    collectors: &mut ScopeCollectors,
    pairs: &Vec<(u32, u32)>,
    proven: bool,
    scorer: &F,
    reports: &mut Vec<ProgressEvent>,
) -> (result: Result<(), PipelineError>)
    requires
        is_expandable(*features, old(lane).config.chain_count as int),
        old(lane).wf(*features),
        old(lane).pending_expansion < EXPANSION_REPORT_PAIRS,
        old(collectors).wf(),
        submission::covers_chains(*old(collectors), old(lane).config.chain_count as int),
        are_atom_pairs(*features, pairs@),
        is_scorer(*scorer),
    ensures
        tells_catalog(final(reports)@, old(reports)@),
        final(totals).completed == old(totals).completed,
        final(totals).metrics == old(totals).metrics,
        ({
            let some = job_candidates(pairs@, proven);
            let work = old(totals).expanded + old(lane).pending_expansion + expansion_work(
                *features,
                *scorer,
                some,
            );
            match result {
                Ok(_) => {
                    &&& final(lane).pending_expansion < EXPANSION_REPORT_PAIRS
                    &&& final(totals).expanded + final(lane).pending_expansion == work
                    &&& lane_steps(
                        *features,
                        *final(lane),
                        *final(collectors),
                        *old(lane),
                        *old(collectors),
                        Ok(()),
                        emitted_edges(
                            *features,
                            *scorer,
                            some,
                            old(lane).config.bounded_mode,
                            old(lane).config.chain_count as int,
                        ),
                    )
                },
                Err(e) => {
                    &&& score_fails(
                        *final(collectors),
                        *old(collectors),
                        e@,
                        work > u64::MAX,
                        old(lane).batch@ + emitted_edges(
                            *features,
                            *scorer,
                            some,
                            old(lane).config.bounded_mode,
                            old(lane).config.chain_count as int,
                        ),
                        features.contract_chain@,
                        old(lane).config.chain_count as int,
                    )
                    &&& old(lane).batch@.len() + emitted_edges(
                        *features,
                        *scorer,
                        some,
                        old(lane).config.bounded_mode,
                        old(lane).config.chain_count as int,
                    ).len() == 0 ==> work > u64::MAX && *final(collectors) == *old(collectors)
                },
            }
        }),
{
    let ghost view = *features;
    let ghost some = job_candidates(pairs@, proven);
    let ghost bounded = lane.config.bounded_mode;
    let ghost c = lane.config.chain_count as int;
    let ghost first = *lane;
    let ghost before = *collectors;
    let ghost start = totals.expanded + lane.pending_expansion;
    let ghost told = reports@;
    let mut k: usize = 0;
    proof {
        lemma_no_step(view, first, before);
        assert(some.take(0) =~= Seq::<(u32, u32, bool)>::empty());
        assert(reports@.take(told.len() as int) =~= told);
    }
    while k < pairs.len()
        invariant
            k <= pairs@.len(),
            tells_catalog(reports@, told),
            totals.completed == old(totals).completed,
            totals.metrics == old(totals).metrics,
            lane.pending_expansion < EXPANSION_REPORT_PAIRS,
            totals.expanded + lane.pending_expansion == start + expansion_work(
                view,
                *scorer,
                some.take(k as int),
            ),
            lane_steps(
                view,
                *lane,
                *collectors,
                first,
                before,
                Ok(()),
                emitted_edges(view, *scorer, some.take(k as int), bounded, c),
            ),
        decreases pairs.len() - k,
    {
        let ghost done = emitted_edges(view, *scorer, some.take(k as int), bounded, c);
        let ghost middle = *lane;
        let ghost collectors_middle = *collectors;
        let ghost told_middle = reports@;
        let (left, right) = pairs[k];
        proof {
            assert(pairs@[k as int] == (left, right));
            assert(some.take(k + 1).drop_last() =~= some.take(k as int));
            assert(some.take(k + 1).last() == (left, right, proven));
            lemma_pair_work_bound(view, *scorer, left, right, proven);
            lemma_expansion_work_grows(view, *scorer, some, k + 1, bounded, c);
        }
        let expanded = lane.expand(features, collectors, left, right, proven, scorer);
        proof {
            lemma_lane_steps_more(
                view,
                *lane,
                *collectors,
                middle,
                collectors_middle,
                first,
                before,
                Ok(()),
                outcome(expanded),
                done,
                emitted_pair(view, *scorer, left, right, proven, bounded, c),
            );
        }
        let work: u64 = match expanded {
            Ok(work) => work,
            Err(error) => {
                proof {
                    let all = emitted_edges(view, *scorer, some, bounded, c);
                    let few = emitted_edges(view, *scorer, some.take(k + 1), bounded, c);
                    submission::lemma_begins_more(first.batch@, all, few);
                    if !before.is_cancelled() {
                        submission::lemma_stops_on_longer(
                            *collectors,
                            before,
                            first.batch@ + few,
                            first.batch@ + all,
                            view.contract_chain@,
                            c,
                            error@,
                        );
                    }
                }
                return Err(error);
            },
        };
        lane.pending_expansion = lane.pending_expansion.saturating_add(work);
        if lane.pending_expansion >= EXPANSION_REPORT_PAIRS {
            let matched: u64 = collectors.accepted_edges();
            let added = totals.add_expansion(lane.pending_expansion, matched, reports);
            proof {
                lemma_tells_catalog(reports@, told_middle, told);
            }
            if let Err(error) = added {
                return Err(error);
            }
            lane.pending_expansion = 0;
        }
        k = k + 1;
    }
    assert(some.take(k as int) =~= some);
    Ok(())
}

proof fn lemma_candidates_concat<F: Fn(u32, u32, bool) -> bool>(
    view: FeatureView,
    scorer: F,
    a: Seq<(u32, u32, bool)>,
    b: Seq<(u32, u32, bool)>,
    bounded: bool,
    chain_count: int,
)
    ensures
        emitted_edges(view, scorer, a + b, bounded, chain_count) == emitted_edges(
            view,
            scorer,
            a,
            bounded,
            chain_count,
        ) + emitted_edges(view, scorer, b, bounded, chain_count),
        expansion_work(view, scorer, a + b) == expansion_work(view, scorer, a) + expansion_work(
            view,
            scorer,
            b,
        ),
    decreases b.len(),
{
    let all = a + b;
    let emitted = emitted_edges(view, scorer, a, bounded, chain_count);
    if b.len() == 0 {
        assert(all =~= a);
        assert(emitted + emitted_edges(view, scorer, b, bounded, chain_count) =~= emitted);
    } else {
        lemma_candidates_concat(view, scorer, a, b.drop_last(), bounded, chain_count);
        assert(all.drop_last() =~= a + b.drop_last());
        assert(emitted_edges(view, scorer, all, bounded, chain_count) =~= emitted + emitted_edges(
            view,
            scorer,
            b,
            bounded,
            chain_count,
        ));
    }
}

proof fn lemma_candidates_grow<F: Fn(u32, u32, bool) -> bool>(
    view: FeatureView,
    scorer: F,
    jobs: Seq<JobDescriptor>,
    order: Seq<u32>,
    routed: Seq<RoutedJob>,
    count: int,
    more: int,
    bounded: bool,
    chain_count: int,
)
    requires
        0 <= count <= more,
    ensures
        expansion_work(view, scorer, candidates(jobs, order, routed, count)) <= expansion_work(
            view,
            scorer,
            candidates(jobs, order, routed, more),
        ),
        submission::begins(
            emitted_edges(
                view,
                scorer,
                candidates(jobs, order, routed, more),
                bounded,
                chain_count,
            ),
            emitted_edges(
                view,
                scorer,
                candidates(jobs, order, routed, count),
                bounded,
                chain_count,
            ),
        ),
        routing_sum(jobs, order, routed, count) <= routing_sum(jobs, order, routed, more),
    decreases more - count,
{
    let all = emitted_edges(
        view,
        scorer,
        candidates(jobs, order, routed, more),
        bounded,
        chain_count,
    );
    assert(all.take(all.len() as int) =~= all);
    if count < more {
        let few = emitted_edges(
            view,
            scorer,
            candidates(jobs, order, routed, count),
            bounded,
            chain_count,
        );
        let most = emitted_edges(
            view,
            scorer,
            candidates(jobs, order, routed, more - 1),
            bounded,
            chain_count,
        );
        lemma_candidates_grow(view, scorer, jobs, order, routed, count, more - 1, bounded, chain_count);
        if order[more - 1] < jobs.len() {
            lemma_candidates_concat(
                view,
                scorer,
                candidates(jobs, order, routed, more - 1),
                job_candidates(
                    routed[more - 1].pairs@,
                    is_proven(jobs[order[more - 1] as int]),
                ),
                bounded,
                chain_count,
            );
            submission::lemma_begins(
                most,
                emitted_edges(
                    view,
                    scorer,
                    job_candidates(
                        routed[more - 1].pairs@,
                        is_proven(jobs[order[more - 1] as int]),
                    ),
                    bounded,
                    chain_count,
                ),
            );
        }
        submission::lemma_begins_more(all, most, few);
    }
}

proof fn lemma_candidates_known(
    view: FeatureView,
    jobs: Seq<JobDescriptor>,
    order: Seq<u32>,
    routed: Seq<RoutedJob>,
    count: int,
    k: int,
)
    requires
        0 <= count <= routed.len(),
        forall|j: int|
            0 <= j < routed.len() ==> are_atom_pairs(view, (#[trigger] routed[j]).pairs@),
        0 <= k < candidates(jobs, order, routed, count).len(),
    ensures
        candidates(jobs, order, routed, count)[k].0 < atoms::atom_count(view),
        candidates(jobs, order, routed, count)[k].1 < atoms::atom_count(view),
    decreases count,
{
    let before = candidates(jobs, order, routed, count - 1);
    if k < before.len() {
        lemma_candidates_known(view, jobs, order, routed, count - 1, k);
    } else {
        let pairs = routed[count - 1].pairs@;
        assert(are_atom_pairs(view, pairs));
        assert(candidates(jobs, order, routed, count)[k].0 == pairs[k - before.len()].0);
    }
}

/// Some count of scoring the catalog does not fit: the pairs expanded and the routing work, or
/// the pairs expanded and routed.
pub open spec fn scoring_overflows<F: Fn(u32, u32, bool) -> bool>(
    view: FeatureView,
    scorer: F,
    jobs: Seq<JobDescriptor>,
    order: Seq<u32>,
    routed: Seq<RoutedJob>,
) -> bool {
    let count = order.len() as int;
    let expanded = expansion_work(view, scorer, candidates(jobs, order, routed, count));
    ||| expanded + routing_sum(jobs, order, routed, count) > u64::MAX
    ||| expanded + routing_totals(jobs, order, routed, count).routed_pairs > u64::MAX
}

proof fn lemma_work_sum_grows(work: Seq<u64>, count: int)
    requires
        0 <= count <= work.len(),
    ensures
        work_sum(work.take(count)) <= work_sum(work),
    decreases work.len() - count,
{
    if count < work.len() {
        assert(work.take(count + 1).drop_last() =~= work.take(count));
        lemma_work_sum_grows(work, count + 1);
    } else {
        assert(work.take(count) =~= work);
    }
}

/// Counts the routing work of a job.
#[verifier::loop_isolation(false)]
fn count_routing(
    totals: &mut CatalogTotals,
    work: &Vec<u64>,
    matched: u64,
    reports: &mut Vec<ProgressEvent>,
) -> (result: Result<(), PipelineError>)
    ensures
        final(totals).expanded == old(totals).expanded,
        final(totals).metrics == old(totals).metrics,
        tells_catalog(final(reports)@, old(reports)@),
        if old(totals).completed + work_sum(work@) <= u64::MAX {
            result is Ok && final(totals).completed == old(totals).completed + work_sum(work@)
        } else {
            result matches Err(e) && e@ == error::overflow_fault()
        },
{
    let ghost told = reports@;
    let ghost start = totals.completed;
    let mut w: usize = 0;
    assert(work@.take(0) =~= Seq::<u64>::empty());
    assert(reports@.take(told.len() as int) =~= told);
    while w < work.len()
        invariant
            w <= work@.len(),
            totals.expanded == old(totals).expanded,
            totals.metrics == old(totals).metrics,
            tells_catalog(reports@, told),
            totals.completed == start + work_sum(work@.take(w as int)),
        decreases work.len() - w,
    {
        let ghost middle = reports@;
        proof {
            assert(work@.take(w + 1).drop_last() =~= work@.take(w as int));
            lemma_work_sum_grows(work@, w + 1);
        }
        let added = totals.add_routing(work[w], matched, reports);
        proof {
            lemma_tells_catalog(reports@, middle, told);
        }
        if let Err(error) = added {
            return Err(error);
        }
        w = w + 1;
    }
    assert(work@.take(w as int) =~= work@);
    Ok(())
}

/// Scores the candidates of all jobs, in order, and submits the edges between the contracts of
/// matching atoms. Returns what routing took, and the number of pairs routed and expanded.
#[verifier::loop_isolation(false)]
#[verifier::rlimit(40)]
pub fn score_catalog<F: Fn(u32, u32, bool) -> bool>(
    features: &FeatureView,
    jobs: &CatalogJobs,
    order: &Vec<u32>,
    routed: &Vec<RoutedJob>,
    config: CatalogExecutionConfig,
    scorer: &F,
    collectors: &mut ScopeCollectors,
    reports: &mut Vec<ProgressEvent>,
) -> (result: Result<(SerializableIndexMetrics, u64), PipelineError>)
    requires
        is_expandable(*features, config.chain_count as int),
        jobs.wf(),
        routed@.len() == order@.len(),
        forall|k: int|
            0 <= k < routed@.len() ==> are_atom_pairs(*features, (#[trigger] routed@[k]).pairs@),
        is_scorer(*scorer),
        old(collectors).wf(),
        submission::covers_chains(*old(collectors), config.chain_count as int),
    ensures
        tells_catalog(final(reports)@, old(reports)@),
        final(collectors).wf(),
        final(collectors).continues(*old(collectors)),
        ({
            let count = order@.len() as int;
            let some = candidates(jobs@, order@, routed@, count);
            let totals = routing_totals(jobs@, order@, routed@, count);
            let expanded = expansion_work(*features, *scorer, some);
            match result {
                Ok((metrics, visits)) => {
                    &&& !scoring_overflows(*features, *scorer, jobs@, order@, routed@)
                    &&& metrics == totals
                    &&& visits == totals.routed_pairs + expanded
                    &&& submission::gains(
                        *final(collectors),
                        *old(collectors),
                        matched_edges(*features, *scorer, some),
                        features.contract_chain@,
                        config.chain_count as int,
                    )
                    &&& submission::gains(
                        *final(collectors),
                        *old(collectors),
                        emitted_edges(
                            *features,
                            *scorer,
                            some,
                            config.bounded_mode,
                            config.chain_count as int,
                        ),
                        features.contract_chain@,
                        config.chain_count as int,
                    )
                    &&& collectors::counts_more(
                        final(collectors).accepted(),
                        old(collectors).accepted(),
                        emitted_edges(
                            *features,
                            *scorer,
                            some,
                            config.bounded_mode,
                            config.chain_count as int,
                        ).len(),
                    )
                    &&& final(collectors).is_cancelled() == old(collectors).is_cancelled()
                    &&& is_catalog_report(
                        final(reports)@.last(),
                        (expanded + routing_sum(jobs@, order@, routed@, count)) as int,
                        totals.routed_pairs,
                        expanded as int,
                        final(collectors).accepted(),
                    )
                },
                Err(e) => score_fails(
                    *final(collectors),
                    *old(collectors),
                    e@,
                    scoring_overflows(*features, *scorer, jobs@, order@, routed@),
                    emitted_edges(
                        *features,
                        *scorer,
                        some,
                        config.bounded_mode,
                        config.chain_count as int,
                    ),
                    features.contract_chain@,
                    config.chain_count as int,
                ),
            }
        }),
        matched_edges(
            *features,
            *scorer,
            candidates(jobs@, order@, routed@, order@.len() as int),
        ).len() == 0 ==> *final(collectors) == *old(collectors) && (scoring_overflows(
            *features,
            *scorer,
            jobs@,
            order@,
            routed@,
        ) || result is Ok),
        is_catalog_report(final(reports)@[old(reports)@.len() as int], 0, 0, 0, 0),
{
    let ghost view = *features;
    let ghost c = config.chain_count as int;
    let ghost all = order@.len() as int;
    let ghost told = reports@;
    let ghost before = *collectors;
    let mut lane = CatalogLane::new(features, config);
    let ghost first = lane;
    let mut totals = CatalogTotals {
        completed: 0,
        expanded: 0,
        metrics: SerializableIndexMetrics::none(),
    };
    totals.report(0, reports);
    let ghost begun = reports@;
    let mut k: usize = 0;
    proof {
        assert forall|j: int| 0 <= j < candidates(
            jobs@,
            order@,
            routed@,
            all,
        ).len() implies (#[trigger] candidates(jobs@, order@, routed@, all)[j]).0
            < atoms::atom_count(view) && candidates(jobs@, order@, routed@, all)[j].1
            < atoms::atom_count(view) by {
            lemma_candidates_known(view, jobs@, order@, routed@, all, j);
        }
        lemma_emitted_none(
            view,
            *scorer,
            candidates(jobs@, order@, routed@, all),
            config.bounded_mode,
            c,
        );
        lemma_no_step(view, first, before);
        assert(reports@.take(told.len() as int) =~= told);
        assert(candidates(jobs@, order@, routed@, 0) =~= Seq::<(u32, u32, bool)>::empty());
    }
    while k < order.len()
        invariant
            k <= order@.len(),
            tells_catalog(reports@, told),
            reports@.len() >= begun.len(),
            reports@[told.len() as int] == begun[told.len() as int],
            lane.pending_expansion == 0,
            lane.batch@.len() == 0,
            totals.completed == routing_sum(jobs@, order@, routed@, k as int),
            totals.expanded == expansion_work(
                view,
                *scorer,
                candidates(jobs@, order@, routed@, k as int),
            ),
            totals.metrics == routing_totals(jobs@, order@, routed@, k as int),
            lane_steps(
                view,
                lane,
                *collectors,
                first,
                before,
                Ok(()),
                emitted_edges(
                    view,
                    *scorer,
                    candidates(jobs@, order@, routed@, k as int),
                    config.bounded_mode,
                    c,
                ),
            ),
        decreases order.len() - k,
    {
        let ghost some = candidates(jobs@, order@, routed@, k as int);
        let ghost done = emitted_edges(view, *scorer, some, config.bounded_mode, c);
        let ghost middle = lane;
        let ghost collectors_middle = *collectors;
        let ghost told_middle = reports@;
        if let Some(job) = jobs.get(order[k] as usize) {
            let proven: bool = match job.shape {
                JobShape::LeftTileFanout => true,
                JobShape::MicroBatch => false,
            };
            let ghost own = job_candidates(routed@[k as int].pairs@, proven);
            let ghost emitted = emitted_edges(view, *scorer, own, config.bounded_mode, c);
            proof {
                assert(are_atom_pairs(view, routed@[k as int].pairs@));
                assert(candidates(jobs@, order@, routed@, k + 1) == some + own);
                lemma_candidates_concat(view, *scorer, some, own, config.bounded_mode, c);
                lemma_candidates_grow(
                    view,
                    *scorer,
                    jobs@,
                    order@,
                    routed@,
                    k + 1,
                    all,
                    config.bounded_mode,
                    c,
                );
            }
            let scored = score_job(
                features,
                &mut lane,
                &mut totals,
                collectors,
                &routed[k].pairs,
                proven,
                scorer,
                reports,
            );
            proof {
                lemma_tells_catalog(reports@, told_middle, told);
                collectors::lemma_continues_on(*collectors, collectors_middle, before);
            }
            if let Err(error) = scored {
                proof {
                    assert(middle.batch@ + emitted =~= emitted);
                    assert(middle.batch@ =~= Seq::<Edge>::empty());
                    assert(first.batch@ =~= Seq::<Edge>::empty());
                    submission::lemma_moved_all(
                        collectors_middle,
                        before,
                        done,
                        view.contract_chain@,
                        c,
                    );
                    lemma_score_fails(
                        *collectors,
                        collectors_middle,
                        before,
                        error@,
                        scoring_overflows(view, *scorer, jobs@, order@, routed@),
                        done,
                        emitted,
                        emitted_edges(
                            view,
                            *scorer,
                            candidates(jobs@, order@, routed@, all),
                            config.bounded_mode,
                            c,
                        ),
                        view.contract_chain@,
                        c,
                    );
                }
                return Err(error);
            }
            proof {
                lemma_lane_steps_more(
                    view,
                    lane,
                    *collectors,
                    middle,
                    collectors_middle,
                    first,
                    before,
                    Ok(()),
                    Ok(()),
                    done,
                    emitted,
                );
            }
            let ghost told_scored = reports@;
            let ghost lane_scored = lane;
            let ghost collectors_scored = *collectors;
            let counted = count_routing(
                &mut totals,
                &routed[k].work,
                collectors.accepted_edges(),
                reports,
            );
            proof {
                lemma_tells_catalog(reports@, told_scored, told);
            }
            if let Err(error) = counted {
                return Err(error);
            }
            let submitted = lane.submit(features, collectors);
            proof {
                lemma_lane_steps_more(
                    view,
                    lane,
                    *collectors,
                    lane_scored,
                    collectors_scored,
                    first,
                    before,
                    Ok(()),
                    submitted,
                    done + emitted,
                    Seq::empty(),
                );
                assert(done + emitted + Seq::<Edge>::empty() =~= done + emitted);
            }
            if let Err(error) = submitted {
                proof {
                    assert(first.batch@ + (done + emitted) =~= done + emitted);
                    if !before.is_cancelled() {
                        submission::lemma_stops_on_longer(
                            *collectors,
                            before,
                            done + emitted,
                            emitted_edges(
                                view,
                                *scorer,
                                candidates(jobs@, order@, routed@, all),
                                config.bounded_mode,
                                c,
                            ),
                            view.contract_chain@,
                            c,
                            error@,
                        );
                    }
                }
                return Err(error);
            }
            let ghost told_counted = reports@;
            if lane.pending_expansion > 0 {
                let added = totals.add_expansion(
                    lane.pending_expansion,
                    collectors.accepted_edges(),
                    reports,
                );
                proof {
                    lemma_tells_catalog(reports@, told_counted, told);
                }
                if let Err(error) = added {
                    return Err(error);
                }
                lane.pending_expansion = 0;
            }
            let ghost told_added = reports@;
            totals.metrics = routed[k].totals;
            totals.report(collectors.accepted_edges(), reports);
            proof {
                assert(reports@.take(told_added.len() as int) =~= told_added);
                lemma_tells_catalog(reports@, told_added, told);
            }
        }
        k = k + 1;
    }
    let ghost some = candidates(jobs@, order@, routed@, all);
    let ghost told_all = reports@;
    if totals.completed.checked_add(totals.expanded).is_none() {
        return Err(overflow_error());
    }
    totals.report(collectors.accepted_edges(), reports);
    proof {
        assert(reports@.take(told_all.len() as int) =~= told_all);
        lemma_tells_catalog(reports@, told_all, told);
    }
    let visits: u64 = match totals.metrics.routed_pairs.checked_add(totals.expanded) {
        Some(visits) => visits,
        None => {
            return Err(overflow_error());
        },
    };
    proof {
        let emitted = emitted_edges(view, *scorer, some, config.bounded_mode, c);
        assert(lane.batch@ =~= Seq::<Edge>::empty());
        assert(first.batch@ =~= Seq::<Edge>::empty());
        submission::lemma_moved_all(*collectors, before, emitted, view.contract_chain@, c);
        assert forall|j: int| 0 <= j < some.len() implies (#[trigger] some[j]).0
            < atoms::atom_count(view) && some[j].1 < atoms::atom_count(view) by {
            lemma_candidates_known(view, jobs@, order@, routed@, all, j);
        }
        lemma_emitted_connectivity(view, *scorer, some, config.bounded_mode, c);
        submission::lemma_gains_same(
            *collectors,
            before,
            emitted,
            matched_edges(view, *scorer, some),
            view.contract_chain@,
            c,
        );
    }
    Ok((totals.metrics, visits))
}

} // verus!
