//! From scored candidates to component roots: the stages of a run, one after the other.

use crate::columns;
use crate::pipeline::atoms;
use crate::pipeline::catalog;
use crate::pipeline::catalog::{
    score_catalog, CatalogExecutionConfig, RoutedJob, SerializableIndexMetrics,
};
use crate::pipeline::chains;
use crate::pipeline::chains::ChainContractIndex;
use crate::pipeline::collectors;
use crate::pipeline::collectors::{ScopeCollectors, ScopeForestRuns};
use crate::pipeline::compaction;
use crate::pipeline::components;
use crate::pipeline::components::reduce_component_scopes;
use crate::pipeline::connectivity;
use crate::pipeline::connectivity::{reduce_total, stored_edge_count};
use crate::pipeline::error;
use crate::pipeline::error::{overflow_error, PipelineError, PipelineFault};
use crate::pipeline::fallback;
use crate::pipeline::fallback::append_fallback_atom_edges;
use crate::pipeline::pairs;
use crate::pipeline::rescue_edges;
use crate::pipeline::rescue_edges::append_rescue_edges;
use crate::pipeline::rescue_plan::RescueExecutionPlan;
use crate::pipeline::rescue_store::RescueSpillWrite;
use crate::pipeline::scopes;
use crate::pipeline::scopes::ScopeComponents;
use crate::pipeline::shared;
use crate::pipeline::shared::append_shared_token_edges;
use crate::pipeline::submission;
use crate::pipeline::summary_rows;
use crate::progress::{
    ProgressCounters, ProgressEvent, ProgressPhase, TotalKind, WorkClass, WorkUnit,
};
use crate::reduce::component;
use crate::reduce::error::ReduceFault;
use crate::reduce::graph;
use crate::reduce::graph::Edge;
use crate::reduce::storage::ForestRunStorage;
use crate::scheduler::jobs::CatalogJobs;
use crate::snapshot::features::FeatureView;
use vstd::prelude::*;

verus! {

/// The jobs of the catalog, the order in which they are scored, and what they were routed to.
pub struct CatalogStage<'a> {
    pub jobs: &'a CatalogJobs,
    pub order: &'a Vec<u32>,
    pub routed: &'a Vec<RoutedJob>,
    pub config: CatalogExecutionConfig,
}

/// The pairs that each token was routed to, and the limits of scoring them.
pub struct SharedStage<'a> {
    pub routes: &'a Vec<Vec<(u32, u32)>>,
    pub group_index_budget_bytes: u64,
    pub max_cache_entries: usize,
}

/// The rescue plan, and where its matches are.
pub struct RescueStage<'a> {
    pub plan: &'a RescueExecutionPlan,
    pub base: &'a Vec<(u32, u32)>,
    pub spill: &'a RescueSpillWrite,
    pub atom_path: &'a str,
    pub shared_path: &'a str,
    pub available: u64,
}

/// What the stages found.
pub struct MatchedContracts {
    pub runs: ScopeForestRuns,
    pub index_metrics: SerializableIndexMetrics,
    pub candidate_pair_visits: u64,
    pub accepted_edge_count: u64,
}

/// The matches of the catalog.
pub open spec fn catalog_matches<F: Fn(u32, u32, bool) -> bool>(
    features: FeatureView,
    stage: CatalogStage,
    scorer: F,
) -> Seq<Edge> {
    catalog::matched_edges(
        features,
        scorer,
        catalog::candidates(
            stage.jobs@,
            stage.order@,
            stage.routed@,
            stage.order@.len() as int,
        ),
    )
}

/// The matches of the tokens.
pub open spec fn shared_matches<G: Fn(u32, u32) -> bool>(
    features: FeatureView,
    stage: SharedStage,
    scorer: G,
) -> Seq<Edge> {
    shared::shared_edges(
        features,
        scorer,
        stage.routes@,
        stage.group_index_budget_bytes,
        features.token_member_offsets@.len() - 1,
    )
}

/// Every match of a run: within the atoms that no block covers, of the catalog, of the tokens,
/// and rescued.
pub open spec fn all_matches<F: Fn(u32, u32, bool) -> bool, G: Fn(u32, u32) -> bool>(
    features: FeatureView,
    catalog: CatalogStage,
    shared: SharedStage,
    rescue: RescueStage,
    scorer: F,
    pair_scorer: G,
) -> Seq<Edge> {
    fallback::fallback_edges(features, atoms::atom_count(features)) + catalog_matches(
        features,
        catalog,
        scorer,
    ) + shared_matches(features, shared, pair_scorer) + rescue_edges::plan_edges(
        features,
        rescue.plan.matches,
        rescue.base@,
        *rescue.spill,
    )
}

/// The edges that the stages submit: the forests of atoms, what candidates emit, and the matches
/// of tokens and of the rescue.
pub open spec fn submitted_edges<F: Fn(u32, u32, bool) -> bool, G: Fn(u32, u32) -> bool>(
    features: FeatureView,
    catalog: CatalogStage,
    shared: SharedStage,
    rescue: RescueStage,
    scorer: F,
    pair_scorer: G,
) -> Seq<Edge> {
    let some = catalog::candidates(
        catalog.jobs@,
        catalog.order@,
        catalog.routed@,
        catalog.order@.len() as int,
    );
    fallback::forest_edges(features, atoms::atom_count(features)) + catalog::emitted_edges(
        features,
        scorer,
        some,
        catalog.config.bounded_mode,
        catalog.config.chain_count as int,
    ) + shared_matches(features, shared, pair_scorer) + rescue_edges::plan_edges(
        features,
        rescue.plan.matches,
        rescue.base@,
        *rescue.spill,
    )
}

/// The visits of all stages.
pub open spec fn all_visits<F: Fn(u32, u32, bool) -> bool, G: Fn(u32, u32) -> bool>(
    features: FeatureView,
    catalog: CatalogStage,
    shared: SharedStage,
    rescue_visits: int,
    scorer: F,
    pair_scorer: G,
) -> int {
    let count = catalog.order@.len() as int;
    let some = catalog::candidates(catalog.jobs@, catalog.order@, catalog.routed@, count);
    rescue_visits + fallback::visit_total(features, atoms::atom_count(features))
        + catalog::routing_totals(
        catalog.jobs@,
        catalog.order@,
        catalog.routed@,
        count,
    ).routed_pairs + catalog::expansion_work(features, scorer, some) + shared::shared_visits(
        features,
        shared.routes@,
        shared.group_index_budget_bytes,
        features.token_member_offsets@.len() - 1,
    )
}

/// The stages fit the features.
pub open spec fn stages_fit(
    features: FeatureView,
    chain_count: int,
    catalog: CatalogStage,
    shared: SharedStage,
    rescue: RescueStage,
) -> bool {
    &&& catalog::is_expandable(features, chain_count)
    &&& atoms::atoms_have_one_chain(features)
    &&& atoms::atom_count(features) <= u32::MAX
    &&& shared::is_shareable(features, chain_count)
    &&& catalog.jobs.wf()
    &&& catalog.config.chain_count == chain_count
    &&& catalog.routed@.len() == catalog.order@.len()
    &&& forall|k: int|
        0 <= k < catalog.routed@.len() ==> catalog::are_atom_pairs(
            features,
            (#[trigger] catalog.routed@[k]).pairs@,
        )
    &&& shared.routes@.len() == features.token_member_offsets@.len() - 1
    &&& forall|token: int|
        0 <= token < shared.routes@.len() ==> shared::are_member_pairs(
            features,
            token,
            #[trigger] shared.routes@[token]@,
        )
    &&& rescue_edges::plan_known(features, rescue.plan.matches, rescue.base@, *rescue.spill)
}

/// A count of visits or pairs does not fit.
pub open spec fn match_overflows<F: Fn(u32, u32, bool) -> bool, G: Fn(u32, u32) -> bool>(
    features: FeatureView,
    catalog: CatalogStage,
    shared: SharedStage,
    rescue: RescueStage,
    scorer: F,
    pair_scorer: G,
) -> bool {
    let tokens = features.token_member_offsets@.len() - 1;
    ||| fallback::pair_total(features, atoms::atom_count(features)) > u64::MAX
    ||| catalog::scoring_overflows(
        features,
        scorer,
        catalog.jobs@,
        catalog.order@,
        catalog.routed@,
    )
    ||| shared::pairs_overflow(features, tokens)
    ||| shared::sharing_overflows(
        features,
        shared.routes@,
        shared.group_index_budget_bytes,
        tokens,
    )
    ||| all_visits(
        features,
        catalog,
        shared,
        matched_rescue_visits(*rescue.plan),
        scorer,
        pair_scorer,
    ) > u64::MAX
}

/// Spilled pairs were cut off.
pub open spec fn is_cut_off(rescue: RescueStage) -> bool {
    rescue.plan.matches is Spilled && (rescue.spill.atom@.len() % 8 != 0
        || rescue.spill.shared@.len() % 8 != 0)
}

/// The collectors stopped on the edges, or took them all in and could not be finished.
pub open spec fn is_collector_fault(
    fault: PipelineFault,
    collectors: ScopeCollectors,
    edges: Seq<Edge>,
    chains: Seq<u32>,
    chain_count: int,
) -> bool {
    ||| exists|after: ScopeCollectors|
        after.continues(collectors) && #[trigger] submission::stops_on(
            after,
            collectors,
            edges,
            chains,
            chain_count,
            fault,
        )
    ||| exists|last: ScopeCollectors|
        is_end(last, collectors, edges, chains, chain_count) && #[trigger] last.is_finish_fault(
            fault,
        )
}

/// The collectors took in all of the edges.
pub open spec fn is_end(
    last: ScopeCollectors,
    collectors: ScopeCollectors,
    edges: Seq<Edge>,
    chains: Seq<u32>,
    chain_count: int,
) -> bool {
    &&& last.wf()
    &&& !last.is_cancelled()
    &&& last.continues(collectors)
    &&& submission::gains(last, collectors, edges, chains, chain_count)
}

/// Charges or runs cannot be counted: while the edges were taken in, or at the end.
pub open spec fn is_uncounted(
    fault: PipelineFault,
    collectors: ScopeCollectors,
    edges: Seq<Edge>,
    chains: Seq<u32>,
    chain_count: int,
) -> bool {
    &&& fault == PipelineFault::Reduce(ReduceFault::WorkOverflow)
    &&& {
        ||| exists|after: ScopeCollectors|
            after.continues(collectors) && after.cannot_count()
                && #[trigger] submission::stops_on(
                after,
                collectors,
                edges,
                chains,
                chain_count,
                fault,
            )
        ||| exists|last: ScopeCollectors, slot: int|
            #![trigger last.is_finish_fault(fault), last.can_store(slot)]
            {
                &&& is_end(last, collectors, edges, chains, chain_count)
                &&& last.is_finish_fault(fault)
                &&& 0 <= slot < last.collector_count()
                &&& !last.can_store(slot)
            }
    }
}

/// No forest of the contracts exceeds the limits of the collectors.
pub open spec fn are_ample(collectors: ScopeCollectors, contracts: nat) -> bool {
    contracts <= collectors.nodes() && collectors.limits().are_ample()
}

proof fn lemma_stage_stop(
    after: ScopeCollectors,
    between: ScopeCollectors,
    first: ScopeCollectors,
    earlier: Seq<Edge>,
    own: Seq<Edge>,
    all: Seq<Edge>,
    chains: Seq<u32>,
    chain_count: int,
    fault: PipelineFault,
)
    requires
        first.wf(),
        !first.is_cancelled(),
        submission::gains(between, first, earlier, chains, chain_count),
        between.continues(first),
        after.continues(between),
        submission::stops_on(after, between, own, chains, chain_count, fault),
        submission::begins(all, earlier + own),
    ensures
        is_collector_fault(fault, first, all, chains, chain_count),
        fault matches PipelineFault::Reduce(fault) && first.limits().may_fail_with(fault),
        are_ample(first, chains.len()) ==> is_uncounted(fault, first, all, chains, chain_count),
{
    collectors::lemma_continues_on(after, between, first);
    submission::lemma_stops_on_later(
        after,
        between,
        first,
        earlier,
        own,
        chains,
        chain_count,
        fault,
    );
    submission::lemma_stops_on_longer(
        after,
        first,
        earlier + own,
        all,
        chains,
        chain_count,
        fault,
    );
    submission::lemma_stop_fault(after, first, all, chains, chain_count, fault);
    first.lemma_nodes();
    if are_ample(first, chains.len()) {
        submission::lemma_ample_stop(after, first, all, chains, chain_count, fault);
    }
}

proof fn lemma_end_fault(
    last: ScopeCollectors,
    first: ScopeCollectors,
    all: Seq<Edge>,
    chains: Seq<u32>,
    chain_count: int,
    fault: PipelineFault,
)
    requires
        is_end(last, first, all, chains, chain_count),
        last.is_finish_fault(fault),
    ensures
        is_collector_fault(fault, first, all, chains, chain_count),
        fault matches PipelineFault::Reduce(fault) && first.limits().may_fail_with(fault),
        are_ample(first, chains.len()) ==> is_uncounted(fault, first, all, chains, chain_count),
{
    last.lemma_finish_fault(fault);
    if are_ample(first, chains.len()) {
        first.limits().lemma_ample(fault->Reduce_0);
        let slot = choose|slot: int|
            0 <= slot < last.collector_count() && !#[trigger] last.can_store(slot);
        assert(last.is_finish_fault(fault) && !last.can_store(slot));
    }
}

/// Why matching fails: a count does not fit, the collectors stopped with a fault of their limits,
/// or spilled pairs were cut off. Where no forest of the contracts exceeds the limits, the
/// collectors stop only on what cannot be counted. Where nothing matches, collectors that can be
/// finished do not stop.
pub open spec fn is_match_fault<F: Fn(u32, u32, bool) -> bool, G: Fn(u32, u32) -> bool>(
    fault: PipelineFault,
    features: FeatureView,
    catalog: CatalogStage,
    shared: SharedStage,
    rescue: RescueStage,
    scorer: F,
    pair_scorer: G,
    collectors: ScopeCollectors,
) -> bool {
    ||| fault == error::overflow_fault() && match_overflows(
        features,
        catalog,
        shared,
        rescue,
        scorer,
        pair_scorer,
    )
    ||| {
        &&& fault matches PipelineFault::Reduce(own) && collectors.limits().may_fail_with(own)
        &&& is_collector_fault(
            fault,
            collectors,
            submitted_edges(features, catalog, shared, rescue, scorer, pair_scorer),
            features.contract_chain@,
            catalog.config.chain_count as int,
        )
        &&& are_ample(collectors, features.contract_chain@.len()) ==> is_uncounted(
            fault,
            collectors,
            submitted_edges(features, catalog, shared, rescue, scorer, pair_scorer),
            features.contract_chain@,
            catalog.config.chain_count as int,
        )
        &&& !collectors.can_finish() || all_matches(
            features,
            catalog,
            shared,
            rescue,
            scorer,
            pair_scorer,
        ).len() > 0
    }
    ||| rescue.plan.matches is Spilled && rescue.spill.atom@.len() % 8 != 0 && exists|filled: nat|
        fault == #[trigger] rescue_edges::truncation(rescue.atom_path@, filled)
    ||| rescue.plan.matches is Spilled && rescue.spill.shared@.len() % 8 != 0 && exists|filled: nat|
        fault == #[trigger] rescue_edges::truncation(rescue.shared_path@, filled)
}

/// Runs the stages: every match reaches the forests of its scopes, and nothing else does. The
/// collectors stop where their limits are exceeded; what they keep counts by the room that the
/// allocator gave, so that when it is merged or put aside is left open.
pub fn match_contracts<F: Fn(u32, u32, bool) -> bool, G: Fn(u32, u32) -> bool>(
    features: &FeatureView,
    chain_count: usize,
    catalog: &CatalogStage,
    shared: &SharedStage,
    rescue: &RescueStage,
    scorer: &F,
    pair_scorer: &G,
    collectors: ScopeCollectors,
    reports: &mut Vec<ProgressEvent>,
) -> (result: Result<MatchedContracts, PipelineError>)
    requires
        stages_fit(*features, chain_count as int, *catalog, *shared, *rescue),
        catalog::is_scorer(*scorer),
        shared::is_pair_scorer(*pair_scorer),
        collectors.wf(),
        !collectors.is_cancelled(),
        submission::covers_chains(collectors, chain_count as int),
        forall|scope: int|
            0 <= scope < collectors.scopes() ==> (#[trigger] collectors.submitted(scope)).len()
                == 0,
    ensures
        result matches Ok(matched) ==> {
            &&& !is_cut_off(*rescue)
            &&& !match_overflows(*features, *catalog, *shared, *rescue, *scorer, *pair_scorer)
            &&& matched.runs.pairs@.len() == collectors.scopes() - 2
            &&& matched.index_metrics == catalog::routing_totals(
                catalog.jobs@,
                catalog.order@,
                catalog.routed@,
                catalog.order@.len() as int,
            )
            &&& matched.candidate_pair_visits == all_visits(
                *features,
                *catalog,
                *shared,
                matched_rescue_visits(*rescue.plan),
                *scorer,
                *pair_scorer,
            )
            &&& forall|scope: int|
                0 <= scope < collectors.scopes() ==> holds_scope(
                    #[trigger] matched.runs.scope(scope),
                    collectors.nodes(),
                    collectors::scope_part(
                        all_matches(
                            *features,
                            *catalog,
                            *shared,
                            *rescue,
                            *scorer,
                            *pair_scorer,
                        ),
                        features.contract_chain@,
                        chain_count as int,
                        scope,
                    ),
                )
        },
        result matches Err(e) ==> is_match_fault(
            e@,
            *features,
            *catalog,
            *shared,
            *rescue,
            *scorer,
            *pair_scorer,
            collectors,
        ),
        all_matches(*features, *catalog, *shared, *rescue, *scorer, *pair_scorer).len() == 0
            && collectors.can_finish() && !is_cut_off(*rescue) && !match_overflows(
            *features,
            *catalog,
            *shared,
            *rescue,
            *scorer,
            *pair_scorer,
        ) ==> result is Ok,
        are_ample(collectors, features.contract_chain@.len()) && !is_cut_off(*rescue)
            && !match_overflows(
            *features,
            *catalog,
            *shared,
            *rescue,
            *scorer,
            *pair_scorer,
        ) ==> (result matches Err(e) ==> is_uncounted(
            e@,
            collectors,
            submitted_edges(
                *features,
                *catalog,
                *shared,
                *rescue,
                *scorer,
                *pair_scorer,
            ),
            features.contract_chain@,
            chain_count as int,
        )),
        result matches Ok(matched) ==> (all_matches(
            *features,
            *catalog,
            *shared,
            *rescue,
            *scorer,
            *pair_scorer,
        ).len() == 0 && collectors.is_fresh() ==> forall|scope: int|
            0 <= scope < collectors.scopes() ==> (#[trigger] matched.runs.scope(scope)).len() == 0),
        result matches Ok(matched) ==> collectors::counts_more(
            matched.accepted_edge_count,
            collectors.accepted(),
            submitted_edges(
                *features,
                *catalog,
                *shared,
                *rescue,
                *scorer,
                *pair_scorer,
            ).len(),
        ),
        catalog::extends(final(reports)@, old(reports)@),
        result matches Ok(matched) ==> final(reports)@.last() == dispatch_event(
            matched.accepted_edge_count,
        ),
{
    let ghost view = *features;
    let ghost chains = features.contract_chain@;
    let ghost c = chain_count as int;
    let ghost first = collectors;
    let rescue_visits: u64 = rescue.plan.total_visits();
    let mut collectors = collectors;
    let ghost told = reports@;
    let ghost one = fallback::fallback_edges(view, atoms::atom_count(view));
    let ghost two = catalog_matches(view, *catalog, *scorer);
    let ghost three = shared_matches(view, *shared, *pair_scorer);
    let ghost four = rescue_edges::plan_edges(view, rescue.plan.matches, rescue.base@, *rescue.spill);
    let ghost all = all_matches(view, *catalog, *shared, *rescue, *scorer, *pair_scorer);
    let ghost forests = fallback::forest_edges(view, atoms::atom_count(view));
    let ghost emitted = catalog::emitted_edges(
        view,
        *scorer,
        catalog::candidates(
            catalog.jobs@,
            catalog.order@,
            catalog.routed@,
            catalog.order@.len() as int,
        ),
        catalog.config.bounded_mode,
        c,
    );
    let ghost sent = submitted_edges(view, *catalog, *shared, *rescue, *scorer, *pair_scorer);
    proof {
        assert(sent == forests + emitted + three + four);
        submission::lemma_begins(sent, Seq::empty());
        submission::lemma_begins(forests, emitted);
        submission::lemma_begins(forests + emitted, three);
        submission::lemma_begins(forests + emitted + three, four);
        submission::lemma_begins_more(sent, forests + emitted + three, forests + emitted);
        submission::lemma_begins_more(sent, forests + emitted, forests);
        collectors::lemma_continues_on(first, first, first);
        submission::lemma_gains_none(first, chains, c);
        assert(Seq::<Edge>::empty() + forests =~= forests);
        assert(all == one + two + three + four);
        assert(all.len() == one.len() + two.len() + three.len() + four.len());
        shared::lemma_visits_grow(
            view,
            shared.routes@,
            shared.group_index_budget_bytes,
            0,
            view.token_member_offsets@.len() - 1,
        );
    }
    let fallback_visits: u64 = match append_fallback_atom_edges(
        features,
        &mut collectors,
        chain_count,
        reports,
    ) {
        Ok(visits) => visits,
        Err(error) => {
            proof {
                if collectors.is_cancelled() {
                    lemma_stage_stop(
                        collectors,
                        first,
                        first,
                        Seq::empty(),
                        forests,
                        sent,
                        chains,
                        c,
                        error@,
                    );
                }
            }
            return Err(error);
        },
    };
    let ghost after_fallback = collectors;
    let ghost told_fallback = reports@;
    proof {
        collectors::lemma_continues(after_fallback, first);
    }
    let admitted: u64 = match rescue_visits.checked_add(fallback_visits) {
        Some(sum) => sum,
        None => {
            return Err(overflow_error());
        },
    };
    let (index_metrics, catalog_visits) = match score_catalog(
        features,
        catalog.jobs,
        catalog.order,
        catalog.routed,
        catalog.config,
        scorer,
        &mut collectors,
        reports,
    ) {
        Ok(outcome) => outcome,
        Err(error) => {
            proof {
                catalog::lemma_extends(reports@, told_fallback, told);
                collectors::lemma_continues_on(collectors, after_fallback, first);
                if collectors.is_cancelled() {
                    lemma_stage_stop(
                        collectors,
                        after_fallback,
                        first,
                        forests,
                        emitted,
                        sent,
                        chains,
                        c,
                        error@,
                    );
                }
            }
            return Err(error);
        },
    };
    let ghost after_catalog = collectors;
    let ghost told_catalog = reports@;
    proof {
        catalog::lemma_extends(told_catalog, told_fallback, told);
        collectors::lemma_continues(after_catalog, after_fallback);
        submission::lemma_gains_more(after_catalog, after_fallback, first, one, two, chains, c);
        submission::lemma_gains_more(
            after_catalog,
            after_fallback,
            first,
            forests,
            emitted,
            chains,
            c,
        );
    }
    let admitted: u64 = match admitted.checked_add(catalog_visits) {
        Some(sum) => sum,
        None => {
            return Err(overflow_error());
        },
    };
    let shared_visits: u64 = match append_shared_token_edges(
        features,
        shared.routes,
        shared.group_index_budget_bytes,
        shared.max_cache_entries,
        pair_scorer,
        &mut collectors,
        chain_count,
        reports,
    ) {
        Ok(visits) => visits,
        Err(error) => {
            proof {
                catalog::lemma_extends(reports@, told_catalog, told);
                collectors::lemma_continues_on(after_catalog, after_fallback, first);
                collectors::lemma_continues_on(collectors, after_catalog, first);
                if collectors.is_cancelled() {
                    lemma_stage_stop(
                        collectors,
                        after_catalog,
                        first,
                        forests + emitted,
                        three,
                        sent,
                        chains,
                        c,
                        error@,
                    );
                }
            }
            return Err(error);
        },
    };
    let ghost after_shared = collectors;
    let ghost told_shared = reports@;
    proof {
        catalog::lemma_extends(told_shared, told_catalog, told);
        collectors::lemma_continues(after_shared, after_catalog);
        submission::lemma_gains_more(
            after_shared,
            after_catalog,
            first,
            one + two,
            three,
            chains,
            c,
        );
        submission::lemma_gains_more(
            after_shared,
            after_catalog,
            first,
            forests + emitted,
            three,
            chains,
            c,
        );
    }
    let candidate_pair_visits: u64 = match admitted.checked_add(shared_visits) {
        Some(sum) => sum,
        None => {
            return Err(overflow_error());
        },
    };
    match append_rescue_edges(
        features,
        rescue.plan,
        rescue.base,
        rescue.spill,
        rescue.atom_path,
        rescue.shared_path,
        rescue.available,
        &mut collectors,
        chain_count,
        reports,
    ) {
        Ok(_) => {},
        Err(error) => {
            proof {
                catalog::lemma_extends(reports@, told_shared, told);
                collectors::lemma_continues_on(after_catalog, after_fallback, first);
                collectors::lemma_continues_on(after_shared, after_catalog, first);
                collectors::lemma_continues_on(collectors, after_shared, first);
                if submission::stops_on(collectors, after_shared, four, chains, c, error@) {
                    lemma_stage_stop(
                        collectors,
                        after_shared,
                        first,
                        forests + emitted + three,
                        four,
                        sent,
                        chains,
                        c,
                        error@,
                    );
                }
            }
            return Err(error);
        },
    }
    let ghost last = collectors;
    let ghost told_rescue = reports@;
    proof {
        catalog::lemma_extends(told_rescue, told_shared, told);
        collectors::lemma_continues(last, after_shared);
        submission::lemma_gains_more(
            last,
            after_shared,
            first,
            one + two + three,
            four,
            chains,
            c,
        );
        submission::lemma_gains_more(
            last,
            after_shared,
            first,
            forests + emitted + three,
            four,
            chains,
            c,
        );
    }
    let accepted_edge_count: u64 = collectors.accepted_edges();
    let runs = match collectors.finish_with_progress(reports) {
        Ok(runs) => runs,
        Err(error) => {
            proof {
                collectors::lemma_continues_on(after_catalog, after_fallback, first);
                collectors::lemma_continues_on(after_shared, after_catalog, first);
                collectors::lemma_continues_on(last, after_shared, first);
                lemma_end_fault(last, first, sent, chains, c, error@);
                assert(reports@.take(told_rescue.len() as int) =~= told_rescue);
                catalog::lemma_extends(reports@, told_rescue, told);
            }
            return Err(error);
        },
    };
    let ghost told_finish = reports@;
    proof {
        assert(told_finish.take(told_rescue.len() as int) =~= told_rescue);
        catalog::lemma_extends(told_finish, told_rescue, told);
        if all.len() == 0 && first.is_fresh() {
            first.lemma_fresh_finish(runs, true);
            first.lemma_fresh_finish(runs, false);
        }
        if last.finishes(runs, true) {
            last.lemma_finish_proper(runs, true);
        } else {
            last.lemma_finish_proper(runs, false);
        }
        assert forall|scope: int| 0 <= scope < first.scopes() implies holds_scope(
            #[trigger] runs.scope(scope),
            first.nodes(),
            collectors::scope_part(all, chains, c, scope),
        ) by {
            let part = collectors::scope_part(all, chains, c, scope);
            assert(first.submitted(scope).len() == 0);
            assert(first.submitted(scope) + part =~= part);
            assert(graph::same_connectivity(last.submitted(scope), part));
            assert(graph::same_connectivity(
                component::storage_edges(runs.scope(scope)),
                last.submitted(scope),
            ));
        }
    }
    let counters = ProgressCounters {
        candidates: 0,
        scored: 0,
        expanded: 0,
        matched: 0,
        groups: 0,
    };
    reports.push(
        ProgressEvent::determinate(
            ProgressPhase::EdgeDispatch,
            accepted_edge_count,
            accepted_edge_count,
            WorkUnit::Edges,
            counters,
        ),
    );
    proof {
        assert(reports@.take(told_finish.len() as int) =~= told_finish);
        catalog::lemma_extends(reports@, told_finish, told);
    }
    Ok(MatchedContracts { runs, index_metrics, candidate_pair_visits, accepted_edge_count })
}

/// The report that all edges were dispatched.
pub open spec fn dispatch_event(edges: u64) -> ProgressEvent {
    ProgressEvent {
        phase: ProgressPhase::EdgeDispatch,
        completed: edges,
        total: Some(edges),
        unit: WorkUnit::Edges,
        work_class: WorkClass::Generic,
        total_kind: TotalKind::Exact,
        counters: ProgressCounters { candidates: 0, scored: 0, expanded: 0, matched: 0, groups: 0 },
    }
}

/// The visits that the rescue plan stands for.
pub open spec fn matched_rescue_visits(plan: RescueExecutionPlan) -> int {
    let visits = plan.atom_score_visits + plan.shared_score_visits + plan.contract_expansion_visits
        + plan.matched_shared_edge_count;
    if visits <= u64::MAX {
        visits
    } else {
        u64::MAX as int
    }
}

/// The forests of a scope connect what the edges connect, without loops.
pub open spec fn holds_scope(
    runs: Seq<ForestRunStorage>,
    nodes: u32,
    edges: Seq<Edge>,
) -> bool {
    &&& collectors::runs_over(runs, nodes)
    &&& collectors::are_proper_runs(runs, nodes)
    &&& graph::same_connectivity(component::storage_edges(runs), edges)
}

/// The roots of a scope, a root for every contract.
pub open spec fn global_roots(
    components: ScopeComponents,
    chains: Seq<u32>,
    chain_count: int,
    scope: int,
) -> Seq<u32> {
    if scope < 2 {
        components::roots_of(components, scope)
    } else {
        let pair = pairs::all_pairs(chain_count)[scope - 2];
        scopes::expanded(
            chains::pair_members(chains, pair.0 as int, pair.1 as int),
            components::roots_of(components, scope),
            chains.len(),
        )
    }
}

/// Two contracts get the same root in a scope exactly where matches of the scope connect them,
/// and that root is the least contract so connected.
pub open spec fn connects_matches(
    components: ScopeComponents,
    matches: Seq<Edge>,
    chains: Seq<u32>,
    chain_count: int,
) -> bool {
    forall|scope: int|
        0 <= scope < pairs::all_pairs(chain_count).len() + 2 ==> {
            &&& (#[trigger] global_roots(components, chains, chain_count, scope)).len()
                == chains.len()
            &&& graph::are_component_roots(
                collectors::scope_part(matches, chains, chain_count, scope),
                global_roots(components, chains, chain_count, scope),
            )
        }
}

/// Roots of edges are roots of edges that connect the same.
proof fn lemma_same_roots(edges: Seq<Edge>, other: Seq<Edge>, roots: Seq<u32>)
    requires
        graph::are_component_roots(edges, roots),
        graph::same_connectivity(edges, other),
    ensures
        graph::are_component_roots(other, roots),
{
    assert forall|node: int| 0 <= node < roots.len() implies graph::is_component_minimum(
        other,
        node,
        #[trigger] roots[node] as int,
    ) by {
        assert(graph::is_component_minimum(edges, node, roots[node] as int));
        assert(graph::connected(edges, node, roots[node] as int));
        assert forall|b: int| 0 <= b && #[trigger] graph::connected(other, node, b) implies
            roots[node] <= b by {
            assert(graph::connected(edges, node, b));
        }
    }
}

/// Reducing the forests of a run gives the components of its matches, in every scope.
pub proof fn lemma_components_of_matches(
    components: ScopeComponents,
    runs: ScopeForestRuns,
    matches: Seq<Edge>,
    chains: Seq<u32>,
    chain_count: int,
)
    requires
        0 <= chain_count <= u32::MAX,
        chains.len() <= u32::MAX,
        components::are_components(components, chains, chain_count, runs),
        forall|scope: int|
            0 <= scope < pairs::all_pairs(chain_count).len() + 2 ==> holds_scope(
                #[trigger] runs.scope(scope),
                chains.len() as u32,
                collectors::scope_part(matches, chains, chain_count, scope),
            ),
    ensures
        connects_matches(components, matches, chains, chain_count),
{
    let count = pairs::all_pairs(chain_count).len() + 2;
    assert forall|scope: int| 0 <= scope < count implies {
        &&& (#[trigger] global_roots(components, chains, chain_count, scope)).len() == chains.len()
        &&& graph::are_component_roots(
            collectors::scope_part(matches, chains, chain_count, scope),
            global_roots(components, chains, chain_count, scope),
        )
    } by {
        let edges = component::storage_edges(runs.scope(scope));
        let part = collectors::scope_part(matches, chains, chain_count, scope);
        let roots = components::roots_of(components, scope);
        assert(holds_scope(runs.scope(scope), chains.len() as u32, part));
        assert(components::are_scope_roots(
            components::kind_of(scope, chain_count),
            chains,
            edges,
            roots,
        ));
        if scope >= 2 {
            pairs::lemma_pairs_ordered(chain_count, chain_count, scope - 2);
            let pair = pairs::all_pairs(chain_count)[scope - 2];
            components::lemma_pair_roots_are_global(pair.0, pair.1, chains, edges, roots);
        }
        lemma_same_roots(edges, part, global_roots(components, chains, chain_count, scope));
    }
}

/// The roots of a scope are positions of its contracts.
pub proof fn lemma_roots_are_positions(
    components: ScopeComponents,
    runs: ScopeForestRuns,
    chains: Seq<u32>,
    chain_count: int,
)
    requires
        0 <= chain_count <= u32::MAX,
        chains.len() <= u32::MAX,
        components::are_components(components, chains, chain_count, runs),
    ensures
        summary_rows::have_positions(components),
{
    let count = pairs::all_pairs(chain_count).len();
    assert forall|scope: int| 0 <= scope < count + 2 implies summary_rows::are_positions(
        #[trigger] components::roots_of(components, scope),
    ) by {
        let roots = components::roots_of(components, scope);
        let edges = component::storage_edges(runs.scope(scope));
        let kind = components::kind_of(scope, chain_count);
        assert(components::are_scope_roots(kind, chains, edges, roots));
        if scope >= 2 {
            let pair = pairs::all_pairs(chain_count)[scope - 2];
            pairs::lemma_pairs_ordered(chain_count, chain_count, scope - 2);
            chains::lemma_pair_fits(chains, pair.0 as int, pair.1 as int);
            let names = chains::pair_members(chains, pair.0 as int, pair.1 as int);
            let local = choose|local: Seq<Edge>| #[trigger]
                components::localizes(edges, local, names) && graph::are_component_roots(
                    local,
                    roots,
                );
            lemma_roots_below(local, roots);
        } else {
            lemma_roots_below(edges, roots);
        }
    }
    assert(summary_rows::are_positions(components::roots_of(components, 0)));
    assert(summary_rows::are_positions(components::roots_of(components, 1)));
    assert forall|k: int| 0 <= k < components.chain_pair_roots@.len() implies
        summary_rows::are_positions((#[trigger] components.chain_pair_roots@[k]).roots@) by {
        assert(summary_rows::are_positions(components::roots_of(components, k + 2)));
    }
}

proof fn lemma_roots_below(edges: Seq<Edge>, roots: Seq<u32>)
    requires
        graph::are_component_roots(edges, roots),
    ensures
        forall|i: int| 0 <= i < roots.len() ==> (#[trigger] roots[i]) < roots.len(),
{
    assert forall|i: int| 0 <= i < roots.len() implies (#[trigger] roots[i]) < roots.len() by {
        assert(graph::is_component_minimum(edges, i, roots[i] as int));
        graph::lemma_connected_reflexive(edges, i);
    }
}

/// What a run gives.
pub struct MetadataRun {
    pub components: ScopeComponents,
    pub index_metrics: SerializableIndexMetrics,
    pub candidate_pair_visits: u64,
    pub accepted_edge_count: u64,
    pub edge_count: u64,
}

/// Why forests that hold the matches cannot be reduced: the work cannot be counted.
pub open spec fn is_reduce_fault(
    fault: PipelineFault,
    runs: ScopeForestRuns,
    matches: Seq<Edge>,
    chains: Seq<u32>,
    chain_count: int,
) -> bool {
    let scopes = pairs::all_pairs(chain_count).len() + 2;
    &&& runs.pairs@.len() == scopes - 2
    &&& forall|scope: int|
        0 <= scope < scopes ==> holds_scope(
            #[trigger] runs.scope(scope),
            chains.len() as u32,
            collectors::scope_part(matches, chains, chain_count, scope),
        )
    &&& fault == error::overflow_fault()
    &&& connectivity::work_below(runs, chains, chain_count, scopes as int) > u64::MAX
}

proof fn lemma_storage_proper(runs: Seq<ForestRunStorage>, node_count: u32)
    requires
        collectors::are_proper_runs(runs, node_count),
    ensures
        graph::are_proper(component::storage_edges(runs)),
        graph::all_within(component::storage_edges(runs), node_count as int),
    decreases runs.len(),
{
    if runs.len() > 0 {
        let rest = runs.drop_last();
        assert forall|r: int| 0 <= r < rest.len() implies graph::are_proper(
            (#[trigger] rest[r]).edges(),
        ) && graph::all_within(rest[r].edges(), node_count as int) by {
            assert(rest[r] == runs[r]);
        }
        lemma_storage_proper(rest, node_count);
        assert(runs.last() == runs[runs.len() - 1]);
    }
}

/// An end of a forest's edge is of the chains of its scope.
proof fn lemma_end_of_pair(
    edges: Seq<Edge>,
    matches: Seq<Edge>,
    chains: Seq<u32>,
    chain_count: int,
    scope: int,
    node: int,
    other: int,
)
    requires
        2 <= scope < pairs::all_pairs(chain_count).len() + 2,
        columns::all_below(chains, chain_count),
        graph::all_within(edges, chains.len() as int),
        graph::same_connectivity(
            edges,
            collectors::scope_part(matches, chains, chain_count, scope),
        ),
        graph::connected(edges, node, other),
        node != other,
    ensures
        ({
            let pair = pairs::all_pairs(chain_count)[scope - 2];
            components::is_of_pair(chains, node, pair.0 as int, pair.1 as int)
        }),
{
    let part = collectors::scope_part(matches, chains, chain_count, scope);
    assert(graph::connected(part, node, other));
    graph::lemma_connected_touches(part, node, other);
    let k = choose|k: int|
        0 <= k < part.len() && ((#[trigger] part[k]).left == node || part[k].right == node);
    let edge = part[k];
    assert(part.contains(edge));
    compaction::lemma_picked_members(
        matches,
        |edge: Edge|
            !compaction::is_intra(chains, edge) && compaction::pair_of(chains, chain_count, edge)
                == scope - 2,
        edge,
    );
    graph::lemma_edge_connects(part, k);
    assert(graph::connected(edges, edge.left as int, edge.right as int));
    graph::lemma_connected_touches(edges, edge.left as int, edge.right as int);
    let i = choose|i: int|
        0 <= i < edges.len() && ((#[trigger] edges[i]).left == edge.left || edges[i].right
            == edge.left);
    let j = choose|j: int|
        0 <= j < edges.len() && ((#[trigger] edges[j]).left == edge.right || edges[j].right
            == edge.right);
    assert(edges[i].within(chains.len() as int) && edges[j].within(chains.len() as int));
    let left = chains[edge.left as int] as int;
    let right = chains[edge.right as int] as int;
    assert(left < chain_count && right < chain_count);
    pairs::lemma_pair_position(pairs::lesser(left, right), pairs::greater(left, right), chain_count);
}

/// Forests that hold the matches of their scope can be reduced, where the work can be counted.
pub proof fn lemma_no_scope_fault(
    runs: ScopeForestRuns,
    matches: Seq<Edge>,
    chains: Seq<u32>,
    chain_count: int,
    scope: int,
    fault: ReduceFault,
)
    requires
        0 <= chain_count <= u32::MAX,
        chains.len() <= u32::MAX,
        columns::all_below(chains, chain_count),
        0 <= scope < pairs::all_pairs(chain_count).len() + 2,
        holds_scope(
            runs.scope(scope),
            chains.len() as u32,
            collectors::scope_part(matches, chains, chain_count, scope),
        ),
        connectivity::work_below(
            runs,
            chains,
            chain_count,
            pairs::all_pairs(chain_count).len() as int + 2,
        ) <= u64::MAX,
    ensures
        !components::is_scope_fault(
            components::kind_of(scope, chain_count),
            chains,
            runs.scope(scope),
            fault,
        ),
{
    let own = runs.scope(scope);
    let edges = component::storage_edges(own);
    let kind = components::kind_of(scope, chain_count);
    connectivity::lemma_work_grows(
        runs,
        chains,
        chain_count,
        scope + 1,
        pairs::all_pairs(chain_count).len() as int + 2,
    );
    lemma_storage_proper(own, chains.len() as u32);
    component::lemma_no_storage_mismatch(own, chains.len() as u32, 0);
    assert forall|k: int| 0 <= k < edges.len() implies !components::is_edge_fault(
        kind,
        chains,
        #[trigger] edges[k],
        fault,
    ) by {
        let edge = edges[k];
        assert(edge.within(chains.len() as int) && edge.left != edge.right);
        if scope >= 2 {
            graph::lemma_edge_connects(edges, k);
            graph::lemma_connected_symmetric(edges, edge.left as int, edge.right as int);
            lemma_end_of_pair(
                edges,
                matches,
                chains,
                chain_count,
                scope,
                edge.left as int,
                edge.right as int,
            );
            lemma_end_of_pair(
                edges,
                matches,
                chains,
                chain_count,
                scope,
                edge.right as int,
                edge.left as int,
            );
        }
    }
}

/// All scopes were reduced.
pub open spec fn is_reduced(event: ProgressEvent) -> bool {
    &&& event.phase == ProgressPhase::ReduceScopes
    &&& event.total == Some(event.completed)
}

/// Runs the stages and reduces their forests: the component roots of every scope are those of
/// the matches. `external_index` keeps the lists of contracts in mapped files, `mapped_roots`
/// the roots. How many edges stay in forests is left open: that goes by when the collectors
/// merge, as in [`match_contracts`].
pub fn connect_contracts<F: Fn(u32, u32, bool) -> bool, G: Fn(u32, u32) -> bool>(
    features: &FeatureView,
    chain_count: usize,
    catalog: &CatalogStage,
    shared: &SharedStage,
    rescue: &RescueStage,
    scorer: &F,
    pair_scorer: &G,
    collectors: ScopeCollectors,
    external_index: bool,
    mapped_roots: bool,
    reports: &mut Vec<ProgressEvent>,
) -> (result: Result<MetadataRun, PipelineError>)
    requires
        stages_fit(*features, chain_count as int, *catalog, *shared, *rescue),
        catalog::is_scorer(*scorer),
        shared::is_pair_scorer(*pair_scorer),
        collectors.wf(),
        !collectors.is_cancelled(),
        collectors.nodes() == features.contract_chain@.len(),
        submission::covers_chains(collectors, chain_count as int),
        chain_count <= u32::MAX,
        chain_count < usize::MAX,
        forall|scope: int|
            0 <= scope < collectors.scopes() ==> (#[trigger] collectors.submitted(scope)).len()
                == 0,
    ensures
        result matches Ok(run) ==> {
            &&& connects_matches(
                run.components,
                all_matches(*features, *catalog, *shared, *rescue, *scorer, *pair_scorer),
                features.contract_chain@,
                chain_count as int,
            )
            &&& summary_rows::have_positions(run.components)
            &&& collectors::counts_more(
                run.accepted_edge_count,
                collectors.accepted(),
                submitted_edges(
                *features,
                *catalog,
                *shared,
                *rescue,
                *scorer,
                *pair_scorer,
            ).len(),
            )
            &&& run.components.chain_pair_roots@.len() == collectors.scopes() - 2
            &&& run.index_metrics == catalog::routing_totals(
                catalog.jobs@,
                catalog.order@,
                catalog.routed@,
                catalog.order@.len() as int,
            )
            &&& run.candidate_pair_visits == all_visits(
                *features,
                *catalog,
                *shared,
                matched_rescue_visits(*rescue.plan),
                *scorer,
                *pair_scorer,
            )
        },
        result matches Ok(_) ==> !is_cut_off(*rescue) && !match_overflows(
            *features,
            *catalog,
            *shared,
            *rescue,
            *scorer,
            *pair_scorer,
        ),
        result matches Err(e) ==> {
            ||| is_match_fault(
                e@,
                *features,
                *catalog,
                *shared,
                *rescue,
                *scorer,
                *pair_scorer,
                collectors,
            )
            ||| exists|runs: ScopeForestRuns| #[trigger]
                is_reduce_fault(
                    e@,
                    runs,
                    all_matches(*features, *catalog, *shared, *rescue, *scorer, *pair_scorer),
                    features.contract_chain@,
                    chain_count as int,
                )
        },
        all_matches(*features, *catalog, *shared, *rescue, *scorer, *pair_scorer).len() == 0
            && collectors.is_fresh() && !is_cut_off(*rescue) && !match_overflows(
            *features,
            *catalog,
            *shared,
            *rescue,
            *scorer,
            *pair_scorer,
        ) && connectivity::nodes_below(
            features.contract_chain@,
            chain_count as int,
            collectors.scopes(),
        ) <= u64::MAX ==> result is Ok,
        collectors.limits().are_ample() && !is_cut_off(*rescue) && !match_overflows(
            *features,
            *catalog,
            *shared,
            *rescue,
            *scorer,
            *pair_scorer,
        ) ==> (result matches Err(e) ==> {
            ||| is_uncounted(
                e@,
                collectors,
                submitted_edges(
                    *features,
                    *catalog,
                    *shared,
                    *rescue,
                    *scorer,
                    *pair_scorer,
                ),
                features.contract_chain@,
                chain_count as int,
            )
            ||| exists|runs: ScopeForestRuns| #[trigger]
                is_reduce_fault(
                    e@,
                    runs,
                    all_matches(*features, *catalog, *shared, *rescue, *scorer, *pair_scorer),
                    features.contract_chain@,
                    chain_count as int,
                )
        }),
        catalog::extends(final(reports)@, old(reports)@),
        result is Ok ==> is_reduced(final(reports)@.last()),
{
    let ghost chains = features.contract_chain@;
    let ghost c = chain_count as int;
    let ghost first = collectors;
    let ghost told = reports@;
    proof {
        if first.is_fresh() {
            first.lemma_fresh();
        }
    }
    let matched = match match_contracts(
        features,
        chain_count,
        catalog,
        shared,
        rescue,
        scorer,
        pair_scorer,
        collectors,
        reports,
    ) {
        Ok(matched) => matched,
        Err(error) => {
            return Err(error);
        },
    };
    let ghost told_matched = reports@;
    let ghost matches = all_matches(
        *features,
        *catalog,
        *shared,
        *rescue,
        *scorer,
        *pair_scorer,
    );
    proof {
        assert forall|scope: int| 0 <= scope < pairs::all_pairs(c).len() + 2 implies holds_scope(
            #[trigger] matched.runs.scope(scope),
            chains.len() as u32,
            collectors::scope_part(matches, chains, c, scope),
        ) by {}
        if matches.len() == 0 && first.is_fresh() {
            connectivity::lemma_work_of_none(matched.runs, chains, c, first.scopes());
        }
    }
    let contract_chain: &[u32] = features.contract_chain.as_slice();
    let built = if external_index {
        ChainContractIndex::build_external(contract_chain, chain_count)
    } else {
        ChainContractIndex::build(contract_chain, chain_count)
    };
    let index = match built {
        Ok(index) => index,
        Err(error) => {
            assert(false);
            return Err(error);
        },
    };
    let total: u64 = match reduce_total(&matched.runs, &index, chain_count, contract_chain) {
        Ok(total) => total,
        Err(error) => {
            assert(is_reduce_fault(error@, matched.runs, matches, chains, c));
            return Err(error);
        },
    };
    let edge_count: u64 = stored_edge_count(&matched.runs);
    let counters = ProgressCounters {
        candidates: 0,
        scored: 0,
        expanded: 0,
        matched: 0,
        groups: 0,
    };
    reports.push(
        ProgressEvent::determinate(
            ProgressPhase::ReduceScopes,
            0,
            total,
            WorkUnit::Items,
            counters,
        ),
    );
    let ghost told_total = reports@;
    proof {
        assert(told_total.take(told_matched.len() as int) =~= told_matched);
        catalog::lemma_extends(told_total, told_matched, told);
    }
    let components = match reduce_component_scopes(
        &matched.runs,
        index,
        contract_chain,
        chain_count,
        total,
        mapped_roots,
        reports,
    ) {
        Ok(components) => components,
        Err(error) => {
            proof {
                catalog::lemma_extends(reports@, told_total, told);
                if error@ is Reduce {
                    assert forall|scope: int| 0 <= scope < first.scopes() implies
                        !components::is_scope_fault(
                        components::kind_of(scope, c),
                        chains,
                        #[trigger] matched.runs.scope(scope),
                        error@->Reduce_0,
                    ) by {
                        lemma_no_scope_fault(
                            matched.runs,
                            matches,
                            chains,
                            c,
                            scope,
                            error@->Reduce_0,
                        );
                    }
                }
                assert(false);
            }
            return Err(error);
        },
    };
    proof {
        catalog::lemma_extends(reports@, told_total, told);
        lemma_components_of_matches(components, matched.runs, matches, chains, c);
        lemma_roots_are_positions(components, matched.runs, chains, c);
    }
    Ok(
        MetadataRun {
            components,
            index_metrics: matched.index_metrics,
            candidate_pair_visits: matched.candidate_pair_visits,
            accepted_edge_count: matched.accepted_edge_count,
            edge_count,
        },
    )
}

} // verus!
