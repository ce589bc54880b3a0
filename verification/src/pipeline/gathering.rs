//! From scopes on their way to component roots to the components of a run.

use crate::pipeline::chains;
use crate::pipeline::chains::{ChainContractIndex, RootStorage};
use crate::pipeline::collectors::ScopeForestRuns;
use crate::pipeline::components;
use crate::pipeline::components::{ComponentScopeKind, ComponentScopePlan};
use crate::pipeline::connectivity;
use crate::pipeline::connectivity::run_edge_count;
use crate::pipeline::error;
use crate::pipeline::error::{invariant_error, overflow_error, PipelineError, PipelineFault};
use crate::pipeline::pairs;
use crate::pipeline::pairs::chain_pairs;
use crate::pipeline::scopes::{ChainPairRoots, ScopeComponents};
use crate::progress::{
    ProgressCounters, ProgressEvent, ProgressPhase, TotalKind, WorkClass, WorkUnit,
};
use crate::reduce::codec::ComponentSnapshotIdentity;
use crate::reduce::component;
use crate::reduce::component::planned_reduce_work;
use crate::reduce::error::ReduceFault;
use crate::reduce::storage::ForestRunStorage;
use crate::scoring::MATCH_SEMANTICS_REVISION;
use vstd::prelude::*;

verus! {

/// Revision of the layout of stored roots.
pub const COMPONENT_ROOT_LAYOUT_REVISION: u32 = 6;

/// A scope without roots, and what its roots belong to.
pub open spec fn is_planned_scope(
    scope: ComponentScopePlan,
    kind: ComponentScopeKind,
    runs: Seq<ForestRunStorage>,
    nodes: nat,
    snapshot_fingerprint: Seq<char>,
    plan_digest: Seq<char>,
) -> bool {
    &&& scope.kind == kind
    &&& scope.runs@ == runs
    &&& scope.roots is None
    &&& scope.needs_rebuild
    &&& !scope.committed
    &&& scope.identity.schema_revision == MATCH_SEMANTICS_REVISION
    &&& scope.identity.snapshot_fingerprint@ == snapshot_fingerprint
    &&& scope.identity.connectivity_revision == COMPONENT_ROOT_LAYOUT_REVISION
    &&& scope.identity.connectivity_plan_digest@ == plan_digest
    &&& scope.identity.scope_identity@ == kind.identity_text()
    &&& scope.identity.node_count == nodes
}

fn plan_scope(
    kind: ComponentScopeKind,
    runs: Vec<ForestRunStorage>,
    node_count: u32,
    snapshot_fingerprint: &String,
    plan_digest: &String,
) -> (scope: ComponentScopePlan)
    ensures
        is_planned_scope(
            scope,
            kind,
            runs@,
            node_count as nat,
            snapshot_fingerprint@,
            plan_digest@,
        ),
{
    ComponentScopePlan {
        identity: ComponentSnapshotIdentity {
            schema_revision: MATCH_SEMANTICS_REVISION,
            snapshot_fingerprint: snapshot_fingerprint.clone(),
            connectivity_revision: COMPONENT_ROOT_LAYOUT_REVISION,
            connectivity_plan_digest: plan_digest.clone(),
            scope_identity: kind.identity(),
            node_count,
        },
        kind,
        runs,
        roots: None,
        needs_rebuild: true,
        committed: false,
    }
}

/// The scopes of a run, none with roots yet: within chains, across chains, then the pairs of
/// chains. Refuses forests of fewer or more pairs than there are.
pub fn plan_component_scopes(
    runs: ScopeForestRuns,
    index: &ChainContractIndex,
    chain_count: usize,
    snapshot_fingerprint: &String,
    plan_digest: &String,
) -> (result: Result<Vec<ComponentScopePlan>, PipelineError>)
    requires
        index.wf(),
        index.offsets@.len() == chain_count + 1,
        chain_count <= u32::MAX,
    ensures
        ({
            let pairs = pairs::all_pairs(chain_count as int).len();
            if runs.pairs@.len() < pairs {
                result matches Err(e) && e@ == PipelineFault::Invariant(
                    "missing chain-pair forest runs"@,
                )
            } else if runs.pairs@.len() > pairs {
                result matches Err(e) && e@ == PipelineFault::Invariant(
                    "unexpected extra chain-pair forest runs"@,
                )
            } else {
                result matches Ok(scopes) && scopes@.len() == pairs + 2 && forall|scope: int|
                    0 <= scope < pairs + 2 ==> is_planned_scope(
                        #[trigger] scopes@[scope],
                        components::kind_of(scope, chain_count as int),
                        runs.scope(scope),
                        connectivity::scope_nodes(index.chains@, chain_count as int, scope),
                        snapshot_fingerprint@,
                        plan_digest@,
                    )
            }
        }),
{
    let ghost c = chain_count as int;
    let ghost whole = runs;
    let ScopeForestRuns { intra, cross, pairs } = runs;
    let list = chain_pairs(chain_count);
    if pairs.len() < list.len() {
        return Err(invariant_error("missing chain-pair forest runs"));
    }
    if pairs.len() > list.len() {
        return Err(invariant_error("unexpected extra chain-pair forest runs"));
    }
    let node_count: u32 = index.contracts.len() as u32;
    let mut pairs = pairs;
    let mut scopes: Vec<ComponentScopePlan> = Vec::new();
    scopes.push(
        plan_scope(ComponentScopeKind::Intra, intra, node_count, snapshot_fingerprint, plan_digest),
    );
    scopes.push(
        plan_scope(ComponentScopeKind::Cross, cross, node_count, snapshot_fingerprint, plan_digest),
    );
    let mut k: usize = 0;
    while k < list.len()
        invariant
            k <= list@.len(),
            list@ == pairs::all_pairs(c),
            c == chain_count,
            chain_count <= u32::MAX,
            index.wf(),
            index.chains@.len() <= u32::MAX,
            index.offsets@.len() == chain_count + 1,
            pairs@.len() == list@.len(),
            whole.pairs@.len() == list@.len(),
            forall|j: int| k <= j < pairs@.len() ==> #[trigger] pairs@[j] == whole.pairs@[j],
            scopes@.len() == k + 2,
            forall|scope: int|
                0 <= scope < k + 2 ==> is_planned_scope(
                    #[trigger] scopes@[scope],
                    components::kind_of(scope, c),
                    whole.scope(scope),
                    connectivity::scope_nodes(index.chains@, c, scope),
                    snapshot_fingerprint@,
                    plan_digest@,
                ),
        decreases list.len() - k,
    {
        let (left, right) = list[k];
        proof {
            assert(list@[k as int] == (left, right));
            pairs::lemma_pairs_ordered(c, c, k as int);
            chains::lemma_pair_fits(index.chains@, left as int, right as int);
        }
        let nodes: u32 = match index.pair_node_count(left as usize, right as usize) {
            Ok(nodes) => nodes,
            Err(error) => {
                assert(false);
                return Err(error);
            },
        };
        let mut own: Vec<ForestRunStorage> = Vec::new();
        std::mem::swap(&mut own, &mut pairs[k]);
        let ghost before = scopes@;
        scopes.push(
            plan_scope(
                ComponentScopeKind::Pair { left, right },
                own,
                nodes,
                snapshot_fingerprint,
                plan_digest,
            ),
        );
        proof {
            assert forall|scope: int| 0 <= scope < k + 3 implies is_planned_scope(
                #[trigger] scopes@[scope],
                components::kind_of(scope, c),
                whole.scope(scope),
                connectivity::scope_nodes(index.chains@, c, scope),
                snapshot_fingerprint@,
                plan_digest@,
            ) by {
                if scope < k + 2 {
                    assert(scopes@[scope] == before[scope]);
                }
            }
        }
        k = k + 1;
    }
    Ok(scopes)
}

/// The planned work of those of the first `count` scopes that have no roots yet.
pub open spec fn planned_work(scopes: Seq<ComponentScopePlan>, count: int) -> nat
    decreases count,
{
    if count <= 0 {
        0
    } else if scopes[count - 1].roots is Some {
        planned_work(scopes, count - 1)
    } else {
        planned_work(scopes, count - 1) + connectivity::capped_count(
            component::storage_edges(scopes[count - 1].runs@).len(),
        ) as nat + scopes[count - 1].identity.node_count as nat
    }
}

proof fn lemma_planned_work_grows(scopes: Seq<ComponentScopePlan>, count: int, most: int)
    requires
        count <= most,
    ensures
        planned_work(scopes, count) <= planned_work(scopes, most),
    decreases most - count,
{
    if count < most {
        lemma_planned_work_grows(scopes, count, most - 1);
    }
}

/// The planned work of the scopes that have no roots yet.
pub fn pending_reduce_work(scopes: &Vec<ComponentScopePlan>) -> (result: Result<
    u64,
    PipelineError,
>)
    ensures
        match result {
            Ok(total) => total == planned_work(scopes@, scopes@.len() as int),
            Err(e) => planned_work(scopes@, scopes@.len() as int) > u64::MAX && (e@
                == error::overflow_fault() || e@ == PipelineFault::Reduce(
                ReduceFault::WorkOverflow,
            )),
        },
{
    let mut total: u64 = 0;
    let mut i: usize = 0;
    while i < scopes.len()
        invariant
            i <= scopes@.len(),
            total == planned_work(scopes@, i as int),
        decreases scopes.len() - i,
    {
        proof {
            lemma_planned_work_grows(scopes@, i + 1, scopes@.len() as int);
        }
        if scopes[i].roots.is_none() {
            let work: u64 = match planned_reduce_work(
                run_edge_count(&scopes[i].runs),
                scopes[i].identity.node_count,
            ) {
                Ok(work) => work,
                Err(error) => {
                    return Err(PipelineError::Reduce(error));
                },
            };
            total = match total.checked_add(work) {
                Some(sum) => sum,
                None => {
                    return Err(overflow_error());
                },
            };
        }
        i = i + 1;
    }
    Ok(total)
}

/// How many of the first `count` scopes were rebuilt.
pub open spec fn rebuilt_below(scopes: Seq<ComponentScopePlan>, count: int) -> int
    decreases count,
{
    if count <= 0 {
        0
    } else {
        rebuilt_below(scopes, count - 1) + if scopes[count - 1].needs_rebuild {
            1int
        } else {
            0int
        }
    }
}

/// What is told after the first `count` scopes: how many were reused, and how many rebuilt.
pub open spec fn finalized_event(
    scopes: Seq<ComponentScopePlan>,
    durable: bool,
    count: int,
) -> ProgressEvent {
    ProgressEvent {
        phase: if durable {
            ProgressPhase::BuildRecoveryChain
        } else {
            ProgressPhase::FinalizeComponents
        },
        completed: count as u64,
        total: Some(scopes.len() as u64),
        unit: WorkUnit::Items,
        work_class: WorkClass::Generic,
        total_kind: TotalKind::Exact,
        counters: ProgressCounters {
            candidates: 0,
            scored: 0,
            expanded: 0,
            matched: (count - rebuilt_below(scopes, count)) as u64,
            groups: rebuilt_below(scopes, count) as u64,
        },
    }
}

/// What is told of the first `count` scopes, one after the other.
pub open spec fn finalized_events(
    scopes: Seq<ComponentScopePlan>,
    durable: bool,
    count: nat,
) -> Seq<ProgressEvent> {
    Seq::new(count + 1, |k: int| finalized_event(scopes, durable, k))
}

/// The scope was to be rebuilt and has no roots.
pub open spec fn lacks_roots(scope: ComponentScopePlan) -> bool {
    scope.needs_rebuild && scope.roots is None
}

/// Tells which scopes were reused and which rebuilt; a rebuilt one must have its roots.
pub fn finalize_scopes(
    scopes: &Vec<ComponentScopePlan>,
    durable: bool,
    reports: &mut Vec<ProgressEvent>,
) -> (result: Result<(), PipelineError>)
    ensures
        match result {
            Ok(_) => {
                &&& forall|i: int| 0 <= i < scopes@.len() ==> !lacks_roots(#[trigger] scopes@[i])
                &&& final(reports)@ == old(reports)@ + finalized_events(
                    scopes@,
                    durable,
                    scopes@.len(),
                )
            },
            Err(e) => {
                &&& e@ == PipelineFault::Invariant("missing reduced roots"@)
                &&& exists|i: int|
                    {
                        &&& 0 <= i < scopes@.len()
                        &&& lacks_roots(#[trigger] scopes@[i])
                        &&& forall|k: int| 0 <= k < i ==> !lacks_roots(#[trigger] scopes@[k])
                        &&& final(reports)@ == old(reports)@ + finalized_events(
                            scopes@,
                            durable,
                            i as nat,
                        )
                    }
            },
        },
{
    let phase = if durable {
        ProgressPhase::BuildRecoveryChain
    } else {
        ProgressPhase::FinalizeComponents
    };
    let total: u64 = scopes.len() as u64;
    let ghost before = reports@;
    reports.push(
        ProgressEvent::determinate(phase, 0, total, WorkUnit::Items, ProgressCounters::default()),
    );
    let mut rebuilt: u64 = 0;
    let mut i: usize = 0;
    assert(reports@ =~= before + finalized_events(scopes@, durable, 0));
    while i < scopes.len()
        invariant
            i <= scopes@.len(),
            total == scopes@.len(),
            phase == (if durable {
                ProgressPhase::BuildRecoveryChain
            } else {
                ProgressPhase::FinalizeComponents
            }),
            before == old(reports)@,
            rebuilt == rebuilt_below(scopes@, i as int),
            rebuilt <= i,
            forall|k: int| 0 <= k < i ==> !lacks_roots(#[trigger] scopes@[k]),
            reports@ == before + finalized_events(scopes@, durable, i as nat),
        decreases scopes.len() - i,
    {
        let ghost told = reports@;
        if scopes[i].needs_rebuild {
            if scopes[i].roots.is_none() {
                assert(lacks_roots(scopes@[i as int]));
                return Err(invariant_error("missing reduced roots"));
            }
            rebuilt = rebuilt + 1;
        }
        i = i + 1;
        reports.push(
            ProgressEvent::determinate(
                phase,
                i as u64,
                total,
                WorkUnit::Items,
                ProgressCounters {
                    candidates: 0,
                    scored: 0,
                    expanded: 0,
                    matched: i as u64 - rebuilt,
                    groups: rebuilt,
                },
            ),
        );
        assert(reports@ =~= before + finalized_events(scopes@, durable, i as nat));
    }
    Ok(())
}

/// Position of the last scope of the kind among the first `count`.
pub open spec fn last_of(
    scopes: Seq<ComponentScopePlan>,
    kind: ComponentScopeKind,
    count: int,
) -> Option<int>
    decreases count,
{
    if count <= 0 {
        None
    } else if scopes[count - 1].kind == kind {
        Some(count - 1)
    } else {
        last_of(scopes, kind, count - 1)
    }
}

/// Positions of the scopes of two chains among the first `count`.
pub open spec fn pair_positions(scopes: Seq<ComponentScopePlan>, count: int) -> Seq<int>
    decreases count,
{
    if count <= 0 {
        seq![]
    } else if scopes[count - 1].kind is Pair {
        pair_positions(scopes, count - 1).push(count - 1)
    } else {
        pair_positions(scopes, count - 1)
    }
}

/// The roots carry the chains of the scope and are its roots.
pub open spec fn is_pair_of(
    roots: ChainPairRoots,
    scope: ComponentScopePlan,
    chains: Seq<u32>,
) -> bool {
    scope.kind matches ComponentScopeKind::Pair { left, right } && {
        &&& components::is_labelled(roots, chains, (left, right))
        &&& scope.roots == Some(roots.roots)
    }
}

/// The components hold the roots of the scopes.
pub open spec fn holds_scopes(
    gathered: ScopeComponents,
    scopes: Seq<ComponentScopePlan>,
    chains: Seq<u32>,
) -> bool {
    let count = scopes.len() as int;
    let intra = last_of(scopes, ComponentScopeKind::Intra, count);
    let cross = last_of(scopes, ComponentScopeKind::Cross, count);
    let positions = pair_positions(scopes, count);
    &&& intra is Some && scopes[intra->0].roots == Some(gathered.intra_roots)
    &&& cross is Some && scopes[cross->0].roots == Some(gathered.cross_roots)
    &&& gathered.chain_pair_roots@.len() == positions.len()
    &&& forall|k: int|
        0 <= k < positions.len() ==> is_pair_of(
            #[trigger] gathered.chain_pair_roots@[k],
            scopes[positions[k]],
            chains,
        )
}

/// The chains of the scope have lists.
pub open spec fn has_lists(scope: ComponentScopePlan, index: ChainContractIndex) -> bool {
    scope.kind matches ComponentScopeKind::Pair { left, right } ==> left < index.offsets@.len() - 1
        && right < index.offsets@.len() - 1
}

/// The components of a run from its scopes, all of which must have roots, and the lists of
/// contracts.
#[verifier::loop_isolation(false)]
pub fn gather_components(scopes: Vec<ComponentScopePlan>, index: ChainContractIndex) -> (result:
    Result<ScopeComponents, PipelineError>)
    requires
        index.wf(),
        forall|i: int| 0 <= i < scopes@.len() ==> has_lists(#[trigger] scopes@[i], index),
    ensures
        match result {
            Ok(gathered) => {
                &&& forall|i: int| 0 <= i < scopes@.len() ==> (#[trigger] scopes@[i]).roots is Some
                &&& holds_scopes(gathered, scopes@, index.chains@)
                &&& gathered.chain_contract_offsets == index.offsets
                &&& gathered.chain_contracts == index.contracts
            },
            Err(e) => if exists|i: int|
                0 <= i < scopes@.len() && (#[trigger] scopes@[i]).roots is None {
                e@ == PipelineFault::Invariant("component scope has no recovered roots"@)
            } else if last_of(scopes@, ComponentScopeKind::Intra, scopes@.len() as int) is None {
                e@ == PipelineFault::Invariant("missing intra component scope"@)
            } else {
                last_of(scopes@, ComponentScopeKind::Cross, scopes@.len() as int) is None && e@
                    == PipelineFault::Invariant("missing cross component scope"@)
            },
        },
{
    let ghost given = scopes@;
    let ghost all = index.chains@;
    let mut scopes = scopes;
    let mut intra: Option<RootStorage> = None;
    let mut cross: Option<RootStorage> = None;
    let mut chain_pair_roots: Vec<ChainPairRoots> = Vec::new();
    let mut i: usize = 0;
    while i < scopes.len()
        invariant
            i <= scopes@.len(),
            scopes@.len() == given.len(),
            forall|k: int| i <= k < given.len() ==> #[trigger] scopes@[k] == given[k],
            forall|k: int| 0 <= k < i ==> (#[trigger] given[k]).roots is Some,
            match last_of(given, ComponentScopeKind::Intra, i as int) {
                Some(at) => 0 <= at < i && given[at].roots == intra && intra is Some,
                None => intra is None,
            },
            match last_of(given, ComponentScopeKind::Cross, i as int) {
                Some(at) => 0 <= at < i && given[at].roots == cross && cross is Some,
                None => cross is None,
            },
            chain_pair_roots@.len() == pair_positions(given, i as int).len(),
            forall|k: int|
                0 <= k < chain_pair_roots@.len() ==> is_pair_of(
                    #[trigger] chain_pair_roots@[k],
                    given[pair_positions(given, i as int)[k]],
                    all,
                ),
        decreases scopes.len() - i,
    {
        assert(scopes@[i as int] == given[i as int]);
        assert(has_lists(given[i as int], index));
        let kind = scopes[i].kind;
        let mut taken: Option<RootStorage> = None;
        std::mem::swap(&mut taken, &mut scopes[i].roots);
        let roots = match taken {
            Some(roots) => roots,
            None => {
                assert(given[i as int].roots is None);
                return Err(invariant_error("component scope has no recovered roots"));
            },
        };
        let ghost held = chain_pair_roots@;
        let ghost earlier = pair_positions(given, i as int);
        match kind {
            ComponentScopeKind::Intra => {
                intra = Some(roots);
            },
            ComponentScopeKind::Cross => {
                cross = Some(roots);
            },
            ComponentScopeKind::Pair { left, right } => {
                let left_contract_count: u32 = match index.chain_contract_count(left as usize) {
                    Ok(count) => count,
                    Err(error) => {
                        assert(false);
                        return Err(error);
                    },
                };
                chain_pair_roots.push(
                    ChainPairRoots {
                        left_chain: left,
                        right_chain: right,
                        left_contract_count,
                        roots,
                    },
                );
            },
        }
        i = i + 1;
        proof {
            assert forall|k: int| 0 <= k < chain_pair_roots@.len() implies is_pair_of(
                #[trigger] chain_pair_roots@[k],
                given[pair_positions(given, i as int)[k]],
                all,
            ) by {
                if k < held.len() {
                    assert(chain_pair_roots@[k] == held[k]);
                    assert(pair_positions(given, i as int)[k] == earlier[k]);
                }
            }
        }
    }
    let intra_roots = match intra {
        Some(roots) => roots,
        None => {
            return Err(invariant_error("missing intra component scope"));
        },
    };
    let cross_roots = match cross {
        Some(roots) => roots,
        None => {
            return Err(invariant_error("missing cross component scope"));
        },
    };
    let ChainContractIndex { offsets, contracts, local_rank: _, chains: _ } = index;
    Ok(
        ScopeComponents {
            intra_roots,
            cross_roots,
            chain_pair_roots,
            chain_contract_offsets: offsets,
            chain_contracts: contracts,
        },
    )
}

/// The scopes are those of `chain_count` chains, in order, and each has the roots of its forests.
pub open spec fn are_reduced(
    scopes: Seq<ComponentScopePlan>,
    chains: Seq<u32>,
    chain_count: int,
    runs: ScopeForestRuns,
) -> bool {
    &&& scopes.len() == pairs::all_pairs(chain_count).len() + 2
    &&& forall|i: int|
        0 <= i < scopes.len() ==> (#[trigger] scopes[i]).kind == components::kind_of(i, chain_count)
            && scopes[i].roots is Some && components::are_scope_roots(
            scopes[i].kind,
            chains,
            component::storage_edges(runs.scope(i)),
            scopes[i].roots->0@,
        )
}

proof fn lemma_ordered_positions(scopes: Seq<ComponentScopePlan>, chain_count: int, count: int)
    requires
        2 <= count <= scopes.len(),
        forall|i: int|
            0 <= i < scopes.len() ==> (#[trigger] scopes[i]).kind == components::kind_of(
                i,
                chain_count,
            ),
    ensures
        last_of(scopes, ComponentScopeKind::Intra, count) == Some(0int),
        last_of(scopes, ComponentScopeKind::Cross, count) == Some(1int),
        pair_positions(scopes, count).len() == count - 2,
        forall|k: int|
            0 <= k < count - 2 ==> #[trigger] pair_positions(scopes, count)[k] == k + 2,
    decreases count,
{
    assert(scopes[count - 1].kind == components::kind_of(count - 1, chain_count));
    if count > 2 {
        lemma_ordered_positions(scopes, chain_count, count - 1);
    } else {
        assert(scopes[0].kind == components::kind_of(0, chain_count));
        reveal_with_fuel(last_of, 3);
        reveal_with_fuel(pair_positions, 3);
    }
}

/// Reused or rebuilt, scopes that have the roots of their forests give the components of the
/// forests.
pub proof fn lemma_gathered_are_components(
    gathered: ScopeComponents,
    scopes: Seq<ComponentScopePlan>,
    index: ChainContractIndex,
    chain_count: int,
    runs: ScopeForestRuns,
)
    requires
        index.wf(),
        index.offsets@.len() == chain_count + 1,
        are_reduced(scopes, index.chains@, chain_count, runs),
        holds_scopes(gathered, scopes, index.chains@),
        gathered.chain_contract_offsets == index.offsets,
        gathered.chain_contracts == index.contracts,
    ensures
        components::are_components(gathered, index.chains@, chain_count, runs),
{
    let all = index.chains@;
    let count = pairs::all_pairs(chain_count).len() as int;
    lemma_ordered_positions(scopes, chain_count, scopes.len() as int);
    let positions = pair_positions(scopes, scopes.len() as int);
    assert forall|k: int| 0 <= k < count implies components::is_labelled(
        #[trigger] gathered.chain_pair_roots@[k],
        all,
        pairs::all_pairs(chain_count)[k],
    ) && scopes[k + 2].roots == Some(gathered.chain_pair_roots@[k].roots) by {
        assert(positions[k] == k + 2);
        assert(is_pair_of(gathered.chain_pair_roots@[k], scopes[positions[k]], all));
        assert(scopes[k + 2].kind == components::kind_of(k + 2, chain_count));
    }
    assert forall|scope: int| 0 <= scope < count + 2 implies components::are_scope_roots(
        components::kind_of(scope, chain_count),
        all,
        component::storage_edges(runs.scope(scope)),
        #[trigger] components::roots_of(gathered, scope),
    ) by {
        assert(scopes[scope].kind == components::kind_of(scope, chain_count));
        if scope >= 2 {
            let pair = gathered.chain_pair_roots@[scope - 2];
            assert(scopes[scope - 2 + 2].roots == Some(pair.roots));
        }
    }
    assert forall|chain: int| 0 <= chain < chain_count implies #[trigger] gathered.row(chain)
        == Some(chains::chain_members(all, chain)) by {
        chains::lemma_index_rows(index, all, chain_count, chain);
    }
}

} // verus!
