//! Reducing the forests of each scope to component roots.

use crate::pipeline::catalog;
use crate::pipeline::chains;
use crate::pipeline::chains::{ChainContractIndex, RootStorage};
use crate::pipeline::collectors;
use crate::pipeline::collectors::ScopeForestRuns;
use crate::pipeline::connectivity;
use crate::pipeline::error;
use crate::pipeline::error::{overflow_error, PipelineError, PipelineFault};
use crate::pipeline::pairs;
use crate::pipeline::pairs::chain_pairs;
use crate::pipeline::scopes;
use crate::pipeline::scopes::{ChainPairRoots, ScopeComponents};
use crate::pipeline::submission;
use crate::progress::{ProgressCounters, ProgressEvent, ProgressPhase, WorkUnit};
use crate::reduce::codec::ComponentSnapshotIdentity;
use crate::reduce::component;
use crate::reduce::component::reduce_stored_components_with_progress;
use crate::reduce::error::{ReduceError, ReduceFault};
use crate::reduce::graph;
use crate::reduce::graph::Edge;
use crate::reduce::storage;
use crate::reduce::storage::ForestRunStorage;
use crate::text;
use crate::text::decimal;
use vstd::prelude::*;
use vstd::string::*;

verus! {

/// What a scope connects.
#[derive(Debug, Clone, Copy, PartialEq, Eq, Structural)]
pub enum ComponentScopeKind {
    /// Contracts of one chain.
    Intra,
    /// Contracts of different chains.
    Cross,
    /// Contracts of two chains.
    Pair { left: u32, right: u32 },
}

impl ComponentScopeKind {
    /// The name by which stored roots are recognised.
    pub open spec fn identity_text(self) -> Seq<char> {
        match self {
            ComponentScopeKind::Intra => "intra"@,
            ComponentScopeKind::Cross => "cross"@,
            ComponentScopeKind::Pair { left, right } => "pair:"@ + text::decimal_text(left as nat)
                + ":"@ + text::decimal_text(right as nat),
        }
    }

    /// The name by which stored roots are recognised.
    pub fn identity(&self) -> (name: String)
        ensures
            name@ == self.identity_text(),
    {
        match *self {
            ComponentScopeKind::Intra => "intra".to_owned(),
            ComponentScopeKind::Cross => "cross".to_owned(),
            ComponentScopeKind::Pair { left, right } => "pair:".to_owned().concat(
                decimal(left as u64).as_str(),
            ).concat(":").concat(decimal(right as u64).as_str()),
        }
    }

    /// The name of the directory of stored roots.
    pub fn directory_name(&self) -> (name: String)
        ensures
            name@ == (match *self {
                ComponentScopeKind::Intra => "intra"@,
                ComponentScopeKind::Cross => "cross"@,
                ComponentScopeKind::Pair { left, right } => "pair-"@ + text::decimal_text(
                    left as nat,
                ) + "-"@ + text::decimal_text(right as nat),
            }),
    {
        match *self {
            ComponentScopeKind::Intra => "intra".to_owned(),
            ComponentScopeKind::Cross => "cross".to_owned(),
            ComponentScopeKind::Pair { left, right } => "pair-".to_owned().concat(
                decimal(left as u64).as_str(),
            ).concat("-").concat(decimal(right as u64).as_str()),
        }
    }
}

/// The endpoint is of one of two chains.
pub open spec fn is_of_pair(chains: Seq<u32>, contract: int, left: int, right: int) -> bool {
    chains[contract] == left || chains[contract] == right
}

/// Every endpoint is of one of two chains.
pub open spec fn are_of_pair(edges: Seq<Edge>, chains: Seq<u32>, left: int, right: int) -> bool {
    forall|k: int|
        0 <= k < edges.len() ==> is_of_pair(chains, (#[trigger] edges[k]).left as int, left, right)
            && is_of_pair(chains, edges[k].right as int, left, right)
}

/// Edge `k` of `local` joins the positions of the endpoints of edge `k` of `edges`.
pub open spec fn localizes_at(edges: Seq<Edge>, local: Seq<Edge>, names: Seq<u32>, k: int) -> bool {
    &&& local[k].within(names.len() as int)
    &&& graph::joins(
        edges[k],
        names[local[k].left as int] as int,
        names[local[k].right as int] as int,
    )
}

/// `local` holds the edges with every endpoint replaced by its position, in either direction.
pub open spec fn localizes(edges: Seq<Edge>, local: Seq<Edge>, names: Seq<u32>) -> bool {
    &&& edges.len() == local.len()
    &&& forall|k: int| 0 <= k < edges.len() ==> #[trigger] localizes_at(edges, local, names, k)
}

/// The roots are those of the components of the scope.
pub open spec fn are_scope_roots(
    kind: ComponentScopeKind,
    chains: Seq<u32>,
    edges: Seq<Edge>,
    roots: Seq<u32>,
) -> bool {
    match kind {
        ComponentScopeKind::Pair { left, right } => {
            let names = chains::pair_members(chains, left as int, right as int);
            roots.len() == names.len() && exists|local: Seq<Edge>| #[trigger]
                localizes(edges, local, names) && graph::are_component_roots(local, roots)
        },
        _ => roots.len() == chains.len() && graph::are_component_roots(edges, roots),
    }
}

/// The roots of a pair of chains, expanded to all contracts, are the component roots of the
/// scope's edges.
pub proof fn lemma_pair_roots_are_global(
    left: u32,
    right: u32,
    chains: Seq<u32>,
    edges: Seq<Edge>,
    roots: Seq<u32>,
)
    requires
        left != right,
        chains.len() <= u32::MAX,
        are_scope_roots(ComponentScopeKind::Pair { left, right }, chains, edges, roots),
    ensures
        ({
            let names = chains::pair_members(chains, left as int, right as int);
            let global = scopes::expanded(names, roots, chains.len());
            global.len() == chains.len() && graph::are_component_roots(edges, global)
        }),
{
    let names = chains::pair_members(chains, left as int, right as int);
    let nodes = scopes::name_nodes(names);
    chains::lemma_pair_positions(chains, left as int, right as int);
    let local = choose|local: Seq<Edge>| #[trigger]
        localizes(edges, local, names) && graph::are_component_roots(local, roots);
    let turned = Seq::new(
        local.len(),
        |k: int| Edge { left: names[local[k].left as int], right: names[local[k].right as int] },
    );
    assert forall|k: int| 0 <= k < turned.len() implies #[trigger] graph::relabels_at(
        turned,
        local,
        nodes,
        k,
    ) by {
        assert(localizes_at(edges, local, names, k));
    }
    assert forall|k: int| 0 <= k < turned.len() implies graph::connected(
        edges,
        (#[trigger] turned[k]).left as int,
        turned[k].right as int,
    ) by {
        assert(localizes_at(edges, local, names, k));
        graph::lemma_edge_connects(edges, k);
        graph::lemma_connected_symmetric(edges, edges[k].left as int, edges[k].right as int);
    }
    assert forall|k: int| 0 <= k < edges.len() implies graph::connected(
        turned,
        (#[trigger] edges[k]).left as int,
        edges[k].right as int,
    ) by {
        assert(localizes_at(edges, local, names, k));
        graph::lemma_edge_connects(turned, k);
        graph::lemma_connected_symmetric(turned, turned[k].left as int, turned[k].right as int);
    }
    submission::lemma_mutual(turned, edges);
    assert(scopes::are_distinct(names)) by {
        assert forall|i: int, j: int| 0 <= i < j < names.len() implies names[i] != names[j] by {
            if names[i] == names[j] {
                assert(chains::local_of(chains, names[i] as int, left as int, right as int) == i);
                assert(chains::local_of(chains, names[j] as int, left as int, right as int) == j);
            }
        }
    }
    assert(graph::all_within(local, names.len() as int)) by {
        assert forall|k: int| 0 <= k < local.len() implies (#[trigger] local[k]).within(
            names.len() as int,
        ) by {
            assert(localizes_at(edges, local, names, k));
        }
    }
    assert(scopes::are_positions(names, roots, chains.len())) by {
        assert forall|i: int| 0 <= i < roots.len() implies #[trigger] roots[i] < roots.len() by {
            assert(graph::is_component_minimum(local, i, roots[i] as int));
            graph::lemma_connected_reflexive(local, i);
            assert(graph::connected(local, i, i));
        }
        assert forall|i: int| 0 <= i < names.len() implies #[trigger] names[i] < chains.len() by {
            assert(chains::local_of(chains, names[i] as int, left as int, right as int) == i);
        }
    }
    scopes::lemma_expanded_roots(turned, local, names, roots, chains.len());
    let global = scopes::expanded(names, roots, chains.len());
    assert forall|node: int| 0 <= node < global.len() implies graph::is_component_minimum(
        edges,
        node,
        #[trigger] global[node] as int,
    ) by {
        assert(graph::is_component_minimum(turned, node, global[node] as int));
        assert(graph::connected(turned, node, global[node] as int));
        assert forall|other: int| 0 <= other && #[trigger] graph::connected(
            edges,
            node,
            other,
        ) implies global[node] <= other by {
            assert(graph::connected(turned, node, other));
        }
    }
}

/// An edge leaves the two chains.
pub open spec fn foreign_endpoint_fault() -> ReduceFault {
    ReduceFault::SnapshotChain(
        "pair endpoint localization failed: pipeline invariant failed: chain-pair forest contains an endpoint from another chain"@,
    )
}

/// The position of a contract in the joint list of two chains.
fn locate(
    index: &ChainContractIndex,
    contract_chain: &[u32],
    contract: u32,
    left: u32,
    right: u32,
) -> (result: Result<u32, ReduceError>)
    requires
        index.wf(),
        index.chains@ == contract_chain@,
        index.ranks(contract_chain@),
        contract < contract_chain@.len(),
        left != right,
        left < index.offsets@.len() - 1,
    ensures
        if is_of_pair(contract_chain@, contract as int, left as int, right as int) {
            result matches Ok(local) && local == chains::local_of(
                contract_chain@,
                contract as int,
                left as int,
                right as int,
            )
        } else {
            result matches Err(e) && e@ == foreign_endpoint_fault()
        },
{
    proof {
        chains::lemma_pair_fits(contract_chain@, left as int, right as int);
        chains::lemma_pair_positions(contract_chain@, left as int, right as int);
    }
    match index.pair_local_contract(contract_chain, contract, left as usize, right as usize) {
        Ok(local) => Ok(local),
        Err(_) => Err(
            ReduceError::SnapshotChain(
                "pair endpoint localization failed: pipeline invariant failed: chain-pair forest contains an endpoint from another chain".to_owned(),
            ),
        ),
    }
}

/// The forests of a scope can be reduced: they are over all contracts, of the scope's chains,
/// and not too many.
pub open spec fn is_reducible(
    kind: ComponentScopeKind,
    chains: Seq<u32>,
    runs: Seq<ForestRunStorage>,
) -> bool {
    let edges = component::storage_edges(runs);
    &&& graph::all_within(edges, chains.len() as int)
    &&& component::first_storage_mismatch(runs, chains.len() as u32, 0) is None
    &&& edges.len() + chains.len() <= u64::MAX
    &&& (kind matches ComponentScopeKind::Pair { left, right } ==> are_of_pair(
        edges,
        chains,
        left as int,
        right as int,
    ))
}

/// The nodes of a scope.
pub open spec fn scope_size(kind: ComponentScopeKind, chains: Seq<u32>) -> nat {
    match kind {
        ComponentScopeKind::Pair { left, right } => chains::pair_members(
            chains,
            left as int,
            right as int,
        ).len(),
        _ => chains.len(),
    }
}

/// The work of reducing a scope: its edges and its nodes.
pub open spec fn scope_work(
    kind: ComponentScopeKind,
    chains: Seq<u32>,
    runs: Seq<ForestRunStorage>,
) -> nat {
    component::storage_edges(runs).len() + scope_size(kind, chains)
}

/// Why a scope cannot be reduced: its work cannot be counted; a run is over other nodes; an
/// edge leaves the contracts; or, in a scope of two chains, an edge leaves those.
pub open spec fn is_scope_fault(
    kind: ComponentScopeKind,
    chains: Seq<u32>,
    runs: Seq<ForestRunStorage>,
    fault: ReduceFault,
) -> bool {
    let edges = component::storage_edges(runs);
    let nodes = chains.len() as u32;
    if scope_work(kind, chains, runs) > u64::MAX {
        fault == ReduceFault::WorkOverflow
    } else if component::first_storage_mismatch(runs, nodes, 0) is Some {
        fault == (ReduceFault::Endpoint {
            endpoint: component::first_storage_mismatch(runs, nodes, 0)->0,
            node_count: nodes,
        })
    } else {
        exists|k: int|
            0 <= k < edges.len() && is_edge_fault(kind, chains, #[trigger] edges[k], fault)
    }
}

/// Why an edge does not belong to a scope.
pub open spec fn is_edge_fault(
    kind: ComponentScopeKind,
    chains: Seq<u32>,
    edge: Edge,
    fault: ReduceFault,
) -> bool {
    if !edge.within(chains.len() as int) {
        fault == (ReduceFault::Endpoint {
            endpoint: storage::greater_endpoint(edge),
            node_count: chains.len() as u32,
        })
    } else {
        kind matches ComponentScopeKind::Pair { left, right } && !(is_of_pair(
            chains,
            edge.left as int,
            left as int,
            right as int,
        ) && is_of_pair(chains, edge.right as int, left as int, right as int)) && fault
            == foreign_endpoint_fault()
    }
}

/// The component roots of a scope; reports the work done.
pub fn reduce_scope(
    kind: ComponentScopeKind,
    runs: &Vec<ForestRunStorage>,
    index: &ChainContractIndex,
    contract_chain: &[u32],
    reports: &mut Vec<(u64, u64)>,
) -> (result: Result<Vec<u32>, PipelineError>)
    requires
        forall|r: int| 0 <= r < runs@.len() ==> (#[trigger] runs@[r]).wf(),
        index.wf(),
        index.chains@ == contract_chain@,
        index.ranks(contract_chain@),
        kind matches ComponentScopeKind::Pair { left, right } ==> left != right && left
            < index.offsets@.len() - 1 && right < index.offsets@.len() - 1,
    ensures
        match result {
            Ok(roots) => {
                let work = scope_work(kind, contract_chain@, runs@);
                &&& are_scope_roots(
                    kind,
                    contract_chain@,
                    component::storage_edges(runs@),
                    roots@,
                )
                &&& work <= u64::MAX
                &&& component::reported(
                    old(reports)@,
                    final(reports)@,
                    work as u64,
                    work as u64,
                )
            },
            Err(e) => e@ matches PipelineFault::Reduce(own) && is_scope_fault(
                kind,
                contract_chain@,
                runs@,
                own,
            ),
        },
        is_reducible(kind, contract_chain@, runs@) ==> result is Ok,
{
    let ghost all = contract_chain@;
    let ghost edges = component::storage_edges(runs@);
    let n: u32 = contract_chain.len() as u32;
    match kind {
        ComponentScopeKind::Pair { left, right } => {
            let ghost names = chains::pair_members(all, left as int, right as int);
            proof {
                chains::lemma_pair_fits(all, left as int, right as int);
                chains::lemma_pair_positions(all, left as int, right as int);
            }
            let nodes: u32 = match index.pair_node_count(left as usize, right as usize) {
                Ok(nodes) => nodes,
                Err(error) => {
                    assert(false);
                    return Err(error);
                },
            };
            let map = |edge: Edge| -> (mapped: Result<Edge, ReduceError>)
                requires
                    edge.within(n as int),
                ensures
                    if is_of_pair(contract_chain@, edge.left as int, left as int, right as int) && is_of_pair(
                        contract_chain@,
                        edge.right as int,
                        left as int,
                        right as int,
                    ) {
                        mapped matches Ok(local) && local == Edge::between(
                            chains::local_of(
                                contract_chain@,
                                edge.left as int,
                                left as int,
                                right as int,
                            ) as u32,
                            chains::local_of(
                                contract_chain@,
                                edge.right as int,
                                left as int,
                                right as int,
                            ) as u32,
                        )
                    } else {
                        mapped matches Err(e) && e@ == foreign_endpoint_fault()
                    },
                {
                    match locate(index, contract_chain, edge.left, left, right) {
                        Err(error) => Err(error),
                        Ok(a) => match locate(index, contract_chain, edge.right, left, right) {
                            Err(error) => Err(error),
                            Ok(b) => Ok(Edge::new(a, b)),
                        },
                    }
                };
            let reduced = reduce_stored_components_with_progress(
                runs.as_slice(),
                n,
                nodes,
                map,
                reports,
            );
            proof {
                if reduced is Ok {
                    let roots = reduced->Ok_0;
                    let local = choose|local: Seq<Edge>| #[trigger]
                        component::is_mapping_of(map, edges, local, n, nodes)
                            && graph::are_component_roots(local, roots@);
                    assert forall|k: int| 0 <= k < edges.len() implies #[trigger] localizes_at(
                        edges,
                        local,
                        names,
                        k,
                    ) by {
                        assert(call_ensures(map, (edges[k],), Ok(local[k])));
                        assert(edges[k].within(n as int));
                        assert(local[k].within(nodes as int));
                    }
                    assert(localizes(edges, local, names));
                } else if scope_work(kind, all, runs@) <= u64::MAX && component::first_storage_mismatch(
                    runs@,
                    n,
                    0,
                ) is None {
                    let error = reduced->Err_0;
                    let k = choose|k: int|
                        0 <= k < edges.len() && component::refuses(
                            map,
                            #[trigger] edges[k],
                            n,
                            nodes,
                            error,
                        );
                    assert(is_edge_fault(kind, all, edges[k], error@));
                }
            }
            match reduced {
                Ok(roots) => Ok(roots),
                Err(error) => Err(PipelineError::Reduce(error)),
            }
        },
        _ => {
            let map = |edge: Edge| -> (mapped: Result<Edge, ReduceError>)
                ensures
                    mapped == Ok::<Edge, ReduceError>(edge),
                { Ok(edge) };
            let reduced = reduce_stored_components_with_progress(
                runs.as_slice(),
                n,
                n,
                map,
                reports,
            );
            proof {
                if reduced is Ok {
                    let roots = reduced->Ok_0;
                    let local = choose|local: Seq<Edge>| #[trigger]
                        component::is_mapping_of(map, edges, local, n, n)
                            && graph::are_component_roots(local, roots@);
                    assert forall|k: int| 0 <= k < edges.len() implies local[k] == edges[k] by {
                        assert(call_ensures(map, (edges[k],), Ok(local[k])));
                    }
                    assert(local =~= edges);
                } else if scope_work(kind, all, runs@) <= u64::MAX && component::first_storage_mismatch(
                    runs@,
                    n,
                    0,
                ) is None {
                    let error = reduced->Err_0;
                    let k = choose|k: int|
                        0 <= k < edges.len() && component::refuses(
                            map,
                            #[trigger] edges[k],
                            n,
                            n,
                            error,
                        );
                    assert(is_edge_fault(kind, all, edges[k], error@));
                }
            }
            match reduced {
                Ok(roots) => Ok(roots),
                Err(error) => Err(PipelineError::Reduce(error)),
            }
        },
    }
}

/// The kind of a scope: within chains, across chains, then the pairs of chains.
pub open spec fn kind_of(scope: int, chain_count: int) -> ComponentScopeKind {
    if scope == 0 {
        ComponentScopeKind::Intra
    } else if scope == 1 {
        ComponentScopeKind::Cross
    } else {
        let pair = pairs::all_pairs(chain_count)[scope - 2];
        ComponentScopeKind::Pair { left: pair.0, right: pair.1 }
    }
}

/// The roots of a scope.
pub open spec fn roots_of(components: ScopeComponents, scope: int) -> Seq<u32> {
    if scope == 0 {
        components.intra_roots@
    } else if scope == 1 {
        components.cross_roots@
    } else {
        components.chain_pair_roots@[scope - 2].roots@
    }
}

/// The pair roots carry their chains.
pub open spec fn is_labelled(roots: ChainPairRoots, chains: Seq<u32>, pair: (u32, u32)) -> bool {
    &&& roots.left_chain == pair.0
    &&& roots.right_chain == pair.1
    &&& roots.left_contract_count == chains::chain_members(chains, pair.0 as int).len()
}

/// The components of all scopes.
pub open spec fn are_components(
    components: ScopeComponents,
    chains: Seq<u32>,
    chain_count: int,
    runs: ScopeForestRuns,
) -> bool {
    let count = pairs::all_pairs(chain_count).len();
    &&& components.chain_pair_roots@.len() == count
    &&& forall|scope: int|
        0 <= scope < count + 2 ==> are_scope_roots(
            kind_of(scope, chain_count),
            chains,
            component::storage_edges(runs.scope(scope)),
            #[trigger] roots_of(components, scope),
        )
    &&& forall|k: int|
        0 <= k < count ==> is_labelled(
            #[trigger] components.chain_pair_roots@[k],
            chains,
            pairs::all_pairs(chain_count)[k],
        )
    &&& forall|chain: int|
        0 <= chain < chain_count ==> #[trigger] components.row(chain) == Some(
            chains::chain_members(chains, chain),
        )
    &&& components.chain_contracts@.len() == chains.len()
}

fn report_reduction(completed: u64, total: u64, reports: &mut Vec<ProgressEvent>)
    ensures
        catalog::extends(final(reports)@, old(reports)@),
        final(reports)@.len() == old(reports)@.len() + 1,
        final(reports)@.last().phase == ProgressPhase::ReduceScopes,
        final(reports)@.last().completed == completed,
        final(reports)@.last().total == Some(total),
{
    let counters = ProgressCounters {
        candidates: 0,
        scored: 0,
        expanded: 0,
        matched: 0,
        groups: 0,
    };
    reports.push(
        ProgressEvent::determinate(
            ProgressPhase::ReduceScopes,
            completed,
            total,
            WorkUnit::Items,
            counters,
        ),
    );
    assert(reports@.take(old(reports)@.len() as int) =~= old(reports)@);
}

proof fn lemma_reported_steps(steps: Seq<(u64, u64)>, work: u64)
    requires
        component::reported(Seq::empty(), steps, work, work),
    ensures
        steps.len() > 0,
        steps[0].0 == 0,
        steps.last().0 == work,
        forall|i: int, j: int|
            0 <= i < j < steps.len() ==> (#[trigger] steps[i]).0 < (#[trigger] steps[j]).0,
{
    assert(steps.skip(0) =~= steps);
}

/// Counts the work of a reduced scope, step by step.
#[verifier::loop_isolation(false)]
fn report_steps(
    steps: &Vec<(u64, u64)>,
    completed: u64,
    total: u64,
    reports: &mut Vec<ProgressEvent>,
) -> (result: Result<u64, PipelineError>)
    ensures
        catalog::extends(final(reports)@, old(reports)@),
        result matches Err(e) ==> e@ == error::overflow_fault(),
        steps@.len() == 0 ==> (result matches Ok(sum) && sum == completed),
        steps@.len() > 0 && (forall|i: int, j: int|
            0 <= i < j < steps@.len() ==> (#[trigger] steps@[i]).0 < (#[trigger] steps@[j]).0)
            && steps@[0].0 == 0 ==> (if completed + steps@.last().0 <= u64::MAX {
            result matches Ok(sum) && sum == completed + steps@.last().0
        } else {
            result is Err
        }),
{
    let ghost told = reports@;
    let mut done: u64 = completed;
    let mut previous: u64 = 0;
    let mut i: usize = 0;
    assert(reports@.take(told.len() as int) =~= told);
    let ghost ordered = (forall|i: int, j: int|
        0 <= i < j < steps@.len() ==> (#[trigger] steps@[i]).0 < (#[trigger] steps@[j]).0);
    while i < steps.len()
        invariant
            i <= steps@.len(),
            catalog::extends(reports@, told),
            ordered == (forall|i: int, j: int|
                0 <= i < j < steps@.len() ==> (#[trigger] steps@[i]).0 < (
                #[trigger] steps@[j]).0),
            i == 0 ==> previous == 0 && done == completed,
            ordered && steps@.len() > 0 && steps@[0].0 == 0 && i > 0 ==> previous == steps@[i
                - 1].0 && done == completed + previous,
        decreases steps.len() - i,
    {
        let (now, _) = steps[i];
        let delta: u64 = now.saturating_sub(previous);
        assert(steps@[i as int].0 == now);
        previous = now;
        if delta != 0 {
            let ghost middle = reports@;
            done = match done.checked_add(delta) {
                Some(sum) => sum,
                None => {
                    proof {
                        if ordered && steps@.len() > 0 && steps@[0].0 == 0 && i
                            < steps@.len() - 1 {
                            assert(steps@[i as int].0 < steps@[steps@.len() - 1].0);
                        }
                    }
                    return Err(overflow_error());
                },
            };
            report_reduction(
                if done < total {
                    done
                } else {
                    total
                },
                total,
                reports,
            );
            proof {
                catalog::lemma_extends(reports@, middle, told);
            }
        }
        i = i + 1;
    }
    Ok(done)
}

/// The last report of a reduction: all work is done.
pub open spec fn is_reduced_report(report: ProgressEvent, work: nat) -> bool {
    &&& report.phase == ProgressPhase::ReduceScopes
    &&& report.completed == work
    &&& report.total == Some(report.completed)
}

/// Reduces the forests of all scopes to component roots. `mapped` says that roots are kept in
/// mapped files.
#[verifier::loop_isolation(false)]
#[verifier::rlimit(30)]
pub fn reduce_component_scopes(
    runs: &ScopeForestRuns,
    index: ChainContractIndex,
    contract_chain: &[u32],
    chain_count: usize,
    total: u64,
    mapped: bool,
    reports: &mut Vec<ProgressEvent>,
) -> (result: Result<ScopeComponents, PipelineError>)
    requires
        contract_chain@.len() <= u32::MAX,
        chain_count <= u32::MAX,
        chain_count * (chain_count - 1) <= usize::MAX,
        index.wf(),
        index.chains@ == contract_chain@,
        index.ranks(contract_chain@),
        index.offsets@.len() == chain_count + 1,
        runs.pairs@.len() == pairs::all_pairs(chain_count as int).len(),
        forall|scope: int|
            0 <= scope < runs.pairs@.len() + 2 ==> collectors::runs_over(
                #[trigger] runs.scope(scope),
                contract_chain@.len() as u32,
            ),
    ensures
        catalog::extends(final(reports)@, old(reports)@),
        match result {
            Ok(components) => are_components(
                components,
                contract_chain@,
                chain_count as int,
                *runs,
            ) && is_reduced_report(
                final(reports)@.last(),
                connectivity::work_below(
                    *runs,
                    contract_chain@,
                    chain_count as int,
                    runs.pairs@.len() as int + 2,
                ),
            ),
            Err(e) => {
                ||| e@ == error::overflow_fault() && connectivity::work_below(
                    *runs,
                    contract_chain@,
                    chain_count as int,
                    runs.pairs@.len() as int + 2,
                ) > u64::MAX
                ||| e@ matches PipelineFault::Reduce(own) && exists|scope: int|
                    0 <= scope < runs.pairs@.len() + 2 && is_scope_fault(
                        kind_of(scope, chain_count as int),
                        contract_chain@,
                        #[trigger] runs.scope(scope),
                        own,
                    )
            },
        },
{
    let ghost all = contract_chain@;
    let ghost c = chain_count as int;
    let ghost told = reports@;
    let list = chain_pairs(chain_count);
    let ghost count = list@.len() as int;
    assert(reports@.take(told.len() as int) =~= told);
    let mut steps: Vec<(u64, u64)> = Vec::new();
    assert(runs.scope(0) == runs.intra@);
    let intra = match reduce_scope(
        ComponentScopeKind::Intra,
        &runs.intra,
        &index,
        contract_chain,
        &mut steps,
    ) {
        Ok(roots) => roots,
        Err(error) => {
            assert(kind_of(0, c) == ComponentScopeKind::Intra);
            return Err(error);
        },
    };
    proof {
        assert(kind_of(0, c) == ComponentScopeKind::Intra);
        lemma_reported_steps(
            steps@,
            scope_work(ComponentScopeKind::Intra, all, runs.scope(0)) as u64,
        );
        reveal_with_fuel(connectivity::work_below, 2);
    }
    let mut completed: u64 = match report_steps(&steps, 0, total, reports) {
        Ok(sum) => sum,
        Err(error) => {
            return Err(error);
        },
    };
    assert(completed == connectivity::work_below(*runs, all, c, 1));
    let ghost told_intra = reports@;
    let mut steps: Vec<(u64, u64)> = Vec::new();
    assert(runs.scope(1) == runs.cross@);
    let cross = match reduce_scope(
        ComponentScopeKind::Cross,
        &runs.cross,
        &index,
        contract_chain,
        &mut steps,
    ) {
        Ok(roots) => roots,
        Err(error) => {
            assert(kind_of(1, c) == ComponentScopeKind::Cross);
            return Err(error);
        },
    };
    let counted = report_steps(&steps, completed, total, reports);
    proof {
        catalog::lemma_extends(reports@, told_intra, told);
        assert(kind_of(1, c) == ComponentScopeKind::Cross);
        lemma_reported_steps(
            steps@,
            scope_work(ComponentScopeKind::Cross, all, runs.scope(1)) as u64,
        );
        connectivity::lemma_work_grows(*runs, all, c, 2, count + 2);
    }
    completed = match counted {
        Ok(sum) => sum,
        Err(error) => {
            return Err(error);
        },
    };
    assert(completed == connectivity::work_below(*runs, all, c, 2));
    let mut chain_pair_roots: Vec<ChainPairRoots> = Vec::new();
    let mut k: usize = 0;
    while k < list.len()
        invariant
            k <= list@.len(),
            catalog::extends(reports@, told),
            completed == connectivity::work_below(*runs, all, c, k + 2),
            chain_pair_roots@.len() == k,
            forall|p: int|
                0 <= p < k ==> {
                    &&& is_labelled(#[trigger] chain_pair_roots@[p], all, list@[p])
                    &&& are_scope_roots(
                        kind_of(p + 2, c),
                        all,
                        component::storage_edges(runs.scope(p + 2)),
                        chain_pair_roots@[p].roots@,
                    )
                },
        decreases list.len() - k,
    {
        let (left, right) = list[k];
        let ghost told_middle = reports@;
        proof {
            pairs::lemma_pairs_ordered(c, c, k as int);
            assert(list@[k as int] == (left, right));
            assert(runs.scope(k + 2) == runs.pairs@[k as int]@);
            assert(collectors::runs_over(runs.scope(k + 2), all.len() as u32));
        }
        let mut steps: Vec<(u64, u64)> = Vec::new();
        let kind = ComponentScopeKind::Pair { left, right };
        assert(kind_of(k + 2, c) == kind);
        let roots = match reduce_scope(kind, &runs.pairs[k], &index, contract_chain, &mut steps) {
            Ok(roots) => roots,
            Err(error) => {
                return Err(error);
            },
        };
        let counted = report_steps(&steps, completed, total, reports);
        proof {
            catalog::lemma_extends(reports@, told_middle, told);
            lemma_reported_steps(steps@, scope_work(kind, all, runs.scope(k + 2)) as u64);
            connectivity::lemma_work_grows(*runs, all, c, k + 3, count + 2);
        }
        completed = match counted {
            Ok(sum) => sum,
            Err(error) => {
                return Err(error);
            },
        };
        let left_contract_count: u32 = match index.contracts_for_chain(left as usize) {
            Ok(row) => {
                proof {
                    chains::lemma_pair_fits(all, left as int, right as int);
                }
                row.len() as u32
            },
            Err(error) => {
                assert(false);
                return Err(error);
            },
        };
        chain_pair_roots.push(
            ChainPairRoots {
                left_chain: left,
                right_chain: right,
                left_contract_count,
                roots: RootStorage { words: roots, mapped },
            },
        );
        k = k + 1;
    }
    let ghost told_last = reports@;
    report_reduction(completed, completed, reports);
    let ChainContractIndex { offsets, contracts, local_rank: _, chains: _ } = index;
    let components = ScopeComponents {
        intra_roots: RootStorage { words: intra, mapped },
        cross_roots: RootStorage { words: cross, mapped },
        chain_pair_roots,
        chain_contract_offsets: offsets,
        chain_contracts: contracts,
    };
    proof {
        catalog::lemma_extends(reports@, told_last, told);
        assert forall|scope: int| 0 <= scope < count + 2 implies are_scope_roots(
            kind_of(scope, c),
            all,
            component::storage_edges(runs.scope(scope)),
            #[trigger] roots_of(components, scope),
        ) by {
            if scope >= 2 {
                assert(components.chain_pair_roots@[scope - 2] == chain_pair_roots@[scope - 2]);
            }
        }
        assert forall|chain: int| 0 <= chain < c implies #[trigger] components.row(chain) == Some(
            chains::chain_members(all, chain),
        ) by {
            chains::lemma_index_rows(index, all, c, chain);
        }
    }
    Ok(components)
}

/// A scope on its way to component roots.
pub struct ComponentScopePlan {
    pub kind: ComponentScopeKind,
    pub identity: ComponentSnapshotIdentity,
    pub runs: Vec<ForestRunStorage>,
    pub roots: Option<RootStorage>,
    pub needs_rebuild: bool,
    pub committed: bool,
}

/// The forests of the scope are over all contracts, and its chains have lists.
pub open spec fn is_pending_scope(
    scope: ComponentScopePlan,
    index: ChainContractIndex,
    contracts: nat,
) -> bool {
    &&& collectors::runs_over(scope.runs@, contracts as u32)
    &&& (scope.kind matches ComponentScopeKind::Pair { left, right } ==> left != right && left
        < index.offsets@.len() - 1 && right < index.offsets@.len() - 1)
}

/// A scope with roots keeps them; another gets the roots of its forests, which it gives up.
pub open spec fn is_reduced_scope(
    after: ComponentScopePlan,
    before: ComponentScopePlan,
    chains: Seq<u32>,
    mapped: bool,
) -> bool {
    &&& after.kind == before.kind
    &&& after.identity == before.identity
    &&& after.needs_rebuild == before.needs_rebuild
    &&& after.committed == before.committed
    &&& if before.roots is Some {
        after == before
    } else {
        &&& after.roots is Some
        &&& after.roots->0.mapped == mapped
        &&& are_scope_roots(
            before.kind,
            chains,
            component::storage_edges(before.runs@),
            after.roots->0@,
        )
        &&& after.runs@.len() == 0
    }
}

/// Drops the forests of scopes that need no rebuilding.
pub fn release_reused_component_runs(scopes: &mut Vec<ComponentScopePlan>)
    ensures
        final(scopes)@.len() == old(scopes)@.len(),
        forall|i: int|
            0 <= i < final(scopes)@.len() ==> {
                let before = old(scopes)@[i];
                let after = #[trigger] final(scopes)@[i];
                if before.needs_rebuild {
                    after == before
                } else {
                    after == (ComponentScopePlan { runs: after.runs, ..before })
                        && after.runs@.len() == 0
                }
            },
{
    let ghost start = scopes@;
    let mut i: usize = 0;
    while i < scopes.len()
        invariant
            i <= scopes@.len(),
            scopes@.len() == start.len(),
            forall|k: int| i <= k < scopes@.len() ==> #[trigger] scopes@[k] == start[k],
            forall|k: int|
                0 <= k < i ==> {
                    let before = start[k];
                    let after = #[trigger] scopes@[k];
                    if before.needs_rebuild {
                        after == before
                    } else {
                        after == (ComponentScopePlan { runs: after.runs, ..before })
                            && after.runs@.len() == 0
                    }
                },
        decreases scopes.len() - i,
    {
        if !scopes[i].needs_rebuild {
            scopes[i].runs = Vec::new();
        }
        i = i + 1;
    }
}

/// The work of those of the first `count` scopes that have no roots yet.
pub open spec fn pending_work(scopes: Seq<ComponentScopePlan>, chains: Seq<u32>, count: int) -> nat
    decreases count,
{
    if count <= 0 {
        0
    } else if scopes[count - 1].roots is Some {
        pending_work(scopes, chains, count - 1)
    } else {
        pending_work(scopes, chains, count - 1) + scope_work(
            scopes[count - 1].kind,
            chains,
            scopes[count - 1].runs@,
        )
    }
}

proof fn lemma_pending_work_grows(
    scopes: Seq<ComponentScopePlan>,
    chains: Seq<u32>,
    count: int,
    most: int,
)
    requires
        count <= most,
    ensures
        pending_work(scopes, chains, count) <= pending_work(scopes, chains, most),
    decreases most - count,
{
    if count < most {
        lemma_pending_work_grows(scopes, chains, count, most - 1);
    }
}

/// Reduces the scopes that have no roots yet.
#[verifier::loop_isolation(false)]
pub fn reduce_pending_scopes(
    scopes: &mut Vec<ComponentScopePlan>,
    index: &ChainContractIndex,
    contract_chain: &[u32],
    total: u64,
    mapped: bool,
    reports: &mut Vec<ProgressEvent>,
) -> (result: Result<(), PipelineError>)
    requires
        index.wf(),
        index.chains@ == contract_chain@,
        index.ranks(contract_chain@),
        forall|i: int|
            0 <= i < old(scopes)@.len() ==> is_pending_scope(
                #[trigger] old(scopes)@[i],
                *index,
                contract_chain@.len(),
            ),
    ensures
        final(scopes)@.len() == old(scopes)@.len(),
        match result {
            Ok(_) => {
                &&& is_reduced_report(
                    final(reports)@.last(),
                    pending_work(old(scopes)@, contract_chain@, old(scopes)@.len() as int),
                )
                &&& forall|i: int|
                    0 <= i < final(scopes)@.len() ==> is_reduced_scope(
                        #[trigger] final(scopes)@[i],
                        old(scopes)@[i],
                        contract_chain@,
                        mapped,
                    )
            },
            Err(e) => {
                ||| e@ == error::overflow_fault() && pending_work(
                    old(scopes)@,
                    contract_chain@,
                    old(scopes)@.len() as int,
                ) > u64::MAX
                ||| e@ matches PipelineFault::Reduce(own) && exists|i: int|
                    0 <= i < old(scopes)@.len() && (#[trigger] old(scopes)@[i]).roots is None
                        && is_scope_fault(
                        old(scopes)@[i].kind,
                        contract_chain@,
                        old(scopes)@[i].runs@,
                        own,
                    )
            },
        },
        catalog::extends(final(reports)@, old(reports)@),
{
    let ghost start = scopes@;
    let ghost told = reports@;
    let mut completed: u64 = 0;
    let mut i: usize = 0;
    assert(reports@.take(told.len() as int) =~= told);
    while i < scopes.len()
        invariant
            i <= scopes@.len(),
            scopes@.len() == start.len(),
            catalog::extends(reports@, told),
            completed == pending_work(start, contract_chain@, i as int),
            forall|k: int| i <= k < scopes@.len() ==> #[trigger] scopes@[k] == start[k],
            forall|k: int|
                0 <= k < i ==> is_reduced_scope(
                    #[trigger] scopes@[k],
                    start[k],
                    contract_chain@,
                    mapped,
                ),
        decreases scopes.len() - i,
    {
        assert(scopes@[i as int] == start[i as int]);
        assert(is_pending_scope(start[i as int], *index, contract_chain@.len()));
        if scopes[i].roots.is_none() {
            let mut steps: Vec<(u64, u64)> = Vec::new();
            let roots = match reduce_scope(
                scopes[i].kind,
                &scopes[i].runs,
                index,
                contract_chain,
                &mut steps,
            ) {
                Ok(roots) => roots,
                Err(error) => {
                    return Err(error);
                },
            };
            let ghost middle = reports@;
            let counted = report_steps(&steps, completed, total, reports);
            proof {
                catalog::lemma_extends(reports@, middle, told);
                lemma_reported_steps(
                    steps@,
                    scope_work(start[i as int].kind, contract_chain@, start[i as int].runs@) as u64,
                );
                lemma_pending_work_grows(start, contract_chain@, i + 1, start.len() as int);
            }
            completed = match counted {
                Ok(sum) => sum,
                Err(error) => {
                    return Err(error);
                },
            };
            scopes[i].roots = Some(RootStorage { words: roots, mapped });
            scopes[i].runs = Vec::new();
            assert(is_reduced_scope(scopes@[i as int], start[i as int], contract_chain@, mapped));
        }
        i = i + 1;
    }
    let ghost last = reports@;
    report_reduction(completed, completed, reports);
    proof {
        catalog::lemma_extends(reports@, last, told);
    }
    Ok(())
}

} // verus!
