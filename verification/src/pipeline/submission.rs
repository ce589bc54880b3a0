//! What collectors have gained, scope by scope.

use crate::pipeline::collectors;
use crate::pipeline::collectors::ScopeCollectors;
use crate::pipeline::compaction;
use crate::pipeline::compaction::{
    compact_catalog_scope_batch_by_chain, CompactedCatalogEdges, ScopeCompactionScratch,
};
use crate::pipeline::error::{PipelineError, PipelineFault};
use crate::pipeline::pairs;
use crate::reduce::error::ReduceFault;
use crate::reduce::forest;
use crate::reduce::graph;
use crate::reduce::graph::Edge;
use vstd::prelude::*;

verus! {

/// In every scope both edge sequences connect the same contracts.
pub open spec fn same_scopes(
    left: Seq<Edge>,
    right: Seq<Edge>,
    chains: Seq<u32>,
    chain_count: int,
) -> bool {
    forall|scope: int| 0 <= scope ==> #[trigger] same_scope(left, right, chains, chain_count, scope)
}

/// In the scope both edge sequences connect the same contracts.
pub open spec fn same_scope(
    left: Seq<Edge>,
    right: Seq<Edge>,
    chains: Seq<u32>,
    chain_count: int,
    scope: int,
) -> bool {
    graph::same_connectivity(
        collectors::scope_part(left, chains, chain_count, scope),
        collectors::scope_part(right, chains, chain_count, scope),
    )
}

/// In every scope the collectors connect what they connected before and the edges.
pub open spec fn gains(
    after: ScopeCollectors,
    before: ScopeCollectors,
    edges: Seq<Edge>,
    chains: Seq<u32>,
    chain_count: int,
) -> bool {
    forall|scope: int|
        0 <= scope < before.scopes() ==> graph::same_connectivity(
            #[trigger] after.submitted(scope),
            before.submitted(scope) + collectors::scope_part(edges, chains, chain_count, scope),
        )
}

/// The collectors hold the scopes of `chain_count` chains.
pub open spec fn covers_chains(collectors: ScopeCollectors, chain_count: int) -> bool {
    &&& collectors.scopes() == pairs::all_pairs(chain_count).len() + 2
    &&& chain_count * (chain_count - 1) <= usize::MAX
}

/// `some` are the first of `all`.
pub open spec fn begins(all: Seq<Edge>, some: Seq<Edge>) -> bool {
    some.len() <= all.len() && some == all.take(some.len() as int)
}

/// A sequence begins another that was extended.
pub proof fn lemma_begins(some: Seq<Edge>, more: Seq<Edge>)
    ensures
        begins(some + more, some),
        begins(some, some),
{
    assert((some + more).take(some.len() as int) =~= some);
    assert(some.take(some.len() as int) =~= some);
}

/// Of the beginning of a beginning, and behind what is common.
pub proof fn lemma_begins_more(all: Seq<Edge>, some: Seq<Edge>, few: Seq<Edge>)
    ensures
        begins(all, some) && begins(some, few) ==> begins(all, few),
        begins(some, few) ==> begins(all + some, all + few),
{
    if begins(all, some) && begins(some, few) {
        assert(all.take(few.len() as int) =~= few);
    }
    if begins(some, few) {
        assert((all + some).take((all + few).len() as int) =~= all + few);
    }
}

/// What the scopes are given of edges: edges of theirs, which connect what theirs connect.
pub open spec fn is_share(
    parts: Seq<Seq<Edge>>,
    edges: Seq<Edge>,
    chains: Seq<u32>,
    chain_count: int,
) -> bool {
    forall|scope: int|
        0 <= scope < parts.len() ==> is_scope_share(
            #[trigger] parts[scope],
            collectors::scope_part(edges, chains, chain_count, scope),
        )
}

/// The edges are all of `own`, and connect what those connect.
pub open spec fn is_scope_share(part: Seq<Edge>, own: Seq<Edge>) -> bool {
    &&& graph::same_connectivity(part, own)
    &&& forall|k: int| 0 <= k < part.len() ==> own.contains(#[trigger] part[k])
}

/// Of the edges `sent` were taken in, and `batch` follows.
pub open spec fn comes_to(
    middle: ScopeCollectors,
    before: ScopeCollectors,
    edges: Seq<Edge>,
    sent: Seq<Edge>,
    batch: Seq<Edge>,
    chains: Seq<u32>,
    chain_count: int,
) -> bool {
    &&& middle.wf()
    &&& !middle.is_cancelled()
    &&& middle.continues(before)
    &&& gains(middle, before, sent, chains, chain_count)
    &&& begins(edges, sent + batch)
    &&& compaction::edges_known(batch, chains, chain_count)
}

/// The collectors stopped on the edges: with the first of them taken in, they refused what the
/// scopes were given of the next ones.
pub open spec fn stops_on(
    after: ScopeCollectors,
    before: ScopeCollectors,
    edges: Seq<Edge>,
    chains: Seq<u32>,
    chain_count: int,
    fault: PipelineFault,
) -> bool {
    exists|
        middle: ScopeCollectors,
        sent: Seq<Edge>,
        batch: Seq<Edge>,
        parts: Seq<Seq<Edge>>,
    |
        #![trigger comes_to(middle, before, edges, sent, batch, chains, chain_count), middle.refuses_parts(after, parts, fault)]
        {
            &&& comes_to(middle, before, edges, sent, batch, chains, chain_count)
            &&& is_share(parts, batch, chains, chain_count)
            &&& middle.refuses_parts(after, parts, fault)
        }
}

/// Collectors that stop on some edges stop on edges that begin with those.
pub proof fn lemma_stops_on_longer(
    after: ScopeCollectors,
    before: ScopeCollectors,
    edges: Seq<Edge>,
    longer: Seq<Edge>,
    chains: Seq<u32>,
    chain_count: int,
    fault: PipelineFault,
)
    requires
        stops_on(after, before, edges, chains, chain_count, fault),
        begins(longer, edges),
    ensures
        stops_on(after, before, longer, chains, chain_count, fault),
{
    let (middle, sent, batch, parts) = choose|
        middle: ScopeCollectors,
        sent: Seq<Edge>,
        batch: Seq<Edge>,
        parts: Seq<Seq<Edge>>,
    |
        #![trigger comes_to(middle, before, edges, sent, batch, chains, chain_count), middle.refuses_parts(after, parts, fault)]
        {
            &&& comes_to(middle, before, edges, sent, batch, chains, chain_count)
            &&& is_share(parts, batch, chains, chain_count)
            &&& middle.refuses_parts(after, parts, fault)
        };
    lemma_begins_more(longer, edges, sent + batch);
    assert(comes_to(middle, before, longer, sent, batch, chains, chain_count));
}

/// Collectors that gain edges and stop on others stop on both.
pub proof fn lemma_stops_on_later(
    after: ScopeCollectors,
    between: ScopeCollectors,
    before: ScopeCollectors,
    edges: Seq<Edge>,
    more: Seq<Edge>,
    chains: Seq<u32>,
    chain_count: int,
    fault: PipelineFault,
)
    requires
        gains(between, before, edges, chains, chain_count),
        between.continues(before),
        stops_on(after, between, more, chains, chain_count, fault),
    ensures
        stops_on(after, before, edges + more, chains, chain_count, fault),
{
    let (middle, sent, batch, parts) = choose|
        middle: ScopeCollectors,
        sent: Seq<Edge>,
        batch: Seq<Edge>,
        parts: Seq<Seq<Edge>>,
    |
        #![trigger comes_to(middle, between, more, sent, batch, chains, chain_count), middle.refuses_parts(after, parts, fault)]
        {
            &&& comes_to(middle, between, more, sent, batch, chains, chain_count)
            &&& is_share(parts, batch, chains, chain_count)
            &&& middle.refuses_parts(after, parts, fault)
        };
    collectors::lemma_continues(between, before);
    collectors::lemma_continues_on(middle, between, before);
    lemma_gains_more(middle, between, before, edges, sent, chains, chain_count);
    lemma_begins_more(edges, more, sent + batch);
    assert(edges + (sent + batch) =~= (edges + sent) + batch);
    assert(comes_to(middle, before, edges + more, edges + sent, batch, chains, chain_count));
}

/// Collectors that refuse what the scopes are given of edges stop on these.
pub proof fn lemma_stops_on(
    after: ScopeCollectors,
    before: ScopeCollectors,
    edges: Seq<Edge>,
    parts: Seq<Seq<Edge>>,
    chains: Seq<u32>,
    chain_count: int,
    fault: PipelineFault,
)
    requires
        before.wf(),
        !before.is_cancelled(),
        compaction::edges_known(edges, chains, chain_count),
        is_share(parts, edges, chains, chain_count),
        before.refuses_parts(after, parts, fault),
    ensures
        stops_on(after, before, edges, chains, chain_count, fault),
{
    lemma_gains_none(before, chains, chain_count);
    collectors::lemma_continues_on(before, before, before);
    let none = Seq::<Edge>::empty();
    assert(none + edges =~= edges);
    assert(edges.take(edges.len() as int) =~= edges);
    assert(comes_to(before, before, edges, none, edges, chains, chain_count));
}

/// Collectors that refuse the parts of edges stop on these.
pub proof fn lemma_push_stops(
    after: ScopeCollectors,
    before: ScopeCollectors,
    edges: Seq<Edge>,
    chains: Seq<u32>,
    chain_count: int,
    fault: PipelineFault,
)
    requires
        before.wf(),
        !before.is_cancelled(),
        compaction::edges_known(edges, chains, chain_count),
        before.refuses_parts(
            after,
            collectors::chain_parts(edges, chains, chain_count, before.scopes()),
            fault,
        ),
    ensures
        stops_on(after, before, edges, chains, chain_count, fault),
{
    let parts = collectors::chain_parts(edges, chains, chain_count, before.scopes());
    assert forall|scope: int| 0 <= scope < parts.len() implies is_scope_share(
        #[trigger] parts[scope],
        collectors::scope_part(edges, chains, chain_count, scope),
    ) by {
        assert forall|k: int| 0 <= k < parts[scope].len() implies parts[scope].contains(
            #[trigger] parts[scope][k],
        ) by {}
    }
    lemma_stops_on(after, before, edges, parts, chains, chain_count, fault);
}

/// Why collectors stop on edges: a limit is exceeded that not every forest keeps to, a contract
/// of one of the edges lies outside the nodes, or something cannot be counted.
pub open spec fn is_edge_fault(
    after: ScopeCollectors,
    edges: Seq<Edge>,
    contracts: nat,
    fault: PipelineFault,
) -> bool {
    fault matches PipelineFault::Reduce(own) && after.limits().may_fail_with(own) && match own {
        ReduceFault::Endpoint { endpoint, .. } => endpoint < contracts && graph::touches(
            edges,
            endpoint as int,
        ),
        ReduceFault::WorkOverflow => after.cannot_count(),
        _ => true,
    }
}

/// Collectors stop on edges only for those edges, for the limits, and for what cannot be counted.
pub proof fn lemma_stop_fault(
    after: ScopeCollectors,
    before: ScopeCollectors,
    edges: Seq<Edge>,
    chains: Seq<u32>,
    chain_count: int,
    fault: PipelineFault,
)
    requires
        stops_on(after, before, edges, chains, chain_count, fault),
    ensures
        after.is_cancelled(),
        edges.len() > 0,
        is_edge_fault(after, edges, chains.len(), fault),
{
    let (middle, sent, batch, parts) = choose|
        middle: ScopeCollectors,
        sent: Seq<Edge>,
        batch: Seq<Edge>,
        parts: Seq<Seq<Edge>>,
    |
        #![trigger comes_to(middle, before, edges, sent, batch, chains, chain_count), middle.refuses_parts(after, parts, fault)]
        {
            &&& comes_to(middle, before, edges, sent, batch, chains, chain_count)
            &&& is_share(parts, batch, chains, chain_count)
            &&& middle.refuses_parts(after, parts, fault)
        };
    middle.lemma_refuses_parts(after, parts, fault);
    assert forall|scope: int, k: int|
        0 <= scope < parts.len() && 0 <= k < parts[scope].len() implies batch.contains(
        #[trigger] parts[scope][k],
    ) && edges.contains(parts[scope][k]) by {
        let edge = parts[scope][k];
        let own = collectors::scope_part(batch, chains, chain_count, scope);
        assert(is_scope_share(parts[scope], own));
        assert(own.contains(edge));
        lemma_part_members(batch, chains, chain_count, scope, edge);
        let at = batch.index_of(edge);
        assert((sent + batch)[sent.len() + at] == edge);
        assert(edges.take((sent + batch).len() as int)[sent.len() + at] == edges[sent.len() + at]);
    }
    let (at, scope) = choose|at: ScopeCollectors, scope: int| #[trigger]
        at.refuses(after, scope, parts[scope], fault) && 0 <= scope < middle.scopes()
            && parts[scope].len() > 0;
    assert(edges.contains(parts[scope][0]));
    if let PipelineFault::Reduce(ReduceFault::Endpoint { endpoint, .. }) = fault {
        let scope = choose|scope: int|
            0 <= scope < parts.len() && graph::touches(#[trigger] parts[scope], endpoint as int);
        let k = choose|k: int|
            0 <= k < parts[scope].len() && ((#[trigger] parts[scope][k]).left == endpoint
                || parts[scope][k].right == endpoint);
        let at = edges.index_of(parts[scope][k]);
        assert(edges[at].left == endpoint || edges[at].right == endpoint);
        let own = batch.index_of(parts[scope][k]);
        assert(batch[own].left < chains.len() && batch[own].right < chains.len());
    }
}

/// Collectors whose limits no forest exceeds, and whose nodes cover the contracts, stop only where
/// something cannot be counted.
pub proof fn lemma_ample_stop(
    after: ScopeCollectors,
    before: ScopeCollectors,
    edges: Seq<Edge>,
    chains: Seq<u32>,
    chain_count: int,
    fault: PipelineFault,
)
    requires
        stops_on(after, before, edges, chains, chain_count, fault),
        after.limits().are_ample(),
        chains.len() <= after.limits().node_count,
    ensures
        fault == PipelineFault::Reduce(ReduceFault::WorkOverflow),
        after.cannot_count(),
{
    lemma_stop_fault(after, before, edges, chains, chain_count, fault);
    after.limits().lemma_ample(fault->Reduce_0);
}

proof fn lemma_part_members(
    edges: Seq<Edge>,
    chains: Seq<u32>,
    chain_count: int,
    scope: int,
    edge: Edge,
)
    requires
        collectors::scope_part(edges, chains, chain_count, scope).contains(edge),
    ensures
        edges.contains(edge),
{
    compaction::lemma_picked_members(
        edges,
        |edge: Edge| compaction::is_intra(chains, edge),
        edge,
    );
    compaction::lemma_picked_members(
        edges,
        |edge: Edge| !compaction::is_intra(chains, edge),
        edge,
    );
    compaction::lemma_picked_members(
        edges,
        |edge: Edge|
            !compaction::is_intra(chains, edge) && compaction::pair_of(chains, chain_count, edge)
                == scope - 2,
        edge,
    );
}

/// What a failed submission says: the collectors stopped on the edges, or had been stopped.
pub open spec fn is_refusal(
    fault: PipelineFault,
    before: ScopeCollectors,
    after: ScopeCollectors,
    edges: Seq<Edge>,
    chains: Seq<u32>,
    chain_count: int,
) -> bool {
    if before.is_cancelled() {
        fault == PipelineFault::Parallel("scope collector broker cancelled"@)
    } else {
        stops_on(after, before, edges, chains, chain_count, fault)
    }
}

/// A refusal of some edges is one of edges that begin with those.
pub proof fn lemma_refusal_longer(
    fault: PipelineFault,
    before: ScopeCollectors,
    after: ScopeCollectors,
    edges: Seq<Edge>,
    longer: Seq<Edge>,
    chains: Seq<u32>,
    chain_count: int,
)
    requires
        is_refusal(fault, before, after, edges, chains, chain_count),
        begins(longer, edges),
    ensures
        is_refusal(fault, before, after, longer, chains, chain_count),
{
    if !before.is_cancelled() {
        lemma_stops_on_longer(after, before, edges, longer, chains, chain_count, fault);
    }
}

proof fn lemma_picked_concat(left: Seq<Edge>, right: Seq<Edge>, keep: spec_fn(Edge) -> bool)
    ensures
        compaction::picked(left + right, keep) == compaction::picked(left, keep)
            + compaction::picked(right, keep),
    decreases right.len(),
{
    let all = left + right;
    if right.len() == 0 {
        assert(all =~= left);
        assert(compaction::picked(left, keep) + compaction::picked(right, keep)
            =~= compaction::picked(left, keep));
    } else {
        lemma_picked_concat(left, right.drop_last(), keep);
        assert(all.drop_last() =~= left + right.drop_last());
        assert(compaction::picked(all, keep) =~= compaction::picked(left, keep)
            + compaction::picked(right, keep));
    }
}

/// A scope's part of two sequences is its part of each.
pub proof fn lemma_scope_part_concat(
    left: Seq<Edge>,
    right: Seq<Edge>,
    chains: Seq<u32>,
    chain_count: int,
    scope: int,
)
    ensures
        collectors::scope_part(left + right, chains, chain_count, scope) == collectors::scope_part(
            left,
            chains,
            chain_count,
            scope,
        ) + collectors::scope_part(right, chains, chain_count, scope),
{
    lemma_picked_concat(left, right, |edge: Edge| compaction::is_intra(chains, edge));
    lemma_picked_concat(left, right, |edge: Edge| !compaction::is_intra(chains, edge));
    lemma_picked_concat(
        left,
        right,
        |edge: Edge|
            !compaction::is_intra(chains, edge) && compaction::pair_of(chains, chain_count, edge)
                == scope - 2,
    );
}

/// Scope by scope, equal connectivity is kept where sequences are joined.
pub proof fn lemma_same_scopes_concat(
    left: Seq<Edge>,
    right: Seq<Edge>,
    left_other: Seq<Edge>,
    right_other: Seq<Edge>,
    chains: Seq<u32>,
    chain_count: int,
)
    requires
        same_scopes(left, left_other, chains, chain_count),
        same_scopes(right, right_other, chains, chain_count),
    ensures
        same_scopes(left + right, left_other + right_other, chains, chain_count),
{
    assert forall|scope: int| 0 <= scope implies #[trigger] same_scope(
        left + right,
        left_other + right_other,
        chains,
        chain_count,
        scope,
    ) by {
        assert(same_scope(left, left_other, chains, chain_count, scope));
        assert(same_scope(right, right_other, chains, chain_count, scope));
        lemma_scope_part_concat(left, right, chains, chain_count, scope);
        lemma_scope_part_concat(left_other, right_other, chains, chain_count, scope);
        graph::lemma_concat_connectivity(
            collectors::scope_part(left, chains, chain_count, scope),
            collectors::scope_part(right, chains, chain_count, scope),
            collectors::scope_part(left_other, chains, chain_count, scope),
            collectors::scope_part(right_other, chains, chain_count, scope),
        );
    }
}

/// Equal edges connect the same in every scope.
pub proof fn lemma_same_scopes_reflexive(edges: Seq<Edge>, chains: Seq<u32>, chain_count: int)
    ensures
        same_scopes(edges, edges, chains, chain_count),
{
}

/// Edges that connect each other's endpoints connect the same.
pub proof fn lemma_mutual(left: Seq<Edge>, right: Seq<Edge>)
    requires
        forall|k: int|
            0 <= k < left.len() ==> graph::connected(
                right,
                (#[trigger] left[k]).left as int,
                left[k].right as int,
            ),
        forall|k: int|
            0 <= k < right.len() ==> graph::connected(
                left,
                (#[trigger] right[k]).left as int,
                right[k].right as int,
            ),
    ensures
        graph::same_connectivity(left, right),
{
    assert forall|a: int, b: int| #[trigger] graph::connected(left, a, b) <==> graph::connected(
        right,
        a,
        b,
    ) by {
        if graph::connected(left, a, b) {
            graph::lemma_connected_monotone(left, right, a, b);
        }
        if graph::connected(right, a, b) {
            graph::lemma_connected_monotone(right, left, a, b);
        }
    }
}

/// Nothing submitted, nothing gained.
pub proof fn lemma_gains_none(before: ScopeCollectors, chains: Seq<u32>, chain_count: int)
    ensures
        gains(before, before, Seq::empty(), chains, chain_count),
{
    assert forall|scope: int| 0 <= scope < before.scopes() implies graph::same_connectivity(
        #[trigger] before.submitted(scope),
        before.submitted(scope) + collectors::scope_part(
            Seq::empty(),
            chains,
            chain_count,
            scope,
        ),
    ) by {
        assert(before.submitted(scope) + collectors::scope_part(
            Seq::empty(),
            chains,
            chain_count,
            scope,
        ) =~= before.submitted(scope));
    }
}

/// Submitted edges are gained.
pub proof fn lemma_gains_parts(
    after: ScopeCollectors,
    before: ScopeCollectors,
    edges: Seq<Edge>,
    chains: Seq<u32>,
    chain_count: int,
)
    requires
        collectors::adds_parts(after, before, edges, chains, chain_count),
    ensures
        gains(after, before, edges, chains, chain_count),
{
}

/// What is gained first and then is gained in all.
pub proof fn lemma_gains_more(
    last: ScopeCollectors,
    middle: ScopeCollectors,
    first: ScopeCollectors,
    edges: Seq<Edge>,
    more: Seq<Edge>,
    chains: Seq<u32>,
    chain_count: int,
)
    requires
        gains(middle, first, edges, chains, chain_count),
        gains(last, middle, more, chains, chain_count),
        middle.scopes() == first.scopes(),
    ensures
        gains(last, first, edges + more, chains, chain_count),
{
    assert forall|scope: int| 0 <= scope < first.scopes() implies graph::same_connectivity(
        #[trigger] last.submitted(scope),
        first.submitted(scope) + collectors::scope_part(
            edges + more,
            chains,
            chain_count,
            scope,
        ),
    ) by {
        let own = collectors::scope_part(edges, chains, chain_count, scope);
        let next = collectors::scope_part(more, chains, chain_count, scope);
        lemma_scope_part_concat(edges, more, chains, chain_count, scope);
        assert(graph::same_connectivity(
            middle.submitted(scope),
            first.submitted(scope) + own,
        ));
        assert(graph::same_connectivity(last.submitted(scope), middle.submitted(scope) + next));
        graph::lemma_concat_connectivity(
            middle.submitted(scope),
            next,
            first.submitted(scope) + own,
            next,
        );
        assert(first.submitted(scope) + own + next =~= first.submitted(scope) + (own + next));
        assert forall|a: int, b: int| #[trigger] graph::connected(last.submitted(scope), a, b)
            <==> graph::connected(first.submitted(scope) + (own + next), a, b) by {
            assert(graph::connected(last.submitted(scope), a, b) <==> graph::connected(
                middle.submitted(scope) + next,
                a,
                b,
            ));
        }
    }
}

/// Edges that connect the same in every scope are gained as well.
pub proof fn lemma_gains_same(
    after: ScopeCollectors,
    before: ScopeCollectors,
    edges: Seq<Edge>,
    other: Seq<Edge>,
    chains: Seq<u32>,
    chain_count: int,
)
    requires
        gains(after, before, edges, chains, chain_count),
        same_scopes(edges, other, chains, chain_count),
    ensures
        gains(after, before, other, chains, chain_count),
{
    assert forall|scope: int| 0 <= scope < before.scopes() implies graph::same_connectivity(
        #[trigger] after.submitted(scope),
        before.submitted(scope) + collectors::scope_part(other, chains, chain_count, scope),
    ) by {
        assert(same_scope(edges, other, chains, chain_count, scope));
        graph::lemma_concat_connectivity(
            before.submitted(scope),
            collectors::scope_part(edges, chains, chain_count, scope),
            before.submitted(scope),
            collectors::scope_part(other, chains, chain_count, scope),
        );
        assert forall|a: int, b: int| #[trigger] graph::connected(after.submitted(scope), a, b)
            <==> graph::connected(
            before.submitted(scope) + collectors::scope_part(other, chains, chain_count, scope),
            a,
            b,
        ) by {
            assert(graph::connected(after.submitted(scope), a, b) <==> graph::connected(
                before.submitted(scope) + collectors::scope_part(
                    edges,
                    chains,
                    chain_count,
                    scope,
                ),
                a,
                b,
            ));
        }
    }
}

/// Edges that all stay within chains connect scope by scope what they connect together.
pub proof fn lemma_intra_same_scopes(
    left: Seq<Edge>,
    right: Seq<Edge>,
    chains: Seq<u32>,
    chain_count: int,
)
    requires
        graph::same_connectivity(left, right),
        forall|k: int| 0 <= k < left.len() ==> compaction::is_intra(chains, #[trigger] left[k]),
        forall|k: int| 0 <= k < right.len() ==> compaction::is_intra(chains, #[trigger] right[k]),
    ensures
        same_scopes(left, right, chains, chain_count),
{
    assert forall|scope: int| 0 <= scope implies #[trigger] same_scope(
        left,
        right,
        chains,
        chain_count,
        scope,
    ) by {
        lemma_intra_part(left, chains, chain_count, scope);
        lemma_intra_part(right, chains, chain_count, scope);
    }
}

proof fn lemma_intra_part(edges: Seq<Edge>, chains: Seq<u32>, chain_count: int, scope: int)
    requires
        forall|k: int| 0 <= k < edges.len() ==> compaction::is_intra(chains, #[trigger] edges[k]),
        0 <= scope,
    ensures
        collectors::scope_part(edges, chains, chain_count, scope) == (if scope == 0 {
            edges
        } else {
            Seq::empty()
        }),
    decreases edges.len(),
{
    if edges.len() > 0 {
        let earlier = edges.drop_last();
        assert forall|k: int| 0 <= k < earlier.len() implies compaction::is_intra(
            chains,
            #[trigger] earlier[k],
        ) by {
            assert(earlier[k] == edges[k]);
        }
        lemma_intra_part(earlier, chains, chain_count, scope);
        assert(edges.last() == edges[edges.len() - 1]);
        assert(earlier.push(edges.last()) =~= edges);
    } else {
        assert(edges =~= Seq::<Edge>::empty());
    }
}

proof fn lemma_part_known(
    batch: CompactedCatalogEdges,
    edges: Seq<Edge>,
    chains: Seq<u32>,
    chain_count: int,
    k: int,
)
    requires
        compaction::is_compaction(batch, edges, chains, chain_count),
        compaction::edges_known(edges, chains, chain_count),
        0 <= k < batch.chain_pairs@.len(),
    ensures
        0 <= batch.chain_pairs@[k].0 < pairs::all_pairs(chain_count).len(),
{
    let pair = batch.chain_pairs@[k].0 as int;
    assert(compaction::is_part(batch.chain_pairs@, edges, chains, chain_count, k));
    let own = compaction::pair_edges(edges, chains, chain_count, pair);
    let edge = own[0];
    assert(own.contains(edge));
    compaction::lemma_picked_members(
        edges,
        |edge: Edge|
            !compaction::is_intra(chains, edge) && compaction::pair_of(chains, chain_count, edge)
                == pair,
        edge,
    );
    let at = edges.index_of(edge);
    assert(edges[at] == edge);
    let left = chains[edge.left as int] as int;
    let right = chains[edge.right as int] as int;
    pairs::lemma_pair_position(pairs::lesser(left, right), pairs::greater(left, right), chain_count);
}

/// Of the pending edges and new ones, some were submitted and the rest is pending.
pub open spec fn moves(
    after: ScopeCollectors,
    pending: Seq<Edge>,
    before: ScopeCollectors,
    was_pending: Seq<Edge>,
    edges: Seq<Edge>,
    chains: Seq<u32>,
    chain_count: int,
) -> bool {
    exists|sent: Seq<Edge>| #[trigger]
        gains(after, before, sent, chains, chain_count) && sent + pending == was_pending + edges
            && collectors::counts_more(after.accepted(), before.accepted(), sent.len())
}

/// New edges that all stay pending.
pub proof fn lemma_moves_none(
    before: ScopeCollectors,
    was_pending: Seq<Edge>,
    edges: Seq<Edge>,
    chains: Seq<u32>,
    chain_count: int,
)
    ensures
        moves(before, was_pending + edges, before, was_pending, edges, chains, chain_count),
{
    lemma_gains_none(before, chains, chain_count);
    assert(Seq::<Edge>::empty() + (was_pending + edges) =~= was_pending + edges);
}

/// All pending edges submitted.
pub proof fn lemma_moves_all(
    after: ScopeCollectors,
    before: ScopeCollectors,
    was_pending: Seq<Edge>,
    edges: Seq<Edge>,
    chains: Seq<u32>,
    chain_count: int,
)
    requires
        gains(after, before, was_pending + edges, chains, chain_count),
        collectors::counts_more(
            after.accepted(),
            before.accepted(),
            (was_pending + edges).len(),
        ),
    ensures
        moves(after, Seq::empty(), before, was_pending, edges, chains, chain_count),
{
    assert(was_pending + edges + Seq::<Edge>::empty() =~= was_pending + edges);
}

/// Moving some edges and then others.
pub proof fn lemma_moves_more(
    last: ScopeCollectors,
    pending: Seq<Edge>,
    middle: ScopeCollectors,
    middle_pending: Seq<Edge>,
    first: ScopeCollectors,
    was_pending: Seq<Edge>,
    edges: Seq<Edge>,
    more: Seq<Edge>,
    chains: Seq<u32>,
    chain_count: int,
)
    requires
        moves(middle, middle_pending, first, was_pending, edges, chains, chain_count),
        moves(last, pending, middle, middle_pending, more, chains, chain_count),
        middle.scopes() == first.scopes(),
    ensures
        moves(last, pending, first, was_pending, edges + more, chains, chain_count),
{
    let sent = choose|sent: Seq<Edge>| #[trigger]
        gains(middle, first, sent, chains, chain_count) && sent + middle_pending == was_pending
            + edges && collectors::counts_more(middle.accepted(), first.accepted(), sent.len());
    let next = choose|next: Seq<Edge>| #[trigger]
        gains(last, middle, next, chains, chain_count) && next + pending == middle_pending + more
            && collectors::counts_more(last.accepted(), middle.accepted(), next.len());
    lemma_gains_more(last, middle, first, sent, next, chains, chain_count);
    assert((sent + next) + pending =~= sent + (next + pending));
    assert(sent + (middle_pending + more) =~= (sent + middle_pending) + more);
    assert((was_pending + edges) + more =~= was_pending + (edges + more));
}

/// Moving some edges and then stopping on others.
pub proof fn lemma_moves_stop(
    last: ScopeCollectors,
    middle: ScopeCollectors,
    middle_pending: Seq<Edge>,
    first: ScopeCollectors,
    was_pending: Seq<Edge>,
    edges: Seq<Edge>,
    more: Seq<Edge>,
    chains: Seq<u32>,
    chain_count: int,
    fault: PipelineFault,
)
    requires
        moves(middle, middle_pending, first, was_pending, edges, chains, chain_count),
        middle.continues(first),
        stops_on(last, middle, middle_pending + more, chains, chain_count, fault),
    ensures
        stops_on(last, first, was_pending + (edges + more), chains, chain_count, fault),
{
    let sent = choose|sent: Seq<Edge>| #[trigger]
        gains(middle, first, sent, chains, chain_count) && sent + middle_pending == was_pending
            + edges && collectors::counts_more(middle.accepted(), first.accepted(), sent.len());
    lemma_stops_on_later(
        last,
        middle,
        first,
        sent,
        middle_pending + more,
        chains,
        chain_count,
        fault,
    );
    assert(sent + (middle_pending + more) =~= (sent + middle_pending) + more);
    assert((was_pending + edges) + more =~= was_pending + (edges + more));
}

/// Where nothing was and nothing is pending, all edges are gained.
pub proof fn lemma_moved_all(
    after: ScopeCollectors,
    before: ScopeCollectors,
    edges: Seq<Edge>,
    chains: Seq<u32>,
    chain_count: int,
)
    requires
        moves(after, Seq::empty(), before, Seq::empty(), edges, chains, chain_count),
    ensures
        gains(after, before, edges, chains, chain_count),
        collectors::counts_more(after.accepted(), before.accepted(), edges.len()),
{
    let sent = choose|sent: Seq<Edge>| #[trigger]
        gains(after, before, sent, chains, chain_count) && sent + Seq::<Edge>::empty()
            == Seq::<Edge>::empty() + edges && collectors::counts_more(
            after.accepted(),
            before.accepted(),
            sent.len(),
        );
    assert(sent + Seq::<Edge>::empty() =~= sent);
    assert(Seq::<Edge>::empty() + edges =~= edges);
}

proof fn lemma_compacted_share(
    batch: CompactedCatalogEdges,
    edges: Seq<Edge>,
    chains: Seq<u32>,
    chain_count: int,
    scopes: int,
)
    requires
        compaction::is_compaction(batch, edges, chains, chain_count),
        compaction::edges_known(edges, chains, chain_count),
        scopes == pairs::all_pairs(chain_count).len() + 2,
    ensures
        is_share(collectors::batch_parts(batch, scopes), edges, chains, chain_count),
{
    let shares = collectors::batch_parts(batch, scopes);
    let parts = batch.chain_pairs@;
    compaction::lemma_compaction_connectivity(batch, edges, chains, chain_count);
    assert forall|scope: int| 0 <= scope < shares.len() implies is_scope_share(
        #[trigger] shares[scope],
        collectors::scope_part(edges, chains, chain_count, scope),
    ) by {
        let share = shares[scope];
        let own = collectors::scope_part(edges, chains, chain_count, scope);
        if scope >= 2 {
            if compaction::has_part(parts, scope - 2) {
                let k = choose|k: int| 0 <= k < parts.len() && #[trigger] parts[k].0 == scope - 2;
                assert(share == parts[k].1@);
                assert(compaction::is_part(parts, edges, chains, chain_count, k));
            } else {
                assert(own.len() == 0);
                assert(share =~= own);
            }
        }
        assert forall|k: int| 0 <= k < share.len() implies own.contains(#[trigger] share[k]) by {
            let edge = share[k];
            assert(share.contains(edge));
            if scope == 1 {
                compaction::lemma_cross_members(batch, edges, chains, chain_count, edge);
            } else {
                forest::lemma_spanning_members(own, edge);
            }
        }
    }
}

/// Compacts a batch and submits it.
pub fn submit_catalog_lane_batch(
    collectors: &mut ScopeCollectors,
    contract_chain: &[u32],
    chain_count: usize,
    edges: &Vec<Edge>,
    scratch: &mut ScopeCompactionScratch,
) -> (result: Result<(), PipelineError>)
    requires
        old(collectors).wf(),
        covers_chains(*old(collectors), chain_count as int),
        old(scratch).wf(),
        old(scratch).admits_all(edges@),
        compaction::ends_below_max(edges@),
        compaction::edges_known(edges@, contract_chain@, chain_count as int),
    ensures
        final(collectors).wf(),
        final(collectors).continues(*old(collectors)),
        final(scratch).wf(),
        final(scratch).admits_as(*old(scratch)),
        result matches Err(e) ==> is_refusal(
            e@,
            *old(collectors),
            *final(collectors),
            edges@,
            contract_chain@,
            chain_count as int,
        ),
        edges@.len() == 0 ==> result is Ok && *final(collectors) == *old(collectors),
        !old(collectors).is_cancelled() ==> (final(collectors).is_cancelled() <==> result is Err),
        old(collectors).is_cancelled() ==> final(collectors).is_cancelled(),
        result is Ok ==> gains(
            *final(collectors),
            *old(collectors),
            edges@,
            contract_chain@,
            chain_count as int,
        ),
        result is Ok ==> collectors::counts_more(
            final(collectors).accepted(),
            old(collectors).accepted(),
            edges@.len(),
        ),
{
    let ghost before = *collectors;
    let ghost chains = contract_chain@;
    let ghost c = chain_count as int;
    if edges.len() == 0 {
        proof {
            lemma_gains_none(before, chains, c);
            collectors::lemma_continues_on(before, before, before);
            compaction::lemma_admits_as(*scratch, *scratch, *scratch);
            assert(edges@ =~= Seq::<Edge>::empty());
        }
        return Ok(());
    }
    let batch = compact_catalog_scope_batch_by_chain(contract_chain, chain_count, edges, scratch);
    let ghost whole = batch;
    let ghost parts = batch.chain_pairs@;
    let ghost intra = batch.intra@;
    let ghost cross = batch.cross@;
    proof {
        compaction::lemma_compaction_connectivity(batch, edges@, chains, c);
        assert forall|k: int| 0 <= k < parts.len() implies (#[trigger] parts[k]).0 + 2
            < before.scopes() by {
            lemma_part_known(batch, edges@, chains, c, k);
        }
    }
    let result = collectors.submit_compacted_catalog_batch(batch);
    proof {
        if result is Err && !before.is_cancelled() {
            lemma_compacted_share(whole, edges@, chains, c, before.scopes());
            lemma_stops_on(
                *collectors,
                before,
                edges@,
                collectors::batch_parts(whole, before.scopes()),
                chains,
                c,
                result->Err_0@,
            );
        }
        if result is Ok {
            let after = *collectors;
            assert forall|scope: int| 0 <= scope < before.scopes() implies graph::same_connectivity(
                #[trigger] after.submitted(scope),
                before.submitted(scope) + collectors::scope_part(edges@, chains, c, scope),
            ) by {
                let own = collectors::scope_part(edges@, chains, c, scope);
                if scope == 0 {
                    graph::lemma_concat_connectivity(
                        before.submitted(scope),
                        intra,
                        before.submitted(scope),
                        own,
                    );
                } else if scope == 1 {
                    graph::lemma_concat_connectivity(
                        before.submitted(scope),
                        cross,
                        before.submitted(scope),
                        own,
                    );
                } else if compaction::has_part(parts, scope - 2) {
                    let k = choose|k: int| 0 <= k < parts.len() && #[trigger] parts[k].0 == scope - 2;
                    assert(parts[k].0 + 2 == scope);
                    graph::lemma_concat_connectivity(
                        before.submitted(scope),
                        parts[k].1@,
                        before.submitted(scope),
                        own,
                    );
                } else {
                    assert(own.len() == 0);
                    assert(before.submitted(scope) + own =~= before.submitted(scope));
                }
            }
        }
    }
    result
}

/// Pending edges and collectors after taking edges: on success some of the pending and new
/// edges were submitted and the rest is pending.
pub open spec fn sink_steps(
    pending: Seq<Edge>,
    after: ScopeCollectors,
    was_pending: Seq<Edge>,
    before: ScopeCollectors,
    chains: Seq<u32>,
    chain_count: int,
    result: Result<(), PipelineError>,
    edges: Seq<Edge>,
) -> bool {
    &&& compaction::edges_known(pending, chains, chain_count)
    &&& after.wf()
    &&& after.continues(before)
    &&& after.scopes() == before.scopes()
    &&& before.is_cancelled() ==> after.is_cancelled()
    &&& !before.is_cancelled() ==> (after.is_cancelled() <==> result is Err)
    &&& match result {
        Ok(_) => moves(after, pending, before, was_pending, edges, chains, chain_count),
        Err(e) => is_refusal(e@, before, after, was_pending + edges, chains, chain_count),
    }
    &&& was_pending.len() + edges.len() == 0 ==> result is Ok && after == before
}

/// Taking nothing.
pub proof fn lemma_sink_rests(
    pending: Seq<Edge>,
    collectors: ScopeCollectors,
    chains: Seq<u32>,
    chain_count: int,
)
    requires
        compaction::edges_known(pending, chains, chain_count),
        collectors.wf(),
    ensures
        sink_steps(
            pending,
            collectors,
            pending,
            collectors,
            chains,
            chain_count,
            Ok(()),
            Seq::empty(),
        ),
{
    collectors::lemma_continues_on(collectors, collectors, collectors);
    lemma_moves_none(collectors, pending, Seq::empty(), chains, chain_count);
    assert(pending + Seq::<Edge>::empty() =~= pending);
}

/// Taking edges and then others.
pub proof fn lemma_sink_steps_more(
    pending: Seq<Edge>,
    last: ScopeCollectors,
    middle_pending: Seq<Edge>,
    middle: ScopeCollectors,
    was_pending: Seq<Edge>,
    first: ScopeCollectors,
    chains: Seq<u32>,
    chain_count: int,
    result: Result<(), PipelineError>,
    edges: Seq<Edge>,
    more: Seq<Edge>,
)
    requires
        sink_steps(
            middle_pending,
            middle,
            was_pending,
            first,
            chains,
            chain_count,
            Ok(()),
            edges,
        ),
        sink_steps(
            pending,
            last,
            middle_pending,
            middle,
            chains,
            chain_count,
            result,
            more,
        ),
    ensures
        sink_steps(
            pending,
            last,
            was_pending,
            first,
            chains,
            chain_count,
            result,
            edges + more,
        ),
{
    collectors::lemma_continues_on(last, middle, first);
    if result is Ok {
        lemma_moves_more(
            last,
            pending,
            middle,
            middle_pending,
            first,
            was_pending,
            edges,
            more,
            chains,
            chain_count,
        );
    }
    if result is Err && !first.is_cancelled() {
        lemma_moves_stop(
            last,
            middle,
            middle_pending,
            first,
            was_pending,
            edges,
            more,
            chains,
            chain_count,
            result->Err_0@,
        );
    }
}

/// Submits all pending edges.
pub fn flush_edges(
    pending: &mut Vec<Edge>,
    collectors: &mut ScopeCollectors,
    contract_chain: &Vec<u32>,
    chain_count: usize,
) -> (result: Result<(), PipelineError>)
    requires
        old(collectors).wf(),
        covers_chains(*old(collectors), chain_count as int),
        compaction::edges_known(old(pending)@, contract_chain@, chain_count as int),
    ensures
        final(pending)@.len() == 0,
        sink_steps(
            final(pending)@,
            *final(collectors),
            old(pending)@,
            *old(collectors),
            contract_chain@,
            chain_count as int,
            result,
            Seq::empty(),
        ),
        old(pending)@.len() == 0 ==> result is Ok && *final(collectors) == *old(collectors),
{
    let ghost chains = contract_chain@;
    let ghost c = chain_count as int;
    let ghost before = *collectors;
    let ghost was = pending@;
    let mut ready: Vec<Edge> = Vec::new();
    std::mem::swap(&mut ready, pending);
    let result = collectors.push_edges_by_chain(
        contract_chain.as_slice(),
        chain_count,
        &ready,
    );
    proof {
        collectors::lemma_continues(*collectors, before);
        assert(was + Seq::<Edge>::empty() =~= was);
        assert(pending@ =~= Seq::<Edge>::empty());
        if result is Ok {
            lemma_gains_parts(*collectors, before, was, chains, c);
            lemma_moves_all(*collectors, before, was, Seq::empty(), chains, c);
        } else if !before.is_cancelled() {
            lemma_push_stops(*collectors, before, was, chains, c, result->Err_0@);
        }
    }
    result
}

/// Adds a pending edge, and submits where `limit` edges are pending.
pub fn push_pending_edge(
    pending: &mut Vec<Edge>,
    limit: usize,
    collectors: &mut ScopeCollectors,
    contract_chain: &Vec<u32>,
    chain_count: usize,
    edge: Edge,
) -> (result: Result<(), PipelineError>)
    requires
        old(collectors).wf(),
        covers_chains(*old(collectors), chain_count as int),
        compaction::edges_known(old(pending)@, contract_chain@, chain_count as int),
        compaction::edges_known(seq![edge], contract_chain@, chain_count as int),
    ensures
        sink_steps(
            final(pending)@,
            *final(collectors),
            old(pending)@,
            *old(collectors),
            contract_chain@,
            chain_count as int,
            result,
            seq![edge],
        ),
        old(pending)@.len() + 1 < limit ==> {
            &&& result is Ok
            &&& final(pending)@ == old(pending)@.push(edge)
            &&& *final(collectors) == *old(collectors)
        },
        old(pending)@.len() + 1 >= limit ==> final(pending)@.len() == 0,
{
    let ghost chains = contract_chain@;
    let ghost c = chain_count as int;
    let ghost before = *collectors;
    let ghost was = pending@;
    pending.push(edge);
    let ghost middle = pending@;
    proof {
        assert(seq![edge][0] == edge);
        assert(middle =~= was + seq![edge]);
        lemma_moves_none(before, was, seq![edge], chains, c);
        collectors::lemma_continues_on(before, before, before);
    }
    if pending.len() >= limit {
        let result = flush_edges(pending, collectors, contract_chain, chain_count);
        proof {
            lemma_sink_steps_more(
                pending@,
                *collectors,
                middle,
                before,
                was,
                before,
                chains,
                c,
                result,
                seq![edge],
                Seq::empty(),
            );
            assert(seq![edge] + Seq::<Edge>::empty() =~= seq![edge]);
        }
        return result;
    }
    Ok(())
}

} // verus!
