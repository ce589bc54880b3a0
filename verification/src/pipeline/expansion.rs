//! Edges between the members of two matching atoms.

use crate::pipeline::collectors;
use crate::pipeline::compaction;
use crate::pipeline::submission;
use crate::pipeline::tokens;
use crate::pipeline::tokens::{contracts_share_retained_token, retained_tokens_disjoint};
use crate::reduce::graph;
use crate::reduce::graph::Edge;
use crate::snapshot::features::FeatureView;
use crate::sorting;
use vstd::prelude::*;

verus! {

/// From this many pairs on it is worth finding out whether no pair shares a token.
pub const FOREST_FAST_PATH_MIN_PAIR_WORK: usize = 64;

/// The contracts differ and share no token.
pub open spec fn is_direct(view: FeatureView, left: u32, right: u32) -> bool {
    left != right && !tokens::share_token(view, left as int, right as int)
}

/// The direct edges of one contract to the first `count` of others.
pub open spec fn direct_row(view: FeatureView, left: u32, right: Seq<u32>, count: int) -> Seq<Edge>
    decreases count,
{
    if count <= 0 {
        Seq::empty()
    } else if is_direct(view, left, right[count - 1]) {
        direct_row(view, left, right, count - 1).push(Edge::between(left, right[count - 1]))
    } else {
        direct_row(view, left, right, count - 1)
    }
}

/// The direct edges of the first `count` contracts of one side to all of the other.
pub open spec fn direct_rows(
    view: FeatureView,
    left: Seq<u32>,
    right: Seq<u32>,
    count: int,
) -> Seq<Edge>
    decreases count,
{
    if count <= 0 {
        Seq::empty()
    } else {
        direct_rows(view, left, right, count - 1) + direct_row(
            view,
            left[count - 1],
            right,
            right.len() as int,
        )
    }
}

/// The direct edges to more contracts begin with those to fewer.
pub proof fn lemma_direct_row_grows(
    view: FeatureView,
    left: u32,
    right: Seq<u32>,
    count: int,
    more: int,
)
    requires
        count <= more,
    ensures
        submission::begins(
            direct_row(view, left, right, more),
            direct_row(view, left, right, count),
        ),
    decreases more - count,
{
    let all = direct_row(view, left, right, more);
    let few = direct_row(view, left, right, count);
    submission::lemma_begins(all, Seq::empty());
    if count < more {
        let most = direct_row(view, left, right, more - 1);
        let edge = Edge::between(left, right[more - 1]);
        lemma_direct_row_grows(view, left, right, count, more - 1);
        submission::lemma_begins(most, seq![edge]);
        assert(most.push(edge) =~= most + seq![edge]);
        submission::lemma_begins_more(all, most, few);
    }
}

/// The direct edges of more rows begin with those of fewer.
pub proof fn lemma_direct_rows_grow(
    view: FeatureView,
    left: Seq<u32>,
    right: Seq<u32>,
    count: int,
    more: int,
)
    requires
        count <= more,
    ensures
        submission::begins(
            direct_rows(view, left, right, more),
            direct_rows(view, left, right, count),
        ),
    decreases more - count,
{
    let all = direct_rows(view, left, right, more);
    let few = direct_rows(view, left, right, count);
    submission::lemma_begins(all, Seq::empty());
    if count < more {
        let most = direct_rows(view, left, right, more - 1);
        lemma_direct_rows_grow(view, left, right, count, more - 1);
        submission::lemma_begins(
            most,
            direct_row(view, left[more - 1], right, right.len() as int),
        );
        submission::lemma_begins_more(all, most, few);
    }
}

/// The direct edges between two sides.
pub open spec fn direct_pairs(view: FeatureView, left: Seq<u32>, right: Seq<u32>) -> Seq<Edge> {
    direct_rows(view, left, right, left.len() as int)
}

/// The contracts of a chain, in their order.
pub open spec fn of_chain(view: FeatureView, contracts: Seq<u32>, chain: int) -> Seq<u32>
    decreases contracts.len(),
{
    if contracts.len() == 0 {
        Seq::empty()
    } else if view.contract_chain@[contracts.last() as int] == chain {
        of_chain(view, contracts.drop_last(), chain).push(contracts.last())
    } else {
        of_chain(view, contracts.drop_last(), chain)
    }
}

/// An edge from the first left contract to every right one, and from every other left contract
/// to the first right one.
pub open spec fn bipartite_forest(left: Seq<u32>, right: Seq<u32>) -> Seq<Edge> {
    if left.len() == 0 || right.len() == 0 {
        Seq::empty()
    } else {
        Seq::new(right.len(), |k: int| Edge::between(left[0], right[k])) + Seq::new(
            (left.len() - 1) as nat,
            |k: int| Edge::between(left[k + 1], right[0]),
        )
    }
}

/// The edges emitted between contracts of two chains.
pub open spec fn bucket_edges(view: FeatureView, left: Seq<u32>, right: Seq<u32>) -> Seq<Edge> {
    if left.len() * right.len() >= FOREST_FAST_PATH_MIN_PAIR_WORK && tokens::are_token_disjoint(
        view,
        left,
        right,
    ) {
        bipartite_forest(left, right)
    } else {
        direct_pairs(view, left, right)
    }
}

/// The edges emitted between contracts of one chain and those of the first `count` chains.
pub open spec fn expanded_row(
    view: FeatureView,
    left: Seq<u32>,
    right: Seq<u32>,
    count: int,
) -> Seq<Edge>
    decreases count,
{
    if count <= 0 {
        Seq::empty()
    } else {
        expanded_row(view, left, right, count - 1) + bucket_edges(
            view,
            left,
            of_chain(view, right, count - 1),
        )
    }
}

/// The edges emitted where the left contracts are of the first `count` chains.
pub open spec fn expanded_rows(
    view: FeatureView,
    left: Seq<u32>,
    right: Seq<u32>,
    chain_count: int,
    count: int,
) -> Seq<Edge>
    decreases count,
{
    if count <= 0 {
        Seq::empty()
    } else {
        expanded_rows(view, left, right, chain_count, count - 1) + expanded_row(
            view,
            of_chain(view, left, count - 1),
            right,
            chain_count,
        )
    }
}

/// The edges emitted between two sides, chain by chain.
pub open spec fn expanded_pairs(
    view: FeatureView,
    left: Seq<u32>,
    right: Seq<u32>,
    chain_count: int,
) -> Seq<Edge> {
    expanded_rows(view, left, right, chain_count, chain_count)
}

/// The edge between two different contracts, if they are different.
pub open spec fn proper_edge(left: u32, right: u32) -> Seq<Edge> {
    if left == right {
        Seq::empty()
    } else {
        seq![Edge::between(left, right)]
    }
}

/// Edges of one contract to the first of the others in each of the first `count` chains.
pub open spec fn root_row(view: FeatureView, contract: u32, others: Seq<u32>, count: int) -> Seq<Edge>
    decreases count,
{
    if count <= 0 {
        Seq::empty()
    } else {
        let own = of_chain(view, others, count - 1);
        if own.len() > 0 {
            root_row(view, contract, others, count - 1) + proper_edge(own[0], contract)
        } else {
            root_row(view, contract, others, count - 1)
        }
    }
}

/// The contract is the first of its chain among the contracts.
pub open spec fn is_chain_root(view: FeatureView, contracts: Seq<u32>, contract: u32) -> bool {
    of_chain(view, contracts, view.contract_chain@[contract as int] as int)[0] == contract
}

/// Edges of the first `count` contracts to the first of the others in each chain, without the
/// first contract of each chain where `skip_roots`.
pub open spec fn root_rows(
    view: FeatureView,
    contracts: Seq<u32>,
    others: Seq<u32>,
    chain_count: int,
    skip_roots: bool,
    count: int,
) -> Seq<Edge>
    decreases count,
{
    if count <= 0 {
        Seq::empty()
    } else {
        let before = root_rows(view, contracts, others, chain_count, skip_roots, count - 1);
        if skip_roots && is_chain_root(view, contracts, contracts[count - 1]) {
            before
        } else {
            before + root_row(view, contracts[count - 1], others, chain_count)
        }
    }
}

/// The edges to more chains begin with those to fewer.
pub proof fn lemma_root_row_grows(
    view: FeatureView,
    contract: u32,
    others: Seq<u32>,
    count: int,
    more: int,
)
    requires
        count <= more,
    ensures
        submission::begins(
            root_row(view, contract, others, more),
            root_row(view, contract, others, count),
        ),
    decreases more - count,
{
    let all = root_row(view, contract, others, more);
    let few = root_row(view, contract, others, count);
    submission::lemma_begins(all, Seq::empty());
    if count < more {
        let most = root_row(view, contract, others, more - 1);
        let own = of_chain(view, others, more - 1);
        lemma_root_row_grows(view, contract, others, count, more - 1);
        submission::lemma_begins(most, proper_edge(own[0], contract));
        submission::lemma_begins_more(all, most, few);
    }
}

/// The edges of more contracts begin with those of fewer.
pub proof fn lemma_root_rows_grow(
    view: FeatureView,
    contracts: Seq<u32>,
    others: Seq<u32>,
    chain_count: int,
    skip_roots: bool,
    count: int,
    more: int,
)
    requires
        count <= more,
    ensures
        submission::begins(
            root_rows(view, contracts, others, chain_count, skip_roots, more),
            root_rows(view, contracts, others, chain_count, skip_roots, count),
        ),
    decreases more - count,
{
    let all = root_rows(view, contracts, others, chain_count, skip_roots, more);
    let few = root_rows(view, contracts, others, chain_count, skip_roots, count);
    submission::lemma_begins(all, Seq::empty());
    if count < more {
        let most = root_rows(view, contracts, others, chain_count, skip_roots, more - 1);
        lemma_root_rows_grow(view, contracts, others, chain_count, skip_roots, count, more - 1);
        submission::lemma_begins(
            most,
            root_row(view, contracts[more - 1], others, chain_count),
        );
        submission::lemma_begins_more(all, most, few);
    }
}

/// Edges that connect, for each pair of chains, all contracts of both sides.
pub open spec fn scoped_forest(
    view: FeatureView,
    left: Seq<u32>,
    right: Seq<u32>,
    chain_count: int,
) -> Seq<Edge> {
    root_rows(view, right, left, chain_count, false, right.len() as int) + root_rows(
        view,
        left,
        right,
        chain_count,
        true,
        left.len() as int,
    )
}

/// The edges emitted between two sides where memory is short.
pub open spec fn bounded_pairs(
    view: FeatureView,
    left: Seq<u32>,
    right: Seq<u32>,
    chain_count: int,
) -> Seq<Edge> {
    if left.len() * right.len() >= FOREST_FAST_PATH_MIN_PAIR_WORK && tokens::are_token_disjoint(
        view,
        left,
        right,
    ) {
        scoped_forest(view, left, right, chain_count)
    } else {
        direct_pairs(view, left, right)
    }
}

/// The endpoints are of these two chains.
pub open spec fn joins_chains(chains: Seq<u32>, edge: Edge, a: u32, b: u32) -> bool {
    let left = chains[edge.left as int];
    let right = chains[edge.right as int];
    (left == a && right == b) || (left == b && right == a)
}

/// The edges between two chains.
spec fn chain_part(edges: Seq<Edge>, chains: Seq<u32>, a: u32, b: u32) -> Seq<Edge> {
    compaction::picked(edges, |edge: Edge| joins_chains(chains, edge, a, b))
}

/// The edge is a loop, or the direct edge of a pair.
pub open spec fn is_emitted(view: FeatureView, left: Seq<u32>, right: Seq<u32>, edge: Edge) -> bool {
    edge.left == edge.right || exists|i: int, j: int|
        0 <= i < left.len() && 0 <= j < right.len() && edge == Edge::between(
            #[trigger] left[i],
            #[trigger] right[j],
        ) && is_direct(view, left[i], right[j])
}

/// The edges are loops or direct edges, and connect every direct pair between its chains.
spec fn covers(view: FeatureView, left: Seq<u32>, right: Seq<u32>, edges: Seq<Edge>) -> bool {
    &&& forall|k: int| 0 <= k < edges.len() ==> is_emitted(view, left, right, #[trigger] edges[k])
    &&& forall|i: int, j: int|
        0 <= i < left.len() && 0 <= j < right.len() && is_direct(
            view,
            #[trigger] left[i],
            #[trigger] right[j],
        ) ==> graph::connected(
            chain_part(
                edges,
                view.contract_chain@,
                view.contract_chain@[left[i] as int],
                view.contract_chain@[right[j] as int],
            ),
            left[i] as int,
            right[j] as int,
        )
}

proof fn lemma_direct_row_members(
    view: FeatureView,
    left: u32,
    right: Seq<u32>,
    count: int,
    edge: Edge,
)
    requires
        0 <= count <= right.len(),
    ensures
        direct_row(view, left, right, count).contains(edge) <==> exists|j: int|
            0 <= j < count && edge == Edge::between(left, #[trigger] right[j]) && is_direct(
                view,
                left,
                right[j],
            ),
    decreases count,
{
    if count > 0 {
        lemma_direct_row_members(view, left, right, count - 1, edge);
        let before = direct_row(view, left, right, count - 1);
        let all = direct_row(view, left, right, count);
        if before.contains(edge) {
            let at = before.index_of(edge);
            assert(all[at] == edge);
        }
        if is_direct(view, left, right[count - 1]) {
            assert(all[all.len() - 1] == Edge::between(left, right[count - 1]));
            if all.contains(edge) {
                let at = all.index_of(edge);
                if at < before.len() {
                    assert(before[at] == edge);
                }
            }
        }
    }
}

proof fn lemma_direct_rows_members(
    view: FeatureView,
    left: Seq<u32>,
    right: Seq<u32>,
    count: int,
    edge: Edge,
)
    requires
        0 <= count <= left.len(),
    ensures
        direct_rows(view, left, right, count).contains(edge) <==> exists|i: int, j: int|
            0 <= i < count && 0 <= j < right.len() && edge == Edge::between(
                #[trigger] left[i],
                #[trigger] right[j],
            ) && is_direct(view, left[i], right[j]),
    decreases count,
{
    if count > 0 {
        lemma_direct_rows_members(view, left, right, count - 1, edge);
        lemma_direct_row_members(view, left[count - 1], right, right.len() as int, edge);
        let before = direct_rows(view, left, right, count - 1);
        let row = direct_row(view, left[count - 1], right, right.len() as int);
        lemma_concat_members(before, row, edge);
    }
}

proof fn lemma_concat_members(a: Seq<Edge>, b: Seq<Edge>, edge: Edge)
    ensures
        (a + b).contains(edge) <==> a.contains(edge) || b.contains(edge),
{
    let all = a + b;
    if a.contains(edge) {
        let at = a.index_of(edge);
        assert(all[at] == edge);
    }
    if b.contains(edge) {
        let at = b.index_of(edge);
        assert(all[a.len() + at] == edge);
    }
    if all.contains(edge) {
        let at = all.index_of(edge);
        if at < a.len() {
            assert(a[at] == edge);
        } else {
            assert(b[at - a.len()] == edge);
        }
    }
}

/// Edges of one pair of chains belong to the same scopes.
proof fn lemma_same_chains_same_scope(
    chains: Seq<u32>,
    chain_count: int,
    one: Edge,
    other: Edge,
    a: u32,
    b: u32,
)
    requires
        joins_chains(chains, one, a, b),
        joins_chains(chains, other, a, b),
    ensures
        compaction::is_intra(chains, one) == compaction::is_intra(chains, other),
        compaction::pair_of(chains, chain_count, one) == compaction::pair_of(
            chains,
            chain_count,
            other,
        ),
{
}

/// What decides whether an edge belongs to a scope.
spec fn scope_keep(chains: Seq<u32>, chain_count: int, scope: int) -> spec_fn(Edge) -> bool {
    if scope == 0 {
        |edge: Edge| compaction::is_intra(chains, edge)
    } else if scope == 1 {
        |edge: Edge| !compaction::is_intra(chains, edge)
    } else {
        |edge: Edge|
            !compaction::is_intra(chains, edge) && compaction::pair_of(chains, chain_count, edge)
                == scope - 2
    }
}

/// Edges that cover two sides connect in every scope what the direct edges connect.
proof fn lemma_covers_scopes(
    view: FeatureView,
    left: Seq<u32>,
    right: Seq<u32>,
    edges: Seq<Edge>,
    chain_count: int,
)
    requires
        covers(view, left, right, edges),
    ensures
        submission::same_scopes(
            edges,
            direct_pairs(view, left, right),
            view.contract_chain@,
            chain_count,
        ),
{
    let chains = view.contract_chain@;
    let direct = direct_pairs(view, left, right);
    assert forall|scope: int| 0 <= scope implies #[trigger] submission::same_scope(
        edges,
        direct,
        chains,
        chain_count,
        scope,
    ) by {
        let keep = scope_keep(chains, chain_count, scope);
        let some = collectors::scope_part(edges, chains, chain_count, scope);
        let own = collectors::scope_part(direct, chains, chain_count, scope);
        assert(some == compaction::picked(edges, keep));
        assert(own == compaction::picked(direct, keep));
        assert forall|k: int| 0 <= k < some.len() implies graph::connected(
            own,
            (#[trigger] some[k]).left as int,
            some[k].right as int,
        ) by {
            let edge = some[k];
            assert(some.contains(edge));
            compaction::lemma_picked_members(edges, keep, edge);
            let at = edges.index_of(edge);
            assert(is_emitted(view, left, right, edges[at]));
            if edge.left == edge.right {
                graph::lemma_connected_reflexive(own, edge.left as int);
            } else {
                lemma_direct_rows_members(view, left, right, left.len() as int, edge);
                compaction::lemma_picked_members(direct, keep, edge);
                graph::lemma_edge_connects(own, own.index_of(edge));
            }
        }
        assert forall|k: int| 0 <= k < own.len() implies graph::connected(
            some,
            (#[trigger] own[k]).left as int,
            own[k].right as int,
        ) by {
            let edge = own[k];
            assert(own.contains(edge));
            compaction::lemma_picked_members(direct, keep, edge);
            lemma_direct_rows_members(view, left, right, left.len() as int, edge);
            let (i, j) = choose|i: int, j: int|
                0 <= i < left.len() && 0 <= j < right.len() && edge == Edge::between(
                    #[trigger] left[i],
                    #[trigger] right[j],
                ) && is_direct(view, left[i], right[j]);
            let a = chains[left[i] as int];
            let b = chains[right[j] as int];
            let part = chain_part(edges, chains, a, b);
            assert forall|p: int| 0 <= p < part.len() implies graph::connected(
                some,
                (#[trigger] part[p]).left as int,
                part[p].right as int,
            ) by {
                let other = part[p];
                assert(part.contains(other));
                compaction::lemma_picked_members(
                    edges,
                    |edge: Edge| joins_chains(chains, edge, a, b),
                    other,
                );
                lemma_same_chains_same_scope(chains, chain_count, edge, other, a, b);
                assert(keep(edge) == keep(other));
                compaction::lemma_picked_members(edges, keep, other);
                graph::lemma_edge_connects(some, some.index_of(other));
            }
            graph::lemma_connected_monotone(part, some, left[i] as int, right[j] as int);
            if edge.left != left[i] {
                graph::lemma_connected_symmetric(some, left[i] as int, right[j] as int);
            }
        }
        submission::lemma_mutual(some, own);
    }
}

proof fn lemma_of_chain(view: FeatureView, contracts: Seq<u32>, chain: int, contract: u32)
    ensures
        of_chain(view, contracts, chain).contains(contract) <==> contracts.contains(contract)
            && view.contract_chain@[contract as int] == chain,
    decreases contracts.len(),
{
    if contracts.len() > 0 {
        let rest = contracts.drop_last();
        let last = contracts.last();
        lemma_of_chain(view, rest, chain, contract);
        let before = of_chain(view, rest, chain);
        let all = of_chain(view, contracts, chain);
        assert(contracts =~= rest.push(last));
        assert(contracts.contains(contract) <==> rest.contains(contract) || last == contract) by {
            if rest.contains(contract) {
                assert(contracts[rest.index_of(contract)] == contract);
            }
            if last == contract {
                assert(contracts[contracts.len() - 1] == contract);
            }
        }
        if view.contract_chain@[last as int] == chain {
            if before.contains(contract) {
                assert(all[before.index_of(contract)] == contract);
            }
            if last == contract {
                assert(all[all.len() - 1] == contract);
            }
        }
    }
}

/// A contract is among those of its chain.
pub proof fn lemma_of_chain_holds(view: FeatureView, contracts: Seq<u32>, contract: u32)
    requires
        contracts.contains(contract),
    ensures
        of_chain(
            view,
            contracts,
            view.contract_chain@[contract as int] as int,
        ).contains(contract),
{
    lemma_of_chain(
        view,
        contracts,
        view.contract_chain@[contract as int] as int,
        contract,
    );
}

/// A bucket's edges are loops or direct edges, and connect every direct pair.
proof fn lemma_bucket(view: FeatureView, left: Seq<u32>, right: Seq<u32>, i: int, j: int)
    requires
        0 <= i < left.len(),
        0 <= j < right.len(),
        is_direct(view, left[i], right[j]),
    ensures
        graph::connected(bucket_edges(view, left, right), left[i] as int, right[j] as int),
{
    let edges = bucket_edges(view, left, right);
    let l = left[i] as int;
    let r = right[j] as int;
    if left.len() * right.len() >= FOREST_FAST_PATH_MIN_PAIR_WORK && tokens::are_token_disjoint(
        view,
        left,
        right,
    ) {
        let l0 = left[0] as int;
        let r0 = right[0] as int;
        assert(edges[j] == Edge::between(left[0], right[j]));
        lemma_edge_joins(edges, j, left[0], right[j]);
        assert(edges[0] == Edge::between(left[0], right[0]));
        lemma_edge_joins(edges, 0, left[0], right[0]);
        if i > 0 {
            assert(edges[right.len() + i - 1] == Edge::between(left[i], right[0]));
            lemma_edge_joins(edges, right.len() + i - 1, left[i], right[0]);
            graph::lemma_connected_symmetric(edges, l0, r0);
            graph::lemma_connected_transitive(edges, l, r0, l0);
            graph::lemma_connected_transitive(edges, l, l0, r);
        }
    } else {
        let edge = Edge::between(left[i], right[j]);
        lemma_direct_rows_members(view, left, right, left.len() as int, edge);
        let at = edges.index_of(edge);
        lemma_edge_joins(edges, at, left[i], right[j]);
    }
}

proof fn lemma_edge_joins(edges: Seq<Edge>, at: int, a: u32, b: u32)
    requires
        0 <= at < edges.len(),
        edges[at] == Edge::between(a, b),
    ensures
        graph::connected(edges, a as int, b as int),
        graph::connected(edges, b as int, a as int),
{
    graph::lemma_edge_connects(edges, at);
    graph::lemma_connected_symmetric(edges, edges[at].left as int, edges[at].right as int);
}

proof fn lemma_bucket_members(view: FeatureView, left: Seq<u32>, right: Seq<u32>, edge: Edge) -> (at: (
    int,
    int,
))
    requires
        bucket_edges(view, left, right).contains(edge),
    ensures
        0 <= at.0 < left.len(),
        0 <= at.1 < right.len(),
        edge == Edge::between(left[at.0], right[at.1]),
        left[at.0] == right[at.1] || is_direct(view, left[at.0], right[at.1]),
{
    let edges = bucket_edges(view, left, right);
    if left.len() * right.len() >= FOREST_FAST_PATH_MIN_PAIR_WORK && tokens::are_token_disjoint(
        view,
        left,
        right,
    ) {
        if left.len() == 0 || right.len() == 0 {
            assert(left.len() * right.len() == 0) by (nonlinear_arith)
                requires
                    left.len() == 0 || right.len() == 0,
            ;
        }
        let k = edges.index_of(edge);
        if k < right.len() {
            assert(edges[k] == Edge::between(left[0], right[k]));
            assert(!tokens::share_token(view, left[0] as int, right[k] as int));
            (0, k)
        } else {
            let i = k - right.len() + 1;
            assert(edges[k] == Edge::between(left[i], right[0]));
            assert(!tokens::share_token(view, left[i] as int, right[0] as int));
            (i, 0)
        }
    } else {
        lemma_direct_rows_members(view, left, right, left.len() as int, edge);
        let (i, j) = choose|i: int, j: int|
            0 <= i < left.len() && 0 <= j < right.len() && edge == Edge::between(
                #[trigger] left[i],
                #[trigger] right[j],
            ) && is_direct(view, left[i], right[j]);
        (i, j)
    }
}

proof fn lemma_row_members(
    view: FeatureView,
    left: Seq<u32>,
    right: Seq<u32>,
    count: int,
    edge: Edge,
)
    ensures
        expanded_row(view, left, right, count).contains(edge) <==> exists|k: int|
            0 <= k < count && bucket_edges(
                view,
                left,
                #[trigger] of_chain(view, right, k),
            ).contains(edge),
    decreases count,
{
    if count > 0 {
        lemma_row_members(view, left, right, count - 1, edge);
        lemma_concat_members(
            expanded_row(view, left, right, count - 1),
            bucket_edges(view, left, of_chain(view, right, count - 1)),
            edge,
        );
    }
}

proof fn lemma_rows_members(
    view: FeatureView,
    left: Seq<u32>,
    right: Seq<u32>,
    chain_count: int,
    count: int,
    edge: Edge,
)
    ensures
        expanded_rows(view, left, right, chain_count, count).contains(edge) <==> exists|k: int|
            0 <= k < count && expanded_row(
                view,
                #[trigger] of_chain(view, left, k),
                right,
                chain_count,
            ).contains(edge),
    decreases count,
{
    if count > 0 {
        lemma_rows_members(view, left, right, chain_count, count - 1, edge);
        lemma_concat_members(
            expanded_rows(view, left, right, chain_count, count - 1),
            expanded_row(view, of_chain(view, left, count - 1), right, chain_count),
            edge,
        );
    }
}

/// All contracts are of one of `chain_count` chains.
pub open spec fn are_of_chains(view: FeatureView, contracts: Seq<u32>, chain_count: int) -> bool {
    forall|i: int|
        0 <= i < contracts.len() ==> view.contract_chain@[#[trigger] contracts[i] as int]
            < chain_count
}

/// Every emitted edge joins a left and a right contract.
pub proof fn lemma_expanded_edge(
    view: FeatureView,
    left: Seq<u32>,
    right: Seq<u32>,
    chain_count: int,
    k: int,
) -> (at: (int, int))
    requires
        0 <= k < expanded_pairs(view, left, right, chain_count).len(),
    ensures
        0 <= at.0 < left.len(),
        0 <= at.1 < right.len(),
        expanded_pairs(view, left, right, chain_count)[k] == Edge::between(
            left[at.0],
            right[at.1],
        ),
        left[at.0] == right[at.1] || is_direct(view, left[at.0], right[at.1]),
{
    let edges = expanded_pairs(view, left, right, chain_count);
    let edge = edges[k];
    assert(edges.contains(edge));
    lemma_rows_members(view, left, right, chain_count, chain_count, edge);
    let a = choose|a: int|
        0 <= a < chain_count && expanded_row(
            view,
            #[trigger] of_chain(view, left, a),
            right,
            chain_count,
        ).contains(edge);
    let own_left = of_chain(view, left, a);
    lemma_row_members(view, own_left, right, chain_count, edge);
    let b = choose|b: int|
        0 <= b < chain_count && bucket_edges(
            view,
            own_left,
            #[trigger] of_chain(view, right, b),
        ).contains(edge);
    let own_right = of_chain(view, right, b);
    let (i, j) = lemma_bucket_members(view, own_left, own_right, edge);
    assert(own_left.contains(own_left[i]) && own_right.contains(own_right[j]));
    lemma_of_chain(view, left, a, own_left[i]);
    lemma_of_chain(view, right, b, own_right[j]);
    (left.index_of(own_left[i]), right.index_of(own_right[j]))
}

proof fn lemma_of_chain_ascends(view: FeatureView, contracts: Seq<u32>, chain: int)
    requires
        sorting::strictly_ascending_u32(contracts),
    ensures
        sorting::strictly_ascending_u32(of_chain(view, contracts, chain)),
    decreases contracts.len(),
{
    if contracts.len() > 0 {
        let rest = contracts.drop_last();
        let own = of_chain(view, rest, chain);
        lemma_of_chain_ascends(view, rest, chain);
        assert forall|k: int| 0 <= k < own.len() implies #[trigger] own[k] < contracts.last() by {
            assert(own.contains(own[k]));
            lemma_of_chain(view, rest, chain, own[k]);
            let at = rest.index_of(own[k]);
            assert(contracts[at] == own[k]);
        }
    }
}

proof fn lemma_direct_some(view: FeatureView, left: Seq<u32>, right: Seq<u32>, i: int, j: int)
    requires
        0 <= i < left.len(),
        0 <= j < right.len(),
        is_direct(view, left[i], right[j]),
    ensures
        direct_pairs(view, left, right).len() > 0,
{
    let edge = Edge::between(left[i], right[j]);
    lemma_direct_rows_members(view, left, right, left.len() as int, edge);
    assert(direct_pairs(view, left, right).contains(edge));
}

proof fn lemma_forest_direct(view: FeatureView, left: Seq<u32>, right: Seq<u32>) -> (at: (int, int))
    requires
        sorting::strictly_ascending_u32(left),
        sorting::strictly_ascending_u32(right),
        left.len() * right.len() >= FOREST_FAST_PATH_MIN_PAIR_WORK,
        tokens::are_token_disjoint(view, left, right),
    ensures
        0 <= at.0 < left.len(),
        0 <= at.1 < right.len(),
        is_direct(view, left[at.0], right[at.1]),
{
    let a = left.len();
    let b = right.len();
    assert(a >= 1 && b >= 1 && (a >= 2 || b >= 2)) by (nonlinear_arith)
        requires
            a * b >= 64,
            a >= 0,
            b >= 0,
    ;
    if left[0] != right[0] {
        (0, 0)
    } else if a >= 2 {
        (1, 0)
    } else {
        (0, 1)
    }
}

/// Where two sides have no direct edge, nothing is emitted between them.
pub proof fn lemma_emits_none(
    view: FeatureView,
    left: Seq<u32>,
    right: Seq<u32>,
    chain_count: int,
)
    requires
        sorting::strictly_ascending_u32(left),
        sorting::strictly_ascending_u32(right),
        direct_pairs(view, left, right).len() == 0,
    ensures
        expanded_pairs(view, left, right, chain_count).len() == 0,
        bounded_pairs(view, left, right, chain_count).len() == 0,
{
    if left.len() * right.len() >= FOREST_FAST_PATH_MIN_PAIR_WORK && tokens::are_token_disjoint(
        view,
        left,
        right,
    ) {
        let (i, j) = lemma_forest_direct(view, left, right);
        lemma_direct_some(view, left, right, i, j);
    }
    let edges = expanded_pairs(view, left, right, chain_count);
    if edges.len() > 0 {
        let edge = edges[0];
        assert(edges.contains(edge));
        lemma_rows_members(view, left, right, chain_count, chain_count, edge);
        let a = choose|a: int|
            0 <= a < chain_count && expanded_row(
                view,
                #[trigger] of_chain(view, left, a),
                right,
                chain_count,
            ).contains(edge);
        let own_left = of_chain(view, left, a);
        lemma_row_members(view, own_left, right, chain_count, edge);
        let b = choose|b: int|
            0 <= b < chain_count && bucket_edges(
                view,
                own_left,
                #[trigger] of_chain(view, right, b),
            ).contains(edge);
        let own_right = of_chain(view, right, b);
        lemma_of_chain_ascends(view, left, a);
        lemma_of_chain_ascends(view, right, b);
        let (i, j): (int, int) = if own_left.len() * own_right.len()
            >= FOREST_FAST_PATH_MIN_PAIR_WORK && tokens::are_token_disjoint(
            view,
            own_left,
            own_right,
        ) {
            lemma_forest_direct(view, own_left, own_right)
        } else {
            lemma_direct_rows_members(view, own_left, own_right, own_left.len() as int, edge);
            choose|i: int, j: int|
                0 <= i < own_left.len() && 0 <= j < own_right.len() && edge == Edge::between(
                    #[trigger] own_left[i],
                    #[trigger] own_right[j],
                ) && is_direct(view, own_left[i], own_right[j])
        };
        assert(own_left.contains(own_left[i]) && own_right.contains(own_right[j]));
        lemma_of_chain(view, left, a, own_left[i]);
        lemma_of_chain(view, right, b, own_right[j]);
        lemma_direct_some(
            view,
            left,
            right,
            left.index_of(own_left[i]),
            right.index_of(own_right[j]),
        );
    }
}

/// Expanding a pair of atoms connects, in every scope, what all their direct pairs connect.
pub proof fn lemma_expanded_connectivity(
    view: FeatureView,
    left: Seq<u32>,
    right: Seq<u32>,
    chain_count: int,
)
    requires
        are_of_chains(view, left, chain_count),
        are_of_chains(view, right, chain_count),
    ensures
        submission::same_scopes(
            expanded_pairs(view, left, right, chain_count),
            direct_pairs(view, left, right),
            view.contract_chain@,
            chain_count,
        ),
{
    let chains = view.contract_chain@;
    let edges = expanded_pairs(view, left, right, chain_count);
    assert forall|k: int| 0 <= k < edges.len() implies is_emitted(
        view,
        left,
        right,
        #[trigger] edges[k],
    ) by {
        let (i, j) = lemma_expanded_edge(view, left, right, chain_count, k);
        assert(edges[k] == Edge::between(left[i], right[j]));
    }
    assert forall|i: int, j: int|
        0 <= i < left.len() && 0 <= j < right.len() && is_direct(
            view,
            #[trigger] left[i],
            #[trigger] right[j],
        ) implies graph::connected(
        chain_part(edges, chains, chains[left[i] as int], chains[right[j] as int]),
        left[i] as int,
        right[j] as int,
    ) by {
        let a = chains[left[i] as int];
        let b = chains[right[j] as int];
        let own_left = of_chain(view, left, a as int);
        let own_right = of_chain(view, right, b as int);
        let bucket = bucket_edges(view, own_left, own_right);
        let part = chain_part(edges, chains, a, b);
        assert(left.contains(left[i]) && right.contains(right[j]));
        lemma_of_chain(view, left, a as int, left[i]);
        lemma_of_chain(view, right, b as int, right[j]);
        lemma_bucket(
            view,
            own_left,
            own_right,
            own_left.index_of(left[i]),
            own_right.index_of(right[j]),
        );
        assert forall|p: int| 0 <= p < bucket.len() implies graph::connected(
            part,
            (#[trigger] bucket[p]).left as int,
            bucket[p].right as int,
        ) by {
            let edge = bucket[p];
            assert(bucket.contains(edge));
            lemma_row_members(view, own_left, right, chain_count, edge);
            lemma_rows_members(view, left, right, chain_count, chain_count, edge);
            let (x, y) = lemma_bucket_members(view, own_left, own_right, edge);
            lemma_of_chain(view, left, a as int, own_left[x]);
            lemma_of_chain(view, right, b as int, own_right[y]);
            compaction::lemma_picked_members(
                edges,
                |edge: Edge| joins_chains(chains, edge, a, b),
                edge,
            );
            graph::lemma_edge_connects(part, part.index_of(edge));
        }
        graph::lemma_connected_monotone(bucket, part, left[i] as int, right[j] as int);
    }
    lemma_covers_scopes(view, left, right, edges, chain_count);
}

proof fn lemma_root_row_members(
    view: FeatureView,
    contract: u32,
    others: Seq<u32>,
    count: int,
    edge: Edge,
)
    ensures
        root_row(view, contract, others, count).contains(edge) <==> exists|k: int|
            0 <= k < count && (#[trigger] of_chain(view, others, k)).len() > 0 && proper_edge(
                of_chain(view, others, k)[0],
                contract,
            ).contains(edge),
    decreases count,
{
    if count > 0 {
        lemma_root_row_members(view, contract, others, count - 1, edge);
        let own = of_chain(view, others, count - 1);
        if own.len() > 0 {
            lemma_concat_members(
                root_row(view, contract, others, count - 1),
                proper_edge(own[0], contract),
                edge,
            );
        }
    }
}

/// The contract at `i` is not left out.
spec fn takes_part(view: FeatureView, contracts: Seq<u32>, skip_roots: bool, i: int) -> bool {
    !(skip_roots && is_chain_root(view, contracts, contracts[i]))
}

proof fn lemma_root_rows_members(
    view: FeatureView,
    contracts: Seq<u32>,
    others: Seq<u32>,
    chain_count: int,
    skip_roots: bool,
    count: int,
    edge: Edge,
)
    ensures
        root_rows(view, contracts, others, chain_count, skip_roots, count).contains(edge)
            <==> exists|i: int|
            0 <= i < count && #[trigger] takes_part(view, contracts, skip_roots, i) && root_row(
                view,
                contracts[i],
                others,
                chain_count,
            ).contains(edge),
    decreases count,
{
    if count > 0 {
        let before = root_rows(view, contracts, others, chain_count, skip_roots, count - 1);
        lemma_root_rows_members(
            view,
            contracts,
            others,
            chain_count,
            skip_roots,
            count - 1,
            edge,
        );
        assert(takes_part(view, contracts, skip_roots, count - 1) == !(skip_roots && is_chain_root(
            view,
            contracts,
            contracts[count - 1],
        )));
        if takes_part(view, contracts, skip_roots, count - 1) {
            lemma_concat_members(
                before,
                root_row(view, contracts[count - 1], others, chain_count),
                edge,
            );
        }
    }
}

/// The edge from the first of the others in a chain to a contract, where they differ.
proof fn lemma_root_edge(
    view: FeatureView,
    contracts: Seq<u32>,
    others: Seq<u32>,
    chain_count: int,
    skip_roots: bool,
    i: int,
    chain: int,
)
    requires
        0 <= i < contracts.len(),
        0 <= chain < chain_count,
        takes_part(view, contracts, skip_roots, i),
        of_chain(view, others, chain).len() > 0,
        of_chain(view, others, chain)[0] != contracts[i],
    ensures
        root_rows(
            view,
            contracts,
            others,
            chain_count,
            skip_roots,
            contracts.len() as int,
        ).contains(Edge::between(of_chain(view, others, chain)[0], contracts[i])),
{
    let root = of_chain(view, others, chain)[0];
    let edge = Edge::between(root, contracts[i]);
    assert(proper_edge(root, contracts[i])[0] == edge);
    lemma_root_row_members(view, contracts[i], others, chain_count, edge);
    lemma_root_rows_members(
        view,
        contracts,
        others,
        chain_count,
        skip_roots,
        contracts.len() as int,
        edge,
    );
}

/// Two contracts that are equal or joined by an edge are connected.
proof fn lemma_same_or_joined(
    edges: Seq<Edge>,
    part: Seq<Edge>,
    chains: Seq<u32>,
    x: u32,
    y: u32,
    a: u32,
    b: u32,
)
    requires
        part == chain_part(edges, chains, a, b),
        x == y || edges.contains(Edge::between(x, y)),
        joins_chains(chains, Edge::between(x, y), a, b) || x == y,
    ensures
        graph::connected(part, x as int, y as int),
        graph::connected(part, y as int, x as int),
{
    if x == y {
        graph::lemma_connected_reflexive(part, x as int);
    } else {
        let edge = Edge::between(x, y);
        compaction::lemma_picked_members(
            edges,
            |edge: Edge| joins_chains(chains, edge, a, b),
            edge,
        );
        lemma_edge_joins(part, part.index_of(edge), x, y);
    }
}

/// The edges of a scoped forest are direct.
proof fn lemma_scoped_emitted(
    view: FeatureView,
    contracts: Seq<u32>,
    others: Seq<u32>,
    chain_count: int,
    skip_roots: bool,
    edge: Edge,
) -> (at: (int, int))
    requires
        root_rows(
            view,
            contracts,
            others,
            chain_count,
            skip_roots,
            contracts.len() as int,
        ).contains(edge),
    ensures
        0 <= at.0 < contracts.len(),
        0 <= at.1 < others.len(),
        others[at.1] != contracts[at.0],
        edge == Edge::between(others[at.1], contracts[at.0]),
{
    lemma_root_rows_members(
        view,
        contracts,
        others,
        chain_count,
        skip_roots,
        contracts.len() as int,
        edge,
    );
    let i = choose|i: int|
        0 <= i < contracts.len() && #[trigger] takes_part(view, contracts, skip_roots, i)
            && root_row(view, contracts[i], others, chain_count).contains(edge);
    lemma_root_row_members(view, contracts[i], others, chain_count, edge);
    let k = choose|k: int|
        0 <= k < chain_count && (#[trigger] of_chain(view, others, k)).len() > 0 && proper_edge(
            of_chain(view, others, k)[0],
            contracts[i],
        ).contains(edge);
    let own = of_chain(view, others, k);
    assert(own.contains(own[0]));
    lemma_of_chain(view, others, k, own[0]);
    let j = others.index_of(own[0]);
    assert(own[0] != contracts[i]) by {
        if own[0] == contracts[i] {
            assert(proper_edge(own[0], contracts[i]).len() == 0);
        }
    }
    assert(proper_edge(own[0], contracts[i])[0] == edge);
    (i, j)
}

/// A scoped forest between sides without a common token connects what all pairs connect.
proof fn lemma_scoped_connectivity(
    view: FeatureView,
    left: Seq<u32>,
    right: Seq<u32>,
    chain_count: int,
)
    requires
        are_of_chains(view, left, chain_count),
        are_of_chains(view, right, chain_count),
        tokens::are_token_disjoint(view, left, right),
    ensures
        submission::same_scopes(
            scoped_forest(view, left, right, chain_count),
            direct_pairs(view, left, right),
            view.contract_chain@,
            chain_count,
        ),
{
    let chains = view.contract_chain@;
    let edges = scoped_forest(view, left, right, chain_count);
    let first = root_rows(view, right, left, chain_count, false, right.len() as int);
    let second = root_rows(view, left, right, chain_count, true, left.len() as int);
    assert forall|k: int| 0 <= k < edges.len() implies is_emitted(
        view,
        left,
        right,
        #[trigger] edges[k],
    ) by {
        let edge = edges[k];
        assert(edges.contains(edge));
        lemma_concat_members(first, second, edge);
        if first.contains(edge) {
            let (j, i) = lemma_scoped_emitted(view, right, left, chain_count, false, edge);
            assert(edge == Edge::between(left[i], right[j]));
            assert(!tokens::share_token(view, left[i] as int, right[j] as int));
        } else {
            let (i, j) = lemma_scoped_emitted(view, left, right, chain_count, true, edge);
            assert(edge == Edge::between(left[i], right[j]));
            assert(!tokens::share_token(view, left[i] as int, right[j] as int));
        }
    }
    assert forall|i: int, j: int|
        0 <= i < left.len() && 0 <= j < right.len() && is_direct(
            view,
            #[trigger] left[i],
            #[trigger] right[j],
        ) implies graph::connected(
        chain_part(edges, chains, chains[left[i] as int], chains[right[j] as int]),
        left[i] as int,
        right[j] as int,
    ) by {
        let l = left[i];
        let r = right[j];
        let a = chains[l as int];
        let b = chains[r as int];
        let part = chain_part(edges, chains, a, b);
        let own_left = of_chain(view, left, a as int);
        let own_right = of_chain(view, right, b as int);
        assert(left.contains(l) && right.contains(r));
        lemma_of_chain(view, left, a as int, l);
        lemma_of_chain(view, right, b as int, r);
        assert(own_left.contains(l) && own_right.contains(r));
        let l0 = own_left[0];
        let r0 = own_right[0];
        assert(own_left.contains(l0) && own_right.contains(r0));
        lemma_of_chain(view, left, a as int, l0);
        lemma_of_chain(view, right, b as int, r0);
        assert(chains[l0 as int] == a && chains[r0 as int] == b);
        if l0 != r {
            lemma_root_edge(view, right, left, chain_count, false, j, a as int);
            lemma_concat_members(first, second, Edge::between(l0, r));
        }
        lemma_same_or_joined(edges, part, chains, l0, r, a, b);
        if l0 != l {
            let at = right.index_of(r0);
            assert(right[at] == r0);
            if l0 != r0 {
                lemma_root_edge(view, right, left, chain_count, false, at, a as int);
                lemma_concat_members(first, second, Edge::between(l0, r0));
            }
            lemma_same_or_joined(edges, part, chains, l0, r0, a, b);
            if l != r0 {
                assert(takes_part(view, left, true, i));
                lemma_root_edge(view, left, right, chain_count, true, i, b as int);
                lemma_concat_members(first, second, Edge::between(r0, l));
            }
            lemma_same_or_joined(edges, part, chains, r0, l, a, b);
            graph::lemma_connected_transitive(part, l as int, r0 as int, l0 as int);
            graph::lemma_connected_transitive(part, l as int, l0 as int, r as int);
        }
    }
    lemma_covers_scopes(view, left, right, edges, chain_count);
}

/// Where memory is short, expanding a pair of atoms connects the same.
pub proof fn lemma_bounded_connectivity(
    view: FeatureView,
    left: Seq<u32>,
    right: Seq<u32>,
    chain_count: int,
)
    requires
        are_of_chains(view, left, chain_count),
        are_of_chains(view, right, chain_count),
    ensures
        submission::same_scopes(
            bounded_pairs(view, left, right, chain_count),
            direct_pairs(view, left, right),
            view.contract_chain@,
            chain_count,
        ),
{
    if tokens::are_token_disjoint(view, left, right) {
        lemma_scoped_connectivity(view, left, right, chain_count);
    }
    submission::lemma_same_scopes_reflexive(
        direct_pairs(view, left, right),
        view.contract_chain@,
        chain_count,
    );
}

/// The contracts of each chain, in their order.
fn partition_by_chain(features: &FeatureView, contracts: &[u32], chain_count: usize) -> (buckets: Vec<
    Vec<u32>,
>)
    requires
        tokens::are_contracts(*features, contracts@),
        features.contract_chain@.len() == features.contract_count(),
        are_of_chains(*features, contracts@, chain_count as int),
    ensures
        buckets@.len() == chain_count,
        forall|k: int|
            0 <= k < chain_count ==> (#[trigger] buckets@[k])@ == of_chain(
                *features,
                contracts@,
                k,
            ),
{
    let mut buckets: Vec<Vec<u32>> = Vec::new();
    let mut k: usize = 0;
    while k < chain_count
        invariant
            k <= chain_count,
            buckets@.len() == k,
            forall|b: int| 0 <= b < k ==> (#[trigger] buckets@[b])@ == Seq::<u32>::empty(),
        decreases chain_count - k,
    {
        buckets.push(Vec::new());
        k = k + 1;
    }
    let mut i: usize = 0;
    assert(contracts@.take(0) =~= Seq::<u32>::empty());
    while i < contracts.len()
        invariant
            i <= contracts@.len(),
            tokens::are_contracts(*features, contracts@),
            features.contract_chain@.len() == features.contract_count(),
            are_of_chains(*features, contracts@, chain_count as int),
            buckets@.len() == chain_count,
            forall|k: int|
                0 <= k < chain_count ==> (#[trigger] buckets@[k])@ == of_chain(
                    *features,
                    contracts@.take(i as int),
                    k,
                ),
        decreases contracts.len() - i,
    {
        let contract: u32 = contracts[i];
        assert(contracts@[i as int] < features.contract_count());
        let chain: usize = features.contract_chain[contract as usize] as usize;
        buckets[chain].push(contract);
        assert(contracts@.take(i + 1).drop_last() =~= contracts@.take(i as int));
        i = i + 1;
    }
    assert(contracts@.take(i as int) =~= contracts@);
    buckets
}

/// Appends the direct edges of one contract.
fn emit_direct_row(features: &FeatureView, left: u32, right: &[u32], batch: &mut Vec<Edge>)
    requires
        tokens::tokens_sorted(*features),
        left < features.contract_count(),
        tokens::are_contracts(*features, right@),
    ensures
        final(batch)@ == old(batch)@ + direct_row(*features, left, right@, right@.len() as int),
{
    let ghost before = batch@;
    let mut j: usize = 0;
    assert(batch@ =~= before + direct_row(*features, left, right@, 0));
    while j < right.len()
        invariant
            j <= right@.len(),
            tokens::tokens_sorted(*features),
            left < features.contract_count(),
            tokens::are_contracts(*features, right@),
            batch@ == before + direct_row(*features, left, right@, j as int),
        decreases right.len() - j,
    {
        assert(right@[j as int] < features.contract_count());
        if left != right[j] && !contracts_share_retained_token(features, left, right[j]) {
            batch.push(Edge::new(left, right[j]));
        }
        assert(batch@ =~= before + direct_row(*features, left, right@, j + 1));
        j = j + 1;
    }
}

/// Appends the edges of [`bipartite_forest`].
pub fn emit_complete_bipartite_forest(left: &[u32], right: &[u32], batch: &mut Vec<Edge>)
    ensures
        final(batch)@ == old(batch)@ + bipartite_forest(left@, right@),
{
    let ghost before = batch@;
    let ghost forest = bipartite_forest(left@, right@);
    if left.len() == 0 || right.len() == 0 {
        assert(batch@ =~= before + forest);
        return;
    }
    let mut k: usize = 0;
    while k < right.len()
        invariant
            k <= right@.len(),
            left@.len() > 0,
            right@.len() > 0,
            forest == bipartite_forest(left@, right@),
            batch@ == before + forest.take(k as int),
        decreases right.len() - k,
    {
        batch.push(Edge::new(left[0], right[k]));
        assert(forest[k as int] == Edge::between(left@[0], right@[k as int]));
        assert(batch@ =~= before + forest.take(k + 1));
        k = k + 1;
    }
    let mut i: usize = 1;
    while i < left.len()
        invariant
            1 <= i <= left@.len(),
            right@.len() > 0,
            forest == bipartite_forest(left@, right@),
            batch@ == before + forest.take(right@.len() + i - 1),
        decreases left.len() - i,
    {
        batch.push(Edge::new(left[i], right[0]));
        assert(forest[right@.len() + i - 1] == Edge::between(left@[i as int], right@[0]));
        assert(batch@ =~= before + forest.take(right@.len() + i));
        i = i + 1;
    }
    assert(forest.take(right@.len() + i - 1) =~= forest);
}

/// Whether there are enough pairs for the fast path.
fn is_worthwhile(left: usize, right: usize) -> (worthwhile: bool)
    ensures
        worthwhile == (left * right >= FOREST_FAST_PATH_MIN_PAIR_WORK),
{
    match left.checked_mul(right) {
        Some(work) => work >= FOREST_FAST_PATH_MIN_PAIR_WORK,
        None => true,
    }
}

/// Appends the edges between contracts of two chains.
fn emit_bucket(features: &FeatureView, left: &[u32], right: &[u32], batch: &mut Vec<Edge>)
    requires
        tokens::tokens_sorted(*features),
        tokens::are_contracts(*features, left@),
        tokens::are_contracts(*features, right@),
    ensures
        final(batch)@ == old(batch)@ + bucket_edges(*features, left@, right@),
{
    let ghost before = batch@;
    if is_worthwhile(left.len(), right.len()) && retained_tokens_disjoint(features, left, right) {
        emit_complete_bipartite_forest(left, right, batch);
        return;
    }
    let mut i: usize = 0;
    assert(batch@ =~= before + direct_rows(*features, left@, right@, 0));
    while i < left.len()
        invariant
            i <= left@.len(),
            tokens::tokens_sorted(*features),
            tokens::are_contracts(*features, left@),
            tokens::are_contracts(*features, right@),
            batch@ == before + direct_rows(*features, left@, right@, i as int),
        decreases left.len() - i,
    {
        assert(left@[i as int] < features.contract_count());
        emit_direct_row(features, left[i], right, batch);
        assert(batch@ =~= before + direct_rows(*features, left@, right@, i + 1));
        i = i + 1;
    }
}

/// The contracts of a chain are contracts.
pub proof fn lemma_of_chain_known(view: FeatureView, contracts: Seq<u32>, chain: int)
    requires
        tokens::are_contracts(view, contracts),
    ensures
        tokens::are_contracts(view, of_chain(view, contracts, chain)),
{
    let own = of_chain(view, contracts, chain);
    assert forall|i: int| 0 <= i < own.len() implies #[trigger] own[i] < view.contract_count() by {
        assert(own.contains(own[i]));
        lemma_of_chain(view, contracts, chain, own[i]);
        let at = contracts.index_of(own[i]);
        assert(contracts[at] == own[i]);
    }
}

/// Appends the edges between two sides, chain by chain.
pub fn expand_contract_pairs(
    features: &FeatureView,
    left: &[u32],
    right: &[u32],
    chain_count: usize,
    batch: &mut Vec<Edge>,
)
    requires
        tokens::tokens_sorted(*features),
        features.contract_chain@.len() == features.contract_count(),
        tokens::are_contracts(*features, left@),
        tokens::are_contracts(*features, right@),
        are_of_chains(*features, left@, chain_count as int),
        are_of_chains(*features, right@, chain_count as int),
    ensures
        final(batch)@ == old(batch)@ + expanded_pairs(
            *features,
            left@,
            right@,
            chain_count as int,
        ),
{
    let ghost view = *features;
    let ghost before = batch@;
    let ghost c = chain_count as int;
    let left_by_chain = partition_by_chain(features, left, chain_count);
    let right_by_chain = partition_by_chain(features, right, chain_count);
    let mut a: usize = 0;
    assert(batch@ =~= before + expanded_rows(view, left@, right@, c, 0));
    while a < chain_count
        invariant
            a <= chain_count,
            c == chain_count,
            view == *features,
            tokens::tokens_sorted(view),
            tokens::are_contracts(view, left@),
            tokens::are_contracts(view, right@),
            left_by_chain@.len() == c,
            right_by_chain@.len() == c,
            forall|k: int|
                0 <= k < c ==> (#[trigger] left_by_chain@[k])@ == of_chain(view, left@, k),
            forall|k: int|
                0 <= k < c ==> (#[trigger] right_by_chain@[k])@ == of_chain(view, right@, k),
            batch@ == before + expanded_rows(view, left@, right@, c, a as int),
        decreases chain_count - a,
    {
        let ghost own = of_chain(view, left@, a as int);
        let ghost done = batch@;
        let mut b: usize = 0;
        assert(batch@ =~= done + expanded_row(view, own, right@, 0));
        while b < chain_count
            invariant
                b <= chain_count,
                a < chain_count,
                c == chain_count,
                view == *features,
                tokens::tokens_sorted(view),
                tokens::are_contracts(view, left@),
                tokens::are_contracts(view, right@),
                left_by_chain@.len() == c,
                right_by_chain@.len() == c,
                own == of_chain(view, left@, a as int),
                forall|k: int|
                    0 <= k < c ==> (#[trigger] left_by_chain@[k])@ == of_chain(view, left@, k),
                forall|k: int|
                    0 <= k < c ==> (#[trigger] right_by_chain@[k])@ == of_chain(view, right@, k),
                batch@ == done + expanded_row(view, own, right@, b as int),
            decreases chain_count - b,
        {
            proof {
                lemma_of_chain_known(view, left@, a as int);
                lemma_of_chain_known(view, right@, b as int);
            }
            emit_bucket(
                features,
                left_by_chain[a].as_slice(),
                right_by_chain[b].as_slice(),
                batch,
            );
            assert(batch@ =~= done + expanded_row(view, own, right@, b + 1));
            b = b + 1;
        }
        assert(batch@ =~= before + expanded_rows(view, left@, right@, c, a + 1));
        a = a + 1;
    }
}

} // verus!
