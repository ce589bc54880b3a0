//! Spanning forests of edge buffers.

use crate::reduce::dsu;
use crate::reduce::dsu::Dsu;
use crate::reduce::error::{check, ReduceError, ReduceFault};
use crate::reduce::graph;
use crate::reduce::graph::Edge;
use crate::sorting;
use crate::sorting::sorted_distinct;
use vstd::prelude::*;

verus! {

/// Bytes that one stored edge takes.
pub const EDGE_BYTES: u64 = 8;

/// Limits on edge buffers, forest runs and retained runs.
#[derive(Debug, Clone, Copy)]
pub struct EdgeBudget {
    pub max_buffer_bytes: u64,
    pub max_run_edges: u64,
    pub max_total_bytes: u64,
}

/// A spanning forest of one edge buffer.
#[derive(Debug, Clone, PartialEq, Eq)]
pub struct ForestRun {
    pub node_count: u32,
    pub edges: Vec<Edge>,
}

/// Bytes of `count` stored edges, at most `u64::MAX`.
pub open spec fn edge_bytes_of(count: nat) -> u64 {
    if count * EDGE_BYTES <= u64::MAX {
        (count * EDGE_BYTES) as u64
    } else {
        u64::MAX
    }
}

/// The edges between two different nodes, in their order.
pub open spec fn proper_edges(edges: Seq<Edge>) -> Seq<Edge>
    decreases edges.len(),
{
    if edges.len() == 0 {
        Seq::empty()
    } else if edges.last().left != edges.last().right {
        proper_edges(edges.drop_last()).push(edges.last())
    } else {
        proper_edges(edges.drop_last())
    }
}

/// Left endpoint first, then right endpoint.
pub open spec fn precedes(a: Edge, b: Edge) -> bool {
    a.left < b.left || (a.left == b.left && a.right < b.right)
}

/// Each edge precedes every later one.
pub open spec fn is_ordered(edges: Seq<Edge>) -> bool {
    forall|i: int, j: int| 0 <= i < j < edges.len() ==> precedes(#[trigger] edges[i], #[trigger] edges[j])
}

/// `canonical` holds each proper edge of `edges` once, in order.
pub open spec fn is_canonical(edges: Seq<Edge>, canonical: Seq<Edge>) -> bool {
    &&& is_ordered(canonical)
    &&& forall|edge: Edge| #[trigger]
        canonical.contains(edge) <==> edges.contains(edge) && edge.left != edge.right
}

/// The distinct proper edges in order.
pub open spec fn canonical_edges(edges: Seq<Edge>) -> Seq<Edge> {
    choose|canonical: Seq<Edge>| is_canonical(edges, canonical)
}

/// The edges whose endpoints no earlier edges connect: a spanning forest.
pub open spec fn spanning_edges(edges: Seq<Edge>) -> Seq<Edge>
    decreases edges.len(),
{
    if edges.len() == 0 {
        Seq::empty()
    } else {
        let earlier = edges.drop_last();
        let edge = edges.last();
        if graph::connected(earlier, edge.left as int, edge.right as int) {
            spanning_edges(earlier)
        } else {
            spanning_edges(earlier).push(edge)
        }
    }
}

/// The first endpoint from edge `at` on that is not below `node_count`.
pub open spec fn first_outside(edges: Seq<Edge>, node_count: u32, at: int) -> Option<u32>
    decreases edges.len() - at,
{
    if at < 0 || at >= edges.len() {
        None
    } else if edges[at].left >= node_count {
        Some(edges[at].left)
    } else if edges[at].right >= node_count {
        Some(edges[at].right)
    } else {
        first_outside(edges, node_count, at + 1)
    }
}

/// What building a forest run gives: the spanning forest of the distinct proper edges in
/// order, or the first limit or endpoint that refuses it.
pub open spec fn forest_outcome(
    node_count: u32,
    edges: Seq<Edge>,
    budget: EdgeBudget,
) -> Result<Seq<Edge>, ReduceFault> {
    let buffer_bytes = edge_bytes_of(proper_edges(edges).len());
    let ordered = canonical_edges(edges);
    let forest = spanning_edges(ordered);
    if buffer_bytes > budget.max_buffer_bytes {
        Err(
            ReduceFault::Budget {
                resource: "buffer_bytes"@,
                requested: buffer_bytes,
                limit: budget.max_buffer_bytes,
            },
        )
    } else if first_outside(ordered, node_count, 0) is Some {
        Err(
            ReduceFault::Endpoint {
                endpoint: first_outside(ordered, node_count, 0)->0,
                node_count,
            },
        )
    } else if forest.len() > budget.max_run_edges {
        Err(
            ReduceFault::Budget {
                resource: "run_edges"@,
                requested: forest.len() as u64,
                limit: budget.max_run_edges,
            },
        )
    } else if edge_bytes_of(forest.len()) > budget.max_total_bytes {
        Err(
            ReduceFault::Budget {
                resource: "total_bytes"@,
                requested: edge_bytes_of(forest.len()),
                limit: budget.max_total_bytes,
            },
        )
    } else {
        Ok(forest)
    }
}

proof fn lemma_first_outside(edges: Seq<Edge>, node_count: u32, at: int)
    requires
        0 <= at,
    ensures
        first_outside(edges, node_count, at) matches Some(endpoint) ==> endpoint >= node_count,
        first_outside(edges, node_count, at) is None ==> forall|k: int|
            at <= k < edges.len() ==> (#[trigger] edges[k]).left < node_count && edges[k].right
                < node_count,
    decreases edges.len() - at,
{
    if at < edges.len() {
        lemma_first_outside(edges, node_count, at + 1);
    }
}

/// The edges increase strictly, none is a loop, and none joins what earlier ones connect.
pub open spec fn is_forest(edges: Seq<Edge>) -> bool {
    &&& is_ordered(edges)
    &&& forall|k: int| 0 <= k < edges.len() ==> (#[trigger] edges[k]).left != edges[k].right
    &&& forall|k: int|
        0 <= k < edges.len() ==> !graph::connected(
            edges.take(k),
            (#[trigger] edges[k]).left as int,
            edges[k].right as int,
        )
}

proof fn lemma_spanning_is_forest(edges: Seq<Edge>)
    requires
        is_ordered(edges),
        forall|k: int| 0 <= k < edges.len() ==> (#[trigger] edges[k]).left != edges[k].right,
    ensures
        is_forest(spanning_edges(edges)),
        forall|edge: Edge| #[trigger]
            spanning_edges(edges).contains(edge) ==> edges.contains(edge),
    decreases edges.len(),
{
    if edges.len() > 0 {
        let earlier = edges.drop_last();
        let edge = edges.last();
        let before = spanning_edges(earlier);
        let all = spanning_edges(edges);
        assert forall|i: int, j: int| 0 <= i < j < earlier.len() implies precedes(
            #[trigger] earlier[i],
            #[trigger] earlier[j],
        ) by {
            assert(precedes(edges[i], edges[j]));
        }
        assert forall|k: int| 0 <= k < earlier.len() implies (#[trigger] earlier[k]).left
            != earlier[k].right by {
            assert(earlier[k] == edges[k]);
        }
        lemma_spanning_is_forest(earlier);
        lemma_spanning_connectivity(earlier);
        assert forall|other: Edge| #[trigger] all.contains(other) implies edges.contains(other) by {
            let at = all.index_of(other);
            if at < before.len() {
                assert(before[at] == other);
                assert(before.contains(other));
                assert(edges[earlier.index_of(other)] == other);
            } else {
                assert(other == edge);
                assert(edges[edges.len() - 1] == edge);
            }
        }
        if all.len() > before.len() {
            assert(all == before.push(edge));
            assert forall|i: int, j: int| 0 <= i < j < all.len() implies precedes(
                #[trigger] all[i],
                #[trigger] all[j],
            ) by {
                if j == before.len() {
                    assert(before.contains(before[i]));
                    let at = earlier.index_of(before[i]);
                    assert(precedes(edges[at], edges[edges.len() - 1]));
                } else {
                    assert(precedes(before[i], before[j]));
                }
            }
            assert forall|k: int| 0 <= k < all.len() implies !graph::connected(
                all.take(k),
                (#[trigger] all[k]).left as int,
                all[k].right as int,
            ) by {
                if k < before.len() {
                    assert(all.take(k) =~= before.take(k));
                    assert(before[k] == all[k]);
                } else {
                    assert(all.take(k) =~= before);
                    assert(!graph::connected(earlier, edge.left as int, edge.right as int));
                    assert(graph::connected(before, edge.left as int, edge.right as int)
                        <==> graph::connected(earlier, edge.left as int, edge.right as int));
                }
            }
            assert(edges[edges.len() - 1] == edge);
        }
    }
}

/// A run is a forest, and has fewer edges than nodes.
pub proof fn lemma_run_is_forest(node_count: u32, edges: Seq<Edge>, budget: EdgeBudget)
    requires
        forest_outcome(node_count, edges, budget) is Ok,
    ensures
        is_forest(forest_outcome(node_count, edges, budget)->Ok_0),
        forest_outcome(node_count, edges, budget)->Ok_0.len() <= (if node_count > 0 {
            node_count - 1
        } else {
            0
        }),
{
    let ordered = canonical_edges(edges);
    lemma_canonical_exists(edges);
    assert forall|k: int| 0 <= k < ordered.len() implies (#[trigger] ordered[k]).left
        != ordered[k].right by {
        assert(ordered.contains(ordered[k]));
    }
    lemma_spanning_is_forest(ordered);
    lemma_first_outside(ordered, node_count, 0);
    dsu::lemma_forest_is_small(ordered, node_count);
}

/// A forest is refused where it exceeds a limit, or an endpoint lies outside the nodes.
pub proof fn lemma_forest_faults(node_count: u32, edges: Seq<Edge>, budget: EdgeBudget)
    ensures
        forest_outcome(node_count, edges, budget) matches Err(fault) ==> match fault {
            ReduceFault::Budget { resource, requested, limit } => requested > limit && {
                ||| resource == "buffer_bytes"@ && limit == budget.max_buffer_bytes
                ||| resource == "run_edges"@ && limit == budget.max_run_edges && requested
                    < node_count
                ||| resource == "total_bytes"@ && limit == budget.max_total_bytes
            },
            ReduceFault::Endpoint { endpoint, node_count: nodes } => nodes == node_count
                && endpoint >= node_count,
            _ => false,
        },
{
    let ordered = canonical_edges(edges);
    lemma_first_outside(ordered, node_count, 0);
    if first_outside(ordered, node_count, 0) is None {
        dsu::lemma_forest_is_small(ordered, node_count);
    }
}

/// The canonical form of edges within the nodes stays within them.
pub proof fn lemma_canonical_within(edges: Seq<Edge>, node_count: u32)
    requires
        graph::all_within(edges, node_count as int),
    ensures
        graph::all_within(canonical_edges(edges), node_count as int),
        first_outside(canonical_edges(edges), node_count, 0) is None,
{
    let ordered = canonical_edges(edges);
    lemma_canonical_exists(edges);
    assert forall|k: int| 0 <= k < ordered.len() implies (#[trigger] ordered[k]).within(
        node_count as int,
    ) by {
        assert(ordered.contains(ordered[k]));
        assert(edges[edges.index_of(ordered[k])].within(node_count as int));
    }
    lemma_none_outside(ordered, node_count, 0);
}

proof fn lemma_none_outside(edges: Seq<Edge>, node_count: u32, at: int)
    requires
        graph::all_within(edges, node_count as int),
        0 <= at,
    ensures
        first_outside(edges, node_count, at) is None,
    decreases edges.len() - at,
{
    if at < edges.len() {
        assert(edges[at].within(node_count as int));
        lemma_none_outside(edges, node_count, at + 1);
    }
}

/// A forest within the nodes stays within them, and has fewer edges.
pub proof fn lemma_spanning_within(edges: Seq<Edge>, node_count: u32)
    requires
        graph::all_within(edges, node_count as int),
    ensures
        graph::all_within(spanning_edges(edges), node_count as int),
        spanning_edges(edges).len() <= (if node_count > 0 {
            node_count - 1
        } else {
            0
        }),
{
    let forest = spanning_edges(edges);
    dsu::lemma_forest_is_small(edges, node_count);
    assert forall|k: int| 0 <= k < forest.len() implies (#[trigger] forest[k]).within(
        node_count as int,
    ) by {
        assert(forest.contains(forest[k]));
        lemma_spanning_members(edges, forest[k]);
        assert(edges[edges.index_of(forest[k])].within(node_count as int));
    }
}

/// The canonical form has no more edges.
pub proof fn lemma_canonical_len(edges: Seq<Edge>)
    ensures
        canonical_edges(edges).len() <= edges.len(),
{
    let ordered = canonical_edges(edges);
    lemma_canonical_exists(edges);
    assert(ordered.no_duplicates()) by {
        assert forall|i: int, j: int| 0 <= i < ordered.len() && 0 <= j < ordered.len() && i
            != j implies ordered[i] != ordered[j] by {
            if i < j {
                assert(precedes(ordered[i], ordered[j]));
            } else {
                assert(precedes(ordered[j], ordered[i]));
            }
        }
    }
    assert(ordered.to_set().subset_of(edges.to_set())) by {
        assert forall|edge: Edge| ordered.to_set().contains(edge) implies edges.to_set().contains(
            edge,
        ) by {
            assert(ordered.contains(edge));
        }
    }
    ordered.unique_seq_to_set();
    edges.lemma_cardinality_of_set();
    vstd::set_lib::lemma_len_subset(ordered.to_set(), edges.to_set());
}

/// The result of building a run is the given outcome.
pub open spec fn is_forest_result(
    result: Result<ForestRun, ReduceError>,
    node_count: u32,
    outcome: Result<Seq<Edge>, ReduceFault>,
) -> bool {
    match (result, outcome) {
        (Ok(run), Ok(edges)) => run.node_count == node_count && run.edges@ == edges,
        (Err(error), Err(fault)) => error@ == fault,
        _ => false,
    }
}

pub(crate) open spec fn edge_key_of(edge: Edge) -> u128 {
    (edge.left * 4294967296 + edge.right) as u128
}

proof fn lemma_edge_key_injective(a: Edge, b: Edge)
    requires
        edge_key_of(a) == edge_key_of(b),
    ensures
        a == b,
{
    assert(a.left * 4294967296 + a.right == b.left * 4294967296 + b.right);
    assert(a.left == b.left && a.right == b.right);
}

/// The canonical form is unique.
pub proof fn lemma_canonical_edges(edges: Seq<Edge>, canonical: Seq<Edge>)
    requires
        is_canonical(edges, canonical),
    ensures
        canonical_edges(edges) == canonical,
{
    let chosen = canonical_edges(edges);
    assert(is_canonical(edges, chosen));
    let left = chosen.map_values(|edge: Edge| edge_key_of(edge));
    let right = canonical.map_values(|edge: Edge| edge_key_of(edge));
    assert forall|i: int, j: int| 0 <= i < j < left.len() implies left[i] < left[j] by {
        assert(precedes(chosen[i], chosen[j]));
    }
    assert forall|i: int, j: int| 0 <= i < j < right.len() implies right[i] < right[j] by {
        assert(precedes(canonical[i], canonical[j]));
    }
    assert forall|key: u128| left.contains(key) <==> right.contains(key) by {
        if left.contains(key) {
            let i = left.index_of(key);
            assert(chosen.contains(chosen[i]));
            assert(canonical.contains(chosen[i]));
            let j = canonical.index_of(chosen[i]);
            assert(right[j] == key);
        }
        if right.contains(key) {
            let i = right.index_of(key);
            assert(canonical.contains(canonical[i]));
            assert(chosen.contains(canonical[i]));
            let j = chosen.index_of(canonical[i]);
            assert(left[j] == key);
        }
    }
    sorting::lemma_strictly_ascending_unique(left, right);
    assert(chosen.len() == left.len() && canonical.len() == right.len());
    assert forall|i: int| 0 <= i < chosen.len() implies chosen[i] == canonical[i] by {
        assert(left[i] == edge_key_of(chosen[i]));
        assert(right[i] == edge_key_of(canonical[i]));
        lemma_edge_key_injective(chosen[i], canonical[i]);
    }
    assert(chosen =~= canonical);
}

/// Every edge sequence has a canonical form.
pub proof fn lemma_canonical_exists(edges: Seq<Edge>)
    ensures
        exists|canonical: Seq<Edge>| is_canonical(edges, canonical),
        is_canonical(edges, canonical_edges(edges)),
    decreases edges.len(),
{
    if edges.len() == 0 {
        assert(is_canonical(edges, Seq::empty()));
    } else {
        let rest = edges.drop_last();
        let edge = edges.last();
        assert(edges =~= rest.push(edge));
        lemma_canonical_exists(rest);
        let smaller = canonical_edges(rest);
        assert forall|other: Edge| #[trigger] edges.contains(other) <==> rest.contains(other)
            || other == edge by {
            if rest.contains(other) {
                let i = rest.index_of(other);
                assert(edges[i] == other);
            }
            if edges.contains(other) {
                let i = edges.index_of(other);
                if i < rest.len() {
                    assert(rest[i] == other);
                }
            }
            assert(edges[edges.len() - 1] == edge);
        }
        if edge.left == edge.right || smaller.contains(edge) {
            assert(is_canonical(edges, smaller));
        } else {
            let at = lemma_insertion_point(smaller, edge, 0);
            let grown = smaller.insert(at, edge);
            assert forall|other: Edge| #[trigger]
                grown.contains(other) <==> smaller.contains(other) || other == edge by {
                if smaller.contains(other) {
                    let i = smaller.index_of(other);
                    if i < at {
                        assert(grown[i] == other);
                    } else {
                        assert(grown[i + 1] == other);
                    }
                }
                assert(grown[at] == edge);
                if grown.contains(other) {
                    let i = grown.index_of(other);
                    if i < at {
                        assert(smaller[i] == other);
                    } else if i > at {
                        assert(smaller[i - 1] == other);
                    }
                }
            }
            assert forall|i: int, j: int| 0 <= i < j < grown.len() implies precedes(
                #[trigger] grown[i],
                #[trigger] grown[j],
            ) by {
                if i < at && j > at {
                    assert(precedes(smaller[i], smaller[j - 1]));
                } else if i > at {
                    assert(precedes(smaller[i - 1], smaller[j - 1]));
                } else if j < at {
                    assert(precedes(smaller[i], smaller[j]));
                }
            }
            assert(is_canonical(edges, grown));
        }
    }
}

proof fn lemma_insertion_point(edges: Seq<Edge>, edge: Edge, from: int) -> (at: int)
    requires
        is_ordered(edges),
        !edges.contains(edge),
        0 <= from <= edges.len(),
        forall|i: int| 0 <= i < from ==> precedes(#[trigger] edges[i], edge),
    ensures
        from <= at <= edges.len(),
        forall|i: int| 0 <= i < at ==> precedes(#[trigger] edges[i], edge),
        forall|i: int| at <= i < edges.len() ==> precedes(edge, #[trigger] edges[i]),
    decreases edges.len() - from,
{
    if from == edges.len() {
        from
    } else if precedes(edges[from], edge) {
        lemma_insertion_point(edges, edge, from + 1)
    } else {
        assert(edges.contains(edges[from]));
        assert(precedes(edge, edges[from]));
        assert forall|i: int| from <= i < edges.len() implies precedes(
            edge,
            #[trigger] edges[i],
        ) by {
            if i > from {
                assert(precedes(edges[from], edges[i]));
            }
        }
        from
    }
}

/// A member of the proper edges is a proper member.
pub proof fn lemma_proper_edges_members(edges: Seq<Edge>, edge: Edge)
    ensures
        proper_edges(edges).contains(edge) <==> edges.contains(edge) && edge.left != edge.right,
        proper_edges(edges).len() <= edges.len(),
    decreases edges.len(),
{
    if edges.len() > 0 {
        let rest = edges.drop_last();
        lemma_proper_edges_members(rest, edge);
        assert(edges =~= rest.push(edges.last()));
        if rest.contains(edge) {
            let i = rest.index_of(edge);
            assert(edges[i] == edge);
        }
        if edges.contains(edge) {
            let i = edges.index_of(edge);
            if i < rest.len() {
                assert(rest[i] == edge);
            }
        }
        if edges.last().left != edges.last().right {
            let more = proper_edges(rest).push(edges.last());
            if proper_edges(rest).contains(edge) {
                let i = proper_edges(rest).index_of(edge);
                assert(more[i] == edge);
            }
            assert(more[proper_edges(rest).len() as int] == edges.last());
            if more.contains(edge) {
                let i = more.index_of(edge);
                if i < proper_edges(rest).len() {
                    assert(proper_edges(rest)[i] == edge);
                }
            }
        }
    }
}

/// A spanning forest connects what the edges connect.
pub proof fn lemma_spanning_connectivity(edges: Seq<Edge>)
    ensures
        graph::same_connectivity(spanning_edges(edges), edges),
    decreases edges.len(),
{
    if edges.len() > 0 {
        let earlier = edges.drop_last();
        let edge = edges.last();
        lemma_spanning_connectivity(earlier);
        assert(edges =~= earlier.push(edge));
        let l = edge.left as int;
        let r = edge.right as int;
        assert forall|a: int, b: int| #[trigger]
            graph::connected(spanning_edges(edges), a, b) <==> graph::connected(edges, a, b) by {
            graph::lemma_connected_push(earlier, edge, a, b);
            graph::lemma_connected_push(spanning_edges(earlier), edge, a, b);
            assert(graph::connected(spanning_edges(earlier), a, b) <==> graph::connected(
                earlier,
                a,
                b,
            ));
            assert(graph::connected(spanning_edges(earlier), a, l) <==> graph::connected(
                earlier,
                a,
                l,
            ));
            assert(graph::connected(spanning_edges(earlier), r, b) <==> graph::connected(
                earlier,
                r,
                b,
            ));
            assert(graph::connected(spanning_edges(earlier), a, r) <==> graph::connected(
                earlier,
                a,
                r,
            ));
            assert(graph::connected(spanning_edges(earlier), l, b) <==> graph::connected(
                earlier,
                l,
                b,
            ));
            if graph::connected(earlier, l, r) {
                graph::lemma_connected_symmetric(earlier, l, r);
                if graph::connected(earlier, a, l) && graph::connected(earlier, r, b) {
                    graph::lemma_connected_transitive(earlier, a, l, r);
                    graph::lemma_connected_transitive(earlier, a, r, b);
                }
                if graph::connected(earlier, a, r) && graph::connected(earlier, l, b) {
                    graph::lemma_connected_transitive(earlier, a, r, l);
                    graph::lemma_connected_transitive(earlier, a, l, b);
                }
            }
        }
    } else {
        assert(spanning_edges(edges) =~= edges);
    }
}

/// Loops connect nothing.
pub proof fn lemma_canonical_connectivity(edges: Seq<Edge>, canonical: Seq<Edge>)
    requires
        is_canonical(edges, canonical),
    ensures
        graph::same_connectivity(canonical, edges),
{
    assert forall|i: int| 0 <= i < canonical.len() implies graph::connected(
        edges,
        (#[trigger] canonical[i]).left as int,
        canonical[i].right as int,
    ) by {
        assert(canonical.contains(canonical[i]));
        graph::lemma_edge_connects(edges, edges.index_of(canonical[i]));
    }
    assert forall|i: int| 0 <= i < edges.len() implies graph::connected(
        canonical,
        (#[trigger] edges[i]).left as int,
        edges[i].right as int,
    ) by {
        assert(edges.contains(edges[i]));
        if edges[i].left == edges[i].right {
            graph::lemma_connected_reflexive(canonical, edges[i].left as int);
        } else {
            assert(canonical.contains(edges[i]));
            graph::lemma_edge_connects(canonical, canonical.index_of(edges[i]));
        }
    }
    assert forall|a: int, b: int| #[trigger]
        graph::connected(canonical, a, b) <==> graph::connected(edges, a, b) by {
        if graph::connected(canonical, a, b) {
            graph::lemma_connected_monotone(canonical, edges, a, b);
        }
        if graph::connected(edges, a, b) {
            graph::lemma_connected_monotone(edges, canonical, a, b);
        }
    }
}

/// A forest holds only edges that it was built from.
pub proof fn lemma_spanning_members(edges: Seq<Edge>, edge: Edge)
    requires
        spanning_edges(edges).contains(edge),
    ensures
        edges.contains(edge),
    decreases edges.len(),
{
    if edges.len() > 0 {
        let earlier = edges.drop_last();
        let i = spanning_edges(edges).index_of(edge);
        if spanning_edges(edges)[i] == edges.last() {
            assert(edges[edges.len() - 1] == edge);
        } else {
            assert(spanning_edges(earlier)[i] == edge);
            lemma_spanning_members(earlier, edge);
            let j = earlier.index_of(edge);
            assert(edges[j] == edge);
        }
    }
}

/// An edge as a sort key.
pub(crate) fn edge_key(edge: Edge) -> (key: u128)
    ensures
        key == edge_key_of(edge),
{
    edge.left as u128 * 4294967296 + edge.right as u128
}

/// The edge that a sort key packs.
pub(crate) fn key_edge(key: u128) -> (edge: Edge)
    requires
        key < 0x1_0000_0000_0000_0000,
    ensures
        edge_key_of(edge) == key,
{
    Edge { left: (key / 4294967296) as u32, right: (key % 4294967296) as u32 }
}

/// Bytes of `count` stored edges, at most `u64::MAX`.
pub fn edge_bytes(count: usize) -> (bytes: u64)
    ensures
        bytes == edge_bytes_of(count as nat),
{
    let wide: u128 = count as u128 * EDGE_BYTES as u128;
    if wide <= u64::MAX as u128 {
        wide as u64
    } else {
        u64::MAX
    }
}

/// The number of proper edges and their canonical form.
pub(crate) fn canonicalize(edges: &Vec<Edge>, parallel: bool) -> (result: (usize, Vec<Edge>))
    ensures
        result.0 == proper_edges(edges@).len(),
        is_canonical(edges@, result.1@),
        result.1@ == canonical_edges(edges@),
{
    let mut keys: Vec<u128> = Vec::new();
    let mut i: usize = 0;
    while i < edges.len()
        invariant
            i <= edges@.len(),
            keys@.len() == proper_edges(edges@.take(i as int)).len(),
            keys@.len() <= i,
            forall|k: int|
                0 <= k < keys@.len() ==> #[trigger] keys@[k] == edge_key_of(
                    proper_edges(edges@.take(i as int))[k],
                ),
        decreases edges.len() - i,
    {
        let edge = edges[i];
        assert(edges@.take(i + 1).drop_last() =~= edges@.take(i as int));
        if edge.left != edge.right {
            keys.push(edge_key(edge));
        }
        i = i + 1;
    }
    let count: usize = keys.len();
    let ghost proper = proper_edges(edges@);
    proof {
        assert(edges@.take(i as int) =~= edges@);
    }
    let ordered = sorted_distinct(keys, parallel);
    let mut out: Vec<Edge> = Vec::new();
    let mut j: usize = 0;
    while j < ordered.len()
        invariant
            j <= ordered@.len(),
            out@.len() == j,
            proper == proper_edges(edges@),
            keys@.len() == proper.len(),
            forall|k: int| 0 <= k < keys@.len() ==> #[trigger] keys@[k] == edge_key_of(proper[k]),
            forall|key: u128| ordered@.contains(key) <==> keys@.contains(key),
            forall|k: int| 0 <= k < j ==> edge_key_of(#[trigger] out@[k]) == ordered@[k],
        decreases ordered.len() - j,
    {
        proof {
            assert(ordered@.contains(ordered@[j as int]));
            let at = keys@.index_of(ordered@[j as int]);
            assert(keys@[at] == edge_key_of(proper[at]));
        }
        out.push(key_edge(ordered[j]));
        j = j + 1;
    }
    proof {
        assert forall|a: int, b: int| 0 <= a < b < out@.len() implies precedes(
            #[trigger] out@[a],
            #[trigger] out@[b],
        ) by {
            assert(ordered@[a] < ordered@[b]);
        }
        assert forall|edge: Edge| #[trigger]
            out@.contains(edge) <==> edges@.contains(edge) && edge.left != edge.right by {
            lemma_proper_edges_members(edges@, edge);
            if out@.contains(edge) {
                let at = out@.index_of(edge);
                assert(ordered@.contains(ordered@[at]));
                let from = keys@.index_of(ordered@[at]);
                assert(keys@[from] == edge_key_of(proper[from]));
                assert(proper[from] == edge);
            }
            if proper.contains(edge) {
                let at = proper.index_of(edge);
                assert(keys@[at] == edge_key_of(edge));
                assert(ordered@.contains(edge_key_of(edge)));
                let to = ordered@.index_of(edge_key_of(edge));
                assert(edge_key_of(out@[to]) == edge_key_of(edge));
                assert(out@[to] == edge);
            }
        }
        lemma_canonical_edges(edges@, out@);
    }
    (count, out)
}

/// The first endpoint that is not below `node_count`.
pub(crate) fn find_outside(edges: &Vec<Edge>, node_count: u32) -> (outside: Option<u32>)
    ensures
        outside == first_outside(edges@, node_count, 0),
        outside is None ==> graph::all_within(edges@, node_count as int),
{
    let mut i: usize = 0;
    while i < edges.len()
        invariant
            i <= edges@.len(),
            first_outside(edges@, node_count, 0) == first_outside(edges@, node_count, i as int),
            forall|k: int| 0 <= k < i ==> (#[trigger] edges@[k]).within(node_count as int),
        decreases edges.len() - i,
    {
        let edge = edges[i];
        if edge.left >= node_count {
            return Some(edge.left);
        }
        if edge.right >= node_count {
            return Some(edge.right);
        }
        i = i + 1;
    }
    None
}

/// The nodes that edges touch.
pub open spec fn endpoints(edges: Seq<Edge>) -> Set<int> {
    Set::new(
        |node: int|
            exists|i: int|
                0 <= i < edges.len() && ((#[trigger] edges[i]).left == node || edges[i].right
                    == node),
    )
}

proof fn lemma_endpoints_of_members(some: Seq<Edge>, all: Seq<Edge>)
    requires
        is_canonical(all, some),
    ensures
        endpoints(some).subset_of(endpoints(all)),
{
    assert forall|node: int| endpoints(some).contains(node) implies endpoints(all).contains(
        node,
    ) by {
        let i = choose|i: int|
            0 <= i < some.len() && ((#[trigger] some[i]).left == node || some[i].right == node);
        assert(some.contains(some[i]));
        let k = all.index_of(some[i]);
        assert(all[k].left == node || all[k].right == node);
    }
}

proof fn lemma_confined_within(parent: Seq<u32>, some: Set<int>, all: Set<int>)
    requires
        dsu::confined(parent, some),
        some.subset_of(all),
    ensures
        dsu::confined(parent, all),
{
    assert forall|i: int| 0 <= i < parent.len() && #[trigger] parent[i] != i implies all.contains(i)
        && all.contains(parent[i] as int) by {
        assert(some.contains(i) && some.contains(parent[i] as int));
    }
}

/// The spanning forest of edges, in their order, on a union-find that keeps every node
/// alone. Afterwards only endpoints of the edges may have been joined.
pub(crate) fn span(dsu: &mut Dsu, edges: &Vec<Edge>, node_count: u32) -> (forest: Vec<Edge>)
    requires
        old(dsu).parent@.len() == node_count,
        dsu::is_discrete(old(dsu).parent@),
        graph::all_within(edges@, node_count as int),
    ensures
        forest@ == spanning_edges(edges@),
        final(dsu).parent@.len() == node_count,
        final(dsu).wf(),
        dsu::confined(final(dsu).parent@, endpoints(edges@)),
{
    let ghost touched = endpoints(edges@);
    let mut forest: Vec<Edge> = Vec::new();
    let mut i: usize = 0;
    proof {
        dsu::lemma_discrete_represents(dsu.parent@);
        assert(edges@.take(0) =~= Seq::empty());
    }
    while i < edges.len()
        invariant
            i <= edges@.len(),
            graph::all_within(edges@, node_count as int),
            touched == endpoints(edges@),
            dsu.parent@.len() == node_count,
            dsu.wf(),
            dsu::represents(dsu.parent@, edges@.take(i as int)),
            dsu::confined(dsu.parent@, touched),
            forest@ == spanning_edges(edges@.take(i as int)),
        decreases edges.len() - i,
    {
        let edge = edges[i];
        proof {
            assert(edges@.take(i + 1).drop_last() =~= edges@.take(i as int));
            assert(edges@.take(i + 1) =~= edges@.take(i as int).push(edge));
            assert(edges@[i as int] == edge);
            assert(touched.contains(edge.left as int));
            assert(touched.contains(edge.right as int));
        }
        if dsu.union(edge) {
            forest.push(edge);
        }
        i = i + 1;
    }
    assert(edges@.take(i as int) =~= edges@);
    forest
}

impl ForestRun {
    /// Every edge lies between nodes of the run.
    pub open spec fn wf(&self) -> bool {
        graph::all_within(self.edges@, self.node_count as int)
    }

    /// The spanning forest of `edges`, within the budget.
    pub fn from_edges(node_count: u32, edges: Vec<Edge>, budget: EdgeBudget) -> (result: Result<
        ForestRun,
        ReduceError,
    >)
        ensures
            is_forest_result(result, node_count, forest_outcome(node_count, edges@, budget)),
            result matches Ok(run) ==> run.wf() && graph::same_connectivity(run.edges@, edges@),
    {
        Self::from_edges_with_sort(node_count, edges, budget, true)
    }

    /// As [`ForestRun::from_edges`]; `parallel_sort` allows the thread pool.
    pub fn from_edges_with_sort(
        node_count: u32,
        edges: Vec<Edge>,
        budget: EdgeBudget,
        parallel_sort: bool,
    ) -> (result: Result<ForestRun, ReduceError>)
        ensures
            is_forest_result(result, node_count, forest_outcome(node_count, edges@, budget)),
            result matches Ok(run) ==> run.wf() && graph::same_connectivity(run.edges@, edges@),
    {
        let mut dsu = Dsu::new(node_count);
        Self::from_edges_with_dsu(node_count, edges, budget, parallel_sort, &mut dsu)
    }

    /// As [`ForestRun::from_edges`], on a union-find that keeps every node alone. Afterwards
    /// only endpoints of the edges may have been joined.
    pub fn from_edges_with_dsu(
        node_count: u32,
        edges: Vec<Edge>,
        budget: EdgeBudget,
        parallel_sort: bool,
        dsu: &mut Dsu,
    ) -> (result: Result<ForestRun, ReduceError>)
        requires
            old(dsu).parent@.len() == node_count,
            dsu::is_discrete(old(dsu).parent@),
        ensures
            is_forest_result(result, node_count, forest_outcome(node_count, edges@, budget)),
            result matches Ok(run) ==> run.wf() && graph::same_connectivity(run.edges@, edges@),
            final(dsu).parent@.len() == node_count,
            final(dsu).wf(),
            dsu::confined(final(dsu).parent@, endpoints(edges@)),
    {
        let (proper, ordered) = canonicalize(&edges, parallel_sort);
        if let Err(error) = check("buffer_bytes", edge_bytes(proper), budget.max_buffer_bytes) {
            return Err(error);
        }
        if let Some(endpoint) = find_outside(&ordered, node_count) {
            return Err(ReduceError::Endpoint { endpoint, node_count });
        }
        let forest = span(dsu, &ordered, node_count);
        proof {
            lemma_endpoints_of_members(ordered@, edges@);
            lemma_confined_within(dsu.parent@, endpoints(ordered@), endpoints(edges@));
            lemma_spanning_connectivity(ordered@);
            lemma_canonical_connectivity(edges@, ordered@);
        }
        if let Err(error) = check("run_edges", forest.len() as u64, budget.max_run_edges) {
            return Err(error);
        }
        if let Err(error) = check("total_bytes", edge_bytes(forest.len()), budget.max_total_bytes) {
            return Err(error);
        }
        proof {
            assert forall|k: int| 0 <= k < forest@.len() implies (#[trigger] forest@[k]).within(
                node_count as int,
            ) by {
                assert(spanning_edges(ordered@).contains(forest@[k]));
                lemma_spanning_members(ordered@, forest@[k]);
                let at = ordered@.index_of(forest@[k]);
                assert(ordered@[at].within(node_count as int));
            }
            assert forall|a: int, b: int| #[trigger]
                graph::connected(forest@, a, b) <==> graph::connected(edges@, a, b) by {
                assert(graph::connected(forest@, a, b) <==> graph::connected(ordered@, a, b));
                assert(graph::connected(ordered@, a, b) <==> graph::connected(edges@, a, b));
            }
        }
        Ok(ForestRun { node_count, edges: forest })
    }
}

} // verus!
