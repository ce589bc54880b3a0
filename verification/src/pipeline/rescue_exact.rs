//! Rescued matches connect the same contracts, wherever memory made them be kept.

use crate::pipeline::atoms;
use crate::pipeline::collectors;
use crate::pipeline::compaction;
use crate::pipeline::expansion;
use crate::pipeline::rescue_edges;
use crate::pipeline::rescue_memory::MAX_RESCUE_GLOBAL_SORT_PAIRS;
use crate::pipeline::rescue_plan;
use crate::pipeline::rescue_plan::{RescueExecutionPlan, RescueMatches};
use crate::pipeline::rescue_scan::{RescuePlan, RescueSeeds};
use crate::pipeline::rescue_store;
use crate::pipeline::rescue_store::{RescueSpillWrite, RescueStore};
use crate::pipeline::submission;
use crate::reduce::graph;
use crate::reduce::graph::Edge;
use crate::snapshot::features::FeatureView;
use vstd::prelude::*;

verus! {

/// The edges that a rescue is to find: between the members of matched atoms, between matched
/// members of tokens, and those that need no scoring.
pub open spec fn rescued_edges<F: Fn(u32, u32) -> bool>(
    view: FeatureView,
    scorer: F,
    rescue: RescuePlan,
    seeds: RescueSeeds,
) -> Seq<Edge> {
    rescue_edges::atom_pair_edges(
        view,
        rescue_plan::atom_matches(
            view,
            scorer,
            seeds.atom_mask@,
            rescue.pair_atoms@,
            rescue.pair_atoms@.len() as int,
        ),
    ) + rescue_edges::contract_edges(
        rescue.shared_edges@ + rescue_plan::shared_matches(
            view,
            scorer,
            seeds.contract_mask@,
            view.token_member_offsets@.len() - 1,
        ),
    )
}

/// The edge is between members of the two atoms.
spec fn joins(view: FeatureView, pair: (u32, u32), edge: Edge) -> bool {
    expansion::direct_pairs(
        view,
        atoms::members_of(view, pair.0 as int),
        atoms::members_of(view, pair.1 as int),
    ).contains(edge)
}

/// Both have the same values.
spec fn same_values<T>(a: Seq<T>, b: Seq<T>) -> bool {
    forall|value: T| #[trigger] a.contains(value) <==> b.contains(value)
}

proof fn lemma_concat_contains<T>(a: Seq<T>, b: Seq<T>, value: T)
    ensures
        (a + b).contains(value) <==> a.contains(value) || b.contains(value),
{
    let all = a + b;
    if a.contains(value) {
        assert(all[a.index_of(value)] == value);
    }
    if b.contains(value) {
        assert(all[a.len() + b.index_of(value)] == value);
    }
    if all.contains(value) {
        let k = all.index_of(value);
        if k < a.len() {
            assert(a[k] == value);
        } else {
            assert(b[k - a.len()] == value);
        }
    }
}

proof fn lemma_concat_same<T>(a: Seq<T>, b: Seq<T>, c: Seq<T>, d: Seq<T>)
    requires
        same_values(a, c),
        same_values(b, d),
    ensures
        same_values(a + b, c + d),
{
    assert forall|value: T| #[trigger] (a + b).contains(value) <==> (c + d).contains(value) by {
        lemma_concat_contains(a, b, value);
        lemma_concat_contains(c, d, value);
        assert(a.contains(value) <==> c.contains(value));
        assert(b.contains(value) <==> d.contains(value));
    }
}

proof fn lemma_atom_edge(view: FeatureView, pairs: Seq<(u32, u32)>, edge: Edge)
    ensures
        rescue_edges::atom_pair_edges(view, pairs).contains(edge) <==> exists|pair: (u32, u32)|
            pairs.contains(pair) && #[trigger] joins(view, pair, edge),
    decreases pairs.len(),
{
    if pairs.len() > 0 {
        let rest = pairs.drop_last();
        let last = pairs.last();
        lemma_atom_edge(view, rest, edge);
        lemma_concat_contains(
            rescue_edges::atom_pair_edges(view, rest),
            expansion::direct_pairs(
                view,
                atoms::members_of(view, last.0 as int),
                atoms::members_of(view, last.1 as int),
            ),
            edge,
        );
        assert(pairs[pairs.len() - 1] == last);
        if rescue_edges::atom_pair_edges(view, rest).contains(edge) {
            let pair = choose|pair: (u32, u32)|
                rest.contains(pair) && #[trigger] joins(view, pair, edge);
            assert(pairs[rest.index_of(pair)] == pair);
        }
        if joins(view, last, edge) {
            assert(pairs.contains(last));
        }
        if exists|pair: (u32, u32)| pairs.contains(pair) && #[trigger] joins(view, pair, edge) {
            let pair = choose|pair: (u32, u32)|
                pairs.contains(pair) && #[trigger] joins(view, pair, edge);
            let k = pairs.index_of(pair);
            if k < rest.len() {
                assert(rest[k] == pair);
            }
        }
    }
}

proof fn lemma_contract_edge(pairs: Seq<(u32, u32)>, edge: Edge)
    ensures
        rescue_edges::contract_edges(pairs).contains(edge) <==> exists|pair: (u32, u32)|
            #[trigger] pairs.contains(pair) && Edge::between(pair.0, pair.1) == edge,
    decreases pairs.len(),
{
    if pairs.len() > 0 {
        let rest = pairs.drop_last();
        let last = pairs.last();
        lemma_contract_edge(rest, edge);
        let edges = rescue_edges::contract_edges(rest);
        let own = Edge::between(last.0, last.1);
        assert(rescue_edges::contract_edges(pairs) =~= edges + seq![own]);
        lemma_concat_contains(edges, seq![own], edge);
        assert(seq![own][0] == own);
        assert(pairs[pairs.len() - 1] == last);
        assert(pairs.contains(last));
        if edges.contains(edge) {
            let pair = choose|pair: (u32, u32)| #[trigger]
                rest.contains(pair) && Edge::between(pair.0, pair.1) == edge;
            assert(pairs[rest.index_of(pair)] == pair);
            assert(pairs.contains(pair));
        }
        if exists|pair: (u32, u32)| #[trigger]
            pairs.contains(pair) && Edge::between(pair.0, pair.1) == edge {
            let pair = choose|pair: (u32, u32)| #[trigger]
                pairs.contains(pair) && Edge::between(pair.0, pair.1) == edge;
            let k = pairs.index_of(pair);
            if k < rest.len() {
                assert(rest[k] == pair);
                assert(rest.contains(pair));
            }
        }
    }
}

proof fn lemma_same_atom_edges(view: FeatureView, a: Seq<(u32, u32)>, b: Seq<(u32, u32)>)
    requires
        same_values(a, b),
    ensures
        same_values(
            rescue_edges::atom_pair_edges(view, a),
            rescue_edges::atom_pair_edges(view, b),
        ),
{
    assert forall|edge: Edge| #[trigger]
        rescue_edges::atom_pair_edges(view, a).contains(edge) <==> rescue_edges::atom_pair_edges(
            view,
            b,
        ).contains(edge) by {
        lemma_atom_edge(view, a, edge);
        lemma_atom_edge(view, b, edge);
        if exists|pair: (u32, u32)| a.contains(pair) && #[trigger] joins(view, pair, edge) {
            let pair = choose|pair: (u32, u32)|
                a.contains(pair) && #[trigger] joins(view, pair, edge);
            assert(b.contains(pair));
        }
        if exists|pair: (u32, u32)| b.contains(pair) && #[trigger] joins(view, pair, edge) {
            let pair = choose|pair: (u32, u32)|
                b.contains(pair) && #[trigger] joins(view, pair, edge);
            assert(a.contains(pair));
        }
    }
}

proof fn lemma_same_contract_edges(a: Seq<(u32, u32)>, b: Seq<(u32, u32)>)
    requires
        same_values(a, b),
    ensures
        same_values(rescue_edges::contract_edges(a), rescue_edges::contract_edges(b)),
{
    assert forall|edge: Edge| #[trigger]
        rescue_edges::contract_edges(a).contains(edge) <==> rescue_edges::contract_edges(
            b,
        ).contains(edge) by {
        lemma_contract_edge(a, edge);
        lemma_contract_edge(b, edge);
        if exists|pair: (u32, u32)| #[trigger]
            a.contains(pair) && Edge::between(pair.0, pair.1) == edge {
            let pair = choose|pair: (u32, u32)| #[trigger]
                a.contains(pair) && Edge::between(pair.0, pair.1) == edge;
            assert(b.contains(pair));
        }
        if exists|pair: (u32, u32)| #[trigger]
            b.contains(pair) && Edge::between(pair.0, pair.1) == edge {
            let pair = choose|pair: (u32, u32)| #[trigger]
                b.contains(pair) && Edge::between(pair.0, pair.1) == edge;
            assert(a.contains(pair));
        }
    }
}

/// Chunks that hold the same values chunk by chunk hold the same values.
proof fn lemma_same_flat(a: Seq<Vec<(u32, u32)>>, b: Seq<Vec<(u32, u32)>>)
    requires
        a.len() == b.len(),
        forall|k: int|
            0 <= k < b.len() ==> rescue_store::is_ordered_set(a[k]@, #[trigger] b[k]@),
    ensures
        same_values(rescue_store::flat(a), rescue_store::flat(b)),
    decreases a.len(),
{
    if a.len() > 0 {
        assert forall|k: int| 0 <= k < b.drop_last().len() implies rescue_store::is_ordered_set(
            a.drop_last()[k]@,
            #[trigger] b.drop_last()[k]@,
        ) by {
            assert(rescue_store::is_ordered_set(a[k]@, b[k]@));
        }
        lemma_same_flat(a.drop_last(), b.drop_last());
        assert(rescue_store::is_ordered_set(a[a.len() - 1]@, b[b.len() - 1]@));
        assert forall|pair: (u32, u32)| #[trigger]
            a.last()@.contains(pair) <==> b.last()@.contains(pair) by {
            assert(b.last()@.contains(pair) <==> a.last()@.contains(pair));
        }
        lemma_concat_same(
            rescue_store::flat(a.drop_last()),
            a.last()@,
            rescue_store::flat(b.drop_last()),
            b.last()@,
        );
    }
}

/// Edges with the same members connect the same in every scope.
proof fn lemma_same_members_same_scopes(
    a: Seq<Edge>,
    b: Seq<Edge>,
    chains: Seq<u32>,
    chain_count: int,
)
    requires
        same_values(a, b),
    ensures
        submission::same_scopes(a, b, chains, chain_count),
{
    assert forall|scope: int| 0 <= scope implies #[trigger] submission::same_scope(
        a,
        b,
        chains,
        chain_count,
        scope,
    ) by {
        let one = collectors::scope_part(a, chains, chain_count, scope);
        let two = collectors::scope_part(b, chains, chain_count, scope);
        let keep = if scope == 0 {
            |edge: Edge| compaction::is_intra(chains, edge)
        } else if scope == 1 {
            |edge: Edge| !compaction::is_intra(chains, edge)
        } else {
            |edge: Edge|
                !compaction::is_intra(chains, edge) && compaction::pair_of(
                    chains,
                    chain_count,
                    edge,
                ) == scope - 2
        };
        assert(one == compaction::picked(a, keep));
        assert(two == compaction::picked(b, keep));
        assert forall|edge: Edge| #[trigger] one.contains(edge) <==> two.contains(edge) by {
            compaction::lemma_picked_members(a, keep, edge);
            compaction::lemma_picked_members(b, keep, edge);
            assert(a.contains(edge) <==> b.contains(edge));
        }
        assert forall|i: int| 0 <= i < one.len() implies two.contains(#[trigger] one[i]) by {
            assert(one.contains(one[i]));
        }
        assert forall|i: int| 0 <= i < two.len() implies one.contains(#[trigger] two[i]) by {
            assert(two.contains(two[i]));
        }
        graph::lemma_connectivity_of_members(one, two);
    }
}

/// A planned rescue submits the edges that it is to find, and no others, whether its matches
/// were sorted in memory, kept in chunks or spilled.
pub proof fn lemma_rescue_is_exact<F: Fn(u32, u32) -> bool>(
    view: FeatureView,
    scorer: F,
    rescue: RescuePlan,
    seeds: RescueSeeds,
    plan: RescueExecutionPlan,
    store: RescueStore,
    admitted: bool,
    spill: RescueSpillWrite,
    chain_count: int,
)
    requires
        store.wf(),
        rescue_plan::is_plan_of(plan, store, rescue, view, admitted),
        rescue_plan::holds_matches(store, view, scorer, rescue, seeds),
        rescue_plan::is_spill_of(spill, store),
    ensures
        submission::same_scopes(
            rescue_edges::plan_edges(view, plan.matches, rescue.shared_edges@, spill),
            rescued_edges(view, scorer, rescue, seeds),
            view.contract_chain@,
            chain_count,
        ),
{
    let base = rescue.shared_edges@;
    let atom_pairs = store.all_atom_pairs();
    let shared = store.all_shared_edges();
    let found = rescue_edges::plan_edges(view, plan.matches, base, spill);
    let all = rescued_edges(view, scorer, rescue, seeds);
    let atom_part = rescue_edges::atom_pair_edges(view, atom_pairs);
    let base_part = rescue_edges::contract_edges(base);
    let shared_part = rescue_edges::contract_edges(shared);
    rescue_edges::lemma_contract_edges_concat(base, shared);
    assert(all == atom_part + (base_part + shared_part));
    assert(atom_part + (base_part + shared_part) =~= atom_part + base_part + shared_part);
    match plan.matches {
        RescueMatches::Sorted { atom_pairs: sorted_pairs, shared_edges } => {
            assert forall|pair: (u32, u32)| #[trigger]
                sorted_pairs@.contains(pair) <==> atom_pairs.contains(pair) by {}
            assert forall|pair: (u32, u32)| #[trigger]
                shared_edges@.contains(pair) <==> (base + shared).contains(pair) by {}
            lemma_same_atom_edges(view, sorted_pairs@, atom_pairs);
            lemma_same_contract_edges(shared_edges@, base + shared);
            lemma_concat_same(
                rescue_edges::atom_pair_edges(view, sorted_pairs@),
                rescue_edges::contract_edges(shared_edges@),
                atom_part,
                base_part + shared_part,
            );
        },
        RescueMatches::Chunks { atom, shared: chunks } => {
            if rescue_plan::raw_matches(store, rescue) > MAX_RESCUE_GLOBAL_SORT_PAIRS {
                lemma_same_flat(store.shared_chunks@, chunks@);
                assert forall|pair: (u32, u32)| #[trigger]
                    rescue_store::flat(chunks@).contains(pair) <==> shared.contains(pair) by {
                    assert(rescue_store::flat(store.shared_chunks@).contains(pair)
                        <==> rescue_store::flat(chunks@).contains(pair));
                }
            }
            lemma_same_contract_edges(rescue_store::flat(chunks@), shared);
            lemma_concat_same(
                atom_part + base_part,
                rescue_edges::contract_edges(rescue_store::flat(chunks@)),
                atom_part + base_part,
                shared_part,
            );
        },
        RescueMatches::Spilled => {
            rescue_store::lemma_pairs_round_trip(
                atom_pairs,
                rescue_edges::decoded(spill.atom@),
            );
            rescue_store::lemma_pairs_round_trip(shared, rescue_edges::decoded(spill.shared@));
        },
    }
    lemma_same_members_same_scopes(found, all, view.contract_chain@, chain_count);
}

} // verus!
