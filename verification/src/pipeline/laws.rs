//! What the stages match, over the columns of a snapshot.

use crate::columns;
use crate::pipeline::atoms;
use crate::pipeline::catalog;
use crate::pipeline::catalog::RoutedJob;
use crate::pipeline::collectors;
use crate::pipeline::compaction;
use crate::pipeline::expansion;
use crate::pipeline::fallback;
use crate::pipeline::pairs;
use crate::pipeline::rescue_edges;
use crate::pipeline::rescue_exact;
use crate::pipeline::rescue_plan;
use crate::pipeline::rescue_scan;
use crate::pipeline::rescue_scan::{RescuePlan, RescueSeeds};
use crate::pipeline::run;
use crate::pipeline::run::{CatalogStage, RescueStage, SharedStage};
use crate::pipeline::shared;
use crate::pipeline::tokens;
use crate::reduce::graph::Edge;
use crate::scheduler::jobs::JobDescriptor;
use crate::snapshot::features::FeatureView;
use vstd::prelude::*;

verus! {

/// The edge stands for two contracts, the smaller one first.
pub open spec fn stands_for(edge: Edge, a: u32, b: u32) -> bool {
    &&& edge.left <= edge.right
    &&& (edge.left == a && edge.right == b) || (edge.left == b && edge.right == a)
}

/// No token stands in the rows of both contracts.
pub open spec fn have_no_common_token(view: FeatureView, a: u32, b: u32) -> bool {
    let offsets = view.contract_token_offsets@;
    let tokens = view.contract_tokens@;
    forall|x: int, y: int|
        offsets[a as int] <= x < offsets[a + 1] && offsets[b as int] <= y < offsets[b + 1]
            ==> #[trigger] tokens[x] != #[trigger] tokens[y]
}

/// The payload of the first contract of an atom.
pub open spec fn first_payload(view: FeatureView, atom: int) -> u32 {
    view.contract_payload@[view.fallback_atom_contracts@[view.fallback_atom_offsets@[atom] as int] as int]
}

proof fn lemma_no_common_token(view: FeatureView, a: u32, b: u32)
    requires
        tokens::tokens_sorted(view),
        a < view.contract_count(),
        b < view.contract_count(),
    ensures
        have_no_common_token(view, a, b) <==> !tokens::share_token(view, a as int, b as int),
{
    let offsets = view.contract_token_offsets@;
    let values = view.contract_tokens@;
    columns::lemma_row_bounds(offsets, values.len(), a as int);
    columns::lemma_row_bounds(offsets, values.len(), b as int);
    let one = tokens::tokens_of(view, a as int);
    let two = tokens::tokens_of(view, b as int);
    if tokens::share_token(view, a as int, b as int) {
        let token = choose|token: u32| #[trigger] one.contains(token) && two.contains(token);
        let x = offsets[a as int] + one.index_of(token);
        let y = offsets[b as int] + two.index_of(token);
        assert(values[x] == values[y]);
    }
    if !have_no_common_token(view, a, b) {
        let (x, y) = choose|x: int, y: int|
            offsets[a as int] <= x < offsets[a + 1] && offsets[b as int] <= y < offsets[b + 1]
                && #[trigger] values[x] == #[trigger] values[y];
        assert(one[x - offsets[a as int]] == values[x]);
        assert(two[y - offsets[b as int]] == values[y]);
        assert(one.contains(values[x]) && two.contains(values[x]));
    }
}

proof fn lemma_between(edge: Edge, a: u32, b: u32)
    ensures
        stands_for(edge, a, b) <==> edge == Edge::between(a, b),
{
}

/// Two contracts, one of each side, are different, have no token in common, and are those of the
/// edge.
pub open spec fn is_direct_pair(view: FeatureView, edge: Edge, a: u32, b: u32) -> bool {
    a != b && have_no_common_token(view, a, b) && stands_for(edge, a, b)
}

proof fn lemma_direct_row(
    view: FeatureView,
    left: u32,
    right: Seq<u32>,
    count: int,
    edge: Edge,
)
    requires
        tokens::tokens_sorted(view),
        left < view.contract_count(),
        tokens::are_contracts(view, right),
        0 <= count <= right.len(),
    ensures
        expansion::direct_row(view, left, right, count).contains(edge) <==> exists|j: int|
            0 <= j < count && is_direct_pair(view, edge, left, #[trigger] right[j]),
    decreases count,
{
    if count > 0 {
        lemma_direct_row(view, left, right, count - 1, edge);
        let other = right[count - 1];
        let before = expansion::direct_row(view, left, right, count - 1);
        lemma_no_common_token(view, left, other);
        lemma_between(edge, left, other);
        if expansion::is_direct(view, left, other) {
            let all = before.push(Edge::between(left, other));
            assert(all =~= before + seq![Edge::between(left, other)]);
            shared::lemma_concat_holds(before, seq![Edge::between(left, other)], edge);
            assert(seq![Edge::between(left, other)][0] == Edge::between(left, other));
        }
    }
}

proof fn lemma_direct_rows(
    view: FeatureView,
    left: Seq<u32>,
    right: Seq<u32>,
    count: int,
    edge: Edge,
)
    requires
        tokens::tokens_sorted(view),
        tokens::are_contracts(view, left),
        tokens::are_contracts(view, right),
        0 <= count <= left.len(),
    ensures
        expansion::direct_rows(view, left, right, count).contains(edge) <==> exists|i: int, j: int|
            0 <= i < count && 0 <= j < right.len() && is_direct_pair(
                view,
                edge,
                #[trigger] left[i],
                #[trigger] right[j],
            ),
    decreases count,
{
    if count > 0 {
        lemma_direct_rows(view, left, right, count - 1, edge);
        let own = left[count - 1];
        lemma_direct_row(view, own, right, right.len() as int, edge);
        shared::lemma_concat_holds(
            expansion::direct_rows(view, left, right, count - 1),
            expansion::direct_row(view, own, right, right.len() as int),
            edge,
        );
        if expansion::direct_row(view, own, right, right.len() as int).contains(edge) {
            let j = choose|j: int|
                0 <= j < right.len() && is_direct_pair(view, edge, own, #[trigger] right[j]);
            assert(is_direct_pair(view, edge, left[count - 1], right[j]));
        }
    }
}

/// The direct edges between two sides are those of the pairs of different contracts, one of each
/// side, that have no token in common: all of them, and no others.
pub proof fn lemma_direct_pairs(view: FeatureView, left: Seq<u32>, right: Seq<u32>, edge: Edge)
    requires
        tokens::tokens_sorted(view),
        tokens::are_contracts(view, left),
        tokens::are_contracts(view, right),
    ensures
        expansion::direct_pairs(view, left, right).contains(edge) <==> exists|i: int, j: int|
            0 <= i < left.len() && 0 <= j < right.len() && is_direct_pair(
                view,
                edge,
                #[trigger] left[i],
                #[trigger] right[j],
            ),
{
    lemma_direct_rows(view, left, right, left.len() as int, edge);
}

/// Positions `x` and `y` of the column of atoms' contracts stand in the rows of two atoms, and
/// the edge is that of the two contracts, which are different and have no token in common.
pub open spec fn is_atom_edge(
    view: FeatureView,
    edge: Edge,
    a: int,
    b: int,
    x: int,
    y: int,
) -> bool {
    let offsets = view.fallback_atom_offsets@;
    let contracts = view.fallback_atom_contracts@;
    &&& offsets[a] <= x < offsets[a + 1]
    &&& offsets[b] <= y < offsets[b + 1]
    &&& is_direct_pair(view, edge, contracts[x], contracts[y])
}

/// The edge joins a contract of the one atom to a contract of the other.
pub open spec fn joins_atoms(view: FeatureView, edge: Edge, a: int, b: int) -> bool {
    exists|x: int, y: int| #[trigger] is_atom_edge(view, edge, a, b, x, y)
}

proof fn lemma_joins_atoms(view: FeatureView, edge: Edge, a: int, b: int)
    requires
        tokens::tokens_sorted(view),
        atoms::atoms_sorted(view),
        0 <= a < atoms::atom_count(view),
        0 <= b < atoms::atom_count(view),
    ensures
        joins_atoms(view, edge, a, b) <==> expansion::direct_pairs(
            view,
            atoms::members_of(view, a),
            atoms::members_of(view, b),
        ).contains(edge),
        first_payload(view, a) == atoms::payload_of(view, a),
{
    let offsets = view.fallback_atom_offsets@;
    let contracts = view.fallback_atom_contracts@;
    let left = atoms::members_of(view, a);
    let right = atoms::members_of(view, b);
    columns::lemma_row_bounds(offsets, contracts.len(), a);
    columns::lemma_row_bounds(offsets, contracts.len(), b);
    assert(atoms::is_sorted_atom(view, a));
    atoms::lemma_members_known(view, a);
    atoms::lemma_members_known(view, b);
    lemma_direct_pairs(view, left, right, edge);
    if joins_atoms(view, edge, a, b) {
        let (x, y) = choose|x: int, y: int| #[trigger] is_atom_edge(view, edge, a, b, x, y);
        assert(left[x - offsets[a]] == contracts[x]);
        assert(right[y - offsets[b]] == contracts[y]);
    }
    if expansion::direct_pairs(view, left, right).contains(edge) {
        let (i, j) = choose|i: int, j: int|
            0 <= i < left.len() && 0 <= j < right.len() && is_direct_pair(
                view,
                edge,
                #[trigger] left[i],
                #[trigger] right[j],
            );
        assert(is_atom_edge(view, edge, a, b, offsets[a] + i, offsets[b] + j));
    }
}

proof fn lemma_direct_edges(view: FeatureView, members: Seq<u32>, count: int, edge: Edge)
    requires
        tokens::tokens_sorted(view),
        tokens::are_contracts(view, members),
        members.len() <= u32::MAX,
        0 <= count <= pairs::all_pairs(members.len() as int).len(),
    ensures
        fallback::direct_edges(view, members, count).contains(edge) <==> exists|k: int|
            0 <= k < count && ({
                let pair = #[trigger] pairs::all_pairs(members.len() as int)[k];
                let a = members[pair.0 as int];
                let b = members[pair.1 as int];
                have_no_common_token(view, a, b) && stands_for(edge, a, b)
            }),
    decreases count,
{
    if count > 0 {
        let n = members.len() as int;
        lemma_direct_edges(view, members, count - 1, edge);
        pairs::lemma_pairs_ordered(n, n, count - 1);
        let pair = pairs::all_pairs(n)[count - 1];
        let a = members[pair.0 as int];
        let b = members[pair.1 as int];
        let before = fallback::direct_edges(view, members, count - 1);
        lemma_no_common_token(view, a, b);
        lemma_between(edge, a, b);
        if !tokens::share_token(view, a as int, b as int) {
            assert(before.push(Edge::between(a, b)) =~= before + seq![Edge::between(a, b)]);
            shared::lemma_concat_holds(before, seq![Edge::between(a, b)], edge);
            assert(seq![Edge::between(a, b)][0] == Edge::between(a, b));
        }
    }
}

/// The matches within atoms are the pairs of different contracts of one atom that have no token
/// in common: all of them, and no others.
pub proof fn lemma_fallback_matches(view: FeatureView, count: int, edge: Edge)
    requires
        tokens::tokens_sorted(view),
        atoms::atoms_sorted(view),
        0 <= count <= atoms::atom_count(view),
    ensures
        fallback::fallback_edges(view, count).contains(edge) <==> exists|atom: int|
            0 <= atom < count && #[trigger] joins_atoms(view, edge, atom, atom),
    decreases count,
{
    if count > 0 {
        lemma_fallback_matches(view, count - 1, edge);
        let own = count - 1;
        let members = atoms::members_of(view, own);
        let n = members.len() as int;
        let pairs_len = pairs::all_pairs(n).len() as int;
        let direct = fallback::direct_edges(view, members, pairs_len);
        atoms::lemma_members_known(view, own);
        lemma_direct_edges(view, members, pairs_len, edge);
        lemma_joins_atoms(view, edge, own, own);
        lemma_direct_pairs(view, members, members, edge);
        shared::lemma_concat_holds(fallback::fallback_edges(view, own), direct, edge);
        if direct.contains(edge) {
            let k = choose|k: int|
                0 <= k < pairs_len && ({
                    let pair = #[trigger] pairs::all_pairs(n)[k];
                    let a = members[pair.0 as int];
                    let b = members[pair.1 as int];
                    have_no_common_token(view, a, b) && stands_for(edge, a, b)
                });
            pairs::lemma_pairs_ordered(n, n, k);
            let pair = pairs::all_pairs(n)[k];
            assert(members[pair.0 as int] < members[pair.1 as int]);
            assert(is_direct_pair(view, edge, members[pair.0 as int], members[pair.1 as int]));
        }
        if joins_atoms(view, edge, own, own) {
            let (i, j) = choose|i: int, j: int|
                0 <= i < n && 0 <= j < n && is_direct_pair(
                    view,
                    edge,
                    #[trigger] members[i],
                    #[trigger] members[j],
                );
            let a = if i < j {
                i
            } else {
                j
            };
            let b = if i < j {
                j
            } else {
                i
            };
            assert(i != j);
            lemma_token_symmetry(view, members[i], members[j]);
            pairs::lemma_pair_position(a, b, n);
            let at = pairs::pair_position(a, b, n);
            assert(pairs::all_pairs(n)[at] == (a as u32, b as u32));
        }
    }
}

proof fn lemma_token_symmetry(view: FeatureView, a: u32, b: u32)
    ensures
        have_no_common_token(view, a, b) <==> have_no_common_token(view, b, a),
{
    let offsets = view.contract_token_offsets@;
    let tokens = view.contract_tokens@;
    if have_no_common_token(view, a, b) {
        assert forall|x: int, y: int|
            offsets[b as int] <= x < offsets[b + 1] && offsets[a as int] <= y < offsets[a
                + 1] implies #[trigger] tokens[x] != #[trigger] tokens[y] by {
            assert(tokens[y] != tokens[x]);
        }
    }
    if have_no_common_token(view, b, a) {
        assert forall|x: int, y: int|
            offsets[a as int] <= x < offsets[a + 1] && offsets[b as int] <= y < offsets[b
                + 1] implies #[trigger] tokens[x] != #[trigger] tokens[y] by {
            assert(tokens[y] != tokens[x]);
        }
    }
}

/// Pair `p` of job `k` is accepted by the scorer, asked with templates known to match exactly
/// where the job fans out from a tile, and the edge joins its two atoms.
pub open spec fn is_catalog_match<F: Fn(u32, u32, bool) -> bool>(
    view: FeatureView,
    scorer: F,
    jobs: Seq<JobDescriptor>,
    order: Seq<u32>,
    routed: Seq<RoutedJob>,
    edge: Edge,
    k: int,
    p: int,
) -> bool {
    let pair = routed[k].pairs@[p];
    &&& 0 <= order[k] < jobs.len()
    &&& 0 <= p < routed[k].pairs@.len()
    &&& call_ensures(
        scorer,
        (
            first_payload(view, pair.0 as int),
            first_payload(view, pair.1 as int),
            jobs[order[k] as int].shape is LeftTileFanout,
        ),
        true,
    )
    &&& joins_atoms(view, edge, pair.0 as int, pair.1 as int)
}

proof fn lemma_matched_concat<F: Fn(u32, u32, bool) -> bool>(
    view: FeatureView,
    scorer: F,
    a: Seq<(u32, u32, bool)>,
    b: Seq<(u32, u32, bool)>,
    edge: Edge,
)
    ensures
        catalog::matched_edges(view, scorer, a + b).contains(edge) <==> catalog::matched_edges(
            view,
            scorer,
            a,
        ).contains(edge) || exists|q: int|
            0 <= q < b.len() && catalog::pair_edges(
                view,
                scorer,
                (#[trigger] b[q]).0,
                b[q].1,
                b[q].2,
            ).contains(edge),
    decreases b.len(),
{
    let all = a + b;
    if b.len() == 0 {
        assert(all =~= a);
    } else {
        let rest = b.drop_last();
        let last = b.last();
        lemma_matched_concat(view, scorer, a, rest, edge);
        assert(all.drop_last() =~= a + rest);
        shared::lemma_concat_holds(
            catalog::matched_edges(view, scorer, a + rest),
            catalog::pair_edges(view, scorer, last.0, last.1, last.2),
            edge,
        );
        if exists|q: int|
            0 <= q < rest.len() && catalog::pair_edges(
                view,
                scorer,
                (#[trigger] rest[q]).0,
                rest[q].1,
                rest[q].2,
            ).contains(edge) {
            let q = choose|q: int|
                0 <= q < rest.len() && catalog::pair_edges(
                    view,
                    scorer,
                    (#[trigger] rest[q]).0,
                    rest[q].1,
                    rest[q].2,
                ).contains(edge);
            assert(b[q] == rest[q]);
        }
        if exists|q: int|
            0 <= q < b.len() && catalog::pair_edges(
                view,
                scorer,
                (#[trigger] b[q]).0,
                b[q].1,
                b[q].2,
            ).contains(edge) {
            let q = choose|q: int|
                0 <= q < b.len() && catalog::pair_edges(
                    view,
                    scorer,
                    (#[trigger] b[q]).0,
                    b[q].1,
                    b[q].2,
                ).contains(edge);
            if q < rest.len() {
                assert(rest[q] == b[q]);
            }
        }
        assert(b[b.len() - 1] == last);
    }
}

/// The matches of the catalog are the edges between the contracts of the routed pairs of atoms
/// that the scorer accepts. It is asked with templates known to match exactly for the pairs of
/// jobs that fan out from a tile. All such edges are matches, and no others.
pub proof fn lemma_catalog_matches<F: Fn(u32, u32, bool) -> bool>(
    view: FeatureView,
    scorer: F,
    jobs: Seq<JobDescriptor>,
    order: Seq<u32>,
    routed: Seq<RoutedJob>,
    count: int,
    edge: Edge,
)
    requires
        tokens::tokens_sorted(view),
        atoms::atoms_sorted(view),
        routed.len() == order.len(),
        0 <= count <= order.len(),
        forall|k: int|
            0 <= k < routed.len() ==> catalog::are_atom_pairs(view, (#[trigger] routed[k]).pairs@),
    ensures
        catalog::matched_edges(
            view,
            scorer,
            catalog::candidates(jobs, order, routed, count),
        ).contains(edge) <==> exists|k: int, p: int|
            0 <= k < count && #[trigger] is_catalog_match(
                view,
                scorer,
                jobs,
                order,
                routed,
                edge,
                k,
                p,
            ),
    decreases count,
{
    if count > 0 {
        let own = count - 1;
        lemma_catalog_matches(view, scorer, jobs, order, routed, own, edge);
        if order[own] < jobs.len() {
            let before = catalog::candidates(jobs, order, routed, own);
            let pairs = routed[own].pairs@;
            let proven = catalog::is_proven(jobs[order[own] as int]);
            let some = catalog::job_candidates(pairs, proven);
            assert(catalog::are_atom_pairs(view, routed[own].pairs@));
            lemma_matched_concat(view, scorer, before, some, edge);
            assert forall|p: int| 0 <= p < pairs.len() implies (catalog::pair_edges(
                view,
                scorer,
                (#[trigger] some[p]).0,
                some[p].1,
                some[p].2,
            ).contains(edge) <==> is_catalog_match(
                view,
                scorer,
                jobs,
                order,
                routed,
                edge,
                own,
                p,
            )) by {
                assert(pairs[p].0 < atoms::atom_count(view));
                lemma_joins_atoms(view, edge, pairs[p].0 as int, pairs[p].1 as int);
                lemma_joins_atoms(view, edge, pairs[p].1 as int, pairs[p].0 as int);
            }
            if exists|q: int|
                0 <= q < some.len() && catalog::pair_edges(
                    view,
                    scorer,
                    (#[trigger] some[q]).0,
                    some[q].1,
                    some[q].2,
                ).contains(edge) {
                let q = choose|q: int|
                    0 <= q < some.len() && catalog::pair_edges(
                        view,
                        scorer,
                        (#[trigger] some[q]).0,
                        some[q].1,
                        some[q].2,
                    ).contains(edge);
                assert(is_catalog_match(view, scorer, jobs, order, routed, edge, own, q));
            }
            if exists|k: int, p: int|
                0 <= k < count && #[trigger] is_catalog_match(
                    view,
                    scorer,
                    jobs,
                    order,
                    routed,
                    edge,
                    k,
                    p,
                ) {
                let (k, p) = choose|k: int, p: int|
                    0 <= k < count && #[trigger] is_catalog_match(
                        view,
                        scorer,
                        jobs,
                        order,
                        routed,
                        edge,
                        k,
                        p,
                    );
                if k == own {
                    assert(some[p].0 == pairs[p].0);
                }
            }
        }
    }
}

/// The payload at a position of the column of token members.
pub open spec fn payload_at(view: FeatureView, x: int) -> u32 {
    view.source_to_payload@[view.token_member_sources@[x] as int]
}

/// The scorer accepts two payloads, asked in one of their orders.
pub open spec fn accepts<F: Fn(u32, u32) -> bool>(scorer: F, a: u32, b: u32) -> bool {
    call_ensures(scorer, (a, b), true) || call_ensures(scorer, (b, a), true)
}

/// Positions `x` and `y` of the column of token members hold different contracts, the scorer
/// accepts their payloads, and the edge is theirs. Chains play no part.
pub open spec fn is_member_match<F: Fn(u32, u32) -> bool>(
    view: FeatureView,
    scorer: F,
    edge: Edge,
    x: int,
    y: int,
) -> bool {
    let contracts = view.token_member_contracts@;
    &&& contracts[x] != contracts[y]
    &&& accepts(scorer, payload_at(view, x), payload_at(view, y))
    &&& stands_for(edge, contracts[x], contracts[y])
}

/// Only the routed pairs of a token are visited: it has many members, and their index fits.
pub open spec fn goes_by_routes(view: FeatureView, token: int, budget: u64) -> bool {
    let offsets = view.token_member_offsets@;
    offsets[token + 1] - offsets[token] >= 256
        && shared::group_bytes(view, token) <= budget
}

/// Two members of a token are one of its routed pairs.
pub open spec fn are_routed(routes: Seq<(u32, u32)>, i: int, j: int) -> bool {
    exists|k: int| 0 <= k < routes.len() && (#[trigger] routes[k]).0 == i && routes[k].1 == j
}

/// Positions `x` and `y` are of one token, are visited, and match.
pub open spec fn is_token_match<F: Fn(u32, u32) -> bool>(
    view: FeatureView,
    scorer: F,
    routes: Seq<Vec<(u32, u32)>>,
    budget: u64,
    edge: Edge,
    token: int,
    x: int,
    y: int,
) -> bool {
    let offsets = view.token_member_offsets@;
    &&& offsets[token] <= x < offsets[token + 1]
    &&& offsets[token] <= y < offsets[token + 1]
    &&& goes_by_routes(view, token, budget) ==> are_routed(
        routes[token]@,
        x - offsets[token],
        y - offsets[token],
    )
    &&& is_member_match(view, scorer, edge, x, y)
}

proof fn lemma_member_edge<F: Fn(u32, u32) -> bool>(
    view: FeatureView,
    scorer: F,
    token: int,
    i: int,
    j: int,
    edge: Edge,
)
    ensures
        shared::member_edge(view, scorer, token, i, j).contains(edge) <==> is_member_match(
            view,
            scorer,
            edge,
            view.token_member_offsets@[token] + i,
            view.token_member_offsets@[token] + j,
        ),
{
    let a = shared::member_contract(view, token, i);
    let b = shared::member_contract(view, token, j);
    lemma_between(edge, a, b);
    assert(seq![Edge::between(a, b)][0] == Edge::between(a, b));
}

/// The matches of tokens are the edges between two members of one token whose contracts differ
/// and whose payloads the scorer accepts, whatever their chains: of all pairs of members or,
/// where a token has many members and their index fits, of its routed pairs. All such edges are
/// matches, and no others.
pub proof fn lemma_token_matches<F: Fn(u32, u32) -> bool>(
    view: FeatureView,
    scorer: F,
    routes: Seq<Vec<(u32, u32)>>,
    budget: u64,
    count: int,
    edge: Edge,
)
    requires
        shared::has_members(view),
        0 <= count < view.token_member_offsets@.len(),
        count <= routes.len(),
        forall|token: int|
            0 <= token < count ==> shared::are_member_pairs(view, token, #[trigger] routes[token]@),
    ensures
        shared::shared_edges(view, scorer, routes, budget, count).contains(edge) <==> exists|
            token: int,
            x: int,
            y: int,
        |
            0 <= token < count && #[trigger] is_token_match(
                view,
                scorer,
                routes,
                budget,
                edge,
                token,
                x,
                y,
            ),
    decreases count,
{
    if count > 0 {
        let own = count - 1;
        let offsets = view.token_member_offsets@;
        let begin = offsets[own] as int;
        let n = shared::group_len(view, own);
        let list = routes[own]@;
        lemma_token_matches(view, scorer, routes, budget, own, edge);
        columns::lemma_row_bounds(offsets, view.token_member_contracts@.len(), own);
        shared::lemma_concat_holds(
            shared::shared_edges(view, scorer, routes, budget, own),
            shared::token_edges(view, scorer, own, list, budget),
            edge,
        );
        shared::lemma_member_rows_hold(view, scorer, own, n, edge);
        shared::lemma_routed_hold(view, scorer, own, list, list.len() as int, edge);
        assert(shared::are_member_pairs(view, own, routes[own]@));
        if shared::token_edges(view, scorer, own, list, budget).contains(edge) {
            if goes_by_routes(view, own, budget) {
                let k = choose|k: int|
                    0 <= k < list.len() && shared::member_edge(
                        view,
                        scorer,
                        own,
                        (#[trigger] list[k]).0 as int,
                        list[k].1 as int,
                    ).contains(edge);
                let x = begin + list[k].0;
                let y = begin + list[k].1;
                lemma_member_edge(view, scorer, own, list[k].0 as int, list[k].1 as int, edge);
                assert(are_routed(list, x - begin, y - begin));
                assert(is_token_match(view, scorer, routes, budget, edge, own, x, y));
            } else {
                let (i, j) = choose|i: int, j: int|
                    0 <= i < n && i < j < n && (#[trigger] shared::member_edge(
                        view,
                        scorer,
                        own,
                        i,
                        j,
                    )).contains(edge);
                lemma_member_edge(view, scorer, own, i, j, edge);
                assert(is_token_match(
                    view,
                    scorer,
                    routes,
                    budget,
                    edge,
                    own,
                    begin + i,
                    begin + j,
                ));
            }
        }
        if exists|token: int, x: int, y: int|
            0 <= token < count && #[trigger] is_token_match(
                view,
                scorer,
                routes,
                budget,
                edge,
                token,
                x,
                y,
            ) {
            let (token, x, y) = choose|token: int, x: int, y: int|
                0 <= token < count && #[trigger] is_token_match(
                    view,
                    scorer,
                    routes,
                    budget,
                    edge,
                    token,
                    x,
                    y,
                );
            if token == own {
                let i = x - begin;
                let j = y - begin;
                lemma_member_edge(view, scorer, own, i, j, edge);
                lemma_member_edge(view, scorer, own, j, i, edge);
                if goes_by_routes(view, own, budget) {
                    let k = choose|k: int|
                        0 <= k < list.len() && (#[trigger] list[k]).0 == i && list[k].1 == j;
                } else {
                    assert(i != j);
                    assert(shared::member_edge(view, scorer, own, i, j).contains(edge));
                    assert(shared::member_edge(view, scorer, own, j, i).contains(edge));
                }
            }
        }
    }
}

proof fn lemma_atom_row<F: Fn(u32, u32) -> bool>(
    view: FeatureView,
    scorer: F,
    mask: Seq<bool>,
    seed: u32,
    end: int,
    pair: (u32, u32),
)
    requires
        tokens::tokens_sorted(view),
        atoms::atoms_sorted(view),
        mask.len() == atoms::atom_count(view),
        seed < mask.len(),
        0 <= end <= mask.len() <= u32::MAX,
    ensures
        rescue_scan::atom_row(view, scorer, mask, seed, 0, end).contains(pair) <==> {
            &&& pair.0 == seed
            &&& pair.1 < end
            &&& pair.1 != seed
            &&& !(mask[pair.1 as int] && pair.1 < seed)
            &&& accepts(
                scorer,
                first_payload(view, pair.0 as int),
                first_payload(view, pair.1 as int),
            )
        },
    decreases end,
{
    if end > 0 {
        lemma_atom_row(view, scorer, mask, seed, end - 1, pair);
        let before = rescue_scan::atom_row(view, scorer, mask, seed, 0, end - 1);
        let other = (end - 1) as u32;
        let edge = Edge { left: 0, right: 0 };
        lemma_joins_atoms(view, edge, seed as int, other as int);
        lemma_joins_atoms(view, edge, other as int, seed as int);
        let all = before.push((seed, other));
        if before.contains(pair) {
            assert(all[before.index_of(pair)] == pair);
        }
        assert(all[before.len() as int] == (seed, other));
        if all.contains(pair) && !before.contains(pair) {
            let at = all.index_of(pair);
            if at < before.len() {
                assert(before[at] == pair);
            }
        }
    }
}

/// The rescued pairs of atoms: a seed with any other atom that the scorer accepts. Where both are
/// seeds the smaller one has the pair.
pub open spec fn is_rescued_pair<F: Fn(u32, u32) -> bool>(
    view: FeatureView,
    scorer: F,
    seeds: Seq<u32>,
    count: int,
    pair: (u32, u32),
) -> bool {
    &&& seeds.take(count).contains(pair.0)
    &&& pair.1 + 1 < view.fallback_atom_offsets@.len()
    &&& pair.0 != pair.1
    &&& seeds.contains(pair.1) ==> pair.0 < pair.1
    &&& accepts(scorer, first_payload(view, pair.0 as int), first_payload(view, pair.1 as int))
}

/// The rescue of atoms finds exactly the pairs of a seed and another atom that the scorer
/// accepts.
pub proof fn lemma_rescued_pairs<F: Fn(u32, u32) -> bool>(
    view: FeatureView,
    scorer: F,
    mask: Seq<bool>,
    seeds: Seq<u32>,
    count: int,
    pair: (u32, u32),
)
    requires
        tokens::tokens_sorted(view),
        atoms::atoms_sorted(view),
        mask.len() == atoms::atom_count(view) <= u32::MAX,
        columns::all_below(seeds, mask.len() as int),
        forall|atom: int|
            0 <= atom < mask.len() ==> (#[trigger] mask[atom] <==> seeds.contains(atom as u32)),
        0 <= count <= seeds.len(),
    ensures
        rescue_plan::atom_matches(view, scorer, mask, seeds, count).contains(pair)
            <==> is_rescued_pair(view, scorer, seeds, count, pair),
    decreases count,
{
    if count > 0 {
        let seed = seeds[count - 1];
        lemma_rescued_pairs(view, scorer, mask, seeds, count - 1, pair);
        assert(seed < mask.len());
        lemma_atom_row(view, scorer, mask, seed, mask.len() as int, pair);
        let before = rescue_plan::atom_matches(view, scorer, mask, seeds, count - 1);
        let own = rescue_scan::atom_row(view, scorer, mask, seed, 0, mask.len() as int);
        lemma_pairs_concat(before, own, pair);
        let few = seeds.take(count - 1);
        let more = seeds.take(count);
        if few.contains(pair.0) {
            assert(more[few.index_of(pair.0)] == pair.0);
        }
        assert(more[count - 1] == seed);
        if more.contains(pair.0) && !few.contains(pair.0) {
            let at = more.index_of(pair.0);
            if at < count - 1 {
                assert(few[at] == pair.0);
            }
        }
    }
}

/// Every pair of a seed and another atom that the scorer accepts is rescued, in one of its
/// orders.
pub proof fn lemma_rescue_is_complete<F: Fn(u32, u32) -> bool>(
    view: FeatureView,
    scorer: F,
    mask: Seq<bool>,
    seeds: Seq<u32>,
    seed: u32,
    other: u32,
)
    requires
        tokens::tokens_sorted(view),
        atoms::atoms_sorted(view),
        mask.len() == atoms::atom_count(view) <= u32::MAX,
        columns::all_below(seeds, mask.len() as int),
        forall|atom: int|
            0 <= atom < mask.len() ==> (#[trigger] mask[atom] <==> seeds.contains(atom as u32)),
        seeds.contains(seed),
        other + 1 < view.fallback_atom_offsets@.len(),
        other != seed,
        accepts(scorer, first_payload(view, seed as int), first_payload(view, other as int)),
    ensures
        ({
            let found = rescue_plan::atom_matches(
                view,
                scorer,
                mask,
                seeds,
                seeds.len() as int,
            );
            found.contains((seed, other)) || found.contains((other, seed))
        }),
{
    let count = seeds.len() as int;
    assert(seeds.take(count) =~= seeds);
    lemma_rescued_pairs(view, scorer, mask, seeds, count, (seed, other));
    lemma_rescued_pairs(view, scorer, mask, seeds, count, (other, seed));
}

proof fn lemma_pairs_concat(a: Seq<(u32, u32)>, b: Seq<(u32, u32)>, pair: (u32, u32))
    ensures
        (a + b).contains(pair) <==> a.contains(pair) || b.contains(pair),
{
    let all = a + b;
    if a.contains(pair) {
        assert(all[a.index_of(pair)] == pair);
    }
    if b.contains(pair) {
        assert(all[a.len() + b.index_of(pair)] == pair);
    }
    if all.contains(pair) {
        let at = all.index_of(pair);
        if at < a.len() {
            assert(a[at] == pair);
        } else {
            assert(b[at - a.len()] == pair);
        }
    }
}

/// Positions `x` and `y` are of one large token, `x` holds a seed, the scorer accepts the payloads,
/// and the pair is of the two contracts. Where both are seeds the smaller one has the pair.
pub open spec fn is_rescued_member<F: Fn(u32, u32) -> bool>(
    view: FeatureView,
    scorer: F,
    mask: Seq<bool>,
    token: int,
    x: int,
    y: int,
    pair: (u32, u32),
) -> bool {
    let offsets = view.token_member_offsets@;
    let contracts = view.token_member_contracts@;
    &&& offsets[token + 1] - offsets[token] >= 256
    &&& offsets[token] <= x < offsets[token + 1]
    &&& offsets[token] <= y < offsets[token + 1]
    &&& pair == (contracts[x], contracts[y])
    &&& mask[contracts[x] as int]
    &&& contracts[x] != contracts[y]
    &&& mask[contracts[y] as int] ==> contracts[x] < contracts[y]
    &&& accepts(scorer, payload_at(view, x), payload_at(view, y))
}

proof fn lemma_seed_row<F: Fn(u32, u32) -> bool>(
    view: FeatureView,
    scorer: F,
    mask: Seq<bool>,
    token: int,
    seed: int,
    end: int,
    pair: (u32, u32),
)
    requires
        0 <= end <= shared::group_len(view, token),
        0 <= seed < shared::group_len(view, token),
        shared::group_len(view, token) >= 256,
        mask[shared::member_contract(view, token, seed) as int],
    ensures
        rescue_scan::seed_row(view, scorer, mask, token, seed, 0, end).contains(pair) <==> exists|
            y: int,
        |
            view.token_member_offsets@[token] <= y < view.token_member_offsets@[token] + end
                && #[trigger] is_rescued_member(
                view,
                scorer,
                mask,
                token,
                view.token_member_offsets@[token] + seed,
                y,
                pair,
            ),
    decreases end,
{
    if end > 0 {
        let begin = view.token_member_offsets@[token] as int;
        lemma_seed_row(view, scorer, mask, token, seed, end - 1, pair);
        let before = rescue_scan::seed_row(view, scorer, mask, token, seed, 0, end - 1);
        let left = shared::member_contract(view, token, seed);
        let right = shared::member_contract(view, token, end - 1);
        let all = before.push((left, right));
        assert(all =~= before + seq![(left, right)]);
        lemma_pairs_concat(before, seq![(left, right)], pair);
        assert(seq![(left, right)][0] == (left, right));
        if rescue_scan::seed_row(view, scorer, mask, token, seed, 0, end).contains(pair)
            && !before.contains(pair) {
            assert(is_rescued_member(
                view,
                scorer,
                mask,
                token,
                begin + seed,
                begin + end - 1,
                pair,
            ));
        }
    }
}

proof fn lemma_token_rescue<F: Fn(u32, u32) -> bool>(
    view: FeatureView,
    scorer: F,
    mask: Seq<bool>,
    token: int,
    count: int,
    pair: (u32, u32),
)
    requires
        0 <= count <= shared::group_len(view, token),
        shared::group_len(view, token) >= 256,
    ensures
        rescue_plan::token_matches(view, scorer, mask, token, count).contains(pair) <==> exists|
            x: int,
            y: int,
        |
            x < view.token_member_offsets@[token] + count && #[trigger] is_rescued_member(
                view,
                scorer,
                mask,
                token,
                x,
                y,
                pair,
            ),
    decreases count,
{
    let begin = view.token_member_offsets@[token] as int;
    let n = shared::group_len(view, token);
    if count > 0 {
        let seed = count - 1;
        lemma_token_rescue(view, scorer, mask, token, seed, pair);
        if mask[shared::member_contract(view, token, seed) as int] {
            lemma_seed_row(view, scorer, mask, token, seed, n, pair);
            lemma_pairs_concat(
                rescue_plan::token_matches(view, scorer, mask, token, seed),
                rescue_scan::seed_row(view, scorer, mask, token, seed, 0, n),
                pair,
            );
        }
        if exists|x: int, y: int|
            x < begin + count && #[trigger] is_rescued_member(
                view,
                scorer,
                mask,
                token,
                x,
                y,
                pair,
            ) {
            let (x, y) = choose|x: int, y: int|
                x < begin + count && #[trigger] is_rescued_member(
                    view,
                    scorer,
                    mask,
                    token,
                    x,
                    y,
                    pair,
                );
            if x == begin + seed {
                assert(is_rescued_member(view, scorer, mask, token, begin + seed, y, pair));
            }
        }
    }
}

/// The rescue of contracts finds exactly the pairs of a seed and another member of one of its
/// large tokens that the scorer accepts.
pub proof fn lemma_rescued_members<F: Fn(u32, u32) -> bool>(
    view: FeatureView,
    scorer: F,
    mask: Seq<bool>,
    count: int,
    pair: (u32, u32),
)
    requires
        shared::has_members(view),
        0 <= count < view.token_member_offsets@.len(),
    ensures
        rescue_plan::shared_matches(view, scorer, mask, count).contains(pair) <==> exists|
            token: int,
            x: int,
            y: int,
        |
            0 <= token < count && #[trigger] is_rescued_member(
                view,
                scorer,
                mask,
                token,
                x,
                y,
                pair,
            ),
    decreases count,
{
    if count > 0 {
        let own = count - 1;
        let n = shared::group_len(view, own);
        lemma_rescued_members(view, scorer, mask, own, pair);
        columns::lemma_row_bounds(
            view.token_member_offsets@,
            view.token_member_contracts@.len(),
            own,
        );
        if n >= 256 {
            lemma_token_rescue(view, scorer, mask, own, n, pair);
            lemma_pairs_concat(
                rescue_plan::shared_matches(view, scorer, mask, own),
                rescue_plan::token_matches(view, scorer, mask, own, n),
                pair,
            );
            if rescue_plan::token_matches(view, scorer, mask, own, n).contains(pair) {
                let (x, y) = choose|x: int, y: int|
                    x < view.token_member_offsets@[own] + n && #[trigger] is_rescued_member(
                        view,
                        scorer,
                        mask,
                        own,
                        x,
                        y,
                        pair,
                    );
                assert(is_rescued_member(view, scorer, mask, own, x, y, pair));
            }
        }
    }
}

/// The edges of a scope are those that belong to it: within one chain to the first scope, between
/// different chains to the second, and between two chains to the scope of that pair. Every edge
/// is in the first scope or the second, and none in both.
pub proof fn lemma_scope_parts(
    edges: Seq<Edge>,
    chains: Seq<u32>,
    chain_count: int,
    pair: int,
    edge: Edge,
)
    requires
        0 <= chain_count <= u32::MAX,
        0 <= pair < pairs::all_pairs(chain_count).len(),
        edges.contains(edge) ==> edge.left < chains.len() && edge.right < chains.len()
            && chains[edge.left as int] < chain_count && chains[edge.right as int] < chain_count,
    ensures
        collectors::scope_part(edges, chains, chain_count, 0).contains(edge) <==> edges.contains(
            edge,
        ) && chains[edge.left as int] == chains[edge.right as int],
        collectors::scope_part(edges, chains, chain_count, 1).contains(edge) <==> edges.contains(
            edge,
        ) && chains[edge.left as int] != chains[edge.right as int],
        ({
            let (a, b) = pairs::all_pairs(chain_count)[pair];
            let left = chains[edge.left as int];
            let right = chains[edge.right as int];
            collectors::scope_part(edges, chains, chain_count, pair + 2).contains(edge)
                <==> edges.contains(edge) && ((left == a && right == b) || (left == b && right
                == a))
        }),
{
    let left = chains[edge.left as int] as int;
    let right = chains[edge.right as int] as int;
    compaction::lemma_picked_members(edges, |edge: Edge| compaction::is_intra(chains, edge), edge);
    compaction::lemma_picked_members(edges, |edge: Edge| !compaction::is_intra(chains, edge), edge);
    compaction::lemma_picked_members(
        edges,
        |edge: Edge|
            !compaction::is_intra(chains, edge) && compaction::pair_of(chains, chain_count, edge)
                == pair + 2 - 2,
        edge,
    );
    pairs::lemma_pairs_are_listed(
        chain_count,
        pairs::lesser(left, right),
        pairs::greater(left, right),
        pair,
    );
    let (a, b) = pairs::all_pairs(chain_count)[pair];
    pairs::lemma_pairs_are_listed(chain_count, a as int, b as int, pair);
    if edges.contains(edge) && left != right {
        let at = pairs::pair_position(
            pairs::lesser(left, right),
            pairs::greater(left, right),
            chain_count,
        );
        if at == pair {
            assert(pairs::all_pairs(chain_count)[at] == pairs::all_pairs(chain_count)[pair]);
        }
    }
}

proof fn lemma_atom_pair_edges(view: FeatureView, some: Seq<(u32, u32)>, edge: Edge)
    requires
        tokens::tokens_sorted(view),
        atoms::atoms_sorted(view),
        catalog::are_atom_pairs(view, some),
    ensures
        rescue_edges::atom_pair_edges(view, some).contains(edge) <==> exists|k: int|
            0 <= k < some.len() && joins_atoms(
                view,
                edge,
                (#[trigger] some[k]).0 as int,
                some[k].1 as int,
            ),
    decreases some.len(),
{
    if some.len() > 0 {
        let rest = some.drop_last();
        let last = some.last();
        assert(some[some.len() - 1] == last);
        assert forall|k: int| 0 <= k < rest.len() implies (#[trigger] rest[k]).0
            < atoms::atom_count(view) && rest[k].1 < atoms::atom_count(view) by {
            assert(rest[k] == some[k]);
        }
        lemma_atom_pair_edges(view, rest, edge);
        lemma_joins_atoms(view, edge, last.0 as int, last.1 as int);
        shared::lemma_concat_holds(
            rescue_edges::atom_pair_edges(view, rest),
            expansion::direct_pairs(
                view,
                atoms::members_of(view, last.0 as int),
                atoms::members_of(view, last.1 as int),
            ),
            edge,
        );
        if rescue_edges::atom_pair_edges(view, rest).contains(edge) {
            let k = choose|k: int|
                0 <= k < rest.len() && joins_atoms(
                    view,
                    edge,
                    (#[trigger] rest[k]).0 as int,
                    rest[k].1 as int,
                );
            assert(some[k] == rest[k]);
        }
        if exists|k: int|
            0 <= k < some.len() && joins_atoms(
                view,
                edge,
                (#[trigger] some[k]).0 as int,
                some[k].1 as int,
            ) {
            let k = choose|k: int|
                0 <= k < some.len() && joins_atoms(
                    view,
                    edge,
                    (#[trigger] some[k]).0 as int,
                    some[k].1 as int,
                );
            if k < rest.len() {
                assert(rest[k] == some[k]);
            }
        }
    }
}

proof fn lemma_contract_edges(some: Seq<(u32, u32)>, edge: Edge)
    ensures
        rescue_edges::contract_edges(some).contains(edge) <==> exists|k: int|
            0 <= k < some.len() && stands_for(edge, (#[trigger] some[k]).0, some[k].1),
    decreases some.len(),
{
    if some.len() > 0 {
        let rest = some.drop_last();
        let last = some.last();
        let own = Edge::between(last.0, last.1);
        assert(some[some.len() - 1] == last);
        lemma_contract_edges(rest, edge);
        lemma_between(edge, last.0, last.1);
        let before = rescue_edges::contract_edges(rest);
        assert(before.push(own) =~= before + seq![own]);
        shared::lemma_concat_holds(before, seq![own], edge);
        assert(seq![own][0] == own);
        if before.contains(edge) {
            let k = choose|k: int|
                0 <= k < rest.len() && stands_for(edge, (#[trigger] rest[k]).0, rest[k].1);
            assert(some[k] == rest[k]);
        }
        if exists|k: int|
            0 <= k < some.len() && stands_for(edge, (#[trigger] some[k]).0, some[k].1) {
            let k = choose|k: int|
                0 <= k < some.len() && stands_for(edge, (#[trigger] some[k]).0, some[k].1);
            if k < rest.len() {
                assert(rest[k] == some[k]);
            }
        }
    }
}

/// The edge joins the two atoms of a rescued pair.
pub open spec fn joins_rescued_atoms<F: Fn(u32, u32) -> bool>(
    view: FeatureView,
    scorer: F,
    seeds: Seq<u32>,
    edge: Edge,
) -> bool {
    exists|pair: (u32, u32)| #[trigger]
        is_rescued_pair(view, scorer, seeds, seeds.len() as int, pair) && joins_atoms(
            view,
            edge,
            pair.0 as int,
            pair.1 as int,
        )
}

/// The edge is that of a rescued pair of members of one token.
pub open spec fn joins_rescued_members<F: Fn(u32, u32) -> bool>(
    view: FeatureView,
    scorer: F,
    mask: Seq<bool>,
    edge: Edge,
) -> bool {
    exists|token: int, x: int, y: int, pair: (u32, u32)|
        0 <= token < view.token_member_offsets@.len() - 1 && #[trigger] is_rescued_member(
            view,
            scorer,
            mask,
            token,
            x,
            y,
            pair,
        ) && stands_for(edge, pair.0, pair.1)
}

/// The edges of a rescue: those between the contracts of rescued pairs of atoms, those that need
/// no scoring, and those of rescued members of tokens. All of them, and no others.
pub proof fn lemma_rescued_edges<F: Fn(u32, u32) -> bool>(
    view: FeatureView,
    scorer: F,
    rescue: RescuePlan,
    seeds: RescueSeeds,
    edge: Edge,
)
    requires
        tokens::tokens_sorted(view),
        atoms::atoms_sorted(view),
        shared::has_members(view),
        atoms::atom_count(view) <= u32::MAX,
        rescue_scan::are_seeds(seeds, rescue, view, atoms::atom_count(view)),
    ensures
        rescue_exact::rescued_edges(view, scorer, rescue, seeds).contains(edge) <==> {
            ||| joins_rescued_atoms(view, scorer, rescue.pair_atoms@, edge)
            ||| exists|k: int|
                0 <= k < rescue.shared_edges@.len() && stands_for(
                    edge,
                    (#[trigger] rescue.shared_edges@[k]).0,
                    rescue.shared_edges@[k].1,
                )
            ||| joins_rescued_members(view, scorer, seeds.contract_mask@, edge)
        },
{
    let atom_seeds = rescue.pair_atoms@;
    let mask = seeds.atom_mask@;
    let n = atom_seeds.len() as int;
    let tokens = view.token_member_offsets@.len() - 1;
    let found = rescue_plan::atom_matches(view, scorer, mask, atom_seeds, n);
    let base = rescue.shared_edges@;
    let members = rescue_plan::shared_matches(view, scorer, seeds.contract_mask@, tokens);
    assert forall|atom: int| 0 <= atom < mask.len() implies (#[trigger] mask[atom]
        <==> atom_seeds.contains(atom as u32)) by {
        if mask[atom] {
            let k = choose|k: int| 0 <= k < atom_seeds.len() && #[trigger] atom_seeds[k] == atom;
            assert(atom_seeds[k] == atom as u32);
        }
        if atom_seeds.contains(atom as u32) {
            assert(atom_seeds[atom_seeds.index_of(atom as u32)] == atom);
        }
    }
    assert(atom_seeds.take(n) =~= atom_seeds);
    assert forall|k: int| 0 <= k < found.len() implies (#[trigger] found[k]).0
        < atoms::atom_count(view) && found[k].1 < atoms::atom_count(view) by {
        assert(found.contains(found[k]));
        lemma_rescued_pairs(view, scorer, mask, atom_seeds, n, found[k]);
        let at = atom_seeds.index_of(found[k].0);
        assert(atom_seeds[at] < atoms::atom_count(view));
    }
    lemma_atom_pair_edges(view, found, edge);
    let base_edges = rescue_edges::contract_edges(base + members);
    shared::lemma_concat_holds(
        rescue_edges::atom_pair_edges(view, found),
        base_edges,
        edge,
    );
    rescue_edges::lemma_contract_edges_concat(base, members);
    shared::lemma_concat_holds(
        rescue_edges::contract_edges(base),
        rescue_edges::contract_edges(members),
        edge,
    );
    lemma_contract_edges(base, edge);
    lemma_contract_edges(members, edge);
    if rescue_edges::atom_pair_edges(view, found).contains(edge) {
        let k = choose|k: int|
            0 <= k < found.len() && joins_atoms(
                view,
                edge,
                (#[trigger] found[k]).0 as int,
                found[k].1 as int,
            );
        assert(found.contains(found[k]));
        lemma_rescued_pairs(view, scorer, mask, atom_seeds, n, found[k]);
        assert(is_rescued_pair(view, scorer, atom_seeds, n, found[k]));
    }
    if joins_rescued_atoms(view, scorer, atom_seeds, edge) {
        let pair = choose|pair: (u32, u32)| #[trigger]
            is_rescued_pair(view, scorer, atom_seeds, n, pair) && joins_atoms(
                view,
                edge,
                pair.0 as int,
                pair.1 as int,
            );
        lemma_rescued_pairs(view, scorer, mask, atom_seeds, n, pair);
        let k = found.index_of(pair);
        assert(found[k] == pair);
    }
    if rescue_edges::contract_edges(members).contains(edge) {
        let k = choose|k: int|
            0 <= k < members.len() && stands_for(edge, (#[trigger] members[k]).0, members[k].1);
        assert(members.contains(members[k]));
        lemma_rescued_members(view, scorer, seeds.contract_mask@, tokens, members[k]);
    }
    if joins_rescued_members(view, scorer, seeds.contract_mask@, edge) {
        let (token, x, y, pair) = choose|token: int, x: int, y: int, pair: (u32, u32)|
            0 <= token < tokens && #[trigger] is_rescued_member(
                view,
                scorer,
                seeds.contract_mask@,
                token,
                x,
                y,
                pair,
            ) && stands_for(edge, pair.0, pair.1);
        lemma_rescued_members(view, scorer, seeds.contract_mask@, tokens, pair);
        let k = members.index_of(pair);
        assert(members[k] == pair);
    }
}

/// The matches of a run are those within atoms, of the catalog, of tokens and of the rescue plan:
/// all of them, and no others.
pub proof fn lemma_all_matches<F: Fn(u32, u32, bool) -> bool, G: Fn(u32, u32) -> bool>(
    view: FeatureView,
    catalog: CatalogStage,
    shared: SharedStage,
    rescue: RescueStage,
    scorer: F,
    pair_scorer: G,
    chain_count: int,
    edge: Edge,
)
    requires
        run::stages_fit(view, chain_count, catalog, shared, rescue),
    ensures
        run::all_matches(view, catalog, shared, rescue, scorer, pair_scorer).contains(edge) <==> {
            ||| exists|atom: int|
                0 <= atom < view.fallback_atom_offsets@.len() - 1 && #[trigger] joins_atoms(
                    view,
                    edge,
                    atom,
                    atom,
                )
            ||| exists|k: int, p: int|
                0 <= k < catalog.order@.len() && #[trigger] is_catalog_match(
                    view,
                    scorer,
                    catalog.jobs@,
                    catalog.order@,
                    catalog.routed@,
                    edge,
                    k,
                    p,
                )
            ||| exists|token: int, x: int, y: int|
                0 <= token < view.token_member_offsets@.len() - 1 && #[trigger] is_token_match(
                    view,
                    pair_scorer,
                    shared.routes@,
                    shared.group_index_budget_bytes,
                    edge,
                    token,
                    x,
                    y,
                )
            ||| rescue_edges::plan_edges(
                view,
                rescue.plan.matches,
                rescue.base@,
                *rescue.spill,
            ).contains(edge)
        },
{
    let one = fallback::fallback_edges(view, atoms::atom_count(view));
    let two = run::catalog_matches(view, catalog, scorer);
    let three = run::shared_matches(view, shared, pair_scorer);
    let four = rescue_edges::plan_edges(
        view,
        rescue.plan.matches,
        rescue.base@,
        *rescue.spill,
    );
    lemma_fallback_matches(view, atoms::atom_count(view), edge);
    lemma_catalog_matches(
        view,
        scorer,
        catalog.jobs@,
        catalog.order@,
        catalog.routed@,
        catalog.order@.len() as int,
        edge,
    );
    lemma_token_matches(
        view,
        pair_scorer,
        shared.routes@,
        shared.group_index_budget_bytes,
        view.token_member_offsets@.len() - 1,
        edge,
    );
    shared::lemma_concat_holds(one, two, edge);
    shared::lemma_concat_holds(one + two, three, edge);
    shared::lemma_concat_holds(one + two + three, four, edge);
}

} // verus!
