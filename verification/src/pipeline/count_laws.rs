//! What is listed and counted along the way, over the columns.

use crate::pipeline::chains;
use crate::pipeline::chains::ChainContractIndex;
use crate::pipeline::collectors::ScopeForestRuns;
use crate::pipeline::connectivity;
use crate::pipeline::pairs;
use crate::pipeline::shared;
use crate::scheduler::catalog;
use crate::snapshot::features::FeatureView;
use crate::snapshot::metadata::MetadataSnapshot;
use vstd::prelude::*;

verus! {

proof fn lemma_members_rise(chain_of: Seq<u32>, chain: int, end: int)
    requires
        0 <= end <= chain_of.len() <= u32::MAX,
    ensures
        ({
            let listed = chains::members(chain_of, chain, end);
            &&& forall|i: int| 0 <= i < listed.len() ==> #[trigger] listed[i] < end
            &&& forall|i: int, j: int|
                0 <= i < j < listed.len() ==> #[trigger] listed[i] < #[trigger] listed[j]
        }),
    decreases end,
{
    if end > 0 {
        lemma_members_rise(chain_of, chain, end - 1);
        let before = chains::members(chain_of, chain, end - 1);
        let listed = chains::members(chain_of, chain, end);
        if chain_of[end - 1] == chain {
            assert(listed == before.push((end - 1) as u32));
        } else {
            assert(listed == before);
        }
    }
}

/// The index lists every contract in the row of its chain and in no other, rows rising.
pub proof fn lemma_chain_rows(
    index: ChainContractIndex,
    chain_of: Seq<u32>,
    chain_count: int,
    chain: int,
)
    requires
        index.lists(chain_of, chain_count),
        0 <= chain < chain_count,
    ensures
        ({
            let begin = index.offsets@[chain] as int;
            let end = index.offsets@[chain + 1] as int;
            let row = index.contracts@.subrange(begin, end);
            &&& 0 <= begin <= end <= chain_of.len()
            &&& forall|contract: u32|
                contract < chain_of.len() ==> (#[trigger] row.contains(contract)
                    <==> chain_of[contract as int] == chain)
            &&& forall|k: int| 0 <= k < row.len() ==> #[trigger] row[k] < chain_of.len()
            &&& forall|i: int, j: int|
                0 <= i < j < row.len() ==> #[trigger] row[i] < #[trigger] row[j]
        }),
{
    chains::lemma_index_rows(index, chain_of, chain_count, chain);
    let listed = chains::chain_members(chain_of, chain);
    lemma_members_rise(chain_of, chain, chain_of.len() as int);
    chains::lemma_member_ranks(chain_of, chain, chain_of.len() as int);
    assert forall|contract: u32| contract < chain_of.len() implies (#[trigger] listed.contains(
        contract,
    ) <==> chain_of[contract as int] == chain) by {
        if chain_of[contract as int] == chain {
            let at = chains::members(chain_of, chain, contract as int).len() as int;
            assert(listed[at] == contract);
        }
        if listed.contains(contract) {
            let at = choose|at: int| 0 <= at < listed.len() && listed[at] == contract;
            assert(chain_of[listed[at] as int] == chain);
        }
    }
}

/// The terms of the payloads of a token's first members.
pub open spec fn member_terms(view: FeatureView, token: int, count: int) -> int
    decreases count,
{
    if count <= 0 {
        0
    } else {
        let source = view.token_member_sources@[view.token_member_offsets@[token] + count - 1];
        let payload = view.source_to_payload@[source as int] as int;
        member_terms(view, token, count - 1) + (view.payload_template_offsets@[payload + 1]
            - view.payload_template_offsets@[payload]) + (view.payload_content_offsets@[payload + 1]
            - view.payload_content_offsets@[payload])
    }
}

/// No member has more terms than can be counted in bytes.
pub open spec fn has_small_members(view: FeatureView, token: int, count: int) -> bool {
    forall|member: int|
        0 <= member < count ==> shared::term_count(
            view,
            #[trigger] shared::member_payload(view, token, member) as int,
        ) < 0x1000_0000_0000_0000
}

proof fn lemma_members_bytes(view: FeatureView, token: int, count: int)
    requires
        0 <= count,
        has_small_members(view, token, count),
    ensures
        shared::members_bytes(view, token, count) == 256 * count + 8 * member_terms(
            view,
            token,
            count,
        ),
    decreases count,
{
    if count > 0 {
        lemma_members_bytes(view, token, count - 1);
    }
}

/// Routing a token takes 256 bytes for each member and eight for each of its terms, and nothing
/// for a token of fewer than 256 members.
pub proof fn lemma_routing_bytes(view: FeatureView, token: int)
    requires
        view.token_member_offsets@[token] <= view.token_member_offsets@[token + 1],
        has_small_members(view, token, shared::group_len(view, token)),
    ensures
        ({
            let n = view.token_member_offsets@[token + 1] - view.token_member_offsets@[token];
            shared::group_bytes(view, token) == (if n < 256 {
                0
            } else {
                256 * n + 8 * member_terms(view, token, n)
            })
        }),
{
    lemma_members_bytes(view, token, shared::group_len(view, token));
}

/// The greatest bytes that routing takes for a token are enough for every token, and no more
/// than one of them takes.
pub proof fn lemma_routing_bytes_are_greatest(view: FeatureView, count: int)
    requires
        0 < count,
        forall|token: int| 0 <= token < count ==> #[trigger] shared::group_bytes(view, token) >= 0,
    ensures
        forall|token: int|
            0 <= token < count ==> #[trigger] shared::group_bytes(view, token)
                <= shared::max_group_bytes(view, count),
        exists|token: int|
            0 <= token < count && #[trigger] shared::group_bytes(view, token)
                == shared::max_group_bytes(view, count),
    decreases count,
{
    let own = shared::group_bytes(view, count - 1);
    if count > 1 {
        lemma_routing_bytes_are_greatest(view, count - 1);
        let before = choose|token: int|
            0 <= token < count - 1 && #[trigger] shared::group_bytes(view, token)
                == shared::max_group_bytes(view, count - 1);
        assert(shared::group_bytes(view, before) == shared::max_group_bytes(view, count - 1));
    } else {
        assert(shared::max_group_bytes(view, 0) == 0);
        assert(own >= 0);
    }
}

/// The visits of a token are its routes where it is routed, and else every two of its members.
pub proof fn lemma_token_visits(
    view: FeatureView,
    routes: Seq<Vec<(u32, u32)>>,
    budget: u64,
    token: int,
)
    requires
        0 <= token,
    ensures
        ({
            let n = view.token_member_offsets@[token + 1] - view.token_member_offsets@[token];
            let visits = shared::shared_visits(view, routes, budget, token + 1)
                - shared::shared_visits(view, routes, budget, token);
            &&& shared::shared_visits(view, routes, budget, 0) == 0
            &&& n >= 256 && shared::group_bytes(view, token) <= budget ==> visits
                == routes[token]@.len()
            &&& n < 256 || shared::group_bytes(view, token) > budget ==> 2 * visits + n == n * n
        }),
{
    let n = view.token_member_offsets@[token + 1] - view.token_member_offsets@[token];
    lemma_pairs_of(n);
}

proof fn lemma_pairs_of(n: int)
    ensures
        2 * (n * (n - 1) / 2) + n == n * n,
{
    let half = n / 2;
    if n % 2 == 0 {
        assert(n * (n - 1) == 2 * (half * (n - 1))) by (nonlinear_arith)
            requires
                n == 2 * half,
        ;
    } else {
        assert(n * (n - 1) == 2 * (n * half)) by (nonlinear_arith)
            requires
                n == 2 * half + 1,
        ;
    }
    assert(n * (n - 1) + n == n * n) by (nonlinear_arith);
}

/// Routing a block of `n` atoms weighs every two of them, as long as these can be counted.
pub proof fn lemma_routing_pairs(snapshot: MetadataSnapshot, first: int, block: int)
    requires
        first <= block,
        snapshot.blocking.block_atom_offsets@[block]
            <= snapshot.blocking.block_atom_offsets@[block + 1],
    ensures
        ({
            let n = snapshot.blocking.block_atom_offsets@[block + 1]
                - snapshot.blocking.block_atom_offsets@[block];
            let pairs = catalog::routing_sum(snapshot, first, block + 1) - catalog::routing_sum(
                snapshot,
                first,
                block,
            );
            &&& catalog::routing_sum(snapshot, first, first) == 0
            &&& n * n - n <= u64::MAX ==> 2 * pairs + n == n * n
            &&& n * n - n > u64::MAX ==> pairs == 0x7fff_ffff_ffff_ffff
        }),
{
    let n = snapshot.blocking.block_atom_offsets@[block + 1]
        - snapshot.blocking.block_atom_offsets@[block];
    lemma_pairs_of(n);
    assert(n * (n - 1) == n * n - n) by (nonlinear_arith);
    if n == 0 {
        assert(n * n == 0) by (nonlinear_arith)
            requires
                n == 0,
        ;
    }
}

/// The numbers of contracts of the chains.
spec fn chain_sizes(chain_of: Seq<u32>, chain_count: int) -> Seq<nat> {
    Seq::new(chain_count as nat, |chain: int| chains::chain_members(chain_of, chain).len())
}

proof fn lemma_chain_sizes(chain_of: Seq<u32>, chain_count: int, at: int)
    requires
        chains::chains_below(chain_of, chain_count),
        0 <= at <= chain_count,
    ensures
        pairs::size_sum(chain_sizes(chain_of, chain_count), at) == chain_of.len() - chains::below(
            chain_of,
            at,
            chain_of.len() as int,
        ),
    decreases chain_count - at,
{
    if at < chain_count {
        lemma_chain_sizes(chain_of, chain_count, at + 1);
        chains::lemma_below_step(chain_of, at, chain_of.len() as int);
    } else {
        chains::lemma_below_all(chain_of, chain_count, chain_of.len() as int);
    }
}

proof fn lemma_work_parts(runs: ScopeForestRuns, chain_of: Seq<u32>, chain_count: int, count: int)
    ensures
        connectivity::work_below(runs, chain_of, chain_count, count) == connectivity::edges_below(
            runs,
            count,
        ) + connectivity::nodes_below(chain_of, chain_count, count),
    decreases count,
{
    if count > 0 {
        lemma_work_parts(runs, chain_of, chain_count, count - 1);
    }
}

proof fn lemma_scope_nodes(chain_of: Seq<u32>, chain_count: int, count: int)
    requires
        0 <= chain_count <= u32::MAX,
        0 <= count <= pairs::all_pairs(chain_count).len(),
    ensures
        connectivity::nodes_below(chain_of, chain_count, count + 2) == 2 * chain_of.len()
            + pairs::pair_size_sum(
            chain_sizes(chain_of, chain_count),
            pairs::all_pairs(chain_count).take(count),
        ),
    decreases count,
{
    let all = pairs::all_pairs(chain_count);
    if count > 0 {
        lemma_scope_nodes(chain_of, chain_count, count - 1);
        assert(all.take(count).drop_last() =~= all.take(count - 1));
        pairs::lemma_pairs_ordered(chain_count, chain_count, count - 1);
        assert(all.take(count).last() == all[count - 1]);
    } else {
        assert(connectivity::nodes_below(chain_of, chain_count, 0) == 0);
        assert(connectivity::nodes_below(chain_of, chain_count, 1) == chain_of.len());
        assert(all.take(0).len() == 0);
    }
}

/// Reducing all scopes takes a step for every stored edge, and one for every contract in each of
/// its scopes: within its chain, across all, and with each other chain.
pub proof fn lemma_reduce_work(runs: ScopeForestRuns, chain_of: Seq<u32>, chain_count: int)
    requires
        0 < chain_count <= u32::MAX,
        chains::chains_below(chain_of, chain_count),
        runs.pairs@.len() == pairs::all_pairs(chain_count).len(),
    ensures
        connectivity::work_below(runs, chain_of, chain_count, runs.pairs@.len() as int + 2)
            == connectivity::edges_below(runs, runs.pairs@.len() as int + 2) + (chain_count + 1)
            * chain_of.len(),
{
    let sizes = chain_sizes(chain_of, chain_count);
    let all = pairs::all_pairs(chain_count);
    lemma_work_parts(runs, chain_of, chain_count, runs.pairs@.len() as int + 2);
    lemma_scope_nodes(chain_of, chain_count, all.len() as int);
    assert(all.take(all.len() as int) =~= all);
    lemma_chain_sizes(chain_of, chain_count, 0);
    chains::lemma_below_all(chain_of, chain_count, chain_of.len() as int);
    pairs::lemma_pair_sizes_total(sizes);
    let n = chain_of.len() as int;
    assert((chain_count + 1) * n == 2 * n + (chain_count - 1) * n) by (nonlinear_arith);
}

} // verus!
