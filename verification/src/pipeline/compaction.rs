//! Compaction of edge batches: only edges that connect something new are kept.

use crate::pipeline::pairs;
use crate::pipeline::pairs::chain_pair_index;
use crate::reduce::dsu;
use crate::reduce::dsu::Dsu;
use crate::reduce::forest;
use crate::reduce::graph;
use crate::reduce::graph::Edge;
use std::collections::HashMap;
use vstd::prelude::*;

verus! {

broadcast use vstd::std_specs::hash::group_hash_axioms;

/// The edges that satisfy `keep`, in order.
pub open spec fn picked(edges: Seq<Edge>, keep: spec_fn(Edge) -> bool) -> Seq<Edge>
    decreases edges.len(),
{
    if edges.len() == 0 {
        Seq::empty()
    } else if keep(edges.last()) {
        picked(edges.drop_last(), keep).push(edges.last())
    } else {
        picked(edges.drop_last(), keep)
    }
}

/// The picked edges are exactly the edges that satisfy `keep`.
pub proof fn lemma_picked_members(edges: Seq<Edge>, keep: spec_fn(Edge) -> bool, edge: Edge)
    ensures
        picked(edges, keep).contains(edge) <==> edges.contains(edge) && keep(edge),
        picked(edges, keep).len() <= edges.len(),
    decreases edges.len(),
{
    if edges.len() > 0 {
        let earlier = edges.drop_last();
        let last = edges.last();
        lemma_picked_members(earlier, keep, edge);
        assert(edges =~= earlier.push(last));
        assert(edges.contains(edge) <==> earlier.contains(edge) || last == edge) by {
            if earlier.contains(edge) {
                let i = earlier.index_of(edge);
                assert(edges[i] == edge);
            }
            if last == edge {
                assert(edges[edges.len() - 1] == edge);
            }
            if edges.contains(edge) {
                let i = edges.index_of(edge);
                if i < edges.len() - 1 {
                    assert(earlier[i] == edge);
                }
            }
        }
        if keep(last) {
            let before = picked(earlier, keep);
            let after = picked(edges, keep);
            assert(after =~= before.push(last));
            if before.contains(edge) {
                let i = before.index_of(edge);
                assert(after[i] == edge);
            }
            if last == edge {
                assert(after[after.len() - 1] == edge);
            }
            if after.contains(edge) {
                let i = after.index_of(edge);
                if i < after.len() - 1 {
                    assert(before[i] == edge);
                }
            }
        }
    }
}

/// Identities of the contracts of a scope, kept in one array slot per contract where that
/// fits, and in a hash map otherwise.
pub struct ScopeCompactionScratch {
    sparse_identities: HashMap<u32, u32>,
    dense_local_ids: Vec<u32>,
    dense_generations: Vec<u32>,
    generation: u32,
    identities: u32,
}

impl ScopeCompactionScratch {
    /// Stale array slots are not mistaken for current ones.
    pub closed spec fn wf(self) -> bool {
        &&& self.dense_local_ids@.len() == self.dense_generations@.len()
        &&& forall|i: int|
            0 <= i < self.dense_generations@.len() ==> #[trigger] self.dense_generations@[i]
                <= self.generation
    }

    /// Contracts are kept in array slots.
    pub closed spec fn is_dense(self) -> bool {
        self.dense_generations@.len() > 0
    }

    /// The contract can be given an identity.
    pub closed spec fn admits(self, contract: u32) -> bool {
        self.is_dense() ==> contract < self.dense_generations@.len()
    }

    /// Both endpoints of every edge can be given identities.
    pub open spec fn admits_all(self, edges: Seq<Edge>) -> bool {
        forall|i: int|
            0 <= i < edges.len() ==> self.admits((#[trigger] edges[i]).left) && self.admits(
                edges[i].right,
            )
    }

    /// The same contracts can be given identities.
    pub closed spec fn admits_as(self, other: ScopeCompactionScratch) -> bool {
        self.dense_generations@.len() == other.dense_generations@.len()
    }

    /// The identity of a contract in the current scope.
    closed spec fn identity_of(self, contract: u32) -> Option<u32> {
        if self.is_dense() {
            if self.dense_generations@[contract as int] == self.generation {
                Some(self.dense_local_ids@[contract as int])
            } else {
                None
            }
        } else if self.sparse_identities@.contains_key(contract) {
            Some(self.sparse_identities@[contract])
        } else {
            None
        }
    }

    /// The identities of the current scope are positions in `names`.
    closed spec fn holds(self, names: Seq<int>) -> bool {
        &&& names.len() == self.identities
        &&& forall|contract: u32| self.admits(contract) ==> match #[trigger] self.identity_of(
            contract,
        ) {
            Some(id) => id < names.len() && names[id as int] == contract,
            None => !names.contains(contract as int),
        }
        &&& forall|k: int|
            0 <= k < names.len() ==> 0 <= #[trigger] names[k] <= u32::MAX && self.admits(
                names[k] as u32,
            ) && self.identity_of(names[k] as u32) == Some(k as u32)
    }

    /// A scratch for contracts below `contract_count`; with array slots where they take at
    /// most `dense_budget_bytes`.
    pub fn new(contract_count: usize, dense_budget_bytes: usize) -> (scratch: ScopeCompactionScratch)
        ensures
            scratch.wf(),
            scratch.is_dense() <==> (contract_count > 0 && contract_count * 8 <= dense_budget_bytes),
            forall|contract: u32|
                contract < contract_count ==> #[trigger] scratch.admits(contract),
    {
        let dense: bool = match contract_count.checked_mul(8) {
            Some(bytes) => bytes <= dense_budget_bytes,
            None => false,
        };
        let mut dense_local_ids: Vec<u32> = Vec::new();
        let mut dense_generations: Vec<u32> = Vec::new();
        if dense {
            let mut i: usize = 0;
            while i < contract_count
                invariant
                    i <= contract_count,
                    dense_local_ids@.len() == i,
                    dense_generations@.len() == i,
                    forall|k: int| 0 <= k < i ==> #[trigger] dense_generations@[k] == 0,
                decreases contract_count - i,
            {
                dense_local_ids.push(0);
                dense_generations.push(0);
                i = i + 1;
            }
        }
        ScopeCompactionScratch {
            sparse_identities: HashMap::new(),
            dense_local_ids,
            dense_generations,
            generation: 0,
            identities: 0,
        }
    }

    /// Forgets the identities of the last scope.
    fn begin_scope(&mut self)
        requires
            old(self).wf(),
        ensures
            final(self).wf(),
            final(self).admits_as(*old(self)),
            final(self).holds(Seq::empty()),
    {
        self.identities = 0;
        if self.dense_generations.len() == 0 {
            self.sparse_identities.clear();
            return;
        }
        if self.generation == u32::MAX {
            let count: usize = self.dense_generations.len();
            let mut i: usize = 0;
            while i < count
                invariant
                    i <= count,
                    count == self.dense_generations@.len(),
                    self.dense_local_ids@.len() == count,
                    self.identities == 0,
                    count == old(self).dense_generations@.len(),
                    forall|k: int| 0 <= k < i ==> #[trigger] self.dense_generations@[k] == 0,
                decreases count - i,
            {
                self.dense_generations.set(i, 0);
                i = i + 1;
            }
            self.generation = 1;
        } else {
            self.generation = self.generation + 1;
        }
    }

    /// The identity of a contract, a new one where it has none yet.
    fn identity(&mut self, contract: u32, Ghost(names): Ghost<Seq<int>>) -> (id: u32)
        requires
            old(self).wf(),
            old(self).holds(names),
            old(self).admits(contract),
            names.len() < u32::MAX || names.contains(contract as int),
            names.len() <= u32::MAX,
        ensures
            final(self).wf(),
            final(self).admits_as(*old(self)),
            ({
                let after = if names.contains(contract as int) {
                    names
                } else {
                    names.push(contract as int)
                };
                final(self).holds(after) && id < after.len() && after[id as int] == contract
            }),
    {
        let ghost before = *self;
        let next: u32 = self.identities;
        if self.dense_generations.len() == 0 {
            if let Some(id) = self.sparse_identities.get(&contract) {
                let found: u32 = *id;
                assert(before.identity_of(contract) == Some(found));
                return found;
            }
            assert(before.identity_of(contract) is None);
            self.sparse_identities.insert(contract, next);
        } else {
            let slot: usize = contract as usize;
            if self.dense_generations[slot] == self.generation {
                assert(before.identity_of(contract) is Some);
                return self.dense_local_ids[slot];
            }
            assert(before.identity_of(contract) is None);
            let generation: u32 = self.generation;
            self.dense_generations.set(slot, generation);
            self.dense_local_ids.set(slot, next);
        }
        self.identities = next + 1;
        proof {
            let after = names.push(contract as int);
            assert(after[next as int] == contract);
            assert(self.identity_of(contract) == Some(next));
            assert forall|other: u32| self.admits(other) implies match #[trigger] self.identity_of(
                other,
            ) {
                Some(id) => id < after.len() && after[id as int] == other,
                None => !after.contains(other as int),
            } by {
                assert(before.admits(other));
                if other != contract {
                    assert(self.identity_of(other) == before.identity_of(other));
                    if self.identity_of(other) is None && after.contains(other as int) {
                        let at = after.index_of(other as int);
                        assert(names[at] == other);
                        assert(names.contains(other as int));
                    }
                }
            }
            assert forall|k: int| 0 <= k < after.len() implies 0 <= #[trigger] after[k] <= u32::MAX
                && self.admits(after[k] as u32) && self.identity_of(after[k] as u32) == Some(
                k as u32,
            ) by {
                if k < names.len() {
                    assert(after[k] == names[k]);
                    assert(names.contains(names[k]));
                    assert(names[k] as u32 != contract);
                    assert(before.identity_of(names[k] as u32) == Some(k as u32));
                }
            }
        }
        next
    }
}

/// Endpoints leave one value of 32 bits to spare.
pub open spec fn ends_below_max(edges: Seq<Edge>) -> bool {
    forall|i: int|
        0 <= i < edges.len() ==> (#[trigger] edges[i]).left < u32::MAX && edges[i].right < u32::MAX
}

proof fn lemma_names_bound(names: Seq<int>, name: int)
    requires
        graph::distinct_names(names),
        forall|k: int| 0 <= k < names.len() ==> 0 <= #[trigger] names[k] < u32::MAX,
        0 <= name < u32::MAX,
    ensures
        names.len() <= u32::MAX,
        !names.contains(name) ==> names.len() < u32::MAX,
{
    let more = if names.contains(name) {
        names
    } else {
        names.push(name)
    };
    assert(more.no_duplicates());
    more.unique_seq_to_set();
    let all = vstd::set_lib::set_int_range(0, u32::MAX as int);
    vstd::set_lib::lemma_int_range(0, u32::MAX as int);
    assert(more.to_set().subset_of(all));
    vstd::set_lib::lemma_len_subset(more.to_set(), all);
}

proof fn lemma_relabels_within(edges: Seq<Edge>, local: Seq<Edge>, names: Seq<int>)
    requires
        graph::relabels(edges, local, names),
    ensures
        graph::all_within(local, names.len() as int),
{
    assert forall|k: int| 0 <= k < local.len() implies (#[trigger] local[k]).within(
        names.len() as int,
    ) by {
        assert(graph::relabels_at(edges, local, names, k));
    }
}

/// The edges that connect something new, in order.
pub fn compact_scope_edges_with_scratch(
    edges: &Vec<Edge>,
    scratch: &mut ScopeCompactionScratch,
) -> (kept: Vec<Edge>)
    requires
        old(scratch).wf(),
        old(scratch).admits_all(edges@),
        ends_below_max(edges@),
    ensures
        kept@ == forest::spanning_edges(edges@),
        final(scratch).wf(),
        final(scratch).admits_as(*old(scratch)),
{
    scratch.begin_scope();
    let count: usize = edges.len();
    let mut union_find = Dsu::new(0);
    let mut kept: Vec<Edge> = Vec::with_capacity(count);
    let ghost mut names: Seq<int> = Seq::empty();
    let ghost mut local: Seq<Edge> = Seq::empty();
    let mut i: usize = 0;
    assert(edges@.take(0) =~= Seq::<Edge>::empty());
    while i < count
        invariant
            i <= count,
            count == edges@.len(),
            ends_below_max(edges@),
            scratch.wf(),
            scratch.admits_as(*old(scratch)),
            old(scratch).admits_all(edges@),
            scratch.holds(names),
            forall|k: int| 0 <= k < names.len() ==> 0 <= #[trigger] names[k] < u32::MAX,
            graph::distinct_names(names),
            graph::relabels(edges@.take(i as int), local, names),
            union_find.wf(),
            union_find.parent@.len() == names.len(),
            dsu::represents(union_find.parent@, local),
            kept@ == forest::spanning_edges(edges@.take(i as int)),
        decreases count - i,
    {
        let edge: Edge = edges[i];
        assert(old(scratch).admits(edges@[i as int].left));
        let ghost first = names;
        proof {
            lemma_names_bound(names, edge.left as int);
        }
        let left: u32 = scratch.identity(edge.left, Ghost(names));
        proof {
            if !names.contains(edge.left as int) {
                names = names.push(edge.left as int);
            }
            lemma_relabels_within(edges@.take(i as int), local, first);
        }
        if left as usize == union_find.parent.len() {
            union_find.grow();
        }
        let ghost second = names;
        proof {
            assert forall|k: int| 0 <= k < local.len() implies (#[trigger] local[k]).within(
                second.len() as int,
            ) by {
                assert(local[k].within(first.len() as int));
            }
            lemma_names_bound(names, edge.right as int);
        }
        let right: u32 = scratch.identity(edge.right, Ghost(names));
        if right as usize == union_find.parent.len() {
            union_find.grow();
        }
        proof {
            if !names.contains(edge.right as int) {
                names = names.push(edge.right as int);
            }
            assert(graph::distinct_names(second));
            assert(graph::distinct_names(names));
            assert(names[left as int] == edge.left);
        }
        let step = Edge { left, right };
        let ghost earlier = edges@.take(i as int);
        let ghost before = local;
        proof {
            assert forall|k: int| 0 <= k < earlier.len() implies #[trigger] graph::relabels_at(
                earlier,
                before,
                names,
                k,
            ) by {
                assert(graph::relabels_at(earlier, before, first, k));
            }
            graph::lemma_relabel_connectivity(earlier, before, names, left as int, right as int);
        }
        let joined: bool = union_find.union(step);
        proof {
            local = before.push(step);
            let longer = edges@.take(i + 1);
            assert(longer.drop_last() =~= earlier);
            assert(longer.last() == edge);
            assert forall|k: int| 0 <= k < longer.len() implies #[trigger] graph::relabels_at(
                longer,
                local,
                names,
                k,
            ) by {
                if k < i {
                    assert(graph::relabels_at(earlier, before, names, k));
                }
            }
        }
        if joined {
            kept.push(edge);
        }
        i = i + 1;
    }
    assert(edges@.take(i as int) =~= edges@);
    kept
}

/// Scratches that admit the same contracts admit the same edges; this is reflexive and
/// transitive.
pub proof fn lemma_admits_as(
    last: ScopeCompactionScratch,
    middle: ScopeCompactionScratch,
    first: ScopeCompactionScratch,
)
    ensures
        first.admits_as(first),
        last.admits_as(middle) && middle.admits_as(first) ==> last.admits_as(first),
        last.admits_as(first) ==> forall|contract: u32| #[trigger]
            last.admits(contract) == first.admits(contract),
{
}

/// The edge stays within one chain.
pub open spec fn is_intra(chains: Seq<u32>, edge: Edge) -> bool {
    chains[edge.left as int] == chains[edge.right as int]
}

/// The position of the edge's pair of chains.
pub open spec fn pair_of(chains: Seq<u32>, chain_count: int, edge: Edge) -> int {
    let left = chains[edge.left as int] as int;
    let right = chains[edge.right as int] as int;
    pairs::pair_position(pairs::lesser(left, right), pairs::greater(left, right), chain_count)
}

/// The edges within one chain.
pub open spec fn intra_edges(edges: Seq<Edge>, chains: Seq<u32>) -> Seq<Edge> {
    picked(edges, |edge: Edge| is_intra(chains, edge))
}

/// The edges between different chains.
pub open spec fn cross_edges(edges: Seq<Edge>, chains: Seq<u32>) -> Seq<Edge> {
    picked(edges, |edge: Edge| !is_intra(chains, edge))
}

/// The edges between the chains of a pair.
pub open spec fn pair_edges(edges: Seq<Edge>, chains: Seq<u32>, chain_count: int, pair: int) -> Seq<
    Edge,
> {
    picked(
        edges,
        |edge: Edge| !is_intra(chains, edge) && pair_of(chains, chain_count, edge) == pair,
    )
}

/// The endpoints of every edge are contracts of known chains.
pub open spec fn edges_known(edges: Seq<Edge>, chains: Seq<u32>, chain_count: int) -> bool {
    forall|i: int|
        0 <= i < edges.len() ==> (#[trigger] edges[i]).left < chains.len() && edges[i].right
            < chains.len() && chains[edges[i].left as int] < chain_count
            && chains[edges[i].right as int] < chain_count
}

/// A batch divided by scope, each part compacted.
pub struct CompactedCatalogEdges {
    pub intra: Vec<Edge>,
    pub cross: Vec<Edge>,
    pub chain_pairs: Vec<(usize, Vec<Edge>)>,
    pub accepted_edges: u64,
}

/// The edges of the first `count` parts, one after the other.
pub open spec fn joined_parts(parts: Seq<(usize, Vec<Edge>)>, count: int) -> Seq<Edge>
    decreases count,
{
    if count <= 0 {
        Seq::empty()
    } else {
        joined_parts(parts, count - 1) + parts[count - 1].1@
    }
}

/// Part `k` is the compacted edges of its pair of chains, which has some.
pub open spec fn is_part(
    parts: Seq<(usize, Vec<Edge>)>,
    edges: Seq<Edge>,
    chains: Seq<u32>,
    chain_count: int,
    k: int,
) -> bool {
    let own = pair_edges(edges, chains, chain_count, parts[k].0 as int);
    own.len() > 0 && parts[k].1@ == forest::spanning_edges(own)
}

/// The pair of chains has a part.
pub open spec fn has_part(parts: Seq<(usize, Vec<Edge>)>, pair: int) -> bool {
    exists|k: int| 0 <= k < parts.len() && #[trigger] parts[k].0 == pair
}

/// The batch divided by scope: the parts of the chain pairs that have edges, in ascending
/// order, each compacted, and all of them compacted together.
pub open spec fn is_compaction(
    batch: CompactedCatalogEdges,
    edges: Seq<Edge>,
    chains: Seq<u32>,
    chain_count: int,
) -> bool {
    let parts = batch.chain_pairs@;
    &&& batch.intra@ == forest::spanning_edges(intra_edges(edges, chains))
    &&& batch.cross@ == forest::spanning_edges(joined_parts(parts, parts.len() as int))
    &&& batch.accepted_edges == edges.len()
    &&& forall|i: int, j: int|
        0 <= i < j < parts.len() ==> (#[trigger] parts[i]).0 < (#[trigger] parts[j]).0
    &&& forall|k: int|
        0 <= k < parts.len() ==> #[trigger] is_part(parts, edges, chains, chain_count, k)
    &&& forall|pair: int|
        0 <= pair < pairs::all_pairs(chain_count).len() && pair_edges(
            edges,
            chains,
            chain_count,
            pair,
        ).len() > 0 ==> #[trigger] has_part(parts, pair)
}

/// The joined parts hold exactly the edges of the parts.
proof fn lemma_joined_members(parts: Seq<(usize, Vec<Edge>)>, count: int, edge: Edge)
    requires
        0 <= count <= parts.len(),
    ensures
        joined_parts(parts, count).contains(edge) <==> exists|k: int|
            0 <= k < count && (#[trigger] parts[k]).1@.contains(edge),
    decreases count,
{
    if count > 0 {
        lemma_joined_members(parts, count - 1, edge);
        let before = joined_parts(parts, count - 1);
        let last = parts[count - 1].1@;
        let all = joined_parts(parts, count);
        if before.contains(edge) {
            let i = before.index_of(edge);
            assert(all[i] == edge);
            let k = choose|k: int| 0 <= k < count - 1 && (#[trigger] parts[k]).1@.contains(edge);
            assert(0 <= k < count && parts[k].1@.contains(edge));
        }
        if last.contains(edge) {
            let i = last.index_of(edge);
            assert(all[before.len() + i] == edge);
        }
        if all.contains(edge) {
            let i = all.index_of(edge);
            if i < before.len() {
                assert(before[i] == edge);
            } else {
                assert(last[i - before.len()] == edge);
            }
        }
    }
}

proof fn lemma_joined_prefix(
    shorter: Seq<(usize, Vec<Edge>)>,
    longer: Seq<(usize, Vec<Edge>)>,
    count: int,
)
    requires
        0 <= count <= shorter.len() <= longer.len(),
        forall|k: int| 0 <= k < count ==> #[trigger] shorter[k] == longer[k],
    ensures
        joined_parts(shorter, count) == joined_parts(longer, count),
    decreases count,
{
    if count > 0 {
        lemma_joined_prefix(shorter, longer, count - 1);
    }
}

proof fn lemma_pair_in_range(chains: Seq<u32>, chain_count: int, edge: Edge)
    requires
        !is_intra(chains, edge),
        chains[edge.left as int] < chain_count,
        chains[edge.right as int] < chain_count,
    ensures
        0 <= pair_of(chains, chain_count, edge) < pairs::all_pairs(chain_count).len(),
{
    let left = chains[edge.left as int] as int;
    let right = chains[edge.right as int] as int;
    pairs::lemma_pair_position(pairs::lesser(left, right), pairs::greater(left, right), chain_count);
}

/// Divides a batch by scope and compacts each part.
pub fn compact_catalog_scope_batch_by_chain(
    contract_chain: &[u32],
    chain_count: usize,
    edges: &Vec<Edge>,
    scratch: &mut ScopeCompactionScratch,
) -> (batch: CompactedCatalogEdges)
    requires
        old(scratch).wf(),
        old(scratch).admits_all(edges@),
        ends_below_max(edges@),
        chain_count * (chain_count - 1) <= usize::MAX,
        edges_known(edges@, contract_chain@, chain_count as int),
    ensures
        is_compaction(batch, edges@, contract_chain@, chain_count as int),
        final(scratch).wf(),
        final(scratch).admits_as(*old(scratch)),
{
    let ghost chains = contract_chain@;
    let ghost c = chain_count as int;
    let pair_count: usize = if chain_count == 0 {
        0
    } else {
        chain_count * (chain_count - 1) / 2
    };
    proof {
        pairs::lemma_all_pairs_len(c);
        if chain_count == 0 {
            assert(c * (c - 1) == 0) by (nonlinear_arith)
                requires
                    c == 0,
            ;
        }
    }
    let mut intra: Vec<Edge> = Vec::new();
    let mut buckets: Vec<Vec<Edge>> = Vec::new();
    let mut p: usize = 0;
    while p < pair_count
        invariant
            p <= pair_count,
            buckets@.len() == p,
            forall|k: int| 0 <= k < p ==> (#[trigger] buckets@[k])@.len() == 0,
        decreases pair_count - p,
    {
        buckets.push(Vec::new());
        p = p + 1;
    }
    let mut i: usize = 0;
    proof {
        assert(edges@.take(0) =~= Seq::<Edge>::empty());
        assert forall|k: int| 0 <= k < pair_count implies (#[trigger] buckets@[k])@ == pair_edges(
            edges@.take(0),
            chains,
            c,
            k,
        ) by {
            assert(buckets@[k]@ =~= Seq::<Edge>::empty());
        }
    }
    while i < edges.len()
        invariant
            i <= edges@.len(),
            chains == contract_chain@,
            c == chain_count,
            chain_count * (chain_count - 1) <= usize::MAX,
            pair_count == pairs::all_pairs(c).len(),
            edges_known(edges@, chains, c),
            intra@ == intra_edges(edges@.take(i as int), chains),
            buckets@.len() == pair_count,
            forall|k: int|
                0 <= k < pair_count ==> (#[trigger] buckets@[k])@ == pair_edges(
                    edges@.take(i as int),
                    chains,
                    c,
                    k,
                ),
        decreases edges.len() - i,
    {
        let edge: Edge = edges[i];
        assert(edges@[i as int] == edge);
        let left: u32 = contract_chain[edge.left as usize];
        let right: u32 = contract_chain[edge.right as usize];
        proof {
            assert(edges@.take(i + 1).drop_last() =~= edges@.take(i as int));
            assert(edges@.take(i + 1).last() == edge);
        }
        if left == right {
            intra.push(edge);
        } else {
            let pair: usize = chain_pair_index(left as usize, right as usize, chain_count);
            buckets[pair].push(edge);
        }
        i = i + 1;
    }
    assert(edges@.take(i as int) =~= edges@);
    proof {
        lemma_admits_picked(*scratch, edges@, |edge: Edge| is_intra(chains, edge));
    }
    let compacted_intra = compact_scope_edges_with_scratch(&intra, scratch);
    let mut parts: Vec<(usize, Vec<Edge>)> = Vec::new();
    let mut candidates: Vec<Edge> = Vec::new();
    let mut q: usize = 0;
    while q < pair_count
        invariant
            q <= pair_count,
            chains == contract_chain@,
            c == chain_count,
            ends_below_max(edges@),
            pair_count == pairs::all_pairs(c).len(),
            buckets@.len() == pair_count,
            forall|k: int|
                0 <= k < pair_count ==> (#[trigger] buckets@[k])@ == pair_edges(
                    edges@,
                    chains,
                    c,
                    k,
                ),
            scratch.wf(),
            scratch.admits_as(*old(scratch)),
            old(scratch).admits_all(edges@),
            candidates@ == joined_parts(parts@, parts@.len() as int),
            forall|a: int, b: int|
                0 <= a < b < parts@.len() ==> (#[trigger] parts@[a]).0 < (#[trigger] parts@[b]).0,
            forall|k: int|
                0 <= k < parts@.len() ==> #[trigger] is_part(parts@, edges@, chains, c, k),
            forall|k: int| 0 <= k < parts@.len() ==> (#[trigger] parts@[k]).0 < q,
            forall|pair: int|
                0 <= pair < q && pair_edges(edges@, chains, c, pair).len() > 0
                    ==> #[trigger] has_part(parts@, pair),
        decreases pair_count - q,
    {
        let ghost old_parts = parts@;
        proof {
            assert(buckets@[q as int]@ == pair_edges(edges@, chains, c, q as int));
        }
        if buckets[q].len() > 0 {
            proof {
                lemma_admits_picked(
                    *scratch,
                    edges@,
                    |edge: Edge| !is_intra(chains, edge) && pair_of(chains, c, edge) == q,
                );
            }
            let compacted = compact_scope_edges_with_scratch(&buckets[q], scratch);
            let ghost before = candidates@;
            let ghost part = compacted@;
            let mut k: usize = 0;
            assert(before + part.take(0) =~= before);
            while k < compacted.len()
                invariant
                    k <= compacted@.len(),
                    part == compacted@,
                    candidates@ == before + part.take(k as int),
                decreases compacted.len() - k,
            {
                candidates.push(compacted[k]);
                assert(part.take(k + 1) =~= part.take(k as int).push(part[k as int]));
                k = k + 1;
            }
            assert(part.take(k as int) =~= part);
            parts.push((q, compacted));
            proof {
                lemma_joined_prefix(old_parts, parts@, old_parts.len() as int);
                assert(parts@[old_parts.len() as int].0 == q);
                assert(has_part(parts@, q as int));
                assert forall|k: int| 0 <= k < parts@.len() implies #[trigger] is_part(
                    parts@,
                    edges@,
                    chains,
                    c,
                    k,
                ) by {
                    if k < old_parts.len() {
                        assert(is_part(old_parts, edges@, chains, c, k));
                        assert(parts@[k] == old_parts[k]);
                    }
                }
                assert forall|a: int, b: int| 0 <= a < b < parts@.len() implies (
                #[trigger] parts@[a]).0 < (#[trigger] parts@[b]).0 by {
                    assert(parts@[a] == old_parts[a]);
                    if b < old_parts.len() {
                        assert(parts@[b] == old_parts[b]);
                    }
                }
                assert forall|pair: int|
                    0 <= pair < q + 1 && pair_edges(edges@, chains, c, pair).len() > 0 implies
                    #[trigger] has_part(parts@, pair) by {
                    if pair < q {
                        assert(has_part(old_parts, pair));
                        let k = choose|k: int|
                            0 <= k < old_parts.len() && #[trigger] old_parts[k].0 == pair;
                        assert(parts@[k].0 == pair);
                    }
                }
            }
        }
        q = q + 1;
    }
    proof {
        assert forall|k: int| 0 <= k < candidates@.len() implies old(scratch).admits(
            (#[trigger] candidates@[k]).left,
        ) && old(scratch).admits(candidates@[k].right) && candidates@[k].left < u32::MAX
            && candidates@[k].right < u32::MAX by {
            let edge = candidates@[k];
            assert(candidates@.contains(edge));
            lemma_joined_members(parts@, parts@.len() as int, edge);
            let part = choose|part: int|
                0 <= part < parts@.len() && (#[trigger] parts@[part]).1@.contains(edge);
            assert(is_part(parts@, edges@, chains, c, part));
            let own = pair_edges(edges@, chains, c, parts@[part].0 as int);
            forest::lemma_spanning_members(own, edge);
            let pair = parts@[part].0 as int;
            lemma_picked_members(
                edges@,
                |edge: Edge| !is_intra(chains, edge) && pair_of(chains, c, edge) == pair,
                edge,
            );
            let at = edges@.index_of(edge);
            assert(edges@[at] == edge);
        }
    }
    let cross = compact_scope_edges_with_scratch(&candidates, scratch);
    CompactedCatalogEdges {
        intra: compacted_intra,
        cross,
        chain_pairs: parts,
        accepted_edges: edges.len() as u64,
    }
}

/// No more edges are picked than there are.
pub proof fn lemma_picked_len(edges: Seq<Edge>, keep: spec_fn(Edge) -> bool)
    ensures
        picked(edges, keep).len() <= edges.len(),
    decreases edges.len(),
{
    if edges.len() > 0 {
        lemma_picked_len(edges.drop_last(), keep);
    }
}

proof fn lemma_admits_picked(
    scratch: ScopeCompactionScratch,
    edges: Seq<Edge>,
    keep: spec_fn(Edge) -> bool,
)
    requires
        scratch.admits_all(edges),
        ends_below_max(edges),
    ensures
        scratch.admits_all(picked(edges, keep)),
        ends_below_max(picked(edges, keep)),
{
    let some = picked(edges, keep);
    assert forall|i: int| 0 <= i < some.len() implies scratch.admits((#[trigger] some[i]).left)
        && scratch.admits(some[i].right) && some[i].left < u32::MAX && some[i].right < u32::MAX by {
        lemma_picked_members(edges, keep, some[i]);
        assert(some.contains(some[i]));
        let at = edges.index_of(some[i]);
        assert(edges[at] == some[i]);
    }
}

/// The edges kept across chains are edges of the batch across chains.
pub proof fn lemma_cross_members(
    batch: CompactedCatalogEdges,
    edges: Seq<Edge>,
    chains: Seq<u32>,
    chain_count: int,
    edge: Edge,
)
    requires
        is_compaction(batch, edges, chains, chain_count),
        batch.cross@.contains(edge),
    ensures
        cross_edges(edges, chains).contains(edge),
{
    let parts = batch.chain_pairs@;
    forest::lemma_spanning_members(joined_parts(parts, parts.len() as int), edge);
    lemma_joined_members(parts, parts.len() as int, edge);
    let k = choose|k: int| 0 <= k < parts.len() && (#[trigger] parts[k]).1@.contains(edge);
    assert(is_part(parts, edges, chains, chain_count, k));
    let pair = parts[k].0 as int;
    forest::lemma_spanning_members(pair_edges(edges, chains, chain_count, pair), edge);
    lemma_picked_members(
        edges,
        |edge: Edge| !is_intra(chains, edge) && pair_of(chains, chain_count, edge) == pair,
        edge,
    );
    lemma_picked_members(edges, |edge: Edge| !is_intra(chains, edge), edge);
}

/// Compaction keeps the connectivity of every scope.
pub proof fn lemma_compaction_connectivity(
    batch: CompactedCatalogEdges,
    edges: Seq<Edge>,
    chains: Seq<u32>,
    chain_count: int,
)
    requires
        is_compaction(batch, edges, chains, chain_count),
        edges_known(edges, chains, chain_count),
    ensures
        graph::same_connectivity(batch.intra@, intra_edges(edges, chains)),
        graph::same_connectivity(batch.cross@, cross_edges(edges, chains)),
        forall|k: int|
            0 <= k < batch.chain_pairs@.len() ==> graph::same_connectivity(
                (#[trigger] batch.chain_pairs@[k]).1@,
                pair_edges(edges, chains, chain_count, batch.chain_pairs@[k].0 as int),
            ),
{
    let parts = batch.chain_pairs@;
    let joined = joined_parts(parts, parts.len() as int);
    let cross = cross_edges(edges, chains);
    forest::lemma_spanning_connectivity(intra_edges(edges, chains));
    forest::lemma_spanning_connectivity(joined);
    assert forall|k: int| 0 <= k < parts.len() implies graph::same_connectivity(
        (#[trigger] parts[k]).1@,
        pair_edges(edges, chains, chain_count, parts[k].0 as int),
    ) by {
        assert(is_part(parts, edges, chains, chain_count, k));
        forest::lemma_spanning_connectivity(
            pair_edges(edges, chains, chain_count, parts[k].0 as int),
        );
    }
    assert forall|i: int| 0 <= i < joined.len() implies graph::connected(
        cross,
        (#[trigger] joined[i]).left as int,
        joined[i].right as int,
    ) by {
        let edge = joined[i];
        assert(joined.contains(edge));
        lemma_joined_members(parts, parts.len() as int, edge);
        let k = choose|k: int| 0 <= k < parts.len() && (#[trigger] parts[k]).1@.contains(edge);
        assert(is_part(parts, edges, chains, chain_count, k));
        let pair = parts[k].0 as int;
        forest::lemma_spanning_members(pair_edges(edges, chains, chain_count, pair), edge);
        lemma_picked_members(
            edges,
            |edge: Edge| !is_intra(chains, edge) && pair_of(chains, chain_count, edge) == pair,
            edge,
        );
        lemma_picked_members(edges, |edge: Edge| !is_intra(chains, edge), edge);
        graph::lemma_edge_connects(cross, cross.index_of(edge));
    }
    assert forall|i: int| 0 <= i < cross.len() implies graph::connected(
        joined,
        (#[trigger] cross[i]).left as int,
        cross[i].right as int,
    ) by {
        let edge = cross[i];
        assert(cross.contains(edge));
        lemma_picked_members(edges, |edge: Edge| !is_intra(chains, edge), edge);
        let at = edges.index_of(edge);
        assert(edges[at] == edge);
        lemma_pair_in_range(chains, chain_count, edge);
        let pair = pair_of(chains, chain_count, edge);
        let own = pair_edges(edges, chains, chain_count, pair);
        lemma_picked_members(
            edges,
            |edge: Edge| !is_intra(chains, edge) && pair_of(chains, chain_count, edge) == pair,
            edge,
        );
        assert(own.contains(edge));
        assert(has_part(parts, pair));
        let k = choose|k: int| 0 <= k < parts.len() && #[trigger] parts[k].0 == pair;
        graph::lemma_edge_connects(own, own.index_of(edge));
        let part = parts[k].1@;
        assert(graph::same_connectivity(part, own));
        assert(graph::connected(part, edge.left as int, edge.right as int));
        assert forall|e: int| 0 <= e < part.len() implies graph::connected(
            joined,
            (#[trigger] part[e]).left as int,
            part[e].right as int,
        ) by {
            assert(parts[k].1@.contains(part[e]));
            lemma_joined_members(parts, parts.len() as int, part[e]);
            graph::lemma_edge_connects(joined, joined.index_of(part[e]));
        }
        graph::lemma_connected_monotone(part, joined, edge.left as int, edge.right as int);
    }
    assert forall|a: int, b: int| #[trigger] graph::connected(batch.cross@, a, b)
        <==> graph::connected(cross, a, b) by {
        assert(graph::connected(batch.cross@, a, b) <==> graph::connected(joined, a, b));
        if graph::connected(joined, a, b) {
            graph::lemma_connected_monotone(joined, cross, a, b);
        }
        if graph::connected(cross, a, b) {
            graph::lemma_connected_monotone(cross, joined, a, b);
        }
    }
}

} // verus!
