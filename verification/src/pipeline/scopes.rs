//! Component roots by scope: within chains, across chains, and for each pair of chains.

use crate::pipeline::chains::RootStorage;
use crate::reduce::graph;
use crate::reduce::graph::Edge;
use vstd::prelude::*;
use vstd::slice::slice_subrange;

verus! {

/// Roots of a pair of chains. A node is a position in the joint contract list of the chains,
/// those of the left chain first.
#[derive(Debug)]
pub struct ChainPairRoots {
    pub left_chain: u32,
    pub right_chain: u32,
    pub left_contract_count: u32,
    pub roots: RootStorage,
}

/// Component roots of all scopes.
#[derive(Debug)]
pub struct ScopeComponents {
    pub intra_roots: RootStorage,
    pub cross_roots: RootStorage,
    pub chain_pair_roots: Vec<ChainPairRoots>,
    pub chain_contract_offsets: RootStorage,
    pub chain_contracts: RootStorage,
}

/// The contracts of a chain, where the lists hold it.
pub open spec fn chain_row(offsets: Seq<u32>, contracts: Seq<u32>, chain: int) -> Option<Seq<u32>> {
    if chain + 1 >= offsets.len() || offsets[chain] > offsets[chain + 1] || offsets[chain + 1]
        > contracts.len() {
        None
    } else {
        Some(contracts.subrange(offsets[chain] as int, offsets[chain + 1] as int))
    }
}

impl ScopeComponents {
    /// The contracts of a chain, where the lists hold it.
    pub open spec fn row(self, chain: int) -> Option<Seq<u32>> {
        chain_row(self.chain_contract_offsets@, self.chain_contracts@, chain)
    }

    /// The contracts of a chain, where the lists hold it.
    pub fn contracts_for_chain(&self, chain: u32) -> (row: Option<&[u32]>)
        ensures
            match self.row(chain as int) {
                Some(expected) => row matches Some(row) && row@ == expected,
                None => row is None,
            },
    {
        let offsets = &self.chain_contract_offsets.words;
        let at: usize = chain as usize;
        if at >= offsets.len() || at >= offsets.len() - 1 {
            return None;
        }
        let begin: usize = offsets[at] as usize;
        let end: usize = offsets[at + 1] as usize;
        if begin > end || end > self.chain_contracts.len() {
            return None;
        }
        Some(slice_subrange(self.chain_contracts.as_slice(), begin, end))
    }
}

/// Every node its own root.
pub open spec fn own_roots(node_count: nat) -> Seq<u32> {
    Seq::new(node_count, |node: int| node as u32)
}

/// The roots after each of the first `count` names has lowered the value at its root's name.
pub open spec fn lowered(names: Seq<u32>, roots: Seq<u32>, node_count: nat, count: int) -> Seq<u32>
    decreases count,
{
    if count <= 0 {
        own_roots(node_count)
    } else {
        let before = lowered(names, roots, node_count, count - 1);
        let root = names[roots[count - 1] as int] as int;
        if names[count - 1] < before[root] {
            before.update(root, names[count - 1])
        } else {
            before
        }
    }
}

/// The roots after each of the first `count` names has taken the value at its root's name.
pub open spec fn settled(names: Seq<u32>, roots: Seq<u32>, node_count: nat, count: int) -> Seq<u32>
    decreases count,
{
    if count <= 0 {
        lowered(names, roots, node_count, roots.len() as int)
    } else {
        let before = settled(names, roots, node_count, count - 1);
        before.update(names[count - 1] as int, before[names[roots[count - 1] as int] as int])
    }
}

/// Every root is a position in the list, and every name a known node.
pub open spec fn are_positions(names: Seq<u32>, roots: Seq<u32>, node_count: nat) -> bool {
    &&& roots.len() == names.len()
    &&& forall|i: int| 0 <= i < roots.len() ==> #[trigger] roots[i] < names.len()
    &&& forall|i: int| 0 <= i < names.len() ==> #[trigger] names[i] < node_count
}

/// Position roots over names, expanded to roots over all nodes: the least name of each
/// component, and every other node its own root.
pub open spec fn expanded(names: Seq<u32>, roots: Seq<u32>, node_count: nat) -> Seq<u32> {
    settled(names, roots, node_count, roots.len() as int)
}

impl ChainPairRoots {
    /// What [`ChainPairRoots::expand_global_roots`] returns.
    pub open spec fn expansion(self, scopes: ScopeComponents) -> Option<Seq<u32>> {
        match (scopes.row(self.left_chain as int), scopes.row(self.right_chain as int)) {
            (Some(left), Some(right)) => if left.len() != self.left_contract_count
                || self.roots@.len() != left.len() + right.len() || scopes.chain_contracts@.len()
                > u32::MAX || !are_positions(
                left + right,
                self.roots@,
                scopes.chain_contracts@.len(),
            ) {
                None
            } else {
                Some(expanded(left + right, self.roots@, scopes.chain_contracts@.len()))
            },
            _ => None,
        }
    }

    /// The contracts of the pair, those of the left chain first.
    pub open spec fn names(self, scopes: ScopeComponents) -> Seq<u32> {
        scopes.row(self.left_chain as int)->0 + scopes.row(self.right_chain as int)->0
    }

    /// The roots over all contracts; nothing where the lists and roots do not fit. Where the
    /// roots are those of edges over positions in the lists, they become those of the same edges
    /// over contracts.
    #[verifier::loop_isolation(false)]
    pub fn expand_global_roots(&self, scopes: &ScopeComponents) -> (global: Option<Vec<u32>>)
        ensures
            match self.expansion(*scopes) {
                Some(expected) => global matches Some(global) && global@ == expected,
                None => global is None,
            },
            global matches Some(global) ==> forall|edges: Seq<Edge>, local: Seq<Edge>|
                #[trigger] graph::relabels(edges, local, name_nodes(self.names(*scopes)))
                    && are_distinct(self.names(*scopes)) && graph::are_component_roots(
                    local,
                    self.roots@,
                ) ==> graph::are_component_roots(edges, global@),
    {
        let left: &[u32] = match scopes.contracts_for_chain(self.left_chain) {
            None => {
                return None;
            },
            Some(row) => row,
        };
        let right: &[u32] = match scopes.contracts_for_chain(self.right_chain) {
            None => {
                return None;
            },
            Some(row) => row,
        };
        let left_len: usize = left.len();
        let right_len: usize = right.len();
        let count: usize = self.roots.len();
        if left_len != self.left_contract_count as usize || count < left_len || count - left_len
            != right_len || scopes.chain_contracts.len() > u32::MAX as usize {
            return None;
        }
        let ghost names = left@ + right@;
        let node_count: usize = scopes.chain_contracts.len();
        let mut i: usize = 0;
        while i < count
            invariant
                i <= count,
                count == left_len + right_len,
                left_len == left@.len(),
                right_len == right@.len(),
                count == self.roots@.len(),
                names == left@ + right@,
                forall|k: int| 0 <= k < i ==> #[trigger] self.roots@[k] < count,
                forall|k: int| 0 <= k < i ==> #[trigger] names[k] < node_count,
            decreases count - i,
        {
            let name: u32 = if i < left_len {
                left[i]
            } else {
                right[i - left_len]
            };
            assert(name == names[i as int]);
            if self.roots.words[i] as usize >= count || name as usize >= node_count {
                assert(self.roots@[i as int] >= count || names[i as int] >= node_count);
                return None;
            }
            i = i + 1;
        }
        let mut global: Vec<u32> = Vec::new();
        let mut n: usize = 0;
        while n < node_count
            invariant
                n <= node_count <= u32::MAX,
                global@.len() == n,
                forall|k: int| 0 <= k < n ==> #[trigger] global@[k] == k,
            decreases node_count - n,
        {
            global.push(n as u32);
            n = n + 1;
        }
        assert(global@ =~= own_roots(node_count as nat));
        let mut a: usize = 0;
        while a < count
            invariant
                a <= count,
                count == left_len + right_len,
                left_len == left@.len(),
                right_len == right@.len(),
                count == self.roots@.len(),
                names == left@ + right@,
                are_positions(names, self.roots@, node_count as nat),
                global@.len() == node_count,
                global@ == lowered(names, self.roots@, node_count as nat, a as int),
            decreases count - a,
        {
            let name: u32 = if a < left_len {
                left[a]
            } else {
                right[a - left_len]
            };
            let root: usize = self.roots.words[a] as usize;
            assert(self.roots@[a as int] < names.len());
            let root_name: u32 = if root < left_len {
                left[root]
            } else {
                right[root - left_len]
            };
            assert(name == names[a as int]);
            assert(root_name == names[root as int]);
            if name < global[root_name as usize] {
                global.set(root_name as usize, name);
            }
            a = a + 1;
        }
        let mut b: usize = 0;
        while b < count
            invariant
                b <= count,
                count == left_len + right_len,
                left_len == left@.len(),
                right_len == right@.len(),
                count == self.roots@.len(),
                names == left@ + right@,
                are_positions(names, self.roots@, node_count as nat),
                global@.len() == node_count,
                global@ == settled(names, self.roots@, node_count as nat, b as int),
            decreases count - b,
        {
            let name: u32 = if b < left_len {
                left[b]
            } else {
                right[b - left_len]
            };
            let root: usize = self.roots.words[b] as usize;
            assert(self.roots@[b as int] < names.len());
            let root_name: u32 = if root < left_len {
                left[root]
            } else {
                right[root - left_len]
            };
            assert(name == names[b as int]);
            assert(root_name == names[root as int]);
            let value: u32 = global[root_name as usize];
            assert(names[b as int] < node_count);
            global.set(name as usize, value);
            b = b + 1;
        }
        proof {
            assert(names == self.names(*scopes));
            assert forall|edges: Seq<Edge>, local: Seq<Edge>|
                #[trigger] graph::relabels(edges, local, name_nodes(names)) && are_distinct(names)
                    && graph::are_component_roots(
                    local,
                    self.roots@,
                ) implies graph::are_component_roots(edges, global@) by {
                lemma_expanded_roots(edges, local, names, self.roots@, node_count as nat);
            }
        }
        Some(global)
    }
}

/// The least name of root `root` among the first `count` names, or the root's own.
spec fn least_name(names: Seq<u32>, roots: Seq<u32>, root: int, count: int) -> u32
    decreases count,
{
    if count <= 0 {
        names[root]
    } else {
        let before = least_name(names, roots, root, count - 1);
        if roots[count - 1] == root && names[count - 1] < before {
            names[count - 1]
        } else {
            before
        }
    }
}

proof fn lemma_least_name(names: Seq<u32>, roots: Seq<u32>, root: int, count: int)
    requires
        0 <= count <= roots.len(),
        roots.len() == names.len(),
        0 <= root < names.len(),
    ensures
        least_name(names, roots, root, count) == names[root] || exists|i: int|
            0 <= i < count && #[trigger] roots[i] == root && names[i] == least_name(
                names,
                roots,
                root,
                count,
            ),
        forall|i: int|
            0 <= i < count && #[trigger] roots[i] == root ==> least_name(names, roots, root, count)
                <= names[i],
    decreases count,
{
    if count > 0 {
        lemma_least_name(names, roots, root, count - 1);
        let before = least_name(names, roots, root, count - 1);
        if roots[count - 1] == root && names[count - 1] < before {
            assert(roots[count - 1] == root);
        } else if before != names[root] {
            let i = choose|i: int|
                0 <= i < count - 1 && #[trigger] roots[i] == root && names[i] == before;
            assert(0 <= i < count && roots[i] == root && names[i] == before);
        }
    }
}

/// No name occurs twice.
pub open spec fn are_distinct(names: Seq<u32>) -> bool {
    forall|i: int, j: int| 0 <= i < j < names.len() ==> names[i] != names[j]
}

proof fn lemma_lowered(names: Seq<u32>, roots: Seq<u32>, node_count: nat, count: int)
    requires
        are_positions(names, roots, node_count),
        are_distinct(names),
        node_count <= u32::MAX,
        0 <= count <= roots.len(),
    ensures
        lowered(names, roots, node_count, count).len() == node_count,
        forall|r: int|
            0 <= r < names.len() ==> lowered(names, roots, node_count, count)[(
            #[trigger] names[r]) as int] == least_name(names, roots, r, count),
        forall|node: int|
            0 <= node < node_count && !names.contains(node as u32) ==> #[trigger] lowered(
                names,
                roots,
                node_count,
                count,
            )[node] == node,
    decreases count,
{
    if count > 0 {
        lemma_lowered(names, roots, node_count, count - 1);
        let root = roots[count - 1] as int;
        assert(names[root] < node_count);
        assert(names.contains(names[root]));
        assert forall|r: int| 0 <= r < names.len() implies lowered(
            names,
            roots,
            node_count,
            count,
        )[(#[trigger] names[r]) as int] == least_name(names, roots, r, count) by {
            if r != root {
                assert(names[r] != names[root]);
            }
        }
    }
}

proof fn lemma_settled(names: Seq<u32>, roots: Seq<u32>, node_count: nat, count: int)
    requires
        are_positions(names, roots, node_count),
        are_distinct(names),
        node_count <= u32::MAX,
        0 <= count <= roots.len(),
        forall|i: int| 0 <= i < roots.len() ==> roots[(#[trigger] roots[i]) as int] == roots[i],
    ensures
        settled(names, roots, node_count, count).len() == node_count,
        forall|i: int|
            0 <= i < names.len() && (i < count || roots[i] == i) ==> settled(
                names,
                roots,
                node_count,
                count,
            )[(#[trigger] names[i]) as int] == least_name(
                names,
                roots,
                roots[i] as int,
                roots.len() as int,
            ),
        forall|node: int|
            0 <= node < node_count && !names.contains(node as u32) ==> #[trigger] settled(
                names,
                roots,
                node_count,
                count,
            )[node] == node,
    decreases count,
{
    if count <= 0 {
        lemma_lowered(names, roots, node_count, roots.len() as int);
    } else {
        lemma_settled(names, roots, node_count, count - 1);
        let before = settled(names, roots, node_count, count - 1);
        let at = count - 1;
        let root = roots[at] as int;
        assert(roots[root] == root);
        assert(names[at] < node_count);
        assert(names.contains(names[at]));
        assert forall|i: int| 0 <= i < names.len() && (i < count || roots[i] == i) implies settled(
            names,
            roots,
            node_count,
            count,
        )[(#[trigger] names[i]) as int] == least_name(
            names,
            roots,
            roots[i] as int,
            roots.len() as int,
        ) by {
            if i != at {
                assert(names[i] != names[at]);
            } else {
                assert(before[names[root] as int] == least_name(
                    names,
                    roots,
                    root,
                    roots.len() as int,
                ));
            }
        }
    }
}

proof fn lemma_reaches_names(
    edges: Seq<Edge>,
    local: Seq<Edge>,
    names: Seq<int>,
    walk: Seq<int>,
    a: int,
    b: int,
)
    requires
        graph::relabels(edges, local, names),
        graph::is_walk(edges, walk, a, b),
    ensures
        a == b || (names.contains(a) && names.contains(b)),
    decreases walk.len(),
{
    if walk.len() > 1 {
        let last = walk.len() - 2;
        assert(graph::follows_edge(edges, walk, 0));
        assert(graph::follows_edge(edges, walk, last as int));
        let first = choose|e: int|
            0 <= e < edges.len() && graph::joins(#[trigger] edges[e], walk[0], walk[1]);
        let end = choose|e: int|
            0 <= e < edges.len() && graph::joins(
                #[trigger] edges[e],
                walk[last as int],
                walk[last + 1],
            );
        assert(graph::relabels_at(edges, local, names, first));
        assert(graph::relabels_at(edges, local, names, end));
    }
}

/// Names as nodes.
pub open spec fn name_nodes(names: Seq<u32>) -> Seq<int> {
    names.map_values(|name: u32| name as int)
}

/// Roots of edges over list positions, expanded, are the roots of the edges over the names:
/// reducing a pair of chains by positions and expanding gives what reducing all contracts
/// gives.
pub proof fn lemma_expanded_roots(
    edges: Seq<Edge>,
    local: Seq<Edge>,
    names: Seq<u32>,
    roots: Seq<u32>,
    node_count: nat,
)
    requires
        are_positions(names, roots, node_count),
        are_distinct(names),
        node_count <= u32::MAX,
        graph::are_component_roots(local, roots),
        graph::relabels(edges, local, name_nodes(names)),
    ensures
        expanded(names, roots, node_count).len() == node_count,
        graph::are_component_roots(edges, expanded(names, roots, node_count)),
{
    let nodes = name_nodes(names);
    let result = expanded(names, roots, node_count);
    let count = roots.len() as int;
    assert(graph::distinct_names(nodes));
    assert forall|i: int| 0 <= i < roots.len() implies roots[(#[trigger] roots[i]) as int]
        == roots[i] by {
        let r = roots[i] as int;
        assert(graph::is_component_minimum(local, i, roots[i] as int));
        assert(graph::is_component_minimum(local, r, roots[r] as int));
        graph::lemma_connected_transitive(local, i, r, roots[r] as int);
        graph::lemma_connected_reflexive(local, r);
        assert(graph::connected(local, r, r));
    }
    lemma_settled(names, roots, node_count, count);
    assert forall|node: int| 0 <= node < result.len() implies graph::is_component_minimum(
        edges,
        node,
        #[trigger] result[node] as int,
    ) by {
        if names.contains(node as u32) {
            let i = names.index_of(node as u32);
            let root = roots[i] as int;
            assert(names[i] == node);
            assert(nodes[i] == node);
            assert(graph::is_component_minimum(local, i, roots[i] as int));
            lemma_least_name(names, roots, root, count);
            let least = least_name(names, roots, root, count);
            assert(result[names[i] as int] == least);
            let m = if least == names[root] {
                root
            } else {
                choose|m: int| 0 <= m < count && #[trigger] roots[m] == root && names[m] == least
            };
            assert(nodes[m] == least);
            if m != root {
                assert(graph::is_component_minimum(local, m, roots[m] as int));
                graph::lemma_connected_symmetric(local, m, root);
                graph::lemma_connected_transitive(local, i, root, m);
            }
            graph::lemma_relabel_connectivity(edges, local, nodes, i, m);
            assert forall|other: int|
                0 <= other && #[trigger] graph::connected(edges, node, other) implies least
                <= other by {
                let walk = choose|walk: Seq<int>| graph::is_walk(edges, walk, node, other);
                lemma_reaches_names(edges, local, nodes, walk, node, other);
                assert(nodes.contains(other)) by {
                    if node == other {
                        assert(nodes[i] == other);
                    }
                }
                let k = choose|k: int| 0 <= k < nodes.len() && nodes[k] == other;
                graph::lemma_relabel_connectivity(edges, local, nodes, i, k);
                assert(graph::connected(local, i, k));
                assert(graph::is_component_minimum(local, k, roots[k] as int));
                graph::lemma_connected_symmetric(local, i, k);
                graph::lemma_connected_transitive(local, k, i, roots[i] as int);
                graph::lemma_connected_transitive(local, i, k, roots[k] as int);
                assert(roots[k] == root);
            }
        } else {
            assert(result[node] == node);
            graph::lemma_connected_reflexive(edges, node);
            assert forall|other: int|
                0 <= other && #[trigger] graph::connected(edges, node, other) implies node
                <= other by {
                let walk = choose|walk: Seq<int>| graph::is_walk(edges, walk, node, other);
                lemma_reaches_names(edges, local, nodes, walk, node, other);
                if node != other {
                    let k = choose|k: int| 0 <= k < nodes.len() && nodes[k] == node;
                    assert(names[k] == node as u32);
                }
            }
        }
    }
}

} // verus!
