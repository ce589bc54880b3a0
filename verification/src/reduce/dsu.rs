//! Union-find over node identities with the smallest node of a set as its root.

use crate::reduce::forest;
use crate::reduce::graph;
use crate::reduce::graph::Edge;
use vstd::prelude::*;

verus! {

/// No node has a parent above itself.
pub open spec fn parents_descend(parent: Seq<u32>) -> bool {
    forall|i: int| 0 <= i < parent.len() ==> #[trigger] parent[i] <= i
}

/// The node at which the chain of parents from `node` ends.
pub open spec fn root_of(parent: Seq<u32>, node: int) -> int
    decreases node,
{
    if 0 <= node < parent.len() && parent[node] < node {
        root_of(parent, parent[node] as int)
    } else {
        node
    }
}

/// The sets are exactly the connected components of `edges`.
pub open spec fn represents(parent: Seq<u32>, edges: Seq<Edge>) -> bool {
    &&& parents_descend(parent)
    &&& forall|a: int, b: int|
        0 <= a < parent.len() && 0 <= b < parent.len() ==> (#[trigger] root_of(parent, a)
            == #[trigger] root_of(parent, b) <==> graph::connected(edges, a, b))
}

/// Every node is alone in its set.
pub open spec fn is_discrete(parent: Seq<u32>) -> bool {
    forall|i: int| 0 <= i < parent.len() ==> #[trigger] parent[i] == i
}

/// Only nodes of `nodes` have, or are, the parent of another node.
pub open spec fn confined(parent: Seq<u32>, nodes: Set<int>) -> bool {
    forall|i: int|
        0 <= i < parent.len() && #[trigger] parent[i] != i ==> nodes.contains(i) && nodes.contains(
            parent[i] as int,
        )
}

proof fn lemma_root_confined(parent: Seq<u32>, nodes: Set<int>, node: int)
    requires
        parents_descend(parent),
        confined(parent, nodes),
        0 <= node < parent.len(),
        nodes.contains(node),
    ensures
        nodes.contains(root_of(parent, node)),
    decreases node,
{
    if parent[node] < node {
        lemma_root_confined(parent, nodes, parent[node] as int);
    }
}

/// The root of a node is the end of its chain of parents: at or below the node, and its own
/// parent.
pub proof fn lemma_root_bounds(parent: Seq<u32>, node: int)
    requires
        parents_descend(parent),
        0 <= node < parent.len(),
    ensures
        0 <= root_of(parent, node) <= node,
        parent[root_of(parent, node)] == root_of(parent, node),
        root_of(parent, root_of(parent, node)) == root_of(parent, node),
    decreases node,
{
    if parent[node] < node {
        lemma_root_bounds(parent, parent[node] as int);
    }
}

proof fn lemma_compress(parent: Seq<u32>, at: int, node: int)
    requires
        parents_descend(parent),
        0 <= at < parent.len(),
        0 <= node < parent.len(),
    ensures
        root_of(parent.update(at, root_of(parent, at) as u32), node) == root_of(parent, node),
    decreases node,
{
    lemma_root_bounds(parent, at);
    let shorter = parent.update(at, root_of(parent, at) as u32);
    if node == at {
        let root = root_of(parent, at);
        if root < node {
            assert(shorter[root] == root);
            assert(root_of(shorter, root) == root);
        }
    } else if parent[node] < node {
        lemma_compress(parent, at, parent[node] as int);
    }
}

proof fn lemma_link(parent: Seq<u32>, high: int, low: int, node: int)
    requires
        parents_descend(parent),
        0 <= low < high < parent.len(),
        parent[high] == high,
        parent[low] == low,
        0 <= node < parent.len(),
    ensures
        root_of(parent.update(high, low as u32), node) == (if root_of(parent, node) == high {
            low
        } else {
            root_of(parent, node)
        }),
    decreases node,
{
    let linked = parent.update(high, low as u32);
    if node == high {
        assert(linked[low] == low);
        assert(root_of(linked, low) == low);
    } else if parent[node] < node {
        lemma_link(parent, high, low, parent[node] as int);
    }
}

pub proof fn lemma_discrete_represents(parent: Seq<u32>)
    requires
        is_discrete(parent),
    ensures
        represents(parent, Seq::empty()),
{
    assert forall|a: int, b: int| 0 <= a < parent.len() && 0 <= b < parent.len() implies (
    #[trigger] root_of(parent, a) == #[trigger] root_of(parent, b) <==> graph::connected(
        Seq::empty(),
        a,
        b,
    )) by {
        graph::lemma_connected_empty(a, b);
    }
}

/// Joining the sets of an edge's endpoints adds the edge to the graph.
proof fn lemma_union_represents(before: Seq<u32>, after: Seq<u32>, edges: Seq<Edge>, edge: Edge)
    requires
        represents(before, edges),
        parents_descend(after),
        before.len() == after.len(),
        edge.within(before.len() as int),
        ({
            let x = root_of(before, edge.left as int);
            let y = root_of(before, edge.right as int);
            let low = if x <= y { x } else { y };
            let high = if x <= y { y } else { x };
            forall|node: int|
                0 <= node < before.len() ==> #[trigger] root_of(after, node) == (if root_of(
                    before,
                    node,
                ) == high {
                    low
                } else {
                    root_of(before, node)
                })
        }),
    ensures
        represents(after, edges.push(edge)),
{
    let l = edge.left as int;
    let r = edge.right as int;
    assert forall|a: int, b: int| 0 <= a < after.len() && 0 <= b < after.len() implies (
    #[trigger] root_of(after, a) == #[trigger] root_of(after, b) <==> graph::connected(
        edges.push(edge),
        a,
        b,
    )) by {
        graph::lemma_connected_push(edges, edge, a, b);
        assert(root_of(before, a) == root_of(before, b) <==> graph::connected(edges, a, b));
        assert(root_of(before, a) == root_of(before, l) <==> graph::connected(edges, a, l));
        assert(root_of(before, r) == root_of(before, b) <==> graph::connected(edges, r, b));
        assert(root_of(before, a) == root_of(before, r) <==> graph::connected(edges, a, r));
        assert(root_of(before, l) == root_of(before, b) <==> graph::connected(edges, l, b));
    }
}

/// In a union-find that represents a graph, the root of a node is the smallest node of its
/// component.
pub proof fn lemma_root_is_minimum(parent: Seq<u32>, edges: Seq<Edge>, node: int)
    requires
        represents(parent, edges),
        graph::all_within(edges, parent.len() as int),
        0 <= node < parent.len(),
    ensures
        graph::is_component_minimum(edges, node, root_of(parent, node)),
{
    lemma_root_bounds(parent, node);
    let root = root_of(parent, node);
    assert(root_of(parent, root) == root_of(parent, node));
    assert forall|other: int| 0 <= other && #[trigger] graph::connected(edges, node, other) implies root
        <= other by {
        lemma_reachable_within(edges, parent.len() as int, node, other);
        lemma_root_bounds(parent, other);
        assert(root_of(parent, node) == root_of(parent, other));
    }
}

/// Edges between nodes below `node_count` do not lead out of that range.
pub proof fn lemma_reachable_within(edges: Seq<Edge>, node_count: int, a: int, b: int)
    requires
        graph::all_within(edges, node_count),
        0 <= a < node_count,
        graph::connected(edges, a, b),
    ensures
        0 <= b < node_count,
{
    let walk = choose|walk: Seq<int>| graph::is_walk(edges, walk, a, b);
    if walk.len() > 1 {
        assert(graph::follows_edge(edges, walk, walk.len() - 2));
        let k = choose|k: int|
            0 <= k < edges.len() && graph::joins(#[trigger] edges[k], walk[walk.len() - 2], b);
        assert(edges[k].within(node_count));
    }
}

/// How many nodes below `end` have another node as parent.
pub open spec fn joined_nodes(parent: Seq<u32>, end: int) -> nat
    decreases end,
{
    if end <= 0 {
        0
    } else {
        joined_nodes(parent, end - 1) + (if parent[end - 1] != end - 1 {
            1nat
        } else {
            0
        })
    }
}

proof fn lemma_joined_nodes_link(parent: Seq<u32>, high: int, low: u32, end: int)
    requires
        0 <= high < parent.len(),
        0 <= end <= parent.len(),
        parent[high] == high,
        low != high,
    ensures
        joined_nodes(parent.update(high, low), end) == joined_nodes(parent, end) + (if high < end {
            1nat
        } else {
            0
        }),
    decreases end,
{
    if end > 0 {
        lemma_joined_nodes_link(parent, high, low, end - 1);
    }
}

proof fn lemma_joined_nodes_bound(parent: Seq<u32>, end: int)
    requires
        parents_descend(parent),
        0 <= end <= parent.len(),
    ensures
        joined_nodes(parent, end) <= (if end > 0 {
            end - 1
        } else {
            0
        }),
    decreases end,
{
    if end > 1 {
        lemma_joined_nodes_bound(parent, end - 1);
    } else if end == 1 {
        assert(parent[0] <= 0);
        assert(joined_nodes(parent, 0) == 0);
    }
}

proof fn lemma_joined_nodes_discrete(parent: Seq<u32>, end: int)
    requires
        is_discrete(parent),
        0 <= end <= parent.len(),
    ensures
        joined_nodes(parent, end) == 0,
    decreases end,
{
    if end > 0 {
        lemma_joined_nodes_discrete(parent, end - 1);
    }
}

/// Some union-find represents the graph, with one joined node for each edge of its spanning
/// forest.
pub proof fn lemma_union_find_exists(edges: Seq<Edge>, node_count: u32) -> (parent: Seq<u32>)
    requires
        graph::all_within(edges, node_count as int),
    ensures
        parent.len() == node_count,
        represents(parent, edges),
        joined_nodes(parent, node_count as int) == forest::spanning_edges(edges).len(),
    decreases edges.len(),
{
    if edges.len() == 0 {
        let parent = Seq::new(node_count as nat, |i: int| i as u32);
        lemma_discrete_represents(parent);
        lemma_joined_nodes_discrete(parent, node_count as int);
        assert(edges =~= Seq::empty());
        parent
    } else {
        let earlier = edges.drop_last();
        let edge = edges.last();
        assert(edges =~= earlier.push(edge));
        assert(edge == edges[edges.len() - 1]);
        assert forall|i: int| 0 <= i < earlier.len() implies (#[trigger] earlier[i]).within(
            node_count as int,
        ) by {
            assert(earlier[i] == edges[i]);
        }
        let before = lemma_union_find_exists(earlier, node_count);
        let x = root_of(before, edge.left as int);
        let y = root_of(before, edge.right as int);
        lemma_root_bounds(before, edge.left as int);
        lemma_root_bounds(before, edge.right as int);
        assert(x == y <==> graph::connected(earlier, edge.left as int, edge.right as int));
        if x == y {
            lemma_union_represents(before, before, earlier, edge);
            before
        } else {
            let low = if x <= y {
                x
            } else {
                y
            };
            let high = if x <= y {
                y
            } else {
                x
            };
            let after = before.update(high, low as u32);
            assert forall|node: int| 0 <= node < before.len() implies #[trigger] root_of(after, node)
                == (if root_of(before, node) == high {
                low
            } else {
                root_of(before, node)
            }) by {
                lemma_link(before, high, low, node);
            }
            lemma_union_represents(before, after, earlier, edge);
            lemma_joined_nodes_link(before, high, low as u32, node_count as int);
            after
        }
    }
}

/// A spanning forest has fewer edges than there are nodes.
pub proof fn lemma_forest_is_small(edges: Seq<Edge>, node_count: u32)
    requires
        graph::all_within(edges, node_count as int),
    ensures
        forest::spanning_edges(edges).len() <= (if node_count > 0 {
            node_count - 1
        } else {
            0
        }),
{
    let parent = lemma_union_find_exists(edges, node_count);
    lemma_joined_nodes_bound(parent, node_count as int);
}

/// Every graph has component roots.
pub proof fn lemma_component_roots_exist(edges: Seq<Edge>, node_count: u32) -> (roots: Seq<u32>)
    requires
        graph::all_within(edges, node_count as int),
    ensures
        roots.len() == node_count,
        graph::are_component_roots(edges, roots),
{
    let parent = lemma_union_find_exists(edges, node_count);
    let roots = Seq::new(node_count as nat, |i: int| root_of(parent, i) as u32);
    assert forall|node: int| 0 <= node < roots.len() implies graph::is_component_minimum(
        edges,
        node,
        #[trigger] roots[node] as int,
    ) by {
        lemma_root_bounds(parent, node);
        lemma_root_is_minimum(parent, edges, node);
    }
    roots
}

proof fn lemma_joined_nodes_full(parent: Seq<u32>, end: int)
    requires
        parents_descend(parent),
        1 <= end <= parent.len(),
    ensures
        joined_nodes(parent, end) == end - 1 <==> forall|i: int|
            0 < i < end ==> #[trigger] parent[i] != i,
    decreases end,
{
    if end == 1 {
        assert(parent[0] <= 0);
        assert(joined_nodes(parent, 0) == 0);
    } else {
        lemma_joined_nodes_full(parent, end - 1);
        lemma_joined_nodes_bound(parent, end - 1);
        assert(parent[end - 1] <= end - 1);
    }
}

/// All nodes are connected exactly where a spanning forest has one edge less than there are
/// nodes.
pub proof fn lemma_spanning_tree(edges: Seq<Edge>, node_count: u32)
    requires
        graph::all_within(edges, node_count as int),
        node_count > 0,
    ensures
        forest::spanning_edges(edges).len() == node_count - 1 <==> forall|a: int, b: int|
            0 <= a < node_count && 0 <= b < node_count ==> #[trigger] graph::connected(edges, a, b),
{
    let parent = lemma_union_find_exists(edges, node_count);
    lemma_joined_nodes_full(parent, node_count as int);
    if forest::spanning_edges(edges).len() == node_count - 1 {
        assert forall|a: int, b: int| 0 <= a < node_count && 0 <= b < node_count implies
            #[trigger] graph::connected(edges, a, b) by {
            lemma_root_bounds(parent, a);
            lemma_root_bounds(parent, b);
            assert(root_of(parent, a) == root_of(parent, b));
        }
    }
    if forall|a: int, b: int|
        0 <= a < node_count && 0 <= b < node_count ==> #[trigger] graph::connected(edges, a, b) {
        assert forall|i: int| 0 < i < node_count implies #[trigger] parent[i] != i by {
            assert(graph::connected(edges, i, 0));
            lemma_root_bounds(parent, 0);
            assert(root_of(parent, i) == root_of(parent, 0));
        }
    }
}

proof fn lemma_grown_root(parent: Seq<u32>, node: int)
    requires
        parents_descend(parent),
        0 <= node < parent.len() <= u32::MAX,
    ensures
        root_of(parent.push(parent.len() as u32), node) == root_of(parent, node),
    decreases node,
{
    if parent[node] < node {
        lemma_grown_root(parent, parent[node] as int);
    }
}

proof fn lemma_grown_represents(parent: Seq<u32>, edges: Seq<Edge>)
    requires
        represents(parent, edges),
        graph::all_within(edges, parent.len() as int),
        parent.len() <= u32::MAX,
    ensures
        represents(parent.push(parent.len() as u32), edges),
{
    let more = parent.push(parent.len() as u32);
    let last = parent.len() as int;
    assert forall|a: int, b: int| 0 <= a < more.len() && 0 <= b < more.len() implies (
    #[trigger] root_of(more, a) == #[trigger] root_of(more, b) <==> graph::connected(
        edges,
        a,
        b,
    )) by {
        if a < last {
            lemma_grown_root(parent, a);
            lemma_root_bounds(parent, a);
        }
        if b < last {
            lemma_grown_root(parent, b);
            lemma_root_bounds(parent, b);
        }
        if a < last && b < last {
            assert(root_of(parent, a) == root_of(parent, b) <==> graph::connected(edges, a, b));
        } else if a == b {
            graph::lemma_connected_reflexive(edges, a);
        } else if graph::connected(edges, a, b) {
            if a < last {
                lemma_reachable_within(edges, last, a, b);
            } else {
                graph::lemma_connected_symmetric(edges, a, b);
                lemma_reachable_within(edges, last, b, a);
            }
        }
    }
}

/// A union-find whose roots are the smallest nodes of their sets.
pub struct Dsu {
    pub parent: Vec<u32>,
}

impl Dsu {
    pub open spec fn wf(&self) -> bool {
        parents_descend(self.parent@)
    }

    /// Every one of `node_count` nodes alone in its set.
    pub fn new(node_count: u32) -> (dsu: Dsu)
        ensures
            dsu.parent@.len() == node_count,
            is_discrete(dsu.parent@),
            represents(dsu.parent@, Seq::empty()),
    {
        let mut parent: Vec<u32> = Vec::new();
        let mut node: u32 = 0;
        while node < node_count
            invariant
                node <= node_count,
                parent@.len() == node,
                is_discrete(parent@),
            decreases node_count - node,
        {
            parent.push(node);
            node = node + 1;
        }
        proof {
            lemma_discrete_represents(parent@);
        }
        Dsu { parent }
    }

    /// The root of `node`. Shortens the chain of parents on the way and leaves every root
    /// as it was.
    pub fn find(&mut self, node: u32) -> (root: u32)
        requires
            old(self).wf(),
            node < old(self).parent@.len(),
        ensures
            final(self).wf(),
            final(self).parent@.len() == old(self).parent@.len(),
            root == root_of(old(self).parent@, node as int),
            root < old(self).parent@.len(),
            final(self).parent@[root as int] == root,
            forall|other: int|
                0 <= other < old(self).parent@.len() ==> #[trigger] root_of(
                    final(self).parent@,
                    other,
                ) == root_of(old(self).parent@, other),
            forall|edges: Seq<Edge>| #[trigger]
                represents(old(self).parent@, edges) ==> represents(final(self).parent@, edges),
            forall|other: int|
                0 <= other < old(self).parent@.len() && old(self).parent@[other] == other
                    ==> #[trigger] final(self).parent@[other] == other,
            forall|nodes: Set<int>| #[trigger]
                confined(old(self).parent@, nodes) && nodes.contains(node as int) ==> confined(
                    final(self).parent@,
                    nodes,
                ),
    {
        let ghost start = self.parent@;
        let mut root: u32 = node;
        while self.parent[root as usize] != root
            invariant
                self.parent@ == start,
                parents_descend(start),
                root < start.len(),
                root_of(start, root as int) == root_of(start, node as int),
            decreases root,
        {
            root = self.parent[root as usize];
        }
        proof {
            lemma_root_bounds(start, node as int);
            assert forall|nodes: Set<int>| #[trigger]
                confined(start, nodes) && nodes.contains(node as int) implies nodes.contains(
                root as int,
            ) by {
                lemma_root_confined(start, nodes, node as int);
            }
        }
        let mut cursor: u32 = node;
        while self.parent[cursor as usize] != cursor
            invariant
                parents_descend(self.parent@),
                self.parent@.len() == start.len(),
                cursor < start.len(),
                root < start.len(),
                root == root_of(start, node as int),
                root_of(self.parent@, cursor as int) == root,
                forall|other: int|
                    0 <= other < start.len() ==> #[trigger] root_of(self.parent@, other)
                        == root_of(start, other),
                forall|other: int|
                    0 <= other < start.len() && start[other] == other
                        ==> #[trigger] self.parent@[other] == other,
                forall|nodes: Set<int>| #[trigger]
                    confined(start, nodes) && nodes.contains(node as int) ==> {
                        &&& confined(self.parent@, nodes)
                        &&& nodes.contains(root as int)
                    },
            decreases cursor,
        {
            let next: u32 = self.parent[cursor as usize];
            let ghost before = self.parent@;
            proof {
                lemma_root_bounds(before, cursor as int);
                assert forall|other: int| 0 <= other < start.len() implies #[trigger] root_of(
                    before.update(cursor as int, root),
                    other,
                ) == root_of(start, other) by {
                    lemma_compress(before, cursor as int, other);
                    assert(root_of(before, other) == root_of(start, other));
                }
                assert(root_of(before, next as int) == root);
                lemma_compress(before, cursor as int, next as int);
            }
            self.parent.set(cursor as usize, root);
            cursor = next;
        }
        proof {
            lemma_root_bounds(start, node as int);
            assert(start[root as int] == root);
            assert forall|edges: Seq<Edge>| #[trigger] represents(start, edges) implies represents(
                self.parent@,
                edges,
            ) by {
                assert forall|a: int, b: int| 0 <= a < start.len() && 0 <= b < start.len() implies (
                #[trigger] root_of(self.parent@, a) == #[trigger] root_of(self.parent@, b)
                    <==> graph::connected(edges, a, b)) by {
                    assert(root_of(start, a) == root_of(start, b) <==> graph::connected(edges, a, b));
                }
            }
        }
        root
    }

    /// Joins the sets of `edge`'s endpoints. The result says whether they were apart.
    pub fn union(&mut self, edge: Edge) -> (joined: bool)
        requires
            old(self).wf(),
            edge.within(old(self).parent@.len() as int),
        ensures
            final(self).wf(),
            final(self).parent@.len() == old(self).parent@.len(),
            joined <==> root_of(old(self).parent@, edge.left as int) != root_of(
                old(self).parent@,
                edge.right as int,
            ),
            forall|edges: Seq<Edge>| #[trigger]
                represents(old(self).parent@, edges) ==> {
                    &&& joined <==> !graph::connected(edges, edge.left as int, edge.right as int)
                    &&& represents(final(self).parent@, edges.push(edge))
                },
            forall|nodes: Set<int>| #[trigger]
                confined(old(self).parent@, nodes) && nodes.contains(edge.left as int)
                    && nodes.contains(edge.right as int) ==> confined(final(self).parent@, nodes),
    {
        let ghost start = self.parent@;
        let x: u32 = self.find(edge.left);
        let ghost middle = self.parent@;
        let y: u32 = self.find(edge.right);
        let ghost ready = self.parent@;
        proof {
            assert(root_of(middle, edge.right as int) == root_of(start, edge.right as int));
            assert forall|node: int| 0 <= node < start.len() implies #[trigger] root_of(ready, node)
                == root_of(start, node) by {
                assert(root_of(middle, node) == root_of(start, node));
            }
            lemma_root_bounds(start, edge.left as int);
            lemma_root_bounds(start, edge.right as int);
        }
        let low: u32 = if x <= y {
            x
        } else {
            y
        };
        let high: u32 = if x <= y {
            y
        } else {
            x
        };
        if x != y {
            self.parent.set(high as usize, low);
        }
        proof {
            let after = self.parent@;
            assert forall|node: int| 0 <= node < start.len() implies #[trigger] root_of(after, node)
                == (if root_of(start, node) == high {
                low as int
            } else {
                root_of(start, node)
            }) by {
                if x != y {
                    lemma_link(ready, high as int, low as int, node);
                }
                assert(root_of(ready, node) == root_of(start, node));
            }
            assert forall|edges: Seq<Edge>| #[trigger] represents(start, edges) implies {
                &&& (x != y) <==> !graph::connected(edges, edge.left as int, edge.right as int)
                &&& represents(after, edges.push(edge))
            } by {
                lemma_union_represents(start, after, edges, edge);
            }
            assert forall|nodes: Set<int>| #[trigger]
                confined(start, nodes) && nodes.contains(edge.left as int) && nodes.contains(
                    edge.right as int,
                ) implies confined(after, nodes) by {
                assert(confined(middle, nodes));
                assert(confined(ready, nodes));
                lemma_root_confined(start, nodes, edge.left as int);
                lemma_root_confined(start, nodes, edge.right as int);
            }
        }
        x != y
    }

    /// Adds a node, alone in its set.
    pub fn grow(&mut self)
        requires
            old(self).wf(),
            old(self).parent@.len() < u32::MAX,
        ensures
            final(self).wf(),
            final(self).parent@ == old(self).parent@.push(old(self).parent@.len() as u32),
            forall|edges: Seq<Edge>| #[trigger]
                represents(old(self).parent@, edges) && graph::all_within(
                    edges,
                    old(self).parent@.len() as int,
                ) ==> represents(final(self).parent@, edges),
    {
        let ghost before = self.parent@;
        self.parent.push(self.parent.len() as u32);
        proof {
            let after = self.parent@;
            assert forall|edges: Seq<Edge>| #[trigger]
                represents(before, edges) && graph::all_within(
                    edges,
                    before.len() as int,
                ) implies represents(after, edges) by {
                lemma_grown_represents(before, edges);
            }
        }
    }

    /// Makes `node` its own parent again.
    pub fn reset(&mut self, node: u32)
        requires
            node < old(self).parent@.len(),
        ensures
            final(self).parent@ == old(self).parent@.update(node as int, node),
    {
        self.parent.set(node as usize, node);
    }
}

} // verus!
