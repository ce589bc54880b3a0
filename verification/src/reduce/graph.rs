//! Undirected edges between node identities and the connectivity they induce.

use vstd::prelude::*;

verus! {

/// An undirected edge. [`Edge::new`] stores the smaller endpoint on the left.
#[derive(Debug, Clone, Copy, PartialEq, Eq, PartialOrd, Ord, Structural)]
pub struct Edge {
    pub left: u32,
    pub right: u32,
}

impl Edge {
    /// The edge between `a` and `b`, smaller endpoint first.
    pub open spec fn between(a: u32, b: u32) -> Edge {
        if a <= b {
            Edge { left: a, right: b }
        } else {
            Edge { left: b, right: a }
        }
    }

    pub fn new(a: u32, b: u32) -> (edge: Edge)
        ensures
            edge == Edge::between(a, b),
            edge.left <= edge.right,
    {
        if a <= b {
            Edge { left: a, right: b }
        } else {
            Edge { left: b, right: a }
        }
    }

    /// Both endpoints name nodes below `node_count`.
    pub open spec fn within(self, node_count: int) -> bool {
        self.left < node_count && self.right < node_count
    }
}

/// `edge` joins `a` and `b`, in either direction.
pub open spec fn joins(edge: Edge, a: int, b: int) -> bool {
    (edge.left == a && edge.right == b) || (edge.left == b && edge.right == a)
}

/// Some edge joins `a` and `b`.
pub open spec fn adjacent(edges: Seq<Edge>, a: int, b: int) -> bool {
    exists|i: int| 0 <= i < edges.len() && joins(#[trigger] edges[i], a, b)
}

/// Step `i` of the walk follows an edge.
pub open spec fn follows_edge(edges: Seq<Edge>, walk: Seq<int>, i: int) -> bool {
    adjacent(edges, walk[i], walk[i + 1])
}

/// `walk` leads from `a` to `b` along edges.
pub open spec fn is_walk(edges: Seq<Edge>, walk: Seq<int>, a: int, b: int) -> bool {
    &&& walk.len() >= 1
    &&& walk[0] == a
    &&& walk.last() == b
    &&& forall|i: int| 0 <= i < walk.len() - 1 ==> #[trigger] follows_edge(edges, walk, i)
}

/// `a` and `b` lie in one connected component of the graph with these edges.
pub open spec fn connected(edges: Seq<Edge>, a: int, b: int) -> bool {
    exists|walk: Seq<int>| is_walk(edges, walk, a, b)
}

/// Both edge sequences connect exactly the same nodes.
pub open spec fn same_connectivity(left: Seq<Edge>, right: Seq<Edge>) -> bool {
    forall|a: int, b: int| #[trigger] connected(left, a, b) <==> connected(right, a, b)
}

/// The node is an endpoint of an edge.
pub open spec fn touches(edges: Seq<Edge>, node: int) -> bool {
    exists|i: int|
        0 <= i < edges.len() && ((#[trigger] edges[i]).left == node || edges[i].right == node)
}

/// No edge is a loop.
pub open spec fn are_proper(edges: Seq<Edge>) -> bool {
    forall|i: int| 0 <= i < edges.len() ==> (#[trigger] edges[i]).left != edges[i].right
}

/// Every endpoint names a node below `node_count`.
pub open spec fn all_within(edges: Seq<Edge>, node_count: int) -> bool {
    forall|i: int| 0 <= i < edges.len() ==> (#[trigger] edges[i]).within(node_count)
}

/// `root` is the smallest node of the component of `node`.
pub open spec fn is_component_minimum(edges: Seq<Edge>, node: int, root: int) -> bool {
    &&& connected(edges, node, root)
    &&& forall|other: int| 0 <= other && #[trigger] connected(edges, node, other) ==> root <= other
}

/// `roots` names for every node the smallest node of its component.
pub open spec fn are_component_roots(edges: Seq<Edge>, roots: Seq<u32>) -> bool {
    forall|node: int|
        0 <= node < roots.len() ==> is_component_minimum(
            edges,
            node,
            #[trigger] roots[node] as int,
        )
}

/// Every node is connected to itself.
pub proof fn lemma_connected_reflexive(edges: Seq<Edge>, a: int)
    ensures
        connected(edges, a, a),
{
    assert(is_walk(edges, seq![a], a, a));
}

/// Connectivity is symmetric.
pub proof fn lemma_connected_symmetric(edges: Seq<Edge>, a: int, b: int)
    requires
        connected(edges, a, b),
    ensures
        connected(edges, b, a),
{
    let walk = choose|walk: Seq<int>| is_walk(edges, walk, a, b);
    let back = walk.reverse();
    assert forall|i: int| 0 <= i < back.len() - 1 implies #[trigger] follows_edge(
        edges,
        back,
        i,
    ) by {
        let j = walk.len() - 2 - i;
        assert(follows_edge(edges, walk, j));
        let k = choose|k: int| 0 <= k < edges.len() && joins(#[trigger] edges[k], walk[j], walk[j + 1]);
        assert(joins(edges[k], back[i], back[i + 1]));
    }
    assert(is_walk(edges, back, b, a));
}

/// Connectivity is transitive.
pub proof fn lemma_connected_transitive(edges: Seq<Edge>, a: int, b: int, c: int)
    requires
        connected(edges, a, b),
        connected(edges, b, c),
    ensures
        connected(edges, a, c),
{
    let first = choose|walk: Seq<int>| is_walk(edges, walk, a, b);
    let second = choose|walk: Seq<int>| is_walk(edges, walk, b, c);
    let whole = first + second.drop_first();
    assert forall|i: int| 0 <= i < whole.len() - 1 implies #[trigger] follows_edge(
        edges,
        whole,
        i,
    ) by {
        if i < first.len() - 1 {
            assert(follows_edge(edges, first, i));
            assert(whole[i] == first[i] && whole[i + 1] == first[i + 1]);
        } else {
            let j = i - (first.len() - 1);
            assert(follows_edge(edges, second, j));
            assert(whole[i] == second[j]);
            assert(whole[i + 1] == second[j + 1]);
        }
    }
    assert(whole[0] == a);
    if second.len() > 1 {
        assert(whole.last() == second.last());
    } else {
        assert(b == c);
        assert(whole.last() == first.last());
    }
    assert(is_walk(edges, whole, a, c));
}

/// Different nodes that are connected are endpoints of edges.
pub proof fn lemma_connected_touches(edges: Seq<Edge>, a: int, b: int)
    requires
        connected(edges, a, b),
        a != b,
    ensures
        touches(edges, a),
        touches(edges, b),
{
    let walk = choose|walk: Seq<int>| is_walk(edges, walk, a, b);
    let last = walk.len() - 2;
    assert(follows_edge(edges, walk, 0));
    assert(follows_edge(edges, walk, last));
    let i = choose|i: int| 0 <= i < edges.len() && joins(#[trigger] edges[i], walk[0], walk[1]);
    assert(edges[i].left == a || edges[i].right == a);
    let j = choose|j: int|
        0 <= j < edges.len() && joins(#[trigger] edges[j], walk[last], walk[last + 1]);
    assert(edges[j].left == b || edges[j].right == b);
}

/// An edge connects its endpoints.
pub proof fn lemma_edge_connects(edges: Seq<Edge>, i: int)
    requires
        0 <= i < edges.len(),
    ensures
        connected(edges, edges[i].left as int, edges[i].right as int),
{
    let walk = seq![edges[i].left as int, edges[i].right as int];
    assert(joins(edges[i], walk[0], walk[1]));
    assert(follows_edge(edges, walk, 0));
    assert(is_walk(edges, walk, edges[i].left as int, edges[i].right as int));
}

/// Where every edge of `left` has its endpoints connected in `right`, all that `left`
/// connects is connected in `right`.
pub proof fn lemma_connected_monotone(left: Seq<Edge>, right: Seq<Edge>, a: int, b: int)
    requires
        forall|i: int|
            0 <= i < left.len() ==> connected(
                right,
                (#[trigger] left[i]).left as int,
                left[i].right as int,
            ),
        connected(left, a, b),
    ensures
        connected(right, a, b),
{
    let walk = choose|walk: Seq<int>| is_walk(left, walk, a, b);
    lemma_walk_monotone(left, right, walk, a, b);
}

proof fn lemma_walk_monotone(left: Seq<Edge>, right: Seq<Edge>, walk: Seq<int>, a: int, b: int)
    requires
        forall|i: int|
            0 <= i < left.len() ==> connected(
                right,
                (#[trigger] left[i]).left as int,
                left[i].right as int,
            ),
        is_walk(left, walk, a, b),
    ensures
        connected(right, a, b),
    decreases walk.len(),
{
    if walk.len() == 1 {
        lemma_connected_reflexive(right, a);
    } else {
        let rest = walk.drop_last();
        let mid = rest.last();
        assert forall|i: int| 0 <= i < rest.len() - 1 implies #[trigger] follows_edge(
            left,
            rest,
            i,
        ) by {
            assert(follows_edge(left, walk, i));
        }
        lemma_walk_monotone(left, right, rest, a, mid);
        assert(follows_edge(left, walk, walk.len() - 2));
        let k = choose|k: int| 0 <= k < left.len() && joins(#[trigger] left[k], mid, b);
        assert(connected(right, left[k].left as int, left[k].right as int));
        if left[k].left != mid {
            lemma_connected_symmetric(right, left[k].left as int, left[k].right as int);
        }
        lemma_connected_transitive(right, a, mid, b);
    }
}

/// Connectivity depends only on which edges occur.
pub proof fn lemma_connectivity_of_members(left: Seq<Edge>, right: Seq<Edge>)
    requires
        forall|i: int| 0 <= i < left.len() ==> right.contains(#[trigger] left[i]),
        forall|i: int| 0 <= i < right.len() ==> left.contains(#[trigger] right[i]),
    ensures
        same_connectivity(left, right),
{
    assert forall|i: int| 0 <= i < left.len() implies connected(
        right,
        (#[trigger] left[i]).left as int,
        left[i].right as int,
    ) by {
        lemma_edge_connects(right, right.index_of(left[i]));
    }
    assert forall|i: int| 0 <= i < right.len() implies connected(
        left,
        (#[trigger] right[i]).left as int,
        right[i].right as int,
    ) by {
        lemma_edge_connects(left, left.index_of(right[i]));
    }
    assert forall|a: int, b: int| #[trigger] connected(left, a, b) <==> connected(right, a, b) by {
        if connected(left, a, b) {
            lemma_connected_monotone(left, right, a, b);
        }
        if connected(right, a, b) {
            lemma_connected_monotone(right, left, a, b);
        }
    }
}

/// Connectivity of a concatenation depends only on the connectivity of its parts.
pub proof fn lemma_concat_connectivity(
    left: Seq<Edge>,
    right: Seq<Edge>,
    left_other: Seq<Edge>,
    right_other: Seq<Edge>,
)
    requires
        same_connectivity(left, left_other),
        same_connectivity(right, right_other),
    ensures
        same_connectivity(left + right, left_other + right_other),
{
    lemma_concat_reaches(left, right, left_other, right_other);
    lemma_concat_reaches(left_other, right_other, left, right);
}

proof fn lemma_concat_reaches(
    left: Seq<Edge>,
    right: Seq<Edge>,
    left_other: Seq<Edge>,
    right_other: Seq<Edge>,
)
    requires
        same_connectivity(left, left_other),
        same_connectivity(right, right_other),
    ensures
        forall|a: int, b: int| #[trigger]
            connected(left + right, a, b) ==> connected(left_other + right_other, a, b),
{
    let whole = left + right;
    let other = left_other + right_other;
    assert forall|i: int| 0 <= i < left_other.len() implies connected(
        other,
        (#[trigger] left_other[i]).left as int,
        left_other[i].right as int,
    ) by {
        assert(other[i] == left_other[i]);
        lemma_edge_connects(other, i);
    }
    assert forall|i: int| 0 <= i < right_other.len() implies connected(
        other,
        (#[trigger] right_other[i]).left as int,
        right_other[i].right as int,
    ) by {
        assert(other[left_other.len() + i] == right_other[i]);
        lemma_edge_connects(other, left_other.len() + i);
    }
    assert forall|i: int| 0 <= i < whole.len() implies connected(
        other,
        (#[trigger] whole[i]).left as int,
        whole[i].right as int,
    ) by {
        let l = whole[i].left as int;
        let r = whole[i].right as int;
        if i < left.len() {
            assert(whole[i] == left[i]);
            lemma_edge_connects(left, i);
            assert(connected(left_other, l, r));
            lemma_connected_monotone(left_other, other, l, r);
        } else {
            assert(whole[i] == right[i - left.len()]);
            lemma_edge_connects(right, i - left.len());
            assert(connected(right_other, l, r));
            lemma_connected_monotone(right_other, other, l, r);
        }
    }
    assert forall|a: int, b: int| #[trigger] connected(whole, a, b) implies connected(
        other,
        a,
        b,
    ) by {
        lemma_connected_monotone(whole, other, a, b);
    }
}

/// What an additional edge connects: what was connected, and everything connected to one
/// of its endpoints with everything connected to the other.
pub open spec fn connected_through(edges: Seq<Edge>, edge: Edge, a: int, b: int) -> bool {
    ||| connected(edges, a, b)
    ||| connected(edges, a, edge.left as int) && connected(edges, edge.right as int, b)
    ||| connected(edges, a, edge.right as int) && connected(edges, edge.left as int, b)
}

/// Adding one edge extends connectivity exactly as [`connected_through`] says.
pub proof fn lemma_connected_push(edges: Seq<Edge>, edge: Edge, a: int, b: int)
    ensures
        connected(edges.push(edge), a, b) <==> connected_through(edges, edge, a, b),
{
    let more = edges.push(edge);
    let l = edge.left as int;
    let r = edge.right as int;
    assert forall|i: int| 0 <= i < edges.len() implies connected(
        more,
        (#[trigger] edges[i]).left as int,
        edges[i].right as int,
    ) by {
        assert(more[i] == edges[i]);
        lemma_edge_connects(more, i);
    }
    assert(more[edges.len() as int] == edge);
    lemma_edge_connects(more, edges.len() as int);
    lemma_connected_symmetric(more, l, r);
    if connected(edges, a, b) {
        lemma_connected_monotone(edges, more, a, b);
    }
    if connected(edges, a, l) && connected(edges, r, b) {
        lemma_connected_monotone(edges, more, a, l);
        lemma_connected_monotone(edges, more, r, b);
        lemma_connected_transitive(more, a, l, r);
        lemma_connected_transitive(more, a, r, b);
    }
    if connected(edges, a, r) && connected(edges, l, b) {
        lemma_connected_monotone(edges, more, a, r);
        lemma_connected_monotone(edges, more, l, b);
        lemma_connected_transitive(more, a, r, l);
        lemma_connected_transitive(more, a, l, b);
    }
    if connected(more, a, b) {
        let walk = choose|walk: Seq<int>| is_walk(more, walk, a, b);
        lemma_walk_through(edges, edge, walk, a, b);
    }
}

proof fn lemma_walk_through(edges: Seq<Edge>, edge: Edge, walk: Seq<int>, a: int, b: int)
    requires
        is_walk(edges.push(edge), walk, a, b),
    ensures
        connected_through(edges, edge, a, b),
    decreases walk.len(),
{
    let more = edges.push(edge);
    let l = edge.left as int;
    let r = edge.right as int;
    if walk.len() == 1 {
        lemma_connected_reflexive(edges, a);
    } else {
        let rest = walk.drop_last();
        let mid = rest.last();
        assert forall|i: int| 0 <= i < rest.len() - 1 implies #[trigger] follows_edge(
            more,
            rest,
            i,
        ) by {
            assert(follows_edge(more, walk, i));
        }
        lemma_walk_through(edges, edge, rest, a, mid);
        assert(follows_edge(more, walk, walk.len() - 2));
        let k = choose|k: int| 0 <= k < more.len() && joins(#[trigger] more[k], mid, b);
        lemma_connected_reflexive(edges, l);
        lemma_connected_reflexive(edges, r);
        if k < edges.len() {
            assert(edges[k] == more[k]);
            lemma_edge_connects(edges, k);
            if edges[k].left != mid {
                lemma_connected_symmetric(edges, edges[k].left as int, edges[k].right as int);
            }
            assert(connected(edges, mid, b));
            if connected(edges, a, mid) {
                lemma_connected_transitive(edges, a, mid, b);
            } else if connected(edges, a, l) && connected(edges, r, mid) {
                lemma_connected_transitive(edges, r, mid, b);
            } else {
                lemma_connected_transitive(edges, l, mid, b);
            }
        }
    }
}

/// Without edges a node is connected to itself alone.
pub proof fn lemma_connected_empty(a: int, b: int)
    ensures
        connected(Seq::<Edge>::empty(), a, b) <==> a == b,
{
    let none = Seq::<Edge>::empty();
    lemma_connected_reflexive(none, a);
    if connected(none, a, b) {
        let walk = choose|walk: Seq<int>| is_walk(none, walk, a, b);
        if walk.len() > 1 {
            assert(follows_edge(none, walk, 0));
        }
    }
}

/// The smallest node of a component is unique.
pub proof fn lemma_component_minimum_unique(edges: Seq<Edge>, node: int, x: int, y: int)
    requires
        is_component_minimum(edges, node, x),
        is_component_minimum(edges, node, y),
        0 <= x,
        0 <= y,
    ensures
        x == y,
{
}

/// Component roots are determined by connectivity alone: two edge sequences that connect
/// the same nodes have the same roots.
pub proof fn lemma_component_roots_unique(
    left: Seq<Edge>,
    right: Seq<Edge>,
    left_roots: Seq<u32>,
    right_roots: Seq<u32>,
)
    requires
        same_connectivity(left, right),
        are_component_roots(left, left_roots),
        are_component_roots(right, right_roots),
        left_roots.len() == right_roots.len(),
    ensures
        left_roots == right_roots,
{
    assert forall|node: int| 0 <= node < left_roots.len() implies left_roots[node]
        == right_roots[node] by {
        let x = left_roots[node] as int;
        let y = right_roots[node] as int;
        assert(is_component_minimum(left, node, x));
        assert(is_component_minimum(right, node, y));
        assert(connected(left, node, x) && connected(right, node, x));
        assert(connected(left, node, y));
    }
    assert(left_roots =~= right_roots);
}

/// `names` holds no node twice.
pub open spec fn distinct_names(names: Seq<int>) -> bool {
    forall|i: int, j: int| 0 <= i < j < names.len() ==> names[i] != names[j]
}

/// Edge `k` of `local` is edge `k` of `edges` with nodes replaced by their positions in `names`.
pub open spec fn relabels_at(edges: Seq<Edge>, local: Seq<Edge>, names: Seq<int>, k: int) -> bool {
    &&& local[k].within(names.len() as int)
    &&& names[local[k].left as int] == edges[k].left
    &&& names[local[k].right as int] == edges[k].right
}

/// `local` holds the edges of `edges` with every node replaced by its position in `names`.
pub open spec fn relabels(edges: Seq<Edge>, local: Seq<Edge>, names: Seq<int>) -> bool {
    &&& edges.len() == local.len()
    &&& forall|k: int| 0 <= k < edges.len() ==> #[trigger] relabels_at(edges, local, names, k)
}

/// A prefix of relabelled edges is relabelled.
pub proof fn lemma_relabels_prefix(edges: Seq<Edge>, local: Seq<Edge>, names: Seq<int>, count: int)
    requires
        relabels(edges, local, names),
        0 <= count <= edges.len(),
    ensures
        relabels(edges.take(count), local.take(count), names),
{
    let some = edges.take(count);
    let some_local = local.take(count);
    assert forall|k: int| 0 <= k < some.len() implies #[trigger] relabels_at(
        some,
        some_local,
        names,
        k,
    ) by {
        assert(relabels_at(edges, local, names, k));
    }
}

/// Replacing nodes by their positions in a list of distinct names keeps connectivity.
pub proof fn lemma_relabel_connectivity(
    edges: Seq<Edge>,
    local: Seq<Edge>,
    names: Seq<int>,
    i: int,
    j: int,
)
    requires
        relabels(edges, local, names),
        distinct_names(names),
        0 <= i < names.len(),
        0 <= j < names.len(),
    ensures
        connected(local, i, j) <==> connected(edges, names[i], names[j]),
{
    if connected(local, i, j) {
        let walk = choose|walk: Seq<int>| is_walk(local, walk, i, j);
        let named = walk.map_values(|node: int| names[node]);
        assert forall|k: int| 0 <= k < named.len() - 1 implies #[trigger] follows_edge(
            edges,
            named,
            k,
        ) by {
            assert(follows_edge(local, walk, k));
            let e = choose|e: int|
                0 <= e < local.len() && joins(#[trigger] local[e], walk[k], walk[k + 1]);
            assert(relabels_at(edges, local, names, e));
            assert(joins(edges[e], named[k], named[k + 1]));
        }
        assert(is_walk(edges, named, names[i], names[j]));
    }
    if connected(edges, names[i], names[j]) {
        let walk = choose|walk: Seq<int>| is_walk(edges, walk, names[i], names[j]);
        lemma_relabel_walk(edges, local, names, walk, i, j);
    }
}

proof fn lemma_relabel_walk(
    edges: Seq<Edge>,
    local: Seq<Edge>,
    names: Seq<int>,
    walk: Seq<int>,
    i: int,
    j: int,
)
    requires
        relabels(edges, local, names),
        distinct_names(names),
        0 <= i < names.len(),
        0 <= j < names.len(),
        is_walk(edges, walk, names[i], names[j]),
    ensures
        connected(local, i, j),
    decreases walk.len(),
{
    if walk.len() == 1 {
        assert(i == j);
        lemma_connected_reflexive(local, i);
    } else {
        let rest = walk.drop_last();
        assert forall|k: int| 0 <= k < rest.len() - 1 implies #[trigger] follows_edge(
            edges,
            rest,
            k,
        ) by {
            assert(follows_edge(edges, walk, k));
        }
        assert(follows_edge(edges, walk, walk.len() - 2));
        let e = choose|e: int|
            0 <= e < edges.len() && joins(#[trigger] edges[e], rest.last(), names[j]);
        let l = local[e].left as int;
        let r = local[e].right as int;
        assert(relabels_at(edges, local, names, e));
        assert(names[l] == edges[e].left && names[r] == edges[e].right);
        lemma_edge_connects(local, e);
        if edges[e].left == rest.last() && edges[e].right == names[j] {
            assert(r == j);
            lemma_relabel_walk(edges, local, names, rest, i, l);
            lemma_connected_transitive(local, i, l, r);
        } else {
            assert(l == j);
            lemma_connected_symmetric(local, l, r);
            lemma_relabel_walk(edges, local, names, rest, i, r);
            lemma_connected_transitive(local, i, r, l);
        }
    }
}

proof fn lemma_walk_keeps_label(
    edges: Seq<Edge>,
    labels: spec_fn(int) -> int,
    walk: Seq<int>,
    a: int,
    b: int,
)
    requires
        is_walk(edges, walk, a, b),
        forall|k: int|
            0 <= k < edges.len() ==> labels((#[trigger] edges[k]).left as int) == labels(
                edges[k].right as int,
            ),
    ensures
        labels(a) == labels(b),
    decreases walk.len(),
{
    if walk.len() > 1 {
        let last = walk.len() - 2;
        let shorter = walk.drop_last();
        assert forall|i: int| 0 <= i < shorter.len() - 1 implies #[trigger] follows_edge(
            edges,
            shorter,
            i,
        ) by {
            assert(follows_edge(edges, walk, i));
        }
        assert(is_walk(edges, shorter, a, walk[last]));
        lemma_walk_keeps_label(edges, labels, shorter, a, walk[last]);
        assert(follows_edge(edges, walk, last));
        let k = choose|k: int|
            0 <= k < edges.len() && joins(#[trigger] edges[k], walk[last], walk[last + 1]);
        assert(labels(edges[k].left as int) == labels(edges[k].right as int));
    }
}

/// What component roots say: the two nodes of every edge have one root; a root is no greater than
/// its node and its own root; and nodes have one root only where edges force it: whatever
/// labels agree along every edge agree for two nodes of one root.
pub proof fn lemma_roots_are_components(
    edges: Seq<Edge>,
    roots: Seq<u32>,
    labels: spec_fn(int) -> int,
)
    requires
        are_component_roots(edges, roots),
        all_within(edges, roots.len() as int),
    ensures
        forall|k: int|
            0 <= k < edges.len() ==> roots[(#[trigger] edges[k]).left as int]
                == roots[edges[k].right as int],
        forall|node: int|
            0 <= node < roots.len() ==> (#[trigger] roots[node]) <= node
                && roots[roots[node] as int] == roots[node],
        (forall|k: int|
            0 <= k < edges.len() ==> labels((#[trigger] edges[k]).left as int) == labels(
                edges[k].right as int,
            )) ==> forall|a: int, b: int|
            0 <= a < roots.len() && 0 <= b < roots.len() && #[trigger] roots[a]
                == #[trigger] roots[b] ==> labels(a) == labels(b),
{
    assert forall|k: int| 0 <= k < edges.len() implies roots[(#[trigger] edges[k]).left as int]
        == roots[edges[k].right as int] by {
        let a = edges[k].left as int;
        let b = edges[k].right as int;
        assert(edges[k].within(roots.len() as int));
        lemma_edge_connects(edges, k);
        lemma_connected_symmetric(edges, a, b);
        assert(is_component_minimum(edges, a, roots[a] as int));
        assert(is_component_minimum(edges, b, roots[b] as int));
        lemma_connected_transitive(edges, a, b, roots[b] as int);
        lemma_connected_transitive(edges, b, a, roots[a] as int);
    }
    assert forall|node: int| 0 <= node < roots.len() implies (#[trigger] roots[node]) <= node
        && roots[roots[node] as int] == roots[node] by {
        let root = roots[node] as int;
        assert(is_component_minimum(edges, node, root));
        lemma_connected_reflexive(edges, node);
        assert(root <= node);
        assert(is_component_minimum(edges, root, roots[root] as int));
        lemma_connected_transitive(edges, node, root, roots[root] as int);
        lemma_connected_reflexive(edges, root);
    }
    if forall|k: int|
        0 <= k < edges.len() ==> labels((#[trigger] edges[k]).left as int) == labels(
            edges[k].right as int,
        ) {
        assert forall|a: int, b: int|
            0 <= a < roots.len() && 0 <= b < roots.len() && #[trigger] roots[a]
                == #[trigger] roots[b] implies labels(a) == labels(b) by {
            assert(is_component_minimum(edges, a, roots[a] as int));
            assert(is_component_minimum(edges, b, roots[b] as int));
            let one = choose|walk: Seq<int>| is_walk(edges, walk, a, roots[a] as int);
            let two = choose|walk: Seq<int>| is_walk(edges, walk, b, roots[b] as int);
            lemma_walk_keeps_label(edges, labels, one, a, roots[a] as int);
            lemma_walk_keeps_label(edges, labels, two, b, roots[b] as int);
        }
    }
}

} // verus!
