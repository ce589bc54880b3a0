//! Working storage for building forests, shared between collectors.

use crate::reduce::dsu;
use crate::reduce::dsu::Dsu;
use crate::reduce::error::{ReduceError, ReduceFault};
use crate::reduce::forest;
use crate::reduce::forest::span;
use crate::reduce::graph;
use crate::reduce::graph::Edge;
use crate::sorting;
use crate::sorting::sorted_distinct_u32;
use vstd::prelude::*;

verus! {

/// How often `node` is an endpoint.
pub open spec fn degree(edges: Seq<Edge>, node: int) -> nat
    decreases edges.len(),
{
    if edges.len() == 0 {
        0
    } else {
        degree(edges.drop_last(), node) + (if edges.last().left == node {
            1nat
        } else {
            0
        }) + (if edges.last().right == node {
            1nat
        } else {
            0
        })
    }
}

/// A node has positive degree if and only if it is an endpoint.
pub proof fn lemma_degree_bounds(edges: Seq<Edge>, node: int)
    ensures
        degree(edges, node) <= 2 * edges.len(),
        degree(edges, node) > 0 <==> forest::endpoints(edges).contains(node),
    decreases edges.len(),
{
    if edges.len() > 0 {
        let rest = edges.drop_last();
        lemma_degree_bounds(rest, node);
        if forest::endpoints(rest).contains(node) {
            let i = choose|i: int|
                0 <= i < rest.len() && ((#[trigger] rest[i]).left == node || rest[i].right == node);
            assert(edges[i] == rest[i]);
        }
        if forest::endpoints(edges).contains(node) {
            let i = choose|i: int|
                0 <= i < edges.len() && ((#[trigger] edges[i]).left == node || edges[i].right
                    == node);
            if i < rest.len() {
                assert(rest[i] == edges[i]);
            }
        }
        if edges.last().left == node || edges.last().right == node {
            assert(edges[edges.len() - 1] == edges.last());
        }
    }
}

/// The degrees of a buffer, with every node of positive degree among the touched ones.
pub open spec fn degrees_match(
    degrees: Seq<u32>,
    touched: Seq<u32>,
    buffer: Seq<Edge>,
    node_count: u32,
) -> bool {
    &&& degrees.len() == node_count
    &&& forall|i: int| 0 <= i < touched.len() ==> #[trigger] touched[i] < node_count
    &&& forall|node: int|
        0 <= node < degrees.len() ==> {
            &&& #[trigger] degrees[node] == (if degree(buffer, node) <= u32::MAX {
                degree(buffer, node) as u32
            } else {
                u32::MAX
            })
            &&& degrees[node] > 0 ==> touched.contains(node as u32)
        }
}

pub(crate) fn zero_degrees(node_count: u32) -> (degrees: Vec<u32>)
    ensures
        degrees_match(degrees@, Seq::empty(), Seq::empty(), node_count),
{
    let mut degrees: Vec<u32> = Vec::new();
    let mut node: u32 = 0;
    while node < node_count
        invariant
            node <= node_count,
            degrees@.len() == node,
            forall|i: int| 0 <= i < degrees@.len() ==> #[trigger] degrees@[i] == 0,
        decreases node_count - node,
    {
        degrees.push(0);
        node = node + 1;
    }
    degrees
}

pub(crate) fn copy_edges(edges: &Vec<Edge>) -> (copy: Vec<Edge>)
    ensures
        copy@ == edges@,
{
    let mut copy: Vec<Edge> = Vec::new();
    let mut i: usize = 0;
    while i < edges.len()
        invariant
            i <= edges@.len(),
            copy@ == edges@.take(i as int),
        decreases edges.len() - i,
    {
        copy.push(edges[i]);
        i = i + 1;
        assert(copy@ =~= edges@.take(i as int));
    }
    assert(edges@.take(i as int) =~= edges@);
    copy
}

/// Counts one endpoint.
fn count_endpoint(degrees: &mut Vec<u32>, touched: &mut Vec<u32>, node: u32)
    requires
        node < old(degrees)@.len(),
    ensures
        final(degrees)@ == old(degrees)@.update(
            node as int,
            if old(degrees)@[node as int] == u32::MAX {
                u32::MAX
            } else {
                (old(degrees)@[node as int] + 1) as u32
            },
        ),
        final(touched)@ == (if old(degrees)@[node as int] == 0 {
            old(touched)@.push(node)
        } else {
            old(touched)@
        }),
{
    let degree: u32 = degrees[node as usize];
    if degree == 0 {
        touched.push(node);
    }
    degrees.set(node as usize, degree.saturating_add(1));
}

/// Counts both endpoints of an edge that joins the buffer.
pub(crate) fn count_edge(
    degrees: &mut Vec<u32>,
    touched: &mut Vec<u32>,
    edge: Edge,
    node_count: u32,
    Ghost(buffer): Ghost<Seq<Edge>>,
)
    requires
        edge.within(node_count as int),
        degrees_match(old(degrees)@, old(touched)@, buffer, node_count),
    ensures
        degrees_match(final(degrees)@, final(touched)@, buffer.push(edge), node_count),
{
    let ghost start = degrees@;
    let ghost listed = touched@;
    count_endpoint(degrees, touched, edge.left);
    let ghost middle = touched@;
    count_endpoint(degrees, touched, edge.right);
    proof {
        let grown = buffer.push(edge);
        assert(grown.drop_last() =~= buffer);
        assert forall|node: int| 0 <= node < degrees@.len() implies {
            &&& #[trigger] degrees@[node] == (if degree(grown, node) <= u32::MAX {
                degree(grown, node) as u32
            } else {
                u32::MAX
            })
            &&& degrees@[node] > 0 ==> touched@.contains(node as u32)
        } by {
            assert(start[node] > 0 ==> listed.contains(node as u32));
            if listed.contains(node as u32) {
                let i = listed.index_of(node as u32);
                assert(middle[i] == node as u32);
                assert(touched@[i] == node as u32);
            }
            if node == edge.left && start[node] == 0 {
                assert(middle[listed.len() as int] == node as u32);
                assert(touched@[listed.len() as int] == node as u32);
            }
            if node == edge.right && start[node] == 0 && node != edge.left {
                assert(touched@[middle.len() as int] == node as u32);
            }
        }
    }
}

/// Forgets the degrees of the touched nodes and makes each of them alone again.
pub(crate) fn clear_listed(
    degrees: &mut Vec<u32>,
    touched: &mut Vec<u32>,
    run_dsu: &mut Dsu,
    node_count: u32,
)
    requires
        old(degrees)@.len() == node_count,
        old(run_dsu).parent@.len() == node_count,
        forall|i: int| 0 <= i < old(touched)@.len() ==> #[trigger] old(touched)@[i] < node_count,
        forall|node: int|
            0 <= node < node_count && #[trigger] old(degrees)@[node] > 0 ==> old(touched)@.contains(node as u32),
        forall|node: int|
            0 <= node < node_count && #[trigger] old(run_dsu).parent@[node] != node ==> old(touched)@.contains(node as u32),
    ensures
        degrees_match(final(degrees)@, final(touched)@, Seq::empty(), node_count),
        final(run_dsu).parent@.len() == node_count,
        dsu::is_discrete(final(run_dsu).parent@),
{
    let ghost listed = touched@;
    let mut i: usize = 0;
    assert(listed.skip(0) =~= listed);
    while i < touched.len()
        invariant
            i <= touched@.len(),
            touched@ == listed,
            degrees@.len() == node_count,
            run_dsu.parent@.len() == node_count,
            forall|k: int| 0 <= k < listed.len() ==> #[trigger] listed[k] < node_count,
            forall|node: int|
                0 <= node < node_count && #[trigger] degrees@[node] > 0 ==> listed.skip(
                    i as int,
                ).contains(node as u32),
            forall|node: int|
                0 <= node < node_count && #[trigger] run_dsu.parent@[node] != node ==> listed.skip(
                    i as int,
                ).contains(node as u32),
        decreases touched.len() - i,
    {
        let node: u32 = touched[i];
        let ghost before_degrees = degrees@;
        let ghost before_parent = run_dsu.parent@;
        degrees.set(node as usize, 0);
        run_dsu.reset(node);
        proof {
            let rest = listed.skip(i as int);
            let next = listed.skip(i + 1);
            assert forall|other: int| 0 <= other < node_count && rest.contains(other as u32)
                && other != node implies next.contains(#[trigger] (other as u32)) by {
                let k = rest.index_of(other as u32);
                assert(next[k - 1] == other as u32);
            }
            assert forall|other: int| 0 <= other < node_count && #[trigger] degrees@[other]
                > 0 implies next.contains(other as u32) by {
                assert(before_degrees[other] > 0);
                assert(next.contains(other as u32));
            }
            assert forall|other: int| 0 <= other < node_count && #[trigger] run_dsu.parent@[other]
                != other implies next.contains(other as u32) by {
                assert(before_parent[other] != other);
                assert(next.contains(other as u32));
            }
        }
        i = i + 1;
    }
    proof {
        assert(listed.skip(i as int) =~= Seq::empty());
    }
    touched.clear();
}

/// Lists every endpoint of the edges as touched.
fn touch_endpoints(
    degrees: &mut Vec<u32>,
    touched: &mut Vec<u32>,
    edges: &Vec<Edge>,
    node_count: u32,
)
    requires
        old(degrees)@.len() == node_count,
        graph::all_within(edges@, node_count as int),
        forall|i: int| 0 <= i < old(touched)@.len() ==> #[trigger] old(touched)@[i] < node_count,
        forall|node: int|
            0 <= node < node_count && #[trigger] old(degrees)@[node] > 0 ==> old(touched)@.contains(node as u32),
    ensures
        final(degrees)@.len() == node_count,
        forall|i: int| 0 <= i < final(touched)@.len() ==> #[trigger] final(touched)@[i] < node_count,
        forall|node: int|
            0 <= node < node_count && #[trigger] final(degrees)@[node] > 0 ==> final(touched)@.contains(node as u32),
        forall|i: int|
            0 <= i < edges@.len() ==> final(touched)@.contains((#[trigger] edges@[i]).left)
                && final(touched)@.contains(edges@[i].right),
{
    let mut i: usize = 0;
    while i < edges.len()
        invariant
            i <= edges@.len(),
            degrees@.len() == node_count,
            graph::all_within(edges@, node_count as int),
            forall|k: int| 0 <= k < touched@.len() ==> #[trigger] touched@[k] < node_count,
            forall|node: int|
                0 <= node < node_count && #[trigger] degrees@[node] > 0 ==> touched@.contains(
                    node as u32,
                ),
            forall|k: int|
                0 <= k < i ==> touched@.contains((#[trigger] edges@[k]).left) && touched@.contains(
                    edges@[k].right,
                ),
        decreases edges.len() - i,
    {
        let edge = edges[i];
        assert(edges@[i as int].within(node_count as int));
        let ghost start = touched@;
        touch(degrees, touched, edge.left);
        let ghost middle = touched@;
        touch(degrees, touched, edge.right);
        proof {
            assert forall|node: u32| start.contains(node) implies touched@.contains(node) by {
                let k = start.index_of(node);
                assert(middle[k] == node);
                assert(touched@[k] == node);
            }
            assert(middle.contains(edge.left));
            let k = middle.index_of(edge.left);
            assert(touched@[k] == edge.left);
        }
        i = i + 1;
    }
}

/// Lists a node as touched.
fn touch(degrees: &mut Vec<u32>, touched: &mut Vec<u32>, node: u32)
    requires
        node < old(degrees)@.len(),
        old(degrees)@[node as int] > 0 ==> old(touched)@.contains(node),
        forall|other: int|
            0 <= other < old(degrees)@.len() && #[trigger] old(degrees)@[other] > 0 ==> old(touched)@.contains(other as u32),
        old(degrees)@.len() <= u32::MAX,
        forall|i: int|
            0 <= i < old(touched)@.len() ==> #[trigger] old(touched)@[i] < old(degrees)@.len(),
    ensures
        final(degrees)@.len() == old(degrees)@.len(),
        final(touched)@.contains(node),
        old(touched)@.len() <= final(touched)@.len(),
        forall|i: int|
            0 <= i < old(touched)@.len() ==> #[trigger] final(touched)@[i] == old(touched)@[i],
        forall|other: int|
            0 <= other < final(degrees)@.len() && #[trigger] final(degrees)@[other] > 0 ==> final(touched)@.contains(other as u32),
        forall|i: int|
            0 <= i < final(touched)@.len() ==> #[trigger] final(touched)@[i] < final(degrees)@.len(),
{
    let ghost start = touched@;
    let ghost counted = degrees@;
    if degrees[node as usize] == 0 {
        degrees.set(node as usize, 1);
        touched.push(node);
        proof {
            assert(touched@[start.len() as int] == node);
            assert forall|other: int|
                0 <= other < degrees@.len() && #[trigger] degrees@[other] > 0 implies
                touched@.contains(other as u32) by {
                if other != node {
                    assert(counted[other] > 0);
                    let k = start.index_of(other as u32);
                    assert(touched@[k] == other as u32);
                }
            }
        }
    }
}

proof fn lemma_ascending_room(values: Seq<u32>, bound: u32, i: int)
    requires
        sorting::strictly_ascending_u32(values),
        forall|k: int| 0 <= k < values.len() ==> #[trigger] values[k] < bound,
        0 <= i < values.len(),
    ensures
        values[i] >= i,
        values.len() <= bound,
    decreases i,
{
    if i > 0 {
        lemma_ascending_room(values, bound, i - 1);
        assert(values[i - 1] < values[i]);
    }
    lemma_ascending_at(values, values.len() - 1);
    assert(values[values.len() - 1] < bound);
}

proof fn lemma_ascending_at(values: Seq<u32>, i: int)
    requires
        sorting::strictly_ascending_u32(values),
        0 <= i < values.len(),
    ensures
        values[i] >= i,
    decreases i,
{
    if i > 0 {
        lemma_ascending_at(values, i - 1);
        assert(values[i - 1] < values[i]);
    }
}

/// The endpoints of edges, ascending.
fn name_endpoints(edges: &Vec<Edge>) -> (names: Vec<u32>)
    ensures
        sorting::strictly_ascending_u32(names@),
        forall|i: int|
            0 <= i < edges@.len() ==> names@.contains((#[trigger] edges@[i]).left)
                && names@.contains(edges@[i].right),
        forall|k: int|
            0 <= k < names@.len() ==> forest::endpoints(edges@).contains(
                #[trigger] names@[k] as int,
            ),
{
    let mut all: Vec<u32> = Vec::new();
    let mut i: usize = 0;
    while i < edges.len()
        invariant
            i <= edges@.len(),
            forall|k: int|
                0 <= k < i ==> all@.contains((#[trigger] edges@[k]).left) && all@.contains(
                    edges@[k].right,
                ),
            forall|k: int|
                0 <= k < all@.len() ==> forest::endpoints(edges@).contains(
                    #[trigger] all@[k] as int,
                ),
        decreases edges.len() - i,
    {
        let ghost before = all@;
        all.push(edges[i].left);
        all.push(edges[i].right);
        proof {
            assert forall|value: u32| before.contains(value) implies all@.contains(value) by {
                let k = before.index_of(value);
                assert(all@[k] == value);
            }
            assert(all@[before.len() as int] == edges@[i as int].left);
            assert(all@[before.len() as int + 1] == edges@[i as int].right);
            assert(forest::endpoints(edges@).contains(edges@[i as int].left as int));
            assert(forest::endpoints(edges@).contains(edges@[i as int].right as int));
        }
        i = i + 1;
    }
    let names = sorted_distinct_u32(&all);
    proof {
        assert forall|k: int| 0 <= k < names@.len() implies forest::endpoints(edges@).contains(
            #[trigger] names@[k] as int,
        ) by {
            assert(names@.contains(names@[k]));
            let at = all@.index_of(names@[k]);
            assert(forest::endpoints(edges@).contains(all@[at] as int));
        }
    }
    names
}

/// Each edge with its endpoints replaced by their positions among the names.
fn localize(edges: &Vec<Edge>, names: &Vec<u32>) -> (local: Vec<Edge>)
    requires
        sorting::strictly_ascending_u32(names@),
        names@.len() <= u32::MAX,
        forall|i: int|
            0 <= i < edges@.len() ==> names@.contains((#[trigger] edges@[i]).left)
                && names@.contains(edges@[i].right),
    ensures
        is_local(edges@, local@, names@),
{
    let mut local: Vec<Edge> = Vec::new();
    let ghost known = names@.map_values(|name: u32| name as int);
    let mut i: usize = 0;
    while i < edges.len()
        invariant
            i <= edges@.len(),
            sorting::strictly_ascending_u32(names@),
            names@.len() <= u32::MAX,
            known == names@.map_values(|name: u32| name as int),
            forall|k: int|
                0 <= k < edges@.len() ==> names@.contains((#[trigger] edges@[k]).left)
                    && names@.contains(edges@[k].right),
            local@.len() == i,
            forall|k: int|
                0 <= k < i ==> #[trigger] graph::relabels_at(edges@, local@, known, k),
        decreases edges.len() - i,
    {
        let edge = edges[i];
        let left: usize = position_of(names, edge.left);
        let right: usize = position_of(names, edge.right);
        let ghost before = local@;
        local.push(Edge { left: left as u32, right: right as u32 });
        proof {
            assert forall|k: int| 0 <= k < i + 1 implies #[trigger] graph::relabels_at(
                edges@,
                local@,
                known,
                k,
            ) by {
                if k < i {
                    assert(graph::relabels_at(edges@, before, known, k));
                }
            }
        }
        i = i + 1;
    }
    local
}

/// The spanning forest of edges whose endpoints have been replaced by positions.
fn span_local(joined: &mut Dsu, edges: &Vec<Edge>, local: &Vec<Edge>, names: &Vec<u32>) -> (forest:
    Vec<Edge>)
    requires
        is_local(edges@, local@, names@),
        sorting::strictly_ascending_u32(names@),
        old(joined).parent@.len() == names@.len(),
        dsu::is_discrete(old(joined).parent@),
    ensures
        forest@ == forest::spanning_edges(edges@),
{
    let ghost known = names@.map_values(|name: u32| name as int);
    let mut forest: Vec<Edge> = Vec::new();
    let mut i: usize = 0;
    proof {
        dsu::lemma_discrete_represents(joined.parent@);
        assert(local@.take(0) =~= Seq::empty());
        assert(edges@.take(0) =~= Seq::empty());
        assert forall|a: int, b: int| 0 <= a < b < known.len() implies known[a] != known[b] by {
            assert(names@[a] < names@[b]);
        }
    }
    while i < edges.len()
        invariant
            i <= edges@.len(),
            known == names@.map_values(|name: u32| name as int),
            graph::relabels(edges@, local@, known),
            graph::distinct_names(known),
            joined.parent@.len() == known.len(),
            joined.wf(),
            dsu::represents(joined.parent@, local@.take(i as int)),
            forest@ == forest::spanning_edges(edges@.take(i as int)),
        decreases edges.len() - i,
    {
        let edge = edges[i];
        let image = local[i];
        proof {
            assert(graph::relabels_at(edges@, local@, known, i as int));
            assert(known[image.left as int] == edge.left && known[image.right as int] == edge.right);
            let some = edges@.take(i as int);
            let some_local = local@.take(i as int);
            graph::lemma_relabels_prefix(edges@, local@, known, i as int);
            graph::lemma_relabel_connectivity(
                some,
                some_local,
                known,
                image.left as int,
                image.right as int,
            );
            assert(edges@.take(i + 1).drop_last() =~= some);
            assert(local@.take(i + 1) =~= some_local.push(image));
        }
        if joined.union(image) {
            forest.push(edge);
        }
        i = i + 1;
    }
    assert(edges@.take(i as int) =~= edges@);
    forest
}

/// How scratch is laid out: one slot per node of the universe, or one per touched node.
#[derive(Debug, Clone, Copy, PartialEq, Eq, Structural)]
pub enum EdgeCollectorScratchKind {
    Dense,
    Sparse,
}

enum ScratchState {
    Dense { degrees: Vec<u32>, run_dsu: Dsu, touched: Vec<u32> },
    Sparse { endpoints: Vec<u32>, parent: Dsu },
}

/// Scratch that collectors over the same nodes take turns to use.
pub struct EdgeCollectorScratch {
    node_count: u32,
    state: ScratchState,
}

/// Positions of the edges' endpoints in a list of names.
spec fn is_local(edges: Seq<Edge>, local: Seq<Edge>, names: Seq<u32>) -> bool {
    graph::relabels(edges, local, names.map_values(|name: u32| name as int))
}

/// The position of a value in ascending values that hold it.
fn position_of(values: &Vec<u32>, value: u32) -> (at: usize)
    requires
        sorting::strictly_ascending_u32(values@),
        values@.contains(value),
    ensures
        at < values@.len(),
        values@[at as int] == value,
{
    let mut low: usize = 0;
    let mut high: usize = values.len();
    let ghost target = values@.index_of(value);
    while low < high
        invariant
            low <= high <= values@.len(),
            sorting::strictly_ascending_u32(values@),
            0 <= target < values@.len(),
            values@[target] == value,
            low <= target,
            low < high ==> target < high,
            low == high ==> low == target,
        decreases high - low,
    {
        let mid: usize = low + (high - low) / 2;
        if values[mid] < value {
            low = mid + 1;
            assert(target > mid);
        } else if values[mid] > value {
            assert(target < mid);
            high = mid;
        } else {
            return mid;
        }
    }
    low
}

impl EdgeCollectorScratch {
    pub closed spec fn nodes(&self) -> u32 {
        self.node_count
    }

    pub closed spec fn kind(&self) -> EdgeCollectorScratchKind {
        match self.state {
            ScratchState::Dense { .. } => EdgeCollectorScratchKind::Dense,
            ScratchState::Sparse { .. } => EdgeCollectorScratchKind::Sparse,
        }
    }

    /// Every node is alone, and every counted node is listed.
    pub closed spec fn wf(&self) -> bool {
        match self.state {
            ScratchState::Dense { degrees, run_dsu, touched } => {
                &&& degrees@.len() == self.node_count
                &&& run_dsu.parent@.len() == self.node_count
                &&& dsu::is_discrete(run_dsu.parent@)
                &&& forall|i: int| 0 <= i < touched@.len() ==> #[trigger] touched@[i] < self.node_count
                &&& forall|node: int|
                    0 <= node < degrees@.len() && #[trigger] degrees@[node] > 0
                        ==> touched@.contains(node as u32)
            },
            ScratchState::Sparse { .. } => true,
        }
    }

    /// The dense layout counts the degrees of `buffer`; the sparse layout counts none.
    pub closed spec fn counts(&self, buffer: Seq<Edge>) -> bool {
        match self.state {
            ScratchState::Dense { degrees, run_dsu, touched } => degrees_match(
                degrees@,
                touched@,
                buffer,
                self.node_count,
            ),
            ScratchState::Sparse { .. } => true,
        }
    }

    /// Scratch over `node_count` nodes with room for `max_touched_nodes` of them.
    pub fn try_new(
        kind: EdgeCollectorScratchKind,
        node_count: u32,
        max_touched_nodes: u64,
    ) -> (result: Result<EdgeCollectorScratch, ReduceError>)
        ensures
            max_touched_nodes > usize::MAX ==> (result matches Err(e) && e@
                == ReduceFault::WorkOverflow),
            max_touched_nodes <= usize::MAX ==> (result matches Ok(scratch) && scratch.wf()
                && scratch.counts(Seq::empty()) && scratch.kind() == kind && scratch.nodes()
                == node_count),
    {
        if max_touched_nodes > usize::MAX as u64 {
            return Err(ReduceError::WorkOverflow);
        }
        let room: usize = if max_touched_nodes <= node_count as u64 {
            max_touched_nodes as usize
        } else {
            node_count as usize
        };
        let state = match kind {
            EdgeCollectorScratchKind::Dense => ScratchState::Dense {
                degrees: zero_degrees(node_count),
                run_dsu: Dsu::new(node_count),
                touched: Vec::with_capacity(room),
            },
            EdgeCollectorScratchKind::Sparse => ScratchState::Sparse {
                endpoints: Vec::with_capacity(room),
                parent: Dsu { parent: Vec::with_capacity(room) },
            },
        };
        Ok(EdgeCollectorScratch { node_count, state })
    }

    /// Counts the degrees of a buffer that a batch starts with.
    pub fn prepare_buffer_degrees(&mut self, edges: &Vec<Edge>)
        requires
            old(self).wf(),
            old(self).counts(Seq::empty()),
            graph::all_within(edges@, old(self).nodes() as int),
        ensures
            final(self).wf(),
            final(self).counts(edges@),
            final(self).kind() == old(self).kind(),
            final(self).nodes() == old(self).nodes(),
    {
        let mut i: usize = 0;
        assert(edges@.take(0) =~= Seq::empty());
        while i < edges.len()
            invariant
                i <= edges@.len(),
                self.wf(),
                self.counts(edges@.take(i as int)),
                graph::all_within(edges@, self.nodes() as int),
                self.kind() == old(self).kind(),
                self.nodes() == old(self).nodes(),
            decreases edges.len() - i,
        {
            assert(edges@.take(i + 1) =~= edges@.take(i as int).push(edges@[i as int]));
            let _degrees = self.increment_degrees(edges[i], Ghost(edges@.take(i as int)));
            i = i + 1;
        }
        assert(edges@.take(i as int) =~= edges@);
    }

    /// Counts an edge that joins the buffer and returns the greater degree of its endpoints;
    /// zero in the sparse layout.
    pub(crate) fn increment_degrees(&mut self, edge: Edge, Ghost(buffer): Ghost<Seq<Edge>>) -> (greatest:
        u32)
        requires
            old(self).wf(),
            old(self).counts(buffer),
            edge.within(old(self).nodes() as int),
        ensures
            final(self).wf(),
            final(self).counts(buffer.push(edge)),
            final(self).kind() == old(self).kind(),
            final(self).nodes() == old(self).nodes(),
            old(self).kind() == EdgeCollectorScratchKind::Sparse ==> greatest == 0,
            old(self).kind() == EdgeCollectorScratchKind::Dense ==> forall|trigger: u32| (#[trigger]
            greatest_reaches(greatest, trigger) <==> degree(buffer.push(edge), edge.left as int)
                >= trigger || degree(buffer.push(edge), edge.right as int) >= trigger),
    {
        let node_count: u32 = self.node_count;
        match &mut self.state {
            ScratchState::Dense { degrees, run_dsu, touched } => {
                count_edge(degrees, touched, edge, node_count, Ghost(buffer));
                let left: u32 = degrees[edge.left as usize];
                let right: u32 = degrees[edge.right as usize];
                if left >= right {
                    left
                } else {
                    right
                }
            },
            ScratchState::Sparse { .. } => 0,
        }
    }

    /// The spanning forest of edges, in their order. Leaves nothing counted and every node
    /// alone.
    pub fn spanning_forest(&mut self, edges: &Vec<Edge>) -> (forest: Vec<Edge>)
        requires
            old(self).wf(),
            graph::all_within(edges@, old(self).nodes() as int),
        ensures
            forest@ == forest::spanning_edges(edges@),
            final(self).wf(),
            final(self).counts(Seq::empty()),
            final(self).kind() == old(self).kind(),
            final(self).nodes() == old(self).nodes(),
    {
        let node_count: u32 = self.node_count;
        match &mut self.state {
            ScratchState::Dense { degrees, run_dsu, touched } => {
                touch_endpoints(degrees, touched, edges, node_count);
                let forest = span(run_dsu, edges, node_count);
                proof {
                    assert forall|node: int|
                        0 <= node < node_count && #[trigger] run_dsu.parent@[node] != node implies
                        touched@.contains(node as u32) by {
                        assert(forest::endpoints(edges@).contains(node));
                        let i = choose|i: int|
                            0 <= i < edges@.len() && ((#[trigger] edges@[i]).left == node
                                || edges@[i].right == node);
                        assert(touched@.contains(edges@[i].left) && touched@.contains(
                            edges@[i].right,
                        ));
                    }
                }
                clear_listed(degrees, touched, run_dsu, node_count);
                forest
            },
            ScratchState::Sparse { endpoints, parent } => {
                let named: Vec<u32> = name_endpoints(edges);
                proof {
                    if named@.len() > 0 {
                        assert forall|k: int| 0 <= k < named@.len() implies #[trigger] named@[k]
                            < node_count by {
                            assert(forest::endpoints(edges@).contains(named@[k] as int));
                            let i = choose|i: int|
                                0 <= i < edges@.len() && ((#[trigger] edges@[i]).left == named@[k]
                                    || edges@[i].right == named@[k]);
                            assert(edges@[i].within(node_count as int));
                        }
                        lemma_ascending_room(named@, node_count, 0);
                    }
                }
                let local: Vec<Edge> = localize(edges, &named);
                let count: u32 = named.len() as u32;
                let mut joined = Dsu::new(count);
                let forest = span_local(&mut joined, edges, &local, &named);
                endpoints.clear();
                parent.parent.clear();
                forest
            },
        }
    }

    /// Forgets what was counted.
    pub fn reset(&mut self)
        requires
            old(self).wf(),
        ensures
            final(self).wf(),
            final(self).counts(Seq::empty()),
            final(self).kind() == old(self).kind(),
            final(self).nodes() == old(self).nodes(),
    {
        let node_count: u32 = self.node_count;
        match &mut self.state {
            ScratchState::Dense { degrees, run_dsu, touched } => {
                clear_listed(degrees, touched, run_dsu, node_count);
            },
            ScratchState::Sparse { endpoints, parent } => {
                endpoints.clear();
                parent.parent.clear();
            },
        }
    }
}

/// A greatest degree reaches a trigger.
pub open spec fn greatest_reaches(greatest: u32, trigger: u32) -> bool {
    greatest >= trigger
}

} // verus!
