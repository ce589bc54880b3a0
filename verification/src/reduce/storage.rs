//! Forest runs in memory and as stored words.

use crate::reduce::error::{chain_error, ReduceError, ReduceFault};
use crate::reduce::collector::capacity_of;
use crate::reduce::forest;
use crate::reduce::forest::{edge_bytes, ForestRun};
use crate::reduce::graph;
use crate::reduce::graph::Edge;
use vstd::prelude::*;

verus! {

/// Revision of the stored run layout.
pub const FOREST_RUN_REVISION: u32 = 2;

/// Edge `index` of the stored words: two words per edge.
pub open spec fn stored_edge(words: Seq<u32>, index: int) -> Edge {
    Edge::between(words[2 * index], words[2 * index + 1])
}

/// The edges that the stored words hold.
pub open spec fn stored_edges(words: Seq<u32>, edge_count: nat) -> Seq<Edge> {
    Seq::new(edge_count, |index: int| stored_edge(words, index))
}

/// The words that an edge sequence is stored as: left endpoint, then right endpoint.
pub open spec fn edge_words(edges: Seq<Edge>) -> Seq<u32> {
    Seq::new(
        2 * edges.len(),
        |i: int|
            if i % 2 == 0 {
                edges[i / 2].left
            } else {
                edges[i / 2].right
            },
    )
}

/// Every edge has its smaller endpoint on the left, as [`Edge::new`] makes it.
pub open spec fn are_normal(edges: Seq<Edge>) -> bool {
    forall|i: int| 0 <= i < edges.len() ==> (#[trigger] edges[i]).left <= edges[i].right
}

/// The greater endpoint of an edge.
pub open spec fn greater_endpoint(edge: Edge) -> u32 {
    if edge.left >= edge.right {
        edge.left
    } else {
        edge.right
    }
}

/// What reading stored edges into memory gives: them, or the greater endpoint of the first
/// edge from `at` on that leaves the node universe.
pub open spec fn first_stored_outside(edges: Seq<Edge>, node_count: u32, at: int) -> Option<u32>
    decreases edges.len() - at,
{
    if at < 0 || at >= edges.len() {
        None
    } else if !edges[at].within(node_count as int) {
        Some(greater_endpoint(edges[at]))
    } else {
        first_stored_outside(edges, node_count, at + 1)
    }
}

/// The words that store the edges of a run.
pub fn encode_edges(edges: &Vec<Edge>) -> (words: Vec<u32>)
    ensures
        words@ == edge_words(edges@),
{
    let mut words: Vec<u32> = Vec::new();
    let mut i: usize = 0;
    while i < edges.len()
        invariant
            i <= edges@.len(),
            words@ == edge_words(edges@.take(i as int)),
        decreases edges.len() - i,
    {
        words.push(edges[i].left);
        words.push(edges[i].right);
        i = i + 1;
        assert(words@ =~= edge_words(edges@.take(i as int)));
    }
    assert(edges@.take(i as int) =~= edges@);
    words
}

/// Reading stored words gives back the edges they were made from.
pub proof fn lemma_stored_edges_round_trip(edges: Seq<Edge>)
    requires
        are_normal(edges),
    ensures
        edge_words(edges).len() == 2 * edges.len(),
        stored_edges(edge_words(edges), edges.len()) == edges,
{
    assert forall|i: int| 0 <= i < edges.len() implies stored_edge(edge_words(edges), i)
        == edges[i] by {
        assert((2 * i) / 2 == i && (2 * i) % 2 == 0);
        assert((2 * i + 1) / 2 == i && (2 * i + 1) % 2 == 1);
        assert(edges[i].left <= edges[i].right);
    }
    assert(stored_edges(edge_words(edges), edges.len()) =~= edges);
}

/// Stored edges have no loop where the edges they were made from have none, and stay within the
/// nodes where those do.
pub proof fn lemma_stored_edges_proper(edges: Seq<Edge>, node_count: int)
    requires
        graph::are_proper(edges),
        graph::all_within(edges, node_count),
    ensures
        graph::are_proper(stored_edges(edge_words(edges), edges.len())),
        graph::all_within(stored_edges(edge_words(edges), edges.len()), node_count),
{
    let stored = stored_edges(edge_words(edges), edges.len());
    assert forall|i: int| 0 <= i < stored.len() implies (#[trigger] stored[i]).left
        != stored[i].right && stored[i].within(node_count) by {
        assert((2 * i) / 2 == i && (2 * i) % 2 == 0);
        assert((2 * i + 1) / 2 == i && (2 * i + 1) % 2 == 1);
        assert(edges[i].left != edges[i].right);
        assert(edges[i].within(node_count));
    }
}

/// Stored edges connect what the edges they were made from connect.
pub proof fn lemma_stored_edges_connectivity(edges: Seq<Edge>)
    ensures
        graph::same_connectivity(stored_edges(edge_words(edges), edges.len()), edges),
{
    let stored = stored_edges(edge_words(edges), edges.len());
    assert forall|i: int| 0 <= i < edges.len() implies graph::joins(
        #[trigger] stored[i],
        edges[i].left as int,
        edges[i].right as int,
    ) by {
        assert((2 * i) / 2 == i && (2 * i) % 2 == 0);
        assert((2 * i + 1) / 2 == i && (2 * i + 1) % 2 == 1);
    }
    assert forall|i: int| 0 <= i < stored.len() implies graph::connected(
        edges,
        (#[trigger] stored[i]).left as int,
        stored[i].right as int,
    ) by {
        graph::lemma_edge_connects(edges, i);
        graph::lemma_connected_symmetric(edges, edges[i].left as int, edges[i].right as int);
        assert(graph::joins(stored[i], edges[i].left as int, edges[i].right as int));
    }
    assert forall|i: int| 0 <= i < edges.len() implies graph::connected(
        stored,
        (#[trigger] edges[i]).left as int,
        edges[i].right as int,
    ) by {
        graph::lemma_edge_connects(stored, i);
        graph::lemma_connected_symmetric(stored, stored[i].left as int, stored[i].right as int);
        assert(graph::joins(stored[i], edges[i].left as int, edges[i].right as int));
    }
    assert forall|a: int, b: int| #[trigger] graph::connected(stored, a, b) <==> graph::connected(
        edges,
        a,
        b,
    ) by {
        if graph::connected(stored, a, b) {
            graph::lemma_connected_monotone(stored, edges, a, b);
        }
        if graph::connected(edges, a, b) {
            graph::lemma_connected_monotone(edges, stored, a, b);
        }
    }
}

/// A run whose edges are read from stored words.
pub struct MappedForestRun {
    node_count: u32,
    edge_count: usize,
    words: Vec<u32>,
}

impl MappedForestRun {
    /// The words hold two entries per edge.
    pub closed spec fn wf(&self) -> bool {
        self.words@.len() == 2 * self.edge_count
    }

    pub closed spec fn nodes(&self) -> u32 {
        self.node_count
    }

    /// The edges that the run holds.
    pub closed spec fn edges(&self) -> Seq<Edge> {
        stored_edges(self.words@, self.edge_count as nat)
    }

    /// The stored form of a run.
    pub fn store(run: &ForestRun) -> (stored: MappedForestRun)
        ensures
            stored.wf(),
            stored.nodes() == run.node_count,
            stored.edges() == stored_edges(edge_words(run.edges@), run.edges@.len()),
    {
        MappedForestRun {
            node_count: run.node_count,
            edge_count: run.edges.len(),
            words: encode_edges(&run.edges),
        }
    }

    /// A run from its stored description: refused where the description is of another
    /// revision or run, or does not match the words.
    pub fn decode(
        revision: u32,
        run_id: u32,
        expected_run_id: u32,
        node_count: u32,
        edge_count: usize,
        words: Vec<u32>,
    ) -> (result: Result<MappedForestRun, ReduceError>)
        ensures
            revision != FOREST_RUN_REVISION || run_id != expected_run_id ==> (result matches Err(e)
                && e@ == ReduceFault::SnapshotChain("forest run revision/id mismatch"@)),
            revision == FOREST_RUN_REVISION && run_id == expected_run_id ==> {
                &&& 2 * edge_count > usize::MAX ==> (result matches Err(e) && e@
                    == ReduceFault::WorkOverflow)
                &&& 2 * edge_count <= usize::MAX && words@.len() != 2 * edge_count ==> (
                result matches Err(e) && e@ == ReduceFault::SnapshotChain(
                    "forest run edge count mismatch"@,
                ))
                &&& words@.len() == 2 * edge_count ==> (result matches Ok(run) && run.wf()
                    && run.nodes() == node_count && run.edges() == stored_edges(
                    words@,
                    edge_count as nat,
                ))
            },
    {
        if revision != FOREST_RUN_REVISION || run_id != expected_run_id {
            return Err(chain_error("forest run revision/id mismatch"));
        }
        let word_count: usize = words.len();
        match edge_count.checked_mul(2) {
            None => Err(ReduceError::WorkOverflow),
            Some(encoded_values) => {
                if word_count != encoded_values {
                    Err(chain_error("forest run edge count mismatch"))
                } else {
                    Ok(MappedForestRun { node_count, edge_count, words })
                }
            },
        }
    }

    pub fn node_count(&self) -> (count: u32)
        ensures
            count == self.nodes(),
    {
        self.node_count
    }

    pub fn edge_count(&self) -> (count: usize)
        ensures
            count == self.edges().len(),
    {
        self.edge_count
    }

    /// Edge `index` of the run.
    pub fn edge(&self, index: usize) -> (edge: Edge)
        requires
            self.wf(),
            index < self.edges().len(),
        ensures
            edge == self.edges()[index as int],
    {
        let word_count: usize = self.words.len();
        assert(2 * index + 1 < word_count);
        let offset: usize = index * 2;
        Edge::new(self.words[offset], self.words[offset + 1])
    }
}

impl ForestRun {
    /// Reads a stored run into memory; an edge outside the node universe refuses it.
    pub fn from_mapped(mapped: &MappedForestRun) -> (result: Result<ForestRun, ReduceError>)
        requires
            mapped.wf(),
        ensures
            match first_stored_outside(mapped.edges(), mapped.nodes(), 0) {
                None => result matches Ok(run) && run.node_count == mapped.nodes() && run.edges@
                    == mapped.edges() && run.wf(),
                Some(endpoint) => result matches Err(e) && e@ == (ReduceFault::Endpoint {
                    endpoint,
                    node_count: mapped.nodes(),
                }),
            },
    {
        let mut edges: Vec<Edge> = Vec::new();
        let node_count: u32 = mapped.node_count();
        let count: usize = mapped.edge_count();
        let mut i: usize = 0;
        while i < count
            invariant
                mapped.wf(),
                node_count == mapped.nodes(),
                count == mapped.edges().len(),
                i <= count,
                edges@ == mapped.edges().take(i as int),
                graph::all_within(edges@, node_count as int),
                first_stored_outside(mapped.edges(), node_count, 0) == first_stored_outside(
                    mapped.edges(),
                    node_count,
                    i as int,
                ),
            decreases count - i,
        {
            let edge = mapped.edge(i);
            if edge.left >= node_count || edge.right >= node_count {
                let endpoint: u32 = if edge.left >= edge.right {
                    edge.left
                } else {
                    edge.right
                };
                return Err(ReduceError::Endpoint { endpoint, node_count });
            }
            edges.push(edge);
            i = i + 1;
            assert(edges@ =~= mapped.edges().take(i as int));
        }
        assert(mapped.edges().take(i as int) =~= mapped.edges());
        Ok(ForestRun { node_count, edges })
    }
}

/// A forest run, in memory or as stored words.
pub enum ForestRunStorage {
    Resident(ForestRun),
    Mapped(MappedForestRun),
}

impl ForestRunStorage {
    /// A mapped run is consistent; a resident run always is.
    pub open spec fn wf(&self) -> bool {
        match self {
            ForestRunStorage::Resident(_) => true,
            ForestRunStorage::Mapped(run) => run.wf(),
        }
    }

    pub open spec fn nodes(&self) -> u32 {
        match self {
            ForestRunStorage::Resident(run) => run.node_count,
            ForestRunStorage::Mapped(run) => run.nodes(),
        }
    }

    /// The edges of the run, however they are held.
    pub open spec fn edges(&self) -> Seq<Edge> {
        match self {
            ForestRunStorage::Resident(run) => run.edges@,
            ForestRunStorage::Mapped(run) => run.edges(),
        }
    }

    pub fn resident(run: ForestRun) -> (storage: ForestRunStorage)
        ensures
            storage == ForestRunStorage::Resident(run),
    {
        ForestRunStorage::Resident(run)
    }

    pub fn node_count(&self) -> (count: u32)
        ensures
            count == self.nodes(),
    {
        match self {
            ForestRunStorage::Resident(run) => run.node_count,
            ForestRunStorage::Mapped(run) => run.node_count(),
        }
    }

    pub fn edge_count(&self) -> (count: usize)
        ensures
            count == self.edges().len(),
    {
        match self {
            ForestRunStorage::Resident(run) => run.edges.len(),
            ForestRunStorage::Mapped(run) => run.edge_count(),
        }
    }

    /// Bytes of the room that the run's edges have in memory: none for a mapped run. How much
    /// room the allocator gave beyond the edges is left open.
    pub fn resident_capacity_bytes(&self) -> (bytes: u64)
        ensures
            self is Mapped ==> bytes == 0,
            self is Resident ==> exists|capacity: usize|
                capacity >= self.edges().len() && bytes == #[trigger] forest::edge_bytes_of(
                    capacity as nat,
                ),
    {
        match self {
            ForestRunStorage::Resident(run) => {
                let capacity: usize = capacity_of(&run.edges);
                edge_bytes(capacity)
            },
            ForestRunStorage::Mapped(_) => 0,
        }
    }

    pub fn is_mapped(&self) -> (mapped: bool)
        ensures
            mapped == (self is Mapped),
    {
        match self {
            ForestRunStorage::Resident(_) => false,
            ForestRunStorage::Mapped(_) => true,
        }
    }

    /// Edge `index` of the run.
    pub fn edge(&self, index: usize) -> (edge: Edge)
        requires
            self.wf(),
            index < self.edges().len(),
        ensures
            edge == self.edges()[index as int],
    {
        match self {
            ForestRunStorage::Resident(run) => run.edges[index],
            ForestRunStorage::Mapped(run) => run.edge(index),
        }
    }

    /// The edges of the run as a vector.
    pub fn materialized_edges(&self) -> (edges: Vec<Edge>)
        requires
            self.wf(),
        ensures
            edges@ == self.edges(),
    {
        let mut edges: Vec<Edge> = Vec::new();
        let count: usize = self.edge_count();
        let mut i: usize = 0;
        while i < count
            invariant
                self.wf(),
                count == self.edges().len(),
                i <= count,
                edges@ == self.edges().take(i as int),
            decreases count - i,
        {
            edges.push(self.edge(i));
            i = i + 1;
            assert(edges@ =~= self.edges().take(i as int));
        }
        assert(self.edges().take(i as int) =~= self.edges());
        edges
    }
}

} // verus!
