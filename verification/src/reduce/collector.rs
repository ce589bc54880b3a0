//! Collection of edges into bounded forest runs.

use crate::reduce::dsu;
use crate::reduce::dsu::Dsu;
use crate::reduce::error::{check, ReduceError, ReduceFault};
use crate::reduce::forest;
use crate::reduce::forest::{
    canonicalize, edge_bytes, find_outside, EdgeBudget, ForestRun, EDGE_BYTES,
};
use crate::reduce::graph;
use crate::reduce::graph::Edge;
use crate::reduce::scratch;
use crate::reduce::scratch::{
    clear_listed, copy_edges, count_edge, zero_degrees, EdgeCollectorScratch,
    EdgeCollectorScratchKind,
};
use vstd::prelude::*;

verus! {

/// Most edges that a buffer has room for at first.
pub const INITIAL_EDGE_CAP: usize = 4_096;

/// The edges of all runs, run after run.
pub open spec fn concatenated(runs: Seq<Seq<Edge>>) -> Seq<Edge>
    decreases runs.len(),
{
    if runs.len() == 0 {
        Seq::empty()
    } else {
        concatenated(runs.drop_last()) + runs.last()
    }
}

/// The edge sequences of runs.
pub open spec fn edges_of(runs: Seq<ForestRun>) -> Seq<Seq<Edge>> {
    runs.map_values(|run: ForestRun| run.edges@)
}

/// Every run is over `node_count` nodes and stays within them.
pub open spec fn runs_within(runs: Seq<ForestRun>, node_count: u32) -> bool {
    forall|r: int|
        0 <= r < runs.len() ==> (#[trigger] runs[r]).node_count == node_count && runs[r].wf()
}

pub open spec fn saturating_sum(a: u64, b: u64) -> u64 {
    if a + b <= u64::MAX {
        (a + b) as u64
    } else {
        u64::MAX
    }
}

/// What a collector holds: finished runs, buffered edges, and the bytes charged for runs.
pub struct CollectorState {
    pub runs: Seq<Seq<Edge>>,
    pub buffer: Seq<Edge>,
    pub compacted_bytes: u64,
}

impl CollectorState {
    /// All edges held.
    pub open spec fn contents(self) -> Seq<Edge> {
        concatenated(self.runs) + self.buffer
    }
}

/// The node universe and the limits of a collector.
#[derive(Debug, Clone, Copy)]
pub struct CollectorRules {
    pub node_count: u32,
    pub budget: EdgeBudget,
    pub degree_trigger: u32,
}

impl CollectorRules {
    /// Limits of a single run: the retained total is charged separately.
    pub open spec fn run_budget(self) -> EdgeBudget {
        EdgeBudget {
            max_buffer_bytes: self.budget.max_buffer_bytes,
            max_run_edges: self.budget.max_run_edges,
            max_total_bytes: u64::MAX,
        }
    }

    /// Limits of a merge: only the retained total counts.
    pub open spec fn merge_budget(self) -> EdgeBudget {
        EdgeBudget {
            max_buffer_bytes: u64::MAX,
            max_run_edges: u64::MAX,
            max_total_bytes: self.budget.max_total_bytes,
        }
    }

    /// All runs merged into one spanning forest.
    pub open spec fn merged(self, state: CollectorState) -> Result<CollectorState, ReduceFault> {
        match forest::forest_outcome(
            self.node_count,
            concatenated(state.runs),
            self.merge_budget(),
        ) {
            Err(fault) => Err(fault),
            Ok(edges) => Ok(
                CollectorState {
                    runs: seq![edges],
                    buffer: state.buffer,
                    compacted_bytes: forest::edge_bytes_of(edges.len()),
                },
            ),
        }
    }

    /// The buffer turned into a run; the runs merged where their total exceeds the budget.
    pub open spec fn flushed(self, state: CollectorState) -> Result<CollectorState, ReduceFault> {
        if state.buffer.len() == 0 {
            Ok(state)
        } else {
            match forest::forest_outcome(self.node_count, state.buffer, self.run_budget()) {
                Err(fault) => Err(fault),
                Ok(edges) => {
                    let grown = CollectorState {
                        runs: state.runs.push(edges),
                        buffer: Seq::empty(),
                        compacted_bytes: saturating_sum(
                            state.compacted_bytes,
                            forest::edge_bytes_of(edges.len()),
                        ),
                    };
                    if grown.compacted_bytes > self.budget.max_total_bytes {
                        self.merged(grown)
                    } else {
                        Ok(grown)
                    }
                },
            }
        }
    }

    /// The edge buffered, after making room and before a node's degree grows too large.
    pub open spec fn pushed(self, state: CollectorState, edge: Edge) -> Result<
        CollectorState,
        ReduceFault,
    > {
        let room = if forest::edge_bytes_of((state.buffer.len() + 1) as nat)
            > self.budget.max_buffer_bytes {
            self.flushed(state)
        } else {
            Ok(state)
        };
        match room {
            Err(fault) => Err(fault),
            Ok(ready) => if edge.left >= self.node_count {
                Err(
                    ReduceFault::Endpoint {
                        endpoint: edge.left,
                        node_count: self.node_count,
                    },
                )
            } else if edge.right >= self.node_count {
                Err(
                    ReduceFault::Endpoint {
                        endpoint: edge.right,
                        node_count: self.node_count,
                    },
                )
            } else {
                let grown = CollectorState { buffer: ready.buffer.push(edge), ..ready };
                if scratch::degree(grown.buffer, edge.left as int) >= self.degree_trigger || scratch::degree(
                    grown.buffer,
                    edge.right as int,
                ) >= self.degree_trigger {
                    self.flushed(grown)
                } else {
                    Ok(grown)
                }
            },
        }
    }

    /// The buffer flushed and all runs merged into at most one.
    pub open spec fn compacted(self, state: CollectorState) -> Result<CollectorState, ReduceFault> {
        match self.flushed(state) {
            Err(fault) => Err(fault),
            Ok(ready) => if ready.runs.len() > 1 {
                self.merged(ready)
            } else {
                Ok(ready)
            },
        }
    }
}

impl CollectorRules {
    /// Merges as a shared collector does: the largest run first, kept edges sorted. A single
    /// run stays as it is.
    pub open spec fn merged_shared(self, state: CollectorState) -> Result<
        CollectorState,
        ReduceFault,
    > {
        if state.runs.len() <= 1 {
            Ok(state)
        } else {
            let edges = forest::canonical_edges(
                forest::spanning_edges(concatenated(largest_first(state.runs))),
            );
            if forest::edge_bytes_of(edges.len()) > self.budget.max_total_bytes {
                Err(
                    ReduceFault::Budget {
                        resource: "total_bytes"@,
                        requested: forest::edge_bytes_of(edges.len()),
                        limit: self.budget.max_total_bytes,
                    },
                )
            } else {
                Ok(
                    CollectorState {
                        runs: seq![edges],
                        buffer: state.buffer,
                        compacted_bytes: forest::edge_bytes_of(edges.len()),
                    },
                )
            }
        }
    }

    /// As [`CollectorRules::flushed`] for a shared collector.
    pub open spec fn flushed_shared(self, state: CollectorState) -> Result<
        CollectorState,
        ReduceFault,
    > {
        if state.buffer.len() == 0 {
            Ok(state)
        } else {
            match forest::forest_outcome(self.node_count, state.buffer, self.run_budget()) {
                Err(fault) => Err(fault),
                Ok(edges) => {
                    let grown = CollectorState {
                        runs: state.runs.push(edges),
                        buffer: Seq::empty(),
                        compacted_bytes: saturating_sum(
                            state.compacted_bytes,
                            forest::edge_bytes_of(edges.len()),
                        ),
                    };
                    if grown.compacted_bytes > self.budget.max_total_bytes {
                        self.merged_shared(grown)
                    } else {
                        Ok(grown)
                    }
                },
            }
        }
    }

    /// As [`CollectorRules::pushed`] for a shared collector: endpoints are checked first, and
    /// degrees count only where the scratch keeps them.
    pub open spec fn pushed_shared(self, state: CollectorState, edge: Edge, counted: bool) -> Result<
        CollectorState,
        ReduceFault,
    > {
        if edge.left >= self.node_count {
            Err(ReduceFault::Endpoint { endpoint: edge.left, node_count: self.node_count })
        } else if edge.right >= self.node_count {
            Err(ReduceFault::Endpoint { endpoint: edge.right, node_count: self.node_count })
        } else {
            let room = if forest::edge_bytes_of((state.buffer.len() + 1) as nat)
                > self.budget.max_buffer_bytes {
                self.flushed_shared(state)
            } else {
                Ok(state)
            };
            match room {
                Err(fault) => Err(fault),
                Ok(ready) => {
                    let grown = CollectorState { buffer: ready.buffer.push(edge), ..ready };
                    if counted && (scratch::degree(grown.buffer, edge.left as int)
                        >= self.degree_trigger || scratch::degree(grown.buffer, edge.right as int)
                        >= self.degree_trigger) {
                        self.flushed_shared(grown)
                    } else {
                        Ok(grown)
                    }
                },
            }
        }
    }

    /// The first `count` edges of a batch pushed one after the other.
    pub open spec fn pushed_batch(
        self,
        state: CollectorState,
        edges: Seq<Edge>,
        counted: bool,
        count: int,
    ) -> Result<CollectorState, ReduceFault>
        decreases count,
    {
        if count <= 0 {
            Ok(state)
        } else {
            match self.pushed_batch(state, edges, counted, count - 1) {
                Err(fault) => Err(fault),
                Ok(ready) => self.pushed_shared(ready, edges[count - 1], counted),
            }
        }
    }

    /// As [`CollectorRules::compacted`] for a shared collector.
    pub open spec fn compacted_shared(self, state: CollectorState) -> Result<
        CollectorState,
        ReduceFault,
    > {
        match self.flushed_shared(state) {
            Err(fault) => Err(fault),
            Ok(ready) => if ready.runs.len() > 1 {
                self.merged_shared(ready)
            } else {
                Ok(ready)
            },
        }
    }
}

impl CollectorRules {
    /// What a collector with these limits holds: runs and buffer stay within the nodes, runs have
    /// no loop and no more edges than there are nodes, and the buffer stays within its limit, unless that is
    /// less than an edge.
    pub open spec fn holds(self, state: CollectorState) -> bool {
        &&& forall|r: int|
            0 <= r < state.runs.len() ==> graph::all_within(
                #[trigger] state.runs[r],
                self.node_count as int,
            ) && state.runs[r].len() <= self.node_count && graph::are_proper(state.runs[r])
        &&& graph::all_within(state.buffer, self.node_count as int)
        &&& forest::EDGE_BYTES <= self.budget.max_buffer_bytes ==> forest::edge_bytes_of(
            state.buffer.len(),
        ) <= self.budget.max_buffer_bytes
    }

    /// Every forest over the nodes keeps to the limits, and an edge can be buffered.
    pub open spec fn are_ample(self) -> bool {
        &&& forest::EDGE_BYTES <= self.budget.max_buffer_bytes
        &&& self.node_count <= self.budget.max_run_edges
        &&& self.node_count * forest::EDGE_BYTES <= self.budget.max_total_bytes
    }

    /// The faults that a collector with these limits may give: a limit that a forest over the
    /// nodes exceeds, a buffer without room for an edge, an endpoint outside the nodes, or a
    /// count that does not fit.
    pub open spec fn may_fail_with(self, fault: ReduceFault) -> bool {
        match fault {
            ReduceFault::WorkOverflow => true,
            ReduceFault::Budget { resource, requested, limit } => requested > limit && {
                ||| resource == "buffer_bytes"@ && limit == self.budget.max_buffer_bytes && limit
                    < forest::EDGE_BYTES
                ||| resource == "run_edges"@ && limit == self.budget.max_run_edges && requested
                    < self.node_count
                ||| resource == "total_bytes"@ && limit == self.budget.max_total_bytes && requested
                    < self.node_count * forest::EDGE_BYTES
            },
            ReduceFault::Endpoint { endpoint, node_count } => node_count == self.node_count
                && endpoint >= node_count,
            _ => false,
        }
    }

    proof fn lemma_flush(self, state: CollectorState)
        requires
            self.holds(state),
        ensures
            match self.flushed_shared(state) {
                Ok(next) => self.holds(next) && next.buffer.len() == 0,
                Err(fault) => self.may_fail_with(fault) && fault is Budget,
            },
    {
        if state.buffer.len() > 0 {
            let node_count = self.node_count;
            let ordered = forest::canonical_edges(state.buffer);
            forest::lemma_forest_faults(node_count, state.buffer, self.run_budget());
            forest::lemma_canonical_exists(state.buffer);
            forest::lemma_proper_edges_members(state.buffer, state.buffer[0]);
            forest::lemma_canonical_within(state.buffer, node_count);
            forest::lemma_spanning_within(ordered, node_count);
            let proper = forest::proper_edges(state.buffer).len();
            assert(forest::edge_bytes_of(proper) <= forest::edge_bytes_of(state.buffer.len()));
            if let Ok(edges) = forest::forest_outcome(
                node_count,
                state.buffer,
                self.run_budget(),
            ) {
                forest::lemma_run_is_forest(node_count, state.buffer, self.run_budget());
                let grown = CollectorState {
                    runs: state.runs.push(edges),
                    buffer: Seq::empty(),
                    compacted_bytes: saturating_sum(
                        state.compacted_bytes,
                        forest::edge_bytes_of(edges.len()),
                    ),
                };
                assert(self.holds(grown));
                self.lemma_merge(grown);
            }
        }
    }

    proof fn lemma_merge(self, state: CollectorState)
        requires
            self.holds(state),
        ensures
            match self.merged_shared(state) {
                Ok(next) => self.holds(next) && next.buffer == state.buffer,
                Err(fault) => self.may_fail_with(fault) && fault is Budget,
            },
    {
        if state.runs.len() > 1 {
            let all = concatenated(state.runs);
            let ordered = concatenated(largest_first(state.runs));
            let kept = forest::spanning_edges(ordered);
            lemma_largest_first_connectivity(state.runs);
            assert forall|k: int| 0 <= k < ordered.len() implies (#[trigger] ordered[k]).within(
                self.node_count as int,
            ) by {
                assert(ordered.contains(ordered[k]));
                lemma_concatenated_members(largest_first(state.runs), ordered[k]);
                let r = choose|r: int|
                    0 <= r < largest_first(state.runs).len() && (
                    #[trigger] largest_first(state.runs)[r]).contains(ordered[k]);
                let own = choose|own: int|
                    0 <= own < state.runs.len() && largest_first(state.runs)[r]
                        == state.runs[own];
                let at = state.runs[own].index_of(ordered[k]);
                assert(state.runs[own][at].within(self.node_count as int));
            }
            forest::lemma_spanning_within(ordered, self.node_count);
            forest::lemma_canonical_within(kept, self.node_count);
            forest::lemma_canonical_len(kept);
            forest::lemma_canonical_exists(kept);
            let edges = forest::canonical_edges(kept);
            assert forall|k: int| 0 <= k < edges.len() implies (#[trigger] edges[k]).left
                != edges[k].right by {
                assert(edges.contains(edges[k]));
            }
        }
    }

    /// Merging keeps what a collector holds within its limits, and fails where they are exceeded.
    pub proof fn lemma_compact_faults(self, state: CollectorState)
        requires
            self.holds(state),
        ensures
            match self.flushed_shared(state) {
                Ok(next) => self.holds(next),
                Err(fault) => self.may_fail_with(fault) && fault is Budget,
            },
            match self.compacted_shared(state) {
                Ok(next) => self.holds(next) && next.runs.len() <= 1,
                Err(fault) => self.may_fail_with(fault) && fault is Budget,
            },
    {
        self.lemma_flush(state);
        if let Ok(next) = self.flushed_shared(state) {
            self.lemma_merge(next);
        }
    }

    /// A batch keeps what a collector holds within its limits, and fails where they are exceeded
    /// or where one of its edges lies outside the nodes.
    pub proof fn lemma_batch_faults(
        self,
        state: CollectorState,
        edges: Seq<Edge>,
        counted: bool,
        count: int,
    )
        requires
            self.holds(state),
            0 <= count <= edges.len(),
        ensures
            match self.pushed_batch(state, edges, counted, count) {
                Ok(next) => self.holds(next),
                Err(fault) => self.may_fail_with(fault) && match fault {
                    ReduceFault::Endpoint { endpoint, .. } => graph::touches(
                        edges,
                        endpoint as int,
                    ),
                    _ => fault is Budget,
                },
            },
        decreases count,
    {
        if count > 0 {
            self.lemma_batch_faults(state, edges, counted, count - 1);
            if let Ok(ready) = self.pushed_batch(state, edges, counted, count - 1) {
                let edge = edges[count - 1];
                if !edge.within(self.node_count as int) {
                    assert(graph::touches(edges, edge.left as int));
                    assert(graph::touches(edges, edge.right as int));
                } else {
                    self.lemma_flush(ready);
                    if forest::edge_bytes_of((ready.buffer.len() + 1) as nat)
                        > self.budget.max_buffer_bytes {
                        if let Ok(flushed) = self.flushed_shared(ready) {
                            let grown = CollectorState {
                                buffer: flushed.buffer.push(edge),
                                ..flushed
                            };
                            assert(self.holds(grown));
                            self.lemma_flush(grown);
                        }
                    } else {
                        let grown = CollectorState { buffer: ready.buffer.push(edge), ..ready };
                        assert(self.holds(grown));
                        self.lemma_flush(grown);
                    }
                }
            }
        }
    }

    /// Ample limits are exceeded only by counts that do not fit.
    pub proof fn lemma_ample(self, fault: ReduceFault)
        requires
            self.are_ample(),
            self.may_fail_with(fault),
        ensures
            fault == ReduceFault::WorkOverflow || fault is Endpoint,
    {
    }
}

impl CollectorRules {
    /// What a new collector comes to when the first `count` edges are pushed.
    pub open spec fn pushed_all(self, edges: Seq<Edge>, count: int) -> Result<
        CollectorState,
        ReduceFault,
    >
        decreases count,
    {
        if count <= 0 {
            Ok(
                CollectorState {
                    runs: Seq::empty(),
                    buffer: Seq::empty(),
                    compacted_bytes: 0,
                },
            )
        } else {
            match self.pushed_all(edges, count - 1) {
                Err(fault) => Err(fault),
                Ok(state) => self.pushed(state, edges[count - 1]),
            }
        }
    }

    /// The runs that finishing gives after all edges were pushed.
    pub open spec fn finished(self, edges: Seq<Edge>) -> Result<Seq<Seq<Edge>>, ReduceFault> {
        match self.pushed_all(edges, edges.len() as int) {
            Err(fault) => Err(fault),
            Ok(state) => match self.flushed(state) {
                Err(fault) => Err(fault),
                Ok(last) => Ok(last.runs),
            },
        }
    }

    /// Every run is a forest with fewer edges than nodes.
    pub open spec fn are_forests(self, runs: Seq<Seq<Edge>>) -> bool {
        forall|r: int|
            0 <= r < runs.len() ==> forest::is_forest(#[trigger] runs[r]) && runs[r].len() <= (
            if self.node_count > 0 {
                self.node_count - 1
            } else {
                0
            })
    }

    proof fn lemma_flushed_forests(self, state: CollectorState)
        requires
            self.are_forests(state.runs),
            self.flushed(state) is Ok,
        ensures
            self.are_forests(self.flushed(state)->Ok_0.runs),
            self.flushed(state)->Ok_0.buffer.len() == 0,
    {
        if state.buffer.len() > 0 {
            let edges = forest::forest_outcome(
                self.node_count,
                state.buffer,
                self.run_budget(),
            )->Ok_0;
            forest::lemma_run_is_forest(self.node_count, state.buffer, self.run_budget());
            let grown = state.runs.push(edges);
            if forest::forest_outcome(
                self.node_count,
                concatenated(grown),
                self.merge_budget(),
            ) is Ok {
                forest::lemma_run_is_forest(
                    self.node_count,
                    concatenated(grown),
                    self.merge_budget(),
                );
            }
        }
    }

    proof fn lemma_pushed_all(self, edges: Seq<Edge>, count: int)
        requires
            0 <= count <= edges.len(),
            self.pushed_all(edges, count) is Ok,
        ensures
            self.are_forests(self.pushed_all(edges, count)->Ok_0.runs),
            graph::same_connectivity(
                self.pushed_all(edges, count)->Ok_0.contents(),
                edges.take(count),
            ),
        decreases count,
    {
        let state = self.pushed_all(edges, count)->Ok_0;
        if count > 0 {
            self.lemma_pushed_all(edges, count - 1);
            let before = self.pushed_all(edges, count - 1)->Ok_0;
            let edge = edges[count - 1];
            lemma_pushed_connectivity(self, before, edge);
            if forest::edge_bytes_of((before.buffer.len() + 1) as nat)
                > self.budget.max_buffer_bytes {
                self.lemma_flushed_forests(before);
                let room = self.flushed(before)->Ok_0;
                let grown = CollectorState { buffer: room.buffer.push(edge), ..room };
                if self.flushed(grown) is Ok {
                    self.lemma_flushed_forests(grown);
                }
            } else {
                let grown = CollectorState { buffer: before.buffer.push(edge), ..before };
                if self.flushed(grown) is Ok {
                    self.lemma_flushed_forests(grown);
                }
            }
            let earlier = edges.take(count - 1);
            graph::lemma_concat_connectivity(before.contents(), seq![edge], earlier, seq![edge]);
            assert(before.contents().push(edge) =~= before.contents() + seq![edge]);
            assert(edges.take(count) =~= earlier + seq![edge]);
            assert forall|a: int, b: int| #[trigger]
                graph::connected(state.contents(), a, b) <==> graph::connected(
                edges.take(count),
                a,
                b,
            ) by {
                assert(graph::connected(state.contents(), a, b) <==> graph::connected(
                    before.contents().push(edge),
                    a,
                    b,
                ));
                assert(graph::connected(before.contents() + seq![edge], a, b)
                    <==> graph::connected(earlier + seq![edge], a, b));
            }
        } else {
            assert(state.contents() =~= edges.take(0));
        }
    }

    /// Finishing gives runs that connect exactly the pushed edges. Every run is a forest: its
    /// edges increase strictly, it has no loop and no cycle, and fewer edges than nodes.
    pub proof fn lemma_finished(self, edges: Seq<Edge>)
        requires
            self.finished(edges) is Ok,
        ensures
            graph::same_connectivity(concatenated(self.finished(edges)->Ok_0), edges),
            self.are_forests(self.finished(edges)->Ok_0),
    {
        let count = edges.len() as int;
        self.lemma_pushed_all(edges, count);
        let state = self.pushed_all(edges, count)->Ok_0;
        self.lemma_flushed_forests(state);
        lemma_flushed_connectivity(self, state);
        let last = self.flushed(state)->Ok_0;
        assert(last.contents() =~= concatenated(last.runs));
        assert(edges.take(count) =~= edges);
        assert forall|a: int, b: int| #[trigger]
            graph::connected(concatenated(last.runs), a, b) <==> graph::connected(edges, a, b) by {
            assert(graph::connected(last.contents(), a, b) <==> graph::connected(
                state.contents(),
                a,
                b,
            ));
            assert(graph::connected(state.contents(), a, b) <==> graph::connected(
                edges.take(count),
                a,
                b,
            ));
        }
    }

    /// Collectors with other budgets and triggers give runs with the same components.
    pub proof fn lemma_limits_change_no_component(self, other: CollectorRules, edges: Seq<Edge>)
        requires
            self.finished(edges) is Ok,
            other.finished(edges) is Ok,
        ensures
            graph::same_connectivity(
                concatenated(self.finished(edges)->Ok_0),
                concatenated(other.finished(edges)->Ok_0),
            ),
    {
        self.lemma_finished(edges);
        other.lemma_finished(edges);
        let one = concatenated(self.finished(edges)->Ok_0);
        let two = concatenated(other.finished(edges)->Ok_0);
        assert forall|a: int, b: int| #[trigger] graph::connected(one, a, b) <==> graph::connected(
            two,
            a,
            b,
        ) by {
            assert(graph::connected(one, a, b) <==> graph::connected(edges, a, b));
            assert(graph::connected(two, a, b) <==> graph::connected(edges, a, b));
        }
    }
}

/// The last of the longest runs before `end`.
pub open spec fn longest_run(runs: Seq<Seq<Edge>>, end: int) -> int
    decreases end,
{
    if end <= 1 {
        0
    } else {
        let earlier = longest_run(runs, end - 1);
        if runs[end - 1].len() >= runs[earlier].len() {
            end - 1
        } else {
            earlier
        }
    }
}

/// The runs with the longest in front, and the last one in the place that it left.
pub open spec fn largest_first(runs: Seq<Seq<Edge>>) -> Seq<Seq<Edge>> {
    let longest = longest_run(runs, runs.len() as int);
    seq![runs[longest]] + runs.update(longest, runs.last()).drop_last()
}

proof fn lemma_longest_run(runs: Seq<Seq<Edge>>, end: int)
    requires
        1 <= end <= runs.len(),
    ensures
        0 <= longest_run(runs, end) < end,
    decreases end,
{
    if end > 1 {
        lemma_longest_run(runs, end - 1);
    }
}

proof fn lemma_concatenated_members(runs: Seq<Seq<Edge>>, edge: Edge)
    ensures
        concatenated(runs).contains(edge) <==> exists|r: int|
            0 <= r < runs.len() && (#[trigger] runs[r]).contains(edge),
    decreases runs.len(),
{
    if runs.len() > 0 {
        let rest = runs.drop_last();
        lemma_concatenated_members(rest, edge);
        let head = concatenated(rest);
        let all = concatenated(runs);
        if head.contains(edge) {
            let k = head.index_of(edge);
            assert(all[k] == edge);
            let r = choose|r: int| 0 <= r < rest.len() && (#[trigger] rest[r]).contains(edge);
            assert(runs[r].contains(edge));
        }
        if runs.last().contains(edge) {
            let k = runs.last().index_of(edge);
            assert(all[head.len() + k] == edge);
            assert(runs[runs.len() - 1].contains(edge));
        }
        if all.contains(edge) {
            let k = all.index_of(edge);
            if k < head.len() {
                assert(head[k] == edge);
            } else {
                assert(runs.last()[k - head.len()] == edge);
                assert(runs[runs.len() - 1].contains(edge));
            }
        }
        if exists|r: int| 0 <= r < runs.len() && (#[trigger] runs[r]).contains(edge) {
            let r = choose|r: int| 0 <= r < runs.len() && (#[trigger] runs[r]).contains(edge);
            if r < rest.len() {
                assert(rest[r].contains(edge));
            }
        }
    }
}

/// Reordering runs keeps connectivity.
proof fn lemma_largest_first_connectivity(runs: Seq<Seq<Edge>>)
    requires
        runs.len() >= 1,
    ensures
        graph::same_connectivity(concatenated(largest_first(runs)), concatenated(runs)),
        largest_first(runs).len() == runs.len(),
        forall|r: int|
            0 <= r < runs.len() ==> exists|k: int|
                0 <= k < runs.len() && #[trigger] largest_first(runs)[r] == runs[k],
{
    lemma_longest_run(runs, runs.len() as int);
    let longest = longest_run(runs, runs.len() as int);
    let ordered = largest_first(runs);
    let last = runs.len() - 1;
    assert forall|r: int| 0 <= r < runs.len() implies exists|k: int|
        0 <= k < runs.len() && #[trigger] ordered[r] == runs[k] by {
        if r == 0 {
            assert(ordered[r] == runs[longest]);
        } else if r - 1 == longest {
            assert(ordered[r] == runs[last]);
        } else {
            assert(ordered[r] == runs[r - 1]);
        }
    }
    let left = concatenated(ordered);
    let right = concatenated(runs);
    assert forall|i: int| 0 <= i < left.len() implies right.contains(#[trigger] left[i]) by {
        assert(left.contains(left[i]));
        lemma_concatenated_members(ordered, left[i]);
        let r = choose|r: int| 0 <= r < ordered.len() && (#[trigger] ordered[r]).contains(left[i]);
        let k = choose|k: int| 0 <= k < runs.len() && ordered[r] == runs[k];
        assert(runs[k].contains(left[i]));
        lemma_concatenated_members(runs, left[i]);
    }
    assert forall|i: int| 0 <= i < right.len() implies left.contains(#[trigger] right[i]) by {
        assert(right.contains(right[i]));
        lemma_concatenated_members(runs, right[i]);
        let k = choose|k: int| 0 <= k < runs.len() && (#[trigger] runs[k]).contains(right[i]);
        let r = if k == longest {
            0
        } else if k == last {
            longest + 1
        } else {
            k + 1
        };
        assert(ordered[r] == runs[k]);
        lemma_concatenated_members(ordered, right[i]);
    }
    graph::lemma_connectivity_of_members(left, right);
}

proof fn lemma_merged_shared_connectivity(rules: CollectorRules, state: CollectorState)
    requires
        rules.merged_shared(state) is Ok,
    ensures
        graph::same_connectivity(rules.merged_shared(state)->Ok_0.contents(), state.contents()),
{
    if state.runs.len() > 1 {
        let ordered = concatenated(largest_first(state.runs));
        let kept = forest::spanning_edges(ordered);
        let edges = forest::canonical_edges(kept);
        let all = concatenated(state.runs);
        lemma_largest_first_connectivity(state.runs);
        forest::lemma_spanning_connectivity(ordered);
        forest::lemma_canonical_exists(kept);
        forest::lemma_canonical_connectivity(kept, edges);
        assert forall|a: int, b: int| #[trigger]
            graph::connected(edges, a, b) <==> graph::connected(all, a, b) by {
            assert(graph::connected(edges, a, b) <==> graph::connected(kept, a, b));
            assert(graph::connected(kept, a, b) <==> graph::connected(ordered, a, b));
            assert(graph::connected(ordered, a, b) <==> graph::connected(all, a, b));
        }
        let next = rules.merged_shared(state)->Ok_0;
        assert(next.runs =~= Seq::empty().push(edges));
        lemma_concatenated_push(Seq::empty(), edges);
        assert(concatenated(next.runs) =~= edges);
        graph::lemma_concat_connectivity(edges, state.buffer, all, state.buffer);
    }
}

/// Flushing a shared collector keeps the connectivity of what is held.
pub proof fn lemma_flushed_shared_connectivity(rules: CollectorRules, state: CollectorState)
    requires
        rules.flushed_shared(state) is Ok,
    ensures
        graph::same_connectivity(rules.flushed_shared(state)->Ok_0.contents(), state.contents()),
{
    if state.buffer.len() > 0 {
        let edges = forest::forest_outcome(rules.node_count, state.buffer, rules.run_budget())->Ok_0;
        lemma_forest_outcome_connectivity(rules.node_count, state.buffer, rules.run_budget());
        let grown = CollectorState {
            runs: state.runs.push(edges),
            buffer: Seq::empty(),
            compacted_bytes: saturating_sum(
                state.compacted_bytes,
                forest::edge_bytes_of(edges.len()),
            ),
        };
        lemma_concatenated_push(state.runs, edges);
        assert(grown.contents() =~= concatenated(state.runs) + edges);
        graph::lemma_concat_connectivity(
            concatenated(state.runs),
            edges,
            concatenated(state.runs),
            state.buffer,
        );
        if grown.compacted_bytes > rules.budget.max_total_bytes {
            lemma_merged_shared_connectivity(rules, grown);
            let next = rules.merged_shared(grown)->Ok_0;
            assert forall|a: int, b: int| #[trigger]
                graph::connected(next.contents(), a, b) <==> graph::connected(
                    state.contents(),
                    a,
                    b,
                ) by {
                assert(graph::connected(next.contents(), a, b) <==> graph::connected(
                    grown.contents(),
                    a,
                    b,
                ));
                assert(graph::connected(grown.contents(), a, b) <==> graph::connected(
                    state.contents(),
                    a,
                    b,
                ));
            }
        }
    }
}

proof fn lemma_pushed_shared_connectivity(
    rules: CollectorRules,
    state: CollectorState,
    edge: Edge,
    counted: bool,
)
    requires
        rules.pushed_shared(state, edge, counted) is Ok,
    ensures
        graph::same_connectivity(
            rules.pushed_shared(state, edge, counted)->Ok_0.contents(),
            state.contents().push(edge),
        ),
{
    let ready = if forest::edge_bytes_of((state.buffer.len() + 1) as nat)
        > rules.budget.max_buffer_bytes {
        lemma_flushed_shared_connectivity(rules, state);
        rules.flushed_shared(state)->Ok_0
    } else {
        state
    };
    let grown = CollectorState { buffer: ready.buffer.push(edge), ..ready };
    assert(grown.contents() =~= ready.contents() + seq![edge]);
    assert(state.contents().push(edge) =~= state.contents() + seq![edge]);
    graph::lemma_concat_connectivity(ready.contents(), seq![edge], state.contents(), seq![edge]);
    let next = rules.pushed_shared(state, edge, counted)->Ok_0;
    if next != grown {
        lemma_flushed_shared_connectivity(rules, grown);
        assert forall|a: int, b: int| #[trigger]
            graph::connected(next.contents(), a, b) <==> graph::connected(
                state.contents().push(edge),
                a,
                b,
            ) by {
            assert(graph::connected(next.contents(), a, b) <==> graph::connected(
                grown.contents(),
                a,
                b,
            ));
            assert(graph::connected(grown.contents(), a, b) <==> graph::connected(
                state.contents().push(edge),
                a,
                b,
            ));
        }
    }
}

/// Compacting a shared collector keeps the connectivity of what is held.
pub proof fn lemma_compacted_shared_connectivity(rules: CollectorRules, state: CollectorState)
    requires
        rules.compacted_shared(state) is Ok,
    ensures
        graph::same_connectivity(rules.compacted_shared(state)->Ok_0.contents(), state.contents()),
{
    lemma_flushed_shared_connectivity(rules, state);
    let ready = rules.flushed_shared(state)->Ok_0;
    if ready.runs.len() > 1 {
        lemma_merged_shared_connectivity(rules, ready);
        let next = rules.merged_shared(ready)->Ok_0;
        assert forall|a: int, b: int| #[trigger]
            graph::connected(next.contents(), a, b) <==> graph::connected(state.contents(), a, b) by {
            assert(graph::connected(next.contents(), a, b) <==> graph::connected(
                ready.contents(),
                a,
                b,
            ));
        }
    }
}

/// A batch adds exactly its edges to the connectivity of what is held.
pub proof fn lemma_pushed_batch_connectivity(
    rules: CollectorRules,
    state: CollectorState,
    edges: Seq<Edge>,
    counted: bool,
    count: int,
)
    requires
        0 <= count <= edges.len(),
        rules.pushed_batch(state, edges, counted, count) is Ok,
    ensures
        graph::same_connectivity(
            rules.pushed_batch(state, edges, counted, count)->Ok_0.contents(),
            state.contents() + edges.take(count),
        ),
    decreases count,
{
    if count > 0 {
        lemma_pushed_batch_connectivity(rules, state, edges, counted, count - 1);
        let ready = rules.pushed_batch(state, edges, counted, count - 1)->Ok_0;
        let edge = edges[count - 1];
        lemma_pushed_shared_connectivity(rules, ready, edge, counted);
        let next = rules.pushed_batch(state, edges, counted, count)->Ok_0;
        let before = state.contents() + edges.take(count - 1);
        assert(ready.contents().push(edge) =~= ready.contents() + seq![edge]);
        assert(state.contents() + edges.take(count) =~= before + seq![edge]);
        graph::lemma_concat_connectivity(ready.contents(), seq![edge], before, seq![edge]);
        assert forall|a: int, b: int| #[trigger]
            graph::connected(next.contents(), a, b) <==> graph::connected(
                state.contents() + edges.take(count),
                a,
                b,
            ) by {
            assert(graph::connected(next.contents(), a, b) <==> graph::connected(
                ready.contents().push(edge),
                a,
                b,
            ));
            assert(graph::connected(ready.contents() + seq![edge], a, b) <==> graph::connected(
                before + seq![edge],
                a,
                b,
            ));
        }
    } else {
        assert(state.contents() + edges.take(0) =~= state.contents());
    }
}

proof fn lemma_batch_fault_stays(
    rules: CollectorRules,
    state: CollectorState,
    edges: Seq<Edge>,
    counted: bool,
    early: int,
    late: int,
)
    requires
        0 <= early <= late,
    ensures
        rules.pushed_batch(state, edges, counted, early) matches Err(fault) ==> rules.pushed_batch(
            state,
            edges,
            counted,
            late,
        ) == Err::<CollectorState, ReduceFault>(fault),
    decreases late - early,
{
    if early < late {
        lemma_batch_fault_stays(rules, state, edges, counted, early, late - 1);
    }
}

/// The concatenation of runs is that of their edge sequences.
pub proof fn lemma_concatenated_runs(runs: Seq<ForestRun>)
    ensures
        concatenated(edges_of(runs)) == crate::reduce::component::run_edges(runs),
    decreases runs.len(),
{
    if runs.len() > 0 {
        lemma_concatenated_runs(runs.drop_last());
        assert(edges_of(runs).drop_last() =~= edges_of(runs.drop_last()));
    }
}

proof fn lemma_concatenated_push(runs: Seq<Seq<Edge>>, edges: Seq<Edge>)
    ensures
        concatenated(runs.push(edges)) == concatenated(runs) + edges,
{
    assert(runs.push(edges).drop_last() =~= runs);
}

/// A forest run connects what its edges connect.
pub proof fn lemma_forest_outcome_connectivity(
    node_count: u32,
    edges: Seq<Edge>,
    budget: EdgeBudget,
)
    requires
        forest::forest_outcome(node_count, edges, budget) is Ok,
    ensures
        graph::same_connectivity(forest::forest_outcome(node_count, edges, budget)->Ok_0, edges),
{
    let canonical = forest::canonical_edges(edges);
    forest::lemma_canonical_exists(edges);
    forest::lemma_canonical_connectivity(edges, canonical);
    forest::lemma_spanning_connectivity(canonical);
    let built = forest::spanning_edges(canonical);
    assert forall|a: int, b: int| #[trigger]
        graph::connected(built, a, b) <==> graph::connected(edges, a, b) by {
        assert(graph::connected(built, a, b) <==> graph::connected(canonical, a, b));
        assert(graph::connected(canonical, a, b) <==> graph::connected(edges, a, b));
    }
}

proof fn lemma_merged_connectivity(rules: CollectorRules, state: CollectorState)
    requires
        rules.merged(state) is Ok,
    ensures
        graph::same_connectivity(rules.merged(state)->Ok_0.contents(), state.contents()),
{
    let all = concatenated(state.runs);
    lemma_forest_outcome_connectivity(rules.node_count, all, rules.merge_budget());
    let next = rules.merged(state)->Ok_0;
    let edges = next.runs[0];
    assert(next.runs =~= Seq::empty().push(edges));
    lemma_concatenated_push(Seq::empty(), edges);
    assert(concatenated(next.runs) =~= edges);
    graph::lemma_concat_connectivity(edges, state.buffer, all, state.buffer);
}

/// Flushing keeps the connectivity of what is held.
pub proof fn lemma_flushed_connectivity(rules: CollectorRules, state: CollectorState)
    requires
        rules.flushed(state) is Ok,
    ensures
        graph::same_connectivity(rules.flushed(state)->Ok_0.contents(), state.contents()),
{
    if state.buffer.len() > 0 {
        let edges = forest::forest_outcome(rules.node_count, state.buffer, rules.run_budget())->Ok_0;
        lemma_forest_outcome_connectivity(rules.node_count, state.buffer, rules.run_budget());
        let grown = CollectorState {
            runs: state.runs.push(edges),
            buffer: Seq::empty(),
            compacted_bytes: saturating_sum(
                state.compacted_bytes,
                forest::edge_bytes_of(edges.len()),
            ),
        };
        lemma_concatenated_push(state.runs, edges);
        assert(grown.contents() =~= concatenated(state.runs) + edges);
        graph::lemma_concat_connectivity(
            concatenated(state.runs),
            edges,
            concatenated(state.runs),
            state.buffer,
        );
        if grown.compacted_bytes > rules.budget.max_total_bytes {
            lemma_merged_connectivity(rules, grown);
            let next = rules.merged(grown)->Ok_0;
            assert forall|a: int, b: int| #[trigger]
                graph::connected(next.contents(), a, b) <==> graph::connected(
                    state.contents(),
                    a,
                    b,
                ) by {
                assert(graph::connected(next.contents(), a, b) <==> graph::connected(
                    grown.contents(),
                    a,
                    b,
                ));
                assert(graph::connected(grown.contents(), a, b) <==> graph::connected(
                    state.contents(),
                    a,
                    b,
                ));
            }
        }
    }
}

/// Pushing an edge adds exactly that edge to the connectivity of what is held, whatever is
/// flushed or merged on the way.
pub proof fn lemma_pushed_connectivity(rules: CollectorRules, state: CollectorState, edge: Edge)
    requires
        rules.pushed(state, edge) is Ok,
    ensures
        graph::same_connectivity(
            rules.pushed(state, edge)->Ok_0.contents(),
            state.contents().push(edge),
        ),
{
    let ready = if forest::edge_bytes_of((state.buffer.len() + 1) as nat)
        > rules.budget.max_buffer_bytes {
        lemma_flushed_connectivity(rules, state);
        rules.flushed(state)->Ok_0
    } else {
        state
    };
    let grown = CollectorState { buffer: ready.buffer.push(edge), ..ready };
    assert(grown.contents() =~= ready.contents() + seq![edge]);
    assert(state.contents().push(edge) =~= state.contents() + seq![edge]);
    graph::lemma_concat_connectivity(ready.contents(), seq![edge], state.contents(), seq![edge]);
    if scratch::degree(grown.buffer, edge.left as int) >= rules.degree_trigger || scratch::degree(
        grown.buffer,
        edge.right as int,
    ) >= rules.degree_trigger {
        lemma_flushed_connectivity(rules, grown);
        let next = rules.flushed(grown)->Ok_0;
        assert forall|a: int, b: int| #[trigger]
            graph::connected(next.contents(), a, b) <==> graph::connected(
                state.contents().push(edge),
                a,
                b,
            ) by {
            assert(graph::connected(next.contents(), a, b) <==> graph::connected(
                grown.contents(),
                a,
                b,
            ));
            assert(graph::connected(grown.contents(), a, b) <==> graph::connected(
                state.contents().push(edge),
                a,
                b,
            ));
        }
    }
}

/// Compacting keeps the connectivity of what is held.
pub proof fn lemma_compacted_connectivity(rules: CollectorRules, state: CollectorState)
    requires
        rules.compacted(state) is Ok,
    ensures
        graph::same_connectivity(rules.compacted(state)->Ok_0.contents(), state.contents()),
        rules.compacted(state)->Ok_0.runs.len() <= 1,
{
    lemma_flushed_connectivity(rules, state);
    let ready = rules.flushed(state)->Ok_0;
    if ready.runs.len() > 1 {
        lemma_merged_connectivity(rules, ready);
        let next = rules.merged(ready)->Ok_0;
        assert forall|a: int, b: int| #[trigger]
            graph::connected(next.contents(), a, b) <==> graph::connected(
                state.contents(),
                a,
                b,
            ) by {
            assert(graph::connected(next.contents(), a, b) <==> graph::connected(
                ready.contents(),
                a,
                b,
            ));
            assert(graph::connected(ready.contents(), a, b) <==> graph::connected(
                state.contents(),
                a,
                b,
            ));
        }
    }
}

/// Room for the first edges of a buffer of this many bytes.
pub fn bounded_initial_edge_capacity(max_buffer_bytes: u64) -> (capacity: usize)
    ensures
        capacity == (if max_buffer_bytes / EDGE_BYTES < 1 {
            1
        } else if max_buffer_bytes / EDGE_BYTES > INITIAL_EDGE_CAP {
            INITIAL_EDGE_CAP as int
        } else {
            (max_buffer_bytes / EDGE_BYTES) as int
        }),
{
    let edges: u64 = max_buffer_bytes / EDGE_BYTES;
    if edges < 1 {
        1
    } else if edges > INITIAL_EDGE_CAP as u64 {
        INITIAL_EDGE_CAP
    } else {
        edges as usize
    }
}

/// Calls `Vec::capacity` of std: the number of elements that fit without reallocating, never
/// below the length. How much room the allocator gave beyond that is left open.
#[verifier::external_body]
pub(crate) fn capacity_of<T>(items: &Vec<T>) -> (capacity: usize)
    ensures
        capacity >= items@.len(),
{
    items.capacity()
}

/// Bytes retained by runs charged at `compacted_bytes` and a buffer with this much room.
pub fn retained_bytes_with(compacted_bytes: u64, buffer_capacity: usize) -> (bytes: u64)
    ensures
        bytes == saturating_sum(compacted_bytes, forest::edge_bytes_of(buffer_capacity as nat)),
{
    compacted_bytes.saturating_add(edge_bytes(buffer_capacity))
}

/// Collects edges into forest runs under a budget.
pub struct EdgeCollector {
    rules: CollectorRules,
    buffer: Vec<Edge>,
    degrees: Vec<u32>,
    run_dsu: Dsu,
    touched: Vec<u32>,
    runs: Vec<ForestRun>,
    compacted_bytes: u64,
}

impl EdgeCollector {
    pub closed spec fn limits(&self) -> CollectorRules {
        self.rules
    }

    pub closed spec fn state(&self) -> CollectorState {
        CollectorState {
            runs: edges_of(self.runs@),
            buffer: self.buffer@,
            compacted_bytes: self.compacted_bytes,
        }
    }

    /// The union-find keeps every node alone between flushes, the degrees are those of the
    /// buffer, and every touched node is listed.
    pub closed spec fn wf(&self) -> bool {
        &&& self.rules.degree_trigger >= 1
        &&& runs_within(self.runs@, self.rules.node_count)
        &&& graph::all_within(self.buffer@, self.rules.node_count as int)
        &&& self.run_dsu.parent@.len() == self.rules.node_count
        &&& dsu::is_discrete(self.run_dsu.parent@)
        &&& scratch::degrees_match(self.degrees@, self.touched@, self.buffer@, self.rules.node_count)
    }

    /// An empty collector. A degree trigger of zero counts as one.
    pub fn new(node_count: u32, budget: EdgeBudget, degree_trigger: u32) -> (collector: EdgeCollector)
        ensures
            collector.wf(),
            collector.limits() == (CollectorRules {
                node_count,
                budget,
                degree_trigger: if degree_trigger == 0 {
                    1
                } else {
                    degree_trigger
                },
            }),
            collector.state() == (CollectorState {
                runs: Seq::empty(),
                buffer: Seq::empty(),
                compacted_bytes: 0,
            }),
    {
        let trigger: u32 = if degree_trigger == 0 {
            1
        } else {
            degree_trigger
        };
        let rules = CollectorRules { node_count, budget, degree_trigger: trigger };
        let buffer: Vec<Edge> = Vec::with_capacity(
            bounded_initial_edge_capacity(budget.max_buffer_bytes),
        );
        let degrees: Vec<u32> = zero_degrees(node_count);
        let collector = EdgeCollector {
            rules,
            buffer,
            degrees,
            run_dsu: Dsu::new(node_count),
            touched: Vec::new(),
            runs: Vec::new(),
            compacted_bytes: 0,
        };
        assert(collector.state().runs =~= Seq::empty());
        collector
    }

    /// Buffers an edge. Flushes before the buffer would exceed its bytes, and after an
    /// endpoint's degree has reached the trigger.
    pub fn push(&mut self, edge: Edge) -> (result: Result<(), ReduceError>)
        requires
            old(self).wf(),
        ensures
            match old(self).limits().pushed(old(self).state(), edge) {
                Ok(state) => {
                    &&& result is Ok
                    &&& final(self).wf()
                    &&& final(self).limits() == old(self).limits()
                    &&& final(self).state() == state
                    &&& graph::same_connectivity(
                        final(self).state().contents(),
                        old(self).state().contents().push(edge),
                    )
                },
                Err(fault) => result matches Err(e) && e@ == fault,
            },
    {
        let ghost start = self.state();
        let ghost rules = self.rules;
        proof {
            if rules.pushed(start, edge) is Ok {
                lemma_pushed_connectivity(rules, start, edge);
            }
        }
        let wide: u128 = (self.buffer.len() as u128 + 1) * EDGE_BYTES as u128;
        let next_bytes: u64 = if wide <= u64::MAX as u128 {
            wide as u64
        } else {
            u64::MAX
        };
        if next_bytes > self.rules.budget.max_buffer_bytes {
            if let Err(error) = self.flush() {
                return Err(error);
            }
        }
        let node_count: u32 = self.rules.node_count;
        if edge.left >= node_count {
            return Err(ReduceError::Endpoint { endpoint: edge.left, node_count });
        }
        if edge.right >= node_count {
            return Err(ReduceError::Endpoint { endpoint: edge.right, node_count });
        }
        let ghost ready = self.state();
        count_edge(&mut self.degrees, &mut self.touched, edge, node_count, Ghost(self.buffer@));
        self.buffer.push(edge);
        assert(self.state().runs =~= ready.runs);
        let left_degree: u32 = self.degrees[edge.left as usize];
        let right_degree: u32 = self.degrees[edge.right as usize];
        if left_degree >= self.rules.degree_trigger || right_degree >= self.rules.degree_trigger {
            return self.flush();
        }
        Ok(())
    }

    /// The runs that connect what was pushed.
    pub fn finish(self) -> (result: Result<Vec<ForestRun>, ReduceError>)
        requires
            self.wf(),
        ensures
            match self.limits().flushed(self.state()) {
                Ok(state) => result matches Ok(runs) && edges_of(runs@) == state.runs
                    && runs_within(runs@, self.limits().node_count) && graph::same_connectivity(
                    concatenated(edges_of(runs@)),
                    self.state().contents(),
                ),
                Err(fault) => result matches Err(e) && e@ == fault,
            },
    {
        let mut collector = self;
        proof {
            if self.limits().flushed(self.state()) is Ok {
                lemma_flushed_connectivity(self.limits(), self.state());
            }
        }
        if let Err(error) = collector.flush() {
            return Err(error);
        }
        proof {
            assert(collector.state().contents() =~= concatenated(edges_of(collector.runs@)));
        }
        Ok(collector.runs)
    }

    /// Bytes charged for runs and for the room of the buffer. The room depends on the
    /// allocator and is at least the buffered edges.
    pub fn retained_bytes(&self) -> (bytes: u64)
        ensures
            exists|capacity: usize|
                capacity >= self.state().buffer.len() && bytes == #[trigger] saturating_sum(
                    self.state().compacted_bytes,
                    forest::edge_bytes_of(capacity as nat),
                ),
    {
        let capacity: usize = capacity_of(&self.buffer);
        let bytes: u64 = retained_bytes_with(self.compacted_bytes, capacity);
        assert(bytes == saturating_sum(
            self.state().compacted_bytes,
            forest::edge_bytes_of(capacity as nat),
        ));
        bytes
    }

    /// Takes the finished runs out; the buffer stays.
    pub fn drain_compacted_runs(&mut self) -> (runs: Vec<ForestRun>)
        requires
            old(self).wf() || old(self).wf_shared(),
        ensures
            old(self).wf() ==> final(self).wf(),
            old(self).wf_shared() ==> final(self).wf_shared(),
            final(self).limits() == old(self).limits(),
            edges_of(runs@) == old(self).state().runs,
            runs_within(runs@, old(self).limits().node_count),
            final(self).state() == (CollectorState {
                runs: Seq::empty(),
                buffer: old(self).state().buffer,
                compacted_bytes: 0,
            }),
    {
        self.compacted_bytes = 0;
        let mut runs: Vec<ForestRun> = Vec::new();
        std::mem::swap(&mut runs, &mut self.runs);
        assert(self.state().runs =~= Seq::empty());
        runs
    }

    /// Flushes the buffer and merges all runs into at most one.
    pub fn compact_retained(&mut self) -> (result: Result<(), ReduceError>)
        requires
            old(self).wf(),
        ensures
            match old(self).limits().compacted(old(self).state()) {
                Ok(state) => {
                    &&& result is Ok
                    &&& final(self).wf()
                    &&& final(self).limits() == old(self).limits()
                    &&& final(self).state() == state
                    &&& graph::same_connectivity(
                        final(self).state().contents(),
                        old(self).state().contents(),
                    )
                },
                Err(fault) => result matches Err(e) && e@ == fault,
            },
    {
        proof {
            if self.limits().compacted(self.state()) is Ok {
                lemma_compacted_connectivity(self.limits(), self.state());
            }
        }
        if let Err(error) = self.flush() {
            return Err(error);
        }
        if self.runs.len() > 1 {
            return self.merge_runs();
        }
        Ok(())
    }

    fn flush(&mut self) -> (result: Result<(), ReduceError>)
        requires
            old(self).wf(),
        ensures
            match old(self).limits().flushed(old(self).state()) {
                Ok(state) => result is Ok && final(self).wf() && final(self).limits() == old(self).limits() && final(self).state() == state,
                Err(fault) => result matches Err(e) && e@ == fault,
            },
    {
        if self.buffer.len() == 0 {
            return Ok(());
        }
        let ghost start = self.state();
        let mut edges: Vec<Edge> = Vec::with_capacity(
            bounded_initial_edge_capacity(self.rules.budget.max_buffer_bytes),
        );
        std::mem::swap(&mut edges, &mut self.buffer);
        let ghost buffered = edges@;
        let budget = EdgeBudget {
            max_buffer_bytes: self.rules.budget.max_buffer_bytes,
            max_run_edges: self.rules.budget.max_run_edges,
            max_total_bytes: u64::MAX,
        };
        let run = match ForestRun::from_edges_with_dsu(
            self.rules.node_count,
            edges,
            budget,
            true,
            &mut self.run_dsu,
        ) {
            Ok(run) => run,
            Err(error) => {
                return Err(error);
            },
        };
        let bytes: u64 = edge_bytes(run.edges.len());
        self.compacted_bytes = self.compacted_bytes.saturating_add(bytes);
        let ghost edges_before = edges_of(self.runs@);
        let ghost forest_edges = run.edges@;
        self.runs.push(run);
        assert(edges_of(self.runs@) =~= edges_before.push(forest_edges));
        proof {
            assert forall|node: int|
                0 <= node < self.rules.node_count && #[trigger] self.run_dsu.parent@[node]
                    != node implies self.touched@.contains(node as u32) by {
                scratch::lemma_degree_bounds(buffered, node);
                assert(self.degrees@[node] > 0);
            }
        }
        clear_listed(
            &mut self.degrees,
            &mut self.touched,
            &mut self.run_dsu,
            self.rules.node_count,
        );
        if self.compacted_bytes > self.rules.budget.max_total_bytes {
            return self.merge_runs();
        }
        Ok(())
    }

    fn merge_runs(&mut self) -> (result: Result<(), ReduceError>)
        requires
            old(self).wf(),
        ensures
            match old(self).limits().merged(old(self).state()) {
                Ok(state) => result is Ok && final(self).wf() && final(self).limits() == old(self).limits() && final(self).state() == state,
                Err(fault) => result matches Err(e) && e@ == fault,
            },
    {
        let mut all: Vec<Edge> = Vec::new();
        let mut r: usize = 0;
        while r < self.runs.len()
            invariant
                r <= self.runs@.len(),
                *self == *old(self),
                all@ == concatenated(edges_of(self.runs@).take(r as int)),
            decreases self.runs.len() - r,
        {
            let mut edges: Vec<Edge> = copy_edges(&self.runs[r].edges);
            all.append(&mut edges);
            proof {
                let taken = edges_of(self.runs@).take(r + 1);
                assert(taken.drop_last() =~= edges_of(self.runs@).take(r as int));
            }
            r = r + 1;
        }
        assert(edges_of(self.runs@).take(r as int) =~= edges_of(self.runs@));
        let budget = EdgeBudget {
            max_buffer_bytes: u64::MAX,
            max_run_edges: u64::MAX,
            max_total_bytes: self.rules.budget.max_total_bytes,
        };
        match ForestRun::from_edges_with_sort(self.rules.node_count, all, budget, true) {
            Ok(merged) => {
                self.compacted_bytes = edge_bytes(merged.edges.len());
                let mut runs: Vec<ForestRun> = Vec::new();
                let ghost edges = merged.edges@;
                runs.push(merged);
                self.runs = runs;
                assert(edges_of(self.runs@) =~= seq![edges]);
                Ok(())
            },
            Err(error) => Err(error),
        }
    }
}

impl EdgeCollector {
    /// Runs and buffer stay within the nodes.
    pub closed spec fn wf_shared(&self) -> bool {
        &&& self.rules.degree_trigger >= 1
        &&& runs_within(self.runs@, self.rules.node_count)
        &&& graph::all_within(self.buffer@, self.rules.node_count as int)
    }

    /// Slots that the collector keeps per node: degrees and union-find.
    pub closed spec fn node_slots(&self) -> (nat, nat) {
        (self.degrees@.len(), self.run_dsu.parent@.len())
    }

    /// Slots that the collector keeps per node: degrees and union-find.
    pub fn owned_node_slots(&self) -> (slots: (usize, usize))
        ensures
            slots.0 == self.node_slots().0,
            slots.1 == self.node_slots().1,
    {
        (self.degrees.len(), self.run_dsu.parent.len())
    }

    /// An empty collector that works in shared scratch and keeps nothing per node. A degree
    /// trigger of zero counts as one.
    pub fn new_serial_shared(node_count: u32, budget: EdgeBudget, degree_trigger: u32) -> (result:
        Result<EdgeCollector, ReduceError>)
        ensures
            budget.max_buffer_bytes / EDGE_BYTES > usize::MAX ==> (result matches Err(e) && e@
                == ReduceFault::WorkOverflow),
            budget.max_buffer_bytes / EDGE_BYTES <= usize::MAX ==> (result matches Ok(collector)
                && collector.wf_shared() && collector.limits() == (CollectorRules {
                node_count,
                budget,
                degree_trigger: if degree_trigger == 0 {
                    1
                } else {
                    degree_trigger
                },
            }) && collector.state() == (CollectorState {
                runs: Seq::empty(),
                buffer: Seq::empty(),
                compacted_bytes: 0,
            }) && collector.node_slots() == (0nat, 0nat)),
    {
        if budget.max_buffer_bytes / EDGE_BYTES > usize::MAX as u64 {
            return Err(ReduceError::WorkOverflow);
        }
        let trigger: u32 = if degree_trigger == 0 {
            1
        } else {
            degree_trigger
        };
        let collector = EdgeCollector {
            rules: CollectorRules { node_count, budget, degree_trigger: trigger },
            buffer: Vec::with_capacity(bounded_initial_edge_capacity(budget.max_buffer_bytes)),
            degrees: Vec::new(),
            run_dsu: Dsu { parent: Vec::new() },
            touched: Vec::new(),
            runs: Vec::new(),
            compacted_bytes: 0,
        };
        assert(collector.state().runs =~= Seq::empty());
        Ok(collector)
    }

    /// Pushes a batch of edges, working in `scratch`, and leaves the scratch clean.
    pub fn push_batch_shared(&mut self, edges: Vec<Edge>, scratch: &mut EdgeCollectorScratch) -> (result:
        Result<(), ReduceError>)
        requires
            old(self).wf_shared(),
            old(scratch).wf(),
            old(scratch).counts(Seq::empty()),
            old(scratch).nodes() == old(self).limits().node_count,
        ensures
            final(scratch).wf(),
            final(scratch).counts(Seq::empty()),
            final(scratch).kind() == old(scratch).kind(),
            final(scratch).nodes() == old(scratch).nodes(),
            match old(self).limits().pushed_batch(
                old(self).state(),
                edges@,
                old(scratch).kind() == EdgeCollectorScratchKind::Dense,
                edges@.len() as int,
            ) {
                Ok(state) => {
                    &&& result is Ok
                    &&& final(self).wf_shared()
                    &&& final(self).limits() == old(self).limits()
                    &&& final(self).state() == state
                    &&& graph::same_connectivity(
                        final(self).state().contents(),
                        old(self).state().contents() + edges@,
                    )
                },
                Err(fault) => result matches Err(e) && e@ == fault,
            },
    {
        let ghost rules = self.rules;
        let ghost start = self.state();
        let ghost counted = scratch.kind() == EdgeCollectorScratchKind::Dense;
        proof {
            if rules.pushed_batch(start, edges@, counted, edges@.len() as int) is Ok {
                lemma_pushed_batch_connectivity(
                    rules,
                    start,
                    edges@,
                    counted,
                    edges@.len() as int,
                );
                assert(edges@.take(edges@.len() as int) =~= edges@);
            }
        }
        scratch.prepare_buffer_degrees(&self.buffer);
        let mut i: usize = 0;
        while i < edges.len()
            invariant
                i <= edges@.len(),
                self.wf_shared(),
                self.rules == rules,
                counted == (scratch.kind() == EdgeCollectorScratchKind::Dense),
                scratch.wf(),
                scratch.counts(self.buffer@),
                scratch.nodes() == rules.node_count,
                scratch.kind() == old(scratch).kind(),
                scratch.nodes() == old(scratch).nodes(),
                rules == old(self).limits(),
                start == old(self).state(),
                rules.pushed_batch(start, edges@, counted, i as int) == Ok::<
                    CollectorState,
                    ReduceFault,
                >(self.state()),
            decreases edges.len() - i,
        {
            proof {
                lemma_batch_fault_stays(
                    rules,
                    start,
                    edges@,
                    counted,
                    i + 1,
                    edges@.len() as int,
                );
            }
            if let Err(error) = self.push_shared(edges[i], scratch) {
                scratch.reset();
                return Err(error);
            }
            i = i + 1;
        }
        scratch.reset();
        Ok(())
    }

    fn push_shared(&mut self, edge: Edge, scratch: &mut EdgeCollectorScratch) -> (result: Result<
        (),
        ReduceError,
    >)
        requires
            old(self).wf_shared(),
            old(scratch).wf(),
            old(scratch).counts(old(self).state().buffer),
            old(scratch).nodes() == old(self).limits().node_count,
        ensures
            final(scratch).wf(),
            final(scratch).kind() == old(scratch).kind(),
            final(scratch).nodes() == old(scratch).nodes(),
            match old(self).limits().pushed_shared(
                old(self).state(),
                edge,
                old(scratch).kind() == EdgeCollectorScratchKind::Dense,
            ) {
                Ok(state) => result is Ok && final(self).wf_shared() && final(self).limits() == old(self).limits() && final(self).state() == state && final(scratch).counts(state.buffer),
                Err(fault) => result matches Err(e) && e@ == fault,
            },
    {
        let node_count: u32 = self.rules.node_count;
        if edge.left >= node_count {
            return Err(ReduceError::Endpoint { endpoint: edge.left, node_count });
        }
        if edge.right >= node_count {
            return Err(ReduceError::Endpoint { endpoint: edge.right, node_count });
        }
        let wide: u128 = (self.buffer.len() as u128 + 1) * EDGE_BYTES as u128;
        let next_bytes: u64 = if wide <= u64::MAX as u128 {
            wide as u64
        } else {
            u64::MAX
        };
        if next_bytes > self.rules.budget.max_buffer_bytes {
            if let Err(error) = self.flush_shared(scratch) {
                return Err(error);
            }
        }
        let ghost ready = self.state();
        let greatest: u32 = scratch.increment_degrees(edge, Ghost(self.buffer@));
        self.buffer.push(edge);
        assert(self.state().runs =~= ready.runs);
        assert(scratch::greatest_reaches(greatest, self.rules.degree_trigger) <==> greatest
            >= self.rules.degree_trigger);
        if greatest >= self.rules.degree_trigger {
            return self.flush_shared(scratch);
        }
        Ok(())
    }

    /// Flushes the buffer and takes out the runs that connect what was pushed.
    pub fn take_finished_shared(&mut self, scratch: &mut EdgeCollectorScratch) -> (result: Result<
        Vec<ForestRun>,
        ReduceError,
    >)
        requires
            old(self).wf_shared(),
            old(scratch).wf(),
            old(scratch).counts(Seq::empty()),
            old(scratch).nodes() == old(self).limits().node_count,
        ensures
            final(scratch).wf(),
            final(scratch).kind() == old(scratch).kind(),
            final(scratch).nodes() == old(scratch).nodes(),
            match old(self).limits().flushed_shared(old(self).state()) {
                Ok(state) => final(scratch).counts(Seq::empty()) && (result matches Ok(runs)
                    && edges_of(runs@) == state.runs && runs_within(
                    runs@,
                    old(self).limits().node_count,
                ) && graph::same_connectivity(
                    concatenated(edges_of(runs@)),
                    old(self).state().contents(),
                )),
                Err(fault) => result matches Err(e) && e@ == fault,
            },
    {
        proof {
            if self.limits().flushed_shared(self.state()) is Ok {
                lemma_flushed_shared_connectivity(self.limits(), self.state());
            }
        }
        scratch.prepare_buffer_degrees(&self.buffer);
        if let Err(error) = self.flush_shared(scratch) {
            return Err(error);
        }
        let mut runs: Vec<ForestRun> = Vec::new();
        std::mem::swap(&mut runs, &mut self.runs);
        proof {
            assert(self.buffer@ =~= Seq::empty());
            let flushed = old(self).limits().flushed_shared(old(self).state())->Ok_0;
            assert(flushed.contents() =~= concatenated(edges_of(runs@)));
        }
        Ok(runs)
    }

    /// The runs that connect what was pushed.
    pub fn finish_shared(self, scratch: &mut EdgeCollectorScratch) -> (result: Result<
        Vec<ForestRun>,
        ReduceError,
    >)
        requires
            self.wf_shared(),
            old(scratch).wf(),
            old(scratch).counts(Seq::empty()),
            old(scratch).nodes() == self.limits().node_count,
        ensures
            final(scratch).wf(),
            final(scratch).kind() == old(scratch).kind(),
            final(scratch).nodes() == old(scratch).nodes(),
            match self.limits().flushed_shared(self.state()) {
                Ok(state) => final(scratch).counts(Seq::empty()) && (result matches Ok(runs)
                    && edges_of(runs@) == state.runs && runs_within(
                    runs@,
                    self.limits().node_count,
                ) && graph::same_connectivity(
                    concatenated(edges_of(runs@)),
                    self.state().contents(),
                )),
                Err(fault) => result matches Err(e) && e@ == fault,
            },
    {
        let mut collector = self;
        collector.take_finished_shared(scratch)
    }

    /// Flushes the buffer and merges all runs into at most one.
    pub fn compact_retained_shared(&mut self, scratch: &mut EdgeCollectorScratch) -> (result: Result<
        (),
        ReduceError,
    >)
        requires
            old(self).wf_shared(),
            old(scratch).wf(),
            old(scratch).counts(Seq::empty()),
            old(scratch).nodes() == old(self).limits().node_count,
        ensures
            final(scratch).wf(),
            final(scratch).kind() == old(scratch).kind(),
            final(scratch).nodes() == old(scratch).nodes(),
            match old(self).limits().compacted_shared(old(self).state()) {
                Ok(state) => {
                    &&& result is Ok
                    &&& final(self).wf_shared()
                    &&& final(self).limits() == old(self).limits()
                    &&& final(self).state() == state
                    &&& final(scratch).counts(Seq::empty())
                },
                Err(fault) => result matches Err(e) && e@ == fault,
            },
    {
        scratch.prepare_buffer_degrees(&self.buffer);
        if let Err(error) = self.flush_shared(scratch) {
            return Err(error);
        }
        assert(self.buffer@ =~= Seq::empty());
        if self.runs.len() > 1 {
            return self.merge_runs_shared(scratch);
        }
        Ok(())
    }

    fn flush_shared(&mut self, scratch: &mut EdgeCollectorScratch) -> (result: Result<
        (),
        ReduceError,
    >)
        requires
            old(self).wf_shared(),
            old(scratch).wf(),
            old(scratch).counts(old(self).state().buffer),
            old(scratch).nodes() == old(self).limits().node_count,
        ensures
            final(scratch).wf(),
            final(scratch).kind() == old(scratch).kind(),
            final(scratch).nodes() == old(scratch).nodes(),
            match old(self).limits().flushed_shared(old(self).state()) {
                Ok(state) => result is Ok && final(self).wf_shared() && final(self).limits() == old(self).limits() && final(self).state() == state && final(scratch).counts(state.buffer),
                Err(fault) => result matches Err(e) && e@ == fault,
            },
    {
        if self.buffer.len() == 0 {
            return Ok(());
        }
        let mut edges: Vec<Edge> = Vec::with_capacity(
            bounded_initial_edge_capacity(self.rules.budget.max_buffer_bytes),
        );
        std::mem::swap(&mut edges, &mut self.buffer);
        let budget = EdgeBudget {
            max_buffer_bytes: self.rules.budget.max_buffer_bytes,
            max_run_edges: self.rules.budget.max_run_edges,
            max_total_bytes: u64::MAX,
        };
        let run = match forest_with_scratch(self.rules.node_count, &edges, budget, scratch) {
            Ok(run) => run,
            Err(error) => {
                return Err(error);
            },
        };
        let bytes: u64 = edge_bytes(run.edges.len());
        self.compacted_bytes = self.compacted_bytes.saturating_add(bytes);
        let ghost edges_before = edges_of(self.runs@);
        let ghost forest_edges = run.edges@;
        self.runs.push(run);
        assert(edges_of(self.runs@) =~= edges_before.push(forest_edges));
        if self.compacted_bytes > self.rules.budget.max_total_bytes {
            return self.merge_runs_shared(scratch);
        }
        Ok(())
    }

    fn merge_runs_shared(&mut self, scratch: &mut EdgeCollectorScratch) -> (result: Result<
        (),
        ReduceError,
    >)
        requires
            old(self).wf_shared(),
            old(scratch).wf(),
            old(scratch).counts(Seq::empty()),
            old(self).state().buffer.len() == 0,
            old(scratch).nodes() == old(self).limits().node_count,
        ensures
            final(scratch).wf(),
            final(scratch).counts(Seq::empty()),
            final(scratch).kind() == old(scratch).kind(),
            final(scratch).nodes() == old(scratch).nodes(),
            match old(self).limits().merged_shared(old(self).state()) {
                Ok(state) => result is Ok && final(self).wf_shared() && final(self).limits() == old(self).limits() && final(self).state() == state,
                Err(fault) => result matches Err(e) && e@ == fault,
            },
    {
        if self.runs.len() <= 1 {
            return Ok(());
        }
        let ghost before = edges_of(self.runs@);
        let all: Vec<Edge> = concatenate_largest_first(&self.runs);
        proof {
            lemma_largest_first_within(self.runs@, self.rules.node_count);
        }
        let kept: Vec<Edge> = scratch.spanning_forest(&all);
        let (_, merged) = canonicalize(&kept, false);
        if let Err(error) = check(
            "total_bytes",
            edge_bytes(merged.len()),
            self.rules.budget.max_total_bytes,
        ) {
            return Err(error);
        }
        proof {
            assert forall|i: int| 0 <= i < merged@.len() implies (#[trigger] merged@[i]).within(
                self.rules.node_count as int,
            ) by {
                assert(merged@.contains(merged@[i]));
                assert(kept@.contains(merged@[i]));
                forest::lemma_spanning_members(all@, merged@[i]);
                let k = all@.index_of(merged@[i]);
                assert(all@[k].within(self.rules.node_count as int));
            }
        }
        self.compacted_bytes = edge_bytes(merged.len());
        let ghost edges = merged@;
        let mut runs: Vec<ForestRun> = Vec::new();
        runs.push(
            ForestRun {
                node_count: self.rules.node_count,
                edges: compact_edge_capacity(merged),
            },
        );
        self.runs = runs;
        assert(edges_of(self.runs@) =~= seq![edges]);
        Ok(())
    }
}

proof fn lemma_largest_first_within(runs: Seq<ForestRun>, node_count: u32)
    requires
        runs.len() >= 1,
        runs_within(runs, node_count),
    ensures
        graph::all_within(concatenated(largest_first(edges_of(runs))), node_count as int),
{
    let plain = edges_of(runs);
    let ordered = largest_first(plain);
    lemma_largest_first_connectivity(plain);
    let all = concatenated(ordered);
    assert forall|i: int| 0 <= i < all.len() implies (#[trigger] all[i]).within(
        node_count as int,
    ) by {
        assert(all.contains(all[i]));
        lemma_concatenated_members(ordered, all[i]);
        let r = choose|r: int| 0 <= r < ordered.len() && (#[trigger] ordered[r]).contains(all[i]);
        let k = choose|k: int| 0 <= k < plain.len() && ordered[r] == plain[k];
        let at = plain[k].index_of(all[i]);
        assert(runs[k].wf());
        assert(runs[k].edges@[at].within(node_count as int));
    }
}

/// The edges of all runs, the longest run first.
fn concatenate_largest_first(runs: &Vec<ForestRun>) -> (all: Vec<Edge>)
    requires
        runs@.len() >= 1,
    ensures
        all@ == concatenated(largest_first(edges_of(runs@))),
{
    let ghost plain = edges_of(runs@);
    let mut longest: usize = 0;
    let mut i: usize = 1;
    while i < runs.len()
        invariant
            plain == edges_of(runs@),
            1 <= i <= runs@.len(),
            longest < i,
            longest == longest_run(plain, i as int),
        decreases runs.len() - i,
    {
        if runs[i].edges.len() >= runs[longest].edges.len() {
            longest = i;
        }
        i = i + 1;
    }
    let last: usize = runs.len() - 1;
    let ghost ordered = largest_first(plain);
    let mut all: Vec<Edge> = copy_edges(&runs[longest].edges);
    proof {
        assert(ordered.take(1) =~= Seq::empty().push(plain[longest as int]));
        lemma_concatenated_push(Seq::empty(), plain[longest as int]);
        assert(all@ =~= concatenated(ordered.take(1)));
    }
    let mut r: usize = 0;
    while r < last
        invariant
            plain == edges_of(runs@),
            ordered == largest_first(plain),
            longest == longest_run(plain, plain.len() as int),
            longest < runs@.len(),
            last == runs@.len() - 1,
            r <= last,
            all@ == concatenated(ordered.take(r + 1)),
        decreases last - r,
    {
        let from: usize = if r == longest {
            last
        } else {
            r
        };
        let mut edges: Vec<Edge> = copy_edges(&runs[from].edges);
        all.append(&mut edges);
        proof {
            assert(ordered[r + 1] == plain[from as int]);
            assert(ordered.take(r + 2) =~= ordered.take(r + 1).push(plain[from as int]));
            lemma_concatenated_push(ordered.take(r + 1), plain[from as int]);
        }
        r = r + 1;
    }
    assert(ordered.take(r + 1) =~= ordered);
    all
}

/// The edges, without room for more.
fn compact_edge_capacity(edges: Vec<Edge>) -> (compact: Vec<Edge>)
    ensures
        compact@ == edges@,
{
    let mut compact: Vec<Edge> = Vec::with_capacity(edges.len());
    let mut i: usize = 0;
    while i < edges.len()
        invariant
            i <= edges@.len(),
            compact@ == edges@.take(i as int),
        decreases edges.len() - i,
    {
        compact.push(edges[i]);
        assert(edges@.take(i + 1) =~= edges@.take(i as int).push(edges@[i as int]));
        i = i + 1;
    }
    assert(edges@.take(i as int) =~= edges@);
    compact
}

/// A forest run built in shared scratch.
fn forest_with_scratch(
    node_count: u32,
    edges: &Vec<Edge>,
    budget: EdgeBudget,
    scratch: &mut EdgeCollectorScratch,
) -> (result: Result<ForestRun, ReduceError>)
    requires
        old(scratch).wf(),
        old(scratch).nodes() == node_count,
    ensures
        final(scratch).wf(),
        final(scratch).kind() == old(scratch).kind(),
        final(scratch).nodes() == old(scratch).nodes(),
        result is Ok ==> final(scratch).counts(Seq::empty()),
        forest::is_forest_result(
            result,
            node_count,
            forest::forest_outcome(node_count, edges@, budget),
        ),
        result matches Ok(run) ==> run.wf(),
{
    let (proper, ordered) = canonicalize(edges, false);
    if let Err(error) = check("buffer_bytes", edge_bytes(proper), budget.max_buffer_bytes) {
        return Err(error);
    }
    if let Some(endpoint) = find_outside(&ordered, node_count) {
        return Err(ReduceError::Endpoint { endpoint, node_count });
    }
    let kept: Vec<Edge> = scratch.spanning_forest(&ordered);
    if let Err(error) = check("run_edges", kept.len() as u64, budget.max_run_edges) {
        return Err(error);
    }
    if let Err(error) = check("total_bytes", edge_bytes(kept.len()), budget.max_total_bytes) {
        return Err(error);
    }
    proof {
        assert forall|k: int| 0 <= k < kept@.len() implies (#[trigger] kept@[k]).within(
            node_count as int,
        ) by {
            assert(forest::spanning_edges(ordered@).contains(kept@[k]));
            forest::lemma_spanning_members(ordered@, kept@[k]);
            let at = ordered@.index_of(kept@[k]);
            assert(ordered@[at].within(node_count as int));
        }
    }
    Ok(ForestRun { node_count, edges: compact_edge_capacity(kept) })
}

} // verus!
