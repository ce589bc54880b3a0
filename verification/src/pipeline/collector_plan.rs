//! How many edge collectors run, and the memory that they are given.

use crate::pipeline::error;
use crate::pipeline::error::{overflow_error, PipelineError};
use crate::reduce::forest::EDGE_BYTES;
use crate::reduce::scratch::EdgeCollectorScratchKind;
use crate::resource::MemoryBroker;
use vstd::arithmetic::div_mod::lemma_div_is_ordered;
use vstd::prelude::*;

verus! {

/// Most edges of a collector's buffer.
pub const MAX_EPOCH_EDGES: u64 = 10_000_000;

/// The memory of the edge collectors.
#[derive(Debug, Clone, Copy, PartialEq, Eq, Structural)]
pub struct ScopeCollectorMemoryPlan {
    pub scratch_kind: EdgeCollectorScratchKind,
    pub active_sink_workers: usize,
    pub scorer_lanes: usize,
    pub max_buffer_bytes: u64,
    pub primary_scratch_touched_nodes: u64,
    pub worker_scratch_touched_nodes: u64,
    pub scratch_bytes: u64,
    pub edge_bytes: u64,
    pub buffer_pool_bytes: u64,
    pub retained_runtime_bytes: u64,
    pub merge_growth_bytes: u64,
    pub reserved_bytes: u64,
}

/// The lesser of two numbers.
pub open spec fn least(a: int, b: int) -> int {
    if a < b {
        a
    } else {
        b
    }
}

/// The greater of two numbers.
pub open spec fn most(a: int, b: int) -> int {
    if a < b {
        b
    } else {
        a
    }
}

/// Collectors of each scope: two where at least four threads run.
pub open spec fn shards(threads: int) -> int {
    if threads >= 4 {
        2
    } else {
        1
    }
}

/// The scopes: within chains, across chains, and one for each pair of chains.
pub open spec fn scopes(chain_pair_count: int) -> int {
    least(chain_pair_count + 2, usize::MAX as int)
}

/// The collectors of all scopes.
pub open spec fn collectors(chain_pair_count: int, threads: int) -> int {
    least(scopes(chain_pair_count) * shards(threads), usize::MAX as int)
}

/// The threads that collect: a quarter, but two at least, and one fewer than all at most; no
/// more than there are collectors.
pub open spec fn sink_workers(chain_pair_count: int, threads: int) -> int {
    if threads <= 1 {
        0
    } else {
        least(collectors(chain_pair_count, threads), least(most(threads / 4, 2), threads - 1))
    }
}

/// The collectors, the threads that collect, and the collectors of each scope.
pub fn scope_collector_topology(chain_pair_count: usize, threads: usize) -> (topology: (
    usize,
    usize,
    usize,
))
    ensures
        topology.0 == collectors(chain_pair_count as int, threads as int),
        topology.1 == sink_workers(chain_pair_count as int, threads as int),
        topology.2 == shards(threads as int),
{
    let scope_count: usize = match chain_pair_count.checked_add(2) {
        Some(count) => count,
        None => usize::MAX,
    };
    let shards_per_scope: usize = if threads >= 4 {
        2
    } else {
        1
    };
    let collector_count: usize = match scope_count.checked_mul(shards_per_scope) {
        Some(count) => count,
        None => usize::MAX,
    };
    let active: usize = if threads <= 1 {
        0
    } else {
        let quarter: usize = if threads / 4 < 2 {
            2
        } else {
            threads / 4
        };
        let cap: usize = if quarter < threads - 1 {
            quarter
        } else {
            threads - 1
        };
        if collector_count < cap {
            collector_count
        } else {
            cap
        }
    };
    (collector_count, active, shards_per_scope)
}

/// The bytes of a collector's buffer: its share of the edge bytes, one edge at least.
pub open spec fn buffer_bytes(edge_bytes: int, collector_count: int) -> int {
    let count = most(collector_count, 1);
    let epoch_edges = least(
        most((edge_bytes / EDGE_BYTES as int) / count, 1),
        MAX_EPOCH_EDGES as int,
    );
    least(most(edge_bytes / count, EDGE_BYTES as int), epoch_edges * EDGE_BYTES)
}

/// The bytes of a collector's buffer.
pub fn scope_collector_buffer_bytes(edge_bytes: u64, collector_count: usize) -> (bytes: u64)
    ensures
        bytes == buffer_bytes(edge_bytes as int, collector_count as int),
{
    let count: u64 = if collector_count < 1 {
        1
    } else {
        collector_count as u64
    };
    let share: u64 = (edge_bytes / EDGE_BYTES) / count;
    let lower: u64 = if share < 1 {
        1
    } else {
        share
    };
    let epoch_edges: u64 = if lower < MAX_EPOCH_EDGES {
        lower
    } else {
        MAX_EPOCH_EDGES
    };
    let part: u64 = if edge_bytes / count < EDGE_BYTES {
        EDGE_BYTES
    } else {
        edge_bytes / count
    };
    let cap: u64 = epoch_edges * EDGE_BYTES;
    if part < cap {
        part
    } else {
        cap
    }
}

/// The nodes that edges of these bytes can touch.
pub open spec fn touched_nodes(node_count: int, edge_bytes: int) -> int {
    least(node_count, (edge_bytes / EDGE_BYTES as int) * 2)
}

/// The nodes that edges of these bytes can touch.
pub fn touched_nodes_for_edge_bytes(node_count: u32, edge_bytes: u64) -> (nodes: u64)
    ensures
        nodes == touched_nodes(node_count as int, edge_bytes as int),
{
    let touched: u64 = (edge_bytes / EDGE_BYTES) * 2;
    if (node_count as u64) < touched {
        node_count as u64
    } else {
        touched
    }
}

/// The nodes that all scratches can touch, the first more than the others.
pub open spec fn all_touched_nodes(workers: int, primary: int, worker: int) -> int {
    primary + worker * (most(workers, 1) - 1)
}

/// The bytes of all scratches.
pub open spec fn scratch_bytes(
    kind: EdgeCollectorScratchKind,
    node_count: int,
    workers: int,
    primary: int,
    worker: int,
) -> int {
    let touched = all_touched_nodes(workers, primary, worker) * 8;
    match kind {
        EdgeCollectorScratchKind::Dense => node_count * 8 * most(workers, 1) + touched / 2,
        EdgeCollectorScratchKind::Sparse => touched,
    }
}

/// No intermediate byte count of the scratches overflows.
pub open spec fn scratch_fits(
    kind: EdgeCollectorScratchKind,
    node_count: int,
    workers: int,
    primary: int,
    worker: int,
) -> bool {
    &&& all_touched_nodes(workers, primary, worker) * 8 <= u64::MAX
    &&& scratch_bytes(kind, node_count, workers, primary, worker) <= u64::MAX
}

/// The bytes of all scratches.
pub fn scope_collector_scratch_bytes(
    kind: EdgeCollectorScratchKind,
    node_count: u32,
    scratch_workers: usize,
    primary_touched_nodes: u64,
    worker_touched_nodes: u64,
) -> (result: Result<u64, PipelineError>)
    ensures
        ({
            let workers = scratch_workers as int;
            let primary = primary_touched_nodes as int;
            let worker = worker_touched_nodes as int;
            if scratch_fits(kind, node_count as int, workers, primary, worker) {
                result matches Ok(bytes) && bytes == scratch_bytes(
                    kind,
                    node_count as int,
                    workers,
                    primary,
                    worker,
                )
            } else {
                result matches Err(e) && e@ == error::overflow_fault()
            }
        }),
{
    let workers: u64 = if scratch_workers < 1 {
        1
    } else {
        scratch_workers as u64
    };
    let ghost primary = primary_touched_nodes as int;
    let ghost worker = worker_touched_nodes as int;
    proof {
        assert(worker * (workers - 1) >= 0) by (nonlinear_arith)
            requires
                worker >= 0,
                workers >= 1,
        ;
        assert(node_count * 8 * workers >= 0) by (nonlinear_arith)
            requires
                node_count >= 0,
                workers >= 1,
        ;
    }
    let others: u64 = match worker_touched_nodes.checked_mul(workers - 1) {
        None => {
            return Err(overflow_error());
        },
        Some(nodes) => nodes,
    };
    let touched: u64 = match primary_touched_nodes.checked_add(others) {
        None => {
            return Err(overflow_error());
        },
        Some(nodes) => nodes,
    };
    let touched_bytes: u64 = match touched.checked_mul(8) {
        None => {
            return Err(overflow_error());
        },
        Some(bytes) => bytes,
    };
    match kind {
        EdgeCollectorScratchKind::Sparse => Ok(touched_bytes),
        EdgeCollectorScratchKind::Dense => {
            let slots: u64 = node_count as u64 * 8;
            match slots.checked_mul(workers) {
                None => Err(overflow_error()),
                Some(bytes) => match bytes.checked_add(touched_bytes / 2) {
                    None => Err(overflow_error()),
                    Some(total) => Ok(total),
                },
            }
        },
    }
}

/// What a plan is made for.
pub ghost struct PlanInputs {
    pub node_count: int,
    pub chain_pair_count: int,
    pub threads: int,
}

impl PlanInputs {
    pub open spec fn collectors(self) -> int {
        collectors(self.chain_pair_count, self.threads)
    }

    pub open spec fn sink_workers(self) -> int {
        sink_workers(self.chain_pair_count, self.threads)
    }

    pub open spec fn primary(self, edge_bytes: int) -> int {
        touched_nodes(self.node_count, edge_bytes)
    }

    pub open spec fn worker(self, edge_bytes: int) -> int {
        touched_nodes(self.node_count, buffer_bytes(edge_bytes, self.collectors()))
    }

    pub open spec fn scratch(
        self,
        kind: EdgeCollectorScratchKind,
        sinks: int,
        edge_bytes: int,
    ) -> int {
        scratch_bytes(
            kind,
            self.node_count,
            most(sinks, 1),
            self.primary(edge_bytes),
            self.worker(edge_bytes),
        )
    }

    pub open spec fn pool(self, edge_bytes: int) -> int {
        buffer_bytes(edge_bytes, self.collectors()) * self.collectors()
    }

    /// The bytes to reserve: kept edges, buffers, room to merge, and scratch.
    pub open spec fn reserved(
        self,
        kind: EdgeCollectorScratchKind,
        sinks: int,
        edge_bytes: int,
    ) -> int {
        edge_bytes + self.pool(edge_bytes) + edge_bytes + self.scratch(kind, sinks, edge_bytes)
    }

    /// No byte count of the plan overflows.
    pub open spec fn countable(
        self,
        kind: EdgeCollectorScratchKind,
        sinks: int,
        edge_bytes: int,
    ) -> bool {
        &&& scratch_fits(
            kind,
            self.node_count,
            most(sinks, 1),
            self.primary(edge_bytes),
            self.worker(edge_bytes),
        )
        &&& self.reserved(kind, sinks, edge_bytes) <= u64::MAX
    }

    /// The plan.
    pub open spec fn plan(
        self,
        kind: EdgeCollectorScratchKind,
        sinks: int,
        edge_bytes: int,
    ) -> ScopeCollectorMemoryPlan {
        ScopeCollectorMemoryPlan {
            scratch_kind: kind,
            active_sink_workers: sinks as usize,
            scorer_lanes: most(self.threads - sinks, 1) as usize,
            max_buffer_bytes: buffer_bytes(edge_bytes, self.collectors()) as u64,
            primary_scratch_touched_nodes: self.primary(edge_bytes) as u64,
            worker_scratch_touched_nodes: self.worker(edge_bytes) as u64,
            scratch_bytes: self.scratch(kind, sinks, edge_bytes) as u64,
            edge_bytes: edge_bytes as u64,
            buffer_pool_bytes: self.pool(edge_bytes) as u64,
            retained_runtime_bytes: (edge_bytes + self.pool(edge_bytes)) as u64,
            merge_growth_bytes: edge_bytes as u64,
            reserved_bytes: self.reserved(kind, sinks, edge_bytes) as u64,
        }
    }

    /// The plan of the most threads that collect, from `sinks` down to one, or to none where
    /// none can collect, whose bytes are available. Nothing where no such plan is; an error
    /// where a count overflows first.
    pub open spec fn first_fitting(
        self,
        kind: EdgeCollectorScratchKind,
        sinks: int,
        edge_bytes: int,
        available: int,
    ) -> Option<Option<ScopeCollectorMemoryPlan>>
        decreases sinks + 1,
    {
        if sinks < 0 || (sinks == 0 && self.sink_workers() != 0) {
            None
        } else if !self.countable(kind, sinks, edge_bytes) {
            Some(None)
        } else if self.reserved(kind, sinks, edge_bytes) <= available {
            Some(Some(self.plan(kind, sinks, edge_bytes)))
        } else {
            self.first_fitting(kind, sinks - 1, edge_bytes, available)
        }
    }

    /// A sparse plan of `edges` whole edges is available.
    pub open spec fn edges_fit(self, edges: int, available: int) -> bool {
        self.reserved(
            EdgeCollectorScratchKind::Sparse,
            self.sink_workers(),
            edges * EDGE_BYTES,
        ) <= available
    }

    /// The sparse plan of the most whole edges, up to `max_edge_bytes`, that is available; of
    /// one edge where none is.
    pub open spec fn is_smaller_plan(
        self,
        plan: ScopeCollectorMemoryPlan,
        max_edge_bytes: int,
        available: int,
    ) -> bool {
        exists|edges: int| #[trigger]
            self.is_most_edges(edges, max_edge_bytes, available) && plan == self.plan(
                EdgeCollectorScratchKind::Sparse,
                self.sink_workers(),
                edges * EDGE_BYTES,
            )
    }

    /// No plan of more whole edges is available.
    pub open spec fn is_most_edges(self, edges: int, max_edge_bytes: int, available: int) -> bool {
        &&& edges >= 1
        &&& edges == 1 || (self.edges_fit(edges, available) && edges * EDGE_BYTES
            <= max_edge_bytes)
        &&& forall|more: int|
            edges < more && more * EDGE_BYTES <= max_edge_bytes ==> !(#[trigger] self.edges_fit(
                more,
                available,
            ))
    }
}

proof fn lemma_buffer_bytes_grow(low: int, high: int, collector_count: int)
    requires
        0 <= low <= high,
    ensures
        0 <= buffer_bytes(low, collector_count) <= buffer_bytes(high, collector_count),
{
    let count = most(collector_count, 1);
    lemma_div_is_ordered(low, high, count);
    lemma_div_is_ordered(low, high, EDGE_BYTES as int);
    lemma_div_is_ordered(low / EDGE_BYTES as int, high / EDGE_BYTES as int, count);
}

proof fn lemma_reserved_grows(inputs: PlanInputs, sinks: int, low: int, high: int)
    requires
        0 <= low <= high,
        inputs.node_count >= 0,
        inputs.chain_pair_count >= 0,
    ensures
        inputs.reserved(EdgeCollectorScratchKind::Sparse, sinks, low) <= inputs.reserved(
            EdgeCollectorScratchKind::Sparse,
            sinks,
            high,
        ),
        inputs.countable(EdgeCollectorScratchKind::Sparse, sinks, high) ==> inputs.countable(
            EdgeCollectorScratchKind::Sparse,
            sinks,
            low,
        ),
{
    let count = inputs.collectors();
    lemma_buffer_bytes_grow(low, high, count);
    let small = buffer_bytes(low, count);
    let large = buffer_bytes(high, count);
    assert(small * count <= large * count) by (nonlinear_arith)
        requires
            small <= large,
            count >= 0,
    ;
    lemma_div_is_ordered(low, high, EDGE_BYTES as int);
    lemma_div_is_ordered(small, large, EDGE_BYTES as int);
    let others = most(most(sinks, 1), 1) - 1;
    let a = inputs.worker(low);
    let b = inputs.worker(high);
    assert(a * others <= b * others) by (nonlinear_arith)
        requires
            a <= b,
            others >= 0,
    ;
}

/// The plan of these workers and edge bytes.
fn try_plan(
    kind: EdgeCollectorScratchKind,
    sinks: usize,
    edge_bytes: u64,
    node_count: u32,
    collector_count: usize,
    threads: usize,
    Ghost(inputs): Ghost<PlanInputs>,
) -> (result: Result<ScopeCollectorMemoryPlan, PipelineError>)
    requires
        inputs.node_count == node_count,
        inputs.collectors() == collector_count,
        inputs.threads == threads,
        inputs.chain_pair_count >= 0,
    ensures
        if inputs.countable(kind, sinks as int, edge_bytes as int) {
            result matches Ok(plan) && plan == inputs.plan(kind, sinks as int, edge_bytes as int)
        } else {
            result matches Err(e) && e@ == error::overflow_fault()
        },
{
    let workers: usize = if sinks < 1 {
        1
    } else {
        sinks
    };
    let max_buffer_bytes: u64 = scope_collector_buffer_bytes(edge_bytes, collector_count);
    let primary: u64 = touched_nodes_for_edge_bytes(node_count, edge_bytes);
    let worker: u64 = touched_nodes_for_edge_bytes(node_count, max_buffer_bytes);
    proof {
        assert(max_buffer_bytes * collector_count >= 0) by (nonlinear_arith)
            requires
                max_buffer_bytes >= 0,
                collector_count >= 0,
        ;
        let others = workers - 1;
        assert(worker * others >= 0) by (nonlinear_arith)
            requires
                worker >= 0,
                others >= 0,
        ;
        assert(node_count * 8 * workers >= 0) by (nonlinear_arith)
            requires
                node_count >= 0,
                workers >= 1,
        ;
    }
    let scratch: u64 = match scope_collector_scratch_bytes(
        kind,
        node_count,
        workers,
        primary,
        worker,
    ) {
        Err(error) => {
            return Err(error);
        },
        Ok(bytes) => bytes,
    };
    let pool: u64 = match max_buffer_bytes.checked_mul(collector_count as u64) {
        None => {
            return Err(overflow_error());
        },
        Some(bytes) => bytes,
    };
    let retained: u64 = match edge_bytes.checked_add(pool) {
        None => {
            return Err(overflow_error());
        },
        Some(bytes) => bytes,
    };
    let grown: u64 = match retained.checked_add(edge_bytes) {
        None => {
            return Err(overflow_error());
        },
        Some(bytes) => bytes,
    };
    let reserved: u64 = match grown.checked_add(scratch) {
        None => {
            return Err(overflow_error());
        },
        Some(bytes) => bytes,
    };
    let lanes: usize = threads.saturating_sub(sinks);
    Ok(
        ScopeCollectorMemoryPlan {
            scratch_kind: kind,
            active_sink_workers: sinks,
            scorer_lanes: if lanes < 1 {
                1
            } else {
                lanes
            },
            max_buffer_bytes,
            primary_scratch_touched_nodes: primary,
            worker_scratch_touched_nodes: worker,
            scratch_bytes: scratch,
            edge_bytes,
            buffer_pool_bytes: pool,
            retained_runtime_bytes: retained,
            merge_growth_bytes: edge_bytes,
            reserved_bytes: reserved,
        },
    )
}

/// The first plan, by descending threads that collect, whose bytes are available.
fn find_fitting(
    kind: EdgeCollectorScratchKind,
    requested_sinks: usize,
    edge_bytes: u64,
    node_count: u32,
    collector_count: usize,
    threads: usize,
    available: u64,
    Ghost(inputs): Ghost<PlanInputs>,
) -> (result: Result<Option<ScopeCollectorMemoryPlan>, PipelineError>)
    requires
        inputs.node_count == node_count,
        inputs.collectors() == collector_count,
        inputs.threads == threads,
        inputs.chain_pair_count >= 0,
        inputs.sink_workers() == requested_sinks,
    ensures
        match inputs.first_fitting(
            kind,
            requested_sinks as int,
            edge_bytes as int,
            available as int,
        ) {
            Some(Some(plan)) => result == Ok::<Option<ScopeCollectorMemoryPlan>, PipelineError>(
                Some(plan),
            ),
            Some(None) => result matches Err(e) && e@ == error::overflow_fault(),
            None => {
                &&& result == Ok::<Option<ScopeCollectorMemoryPlan>, PipelineError>(None)
                &&& inputs.countable(kind, requested_sinks as int, edge_bytes as int)
            },
        },
{
    let mut sinks: usize = requested_sinks;
    loop
        invariant
            sinks <= requested_sinks,
            sinks > 0 || requested_sinks == 0,
            inputs.node_count == node_count,
            inputs.collectors() == collector_count,
            inputs.threads == threads,
            inputs.chain_pair_count >= 0,
            inputs.sink_workers() == requested_sinks,
            sinks < requested_sinks ==> inputs.countable(
                kind,
                requested_sinks as int,
                edge_bytes as int,
            ),
            inputs.first_fitting(kind, requested_sinks as int, edge_bytes as int, available as int)
                == inputs.first_fitting(kind, sinks as int, edge_bytes as int, available as int),
        decreases sinks,
    {
        let plan: ScopeCollectorMemoryPlan = match try_plan(
            kind,
            sinks,
            edge_bytes,
            node_count,
            collector_count,
            threads,
            Ghost(inputs),
        ) {
            Err(error) => {
                return Err(error);
            },
            Ok(plan) => plan,
        };
        if plan.reserved_bytes <= available {
            return Ok(Some(plan));
        }
        if sinks <= 1 {
            assert(inputs.first_fitting(
                kind,
                sinks - 1,
                edge_bytes as int,
                available as int,
            ) is None);
            return Ok(None);
        }
        sinks = sinks - 1;
    }
}

/// What [`build_scope_collector_memory_plan`] returns.
pub open spec fn is_memory_plan(
    result: Result<ScopeCollectorMemoryPlan, PipelineError>,
    inputs: PlanInputs,
    requested_edge_bytes: int,
    available: int,
) -> bool {
    let edge_bytes = least(
        most(requested_edge_bytes, EDGE_BYTES as int),
        most(available, EDGE_BYTES as int),
    );
    let sinks = inputs.sink_workers();
    let dense = inputs.first_fitting(EdgeCollectorScratchKind::Dense, sinks, edge_bytes, available);
    let sparse = inputs.first_fitting(
        EdgeCollectorScratchKind::Sparse,
        sinks,
        edge_bytes,
        available,
    );
    let first = if dense is Some {
        dense
    } else {
        sparse
    };
    match first {
        Some(Some(plan)) => result == Ok::<ScopeCollectorMemoryPlan, PipelineError>(plan),
        Some(None) => result matches Err(e) && e@ == error::overflow_fault(),
        None => result matches Ok(plan) && inputs.is_smaller_plan(plan, edge_bytes, available),
    }
}

/// The collectors' memory: one slot per node where that fits, else one per touched node,
/// with as many collecting threads as fit; else as many edges as fit.
pub fn build_scope_collector_memory_plan(
    memory: &MemoryBroker,
    node_count: u32,
    chain_pair_count: usize,
    requested_edge_bytes: u64,
    threads: usize,
) -> (result: Result<ScopeCollectorMemoryPlan, PipelineError>)
    requires
        memory@.wf(),
    ensures
        is_memory_plan(
            result,
            (PlanInputs {
                node_count: node_count as int,
                chain_pair_count: chain_pair_count as int,
                threads: threads as int,
            }),
            requested_edge_bytes as int,
            memory@.available(None),
        ),
{
    let ghost inputs = PlanInputs {
        node_count: node_count as int,
        chain_pair_count: chain_pair_count as int,
        threads: threads as int,
    };
    let available: u64 = memory.available_bytes();
    let topology = scope_collector_topology(chain_pair_count, threads);
    let collector_count: usize = topology.0;
    let sinks: usize = topology.1;
    let wanted: u64 = if requested_edge_bytes < EDGE_BYTES {
        EDGE_BYTES
    } else {
        requested_edge_bytes
    };
    let allowed: u64 = if available < EDGE_BYTES {
        EDGE_BYTES
    } else {
        available
    };
    let max_edge_bytes: u64 = if wanted < allowed {
        wanted
    } else {
        allowed
    };
    match find_fitting(
        EdgeCollectorScratchKind::Dense,
        sinks,
        max_edge_bytes,
        node_count,
        collector_count,
        threads,
        available,
        Ghost(inputs),
    ) {
        Err(error) => {
            return Err(error);
        },
        Ok(Some(plan)) => {
            return Ok(plan);
        },
        Ok(None) => {},
    }
    match find_fitting(
        EdgeCollectorScratchKind::Sparse,
        sinks,
        max_edge_bytes,
        node_count,
        collector_count,
        threads,
        available,
        Ghost(inputs),
    ) {
        Err(error) => {
            return Err(error);
        },
        Ok(Some(plan)) => {
            return Ok(plan);
        },
        Ok(None) => {},
    }
    let mut low: u64 = 1;
    let mut high: u64 = max_edge_bytes / EDGE_BYTES;
    let mut best: Option<ScopeCollectorMemoryPlan> = None;
    while low <= high
        invariant
            1 <= low <= high + 1,
            high <= max_edge_bytes / EDGE_BYTES,
            inputs.node_count == node_count,
            inputs.collectors() == collector_count,
            inputs.threads == threads,
            inputs.chain_pair_count >= 0,
            inputs.sink_workers() == sinks,
            inputs.countable(EdgeCollectorScratchKind::Sparse, sinks as int, max_edge_bytes as int),
            low == 1 ==> best is None,
            low > 1 ==> best == Some(
                inputs.plan(
                    EdgeCollectorScratchKind::Sparse,
                    sinks as int,
                    (low - 1) * EDGE_BYTES,
                ),
            ) && inputs.edges_fit(low - 1, available as int),
            forall|more: int|
                high < more && more * EDGE_BYTES <= max_edge_bytes ==> !(
                #[trigger] inputs.edges_fit(more, available as int)),
        decreases high + 1 - low,
    {
        let middle: u64 = low + (high - low) / 2;
        proof {
            lemma_reserved_grows(
                inputs,
                sinks as int,
                middle * EDGE_BYTES,
                max_edge_bytes as int,
            );
        }
        let plan: ScopeCollectorMemoryPlan = match try_plan(
            EdgeCollectorScratchKind::Sparse,
            sinks,
            middle * EDGE_BYTES,
            node_count,
            collector_count,
            threads,
            Ghost(inputs),
        ) {
            Err(error) => {
                return Err(error);
            },
            Ok(plan) => plan,
        };
        if plan.reserved_bytes <= available {
            best = Some(plan);
            low = middle + 1;
        } else {
            proof {
                assert forall|more: int|
                    middle - 1 < more && more * EDGE_BYTES <= max_edge_bytes implies !(
                #[trigger] inputs.edges_fit(more, available as int)) by {
                    lemma_reserved_grows(
                        inputs,
                        sinks as int,
                        middle * EDGE_BYTES,
                        more * EDGE_BYTES,
                    );
                }
            }
            high = middle - 1;
        }
    }
    match best {
        Some(plan) => {
            assert(inputs.is_most_edges(low - 1, max_edge_bytes as int, available as int));
            Ok(plan)
        },
        None => {
            proof {
                lemma_reserved_grows(
                    inputs,
                    sinks as int,
                    1 * EDGE_BYTES,
                    max_edge_bytes as int,
                );
                assert(inputs.is_most_edges(1, max_edge_bytes as int, available as int));
            }
            try_plan(
                EdgeCollectorScratchKind::Sparse,
                sinks,
                EDGE_BYTES,
                node_count,
                collector_count,
                threads,
                Ghost(inputs),
            )
        },
    }
}

} // verus!
