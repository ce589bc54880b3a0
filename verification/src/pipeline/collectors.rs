//! Edge collectors of all scopes: they keep forests of what is submitted, merge them when
//! memory runs short, and put them aside when merging does not help.

use crate::pipeline::collector_plan::{scope_collector_topology, ScopeCollectorMemoryPlan};
use crate::pipeline::compaction;
use crate::pipeline::compaction::CompactedCatalogEdges;
use crate::pipeline::error::{invariant_error, PipelineError, PipelineFault};
use crate::pipeline::pairs;
use crate::pipeline::pairs::chain_pair_index;
use crate::progress::{
    ProgressCounters, ProgressEvent, ProgressPhase, TotalKind, WorkClass, WorkUnit,
};
use crate::reduce::collector;
use crate::reduce::collector::{capacity_of, CollectorRules, CollectorState, EdgeCollector};
use crate::reduce::component;
use crate::reduce::error::{ReduceError, ReduceFault};
use crate::reduce::forest;
use crate::reduce::forest::{edge_bytes, EdgeBudget, ForestRun};
use crate::reduce::graph;
use crate::reduce::graph::Edge;
use crate::reduce::scratch::{copy_edges, EdgeCollectorScratch, EdgeCollectorScratchKind};
use crate::reduce::storage;
use crate::reduce::storage::{ForestRunStorage, MappedForestRun};
use vstd::prelude::*;
use vstd::string::*;

verus! {

/// Degree from which a buffer is flushed.
pub const COLLECTOR_DEGREE_TRIGGER: u32 = 1_048_576;

/// The edges of the slots from `begin` up to `end`, one after the other.
pub open spec fn joined(slots: Seq<Seq<Edge>>, begin: int, end: int) -> Seq<Edge>
    decreases end - begin,
{
    if end <= begin {
        Seq::empty()
    } else {
        joined(slots, begin, end - 1) + slots[end - 1]
    }
}

proof fn lemma_same_transitive(a: Seq<Edge>, b: Seq<Edge>, c: Seq<Edge>)
    requires
        graph::same_connectivity(a, b),
        graph::same_connectivity(b, c),
    ensures
        graph::same_connectivity(a, c),
{
    assert forall|x: int, y: int| #[trigger] graph::connected(a, x, y) <==> graph::connected(
        c,
        x,
        y,
    ) by {
        assert(graph::connected(a, x, y) <==> graph::connected(b, x, y));
    }
}

proof fn lemma_joined_same(after: Seq<Seq<Edge>>, before: Seq<Seq<Edge>>, begin: int, end: int)
    requires
        begin <= end,
        forall|i: int|
            begin <= i < end ==> graph::same_connectivity(#[trigger] after[i], before[i]),
    ensures
        graph::same_connectivity(joined(after, begin, end), joined(before, begin, end)),
    decreases end - begin,
{
    if begin < end {
        lemma_joined_same(after, before, begin, end - 1);
        assert(graph::same_connectivity(after[end - 1], before[end - 1]));
        graph::lemma_concat_connectivity(
            joined(after, begin, end - 1),
            after[end - 1],
            joined(before, begin, end - 1),
            before[end - 1],
        );
    }
}

proof fn lemma_joined_grows(
    after: Seq<Seq<Edge>>,
    before: Seq<Seq<Edge>>,
    begin: int,
    end: int,
    at: int,
    edges: Seq<Edge>,
)
    requires
        begin <= at < end,
        graph::same_connectivity(after[at], before[at] + edges),
        forall|i: int| begin <= i < end && i != at ==> #[trigger] after[i] == before[i],
    ensures
        graph::same_connectivity(joined(after, begin, end), joined(before, begin, end) + edges),
    decreases end - begin,
{
    let rest = joined(before, begin, end - 1);
    let last = before[end - 1];
    if at == end - 1 {
        lemma_joined_equal(after, before, begin, end - 1);
        graph::lemma_concat_connectivity(rest, after[at], rest, last + edges);
        assert(rest + (last + edges) =~= (rest + last) + edges);
    } else {
        lemma_joined_grows(after, before, begin, end - 1, at, edges);
        assert(after[end - 1] == last);
        graph::lemma_concat_connectivity(
            joined(after, begin, end - 1),
            last,
            rest + edges,
            last,
        );
        let x = (rest + edges) + last;
        let y = (rest + last) + edges;
        assert forall|i: int| 0 <= i < x.len() implies y.contains(#[trigger] x[i]) by {
            if i < rest.len() {
                assert(y[i] == x[i]);
            } else if i < rest.len() + edges.len() {
                assert(y[i + last.len()] == x[i]);
            } else {
                assert(y[i - edges.len()] == x[i]);
            }
        }
        assert forall|i: int| 0 <= i < y.len() implies x.contains(#[trigger] y[i]) by {
            if i < rest.len() {
                assert(x[i] == y[i]);
            } else if i < rest.len() + last.len() {
                assert(x[i + edges.len()] == y[i]);
            } else {
                assert(x[i - last.len()] == y[i]);
            }
        }
        graph::lemma_connectivity_of_members(x, y);
        lemma_same_transitive(joined(after, begin, end), x, y);
    }
}

proof fn lemma_joined_equal(after: Seq<Seq<Edge>>, before: Seq<Seq<Edge>>, begin: int, end: int)
    requires
        forall|i: int| begin <= i < end ==> #[trigger] after[i] == before[i],
    ensures
        joined(after, begin, end) == joined(before, begin, end),
    decreases end - begin,
{
    if begin < end {
        lemma_joined_equal(after, before, begin, end - 1);
    }
}

proof fn lemma_storage_edges_push(runs: Seq<ForestRunStorage>, run: ForestRunStorage)
    ensures
        component::storage_edges(runs.push(run)) == component::storage_edges(runs) + run.edges(),
{
    assert(runs.push(run).drop_last() =~= runs);
}

proof fn lemma_storage_edges_add(a: Seq<ForestRunStorage>, b: Seq<ForestRunStorage>)
    ensures
        component::storage_edges(a + b) == component::storage_edges(a) + component::storage_edges(
            b,
        ),
    decreases b.len(),
{
    if b.len() == 0 {
        assert(a + b =~= a);
        assert(component::storage_edges(a) + component::storage_edges(b)
            =~= component::storage_edges(a));
    } else {
        lemma_storage_edges_add(a, b.drop_last());
        assert((a + b).drop_last() =~= a + b.drop_last());
        assert((a + b).last() == b.last());
        assert(component::storage_edges(a + b) =~= component::storage_edges(a)
            + component::storage_edges(b));
    }
}

/// The sum of the first `count` charges.
pub open spec fn charge_sum(charges: Seq<u64>, count: int) -> nat
    decreases count,
{
    if count <= 0 {
        0
    } else {
        charge_sum(charges, count - 1) + charges[count - 1] as nat
    }
}

/// A charge is for what a collector holds: the bytes of its runs, and of its buffer with the room
/// that the allocator gave.
pub open spec fn is_charge(bytes: u64, state: CollectorState) -> bool {
    exists|capacity: usize|
        capacity >= state.buffer.len() && bytes == #[trigger] collector::saturating_sum(
            state.compacted_bytes,
            forest::edge_bytes_of(capacity as nat),
        )
}

/// A charge is for what a collector holds, for that once it is merged, or for what is left of
/// that once its runs were put aside.
pub open spec fn is_settling_charge(
    rules: CollectorRules,
    bytes: u64,
    state: CollectorState,
) -> bool {
    ||| is_charge(bytes, state)
    ||| rules.compacted_shared(state) is Ok && is_charge(
        bytes,
        rules.compacted_shared(state)->Ok_0,
    )
    ||| rules.compacted_shared(state) is Ok && is_charge(
        bytes,
        drained(rules.compacted_shared(state)->Ok_0),
    )
}

/// What a new collector holds.
pub open spec fn empty_state() -> CollectorState {
    CollectorState { runs: Seq::empty(), buffer: Seq::empty(), compacted_bytes: 0 }
}

/// What a collector holds once its runs were taken away.
pub open spec fn drained(state: CollectorState) -> CollectorState {
    CollectorState { runs: Seq::empty(), buffer: state.buffer, compacted_bytes: 0 }
}

/// The merged runs were taken away and put aside behind `before` others.
pub open spec fn is_set_aside(
    merged: Result<CollectorState, ReduceFault>,
    state: CollectorState,
    before: nat,
    after: nat,
) -> bool {
    merged matches Ok(kept) && state == drained(kept) && after == before + kept.runs.len()
}

/// The runs can be numbered behind `aside` others, and their bytes counted.
pub open spec fn can_spill(aside: nat, runs: Seq<Seq<Edge>>) -> bool {
    forall|r: int|
        0 <= r < runs.len() ==> aside + r < u32::MAX && (#[trigger] runs[r]).len() * 8 <= u64::MAX
}

/// The run in its stored form.
pub open spec fn is_stored_run(stored: ForestRunStorage, edges: Seq<Edge>, node_count: u32) -> bool {
    &&& stored is Mapped
    &&& stored.nodes() == node_count
    &&& stored.edges() == storage::stored_edges(storage::edge_words(edges), edges.len())
}

/// Behind what was aside stand the runs in their stored form.
pub open spec fn puts_aside(
    after: Seq<ForestRunStorage>,
    before: Seq<ForestRunStorage>,
    runs: Seq<Seq<Edge>>,
    node_count: u32,
) -> bool {
    &&& after.len() == before.len() + runs.len()
    &&& forall|k: int| 0 <= k < before.len() ==> #[trigger] after[k] == before[k]
    &&& forall|k: int|
        before.len() <= k < after.len() ==> is_stored_run(
            #[trigger] after[k],
            runs[k - before.len()],
            node_count,
        )
}

/// Behind what was aside stand the runs in memory.
pub open spec fn stays_resident(
    after: Seq<ForestRunStorage>,
    before: Seq<ForestRunStorage>,
    runs: Seq<Seq<Edge>>,
    node_count: u32,
) -> bool {
    &&& after.len() == before.len() + runs.len()
    &&& forall|k: int| 0 <= k < before.len() ==> #[trigger] after[k] == before[k]
    &&& forall|k: int|
        before.len() <= k < after.len() ==> {
            &&& #[trigger] after[k] is Resident
            &&& after[k].nodes() == node_count
            &&& after[k].edges() == runs[k - before.len()]
        }
}

/// The runs of the slots from `begin` up to `end`, one after the other.
pub open spec fn joined_runs(
    slots: Seq<Seq<ForestRunStorage>>,
    begin: int,
    end: int,
) -> Seq<ForestRunStorage>
    decreases end - begin,
{
    if end <= begin {
        Seq::empty()
    } else {
        joined_runs(slots, begin, end - 1) + slots[end - 1]
    }
}

/// The bytes of the runs' edges, at most `u64::MAX`.
pub open spec fn run_bytes(runs: Seq<Seq<Edge>>) -> u64
    decreases runs.len(),
{
    if runs.len() == 0 {
        0
    } else {
        collector::saturating_sum(
            run_bytes(runs.drop_last()),
            forest::edge_bytes_of(runs.last().len()),
        )
    }
}

/// The sum, at most `u64::MAX`.
pub open spec fn saturating_total(parts: Seq<u64>) -> u64
    decreases parts.len(),
{
    if parts.len() == 0 {
        0
    } else {
        collector::saturating_sum(saturating_total(parts.drop_last()), parts.last())
    }
}

/// The bytes in memory of runs: each takes the room that the allocator gave, never less than its
/// edges.
pub open spec fn is_run_measure(bytes: u64, runs: Seq<Seq<Edge>>) -> bool {
    exists|rooms: Seq<u64>|
        {
            &&& rooms.len() == runs.len()
            &&& forall|r: int|
                0 <= r < runs.len() ==> #[trigger] rooms[r] >= forest::edge_bytes_of(runs[r].len())
            &&& bytes == #[trigger] saturating_total(rooms)
        }
}

proof fn lemma_rooms(rooms: Seq<u64>, runs: Seq<Seq<Edge>>)
    requires
        rooms.len() == runs.len(),
        forall|r: int|
            0 <= r < runs.len() ==> #[trigger] rooms[r] >= forest::edge_bytes_of(runs[r].len()),
    ensures
        saturating_total(rooms) >= run_bytes(runs),
    decreases runs.len(),
{
    if runs.len() > 0 {
        lemma_rooms(rooms.drop_last(), runs.drop_last());
    }
}

proof fn lemma_charge_sum_grows(charges: Seq<u64>, count: int, most: int)
    requires
        count <= most,
    ensures
        charge_sum(charges, count) <= charge_sum(charges, most),
    decreases most - count,
{
    if count < most {
        lemma_charge_sum_grows(charges, count, most - 1);
    }
}

proof fn lemma_charge_sum_update(charges: Seq<u64>, at: int, charge: u64, count: int)
    requires
        0 <= at < charges.len(),
        0 <= count <= charges.len(),
    ensures
        charge_sum(charges.update(at, charge), count) == if at < count {
            charge_sum(charges, count) - charges[at] + charge
        } else {
            charge_sum(charges, count) as int
        },
    decreases count,
{
    if count > 0 {
        lemma_charge_sum_update(charges, at, charge, count - 1);
    }
}

proof fn lemma_charge_sum_bounds(charges: Seq<u64>, at: int, count: int)
    requires
        0 <= at < count <= charges.len(),
    ensures
        charges[at] <= charge_sum(charges, count),
    decreases count,
{
    if at < count - 1 {
        lemma_charge_sum_bounds(charges, at, count - 1);
    }
}

proof fn lemma_charge_sum_prefix(a: Seq<u64>, b: Seq<u64>, count: int)
    requires
        0 <= count <= a.len(),
        count <= b.len(),
        forall|i: int| 0 <= i < count ==> #[trigger] a[i] == b[i],
    ensures
        charge_sum(a, count) == charge_sum(b, count),
    decreases count,
{
    if count > 0 {
        lemma_charge_sum_prefix(a, b, count - 1);
    }
}

proof fn lemma_zero_charges(charges: Seq<u64>, count: int)
    requires
        0 <= count <= charges.len(),
        forall|i: int| 0 <= i < charges.len() ==> #[trigger] charges[i] == 0,
    ensures
        charge_sum(charges, count) == 0,
    decreases count,
{
    if count > 0 {
        lemma_zero_charges(charges, count - 1);
    }
}

/// Every run is consistent and over the node universe.
pub open spec fn runs_over(runs: Seq<ForestRunStorage>, node_count: u32) -> bool {
    forall|r: int|
        0 <= r < runs.len() ==> (#[trigger] runs[r]).wf() && runs[r].nodes() == node_count
}

/// No run has a loop, and none leaves the nodes.
pub open spec fn are_proper_runs(runs: Seq<ForestRunStorage>, node_count: u32) -> bool {
    forall|r: int|
        0 <= r < runs.len() ==> graph::are_proper((#[trigger] runs[r]).edges())
            && graph::all_within(runs[r].edges(), node_count as int)
}

proof fn lemma_puts_aside_proper(
    after: Seq<ForestRunStorage>,
    before: Seq<ForestRunStorage>,
    runs: Seq<Seq<Edge>>,
    node_count: u32,
)
    requires
        are_proper_runs(before, node_count),
        forall|r: int|
            0 <= r < runs.len() ==> graph::are_proper(#[trigger] runs[r]) && graph::all_within(
                runs[r],
                node_count as int,
            ),
    ensures
        puts_aside(after, before, runs, node_count) ==> are_proper_runs(after, node_count),
        stays_resident(after, before, runs, node_count) ==> are_proper_runs(after, node_count),
{
    assert forall|r: int|
        0 <= r < after.len() && (puts_aside(after, before, runs, node_count) || stays_resident(
            after,
            before,
            runs,
            node_count,
        )) implies graph::are_proper((#[trigger] after[r]).edges()) && graph::all_within(
        after[r].edges(),
        node_count as int,
    ) by {
        if r < before.len() {
            assert(after[r] == before[r]);
        } else {
            let own = runs[r - before.len()];
            assert(graph::are_proper(own));
            storage::lemma_stored_edges_proper(own, node_count as int);
        }
    }
}

proof fn lemma_joined_runs_proper(
    slots: Seq<Seq<ForestRunStorage>>,
    begin: int,
    end: int,
    node_count: u32,
)
    requires
        forall|k: int| begin <= k < end ==> are_proper_runs(#[trigger] slots[k], node_count),
    ensures
        are_proper_runs(joined_runs(slots, begin, end), node_count),
    decreases end - begin,
{
    if begin < end {
        lemma_joined_runs_proper(slots, begin, end - 1, node_count);
        assert(are_proper_runs(slots[end - 1], node_count));
    }
}

/// The finished forests of all scopes.
pub struct ScopeForestRuns {
    pub intra: Vec<ForestRunStorage>,
    pub cross: Vec<ForestRunStorage>,
    pub pairs: Vec<Vec<ForestRunStorage>>,
}

impl ScopeForestRuns {
    /// The forests of a scope: within chains, across chains, then the pairs of chains.
    pub open spec fn scope(self, scope: int) -> Seq<ForestRunStorage> {
        if scope == 0 {
            self.intra@
        } else if scope == 1 {
            self.cross@
        } else {
            self.pairs@[scope - 2]@
        }
    }
}

/// The edge collectors of all scopes.
pub struct ScopeCollectors {
    node_count: u32,
    scope_count: usize,
    shards_per_scope: usize,
    scorer_lanes: usize,
    collector_rules: CollectorRules,
    max_retained_bytes: u64,
    resident_forest_limit: u64,
    collectors: Vec<EdgeCollector>,
    scratches: Vec<EdgeCollectorScratch>,
    spills: Vec<Vec<ForestRunStorage>>,
    retained: Vec<u64>,
    total_retained: u64,
    next_shard: Vec<usize>,
    accepted: u64,
    cancelled: bool,
    submitted: Ghost<Seq<Seq<Edge>>>,
}

impl ScopeCollectors {
    /// The number of scopes.
    pub closed spec fn scopes(self) -> int {
        self.scope_count as int
    }

    /// The number of nodes.
    pub closed spec fn nodes(self) -> u32 {
        self.node_count
    }

    /// What was submitted to a scope, in order.
    pub closed spec fn submitted(self, scope: int) -> Seq<Edge> {
        self.submitted@[scope]
    }

    /// The number of accepted edges.
    pub closed spec fn accepted(self) -> u64 {
        self.accepted
    }

    /// A failure has stopped the collectors.
    pub closed spec fn is_cancelled(self) -> bool {
        self.cancelled
    }

    /// The threads that score.
    pub closed spec fn lanes(self) -> usize {
        self.scorer_lanes
    }

    /// The threads that collect share this many scratches.
    pub closed spec fn scratch_count(self) -> nat {
        self.scratches@.len()
    }

    /// The collector that takes the next batch of a scope.
    pub closed spec fn next_slot(self, scope: int) -> int {
        self.first_slot(scope) + self.next_shard@[scope] % self.shards_per_scope
    }

    /// The limits that all collectors share.
    pub closed spec fn limits(self) -> CollectorRules {
        self.collector_rules
    }

    /// What the collectors hold.
    pub closed spec fn states(self) -> Seq<CollectorState> {
        Seq::new(self.collectors@.len(), |slot: int| self.collectors@[slot].state())
    }

    /// How many runs each collector has put aside.
    pub closed spec fn asides(self) -> Seq<nat> {
        Seq::new(self.spills@.len(), |slot: int| self.spills@[slot]@.len())
    }

    /// What the collectors are charged for.
    pub closed spec fn charges(self) -> Seq<u64> {
        self.retained@
    }

    /// The bytes that all collectors may keep together.
    pub closed spec fn retained_limit(self) -> u64 {
        self.max_retained_bytes
    }

    /// The charges come to more than the collectors may keep.
    pub open spec fn is_over_limit(self) -> bool {
        charge_sum(self.charges(), self.charges().len() as int) > self.retained_limit()
    }

    /// Of parts, one for each scope, those of the first `count` scopes were submitted.
    pub open spec fn takes_parts(
        self,
        before: ScopeCollectors,
        parts: Seq<Seq<Edge>>,
        count: int,
    ) -> bool {
        &&& self.wf()
        &&& !self.is_cancelled()
        &&& self.continues(before)
        &&& forall|scope: int|
            0 <= scope < before.scopes() ==> #[trigger] self.submitted(scope) == (if scope
                < count {
                before.submitted(scope) + parts[scope]
            } else {
                before.submitted(scope)
            })
    }

    /// Of parts, one for each scope, the first ones were submitted and the next one refused.
    pub open spec fn refuses_parts(
        self,
        after: ScopeCollectors,
        parts: Seq<Seq<Edge>>,
        fault: PipelineFault,
    ) -> bool {
        &&& after.is_cancelled()
        &&& parts.len() == self.scopes()
        &&& exists|before: ScopeCollectors, scope: int| #[trigger]
            before.refuses(after, scope, parts[scope], fault) && before.takes_parts(
                self,
                parts,
                scope,
            ) && after.continues(before) && 0 <= scope < self.scopes() && parts[scope].len() > 0
    }

    /// A batch for a scope is refused: the collector whose turn it is cannot take it, or what
    /// the collectors come to with it cannot be kept within the limit.
    pub open spec fn refuses(
        self,
        after: ScopeCollectors,
        scope: int,
        edges: Seq<Edge>,
        fault: PipelineFault,
    ) -> bool {
        let slot = self.next_slot(scope);
        match self.limits().pushed_batch(
            self.states()[slot],
            edges,
            self.counts_degrees(slot),
            edges.len() as int,
        ) {
            Ok(state) => fault matches PipelineFault::Reduce(own) && self.is_limit_fault(
                after,
                self.states().update(slot, state),
                own,
            ),
            Err(own) => fault == PipelineFault::Reduce(own),
        }
    }

    /// The charges cannot be counted, or a collector has put aside as many runs as can be
    /// numbered.
    pub open spec fn cannot_count(self) -> bool {
        ||| charge_sum(self.charges(), self.charges().len() as int) > u64::MAX
        ||| exists|slot: int|
            0 <= slot < self.asides().len() && #[trigger] self.asides()[slot] >= u32::MAX
    }

    /// Why one of the parts is refused: a limit is exceeded that not every forest keeps to, an
    /// edge lies outside the nodes, or something cannot be counted.
    pub open spec fn is_part_fault(self, parts: Seq<Seq<Edge>>, fault: PipelineFault) -> bool {
        fault matches PipelineFault::Reduce(own) && self.limits().may_fail_with(own) && match own {
            ReduceFault::Endpoint { endpoint, .. } => exists|scope: int|
                0 <= scope < parts.len() && graph::touches(
                    #[trigger] parts[scope],
                    endpoint as int,
                ),
            ReduceFault::WorkOverflow => self.cannot_count(),
            _ => true,
        }
    }

    /// Parts are refused only for their own edges, the limits, and what cannot be counted.
    pub proof fn lemma_refuses_parts(
        self,
        after: ScopeCollectors,
        parts: Seq<Seq<Edge>>,
        fault: PipelineFault,
    )
        requires
            self.refuses_parts(after, parts, fault),
        ensures
            after.is_part_fault(parts, fault),
    {
        let (before, scope) = choose|before: ScopeCollectors, scope: int| #[trigger]
            before.refuses(after, scope, parts[scope], fault) && before.takes_parts(
                self,
                parts,
                scope,
            ) && after.continues(before) && 0 <= scope < self.scopes() && parts[scope].len() > 0;
        let edges = parts[scope];
        let slot = before.next_slot(scope);
        let counted = before.counts_degrees(slot);
        let rules = before.limits();
        let count = edges.len() as int;
        before.lemma_next_slot(scope);
        assert(rules.holds(before.states()[slot]));
        rules.lemma_batch_faults(before.states()[slot], edges, counted, count);
        if let Ok(state) = rules.pushed_batch(before.states()[slot], edges, counted, count) {
            let states = before.states().update(slot, state);
            let own = fault->Reduce_0;
            assert forall|at: int| 0 <= at < states.len() implies rules.holds(
                #[trigger] states[at],
            ) by {
                assert(rules.holds(before.states()[at]));
            }
            if exists|at: int|
                {
                    &&& 0 <= at < states.len()
                    &&& rules.compacted_shared(#[trigger] states[at]) == Err::<
                        CollectorState,
                        ReduceFault,
                    >(own)
                } {
                let at = choose|at: int|
                    {
                        &&& 0 <= at < states.len()
                        &&& rules.compacted_shared(#[trigger] states[at]) == Err::<
                            CollectorState,
                            ReduceFault,
                        >(own)
                    };
                rules.lemma_compact_faults(states[at]);
            } else if charge_sum(after.charges(), after.charges().len() as int) <= u64::MAX {
                let at = choose|at: int|
                    {
                        &&& 0 <= at < states.len()
                        &&& rules.compacted_shared(#[trigger] states[at]) is Ok
                        &&& !can_spill(
                            before.asides()[at],
                            rules.compacted_shared(states[at])->Ok_0.runs,
                        )
                    };
                rules.lemma_compact_faults(states[at]);
                assert(after.asides()[at] >= before.asides()[at]);
            }
        }
    }

    proof fn lemma_next_slot(self, scope: int)
        requires
            self.wf(),
            0 <= scope < self.scopes(),
        ensures
            0 <= self.next_slot(scope) < self.states().len(),
    {
        assert(0 <= self.next_shard@[scope] % self.shards_per_scope < self.shards_per_scope);
    }

    /// Every collector holds what its limits allow.
    pub open spec fn are_held(self) -> bool {
        forall|slot: int|
            0 <= slot < self.states().len() ==> self.limits().holds(#[trigger] self.states()[slot])
    }

    /// No run that was put aside has a loop, and none leaves the nodes.
    pub open spec fn are_asides_proper(self) -> bool {
        forall|slot: int|
            0 <= slot < self.states().len() ==> are_proper_runs(
                #[trigger] self.aside(slot),
                self.nodes(),
            )
    }

    /// Collectors that were not stopped are over their nodes.
    pub proof fn lemma_nodes(self)
        requires
            self.wf(),
            !self.is_cancelled(),
        ensures
            self.limits().node_count == self.nodes(),
    {
    }

    /// Every collector is charged for what it holds, and the charges can be counted.
    pub open spec fn is_accounted(self) -> bool {
        &&& self.charges().len() == self.states().len()
        &&& forall|slot: int|
            0 <= slot < self.states().len() ==> is_charge(
                #[trigger] self.charges()[slot],
                self.states()[slot],
            )
        &&& charge_sum(self.charges(), self.charges().len() as int) <= u64::MAX
    }

    /// The charges keep to the limit, or no collector holds a run.
    pub open spec fn keeps_limit(self) -> bool {
        self.is_over_limit() ==> forall|slot: int|
            0 <= slot < self.states().len() ==> (#[trigger] self.states()[slot]).runs.len() == 0
    }

    /// The limits of a collector.
    pub closed spec fn rules(self, slot: int) -> CollectorRules {
        self.collectors@[slot].limits()
    }

    /// What a collector holds.
    pub closed spec fn state(self, slot: int) -> CollectorState {
        self.collectors@[slot].state()
    }

    /// What a collector comes to when its buffer is flushed.
    pub open spec fn flush_of(self, slot: int) -> Result<CollectorState, ReduceFault> {
        self.limits().flushed_shared(self.states()[slot])
    }

    /// What a collector comes to when it is merged.
    pub open spec fn compact_of(self, slot: int) -> Result<CollectorState, ReduceFault> {
        self.rules(slot).compacted_shared(self.state(slot))
    }

    /// The collector was merged, and nothing of it put aside.
    closed spec fn is_merged_slot(self, before: ScopeCollectors, slot: int) -> bool {
        &&& before.compact_of(slot) is Ok
        &&& self.state(slot) == before.compact_of(slot)->Ok_0
        &&& self.rules(slot) == before.rules(slot)
        &&& self.spills@[slot] == before.spills@[slot]
    }

    /// The collector was merged, and its runs put aside.
    closed spec fn is_spilled_slot(self, before: ScopeCollectors, slot: int) -> bool {
        &&& before.compact_of(slot) is Ok
        &&& self.state(slot) == drained(before.compact_of(slot)->Ok_0)
        &&& self.rules(slot) == before.rules(slot)
        &&& puts_aside(
            self.spills@[slot]@,
            before.spills@[slot]@,
            before.compact_of(slot)->Ok_0.runs,
            before.node_count,
        )
    }

    /// The merged runs of the collector can be put aside.
    closed spec fn can_put_aside(self, slot: int) -> bool {
        can_spill(self.spills@[slot]@.len(), self.compact_of(slot)->Ok_0.runs)
    }

    /// Every collector is charged for what it holds.
    spec fn is_measured(self) -> bool {
        forall|slot: int|
            0 <= slot < self.collectors@.len() ==> is_charge(
                #[trigger] self.retained@[slot],
                self.state(slot),
            )
    }

    /// All collectors were merged and keep to the limit, or were merged and their runs put aside.
    closed spec fn is_settled(self, before: ScopeCollectors) -> bool {
        &&& self.is_measured()
        &&& {
            ||| self.total_retained <= self.max_retained_bytes && forall|slot: int|
                0 <= slot < before.collectors@.len() ==> #[trigger] self.is_merged_slot(
                    before,
                    slot,
                )
            ||| forall|slot: int|
                0 <= slot < before.collectors@.len() ==> #[trigger] self.is_spilled_slot(
                    before,
                    slot,
                )
        }
    }

    /// Why keeping to the limit fails: the first collector that cannot be merged says so, or
    /// runs cannot be put aside, or the charges cannot be counted.
    closed spec fn is_compact_fault(self, after: ScopeCollectors, fault: ReduceFault) -> bool {
        ||| exists|slot: int|
            {
                &&& 0 <= slot < self.collectors@.len()
                &&& #[trigger] self.compact_of(slot) == Err::<CollectorState, ReduceFault>(fault)
                &&& forall|k: int| 0 <= k < slot ==> #[trigger] self.compact_of(k) is Ok
            }
        ||| {
            &&& fault == ReduceFault::WorkOverflow
            &&& forall|k: int|
                0 <= k < self.collectors@.len() ==> #[trigger] self.compact_of(k) is Ok
            &&& charge_sum(after.retained@, after.retained@.len() as int) > u64::MAX || exists|
                slot: int,
            |
                0 <= slot < self.collectors@.len() && !#[trigger] self.can_put_aside(slot)
        }
    }

    /// Taking in `states` came to what the limit allows: they are kept as they are, or merged,
    /// or merged and their runs put aside.
    pub open spec fn settles(self, before: ScopeCollectors, states: Seq<CollectorState>) -> bool {
        ||| {
            &&& self.states() == states
            &&& self.asides() == before.asides()
            &&& !self.is_over_limit()
        }
        ||| {
            &&& self.states().len() == states.len()
            &&& self.asides() == before.asides()
            &&& !self.is_over_limit()
            &&& forall|slot: int|
                0 <= slot < states.len() ==> before.limits().compacted_shared(states[slot]) == Ok::<
                    CollectorState,
                    ReduceFault,
                >(#[trigger] self.states()[slot])
        }
        ||| {
            &&& self.states().len() == states.len()
            &&& self.asides().len() == states.len()
            &&& forall|slot: int|
                0 <= slot < states.len() ==> is_set_aside(
                    before.limits().compacted_shared(states[slot]),
                    #[trigger] self.states()[slot],
                    before.asides()[slot],
                    self.asides()[slot],
                )
        }
    }

    /// Why `states` cannot be kept within the limit: the first collector that cannot be merged
    /// says so, or merged runs cannot be put aside, or the charges cannot be counted.
    pub open spec fn is_limit_fault(
        self,
        after: ScopeCollectors,
        states: Seq<CollectorState>,
        fault: ReduceFault,
    ) -> bool {
        &&& after.is_over_limit()
        &&& after.charges().len() == states.len()
        &&& after.asides().len() == states.len()
        &&& forall|slot: int|
            0 <= slot < states.len() ==> #[trigger] after.asides()[slot] >= self.asides()[slot]
        &&& forall|slot: int|
            0 <= slot < states.len() ==> is_settling_charge(
                self.limits(),
                #[trigger] after.charges()[slot],
                states[slot],
            )
        &&& {
            ||| exists|slot: int|
                {
                    &&& 0 <= slot < states.len()
                    &&& self.limits().compacted_shared(#[trigger] states[slot]) == Err::<
                        CollectorState,
                        ReduceFault,
                    >(fault)
                    &&& forall|k: int|
                        0 <= k < slot ==> self.limits().compacted_shared(#[trigger] states[k]) is Ok
                }
            ||| {
                &&& fault == ReduceFault::WorkOverflow
                &&& charge_sum(after.charges(), after.charges().len() as int) > u64::MAX || exists|
                    slot: int,
                |
                    {
                        &&& 0 <= slot < states.len()
                        &&& self.limits().compacted_shared(#[trigger] states[slot]) is Ok
                        &&& !can_spill(
                            self.asides()[slot],
                            self.limits().compacted_shared(states[slot])->Ok_0.runs,
                        )
                    }
            }
        }
    }

    /// The number of collectors.
    pub open spec fn collector_count(self) -> nat {
        self.states().len()
    }

    /// The runs that a collector has put aside.
    pub closed spec fn aside(self, slot: int) -> Seq<ForestRunStorage> {
        self.spills@[slot]@
    }

    /// The bytes of finished runs that may stay in memory.
    pub closed spec fn forest_limit(self) -> u64 {
        self.resident_forest_limit
    }

    /// The number of collectors of a scope.
    pub closed spec fn shards(self) -> int {
        self.shards_per_scope as int
    }

    /// The finished runs of a collector can be put aside.
    pub open spec fn can_store(self, slot: int) -> bool {
        can_spill(self.aside(slot).len(), self.flush_of(slot)->Ok_0.runs)
    }

    /// Every collector can be flushed, and its runs can be put aside.
    pub open spec fn can_finish(self) -> bool {
        forall|slot: int|
            0 <= slot < self.collector_count() ==> #[trigger] self.flush_of(slot) is Ok
                && self.can_store(slot)
    }

    /// The bytes in memory of the finished runs, with the room that the allocator gave.
    pub open spec fn is_kept_measure(self, parts: Seq<u64>) -> bool {
        &&& parts.len() == self.collector_count()
        &&& forall|slot: int|
            0 <= slot < parts.len() ==> is_run_measure(
                #[trigger] parts[slot],
                self.flush_of(slot)->Ok_0.runs,
            )
    }

    /// The finished runs exceed what may stay in memory, or do not.
    pub open spec fn exceeds_forest_limit(self, over: bool) -> bool {
        exists|parts: Seq<u64>| #[trigger]
            self.is_kept_measure(parts) && over == (saturating_total(parts) > self.forest_limit())
    }

    /// What a collector's runs come out as: what was aside, and behind it the finished runs, in
    /// their stored form or in memory as they are.
    pub open spec fn is_output(self, out: Seq<ForestRunStorage>, slot: int, stored: bool) -> bool {
        let runs = self.flush_of(slot)->Ok_0.runs;
        if stored {
            puts_aside(out, self.aside(slot), runs, self.nodes())
        } else {
            stays_resident(out, self.aside(slot), runs, self.nodes())
        }
    }

    /// The forests of every scope are what its collectors' runs come out as, in order.
    pub open spec fn finishes_as(
        self,
        runs: ScopeForestRuns,
        outs: Seq<Seq<ForestRunStorage>>,
        stored: bool,
    ) -> bool {
        &&& outs.len() == self.collector_count()
        &&& forall|slot: int|
            0 <= slot < outs.len() ==> self.is_output(#[trigger] outs[slot], slot, stored)
        &&& forall|scope: int|
            0 <= scope < self.scopes() ==> #[trigger] runs.scope(scope) == joined_runs(
                outs,
                self.first_slot(scope),
                self.first_slot(scope) + self.shards(),
            )
    }

    /// The finished runs exceed what may stay in memory and come out in their stored form, or
    /// do not and stay there.
    pub open spec fn finishes(self, runs: ScopeForestRuns, stored: bool) -> bool {
        &&& self.exceeds_forest_limit(stored)
        &&& exists|outs: Seq<Seq<ForestRunStorage>>| #[trigger]
            self.finishes_as(runs, outs, stored)
    }

    /// Why finishing fails: the first collector that cannot be flushed says so, or the finished
    /// runs exceed what may stay in memory and those of a collector cannot be put aside.
    pub open spec fn is_finish_fault(self, fault: PipelineFault) -> bool {
        ||| exists|slot: int|
            {
                &&& 0 <= slot < self.collector_count()
                &&& (#[trigger] self.flush_of(slot) matches Err(own) && fault
                    == PipelineFault::Reduce(own))
                &&& forall|k: int| 0 <= k < slot ==> #[trigger] self.flush_of(k) is Ok
            }
        ||| {
            &&& fault == PipelineFault::Reduce(ReduceFault::WorkOverflow)
            &&& forall|k: int| 0 <= k < self.collector_count() ==> #[trigger] self.flush_of(k) is Ok
            &&& self.exceeds_forest_limit(true)
            &&& exists|slot: int|
                0 <= slot < self.collector_count() && !#[trigger] self.can_store(slot)
        }
    }

    /// Scratch of a collector counts degrees.
    pub closed spec fn counts_degrees(self, slot: int) -> bool {
        self.scratches@[slot % self.scratches@.len() as int].kind()
            == EdgeCollectorScratchKind::Dense
    }

    /// The first collector of a scope.
    pub closed spec fn first_slot(self, scope: int) -> int {
        if self.shards_per_scope == 1 {
            scope
        } else {
            scope + scope
        }
    }

    /// What each collector holds, with what it has put aside.
    closed spec fn slots(self) -> Seq<Seq<Edge>> {
        Seq::new(
            self.collectors@.len(),
            |slot: int|
                component::storage_edges(self.spills@[slot]@)
                    + self.collectors@[slot].state().contents(),
        )
    }

    /// The edges that a scope's collectors hold.
    pub closed spec fn held(self, scope: int) -> Seq<Edge> {
        joined(
            self.slots(),
            self.first_slot(scope),
            self.first_slot(scope) + self.shards_per_scope,
        )
    }

    closed spec fn is_sized(self) -> bool {
        &&& self.shards_per_scope == 1 || self.shards_per_scope == 2
        &&& self.scope_count >= 2
        &&& self.collectors@.len() == self.first_slot(self.scope_count as int)
        &&& self.spills@.len() == self.collectors@.len()
        &&& self.retained@.len() == self.collectors@.len()
        &&& self.next_shard@.len() == self.scope_count
        &&& self.submitted@.len() == self.scope_count
        &&& self.scratches@.len() >= 1
    }

    closed spec fn is_sound(self) -> bool {
        &&& self.is_sized()
        &&& forall|w: int|
            0 <= w < self.scratches@.len() ==> {
                &&& (#[trigger] self.scratches@[w]).wf()
                &&& self.scratches@[w].counts(Seq::empty())
                &&& self.scratches@[w].nodes() == self.node_count
            }
        &&& forall|slot: int|
            0 <= slot < self.collectors@.len() ==> (#[trigger] self.collectors@[slot]).wf_shared()
                && self.collectors@[slot].limits() == self.collector_rules
        &&& self.collector_rules.node_count == self.node_count
        &&& forall|slot: int|
            0 <= slot < self.spills@.len() ==> runs_over(
                (#[trigger] self.spills@[slot])@,
                self.node_count,
            )
    }

    closed spec fn is_charged(self) -> bool {
        self.total_retained == charge_sum(self.retained@, self.retained@.len() as int)
    }

    /// Every scope's collectors connect exactly what was submitted to the scope.
    pub closed spec fn connects(self) -> bool {
        forall|scope: int|
            0 <= scope < self.scope_count ==> graph::same_connectivity(
                #[trigger] self.held(scope),
                self.submitted@[scope],
            )
    }

    /// The collectors are consistent, unless a failure has stopped them.
    pub closed spec fn wf(self) -> bool {
        &&& self.is_sized()
        &&& !self.cancelled ==> {
            &&& self.is_sound()
            &&& self.is_charged()
            &&& self.is_accounted()
            &&& self.keeps_limit()
            &&& self.are_held()
            &&& self.are_asides_proper()
            &&& self.connects()
        }
    }

    /// The same collectors, scopes and limits.
    pub open spec fn continues(self, before: ScopeCollectors) -> bool {
        &&& self.limits() == before.limits()
        &&& self.retained_limit() == before.retained_limit()
        &&& self.continues_scopes(before)
    }

    /// The same scopes, threads and memory for forests.
    pub closed spec fn continues_scopes(self, before: ScopeCollectors) -> bool {
        &&& self.node_count == before.node_count
        &&& self.scope_count == before.scope_count
        &&& self.shards_per_scope == before.shards_per_scope
        &&& self.scorer_lanes == before.scorer_lanes
        &&& self.resident_forest_limit == before.resident_forest_limit
        &&& self.scratches@.len() == before.scratches@.len()
    }

    closed spec fn keeps(self, before: ScopeCollectors) -> bool {
        &&& self.continues(before)
        &&& self.collectors@.len() == before.collectors@.len()
        &&& self.spills@.len() == before.spills@.len()
        &&& self.retained@.len() == before.retained@.len()
        &&& self.next_shard == before.next_shard
        &&& self.accepted == before.accepted
        &&& self.cancelled == before.cancelled
        &&& self.submitted == before.submitted
    }

    closed spec fn holds_same(self, before: ScopeCollectors) -> bool {
        forall|slot: int|
            0 <= slot < self.collectors@.len() ==> graph::same_connectivity(
                #[trigger] self.slots()[slot],
                before.slots()[slot],
            )
    }

    proof fn lemma_same_connects(self, before: ScopeCollectors)
        requires
            self.is_sized(),
            self.keeps(before),
            self.holds_same(before),
            before.connects(),
        ensures
            self.connects(),
    {
        assert forall|scope: int| 0 <= scope < self.scope_count implies graph::same_connectivity(
            #[trigger] self.held(scope),
            self.submitted@[scope],
        ) by {
            let begin = self.first_slot(scope);
            let end = begin + self.shards_per_scope;
            assert forall|i: int| begin <= i < end implies graph::same_connectivity(
                #[trigger] self.slots()[i],
                before.slots()[i],
            ) by {}
            lemma_joined_same(self.slots(), before.slots(), begin, end);
            assert(graph::same_connectivity(before.held(scope), before.submitted@[scope]));
            lemma_same_transitive(self.held(scope), before.held(scope), self.submitted@[scope]);
        }
    }

    /// The collectors of a plan: two scopes and one for each pair of chains, each with its
    /// shards, and a scratch for each thread that collects.
    #[verifier::loop_isolation(false)]
    pub fn new(
        node_count: u32,
        chain_pair_count: usize,
        budget: EdgeBudget,
        max_retained_bytes: u64,
        plan: &ScopeCollectorMemoryPlan,
    ) -> (result: Result<ScopeCollectors, PipelineError>)
        requires
            chain_pair_count * 2 + 4 <= usize::MAX,
            plan.scorer_lanes + plan.active_sink_workers <= usize::MAX,
        ensures
            ({
                let buffer = if budget.max_buffer_bytes < plan.max_buffer_bytes {
                    budget.max_buffer_bytes
                } else {
                    plan.max_buffer_bytes
                };
                let fits = buffer / forest::EDGE_BYTES <= usize::MAX
                    && plan.primary_scratch_touched_nodes <= usize::MAX && (
                plan.active_sink_workers <= 1 || plan.worker_scratch_touched_nodes <= usize::MAX);
                &&& !fits ==> (result matches Err(e) && e@ == PipelineFault::Reduce(
                    ReduceFault::WorkOverflow,
                ))
                &&& fits ==> (result matches Ok(collectors) && {
                    &&& collectors.wf()
                    &&& !collectors.is_cancelled()
                    &&& collectors.scopes() == chain_pair_count + 2
                    &&& collectors.nodes() == node_count
                    &&& collectors.lanes() == plan.scorer_lanes
                    &&& collectors.accepted() == 0
                    &&& collectors.scratch_count() == if plan.active_sink_workers < 1 {
                        1
                    } else {
                        plan.active_sink_workers as nat
                    }
                    &&& forall|scope: int|
                        0 <= scope < chain_pair_count + 2 ==> (#[trigger] collectors.submitted(
                            scope,
                        )).len() == 0
                    &&& collectors.limits() == (CollectorRules {
                        node_count,
                        budget: (EdgeBudget { max_buffer_bytes: buffer, ..budget }),
                        degree_trigger: COLLECTOR_DEGREE_TRIGGER,
                    })
                    &&& collectors.retained_limit() == max_retained_bytes
                    &&& collectors.is_fresh()
                    &&& collectors.can_finish()
                })
            }),
    {
        let threads: usize = plan.scorer_lanes + plan.active_sink_workers;
        let topology = scope_collector_topology(chain_pair_count, threads);
        let shards_per_scope: usize = topology.2;
        let scope_count: usize = chain_pair_count + 2;
        let collector_count: usize = if shards_per_scope == 1 {
            scope_count
        } else {
            scope_count + scope_count
        };
        let own_budget = EdgeBudget {
            max_buffer_bytes: if budget.max_buffer_bytes < plan.max_buffer_bytes {
                budget.max_buffer_bytes
            } else {
                plan.max_buffer_bytes
            },
            max_run_edges: budget.max_run_edges,
            max_total_bytes: budget.max_total_bytes,
        };
        let collector_rules = CollectorRules {
            node_count,
            budget: own_budget,
            degree_trigger: COLLECTOR_DEGREE_TRIGGER,
        };
        let mut collectors: Vec<EdgeCollector> = Vec::new();
        let mut spills: Vec<Vec<ForestRunStorage>> = Vec::new();
        let mut retained: Vec<u64> = Vec::new();
        let mut slot: usize = 0;
        while slot < collector_count
            invariant
                slot <= collector_count,
                collectors@.len() == slot,
                spills@.len() == slot,
                retained@.len() == slot,
                slot > 0 ==> own_budget.max_buffer_bytes / forest::EDGE_BYTES <= usize::MAX,
                forall|k: int|
                    0 <= k < slot ==> (#[trigger] collectors@[k]).wf_shared()
                        && collectors@[k].limits() == collector_rules && collectors@[k].state()
                        == empty_state(),
                forall|k: int| 0 <= k < slot ==> (#[trigger] spills@[k])@.len() == 0,
                forall|k: int| 0 <= k < slot ==> #[trigger] retained@[k] == 0,
            decreases collector_count - slot,
        {
            match EdgeCollector::new_serial_shared(
                node_count,
                own_budget,
                COLLECTOR_DEGREE_TRIGGER,
            ) {
                Err(error) => {
                    return Err(PipelineError::Reduce(error));
                },
                Ok(collector) => {
                    collectors.push(collector);
                },
            }
            spills.push(Vec::new());
            retained.push(0);
            slot = slot + 1;
        }
        let scratch_count: usize = if plan.active_sink_workers < 1 {
            1
        } else {
            plan.active_sink_workers
        };
        let mut scratches: Vec<EdgeCollectorScratch> = Vec::new();
        let mut worker: usize = 0;
        while worker < scratch_count
            invariant
                worker <= scratch_count,
                scratches@.len() == worker,
                worker > 0 ==> plan.primary_scratch_touched_nodes <= usize::MAX,
                worker > 1 ==> plan.worker_scratch_touched_nodes <= usize::MAX,
                scratch_count == if plan.active_sink_workers < 1 {
                    1
                } else {
                    plan.active_sink_workers as int
                },
                forall|k: int|
                    0 <= k < worker ==> (#[trigger] scratches@[k]).wf() && scratches@[k].counts(
                        Seq::empty(),
                    ) && scratches@[k].nodes() == node_count,
            decreases scratch_count - worker,
        {
            let touched: u64 = if worker == 0 {
                plan.primary_scratch_touched_nodes
            } else {
                plan.worker_scratch_touched_nodes
            };
            match EdgeCollectorScratch::try_new(plan.scratch_kind, node_count, touched) {
                Err(error) => {
                    return Err(PipelineError::Reduce(error));
                },
                Ok(scratch) => {
                    scratches.push(scratch);
                },
            }
            worker = worker + 1;
        }
        let mut next_shard: Vec<usize> = Vec::new();
        let mut scope: usize = 0;
        while scope < scope_count
            invariant
                scope <= scope_count,
                next_shard@.len() == scope,
            decreases scope_count - scope,
        {
            next_shard.push(0);
            scope = scope + 1;
        }
        let ghost submitted: Seq<Seq<Edge>> = Seq::new(
            scope_count as nat,
            |scope: int| Seq::<Edge>::empty(),
        );
        let made = ScopeCollectors {
            node_count,
            scope_count,
            shards_per_scope,
            scorer_lanes: plan.scorer_lanes,
            collector_rules,
            max_retained_bytes,
            resident_forest_limit: plan.edge_bytes,
            collectors,
            scratches,
            spills,
            retained,
            total_retained: 0,
            next_shard,
            accepted: 0,
            cancelled: false,
            submitted: Ghost(submitted),
        };
        proof {
            lemma_zero_charges(made.retained@, made.retained@.len() as int);
            assert forall|slot: int| 0 <= slot < made.states().len() implies made.limits().holds(
                #[trigger] made.states()[slot],
            ) by {
                assert(made.collectors@[slot].state() == empty_state());
            }
            assert forall|slot: int| 0 <= slot < made.states().len() implies is_charge(
                #[trigger] made.charges()[slot],
                made.states()[slot],
            ) by {
                assert(made.retained@[slot] == 0);
                assert(made.collectors@[slot].state() == empty_state());
                assert(made.states()[slot] == empty_state());
                assert(0u64 == collector::saturating_sum(
                    empty_state().compacted_bytes,
                    forest::edge_bytes_of(0usize as nat),
                ));
            }
            assert forall|scope: int| 0 <= scope < made.scope_count implies
                graph::same_connectivity(#[trigger] made.held(scope), made.submitted@[scope]) by {
                let begin = made.first_slot(scope);
                let end = begin + made.shards_per_scope;
                assert forall|i: int| begin <= i < end implies (#[trigger] made.slots()[i]).len()
                    == 0 by {
                    assert(made.spills@[i]@.len() == 0);
                    assert(made.collectors@[i].state() == empty_state());
                    assert(empty_state().contents() =~= Seq::<Edge>::empty());
                }
                lemma_joined_empty(made.slots(), begin, end);
                assert(made.held(scope) =~= Seq::<Edge>::empty());
            }
        }
        Ok(made)
    }

    /// The threads that score.
    pub fn scorer_lanes(&self) -> (lanes: usize)
        ensures
            lanes == self.lanes(),
    {
        self.scorer_lanes
    }

    /// The edges accepted so far.
    pub fn accepted_edges(&self) -> (edges: u64)
        ensures
            edges == self.accepted(),
    {
        self.accepted
    }

    /// Charges a collector with what it keeps now. The result says whether the limit is exceeded.
    fn record_charge(&mut self, slot: usize, bytes: u64) -> (result: Result<bool, ReduceError>)
        requires
            old(self).is_charged(),
            slot < old(self).retained@.len(),
        ensures
            *final(self) == (ScopeCollectors {
                retained: final(self).retained,
                total_retained: final(self).total_retained,
                ..*old(self)
            }),
            final(self).retained@ == old(self).retained@.update(slot as int, bytes),
            match result {
                Ok(over) => final(self).is_charged() && over == final(self).is_over_limit(),
                Err(e) => e@ == ReduceFault::WorkOverflow && charge_sum(
                    final(self).retained@,
                    final(self).retained@.len() as int,
                ) > u64::MAX,
            },
    {
        let previous: u64 = self.retained[slot];
        proof {
            lemma_charge_sum_update(
                self.retained@,
                slot as int,
                bytes,
                self.retained@.len() as int,
            );
            lemma_charge_sum_bounds(self.retained@, slot as int, self.retained@.len() as int);
        }
        self.retained.set(slot, bytes);
        if bytes >= previous {
            match self.total_retained.checked_add(bytes - previous) {
                None => {
                    return Err(ReduceError::WorkOverflow);
                },
                Some(total) => {
                    self.total_retained = total;
                },
            }
        } else {
            self.total_retained = self.total_retained - (previous - bytes);
        }
        Ok(self.total_retained > self.max_retained_bytes)
    }

    /// Merges what a collector holds.
    fn compact_slot(&mut self, slot: usize) -> (result: Result<(), ReduceError>)
        requires
            old(self).is_sound(),
            slot < old(self).collectors@.len(),
        ensures
            final(self).keeps(*old(self)),
            final(self).retained == old(self).retained,
            final(self).total_retained == old(self).total_retained,
            final(self).spills == old(self).spills,
            forall|k: int|
                0 <= k < old(self).collectors@.len() && k != slot
                    ==> #[trigger] final(self).collectors@[k] == old(self).collectors@[k],
            match old(self).compact_of(slot as int) {
                Ok(state) => {
                    &&& result is Ok
                    &&& final(self).state(slot as int) == state
                    &&& final(self).rules(slot as int) == old(self).rules(slot as int)
                },
                Err(fault) => result matches Err(e) && e@ == fault,
            },
            result is Ok ==> final(self).is_sound() && final(self).holds_same(*old(self)),
    {
        let ghost before = *self;
        proof {
            if before.rules(slot as int).compacted_shared(before.state(slot as int)) is Ok {
                collector::lemma_compacted_shared_connectivity(
                    before.rules(slot as int),
                    before.state(slot as int),
                );
            }
        }
        match self.collectors[slot].compact_retained_shared(&mut self.scratches[0]) {
            Err(error) => Err(error),
            Ok(_) => {
                proof {
                    assert forall|k: int| 0 <= k < self.collectors@.len() implies
                        graph::same_connectivity(#[trigger] self.slots()[k], before.slots()[k]) by {
                        if k == slot {
                            let aside = component::storage_edges(self.spills@[k]@);
                            graph::lemma_concat_connectivity(
                                aside,
                                self.collectors@[k].state().contents(),
                                aside,
                                before.collectors@[k].state().contents(),
                            );
                        } else {
                            assert(self.collectors@[k] == before.collectors@[k]);
                        }
                    }
                }
                Ok(())
            },
        }
    }

    /// Puts runs aside in their stored form.
    #[verifier::loop_isolation(false)]
    fn spill_runs(&mut self, slot: usize, runs: Vec<ForestRun>) -> (result: Result<(), ReduceError>)
        requires
            slot < old(self).spills@.len(),
            collector::runs_within(runs@, old(self).node_count),
            runs_over(old(self).spills@[slot as int]@, old(self).node_count),
        ensures
            final(self).keeps(*old(self)),
            final(self).collectors == old(self).collectors,
            final(self).scratches == old(self).scratches,
            final(self).retained == old(self).retained,
            final(self).total_retained == old(self).total_retained,
            forall|k: int|
                0 <= k < final(self).spills@.len() && k != slot ==> #[trigger] final(self).spills@[k]
                    == old(self).spills@[k],
            result is Ok <==> can_spill(
                old(self).spills@[slot as int]@.len(),
                collector::edges_of(runs@),
            ),
            result is Ok ==> puts_aside(
                final(self).spills@[slot as int]@,
                old(self).spills@[slot as int]@,
                collector::edges_of(runs@),
                old(self).node_count,
            ),
            result is Ok ==> runs_over(final(self).spills@[slot as int]@, old(self).node_count),
            result is Ok ==> graph::same_connectivity(
                component::storage_edges(final(self).spills@[slot as int]@),
                component::storage_edges(old(self).spills@[slot as int]@) + component::run_edges(
                    runs@,
                ),
            ),
            result matches Err(e) ==> e@ == ReduceFault::WorkOverflow,
            final(self).spills@[slot as int]@.len() >= old(self).spills@[slot as int]@.len(),
    {
        let ghost before = *self;
        let ghost start = component::storage_edges(self.spills@[slot as int]@);
        let ghost node_count = self.node_count;
        let ghost plain = collector::edges_of(runs@);
        let ghost first = self.spills@[slot as int]@;
        let mut r: usize = 0;
        proof {
            assert(plain.take(0) =~= Seq::<Seq<Edge>>::empty());
            assert(runs@.take(0) =~= Seq::<ForestRun>::empty());
            assert(start + component::run_edges(runs@.take(0)) =~= start);
        }
        while r < runs.len()
            invariant
                r <= runs@.len(),
                slot < self.spills@.len(),
                node_count == before.node_count,
                collector::runs_within(runs@, node_count),
                self.keeps(before),
                self.collectors == before.collectors,
                self.scratches == before.scratches,
                self.retained == before.retained,
                self.total_retained == before.total_retained,
                forall|k: int|
                    0 <= k < self.spills@.len() && k != slot ==> #[trigger] self.spills@[k]
                        == before.spills@[k],
                runs_over(self.spills@[slot as int]@, node_count),
                can_spill(first.len(), plain.take(r as int)),
                puts_aside(self.spills@[slot as int]@, first, plain.take(r as int), node_count),
                graph::same_connectivity(
                    component::storage_edges(self.spills@[slot as int]@),
                    start + component::run_edges(runs@.take(r as int)),
                ),
            decreases runs.len() - r,
        {
            assert(plain[r as int] == runs@[r as int].edges@);
            if self.spills[slot].len() as u64 >= u32::MAX as u64 {
                return Err(ReduceError::WorkOverflow);
            }
            if (runs[r].edges.len() as u64).checked_mul(8).is_none() {
                return Err(ReduceError::WorkOverflow);
            }
            let ghost aside = self.spills@[slot as int]@;
            let stored = ForestRunStorage::Mapped(MappedForestRun::store(&runs[r]));
            let ghost own = runs@[r as int].edges@;
            assert(runs@[r as int].node_count == node_count);
            proof {
                storage::lemma_stored_edges_connectivity(own);
                lemma_storage_edges_push(aside, stored);
                let taken = runs@.take(r + 1);
                assert(taken.drop_last() =~= runs@.take(r as int));
                graph::lemma_concat_connectivity(
                    component::storage_edges(aside),
                    stored.edges(),
                    start + component::run_edges(runs@.take(r as int)),
                    own,
                );
                assert((start + component::run_edges(runs@.take(r as int))) + own =~= start
                    + component::run_edges(taken));
            }
            self.spills[slot].push(stored);
            assert(self.spills@[slot as int]@ == aside.push(stored));
            assert(is_stored_run(stored, plain[r as int], node_count));
            r = r + 1;
        }
        assert(runs@.take(r as int) =~= runs@);
        assert(plain.take(r as int) =~= plain);
        Ok(())
    }

    /// Puts the finished runs of a collector aside.
    fn spill_slot(&mut self, slot: usize) -> (result: Result<(), ReduceError>)
        requires
            old(self).is_sound(),
            slot < old(self).collectors@.len(),
        ensures
            final(self).keeps(*old(self)),
            final(self).retained == old(self).retained,
            final(self).total_retained == old(self).total_retained,
            forall|k: int|
                0 <= k < old(self).collectors@.len() && k != slot
                    ==> #[trigger] final(self).collectors@[k] == old(self).collectors@[k],
            forall|k: int|
                0 <= k < old(self).spills@.len() && k != slot ==> #[trigger] final(self).spills@[k]
                    == old(self).spills@[k],
            final(self).state(slot as int) == drained(old(self).state(slot as int)),
            final(self).rules(slot as int) == old(self).rules(slot as int),
            result is Ok <==> can_spill(
                old(self).spills@[slot as int]@.len(),
                old(self).state(slot as int).runs,
            ),
            result matches Err(e) ==> e@ == ReduceFault::WorkOverflow,
            final(self).spills@[slot as int]@.len() >= old(self).spills@[slot as int]@.len(),
            result is Ok ==> puts_aside(
                final(self).spills@[slot as int]@,
                old(self).spills@[slot as int]@,
                old(self).state(slot as int).runs,
                old(self).node_count,
            ),
            result is Ok ==> final(self).is_sound() && final(self).holds_same(*old(self)),
    {
        let ghost before = *self;
        let runs = self.collectors[slot].drain_compacted_runs();
        let ghost drained = *self;
        let ghost taken = runs@;
        match self.spill_runs(slot, runs) {
            Err(error) => Err(error),
            Ok(_) => {
                proof {
                    collector::lemma_concatenated_runs(taken);
                    assert forall|k: int| 0 <= k < self.collectors@.len() implies
                        graph::same_connectivity(#[trigger] self.slots()[k], before.slots()[k]) by {
                        if k == slot {
                            let aside = component::storage_edges(before.spills@[k]@);
                            let all = component::run_edges(taken);
                            let buffer = before.collectors@[k].state().buffer;
                            assert(self.collectors@[k].state().contents() =~= buffer);
                            graph::lemma_concat_connectivity(
                                component::storage_edges(self.spills@[k]@),
                                buffer,
                                aside + all,
                                buffer,
                            );
                            assert((aside + all) + buffer =~= aside
                                + before.collectors@[k].state().contents());
                        } else {
                            assert(drained.collectors@[k] == before.collectors@[k]);
                            assert(self.spills@[k] == before.spills@[k]);
                        }
                    }
                    assert forall|k: int| 0 <= k < self.spills@.len() implies runs_over(
                        (#[trigger] self.spills@[k])@,
                        self.node_count,
                    ) by {
                        if k != slot {
                            assert(self.spills@[k] == before.spills@[k]);
                        }
                    }
                }
                Ok(())
            },
        }
    }

    /// Charges what every collector keeps now.
    #[verifier::loop_isolation(false)]
    fn charge_all(&mut self) -> (result: Result<(), ReduceError>)
        requires
            old(self).is_sound(),
        ensures
            final(self).keeps(*old(self)),
            final(self).collectors == old(self).collectors,
            final(self).scratches == old(self).scratches,
            final(self).spills == old(self).spills,
            result is Ok ==> final(self).is_charged() && final(self).is_measured(),
            forall|k: int|
                0 <= k < final(self).retained@.len() ==> #[trigger] final(self).retained@[k] == old(self).retained@[k] || is_charge(final(self).retained@[k], final(self).state(k)),
            result matches Err(e) ==> e@ == ReduceFault::WorkOverflow && charge_sum(
                final(self).retained@,
                final(self).retained@.len() as int,
            ) > u64::MAX,
    {
        let ghost before = *self;
        let mut total: u64 = 0;
        let mut slot: usize = 0;
        while slot < self.collectors.len()
            invariant
                slot <= self.collectors@.len(),
                self.is_sized(),
                self.keeps(before),
                self.collectors == before.collectors,
                self.scratches == before.scratches,
                self.spills == before.spills,
                total == charge_sum(self.retained@, slot as int),
                forall|k: int|
                    0 <= k < slot ==> is_charge(#[trigger] self.retained@[k], self.state(k)),
                forall|k: int|
                    slot <= k < self.retained@.len() ==> #[trigger] self.retained@[k]
                        == before.retained@[k],
            decreases self.collectors.len() - slot,
        {
            let bytes: u64 = self.collectors[slot].retained_bytes();
            proof {
                lemma_charge_sum_update(self.retained@, slot as int, bytes, slot as int);
            }
            self.retained.set(slot, bytes);
            match total.checked_add(bytes) {
                None => {
                    proof {
                        lemma_charge_sum_grows(
                            self.retained@,
                            slot + 1,
                            self.retained@.len() as int,
                        );
                    }
                    return Err(ReduceError::WorkOverflow);
                },
                Some(sum) => {
                    total = sum;
                },
            }
            slot = slot + 1;
        }
        self.total_retained = total;
        Ok(())
    }

    /// Nothing that was put aside is gone.
    spec fn keeps_aside(self, before: ScopeCollectors) -> bool {
        forall|k: int|
            0 <= k < before.spills@.len() ==> (#[trigger] self.spills@[k])@.len()
                >= before.spills@[k]@.len()
    }

    spec fn is_settled_charge(self, bytes: u64, slot: int) -> bool {
        is_settling_charge(self.rules(slot), bytes, self.state(slot))
    }

    /// Merges what the collectors hold where they exceed their limit, and puts it aside where
    /// they still do.
    #[verifier::loop_isolation(false)]
    fn compact_retained_budget(&mut self) -> (result: Result<(), ReduceError>)
        requires
            old(self).is_sound(),
            old(self).is_charged(),
            old(self).is_measured(),
        ensures
            final(self).keeps(*old(self)),
            final(self).keeps_aside(*old(self)),
            result is Err ==> forall|k: int|
                0 <= k < old(self).collectors@.len() ==> old(self).is_settled_charge(
                    #[trigger] final(self).retained@[k],
                    k,
                ),
            result is Ok ==> final(self).is_sound() && final(self).is_charged()
                && final(self).holds_same(*old(self)),
            if old(self).total_retained <= old(self).max_retained_bytes {
                result is Ok && *final(self) == *old(self)
            } else {
                match result {
                    Ok(_) => final(self).is_settled(*old(self)),
                    Err(e) => old(self).is_compact_fault(*final(self), e@)
                        && final(self).is_over_limit(),
                }
            },
    {
        let ghost before = *self;
        if self.total_retained <= self.max_retained_bytes {
            return Ok(());
        }
        let mut slot: usize = 0;
        while slot < self.collectors.len()
            invariant
                slot <= self.collectors@.len(),
                self.is_sound(),
                self.keeps(before),
                self.holds_same(before),
                self.spills == before.spills,
                self.retained == before.retained,
                forall|k: int| 0 <= k < slot ==> #[trigger] self.is_merged_slot(before, k),
                forall|k: int|
                    slot <= k < before.collectors@.len() ==> #[trigger] self.collectors@[k]
                        == before.collectors@[k],
            decreases self.collectors.len() - slot,
        {
            let ghost step = *self;
            assert(step.collectors@[slot as int] == before.collectors@[slot as int]);
            assert(step.compact_of(slot as int) == before.compact_of(slot as int));
            if let Err(error) = self.compact_slot(slot) {
                proof {
                    assert forall|k: int| 0 <= k < slot implies #[trigger] before.compact_of(k) is Ok
                        by {
                        assert(step.is_merged_slot(before, k));
                    }
                    assert forall|k: int| 0 <= k < before.collectors@.len() implies
                        before.is_settled_charge(#[trigger] self.retained@[k], k) by {
                        assert(is_charge(before.retained@[k], before.state(k)));
                    }
                }
                return Err(error);
            }
            proof {
                lemma_same_chain(*self, step, before);
                assert forall|k: int| 0 <= k < slot + 1 implies #[trigger] self.is_merged_slot(
                    before,
                    k,
                ) by {
                    if k < slot {
                        assert(step.is_merged_slot(before, k));
                        assert(self.collectors@[k] == step.collectors@[k]);
                    }
                }
            }
            slot = slot + 1;
        }
        let ghost merged = *self;
        proof {
            assert forall|k: int| 0 <= k < before.collectors@.len() implies
                #[trigger] before.compact_of(k) is Ok by {
                assert(merged.is_merged_slot(before, k));
            }
        }
        if let Err(error) = self.charge_all() {
            proof {
                assert forall|k: int| 0 <= k < before.collectors@.len() implies
                    before.is_settled_charge(#[trigger] self.retained@[k], k) by {
                    assert(merged.is_merged_slot(before, k));
                    assert(is_charge(before.retained@[k], before.state(k)));
                }
            }
            return Err(error);
        }
        proof {
            lemma_same_slots(*self, merged, before);
            assert forall|k: int| 0 <= k < before.collectors@.len() implies
                #[trigger] self.is_merged_slot(before, k) by {
                assert(merged.is_merged_slot(before, k));
            }
        }
        let ghost charged = *self;
        proof {
            assert forall|k: int| 0 <= k < before.collectors@.len() implies
                before.is_settled_charge(#[trigger] charged.retained@[k], k) by {
                assert(charged.is_merged_slot(before, k));
                assert(is_charge(charged.retained@[k], charged.state(k)));
            }
        }
        if self.total_retained > self.max_retained_bytes {
            let mut again: usize = 0;
            while again < self.collectors.len()
                invariant
                    again <= self.collectors@.len(),
                    self.is_sound(),
                    self.keeps(before),
                    self.holds_same(before),
                    self.keeps_aside(before),
                    self.is_over_limit(),
                    self.retained == charged.retained,
                    forall|k: int| 0 <= k < again ==> #[trigger] self.is_spilled_slot(before, k),
                    forall|k: int|
                        again <= k < before.collectors@.len() ==> #[trigger] self.is_merged_slot(
                            before,
                            k,
                        ),
                decreases self.collectors.len() - again,
            {
                let ghost step = *self;
                assert(step.is_merged_slot(before, again as int));
                if let Err(error) = self.spill_slot(again) {
                    assert(!before.can_put_aside(again as int));
                    assert(self.keeps_aside(before)) by {
                        assert forall|k: int| 0 <= k < before.spills@.len() implies (
                        #[trigger] self.spills@[k])@.len() >= before.spills@[k]@.len() by {
                            assert(step.spills@[k]@.len() >= before.spills@[k]@.len());
                        }
                    }
                    return Err(error);
                }
                proof {
                    lemma_same_chain(*self, step, before);
                    assert forall|k: int| 0 <= k < before.spills@.len() implies (
                    #[trigger] self.spills@[k])@.len() >= before.spills@[k]@.len() by {
                        assert(step.spills@[k]@.len() >= before.spills@[k]@.len());
                    }
                    assert forall|k: int| 0 <= k < again + 1 implies #[trigger] self.is_spilled_slot(
                        before,
                        k,
                    ) by {
                        if k < again {
                            assert(step.is_spilled_slot(before, k));
                            assert(self.collectors@[k] == step.collectors@[k]);
                        }
                    }
                    assert forall|k: int| again + 1 <= k < before.collectors@.len() implies
                        #[trigger] self.is_merged_slot(before, k) by {
                        assert(step.is_merged_slot(before, k));
                        assert(self.collectors@[k] == step.collectors@[k]);
                    }
                }
                again = again + 1;
            }
            let ghost aside = *self;
            if let Err(error) = self.charge_all() {
                proof {
                    assert forall|k: int| 0 <= k < before.collectors@.len() implies
                        before.is_settled_charge(#[trigger] self.retained@[k], k) by {
                        assert(aside.is_spilled_slot(before, k));
                        assert(before.is_settled_charge(charged.retained@[k], k));
                    }
                }
                return Err(error);
            }
            proof {
                lemma_same_slots(*self, aside, before);
                assert forall|k: int| 0 <= k < before.collectors@.len() implies
                    #[trigger] self.is_spilled_slot(before, k) by {
                    assert(aside.is_spilled_slot(before, k));
                }
            }
        }
        Ok(())
    }

    proof fn lemma_limit_fault(
        self,
        after: ScopeCollectors,
        before: ScopeCollectors,
        fault: ReduceFault,
    )
        requires
            self.is_sound(),
            self.is_compact_fault(after, fault),
            after.is_over_limit(),
            after.retained@.len() == self.collectors@.len(),
            after.spills@.len() == self.collectors@.len(),
            after.keeps_aside(self),
            forall|k: int|
                0 <= k < self.collectors@.len() ==> self.is_settled_charge(
                    #[trigger] after.retained@[k],
                    k,
                ),
            self.limits() == before.limits(),
            self.asides() == before.asides(),
        ensures
            before.is_limit_fault(after, self.states(), fault),
    {
        let states = self.states();
        assert forall|slot: int| 0 <= slot < states.len() implies #[trigger] after.asides()[slot]
            >= before.asides()[slot] by {
            assert(self.asides()[slot] == self.spills@[slot]@.len());
            assert(after.spills@[slot]@.len() >= self.spills@[slot]@.len());
        }
        assert forall|slot: int| 0 <= slot < states.len() implies is_settling_charge(
            before.limits(),
            #[trigger] after.charges()[slot],
            states[slot],
        ) by {
            assert(self.is_settled_charge(after.retained@[slot], slot));
            assert(self.collectors@[slot].limits() == self.collector_rules);
        }
        assert forall|k: int| 0 <= k < states.len() implies self.compact_of(k)
            == before.limits().compacted_shared(#[trigger] states[k]) by {
            assert(self.collectors@[k].limits() == self.collector_rules);
        }
        if exists|slot: int|
            {
                &&& 0 <= slot < self.collectors@.len()
                &&& #[trigger] self.compact_of(slot) == Err::<CollectorState, ReduceFault>(fault)
                &&& forall|k: int| 0 <= k < slot ==> #[trigger] self.compact_of(k) is Ok
            } {
            let slot = choose|slot: int|
                {
                    &&& 0 <= slot < self.collectors@.len()
                    &&& #[trigger] self.compact_of(slot) == Err::<CollectorState, ReduceFault>(
                        fault,
                    )
                    &&& forall|k: int| 0 <= k < slot ==> #[trigger] self.compact_of(k) is Ok
                };
            assert(before.limits().compacted_shared(states[slot]) == Err::<
                CollectorState,
                ReduceFault,
            >(fault));
            assert forall|k: int| 0 <= k < slot implies before.limits().compacted_shared(
                #[trigger] states[k],
            ) is Ok by {
                assert(self.compact_of(k) is Ok);
            }
        } else if charge_sum(after.retained@, after.retained@.len() as int) <= u64::MAX {
            let slot = choose|slot: int|
                0 <= slot < self.collectors@.len() && !#[trigger] self.can_put_aside(slot);
            assert(self.compact_of(slot) is Ok);
            assert(before.limits().compacted_shared(states[slot]) is Ok);
            assert(self.asides()[slot] == self.spills@[slot]@.len());
        }
    }

    proof fn lemma_settles(self, charged: ScopeCollectors, before: ScopeCollectors)
        requires
            charged.is_sound(),
            self.is_charged(),
            self.keeps(charged),
            self.is_sized(),
            self.is_settled(charged),
            charged.limits() == before.limits(),
            charged.asides() == before.asides(),
            charged.are_held(),
            charged.are_asides_proper(),
        ensures
            self.settles(before, charged.states()),
            self.is_accounted(),
            self.keeps_limit(),
            self.are_held(),
            self.are_asides_proper(),
    {
        let states = charged.states();
        assert forall|slot: int| 0 <= slot < self.states().len() implies are_proper_runs(
            #[trigger] self.aside(slot),
            self.nodes(),
        ) by {
            assert(charged.limits().holds(states[slot]));
            charged.limits().lemma_compact_faults(states[slot]);
            assert(charged.collectors@[slot].limits() == charged.collector_rules);
            assert(are_proper_runs(charged.aside(slot), charged.nodes()));
            assert(self.is_merged_slot(charged, slot) || self.is_spilled_slot(charged, slot));
            if self.is_spilled_slot(charged, slot) {
                lemma_puts_aside_proper(
                    self.aside(slot),
                    charged.aside(slot),
                    charged.compact_of(slot)->Ok_0.runs,
                    charged.node_count,
                );
            }
        }
        assert forall|slot: int| 0 <= slot < self.states().len() implies self.limits().holds(
            #[trigger] self.states()[slot],
        ) by {
            assert(charged.limits().holds(states[slot]));
            charged.limits().lemma_compact_faults(states[slot]);
            assert(charged.collectors@[slot].limits() == charged.collector_rules);
            assert(self.is_merged_slot(charged, slot) || self.is_spilled_slot(charged, slot));
        }
        assert forall|k: int| 0 <= k < states.len() implies charged.compact_of(k)
            == before.limits().compacted_shared(#[trigger] states[k]) by {
            assert(charged.collectors@[k].limits() == charged.collector_rules);
        }
        assert forall|slot: int| 0 <= slot < self.states().len() implies is_charge(
            #[trigger] self.charges()[slot],
            self.states()[slot],
        ) by {
            assert(is_charge(self.retained@[slot], self.state(slot)));
        }
        if self.total_retained <= self.max_retained_bytes && forall|slot: int|
            0 <= slot < charged.collectors@.len() ==> #[trigger] self.is_merged_slot(
                charged,
                slot,
            ) {
            assert forall|slot: int| 0 <= slot < states.len() implies
                before.limits().compacted_shared(states[slot]) == Ok::<CollectorState, ReduceFault>(
                #[trigger] self.states()[slot],
            ) by {
                assert(self.is_merged_slot(charged, slot));
                assert(charged.compact_of(slot) == before.limits().compacted_shared(states[slot]));
            }
            assert forall|slot: int| 0 <= slot < self.spills@.len() implies
                #[trigger] self.asides()[slot] == before.asides()[slot] by {
                assert(self.is_merged_slot(charged, slot));
                assert(charged.asides()[slot] == charged.spills@[slot]@.len());
            }
            assert(self.asides() =~= before.asides());
        } else {
            assert forall|slot: int| 0 <= slot < states.len() implies is_set_aside(
                before.limits().compacted_shared(states[slot]),
                #[trigger] self.states()[slot],
                before.asides()[slot],
                self.asides()[slot],
            ) by {
                assert(self.is_spilled_slot(charged, slot));
                assert(charged.compact_of(slot) == before.limits().compacted_shared(states[slot]));
                assert(charged.asides()[slot] == charged.spills@[slot]@.len());
            }
            assert forall|slot: int| 0 <= slot < self.states().len() implies (
            #[trigger] self.states()[slot]).runs.len() == 0 by {
                assert(self.is_spilled_slot(charged, slot));
            }
        }
    }

    /// Submits edges to a scope: its collectors take batches in turn. Where what all collectors
    /// keep comes to more than they may, it is merged, and put aside where that does not help.
    /// How much room the allocator gave to the buffers is left open, and with it when that
    /// happens; what happens then is not.
    pub fn submit_scope(&mut self, scope: usize, edges: Vec<Edge>) -> (result: Result<
        (),
        PipelineError,
    >)
        requires
            old(self).wf(),
        ensures
            final(self).wf(),
            final(self).continues(*old(self)),
            final(self).accepted() == old(self).accepted(),
            if edges@.len() == 0 {
                result is Ok && *final(self) == *old(self)
            } else if old(self).is_cancelled() {
                *final(self) == *old(self) && (result matches Err(e) && e@
                    == PipelineFault::Parallel("scope collector broker cancelled"@))
            } else if scope >= old(self).scopes() {
                *final(self) == *old(self) && (result matches Err(e) && e@
                    == PipelineFault::Invariant("invalid collector scope"@))
            } else {
                &&& final(self).is_cancelled() <==> result is Err
                &&& result is Ok ==> {
                    &&& final(self).is_accounted()
                    &&& final(self).keeps_limit()
                    &&& final(self).submitted(scope as int) == old(self).submitted(scope as int)
                        + edges@
                    &&& forall|other: int|
                        0 <= other < old(self).scopes() && other != scope ==> #[trigger] final(self).submitted(other) == old(self).submitted(other)
                }
                &&& match result {
                    Ok(_) => {
                        let slot = old(self).next_slot(scope as int);
                        let states = old(self).states();
                        old(self).limits().pushed_batch(
                            states[slot],
                            edges@,
                            old(self).counts_degrees(slot),
                            edges@.len() as int,
                        ) matches Ok(state) && final(self).settles(
                            *old(self),
                            states.update(slot, state),
                        )
                    },
                    Err(e) => old(self).refuses(*final(self), scope as int, edges@, e@),
                }
            },
    {
        if edges.len() == 0 {
            return Ok(());
        }
        if self.cancelled {
            return Err(PipelineError::Parallel("scope collector broker cancelled".to_owned()));
        }
        if scope >= self.scope_count {
            return Err(invariant_error("invalid collector scope"));
        }
        let ghost before = *self;
        let ghost batch = edges@;
        let count: usize = self.collectors.len();
        let turn: usize = self.next_shard[scope];
        self.next_shard.set(
            scope,
            if turn == usize::MAX {
                0
            } else {
                turn + 1
            },
        );
        let shard: usize = turn % self.shards_per_scope;
        let slot: usize = if self.shards_per_scope == 1 {
            scope + shard
        } else {
            scope + scope + shard
        };
        let worker: usize = slot % self.scratches.len();
        if let Err(error) = self.collectors[slot].push_batch_shared(
            edges,
            &mut self.scratches[worker],
        ) {
            self.cancelled = true;
            assert(before.refuses(*self, scope as int, batch, PipelineFault::Reduce(error@)));
            return Err(PipelineError::Reduce(error));
        }
        let ghost pushed = *self;
        proof {
            assert forall|k: int| 0 <= k < pushed.slots().len() && k != slot implies
                #[trigger] pushed.slots()[k] == before.slots()[k] by {
                assert(pushed.collectors@[k] == before.collectors@[k]);
            }
            assert(graph::same_connectivity(
                pushed.slots()[slot as int],
                before.slots()[slot as int] + batch,
            )) by {
                let aside = component::storage_edges(before.spills@[slot as int]@);
                graph::lemma_concat_connectivity(
                    aside,
                    pushed.collectors@[slot as int].state().contents(),
                    aside,
                    before.collectors@[slot as int].state().contents() + batch,
                );
                assert(aside + (before.collectors@[slot as int].state().contents() + batch)
                    =~= before.slots()[slot as int] + batch);
            }
        }
        proof {
            self.submitted@ = before.submitted@.update(
                scope as int,
                before.submitted@[scope as int] + batch,
            );
        }
        assert(self.connects()) by {
            assert forall|s: int| 0 <= s < self.scope_count implies graph::same_connectivity(
                #[trigger] self.held(s),
                self.submitted@[s],
            ) by {
                let begin = self.first_slot(s);
                let end = begin + self.shards_per_scope;
                assert(self.slots() =~= pushed.slots());
                assert(graph::same_connectivity(before.held(s), before.submitted@[s]));
                if s == scope {
                    lemma_joined_grows(
                        self.slots(),
                        before.slots(),
                        begin,
                        end,
                        slot as int,
                        batch,
                    );
                    graph::lemma_concat_connectivity(
                        before.held(s),
                        batch,
                        before.submitted@[s],
                        batch,
                    );
                    lemma_same_transitive(
                        self.held(s),
                        before.held(s) + batch,
                        self.submitted@[s],
                    );
                } else {
                    assert forall|k: int| begin <= k < end implies #[trigger] self.slots()[k]
                        == before.slots()[k] by {
                        assert(pushed.slots()[k] == before.slots()[k]);
                    }
                    lemma_joined_equal(self.slots(), before.slots(), begin, end);
                }
            }
        }
        let ghost settled = *self;
        let bytes: u64 = self.collectors[slot].retained_bytes();
        let over: bool = match self.record_charge(slot, bytes) {
            Err(error) => {
                proof {
                    let states = before.states().update(slot as int, pushed.state(slot as int));
                    assert forall|k: int| 0 <= k < states.len() implies is_settling_charge(
                        before.limits(),
                        #[trigger] self.charges()[k],
                        states[k],
                    ) by {
                        if k != slot {
                            assert(is_charge(before.charges()[k], before.states()[k]));
                        }
                    }
                }
                self.cancelled = true;
                assert(before.refuses(
                    *self,
                    scope as int,
                    batch,
                    PipelineFault::Reduce(error@),
                ));
                return Err(PipelineError::Reduce(error));
            },
            Ok(over) => over,
        };
        let ghost charged = *self;
        assert(charged.connects()) by {
            assert(charged.slots() =~= pushed.slots());
            assert forall|s: int| 0 <= s < charged.scope_count implies graph::same_connectivity(
                #[trigger] charged.held(s),
                charged.submitted@[s],
            ) by {
                assert(charged.held(s) == settled.held(s));
            }
        }
        proof {
            let states = before.states().update(slot as int, pushed.state(slot as int));
            assert(charged.states() =~= states) by {
                assert forall|k: int| 0 <= k < states.len() && k != slot implies
                    charged.states()[k] == #[trigger] states[k] by {
                    assert(pushed.collectors@[k] == before.collectors@[k]);
                }
            }
            assert(charged.asides() =~= before.asides());
            assert forall|k: int| 0 <= k < charged.states().len() implies are_proper_runs(
                #[trigger] charged.aside(k),
                charged.nodes(),
            ) by {
                assert(charged.aside(k) == before.aside(k));
            }
            assert(before.limits().holds(before.states()[slot as int]));
            before.limits().lemma_batch_faults(
                before.states()[slot as int],
                batch,
                before.counts_degrees(slot as int),
                batch.len() as int,
            );
            assert forall|k: int| 0 <= k < charged.states().len() implies charged.limits().holds(
                #[trigger] charged.states()[k],
            ) by {
                if k != slot {
                    assert(before.limits().holds(before.states()[k]));
                }
            }
            assert forall|k: int| 0 <= k < charged.states().len() implies is_charge(
                #[trigger] charged.charges()[k],
                charged.states()[k],
            ) by {
                if k != slot {
                    assert(is_charge(before.charges()[k], before.states()[k]));
                }
            }
        }
        if over {
            if let Err(error) = self.compact_retained_budget() {
                proof {
                    charged.lemma_limit_fault(*self, before, error@);
                }
                self.cancelled = true;
                assert(before.refuses(
                    *self,
                    scope as int,
                    batch,
                    PipelineFault::Reduce(error@),
                ));
                return Err(PipelineError::Reduce(error));
            }
            proof {
                self.lemma_same_connects(charged);
                self.lemma_settles(charged, before);
            }
        }
        Ok(())
    }
}

/// The edges of a batch that belong to a scope.
pub open spec fn scope_part(
    edges: Seq<Edge>,
    chains: Seq<u32>,
    chain_count: int,
    scope: int,
) -> Seq<Edge> {
    if scope == 0 {
        compaction::intra_edges(edges, chains)
    } else if scope == 1 {
        compaction::cross_edges(edges, chains)
    } else {
        compaction::pair_edges(edges, chains, chain_count, scope - 2)
    }
}

/// The edges of a batch, scope by scope.
pub open spec fn chain_parts(
    edges: Seq<Edge>,
    chains: Seq<u32>,
    chain_count: int,
    scopes: int,
) -> Seq<Seq<Edge>> {
    Seq::new(scopes as nat, |scope: int| scope_part(edges, chains, chain_count, scope))
}

/// The compacted edges of a pair of chains.
pub open spec fn pair_part(parts: Seq<(usize, Vec<Edge>)>, pair: int) -> Seq<Edge> {
    if compaction::has_part(parts, pair) {
        parts[choose|k: int| 0 <= k < parts.len() && #[trigger] parts[k].0 == pair].1@
    } else {
        Seq::empty()
    }
}

/// The edges of a compacted batch, scope by scope.
pub open spec fn batch_parts(batch: CompactedCatalogEdges, scopes: int) -> Seq<Seq<Edge>> {
    Seq::new(
        scopes as nat,
        |scope: int|
            if scope == 0 {
                batch.intra@
            } else if scope == 1 {
                batch.cross@
            } else {
                pair_part(batch.chain_pairs@, scope - 2)
            },
    )
}

proof fn lemma_pair_part(parts: Seq<(usize, Vec<Edge>)>, k: int)
    requires
        0 <= k < parts.len(),
        forall|i: int, j: int|
            0 <= i < j < parts.len() ==> (#[trigger] parts[i]).0 < (#[trigger] parts[j]).0,
    ensures
        pair_part(parts, parts[k].0 as int) == parts[k].1@,
{
    let pair = parts[k].0 as int;
    let at = choose|at: int| 0 <= at < parts.len() && #[trigger] parts[at].0 == pair;
    assert(parts[k].0 == pair);
    assert(at == k);
}

/// The scope behind that of the first `count` parts of chain pairs.
spec fn next_scope(parts: Seq<(usize, Vec<Edge>)>, count: int) -> int {
    if count <= 0 {
        2
    } else {
        parts[count - 1].0 + 3
    }
}

/// Scopes without a part take nothing.
proof fn lemma_skips_scopes(
    after: ScopeCollectors,
    before: ScopeCollectors,
    batch: CompactedCatalogEdges,
    k: int,
    scope: int,
)
    requires
        0 <= k <= batch.chain_pairs@.len(),
        forall|i: int, j: int|
            0 <= i < j < batch.chain_pairs@.len() ==> (#[trigger] batch.chain_pairs@[i]).0 < (
            #[trigger] batch.chain_pairs@[j]).0,
        after.takes_parts(
            before,
            batch_parts(batch, before.scopes()),
            next_scope(batch.chain_pairs@, k),
        ),
        next_scope(batch.chain_pairs@, k) <= scope <= before.scopes(),
        k < batch.chain_pairs@.len() ==> scope <= batch.chain_pairs@[k].0 + 2,
    ensures
        after.takes_parts(before, batch_parts(batch, before.scopes()), scope),
{
    let parts = batch.chain_pairs@;
    let shares = batch_parts(batch, before.scopes());
    let next = next_scope(parts, k);
    assert forall|other: int| 0 <= other < before.scopes() implies
        #[trigger] after.submitted(other) == (if other < scope {
        before.submitted(other) + shares[other]
    } else {
        before.submitted(other)
    }) by {
        if next <= other < scope {
            assert(!compaction::has_part(parts, other - 2)) by {
                if compaction::has_part(parts, other - 2) {
                    let i = choose|i: int|
                        0 <= i < parts.len() && #[trigger] parts[i].0 == other - 2;
                    if i < k {
                        assert(i < k - 1 ==> parts[i].0 < parts[k - 1].0);
                    } else if i > k {
                        assert(parts[k].0 < parts[i].0);
                    }
                }
            }
            assert(before.submitted(other) + shares[other] =~= before.submitted(other));
        }
    }
}

/// The batch adds its part to every scope.
pub open spec fn adds_parts(
    after: ScopeCollectors,
    before: ScopeCollectors,
    edges: Seq<Edge>,
    chains: Seq<u32>,
    chain_count: int,
) -> bool {
    forall|scope: int|
        0 <= scope < before.scopes() ==> #[trigger] after.submitted(scope) == before.submitted(
            scope,
        ) + scope_part(edges, chains, chain_count, scope)
}

/// Collectors that continue others have their scopes, nodes and threads.
pub proof fn lemma_continues(after: ScopeCollectors, before: ScopeCollectors)
    requires
        after.continues(before),
    ensures
        after.scopes() == before.scopes(),
        after.nodes() == before.nodes(),
        after.lanes() == before.lanes(),
{
}

/// Continuing is reflexive and transitive.
pub proof fn lemma_continues_on(last: ScopeCollectors, middle: ScopeCollectors, first: ScopeCollectors)
    ensures
        first.continues(first),
        last.continues(middle) && middle.continues(first) ==> last.continues(first),
{
}

/// The batch holds no edge.
pub open spec fn is_empty_batch(batch: CompactedCatalogEdges) -> bool {
    &&& batch.intra@.len() == 0
    &&& batch.cross@.len() == 0
    &&& forall|k: int|
        0 <= k < batch.chain_pairs@.len() ==> (#[trigger] batch.chain_pairs@[k]).1@.len() == 0
}

/// The count grew by `more`, where that fits.
pub open spec fn counts_more(after: u64, before: u64, more: nat) -> bool {
    before + more <= u64::MAX ==> after == before + more
}

impl ScopeCollectors {
    /// Submits the part of a scope, where those of the scopes before it were submitted.
    fn submit_part(
        &mut self,
        scope: usize,
        part: Vec<Edge>,
        Ghost(first): Ghost<ScopeCollectors>,
        Ghost(parts): Ghost<Seq<Seq<Edge>>>,
    ) -> (result: Result<(), PipelineError>)
        requires
            old(self).wf(),
            old(self).continues(first),
            scope < first.scopes(),
            parts.len() == first.scopes(),
            part@ == parts[scope as int],
            old(self).is_cancelled() || old(self).takes_parts(first, parts, scope as int),
        ensures
            final(self).wf(),
            final(self).continues(first),
            final(self).accepted() == old(self).accepted(),
            part@.len() == 0 ==> result is Ok && *final(self) == *old(self),
            if old(self).is_cancelled() {
                *final(self) == *old(self) && (result matches Err(e) ==> e@
                    == PipelineFault::Parallel("scope collector broker cancelled"@)) && (result is Ok
                    ==> part@.len() == 0)
            } else {
                match result {
                    Ok(_) => final(self).takes_parts(first, parts, scope + 1),
                    Err(e) => final(self).is_cancelled() && first.refuses_parts(
                        *final(self),
                        parts,
                        e@,
                    ),
                }
            },
    {
        let ghost step = *self;
        let ghost own = part@;
        let result = self.submit_scope(scope, part);
        proof {
            lemma_continues(step, first);
            lemma_continues_on(*self, step, first);
            if !step.is_cancelled() {
                if result is Ok {
                    assert forall|other: int| 0 <= other < first.scopes() implies
                        #[trigger] self.submitted(other) == (if other < scope + 1 {
                        first.submitted(other) + parts[other]
                    } else {
                        first.submitted(other)
                    }) by {
                        assert(step.submitted(other) == (if other < scope {
                            first.submitted(other) + parts[other]
                        } else {
                            first.submitted(other)
                        }));
                        if own.len() == 0 && other == scope {
                            assert(first.submitted(other) + own =~= first.submitted(other));
                        }
                    }
                } else {
                    assert(step.refuses(
                        *self,
                        scope as int,
                        parts[scope as int],
                        result->Err_0@,
                    ));
                }
            }
        }
        result
    }
}

impl ScopeCollectors {
    /// Submits a batch to the scopes of its edges: those within a chain to the first scope,
    /// the others to the second and to the scope of their pair of chains.
    #[verifier::loop_isolation(false)]
    pub fn push_edges_by_chain(
        &mut self,
        contract_chain: &[u32],
        chain_count: usize,
        edges: &Vec<Edge>,
    ) -> (result: Result<(), PipelineError>)
        requires
            old(self).wf(),
            chain_count * (chain_count - 1) <= usize::MAX,
            compaction::edges_known(edges@, contract_chain@, chain_count as int),
            old(self).scopes() == pairs::all_pairs(chain_count as int).len() + 2,
        ensures
            final(self).wf(),
            final(self).continues(*old(self)),
            edges@.len() == 0 ==> result is Ok,
            edges@.len() > 0 && old(self).is_cancelled() ==> (result matches Err(e) && e@
                == PipelineFault::Parallel("scope collector broker cancelled"@)),
            !old(self).is_cancelled() ==> (final(self).is_cancelled() <==> result is Err),
            old(self).is_cancelled() ==> final(self).is_cancelled(),
            edges@.len() == 0 ==> *final(self) == *old(self),
            !old(self).is_cancelled() ==> (result matches Err(e) ==> old(self).refuses_parts(
                *final(self),
                chain_parts(
                    edges@,
                    contract_chain@,
                    chain_count as int,
                    old(self).scopes(),
                ),
                e@,
            )),
            result is Ok ==> adds_parts(
                *final(self),
                *old(self),
                edges@,
                contract_chain@,
                chain_count as int,
            ),
            result is Ok ==> counts_more(
                final(self).accepted(),
                old(self).accepted(),
                edges@.len(),
            ),
    {
        let ghost chains = contract_chain@;
        let ghost c = chain_count as int;
        let pair_count: usize = self.scope_count - 2;
        let mut intra: Vec<Edge> = Vec::new();
        let mut cross: Vec<Edge> = Vec::new();
        let mut buckets: Vec<Vec<Edge>> = Vec::new();
        let mut p: usize = 0;
        while p < pair_count
            invariant
                p <= pair_count,
                buckets@.len() == p,
                forall|k: int| 0 <= k < p ==> (#[trigger] buckets@[k])@.len() == 0,
            decreases pair_count - p,
        {
            buckets.push(Vec::new());
            p = p + 1;
        }
        let mut i: usize = 0;
        proof {
            assert(edges@.take(0) =~= Seq::<Edge>::empty());
            assert forall|k: int| 0 <= k < pair_count implies (#[trigger] buckets@[k])@
                == compaction::pair_edges(edges@.take(0), chains, c, k) by {
                assert(buckets@[k]@ =~= Seq::<Edge>::empty());
            }
        }
        while i < edges.len()
            invariant
                i <= edges@.len(),
                intra@ == compaction::intra_edges(edges@.take(i as int), chains),
                cross@ == compaction::cross_edges(edges@.take(i as int), chains),
                buckets@.len() == pair_count,
                forall|k: int|
                    0 <= k < pair_count ==> (#[trigger] buckets@[k])@ == compaction::pair_edges(
                        edges@.take(i as int),
                        chains,
                        c,
                        k,
                    ),
            decreases edges.len() - i,
        {
            let edge: Edge = edges[i];
            assert(edges@[i as int] == edge);
            let left: u32 = contract_chain[edge.left as usize];
            let right: u32 = contract_chain[edge.right as usize];
            proof {
                assert(edges@.take(i + 1).drop_last() =~= edges@.take(i as int));
                assert(edges@.take(i + 1).last() == edge);
            }
            if left == right {
                intra.push(edge);
            } else {
                cross.push(edge);
                let pair: usize = chain_pair_index(left as usize, right as usize, chain_count);
                buckets[pair].push(edge);
            }
            i = i + 1;
        }
        assert(edges@.take(i as int) =~= edges@);
        let ghost before = *self;
        proof {
            lemma_some_part(edges@, chains);
        }
        let ghost parts = chain_parts(edges@, chains, c, before.scopes());
        proof {
            lemma_continues_on(before, before, before);
        }
        self.submit_part(0, intra, Ghost(before), Ghost(parts))?;
        self.submit_part(1, cross, Ghost(before), Ghost(parts))?;
        let mut q: usize = 0;
        while q < pair_count
            invariant
                q <= pair_count,
                buckets@.len() == pair_count,
                forall|k: int|
                    q <= k < pair_count ==> (#[trigger] buckets@[k])@ == compaction::pair_edges(
                        edges@,
                        chains,
                        c,
                        k,
                    ),
                self.wf(),
                self.continues(before),
                self.accepted() == before.accepted(),
                self.is_cancelled() == before.is_cancelled(),
                edges@.len() > 0 ==> !before.is_cancelled(),
                edges@.len() == 0 ==> *self == before,
                !before.is_cancelled() ==> self.takes_parts(before, parts, q + 2),
            decreases pair_count - q,
        {
            let mut part: Vec<Edge> = Vec::new();
            std::mem::swap(&mut part, &mut buckets[q]);
            assert(part@ == compaction::pair_edges(edges@, chains, c, q as int));
            proof {
                compaction::lemma_picked_len(
                    edges@,
                    |edge: Edge|
                        !compaction::is_intra(chains, edge) && compaction::pair_of(chains, c, edge)
                            == q,
                );
            }
            self.submit_part(q + 2, part, Ghost(before), Ghost(parts))?;
            q = q + 1;
        }
        proof {
            let after = *self;
            assert forall|scope: int| 0 <= scope < before.scopes() implies
                #[trigger] after.submitted(scope) == before.submitted(scope) + scope_part(
                edges@,
                chains,
                c,
                scope,
            ) by {
                if before.is_cancelled() {
                    assert(before.submitted(scope) + scope_part(edges@, chains, c, scope)
                        =~= before.submitted(scope));
                } else {
                    assert(parts[scope] == scope_part(edges@, chains, c, scope));
                }
            }
        }
        let total: u64 = match self.accepted.checked_add(edges.len() as u64) {
            Some(total) => total,
            None => u64::MAX,
        };
        let ghost done = *self;
        self.accepted = total;
        proof {
            done.lemma_accepts(*self);
        }
        Ok(())
    }

    proof fn lemma_accepts(self, after: ScopeCollectors)
        requires
            self.wf(),
            after == (ScopeCollectors { accepted: after.accepted, ..self }),
        ensures
            after.wf(),
            after.continues(self),
            forall|scope: int| #[trigger] after.submitted(scope) == self.submitted(scope),
    {
        assert(after.slots() =~= self.slots());
        if !after.cancelled {
            assert forall|slot: int| 0 <= slot < after.states().len() implies are_proper_runs(
                #[trigger] after.aside(slot),
                after.nodes(),
            ) by {
                assert(are_proper_runs(self.aside(slot), self.nodes()));
            }
            assert forall|scope: int| 0 <= scope < after.scope_count implies
                graph::same_connectivity(#[trigger] after.held(scope), after.submitted@[scope]) by {
                assert(after.held(scope) == self.held(scope));
            }
        }
    }

    /// Submits a compacted batch.
    #[verifier::loop_isolation(false)]
    pub fn submit_compacted_catalog_batch(&mut self, batch: CompactedCatalogEdges) -> (result: Result<
        (),
        PipelineError,
    >)
        requires
            old(self).wf(),
            forall|i: int, j: int|
                0 <= i < j < batch.chain_pairs@.len() ==> (#[trigger] batch.chain_pairs@[i]).0 < (
                #[trigger] batch.chain_pairs@[j]).0,
            forall|k: int|
                0 <= k < batch.chain_pairs@.len() ==> (#[trigger] batch.chain_pairs@[k]).0 + 2
                    < old(self).scopes(),
        ensures
            final(self).wf(),
            final(self).continues(*old(self)),
            !old(self).is_cancelled() ==> (final(self).is_cancelled() <==> result is Err),
            old(self).is_cancelled() ==> final(self).is_cancelled(),
            is_empty_batch(batch) ==> result is Ok,
            is_empty_batch(batch) && batch.accepted_edges == 0 ==> *final(self) == *old(self),
            !old(self).is_cancelled() ==> (result matches Err(e) ==> old(self).refuses_parts(
                *final(self),
                batch_parts(batch, old(self).scopes()),
                e@,
            )),
            old(self).is_cancelled() ==> (result matches Err(e) ==> e@ == PipelineFault::Parallel(
                "scope collector broker cancelled"@,
            )),
            result is Ok ==> {
                &&& final(self).submitted(0) == old(self).submitted(0) + batch.intra@
                &&& final(self).submitted(1) == old(self).submitted(1) + batch.cross@
                &&& forall|k: int|
                    0 <= k < batch.chain_pairs@.len() ==> final(self).submitted(
                        (#[trigger] batch.chain_pairs@[k]).0 + 2,
                    ) == old(self).submitted(batch.chain_pairs@[k].0 + 2)
                        + batch.chain_pairs@[k].1@
                &&& forall|scope: int|
                    2 <= scope < old(self).scopes() && !compaction::has_part(
                        batch.chain_pairs@,
                        scope - 2,
                    ) ==> #[trigger] final(self).submitted(scope) == old(self).submitted(scope)
                &&& counts_more(
                    final(self).accepted(),
                    old(self).accepted(),
                    batch.accepted_edges as nat,
                )
            },
    {
        let ghost before = *self;
        let ghost parts = batch.chain_pairs@;
        let ghost shares = batch_parts(batch, before.scopes());
        proof {
            lemma_continues_on(before, before, before);
        }
        self.submit_part(0, batch.intra, Ghost(before), Ghost(shares))?;
        self.submit_part(1, batch.cross, Ghost(before), Ghost(shares))?;
        let mut k: usize = 0;
        while k < batch.chain_pairs.len()
            invariant
                k <= parts.len(),
                parts == batch.chain_pairs@,
                self.wf(),
                self.continues(before),
                self.accepted() == before.accepted(),
                self.is_cancelled() == before.is_cancelled(),
                is_empty_batch(batch) ==> *self == before,
                before.is_cancelled() ==> *self == before && batch.intra@.len() == 0
                    && batch.cross@.len() == 0 && forall|i: int|
                    0 <= i < k ==> (#[trigger] parts[i]).1@.len() == 0,
                !before.is_cancelled() ==> self.takes_parts(
                    before,
                    shares,
                    next_scope(parts, k as int),
                ),
            decreases batch.chain_pairs.len() - k,
        {
            let scope: usize = batch.chain_pairs[k].0;
            let part: Vec<Edge> = copy_edges(&batch.chain_pairs[k].1);
            proof {
                assert(parts[k as int].0 + 2 < before.scopes());
                lemma_pair_part(parts, k as int);
                if !before.is_cancelled() {
                    lemma_skips_scopes(*self, before, batch, k as int, scope + 2);
                }
            }
            self.submit_part(scope + 2, part, Ghost(before), Ghost(shares))?;
            k = k + 1;
        }
        proof {
            let after = *self;
            if before.is_cancelled() {
                assert forall|i: int| 0 <= i < parts.len() implies after.submitted(
                    (#[trigger] parts[i]).0 + 2,
                ) == before.submitted(parts[i].0 + 2) + parts[i].1@ by {
                    assert(before.submitted(parts[i].0 + 2) + parts[i].1@ =~= before.submitted(
                        parts[i].0 + 2,
                    ));
                }
                assert(before.submitted(0) + batch.intra@ =~= before.submitted(0));
                assert(before.submitted(1) + batch.cross@ =~= before.submitted(1));
            } else {
                lemma_skips_scopes(after, before, batch, parts.len() as int, before.scopes());
                assert forall|i: int| 0 <= i < parts.len() implies after.submitted(
                    (#[trigger] parts[i]).0 + 2,
                ) == before.submitted(parts[i].0 + 2) + parts[i].1@ by {
                    lemma_pair_part(parts, i);
                    assert(parts[i].0 + 2 < before.scopes());
                }
                assert forall|scope: int|
                    2 <= scope < before.scopes() && !compaction::has_part(
                        parts,
                        scope - 2,
                    ) implies #[trigger] after.submitted(scope) == before.submitted(scope) by {
                    assert(before.submitted(scope) + shares[scope] =~= before.submitted(scope));
                }
            }
        }
        let total: u64 = match self.accepted.checked_add(batch.accepted_edges) {
            Some(total) => total,
            None => u64::MAX,
        };
        let ghost done = *self;
        self.accepted = total;
        proof {
            done.lemma_accepts(*self);
        }
        Ok(())
    }
}

proof fn lemma_some_part(edges: Seq<Edge>, chains: Seq<u32>)
    ensures
        edges.len() == 0 ==> compaction::intra_edges(edges, chains).len() == 0
            && compaction::cross_edges(edges, chains).len() == 0,
        edges.len() > 0 ==> compaction::intra_edges(edges, chains).len() > 0
            || compaction::cross_edges(edges, chains).len() > 0,
{
    if edges.len() > 0 {
        let edge = edges.last();
        if compaction::is_intra(chains, edge) {
            assert(compaction::intra_edges(edges, chains).last() == edge);
        } else {
            assert(compaction::cross_edges(edges, chains).last() == edge);
        }
    }
}

/// Runs kept in memory, in order.
fn resident_runs(runs: Vec<ForestRun>) -> (stored: Vec<ForestRunStorage>)
    ensures
        stored@.len() == runs@.len(),
        forall|r: int|
            0 <= r < runs@.len() ==> #[trigger] stored@[r] == ForestRunStorage::Resident(runs@[r]),
{
    let mut runs = runs;
    let ghost all = runs@;
    let mut reversed: Vec<ForestRun> = Vec::new();
    while runs.len() > 0
        invariant
            runs@ == all.take(runs@.len() as int),
            runs@.len() + reversed@.len() == all.len(),
            forall|k: int|
                0 <= k < reversed@.len() ==> #[trigger] reversed@[k] == all[all.len() - 1 - k],
        decreases runs.len(),
    {
        let ghost before = runs@;
        if let Some(run) = runs.pop() {
            reversed.push(run);
        }
        assert(runs@ =~= all.take(before.len() - 1));
    }
    let mut stored: Vec<ForestRunStorage> = Vec::new();
    while reversed.len() > 0
        invariant
            reversed@.len() + stored@.len() == all.len(),
            forall|k: int|
                0 <= k < reversed@.len() ==> #[trigger] reversed@[k] == all[all.len() - 1 - k],
            forall|r: int|
                0 <= r < stored@.len() ==> #[trigger] stored@[r] == ForestRunStorage::Resident(
                    all[r],
                ),
        decreases reversed.len(),
    {
        if let Some(run) = reversed.pop() {
            stored.push(ForestRunStorage::Resident(run));
        }
    }
    stored
}

proof fn lemma_resident_edges(stored: Seq<ForestRunStorage>, runs: Seq<ForestRun>)
    requires
        stored.len() == runs.len(),
        forall|r: int|
            0 <= r < runs.len() ==> #[trigger] stored[r] == ForestRunStorage::Resident(runs[r]),
    ensures
        component::storage_edges(stored) == component::run_edges(runs),
    decreases runs.len(),
{
    if runs.len() > 0 {
        lemma_resident_edges(stored.drop_last(), runs.drop_last());
    }
}

/// The bytes that the runs take in memory, with the room that the allocator gave.
pub fn resident_run_edge_capacity_bytes(runs: &Vec<ForestRun>) -> (bytes: u64)
    ensures
        is_run_measure(bytes, collector::edges_of(runs@)),
        bytes >= run_bytes(collector::edges_of(runs@)),
{
    let mut bytes: u64 = 0;
    let mut r: usize = 0;
    let ghost plain = collector::edges_of(runs@);
    let ghost mut rooms: Seq<u64> = Seq::empty();
    while r < runs.len()
        invariant
            r <= runs@.len(),
            plain == collector::edges_of(runs@),
            rooms.len() == r,
            forall|k: int|
                0 <= k < r ==> #[trigger] rooms[k] >= forest::edge_bytes_of(plain[k].len()),
            bytes == saturating_total(rooms),
        decreases runs.len() - r,
    {
        let room: u64 = edge_bytes(capacity_of(&runs[r].edges));
        bytes = bytes.saturating_add(room);
        proof {
            assert(rooms.push(room).drop_last() =~= rooms);
            rooms = rooms.push(room);
        }
        r = r + 1;
    }
    proof {
        lemma_rooms(rooms, plain);
    }
    bytes
}

/// What is aside of each collector, and behind it its runs in memory.
spec fn outputs(aside: Seq<Vec<ForestRunStorage>>, runs: Seq<Vec<ForestRun>>) -> Seq<
    Seq<ForestRunStorage>,
> {
    Seq::new(
        aside.len(),
        |slot: int|
            aside[slot]@ + Seq::new(
                runs[slot]@.len(),
                |r: int| ForestRunStorage::Resident(runs[slot]@[r]),
            ),
    )
}

/// The first of a scope's collectors.
spec fn first_of(scope: int, shards: int) -> int {
    if shards == 1 {
        scope
    } else {
        scope + scope
    }
}

/// Gathers the runs of every scope: for each of its collectors what is aside, then what is kept.
#[verifier::loop_isolation(false)]
fn gather_runs(
    scope_count: usize,
    shards: usize,
    spills: Vec<Vec<ForestRunStorage>>,
    physical: Vec<Vec<ForestRun>>,
) -> (runs: ScopeForestRuns)
    requires
        shards == 1 || shards == 2,
        scope_count >= 2,
        spills@.len() == first_of(scope_count as int, shards as int),
        physical@.len() == spills@.len(),
    ensures
        runs.pairs@.len() == scope_count - 2,
        forall|scope: int|
            0 <= scope < scope_count ==> #[trigger] runs.scope(scope) == joined_runs(
                outputs(spills@, physical@),
                first_of(scope, shards as int),
                first_of(scope, shards as int) + shards,
            ),
{
    let ghost outs = outputs(spills@, physical@);
    let mut spills = spills;
    let mut physical = physical;
    let count: usize = spills.len();
    let mut runs = ScopeForestRuns { intra: Vec::new(), cross: Vec::new(), pairs: Vec::new() };
    let mut scope: usize = 0;
    while scope < scope_count
        invariant
            scope <= scope_count,
            spills@.len() == count,
            physical@.len() == count,
            runs.pairs@.len() == if scope < 2 {
                0
            } else {
                scope - 2
            },
            forall|k: int|
                first_of(scope as int, shards as int) <= k < count ==> #[trigger] outputs(
                    spills@,
                    physical@,
                )[k] == outs[k],
            forall|s: int|
                0 <= s < scope ==> #[trigger] runs.scope(s) == joined_runs(
                    outs,
                    first_of(s, shards as int),
                    first_of(s, shards as int) + shards,
                ),
        decreases scope_count - scope,
    {
        let first: usize = if shards == 1 {
            scope
        } else {
            scope + scope
        };
        let mut own: Vec<ForestRunStorage> = Vec::new();
        let mut shard: usize = 0;
        while shard < shards
            invariant
                shard <= shards,
                spills@.len() == count,
                physical@.len() == count,
                forall|k: int|
                    first + shard <= k < count ==> #[trigger] outputs(spills@, physical@)[k]
                        == outs[k],
                own@ == joined_runs(outs, first as int, first + shard),
            decreases shards - shard,
        {
            let at: usize = first + shard;
            let mut aside: Vec<ForestRunStorage> = Vec::new();
            let mut kept: Vec<ForestRun> = Vec::new();
            let ghost earlier = own@;
            let ghost before = (spills@, physical@);
            assert(outputs(before.0, before.1)[at as int] == outs[at as int]);
            std::mem::swap(&mut aside, &mut spills[at]);
            std::mem::swap(&mut kept, &mut physical[at]);
            let ghost own_aside = aside@;
            let mut stored: Vec<ForestRunStorage> = resident_runs(kept);
            let ghost own_stored = stored@;
            own.append(&mut aside);
            own.append(&mut stored);
            proof {
                assert(own_aside + own_stored =~= outs[at as int]);
                assert(own@ =~= earlier + outs[at as int]);
                assert forall|k: int| first + shard + 1 <= k < count implies
                    #[trigger] outputs(spills@, physical@)[k] == outs[k] by {
                    assert(outputs(before.0, before.1)[k] == outs[k]);
                    assert(physical@[k] == before.1[k]);
                    assert(spills@[k] == before.0[k]);
                }
            }
            shard = shard + 1;
        }
        let ghost all = own@;
        let ghost before = runs;
        if scope == 0 {
            runs.intra = own;
        } else if scope == 1 {
            runs.cross = own;
        } else {
            runs.pairs.push(own);
        }
        proof {
            assert forall|s: int| 0 <= s < scope + 1 implies #[trigger] runs.scope(s)
                == joined_runs(
                outs,
                first_of(s, shards as int),
                first_of(s, shards as int) + shards,
            ) by {
                if s == scope {
                    assert(runs.scope(s) == all);
                } else {
                    assert(runs.scope(s) == before.scope(s));
                }
            }
        }
        scope = scope + 1;
    }
    runs
}

proof fn lemma_joined_outputs(
    spills: Seq<Vec<ForestRunStorage>>,
    runs: Seq<Vec<ForestRun>>,
    slots: Seq<Seq<Edge>>,
    begin: int,
    end: int,
    node_count: u32,
)
    requires
        0 <= begin <= end <= spills.len(),
        forall|k: int|
            begin <= k < end ==> is_finished(
                spills[k]@,
                #[trigger] runs[k]@,
                slots[k],
                node_count,
            ),
    ensures
        is_scope_done(
            joined_runs(outputs(spills, runs), begin, end),
            slots,
            begin,
            end,
            node_count,
        ),
    decreases end - begin,
{
    if begin < end {
        lemma_joined_outputs(spills, runs, slots, begin, end - 1, node_count);
        let at = end - 1;
        assert(is_finished(spills[at]@, runs[at]@, slots[at], node_count));
        let earlier = joined_runs(outputs(spills, runs), begin, at);
        let aside = spills[at]@;
        let stored = Seq::new(
            runs[at]@.len(),
            |r: int| ForestRunStorage::Resident(runs[at]@[r]),
        );
        let all = earlier + (aside + stored);
        assert(joined_runs(outputs(spills, runs), begin, end) == all);
        lemma_resident_edges(stored, runs[at]@);
        lemma_storage_edges_add(aside, stored);
        lemma_storage_edges_add(earlier, aside + stored);
        graph::lemma_concat_connectivity(
            component::storage_edges(earlier),
            component::storage_edges(aside + stored),
            joined(slots, begin, at),
            slots[at],
        );
        assert forall|r: int| 0 <= r < all.len() implies (#[trigger] all[r]).wf() && all[r].nodes()
            == node_count by {
            if r < earlier.len() {
                assert(all[r] == earlier[r]);
            } else if r < earlier.len() + aside.len() {
                assert(all[r] == aside[r - earlier.len()]);
            } else {
                let k = r - earlier.len() - aside.len();
                assert(all[r] == stored[k]);
                assert(runs[at]@[k].node_count == node_count);
            }
        }
    }
}

/// A finished slot connects what it held.
spec fn is_finished(
    aside: Seq<ForestRunStorage>,
    runs: Seq<ForestRun>,
    held: Seq<Edge>,
    node_count: u32,
) -> bool {
    &&& runs_over(aside, node_count)
    &&& collector::runs_within(runs, node_count)
    &&& graph::same_connectivity(
        component::storage_edges(aside) + component::run_edges(runs),
        held,
    )
}

/// The progress of finishing `completed` of `total` collectors.
pub open spec fn finalize_event(completed: u64, total: u64) -> ProgressEvent {
    ProgressEvent {
        phase: ProgressPhase::FinalizeEdgeCollectors,
        completed,
        total: Some(total),
        unit: WorkUnit::Items,
        work_class: WorkClass::ReduceItems,
        total_kind: TotalKind::Exact,
        counters: ProgressCounters { candidates: 0, scored: 0, expanded: 0, matched: 0, groups: 0 },
    }
}

/// The progress of finishing up to `completed` of `total` collectors.
pub open spec fn finalize_events(completed: nat, total: u64) -> Seq<ProgressEvent> {
    Seq::new(completed + 1, |k: int| finalize_event(k as u64, total))
}

fn make_finalize_event(completed: u64, total: u64) -> (event: ProgressEvent)
    ensures
        event == finalize_event(completed, total),
{
    ProgressEvent::determinate(
        ProgressPhase::FinalizeEdgeCollectors,
        completed,
        total,
        WorkUnit::Items,
        ProgressCounters::default(),
    ).with_plan(WorkClass::ReduceItems, TotalKind::Exact)
}

impl ScopeCollectors {
    /// The forests of all scopes: what was aside of each of its collectors, and the finished
    /// runs. Where those exceed what may stay in memory, all are put aside, so that finishing
    /// fails where a collector cannot be flushed or its runs cannot be put aside, and nowhere
    /// else. Every scope's forests connect exactly what was submitted to the scope. The runs
    /// take the room that the allocator gave: how much beyond their edges is left open.
    #[verifier::loop_isolation(false)]
    pub fn finish(self) -> (result: Result<ScopeForestRuns, PipelineError>)
        requires
            self.wf(),
            !self.is_cancelled(),
        ensures
            result matches Err(e) ==> self.is_finish_fault(e@),
            self.can_finish() ==> result is Ok,
            result is Ok ==> forall|k: int|
                0 <= k < self.collector_count() ==> #[trigger] self.flush_of(k) is Ok,
            result matches Ok(runs) ==> self.finishes(runs, true) || self.finishes(runs, false),
            result matches Ok(runs) ==> {
                &&& runs.pairs@.len() == self.scopes() - 2
                &&& forall|scope: int|
                    0 <= scope < self.scopes() ==> runs_over(
                        #[trigger] runs.scope(scope),
                        self.nodes(),
                    )
                &&& forall|scope: int|
                    0 <= scope < self.scopes() ==> graph::same_connectivity(
                        component::storage_edges(#[trigger] runs.scope(scope)),
                        self.submitted(scope),
                    )
            },
    {
        let mut this = self;
        let ghost start = this.slots();
        let count: usize = this.collectors.len();
        let node_count: u32 = this.node_count;
        let mut physical: Vec<Vec<ForestRun>> = Vec::new();
        let mut resident: u64 = 0;
        let ghost mut parts: Seq<u64> = Seq::empty();
        let mut slot: usize = 0;
        while slot < count
            invariant
                slot <= count,
                count == this.collectors@.len(),
                this.is_sized(),
                this.keeps(self),
                physical@.len() == slot,
                forall|w: int|
                    0 <= w < this.scratches@.len() ==> {
                        &&& (#[trigger] this.scratches@[w]).wf()
                        &&& this.scratches@[w].counts(Seq::empty())
                        &&& this.scratches@[w].nodes() == node_count
                    },
                this.spills == self.spills,
                forall|k: int|
                    slot <= k < count ==> #[trigger] this.collectors@[k] == self.collectors@[k],
                forall|k: int|
                    0 <= k < slot ==> #[trigger] self.flush_of(k) is Ok && self.flush_of(
                        k,
                    )->Ok_0.runs == collector::edges_of(physical@[k]@),
                parts.len() == slot,
                forall|k: int|
                    0 <= k < slot ==> is_run_measure(
                        #[trigger] parts[k],
                        self.flush_of(k)->Ok_0.runs,
                    ),
                resident == saturating_total(parts),
                forall|k: int|
                    0 <= k < slot ==> is_finished(
                        this.spills@[k]@,
                        (#[trigger] physical@[k])@,
                        start[k],
                        node_count,
                    ),
            decreases count - slot,
        {
            let worker: usize = slot % this.scratches.len();
            let ghost held = this.collectors@[slot as int].state().contents();
            assert(this.collectors@[slot as int] == self.collectors@[slot as int]);
            let runs: Vec<ForestRun> = match this.collectors[slot].take_finished_shared(
                &mut this.scratches[worker],
            ) {
                Err(error) => {
                    assert(self.flush_of(slot as int) is Err);
                    return Err(PipelineError::Reduce(error));
                },
                Ok(runs) => runs,
            };
            assert(self.flush_of(slot as int) is Ok);
            proof {
                let aside = component::storage_edges(this.spills@[slot as int]@);
                collector::lemma_concatenated_runs(runs@);
                graph::lemma_concat_connectivity(
                    aside,
                    component::run_edges(runs@),
                    aside,
                    held,
                );
                assert(runs_over(self.spills@[slot as int]@, node_count));
                assert(start[slot as int] == aside + held);
            }
            let own: u64 = resident_run_edge_capacity_bytes(&runs);
            resident = resident.saturating_add(own);
            proof {
                assert(parts.push(own).drop_last() =~= parts);
                parts = parts.push(own);
            }
            physical.push(runs);
            slot = slot + 1;
        }
        let ghost finished = physical@;
        assert(self.is_kept_measure(parts));
        let stored: bool = resident > this.resident_forest_limit;
        assert(self.exceeds_forest_limit(stored));
        if stored {
            let mut again: usize = 0;
            while again < count
                invariant
                    again <= count,
                    count == this.collectors@.len(),
                    this.is_sized(),
                    this.keeps(self),
                    physical@.len() == count,
                    forall|k: int|
                        0 <= k < count ==> is_finished(
                            this.spills@[k]@,
                            (#[trigger] physical@[k])@,
                            start[k],
                            node_count,
                        ),
                    forall|k: int|
                        0 <= k < again ==> self.is_output(
                            #[trigger] outputs(this.spills@, physical@)[k],
                            k,
                            true,
                        ),
                    forall|k: int|
                        again <= k < count ==> #[trigger] physical@[k] == finished[k]
                            && this.spills@[k] == self.spills@[k],
                decreases count - again,
            {
                let mut runs: Vec<ForestRun> = Vec::new();
                let ghost before = this.spills@;
                let ghost kept = physical@;
                assert(is_finished(
                    before[again as int]@,
                    kept[again as int]@,
                    start[again as int],
                    node_count,
                ));
                assert(self.flush_of(again as int) is Ok);
                assert(kept[again as int] == finished[again as int]);
                std::mem::swap(&mut runs, &mut physical[again]);
                if let Err(error) = this.spill_runs(again, runs) {
                    assert(!self.can_store(again as int));
                    return Err(PipelineError::Reduce(error));
                }
                proof {
                    assert forall|k: int| 0 <= k < count implies is_finished(
                        this.spills@[k]@,
                        (#[trigger] physical@[k])@,
                        start[k],
                        node_count,
                    ) by {
                        if k == again {
                            let aside = component::storage_edges(this.spills@[k]@);
                            assert(aside + component::run_edges(physical@[k]@) =~= aside);
                            lemma_same_transitive(
                                aside,
                                component::storage_edges(before[k]@) + component::run_edges(
                                    kept[k]@,
                                ),
                                start[k],
                            );
                        } else {
                            assert(physical@[k] == kept[k]);
                            assert(this.spills@[k] == before[k]);
                            assert(is_finished(before[k]@, kept[k]@, start[k], node_count));
                        }
                    }
                    assert forall|k: int| again + 1 <= k < count implies #[trigger] physical@[k]
                        == finished[k] && this.spills@[k] == self.spills@[k] by {
                        assert(physical@[k] == kept[k]);
                        assert(this.spills@[k] == before[k]);
                    }
                    assert forall|k: int| 0 <= k < again + 1 implies self.is_output(
                        #[trigger] outputs(this.spills@, physical@)[k],
                        k,
                        true,
                    ) by {
                        if k == again {
                            assert(outputs(this.spills@, physical@)[k] =~= this.spills@[k]@);
                        } else {
                            assert(physical@[k] == kept[k]);
                            assert(this.spills@[k] == before[k]);
                            assert(outputs(this.spills@, physical@)[k] == outputs(before, kept)[k]);
                        }
                    }
                }
                again = again + 1;
            }
        }
        let ghost outs = outputs(this.spills@, physical@);
        proof {
            assert forall|k: int| 0 <= k < outs.len() implies self.is_output(
                #[trigger] outs[k],
                k,
                stored,
            ) by {
                if !stored {
                    assert(physical@[k] == finished[k]);
                    assert(self.flush_of(k) is Ok);
                    assert(is_finished(this.spills@[k]@, physical@[k]@, start[k], node_count));
                    let before = self.aside(k);
                    assert forall|i: int| before.len() <= i < outs[k].len() implies {
                        &&& #[trigger] outs[k][i] is Resident
                        &&& outs[k][i].nodes() == node_count
                        &&& outs[k][i].edges() == self.flush_of(k)->Ok_0.runs[i - before.len()]
                    } by {
                        assert(outs[k][i] == ForestRunStorage::Resident(
                            physical@[k]@[i - before.len()],
                        ));
                        assert(physical@[k]@[i - before.len()].node_count == node_count);
                    }
                }
            }
        }
        let ghost last_spills = this.spills@;
        let ghost last_runs = physical@;
        let ScopeCollectors { scope_count, shards_per_scope, spills, .. } = this;
        let runs = gather_runs(scope_count, shards_per_scope, spills, physical);
        proof {
            assert(self.finishes_as(runs, outs, stored));
            assert(self.finishes(runs, stored));
            assert forall|scope: int| 0 <= scope < self.scopes() implies runs_over(
                #[trigger] runs.scope(scope),
                self.nodes(),
            ) && graph::same_connectivity(
                component::storage_edges(runs.scope(scope)),
                self.submitted(scope),
            ) by {
                let begin = self.first_slot(scope);
                let end = begin + self.shards();
                assert forall|k: int| begin <= k < end implies is_finished(
                    last_spills[k]@,
                    #[trigger] last_runs[k]@,
                    start[k],
                    node_count,
                ) by {}
                lemma_joined_outputs(last_spills, last_runs, start, begin, end, node_count);
                assert(graph::same_connectivity(self.held(scope), self.submitted@[scope]));
                lemma_same_transitive(
                    component::storage_edges(runs.scope(scope)),
                    self.held(scope),
                    self.submitted@[scope],
                );
            }
        }
        Ok(runs)
    }

    /// Nothing was ever submitted to the collectors.
    pub open spec fn is_fresh(self) -> bool {
        forall|slot: int|
            0 <= slot < self.collector_count() ==> #[trigger] self.states()[slot] == empty_state()
                && self.aside(slot).len() == 0
    }

    /// Fresh collectors can be finished.
    pub proof fn lemma_fresh(self)
        requires
            self.is_fresh(),
        ensures
            self.can_finish(),
            forall|slot: int|
                0 <= slot < self.collector_count() ==> (#[trigger] self.flush_of(
                    slot,
                ))->Ok_0.runs.len() == 0,
    {
        assert forall|slot: int| 0 <= slot < self.collector_count() implies
            #[trigger] self.flush_of(slot) is Ok && self.can_store(slot) && self.flush_of(
            slot,
        )->Ok_0.runs.len() == 0 by {
            assert(self.states()[slot] == empty_state());
        }
    }

    /// No run comes out of fresh collectors.
    pub proof fn lemma_fresh_finish(self, runs: ScopeForestRuns, stored: bool)
        requires
            self.wf(),
            self.is_fresh(),
        ensures
            self.finishes(runs, stored) ==> forall|scope: int|
                0 <= scope < self.scopes() ==> (#[trigger] runs.scope(scope)).len() == 0,
    {
        self.lemma_fresh();
        if self.finishes(runs, stored) {
            let outs = choose|outs: Seq<Seq<ForestRunStorage>>| #[trigger]
                self.finishes_as(runs, outs, stored);
            assert forall|scope: int| 0 <= scope < self.scopes() implies (
            #[trigger] runs.scope(scope)).len() == 0 by {
                let begin = self.first_slot(scope);
                let end = begin + self.shards();
                assert forall|k: int| begin <= k < end implies (#[trigger] outs[k]).len() == 0 by {
                    assert(self.is_output(outs[k], k, stored));
                    assert(self.flush_of(k) is Ok);
                    assert(self.states()[k] == empty_state());
                }
                lemma_joined_runs_empty(outs, begin, end);
            }
        }
    }

    /// Finished forests have no loop and stay within the nodes.
    pub proof fn lemma_finish_proper(self, runs: ScopeForestRuns, stored: bool)
        requires
            self.wf(),
            !self.is_cancelled(),
            forall|slot: int|
                0 <= slot < self.collector_count() ==> #[trigger] self.flush_of(slot) is Ok,
            self.finishes(runs, stored),
        ensures
            forall|scope: int|
                0 <= scope < self.scopes() ==> are_proper_runs(
                    #[trigger] runs.scope(scope),
                    self.nodes(),
                ),
    {
        let outs = choose|outs: Seq<Seq<ForestRunStorage>>| #[trigger]
            self.finishes_as(runs, outs, stored);
        assert forall|slot: int| 0 <= slot < outs.len() implies are_proper_runs(
            #[trigger] outs[slot],
            self.nodes(),
        ) by {
            assert(self.is_output(outs[slot], slot, stored));
            assert(self.flush_of(slot) is Ok);
            assert(self.limits().holds(self.states()[slot]));
            self.limits().lemma_compact_faults(self.states()[slot]);
            assert(are_proper_runs(self.aside(slot), self.nodes()));
            lemma_puts_aside_proper(
                outs[slot],
                self.aside(slot),
                self.flush_of(slot)->Ok_0.runs,
                self.nodes(),
            );
        }
        assert forall|scope: int| 0 <= scope < self.scopes() implies are_proper_runs(
            #[trigger] runs.scope(scope),
            self.nodes(),
        ) by {
            let begin = self.first_slot(scope);
            let end = begin + self.shards();
            assert forall|k: int| begin <= k < end implies are_proper_runs(
                #[trigger] outs[k],
                self.nodes(),
            ) by {
                assert(0 <= k < outs.len());
            }
            lemma_joined_runs_proper(outs, begin, end, self.nodes());
        }
    }

    /// Faults of finishing are those of the limits.
    pub proof fn lemma_finish_fault(self, fault: PipelineFault)
        requires
            self.wf(),
            !self.is_cancelled(),
            self.is_finish_fault(fault),
        ensures
            fault matches PipelineFault::Reduce(own) && self.limits().may_fail_with(own) && match own {
                ReduceFault::WorkOverflow => exists|slot: int|
                    0 <= slot < self.collector_count() && !#[trigger] self.can_store(slot),
                _ => own is Budget,
            },
    {
        if exists|slot: int|
            0 <= slot < self.collector_count() && (#[trigger] self.flush_of(slot) matches Err(own)
                && fault == PipelineFault::Reduce(own)) {
            let slot = choose|slot: int|
                0 <= slot < self.collector_count() && (#[trigger] self.flush_of(
                    slot,
                ) matches Err(own) && fault == PipelineFault::Reduce(own));
            assert(self.limits().holds(self.states()[slot]));
            self.limits().lemma_compact_faults(self.states()[slot]);
        }
    }

    /// As [`ScopeCollectors::finish`]; reports the collectors finished, first none and then one
    /// after the other.
    pub fn finish_with_progress(self, reports: &mut Vec<ProgressEvent>) -> (result: Result<
        ScopeForestRuns,
        PipelineError,
    >)
        requires
            self.wf(),
            !self.is_cancelled(),
        ensures
            result matches Err(e) ==> self.is_finish_fault(e@) && final(reports)@ == old(reports)@
                + finalize_events(0, self.collector_count() as u64),
            self.can_finish() ==> result is Ok,
            result is Ok ==> forall|k: int|
                0 <= k < self.collector_count() ==> #[trigger] self.flush_of(k) is Ok,
            result matches Ok(runs) ==> self.finishes(runs, true) || self.finishes(runs, false),
            result matches Ok(runs) ==> {
                &&& final(reports)@ == old(reports)@ + finalize_events(
                    self.collector_count(),
                    self.collector_count() as u64,
                )
                &&& runs.pairs@.len() == self.scopes() - 2
                &&& forall|scope: int|
                    0 <= scope < self.scopes() ==> runs_over(
                        #[trigger] runs.scope(scope),
                        self.nodes(),
                    )
                &&& forall|scope: int|
                    0 <= scope < self.scopes() ==> graph::same_connectivity(
                        component::storage_edges(#[trigger] runs.scope(scope)),
                        self.submitted(scope),
                    )
            },
    {
        let count: usize = self.collectors.len();
        let total: u64 = count as u64;
        let ghost before = reports@;
        reports.push(make_finalize_event(0, total));
        assert(reports@ =~= before + finalize_events(0, total));
        let runs: ScopeForestRuns = match self.finish() {
            Err(error) => {
                return Err(error);
            },
            Ok(runs) => runs,
        };
        let mut completed: usize = 0;
        while completed < count
            invariant
                completed <= count,
                total == count,
                reports@ == before + finalize_events(completed as nat, total),
            decreases count - completed,
        {
            completed = completed + 1;
            reports.push(make_finalize_event(completed as u64, total));
            assert(reports@ =~= before + finalize_events(completed as nat, total));
        }
        Ok(runs)
    }
}

spec fn is_scope_done(
    runs: Seq<ForestRunStorage>,
    slots: Seq<Seq<Edge>>,
    begin: int,
    end: int,
    node_count: u32,
) -> bool {
    &&& runs_over(runs, node_count)
    &&& graph::same_connectivity(component::storage_edges(runs), joined(slots, begin, end))
}

proof fn lemma_joined_runs_empty(slots: Seq<Seq<ForestRunStorage>>, begin: int, end: int)
    requires
        forall|k: int| begin <= k < end ==> (#[trigger] slots[k]).len() == 0,
    ensures
        joined_runs(slots, begin, end).len() == 0,
    decreases end - begin,
{
    if begin < end {
        lemma_joined_runs_empty(slots, begin, end - 1);
    }
}

proof fn lemma_joined_empty(slots: Seq<Seq<Edge>>, begin: int, end: int)
    requires
        begin <= end,
        forall|i: int| begin <= i < end ==> (#[trigger] slots[i]).len() == 0,
    ensures
        joined(slots, begin, end).len() == 0,
    decreases end - begin,
{
    if begin < end {
        lemma_joined_empty(slots, begin, end - 1);
    }
}

proof fn lemma_same_slots(after: ScopeCollectors, middle: ScopeCollectors, before: ScopeCollectors)
    requires
        after.collectors == middle.collectors,
        after.spills == middle.spills,
        middle.holds_same(before),
    ensures
        after.holds_same(before),
{
    assert(after.slots() =~= middle.slots());
    assert forall|slot: int| 0 <= slot < after.collectors@.len() implies graph::same_connectivity(
        #[trigger] after.slots()[slot],
        before.slots()[slot],
    ) by {
        assert(graph::same_connectivity(middle.slots()[slot], before.slots()[slot]));
    }
}

proof fn lemma_same_chain(after: ScopeCollectors, middle: ScopeCollectors, before: ScopeCollectors)
    requires
        after.holds_same(middle),
        middle.holds_same(before),
        after.collectors@.len() == middle.collectors@.len(),
    ensures
        after.holds_same(before),
{
    assert forall|slot: int| 0 <= slot < after.collectors@.len() implies graph::same_connectivity(
        #[trigger] after.slots()[slot],
        before.slots()[slot],
    ) by {
        assert(graph::same_connectivity(after.slots()[slot], middle.slots()[slot]));
        assert(graph::same_connectivity(middle.slots()[slot], before.slots()[slot]));
        lemma_same_transitive(after.slots()[slot], middle.slots()[slot], before.slots()[slot]);
    }
}

} // verus!
