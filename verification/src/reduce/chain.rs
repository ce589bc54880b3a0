//! Chains of component snapshots: one full snapshot and deltas on it.

use crate::identity::{checked_u32_identity, IdentityOverflow};
use crate::reduce::collector;
use crate::reduce::component;
use crate::reduce::component::reduce_components;
use crate::reduce::dsu;
use crate::reduce::error::{chain_error, ReduceError, ReduceFault};
use crate::reduce::forest;
use crate::reduce::forest::{EdgeBudget, ForestRun};
use crate::reduce::graph;
use crate::reduce::graph::Edge;
use crate::text;
use crate::text::decimal;
use vstd::prelude::*;
use vstd::slice::slice_subrange;
use vstd::string::*;

verus! {

/// Revision of a single snapshot.
pub const COMPONENT_SNAPSHOT_REVISION: u32 = 1;

/// Component roots after an epoch. Without a base epoch it is full; with one it is a delta
/// on that epoch.
#[derive(Debug, PartialEq, Eq)]
pub struct ComponentSnapshot {
    pub revision: u32,
    pub epoch: u32,
    pub base_epoch: Option<u32>,
    pub roots: Vec<u32>,
}

/// A snapshot as plain values.
pub struct SnapshotModel {
    pub revision: u32,
    pub epoch: u32,
    pub base_epoch: Option<u32>,
    pub roots: Seq<u32>,
}

impl View for ComponentSnapshot {
    type V = SnapshotModel;

    open spec fn view(&self) -> SnapshotModel {
        SnapshotModel {
            revision: self.revision,
            epoch: self.epoch,
            base_epoch: self.base_epoch,
            roots: self.roots@,
        }
    }
}

/// How often snapshots are full, and how much of a chain may be replayed.
#[derive(Debug, Clone, Copy, PartialEq, Eq)]
pub struct SnapshotCadence {
    pub max_epoch_edges: u64,
    pub full_every_epochs: u32,
    pub max_replay_epochs: u32,
    pub max_replay_bytes: u64,
}

/// The smallest node of every node's component.
pub open spec fn component_roots(edges: Seq<Edge>, node_count: u32) -> Seq<u32> {
    choose|roots: Seq<u32>|
        roots.len() == node_count && graph::are_component_roots(edges, roots)
}

/// Roots that satisfy the definition are the component roots.
pub proof fn lemma_component_roots(edges: Seq<Edge>, node_count: u32, roots: Seq<u32>)
    requires
        roots.len() == node_count,
        graph::are_component_roots(edges, roots),
    ensures
        component_roots(edges, node_count) == roots,
{
    let chosen = component_roots(edges, node_count);
    assert(chosen.len() == node_count && graph::are_component_roots(edges, chosen));
    graph::lemma_component_roots_unique(edges, edges, chosen, roots);
}

/// One edge from each node to its root, where they differ.
pub open spec fn root_edges(roots: Seq<u32>) -> Seq<Edge>
    decreases roots.len(),
{
    if roots.len() == 0 {
        Seq::empty()
    } else {
        let node = (roots.len() - 1) as u32;
        let earlier = root_edges(roots.drop_last());
        if roots.last() != node {
            earlier.push(Edge::between(node, roots.last()))
        } else {
            earlier
        }
    }
}

/// No limit at all.
pub open spec fn unlimited() -> EdgeBudget {
    EdgeBudget { max_buffer_bytes: u64::MAX, max_run_edges: u64::MAX, max_total_bytes: u64::MAX }
}

/// A full snapshot of runs, or why it is refused.
pub open spec fn full_outcome(epoch: u32, runs: Seq<ForestRun>, node_count: u32) -> Result<
    SnapshotModel,
    ReduceFault,
> {
    if component::run_edges(runs).len() + node_count > u64::MAX {
        Err(ReduceFault::WorkOverflow)
    } else if component::first_mismatch(runs, node_count, 0) is Some {
        Err(
            ReduceFault::Endpoint {
                endpoint: component::first_mismatch(runs, node_count, 0)->0,
                node_count,
            },
        )
    } else {
        Ok(
            SnapshotModel {
                revision: COMPONENT_SNAPSHOT_REVISION,
                epoch,
                base_epoch: None,
                roots: component_roots(component::run_edges(runs), node_count),
            },
        )
    }
}

/// A snapshot of a base and further runs, or why it is refused.
pub open spec fn delta_outcome(epoch: u32, base: SnapshotModel, runs: Seq<ForestRun>) -> Result<
    SnapshotModel,
    ReduceFault,
> {
    if base.roots.len() > u32::MAX {
        Err(
            ReduceFault::Identity(
                IdentityOverflow { what: "component roots", count: base.roots.len() as u64 },
            ),
        )
    } else {
        let node_count = base.roots.len() as u32;
        let edges = root_edges(base.roots) + component::run_edges(runs);
        match forest::forest_outcome(node_count, edges, unlimited()) {
            Err(fault) => Err(fault),
            Ok(_) => Ok(
                SnapshotModel {
                    revision: COMPONENT_SNAPSHOT_REVISION,
                    epoch,
                    base_epoch: Some(base.epoch),
                    roots: component_roots(edges, node_count),
                },
            ),
        }
    }
}

/// The result is the given outcome.
pub open spec fn is_snapshot_result(
    result: Result<ComponentSnapshot, ReduceError>,
    outcome: Result<SnapshotModel, ReduceFault>,
) -> bool {
    match (result, outcome) {
        (Ok(snapshot), Ok(model)) => snapshot@ == model,
        (Err(error), Err(fault)) => error@ == fault,
        _ => false,
    }
}

/// Roots are within the nodes that they are for.
pub open spec fn roots_in_range(roots: Seq<u32>) -> bool {
    forall|i: int| 0 <= i < roots.len() ==> #[trigger] roots[i] < roots.len()
}

/// Whether every root is within the nodes that it is for.
pub fn check_roots_in_range(roots: &[u32]) -> (valid: bool)
    ensures
        valid == roots_in_range(roots@),
{
    let mut i: usize = 0;
    while i < roots.len()
        invariant
            i <= roots@.len(),
            forall|k: int| 0 <= k < i ==> #[trigger] roots@[k] < roots@.len(),
        decreases roots.len() - i,
    {
        if roots[i] as usize >= roots.len() {
            assert(roots@[i as int] >= roots@.len());
            return false;
        }
        i = i + 1;
    }
    true
}

proof fn lemma_root_edges_within(roots: Seq<u32>, edge: Edge)
    requires
        roots.len() <= u32::MAX,
    ensures
        root_edges(roots).contains(edge) <==> exists|i: int|
            0 <= i < roots.len() && #[trigger] roots[i] != i && edge == Edge::between(
                i as u32,
                roots[i],
            ),
    decreases roots.len(),
{
    if roots.len() > 0 {
        let rest = roots.drop_last();
        lemma_root_edges_within(rest, edge);
        let node = roots.len() - 1;
        let here = root_edges(roots);
        let there = root_edges(rest);
        if there.contains(edge) {
            let k = there.index_of(edge);
            assert(here[k] == edge);
            let i = choose|i: int|
                0 <= i < rest.len() && #[trigger] rest[i] != i && edge == Edge::between(
                    i as u32,
                    rest[i],
                );
            assert(roots[i] == rest[i]);
        }
        if roots[node] != node {
            assert(here[there.len() as int] == Edge::between(node as u32, roots[node]));
        }
        if here.contains(edge) && !there.contains(edge) {
            let k = here.index_of(edge);
            if k < there.len() {
                assert(there[k] == edge);
            }
            assert(roots[node] != node && edge == Edge::between(node as u32, roots[node]));
        }
        if exists|i: int|
            0 <= i < roots.len() && #[trigger] roots[i] != i && edge == Edge::between(
                i as u32,
                roots[i],
            ) {
            let i = choose|i: int|
                0 <= i < roots.len() && #[trigger] roots[i] != i && edge == Edge::between(
                    i as u32,
                    roots[i],
                );
            if i < rest.len() {
                assert(rest[i] == roots[i]);
            }
        }
    }
}

/// The edges from nodes to their roots connect what the graph connects.
pub proof fn lemma_root_edges_connectivity(edges: Seq<Edge>, roots: Seq<u32>)
    requires
        roots.len() <= u32::MAX,
        graph::all_within(edges, roots.len() as int),
        graph::are_component_roots(edges, roots),
    ensures
        graph::same_connectivity(root_edges(roots), edges),
{
    let links = root_edges(roots);
    assert forall|i: int| 0 <= i < links.len() implies graph::connected(
        edges,
        (#[trigger] links[i]).left as int,
        links[i].right as int,
    ) by {
        assert(links.contains(links[i]));
        lemma_root_edges_within(roots, links[i]);
        let k = choose|k: int|
            0 <= k < roots.len() && #[trigger] roots[k] != k && links[i] == Edge::between(
                k as u32,
                roots[k],
            );
        assert(graph::is_component_minimum(edges, k, roots[k] as int));
        graph::lemma_connected_symmetric(edges, k, roots[k] as int);
    }
    assert forall|i: int| 0 <= i < edges.len() implies graph::connected(
        links,
        (#[trigger] edges[i]).left as int,
        edges[i].right as int,
    ) by {
        let l = edges[i].left as int;
        let r = edges[i].right as int;
        assert(edges[i].within(roots.len() as int));
        graph::lemma_edge_connects(edges, i);
        graph::lemma_connected_symmetric(edges, l, r);
        let x = roots[l] as int;
        let y = roots[r] as int;
        assert(graph::is_component_minimum(edges, l, x));
        assert(graph::is_component_minimum(edges, r, y));
        graph::lemma_connected_transitive(edges, l, r, y);
        graph::lemma_connected_transitive(edges, r, l, x);
        assert(x == y);
        lemma_node_reaches_root(roots, l);
        lemma_node_reaches_root(roots, r);
        graph::lemma_connected_symmetric(links, r, y);
        graph::lemma_connected_transitive(links, l, x, r);
    }
    assert forall|a: int, b: int| #[trigger]
        graph::connected(links, a, b) <==> graph::connected(edges, a, b) by {
        if graph::connected(links, a, b) {
            graph::lemma_connected_monotone(links, edges, a, b);
        }
        if graph::connected(edges, a, b) {
            graph::lemma_connected_monotone(edges, links, a, b);
        }
    }
}

proof fn lemma_node_reaches_root(roots: Seq<u32>, node: int)
    requires
        roots.len() <= u32::MAX,
        0 <= node < roots.len(),
    ensures
        graph::connected(root_edges(roots), node, roots[node] as int),
{
    let links = root_edges(roots);
    if roots[node] == node {
        graph::lemma_connected_reflexive(links, node);
    } else {
        let edge = Edge::between(node as u32, roots[node]);
        lemma_root_edges_within(roots, edge);
        assert(links.contains(edge));
        graph::lemma_edge_connects(links, links.index_of(edge));
        if edge.left != node {
            graph::lemma_connected_symmetric(links, edge.left as int, edge.right as int);
        }
    }
}

/// One edge from each node to its root, where they differ.
fn collect_root_edges(roots: &Vec<u32>) -> (edges: Vec<Edge>)
    requires
        roots@.len() <= u32::MAX,
    ensures
        edges@ == root_edges(roots@),
{
    let mut edges: Vec<Edge> = Vec::new();
    let mut i: usize = 0;
    while i < roots.len()
        invariant
            i <= roots@.len() <= u32::MAX,
            edges@ == root_edges(roots@.take(i as int)),
        decreases roots.len() - i,
    {
        let root: u32 = roots[i];
        assert(roots@.take(i + 1).drop_last() =~= roots@.take(i as int));
        if root != i as u32 {
            edges.push(Edge::new(i as u32, root));
        }
        i = i + 1;
    }
    assert(roots@.take(i as int) =~= roots@);
    edges
}

impl ComponentSnapshot {
    /// A full snapshot of roots that were reduced elsewhere.
    pub fn from_reduced_roots(epoch: u32, roots: Vec<u32>) -> (result: Result<
        ComponentSnapshot,
        ReduceError,
    >)
        ensures
            roots@.len() > u32::MAX ==> (result matches Err(e) && e@ == ReduceFault::Identity(
                IdentityOverflow { what: "component roots", count: roots@.len() as u64 },
            )),
            roots@.len() <= u32::MAX && !roots_in_range(roots@) ==> (result matches Err(e) && e@
                == ReduceFault::SnapshotChain("reduced roots contain an out-of-range identity"@)),
            roots@.len() <= u32::MAX && roots_in_range(roots@) ==> (result matches Ok(snapshot)
                && snapshot@ == (SnapshotModel {
                revision: COMPONENT_SNAPSHOT_REVISION,
                epoch,
                base_epoch: None,
                roots: roots@,
            })),
    {
        if let Err(overflow) = checked_u32_identity("component roots", roots.len() as u64) {
            return Err(ReduceError::Identity(overflow));
        }
        if !check_roots_in_range(&roots) {
            return Err(chain_error("reduced roots contain an out-of-range identity"));
        }
        Ok(
            ComponentSnapshot {
                revision: COMPONENT_SNAPSHOT_REVISION,
                epoch,
                base_epoch: None,
                roots,
            },
        )
    }

    /// A full snapshot of runs.
    pub fn full(epoch: u32, runs: &[ForestRun], node_count: u32) -> (result: Result<
        ComponentSnapshot,
        ReduceError,
    >)
        requires
            component::first_mismatch(runs@, node_count, 0) is None ==> graph::all_within(
                component::run_edges(runs@),
                node_count as int,
            ),
        ensures
            is_snapshot_result(result, full_outcome(epoch, runs@, node_count)),
    {
        match reduce_components(runs, node_count) {
            Err(error) => Err(error),
            Ok(roots) => {
                proof {
                    lemma_component_roots(component::run_edges(runs@), node_count, roots@);
                }
                Ok(
                    ComponentSnapshot {
                        revision: COMPONENT_SNAPSHOT_REVISION,
                        epoch,
                        base_epoch: None,
                        roots,
                    },
                )
            },
        }
    }

    /// A snapshot of a base and further runs.
    pub fn delta(epoch: u32, base: &ComponentSnapshot, runs: &[ForestRun]) -> (result: Result<
        ComponentSnapshot,
        ReduceError,
    >)
        ensures
            is_snapshot_result(result, delta_outcome(epoch, base@, runs@)),
    {
        let node_count: u32 = match checked_u32_identity(
            "component roots",
            base.roots.len() as u64,
        ) {
            Ok(count) => count,
            Err(overflow) => {
                return Err(ReduceError::Identity(overflow));
            },
        };
        let mut all: Vec<Edge> = collect_root_edges(&base.roots);
        let ghost links = all@;
        let mut r: usize = 0;
        assert(runs@.take(0) =~= Seq::empty());
        assert(all@ =~= links + component::run_edges(runs@.take(0)));
        while r < runs.len()
            invariant
                r <= runs@.len(),
                all@ == links + component::run_edges(runs@.take(r as int)),
            decreases runs.len() - r,
        {
            let ghost before = all@;
            append_edges(&mut all, &runs[r].edges);
            proof {
                assert(runs@.take(r + 1).drop_last() =~= runs@.take(r as int));
                assert(all@ =~= links + component::run_edges(runs@.take(r + 1)));
            }
            r = r + 1;
        }
        assert(runs@.take(r as int) =~= runs@);
        let budget = EdgeBudget {
            max_buffer_bytes: u64::MAX,
            max_run_edges: u64::MAX,
            max_total_bytes: u64::MAX,
        };
        let ghost edges = all@;
        let merged = match ForestRun::from_edges(node_count, all, budget) {
            Ok(run) => run,
            Err(error) => {
                return Err(error);
            },
        };
        let mut merged_runs: Vec<ForestRun> = Vec::new();
        let ghost reduced = merged.edges@;
        merged_runs.push(merged);
        proof {
            let only = merged_runs@;
            assert(only.drop_last() =~= Seq::empty());
            assert(component::run_edges(only) =~= reduced);
            assert(component::first_mismatch(only, node_count, 1) is None);
            assert(component::first_mismatch(only, node_count, 0) is None);
            lemma_merged_is_small(node_count, edges);
        }
        match reduce_components(merged_runs.as_slice(), node_count) {
            Err(error) => Err(error),
            Ok(roots) => {
                proof {
                    lemma_roots_of_same_connectivity(reduced, edges, roots@);
                    lemma_component_roots(edges, node_count, roots@);
                }
                Ok(
                    ComponentSnapshot {
                        revision: COMPONENT_SNAPSHOT_REVISION,
                        epoch,
                        base_epoch: Some(base.epoch),
                        roots,
                    },
                )
            },
        }
    }
}

proof fn lemma_merged_is_small(node_count: u32, edges: Seq<Edge>)
    requires
        forest::forest_outcome(node_count, edges, unlimited()) is Ok,
    ensures
        forest::forest_outcome(node_count, edges, unlimited())->Ok_0.len() <= node_count,
{
    let ordered = forest::canonical_edges(edges);
    lemma_nothing_outside(ordered, node_count, 0);
    dsu::lemma_forest_is_small(ordered, node_count);
}

proof fn lemma_nothing_outside(edges: Seq<Edge>, node_count: u32, at: int)
    requires
        0 <= at <= edges.len(),
        forest::first_outside(edges, node_count, at) is None,
    ensures
        forall|i: int| at <= i < edges.len() ==> (#[trigger] edges[i]).within(node_count as int),
    decreases edges.len() - at,
{
    if at < edges.len() {
        lemma_nothing_outside(edges, node_count, at + 1);
    }
}

proof fn lemma_roots_of_same_connectivity(left: Seq<Edge>, right: Seq<Edge>, roots: Seq<u32>)
    requires
        graph::same_connectivity(left, right),
        graph::are_component_roots(left, roots),
    ensures
        graph::are_component_roots(right, roots),
{
    assert forall|node: int| 0 <= node < roots.len() implies graph::is_component_minimum(
        right,
        node,
        #[trigger] roots[node] as int,
    ) by {
        let root = roots[node] as int;
        assert(graph::is_component_minimum(left, node, root));
        assert(graph::connected(left, node, root));
        assert forall|other: int| 0 <= other && #[trigger]
            graph::connected(right, node, other) implies root <= other by {
            assert(graph::connected(left, node, other));
        }
    }
}

fn append_edges(all: &mut Vec<Edge>, edges: &Vec<Edge>)
    ensures
        final(all)@ == old(all)@ + edges@,
{
    let ghost start = all@;
    let mut i: usize = 0;
    assert(all@ =~= start + edges@.take(0));
    while i < edges.len()
        invariant
            i <= edges@.len(),
            all@ == start + edges@.take(i as int),
        decreases edges.len() - i,
    {
        all.push(edges[i]);
        i = i + 1;
        assert(all@ =~= start + edges@.take(i as int));
    }
    assert(edges@.take(i as int) =~= edges@);
}

/// Run sizes.
pub open spec fn run_sizes(runs: Seq<ForestRun>) -> Seq<u64> {
    runs.map_values(|run: ForestRun| run.edges@.len() as u64)
}

/// How the first `end` runs fall into epochs: where finished epochs end, where the current
/// one starts, and its edges so far.
pub open spec fn epoch_scan(sizes: Seq<u64>, cap: u64, end: int) -> (Seq<int>, int, u64)
    decreases end,
{
    if end <= 0 {
        (Seq::empty(), 0, 0)
    } else {
        let (ends, start, current) = epoch_scan(sizes, cap, end - 1);
        let run = end - 1;
        if run > start && collector::saturating_sum(current, sizes[run]) > cap {
            (ends.push(run), run, sizes[run])
        } else {
            (ends, start, collector::saturating_sum(current, sizes[run]))
        }
    }
}

/// Where each epoch ends: runs fill an epoch until the next would exceed the cap. There is
/// always an epoch.
pub open spec fn epoch_ends(sizes: Seq<u64>, cap: u64) -> Seq<int> {
    let (ends, start, _) = epoch_scan(sizes, cap, sizes.len() as int);
    if start < sizes.len() {
        ends.push(sizes.len() as int)
    } else if ends.len() == 0 {
        seq![0]
    } else {
        ends
    }
}

/// The size of the first run from `at` on that exceeds the cap.
pub open spec fn first_oversized(sizes: Seq<u64>, cap: u64, at: int) -> Option<u64>
    decreases sizes.len() - at,
{
    if at < 0 || at >= sizes.len() {
        None
    } else if sizes[at] > cap {
        Some(sizes[at])
    } else {
        first_oversized(sizes, cap, at + 1)
    }
}

/// A chain under construction: its snapshots since the last full one, and what replaying
/// the deltas costs.
pub struct ChainProgress {
    pub chain: Seq<SnapshotModel>,
    pub replay_epochs: u32,
    pub replay_bytes: u64,
}

pub open spec fn saturating_count(count: u32) -> u32 {
    if count < u32::MAX {
        (count + 1) as u32
    } else {
        u32::MAX
    }
}

/// A new chain starts with this epoch: the first one, a periodic one, or one whose replay
/// would exceed the cadence.
pub open spec fn starts_chain(
    cadence: SnapshotCadence,
    snapshot_bytes: u64,
    epoch: int,
    progress: ChainProgress,
) -> bool {
    ||| progress.chain.len() == 0
    ||| epoch % cadence.full_every_epochs as int == 0
    ||| saturating_count(progress.replay_epochs) > cadence.max_replay_epochs
    ||| collector::saturating_sum(progress.replay_bytes, snapshot_bytes)
        > cadence.max_replay_bytes
}

/// The chain after the first `epochs` epochs.
pub open spec fn chain_after(
    runs: Seq<ForestRun>,
    node_count: u32,
    cadence: SnapshotCadence,
    ends: Seq<int>,
    epochs: int,
) -> Result<ChainProgress, ReduceFault>
    decreases epochs,
{
    if epochs <= 0 {
        Ok(ChainProgress { chain: Seq::empty(), replay_epochs: 0, replay_bytes: 0 })
    } else {
        let epoch = epochs - 1;
        let snapshot_bytes = (node_count * 4) as u64;
        match chain_after(runs, node_count, cadence, ends, epoch) {
            Err(fault) => Err(fault),
            Ok(progress) => if epoch > u32::MAX {
                Err(ReduceFault::SnapshotCadence("epoch id exceeds u32"@))
            } else if starts_chain(cadence, snapshot_bytes, epoch, progress) {
                match full_outcome(epoch as u32, runs.take(ends[epoch]), node_count) {
                    Err(fault) => Err(fault),
                    Ok(model) => Ok(
                        ChainProgress { chain: seq![model], replay_epochs: 0, replay_bytes: 0 },
                    ),
                }
            } else {
                match delta_outcome(
                    epoch as u32,
                    progress.chain.last(),
                    runs.subrange(ends[epoch - 1], ends[epoch]),
                ) {
                    Err(fault) => Err(fault),
                    Ok(model) => Ok(
                        ChainProgress {
                            chain: progress.chain.push(model),
                            replay_epochs: saturating_count(progress.replay_epochs),
                            replay_bytes: collector::saturating_sum(
                                progress.replay_bytes,
                                snapshot_bytes,
                            ),
                        },
                    ),
                }
            },
        }
    }
}

/// The snapshot chain of runs, or why it is refused.
pub open spec fn chain_outcome(
    runs: Seq<ForestRun>,
    node_count: u32,
    cadence: SnapshotCadence,
) -> Result<Seq<SnapshotModel>, ReduceFault> {
    let sizes = run_sizes(runs);
    if cadence.max_epoch_edges == 0 || cadence.full_every_epochs == 0 || cadence.max_replay_epochs
        == 0 || cadence.max_replay_bytes == 0 {
        Err(ReduceFault::SnapshotCadence("all cadence limits must be positive"@))
    } else if first_oversized(sizes, cadence.max_epoch_edges, 0) is Some {
        Err(
            ReduceFault::SnapshotCadence(
                "run has "@ + text::decimal_text(
                    first_oversized(sizes, cadence.max_epoch_edges, 0)->0 as nat,
                ) + " edges, above epoch cap "@ + text::decimal_text(
                    cadence.max_epoch_edges as nat,
                ),
            ),
        )
    } else {
        let ends = epoch_ends(sizes, cadence.max_epoch_edges);
        match chain_after(runs, node_count, cadence, ends, ends.len() as int) {
            Err(fault) => Err(fault),
            Ok(progress) => Ok(progress.chain),
        }
    }
}

/// The snapshots as plain values.
pub open spec fn models(chain: Seq<ComponentSnapshot>) -> Seq<SnapshotModel> {
    chain.map_values(|snapshot: ComponentSnapshot| snapshot@)
}

/// Every run over these nodes stays within them.
pub open spec fn runs_stay_within(runs: Seq<ForestRun>, node_count: u32) -> bool {
    forall|r: int|
        0 <= r < runs.len() && (#[trigger] runs[r]).node_count == node_count
            ==> graph::all_within(runs[r].edges@, node_count as int)
}

proof fn lemma_first_mismatch_none(runs: Seq<ForestRun>, node_count: u32, at: int)
    requires
        0 <= at <= runs.len(),
        component::first_mismatch(runs, node_count, at) is None,
    ensures
        forall|r: int| at <= r < runs.len() ==> (#[trigger] runs[r]).node_count == node_count,
    decreases runs.len() - at,
{
    if at < runs.len() {
        lemma_first_mismatch_none(runs, node_count, at + 1);
    }
}

proof fn lemma_run_edges_within(runs: Seq<ForestRun>, node_count: u32)
    requires
        forall|r: int|
            0 <= r < runs.len() ==> graph::all_within(
                (#[trigger] runs[r]).edges@,
                node_count as int,
            ),
    ensures
        graph::all_within(component::run_edges(runs), node_count as int),
    decreases runs.len(),
{
    if runs.len() > 0 {
        let rest = runs.drop_last();
        assert forall|r: int| 0 <= r < rest.len() implies graph::all_within(
            (#[trigger] rest[r]).edges@,
            node_count as int,
        ) by {
            assert(rest[r] == runs[r]);
        }
        lemma_run_edges_within(rest, node_count);
        let last = runs[runs.len() - 1];
        assert(graph::all_within(last.edges@, node_count as int));
        let all = component::run_edges(runs);
        assert forall|i: int| 0 <= i < all.len() implies (#[trigger] all[i]).within(
            node_count as int,
        ) by {
            let head = component::run_edges(rest);
            if i < head.len() {
                assert(all[i] == head[i]);
            } else {
                assert(all[i] == last.edges@[i - head.len()]);
            }
        }
    }
}

/// Where each epoch of the runs ends.
fn collect_epoch_ends(runs: &[ForestRun], cap: u64) -> (result: Result<Vec<usize>, u64>)
    ensures
        match first_oversized(run_sizes(runs@), cap, 0) {
            Some(size) => result matches Err(s) && s == size,
            None => result matches Ok(ends) && ends@.len() == epoch_ends(
                run_sizes(runs@),
                cap,
            ).len() && (forall|i: int|
                0 <= i < ends@.len() ==> #[trigger] ends@[i] == epoch_ends(
                    run_sizes(runs@),
                    cap,
                )[i]) && (forall|i: int|
                0 <= i < ends@.len() ==> #[trigger] ends@[i] <= runs@.len()) && (forall|i: int, j: int|
                0 <= i < j < ends@.len() ==> #[trigger] ends@[i] < #[trigger] ends@[j])
                && ends@.last() == runs@.len() && ends@.len() >= 1,
        },
{
    let ghost sizes = run_sizes(runs@);
    let mut ends: Vec<usize> = Vec::new();
    let mut start: usize = 0;
    let mut current: u64 = 0;
    let mut i: usize = 0;
    while i < runs.len()
        invariant
            i <= runs@.len(),
            sizes == run_sizes(runs@),
            first_oversized(sizes, cap, 0) == first_oversized(sizes, cap, i as int),
            start <= i,
            i > 0 ==> start < i,
            epoch_scan(sizes, cap, i as int).0.len() == ends@.len(),
            forall|k: int|
                0 <= k < ends@.len() ==> #[trigger] ends@[k] == epoch_scan(
                    sizes,
                    cap,
                    i as int,
                ).0[k],
            epoch_scan(sizes, cap, i as int).1 == start,
            epoch_scan(sizes, cap, i as int).2 == current,
            forall|k: int| 0 <= k < ends@.len() ==> #[trigger] ends@[k] <= start,
            forall|a: int, b: int|
                0 <= a < b < ends@.len() ==> #[trigger] ends@[a] < #[trigger] ends@[b],
        decreases runs.len() - i,
    {
        let size: u64 = runs[i].edges.len() as u64;
        assert(sizes[i as int] == size);
        if size > cap {
            return Err(size);
        }
        if i > start && current.saturating_add(size) > cap {
            ends.push(i);
            start = i;
            current = size;
        } else {
            current = current.saturating_add(size);
        }
        i = i + 1;
    }
    if start < runs.len() {
        ends.push(runs.len());
    } else if ends.len() == 0 {
        ends.push(0);
    }
    Ok(ends)
}

/// A chain of snapshots after which the last holds the roots of all runs. Runs fall into
/// epochs; a full snapshot starts the chain anew where the cadence asks for it.
pub fn build_component_snapshot_chain(
    runs: &[ForestRun],
    node_count: u32,
    cadence: SnapshotCadence,
) -> (result: Result<Vec<ComponentSnapshot>, ReduceError>)
    requires
        runs_stay_within(runs@, node_count),
    ensures
        match (result, chain_outcome(runs@, node_count, cadence)) {
            (Ok(chain), Ok(expected)) => models(chain@) == expected,
            (Err(error), Err(fault)) => error@ == fault,
            _ => false,
        },
{
    if cadence.max_epoch_edges == 0 || cadence.full_every_epochs == 0 || cadence.max_replay_epochs
        == 0 || cadence.max_replay_bytes == 0 {
        return Err(
            ReduceError::SnapshotCadence("all cadence limits must be positive".to_owned()),
        );
    }
    let ends = match collect_epoch_ends(runs, cadence.max_epoch_edges) {
        Ok(ends) => ends,
        Err(size) => {
            let message = "run has ".to_owned().concat(decimal(size).as_str()).concat(
                " edges, above epoch cap ",
            ).concat(decimal(cadence.max_epoch_edges).as_str());
            return Err(ReduceError::SnapshotCadence(message));
        },
    };
    let ghost expected_ends = epoch_ends(run_sizes(runs@), cadence.max_epoch_edges);
    let snapshot_bytes: u64 = node_count as u64 * 4;
    let mut snapshots: Vec<ComponentSnapshot> = Vec::new();
    let mut replay_epochs: u32 = 0;
    let mut replay_bytes: u64 = 0;
    let mut e: usize = 0;
    assert(models(snapshots@) =~= Seq::empty());
    while e < ends.len()
        invariant
            e <= ends@.len(),
            runs_stay_within(runs@, node_count),
            cadence.max_epoch_edges != 0,
            cadence.full_every_epochs != 0,
            cadence.max_replay_epochs != 0,
            cadence.max_replay_bytes != 0,
            first_oversized(run_sizes(runs@), cadence.max_epoch_edges, 0) is None,
            expected_ends == epoch_ends(run_sizes(runs@), cadence.max_epoch_edges),
            ends@.len() == expected_ends.len(),
            forall|i: int| 0 <= i < ends@.len() ==> #[trigger] ends@[i] == expected_ends[i],
            forall|i: int| 0 <= i < ends@.len() ==> #[trigger] ends@[i] <= runs@.len(),
            forall|i: int, j: int|
                0 <= i < j < ends@.len() ==> #[trigger] ends@[i] < #[trigger] ends@[j],
            snapshot_bytes == node_count * 4,
            e > 0 <==> snapshots@.len() > 0,
            chain_after(runs@, node_count, cadence, expected_ends, e as int) == Ok::<
                ChainProgress,
                ReduceFault,
            >(
                ChainProgress { chain: models(snapshots@), replay_epochs, replay_bytes },
            ),
        decreases ends.len() - e,
    {
        let ghost progress = ChainProgress {
            chain: models(snapshots@),
            replay_epochs,
            replay_bytes,
        };
        proof {
            lemma_chain_fault_stays(
                runs@,
                node_count,
                cadence,
                expected_ends,
                e + 1,
                expected_ends.len() as int,
            );
        }
        if e as u64 > u32::MAX as u64 {
            return Err(ReduceError::SnapshotCadence("epoch id exceeds u32".to_owned()));
        }
        let epoch: u32 = e as u32;
        let periodic: bool = epoch % cadence.full_every_epochs == 0;
        let exceeds: bool = replay_epochs.saturating_add(1) > cadence.max_replay_epochs
            || replay_bytes.saturating_add(snapshot_bytes) > cadence.max_replay_bytes;
        let end: usize = ends[e];
        if snapshots.len() == 0 || periodic || exceeds {
            let cumulative = slice_subrange(runs, 0, end);
            proof {
                assert(cumulative@ =~= runs@.take(end as int));
                if component::first_mismatch(cumulative@, node_count, 0) is None {
                    lemma_first_mismatch_none(cumulative@, node_count, 0);
                    assert forall|r: int| 0 <= r < cumulative@.len() implies graph::all_within(
                        (#[trigger] cumulative@[r]).edges@,
                        node_count as int,
                    ) by {
                        assert(cumulative@[r] == runs@[r]);
                    }
                    lemma_run_edges_within(cumulative@, node_count);
                }
            }
            match ComponentSnapshot::full(epoch, cumulative, node_count) {
                Ok(snapshot) => {
                    let ghost model = snapshot@;
                    let mut fresh: Vec<ComponentSnapshot> = Vec::new();
                    fresh.push(snapshot);
                    snapshots = fresh;
                    replay_epochs = 0;
                    replay_bytes = 0;
                    assert(models(snapshots@) =~= seq![model]);
                },
                Err(error) => {
                    return Err(error);
                },
            }
        } else {
            let start: usize = ends[e - 1];
            let epoch_runs = slice_subrange(runs, start, end);
            let last: usize = snapshots.len() - 1;
            match ComponentSnapshot::delta(epoch, &snapshots[last], epoch_runs) {
                Ok(snapshot) => {
                    let ghost model = snapshot@;
                    let ghost before = models(snapshots@);
                    assert(before.last() == snapshots@[last as int]@);
                    snapshots.push(snapshot);
                    assert(models(snapshots@) =~= before.push(model));
                    replay_epochs = replay_epochs.saturating_add(1);
                    replay_bytes = replay_bytes.saturating_add(snapshot_bytes);
                },
                Err(error) => {
                    return Err(error);
                },
            }
        }
        e = e + 1;
    }
    Ok(snapshots)
}

proof fn lemma_chain_fault_stays(
    runs: Seq<ForestRun>,
    node_count: u32,
    cadence: SnapshotCadence,
    ends: Seq<int>,
    early: int,
    late: int,
)
    requires
        0 <= early <= late,
    ensures
        chain_after(runs, node_count, cadence, ends, early) matches Err(fault) ==> chain_after(
            runs,
            node_count,
            cadence,
            ends,
            late,
        ) == Err::<ChainProgress, ReduceFault>(fault),
    decreases late - early,
{
    if early < late {
        lemma_chain_fault_stays(runs, node_count, cadence, ends, early, late - 1);
    }
}

/// The runs of a prefix are those of a shorter prefix and those between.
proof fn lemma_run_edges_split(runs: Seq<ForestRun>, a: int, b: int)
    requires
        0 <= a <= b <= runs.len(),
    ensures
        component::run_edges(runs.take(b)) == component::run_edges(runs.take(a))
            + component::run_edges(runs.subrange(a, b)),
    decreases b - a,
{
    let head = component::run_edges(runs.take(a));
    if a == b {
        assert(runs.subrange(a, b) =~= Seq::empty());
        assert(head + component::run_edges(runs.subrange(a, b)) =~= head);
    } else {
        lemma_run_edges_split(runs, a, b - 1);
        assert(runs.take(b).drop_last() =~= runs.take(b - 1));
        assert(runs.subrange(a, b).drop_last() =~= runs.subrange(a, b - 1));
        assert(runs.subrange(a, b).last() == runs[b - 1]);
        assert(component::run_edges(runs.take(b)) =~= head + component::run_edges(
            runs.subrange(a, b),
        ));
    }
}

/// Each snapshot of the chain follows on the one before.
pub open spec fn follows(chain: Seq<SnapshotModel>, k: int) -> bool {
    &&& chain[k].base_epoch == Some(chain[k - 1].epoch)
    &&& chain[k - 1].epoch < chain[k].epoch
}

/// One full snapshot and deltas on it, all over `node_count` nodes.
pub open spec fn is_sound_chain(chain: Seq<SnapshotModel>, node_count: u32) -> bool {
    &&& chain.len() >= 1
    &&& chain[0].base_epoch is None
    &&& forall|k: int| 1 <= k < chain.len() ==> #[trigger] follows(chain, k)
    &&& forall|k: int|
        0 <= k < chain.len() ==> (#[trigger] chain[k]).revision == COMPONENT_SNAPSHOT_REVISION
            && chain[k].roots.len() == node_count
}

proof fn lemma_chain_after(
    runs: Seq<ForestRun>,
    node_count: u32,
    cadence: SnapshotCadence,
    ends: Seq<int>,
    epochs: int,
)
    requires
        collector::runs_within(runs, node_count),
        1 <= epochs <= ends.len(),
        forall|i: int| 0 <= i < ends.len() ==> 0 <= #[trigger] ends[i] <= runs.len(),
        forall|i: int, j: int|
            0 <= i < j < ends.len() ==> #[trigger] ends[i] < #[trigger] ends[j],
        chain_after(runs, node_count, cadence, ends, epochs) is Ok,
    ensures
        ({
            let chain = chain_after(runs, node_count, cadence, ends, epochs)->Ok_0.chain;
            &&& is_sound_chain(chain, node_count)
            &&& chain.last().epoch == epochs - 1
            &&& chain.last().roots == component_roots(
                component::run_edges(runs.take(ends[epochs - 1])),
                node_count,
            )
        }),
    decreases epochs,
{
    let epoch = epochs - 1;
    let progress = chain_after(runs, node_count, cadence, ends, epoch)->Ok_0;
    let chain = chain_after(runs, node_count, cadence, ends, epochs)->Ok_0.chain;
    let upto = runs.take(ends[epoch]);
    let target = component::run_edges(upto);
    assert forall|r: int| 0 <= r < upto.len() implies graph::all_within(
        (#[trigger] upto[r]).edges@,
        node_count as int,
    ) by {
        assert(upto[r] == runs[r]);
        assert(runs[r].wf());
    }
    lemma_run_edges_within(upto, node_count);
    let roots = dsu::lemma_component_roots_exist(target, node_count);
    lemma_component_roots(target, node_count, roots);
    if starts_chain(cadence, (node_count * 4) as u64, epoch, progress) {
        assert(chain.len() == 1);
    } else {
        assert(epoch >= 1);
        lemma_chain_after(runs, node_count, cadence, ends, epoch);
        let base = progress.chain.last();
        let before = runs.take(ends[epoch - 1]);
        let source = component::run_edges(before);
        assert forall|r: int| 0 <= r < before.len() implies graph::all_within(
            (#[trigger] before[r]).edges@,
            node_count as int,
        ) by {
            assert(before[r] == runs[r]);
            assert(runs[r].wf());
        }
        lemma_run_edges_within(before, node_count);
        let base_roots = dsu::lemma_component_roots_exist(source, node_count);
        lemma_component_roots(source, node_count, base_roots);
        assert(base.roots == base_roots);
        lemma_root_edges_connectivity(source, base_roots);
        let added = component::run_edges(runs.subrange(ends[epoch - 1], ends[epoch]));
        lemma_run_edges_split(runs, ends[epoch - 1], ends[epoch]);
        let edges = root_edges(base_roots) + added;
        graph::lemma_concat_connectivity(root_edges(base_roots), added, source, added);
        assert(graph::same_connectivity(edges, target));
        assert forall|a: int, b: int| #[trigger]
            graph::connected(target, a, b) <==> graph::connected(edges, a, b) by {
            assert(graph::connected(edges, a, b) <==> graph::connected(target, a, b));
        }
        lemma_roots_of_same_connectivity(target, edges, roots);
        lemma_component_roots(edges, node_count, roots);
        let model = chain.last();
        assert(chain =~= progress.chain.push(model));
        assert forall|k: int| 1 <= k < chain.len() implies #[trigger] follows(chain, k) by {
            if k < progress.chain.len() {
                assert(follows(progress.chain, k));
            }
        }
        assert forall|k: int| 0 <= k < chain.len() implies (#[trigger] chain[k]).revision
            == COMPONENT_SNAPSHOT_REVISION && chain[k].roots.len() == node_count by {
            if k < progress.chain.len() {
                assert(chain[k] == progress.chain[k]);
            }
        }
    }
}

proof fn lemma_epoch_scan(sizes: Seq<u64>, cap: u64, end: int)
    requires
        0 <= end <= sizes.len(),
    ensures
        ({
            let (ends, start, _) = epoch_scan(sizes, cap, end);
            &&& 0 <= start <= end
            &&& end > 0 ==> start < end
            &&& ends.len() > 0 ==> ends.last() == start
            &&& forall|i: int| 0 <= i < ends.len() ==> 0 < #[trigger] ends[i] <= start
            &&& forall|i: int, j: int|
                0 <= i < j < ends.len() ==> #[trigger] ends[i] < #[trigger] ends[j]
        }),
    decreases end,
{
    if end > 0 {
        lemma_epoch_scan(sizes, cap, end - 1);
    }
}

/// The chain of runs over one node universe is sound, and its last snapshot holds the roots
/// of all their edges.
pub proof fn lemma_chain_holds_all_roots(
    runs: Seq<ForestRun>,
    node_count: u32,
    cadence: SnapshotCadence,
)
    requires
        collector::runs_within(runs, node_count),
        chain_outcome(runs, node_count, cadence) is Ok,
    ensures
        is_sound_chain(chain_outcome(runs, node_count, cadence)->Ok_0, node_count),
        chain_outcome(runs, node_count, cadence)->Ok_0.last().roots == component_roots(
            component::run_edges(runs),
            node_count,
        ),
{
    let sizes = run_sizes(runs);
    let ends = epoch_ends(sizes, cadence.max_epoch_edges);
    lemma_epoch_scan(sizes, cadence.max_epoch_edges, sizes.len() as int);
    assert(ends.len() >= 1);
    assert(ends.last() == runs.len());
    lemma_chain_after(runs, node_count, cadence, ends, ends.len() as int);
    assert(runs.take(runs.len() as int) =~= runs);
}

/// The bytes of replaying `deltas` snapshots, at most `u64::MAX`.
pub open spec fn replayed_bytes(deltas: int, node_count: u32) -> u64 {
    if deltas * (node_count * 4) <= u64::MAX {
        (deltas * (node_count * 4)) as u64
    } else {
        u64::MAX
    }
}

/// The epochs rise by one from snapshot to snapshot, and only the first may be periodic.
pub open spec fn is_spaced(chain: Seq<SnapshotModel>, cadence: SnapshotCadence) -> bool {
    forall|k: int|
        1 <= k < chain.len() ==> (#[trigger] chain[k]).epoch == chain[0].epoch + k
            && chain[k].epoch as int % cadence.full_every_epochs as int != 0
}

proof fn lemma_chain_spacing(
    runs: Seq<ForestRun>,
    node_count: u32,
    cadence: SnapshotCadence,
    ends: Seq<int>,
    epochs: int,
)
    requires
        1 <= epochs,
        chain_after(runs, node_count, cadence, ends, epochs) is Ok,
    ensures
        ({
            let progress = chain_after(runs, node_count, cadence, ends, epochs)->Ok_0;
            let deltas = progress.chain.len() - 1;
            &&& 0 <= deltas < epochs
            &&& progress.chain.last().epoch == epochs - 1
            &&& progress.chain[0].epoch == epochs - 1 - deltas
            &&& is_spaced(progress.chain, cadence)
            &&& progress.replay_epochs == deltas
            &&& progress.replay_bytes == replayed_bytes(deltas, node_count)
            &&& deltas > 0 ==> deltas <= cadence.max_replay_epochs && progress.replay_bytes
                <= cadence.max_replay_bytes
        }),
    decreases epochs,
{
    let epoch = epochs - 1;
    let before = chain_after(runs, node_count, cadence, ends, epoch)->Ok_0;
    let progress = chain_after(runs, node_count, cadence, ends, epochs)->Ok_0;
    let bytes = node_count * 4;
    assert(0 * bytes == 0);
    if !starts_chain(cadence, (node_count * 4) as u64, epoch, before) {
        assert(epoch >= 1);
        lemma_chain_spacing(runs, node_count, cadence, ends, epoch);
        let deltas = before.chain.len() as int;
        assert(deltas * bytes == (deltas - 1) * bytes + bytes) by (nonlinear_arith);
        assert((deltas - 1) * bytes >= 0) by (nonlinear_arith)
            requires
                deltas >= 1,
                bytes >= 0,
        ;
        assert forall|k: int| 1 <= k < progress.chain.len() implies (
        #[trigger] progress.chain[k]).epoch == progress.chain[0].epoch + k
            && progress.chain[k].epoch as int % cadence.full_every_epochs as int != 0 by {
            if k < before.chain.len() {
                assert(progress.chain[k] == before.chain[k]);
            }
        }
    }
}

/// A chain keeps to its cadence: its epochs rise by one; it has at most as many snapshots as
/// there are from one full snapshot to the next; and replaying its deltas exceeds neither limit
/// of the cadence.
pub proof fn lemma_chain_keeps_cadence(
    runs: Seq<ForestRun>,
    node_count: u32,
    cadence: SnapshotCadence,
)
    requires
        chain_outcome(runs, node_count, cadence) is Ok,
    ensures
        ({
            let chain = chain_outcome(runs, node_count, cadence)->Ok_0;
            &&& 1 <= chain.len() <= cadence.full_every_epochs
            &&& forall|k: int|
                1 <= k < chain.len() ==> (#[trigger] chain[k]).epoch == chain[0].epoch + k
            &&& chain.len() - 1 <= cadence.max_replay_epochs
            &&& replayed_bytes(chain.len() - 1, node_count) <= cadence.max_replay_bytes
        }),
{
    let sizes = run_sizes(runs);
    let ends = epoch_ends(sizes, cadence.max_epoch_edges);
    lemma_epoch_scan(sizes, cadence.max_epoch_edges, sizes.len() as int);
    assert(ends.len() >= 1);
    lemma_chain_spacing(runs, node_count, cadence, ends, ends.len() as int);
    let chain = chain_outcome(runs, node_count, cadence)->Ok_0;
    let every = cadence.full_every_epochs as int;
    if chain.len() > every {
        let first = chain[0].epoch as int;
        let k = every - first % every;
        assert(1 <= k <= every && (first + k) % every == 0) by (nonlinear_arith)
            requires
                every > 0,
                first >= 0,
                k == every - first % every,
        ;
        assert(chain[k].epoch == first + k);
    }
    assert(0 * (node_count * 4) == 0);
}

/// Neighbouring epochs increase at `i`.
pub open spec fn increases_at(chain: Seq<SnapshotModel>, i: int) -> bool {
    chain[i].epoch < chain[i + 1].epoch
}

/// Every epoch is above the one before.
pub open spec fn epochs_increase(chain: Seq<SnapshotModel>) -> bool {
    forall|i: int| 0 <= i < chain.len() - 1 ==> #[trigger] increases_at(chain, i)
}

/// The last full snapshot before `end`.
pub open spec fn last_full(chain: Seq<SnapshotModel>, end: int) -> Option<int>
    decreases end,
{
    if end <= 0 {
        None
    } else if chain[end - 1].base_epoch is None {
        Some(end - 1)
    } else {
        last_full(chain, end - 1)
    }
}

/// The first snapshot from `at` on that is no delta on the one before.
pub open spec fn first_broken(chain: Seq<SnapshotModel>, at: int) -> Option<int>
    decreases chain.len() - at,
{
    if at < 1 || at >= chain.len() {
        None
    } else if !follows(chain, at) || chain[at].roots.len() != chain[at - 1].roots.len() {
        Some(at)
    } else {
        first_broken(chain, at + 1)
    }
}

/// Why a chain cannot be recovered, if it cannot.
pub open spec fn recovery_fault(chain: Seq<SnapshotModel>) -> Option<ReduceFault> {
    if chain.len() == 0 {
        Some(ReduceFault::SnapshotChain("empty snapshot chain"@))
    } else if !epochs_increase(chain) {
        Some(ReduceFault::SnapshotChain("snapshot epochs are not strictly increasing"@))
    } else if last_full(chain, chain.len() as int) is None {
        Some(ReduceFault::SnapshotChain("snapshot chain has no full base"@))
    } else if first_broken(chain, last_full(chain, chain.len() as int)->0 + 1) is Some {
        let broken = first_broken(chain, last_full(chain, chain.len() as int)->0 + 1)->0;
        Some(
            ReduceFault::SnapshotChain(
                "broken delta at epoch "@ + text::decimal_text(chain[broken].epoch as nat),
            ),
        )
    } else {
        None
    }
}

/// The latest snapshot of a chain: the end of the deltas on its last full snapshot.
pub fn recover_component_snapshots(chain: &[ComponentSnapshot]) -> (result: Result<
    &ComponentSnapshot,
    ReduceError,
>)
    ensures
        match recovery_fault(models(chain@)) {
            None => result matches Ok(snapshot) && *snapshot == chain@.last(),
            Some(fault) => result matches Err(e) && e@ == fault,
        },
{
    let ghost plain = models(chain@);
    if chain.len() == 0 {
        return Err(chain_error("empty snapshot chain"));
    }
    let mut i: usize = 0;
    while i < chain.len() - 1
        invariant
            plain == models(chain@),
            chain@.len() > 0,
            i <= chain@.len() - 1,
            forall|k: int| 0 <= k < i ==> #[trigger] increases_at(plain, k),
        decreases chain.len() - i,
    {
        if chain[i + 1].epoch <= chain[i].epoch {
            assert(!increases_at(plain, i as int));
            return Err(chain_error("snapshot epochs are not strictly increasing"));
        }
        assert(increases_at(plain, i as int));
        i = i + 1;
    }
    let mut full: usize = chain.len();
    while full > 0 && chain[full - 1].base_epoch.is_some()
        invariant
            plain == models(chain@),
            full <= chain@.len(),
            last_full(plain, plain.len() as int) == last_full(plain, full as int),
        decreases full,
    {
        full = full - 1;
    }
    if full == 0 {
        return Err(chain_error("snapshot chain has no full base"));
    }
    let mut at: usize = full;
    while at < chain.len()
        invariant
            plain == models(chain@),
            1 <= full <= at <= chain@.len(),
            epochs_increase(plain),
            last_full(plain, plain.len() as int) == Some(full - 1),
            first_broken(plain, full as int) == first_broken(plain, at as int),
        decreases chain.len() - at,
    {
        let snapshot = &chain[at];
        let previous = &chain[at - 1];
        let based: bool = match snapshot.base_epoch {
            Some(epoch) => epoch == previous.epoch,
            None => false,
        };
        if !based || snapshot.epoch <= previous.epoch || snapshot.roots.len()
            != previous.roots.len() {
            let message = "broken delta at epoch ".to_owned().concat(
                decimal(snapshot.epoch as u64).as_str(),
            );
            return Err(ReduceError::SnapshotChain(message));
        }
        at = at + 1;
    }
    Ok(&chain[chain.len() - 1])
}

/// Why a chain does not belong to a node universe, if it does not.
pub open spec fn chain_fault(node_count: u32, chain: Seq<SnapshotModel>) -> Option<ReduceFault> {
    if chain.len() == 0 {
        Some(ReduceFault::SnapshotChain("component snapshot chain is empty"@))
    } else if chain[0].base_epoch is Some || exists|k: int|
        1 <= k < chain.len() && (#[trigger] chain[k]).base_epoch is None {
        Some(
            ReduceFault::SnapshotChain(
                "component snapshot chain must contain exactly one leading full snapshot"@,
            ),
        )
    } else if exists|k: int|
        0 <= k < chain.len() && ((#[trigger] chain[k]).revision != COMPONENT_SNAPSHOT_REVISION
            || chain[k].roots.len() != node_count) {
        Some(
            ReduceFault::SnapshotChain(
                "component snapshot chain identity/node count mismatch"@,
            ),
        )
    } else {
        recovery_fault(chain)
    }
}

/// Refuses a chain that does not belong to `node_count` nodes or cannot be recovered.
pub fn validate_component_snapshot_chain(node_count: u32, chain: &[ComponentSnapshot]) -> (result:
    Result<(), ReduceError>)
    ensures
        match chain_fault(node_count, models(chain@)) {
            None => result is Ok,
            Some(fault) => result matches Err(e) && e@ == fault,
        },
{
    let ghost plain = models(chain@);
    if chain.len() == 0 {
        return Err(chain_error("component snapshot chain is empty"));
    }
    let mut leading: bool = chain[0].base_epoch.is_none();
    let mut i: usize = 1;
    while i < chain.len()
        invariant
            plain == models(chain@),
            1 <= i <= chain@.len(),
            leading <==> plain[0].base_epoch is None && forall|k: int|
                1 <= k < i ==> (#[trigger] plain[k]).base_epoch is Some,
        decreases chain.len() - i,
    {
        let ghost here = plain[i as int];
        if chain[i].base_epoch.is_none() {
            assert(here.base_epoch is None);
            leading = false;
        }
        i = i + 1;
    }
    if !leading {
        return Err(
            chain_error(
                "component snapshot chain must contain exactly one leading full snapshot",
            ),
        );
    }
    let mut matching: bool = true;
    let mut j: usize = 0;
    while j < chain.len()
        invariant
            plain == models(chain@),
            j <= chain@.len(),
            matching <==> forall|k: int|
                0 <= k < j ==> (#[trigger] plain[k]).revision == COMPONENT_SNAPSHOT_REVISION
                    && plain[k].roots.len() == node_count,
        decreases chain.len() - j,
    {
        let ghost here = plain[j as int];
        if chain[j].revision != COMPONENT_SNAPSHOT_REVISION || chain[j].roots.len()
            != node_count as usize {
            assert(here.revision != COMPONENT_SNAPSHOT_REVISION || here.roots.len() != node_count);
            matching = false;
        }
        j = j + 1;
    }
    if !matching {
        return Err(chain_error("component snapshot chain identity/node count mismatch"));
    }
    match recover_component_snapshots(chain) {
        Ok(_) => Ok(()),
        Err(error) => Err(error),
    }
}

proof fn lemma_last_full_first(chain: Seq<SnapshotModel>, end: int)
    requires
        1 <= end <= chain.len(),
        chain[0].base_epoch is None,
        forall|k: int| 1 <= k < chain.len() ==> #[trigger] follows(chain, k),
    ensures
        last_full(chain, end) == Some(0int),
    decreases end,
{
    if end > 1 {
        assert(follows(chain, end - 1));
        lemma_last_full_first(chain, end - 1);
    }
}

proof fn lemma_nothing_broken(chain: Seq<SnapshotModel>, node_count: u32, at: int)
    requires
        1 <= at,
        is_sound_chain(chain, node_count),
    ensures
        first_broken(chain, at) is None,
    decreases chain.len() - at,
{
    if at < chain.len() {
        assert(follows(chain, at));
        lemma_nothing_broken(chain, node_count, at + 1);
    }
}

/// A sound chain is accepted for its nodes and can be recovered, so that the chain that was
/// built for runs gives back their roots.
pub proof fn lemma_sound_chain_is_accepted(chain: Seq<SnapshotModel>, node_count: u32)
    requires
        is_sound_chain(chain, node_count),
    ensures
        chain_fault(node_count, chain) is None,
        recovery_fault(chain) is None,
{
    assert forall|i: int| 0 <= i < chain.len() - 1 implies #[trigger] increases_at(chain, i) by {
        assert(follows(chain, i + 1));
    }
    assert forall|k: int| 1 <= k < chain.len() implies (#[trigger] chain[k]).base_epoch is Some by {
        assert(follows(chain, k));
    }
    lemma_last_full_first(chain, chain.len() as int);
    lemma_nothing_broken(chain, node_count, 1);
}

} // verus!
