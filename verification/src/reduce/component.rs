//! Component roots of forest runs.

use crate::reduce::dsu;
use crate::reduce::dsu::Dsu;
use crate::reduce::error::{ReduceError, ReduceFault};
use crate::reduce::forest::ForestRun;
use crate::reduce::graph;
use crate::reduce::graph::Edge;
use crate::reduce::storage;
use crate::reduce::storage::ForestRunStorage;
use vstd::prelude::*;

verus! {

/// Units of work between two progress reports.
pub const PROGRESS_CHUNK: u64 = 16_384;

/// The edges of all runs, run after run.
pub open spec fn run_edges(runs: Seq<ForestRun>) -> Seq<Edge>
    decreases runs.len(),
{
    if runs.len() == 0 {
        Seq::empty()
    } else {
        run_edges(runs.drop_last()) + runs.last().edges@
    }
}

/// The edges of all stored runs, run after run.
pub open spec fn storage_edges(runs: Seq<ForestRunStorage>) -> Seq<Edge>
    decreases runs.len(),
{
    if runs.len() == 0 {
        Seq::empty()
    } else {
        storage_edges(runs.drop_last()) + runs.last().edges()
    }
}

/// The node count of the first run from `at` on that is over another node universe.
pub open spec fn first_mismatch(runs: Seq<ForestRun>, node_count: u32, at: int) -> Option<u32>
    decreases runs.len() - at,
{
    if at < 0 || at >= runs.len() {
        None
    } else if runs[at].node_count != node_count {
        Some(runs[at].node_count)
    } else {
        first_mismatch(runs, node_count, at + 1)
    }
}

/// The node count of the first stored run from `at` on that is over another node universe.
pub open spec fn first_storage_mismatch(
    runs: Seq<ForestRunStorage>,
    node_count: u32,
    at: int,
) -> Option<u32>
    decreases runs.len() - at,
{
    if at < 0 || at >= runs.len() {
        None
    } else if runs[at].nodes() != node_count {
        Some(runs[at].nodes())
    } else {
        first_storage_mismatch(runs, node_count, at + 1)
    }
}

/// Runs that are all over the nodes do not differ from them.
pub proof fn lemma_no_storage_mismatch(
    runs: Seq<ForestRunStorage>,
    node_count: u32,
    at: int,
)
    requires
        forall|r: int| 0 <= r < runs.len() ==> (#[trigger] runs[r]).nodes() == node_count,
    ensures
        first_storage_mismatch(runs, node_count, at) is None,
    decreases runs.len() - at,
{
    if 0 <= at < runs.len() {
        lemma_no_storage_mismatch(runs, node_count, at + 1);
    }
}

/// Reports of completed work out of `total`: from none to never more than the total, in
/// steps of at most one chunk.
pub open spec fn is_progress(reports: Seq<(u64, u64)>, total: u64) -> bool {
    &&& reports.len() >= 1
    &&& reports[0] == (0u64, total)
    &&& forall|i: int| 0 <= i < reports.len() ==> (#[trigger] reports[i]).1 == total && reports[i].0 <= total
    &&& forall|i: int, j: int|
        0 <= i < j < reports.len() ==> (#[trigger] reports[i]).0 < (#[trigger] reports[j]).0
    &&& forall|i: int, j: int|
        0 <= i && j == i + 1 && j < reports.len() ==> (#[trigger] reports[j]).0 - (
        #[trigger] reports[i]).0 <= PROGRESS_CHUNK
}

/// `grown` extends `before` by progress reports that arrived at `completed`.
pub open spec fn reported(
    before: Seq<(u64, u64)>,
    grown: Seq<(u64, u64)>,
    completed: u64,
    total: u64,
) -> bool {
    &&& before.len() < grown.len()
    &&& grown.take(before.len() as int) == before
    &&& is_progress(grown.skip(before.len() as int), total)
    &&& grown.last() == (completed, total)
}

/// The work of reducing: one unit per edge and per node.
pub fn planned_reduce_work(edge_work: u64, node_count: u32) -> (result: Result<u64, ReduceError>)
    ensures
        edge_work + node_count <= u64::MAX ==> (result matches Ok(total) && total == edge_work
            + node_count),
        edge_work + node_count > u64::MAX ==> (result matches Err(e) && e@
            == ReduceFault::WorkOverflow),
{
    match edge_work.checked_add(node_count as u64) {
        Some(total) => Ok(total),
        None => Err(ReduceError::WorkOverflow),
    }
}

proof fn lemma_run_edges_step(runs: Seq<ForestRun>, i: int)
    requires
        0 <= i < runs.len(),
    ensures
        run_edges(runs.take(i + 1)) == run_edges(runs.take(i)) + runs[i].edges@,
{
    assert(runs.take(i + 1).drop_last() =~= runs.take(i));
}

proof fn lemma_run_edges_prefix(runs: Seq<ForestRun>, i: int)
    requires
        0 <= i <= runs.len(),
    ensures
        run_edges(runs.take(i)).len() <= run_edges(runs).len(),
        forall|k: int|
            0 <= k < run_edges(runs.take(i)).len() ==> run_edges(runs)[k] == run_edges(
                runs.take(i),
            )[k],
    decreases runs.len() - i,
{
    if i < runs.len() {
        lemma_run_edges_step(runs, i);
        lemma_run_edges_prefix(runs, i + 1);
        assert forall|k: int| 0 <= k < run_edges(runs.take(i)).len() implies run_edges(runs)[k]
            == run_edges(runs.take(i))[k] by {
            assert(run_edges(runs.take(i + 1))[k] == run_edges(runs.take(i))[k]);
        }
    } else {
        assert(runs.take(i) =~= runs);
    }
}

/// The edges of a run occur among those of all runs.
pub proof fn lemma_run_edges_contain(runs: Seq<ForestRun>, r: int, k: int)
    requires
        0 <= r < runs.len(),
        0 <= k < runs[r].edges@.len(),
    ensures
        run_edges(runs).contains(runs[r].edges@[k]),
{
    lemma_run_edges_step(runs, r);
    lemma_run_edges_prefix(runs, r + 1);
    let at = run_edges(runs.take(r)).len() + k;
    assert(run_edges(runs.take(r + 1))[at] == runs[r].edges@[k]);
    assert(run_edges(runs)[at] == runs[r].edges@[k]);
}

proof fn lemma_storage_edges_step(runs: Seq<ForestRunStorage>, i: int)
    requires
        0 <= i < runs.len(),
    ensures
        storage_edges(runs.take(i + 1)) == storage_edges(runs.take(i)) + runs[i].edges(),
{
    assert(runs.take(i + 1).drop_last() =~= runs.take(i));
}

proof fn lemma_storage_edges_prefix(runs: Seq<ForestRunStorage>, i: int)
    requires
        0 <= i <= runs.len(),
    ensures
        storage_edges(runs.take(i)).len() <= storage_edges(runs).len(),
        forall|k: int|
            0 <= k < storage_edges(runs.take(i)).len() ==> storage_edges(runs)[k] == storage_edges(
                runs.take(i),
            )[k],
    decreases runs.len() - i,
{
    if i < runs.len() {
        lemma_storage_edges_step(runs, i);
        lemma_storage_edges_prefix(runs, i + 1);
        assert forall|k: int| 0 <= k < storage_edges(runs.take(i)).len() implies storage_edges(
            runs,
        )[k] == storage_edges(runs.take(i))[k] by {
            assert(storage_edges(runs.take(i + 1))[k] == storage_edges(runs.take(i))[k]);
        }
    } else {
        assert(runs.take(i) =~= runs);
    }
}

proof fn lemma_report(
    before: Seq<(u64, u64)>,
    grown: Seq<(u64, u64)>,
    completed: u64,
    total: u64,
    next: u64,
)
    requires
        reported(before, grown, completed, total),
        completed < next <= total,
        next - completed <= PROGRESS_CHUNK,
    ensures
        reported(before, grown.push((next, total)), next, total),
{
    let n = before.len() as int;
    let more = grown.push((next, total));
    assert(more.take(n) =~= before);
    let old_reports = grown.skip(n);
    let new_reports = more.skip(n);
    assert(new_reports =~= old_reports.push((next, total)));
    assert(old_reports.last() == (completed, total));
    assert forall|i: int, j: int| 0 <= i < j < new_reports.len() implies (
    #[trigger] new_reports[i]).0 < (#[trigger] new_reports[j]).0 by {
        if j == old_reports.len() {
            if i < old_reports.len() - 1 {
                assert(old_reports[i].0 < old_reports[old_reports.len() - 1].0);
            }
        } else {
            assert(old_reports[i].0 < old_reports[j].0);
        }
    }
    assert forall|i: int, j: int| 0 <= i && j == i + 1 && j < new_reports.len() implies (
    #[trigger] new_reports[j]).0 - (#[trigger] new_reports[i]).0 <= PROGRESS_CHUNK by {
        if j < old_reports.len() {
            assert(old_reports[j].0 - old_reports[i].0 <= PROGRESS_CHUNK);
        }
    }
}

proof fn lemma_first_report(before: Seq<(u64, u64)>, total: u64)
    ensures
        reported(before, before.push((0u64, total)), 0, total),
{
    let grown = before.push((0u64, total));
    assert(grown.take(before.len() as int) =~= before);
    assert(grown.skip(before.len() as int) =~= seq![(0u64, total)]);
}

/// The root of every node, reporting progress from `completed` to the total.
fn collect_roots(
    dsu: &mut Dsu,
    node_count: u32,
    completed: u64,
    total: u64,
    reports: &mut Vec<(u64, u64)>,
    Ghost(before): Ghost<Seq<(u64, u64)>>,
    Ghost(edges): Ghost<Seq<Edge>>,
) -> (roots: Vec<u32>)
    requires
        old(dsu).parent@.len() == node_count,
        dsu::represents(old(dsu).parent@, edges),
        graph::all_within(edges, node_count as int),
        completed + node_count == total,
        reported(before, old(reports)@, completed, total),
    ensures
        roots@.len() == node_count,
        graph::are_component_roots(edges, roots@),
        reported(before, final(reports)@, total, total),
{
    let mut roots: Vec<u32> = Vec::new();
    let mut node: u32 = 0;
    let mut done: u64 = completed;
    let mut pending: u64 = 0;
    while node < node_count
        invariant
            node <= node_count,
            roots@.len() == node,
            dsu.parent@.len() == node_count,
            dsu::represents(dsu.parent@, edges),
            graph::all_within(edges, node_count as int),
            graph::are_component_roots(edges, roots@),
            completed + node_count == total,
            done + pending == completed + node,
            pending < PROGRESS_CHUNK,
            reported(before, reports@, done, total),
        decreases node_count - node,
    {
        proof {
            dsu::lemma_root_is_minimum(dsu.parent@, edges, node as int);
        }
        let root: u32 = dsu.find(node);
        roots.push(root);
        node = node + 1;
        pending = pending + 1;
        if pending == PROGRESS_CHUNK {
            proof {
                lemma_report(before, reports@, done, total, (done + pending) as u64);
            }
            done = done + pending;
            pending = 0;
            reports.push((done, total));
        }
    }
    if pending > 0 {
        proof {
            lemma_report(before, reports@, done, total, (done + pending) as u64);
        }
        reports.push((done + pending, total));
    }
    roots
}

/// The smallest node of every node's component.
pub fn reduce_components(runs: &[ForestRun], node_count: u32) -> (result: Result<
    Vec<u32>,
    ReduceError,
>)
    requires
        first_mismatch(runs@, node_count, 0) is None ==> graph::all_within(
            run_edges(runs@),
            node_count as int,
        ),
    ensures
        is_reduction(runs@, node_count, result),
{
    let mut reports: Vec<(u64, u64)> = Vec::new();
    reduce_components_with_progress(runs, node_count, &mut reports)
}

/// What reducing runs gives: the roots, or the overflow or mismatch that refuses it.
pub open spec fn is_reduction(
    runs: Seq<ForestRun>,
    node_count: u32,
    result: Result<Vec<u32>, ReduceError>,
) -> bool {
    if run_edges(runs).len() + node_count > u64::MAX {
        result matches Err(e) && e@ == ReduceFault::WorkOverflow
    } else if first_mismatch(runs, node_count, 0) is Some {
        result matches Err(e) && e@ == (ReduceFault::Endpoint {
            endpoint: first_mismatch(runs, node_count, 0)->0,
            node_count,
        })
    } else {
        result matches Ok(roots) && roots@.len() == node_count && graph::are_component_roots(
            run_edges(runs),
            roots@,
        )
    }
}

/// As [`reduce_components`]; appends reports of completed and total work.
pub fn reduce_components_with_progress(
    runs: &[ForestRun],
    node_count: u32,
    reports: &mut Vec<(u64, u64)>,
) -> (result: Result<Vec<u32>, ReduceError>)
    requires
        first_mismatch(runs@, node_count, 0) is None ==> graph::all_within(
            run_edges(runs@),
            node_count as int,
        ),
    ensures
        is_reduction(runs@, node_count, result),
        result is Ok ==> reported(
            old(reports)@,
            final(reports)@,
            (run_edges(runs@).len() + node_count) as u64,
            (run_edges(runs@).len() + node_count) as u64,
        ),
{
    let mut edge_work: u64 = 0;
    let mut r: usize = 0;
    while r < runs.len()
        invariant
            r <= runs@.len(),
            edge_work == run_edges(runs@.take(r as int)).len(),
        decreases runs.len() - r,
    {
        proof {
            lemma_run_edges_step(runs@, r as int);
            lemma_run_edges_prefix(runs@, r + 1);
        }
        match edge_work.checked_add(runs[r].edges.len() as u64) {
            Some(sum) => {
                edge_work = sum;
            },
            None => {
                return Err(ReduceError::WorkOverflow);
            },
        }
        r = r + 1;
    }
    let ghost all = run_edges(runs@);
    proof {
        assert(runs@.take(r as int) =~= runs@);
    }
    let total: u64 = match planned_reduce_work(edge_work, node_count) {
        Ok(total) => total,
        Err(error) => {
            return Err(error);
        },
    };
    let ghost before = reports@;
    proof {
        lemma_first_report(before, total);
    }
    reports.push((0, total));
    let mut m: usize = 0;
    while m < runs.len()
        invariant
            m <= runs@.len(),
            run_edges(runs@).len() + node_count <= u64::MAX,
            first_mismatch(runs@, node_count, 0) == first_mismatch(runs@, node_count, m as int),
        decreases runs.len() - m,
    {
        if runs[m].node_count != node_count {
            return Err(ReduceError::Endpoint { endpoint: runs[m].node_count, node_count });
        }
        m = m + 1;
    }
    let mut dsu = Dsu::new(node_count);
    let mut done: u64 = 0;
    let mut q: usize = 0;
    proof {
        assert(runs@.take(0) =~= Seq::empty());
    }
    while q < runs.len()
        invariant
            q <= runs@.len(),
            all == run_edges(runs@),
            total == all.len() + node_count,
            graph::all_within(all, node_count as int),
            dsu.parent@.len() == node_count,
            dsu.wf(),
            dsu::represents(dsu.parent@, run_edges(runs@.take(q as int))),
            done == run_edges(runs@.take(q as int)).len(),
            reported(before, reports@, done, total),
        decreases runs.len() - q,
    {
        let run = &runs[q];
        let ghost base = run_edges(runs@.take(q as int));
        let mut i: usize = 0;
        let mut pending: u64 = 0;
        proof {
            lemma_run_edges_step(runs@, q as int);
            lemma_run_edges_prefix(runs@, q + 1);
            assert(base + run.edges@.take(0) =~= base);
        }
        while i < run.edges.len()
            invariant
                i <= run.edges@.len(),
                total == all.len() + node_count,
                base.len() + run.edges@.len() <= all.len(),
                forall|k: int|
                    0 <= k < run.edges@.len() ==> all[base.len() + k] == #[trigger] run.edges@[k],
                graph::all_within(all, node_count as int),
                dsu.parent@.len() == node_count,
                dsu.wf(),
                dsu::represents(dsu.parent@, base + run.edges@.take(i as int)),
                done + pending == base.len() + i,
                pending < PROGRESS_CHUNK,
                reported(before, reports@, done, total),
            decreases run.edges.len() - i,
        {
            let edge = run.edges[i];
            proof {
                assert(all[base.len() + i] == edge);
                assert(all[base.len() + i].within(node_count as int));
                assert((base + run.edges@.take(i as int)).push(edge) =~= base + run.edges@.take(
                    i + 1,
                ));
            }
            let _joined = dsu.union(edge);
            i = i + 1;
            pending = pending + 1;
            if pending == PROGRESS_CHUNK {
                proof {
                    lemma_report(before, reports@, done, total, (done + pending) as u64);
                }
                done = done + pending;
                pending = 0;
                reports.push((done, total));
            }
        }
        if pending > 0 {
            proof {
                lemma_report(before, reports@, done, total, (done + pending) as u64);
            }
            done = done + pending;
            reports.push((done, total));
        }
        proof {
            assert(run.edges@.take(i as int) =~= run.edges@);
        }
        q = q + 1;
    }
    proof {
        assert(runs@.take(q as int) =~= runs@);
    }
    let roots = collect_roots(&mut dsu, node_count, done, total, reports, Ghost(before), Ghost(all));
    Ok(roots)
}

/// Reducing does not depend on the order of the runs, nor on how edges are spread over
/// them: runs that connect the same nodes have the same roots.
pub proof fn lemma_reduction_depends_on_connectivity(
    left: Seq<ForestRun>,
    right: Seq<ForestRun>,
    left_roots: Seq<u32>,
    right_roots: Seq<u32>,
)
    requires
        graph::same_connectivity(run_edges(left), run_edges(right)),
        graph::are_component_roots(run_edges(left), left_roots),
        graph::are_component_roots(run_edges(right), right_roots),
        left_roots.len() == right_roots.len(),
    ensures
        left_roots == right_roots,
{
    graph::lemma_component_roots_unique(
        run_edges(left),
        run_edges(right),
        left_roots,
        right_roots,
    );
}

/// `local` is what the mapping made of the stored edges, all of them inside both universes.
pub open spec fn is_mapping_of<F: Fn(Edge) -> Result<Edge, ReduceError>>(
    map_edge: F,
    edges: Seq<Edge>,
    local: Seq<Edge>,
    source_node_count: u32,
    target_node_count: u32,
) -> bool {
    &&& local.len() == edges.len()
    &&& graph::all_within(edges, source_node_count as int)
    &&& graph::all_within(local, target_node_count as int)
    &&& forall|k: int|
        0 <= k < edges.len() ==> call_ensures(map_edge, (#[trigger] edges[k],), Ok(local[k]))
}

/// Edge `k` refuses the reduction with this error: it leaves the source universe, the
/// mapping refuses it, or its image leaves the target universe.
pub open spec fn refuses<F: Fn(Edge) -> Result<Edge, ReduceError>>(
    map_edge: F,
    edge: Edge,
    source_node_count: u32,
    target_node_count: u32,
    error: ReduceError,
) -> bool {
    if !edge.within(source_node_count as int) {
        error@ == (ReduceFault::Endpoint {
            endpoint: storage::greater_endpoint(edge),
            node_count: source_node_count,
        })
    } else {
        ||| call_ensures(map_edge, (edge,), Err(error))
        ||| exists|image: Edge| #[trigger]
            call_ensures(map_edge, (edge,), Ok(image)) && !image.within(target_node_count as int)
                && error@ == (ReduceFault::Endpoint {
                endpoint: storage::greater_endpoint(image),
                node_count: target_node_count,
            })
    }
}

/// The smallest node of every component after mapping each stored edge into another node
/// universe; appends reports of completed and total work.
pub fn reduce_stored_components_with_progress<F: Fn(Edge) -> Result<Edge, ReduceError>>(
    runs: &[ForestRunStorage],
    source_node_count: u32,
    target_node_count: u32,
    map_edge: F,
    reports: &mut Vec<(u64, u64)>,
) -> (result: Result<Vec<u32>, ReduceError>)
    requires
        forall|r: int| 0 <= r < runs@.len() ==> (#[trigger] runs@[r]).wf(),
        forall|edge: Edge| #[trigger] edge.within(source_node_count as int) ==> call_requires(map_edge, (edge,)),
    ensures
        storage_edges(runs@).len() + target_node_count > u64::MAX ==> (result matches Err(e) && e@
            == ReduceFault::WorkOverflow),
        storage_edges(runs@).len() + target_node_count <= u64::MAX ==> match first_storage_mismatch(
            runs@,
            source_node_count,
            0,
        ) {
            Some(endpoint) => result matches Err(e) && e@ == (ReduceFault::Endpoint {
                endpoint,
                node_count: source_node_count,
            }),
            None => match result {
                Ok(roots) => {
                    &&& roots@.len() == target_node_count
                    &&& reported(
                        old(reports)@,
                        final(reports)@,
                        (storage_edges(runs@).len() + target_node_count) as u64,
                        (storage_edges(runs@).len() + target_node_count) as u64,
                    )
                    &&& exists|local: Seq<Edge>| #[trigger]
                        is_mapping_of(
                            map_edge,
                            storage_edges(runs@),
                            local,
                            source_node_count,
                            target_node_count,
                        ) && graph::are_component_roots(local, roots@)
                },
                Err(error) => exists|k: int|
                    0 <= k < storage_edges(runs@).len() && refuses(
                        map_edge,
                        #[trigger] storage_edges(runs@)[k],
                        source_node_count,
                        target_node_count,
                        error,
                    ),
            },
        },
{
    let mut edge_work: u64 = 0;
    let mut r: usize = 0;
    while r < runs.len()
        invariant
            r <= runs@.len(),
            edge_work == storage_edges(runs@.take(r as int)).len(),
        decreases runs.len() - r,
    {
        proof {
            lemma_storage_edges_step(runs@, r as int);
            lemma_storage_edges_prefix(runs@, r + 1);
        }
        match edge_work.checked_add(runs[r].edge_count() as u64) {
            Some(sum) => {
                edge_work = sum;
            },
            None => {
                return Err(ReduceError::WorkOverflow);
            },
        }
        r = r + 1;
    }
    let ghost all = storage_edges(runs@);
    proof {
        assert(runs@.take(r as int) =~= runs@);
    }
    let total: u64 = match planned_reduce_work(edge_work, target_node_count) {
        Ok(total) => total,
        Err(error) => {
            return Err(error);
        },
    };
    let ghost before = reports@;
    proof {
        lemma_first_report(before, total);
    }
    reports.push((0, total));
    let mut m: usize = 0;
    while m < runs.len()
        invariant
            m <= runs@.len(),
            storage_edges(runs@).len() + target_node_count <= u64::MAX,
            first_storage_mismatch(runs@, source_node_count, 0) == first_storage_mismatch(
                runs@,
                source_node_count,
                m as int,
            ),
        decreases runs.len() - m,
    {
        let nodes: u32 = runs[m].node_count();
        if nodes != source_node_count {
            return Err(ReduceError::Endpoint { endpoint: nodes, node_count: source_node_count });
        }
        m = m + 1;
    }
    let mut dsu = Dsu::new(target_node_count);
    let ghost mut local: Seq<Edge> = Seq::empty();
    let mut done: u64 = 0;
    let mut q: usize = 0;
    proof {
        assert(runs@.take(0) =~= Seq::empty());
    }
    while q < runs.len()
        invariant
            q <= runs@.len(),
            all == storage_edges(runs@),
            total == all.len() + target_node_count,
            first_storage_mismatch(runs@, source_node_count, 0) is None,
            forall|r: int| 0 <= r < runs@.len() ==> (#[trigger] runs@[r]).wf(),
            forall|edge: Edge| #[trigger]
                edge.within(source_node_count as int) ==> call_requires(map_edge, (edge,)),
            dsu.parent@.len() == target_node_count,
            dsu.wf(),
            dsu::represents(dsu.parent@, local),
            local.len() == storage_edges(runs@.take(q as int)).len(),
            forall|k: int|
                0 <= k < local.len() ==> {
                    &&& (#[trigger] all[k]).within(source_node_count as int)
                    &&& local[k].within(target_node_count as int)
                    &&& call_ensures(map_edge, (all[k],), Ok(local[k]))
                },
            done == local.len(),
            reported(before, reports@, done, total),
        decreases runs.len() - q,
    {
        let run = &runs[q];
        let count: usize = run.edge_count();
        let ghost base = storage_edges(runs@.take(q as int));
        let mut i: usize = 0;
        let mut pending: u64 = 0;
        proof {
            lemma_storage_edges_step(runs@, q as int);
            lemma_storage_edges_prefix(runs@, q + 1);
        }
        while i < count
            invariant
                i <= count,
                run.wf(),
                count == run.edges().len(),
                all == storage_edges(runs@),
                total == all.len() + target_node_count,
                first_storage_mismatch(runs@, source_node_count, 0) is None,
                forall|edge: Edge| #[trigger]
                    edge.within(source_node_count as int) ==> call_requires(map_edge, (edge,)),
                base.len() + count <= all.len(),
                forall|k: int|
                    0 <= k < count ==> all[base.len() + k] == #[trigger] run.edges()[k],
                dsu.parent@.len() == target_node_count,
                dsu.wf(),
                dsu::represents(dsu.parent@, local),
                local.len() == base.len() + i,
                forall|k: int|
                    0 <= k < local.len() ==> {
                        &&& (#[trigger] all[k]).within(source_node_count as int)
                        &&& local[k].within(target_node_count as int)
                        &&& call_ensures(map_edge, (all[k],), Ok(local[k]))
                    },
                done + pending == local.len(),
                pending < PROGRESS_CHUNK,
                reported(before, reports@, done, total),
            decreases count - i,
        {
            let edge = run.edge(i);
            assert(all[base.len() + i] == edge);
            if edge.left >= source_node_count || edge.right >= source_node_count {
                let endpoint: u32 = if edge.left >= edge.right {
                    edge.left
                } else {
                    edge.right
                };
                return Err(ReduceError::Endpoint { endpoint, node_count: source_node_count });
            }
            assert(edge.within(source_node_count as int));
            match map_edge(edge) {
                Err(error) => {
                    return Err(error);
                },
                Ok(image) => {
                    if image.left >= target_node_count || image.right >= target_node_count {
                        let endpoint: u32 = if image.left >= image.right {
                            image.left
                        } else {
                            image.right
                        };
                        let error = ReduceError::Endpoint { endpoint, node_count: target_node_count };
                        assert(call_ensures(map_edge, (edge,), Ok(image)));
                        assert(refuses(
                            map_edge,
                            all[base.len() + i],
                            source_node_count,
                            target_node_count,
                            error,
                        ));
                        return Err(error);
                    }
                    let _joined = dsu.union(image);
                    proof {
                        local = local.push(image);
                    }
                },
            }
            i = i + 1;
            pending = pending + 1;
            if pending == PROGRESS_CHUNK {
                proof {
                    lemma_report(before, reports@, done, total, (done + pending) as u64);
                }
                done = done + pending;
                pending = 0;
                reports.push((done, total));
            }
        }
        if pending > 0 {
            proof {
                lemma_report(before, reports@, done, total, (done + pending) as u64);
            }
            done = done + pending;
            reports.push((done, total));
        }
        q = q + 1;
    }
    proof {
        assert(runs@.take(q as int) =~= runs@);
        assert(graph::all_within(all, source_node_count as int));
        assert forall|k: int| 0 <= k < local.len() implies (#[trigger] local[k]).within(
            target_node_count as int,
        ) by {
            assert(all[k].within(source_node_count as int));
        }
        assert(is_mapping_of(map_edge, all, local, source_node_count, target_node_count));
    }
    let roots = collect_roots(
        &mut dsu,
        target_node_count,
        done,
        total,
        reports,
        Ghost(before),
        Ghost(local),
    );
    Ok(roots)
}

} // verus!
