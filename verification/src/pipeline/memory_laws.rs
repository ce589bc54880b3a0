//! What memory plans grant: as much as fits, and no more.

use crate::columns;
use crate::pipeline::admission;
use crate::pipeline::atoms;
use crate::pipeline::collector_plan;
use crate::pipeline::collector_plan::PlanInputs;
use crate::pipeline::pairs;
use crate::pipeline::plans;
use crate::pipeline::plans::{ComponentMemoryPlan, ComponentRootMode, SummaryMemoryPlan};
use crate::pipeline::rescue_memory;
use crate::pipeline::rescue_memory::RescueAdmission;
use crate::pipeline::run_plan;
use crate::pipeline::run_plan::RunEstimates;
use crate::pipeline::tokens;
use crate::reduce::scratch::EdgeCollectorScratchKind;
use crate::resource::BrokerModel;
use crate::snapshot::features::FeatureView;
use crate::snapshot::metadata::MetadataSnapshot;
use crate::sorting;
use vstd::prelude::*;

verus! {

/// A partition of so many bytes may be had: no more than sixteen bytes per pair, and three of
/// them within eight gibibytes and within a 32nd of the top. The least partition always may.
pub open spec fn may_partition(top: int, work: int, durable: bool, bytes: int) -> bool {
    let least: int = if durable {
        65_536
    } else {
        1
    };
    &&& bytes <= least || bytes <= 16 * work
    &&& bytes <= least || (3 * bytes <= 8_589_934_592 && 96 * bytes <= top)
}

/// An evidence partition is the greatest that may be had.
pub proof fn lemma_partition_is_greatest(top: int, work: int, durable: bool, bytes: int)
    requires
        0 <= top,
        0 <= work,
    ensures
        admission::evidence_partition(top, work, durable) >= 1,
        may_partition(top, work, durable, admission::evidence_partition(top, work, durable)),
        may_partition(top, work, durable, bytes) ==> bytes <= admission::evidence_partition(
            top,
            work,
            durable,
        ),
{
    let part = top / 32;
    assert(32 * part <= top < 32 * part + 32);
    let share: int = if part > 8_589_934_592 {
        8_589_934_592
    } else if part < 1 {
        1
    } else {
        part
    };
    let third = share / 3;
    assert(3 * third <= share < 3 * third + 3);
    let floor: int = if durable {
        65_536
    } else {
        1
    };
    let one = if third < floor {
        floor
    } else {
        third
    };
    let all = if work * 16 < floor {
        floor
    } else {
        work * 16
    };
    let granted = admission::evidence_partition(top, work, durable);
    assert(admission::MAX_EVIDENCE_RESIDENT_BYTES == 8_589_934_592);
    assert(granted == (if one < all {
        one
    } else {
        all
    }));
    if third > 0 {
        assert(share >= 3);
        assert(share <= part);
        assert(32 * (3 * third) <= 32 * share);
        assert(96 * third == 32 * (3 * third));
    }
    assert(96 * bytes == 32 * (3 * bytes));
    assert(granted <= floor || granted <= third);
    assert(bytes > floor && 3 * bytes <= 8_589_934_592 && 96 * bytes <= top ==> bytes <= third);
}

/// A snapshot is admitted exactly if its contracts, atoms, blocks, tokens and chains can each be
/// numbered in 32 bits; otherwise the first of these that cannot is named.
pub proof fn lemma_identities_are_narrow(snapshot: MetadataSnapshot)
    requires
        snapshot.features.token_member_offsets@.len() > 0,
    ensures
        ({
            let wide = admission::first_wide(admission::identity_counts(snapshot), 0);
            let contracts = snapshot.features.contract_source@.len() > 0xffff_ffff;
            let atoms = snapshot.blocking_ready.atom_count > 0xffff_ffff;
            let blocks = snapshot.blocking.block_kinds@.len() > 0xffff_ffff;
            let tokens = snapshot.features.token_member_offsets@.len() > 0x1_0000_0000;
            let chains = snapshot.ready.chains@.len() > 0xffff_ffff;
            &&& wide is None <==> !contracts && !atoms && !blocks && !tokens && !chains
            &&& wide == Some(0int) <==> contracts
            &&& wide == Some(1int) <==> atoms && !contracts
            &&& wide == Some(2int) <==> blocks && !contracts && !atoms
            &&& wide == Some(3int) <==> tokens && !contracts && !atoms && !blocks
            &&& wide == Some(4int) <==> chains && !contracts && !atoms && !blocks && !tokens
        }),
{
    let counts = admission::identity_counts(snapshot);
    assert(counts.len() == 5);
    assert(admission::first_wide(counts, 5) is None);
    assert(admission::first_wide(counts, 4) == if counts[4] > u32::MAX {
        Some(4int)
    } else {
        None
    });
    assert(admission::first_wide(counts, 3) == if counts[3] > u32::MAX {
        Some(3int)
    } else {
        admission::first_wide(counts, 4)
    });
    assert(admission::first_wide(counts, 2) == if counts[2] > u32::MAX {
        Some(2int)
    } else {
        admission::first_wide(counts, 3)
    });
    assert(admission::first_wide(counts, 1) == if counts[1] > u32::MAX {
        Some(1int)
    } else {
        admission::first_wide(counts, 2)
    });
}

/// So many pairs may be spilled at once: whole chunks of 4096, each pair with four buffers of
/// eight bytes, within what was admitted and within 256 mebibytes.
pub open spec fn may_spill(admitted: int, pairs: int) -> bool {
    &&& pairs % 4096 == 0
    &&& pairs <= 4096 || (32 * pairs <= admitted && 32 * pairs <= 268_435_456)
}

/// A spill batch is the greatest that may be spilled, and at least one chunk.
pub proof fn lemma_spill_is_greatest(admitted: u64, pairs: int)
    ensures
        may_spill(admitted as int, rescue_memory::spill_batch_pairs(admitted)),
        rescue_memory::spill_batch_pairs(admitted) >= 4096,
        may_spill(admitted as int, pairs) ==> pairs <= rescue_memory::spill_batch_pairs(admitted),
{
    let fitting = admitted as int / 32;
    assert(32 * fitting <= admitted < 32 * fitting + 32);
    let most: int = 8_388_608;
    let whole = if fitting < 4096 {
        4096
    } else if fitting > most {
        most
    } else {
        fitting
    };
    let chunks = whole / 4096;
    assert(whole == 4096 * chunks + whole % 4096);
    assert(rescue_memory::spill_batch_pairs(admitted) == 4096 * chunks);
    assert((4096 * chunks) % 4096 == 0);
}

/// The fixed bytes of a rescue: five for an atom, one for a contract, 128 for a contract with
/// shared edges and eight for a shared edge.
pub proof fn lemma_rescue_base(atoms: int, contracts: int, shared: int, edges: int)
    ensures
        rescue_memory::rescue_base_bytes(0, 0, 0, 0) == 0,
        rescue_memory::rescue_base_bytes(atoms + 1, contracts, shared, edges)
            == rescue_memory::rescue_base_bytes(atoms, contracts, shared, edges) + 5,
        rescue_memory::rescue_base_bytes(atoms, contracts + 1, shared, edges)
            == rescue_memory::rescue_base_bytes(atoms, contracts, shared, edges) + 1,
        rescue_memory::rescue_base_bytes(atoms, contracts, shared + 1, edges)
            == rescue_memory::rescue_base_bytes(atoms, contracts, shared, edges) + 128,
        rescue_memory::rescue_base_bytes(atoms, contracts, shared, edges + 1)
            == rescue_memory::rescue_base_bytes(atoms, contracts, shared, edges) + 8,
{
}

/// A rescue gets the most cached scores per lane, up to 65536, whose 32 bytes fit beside the
/// fixed bytes and the stream buffers: three chunks for a lane and four shared ones.
pub proof fn lemma_rescue_cache_is_greatest(
    admitted: RescueAdmission,
    broker: BrokerModel,
    lanes: usize,
    base: int,
    entries: int,
)
    requires
        rescue_memory::is_rescue_admission(admitted, broker, lanes, base),
        0 <= base,
    ensures
        admitted.lanes >= 1,
        admitted.lanes <= admitted.requested_lanes,
        admitted.requested_lanes == lanes || (lanes == 0 && admitted.requested_lanes == 1),
        admitted.stream_buffer_bytes == 98_448 * admitted.lanes + 131_264,
        admitted.cache_entries_per_lane <= 65_536,
        admitted.cache_entries_per_lane > 0 ==> admitted.reservation_bytes
            + admitted.stream_buffer_bytes <= broker.available(None),
        admitted.reservation_bytes == base + 32 * (admitted.lanes
            * admitted.cache_entries_per_lane),
        0 <= entries <= 65_536 && base + admitted.stream_buffer_bytes + 32 * (admitted.lanes
            * entries) <= broker.available(None) ==> entries <= admitted.cache_entries_per_lane,
{
    let used = admitted.lanes as int;
    let cache = admitted.cache_entries_per_lane as int;
    let stream = (used * 3 + 4) * 32_816;
    assert(stream == 98_448 * used + 131_264);
    let budget = rescue_memory::saturating_difference(
        rescue_memory::saturating_difference(broker.available(None), base),
        stream,
    );
    let width = used * 32;
    let fitting = budget / width;
    assert(used * cache * 32 == 32 * (used * cache)) by (nonlinear_arith);
    assert(used * entries * 32 == 32 * (used * entries)) by (nonlinear_arith);
    assert(cache * width == used * cache * 32) by (nonlinear_arith)
        requires
            width == used * 32,
    ;
    assert(entries * width == used * entries * 32) by (nonlinear_arith)
        requires
            width == used * 32,
    ;
    assert(0 <= fitting && fitting * width <= budget) by (nonlinear_arith)
        requires
            fitting == budget / width,
            width >= 32,
            budget >= 0,
    ;
    assert(cache * width <= fitting * width) by (nonlinear_arith)
        requires
            cache <= fitting,
            width >= 32,
    ;
    if cache > 0 {
        assert(cache * width > 0) by (nonlinear_arith)
            requires
                cache > 0,
                width >= 32,
        ;
    }
    if entries * width <= budget {
        assert(entries <= fitting) by (nonlinear_arith)
            requires
                entries * width <= budget,
                fitting == budget / width,
                width >= 32,
        ;
    }
    assert(entries * width >= 0 || entries < 0) by (nonlinear_arith)
        requires
            width >= 32,
    ;
}

/// So many catalog lanes fit beside the hot indexes that the requested lanes would hold.
pub open spec fn lanes_fit(
    available: int,
    hot: int,
    index: int,
    lane: int,
    requested: int,
    lanes: int,
) -> bool {
    lanes * lane + (if hot < requested {
        hot
    } else {
        requested
    }) * index <= available
}

/// The catalog gets the greatest number of lanes, up to the requested one, that fits beside the
/// hot indexes of the requested lanes, or none if not one does.
pub proof fn lemma_catalog_lanes_are_greatest(
    available: int,
    hot: int,
    index: int,
    lane: int,
    requested: int,
    lanes: int,
)
    requires
        0 <= available <= u64::MAX,
        0 <= hot,
        0 <= index,
        0 < lane,
        0 <= requested,
    ensures
        ({
            let settled = run_plan::settled_lanes(available, hot, index, lane, requested);
            &&& 0 <= settled <= requested
            &&& settled > 0 ==> lanes_fit(available, hot, index, lane, requested, settled)
            &&& 0 <= lanes <= requested && lanes_fit(
                available,
                hot,
                index,
                lane,
                requested,
                lanes,
            ) ==> lanes <= settled
        }),
{
    let settled = run_plan::settled_lanes(available, hot, index, lane, requested);
    let held = if hot < requested {
        hot
    } else {
        requested
    };
    let fixed = run_plan::hot_bytes(hot, requested, index);
    assert(held * index >= 0) by (nonlinear_arith)
        requires
            held >= 0,
            index >= 0,
    ;
    let free = available - fixed;
    let fitting = if free < 0 {
        0
    } else {
        free / lane
    };
    if free >= 0 {
        assert(0 <= fitting && fitting * lane <= free) by (nonlinear_arith)
            requires
                fitting == free / lane,
                free >= 0,
                lane > 0,
        ;
        if lanes * lane <= free {
            assert(lanes <= fitting) by (nonlinear_arith)
                requires
                    fitting == free / lane,
                    lanes * lane <= free,
                    lane > 0,
            ;
        }
    }
    if lanes > 0 {
        assert(lanes * lane >= 1) by (nonlinear_arith)
            requires
                lanes > 0,
                lane > 0,
        ;
    }
    if requested > 0 && fitting >= requested {
        assert(requested * lane <= fitting * lane) by (nonlinear_arith)
            requires
                requested <= fitting,
                lane > 0,
        ;
    } else if requested > 0 && fitting > 0 {
        lemma_fewer_lanes_settle(available, hot, index, lane, requested, fitting);
    }
    if requested > 0 && fitting > 0 {
        assert(fitting * lane >= 1) by (nonlinear_arith)
            requires
                fitting > 0,
                lane > 0,
        ;
        assert(fixed == held * index);
    }
}

proof fn lemma_fewer_lanes_settle(
    available: int,
    hot: int,
    index: int,
    lane: int,
    requested: int,
    fitting: int,
)
    requires
        0 < fitting < requested,
        0 <= hot,
        0 <= index,
        0 < lane,
        fitting * lane <= available - run_plan::hot_bytes(hot, requested, index),
    ensures
        run_plan::settled_lanes(available, hot, index, lane, fitting) == fitting,
{
    let held = if hot < requested {
        hot
    } else {
        requested
    };
    let fewer = if hot < fitting {
        hot
    } else {
        fitting
    };
    assert(fewer * index <= held * index) by (nonlinear_arith)
        requires
            fewer <= held,
            index >= 0,
    ;
    let free = available - run_plan::hot_bytes(hot, fitting, index);
    let more = free / lane;
    assert(fitting * lane >= 1) by (nonlinear_arith)
        requires
            fitting > 0,
            lane > 0,
    ;
    assert(fitting <= more) by (nonlinear_arith)
        requires
            more == free / lane,
            fitting * lane <= free,
            lane > 0,
    ;
}

/// Every contract has a root in each scope that it belongs to: among the contracts of its chain,
/// among all, and in a pair of its chain with each other chain. Roots take four bytes and
/// forest edges eight; what is stored has 8192 bytes more for each scope.
pub proof fn lemma_estimates_count_scopes(
    estimates: RunEstimates,
    sizes: Seq<nat>,
    contracts: int,
    edge_bytes: int,
)
    requires
        0 < sizes.len() <= u32::MAX,
        pairs::size_sum(sizes, 0) == contracts,
        run_plan::are_estimates(estimates, contracts, sizes.len() as int, edge_bytes),
    ensures
        ({
            let roots = 2 * contracts + pairs::pair_size_sum(
                sizes,
                pairs::all_pairs(sizes.len() as int),
            );
            &&& 2 * estimates.chain_pair_count == sizes.len() * (sizes.len() - 1)
            &&& estimates.component_bytes == 4 * roots
            &&& estimates.forest_upper_bytes == 8 * roots
            &&& estimates.component_artifact_bytes == 4 * roots + 8192 * (
            estimates.chain_pair_count + 2)
            &&& estimates.component_partial_peak_bytes == 4 * contracts + 8192
            &&& estimates.edge_bytes <= edge_bytes
            &&& estimates.edge_bytes <= 65_536 || estimates.edge_bytes <= 8 * roots
            &&& estimates.edge_bytes == edge_bytes || estimates.edge_bytes >= 65_536
                && estimates.edge_bytes >= 8 * roots
        }),
{
    let chains = sizes.len() as int;
    pairs::lemma_pair_sizes_total(sizes);
    let factor = run_plan::scope_factor(chains);
    assert(factor == chains + 1);
    let pairs = chains * (chains - 1);
    lemma_even(chains);
    assert(pairs / 2 * 2 == pairs);
    assert(contracts * 4 * factor == 4 * (contracts * factor)) by (nonlinear_arith);
    assert(contracts * factor == 2 * contracts + (chains - 1) * contracts) by (nonlinear_arith)
        requires
            factor == chains + 1,
    ;
}

proof fn lemma_even(n: int)
    ensures
        (n * (n - 1)) % 2 == 0,
{
    let half = n / 2;
    if n % 2 == 0 {
        assert(n * (n - 1) == 2 * (half * (n - 1))) by (nonlinear_arith)
            requires
                n == 2 * half,
        ;
    } else {
        assert(n * (n - 1) == 2 * (n * half)) by (nonlinear_arith)
            requires
                n == 2 * half + 1,
        ;
    }
}

/// A collector buffer is a number of eight-byte edges: the greatest, up to ten million, of which
/// every collector's fit the edge bytes together, and at least one.
pub proof fn lemma_buffers_are_greatest(edge_bytes: int, collectors: int, edges: int)
    requires
        0 <= edge_bytes,
        0 < collectors,
    ensures
        ({
            let bytes = collector_plan::buffer_bytes(edge_bytes, collectors);
            &&& bytes % 8 == 0
            &&& 8 <= bytes <= 80_000_000
            &&& bytes > 8 ==> bytes * collectors <= edge_bytes
            &&& 0 < edges <= 10_000_000 && 8 * edges * collectors <= edge_bytes ==> 8 * edges
                <= bytes
        }),
{
    let all = edge_bytes / 8;
    assert(8 * all <= edge_bytes < 8 * all + 8);
    let share = all / collectors;
    let epoch = if share < 1 {
        1
    } else if share > 10_000_000 {
        10_000_000
    } else {
        share
    };
    let part = edge_bytes / collectors;
    assert(8 * share <= part && 0 <= share && share * collectors <= all) by (nonlinear_arith)
        requires
            share == all / collectors,
            part == edge_bytes / collectors,
            8 * all <= edge_bytes,
            0 <= all,
            collectors > 0,
    ;
    let bytes = collector_plan::buffer_bytes(edge_bytes, collectors);
    assert(bytes == 8 * epoch);
    assert(8 * epoch * collectors <= edge_bytes || epoch == 1) by (nonlinear_arith)
        requires
            share * collectors <= all,
            8 * all <= edge_bytes,
            epoch <= share || epoch == 1,
            collectors > 0,
    ;
    if 8 * edges * collectors <= edge_bytes {
        assert(edges * collectors <= all) by {
            assert(8 * edges * collectors == 8 * (edges * collectors)) by (nonlinear_arith);
        }
        assert(edges <= share) by (nonlinear_arith)
            requires
                edges * collectors <= all,
                share == all / collectors,
                collectors > 0,
        ;
    }
}

/// The touched nodes are the most that eight-byte edges within the edge bytes can touch.
pub proof fn lemma_touched_nodes_are_greatest(nodes: int, edge_bytes: int, edges: int, touched: int)
    requires
        0 <= nodes,
        0 <= edge_bytes,
    ensures
        ({
            let most = collector_plan::touched_nodes(nodes, edge_bytes);
            &&& 0 <= most <= nodes
            &&& 4 * most <= edge_bytes
            &&& touched <= nodes && touched <= 2 * edges && 8 * edges <= edge_bytes ==> touched
                <= most
        }),
{
}

/// Every worker needs room for the nodes that it touches: eight bytes each if scratch is sparse.
/// Dense scratch takes eight bytes for every node and four for a touched one. The first worker
/// touches other nodes than the rest.
pub proof fn lemma_scratch_by_worker(nodes: int, workers: int, primary: int, worker: int)
    requires
        workers >= 1,
        0 <= nodes,
        0 <= primary,
        0 <= worker,
    ensures
        ({
            let dense = EdgeCollectorScratchKind::Dense;
            let sparse = EdgeCollectorScratchKind::Sparse;
            &&& collector_plan::scratch_bytes(dense, nodes, 1, primary, worker) == 8 * nodes + 4
                * primary
            &&& collector_plan::scratch_bytes(sparse, nodes, 1, primary, worker) == 8 * primary
            &&& collector_plan::scratch_bytes(dense, nodes, workers + 1, primary, worker)
                == collector_plan::scratch_bytes(dense, nodes, workers, primary, worker) + 8 * nodes
                + 4 * worker
            &&& collector_plan::scratch_bytes(sparse, nodes, workers + 1, primary, worker)
                == collector_plan::scratch_bytes(sparse, nodes, workers, primary, worker) + 8
                * worker
        }),
{
    assert(worker * ((workers + 1) - 1) == worker * (workers - 1) + worker) by (nonlinear_arith);
    assert(worker * (1 - 1) == 0);
    assert(nodes * 8 * (workers + 1) == nodes * 8 * workers + 8 * nodes) by (nonlinear_arith);
    assert(nodes * 8 * 1 == 8 * nodes);
    assert((primary * 8) / 2 == 4 * primary);
    let few = primary + worker * (workers - 1);
    let more = primary + worker * workers;
    assert(few * 8 / 2 == 4 * few);
    assert(more * 8 / 2 == 4 * more);
}

/// Sinks are two, or a quarter of the threads if that is more, but no more than collectors, and
/// one thread is left for scoring. A lone thread has none. From four threads on, a scope has
/// two collectors.
pub proof fn lemma_sinks_leave_scorers(pair_count: int, threads: int, sinks: int)
    requires
        0 <= pair_count < 0x7fff_0000,
        0 <= threads,
    ensures
        ({
            let collectors = collector_plan::collectors(pair_count, threads);
            let workers = collector_plan::sink_workers(pair_count, threads);
            &&& collectors == pair_count + 2 || collectors == 2 * pair_count + 4
            &&& collectors == 2 * pair_count + 4 <==> threads >= 4
            &&& 0 <= workers <= collectors
            &&& workers == 0 || workers < threads
            &&& workers <= 2 || 4 * workers <= threads
            &&& sinks <= collectors && sinks < threads && (sinks <= 2 || 4 * sinks <= threads)
                ==> sinks <= workers
        }),
{
}

/// A plan's parts add up, and it leaves the scoring threads what the sinks do not take.
pub proof fn lemma_plan_parts(
    inputs: PlanInputs,
    kind: EdgeCollectorScratchKind,
    sinks: int,
    edge_bytes: int,
)
    requires
        inputs.countable(kind, sinks, edge_bytes),
        0 <= inputs.node_count,
        0 <= inputs.chain_pair_count,
        0 <= sinks <= inputs.threads <= usize::MAX,
        0 <= edge_bytes,
        0 <= inputs.pool(edge_bytes),
        0 <= inputs.scratch(kind, sinks, edge_bytes),
    ensures
        ({
            let plan = inputs.plan(kind, sinks, edge_bytes);
            &&& plan.edge_bytes == edge_bytes
            &&& plan.merge_growth_bytes == edge_bytes
            &&& plan.retained_runtime_bytes == plan.edge_bytes + plan.buffer_pool_bytes
            &&& plan.reserved_bytes == plan.retained_runtime_bytes + plan.merge_growth_bytes
                + plan.scratch_bytes
            &&& plan.active_sink_workers == sinks
            &&& sinks < inputs.threads ==> plan.active_sink_workers + plan.scorer_lanes
                == inputs.threads
            &&& plan.scorer_lanes >= 1
        }),
{
}

/// A plan that is found has as many sinks as fit: with more, up to those asked for, the bytes
/// would not do.
pub proof fn lemma_plan_has_most_sinks(
    inputs: PlanInputs,
    kind: EdgeCollectorScratchKind,
    sinks: int,
    edge_bytes: int,
    available: int,
)
    requires
        0 <= sinks,
    ensures
        match inputs.first_fitting(kind, sinks, edge_bytes, available) {
            Some(Some(plan)) => exists|used: int|
                {
                    &&& 0 <= used <= sinks
                    &&& used > 0 || inputs.sink_workers() == 0
                    &&& #[trigger] inputs.reserved(kind, used, edge_bytes) <= available
                    &&& plan == inputs.plan(kind, used, edge_bytes)
                    &&& forall|more: int|
                        used < more <= sinks ==> #[trigger] inputs.reserved(kind, more, edge_bytes)
                            > available
                },
            Some(None) => true,
            None => forall|used: int|
                0 <= used <= sinks && (used > 0 || inputs.sink_workers() == 0)
                    ==> #[trigger] inputs.reserved(kind, used, edge_bytes) > available,
        },
    decreases sinks,
{
    if sinks > 0 && inputs.countable(kind, sinks, edge_bytes) && inputs.reserved(
        kind,
        sinks,
        edge_bytes,
    ) > available {
        lemma_plan_has_most_sinks(inputs, kind, sinks - 1, edge_bytes, available);
    } else if sinks >= 0 {
        assert(inputs.first_fitting(kind, -1, edge_bytes, available) is None);
        assert(inputs.reserved(kind, sinks, edge_bytes) <= available || inputs.reserved(
            kind,
            sinks,
            edge_bytes,
        ) > available);
    }
}

/// The sum of the values at the picked positions.
pub open spec fn picked_sum(values: Seq<u128>, picks: Seq<int>) -> int
    decreases picks.len(),
{
    if picks.len() == 0 {
        0
    } else {
        values[picks.first()] + picked_sum(values, picks.drop_first())
    }
}

/// The positions are distinct and in order, within `count`.
pub open spec fn are_picks(picks: Seq<int>, count: int) -> bool {
    &&& forall|i: int| 0 <= i < picks.len() ==> 0 <= #[trigger] picks[i] < count
    &&& forall|i: int, j: int| 0 <= i < j < picks.len() ==> #[trigger] picks[i] < #[trigger] picks[j]
}

proof fn lemma_first_pick(picks: Seq<int>, count: int, at: int)
    requires
        are_picks(picks, count),
        0 <= at < picks.len(),
    ensures
        picks[at] <= count - (picks.len() - at),
    decreases picks.len() - at,
{
    if at < picks.len() - 1 {
        lemma_first_pick(picks, count, at + 1);
        assert(picks[at] < picks[at + 1]);
    }
}

proof fn lemma_top_sum_bounds(ordered: Seq<u128>, picks: Seq<int>)
    requires
        sorting::ascending(ordered),
        are_picks(picks, ordered.len() as int),
    ensures
        picked_sum(ordered, picks) <= plans::top_sum(ordered, picks.len() as int),
    decreases picks.len(),
{
    if picks.len() > 0 {
        let rest = picks.drop_first();
        lemma_first_pick(picks, ordered.len() as int, 0);
        assert(are_picks(rest, ordered.len() as int)) by {
            assert forall|i: int| 0 <= i < rest.len() implies 0 <= #[trigger] rest[i]
                < ordered.len() by {
                assert(rest[i] == picks[i + 1]);
            }
            assert forall|i: int, j: int| 0 <= i < j < rest.len() implies #[trigger] rest[i]
                < #[trigger] rest[j] by {
                assert(picks[i + 1] < picks[j + 1]);
            }
        }
        lemma_top_sum_bounds(ordered, rest);
        let k = ordered.len() - picks.len();
        assert(picks[0] <= k);
        assert(ordered[picks[0]] <= ordered[k]);
    }
}

/// Whichever scopes run side by side, up to the planned number, their roots fit: beside all
/// roots if these stay resident, and twice otherwise. Roots stay resident exactly if they fit
/// together.
pub proof fn lemma_scopes_fit_together(
    plan: ComponentMemoryPlan,
    ordered: Seq<u128>,
    threads: int,
    available: int,
    picks: Seq<int>,
)
    requires
        sorting::ascending(ordered),
        plans::is_component_plan(plan, ordered, threads, available),
        are_picks(picks, ordered.len() as int),
        0 < picks.len() == plan.parallel_scopes,
    ensures
        plan.root_mode == ComponentRootMode::Resident <==> plan.total_root_bytes <= available,
        plan.peak_bytes <= available,
        plan.root_mode == ComponentRootMode::Resident ==> plan.total_root_bytes + picked_sum(
            ordered,
            picks,
        ) <= plan.peak_bytes,
        plan.root_mode != ComponentRootMode::Resident ==> 2 * picked_sum(ordered, picks)
            <= plan.peak_bytes,
        plan.parallel_scopes <= ordered.len(),
        plan.parallel_scopes <= threads || plan.parallel_scopes == 1,
{
    lemma_top_sum_bounds(ordered, picks);
}

/// Where fewer scopes run side by side than threads and scopes allow, one more of the largest
/// would not fit.
pub proof fn lemma_scopes_are_greatest(
    plan: ComponentMemoryPlan,
    ordered: Seq<u128>,
    threads: int,
    available: int,
    picks: Seq<int>,
)
    requires
        plans::is_component_plan(plan, ordered, threads, available),
        plan.parallel_scopes < ordered.len(),
        plan.parallel_scopes < threads || plan.parallel_scopes == 0,
        picks.len() == plan.parallel_scopes + 1,
        forall|i: int|
            0 <= i < picks.len() ==> #[trigger] picks[i] == ordered.len() - picks.len() + i,
        0 <= threads,
    ensures
        plan.root_mode == ComponentRootMode::Resident ==> plan.total_root_bytes + picked_sum(
            ordered,
            picks,
        ) > available,
        plan.root_mode != ComponentRootMode::Resident ==> 2 * picked_sum(ordered, picks)
            > available,
{
    lemma_last_picks(ordered, picks);
}

proof fn lemma_last_picks(ordered: Seq<u128>, picks: Seq<int>)
    requires
        picks.len() <= ordered.len(),
        forall|i: int|
            0 <= i < picks.len() ==> #[trigger] picks[i] == ordered.len() - picks.len() + i,
    ensures
        picked_sum(ordered, picks) == plans::top_sum(ordered, picks.len() as int),
    decreases picks.len(),
{
    if picks.len() > 0 {
        let rest = picks.drop_first();
        assert forall|i: int| 0 <= i < rest.len() implies #[trigger] rest[i] == ordered.len()
            - rest.len() + i by {
            assert(rest[i] == picks[i + 1]);
        }
        lemma_last_picks(ordered, rest);
    }
}

/// Summaries run as many scopes side by side as threads, scopes and bytes allow, at most one
/// kind at a time; their peak is within what is available. Scratch to stream through is set
/// aside where not one scope fits: between one and 64 mebibytes.
pub proof fn lemma_summaries_fit(
    plan: SummaryMemoryPlan,
    available: int,
    threads: int,
    primary_scopes: int,
    pair_scopes: int,
    primary_bytes: int,
    pair_bytes: int,
    lanes: int,
)
    requires
        plans::is_summary_plan(
            plan,
            available,
            threads,
            primary_scopes,
            pair_scopes,
            primary_bytes,
            pair_bytes,
        ),
        0 <= available,
        0 <= threads,
        0 <= primary_scopes,
        0 <= pair_scopes,
        0 <= primary_bytes,
        0 <= pair_bytes,
    ensures
        plan.peak_bytes <= available,
        plan.parallel_primary_scopes * primary_bytes <= plan.peak_bytes,
        plan.parallel_pair_scopes * pair_bytes <= plan.peak_bytes,
        plan.parallel_primary_scopes <= primary_scopes,
        plan.parallel_pair_scopes <= pair_scopes,
        plan.parallel_primary_scopes <= threads || plan.parallel_primary_scopes == 1,
        plan.parallel_pair_scopes <= threads || plan.parallel_pair_scopes == 1,
        lanes <= primary_scopes && (lanes <= threads || lanes == 1) && lanes * primary_bytes
            <= available ==> lanes <= plan.parallel_primary_scopes,
        lanes <= pair_scopes && (lanes <= threads || lanes == 1) && lanes * pair_bytes <= available
            ==> lanes <= plan.parallel_pair_scopes,
        plan.stream_scratch_bytes <= 67_108_864,
        plan.stream_scratch_bytes == 0 || plan.stream_scratch_bytes >= 1_048_576,
        primary_scopes > 0 && primary_bytes > available ==> plan.stream_scratch_bytes > 0,
        pair_scopes > 0 && pair_bytes > available ==> plan.stream_scratch_bytes > 0,
        (primary_scopes == 0 || primary_bytes <= available) && (pair_scopes == 0 || pair_bytes
            <= available) ==> plan.stream_scratch_bytes == 0,
        plan.stream_headroom_bytes <= plan.stream_scratch_bytes,
        plan.stream_scratch_bytes - plan.stream_headroom_bytes <= plan.peak_bytes,
{
    lemma_fitting_scopes(threads, primary_scopes, primary_bytes, available, lanes);
    lemma_fitting_scopes(threads, pair_scopes, pair_bytes, available, lanes);
    lemma_fitting_scopes(threads, primary_scopes, primary_bytes, available, 1);
    lemma_fitting_scopes(threads, pair_scopes, pair_bytes, available, 1);
    let primary = plan.parallel_primary_scopes as int;
    let pair = plan.parallel_pair_scopes as int;
    assert(primary_bytes * primary == primary * primary_bytes) by (nonlinear_arith);
    assert(pair_bytes * pair == pair * pair_bytes) by (nonlinear_arith);
    if primary > 0 {
        assert(primary * primary_bytes >= primary_bytes) by (nonlinear_arith)
            requires
                primary >= 1,
                primary_bytes >= 0,
        ;
    }
    if pair > 0 {
        assert(pair * pair_bytes >= pair_bytes) by (nonlinear_arith)
            requires
                pair >= 1,
                pair_bytes >= 0,
        ;
    }
}

proof fn lemma_fitting_scopes(threads: int, scopes: int, bytes: int, available: int, lanes: int)
    requires
        0 <= available,
        0 <= threads,
        0 <= scopes,
        0 <= bytes,
    ensures
        ({
            let fitting = plans::fitting_scopes(threads, scopes, bytes, available);
            &&& 0 <= fitting <= scopes
            &&& fitting <= threads || fitting == 1
            &&& fitting * bytes <= available
            &&& lanes <= scopes && (lanes <= threads || lanes == 1) && lanes * bytes <= available
                ==> lanes <= fitting
        }),
{
    let fitting = plans::fitting_scopes(threads, scopes, bytes, available);
    if bytes == 0 {
        assert(fitting * bytes == 0) by (nonlinear_arith)
            requires
                bytes == 0,
        ;
    } else {
        let most = available / bytes;
        assert(0 <= most && most * bytes <= available) by (nonlinear_arith)
            requires
                most == available / bytes,
                bytes > 0,
                available >= 0,
        ;
        assert(fitting * bytes <= most * bytes) by (nonlinear_arith)
            requires
                fitting <= most,
                bytes > 0,
        ;
        if lanes * bytes <= available {
            assert(lanes <= most) by (nonlinear_arith)
                requires
                    most == available / bytes,
                    lanes * bytes <= available,
                    bytes > 0,
            ;
        }
    }
}

/// The tokens of the contracts at an atom's places before `end`, counted again for every
/// contract.
pub open spec fn token_total(view: FeatureView, begin: int, end: int) -> int
    decreases end - begin,
{
    if end <= begin {
        0
    } else {
        let contract = view.fallback_atom_contracts@[end - 1] as int;
        token_total(view, begin, end - 1) + view.contract_token_offsets@[contract + 1]
            - view.contract_token_offsets@[contract]
    }
}

/// So many bytes expand pairs with an atom of `members` contracts and one of `tokens` tokens:
/// sixteen per contract, 48 per chain, and eight per token or else four mebibytes.
pub open spec fn expansion_bytes(members: int, chain_count: int, tokens: int) -> int {
    16 * members + 48 * chain_count + (if 8 * tokens > 4_194_304 {
        8 * tokens
    } else {
        4_194_304
    })
}

proof fn lemma_token_totals(view: FeatureView, atom: int, count: int)
    requires
        tokens::tokens_sorted(view),
        atoms::atoms_sorted(view),
        0 <= atom < atoms::atom_count(view),
        0 <= count <= atoms::members_of(view, atom).len(),
    ensures
        run_plan::token_sum(view, atoms::members_of(view, atom), count) == token_total(
            view,
            view.fallback_atom_offsets@[atom] as int,
            view.fallback_atom_offsets@[atom] + count,
        ),
    decreases count,
{
    columns::lemma_row_bounds(
        view.fallback_atom_offsets@,
        view.fallback_atom_contracts@.len(),
        atom,
    );
    if count > 0 {
        lemma_token_totals(view, atom, count - 1);
        let at = view.fallback_atom_offsets@[atom] + count - 1;
        let contract = view.fallback_atom_contracts@[at];
        assert(atoms::members_of(view, atom)[count - 1] == contract);
        assert(contract < view.contract_count());
        columns::lemma_row_bounds(
            view.contract_token_offsets@,
            view.contract_tokens@.len(),
            contract as int,
        );
    }
}

/// How many contracts an atom has.
pub open spec fn atom_size(view: FeatureView, atom: int) -> int {
    view.fallback_atom_offsets@[atom + 1] - view.fallback_atom_offsets@[atom]
}

/// How many tokens the contracts of an atom have, counted again for every contract.
pub open spec fn atom_tokens(view: FeatureView, atom: int) -> int {
    token_total(
        view,
        view.fallback_atom_offsets@[atom] as int,
        view.fallback_atom_offsets@[atom + 1] as int,
    )
}

proof fn lemma_most(view: FeatureView, count: int) -> (largest: (int, int))
    requires
        tokens::tokens_sorted(view),
        atoms::atoms_sorted(view),
        0 < count <= atoms::atom_count(view),
    ensures
        0 <= largest.0 < count,
        0 <= largest.1 < count,
        run_plan::most_members(view, count) == atom_size(view, largest.0),
        run_plan::most_tokens(view, count) == atom_tokens(view, largest.1),
        forall|atom: int|
            0 <= atom < count ==> #[trigger] atom_size(view, atom) <= run_plan::most_members(
                view,
                count,
            ),
        forall|atom: int|
            0 <= atom < count ==> #[trigger] atom_tokens(view, atom) <= run_plan::most_tokens(
                view,
                count,
            ),
    decreases count,
{
    let here = count - 1;
    let members = atoms::members_of(view, here);
    columns::lemma_row_bounds(
        view.fallback_atom_offsets@,
        view.fallback_atom_contracts@.len(),
        here,
    );
    assert(members.len() == atom_size(view, here));
    lemma_token_totals(view, here, members.len() as int);
    assert(run_plan::token_sum(view, members, members.len() as int) == atom_tokens(view, here));
    if count == 1 {
        assert(run_plan::most_members(view, 0) == 0);
        assert(run_plan::most_tokens(view, 0) == 0);
        (0, 0)
    } else {
        let before = lemma_most(view, count - 1);
        (
            if run_plan::most_members(view, count - 1) < atom_size(view, here) {
                here
            } else {
                before.0
            },
            if run_plan::most_tokens(view, count - 1) < atom_tokens(view, here) {
                here
            } else {
                before.1
            },
        )
    }
}

/// Expansion scratch does for any two atoms, and for some two it is just enough.
pub proof fn lemma_expansion_fits_all(view: FeatureView, chain_count: int)
    requires
        tokens::tokens_sorted(view),
        atoms::atoms_sorted(view),
        atoms::atom_count(view) > 0,
    ensures
        forall|a: int, b: int|
            0 <= a < atoms::atom_count(view) && 0 <= b < atoms::atom_count(view)
                ==> expansion_bytes(
                #[trigger] atom_size(view, a),
                chain_count,
                #[trigger] atom_tokens(view, b),
            ) <= run_plan::expansion_scratch(view, chain_count),
        exists|a: int, b: int|
            0 <= a < atoms::atom_count(view) && 0 <= b < atoms::atom_count(view)
                && expansion_bytes(
                #[trigger] atom_size(view, a),
                chain_count,
                #[trigger] atom_tokens(view, b),
            ) == run_plan::expansion_scratch(view, chain_count),
{
    let largest = lemma_most(view, atoms::atom_count(view));
    assert(expansion_bytes(
        atom_size(view, largest.0),
        chain_count,
        atom_tokens(view, largest.1),
    ) == run_plan::expansion_scratch(view, chain_count));
}

} // verus!
