//! Memory plans of the reduction and of the summary.

use crate::pipeline::error;
use crate::pipeline::error::{overflow_error, PipelineError};
use crate::resource::{MemoryBroker, MemoryLease};
use crate::sorting;
use crate::sorting::sorted;
use vstd::prelude::*;

verus! {

/// Least scratch of a summary in bounded space.
pub const SUMMARY_STREAM_MIN_SCRATCH_BYTES: u64 = 1_048_576;

/// Most scratch of a summary in bounded space.
pub const SUMMARY_STREAM_MAX_SCRATCH_BYTES: u64 = 67_108_864;

/// Where component roots are kept.
#[derive(Debug, Clone, Copy, PartialEq, Eq, Structural)]
pub enum ComponentRootMode {
    /// In memory.
    Resident,
    /// In mapped files.
    Mapped,
}

/// How many scopes are reduced at once, and with which bytes.
#[derive(Debug, Clone, Copy, PartialEq, Eq, Structural)]
pub struct ComponentMemoryPlan {
    pub root_mode: ComponentRootMode,
    pub parallel_scopes: usize,
    pub total_root_bytes: u64,
    pub transient_bytes_per_scope: u64,
    pub peak_bytes: u64,
    pub host_headroom_bytes: u64,
}

/// The root bytes of each scope.
pub open spec fn root_bytes(counts: Seq<u32>) -> Seq<u128> {
    Seq::new(counts.len(), |i: int| (counts[i] * 4) as u128)
}

/// The sum of the last `k`.
pub open spec fn top_sum(ordered: Seq<u128>, k: int) -> int
    decreases k,
{
    if k <= 0 {
        0
    } else {
        top_sum(ordered, k - 1) + ordered[ordered.len() - k]
    }
}

/// The sum of all.
pub open spec fn sum_of(values: Seq<u128>) -> int
    decreases values.len(),
{
    if values.len() == 0 {
        0
    } else {
        sum_of(values.drop_last()) + values.last()
    }
}

proof fn lemma_sum_remove(values: Seq<u128>, at: int)
    requires
        0 <= at < values.len(),
    ensures
        sum_of(values) == sum_of(values.remove(at)) + values[at],
    decreases values.len(),
{
    if at == values.len() - 1 {
        assert(values.remove(at) =~= values.drop_last());
    } else {
        lemma_sum_remove(values.drop_last(), at);
        assert(values.remove(at).drop_last() =~= values.drop_last().remove(at));
        assert(values.remove(at).last() == values.last());
    }
}

/// A sum does not depend on the order.
proof fn lemma_sum_order(a: Seq<u128>, b: Seq<u128>)
    requires
        a.to_multiset() == b.to_multiset(),
    ensures
        sum_of(a) == sum_of(b),
    decreases a.len(),
{
    broadcast use vstd::seq_lib::group_to_multiset_ensures;

    assert(a.len() == a.to_multiset().len());
    assert(b.len() == b.to_multiset().len());
    if a.len() > 0 {
        let value = a.last();
        assert(a.contains(value));
        assert(b.to_multiset().count(value) > 0);
        assert(b.contains(value));
        let at = b.index_of(value);
        lemma_sum_remove(b, at);
        assert(a.remove(a.len() - 1) =~= a.drop_last());
        assert(a.drop_last().to_multiset() =~= b.remove(at).to_multiset());
        lemma_sum_order(a.drop_last(), b.remove(at));
    }
}

/// The last `k` sum to what all do, less the first ones.
proof fn lemma_top_sum(ordered: Seq<u128>, k: int)
    requires
        0 <= k <= ordered.len(),
    ensures
        sum_of(ordered) == top_sum(ordered, k) + sum_of(ordered.take(ordered.len() - k)),
        sum_of(ordered.take(ordered.len() - k)) >= 0,
    decreases k,
{
    lemma_sum_positive(ordered.take(ordered.len() - k));
    if k == 0 {
        assert(ordered.take(ordered.len() as int) =~= ordered);
    } else {
        lemma_top_sum(ordered, k - 1);
        let more = ordered.take(ordered.len() - k + 1);
        assert(more.drop_last() =~= ordered.take(ordered.len() - k));
        assert(more.last() == ordered[ordered.len() - k]);
    }
}

proof fn lemma_sum_positive(values: Seq<u128>)
    ensures
        sum_of(values) >= 0,
    decreases values.len(),
{
    if values.len() > 0 {
        lemma_sum_positive(values.drop_last());
    }
}

/// The bytes of `lanes` scopes at once, the largest first.
pub open spec fn lane_bytes(ordered: Seq<u128>, resident: bool, lanes: int) -> int {
    if resident {
        sum_of(ordered) + top_sum(ordered, lanes)
    } else {
        2 * top_sum(ordered, lanes)
    }
}

/// `lanes` is the greatest number of scopes, at most `most`, that fits.
pub open spec fn is_most_lanes(
    ordered: Seq<u128>,
    resident: bool,
    most: int,
    available: int,
    lanes: int,
) -> bool {
    &&& 0 <= lanes <= most
    &&& lanes > 0 ==> lane_bytes(ordered, resident, lanes) <= available
    &&& lanes < most ==> lane_bytes(ordered, resident, lanes + 1) > available
}

/// The least of the scopes and the threads, which are at least one.
pub open spec fn most_scopes(threads: int, scopes: int) -> int {
    if threads < scopes {
        if threads < 1 && scopes > 0 {
            1
        } else {
            threads
        }
    } else {
        scopes
    }
}

/// The plan for scopes whose root bytes, in ascending order, are `ordered`.
pub open spec fn is_component_plan(
    plan: ComponentMemoryPlan,
    ordered: Seq<u128>,
    threads: int,
    available: int,
) -> bool {
    let total = sum_of(ordered);
    let largest = if ordered.len() > 0 {
        top_sum(ordered, 1)
    } else {
        0
    };
    let resident = total <= available;
    let lanes = plan.parallel_scopes as int;
    &&& plan.root_mode == (if resident {
        ComponentRootMode::Resident
    } else {
        ComponentRootMode::Mapped
    })
    &&& is_most_lanes(
        ordered,
        resident,
        most_scopes(threads, ordered.len() as int),
        available,
        lanes,
    )
    &&& plan.total_root_bytes == total
    &&& plan.transient_bytes_per_scope == largest
    &&& plan.peak_bytes == (if lanes > 0 {
        lane_bytes(ordered, resident, lanes)
    } else if resident {
        total
    } else {
        0
    })
    &&& plan.host_headroom_bytes == (if lanes > 0 {
        0
    } else if resident {
        largest
    } else {
        2 * largest
    })
}

/// One scope more than fit at once would need more bytes than can be counted.
pub open spec fn lanes_overflow(
    ordered: Seq<u128>,
    threads: int,
    available: int,
    lanes: int,
) -> bool {
    let resident = sum_of(ordered) <= available;
    let most = most_scopes(threads, ordered.len() as int);
    &&& is_most_lanes(ordered, resident, most, available, lanes)
    &&& lanes < most
    &&& lane_bytes(ordered, resident, lanes + 1) > u64::MAX
}

/// The same bytes in ascending order.
pub open spec fn is_ascending_of(ordered: Seq<u128>, bytes: Seq<u128>) -> bool {
    sorting::ascending(ordered) && ordered.to_multiset() == bytes.to_multiset()
}

/// Plans the reduction: roots stay in memory where all fit, and as many of the largest scopes
/// are reduced at once as fit beside them.
#[verifier::loop_isolation(false)]
pub fn plan_component_memory(
    available: u64,
    requested_threads: usize,
    root_node_counts: &Vec<u32>,
) -> (result: Result<ComponentMemoryPlan, PipelineError>)
    ensures
        match result {
            Ok(plan) => sum_of(root_bytes(root_node_counts@)) <= u64::MAX && exists|
                ordered: Seq<u128>,
            |
                {
                    &&& #[trigger] is_ascending_of(ordered, root_bytes(root_node_counts@))
                    &&& is_component_plan(
                        plan,
                        ordered,
                        requested_threads as int,
                        available as int,
                    )
                    &&& !lanes_overflow(
                        ordered,
                        requested_threads as int,
                        available as int,
                        plan.parallel_scopes as int,
                    )
                },
            Err(e) => e@ == error::overflow_fault() && (sum_of(root_bytes(root_node_counts@))
                > u64::MAX || exists|ordered: Seq<u128>, lanes: int|
                #[trigger] is_ascending_of(ordered, root_bytes(root_node_counts@))
                    && #[trigger] lanes_overflow(
                    ordered,
                    requested_threads as int,
                    available as int,
                    lanes,
                )),
        },
        2 * sum_of(root_bytes(root_node_counts@)) <= u64::MAX ==> result is Ok,
{
    let ghost bytes = root_bytes(root_node_counts@);
    let count: usize = root_node_counts.len();
    let mut keys: Vec<u128> = Vec::new();
    let mut total: u64 = 0;
    let mut i: usize = 0;
    assert(bytes.take(0) =~= keys@);
    while i < count
        invariant
            i <= count,
            keys@ == bytes.take(i as int),
            total == sum_of(keys@),
        decreases count - i,
    {
        let here: u64 = root_node_counts[i] as u64 * 4;
        proof {
            assert(bytes.take(i + 1) =~= keys@.push(here as u128));
            assert(keys@.push(here as u128).drop_last() =~= keys@);
        }
        total = match total.checked_add(here) {
            Some(sum) => sum,
            None => {
                proof {
                    lemma_prefix_sum(bytes, i + 1);
                }
                return Err(overflow_error());
            },
        };
        keys.push(here as u128);
        i = i + 1;
    }
    assert(bytes.take(i as int) =~= bytes);
    let ordered = sorted(keys, false);
    proof {
        lemma_sum_order(bytes, ordered@);
        lemma_top_sum(ordered@, if count > 0 { 1 } else { 0 });
    }
    let threads: usize = if requested_threads < 1 {
        1
    } else {
        requested_threads
    };
    let most: usize = if threads < count {
        threads
    } else {
        count
    };
    let largest: u64 = if count > 0 {
        assert(top_sum(ordered@, 1) == top_sum(ordered@, 0) + ordered@[count - 1]);
        ordered[count - 1] as u64
    } else {
        0
    };
    let resident: bool = total <= available;
    let mut lanes: usize = 0;
    let mut top: u64 = 0;
    let mut peak: u64 = if resident {
        total
    } else {
        0
    };
    while lanes < most
        invariant
            lanes <= most,
            top == top_sum(ordered@, lanes as int),
            top <= total,
            lanes > 0 ==> peak == lane_bytes(ordered@, resident, lanes as int) && peak
                <= available,
            lanes == 0 ==> peak == (if resident {
                total
            } else {
                0
            }),
        decreases most - lanes,
    {
        proof {
            lemma_top_sum(ordered@, lanes + 1);
        }
        assert(top_sum(ordered@, lanes + 1) == top_sum(ordered@, lanes as int) + ordered@[count
            - lanes - 1]);
        let next: u64 = top + ordered[count - 1 - lanes] as u64;
        let candidate: u64 = match if resident {
            total.checked_add(next)
        } else {
            next.checked_mul(2)
        } {
            Some(bytes) => bytes,
            None => {
                proof {
                    assert(is_ascending_of(ordered@, bytes));
                    assert(lanes_overflow(
                        ordered@,
                        requested_threads as int,
                        available as int,
                        lanes as int,
                    ));
                }
                return Err(overflow_error());
            },
        };
        if candidate > available {
            break;
        }
        top = next;
        peak = candidate;
        lanes = lanes + 1;
    }
    let host_headroom_bytes: u64 = if lanes > 0 {
        0
    } else if resident {
        largest
    } else {
        match largest.checked_mul(2) {
            Some(bytes) => bytes,
            None => {
                return Err(overflow_error());
            },
        }
    };
    let plan = ComponentMemoryPlan {
        root_mode: if resident {
            ComponentRootMode::Resident
        } else {
            ComponentRootMode::Mapped
        },
        parallel_scopes: lanes,
        total_root_bytes: total,
        transient_bytes_per_scope: largest,
        peak_bytes: peak,
        host_headroom_bytes,
    };
    proof {
        assert(is_component_plan(plan, ordered@, requested_threads as int, available as int));
        assert(is_ascending_of(ordered@, bytes));
        assert(!lanes_overflow(
            ordered@,
            requested_threads as int,
            available as int,
            lanes as int,
        ));
    }
    Ok(plan)
}

proof fn lemma_prefix_sum(values: Seq<u128>, count: int)
    requires
        0 <= count <= values.len(),
    ensures
        sum_of(values.take(count)) <= sum_of(values),
    decreases values.len() - count,
{
    if count < values.len() {
        lemma_prefix_sum(values, count + 1);
        assert(values.take(count + 1).drop_last() =~= values.take(count));
    } else {
        assert(values.take(count) =~= values);
    }
}

/// How many scopes are counted at once, and with which bytes.
#[derive(Debug, Clone, Copy, PartialEq, Eq, Structural)]
pub struct SummaryMemoryPlan {
    pub parallel_primary_scopes: usize,
    pub parallel_pair_scopes: usize,
    pub primary_bytes_per_scope: u64,
    pub pair_bytes_per_scope: u64,
    pub peak_bytes: u64,
    pub stream_scratch_bytes: u64,
    pub stream_headroom_bytes: u64,
}

/// The lesser of two.
pub open spec fn lesser(a: int, b: int) -> int {
    if a < b {
        a
    } else {
        b
    }
}

/// The greater of two.
pub open spec fn greater(a: int, b: int) -> int {
    if a < b {
        b
    } else {
        a
    }
}

/// The scopes of so many bytes each that fit, at most as many as there are threads.
pub open spec fn fitting_scopes(threads: int, scopes: int, bytes: int, available: int) -> int {
    let requested = lesser(greater(threads, 1), scopes);
    if bytes == 0 {
        requested
    } else {
        lesser(requested, available / bytes)
    }
}

/// The scratch that scopes which do not fit would use.
pub open spec fn wanted_scratch(
    primary_scopes: int,
    primary_lanes: int,
    primary_bytes: int,
    pair_scopes: int,
    pair_lanes: int,
    pair_bytes: int,
) -> int {
    let primary = if primary_scopes != 0 && primary_lanes == 0 {
        primary_bytes
    } else {
        0
    };
    let pair = if pair_scopes != 0 && pair_lanes == 0 {
        pair_bytes
    } else {
        0
    };
    let wanted = greater(primary, pair);
    if wanted == 0 {
        0
    } else {
        lesser(greater(wanted, 1_048_576), 67_108_864)
    }
}

/// The plan for the summary.
pub open spec fn is_summary_plan(
    plan: SummaryMemoryPlan,
    available: int,
    threads: int,
    primary_scopes: int,
    pair_scopes: int,
    primary_bytes: int,
    pair_bytes: int,
) -> bool {
    let primary = fitting_scopes(threads, primary_scopes, primary_bytes, available);
    let pair = fitting_scopes(threads, pair_scopes, pair_bytes, available);
    let wanted = wanted_scratch(primary_scopes, primary, primary_bytes, pair_scopes, pair, pair_bytes);
    let granted = if available >= 1_048_576 {
        lesser(available, wanted)
    } else {
        0
    };
    let peak = greater(greater(primary_bytes * primary, pair_bytes * pair), granted);
    let reserved = lesser(peak, wanted);
    let scratch = if wanted != 0 && reserved < 1_048_576 {
        wanted
    } else {
        reserved
    };
    &&& plan.parallel_primary_scopes == primary
    &&& plan.parallel_pair_scopes == pair
    &&& plan.primary_bytes_per_scope == primary_bytes
    &&& plan.pair_bytes_per_scope == pair_bytes
    &&& plan.peak_bytes == peak
    &&& plan.stream_scratch_bytes == scratch
    &&& plan.stream_headroom_bytes == scratch - reserved
}

fn fitting(threads: usize, scopes: usize, bytes: u64, available: u64) -> (lanes: usize)
    ensures
        lanes == fitting_scopes(threads as int, scopes as int, bytes as int, available as int),
        bytes * lanes <= available || bytes == 0,
        bytes * lanes >= 0,
{
    let wanted: usize = if threads < 1 {
        1
    } else {
        threads
    };
    let requested: usize = if wanted < scopes {
        wanted
    } else {
        scopes
    };
    if bytes == 0 {
        return requested;
    }
    let affordable: u64 = available / bytes;
    let lanes: usize = if (requested as u64) < affordable {
        requested
    } else {
        affordable as usize
    };
    proof {
        let b = bytes as int;
        let l = lanes as int;
        let q = affordable as int;
        assert(b * l <= b * q) by (nonlinear_arith)
            requires
                0 <= l <= q,
                b >= 0,
        ;
        vstd::arithmetic::div_mod::lemma_fundamental_div_mod(available as int, b);
        assert(b * l >= 0) by (nonlinear_arith)
            requires
                b >= 0,
                l >= 0,
        ;
    }
    lanes
}

/// Reserves what the summary needs: as many scopes at once as fit or, where none does, scratch
/// for counting in bounded space, within the budget or beyond it.
pub fn reserve_summary_memory(
    memory: &mut MemoryBroker,
    requested_threads: usize,
    primary_scope_count: usize,
    pair_scope_count: usize,
    primary_bytes_per_scope: u64,
    pair_bytes_per_scope: u64,
) -> (result: Result<(SummaryMemoryPlan, MemoryLease), PipelineError>)
    requires
        old(memory)@.wf(),
    ensures
        final(memory)@.wf(),
        match result {
            Ok((plan, lease)) => {
                &&& is_summary_plan(
                    plan,
                    old(memory)@.available(None),
                    requested_threads as int,
                    primary_scope_count as int,
                    pair_scope_count as int,
                    primary_bytes_per_scope as int,
                    pair_bytes_per_scope as int,
                )
                &&& lease.id() == old(memory)@.slots.len()
                &&& final(memory)@ == old(memory)@.make_room(plan.peak_bytes, None).lease(
                    plan.peak_bytes,
                    false,
                )
            },
            Err(e) => {
                &&& e@ == error::overflow_fault()
                &&& old(memory)@.used + old(memory)@.available(None) > u64::MAX
                &&& final(memory)@ == old(memory)@
            },
        },
{
    let available: u64 = memory.available_bytes();
    let primary: usize = fitting(
        requested_threads,
        primary_scope_count,
        primary_bytes_per_scope,
        available,
    );
    let pair: usize = fitting(
        requested_threads,
        pair_scope_count,
        pair_bytes_per_scope,
        available,
    );
    proof {
        assert(0 * primary == 0) by (nonlinear_arith);
        assert(0 * pair == 0) by (nonlinear_arith);
    }
    let primary_bytes: u64 = primary_bytes_per_scope * primary as u64;
    let pair_bytes: u64 = pair_bytes_per_scope * pair as u64;
    let resident: u64 = if primary_bytes < pair_bytes {
        pair_bytes
    } else {
        primary_bytes
    };
    let streaming_primary: u64 = if primary_scope_count != 0 && primary == 0 {
        primary_bytes_per_scope
    } else {
        0
    };
    let streaming_pair: u64 = if pair_scope_count != 0 && pair == 0 {
        pair_bytes_per_scope
    } else {
        0
    };
    let streaming: u64 = if streaming_primary < streaming_pair {
        streaming_pair
    } else {
        streaming_primary
    };
    let wanted: u64 = if streaming == 0 {
        0
    } else if streaming < SUMMARY_STREAM_MIN_SCRATCH_BYTES {
        SUMMARY_STREAM_MIN_SCRATCH_BYTES
    } else if streaming > SUMMARY_STREAM_MAX_SCRATCH_BYTES {
        SUMMARY_STREAM_MAX_SCRATCH_BYTES
    } else {
        streaming
    };
    let granted: u64 = if available >= SUMMARY_STREAM_MIN_SCRATCH_BYTES {
        if available < wanted {
            available
        } else {
            wanted
        }
    } else {
        0
    };
    let peak_bytes: u64 = if resident < granted {
        granted
    } else {
        resident
    };
    let lease = match memory.reserve(peak_bytes) {
        Ok(lease) => lease,
        Err(error) => {
            return Err(PipelineError::Memory(error));
        },
    };
    let reserved: u64 = if peak_bytes < wanted {
        peak_bytes
    } else {
        wanted
    };
    let stream_scratch_bytes: u64 = if wanted != 0 && reserved < SUMMARY_STREAM_MIN_SCRATCH_BYTES {
        wanted
    } else {
        reserved
    };
    Ok(
        (
            SummaryMemoryPlan {
                parallel_primary_scopes: primary,
                parallel_pair_scopes: pair,
                primary_bytes_per_scope,
                pair_bytes_per_scope,
                peak_bytes,
                stream_scratch_bytes,
                stream_headroom_bytes: stream_scratch_bytes - reserved,
            },
            lease,
        ),
    )
}

} // verus!
