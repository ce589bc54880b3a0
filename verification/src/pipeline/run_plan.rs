//! The byte and lane counts that a run decides before its stages.

use crate::pipeline::atoms;
use crate::pipeline::catalog::CatalogExecutionConfig;
use crate::pipeline::collector_plan::ScopeCollectorMemoryPlan;
use crate::pipeline::error;
use crate::pipeline::error::{overflow_error, PipelineError};
use crate::pipeline::rescue_memory::MAX_RESCUE_PAYLOAD_CACHE_ENTRIES;
use crate::pipeline::tokens;
use crate::pipeline::tokens::MAX_CATALOG_TOKEN_SET_ENTRIES;
use crate::reduce::forest::EdgeBudget;
use crate::resource;
use crate::resource::{BrokerModel, LeaseSlot, MemoryBroker, MemoryError, MemoryLease};
use crate::snapshot::features::FeatureView;
use crate::text;
use crate::text::decimal;
use vstd::prelude::*;
use vstd::string::*;

verus! {

/// Bytes allowed for the manifest of one scope.
pub const COMPONENT_MANIFEST_ALLOWANCE_PER_SCOPE: u64 = 8_192;

/// Scratch of a catalog lane beside its rows.
pub const BASE_CATALOG_LANE_BYTES: u64 = 8_388_608;

/// Most bytes of the one bounded lane.
pub const MAX_BOUNDED_LANE_BYTES: u64 = 67_108_864;

/// Bytes that one cached payload score is taken to need.
pub const ESTIMATED_SHARED_CACHE_ENTRY_BYTES: u64 = 64;

/// What a run needs at most.
#[derive(Debug, Clone, Copy, PartialEq, Eq, Structural)]
pub struct RunEstimates {
    pub chain_pair_count: usize,
    pub component_bytes: u64,
    pub component_artifact_bytes: u64,
    pub component_partial_peak_bytes: u64,
    pub forest_upper_bytes: u64,
    pub edge_bytes: u64,
}

/// Scopes that a contract is in, at most: two, and one for each other chain.
pub open spec fn scope_factor(chain_count: int) -> int {
    if chain_count + 1 < 2 {
        2
    } else {
        chain_count + 1
    }
}

/// What a run of so many contracts and chains needs at most.
pub open spec fn are_estimates(
    estimates: RunEstimates,
    contracts: int,
    chain_count: int,
    edge_bytes: int,
) -> bool {
    let pairs = chain_count * (chain_count - 1) / 2;
    let forest = contracts * scope_factor(chain_count) * 8;
    let least = if forest < 65_536 {
        65_536
    } else {
        forest
    };
    &&& estimates.chain_pair_count == pairs
    &&& estimates.component_bytes == contracts * 4 * scope_factor(chain_count)
    &&& estimates.component_artifact_bytes == (pairs + 2) * 8_192 + contracts * 4 * scope_factor(
        chain_count,
    )
    &&& estimates.component_partial_peak_bytes == contracts * 4 + 8_192
    &&& estimates.forest_upper_bytes == forest
    &&& estimates.edge_bytes == (if edge_bytes < least {
        edge_bytes
    } else {
        least
    })
}

/// Some count of a run of so many contracts and chains does not fit.
pub open spec fn estimates_overflow(contracts: int, chain_count: int) -> bool {
    let pairs = chain_count * (chain_count - 1);
    let factor = scope_factor(chain_count);
    ||| pairs > usize::MAX
    ||| (pairs / 2 + 2) * 8_192 + contracts * 4 * factor > u64::MAX
    ||| contracts * factor * 8 > u64::MAX
}

fn product(a: u64, b: u64) -> (result: Result<u64, PipelineError>)
    ensures
        match result {
            Ok(bytes) => bytes == a * b,
            Err(e) => e@ == error::overflow_fault() && a * b > u64::MAX,
        },
{
    match a.checked_mul(b) {
        Some(bytes) => Ok(bytes),
        None => Err(overflow_error()),
    }
}

fn sum(a: u64, b: u64) -> (result: Result<u64, PipelineError>)
    ensures
        match result {
            Ok(bytes) => bytes == a + b,
            Err(e) => e@ == error::overflow_fault() && a + b > u64::MAX,
        },
{
    match a.checked_add(b) {
        Some(bytes) => Ok(bytes),
        None => Err(overflow_error()),
    }
}

/// What a run of so many contracts and chains needs at most. Refused where a count does not fit.
pub fn estimate_run(contracts: u32, chain_count: usize, edge_bytes: u64) -> (result: Result<
    RunEstimates,
    PipelineError,
>)
    requires
        chain_count < usize::MAX,
    ensures
        match result {
            Ok(estimates) => are_estimates(
                estimates,
                contracts as int,
                chain_count as int,
                edge_bytes as int,
            ),
            Err(e) => e@ == error::overflow_fault(),
        },
        result is Err <==> estimates_overflow(contracts as int, chain_count as int),
        chain_count <= 65_535 ==> result is Ok,
{
    let ghost c = chain_count as int;
    let ghost n = contracts as int;
    let less: usize = if chain_count == 0 {
        0
    } else {
        chain_count - 1
    };
    proof {
        if chain_count == 0 {
            assert(c * (c - 1) == 0) by (nonlinear_arith)
                requires
                    c == 0,
            ;
            assert(chain_count * less == 0) by (nonlinear_arith)
                requires
                    chain_count == 0,
            ;
        }
        if chain_count <= 65_535 {
            assert(c * less <= 65_535 * 65_535) by (nonlinear_arith)
                requires
                    0 <= c <= 65_535,
                    0 <= less <= 65_535,
            ;
        }
    }
    let twice: usize = match chain_count.checked_mul(less) {
        Some(twice) => twice,
        None => {
            return Err(overflow_error());
        },
    };
    let chain_pair_count: usize = twice / 2;
    let factor: u64 = if chain_count + 1 < 2 {
        2
    } else {
        (chain_count + 1) as u64
    };
    let ghost f = factor as int;
    let node_bytes: u64 = contracts as u64 * 4;
    proof {
        if chain_count <= 65_535 {
            assert(node_bytes * factor <= 17179869180 * 65_536) by (nonlinear_arith)
                requires
                    0 <= node_bytes <= 17179869180,
                    0 <= factor <= 65_536,
            ;
            assert(contracts * factor <= 4294967295 * 65_536) by (nonlinear_arith)
                requires
                    0 <= contracts <= 4294967295,
                    0 <= factor <= 65_536,
            ;
        }
    }
    let component_bytes: u64 = product(node_bytes, factor)?;
    let scopes: u64 = sum(chain_pair_count as u64, 2)?;
    let manifests: u64 = product(scopes, COMPONENT_MANIFEST_ALLOWANCE_PER_SCOPE)?;
    let component_artifact_bytes: u64 = sum(manifests, component_bytes)?;
    let component_partial_peak_bytes: u64 = node_bytes + COMPONENT_MANIFEST_ALLOWANCE_PER_SCOPE;
    let edges: u64 = product(contracts as u64, factor)?;
    let forest_upper_bytes: u64 = product(edges, 8)?;
    let least: u64 = if forest_upper_bytes < 65_536 {
        65_536
    } else {
        forest_upper_bytes
    };
    Ok(
        RunEstimates {
            chain_pair_count,
            component_bytes,
            component_artifact_bytes,
            component_partial_peak_bytes,
            forest_upper_bytes,
            edge_bytes: if edge_bytes < least {
                edge_bytes
            } else {
                least
            },
        },
    )
}

/// The budget of the collectors: an equal part of the edges for each scope.
pub fn edge_budget(plan: &ScopeCollectorMemoryPlan, scope_count: u64) -> (budget: EdgeBudget)
    ensures
        ({
            let scopes = if scope_count < 1 {
                1
            } else {
                scope_count as int
            };
            let share = plan.edge_bytes as int / 8 / scopes;
            let epoch = if share < 1 {
                1
            } else if share > 10_000_000 {
                10_000_000
            } else {
                share
            };
            &&& budget.max_run_edges == epoch
            &&& budget.max_buffer_bytes == (if plan.max_buffer_bytes < epoch * 8 {
                plan.max_buffer_bytes as int
            } else {
                epoch * 8
            })
            &&& budget.max_total_bytes == plan.edge_bytes
        }),
{
    let scopes: u64 = if scope_count < 1 {
        1
    } else {
        scope_count
    };
    let share: u64 = plan.edge_bytes / 8 / scopes;
    let epoch: u64 = if share < 1 {
        1
    } else if share > 10_000_000 {
        10_000_000
    } else {
        share
    };
    EdgeBudget {
        max_buffer_bytes: if plan.max_buffer_bytes < epoch * 8 {
            plan.max_buffer_bytes
        } else {
            epoch * 8
        },
        max_run_edges: epoch,
        max_total_bytes: plan.edge_bytes,
    }
}

/// The bytes of the indexes of hot jobs that `lanes` lanes hold at once.
pub open spec fn hot_bytes(hot_jobs: int, lanes: int, index_bytes: int) -> int {
    let bytes = (if hot_jobs < lanes {
        hot_jobs
    } else {
        lanes
    }) * index_bytes;
    if bytes > u64::MAX {
        u64::MAX as int
    } else {
        bytes
    }
}

/// Lanes that fit beside the indexes that so many lanes hold, starting from `lanes`.
pub open spec fn settled_lanes(
    available: int,
    hot_jobs: int,
    index_bytes: int,
    lane_bytes: int,
    lanes: int,
) -> int
    decreases lanes,
{
    let fixed = hot_bytes(hot_jobs, lanes, index_bytes);
    let fitting = if fixed > available {
        0
    } else {
        (available - fixed) / lane_bytes
    };
    if lanes <= 0 || fitting <= 0 {
        0
    } else if fitting >= lanes {
        lanes
    } else {
        settled_lanes(available, hot_jobs, index_bytes, lane_bytes, fitting)
    }
}

fn hot_index_total(hot_jobs: usize, lanes: usize, index_bytes: u64) -> (bytes: u64)
    ensures
        bytes == hot_bytes(hot_jobs as int, lanes as int, index_bytes as int),
{
    let held: usize = if hot_jobs < lanes {
        hot_jobs
    } else {
        lanes
    };
    match (held as u64).checked_mul(index_bytes) {
        Some(bytes) => bytes,
        None => u64::MAX,
    }
}

/// The catalog lanes that fit, with the indexes of the hot jobs that they hold at once.
#[verifier::loop_isolation(false)]
pub fn admit_catalog_lanes(
    memory: &MemoryBroker,
    scorer_lanes: usize,
    hot_jobs: usize,
    index_bytes: u64,
    lane_bytes: u64,
) -> (lanes: usize)
    requires
        memory@.wf(),
        lane_bytes > 0,
    ensures
        lanes == settled_lanes(
            memory@.available(None),
            hot_jobs as int,
            index_bytes as int,
            lane_bytes as int,
            if scorer_lanes < 1 {
                1
            } else {
                scorer_lanes as int
            },
        ),
{
    let mut lanes: usize = if scorer_lanes < 1 {
        1
    } else {
        scorer_lanes
    };
    let available: u64 = memory.available_bytes();
    let ghost settled = settled_lanes(
        available as int,
        hot_jobs as int,
        index_bytes as int,
        lane_bytes as int,
        lanes as int,
    );
    loop
        invariant
            lanes >= 1,
            lane_bytes > 0,
            memory@.wf(),
            available == memory@.available(None),
            settled == settled_lanes(
                available as int,
                hot_jobs as int,
                index_bytes as int,
                lane_bytes as int,
                lanes as int,
            ),
        decreases lanes,
    {
        let fixed: u64 = hot_index_total(hot_jobs, lanes, index_bytes);
        let admitted: usize = memory.active_lanes(lanes, fixed, lane_bytes);
        if admitted >= lanes {
            return admitted;
        }
        if admitted == 0 {
            return 0;
        }
        lanes = admitted;
    }
}

/// How the catalog is scored where lanes fit.
pub open spec fn is_resident_config(config: CatalogExecutionConfig, chain_count: usize) -> bool {
    &&& config.chain_count == chain_count
    &&& config.edge_batch == 32_768
    &&& config.dense_compaction_scratch_bytes == 4_194_304
    &&& !config.bounded_mode
}

/// How the catalog is scored in one bounded lane of so many bytes, and the bytes of its index.
pub open spec fn is_bounded_config(
    config: CatalogExecutionConfig,
    index_bytes: u64,
    chain_count: usize,
    reserved: u64,
) -> bool {
    &&& config.chain_count == chain_count
    &&& config.edge_batch == (if reserved / 128 < 256 {
        256
    } else if reserved / 128 > 4_096 {
        4_096
    } else {
        (reserved / 128) as int
    })
    &&& config.dense_compaction_scratch_bytes == 0
    &&& config.bounded_mode
    &&& index_bytes == (if reserved < 2_097_152 + 65_536 {
        65_536
    } else {
        reserved - 2_097_152
    })
}

/// How tokens are scored where `lanes` resident lanes fit or, with none, in one bounded lane of so
/// many bytes.
pub open spec fn is_shared_execution(
    execution: SharedExecution,
    lanes: int,
    index_bytes: u64,
    reserved: u64,
) -> bool {
    if lanes > 0 {
        execution == (SharedExecution {
            lanes: lanes as usize,
            group_index_budget_bytes: index_bytes,
            cache_entries: 65_536,
        })
    } else {
        &&& execution.lanes == 1
        &&& execution.group_index_budget_bytes == (if reserved < 8_388_608 {
            0
        } else {
            reserved - 8_388_608
        })
        &&& execution.cache_entries == (if reserved / 64 < 65_536 {
            reserved / 64
        } else {
            65_536
        })
    }
}

/// How the catalog is scored where lanes fit.
pub fn resident_catalog_config(chain_count: usize) -> (config: CatalogExecutionConfig)
    ensures
        is_resident_config(config, chain_count),
{
    CatalogExecutionConfig {
        chain_count,
        edge_batch: 32_768,
        dense_compaction_scratch_bytes: 4_194_304,
        bounded_mode: false,
    }
}

/// How the catalog is scored in one bounded lane of so many bytes, and the bytes of its index.
pub fn bounded_catalog_config(chain_count: usize, reserved: u64) -> (config: (
    CatalogExecutionConfig,
    u64,
))
    ensures
        is_bounded_config(config.0, config.1, chain_count, reserved),
{
    let share: u64 = reserved / 128;
    let edge_batch: usize = if share < 256 {
        256
    } else if share > 4_096 {
        4_096
    } else {
        share as usize
    };
    let index_bytes: u64 = if reserved < 2_097_152 + 65_536 {
        65_536
    } else {
        reserved - 2_097_152
    };
    (
        CatalogExecutionConfig {
            chain_count,
            edge_batch,
            dense_compaction_scratch_bytes: 0,
            bounded_mode: true,
        },
        index_bytes,
    )
}

/// How tokens are scored: lanes, bytes of a group's index, and cached scores of each lane.
#[derive(Debug, Clone, Copy, PartialEq, Eq, Structural)]
pub struct SharedExecution {
    pub lanes: usize,
    pub group_index_budget_bytes: u64,
    pub cache_entries: usize,
}

/// The payload scores that so many bytes hold.
fn cached_scores(bytes: u64) -> (entries: usize)
    ensures
        entries == (if bytes / 64 < 65_536 {
            bytes / 64
        } else {
            65_536
        }),
{
    let entries: u64 = bytes / ESTIMATED_SHARED_CACHE_ENTRY_BYTES;
    if entries < MAX_RESCUE_PAYLOAD_CACHE_ENTRIES as u64 {
        entries as usize
    } else {
        MAX_RESCUE_PAYLOAD_CACHE_ENTRIES
    }
}

/// How tokens are scored where resident lanes fit or, with none, in one bounded lane of so many
/// bytes.
pub fn shared_execution(resident_lanes: usize, shared_index_bytes: u64, reserved: u64) -> (execution:
    SharedExecution)
    ensures
        is_shared_execution(execution, resident_lanes as int, shared_index_bytes, reserved),
{
    if resident_lanes > 0 {
        SharedExecution {
            lanes: resident_lanes,
            group_index_budget_bytes: shared_index_bytes,
            cache_entries: cached_scores(BASE_CATALOG_LANE_BYTES),
        }
    } else {
        let cached: u64 = if reserved < BASE_CATALOG_LANE_BYTES {
            reserved
        } else {
            BASE_CATALOG_LANE_BYTES
        };
        SharedExecution {
            lanes: 1,
            group_index_budget_bytes: if reserved < BASE_CATALOG_LANE_BYTES {
                0
            } else {
                reserved - BASE_CATALOG_LANE_BYTES
            },
            cache_entries: cached_scores(cached),
        }
    }
}

proof fn lemma_settled_lanes(
    available: int,
    hot_jobs: int,
    index_bytes: int,
    lane_bytes: int,
    lanes: int,
)
    requires
        0 <= hot_jobs,
        0 <= index_bytes,
        0 < lane_bytes,
    ensures
        ({
            let settled = settled_lanes(available, hot_jobs, index_bytes, lane_bytes, lanes);
            &&& 0 <= settled
            &&& settled > 0 ==> settled <= lanes && hot_bytes(hot_jobs, settled, index_bytes)
                + settled * lane_bytes <= available
        }),
    decreases lanes,
{
    let fixed = hot_bytes(hot_jobs, lanes, index_bytes);
    if lanes > 0 && fixed <= available {
        let fitting = (available - fixed) / lane_bytes;
        if fitting >= lanes {
            assert(lanes * lane_bytes <= available - fixed) by (nonlinear_arith)
                requires
                    lanes <= fitting,
                    fitting == (available - fixed) / lane_bytes,
                    lane_bytes > 0,
                    available >= fixed,
            ;
        } else if fitting > 0 {
            lemma_settled_lanes(available, hot_jobs, index_bytes, lane_bytes, fitting);
        }
    }
}

/// The bytes that a bounded lane gets.
pub open spec fn bounded_lane_bytes(available: int) -> u64 {
    if available < MAX_BOUNDED_LANE_BYTES {
        available as u64
    } else {
        MAX_BOUNDED_LANE_BYTES
    }
}

/// The broker with one more lease of so many bytes.
pub open spec fn is_leased(
    lease: MemoryLease,
    bytes: u64,
    after: BrokerModel,
    before: BrokerModel,
) -> bool {
    &&& lease.id() == before.slots.len()
    &&& after == before.make_room(bytes, None).lease(bytes, false)
}

/// What is told of a catalog that is scored in one bounded lane.
pub open spec fn bounded_catalog_advisory(
    index_bytes: u64,
    lane_bytes: u64,
    available: int,
    config: CatalogExecutionConfig,
    index_budget: u64,
    reserved: u64,
) -> Seq<char> {
    "one resident catalog scoring lane does not fit: hot_index="@ + text::decimal_text(
        index_bytes as nat,
    ) + " bytes, lane_scratch="@ + text::decimal_text(lane_bytes as nat) + " bytes, available="@
        + text::decimal_text(available as nat)
        + " bytes; switching to one bounded lane with direct contract expansion, edge_batch="@
        + text::decimal_text(config.edge_batch as nat) + ", hot_index_budget="@
        + text::decimal_text(index_budget as nat) + " bytes (reserved="@ + text::decimal_text(
        reserved as nat,
    ) + " bytes) instead of terminating"@
}

/// What is told of tokens that are scored in one bounded lane.
pub open spec fn bounded_shared_advisory(
    index_bytes: u64,
    available: int,
    execution: SharedExecution,
    reserved: u64,
) -> Seq<char> {
    "one resident shared-token scoring lane does not fit: largest_group_index="@
        + text::decimal_text(index_bytes as nat) + " bytes, lane_scratch="@ + text::decimal_text(
        BASE_CATALOG_LANE_BYTES as nat,
    ) + " bytes, available="@ + text::decimal_text(available as nat)
        + " bytes; switching to one bounded lane with group_index_budget="@ + text::decimal_text(
        execution.group_index_budget_bytes as nat,
    ) + " bytes and payload_cache_entries="@ + text::decimal_text(execution.cache_entries as nat)
        + " (reserved="@ + text::decimal_text(reserved as nat)
        + " bytes). Oversized groups use exact pairwise scoring instead of terminating"@
}

/// One text was added, or none.
pub open spec fn adds_text(after: Seq<String>, before: Seq<String>, text: Option<Seq<char>>) -> bool {
    match text {
        None => after == before,
        Some(text) => {
            &&& after.len() == before.len() + 1
            &&& after.drop_last() == before
            &&& after.last()@ == text
        },
    }
}

/// How the catalog is scored, and the lease of its lanes: in as many resident lanes as fit or,
/// where none does, in one bounded lane, which is told. With it come the bytes of the index of a
/// bounded lane.
pub fn admit_catalog_execution(
    memory: &mut MemoryBroker,
    scorer_lanes: usize,
    hot_jobs: usize,
    index_bytes: u64,
    lane_bytes: u64,
    chain_count: usize,
    advisories: &mut Vec<String>,
) -> (result: Result<(CatalogExecutionConfig, u64, MemoryLease), PipelineError>)
    requires
        old(memory)@.wf(),
        lane_bytes > 0,
    ensures
        final(memory)@.wf(),
        ({
            let before = old(memory)@;
            let available = before.available(None);
            let lanes = settled_lanes(
                available,
                hot_jobs as int,
                index_bytes as int,
                lane_bytes as int,
                if scorer_lanes < 1 {
                    1
                } else {
                    scorer_lanes as int
                },
            );
            let bytes = if lanes > 0 {
                (hot_bytes(hot_jobs as int, lanes, index_bytes as int) + lanes
                    * lane_bytes) as u64
            } else {
                bounded_lane_bytes(available)
            };
            if before.used + bytes > u64::MAX {
                &&& result matches Err(e) && e@ == error::overflow_fault()
                &&& final(memory)@ == before
                &&& final(advisories)@ == old(advisories)@
            } else {
                &&& result matches Ok((config, budget, lease)) && is_leased(
                    lease,
                    bytes,
                    final(memory)@,
                    before,
                ) && (if lanes > 0 {
                    is_resident_config(config, chain_count) && budget == 0
                } else {
                    is_bounded_config(config, budget, chain_count, bytes)
                }) && adds_text(
                    final(advisories)@,
                    old(advisories)@,
                    if lanes > 0 {
                        None
                    } else {
                        Some(
                            bounded_catalog_advisory(
                                index_bytes,
                                lane_bytes,
                                available,
                                config,
                                budget,
                                bytes,
                            ),
                        )
                    },
                )
            }
        }),
{
    let available: u64 = memory.available_bytes();
    let ghost before = memory@;
    let lanes: usize = admit_catalog_lanes(
        memory,
        scorer_lanes,
        hot_jobs,
        index_bytes,
        lane_bytes,
    );
    proof {
        lemma_settled_lanes(
            available as int,
            hot_jobs as int,
            index_bytes as int,
            lane_bytes as int,
            if scorer_lanes < 1 {
                1
            } else {
                scorer_lanes as int
            },
        );
    }
    if lanes > 0 {
        let fixed: u64 = hot_index_total(hot_jobs, lanes, index_bytes);
        proof {
            assert(lanes * lane_bytes >= 0) by (nonlinear_arith)
                requires
                    lanes >= 0,
                    lane_bytes >= 0,
            ;
        }
        let bytes: u64 = fixed + lanes as u64 * lane_bytes;
        return match memory.reserve(bytes) {
            Ok(lease) => Ok((resident_catalog_config(chain_count), 0, lease)),
            Err(error) => Err(PipelineError::Memory(error)),
        };
    }
    let lease: MemoryLease = match memory.reserve_up_to(MAX_BOUNDED_LANE_BYTES) {
        Ok(lease) => lease,
        Err(error) => {
            return Err(PipelineError::Memory(error));
        },
    };
    let reserved: u64 = lease.bytes(memory);
    assert(reserved == bounded_lane_bytes(before.available(None)));
    let (config, budget) = bounded_catalog_config(chain_count, reserved);
    advisories.push(
        "one resident catalog scoring lane does not fit: hot_index=".to_owned().concat(
            decimal(index_bytes).as_str(),
        ).concat(" bytes, lane_scratch=").concat(decimal(lane_bytes).as_str()).concat(
            " bytes, available=",
        ).concat(decimal(available).as_str()).concat(
            " bytes; switching to one bounded lane with direct contract expansion, edge_batch=",
        ).concat(decimal(config.edge_batch as u64).as_str()).concat(", hot_index_budget=").concat(
            decimal(budget).as_str(),
        ).concat(" bytes (reserved=").concat(decimal(reserved).as_str()).concat(
            " bytes) instead of terminating",
        ),
    );
    assert(advisories@.drop_last() =~= old(advisories)@);
    Ok((config, budget, lease))
}

/// How tokens are scored, and the lease of their lanes: in as many resident lanes as fit or,
/// where none does, in one bounded lane, which is told.
pub fn admit_shared_execution(
    memory: &mut MemoryBroker,
    scorer_lanes: usize,
    shared_index_bytes: u64,
    advisories: &mut Vec<String>,
) -> (result: Result<(SharedExecution, MemoryLease), PipelineError>)
    requires
        old(memory)@.wf(),
    ensures
        final(memory)@.wf(),
        ({
            let before = old(memory)@;
            let available = before.available(None);
            let lane_bytes = shared_lane_bytes(shared_index_bytes);
            let lanes = before.admitted_lanes(scorer_lanes, 0, lane_bytes);
            let bytes = if lanes > 0 {
                (lane_bytes * lanes) as u64
            } else {
                bounded_lane_bytes(available)
            };
            if before.used + bytes > u64::MAX {
                &&& result matches Err(e) && e@ == error::overflow_fault()
                &&& final(advisories)@ == old(advisories)@
            } else {
                &&& result matches Ok((execution, lease)) && lease.is_of(final(memory)@)
                    && final(memory)@.slots[lease.id() as int] == (LeaseSlot {
                    bytes,
                    reclaimable: false,
                }) && final(memory)@.available(None) == available - bytes
                    && is_shared_execution(execution, lanes, shared_index_bytes, bytes)
                    && adds_text(
                    final(advisories)@,
                    old(advisories)@,
                    if lanes > 0 {
                        None
                    } else {
                        Some(
                            bounded_shared_advisory(
                                shared_index_bytes,
                                available,
                                execution,
                                bytes,
                            ),
                        )
                    },
                )
            }
        }),
{
    let available: u64 = memory.available_bytes();
    let ghost before = memory@;
    let sum: u64 = shared_index_bytes.saturating_add(BASE_CATALOG_LANE_BYTES);
    let (lanes, lease) = match memory.reserve_lanes(scorer_lanes, 0, sum) {
        Ok(admitted) => admitted,
        Err(error) => {
            return Err(PipelineError::Memory(error));
        },
    };
    if lanes > 0 {
        proof {
            resource::lemma_lease_takes(before, (sum * lanes) as u64);
            resource::lemma_reserve_keeps(Seq::empty(), before, (sum * lanes) as u64, 0);
        }
        return Ok((shared_execution(lanes, shared_index_bytes, 0), lease));
    }
    let ghost empty = memory@;
    proof {
        resource::lemma_lease_takes(before, 0);
        resource::lemma_reserve_keeps(Seq::empty(), before, 0, 0);
        resource::lemma_release_gives(empty, lease.id() as int);
    }
    lease.release(memory);
    let ghost given = memory@;
    let own: MemoryLease = match memory.reserve_up_to(MAX_BOUNDED_LANE_BYTES) {
        Ok(lease) => lease,
        Err(error) => {
            return Err(PipelineError::Memory(error));
        },
    };
    proof {
        resource::lemma_lease_takes(given, bounded_lane_bytes(given.available(None)));
        resource::lemma_reserve_keeps(
            Seq::empty(),
            given,
            bounded_lane_bytes(given.available(None)),
            0,
        );
    }
    let reserved: u64 = own.bytes(memory);
    let execution = shared_execution(0, shared_index_bytes, reserved);
    advisories.push(
        "one resident shared-token scoring lane does not fit: largest_group_index=".to_owned().concat(
            decimal(shared_index_bytes).as_str(),
        ).concat(" bytes, lane_scratch=").concat(decimal(BASE_CATALOG_LANE_BYTES).as_str()).concat(
            " bytes, available=",
        ).concat(decimal(available).as_str()).concat(
            " bytes; switching to one bounded lane with group_index_budget=",
        ).concat(decimal(execution.group_index_budget_bytes).as_str()).concat(
            " bytes and payload_cache_entries=",
        ).concat(decimal(execution.cache_entries as u64).as_str()).concat(" (reserved=").concat(
            decimal(reserved).as_str(),
        ).concat(
            " bytes). Oversized groups use exact pairwise scoring instead of terminating",
        ),
    );
    assert(advisories@.drop_last() =~= old(advisories)@);
    Ok((execution, own))
}

/// The bytes of a resident lane that scores tokens.
pub open spec fn shared_lane_bytes(index_bytes: u64) -> u64 {
    if index_bytes + BASE_CATALOG_LANE_BYTES > u64::MAX {
        u64::MAX
    } else {
        (index_bytes + BASE_CATALOG_LANE_BYTES) as u64
    }
}

/// The part of a snapshot that stays in memory.
pub struct SnapshotResidency {
    pub lease: MemoryLease,
    pub mapped_bytes: u64,
    pub last_reported_hot_bytes: u64,
}

/// What is told of a snapshot whose resident part shrank.
pub open spec fn paging_advisory(
    phase: Seq<char>,
    mapped: u64,
    hot: u64,
    last: u64,
    reclaimed: u64,
    used: u64,
    hard_top: u64,
) -> Seq<char> {
    "metadata snapshot resident hot window reduced during "@ + phase + ": mapped="@
        + text::decimal_text(mapped as nat) + " bytes, resident_budget="@ + text::decimal_text(
        hot as nat,
    ) + " bytes, newly_paged="@ + text::decimal_text((last - hot) as nat)
        + " bytes, cumulatively_reclaimed="@ + text::decimal_text(reclaimed as nat)
        + " bytes, used="@ + text::decimal_text(used as nat) + " bytes, hard_top="@
        + text::decimal_text(hard_top as nat)
        + " bytes; continuing with demand-paged mmap access instead of terminating"@
}

impl SnapshotResidency {
    /// A snapshot of so many mapped bytes, of which the lease keeps some in memory.
    pub fn new(lease: MemoryLease, mapped_bytes: u64) -> (residency: SnapshotResidency)
        ensures
            residency.lease.id() == lease.id(),
            residency.mapped_bytes == mapped_bytes,
            residency.last_reported_hot_bytes == mapped_bytes,
    {
        SnapshotResidency { lease, mapped_bytes, last_reported_hot_bytes: mapped_bytes }
    }

    /// Tells, once for each loss, that less of the snapshot stays in memory.
    pub fn report_paging(&mut self, phase: &str, memory: &MemoryBroker) -> (advisory: Option<
        String,
    >)
        requires
            old(self).lease.is_of(memory@),
        ensures
            final(self).lease.id() == old(self).lease.id(),
            final(self).mapped_bytes == old(self).mapped_bytes,
            ({
                let hot = memory@.slots[old(self).lease.id() as int].bytes;
                let last = old(self).last_reported_hot_bytes;
                if hot >= last {
                    advisory is None && final(self).last_reported_hot_bytes == last
                } else {
                    advisory matches Some(text) && text@ == paging_advisory(
                        phase@,
                        old(self).mapped_bytes,
                        hot,
                        last,
                        memory@.reclaimed,
                        memory@.used,
                        memory@.hard_top,
                    ) && final(self).last_reported_hot_bytes == hot
                }
            }),
    {
        let hot: u64 = self.lease.bytes(memory);
        if hot >= self.last_reported_hot_bytes {
            return None;
        }
        let text = "metadata snapshot resident hot window reduced during ".to_owned().concat(
            phase,
        ).concat(": mapped=").concat(decimal(self.mapped_bytes).as_str()).concat(
            " bytes, resident_budget=",
        ).concat(decimal(hot).as_str()).concat(" bytes, newly_paged=").concat(
            decimal(self.last_reported_hot_bytes - hot).as_str(),
        ).concat(" bytes, cumulatively_reclaimed=").concat(
            decimal(memory.reclaimed_bytes()).as_str(),
        ).concat(" bytes, used=").concat(decimal(memory.used_bytes()).as_str()).concat(
            " bytes, hard_top=",
        ).concat(decimal(memory.hard_top_bytes()).as_str()).concat(
            " bytes; continuing with demand-paged mmap access instead of terminating",
        );
        self.last_reported_hot_bytes = hot;
        Some(text)
    }
}

/// The members of the largest of the first `count` atoms.
pub open spec fn most_members(view: FeatureView, count: int) -> nat
    decreases count,
{
    if count <= 0 {
        0
    } else {
        let before = most_members(view, count - 1);
        let here = atoms::members_of(view, count - 1).len();
        if before < here {
            here
        } else {
            before
        }
    }
}

/// The tokens of the first `count` contracts, one after the other.
pub open spec fn token_sum(view: FeatureView, contracts: Seq<u32>, count: int) -> nat
    decreases count,
{
    if count <= 0 {
        0
    } else {
        token_sum(view, contracts, count - 1) + tokens::tokens_of(
            view,
            contracts[count - 1] as int,
        ).len()
    }
}

/// The most tokens that the members of one of the first `count` atoms have.
pub open spec fn most_tokens(view: FeatureView, count: int) -> nat
    decreases count,
{
    if count <= 0 {
        0
    } else {
        let before = most_tokens(view, count - 1);
        let members = atoms::members_of(view, count - 1);
        let here = token_sum(view, members, members.len() as int);
        if before < here {
            here
        } else {
            before
        }
    }
}

/// The scratch of expanding the largest atoms: the members by chain, twice, and their tokens.
pub open spec fn expansion_scratch(view: FeatureView, chain_count: int) -> int {
    let members = most_members(view, atoms::atom_count(view));
    let tokens = most_tokens(view, atoms::atom_count(view)) * 8;
    members * 16 + chain_count * 48 + (if tokens < 4_194_304 {
        4_194_304
    } else {
        tokens as int
    })
}

proof fn lemma_most_grow(view: FeatureView, count: int, most: int)
    requires
        count <= most,
    ensures
        most_members(view, count) <= most_members(view, most),
        most_tokens(view, count) <= most_tokens(view, most),
    decreases most - count,
{
    if count < most {
        lemma_most_grow(view, count, most - 1);
    }
}

proof fn lemma_token_sum_grows(view: FeatureView, contracts: Seq<u32>, count: int, most: int)
    requires
        count <= most,
    ensures
        token_sum(view, contracts, count) <= token_sum(view, contracts, most),
    decreases most - count,
{
    if count < most {
        lemma_token_sum_grows(view, contracts, count, most - 1);
    }
}

/// The scratch of expanding the largest atoms.
#[verifier::loop_isolation(false)]
pub fn max_catalog_expansion_scratch_bytes(features: &FeatureView, chain_count: usize) -> (result:
    Result<u64, PipelineError>)
    requires
        tokens::tokens_sorted(*features),
        atoms::atoms_sorted(*features),
        atoms::atom_count(*features) <= u32::MAX,
    ensures
        if expansion_scratch(*features, chain_count as int) <= u64::MAX {
            result matches Ok(bytes) && bytes == expansion_scratch(*features, chain_count as int)
        } else {
            result matches Err(e) && e@ == error::overflow_fault()
        },
{
    let ghost view = *features;
    let rows: usize = features.fallback_atom_offsets.len();
    let count: usize = rows - 1;
    let mut members: u64 = 0;
    let mut most: u64 = 0;
    let mut atom: usize = 0;
    while atom < count
        invariant
            atom <= count,
            members == most_members(view, atom as int),
            members <= u32::MAX,
            most == most_tokens(view, atom as int),
        decreases count - atom,
    {
        let list = atoms::atom_contracts(features, atom as u32);
        let len: usize = list.len();
        if members < len as u64 {
            members = len as u64;
        }
        let mut here: u64 = 0;
        let mut i: usize = 0;
        while i < len
            invariant
                i <= len,
                here == token_sum(view, list@, i as int),
            decreases len - i,
        {
            assert(list@[i as int] < view.contract_count());
            let tokens: u64 = tokens::contract_retained_tokens(features, list[i]).len() as u64;
            here = match here.checked_add(tokens) {
                Some(sum) => sum,
                None => {
                    proof {
                        lemma_token_sum_grows(view, list@, i + 1, len as int);
                        lemma_most_grow(view, atom + 1, count as int);
                    }
                    return Err(overflow_error());
                },
            };
            i = i + 1;
        }
        if most < here {
            most = here;
        }
        atom = atom + 1;
    }
    let buckets: u64 = members * 16;
    let headers: u64 = product(chain_count as u64, 48)?;
    let hashed: u64 = MAX_CATALOG_TOKEN_SET_ENTRIES as u64 * 32;
    let listed: u64 = product(most, 8)?;
    let index: u64 = if hashed < listed {
        listed
    } else {
        hashed
    };
    let both: u64 = sum(buckets, headers)?;
    sum(both, index)
}

/// What is told where measured state does not fit its lease.
pub open spec fn measured_advisory(label: Seq<char>, measured: u64, error: MemoryError) -> Seq<
    char,
> {
    "measured "@ + label + " require "@ + text::decimal_text(measured as nat)
        + " bytes beyond the accounting envelope ("@ + error.text()
        + "); continuing because the state is already allocated and letting actual allocation or I/O report any real failure"@
}

/// Settles a lease on the bytes that were measured. Where they do not fit, the lease stays as it
/// was and the run goes on with a word about it.
pub fn resize_measured_memory_advisory(
    lease: &mut MemoryLease,
    memory: &mut MemoryBroker,
    measured_bytes: u64,
    label: &str,
    advisories: &mut Vec<String>,
) -> (result: Result<(), PipelineError>)
    requires
        old(memory)@.wf(),
        old(lease).is_of(old(memory)@),
    ensures
        final(lease).id() == old(lease).id(),
        final(memory)@.wf(),
        ({
            let before = old(memory)@;
            let id = old(lease).id() as int;
            let slot = before.slots[id];
            let add = (measured_bytes - slot.bytes) as u64;
            if measured_bytes <= slot.bytes {
                result is Ok && final(memory)@ == before.rewrite(
                    id,
                    measured_bytes,
                    slot.reclaimable,
                ) && final(advisories)@ == old(advisories)@
            } else if before.used + add > u64::MAX {
                &&& (result matches Err(e) && e@ == error::overflow_fault())
                &&& final(memory)@ == before
                &&& final(advisories)@ == old(advisories)@
            } else if add > before.available(Some(id)) {
                &&& result is Ok
                &&& final(memory)@ == before
                &&& final(advisories)@.len() == old(advisories)@.len() + 1
                &&& final(advisories)@.drop_last() == old(advisories)@
                &&& final(advisories)@.last()@ == measured_advisory(
                    label@,
                    measured_bytes,
                    MemoryError::Budget {
                        requested: add,
                        used: before.used,
                        hard_top: before.hard_top,
                    },
                )
            } else {
                result is Ok && final(memory)@ == before.make_room(add, Some(id)).rewrite(
                    id,
                    measured_bytes,
                    slot.reclaimable,
                ) && final(advisories)@ == old(advisories)@
            }
        }),
{
    match lease.resize(memory, measured_bytes) {
        Ok(()) => Ok(()),
        Err(MemoryError::Budget { requested, used, hard_top }) => {
            let error = MemoryError::Budget { requested, used, hard_top };
            let advisory = "measured ".to_owned().concat(label).concat(" require ").concat(
                decimal(measured_bytes).as_str(),
            ).concat(" bytes beyond the accounting envelope (").concat(
                error.message().as_str(),
            ).concat(
                "); continuing because the state is already allocated and letting actual allocation or I/O report any real failure",
            );
            let ghost before = advisories@;
            advisories.push(advisory);
            assert(advisories@.drop_last() =~= before);
            Ok(())
        },
        Err(error) => Err(PipelineError::Memory(error)),
    }
}

} // verus!
