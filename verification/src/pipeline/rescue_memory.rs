//! Memory of rescue planning.

use crate::pipeline::error;
use crate::pipeline::error::{overflow_error, PipelineError};
use crate::resource::{BrokerModel, MemoryBroker, MemoryError, MemoryLease};
use vstd::prelude::*;

verus! {

/// Matches are kept in chunks of this many pairs.
pub const RESCUE_MATCH_CHUNK_PAIRS: usize = 4_096;

/// Rows are scored in tiles of this many columns.
pub const RESCUE_SCORE_TILE: usize = 65_536;

/// Most bytes of the buffers that stream spilled matches.
pub const MAX_RESCUE_STREAM_IO_BYTES: u64 = 268_435_456;

/// More matches than this are not sorted.
pub const MAX_RESCUE_GLOBAL_SORT_PAIRS: u64 = 250_000_000;

/// Most decisions that a lane remembers.
pub const MAX_RESCUE_PAYLOAD_CACHE_ENTRIES: usize = 65_536;

/// Bytes of a remembered decision.
pub const RESCUE_PAYLOAD_CACHE_ENTRY_BYTES: u64 = 32;

/// Bytes of an indexed seed.
pub const RESCUE_SEED_INDEX_ENTRY_BYTES: u64 = 64;

/// Bytes of a matched pair.
pub const RESCUE_PAIR_BYTES: u64 = 8;

/// Bytes of a full chunk of matches.
pub const RESCUE_CHUNK_BYTES: u64 = 32_816;

/// Buffers that stream spilled matches at the same time.
pub const RESCUE_STREAM_BUFFERS: u64 = 4;

/// Bytes of all matches, one pair width each.
pub fn rescue_final_match_bytes(atom_count: u64, shared_count: u64) -> (result: Result<
    u64,
    MemoryError,
>)
    ensures
        if (atom_count + shared_count) * RESCUE_PAIR_BYTES <= u64::MAX {
            result == Ok::<u64, MemoryError>(
                ((atom_count + shared_count) * RESCUE_PAIR_BYTES) as u64,
            )
        } else {
            result == Err::<u64, MemoryError>(MemoryError::Overflow)
        },
{
    match atom_count.checked_add(shared_count) {
        None => Err(MemoryError::Overflow),
        Some(count) => match count.checked_mul(RESCUE_PAIR_BYTES) {
            None => Err(MemoryError::Overflow),
            Some(bytes) => Ok(bytes),
        },
    }
}

/// The buffers of `lanes` lanes: three chunks each, and four more.
pub open spec fn stream_slots(lanes: usize) -> int {
    (if lanes > 1 {
        lanes as int
    } else {
        1
    }) * 3 + 4
}

/// Bytes of the buffers of `lanes` lanes.
pub fn rescue_stream_buffer_bytes(lanes: usize) -> (result: Result<u64, MemoryError>)
    ensures
        if stream_slots(lanes) <= usize::MAX && stream_slots(lanes) * RESCUE_CHUNK_BYTES
            <= u64::MAX {
            result == Ok::<u64, MemoryError>((stream_slots(lanes) * RESCUE_CHUNK_BYTES) as u64)
        } else {
            result == Err::<u64, MemoryError>(MemoryError::Overflow)
        },
{
    let used: usize = if lanes > 1 {
        lanes
    } else {
        1
    };
    let slots: usize = match used.checked_mul(3) {
        None => {
            return Err(MemoryError::Overflow);
        },
        Some(slots) => match slots.checked_add(4) {
            None => {
                return Err(MemoryError::Overflow);
            },
            Some(slots) => slots,
        },
    };
    match (slots as u64).checked_mul(RESCUE_CHUNK_BYTES) {
        None => Err(MemoryError::Overflow),
        Some(bytes) => Ok(bytes),
    }
}

/// The pairs of a streamed batch: whole chunks within the admitted bytes, at least one chunk.
pub open spec fn spill_batch_pairs(admitted_bytes: u64) -> int {
    let width = RESCUE_PAIR_BYTES * RESCUE_STREAM_BUFFERS;
    let most = MAX_RESCUE_STREAM_IO_BYTES as int / width;
    let fitting = admitted_bytes as int / width;
    let chunk = RESCUE_MATCH_CHUNK_PAIRS as int;
    let pairs = if fitting < chunk {
        chunk
    } else if fitting > most {
        most
    } else {
        fitting
    };
    pairs - pairs % chunk
}

/// The pairs of a streamed batch.
pub fn rescue_spill_batch_pairs(admitted_bytes: u64) -> (pairs: usize)
    ensures
        pairs == spill_batch_pairs(admitted_bytes),
        pairs >= RESCUE_MATCH_CHUNK_PAIRS,
{
    let width: u64 = RESCUE_PAIR_BYTES * RESCUE_STREAM_BUFFERS;
    let most: u64 = MAX_RESCUE_STREAM_IO_BYTES / width;
    let fitting: u64 = admitted_bytes / width;
    let chunk: u64 = RESCUE_MATCH_CHUNK_PAIRS as u64;
    let pairs: u64 = if fitting < chunk {
        chunk
    } else if fitting > most {
        most
    } else {
        fitting
    };
    (pairs - pairs % chunk) as usize
}

/// Bytes of the state that all lanes share.
pub open spec fn rescue_base_bytes(
    atoms: int,
    contracts: int,
    shared_contracts: int,
    shared_edges: int,
) -> int {
    atoms * 5 + contracts + shared_contracts * RESCUE_SEED_INDEX_ENTRY_BYTES * 2 + shared_edges
        * RESCUE_PAIR_BYTES
}

/// How rescue planning runs.
#[derive(Debug, Clone, Copy, PartialEq, Eq, Structural)]
pub struct RescueAdmission {
    pub requested_lanes: usize,
    pub lanes: usize,
    pub cache_entries_per_lane: usize,
    /// Bytes of the shared state and the caches.
    pub reservation_bytes: u64,
    pub stream_buffer_bytes: u64,
}

/// What is less than the other, or nothing.
pub open spec fn saturating_difference(a: int, b: int) -> int {
    if a > b {
        a - b
    } else {
        0
    }
}

/// At least one of the requested lanes, as many as fit.
pub open spec fn rescue_lanes(broker: BrokerModel, requested: usize, fixed: u64) -> int {
    let admitted = broker.admitted_lanes(requested, fixed, (RESCUE_CHUNK_BYTES * 3) as u64);
    if admitted > 1 {
        admitted
    } else {
        1
    }
}

/// The admission of rescue planning beside shared state of `base` bytes.
pub open spec fn is_rescue_admission(
    admission: RescueAdmission,
    broker: BrokerModel,
    lanes: usize,
    base: int,
) -> bool {
    let requested = if lanes > 1 {
        lanes
    } else {
        1
    };
    let fixed = base + RESCUE_CHUNK_BYTES * 4;
    let used = rescue_lanes(broker, requested, fixed as u64);
    let stream = (used * 3 + 4) * RESCUE_CHUNK_BYTES;
    let budget = saturating_difference(
        saturating_difference(broker.available(None), base),
        stream,
    );
    let entries = budget / (used * RESCUE_PAYLOAD_CACHE_ENTRY_BYTES);
    &&& admission.requested_lanes == requested
    &&& admission.lanes == used
    &&& admission.stream_buffer_bytes == stream
    &&& admission.cache_entries_per_lane == (if entries > MAX_RESCUE_PAYLOAD_CACHE_ENTRIES {
        MAX_RESCUE_PAYLOAD_CACHE_ENTRIES as int
    } else {
        entries
    })
    &&& admission.reservation_bytes == base + used * admission.cache_entries_per_lane
        * RESCUE_PAYLOAD_CACHE_ENTRY_BYTES
}

fn add_product(sum: u64, count: u64, width: u64) -> (result: Result<u64, PipelineError>)
    ensures
        error::is_checked(result, sum + count * width),
{
    match count.checked_mul(width) {
        None => {
            assert(count * width <= sum + count * width);
            Err(overflow_error())
        },
        Some(product) => match sum.checked_add(product) {
            None => Err(overflow_error()),
            Some(total) => Ok(total),
        },
    }
}

/// Decides how rescue planning runs.
pub fn admit_rescue(
    memory: &MemoryBroker,
    lanes: usize,
    atoms: u32,
    contracts: usize,
    shared_contracts: usize,
    shared_edges: usize,
) -> (result: Result<RescueAdmission, PipelineError>)
    requires
        memory@.wf(),
    ensures
        ({
            let base = rescue_base_bytes(
                atoms as int,
                contracts as int,
                shared_contracts as int,
                shared_edges as int,
            );
            let requested = if lanes > 1 {
                lanes
            } else {
                1
            };
            let fixed = base + RESCUE_CHUNK_BYTES * 4;
            if fixed > u64::MAX || rescue_lanes(memory@, requested, fixed as u64) * 3 + 4
                > usize::MAX {
                result matches Err(e) && e@ == error::overflow_fault()
            } else {
                result matches Ok(admission) && is_rescue_admission(
                    admission,
                    memory@,
                    lanes,
                    base,
                )
            }
        }),
{
    let ghost exact = rescue_base_bytes(
        atoms as int,
        contracts as int,
        shared_contracts as int,
        shared_edges as int,
    );
    let base: u64 = add_product(atoms as u64 * 5, contracts as u64, 1)?;
    let base: u64 = add_product(
        base,
        shared_contracts as u64,
        RESCUE_SEED_INDEX_ENTRY_BYTES * 2,
    )?;
    let base: u64 = add_product(base, shared_edges as u64, RESCUE_PAIR_BYTES)?;
    assert(base == exact);
    let fixed: u64 = add_product(base, RESCUE_CHUNK_BYTES, 4)?;
    let requested: usize = if lanes > 1 {
        lanes
    } else {
        1
    };
    let per_lane: u64 = RESCUE_CHUNK_BYTES * 3;
    let admitted: usize = memory.active_lanes(requested, fixed, per_lane);
    let used: usize = if admitted > 1 {
        admitted
    } else {
        1
    };
    let available: u64 = memory.available_bytes();
    proof {
        if admitted >= 1 {
            let fitting = (available - fixed) / per_lane as int;
            assert(admitted <= fitting);
            assert(admitted * per_lane <= available - fixed) by (nonlinear_arith)
                requires
                    admitted <= fitting,
                    fitting == (available - fixed) / per_lane as int,
                    per_lane > 0,
                    available >= fixed,
            ;
        }
        assert(used * per_lane == (used * 3) * RESCUE_CHUNK_BYTES) by (nonlinear_arith)
            requires
                per_lane == RESCUE_CHUNK_BYTES * 3,
        ;
        assert((used * 3 + 4) * RESCUE_CHUNK_BYTES == (used * 3) * RESCUE_CHUNK_BYTES + 4
            * RESCUE_CHUNK_BYTES) by (nonlinear_arith);
    }
    let stream: u64 = match rescue_stream_buffer_bytes(used) {
        Ok(bytes) => bytes,
        Err(error) => {
            return Err(PipelineError::Memory(error));
        },
    };
    let budget: u64 = available.saturating_sub(base).saturating_sub(stream);
    proof {
        assert(used * RESCUE_PAYLOAD_CACHE_ENTRY_BYTES <= used * per_lane) by (nonlinear_arith)
            requires
                RESCUE_PAYLOAD_CACHE_ENTRY_BYTES <= per_lane,
        ;
    }
    let share: u64 = used as u64 * RESCUE_PAYLOAD_CACHE_ENTRY_BYTES;
    let fitting: u64 = budget / share;
    let entries: usize = if fitting > MAX_RESCUE_PAYLOAD_CACHE_ENTRIES as u64 {
        MAX_RESCUE_PAYLOAD_CACHE_ENTRIES
    } else {
        fitting as usize
    };
    proof {
        assert(entries * share <= budget) by (nonlinear_arith)
            requires
                entries <= fitting,
                fitting == budget / share,
                share > 0,
        ;
        assert(used * entries * RESCUE_PAYLOAD_CACHE_ENTRY_BYTES == entries * share)
            by (nonlinear_arith)
            requires
                share == used * RESCUE_PAYLOAD_CACHE_ENTRY_BYTES,
        ;
    }
    let caches: u64 = entries as u64 * share;
    Ok(
        RescueAdmission {
            requested_lanes: requested,
            lanes: used,
            cache_entries_per_lane: entries,
            reservation_bytes: base + caches,
            stream_buffer_bytes: stream,
        },
    )
}

/// A reservation that may be refused for lack of memory.
pub fn reserve_or_continue(memory: &mut MemoryBroker, bytes: u64) -> (result: Result<
    Option<MemoryLease>,
    PipelineError,
>)
    requires
        old(memory)@.wf(),
    ensures
        final(memory)@.wf(),
        if old(memory)@.used + bytes > u64::MAX {
            (result matches Err(e) && e@ == error::overflow_fault()) && final(memory)@ == old(memory)@
        } else if bytes > old(memory)@.available(None) {
            (result matches Ok(lease) && lease is None) && final(memory)@ == old(memory)@
        } else {
            (result matches Ok(lease) && lease is Some && lease->0.id()
                == old(memory)@.slots.len()) && final(memory)@ == old(memory)@.make_room(
                bytes,
                None,
            ).lease(bytes, false)
        },
{
    match memory.reserve(bytes) {
        Ok(lease) => Ok(Some(lease)),
        Err(MemoryError::Budget { .. }) => Ok(None),
        Err(error) => Err(PipelineError::Memory(error)),
    }
}

} // verus!
