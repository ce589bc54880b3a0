//! What a run admits between its stages: identities, evidence, commits, kept forests.

use crate::identity::{checked_u32_identity, IdentityOverflow};
use crate::pipeline::collectors::ScopeForestRuns;
use crate::pipeline::connectivity;
use crate::pipeline::connectivity::{has_mapped_runs, stored_edge_count};
use crate::pipeline::plans::{ComponentMemoryPlan, ComponentRootMode};
use crate::resource::MemoryBroker;
use crate::snapshot::metadata::MetadataSnapshot;
use vstd::prelude::*;

verus! {

/// Most bytes of exact evidence in memory.
pub const MAX_EVIDENCE_RESIDENT_BYTES: u64 = 8_589_934_592;

/// Least bytes of an evidence partition that is kept on disk.
pub const DURABLE_EVIDENCE_PARTITION_BYTES: u64 = 65_536;

/// Scratch of a scope whose roots are being written.
pub const COMPONENT_COMMIT_BYTES_PER_SCOPE: u64 = 131_072;

/// The rows that get 32-bit identities, in the order in which they are checked.
pub open spec fn identity_counts(snapshot: MetadataSnapshot) -> Seq<int> {
    let tokens = snapshot.features.token_member_offsets@.len();
    seq![
        snapshot.features.contract_count(),
        snapshot.blocking_ready.atom_count as int,
        snapshot.blocking.block_kinds@.len() as int,
        if tokens > 0 {
            tokens - 1
        } else {
            0
        },
        snapshot.ready.chains@.len() as int,
    ]
}

/// The names of [`identity_counts`].
pub open spec fn identity_names() -> Seq<Seq<char>> {
    seq!["contracts"@, "atoms"@, "blocks"@, "token identities"@, "chains"@]
}

/// The first of `counts`, from `at` on, that is too large for 32 bits.
pub open spec fn first_wide(counts: Seq<int>, at: int) -> Option<int>
    decreases counts.len() - at,
{
    if at < 0 || at >= counts.len() {
        None
    } else if counts[at] > u32::MAX {
        Some(at)
    } else {
        first_wide(counts, at + 1)
    }
}

/// Checks that contracts, atoms, blocks, tokens and chains have 32-bit identities.
pub fn check_identities(snapshot: &MetadataSnapshot) -> (result: Result<(), IdentityOverflow>)
    ensures
        match first_wide(identity_counts(*snapshot), 0) {
            Some(at) => result matches Err(overflow) && overflow.what@ == identity_names()[at]
                && overflow.count == identity_counts(*snapshot)[at],
            None => result is Ok,
        },
{
    proof {
        reveal_with_fuel(first_wide, 6);
    }
    let tokens: usize = snapshot.features().token_member_offsets.len();
    if let Err(overflow) = checked_u32_identity("contracts", snapshot.contract_count() as u64) {
        return Err(overflow);
    }
    if let Err(overflow) = checked_u32_identity("atoms", snapshot.atom_count() as u64) {
        return Err(overflow);
    }
    if let Err(overflow) = checked_u32_identity(
        "blocks",
        snapshot.blocking().block_kinds.len() as u64,
    ) {
        return Err(overflow);
    }
    if let Err(overflow) = checked_u32_identity(
        "token identities",
        tokens.saturating_sub(1) as u64,
    ) {
        return Err(overflow);
    }
    match checked_u32_identity("chains", snapshot.chain_names().len() as u64) {
        Ok(_) => Ok(()),
        Err(overflow) => Err(overflow),
    }
}

/// The bytes that an evidence partition would like to keep in memory: a third of its share of
/// the hard top, but no more than all its pairs take.
pub open spec fn evidence_partition(hard_top: int, pair_work: int, durable: bool) -> int {
    let share = if hard_top / 32 > MAX_EVIDENCE_RESIDENT_BYTES {
        MAX_EVIDENCE_RESIDENT_BYTES as int
    } else if hard_top / 32 < 1 {
        1
    } else {
        hard_top / 32
    };
    let floor = if durable {
        DURABLE_EVIDENCE_PARTITION_BYTES as int
    } else {
        1
    };
    let third = if share / 3 < floor {
        floor
    } else {
        share / 3
    };
    let pairs = if pair_work * 16 < floor {
        floor
    } else {
        pair_work * 16
    };
    if third < pairs {
        third
    } else {
        pairs
    }
}

/// Memory for exact evidence.
#[derive(Debug, Clone, Copy, PartialEq, Eq, Structural)]
pub struct EvidenceMemory {
    /// Bytes that each of three partitions would keep.
    pub partition_bytes: u64,
    /// Bytes while partitions are sorted and merged.
    pub peak_bytes: u64,
}

/// Plans the memory of exact evidence: three partitions, held twice, and two more to merge.
pub fn plan_evidence_memory(hard_top: u64, pair_work: u64, durable: bool) -> (plan: EvidenceMemory)
    ensures
        plan.partition_bytes == evidence_partition(hard_top as int, pair_work as int, durable),
        plan.peak_bytes == 8 * plan.partition_bytes,
{
    let share: u64 = if hard_top / 32 > MAX_EVIDENCE_RESIDENT_BYTES {
        MAX_EVIDENCE_RESIDENT_BYTES
    } else if hard_top / 32 < 1 {
        1
    } else {
        hard_top / 32
    };
    let floor: u64 = if durable {
        DURABLE_EVIDENCE_PARTITION_BYTES
    } else {
        1
    };
    let third: u64 = if share / 3 < floor {
        floor
    } else {
        share / 3
    };
    let partition_bytes: u64 = match pair_work.checked_mul(16) {
        None => third,
        Some(bytes) => {
            let pairs: u64 = if bytes < floor {
                floor
            } else {
                bytes
            };
            if third < pairs {
                third
            } else {
                pairs
            }
        },
    };
    EvidenceMemory { partition_bytes, peak_bytes: partition_bytes * 8 }
}

/// The bytes that each partition keeps where so many were reserved.
pub fn admitted_evidence_partition(plan: &EvidenceMemory, reserved: u64) -> (bytes: u64)
    ensures
        bytes == (if reserved / 8 < plan.partition_bytes {
            reserved / 8
        } else {
            plan.partition_bytes
        }),
{
    if reserved / 8 < plan.partition_bytes {
        reserved / 8
    } else {
        plan.partition_bytes
    }
}

/// Every other value from position `at` on.
pub open spec fn every_other(values: Seq<u32>, at: int) -> Seq<u32> {
    let count = if at < values.len() {
        (values.len() - at + 1) / 2
    } else {
        0
    };
    Seq::new(count as nat, |k: int| values[at + 2 * k])
}

/// Divides a sample: one value for calibration, the next for holdout, and so on.
pub fn split_samples(samples: &Vec<u32>) -> (split: (Vec<u32>, Vec<u32>))
    ensures
        split.0@ == every_other(samples@, 0),
        split.1@ == every_other(samples@, 1),
{
    let mut calibration: Vec<u32> = Vec::new();
    let mut holdout: Vec<u32> = Vec::new();
    let mut i: usize = 0;
    while i < samples.len()
        invariant
            i <= samples@.len(),
            calibration@ == every_other(samples@.take(i as int), 0),
            holdout@ == every_other(samples@.take(i as int), 1),
        decreases samples.len() - i,
    {
        let ghost more = samples@.take(i + 1);
        let ghost before = samples@.take(i as int);
        let ghost first = calibration@;
        let ghost second = holdout@;
        if i % 2 == 0 {
            calibration.push(samples[i]);
        } else {
            holdout.push(samples[i]);
        }
        assert(calibration@ =~= every_other(more, 0)) by {
            assert(forall|k: int| 0 <= k < first.len() ==> first[k] == before[2 * k]);
        }
        assert(holdout@ =~= every_other(more, 1)) by {
            assert(forall|k: int| 0 <= k < second.len() ==> second[k] == before[1 + 2 * k]);
        }
        i = i + 1;
    }
    assert(samples@.take(i as int) =~= samples@);
    (calibration, holdout)
}

proof fn lemma_every_other_holds(values: Seq<u32>, k: int)
    requires
        0 <= k < values.len(),
    ensures
        every_other(values, k % 2).contains(values[k]),
{
    assert(every_other(values, k % 2)[k / 2] == values[k]);
}

/// Every sampled value goes to calibration or to holdout, and where values differ to one alone.
pub proof fn lemma_split_partitions(values: Seq<u32>, value: u32)
    requires
        values.no_duplicates(),
    ensures
        values.contains(value) <==> every_other(values, 0).contains(value) || every_other(
            values,
            1,
        ).contains(value),
        !(every_other(values, 0).contains(value) && every_other(values, 1).contains(value)),
        every_other(values, 0).len() + every_other(values, 1).len() == values.len(),
{
    let evens = every_other(values, 0);
    let odds = every_other(values, 1);
    if values.contains(value) {
        lemma_every_other_holds(values, values.index_of(value));
    }
    if evens.contains(value) {
        let k = evens.index_of(value);
        assert(values[2 * k] == value);
        if odds.contains(value) {
            let j = odds.index_of(value);
            assert(values[1 + 2 * j] == value);
        }
    } else if odds.contains(value) {
        let j = odds.index_of(value);
        assert(values[1 + 2 * j] == value);
    }
}

/// The scopes that are written at once, and the bytes that this takes.
#[derive(Debug, Clone, Copy, PartialEq, Eq, Structural)]
pub struct CommitAdmission {
    pub requested_scopes: usize,
    pub scopes: usize,
    pub bytes: u64,
}

/// Admits scopes to be written at once: as many as threads and memory allow, but one at least.
pub fn admit_component_commits(memory: &MemoryBroker, threads: usize, scope_count: usize) -> (
    admission: CommitAdmission)
    requires
        memory@.wf(),
    ensures
        ({
            let threads = if threads == 0 {
                1
            } else {
                threads
            };
            let scopes = if scope_count == 0 {
                1
            } else {
                scope_count
            };
            let requested = if threads < scopes {
                threads
            } else {
                scopes
            };
            let lanes = memory@.admitted_lanes(requested, 0, COMPONENT_COMMIT_BYTES_PER_SCOPE);
            &&& admission.requested_scopes == requested
            &&& admission.scopes == (if lanes == 0 {
                1
            } else {
                lanes
            })
            &&& admission.bytes == COMPONENT_COMMIT_BYTES_PER_SCOPE * lanes
        }),
{
    let threads: usize = if threads == 0 {
        1
    } else {
        threads
    };
    let scopes: usize = if scope_count == 0 {
        1
    } else {
        scope_count
    };
    let requested_scopes: usize = if threads < scopes {
        threads
    } else {
        scopes
    };
    let lanes: usize = memory.active_lanes(requested_scopes, 0, COMPONENT_COMMIT_BYTES_PER_SCOPE);
    let available: u64 = memory.available_bytes();
    assert(lanes <= available / COMPONENT_COMMIT_BYTES_PER_SCOPE);
    let bytes: u64 = COMPONENT_COMMIT_BYTES_PER_SCOPE * lanes as u64;
    CommitAdmission {
        requested_scopes,
        scopes: if lanes == 0 {
            1
        } else {
            lanes
        },
        bytes,
    }
}

/// The bytes to reserve while scopes are reduced.
pub fn component_reserved_bytes(plan: &ComponentMemoryPlan) -> (bytes: u64)
    ensures
        bytes == (if plan.root_mode == ComponentRootMode::Resident && plan.parallel_scopes == 0 {
            plan.total_root_bytes
        } else {
            plan.peak_bytes
        }),
{
    match plan.root_mode {
        ComponentRootMode::Resident => if plan.parallel_scopes == 0 {
            plan.total_root_bytes
        } else {
            plan.peak_bytes
        },
        ComponentRootMode::Mapped => plan.peak_bytes,
    }
}

/// The bytes that roots keep once scopes are reduced.
pub fn component_retained_bytes(plan: &ComponentMemoryPlan) -> (bytes: u64)
    ensures
        bytes == (if plan.root_mode == ComponentRootMode::Resident {
            plan.total_root_bytes
        } else {
            0
        }),
{
    match plan.root_mode {
        ComponentRootMode::Resident => plan.total_root_bytes,
        ComponentRootMode::Mapped => 0,
    }
}

/// How the forests of a run fit the memory for edges.
#[derive(Debug, Clone, Copy, PartialEq, Eq, Structural)]
pub enum ForestFit {
    /// All are in memory, or small.
    Resident,
    /// Collection put some of them aside.
    Spilled { payload_bytes: u64 },
    /// Recovered ones exceed the memory for edges.
    Recovered { payload_bytes: u64 },
}

/// The bytes of the edges of all forests, at most `u64::MAX`.
pub open spec fn payload_of(runs: ScopeForestRuns) -> u64 {
    let edges = connectivity::capped_count(
        connectivity::edges_below(runs, runs.pairs@.len() as int + 2),
    );
    if edges * 8 > u64::MAX {
        u64::MAX
    } else {
        (edges * 8) as u64
    }
}

/// How the forests of a run fit the memory for edges.
pub fn forest_fit(runs: &ScopeForestRuns, recovered: bool, edge_bytes: u64) -> (fit: ForestFit)
    ensures
        fit == (if !recovered && exists|scope: int|
            0 <= scope < runs.pairs@.len() + 2 && connectivity::has_mapped(
                #[trigger] runs.scope(scope),
            ) {
            ForestFit::Spilled { payload_bytes: payload_of(*runs) }
        } else if payload_of(*runs) > edge_bytes {
            ForestFit::Recovered { payload_bytes: payload_of(*runs) }
        } else {
            ForestFit::Resident
        }),
{
    let payload_bytes: u64 = match stored_edge_count(runs).checked_mul(8) {
        Some(bytes) => bytes,
        None => u64::MAX,
    };
    if !recovered && has_mapped_runs(runs) {
        ForestFit::Spilled { payload_bytes }
    } else if payload_bytes > edge_bytes {
        ForestFit::Recovered { payload_bytes }
    } else {
        ForestFit::Resident
    }
}

} // verus!
