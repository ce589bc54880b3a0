//! The work catalog: the blocks of a snapshot divided into jobs.

use crate::digest;
use crate::identity::{checked_u32_identity, IdentityOverflow};
use crate::scheduler::jobs;
use crate::scheduler::jobs::{CatalogColumns, CatalogJobs, JobDescriptor, JobShape, SchedulerError};
use crate::snapshot::metadata::MetadataSnapshot;
use vstd::prelude::*;

verus! {

/// Revision of stored catalogs.
pub const CATALOG_REVISION: u32 = 4;

/// Most atom pairs of a block that is scored in a batch.
pub const MAX_MICRO_BLOCK_PAIR_WORK: u64 = 8_000_000;

/// Stored bytes of a job.
pub const CATALOG_ENCODED_BYTES_PER_JOB: u64 = 24;

/// Bytes of a descriptor in memory.
pub const DESCRIPTOR_BYTES: u64 = 32;

/// Limits of a catalog.
#[derive(Debug, Clone, Copy)]
pub struct UniverseBudget {
    pub max_jobs: u64,
    pub max_catalog_bytes: u64,
    pub cold_members_per_job: u64,
}

/// The ordered pairs of `members` members.
pub open spec fn ordered_pairs(members: nat) -> nat {
    if members == 0 {
        0
    } else {
        members * ((members - 1) as nat)
    }
}

/// A block is too large to be scored in a batch.
pub open spec fn is_hot(members: nat, hot_members: u64) -> bool {
    members > hot_members || ordered_pairs(members) / 2 > MAX_MICRO_BLOCK_PAIR_WORK
}

/// The atoms of a block.
pub open spec fn block_size(snapshot: MetadataSnapshot, block: int) -> nat {
    (snapshot.blocking.block_atom_offsets@[block + 1]
        - snapshot.blocking.block_atom_offsets@[block]) as nat
}

/// The contracts of an atom.
pub open spec fn atom_size(snapshot: MetadataSnapshot, atom: int) -> nat {
    (snapshot.features.fallback_atom_offsets@[atom + 1]
        - snapshot.features.fallback_atom_offsets@[atom]) as nat
}

/// The contracts of the block members from `begin` up to `end`.
pub open spec fn member_contracts(snapshot: MetadataSnapshot, begin: int, end: int) -> nat
    decreases end - begin,
{
    if end <= begin {
        0
    } else {
        member_contracts(snapshot, begin, end - 1) + atom_size(
            snapshot,
            snapshot.blocking.block_atoms@[end - 1] as int,
        )
    }
}

/// The pairs of contracts of different atoms among the block members from `begin` up to
/// `end`.
pub open spec fn member_pairs(snapshot: MetadataSnapshot, begin: int, end: int) -> nat
    decreases end - begin,
{
    if end <= begin {
        0
    } else {
        member_pairs(snapshot, begin, end - 1) + member_contracts(snapshot, begin, end - 1)
            * atom_size(snapshot, snapshot.blocking.block_atoms@[end - 1] as int)
    }
}

/// The contract pairs of a block.
pub open spec fn block_work(snapshot: MetadataSnapshot, block: int) -> nat {
    member_pairs(
        snapshot,
        snapshot.blocking.block_atom_offsets@[block] as int,
        snapshot.blocking.block_atom_offsets@[block + 1] as int,
    )
}

/// The counters of a block's contracts and contract pairs do not overflow.
pub open spec fn block_fits(snapshot: MetadataSnapshot, block: int) -> bool {
    &&& block_work(snapshot, block) <= u64::MAX
    &&& member_contracts(
        snapshot,
        snapshot.blocking.block_atom_offsets@[block] as int,
        snapshot.blocking.block_atom_offsets@[block + 1] as int,
    ) <= u64::MAX
}

/// The contract pairs of the blocks from `first` up to `end`.
pub open spec fn work_sum(snapshot: MetadataSnapshot, first: int, end: int) -> nat
    decreases end - first,
{
    if end <= first {
        0
    } else {
        work_sum(snapshot, first, end - 1) + block_work(snapshot, end - 1)
    }
}

/// The work counters of the blocks from `first` up to `end` do not overflow.
pub open spec fn work_fits(snapshot: MetadataSnapshot, first: int, end: int) -> bool {
    &&& work_sum(snapshot, first, end) <= u64::MAX
    &&& forall|block: int| first <= block < end ==> #[trigger] block_fits(snapshot, block)
}

/// Half the ordered atom pairs of a block, capped before halving.
pub open spec fn routing_pairs(snapshot: MetadataSnapshot, block: int) -> nat {
    let pairs = ordered_pairs(block_size(snapshot, block));
    if pairs > u64::MAX {
        u64::MAX as nat / 2
    } else {
        pairs / 2
    }
}

/// The atom pairs of the blocks from `first` up to `end`.
pub open spec fn routing_sum(snapshot: MetadataSnapshot, first: int, end: int) -> nat
    decreases end - first,
{
    if end <= first {
        0
    } else {
        routing_sum(snapshot, first, end - 1) + routing_pairs(snapshot, end - 1)
    }
}

/// Where a batch that begins at `first` ends, looking from block `at` on: before the next
/// block that is too large or would exceed the batch's members. Nothing where a counter
/// overflows first.
pub open spec fn batch_end(
    snapshot: MetadataSnapshot,
    budget: UniverseBudget,
    hot_members: u64,
    first: int,
    at: int,
) -> Option<int>
    decreases snapshot.blocking.block_count() - at,
{
    let offsets = snapshot.blocking.block_atom_offsets@;
    if at >= snapshot.blocking.block_count() {
        Some(at)
    } else if ordered_pairs(block_size(snapshot, at)) > u64::MAX {
        None
    } else if is_hot(block_size(snapshot, at), hot_members) || (at > first && offsets[at + 1]
        - offsets[first] > budget.cold_members_per_job) {
        Some(at)
    } else if !work_fits(snapshot, first, at + 1) {
        None
    } else {
        batch_end(snapshot, budget, hot_members, first, at + 1)
    }
}

proof fn lemma_batch_advances(
    snapshot: MetadataSnapshot,
    budget: UniverseBudget,
    hot_members: u64,
    first: int,
    at: int,
)
    requires
        first <= at <= snapshot.blocking.block_count(),
    ensures
        batch_end(snapshot, budget, hot_members, first, at) matches Some(end) ==> {
            &&& at <= end <= snapshot.blocking.block_count()
            &&& (first == at < snapshot.blocking.block_count() && !is_hot(
                block_size(snapshot, at),
                hot_members,
            ) ==> at < end)
            &&& (work_fits(snapshot, first, at) ==> work_fits(snapshot, first, end))
            &&& (at <= first + 1 || within_batch(snapshot, budget, first, at)) ==> (end <= first + 1
                || within_batch(snapshot, budget, first, end))
            &&& forall|block: int|
                at <= block < end ==> !is_hot(#[trigger] block_size(snapshot, block), hot_members)
        },
    decreases snapshot.blocking.block_count() - at,
{
    if at < snapshot.blocking.block_count() {
        lemma_batch_advances(snapshot, budget, hot_members, first, at + 1);
    }
}

/// The members of the blocks from `first` up to `end` fit one batch.
pub open spec fn within_batch(
    snapshot: MetadataSnapshot,
    budget: UniverseBudget,
    first: int,
    end: int,
) -> bool {
    snapshot.blocking.block_atom_offsets@[end] - snapshot.blocking.block_atom_offsets@[first]
        <= budget.cold_members_per_job
}

/// The budget refuses one more job than `jobs`.
pub open spec fn next_job_fault(jobs: int, budget: UniverseBudget) -> Option<SchedulerError> {
    let next = jobs + 1;
    let bytes = if next * DESCRIPTOR_BYTES > u64::MAX {
        u64::MAX as int
    } else {
        next * DESCRIPTOR_BYTES
    };
    if next > budget.max_jobs || bytes > budget.max_catalog_bytes || next > u32::MAX {
        Some(
            SchedulerError::Budget {
                jobs: next as u64,
                max_jobs: if budget.max_jobs < u32::MAX {
                    budget.max_jobs
                } else {
                    u32::MAX as u64
                },
                bytes: bytes as u64,
                max_bytes: budget.max_catalog_bytes,
            },
        )
    } else {
        None
    }
}

/// The job of the blocks from `first` up to `end`.
pub open spec fn planned_job(
    snapshot: MetadataSnapshot,
    job_id: int,
    first: int,
    end: int,
    shape: JobShape,
) -> JobDescriptor {
    JobDescriptor {
        job_id: job_id as u32,
        first_block: first as u32,
        block_count: (end - first) as u32,
        shape,
        risk: 0,
        rescue: 0,
        tile_row: 0,
        tile_col: 0,
        estimated_work: work_sum(snapshot, first, end) as u64,
    }
}

/// Where the next job ends and its shape, or why there is none.
pub open spec fn next_job(
    snapshot: MetadataSnapshot,
    budget: UniverseBudget,
    hot_members: u64,
    start: int,
    jobs: int,
) -> Result<(int, JobShape), SchedulerError> {
    let fault = next_job_fault(jobs, budget);
    if ordered_pairs(block_size(snapshot, start)) > u64::MAX {
        Err(SchedulerError::WorkOverflow)
    } else if is_hot(block_size(snapshot, start), hot_members) {
        if fault is Some {
            Err(fault->0)
        } else if !block_fits(snapshot, start) {
            Err(SchedulerError::WorkOverflow)
        } else {
            Ok((start + 1, JobShape::LeftTileFanout))
        }
    } else {
        match batch_end(snapshot, budget, hot_members, start, start) {
            None => Err(SchedulerError::WorkOverflow),
            Some(end) => if fault is Some {
                Err(fault->0)
            } else {
                Ok((end, JobShape::MicroBatch))
            },
        }
    }
}

/// A job that is not refused takes at least one block, and its counters do not overflow.
pub proof fn lemma_next_job(
    snapshot: MetadataSnapshot,
    budget: UniverseBudget,
    hot_members: u64,
    start: int,
    jobs: int,
)
    requires
        0 <= start < snapshot.blocking.block_count(),
    ensures
        next_job(snapshot, budget, hot_members, start, jobs) matches Ok((end, shape)) ==> {
            &&& start < end <= snapshot.blocking.block_count()
            &&& jobs < u32::MAX
            &&& work_fits(snapshot, start, end)
        },
{
    lemma_batch_advances(snapshot, budget, hot_members, start, start);
    assert(work_sum(snapshot, start, start) == 0);
    assert(work_sum(snapshot, start, start + 1) == block_work(snapshot, start));
}

/// The jobs from block `start` on, with `jobs` jobs before them, and why there are not more,
/// if not all blocks are in a job.
pub open spec fn planned_jobs(
    snapshot: MetadataSnapshot,
    budget: UniverseBudget,
    hot_members: u64,
    start: int,
    jobs: int,
) -> (Seq<JobDescriptor>, Option<SchedulerError>)
    decreases snapshot.blocking.block_count() - start,
{
    proof {
        if 0 <= start < snapshot.blocking.block_count() {
            lemma_next_job(snapshot, budget, hot_members, start, jobs);
        }
    }
    if start < 0 || start >= snapshot.blocking.block_count() {
        (Seq::empty(), None)
    } else {
        match next_job(snapshot, budget, hot_members, start, jobs) {
            Err(error) => (Seq::empty(), Some(error)),
            Ok((end, shape)) => {
                let rest = planned_jobs(snapshot, budget, hot_members, end, jobs + 1);
                (seq![planned_job(snapshot, jobs, start, end, shape)] + rest.0, rest.1)
            },
        }
    }
}

/// The progress after the jobs: before the first none of `total` blocks, and after each job
/// the blocks up to its end and the jobs so far.
pub open spec fn catalog_reports(jobs: Seq<JobDescriptor>, total: u64) -> Seq<(u64, u64, u64)> {
    seq![(0u64, total, 0u64)] + jobs.map_values(|job: JobDescriptor| job_report(job, total))
}

/// The progress after a job.
pub open spec fn job_report(job: JobDescriptor, total: u64) -> (u64, u64, u64) {
    ((job.first_block + job.block_count) as u64, total, (job.job_id + 1) as u64)
}

/// The blocks before job `i`.
pub open spec fn blocks_before(jobs: Seq<JobDescriptor>, start: int, i: int) -> int {
    if i == 0 {
        start
    } else {
        jobs[i - 1].first_block + jobs[i - 1].block_count
    }
}

/// Job `i` takes the blocks that follow those of the job before it, is one large block or a
/// batch of others that fits, and carries their contract pairs.
pub open spec fn is_job_of(
    snapshot: MetadataSnapshot,
    budget: UniverseBudget,
    hot_members: u64,
    jobs: Seq<JobDescriptor>,
    start: int,
    count: int,
    i: int,
) -> bool {
    let job = jobs[i];
    let end = job.first_block + job.block_count;
    &&& job.job_id == count + i
    &&& job.first_block == blocks_before(jobs, start, i)
    &&& job.block_count > 0
    &&& end <= snapshot.blocking.block_count()
    &&& job.estimated_work == work_sum(snapshot, job.first_block as int, end)
    &&& job.shape == JobShape::LeftTileFanout ==> job.block_count == 1 && is_hot(
        block_size(snapshot, job.first_block as int),
        hot_members,
    )
    &&& job.shape == JobShape::MicroBatch ==> {
        &&& forall|block: int|
            job.first_block <= block < end ==> !is_hot(
                #[trigger] block_size(snapshot, block),
                hot_members,
            )
        &&& job.block_count == 1 || within_batch(snapshot, budget, job.first_block as int, end)
    }
}

/// The jobs of a catalog follow each other without gap or overlap; where none is refused,
/// they take every block.
pub proof fn lemma_jobs_cover_blocks(
    snapshot: MetadataSnapshot,
    budget: UniverseBudget,
    hot_members: u64,
    start: int,
    count: int,
)
    requires
        0 <= start <= snapshot.blocking.block_count(),
        snapshot.blocking.block_count() < u32::MAX,
        0 <= count,
    ensures
        ({
            let (jobs, error) = planned_jobs(snapshot, budget, hot_members, start, count);
            &&& forall|i: int|
                0 <= i < jobs.len() ==> #[trigger] is_job_of(
                    snapshot,
                    budget,
                    hot_members,
                    jobs,
                    start,
                    count,
                    i,
                )
            &&& error is None ==> blocks_before(jobs, start, jobs.len() as int)
                == snapshot.blocking.block_count()
            &&& count + jobs.len() <= u32::MAX || jobs.len() == 0
        }),
    decreases snapshot.blocking.block_count() - start,
{
    let (jobs, error) = planned_jobs(snapshot, budget, hot_members, start, count);
    if start < snapshot.blocking.block_count() {
        lemma_next_job(snapshot, budget, hot_members, start, count);
        match next_job(snapshot, budget, hot_members, start, count) {
            Err(_) => {},
            Ok((end, shape)) => {
                let (rest, rest_error) = planned_jobs(
                    snapshot,
                    budget,
                    hot_members,
                    end,
                    count + 1,
                );
                let job = planned_job(snapshot, count, start, end, shape);
                lemma_jobs_cover_blocks(snapshot, budget, hot_members, end, count + 1);
                assert(jobs == seq![job] + rest);
                lemma_batch_advances(snapshot, budget, hot_members, start, start);
                assert(is_job_of(snapshot, budget, hot_members, jobs, start, count, 0)) by {
                    assert(jobs[0] == job);
                    assert(blocks_before(jobs, start, 0) == start);
                }
                assert forall|i: int| 0 <= i < jobs.len() implies #[trigger] is_job_of(
                    snapshot,
                    budget,
                    hot_members,
                    jobs,
                    start,
                    count,
                    i,
                ) by {
                    if i > 0 {
                        assert(is_job_of(snapshot, budget, hot_members, rest, end, count + 1, i - 1));
                        assert(jobs[i] == rest[i - 1]);
                        if i > 1 {
                            assert(jobs[i - 1] == rest[i - 2]);
                        }
                    }
                }
                if rest.len() > 0 {
                    assert(jobs[jobs.len() - 1] == rest[rest.len() - 1]);
                }
            },
        }
    }
}

/// The contract pairs of a catalog's jobs.
pub open spec fn estimated_sum(jobs: Seq<JobDescriptor>) -> nat
    decreases jobs.len(),
{
    if jobs.len() == 0 {
        0
    } else {
        estimated_sum(jobs.drop_last()) + jobs.last().estimated_work as nat
    }
}

proof fn lemma_estimated_sum_prepend(job: JobDescriptor, rest: Seq<JobDescriptor>)
    ensures
        estimated_sum(seq![job] + rest) == job.estimated_work + estimated_sum(rest),
    decreases rest.len(),
{
    let all = seq![job] + rest;
    assert(all.last() == if rest.len() == 0 {
        job
    } else {
        rest.last()
    });
    if rest.len() == 0 {
        assert(all.drop_last() =~= Seq::<JobDescriptor>::empty());
        assert(estimated_sum(all.drop_last()) == 0);
    } else {
        assert(all.drop_last() =~= seq![job] + rest.drop_last());
        lemma_estimated_sum_prepend(job, rest.drop_last());
    }
}

proof fn lemma_estimated_sum_grows(jobs: Seq<JobDescriptor>, count: int)
    requires
        0 <= count <= jobs.len(),
    ensures
        estimated_sum(jobs.take(count)) <= estimated_sum(jobs),
    decreases jobs.len() - count,
{
    if count < jobs.len() {
        assert(jobs.take(count + 1).drop_last() =~= jobs.take(count));
        lemma_estimated_sum_grows(jobs, count + 1);
    } else {
        assert(jobs.take(count) =~= jobs);
    }
}

proof fn lemma_work_sum_split(snapshot: MetadataSnapshot, first: int, mid: int, end: int)
    requires
        first <= mid <= end,
    ensures
        work_sum(snapshot, first, end) == work_sum(snapshot, first, mid) + work_sum(
            snapshot,
            mid,
            end,
        ),
    decreases end - mid,
{
    if mid < end {
        lemma_work_sum_split(snapshot, first, mid, end - 1);
    }
}

/// The jobs of a whole catalog carry the contract pairs of all blocks, each once.
pub proof fn lemma_jobs_carry_all_work(
    snapshot: MetadataSnapshot,
    budget: UniverseBudget,
    hot_members: u64,
    start: int,
    count: int,
)
    requires
        0 <= start <= snapshot.blocking.block_count(),
        planned_jobs(snapshot, budget, hot_members, start, count).1 is None,
    ensures
        estimated_sum(planned_jobs(snapshot, budget, hot_members, start, count).0) == work_sum(
            snapshot,
            start,
            snapshot.blocking.block_count(),
        ),
    decreases snapshot.blocking.block_count() - start,
{
    if start < snapshot.blocking.block_count() {
        lemma_next_job(snapshot, budget, hot_members, start, count);
        match next_job(snapshot, budget, hot_members, start, count) {
            Err(_) => {},
            Ok((end, shape)) => {
                let job = planned_job(snapshot, count, start, end, shape);
                let rest = planned_jobs(snapshot, budget, hot_members, end, count + 1).0;
                lemma_jobs_carry_all_work(snapshot, budget, hot_members, end, count + 1);
                lemma_estimated_sum_prepend(job, rest);
                lemma_work_sum_split(snapshot, start, end, snapshot.blocking.block_count());
            },
        }
    }
}

/// Whether a block of `members` atoms is too large for a batch.
pub fn block_requires_hot_index(members: u64, hot_members: u64) -> (result: Result<
    bool,
    SchedulerError,
>)
    ensures
        ordered_pairs(members as nat) <= u64::MAX ==> result == Ok::<bool, SchedulerError>(
            is_hot(members as nat, hot_members),
        ),
        ordered_pairs(members as nat) > u64::MAX ==> result == Err::<bool, SchedulerError>(
            SchedulerError::WorkOverflow,
        ),
{
    match members.checked_mul(members.saturating_sub(1)) {
        Some(pairs) => Ok(members > hot_members || pairs / 2 > MAX_MICRO_BLOCK_PAIR_WORK),
        None => Err(SchedulerError::WorkOverflow),
    }
}

proof fn lemma_member_counters_grow(snapshot: MetadataSnapshot, begin: int, mid: int, end: int)
    requires
        begin <= mid <= end,
    ensures
        member_contracts(snapshot, begin, mid) <= member_contracts(snapshot, begin, end),
        member_pairs(snapshot, begin, mid) <= member_pairs(snapshot, begin, end),
    decreases end - mid,
{
    if mid < end {
        lemma_member_counters_grow(snapshot, begin, mid, end - 1);
        let product = member_contracts(snapshot, begin, end - 1) * atom_size(
            snapshot,
            snapshot.blocking.block_atoms@[end - 1] as int,
        );
        assert(product >= 0);
    }
}

/// The contract pairs of a block.
fn block_contract_pair_work(snapshot: &MetadataSnapshot, block: usize) -> (result: Result<
    u64,
    SchedulerError,
>)
    requires
        snapshot.wf(),
        block < snapshot.blocking.block_count(),
    ensures
        block_fits(*snapshot, block as int) ==> result == Ok::<u64, SchedulerError>(
            block_work(*snapshot, block as int) as u64,
        ),
        !block_fits(*snapshot, block as int) ==> result == Err::<u64, SchedulerError>(
            SchedulerError::WorkOverflow,
        ),
{
    let blocking = &snapshot.blocking;
    let features = &snapshot.features;
    let rows: usize = blocking.block_atom_offsets.len();
    let count: usize = blocking.block_atoms.len();
    let atom_rows: usize = features.fallback_atom_offsets.len();
    proof {
        crate::columns::lemma_row_bounds(
            blocking.block_atom_offsets@,
            blocking.block_atoms@.len(),
            block as int,
        );
    }
    let begin: usize = blocking.block_atom_offsets[block] as usize;
    let end: usize = blocking.block_atom_offsets[block + 1] as usize;
    let mut prefix: u64 = 0;
    let mut work: u64 = 0;
    let mut k: usize = begin;
    while k < end
        invariant
            snapshot.wf(),
            blocking == &snapshot.blocking,
            features == &snapshot.features,
            block < snapshot.blocking.block_count(),
            begin == blocking.block_atom_offsets@[block as int],
            end == blocking.block_atom_offsets@[block + 1],
            begin <= k <= end <= blocking.block_atoms@.len(),
            count == blocking.block_atoms@.len(),
            atom_rows == features.fallback_atom_offsets@.len(),
            prefix == member_contracts(*snapshot, begin as int, k as int),
            work == member_pairs(*snapshot, begin as int, k as int),
        decreases end - k,
    {
        let atom: usize = blocking.block_atoms[k] as usize;
        assert(blocking.block_atoms@[k as int] < snapshot.blocking_ready.atom_count);
        proof {
            crate::columns::lemma_row_bounds(
                features.fallback_atom_offsets@,
                features.fallback_atom_contracts@.len(),
                atom as int,
            );
            lemma_member_counters_grow(*snapshot, begin as int, k + 1, end as int);
        }
        let members: u64 = features.fallback_atom_offsets[atom + 1]
            - features.fallback_atom_offsets[atom];
        match prefix.checked_mul(members) {
            None => {
                assert(prefix * members > u64::MAX);
                return Err(SchedulerError::WorkOverflow);
            },
            Some(product) => {
                match work.checked_add(product) {
                    None => {
                        return Err(SchedulerError::WorkOverflow);
                    },
                    Some(sum) => {
                        work = sum;
                    },
                }
            },
        }
        match prefix.checked_add(members) {
            None => {
                return Err(SchedulerError::WorkOverflow);
            },
            Some(sum) => {
                prefix = sum;
            },
        }
        k = k + 1;
    }
    Ok(work)
}

/// The contract pairs of all blocks.
pub fn estimate_catalog_contract_pair_work(snapshot: &MetadataSnapshot) -> (result: Result<
    u64,
    SchedulerError,
>)
    requires
        snapshot.wf(),
    ensures
        work_fits(*snapshot, 0, snapshot.blocking.block_count()) ==> result == Ok::<
            u64,
            SchedulerError,
        >(work_sum(*snapshot, 0, snapshot.blocking.block_count()) as u64),
        !work_fits(*snapshot, 0, snapshot.blocking.block_count()) ==> result == Err::<
            u64,
            SchedulerError,
        >(SchedulerError::WorkOverflow),
{
    let blocks: usize = snapshot.blocking.block_kinds.len();
    let mut total: u64 = 0;
    let mut block: usize = 0;
    while block < blocks
        invariant
            snapshot.wf(),
            block <= blocks,
            blocks == snapshot.blocking.block_count(),
            total == work_sum(*snapshot, 0, block as int),
            work_fits(*snapshot, 0, block as int),
        decreases blocks - block,
    {
        proof {
            lemma_work_sum_split(*snapshot, 0, block + 1, blocks as int);
        }
        let work: u64 = match block_contract_pair_work(snapshot, block) {
            Err(error) => {
                assert(!block_fits(*snapshot, block as int));
                return Err(error);
            },
            Ok(work) => work,
        };
        match total.checked_add(work) {
            None => {
                return Err(SchedulerError::WorkOverflow);
            },
            Some(sum) => {
                total = sum;
            },
        }
        block = block + 1;
    }
    Ok(total)
}

proof fn lemma_routing_sum_grows(snapshot: MetadataSnapshot, first: int, mid: int, end: int)
    requires
        first <= mid <= end,
    ensures
        routing_sum(snapshot, first, mid) <= routing_sum(snapshot, first, end),
    decreases end - mid,
{
    if mid < end {
        lemma_routing_sum_grows(snapshot, first, mid, end - 1);
    }
}

/// The atom pairs that a job covers: a large block counts once, whatever its tiles.
pub fn job_routing_pair_work(snapshot: &MetadataSnapshot, job: &JobDescriptor) -> (result: Result<
    u64,
    SchedulerError,
>)
    requires
        snapshot.wf(),
        job.first_block + job.block_count <= snapshot.blocking.block_count(),
    ensures
        ({
            let sum = routing_sum(
                *snapshot,
                job.first_block as int,
                job.first_block + job.block_count,
            );
            &&& sum <= u64::MAX ==> result == Ok::<u64, SchedulerError>(sum as u64)
            &&& sum > u64::MAX ==> result == Err::<u64, SchedulerError>(
                SchedulerError::WorkOverflow,
            )
        }),
{
    let rows: usize = snapshot.blocking.block_atom_offsets.len();
    let first: usize = job.first_block as usize;
    let end: usize = first + job.block_count as usize;
    let mut total: u64 = 0;
    let mut block: usize = first;
    while block < end
        invariant
            snapshot.wf(),
            first <= block <= end,
            first == job.first_block,
            end == job.first_block + job.block_count,
            end <= snapshot.blocking.block_count(),
            rows == snapshot.blocking.block_atom_offsets@.len(),
            total == routing_sum(*snapshot, first as int, block as int),
        decreases end - block,
    {
        proof {
            crate::columns::lemma_row_bounds(
                snapshot.blocking.block_atom_offsets@,
                snapshot.blocking.block_atoms@.len(),
                block as int,
            );
            lemma_routing_sum_grows(*snapshot, first as int, block + 1, end as int);
        }
        let members: u64 = snapshot.blocking.block_atom_offsets[block + 1]
            - snapshot.blocking.block_atom_offsets[block];
        let pairs: u64 = match members.checked_mul(members.saturating_sub(1)) {
            Some(pairs) => pairs,
            None => u64::MAX,
        };
        match total.checked_add(pairs / 2) {
            None => {
                return Err(SchedulerError::WorkOverflow);
            },
            Some(sum) => {
                total = sum;
            },
        }
        block = block + 1;
    }
    Ok(total)
}

/// Refuses a job beyond the budget.
fn check_next_job(jobs: u64, budget: UniverseBudget) -> (result: Result<(), SchedulerError>)
    requires
        jobs < u64::MAX,
    ensures
        match next_job_fault(jobs as int, budget) {
            None => result is Ok,
            Some(fault) => result == Err::<(), SchedulerError>(fault),
        },
{
    let next: u64 = jobs + 1;
    let bytes: u64 = match next.checked_mul(DESCRIPTOR_BYTES) {
        Some(bytes) => bytes,
        None => u64::MAX,
    };
    if next > budget.max_jobs || bytes > budget.max_catalog_bytes || next > u32::MAX as u64 {
        Err(
            SchedulerError::Budget {
                jobs: next,
                max_jobs: if budget.max_jobs < u32::MAX as u64 {
                    budget.max_jobs
                } else {
                    u32::MAX as u64
                },
                bytes,
                max_bytes: budget.max_catalog_bytes,
            },
        )
    } else {
        Ok(())
    }
}

/// Where the batch that begins at block `first` ends, and its contract pairs.
fn take_batch(
    snapshot: &MetadataSnapshot,
    budget: UniverseBudget,
    hot_members: u64,
    first: usize,
) -> (result: Result<(usize, u64), SchedulerError>)
    requires
        snapshot.wf(),
        first < snapshot.blocking.block_count(),
    ensures
        match batch_end(*snapshot, budget, hot_members, first as int, first as int) {
            Some(end) => result matches Ok((at, work)) && at == end && work == work_sum(
                *snapshot,
                first as int,
                end,
            ),
            None => result == Err::<(usize, u64), SchedulerError>(SchedulerError::WorkOverflow),
        },
{
    let blocks: usize = snapshot.blocking.block_kinds.len();
    let rows: usize = snapshot.blocking.block_atom_offsets.len();
    let mut total: u64 = 0;
    let mut work: u64 = 0;
    let mut at: usize = first;
    let ghost offsets = snapshot.blocking.block_atom_offsets@;
    while at < blocks
        invariant
            snapshot.wf(),
            first <= at <= blocks,
            first < blocks,
            blocks == snapshot.blocking.block_count(),
            rows == blocks + 1,
            offsets == snapshot.blocking.block_atom_offsets@,
            total == offsets[at as int] - offsets[first as int],
            work == work_sum(*snapshot, first as int, at as int),
            work_fits(*snapshot, first as int, at as int),
            batch_end(*snapshot, budget, hot_members, first as int, first as int) == batch_end(
                *snapshot,
                budget,
                hot_members,
                first as int,
                at as int,
            ),
        decreases blocks - at,
    {
        proof {
            crate::columns::lemma_row_bounds(
                offsets,
                snapshot.blocking.block_atoms@.len(),
                at as int,
            );
        }
        let members: u64 = snapshot.blocking.block_atom_offsets[at + 1]
            - snapshot.blocking.block_atom_offsets[at];
        let hot: bool = match block_requires_hot_index(members, hot_members) {
            Err(error) => {
                return Err(error);
            },
            Ok(hot) => hot,
        };
        if hot || (at > first && total + members > budget.cold_members_per_job) {
            return Ok((at, work));
        }
        total = total + members;
        let block: u64 = match block_contract_pair_work(snapshot, at) {
            Err(error) => {
                assert(!block_fits(*snapshot, at as int));
                return Err(error);
            },
            Ok(block) => block,
        };
        match work.checked_add(block) {
            None => {
                return Err(SchedulerError::WorkOverflow);
            },
            Some(sum) => {
                work = sum;
            },
        }
        at = at + 1;
    }
    Ok((at, work))
}

/// Divides the blocks into jobs and reports the progress after each.
fn visit_job_descriptors(
    snapshot: &MetadataSnapshot,
    budget: UniverseBudget,
    hot_members: u64,
    jobs: &mut Vec<JobDescriptor>,
    reports: &mut Vec<(u64, u64, u64)>,
) -> (result: Result<(), SchedulerError>)
    requires
        snapshot.wf(),
        old(jobs)@.len() == 0,
    ensures
        ({
            let (planned, error) = planned_jobs(*snapshot, budget, hot_members, 0, 0);
            &&& final(jobs)@ == planned
            &&& final(reports)@ == old(reports)@ + catalog_reports(
                planned,
                snapshot.blocking.block_count() as u64,
            )
            &&& match error {
                None => result is Ok,
                Some(error) => result == Err::<(), SchedulerError>(error),
            }
        }),
{
    let blocks: usize = snapshot.blocking.block_kinds.len();
    let rows: usize = snapshot.blocking.block_atom_offsets.len();
    let total: u64 = blocks as u64;
    let ghost (planned, error) = planned_jobs(*snapshot, budget, hot_members, 0, 0);
    let ghost before = reports@;
    proof {
        lemma_jobs_cover_blocks(*snapshot, budget, hot_members, 0, 0);
    }
    reports.push((0, total, 0));
    let mut start: usize = 0;
    proof {
        assert(jobs@ + planned =~= planned);
        assert(reports@ =~= before + catalog_reports(jobs@, total));
    }
    while start < blocks
        invariant
            snapshot.wf(),
            start <= blocks,
            blocks == snapshot.blocking.block_count(),
            rows == blocks + 1,
            total == blocks,
            before == old(reports)@,
            planned.len() <= u32::MAX,
            planned == planned_jobs(*snapshot, budget, hot_members, 0, 0).0,
            error == planned_jobs(*snapshot, budget, hot_members, 0, 0).1,
            planned == jobs@ + planned_jobs(
                *snapshot,
                budget,
                hot_members,
                start as int,
                jobs@.len() as int,
            ).0,
            error == planned_jobs(
                *snapshot,
                budget,
                hot_members,
                start as int,
                jobs@.len() as int,
            ).1,
            reports@ == before + catalog_reports(jobs@, total),
        decreases blocks - start,
    {
        let count: usize = jobs.len();
        let ghost rest = planned_jobs(
            *snapshot,
            budget,
            hot_members,
            start as int,
            count as int,
        );
        let ghost done = jobs@;
        proof {
            lemma_next_job(*snapshot, budget, hot_members, start as int, count as int);
            crate::columns::lemma_row_bounds(
                snapshot.blocking.block_atom_offsets@,
                snapshot.blocking.block_atoms@.len(),
                start as int,
            );
            assert(done + Seq::<JobDescriptor>::empty() =~= done);
        }
        let members: u64 = snapshot.blocking.block_atom_offsets[start + 1]
            - snapshot.blocking.block_atom_offsets[start];
        let hot: bool = match block_requires_hot_index(members, hot_members) {
            Err(fault) => {
                return Err(fault);
            },
            Ok(hot) => hot,
        };
        let end: usize;
        let work: u64;
        let shape: JobShape;
        if hot {
            match check_next_job(count as u64, budget) {
                Err(fault) => {
                    return Err(fault);
                },
                Ok(_) => {},
            }
            work = match block_contract_pair_work(snapshot, start) {
                Err(fault) => {
                    return Err(fault);
                },
                Ok(work) => work,
            };
            end = start + 1;
            shape = JobShape::LeftTileFanout;
            assert(work_sum(*snapshot, start as int, start as int) == 0);
            assert(work_sum(*snapshot, start as int, start + 1) == block_work(
                *snapshot,
                start as int,
            ));
        } else {
            let batch: (usize, u64) = match take_batch(snapshot, budget, hot_members, start) {
                Err(fault) => {
                    return Err(fault);
                },
                Ok(batch) => batch,
            };
            match check_next_job(count as u64, budget) {
                Err(fault) => {
                    return Err(fault);
                },
                Ok(_) => {},
            }
            end = batch.0;
            work = batch.1;
            shape = JobShape::MicroBatch;
        }
        let job = JobDescriptor {
            job_id: count as u32,
            first_block: start as u32,
            block_count: (end - start) as u32,
            shape,
            risk: 0,
            rescue: 0,
            tile_row: 0,
            tile_col: 0,
            estimated_work: work,
        };
        jobs.push(job);
        reports.push((end as u64, total, count as u64 + 1));
        proof {
            let after = planned_jobs(*snapshot, budget, hot_members, end as int, count + 1);
            assert(job == planned_job(*snapshot, count as int, start as int, end as int, shape));
            assert(rest.0 == seq![job] + after.0);
            assert(jobs@ + after.0 =~= done + rest.0);
            assert(reports@ =~= before + catalog_reports(jobs@, total));
        }
        start = end;
    }
    proof {
        assert(jobs@ + Seq::<JobDescriptor>::empty() =~= jobs@);
    }
    Ok(())
}

/// What a stored catalog is announced to be.
#[derive(Debug)]
pub struct CatalogReady {
    pub catalog_revision: u32,
    pub job_count: usize,
    pub snapshot_fingerprint: String,
}

/// The jobs of a snapshot's blocks.
pub struct WorkCatalog {
    pub jobs: CatalogJobs,
    pub snapshot_fingerprint: String,
}

/// The catalog holds the jobs, bound to the snapshot.
pub open spec fn is_catalog_of(
    catalog: WorkCatalog,
    snapshot: MetadataSnapshot,
    jobs: Seq<JobDescriptor>,
) -> bool {
    &&& catalog.jobs.wf()
    &&& catalog.jobs@ == jobs
    &&& catalog.snapshot_fingerprint@ == digest::digest_text(snapshot.fingerprint_bytes())
}

/// Building the catalog of a snapshot gives `result`.
pub open spec fn is_build(
    result: Result<WorkCatalog, SchedulerError>,
    snapshot: MetadataSnapshot,
    budget: UniverseBudget,
    hot_members: u64,
) -> bool {
    let (planned, error) = planned_jobs(snapshot, budget, hot_members, 0, 0);
    match error {
        None => result matches Ok(catalog) && is_catalog_of(catalog, snapshot, planned),
        Some(error) => result == Err::<WorkCatalog, SchedulerError>(error),
    }
}

/// The announcement is current and bound to the snapshot.
pub open spec fn is_current(ready: CatalogReady, snapshot: MetadataSnapshot) -> bool {
    ready.catalog_revision == CATALOG_REVISION && ready.snapshot_fingerprint@
        == digest::digest_text(snapshot.fingerprint_bytes())
}

/// Opening stored columns gives `result`.
pub open spec fn is_opening(
    result: Result<WorkCatalog, SchedulerError>,
    ready: CatalogReady,
    columns: CatalogColumns,
    snapshot: MetadataSnapshot,
) -> bool {
    if !is_current(ready, snapshot) {
        result == Err::<WorkCatalog, SchedulerError>(SchedulerError::StaleCoverage)
    } else if ready.job_count > u32::MAX {
        result == Err::<WorkCatalog, SchedulerError>(
            SchedulerError::Identity(
                IdentityOverflow { what: "catalog jobs", count: ready.job_count as u64 },
            ),
        )
    } else if !columns.is_complete(ready.job_count as nat) {
        result == Err::<WorkCatalog, SchedulerError>(SchedulerError::StaleCoverage)
    } else {
        result matches Ok(catalog) && is_catalog_of(catalog, snapshot, columns.jobs())
            && catalog.jobs is Mapped
    }
}

impl WorkCatalog {
    /// The jobs carry their positions.
    pub open spec fn wf(self) -> bool {
        self.jobs.wf()
    }

    /// The catalog of a snapshot.
    pub fn build(snapshot: &MetadataSnapshot, budget: UniverseBudget, hot_members: u64) -> (result:
        Result<WorkCatalog, SchedulerError>)
        requires
            snapshot.wf(),
        ensures
            is_build(result, *snapshot, budget, hot_members),
    {
        let mut reports: Vec<(u64, u64, u64)> = Vec::new();
        WorkCatalog::build_with_progress(snapshot, budget, hot_members, &mut reports)
    }

    /// The catalog of a snapshot. Appends the blocks done, all blocks and the jobs, first and
    /// after each job.
    pub fn build_with_progress(
        snapshot: &MetadataSnapshot,
        budget: UniverseBudget,
        hot_members: u64,
        reports: &mut Vec<(u64, u64, u64)>,
    ) -> (result: Result<WorkCatalog, SchedulerError>)
        requires
            snapshot.wf(),
        ensures
            is_build(result, *snapshot, budget, hot_members),
            final(reports)@ == old(reports)@ + catalog_reports(
                planned_jobs(*snapshot, budget, hot_members, 0, 0).0,
                snapshot.blocking.block_count() as u64,
            ),
    {
        let mut jobs: Vec<JobDescriptor> = Vec::new();
        match visit_job_descriptors(snapshot, budget, hot_members, &mut jobs, reports) {
            Err(error) => Err(error),
            Ok(_) => {
                proof {
                    lemma_planned_jobs_numbered(*snapshot, budget, hot_members);
                }
                Ok(
                    WorkCatalog {
                        jobs: CatalogJobs::resident(jobs),
                        snapshot_fingerprint: snapshot.fingerprint(),
                    },
                )
            },
        }
    }

    /// The number of jobs of a snapshot's catalog.
    pub fn descriptor_count(
        snapshot: &MetadataSnapshot,
        budget: UniverseBudget,
        hot_members: u64,
    ) -> (result: Result<u64, SchedulerError>)
        requires
            snapshot.wf(),
        ensures
            ({
                let (planned, error) = planned_jobs(*snapshot, budget, hot_members, 0, 0);
                match error {
                    None => result matches Ok(count) && count == planned.len(),
                    Some(error) => result == Err::<u64, SchedulerError>(error),
                }
            }),
    {
        let mut jobs: Vec<JobDescriptor> = Vec::new();
        let mut reports: Vec<(u64, u64, u64)> = Vec::new();
        match visit_job_descriptors(snapshot, budget, hot_members, &mut jobs, &mut reports) {
            Err(error) => Err(error),
            Ok(_) => Ok(jobs.len() as u64),
        }
    }

    /// The stored bytes of the jobs.
    pub fn encoded_bytes(&self) -> (result: Result<u64, SchedulerError>)
        ensures
            self.jobs@.len() * CATALOG_ENCODED_BYTES_PER_JOB <= u64::MAX ==> result == Ok::<
                u64,
                SchedulerError,
            >((self.jobs@.len() * CATALOG_ENCODED_BYTES_PER_JOB) as u64),
            self.jobs@.len() * CATALOG_ENCODED_BYTES_PER_JOB > u64::MAX ==> result == Err::<
                u64,
                SchedulerError,
            >(SchedulerError::WorkOverflow),
    {
        match (self.jobs.len() as u64).checked_mul(CATALOG_ENCODED_BYTES_PER_JOB) {
            Some(bytes) => Ok(bytes),
            None => Err(SchedulerError::WorkOverflow),
        }
    }

    /// What to store: the announcement and the columns.
    pub fn commit(&self) -> (result: Result<(CatalogReady, CatalogColumns), SchedulerError>)
        requires
            self.wf(),
        ensures
            result matches Ok((ready, columns)) && {
                &&& ready.catalog_revision == CATALOG_REVISION
                &&& ready.job_count == self.jobs@.len()
                &&& ready.snapshot_fingerprint@ == self.snapshot_fingerprint@
                &&& columns.is_complete(self.jobs@.len())
                &&& columns.jobs() == self.jobs@
            },
    {
        if let Err(overflow) = checked_u32_identity("catalog jobs", self.jobs.len() as u64) {
            return Err(SchedulerError::Identity(overflow));
        }
        Ok(
            (
                CatalogReady {
                    catalog_revision: CATALOG_REVISION,
                    job_count: self.jobs.len(),
                    snapshot_fingerprint: self.snapshot_fingerprint.clone(),
                },
                self.jobs.columns(),
            ),
        )
    }

    /// Opens stored columns; refused unless they are bound to the snapshot.
    pub fn open(ready: CatalogReady, columns: CatalogColumns, snapshot: &MetadataSnapshot) -> (result:
        Result<WorkCatalog, SchedulerError>)
        requires
            snapshot.wf(),
        ensures
            is_opening(result, ready, columns, *snapshot),
    {
        if ready.catalog_revision != CATALOG_REVISION || ready.snapshot_fingerprint
            != snapshot.fingerprint() {
            return Err(SchedulerError::StaleCoverage);
        }
        if let Err(overflow) = checked_u32_identity("catalog jobs", ready.job_count as u64) {
            return Err(SchedulerError::Identity(overflow));
        }
        match CatalogJobs::mapped(columns, ready.job_count) {
            Err(error) => Err(error),
            Ok(jobs) => Ok(
                WorkCatalog { jobs, snapshot_fingerprint: ready.snapshot_fingerprint },
            ),
        }
    }

    /// The catalog of a snapshot, held as the columns that are stored.
    pub fn build_external_with_progress(
        snapshot: &MetadataSnapshot,
        budget: UniverseBudget,
        hot_members: u64,
        reports: &mut Vec<(u64, u64, u64)>,
    ) -> (result: Result<WorkCatalog, SchedulerError>)
        requires
            snapshot.wf(),
        ensures
            is_build(result, *snapshot, budget, hot_members),
            result matches Ok(catalog) ==> catalog.jobs is Mapped,
            final(reports)@ == old(reports)@ + catalog_reports(
                planned_jobs(*snapshot, budget, hot_members, 0, 0).0,
                snapshot.blocking.block_count() as u64,
            ),
    {
        match WorkCatalog::build_with_progress(snapshot, budget, hot_members, reports) {
            Err(error) => Err(error),
            Ok(catalog) => {
                match catalog.commit() {
                    Err(error) => Err(error),
                    Ok((ready, columns)) => WorkCatalog::open(ready, columns, snapshot),
                }
            },
        }
    }

    /// The stored catalog where it is bound to the snapshot; a new one where nothing is stored
    /// or what is stored is of another snapshot or revision. Corrupt columns are refused.
    pub fn open_or_rebuild_with_progress(
        stored: Option<(CatalogReady, CatalogColumns)>,
        snapshot: &MetadataSnapshot,
        budget: UniverseBudget,
        hot_members: u64,
        reports: &mut Vec<(u64, u64, u64)>,
    ) -> (result: Result<WorkCatalog, SchedulerError>)
        requires
            snapshot.wf(),
        ensures
            ({
                let rebuilt = match stored {
                    None => true,
                    Some((ready, _)) => !is_current(ready, *snapshot),
                };
                &&& rebuilt ==> is_build(result, *snapshot, budget, hot_members)
                &&& rebuilt ==> final(reports)@ == old(reports)@ + catalog_reports(
                    planned_jobs(*snapshot, budget, hot_members, 0, 0).0,
                    snapshot.blocking.block_count() as u64,
                )
                &&& !rebuilt ==> is_opening(result, (stored->0).0, (stored->0).1, *snapshot)
                &&& !rebuilt ==> final(reports)@ == old(reports)@
            }),
    {
        if let Some((ready, columns)) = stored {
            if ready.catalog_revision == CATALOG_REVISION && ready.snapshot_fingerprint
                == snapshot.fingerprint() {
                return WorkCatalog::open(ready, columns, snapshot);
            }
        }
        WorkCatalog::build_external_with_progress(snapshot, budget, hot_members, reports)
    }

    /// The contract pairs of all jobs.
    pub fn estimated_work(&self) -> (result: Result<u64, SchedulerError>)
        requires
            self.wf(),
        ensures
            estimated_sum(self.jobs@) <= u64::MAX ==> result == Ok::<u64, SchedulerError>(
                estimated_sum(self.jobs@) as u64,
            ),
            estimated_sum(self.jobs@) > u64::MAX ==> result == Err::<u64, SchedulerError>(
                SchedulerError::WorkOverflow,
            ),
    {
        let jobs = self.jobs.iter();
        let mut total: u64 = 0;
        let mut i: usize = 0;
        assert(jobs@.take(0) =~= Seq::<JobDescriptor>::empty());
        while i < jobs.len()
            invariant
                i <= jobs@.len(),
                jobs@ == self.jobs@,
                total == estimated_sum(jobs@.take(i as int)),
            decreases jobs.len() - i,
        {
            proof {
                assert(jobs@.take(i + 1).drop_last() =~= jobs@.take(i as int));
                lemma_estimated_sum_grows(jobs@, i + 1);
            }
            match total.checked_add(jobs[i].estimated_work) {
                None => {
                    return Err(SchedulerError::WorkOverflow);
                },
                Some(sum) => {
                    total = sum;
                },
            }
            i = i + 1;
        }
        assert(jobs@.take(i as int) =~= jobs@);
        Ok(total)
    }
}

proof fn lemma_planned_jobs_numbered(
    snapshot: MetadataSnapshot,
    budget: UniverseBudget,
    hot_members: u64,
)
    requires
        snapshot.wf(),
    ensures
        jobs::are_numbered(planned_jobs(snapshot, budget, hot_members, 0, 0).0),
{
    let planned = planned_jobs(snapshot, budget, hot_members, 0, 0).0;
    lemma_jobs_cover_blocks(snapshot, budget, hot_members, 0, 0);
    assert forall|i: int| 0 <= i < planned.len() implies (#[trigger] planned[i]).job_id == i by {
        assert(is_job_of(snapshot, budget, hot_members, planned, 0, 0, i));
    }
}

} // verus!
