//! What a catalog holds, over the columns of a snapshot.

use crate::columns;
use crate::scheduler::catalog;
use crate::scheduler::catalog::UniverseBudget;
use crate::scheduler::jobs::JobShape;
use crate::snapshot::metadata::MetadataSnapshot;
use vstd::prelude::*;

verus! {

/// The numbers of contracts of a block's atoms, in their order.
pub open spec fn sizes_of(snapshot: MetadataSnapshot, block: int) -> Seq<int> {
    let offsets = snapshot.features.fallback_atom_offsets@;
    let begin = snapshot.blocking.block_atom_offsets@[block] as int;
    let end = snapshot.blocking.block_atom_offsets@[block + 1] as int;
    Seq::new(
        (end - begin) as nat,
        |k: int|
            offsets[snapshot.blocking.block_atoms@[begin + k] + 1]
                - offsets[snapshot.blocking.block_atoms@[begin + k] as int],
    )
}

/// The sum of numbers.
pub open spec fn total(sizes: Seq<int>) -> int
    decreases sizes.len(),
{
    if sizes.len() == 0 {
        0
    } else {
        total(sizes.drop_last()) + sizes.last()
    }
}

/// The sum of the squares of numbers.
pub open spec fn square_total(sizes: Seq<int>) -> int
    decreases sizes.len(),
{
    if sizes.len() == 0 {
        0
    } else {
        square_total(sizes.drop_last()) + sizes.last() * sizes.last()
    }
}

/// The contracts of a block's atoms can be counted: its atoms are known.
pub open spec fn is_countable(snapshot: MetadataSnapshot, block: int) -> bool {
    let begin = snapshot.blocking.block_atom_offsets@[block] as int;
    let end = snapshot.blocking.block_atom_offsets@[block + 1] as int;
    &&& 0 <= begin <= end
    &&& forall|k: int|
        begin <= k < end ==> snapshot.features.fallback_atom_offsets@[(
        #[trigger] snapshot.blocking.block_atoms@[k]) as int]
            <= snapshot.features.fallback_atom_offsets@[snapshot.blocking.block_atoms@[k] + 1]
}

proof fn lemma_member_pairs(snapshot: MetadataSnapshot, block: int, count: int)
    requires
        is_countable(snapshot, block),
        0 <= count <= sizes_of(snapshot, block).len(),
    ensures
        ({
            let begin = snapshot.blocking.block_atom_offsets@[block] as int;
            let sizes = sizes_of(snapshot, block).take(count);
            &&& catalog::member_contracts(snapshot, begin, begin + count) == total(sizes)
            &&& 2 * catalog::member_pairs(snapshot, begin, begin + count) + square_total(sizes)
                == total(sizes) * total(sizes)
        }),
    decreases count,
{
    let begin = snapshot.blocking.block_atom_offsets@[block] as int;
    let all = sizes_of(snapshot, block);
    let sizes = all.take(count);
    if count > 0 {
        lemma_member_pairs(snapshot, block, count - 1);
        let few = all.take(count - 1);
        let size = all[count - 1];
        assert(sizes.drop_last() =~= few);
        assert(sizes.last() == size);
        let at = snapshot.blocking.block_atoms@[begin + count - 1];
        assert(size == catalog::atom_size(snapshot, at as int));
        let sum = total(few);
        assert((sum + size) * (sum + size) == sum * sum + 2 * (sum * size) + size * size)
            by (nonlinear_arith);
    }
}

/// The work of a block is the number of pairs of contracts of different atoms of the block: with
/// the pairs of contracts of one atom it makes up all pairs of the block's contracts.
pub proof fn lemma_block_work(snapshot: MetadataSnapshot, block: int)
    requires
        is_countable(snapshot, block),
    ensures
        2 * catalog::block_work(snapshot, block) + square_total(sizes_of(snapshot, block)) == total(
            sizes_of(snapshot, block),
        ) * total(sizes_of(snapshot, block)),
{
    let sizes = sizes_of(snapshot, block);
    lemma_member_pairs(snapshot, block, sizes.len() as int);
    assert(sizes.take(sizes.len() as int) =~= sizes);
}

/// Twice the pairs of contracts of different atoms of the blocks from `first` up to `end`, block
/// by block.
pub open spec fn doubled_work(snapshot: MetadataSnapshot, first: int, end: int) -> int
    decreases end - first,
{
    if end <= first {
        0
    } else {
        let sizes = sizes_of(snapshot, end - 1);
        doubled_work(snapshot, first, end - 1) + total(sizes) * total(sizes) - square_total(sizes)
    }
}

proof fn lemma_work_sum(snapshot: MetadataSnapshot, first: int, end: int)
    requires
        forall|block: int| first <= block < end ==> #[trigger] is_countable(snapshot, block),
    ensures
        2 * catalog::work_sum(snapshot, first, end) == doubled_work(snapshot, first, end),
    decreases end - first,
{
    if first < end {
        lemma_work_sum(snapshot, first, end - 1);
        assert(is_countable(snapshot, end - 1));
        lemma_block_work(snapshot, end - 1);
    }
}

/// A block is large: it has more atoms than `hot_members`, or more pairs of atoms than a batch
/// may have.
pub open spec fn is_large(snapshot: MetadataSnapshot, block: int, hot_members: u64) -> bool {
    let n = snapshot.blocking.block_atom_offsets@[block + 1]
        - snapshot.blocking.block_atom_offsets@[block];
    n > hot_members || n * (n - 1) / 2 > 8_000_000
}

proof fn lemma_is_large(snapshot: MetadataSnapshot, block: int, hot_members: u64)
    requires
        snapshot.blocking.block_atom_offsets@[block]
            <= snapshot.blocking.block_atom_offsets@[block + 1],
    ensures
        is_large(snapshot, block, hot_members) <==> catalog::is_hot(
            catalog::block_size(snapshot, block),
            hot_members,
        ),
{
}

/// What a job of a catalog says of its blocks: it begins where the job before it ends. It is one
/// large block and fans out from a tile, or is a batch of blocks that are not large. A batch has
/// as many blocks as it may: it ends before a large block, at the end, or where one more block
/// would exceed its members. Its work is the number of pairs of contracts of different atoms of
/// each block.
pub open spec fn is_exact_job(
    snapshot: MetadataSnapshot,
    budget: UniverseBudget,
    hot_members: u64,
    first: int,
    count: int,
    shape: JobShape,
    work: int,
) -> bool {
    let offsets = snapshot.blocking.block_atom_offsets@;
    let end = first + count;
    &&& 0 < count
    &&& 2 * work == doubled_work(snapshot, first, end)
    &&& if is_large(snapshot, first, hot_members) {
        count == 1 && shape == JobShape::LeftTileFanout
    } else {
        &&& shape == JobShape::MicroBatch
        &&& forall|block: int|
            first <= block < end ==> !#[trigger] is_large(snapshot, block, hot_members)
        &&& count == 1 || offsets[end] - offsets[first] <= budget.cold_members_per_job
        &&& end + 1 == offsets.len() || is_large(snapshot, end, hot_members) || offsets[end + 1]
            - offsets[first] > budget.cold_members_per_job
    }
}

proof fn lemma_batch_is_full(
    snapshot: MetadataSnapshot,
    budget: UniverseBudget,
    hot_members: u64,
    first: int,
    at: int,
)
    requires
        first <= at <= snapshot.blocking.block_count(),
    ensures
        catalog::batch_end(snapshot, budget, hot_members, first, at) matches Some(end) ==> {
            let offsets = snapshot.blocking.block_atom_offsets@;
            end == snapshot.blocking.block_count() || catalog::is_hot(
                catalog::block_size(snapshot, end),
                hot_members,
            ) || (end > first && offsets[end + 1] - offsets[first] > budget.cold_members_per_job)
        },
    decreases snapshot.blocking.block_count() - at,
{
    if at < snapshot.blocking.block_count() {
        lemma_batch_is_full(snapshot, budget, hot_members, first, at + 1);
    }
}

/// The jobs of a catalog take all blocks in order, each once. Every block is in a job of its
/// own where it is large, and else in a batch that is as full as it may be; the work of each job
/// is the number of pairs of contracts of different atoms of its blocks.
pub proof fn lemma_jobs_are_exact(
    snapshot: MetadataSnapshot,
    budget: UniverseBudget,
    hot_members: u64,
    start: int,
    count: int,
    i: int,
)
    requires
        0 <= start <= snapshot.blocking.block_count(),
        snapshot.blocking.block_count() < u32::MAX,
        columns::is_row_table(
            snapshot.blocking.block_atom_offsets@,
            snapshot.blocking.block_atoms@.len(),
        ),
        columns::is_row_table(
            snapshot.features.fallback_atom_offsets@,
            snapshot.features.fallback_atom_contracts@.len(),
        ),
        columns::all_below(
            snapshot.blocking.block_atoms@,
            snapshot.features.fallback_atom_offsets@.len() - 1,
        ),
        0 <= count,
        0 <= i < catalog::planned_jobs(snapshot, budget, hot_members, start, count).0.len(),
    ensures
        ({
            let (jobs, error) = catalog::planned_jobs(snapshot, budget, hot_members, start, count);
            let job = jobs[i];
            &&& job.job_id == count + i
            &&& job.first_block == (if i == 0 {
                start
            } else {
                jobs[i - 1].first_block + jobs[i - 1].block_count
            })
            &&& is_exact_job(
                snapshot,
                budget,
                hot_members,
                job.first_block as int,
                job.block_count as int,
                job.shape,
                job.estimated_work as int,
            )
            &&& error is None && i + 1 == jobs.len() ==> job.first_block + job.block_count + 1
                == snapshot.blocking.block_atom_offsets@.len()
        }),
    decreases i,
{
    let offsets = snapshot.blocking.block_atom_offsets@;
    let blocks = snapshot.blocking.block_count();
    let (jobs, error) = catalog::planned_jobs(snapshot, budget, hot_members, start, count);
    catalog::lemma_next_job(snapshot, budget, hot_members, start, count);
    let (end, shape) = catalog::next_job(snapshot, budget, hot_members, start, count)->Ok_0;
    let (rest, rest_error) = catalog::planned_jobs(
        snapshot,
        budget,
        hot_members,
        end,
        count + 1,
    );
    catalog::lemma_jobs_cover_blocks(snapshot, budget, hot_members, start, count);
    if i > 0 {
        lemma_jobs_are_exact(snapshot, budget, hot_members, end, count + 1, i - 1);
        assert(jobs[i] == rest[i - 1]);
        if i == 1 {
            assert(jobs[0].first_block + jobs[0].block_count == end);
        } else {
            assert(jobs[i - 1] == rest[i - 2]);
        }
    } else {
        assert forall|block: int| start <= block < end implies #[trigger] is_countable(
            snapshot,
            block,
        ) by {
            columns::lemma_row_bounds(offsets, snapshot.blocking.block_atoms@.len(), block);
            assert forall|k: int| offsets[block] <= k < offsets[block + 1] implies
                snapshot.features.fallback_atom_offsets@[(
            #[trigger] snapshot.blocking.block_atoms@[k]) as int]
                <= snapshot.features.fallback_atom_offsets@[snapshot.blocking.block_atoms@[k] + 1] by {
                columns::lemma_row_bounds(
                    snapshot.features.fallback_atom_offsets@,
                    snapshot.features.fallback_atom_contracts@.len(),
                    snapshot.blocking.block_atoms@[k] as int,
                );
            }
        }
        lemma_work_sum(snapshot, start, end);
        assert forall|block: int| start <= block < blocks implies (#[trigger] is_large(
            snapshot,
            block,
            hot_members,
        ) <==> catalog::is_hot(catalog::block_size(snapshot, block), hot_members)) by {
            columns::lemma_row_bounds(offsets, snapshot.blocking.block_atoms@.len(), block);
            lemma_is_large(snapshot, block, hot_members);
        }
        lemma_batch_is_full(snapshot, budget, hot_members, start, start);
        assert(catalog::is_job_of(snapshot, budget, hot_members, jobs, start, count, 0));
        assert forall|block: int| jobs[0].first_block <= block < end && shape
            == JobShape::MicroBatch implies !#[trigger] is_large(snapshot, block, hot_members) by {
            assert(!catalog::is_hot(catalog::block_size(snapshot, block), hot_members));
        }
    }
}

} // verus!
