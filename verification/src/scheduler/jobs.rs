//! Job descriptors, resident or decoded from stored columns.

use crate::identity::IdentityOverflow;
use vstd::prelude::*;

verus! {

/// How a job is carried out.
#[derive(Debug, Clone, Copy, PartialEq, Eq, Structural)]
pub enum JobShape {
    /// Consecutive small blocks, scored together.
    MicroBatch,
    /// One large block, fanned out by tiles of left atoms.
    LeftTileFanout,
}

/// One unit of catalog work: consecutive blocks and how to score them.
#[derive(Debug, Clone, Copy, PartialEq, Eq, Structural)]
pub struct JobDescriptor {
    pub job_id: u32,
    pub first_block: u32,
    pub block_count: u32,
    pub shape: JobShape,
    pub risk: u8,
    pub rescue: u8,
    /// Kept for stored catalogs: a large block is one descriptor, not one per tile.
    pub tile_row: u16,
    /// Kept for stored catalogs.
    pub tile_col: u16,
    pub estimated_work: u64,
}

/// Why catalog work was refused.
#[derive(Debug, Clone, Copy, PartialEq, Eq)]
pub enum SchedulerError {
    /// More rows than identities.
    Identity(IdentityOverflow),
    /// The catalog outgrew its budget.
    Budget { jobs: u64, max_jobs: u64, bytes: u64, max_bytes: u64 },
    /// Estimated work does not fit its counter.
    WorkOverflow,
    /// Stored work belongs to other inputs.
    StaleCoverage,
}

/// The shape's code in stored columns.
pub open spec fn shape_code(shape: JobShape) -> u32 {
    match shape {
        JobShape::MicroBatch => 0,
        JobShape::LeftTileFanout => 1,
    }
}

/// Shape, risk and rescue in one word, from the lowest byte up.
pub open spec fn job_flags(job: JobDescriptor) -> u32 {
    shape_code(job.shape) | ((job.risk as u32) << 8) | ((job.rescue as u32) << 16)
}

/// Tile row and column in one word, the row in the upper half.
pub open spec fn job_tiles(job: JobDescriptor) -> u32 {
    ((job.tile_row as u32) << 16) | (job.tile_col as u32)
}

/// The flags hold a known shape.
pub open spec fn has_known_shape(flags: u32) -> bool {
    flags & 0xff <= 1
}

/// A job read back from its stored words.
pub open spec fn stored_job(
    job_id: u32,
    first: u32,
    count: u32,
    flags: u32,
    work: u64,
    tiles: u32,
) -> JobDescriptor {
    JobDescriptor {
        job_id,
        first_block: first,
        block_count: count,
        shape: if flags & 0xff == 0 {
            JobShape::MicroBatch
        } else {
            JobShape::LeftTileFanout
        },
        risk: ((flags >> 8) & 0xff) as u8,
        rescue: ((flags >> 16) & 0xff) as u8,
        tile_row: (tiles >> 16) as u16,
        tile_col: (tiles & 0xffff) as u16,
        estimated_work: work,
    }
}

/// Storing a job and reading it back gives the job.
pub proof fn lemma_stored_job_round_trip(job: JobDescriptor)
    ensures
        has_known_shape(job_flags(job)),
        stored_job(
            job.job_id,
            job.first_block,
            job.block_count,
            job_flags(job),
            job.estimated_work,
            job_tiles(job),
        ) == job,
{
    let code = shape_code(job.shape);
    let risk = job.risk;
    let rescue = job.rescue;
    let row = job.tile_row;
    let col = job.tile_col;
    let flags = job_flags(job);
    let tiles = job_tiles(job);
    assert(flags & 0xff == code && ((flags >> 8) & 0xff) as u8 == risk && ((flags >> 16)
        & 0xff) as u8 == rescue) by (bit_vector)
        requires
            code <= 1,
            flags == code | ((risk as u32) << 8) | ((rescue as u32) << 16),
    ;
    assert((tiles >> 16) as u16 == row && (tiles & 0xffff) as u16 == col) by (bit_vector)
        requires
            tiles == ((row as u32) << 16) | (col as u32),
    ;
}

/// The stored columns of a catalog, one entry per job in each.
pub struct CatalogColumns {
    pub first_blocks: Vec<u32>,
    pub block_counts: Vec<u32>,
    pub flags: Vec<u32>,
    pub estimated_work: Vec<u64>,
    pub tiles: Vec<u32>,
}

impl CatalogColumns {
    /// Every column has an entry per job, and every job a known shape.
    pub open spec fn is_complete(self, job_count: nat) -> bool {
        &&& self.first_blocks@.len() == job_count
        &&& self.block_counts@.len() == job_count
        &&& self.flags@.len() == job_count
        &&& self.estimated_work@.len() == job_count
        &&& self.tiles@.len() == job_count
        &&& forall|i: int| 0 <= i < job_count ==> has_known_shape(#[trigger] self.flags@[i])
    }

    /// The job at `index`.
    pub open spec fn job(self, index: int) -> JobDescriptor {
        stored_job(
            index as u32,
            self.first_blocks@[index],
            self.block_counts@[index],
            self.flags@[index],
            self.estimated_work@[index],
            self.tiles@[index],
        )
    }

    /// All jobs.
    pub open spec fn jobs(self) -> Seq<JobDescriptor> {
        Seq::new(self.first_blocks@.len(), |i: int| self.job(i))
    }
}

/// Each job carries its position as identity.
pub open spec fn are_numbered(jobs: Seq<JobDescriptor>) -> bool {
    &&& jobs.len() <= u32::MAX
    &&& forall|i: int| 0 <= i < jobs.len() ==> (#[trigger] jobs[i]).job_id == i
}

/// The jobs of a catalog, held as they are or as stored columns.
pub enum CatalogJobs {
    Resident(Vec<JobDescriptor>),
    Mapped(CatalogColumns),
}

impl View for CatalogJobs {
    type V = Seq<JobDescriptor>;

    open spec fn view(&self) -> Seq<JobDescriptor> {
        match *self {
            CatalogJobs::Resident(jobs) => jobs@,
            CatalogJobs::Mapped(columns) => columns.jobs(),
        }
    }
}

/// The shape's code in stored columns.
fn encode_shape(shape: JobShape) -> (code: u32)
    ensures
        code == shape_code(shape),
{
    match shape {
        JobShape::MicroBatch => 0,
        JobShape::LeftTileFanout => 1,
    }
}

impl CatalogJobs {
    /// The jobs carry their positions, and stored columns are complete.
    pub open spec fn wf(self) -> bool {
        &&& are_numbered(self@)
        &&& match self {
            CatalogJobs::Resident(_) => true,
            CatalogJobs::Mapped(columns) => columns.is_complete(columns.first_blocks@.len()),
        }
    }

    /// Jobs held as they are.
    pub fn resident(jobs: Vec<JobDescriptor>) -> (catalog: CatalogJobs)
        requires
            are_numbered(jobs@),
        ensures
            catalog.wf(),
            catalog@ == jobs@,
            catalog is Resident,
    {
        CatalogJobs::Resident(jobs)
    }

    /// Jobs of stored columns; refused where a column is of another length or a shape is
    /// unknown.
    pub fn mapped(columns: CatalogColumns, job_count: usize) -> (result: Result<
        CatalogJobs,
        SchedulerError,
    >)
        requires
            job_count <= u32::MAX,
        ensures
            columns.is_complete(job_count as nat) ==> result == Ok::<CatalogJobs, SchedulerError>(
                CatalogJobs::Mapped(columns),
            ),
            !columns.is_complete(job_count as nat) ==> result == Err::<CatalogJobs, SchedulerError>(
                SchedulerError::StaleCoverage,
            ),
            result matches Ok(catalog) ==> catalog.wf() && catalog@ == columns.jobs(),
    {
        if columns.first_blocks.len() != job_count || columns.block_counts.len() != job_count
            || columns.flags.len() != job_count || columns.estimated_work.len() != job_count
            || columns.tiles.len() != job_count {
            return Err(SchedulerError::StaleCoverage);
        }
        let mut i: usize = 0;
        while i < job_count
            invariant
                i <= job_count,
                columns.flags@.len() == job_count,
                forall|k: int| 0 <= k < i ==> has_known_shape(#[trigger] columns.flags@[k]),
            decreases job_count - i,
        {
            if columns.flags[i] & 0xff > 1 {
                assert(!has_known_shape(columns.flags@[i as int]));
                return Err(SchedulerError::StaleCoverage);
            }
            i = i + 1;
        }
        Ok(CatalogJobs::Mapped(columns))
    }

    /// The number of jobs.
    pub fn len(&self) -> (len: usize)
        ensures
            len == self@.len(),
    {
        match self {
            CatalogJobs::Resident(jobs) => jobs.len(),
            CatalogJobs::Mapped(columns) => columns.first_blocks.len(),
        }
    }

    /// Whether there are no jobs.
    pub fn is_empty(&self) -> (empty: bool)
        ensures
            empty == (self@.len() == 0),
    {
        self.len() == 0
    }

    /// The job at `index`, if there are that many.
    pub fn get(&self, index: usize) -> (job: Option<JobDescriptor>)
        requires
            self.wf(),
        ensures
            index < self@.len() ==> job == Some(self@[index as int]),
            index >= self@.len() ==> job is None,
    {
        if index >= self.len() {
            return None;
        }
        Some(
            match self {
                CatalogJobs::Resident(jobs) => jobs[index],
                CatalogJobs::Mapped(columns) => {
                    let flags: u32 = columns.flags[index];
                    let tiles: u32 = columns.tiles[index];
                    assert((flags >> 8) & 0xff <= 0xff && (flags >> 16) & 0xff <= 0xff) by (
                    bit_vector);
                    assert(tiles >> 16 <= 0xffff && tiles & 0xffff <= 0xffff) by (bit_vector);
                    JobDescriptor {
                        job_id: index as u32,
                        first_block: columns.first_blocks[index],
                        block_count: columns.block_counts[index],
                        shape: if flags & 0xff == 0 {
                            JobShape::MicroBatch
                        } else {
                            JobShape::LeftTileFanout
                        },
                        risk: ((flags >> 8) & 0xff) as u8,
                        rescue: ((flags >> 16) & 0xff) as u8,
                        tile_row: (tiles >> 16) as u16,
                        tile_col: (tiles & 0xffff) as u16,
                        estimated_work: columns.estimated_work[index],
                    }
                },
            },
        )
    }

    /// All jobs, in order.
    pub fn iter(&self) -> (jobs: Vec<JobDescriptor>)
        requires
            self.wf(),
        ensures
            jobs@ == self@,
    {
        let mut jobs: Vec<JobDescriptor> = Vec::new();
        let count: usize = self.len();
        let mut i: usize = 0;
        while i < count
            invariant
                i <= count,
                count == self@.len(),
                self.wf(),
                jobs@ == self@.take(i as int),
            decreases count - i,
        {
            if let Some(job) = self.get(i) {
                jobs.push(job);
            }
            assert(self@.take(i + 1) =~= self@.take(i as int).push(self@[i as int]));
            i = i + 1;
        }
        assert(self@.take(i as int) =~= self@);
        jobs
    }

    /// Whether the jobs are held as stored columns.
    pub fn is_mapped(&self) -> (mapped: bool)
        ensures
            mapped == (self is Mapped),
    {
        match self {
            CatalogJobs::Resident(_) => false,
            CatalogJobs::Mapped(_) => true,
        }
    }

    /// Whether both hold the same jobs, however they are held.
    pub fn same_jobs(&self, other: &CatalogJobs) -> (same: bool)
        requires
            self.wf(),
            other.wf(),
        ensures
            same == (self@ == other@),
    {
        let count: usize = self.len();
        if count != other.len() {
            return false;
        }
        let mut i: usize = 0;
        while i < count
            invariant
                i <= count,
                count == self@.len(),
                count == other@.len(),
                self.wf(),
                other.wf(),
                forall|k: int| 0 <= k < i ==> #[trigger] self@[k] == other@[k],
            decreases count - i,
        {
            if self.get(i) != other.get(i) {
                assert(self@[i as int] != other@[i as int]);
                return false;
            }
            i = i + 1;
        }
        assert(self@ =~= other@);
        true
    }

    /// The columns to store.
    pub fn columns(&self) -> (columns: CatalogColumns)
        requires
            self.wf(),
        ensures
            columns.is_complete(self@.len()),
            columns.jobs() == self@,
            forall|i: int|
                0 <= i < self@.len() ==> {
                    &&& columns.first_blocks@[i] == (#[trigger] self@[i]).first_block
                    &&& columns.block_counts@[i] == self@[i].block_count
                    &&& columns.flags@[i] == job_flags(self@[i])
                    &&& columns.estimated_work@[i] == self@[i].estimated_work
                    &&& columns.tiles@[i] == job_tiles(self@[i])
                },
    {
        let mut first_blocks: Vec<u32> = Vec::new();
        let mut block_counts: Vec<u32> = Vec::new();
        let mut flags: Vec<u32> = Vec::new();
        let mut estimated_work: Vec<u64> = Vec::new();
        let mut tiles: Vec<u32> = Vec::new();
        let jobs = self.iter();
        let mut i: usize = 0;
        while i < jobs.len()
            invariant
                i <= jobs@.len(),
                first_blocks@.len() == i,
                block_counts@.len() == i,
                flags@.len() == i,
                estimated_work@.len() == i,
                tiles@.len() == i,
                forall|k: int|
                    0 <= k < i ==> {
                        &&& first_blocks@[k] == (#[trigger] jobs@[k]).first_block
                        &&& block_counts@[k] == jobs@[k].block_count
                        &&& flags@[k] == job_flags(jobs@[k])
                        &&& estimated_work@[k] == jobs@[k].estimated_work
                        &&& tiles@[k] == job_tiles(jobs@[k])
                    },
            decreases jobs.len() - i,
        {
            let job: JobDescriptor = jobs[i];
            first_blocks.push(job.first_block);
            block_counts.push(job.block_count);
            flags.push(
                encode_shape(job.shape) | ((job.risk as u32) << 8) | ((job.rescue as u32) << 16),
            );
            estimated_work.push(job.estimated_work);
            tiles.push(((job.tile_row as u32) << 16) | (job.tile_col as u32));
            i = i + 1;
        }
        let columns = CatalogColumns { first_blocks, block_counts, flags, estimated_work, tiles };
        proof {
            assert forall|k: int| 0 <= k < jobs@.len() implies has_known_shape(
                #[trigger] columns.flags@[k],
            ) && columns.job(k) == jobs@[k] by {
                assert(jobs@[k].job_id == k);
                lemma_stored_job_round_trip(jobs@[k]);
            }
            assert(columns.jobs() =~= self@);
        }
        columns
    }
}

} // verus!
