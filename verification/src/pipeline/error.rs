//! Failures of the matching pipeline.

use crate::identity::IdentityOverflow;
use crate::reduce::error::{ReduceError, ReduceFault};
use crate::resource::MemoryError;
use crate::scheduler::jobs::SchedulerError;
use crate::snapshot::error::{SnapshotError, SnapshotFault};
use vstd::prelude::*;
use vstd::string::*;

verus! {

/// Why the pipeline stopped.
#[derive(Debug, PartialEq, Eq)]
pub enum PipelineError {
    /// More rows than identities.
    Identity(IdentityOverflow),
    /// A worker failed.
    Parallel(String),
    /// Inputs contradict each other.
    Invariant(String),
    /// The snapshot was refused.
    Snapshot(SnapshotError),
    /// The catalog was refused.
    Scheduler(SchedulerError),
    /// Collection or reduction failed.
    Reduce(ReduceError),
    /// A byte or work count was refused.
    Memory(MemoryError),
}

/// What a [`PipelineError`] says, with texts as character sequences.
pub enum PipelineFault {
    Identity(IdentityOverflow),
    Parallel(Seq<char>),
    Invariant(Seq<char>),
    Snapshot(SnapshotFault),
    Scheduler(SchedulerError),
    Reduce(ReduceFault),
    Memory(MemoryError),
}

impl View for PipelineError {
    type V = PipelineFault;

    open spec fn view(&self) -> PipelineFault {
        match *self {
            PipelineError::Identity(overflow) => PipelineFault::Identity(overflow),
            PipelineError::Parallel(text) => PipelineFault::Parallel(text@),
            PipelineError::Invariant(text) => PipelineFault::Invariant(text@),
            PipelineError::Snapshot(error) => PipelineFault::Snapshot(error@),
            PipelineError::Scheduler(error) => PipelineFault::Scheduler(error),
            PipelineError::Reduce(error) => PipelineFault::Reduce(error@),
            PipelineError::Memory(error) => PipelineFault::Memory(error),
        }
    }
}

/// A count does not fit.
pub open spec fn overflow_fault() -> PipelineFault {
    PipelineFault::Memory(MemoryError::Overflow)
}

/// A count does not fit.
pub(crate) fn overflow_error() -> (error: PipelineError)
    ensures
        error@ == overflow_fault(),
{
    PipelineError::Memory(MemoryError::Overflow)
}

/// Inputs contradict each other.
pub(crate) fn invariant_error(text: &'static str) -> (error: PipelineError)
    ensures
        error@ == PipelineFault::Invariant(text@),
{
    PipelineError::Invariant(text.to_owned())
}

/// A checked result: the value where it fits, else an overflow.
pub open spec fn is_checked(result: Result<u64, PipelineError>, value: int) -> bool {
    if value <= u64::MAX {
        result matches Ok(actual) && actual == value
    } else {
        result matches Err(error) && error@ == overflow_fault()
    }
}

} // verus!
