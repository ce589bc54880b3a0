//! Failures of edge collection and component reduction.

use crate::identity::IdentityOverflow;
use vstd::prelude::*;
use vstd::string::*;

verus! {

/// Why a reduction was refused.
#[derive(Debug, PartialEq, Eq)]
pub enum ReduceError {
    /// A work total does not fit 64 bits.
    WorkOverflow,
    /// A resource limit would be exceeded.
    Budget { resource: &'static str, requested: u64, limit: u64 },
    /// An edge endpoint, or a run's node count, does not fit the node universe.
    Endpoint { endpoint: u32, node_count: u32 },
    /// A stored run or snapshot chain is inconsistent.
    SnapshotChain(String),
    /// The snapshot cadence cannot be met.
    SnapshotCadence(String),
    /// More nodes than 32-bit identities.
    Identity(IdentityOverflow),
}

/// What a [`ReduceError`] says, with texts as character sequences.
pub enum ReduceFault {
    WorkOverflow,
    Budget { resource: Seq<char>, requested: u64, limit: u64 },
    Endpoint { endpoint: u32, node_count: u32 },
    SnapshotChain(Seq<char>),
    SnapshotCadence(Seq<char>),
    Identity(IdentityOverflow),
}

impl View for ReduceError {
    type V = ReduceFault;

    open spec fn view(&self) -> ReduceFault {
        match *self {
            ReduceError::WorkOverflow => ReduceFault::WorkOverflow,
            ReduceError::Budget { resource, requested, limit } => ReduceFault::Budget {
                resource: resource@,
                requested,
                limit,
            },
            ReduceError::Endpoint { endpoint, node_count } => ReduceFault::Endpoint {
                endpoint,
                node_count,
            },
            ReduceError::SnapshotChain(text) => ReduceFault::SnapshotChain(text@),
            ReduceError::SnapshotCadence(text) => ReduceFault::SnapshotCadence(text@),
            ReduceError::Identity(overflow) => ReduceFault::Identity(overflow),
        }
    }
}

/// A chain error with a fixed text.
pub(crate) fn chain_error(text: &'static str) -> (error: ReduceError)
    ensures
        error@ == ReduceFault::SnapshotChain(text@),
{
    ReduceError::SnapshotChain(text.to_owned())
}

/// Refuses `requested` where it exceeds `limit`.
pub(crate) fn check(resource: &'static str, requested: u64, limit: u64) -> (result: Result<
    (),
    ReduceError,
>)
    ensures
        requested <= limit ==> result is Ok,
        requested > limit ==> (result matches Err(error) && error@ == (ReduceFault::Budget {
            resource: resource@,
            requested,
            limit,
        })),
{
    if requested > limit {
        Err(ReduceError::Budget { resource, requested, limit })
    } else {
        Ok(())
    }
}

} // verus!
