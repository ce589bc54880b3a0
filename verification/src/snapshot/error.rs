//! Failures of opening a snapshot.

use vstd::prelude::*;

verus! {

/// Why a snapshot was refused.
#[derive(Debug, PartialEq, Eq)]
pub enum SnapshotError {
    /// An artifact is of another revision.
    Revision { artifact: &'static str, got: u32, expected: u32 },
    /// The columns contradict each other.
    Invariant(String),
}

/// What a [`SnapshotError`] says, with texts as character sequences.
pub enum SnapshotFault {
    Revision { artifact: Seq<char>, got: u32, expected: u32 },
    Invariant(Seq<char>),
}

impl View for SnapshotError {
    type V = SnapshotFault;

    open spec fn view(&self) -> SnapshotFault {
        match *self {
            SnapshotError::Revision { artifact, got, expected } => SnapshotFault::Revision {
                artifact: artifact@,
                got,
                expected,
            },
            SnapshotError::Invariant(text) => SnapshotFault::Invariant(text@),
        }
    }
}

} // verus!
