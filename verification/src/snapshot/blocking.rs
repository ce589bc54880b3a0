//! Blocking columns: which atoms are routed to which blocks.

use crate::columns;
use crate::columns::{check_all_below, check_mutual, check_row_increases, check_row_table};
use crate::snapshot::error::{SnapshotError, SnapshotFault};
use crate::text;
use crate::text::decimal;
use vstd::prelude::*;
use vstd::string::*;

verus! {

/// Routing status of an atom that needs no block.
pub const ROUTING_STATUS_UNROUTED: u8 = 2;

/// The blocking columns. Atoms list their blocks, and blocks their atoms.
pub struct BlockingView {
    pub primary_storage_shards: Vec<u32>,
    pub template_simhashes: Vec<u64>,
    pub content_simhashes: Vec<u64>,
    pub routing_statuses: Vec<u8>,
    pub atom_block_offsets: Vec<u64>,
    pub atom_block_ids: Vec<u32>,
    pub block_atom_offsets: Vec<u64>,
    pub block_atoms: Vec<u32>,
    pub block_kinds: Vec<u32>,
    pub block_keys: Vec<u64>,
}

/// A column length that is not the atom count.
pub open spec fn length_text(name: Seq<char>, len: nat, atom_count: nat) -> Seq<char> {
    name + " length "@ + text::decimal_text(len) + " != atom_count "@ + text::decimal_text(
        atom_count,
    )
}

/// What is wrong with the memberships of the first atom from `at` on that has a fault.
pub open spec fn first_atom_fault(view: BlockingView, atom_count: nat, at: int) -> Option<Seq<char>>
    decreases atom_count - at,
{
    if at < 0 || at >= atom_count {
        None
    } else if !columns::row_increases(view.atom_block_offsets@, view.atom_block_ids@, at) {
        Some("atom block ids not strictly sorted"@)
    } else if view.routing_statuses@[at] != ROUTING_STATUS_UNROUTED && view.atom_block_offsets@[at]
        == view.atom_block_offsets@[at + 1] {
        Some("routable atom "@ + text::decimal_text(at as nat) + " has no block membership"@)
    } else {
        first_atom_fault(view, atom_count, at + 1)
    }
}

impl BlockingView {
    /// The number of blocks.
    pub open spec fn block_count(self) -> int {
        self.block_atom_offsets@.len() - 1
    }

    /// A column of atoms has another length.
    pub open spec fn column_fault(self, atom_count: nat) -> Option<Seq<char>> {
        if self.primary_storage_shards@.len() != atom_count {
            Some(
                length_text(
                    "primary_storage_shards"@,
                    self.primary_storage_shards@.len(),
                    atom_count,
                ),
            )
        } else if self.template_simhashes@.len() != atom_count {
            Some(
                length_text("template_simhashes"@, self.template_simhashes@.len(), atom_count),
            )
        } else if self.content_simhashes@.len() != atom_count {
            Some(length_text("content_simhashes"@, self.content_simhashes@.len(), atom_count))
        } else if self.routing_statuses@.len() != atom_count {
            Some(length_text("routing_statuses"@, self.routing_statuses@.len(), atom_count))
        } else {
            None
        }
    }

    /// The tables do not fit each other.
    pub open spec fn shape_fault(self, atom_count: nat) -> Option<Seq<char>> {
        let atoms = columns::row_table_fault(
            "atom_blocks"@,
            self.atom_block_offsets@,
            self.atom_block_ids@.len(),
        );
        let blocks = columns::row_table_fault(
            "block_atoms"@,
            self.block_atom_offsets@,
            self.block_atoms@.len(),
        );
        if atoms is Some {
            atoms
        } else if blocks is Some {
            blocks
        } else if self.atom_block_offsets@.len() != atom_count + 1 {
            Some("atom_block_offsets length"@)
        } else if self.block_kinds@.len() != self.block_count() || self.block_keys@.len()
            != self.block_count() {
            Some("block descriptor count"@)
        } else if !columns::all_below(self.atom_block_ids@, self.block_count()) {
            Some("atom references missing block"@)
        } else if !columns::all_below(self.block_atoms@, atom_count as int) {
            Some("block references missing atom"@)
        } else if exists|i: int|
            0 <= i < self.routing_statuses@.len() && #[trigger] self.routing_statuses@[i] > 2 {
            Some("unknown routing status"@)
        } else if !columns::all_below(self.block_kinds@, 3) {
            Some("unknown block kind"@)
        } else {
            None
        }
    }

    /// The memberships contradict each other.
    pub open spec fn membership_fault(self, atom_count: nat) -> Option<Seq<char>> {
        if first_atom_fault(self, atom_count, 0) is Some {
            first_atom_fault(self, atom_count, 0)
        } else if exists|block: int|
            0 <= block < self.block_count() && !(#[trigger] columns::row_increases(
                self.block_atom_offsets@,
                self.block_atoms@,
                block,
            )) {
            Some("block atoms not strictly sorted"@)
        } else if !columns::are_mutual(
            self.atom_block_offsets@,
            self.atom_block_ids@,
            self.block_atom_offsets@,
            self.block_atoms@,
        ) {
            Some("block membership directions disagree"@)
        } else {
            None
        }
    }

    /// What is wrong with the columns, if anything.
    pub open spec fn fault(self, atom_count: nat) -> Option<Seq<char>> {
        if self.column_fault(atom_count) is Some {
            self.column_fault(atom_count)
        } else if self.shape_fault(atom_count) is Some {
            self.shape_fault(atom_count)
        } else {
            self.membership_fault(atom_count)
        }
    }

    /// Refuses columns that are not consistent for `atom_count` atoms.
    pub fn validate(&self, atom_count: usize) -> (result: Result<(), SnapshotError>)
        requires
            self.block_atom_offsets@.len() <= u32::MAX,
        ensures
            match self.fault(atom_count as nat) {
                None => result is Ok,
                Some(fault) => result matches Err(e) && e@ == SnapshotFault::Invariant(fault),
            },
    {
        if let Some(text) = self.check_columns(atom_count) {
            return Err(SnapshotError::Invariant(text));
        }
        if let Some(text) = self.check_shape(atom_count) {
            return Err(SnapshotError::Invariant(text));
        }
        if let Some(text) = self.check_membership(atom_count) {
            return Err(SnapshotError::Invariant(text));
        }
        Ok(())
    }

    fn check_columns(&self, atom_count: usize) -> (fault: Option<String>)
        ensures
            columns::same_fault(fault, self.column_fault(atom_count as nat)),
    {
        if self.primary_storage_shards.len() != atom_count {
            return Some(
                describe_length(
                    "primary_storage_shards",
                    self.primary_storage_shards.len(),
                    atom_count,
                ),
            );
        }
        if self.template_simhashes.len() != atom_count {
            return Some(
                describe_length("template_simhashes", self.template_simhashes.len(), atom_count),
            );
        }
        if self.content_simhashes.len() != atom_count {
            return Some(
                describe_length("content_simhashes", self.content_simhashes.len(), atom_count),
            );
        }
        if self.routing_statuses.len() != atom_count {
            return Some(
                describe_length("routing_statuses", self.routing_statuses.len(), atom_count),
            );
        }
        None
    }

    fn check_shape(&self, atom_count: usize) -> (fault: Option<String>)
        ensures
            columns::same_fault(fault, self.shape_fault(atom_count as nat)),
    {
        if let Some(text) = check_row_table(
            "atom_blocks",
            &self.atom_block_offsets,
            self.atom_block_ids.len(),
        ) {
            return Some(text);
        }
        if let Some(text) = check_row_table(
            "block_atoms",
            &self.block_atom_offsets,
            self.block_atoms.len(),
        ) {
            return Some(text);
        }
        if self.atom_block_offsets.len() - 1 != atom_count {
            return Some("atom_block_offsets length".to_owned());
        }
        let blocks: usize = self.block_atom_offsets.len() - 1;
        if self.block_kinds.len() != blocks || self.block_keys.len() != blocks {
            return Some("block descriptor count".to_owned());
        }
        if !check_all_below(&self.atom_block_ids, blocks) {
            return Some("atom references missing block".to_owned());
        }
        if !check_all_below(&self.block_atoms, atom_count) {
            return Some("block references missing atom".to_owned());
        }
        let mut i: usize = 0;
        while i < self.routing_statuses.len()
            invariant
                i <= self.routing_statuses@.len(),
                blocks == self.block_count(),
                columns::row_table_fault(
                    "atom_blocks"@,
                    self.atom_block_offsets@,
                    self.atom_block_ids@.len(),
                ) is None,
                columns::row_table_fault(
                    "block_atoms"@,
                    self.block_atom_offsets@,
                    self.block_atoms@.len(),
                ) is None,
                self.atom_block_offsets@.len() == atom_count + 1,
                self.block_kinds@.len() == blocks,
                self.block_keys@.len() == blocks,
                columns::all_below(self.atom_block_ids@, blocks as int),
                columns::all_below(self.block_atoms@, atom_count as int),
                forall|k: int| 0 <= k < i ==> #[trigger] self.routing_statuses@[k] <= 2,
            decreases self.routing_statuses.len() - i,
        {
            if self.routing_statuses[i] > 2 {
                assert(self.routing_statuses@[i as int] > 2);
                return Some("unknown routing status".to_owned());
            }
            i = i + 1;
        }
        if !check_all_below(&self.block_kinds, 3) {
            return Some("unknown block kind".to_owned());
        }
        None
    }

    fn check_membership(&self, atom_count: usize) -> (fault: Option<String>)
        requires
            self.column_fault(atom_count as nat) is None,
            self.shape_fault(atom_count as nat) is None,
            self.block_atom_offsets@.len() <= u32::MAX,
        ensures
            columns::same_fault(fault, self.membership_fault(atom_count as nat)),
    {
        let blocks: usize = self.block_atom_offsets.len() - 1;
        let atom_rows: usize = self.atom_block_offsets.len();
        let ghost count = atom_count as nat;
        let mut atom: usize = 0;
        while atom < atom_count
            invariant
                atom <= atom_count,
                count == atom_count,
                atom_rows == atom_count + 1,
                self.column_fault(count) is None,
                self.shape_fault(count) is None,
                first_atom_fault(*self, count, 0) == first_atom_fault(*self, count, atom as int),
                forall|k: int|
                    0 <= k < atom ==> #[trigger] columns::row_increases(
                        self.atom_block_offsets@,
                        self.atom_block_ids@,
                        k,
                    ),
            decreases atom_count - atom,
        {
            if !check_row_increases(&self.atom_block_offsets, &self.atom_block_ids, atom) {
                return Some("atom block ids not strictly sorted".to_owned());
            }
            if self.routing_statuses[atom] != ROUTING_STATUS_UNROUTED
                && self.atom_block_offsets[atom] == self.atom_block_offsets[atom + 1] {
                return Some(
                    "routable atom ".to_owned().concat(decimal(atom as u64).as_str()).concat(
                        " has no block membership",
                    ),
                );
            }
            atom = atom + 1;
        }
        let mut block: usize = 0;
        while block < blocks
            invariant
                block <= blocks,
                blocks == self.block_count(),
                self.shape_fault(count) is None,
                first_atom_fault(*self, count, 0) is None,
                count == atom_count,
                forall|k: int|
                    0 <= k < block ==> #[trigger] columns::row_increases(
                        self.block_atom_offsets@,
                        self.block_atoms@,
                        k,
                    ),
            decreases blocks - block,
        {
            if !check_row_increases(&self.block_atom_offsets, &self.block_atoms, block) {
                return Some("block atoms not strictly sorted".to_owned());
            }
            block = block + 1;
        }
        proof {
            assert forall|b: int| 0 <= b < self.block_atom_offsets@.len() - 1 implies
                #[trigger] columns::row_ascends(
                self.block_atom_offsets@,
                self.block_atoms@,
                b,
            ) by {
                assert(columns::row_increases(self.block_atom_offsets@, self.block_atoms@, b));
            }
        }
        if !check_mutual(
            &self.atom_block_offsets,
            &self.atom_block_ids,
            &self.block_atom_offsets,
            &self.block_atoms,
        ) {
            return Some("block membership directions disagree".to_owned());
        }
        None
    }
}

/// A column length that is not the atom count.
fn describe_length(name: &str, len: usize, atom_count: usize) -> (text: String)
    ensures
        text@ == length_text(name@, len as nat, atom_count as nat),
{
    name.to_owned().concat(" length ").concat(decimal(len as u64).as_str()).concat(
        " != atom_count ",
    ).concat(decimal(atom_count as u64).as_str())
}

} // verus!
