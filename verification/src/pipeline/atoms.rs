//! Members and payloads of fallback atoms.

use crate::columns;
use crate::pipeline::tokens;
use crate::snapshot::atoms;
use crate::snapshot::features::FeatureView;
use crate::snapshot::metadata::MetadataSnapshot;
use crate::sorting;
use vstd::prelude::*;
use vstd::slice::slice_subrange;

verus! {

/// The number of atoms.
pub open spec fn atom_count(view: FeatureView) -> int {
    view.fallback_atom_offsets@.len() - 1
}

/// The contracts of an atom.
pub open spec fn members_of(view: FeatureView, atom: int) -> Seq<u32> {
    columns::row_of(view.fallback_atom_offsets@, view.fallback_atom_contracts@, atom)
}

/// The payload by which an atom is scored.
pub open spec fn payload_of(view: FeatureView, atom: int) -> u32 {
    view.contract_payload@[members_of(view, atom)[0] as int]
}

/// An atom holds contracts in increasing order, at least one.
pub open spec fn is_sorted_atom(view: FeatureView, atom: int) -> bool {
    &&& view.fallback_atom_offsets@[atom] < view.fallback_atom_offsets@[atom + 1]
    &&& columns::row_increases(view.fallback_atom_offsets@, view.fallback_atom_contracts@, atom)
}

/// Atoms hold known contracts in increasing order, at least one each.
pub open spec fn atoms_sorted(view: FeatureView) -> bool {
    &&& columns::is_row_table(view.fallback_atom_offsets@, view.fallback_atom_contracts@.len())
    &&& columns::all_below(view.fallback_atom_contracts@, view.contract_count())
    &&& view.contract_payload@.len() == view.contract_count()
    &&& view.contract_chain@.len() == view.contract_count()
    &&& view.contract_count() <= u32::MAX
    &&& forall|atom: int| 0 <= atom < atom_count(view) ==> #[trigger] is_sorted_atom(view, atom)
}

proof fn lemma_no_atom_fault(view: FeatureView, atom_count: nat, at: int, atom: int)
    requires
        atoms::first_atom_fault(view, atom_count, at) is None,
        0 <= at <= atom < atom_count,
    ensures
        atoms::atom_fault(view, atom) is None,
    decreases atom - at,
{
    if at < atom {
        lemma_no_atom_fault(view, atom_count, at + 1, atom);
    }
}

proof fn lemma_none_missing(view: FeatureView, at: int, contract: int)
    requires
        atoms::first_missing(view, at) is None,
        0 <= at <= contract < view.contract_count(),
    ensures
        view.fallback_atom_contracts@.contains(contract as u32),
    decreases contract - at,
{
    if at < contract {
        lemma_none_missing(view, at + 1, contract);
    }
}

proof fn lemma_no_repeat(values: Seq<u32>, k: int, end: int, at: int)
    requires
        atoms::first_repeat(values, k, end) is None,
        k <= at < end,
    ensures
        !atoms::is_repeat(values, at),
    decreases at - k,
{
    if k < at {
        lemma_no_repeat(values, k + 1, end, at);
    }
}

proof fn lemma_row_at(offsets: Seq<u64>, values_len: nat, row: int, k: int) -> (found: int)
    requires
        columns::is_row_table(offsets, values_len),
        0 <= row < offsets.len(),
        offsets[row] <= k < values_len,
    ensures
        row <= found < offsets.len() - 1,
        offsets[found] <= k < offsets[found + 1],
    decreases offsets.len() - row,
{
    if row + 1 < offsets.len() && k < offsets[row + 1] {
        row
    } else {
        assert(row + 1 < offsets.len());
        lemma_row_at(offsets, values_len, row + 1, k)
    }
}

/// Two different positions of a snapshot's atoms hold different contracts.
proof fn lemma_positions_distinct(snapshot: MetadataSnapshot, i: int, j: int)
    requires
        snapshot.wf(),
        0 <= i < j < snapshot.features.fallback_atom_contracts@.len(),
    ensures
        snapshot.features.fallback_atom_contracts@[i]
            != snapshot.features.fallback_atom_contracts@[j],
{
    let view = snapshot.features;
    lemma_snapshot_atoms(snapshot);
    let atom = lemma_row_at(
        view.fallback_atom_offsets@,
        view.fallback_atom_contracts@.len(),
        0,
        j,
    );
    lemma_no_atom_fault(view, atom_count(view) as nat, 0, atom);
    lemma_no_repeat(
        view.fallback_atom_contracts@,
        view.fallback_atom_offsets@[atom] as int,
        view.fallback_atom_offsets@[atom + 1] as int,
        j,
    );
    assert(!atoms::is_repeat(view.fallback_atom_contracts@, j));
}

/// The atoms of a consistent snapshot are sorted.
pub proof fn lemma_snapshot_atoms(snapshot: MetadataSnapshot)
    requires
        snapshot.wf(),
    ensures
        atoms_sorted(snapshot.features),
        atom_count(snapshot.features) >= 0,
{
    let view = snapshot.features;
    assert forall|atom: int| 0 <= atom < atom_count(view) implies #[trigger] is_sorted_atom(
        view,
        atom,
    ) by {
        lemma_no_atom_fault(view, atom_count(view) as nat, 0, atom);
        columns::lemma_row_bounds(
            view.fallback_atom_offsets@,
            view.fallback_atom_contracts@.len(),
            atom,
        );
    }
}

/// Every contract of a consistent snapshot belongs to exactly one fallback atom.
pub proof fn lemma_contract_has_one_atom(snapshot: MetadataSnapshot, contract: u32) -> (atom: int)
    requires
        snapshot.wf(),
        contract < snapshot.features.contract_count(),
    ensures
        0 <= atom < atom_count(snapshot.features),
        members_of(snapshot.features, atom).contains(contract),
        forall|other: int|
            0 <= other < atom_count(snapshot.features) && #[trigger] members_of(
                snapshot.features,
                other,
            ).contains(contract) ==> other == atom,
{
    let view = snapshot.features;
    let offsets = view.fallback_atom_offsets@;
    let values = view.fallback_atom_contracts@;
    lemma_snapshot_atoms(snapshot);
    lemma_none_missing(view, 0, contract as int);
    let k = values.index_of(contract);
    let atom = lemma_row_at(offsets, values.len(), 0, k);
    columns::lemma_row_bounds(offsets, values.len(), atom);
    assert(members_of(view, atom)[k - offsets[atom]] == contract);
    assert forall|other: int|
        0 <= other < atom_count(view) && #[trigger] members_of(view, other).contains(
            contract,
        ) implies other == atom by {
        columns::lemma_row_bounds(offsets, values.len(), other);
        let at = members_of(view, other).index_of(contract) + offsets[other];
        assert(values[at] == contract);
        if at < k {
            lemma_positions_distinct(snapshot, at, k);
        } else if k < at {
            lemma_positions_distinct(snapshot, k, at);
        }
        if other < atom {
            assert(offsets[other + 1] <= offsets[atom]);
        } else if atom < other {
            assert(offsets[atom + 1] <= offsets[other]);
        }
    }
    atom
}

/// The contracts of an atom of a consistent snapshot are of one chain.
pub proof fn lemma_atom_has_one_chain(snapshot: MetadataSnapshot, atom: int, i: int, j: int)
    requires
        snapshot.wf(),
        0 <= atom < atom_count(snapshot.features),
        0 <= i < members_of(snapshot.features, atom).len(),
        0 <= j < members_of(snapshot.features, atom).len(),
    ensures
        snapshot.features.contract_chain@[members_of(snapshot.features, atom)[i] as int]
            == snapshot.features.contract_chain@[members_of(snapshot.features, atom)[j] as int],
{
    let view = snapshot.features;
    lemma_no_atom_fault(view, atom_count(view) as nat, 0, atom);
    let begin = view.fallback_atom_offsets@[atom] as int;
    columns::lemma_row_bounds(
        view.fallback_atom_offsets@,
        view.fallback_atom_contracts@.len(),
        atom,
    );
    if i > 0 {
        assert(atoms::is_alike(view, begin, begin + i));
    }
    if j > 0 {
        assert(atoms::is_alike(view, begin, begin + j));
    }
}

/// All contracts are of one of `chain_count` chains.
pub open spec fn chains_known(view: FeatureView, chain_count: int) -> bool {
    columns::all_below(view.contract_chain@, chain_count)
}

/// The members at `i` and `j` are of one chain.
pub open spec fn same_chain(view: FeatureView, members: Seq<u32>, i: int, j: int) -> bool {
    view.contract_chain@[members[i] as int] == view.contract_chain@[members[j] as int]
}

/// The contracts of each atom are of one chain.
pub open spec fn atoms_have_one_chain(view: FeatureView) -> bool {
    forall|atom: int, i: int, j: int|
        0 <= atom < atom_count(view) && 0 <= i < members_of(view, atom).len() && 0 <= j
            < members_of(view, atom).len() ==> #[trigger] same_chain(
            view,
            members_of(view, atom),
            i,
            j,
        )
}

/// A consistent snapshot's atoms have one chain each, among the announced chains.
pub proof fn lemma_snapshot_chains(snapshot: MetadataSnapshot)
    requires
        snapshot.wf(),
    ensures
        atoms_have_one_chain(snapshot.features),
        chains_known(snapshot.features, snapshot.ready.chains@.len() as int),
{
    let view = snapshot.features;
    assert forall|atom: int, i: int, j: int|
        0 <= atom < atom_count(view) && 0 <= i < members_of(view, atom).len() && 0 <= j
            < members_of(view, atom).len() implies #[trigger] same_chain(
        view,
        members_of(view, atom),
        i,
        j,
    ) by {
        lemma_atom_has_one_chain(snapshot, atom, i, j);
    }
}

/// The members of an atom are known contracts in increasing order.
pub proof fn lemma_members_known(view: FeatureView, atom: int)
    requires
        atoms_sorted(view),
        0 <= atom < atom_count(view),
    ensures
        members_of(view, atom).len() > 0,
        members_of(view, atom).len() <= view.contract_count(),
        sorting::strictly_ascending_u32(members_of(view, atom)),
        tokens::are_contracts(view, members_of(view, atom)),
{
    columns::lemma_row_bounds(
        view.fallback_atom_offsets@,
        view.fallback_atom_contracts@.len(),
        atom,
    );
    assert(is_sorted_atom(view, atom));
    let members = members_of(view, atom);
    assert forall|i: int| 0 <= i < members.len() implies #[trigger] members[i]
        < view.contract_count() by {
        assert(members[i] == view.fallback_atom_contracts@[view.fallback_atom_offsets@[atom] + i]);
    }
    lemma_ascending_len(members, view.contract_count());
}

/// The contracts of an atom.
pub fn atom_contracts(features: &FeatureView, atom: u32) -> (members: &[u32])
    requires
        atoms_sorted(*features),
        atom < atom_count(*features),
    ensures
        members@ == members_of(*features, atom as int),
        members@.len() > 0,
        members@.len() <= features.contract_count(),
        sorting::strictly_ascending_u32(members@),
        tokens::are_contracts(*features, members@),
{
    let ghost view = *features;
    let rows: usize = features.fallback_atom_offsets.len();
    let count: usize = features.fallback_atom_contracts.len();
    proof {
        lemma_members_known(view, atom as int);
        columns::lemma_row_bounds(
            view.fallback_atom_offsets@,
            view.fallback_atom_contracts@.len(),
            atom as int,
        );
    }
    let begin: usize = features.fallback_atom_offsets[atom as usize] as usize;
    let end: usize = features.fallback_atom_offsets[atom as usize + 1] as usize;
    slice_subrange(features.fallback_atom_contracts.as_slice(), begin, end)
}

proof fn lemma_ascending_value(values: Seq<u32>, i: int)
    requires
        sorting::strictly_ascending_u32(values),
        0 <= i < values.len(),
    ensures
        values[i] >= i,
    decreases i,
{
    if i > 0 {
        lemma_ascending_value(values, i - 1);
        assert(values[i - 1] < values[i]);
    }
}

/// Increasing values below a bound are not more than the bound.
pub proof fn lemma_ascending_len(values: Seq<u32>, bound: int)
    requires
        sorting::strictly_ascending_u32(values),
        forall|i: int| 0 <= i < values.len() ==> #[trigger] values[i] < bound,
        bound >= 0,
    ensures
        values.len() <= bound,
{
    if values.len() > 0 {
        lemma_ascending_value(values, values.len() - 1);
    }
}

/// The payload by which an atom is scored.
pub fn atom_payload(features: &FeatureView, atom: u32) -> (payload: u32)
    requires
        atoms_sorted(*features),
        atom < atom_count(*features),
    ensures
        payload == payload_of(*features, atom as int),
{
    let members = atom_contracts(features, atom);
    assert(members@[0] < features.contract_count());
    features.contract_payload[members[0] as usize]
}

} // verus!
