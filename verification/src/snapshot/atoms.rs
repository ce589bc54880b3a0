//! Fallback atoms: the contracts of each atom share a chain and all scoring features.

use crate::columns;
use crate::columns::{check_all_below, check_row_increases};
use crate::snapshot::features::{FeatureReady, FeatureView};
use crate::text;
use crate::text::decimal;
use vstd::prelude::*;
use vstd::string::*;

verus! {

/// Two payloads score alike against every other.
pub open spec fn same_payload_features(view: FeatureView, left: int, right: int) -> bool {
    let template = view.payload_template_offsets@;
    let content = view.payload_content_offsets@;
    let prepared = view.prepared_weight_offsets@;
    &&& columns::row_of(template, view.payload_template_terms@, left) == columns::row_of(
        template,
        view.payload_template_terms@,
        right,
    )
    &&& columns::row_of(template, view.payload_template_freqs@, left) == columns::row_of(
        template,
        view.payload_template_freqs@,
        right,
    )
    &&& columns::row_of(content, view.payload_content_terms@, left) == columns::row_of(
        content,
        view.payload_content_terms@,
        right,
    )
    &&& columns::row_of(content, view.payload_content_freqs@, left) == columns::row_of(
        content,
        view.payload_content_freqs@,
        right,
    )
    &&& view.payload_lengths@[left] == view.payload_lengths@[right]
    &&& view.query_denominators@[left] == view.query_denominators@[right]
    &&& columns::row_of(prepared, view.prepared_weights@, left) == columns::row_of(
        prepared,
        view.prepared_weights@,
        right,
    )
}

/// Scoring alike is an equivalence of payloads: every payload scores like itself, two like each
/// other, and two like a third like each other. Scores are compared bit by bit.
pub proof fn lemma_payload_features_equivalence(view: FeatureView, a: int, b: int, c: int)
    ensures
        same_payload_features(view, a, a),
        same_payload_features(view, a, b) <==> same_payload_features(view, b, a),
        same_payload_features(view, a, b) && same_payload_features(view, b, c)
            ==> same_payload_features(view, a, c),
{
}

/// The value at `k` occurs before `k`.
pub open spec fn is_repeat(values: Seq<u32>, k: int) -> bool {
    exists|j: int| 0 <= j < k && #[trigger] values[j] == values[k]
}

/// The first position from `k` up to `end` whose value occurred before.
pub open spec fn first_repeat(values: Seq<u32>, k: int, end: int) -> Option<int>
    decreases end - k,
{
    if k >= end {
        None
    } else if is_repeat(values, k) {
        Some(k)
    } else {
        first_repeat(values, k + 1, end)
    }
}

/// The contract at `k` scores like the contract at `first`, on the same chain.
pub open spec fn is_alike(view: FeatureView, first: int, k: int) -> bool {
    let contract = view.fallback_atom_contracts@[k] as int;
    let representative = view.fallback_atom_contracts@[first] as int;
    &&& view.contract_chain@[contract] == view.contract_chain@[representative]
    &&& same_payload_features(
        view,
        view.contract_payload@[contract] as int,
        view.contract_payload@[representative] as int,
    )
}

/// What is wrong with an atom.
pub open spec fn atom_fault(view: FeatureView, atom: int) -> Option<Seq<char>> {
    let begin = view.fallback_atom_offsets@[atom] as int;
    let end = view.fallback_atom_offsets@[atom + 1] as int;
    let members = view.fallback_atom_contracts@;
    let repeat = first_repeat(members, begin, end);
    if begin == end {
        Some("fallback atom "@ + text::decimal_text(atom as nat) + " has no contracts"@)
    } else if !columns::row_increases(view.fallback_atom_offsets@, members, atom) {
        Some(
            "fallback atom "@ + text::decimal_text(atom as nat)
                + " contracts not strictly sorted"@,
        )
    } else if repeat is Some {
        Some(
            "contract "@ + text::decimal_text(members[repeat->0] as nat)
                + " belongs to multiple fallback atoms"@,
        )
    } else if exists|k: int| begin < k < end && !(#[trigger] is_alike(view, begin, k)) {
        Some(
            "fallback atom "@ + text::decimal_text(atom as nat)
                + " mixes chain or scoring-feature identity"@,
        )
    } else {
        None
    }
}

/// What is wrong with the first atom from `at` on that has a fault.
pub open spec fn first_atom_fault(view: FeatureView, atom_count: nat, at: int) -> Option<Seq<char>>
    decreases atom_count - at,
{
    if at < 0 || at >= atom_count {
        None
    } else if atom_fault(view, at) is Some {
        atom_fault(view, at)
    } else {
        first_atom_fault(view, atom_count, at + 1)
    }
}

/// The first contract from `at` on that no atom holds.
pub open spec fn first_missing(view: FeatureView, at: int) -> Option<Seq<char>>
    decreases view.contract_count() - at,
{
    if at < 0 || at >= view.contract_count() {
        None
    } else if !view.fallback_atom_contracts@.contains(at as u32) {
        Some(
            "contract "@ + text::decimal_text(at as nat) + " is missing from fallback atoms"@,
        )
    } else {
        first_missing(view, at + 1)
    }
}

/// What is wrong with the atoms, if anything.
pub open spec fn atoms_fault(view: FeatureView, atom_count: nat) -> Option<Seq<char>> {
    if view.fallback_atom_offsets@.len() != atom_count + 1 {
        Some(
            "fallback atom count "@ + text::decimal_text(
                (view.fallback_atom_offsets@.len() - 1) as nat,
            ) + " != blocking atom count "@ + text::decimal_text(atom_count),
        )
    } else if !columns::all_below(view.fallback_atom_contracts@, view.contract_count()) {
        Some("fallback atom references missing contract"@)
    } else if first_atom_fault(view, atom_count, 0) is Some {
        first_atom_fault(view, atom_count, 0)
    } else {
        first_missing(view, 0)
    }
}

/// The flags mark the values among the first `count`.
spec fn marks(seen: Seq<bool>, values: Seq<u32>, count: int) -> bool {
    forall|c: int|
        0 <= c < seen.len() ==> (#[trigger] seen[c] <==> exists|j: int|
            0 <= j < count && #[trigger] values[j] == c)
}

/// Whether two rows of words are equal.
#[verifier::loop_isolation(false)]
fn same_rows(offsets: &Vec<u64>, values: &Vec<u32>, left: usize, right: usize) -> (same: bool)
    requires
        columns::is_row_table(offsets@, values@.len()),
        left + 1 < offsets@.len(),
        right + 1 < offsets@.len(),
    ensures
        same == (columns::row_of(offsets@, values@, left as int) == columns::row_of(
            offsets@,
            values@,
            right as int,
        )),
{
    let rows: usize = offsets.len();
    let count: usize = values.len();
    proof {
        columns::lemma_row_bounds(offsets@, values@.len(), left as int);
        columns::lemma_row_bounds(offsets@, values@.len(), right as int);
    }
    let ghost a = columns::row_of(offsets@, values@, left as int);
    let ghost b = columns::row_of(offsets@, values@, right as int);
    let left_begin: usize = offsets[left] as usize;
    let right_begin: usize = offsets[right] as usize;
    let len: usize = offsets[left + 1] as usize - left_begin;
    if len != offsets[right + 1] as usize - right_begin {
        assert(a.len() != b.len());
        return false;
    }
    let mut i: usize = 0;
    while i < len
        invariant
            i <= len,
            a.len() == len,
            b.len() == len,
            left_begin + len <= values@.len(),
            right_begin + len <= values@.len(),
            a == values@.subrange(left_begin as int, left_begin + len),
            b == values@.subrange(right_begin as int, right_begin + len),
            count == values@.len(),
            forall|k: int| 0 <= k < i ==> #[trigger] a[k] == b[k],
        decreases len - i,
    {
        if values[left_begin + i] != values[right_begin + i] {
            assert(a[i as int] != b[i as int]);
            return false;
        }
        i = i + 1;
    }
    assert(a =~= b);
    true
}

/// Whether two rows of double words are equal.
#[verifier::loop_isolation(false)]
fn same_wide_rows(
    offsets: &Vec<u64>,
    values: &Vec<u64>,
    left: usize,
    right: usize,
) -> (same: bool)
    requires
        columns::is_row_table(offsets@, values@.len()),
        left + 1 < offsets@.len(),
        right + 1 < offsets@.len(),
    ensures
        same == (columns::row_of(offsets@, values@, left as int) == columns::row_of(
            offsets@,
            values@,
            right as int,
        )),
{
    let rows: usize = offsets.len();
    let count: usize = values.len();
    proof {
        columns::lemma_row_bounds(offsets@, values@.len(), left as int);
        columns::lemma_row_bounds(offsets@, values@.len(), right as int);
    }
    let ghost a = columns::row_of(offsets@, values@, left as int);
    let ghost b = columns::row_of(offsets@, values@, right as int);
    let left_begin: usize = offsets[left] as usize;
    let right_begin: usize = offsets[right] as usize;
    let len: usize = offsets[left + 1] as usize - left_begin;
    if len != offsets[right + 1] as usize - right_begin {
        assert(a.len() != b.len());
        return false;
    }
    let mut i: usize = 0;
    while i < len
        invariant
            i <= len,
            a.len() == len,
            b.len() == len,
            left_begin + len <= values@.len(),
            right_begin + len <= values@.len(),
            a == values@.subrange(left_begin as int, left_begin + len),
            b == values@.subrange(right_begin as int, right_begin + len),
            count == values@.len(),
            forall|k: int| 0 <= k < i ==> #[trigger] a[k] == b[k],
        decreases len - i,
    {
        if values[left_begin + i] != values[right_begin + i] {
            assert(a[i as int] != b[i as int]);
            return false;
        }
        i = i + 1;
    }
    assert(a =~= b);
    true
}

/// Whether two payloads score alike against every other.
fn payload_features_equal(
    features: &FeatureView,
    left: u32,
    right: u32,
    Ghost(ready): Ghost<FeatureReady>,
) -> (equal: bool)
    requires
        features.shape_fault(ready) is None,
        left < features.payload_count(),
        right < features.payload_count(),
    ensures
        equal == same_payload_features(*features, left as int, right as int),
{
    let l: usize = left as usize;
    let r: usize = right as usize;
    same_rows(&features.payload_template_offsets, &features.payload_template_terms, l, r)
        && same_rows(&features.payload_template_offsets, &features.payload_template_freqs, l, r)
        && same_rows(&features.payload_content_offsets, &features.payload_content_terms, l, r)
        && same_rows(&features.payload_content_offsets, &features.payload_content_freqs, l, r)
        && features.payload_lengths[l] == features.payload_lengths[r]
        && features.query_denominators[l] == features.query_denominators[r] && same_wide_rows(
        &features.prepared_weight_offsets,
        &features.prepared_weights,
        l,
        r,
    )
}

impl FeatureView {
    /// Checks the fallback atoms; the text says what is wrong first.
    #[verifier::loop_isolation(false)]
    pub(crate) fn check_atoms(&self, atom_count: usize, Ghost(ready): Ghost<FeatureReady>) -> (fault:
        Option<String>)
        requires
            self.has_small_identities(),
            self.fault(ready) is None,
        ensures
            columns::same_fault(fault, atoms_fault(*self, atom_count as nat)),
    {
        let rows: usize = self.fallback_atom_offsets.len();
        if rows - 1 != atom_count {
            return Some(
                "fallback atom count ".to_owned().concat(decimal((rows - 1) as u64).as_str()).concat(
                    " != blocking atom count ",
                ).concat(decimal(atom_count as u64).as_str()),
            );
        }
        let contracts: usize = self.contract_source.len();
        if !check_all_below(&self.fallback_atom_contracts, contracts) {
            return Some("fallback atom references missing contract".to_owned());
        }
        let ghost values = self.fallback_atom_contracts@;
        let ghost offsets = self.fallback_atom_offsets@;
        let ghost count = atom_count as nat;
        let mut seen: Vec<bool> = Vec::new();
        let mut c: usize = 0;
        while c < contracts
            invariant
                c <= contracts,
                seen@.len() == c,
                forall|i: int| 0 <= i < c ==> !(#[trigger] seen@[i]),
            decreases contracts - c,
        {
            seen.push(false);
            c = c + 1;
        }
        let mut atom: usize = 0;
        while atom < atom_count
            invariant
                atom <= atom_count,
                count == atom_count,
                rows == atom_count + 1,
                rows == offsets.len(),
                values == self.fallback_atom_contracts@,
                offsets == self.fallback_atom_offsets@,
                contracts == self.contract_count(),
                self.has_small_identities(),
                self.fault(ready) is None,
                columns::all_below(values, contracts as int),
                seen@.len() == contracts,
                marks(seen@, values, offsets[atom as int] as int),
                first_atom_fault(*self, count, 0) == first_atom_fault(*self, count, atom as int),
            decreases atom_count - atom,
        {
            let fault = self.check_atom(atom, &mut seen, Ghost(ready));
            if fault.is_some() {
                return fault;
            }
            atom = atom + 1;
        }
        let mut contract: usize = 0;
        while contract < contracts
            invariant
                contract <= contracts,
                contracts == self.contract_count(),
                self.has_small_identities(),
                values == self.fallback_atom_contracts@,
                seen@.len() == contracts,
                marks(seen@, values, values.len() as int),
                first_missing(*self, 0) == first_missing(*self, contract as int),
            decreases contracts - contract,
        {
            proof {
                let c = contract as int;
                if seen@[c] {
                    let j = choose|j: int| 0 <= j < values.len() && #[trigger] values[j] == c;
                    assert(values[j] == contract as u32);
                    assert(values.contains(contract as u32));
                } else if values.contains(contract as u32) {
                    let j = values.index_of(contract as u32);
                    assert(values[j] == c);
                }
            }
            if !seen[contract] {
                return Some(
                    "contract ".to_owned().concat(decimal(contract as u64).as_str()).concat(
                        " is missing from fallback atoms",
                    ),
                );
            }
            contract = contract + 1;
        }
        None
    }

    #[verifier::loop_isolation(false)]
    fn check_atom(
        &self,
        atom: usize,
        seen: &mut Vec<bool>,
        Ghost(ready): Ghost<FeatureReady>,
    ) -> (fault: Option<String>)
        requires
            self.has_small_identities(),
            self.fault(ready) is None,
            atom + 1 < self.fallback_atom_offsets@.len(),
            columns::all_below(self.fallback_atom_contracts@, self.contract_count()),
            old(seen)@.len() == self.contract_count(),
            marks(
                old(seen)@,
                self.fallback_atom_contracts@,
                self.fallback_atom_offsets@[atom as int] as int,
            ),
        ensures
            columns::same_fault(fault, atom_fault(*self, atom as int)),
            final(seen)@.len() == old(seen)@.len(),
            fault is None ==> marks(
                final(seen)@,
                self.fallback_atom_contracts@,
                self.fallback_atom_offsets@[atom + 1] as int,
            ),
    {
        let rows: usize = self.fallback_atom_offsets.len();
        let total: usize = self.fallback_atom_contracts.len();
        let ghost values = self.fallback_atom_contracts@;
        proof {
            columns::lemma_row_bounds(
                self.fallback_atom_offsets@,
                self.fallback_atom_contracts@.len(),
                atom as int,
            );
        }
        let begin: usize = self.fallback_atom_offsets[atom] as usize;
        let end: usize = self.fallback_atom_offsets[atom + 1] as usize;
        if begin == end {
            return Some(
                "fallback atom ".to_owned().concat(decimal(atom as u64).as_str()).concat(
                    " has no contracts",
                ),
            );
        }
        if !check_row_increases(&self.fallback_atom_offsets, &self.fallback_atom_contracts, atom) {
            return Some(
                "fallback atom ".to_owned().concat(decimal(atom as u64).as_str()).concat(
                    " contracts not strictly sorted",
                ),
            );
        }
        let mut k: usize = begin;
        while k < end
            invariant
                begin <= k <= end <= values.len(),
                values == self.fallback_atom_contracts@,
                columns::all_below(values, self.contract_count()),
                seen@.len() == self.contract_count(),
                marks(seen@, values, k as int),
                first_repeat(values, begin as int, end as int) == first_repeat(
                    values,
                    k as int,
                    end as int,
                ),
            decreases end - k,
        {
            let contract: u32 = self.fallback_atom_contracts[k];
            assert(values[k as int] < self.contract_count());
            let ghost before = seen@;
            if seen[contract as usize] {
                assert(is_repeat(values, k as int));
                return Some(
                    "contract ".to_owned().concat(decimal(contract as u64).as_str()).concat(
                        " belongs to multiple fallback atoms",
                    ),
                );
            }
            assert(!is_repeat(values, k as int)) by {
                if is_repeat(values, k as int) {
                    let j = choose|j: int| 0 <= j < k && #[trigger] values[j] == values[k as int];
                    assert(values[j] == contract as int);
                    assert(before[contract as int]);
                }
            }
            seen.set(contract as usize, true);
            proof {
                assert forall|c: int| 0 <= c < seen@.len() implies (#[trigger] seen@[c]
                    <==> exists|j: int| 0 <= j < k + 1 && #[trigger] values[j] == c) by {
                    if c == contract {
                        assert(values[k as int] == c);
                    } else {
                        assert(before[c] == seen@[c]);
                        if seen@[c] {
                            let j = choose|j: int| 0 <= j < k && #[trigger] values[j] == c;
                            assert(0 <= j < k + 1 && values[j] == c);
                        }
                    }
                }
            }
            k = k + 1;
        }
        let representative: usize = self.fallback_atom_contracts[begin] as usize;
        assert(values[begin as int] < self.contract_count());
        let mut i: usize = begin + 1;
        while i < end
            invariant
                begin < i <= end <= values.len(),
                values == self.fallback_atom_contracts@,
                self.fault(ready) is None,
                columns::all_below(values, self.contract_count()),
                representative == values[begin as int],
                representative < self.contract_count(),
                forall|j: int| begin < j < i ==> #[trigger] is_alike(*self, begin as int, j),
            decreases end - i,
        {
            let contract: usize = self.fallback_atom_contracts[i] as usize;
            assert(values[i as int] < self.contract_count());
            let left: u32 = self.contract_payload[contract];
            let right: u32 = self.contract_payload[representative];
            assert(self.contract_payload@[contract as int] < self.payload_count());
            assert(self.contract_payload@[representative as int] < self.payload_count());
            if self.contract_chain[contract] != self.contract_chain[representative]
                || !payload_features_equal(self, left, right, Ghost(ready)) {
                assert(!is_alike(*self, begin as int, i as int));
                return Some(
                    "fallback atom ".to_owned().concat(decimal(atom as u64).as_str()).concat(
                        " mixes chain or scoring-feature identity",
                    ),
                );
            }
            assert(is_alike(*self, begin as int, i as int));
            i = i + 1;
        }
        None
    }
}

} // verus!
