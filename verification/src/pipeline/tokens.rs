//! Retained tokens of contracts: which contracts share one.

use crate::columns;
use crate::sorting;
use crate::sorting::sorted_distinct_u32;
use crate::snapshot::features::FeatureView;
use crate::snapshot::metadata::MetadataSnapshot;
use std::collections::HashSet;
use vstd::prelude::*;
use vstd::slice::slice_subrange;

verus! {

broadcast use vstd::std_specs::hash::group_hash_axioms;

/// Most tokens that are looked up in a hash set.
pub const MAX_CATALOG_TOKEN_SET_ENTRIES: usize = 131_072;

/// Tokens that are looked up at a time where memory is short.
pub const BOUNDED_CATALOG_TOKEN_CHUNK_ENTRIES: usize = 16_384;

/// Each contract's tokens increase.
pub open spec fn tokens_sorted(view: FeatureView) -> bool {
    &&& columns::is_row_table(view.contract_token_offsets@, view.contract_tokens@.len())
    &&& view.contract_token_offsets@.len() == view.contract_count() + 1
    &&& forall|contract: int|
        0 <= contract < view.contract_count() ==> #[trigger] columns::row_increases(
            view.contract_token_offsets@,
            view.contract_tokens@,
            contract,
        )
}

/// A consistent snapshot's contracts have increasing tokens.
pub proof fn lemma_snapshot_tokens(snapshot: MetadataSnapshot)
    requires
        snapshot.wf(),
    ensures
        tokens_sorted(snapshot.features),
{
}

/// The tokens of a contract.
pub open spec fn tokens_of(view: FeatureView, contract: int) -> Seq<u32> {
    columns::row_of(view.contract_token_offsets@, view.contract_tokens@, contract)
}

/// Two contracts have a token in common.
pub open spec fn share_token(view: FeatureView, a: int, b: int) -> bool {
    exists|token: u32| #[trigger]
        tokens_of(view, a).contains(token) && tokens_of(view, b).contains(token)
}

/// All values are contracts.
pub open spec fn are_contracts(view: FeatureView, contracts: Seq<u32>) -> bool {
    forall|i: int| 0 <= i < contracts.len() ==> #[trigger] contracts[i] < view.contract_count()
}

/// No contract of the one side shares a token with one of the other.
pub open spec fn are_token_disjoint(view: FeatureView, left: Seq<u32>, right: Seq<u32>) -> bool {
    forall|i: int, j: int|
        0 <= i < left.len() && 0 <= j < right.len() ==> !share_token(
            view,
            #[trigger] left[i] as int,
            #[trigger] right[j] as int,
        )
}

/// The tokens of a contract.
pub fn contract_retained_tokens(features: &FeatureView, contract: u32) -> (tokens: &[u32])
    requires
        tokens_sorted(*features),
        contract < features.contract_count(),
    ensures
        tokens@ == tokens_of(*features, contract as int),
        sorting::strictly_ascending_u32(tokens@),
{
    let rows: usize = features.contract_token_offsets.len();
    let count: usize = features.contract_tokens.len();
    proof {
        columns::lemma_row_bounds(
            features.contract_token_offsets@,
            features.contract_tokens@.len(),
            contract as int,
        );
        assert(columns::row_increases(
            features.contract_token_offsets@,
            features.contract_tokens@,
            contract as int,
        ));
    }
    let begin: usize = features.contract_token_offsets[contract as usize] as usize;
    let end: usize = features.contract_token_offsets[contract as usize + 1] as usize;
    slice_subrange(features.contract_tokens.as_slice(), begin, end)
}

/// Whether two contracts have a token in common.
pub fn contracts_share_retained_token(features: &FeatureView, left: u32, right: u32) -> (share: bool)
    requires
        tokens_sorted(*features),
        left < features.contract_count(),
        right < features.contract_count(),
    ensures
        share == share_token(*features, left as int, right as int),
{
    let a = contract_retained_tokens(features, left);
    let b = contract_retained_tokens(features, right);
    let mut i: usize = 0;
    let mut j: usize = 0;
    while i < a.len() && j < b.len()
        invariant
            i <= a@.len(),
            j <= b@.len(),
            a@ == tokens_of(*features, left as int),
            b@ == tokens_of(*features, right as int),
            sorting::strictly_ascending_u32(a@),
            sorting::strictly_ascending_u32(b@),
            forall|x: int, y: int|
                0 <= x < a@.len() && 0 <= y < b@.len() && (x < i || y < j) ==> #[trigger] a@[x]
                    != #[trigger] b@[y],
        decreases a.len() - i + b.len() - j,
    {
        if a[i] < b[j] {
            i = i + 1;
        } else if a[i] > b[j] {
            j = j + 1;
        } else {
            proof {
                let token = a@[i as int];
                assert(b@[j as int] == token);
                assert(tokens_of(*features, left as int).contains(token));
                assert(tokens_of(*features, right as int).contains(token));
            }
            return true;
        }
    }
    proof {
        if share_token(*features, left as int, right as int) {
            let token = choose|token: u32| #[trigger]
                tokens_of(*features, left as int).contains(token) && tokens_of(
                    *features,
                    right as int,
                ).contains(token);
            let x = a@.index_of(token);
            let y = b@.index_of(token);
            assert(a@[x] == b@[y]);
        }
    }
    false
}

/// Whether an ascending list holds a value.
pub fn sorted_contains(values: &[u32], value: u32) -> (found: bool)
    requires
        sorting::strictly_ascending_u32(values@),
    ensures
        found == values@.contains(value),
{
    let mut low: usize = 0;
    let mut high: usize = values.len();
    while low < high
        invariant
            low <= high <= values@.len(),
            sorting::strictly_ascending_u32(values@),
            forall|k: int| 0 <= k < low ==> #[trigger] values@[k] < value,
            forall|k: int| high <= k < values@.len() ==> #[trigger] values@[k] > value,
        decreases high - low,
    {
        let middle: usize = low + (high - low) / 2;
        if values[middle] == value {
            assert(values@[middle as int] == value);
            return true;
        }
        if values[middle] < value {
            low = middle + 1;
        } else {
            high = middle;
        }
    }
    false
}

/// All contracts have one token in common.
pub open spec fn share_common_token(view: FeatureView, members: Seq<u32>) -> bool {
    members.len() > 0 && exists|token: u32| #[trigger] all_hold(view, members, token)
}

/// All contracts have the token.
pub open spec fn all_hold(view: FeatureView, members: Seq<u32>, token: u32) -> bool {
    forall|i: int|
        0 <= i < members.len() ==> tokens_of(view, #[trigger] members[i] as int).contains(token)
}

/// Whether all members have one token in common: the tokens of a member with the fewest are
/// tried.
pub fn atom_members_share_common_retained_token(features: &FeatureView, members: &[u32]) -> (share:
    bool)
    requires
        tokens_sorted(*features),
        are_contracts(*features, members@),
    ensures
        share == share_common_token(*features, members@),
{
    if members.len() == 0 {
        return false;
    }
    assert(members@[0] < features.contract_count());
    let mut shortest: usize = 0;
    let mut least: usize = contract_retained_tokens(features, members[0]).len();
    let mut i: usize = 1;
    while i < members.len()
        invariant
            1 <= i <= members@.len(),
            shortest < members@.len(),
            tokens_sorted(*features),
            are_contracts(*features, members@),
        decreases members.len() - i,
    {
        assert(members@[i as int] < features.contract_count());
        let count: usize = contract_retained_tokens(features, members[i]).len();
        if count < least {
            least = count;
            shortest = i;
        }
        i = i + 1;
    }
    assert(members@[shortest as int] < features.contract_count());
    let tokens = contract_retained_tokens(features, members[shortest]);
    let mut t: usize = 0;
    while t < tokens.len()
        invariant
            t <= tokens@.len(),
            shortest < members@.len(),
            tokens@ == tokens_of(*features, members@[shortest as int] as int),
            tokens_sorted(*features),
            are_contracts(*features, members@),
            forall|k: int|
                0 <= k < t ==> !all_hold(*features, members@, #[trigger] tokens@[k]),
        decreases tokens.len() - t,
    {
        let token: u32 = tokens[t];
        let mut all: bool = true;
        let mut m: usize = 0;
        while m < members.len() && all
            invariant
                m <= members@.len(),
                tokens_sorted(*features),
                are_contracts(*features, members@),
                all ==> forall|k: int|
                    0 <= k < m ==> tokens_of(*features, #[trigger] members@[k] as int).contains(
                        token,
                    ),
                !all ==> !all_hold(*features, members@, token),
            decreases members.len() - m,
        {
            assert(members@[m as int] < features.contract_count());
            let own = contract_retained_tokens(features, members[m]);
            if !sorted_contains(own, token) {
                assert(!tokens_of(*features, members@[m as int] as int).contains(token));
                all = false;
            }
            m = m + 1;
        }
        if all {
            assert(all_hold(*features, members@, token));
            return true;
        }
        t = t + 1;
    }
    proof {
        if share_common_token(*features, members@) {
            let token = choose|token: u32| #[trigger] all_hold(*features, members@, token);
            assert(tokens_of(*features, members@[shortest as int] as int).contains(token));
            let at = tokens@.index_of(token);
            assert(all_hold(*features, members@, tokens@[at]));
        }
    }
    false
}

/// The tokens of the first `count` contracts, one after the other.
pub open spec fn listed_tokens(view: FeatureView, contracts: Seq<u32>, count: int) -> Seq<u32>
    decreases count,
{
    if count <= 0 {
        Seq::empty()
    } else {
        listed_tokens(view, contracts, count - 1) + tokens_of(
            view,
            contracts[count - 1] as int,
        )
    }
}

proof fn lemma_listed_tokens(view: FeatureView, contracts: Seq<u32>, count: int, token: u32)
    requires
        0 <= count <= contracts.len(),
    ensures
        listed_tokens(view, contracts, count).contains(token) <==> exists|i: int|
            0 <= i < count && tokens_of(view, #[trigger] contracts[i] as int).contains(token),
    decreases count,
{
    if count > 0 {
        lemma_listed_tokens(view, contracts, count - 1, token);
        let before = listed_tokens(view, contracts, count - 1);
        let last = tokens_of(view, contracts[count - 1] as int);
        let all = listed_tokens(view, contracts, count);
        if before.contains(token) {
            let at = before.index_of(token);
            assert(all[at] == token);
            let i = choose|i: int|
                0 <= i < count - 1 && tokens_of(view, #[trigger] contracts[i] as int).contains(
                    token,
                );
            assert(0 <= i < count && tokens_of(view, contracts[i] as int).contains(token));
        }
        if last.contains(token) {
            let at = last.index_of(token);
            assert(all[before.len() + at] == token);
            assert(tokens_of(view, contracts[count - 1] as int).contains(token));
        }
        if all.contains(token) {
            let at = all.index_of(token);
            if at < before.len() {
                assert(before[at] == token);
            } else {
                assert(last[at - before.len()] == token);
            }
        }
    }
}

/// The tokens of the contracts, one after the other.
fn list_tokens(features: &FeatureView, contracts: &[u32]) -> (tokens: Vec<u32>)
    requires
        tokens_sorted(*features),
        are_contracts(*features, contracts@),
    ensures
        tokens@ == listed_tokens(*features, contracts@, contracts@.len() as int),
{
    let mut tokens: Vec<u32> = Vec::new();
    let mut i: usize = 0;
    while i < contracts.len()
        invariant
            i <= contracts@.len(),
            tokens_sorted(*features),
            are_contracts(*features, contracts@),
            tokens@ == listed_tokens(*features, contracts@, i as int),
        decreases contracts.len() - i,
    {
        assert(contracts@[i as int] < features.contract_count());
        let own = contract_retained_tokens(features, contracts[i]);
        tokens.extend_from_slice(own);
        i = i + 1;
    }
    tokens
}

/// A length, at most `usize::MAX`.
spec fn capped_len(len: nat) -> usize {
    if len > usize::MAX {
        usize::MAX
    } else {
        len as usize
    }
}

/// The number of tokens of the contracts, at most `usize::MAX`.
fn token_memberships(features: &FeatureView, contracts: &[u32]) -> (count: usize)
    requires
        tokens_sorted(*features),
        are_contracts(*features, contracts@),
    ensures
        count == capped_len(listed_tokens(*features, contracts@, contracts@.len() as int).len()),
{
    let mut count: usize = 0;
    let mut i: usize = 0;
    while i < contracts.len()
        invariant
            i <= contracts@.len(),
            tokens_sorted(*features),
            are_contracts(*features, contracts@),
            count == capped_len(listed_tokens(*features, contracts@, i as int).len()),
        decreases contracts.len() - i,
    {
        assert(contracts@[i as int] < features.contract_count());
        count = count.saturating_add(contract_retained_tokens(features, contracts[i]).len());
        i = i + 1;
    }
    count
}

/// Some contract has a token of the list.
spec fn hits(view: FeatureView, contracts: Seq<u32>, tokens: Seq<u32>) -> bool {
    exists|i: int|
        0 <= i < contracts.len() && #[trigger] hits_one(view, contracts[i] as int, tokens)
}

/// The contract has a token of the list.
spec fn hits_one(view: FeatureView, contract: int, tokens: Seq<u32>) -> bool {
    exists|token: u32| #[trigger] tokens_of(view, contract).contains(token) && tokens.contains(token)
}

proof fn lemma_hits_disjoint(view: FeatureView, indexed: Seq<u32>, scanned: Seq<u32>)
    ensures
        !hits(view, scanned, listed_tokens(view, indexed, indexed.len() as int))
            <==> are_token_disjoint(view, indexed, scanned),
        are_token_disjoint(view, indexed, scanned) <==> are_token_disjoint(view, scanned, indexed),
{
    let tokens = listed_tokens(view, indexed, indexed.len() as int);
    if hits(view, scanned, tokens) {
        let j = choose|j: int|
            0 <= j < scanned.len() && #[trigger] hits_one(view, scanned[j] as int, tokens);
        let token = choose|token: u32| #[trigger]
            tokens_of(view, scanned[j] as int).contains(token) && tokens.contains(token);
        lemma_listed_tokens(view, indexed, indexed.len() as int, token);
        let i = choose|i: int|
            0 <= i < indexed.len() && tokens_of(view, #[trigger] indexed[i] as int).contains(token);
        assert(share_token(view, indexed[i] as int, scanned[j] as int));
    } else {
        assert forall|i: int, j: int|
            0 <= i < indexed.len() && 0 <= j < scanned.len() implies !share_token(
            view,
            #[trigger] indexed[i] as int,
            #[trigger] scanned[j] as int,
        ) by {
            if share_token(view, indexed[i] as int, scanned[j] as int) {
                let token = choose|token: u32| #[trigger]
                    tokens_of(view, indexed[i] as int).contains(token) && tokens_of(
                        view,
                        scanned[j] as int,
                    ).contains(token);
                lemma_listed_tokens(view, indexed, indexed.len() as int, token);
                assert(tokens.contains(token));
                assert(tokens_of(view, scanned[j] as int).contains(token));
                assert(hits_one(view, scanned[j] as int, tokens));
            }
        }
    }
    assert forall|a: int, b: int| share_token(view, a, b) implies #[trigger] share_token(
        view,
        b,
        a,
    ) by {
        let token = choose|token: u32| #[trigger]
            tokens_of(view, a).contains(token) && tokens_of(view, b).contains(token);
        assert(tokens_of(view, b).contains(token));
    }
    if are_token_disjoint(view, indexed, scanned) {
        assert forall|i: int, j: int|
            0 <= i < scanned.len() && 0 <= j < indexed.len() implies !share_token(
            view,
            #[trigger] scanned[i] as int,
            #[trigger] indexed[j] as int,
        ) by {
            assert(!share_token(view, indexed[j] as int, scanned[i] as int));
        }
    }
    if are_token_disjoint(view, scanned, indexed) {
        assert forall|i: int, j: int|
            0 <= i < indexed.len() && 0 <= j < scanned.len() implies !share_token(
            view,
            #[trigger] indexed[i] as int,
            #[trigger] scanned[j] as int,
        ) by {
            assert(!share_token(view, scanned[j] as int, indexed[i] as int));
        }
    }
}

/// Whether some contract has a token of an ascending list.
fn any_hits_sorted(features: &FeatureView, contracts: &[u32], tokens: &Vec<u32>) -> (hit: bool)
    requires
        tokens_sorted(*features),
        are_contracts(*features, contracts@),
        sorting::strictly_ascending_u32(tokens@),
    ensures
        hit == hits(*features, contracts@, tokens@),
{
    let mut i: usize = 0;
    while i < contracts.len()
        invariant
            i <= contracts@.len(),
            tokens_sorted(*features),
            are_contracts(*features, contracts@),
            sorting::strictly_ascending_u32(tokens@),
            forall|k: int|
                0 <= k < i ==> !(#[trigger] hits_one(*features, contracts@[k] as int, tokens@)),
        decreases contracts.len() - i,
    {
        assert(contracts@[i as int] < features.contract_count());
        let own = contract_retained_tokens(features, contracts[i]);
        let mut t: usize = 0;
        while t < own.len()
            invariant
                t <= own@.len(),
                i < contracts@.len(),
                own@ == tokens_of(*features, contracts@[i as int] as int),
                sorting::strictly_ascending_u32(tokens@),
                forall|k: int| 0 <= k < t ==> !tokens@.contains(#[trigger] own@[k]),
            decreases own.len() - t,
        {
            if sorted_contains(tokens.as_slice(), own[t]) {
                proof {
                    let token = own@[t as int];
                    assert(tokens_of(*features, contracts@[i as int] as int).contains(token));
                    assert(hits_one(*features, contracts@[i as int] as int, tokens@));
                }
                return true;
            }
            t = t + 1;
        }
        proof {
            if hits_one(*features, contracts@[i as int] as int, tokens@) {
                let token = choose|token: u32| #[trigger]
                    tokens_of(*features, contracts@[i as int] as int).contains(token)
                        && tokens@.contains(token);
                let at = own@.index_of(token);
                assert(!tokens@.contains(own@[at]));
            }
        }
        i = i + 1;
    }
    false
}

/// Whether some contract has a token of a set.
fn any_hits_set(
    features: &FeatureView,
    contracts: &[u32],
    tokens: &HashSet<u32>,
    Ghost(listed): Ghost<Seq<u32>>,
) -> (hit: bool)
    requires
        tokens_sorted(*features),
        are_contracts(*features, contracts@),
        forall|token: u32| tokens@.contains(token) <==> listed.contains(token),
    ensures
        hit == hits(*features, contracts@, listed),
{
    let mut i: usize = 0;
    while i < contracts.len()
        invariant
            i <= contracts@.len(),
            tokens_sorted(*features),
            are_contracts(*features, contracts@),
            forall|token: u32| tokens@.contains(token) <==> listed.contains(token),
            forall|k: int|
                0 <= k < i ==> !(#[trigger] hits_one(*features, contracts@[k] as int, listed)),
        decreases contracts.len() - i,
    {
        assert(contracts@[i as int] < features.contract_count());
        let own = contract_retained_tokens(features, contracts[i]);
        let mut t: usize = 0;
        while t < own.len()
            invariant
                t <= own@.len(),
                i < contracts@.len(),
                own@ == tokens_of(*features, contracts@[i as int] as int),
                forall|token: u32| tokens@.contains(token) <==> listed.contains(token),
                forall|k: int| 0 <= k < t ==> !listed.contains(#[trigger] own@[k]),
            decreases own.len() - t,
        {
            if tokens.contains(&own[t]) {
                proof {
                    let token = own@[t as int];
                    assert(tokens_of(*features, contracts@[i as int] as int).contains(token));
                    assert(hits_one(*features, contracts@[i as int] as int, listed));
                }
                return true;
            }
            t = t + 1;
        }
        proof {
            if hits_one(*features, contracts@[i as int] as int, listed) {
                let token = choose|token: u32| #[trigger]
                    tokens_of(*features, contracts@[i as int] as int).contains(token)
                        && listed.contains(token);
                let at = own@.index_of(token);
                assert(!listed.contains(own@[at]));
            }
        }
        i = i + 1;
    }
    false
}

/// Whether no contract of the one side shares a token with one of the other. The tokens of
/// the side that has fewer are looked up, in a hash set while they are not too many.
pub fn retained_tokens_disjoint(features: &FeatureView, left: &[u32], right: &[u32]) -> (disjoint:
    bool)
    requires
        tokens_sorted(*features),
        are_contracts(*features, left@),
        are_contracts(*features, right@),
    ensures
        disjoint == are_token_disjoint(*features, left@, right@),
{
    let left_count: usize = token_memberships(features, left);
    let right_count: usize = token_memberships(features, right);
    let (indexed, scanned, count): (&[u32], &[u32], usize) = if left_count <= right_count {
        (left, right, left_count)
    } else {
        (right, left, right_count)
    };
    let tokens = list_tokens(features, indexed);
    proof {
        lemma_hits_disjoint(*features, indexed@, scanned@);
    }
    if count <= MAX_CATALOG_TOKEN_SET_ENTRIES {
        let mut set: HashSet<u32> = HashSet::new();
        let mut t: usize = 0;
        while t < tokens.len()
            invariant
                t <= tokens@.len(),
                forall|token: u32|
                    set@.contains(token) <==> tokens@.take(t as int).contains(token),
            decreases tokens.len() - t,
        {
            let ghost before = set@;
            set.insert(tokens[t]);
            proof {
                let some = tokens@.take(t as int);
                let more = tokens@.take(t + 1);
                assert(more =~= some.push(tokens@[t as int]));
                assert forall|token: u32| set@.contains(token) <==> more.contains(token) by {
                    if some.contains(token) {
                        let at = some.index_of(token);
                        assert(more[at] == token);
                    }
                    if token == tokens@[t as int] {
                        assert(more[t as int] == token);
                    }
                    if more.contains(token) {
                        let at = more.index_of(token);
                        if at < t {
                            assert(some[at] == token);
                        }
                    }
                }
            }
            t = t + 1;
        }
        assert(tokens@.take(t as int) =~= tokens@);
        return !any_hits_set(features, scanned, &set, Ghost(tokens@));
    }
    let ordered = sorted_distinct_u32(&tokens);
    proof {
        lemma_hits_same(*features, scanned@, ordered@, tokens@);
    }
    !any_hits_sorted(features, scanned, &ordered)
}

proof fn lemma_hits_same(view: FeatureView, contracts: Seq<u32>, a: Seq<u32>, b: Seq<u32>)
    requires
        forall|token: u32| a.contains(token) <==> b.contains(token),
    ensures
        hits(view, contracts, a) == hits(view, contracts, b),
{
    assert forall|contract: int| #[trigger] hits_one(view, contract, a) <==> hits_one(
        view,
        contract,
        b,
    ) by {
        if hits_one(view, contract, a) {
            let token = choose|token: u32| #[trigger]
                tokens_of(view, contract).contains(token) && a.contains(token);
            assert(tokens_of(view, contract).contains(token) && b.contains(token));
        }
        if hits_one(view, contract, b) {
            let token = choose|token: u32| #[trigger]
                tokens_of(view, contract).contains(token) && b.contains(token);
            assert(tokens_of(view, contract).contains(token) && a.contains(token));
        }
    }
    if hits(view, contracts, a) {
        let i = choose|i: int|
            0 <= i < contracts.len() && #[trigger] hits_one(view, contracts[i] as int, a);
        assert(hits_one(view, contracts[i] as int, b));
    }
    if hits(view, contracts, b) {
        let i = choose|i: int|
            0 <= i < contracts.len() && #[trigger] hits_one(view, contracts[i] as int, b);
        assert(hits_one(view, contracts[i] as int, a));
    }
}

/// As [`retained_tokens_disjoint`], looking up a bounded number of tokens at a time.
pub fn retained_tokens_disjoint_bounded(
    features: &FeatureView,
    left: &[u32],
    right: &[u32],
) -> (disjoint: bool)
    requires
        tokens_sorted(*features),
        are_contracts(*features, left@),
        are_contracts(*features, right@),
    ensures
        disjoint == are_token_disjoint(*features, left@, right@),
{
    let left_count: usize = token_memberships(features, left);
    let right_count: usize = token_memberships(features, right);
    let (indexed, scanned): (&[u32], &[u32]) = if left_count <= right_count {
        (left, right)
    } else {
        (right, left)
    };
    let ghost all = listed_tokens(*features, indexed@, indexed@.len() as int);
    proof {
        lemma_hits_disjoint(*features, indexed@, scanned@);
    }
    let mut chunk: Vec<u32> = Vec::new();
    let ghost mut begin: int = 0;
    let mut i: usize = 0;
    proof {
        assert(all.take(0) =~= Seq::<u32>::empty());
        assert(!hits(*features, scanned@, all.take(0)));
        assert(chunk@ =~= all.subrange(0, 0));
    }
    while i < indexed.len()
        invariant
            i <= indexed@.len(),
            tokens_sorted(*features),
            are_contracts(*features, indexed@),
            are_contracts(*features, scanned@),
            all == listed_tokens(*features, indexed@, indexed@.len() as int),
            ({
                let done = listed_tokens(*features, indexed@, i as int);
                0 <= begin <= done.len() && done.len() <= all.len() && done == all.take(
                    done.len() as int,
                ) && chunk@ == done.subrange(begin, done.len() as int)
            }),
            !hits(*features, scanned@, all.take(begin)),
            are_token_disjoint(*features, left@, right@) <==> !hits(*features, scanned@, all),
        decreases indexed.len() - i,
    {
        assert(indexed@[i as int] < features.contract_count());
        let own = contract_retained_tokens(features, indexed[i]);
        let ghost done = listed_tokens(*features, indexed@, i as int);
        proof {
            lemma_listed_prefix(*features, indexed@, i + 1, indexed@.len() as int);
        }
        let mut t: usize = 0;
        assert(done + own@.take(0) =~= done);
        while t < own.len()
            invariant
                t <= own@.len(),
                tokens_sorted(*features),
                are_contracts(*features, scanned@),
                done.len() + own@.len() <= all.len(),
                done + own@ == all.take((done.len() + own@.len()) as int),
                0 <= begin <= done.len() + t,
                chunk@ == (done + own@.take(t as int)).subrange(begin, done.len() + t),
                !hits(*features, scanned@, all.take(begin)),
                are_token_disjoint(*features, left@, right@) <==> !hits(*features, scanned@, all),
            decreases own.len() - t,
        {
            chunk.push(own[t]);
            proof {
                assert(chunk@ =~= (done + own@.take(t + 1)).subrange(begin, done.len() + t + 1));
                assert(done + own@.take(t + 1) =~= all.take(done.len() + t + 1));
            }
            t = t + 1;
            if chunk.len() >= BOUNDED_CATALOG_TOKEN_CHUNK_ENTRIES {
                let ghost end = (done.len() + t) as int;
                let ordered = sorted_distinct_u32(&chunk);
                proof {
                    lemma_hits_same(*features, scanned@, ordered@, chunk@);
                    assert(chunk@ =~= all.subrange(begin, end));
                }
                if any_hits_sorted(features, scanned, &ordered) {
                    proof {
                        lemma_hits_part(*features, scanned@, all, begin, end);
                    }
                    return false;
                }
                chunk.clear();
                proof {
                    lemma_hits_split(*features, scanned@, all, begin, end);
                    begin = end;
                    assert(chunk@ =~= (done + own@.take(t as int)).subrange(
                        begin,
                        done.len() + t,
                    ));
                }
            }
        }
        proof {
            assert(own@.take(t as int) =~= own@);
            assert(listed_tokens(*features, indexed@, i + 1) =~= done + own@);
        }
        i = i + 1;
    }
    let ordered = sorted_distinct_u32(&chunk);
    proof {
        let end = all.len() as int;
        lemma_hits_same(*features, scanned@, ordered@, chunk@);
        assert(chunk@ =~= all.subrange(begin, end));
        assert(all.take(end) =~= all);
        if hits(*features, scanned@, chunk@) {
            lemma_hits_part(*features, scanned@, all, begin, end);
        } else {
            lemma_hits_split(*features, scanned@, all, begin, end);
        }
    }
    !any_hits_sorted(features, scanned, &ordered)
}

proof fn lemma_listed_prefix(view: FeatureView, contracts: Seq<u32>, count: int, end: int)
    requires
        0 <= count <= end <= contracts.len(),
    ensures
        listed_tokens(view, contracts, count).len() <= listed_tokens(view, contracts, end).len(),
        listed_tokens(view, contracts, count) == listed_tokens(view, contracts, end).take(
            listed_tokens(view, contracts, count).len() as int,
        ),
    decreases end - count,
{
    let some = listed_tokens(view, contracts, count);
    if count < end {
        lemma_listed_prefix(view, contracts, count, end - 1);
        let middle = listed_tokens(view, contracts, end - 1);
        assert(listed_tokens(view, contracts, end).take(some.len() as int) =~= middle.take(
            some.len() as int,
        ));
    } else {
        assert(some.take(some.len() as int) =~= some);
    }
}

proof fn lemma_hits_split(view: FeatureView, contracts: Seq<u32>, all: Seq<u32>, begin: int, end: int)
    requires
        0 <= begin <= end <= all.len(),
        !hits(view, contracts, all.take(begin)),
        !hits(view, contracts, all.subrange(begin, end)),
    ensures
        !hits(view, contracts, all.take(end)),
{
    if hits(view, contracts, all.take(end)) {
        let i = choose|i: int|
            0 <= i < contracts.len() && #[trigger] hits_one(
                view,
                contracts[i] as int,
                all.take(end),
            );
        let token = choose|token: u32| #[trigger]
            tokens_of(view, contracts[i] as int).contains(token) && all.take(end).contains(token);
        let at = all.take(end).index_of(token);
        if at < begin {
            assert(all.take(begin)[at] == token);
            assert(tokens_of(view, contracts[i] as int).contains(token));
            assert(hits_one(view, contracts[i] as int, all.take(begin)));
        } else {
            assert(all.subrange(begin, end)[at - begin] == token);
            assert(tokens_of(view, contracts[i] as int).contains(token));
            assert(hits_one(view, contracts[i] as int, all.subrange(begin, end)));
        }
    }
}

proof fn lemma_hits_part(view: FeatureView, contracts: Seq<u32>, all: Seq<u32>, begin: int, end: int)
    requires
        0 <= begin <= end <= all.len(),
        hits(view, contracts, all.subrange(begin, end)),
    ensures
        hits(view, contracts, all),
{
    let part = all.subrange(begin, end);
    let i = choose|i: int|
        0 <= i < contracts.len() && #[trigger] hits_one(view, contracts[i] as int, part);
    let token = choose|token: u32| #[trigger]
        tokens_of(view, contracts[i] as int).contains(token) && part.contains(token);
    let at = part.index_of(token);
    assert(all[begin + at] == token);
    assert(tokens_of(view, contracts[i] as int).contains(token));
    assert(hits_one(view, contracts[i] as int, all));
}

} // verus!
