//! Ordering of records through 128-bit sort keys.
//!
//! Every record that this crate orders packs into one unsigned 128-bit key
//! whose numeric order is the record's order.

use rayon::slice::ParallelSliceMut;
use vstd::prelude::*;
use vstd::seq_lib::*;

verus! {

/// Key count from which a parallel sort is preferred.
pub const PARALLEL_SORT_MIN: usize = 16_384;

/// Each key is at most every later key.
pub open spec fn ascending(keys: Seq<u128>) -> bool {
    forall|i: int, j: int| 0 <= i <= j < keys.len() ==> keys[i] <= keys[j]
}

/// Each key is below every later key, so no key occurs twice.
pub open spec fn strictly_ascending(keys: Seq<u128>) -> bool {
    forall|i: int, j: int| 0 <= i < j < keys.len() ==> keys[i] < keys[j]
}

/// Each value is below every later value, so no value occurs twice.
pub open spec fn strictly_ascending_u32(values: Seq<u32>) -> bool {
    forall|i: int, j: int| 0 <= i < j < values.len() ==> values[i] < values[j]
}

/// Calls `slice::sort_unstable` of std on unsigned integers: the keys come out in
/// ascending order, and are the keys that went in, each as often.
#[verifier::external_body]
fn sort_keys(keys: &mut Vec<u128>)
    ensures
        ascending(final(keys)@),
        final(keys)@.to_multiset() == old(keys)@.to_multiset(),
{
    keys.sort_unstable();
}

/// Calls `ParallelSliceMut::par_sort_unstable` of rayon on unsigned integers: the
/// keys come out in ascending order, and are the keys that went in, each as often.
#[verifier::external_body]
fn par_sort_keys(keys: &mut Vec<u128>)
    ensures
        ascending(final(keys)@),
        final(keys)@.to_multiset() == old(keys)@.to_multiset(),
{
    keys.par_sort_unstable();
}

/// The keys in ascending order. With `parallel`, inputs of at least
/// [`PARALLEL_SORT_MIN`] keys are sorted on the thread pool.
pub fn sorted(keys: Vec<u128>, parallel: bool) -> (result: Vec<u128>)
    ensures
        ascending(result@),
        result@.to_multiset() == keys@.to_multiset(),
        result@.len() == keys@.len(),
        forall|key: u128| result@.contains(key) <==> keys@.contains(key),
{
    let mut out = keys;
    if parallel && out.len() >= PARALLEL_SORT_MIN {
        par_sort_keys(&mut out);
    } else {
        sort_keys(&mut out);
    }
    proof {
        to_multiset_len(keys@);
        to_multiset_len(out@);
        assert forall|key: u128| out@.contains(key) <==> keys@.contains(key) by {
            to_multiset_contains(keys@, key);
            to_multiset_contains(out@, key);
        }
    }
    out
}

/// The distinct keys in ascending order.
pub fn sorted_distinct(keys: Vec<u128>, parallel: bool) -> (result: Vec<u128>)
    ensures
        strictly_ascending(result@),
        forall|key: u128| result@.contains(key) <==> keys@.contains(key),
        result@.len() <= keys@.len(),
{
    let ordered = sorted(keys, parallel);
    let mut out: Vec<u128> = Vec::new();
    let mut i: usize = 0;
    while i < ordered.len()
        invariant
            i <= ordered@.len(),
            ascending(ordered@),
            strictly_ascending(out@),
            out@.len() <= i,
            i > 0 ==> out@.len() > 0 && out@.last() == ordered@[i - 1],
            forall|k: int| 0 <= k < out@.len() ==> ordered@.contains(#[trigger] out@[k]),
            forall|k: int| 0 <= k < i ==> out@.contains(#[trigger] ordered@[k]),
        decreases ordered.len() - i,
    {
        let key: u128 = ordered[i];
        let ghost before = out@;
        if i == 0 || ordered[i - 1] != key {
            out.push(key);
            proof {
                assert(out@.last() == key);
                assert forall|k: int| 0 <= k < i + 1 implies out@.contains(
                    #[trigger] ordered@[k],
                ) by {
                    if k < i {
                        let at = before.index_of(ordered@[k]);
                        assert(out@[at] == ordered@[k]);
                    } else {
                        assert(out@[before.len() as int] == key);
                    }
                }
            }
        } else {
            assert(out@[out@.len() - 1] == key);
        }
        i = i + 1;
    }
    proof {
        assert forall|key: u128| out@.contains(key) <==> keys@.contains(key) by {
            assert(ordered@.contains(key) <==> keys@.contains(key));
            if out@.contains(key) {
                let at = out@.index_of(key);
                assert(ordered@.contains(out@[at]));
            }
            if ordered@.contains(key) {
                let at = ordered@.index_of(key);
                assert(out@.contains(ordered@[at]));
            }
        }
    }
    out
}

/// The distinct values in ascending order.
pub fn sorted_distinct_u32(values: &Vec<u32>) -> (result: Vec<u32>)
    ensures
        strictly_ascending_u32(result@),
        forall|value: u32| result@.contains(value) <==> values@.contains(value),
        result@.len() <= values@.len(),
{
    let mut keys: Vec<u128> = Vec::new();
    let mut i: usize = 0;
    while i < values.len()
        invariant
            i <= values@.len(),
            keys@.len() == i,
            forall|k: int| 0 <= k < i ==> keys@[k] == values@[k] as u128,
        decreases values.len() - i,
    {
        keys.push(values[i] as u128);
        i = i + 1;
    }
    let ordered = sorted_distinct(keys, false);
    let mut out: Vec<u32> = Vec::new();
    let mut j: usize = 0;
    while j < ordered.len()
        invariant
            j <= ordered@.len(),
            out@.len() == j,
            forall|k: int| 0 <= k < j ==> out@[k] == #[trigger] ordered@[k],
            forall|key: u128| ordered@.contains(key) <==> keys@.contains(key),
            keys@.len() == values@.len(),
            forall|k: int| 0 <= k < keys@.len() ==> keys@[k] == values@[k] as u128,
        decreases ordered.len() - j,
    {
        proof {
            assert(ordered@.contains(ordered@[j as int]));
            let at = keys@.index_of(ordered@[j as int]);
            assert(keys@[at] == values@[at] as u128);
        }
        out.push(ordered[j] as u32);
        j = j + 1;
    }
    proof {
        assert forall|value: u32| out@.contains(value) <==> values@.contains(value) by {
            if out@.contains(value) {
                let at = out@.index_of(value);
                assert(ordered@.contains(ordered@[at]));
                let from = keys@.index_of(ordered@[at]);
                assert(values@[from] == value);
            }
            if values@.contains(value) {
                let at = values@.index_of(value);
                assert(keys@[at] == value as u128);
                assert(ordered@.contains(value as u128));
                let to = ordered@.index_of(value as u128);
                assert(out@[to] == value);
            }
        }
        assert forall|a: int, b: int| 0 <= a < b < out@.len() implies out@[a] < out@[b] by {
            assert(ordered@[a] < ordered@[b]);
        }
    }
    out
}

/// Two strictly ascending sequences with the same keys are equal.
pub proof fn lemma_strictly_ascending_unique(left: Seq<u128>, right: Seq<u128>)
    requires
        strictly_ascending(left),
        strictly_ascending(right),
        forall|key: u128| left.contains(key) <==> right.contains(key),
    ensures
        left == right,
    decreases left.len(),
{
    if left.len() == 0 {
        if right.len() > 0 {
            assert(right.contains(right[0]));
            assert(left.contains(right[0]));
        }
        assert(left =~= right);
    } else {
        assert(left.contains(left.last()));
        assert(right.contains(left.last()));
        let at = right.index_of(left.last());
        assert(right.contains(right.last()));
        let back = left.index_of(right.last());
        assert(left[back] == right.last());
        assert(right[at] <= right.last());
        assert(left[back] <= left.last());
        assert(left.last() == right.last());
        let left_rest = left.drop_last();
        let right_rest = right.drop_last();
        assert forall|key: u128| left_rest.contains(key) <==> right_rest.contains(key) by {
            if left_rest.contains(key) {
                let i = left_rest.index_of(key);
                assert(left[i] == key);
                assert(left.contains(key));
                let j = right.index_of(key);
                assert(left[i] < left.last());
                assert(right_rest[j] == key);
            }
            if right_rest.contains(key) {
                let i = right_rest.index_of(key);
                assert(right[i] == key);
                assert(right.contains(key));
                let j = left.index_of(key);
                assert(right[i] < right.last());
                assert(left_rest[j] == key);
            }
        }
        lemma_strictly_ascending_unique(left_rest, right_rest);
        assert(left =~= left_rest.push(left.last()));
        assert(right =~= right_rest.push(right.last()));
    }
}

} // verus!
