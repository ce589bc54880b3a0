//! Pairs of chains in a fixed order.

use vstd::prelude::*;

verus! {

/// The pairs whose lesser chain is `left`.
pub open spec fn pairs_of(left: int, chain_count: int) -> Seq<(u32, u32)> {
    Seq::new((chain_count - left - 1) as nat, |k: int| (left as u32, (left + 1 + k) as u32))
}

/// The pairs whose lesser chain is below `left`, by the lesser and then the greater chain.
pub open spec fn pairs_below(left: int, chain_count: int) -> Seq<(u32, u32)>
    decreases left,
{
    if left <= 0 {
        Seq::empty()
    } else {
        pairs_below(left - 1, chain_count) + pairs_of(left - 1, chain_count)
    }
}

/// All pairs of different chains.
pub open spec fn all_pairs(chain_count: int) -> Seq<(u32, u32)> {
    pairs_below(chain_count, chain_count)
}

/// The position of a pair among all pairs.
pub open spec fn pair_position(left: int, right: int, chain_count: int) -> int {
    pairs_below(left, chain_count).len() + (right - left - 1)
}

/// The lesser of two chains.
pub open spec fn lesser(left: int, right: int) -> int {
    if left < right {
        left
    } else {
        right
    }
}

/// The greater of two chains.
pub open spec fn greater(left: int, right: int) -> int {
    if left < right {
        right
    } else {
        left
    }
}

/// Twice the number of pairs whose lesser chain is below `left`.
pub proof fn lemma_pairs_below_len(left: int, chain_count: int)
    requires
        0 <= left <= chain_count,
    ensures
        2 * pairs_below(left, chain_count).len() == left * (2 * chain_count - left - 1),
    decreases left,
{
    if left > 0 {
        lemma_pairs_below_len(left - 1, chain_count);
        assert(left * (2 * chain_count - left - 1) == (left - 1) * (2 * chain_count - (left - 1)
            - 1) + 2 * (chain_count - left)) by (nonlinear_arith);
    } else {
        assert(left * (2 * chain_count - left - 1) == 0) by (nonlinear_arith)
            requires
                left == 0,
        ;
    }
}

proof fn lemma_pairs_below_prefix(left: int, more: int, chain_count: int)
    requires
        0 <= left <= more <= chain_count,
    ensures
        pairs_below(left, chain_count).len() <= pairs_below(more, chain_count).len(),
        pairs_below(left, chain_count) == pairs_below(more, chain_count).take(
            pairs_below(left, chain_count).len() as int,
        ),
    decreases more - left,
{
    let small = pairs_below(left, chain_count);
    if left < more {
        lemma_pairs_below_prefix(left, more - 1, chain_count);
        let middle = pairs_below(more - 1, chain_count);
        assert(pairs_below(more, chain_count).take(small.len() as int) =~= middle.take(
            small.len() as int,
        ));
    } else {
        assert(small.take(small.len() as int) =~= small);
    }
}

/// Every pair of different chains stands at its position.
pub proof fn lemma_pair_position(left: int, right: int, chain_count: int)
    requires
        0 <= left < right < chain_count,
    ensures
        0 <= pair_position(left, right, chain_count) < all_pairs(chain_count).len(),
        all_pairs(chain_count)[pair_position(left, right, chain_count)] == (
            left as u32,
            right as u32,
        ),
{
    let before = pairs_below(left, chain_count);
    let upto = pairs_below(left + 1, chain_count);
    let at = pair_position(left, right, chain_count);
    lemma_pairs_below_prefix(left + 1, chain_count, chain_count);
    assert(upto == before + pairs_of(left, chain_count));
    assert(upto[at] == pairs_of(left, chain_count)[right - left - 1]);
    assert(all_pairs(chain_count).take(upto.len() as int)[at] == all_pairs(chain_count)[at]);
}

/// The pair count of `chain_count` chains.
pub proof fn lemma_all_pairs_len(chain_count: int)
    requires
        0 <= chain_count,
    ensures
        2 * all_pairs(chain_count).len() == chain_count * (chain_count - 1),
{
    lemma_pairs_below_len(chain_count, chain_count);
    assert(2 * chain_count - chain_count - 1 == chain_count - 1);
}

/// The chains of every pair are different and known, the lesser first.
pub proof fn lemma_pairs_ordered(left: int, chain_count: int, k: int)
    requires
        0 <= left <= chain_count <= u32::MAX,
        0 <= k < pairs_below(left, chain_count).len(),
    ensures
        pairs_below(left, chain_count)[k].0 < pairs_below(left, chain_count)[k].1 < chain_count,
        pair_position(
            pairs_below(left, chain_count)[k].0 as int,
            pairs_below(left, chain_count)[k].1 as int,
            chain_count,
        ) == k,
    decreases left,
{
    let before = pairs_below(left - 1, chain_count);
    if k < before.len() {
        lemma_pairs_ordered(left - 1, chain_count, k);
    } else {
        assert(pairs_below(left, chain_count)[k] == pairs_of(left - 1, chain_count)[k
            - before.len()]);
    }
}

/// The position of a pair of chains among all pairs.
pub fn chain_pair_index(left: usize, right: usize, chain_count: usize) -> (index: usize)
    requires
        left < chain_count,
        right < chain_count,
        left != right,
        chain_count * (chain_count - 1) <= usize::MAX,
    ensures
        index == pair_position(
            lesser(left as int, right as int),
            greater(left as int, right as int),
            chain_count as int,
        ),
        index < all_pairs(chain_count as int).len(),
{
    let low: usize = if left < right {
        left
    } else {
        right
    };
    let high: usize = if left < right {
        right
    } else {
        left
    };
    proof {
        let c = chain_count as int;
        let l = low as int;
        lemma_pairs_below_len(l, c);
        lemma_pair_position(l, high as int, c);
        lemma_all_pairs_len(c);
        assert(l * (2 * c - l - 1) <= c * (c - 1)) by (nonlinear_arith)
            requires
                0 <= l < c,
        ;
        assert(2 * c <= c * (c - 1) || c <= 2) by (nonlinear_arith)
            requires
                c >= 2,
        ;
        assert(l * (2 * c - l - 1) >= 0) by (nonlinear_arith)
            requires
                0 <= l < c,
        ;
    }
    low * (2 * chain_count - low - 1) / 2 + (high - low - 1)
}

/// All pairs of chains, by the lesser and then the greater chain.
pub fn chain_pairs(chain_count: usize) -> (pairs: Vec<(u32, u32)>)
    requires
        chain_count <= u32::MAX,
    ensures
        pairs@ == all_pairs(chain_count as int),
{
    let mut pairs: Vec<(u32, u32)> = Vec::new();
    let ghost c = chain_count as int;
    let mut left: usize = 0;
    while left < chain_count
        invariant
            left <= chain_count <= u32::MAX,
            c == chain_count,
            pairs@ == pairs_below(left as int, c),
        decreases chain_count - left,
    {
        let ghost before = pairs@;
        let mut right: usize = left + 1;
        assert(before + pairs_of(left as int, c).take(0) =~= before);
        while right < chain_count
            invariant
                left < right <= chain_count <= u32::MAX,
                c == chain_count,
                pairs@ == before + pairs_of(left as int, c).take(right - left - 1),
            decreases chain_count - right,
        {
            pairs.push((left as u32, right as u32));
            assert(pairs_of(left as int, c).take(right - left) =~= pairs_of(left as int, c).take(
                right - left - 1,
            ).push((left as u32, right as u32)));
            right = right + 1;
        }
        assert(pairs_of(left as int, c).take(c - left - 1) =~= pairs_of(left as int, c));
        left = left + 1;
    }
    pairs
}

/// The sum of the sizes from `at` on.
pub open spec fn size_sum(sizes: Seq<nat>, at: int) -> nat
    decreases sizes.len() - at,
{
    if at < 0 || at >= sizes.len() {
        0
    } else {
        sizes[at] + size_sum(sizes, at + 1)
    }
}

/// The sizes of the pairs from position `at` on, each the sum of its two chains' sizes.
pub open spec fn pair_size_sum(sizes: Seq<nat>, pairs: Seq<(u32, u32)>) -> nat
    decreases pairs.len(),
{
    if pairs.len() == 0 {
        0
    } else {
        pair_size_sum(sizes, pairs.drop_last()) + sizes[pairs.last().0 as int]
            + sizes[pairs.last().1 as int]
    }
}

proof fn lemma_pair_size_sum_add(sizes: Seq<nat>, a: Seq<(u32, u32)>, b: Seq<(u32, u32)>)
    ensures
        pair_size_sum(sizes, a + b) == pair_size_sum(sizes, a) + pair_size_sum(sizes, b),
    decreases b.len(),
{
    if b.len() == 0 {
        assert(a + b =~= a);
    } else {
        assert((a + b).drop_last() =~= a + b.drop_last());
        assert((a + b).last() == b.last());
        lemma_pair_size_sum_add(sizes, a, b.drop_last());
    }
}

proof fn lemma_row_size_sum(sizes: Seq<nat>, left: int, count: int)
    requires
        0 <= left < sizes.len() <= u32::MAX,
        0 <= count <= sizes.len() - left - 1,
    ensures
        pair_size_sum(sizes, pairs_of(left, sizes.len() as int).take(count)) == count * sizes[left]
            + size_sum(sizes, left + 1) - size_sum(sizes, left + 1 + count),
    decreases count,
{
    let row = pairs_of(left, sizes.len() as int);
    if count == 0 {
        assert(row.take(0) =~= Seq::<(u32, u32)>::empty());
        assert(count * sizes[left] == 0) by (nonlinear_arith)
            requires
                count == 0,
        ;
    } else {
        lemma_row_size_sum(sizes, left, count - 1);
        assert(row.take(count).drop_last() =~= row.take(count - 1));
        assert(row.take(count).last() == row[count - 1]);
        assert(size_sum(sizes, left + count) == sizes[left + count] + size_sum(
            sizes,
            left + 1 + count,
        ));
        assert(count * sizes[left] == (count - 1) * sizes[left] + sizes[left]) by (nonlinear_arith);
    }
}

proof fn lemma_pair_sizes_below(sizes: Seq<nat>, left: int)
    requires
        0 <= left <= sizes.len() <= u32::MAX,
    ensures
        pair_size_sum(sizes, pairs_below(left, sizes.len() as int)) == (sizes.len() - 1)
            * size_sum(sizes, 0) - (sizes.len() - left - 1) * size_sum(sizes, left),
    decreases left,
{
    let c = sizes.len() as int;
    if left == 0 {
    } else {
        let l = left - 1;
        lemma_pair_sizes_below(sizes, l);
        lemma_pair_size_sum_add(sizes, pairs_below(l, c), pairs_of(l, c));
        lemma_row_size_sum(sizes, l, c - l - 1);
        assert(pairs_of(l, c).take(c - l - 1) =~= pairs_of(l, c));
        let m = sizes[l] as int;
        let s = size_sum(sizes, left) as int;
        assert(size_sum(sizes, l) == m + s);
        assert(size_sum(sizes, c) == 0);
        assert((c - l - 1) * (m + s) == (c - l - 1) * m + s + (c - left - 1) * s)
            by (nonlinear_arith)
            requires
                left == l + 1,
        ;
    }
}

/// Over all pairs, each chain's size counts once for every other chain.
pub proof fn lemma_pair_sizes_total(sizes: Seq<nat>)
    requires
        sizes.len() <= u32::MAX,
    ensures
        pair_size_sum(sizes, all_pairs(sizes.len() as int)) == (sizes.len() - 1) * size_sum(
            sizes,
            0,
        ) || sizes.len() == 0,
{
    let c = sizes.len() as int;
    lemma_pair_sizes_below(sizes, c);
    assert(size_sum(sizes, c) == 0);
    assert((c - c - 1) * 0 == 0);
}

/// The pairs of chains are listed by the lesser and then the greater chain: each two chains once,
/// at the place that the number of pairs before it gives.
pub proof fn lemma_pairs_are_listed(chain_count: int, a: int, b: int, k: int)
    requires
        0 <= chain_count <= u32::MAX,
    ensures
        2 * all_pairs(chain_count).len() == chain_count * (chain_count - 1),
        0 <= a < b < chain_count ==> {
            let at = pair_position(a, b, chain_count);
            &&& 2 * at == a * (2 * chain_count - a - 1) + 2 * (b - a - 1)
            &&& 0 <= at < all_pairs(chain_count).len()
            &&& all_pairs(chain_count)[at].0 == a
            &&& all_pairs(chain_count)[at].1 == b
        },
        0 <= k < all_pairs(chain_count).len() ==> {
            let (left, right) = all_pairs(chain_count)[k];
            &&& left < right < chain_count
            &&& 2 * k == left * (2 * chain_count - left - 1) + 2 * (right - left - 1)
        },
{
    lemma_all_pairs_len(chain_count);
    if 0 <= a < b < chain_count {
        lemma_pairs_below_len(a, chain_count);
        lemma_pair_position(a, b, chain_count);
    }
    if 0 <= k < all_pairs(chain_count).len() {
        lemma_pairs_ordered(chain_count, chain_count, k);
        let (left, right) = all_pairs(chain_count)[k];
        lemma_pairs_below_len(left as int, chain_count);
    }
}

} // verus!
