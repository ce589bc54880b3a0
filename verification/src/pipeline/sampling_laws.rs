//! What a stratified sample of tokens is.

use crate::pipeline::sampling;
use vstd::prelude::*;

verus! {

/// The token has members to pair, and few enough that their pairs can be counted.
pub open spec fn has_pairs(offsets: Seq<u64>, token: int) -> bool {
    let members = offsets[token + 1] - offsets[token];
    0 <= token < offsets.len() - 1 && members >= 2 && members * (members - 1) <= u64::MAX
}

/// The number of the first `count` tokens that have pairs.
pub open spec fn paired_tokens(offsets: Seq<u64>, count: int) -> int
    decreases count,
{
    if count <= 0 {
        0
    } else {
        paired_tokens(offsets, count - 1) + (if has_pairs(offsets, count - 1) {
            1int
        } else {
            0int
        })
    }
}

/// The sum of the values at the given places.
pub open spec fn sum_at(values: Seq<usize>, places: Seq<usize>) -> int
    decreases places.len(),
{
    if places.len() == 0 {
        0
    } else {
        sum_at(values, places.drop_last()) + values[places.last() as int]
    }
}

/// The sum of the first values.
pub open spec fn sum_of(values: Seq<usize>, count: int) -> int
    decreases count,
{
    if count <= 0 {
        0
    } else {
        sum_of(values, count - 1) + values[count - 1]
    }
}

/// Quotas of 64 strata, none above what its stratum holds.
spec fn are_quotas(counts: Seq<usize>, quotas: Seq<usize>) -> bool {
    &&& counts.len() == 64
    &&& quotas.len() == 64
    &&& forall|s: int| 0 <= s < 64 ==> #[trigger] quotas[s] <= counts[s]
}

/// The places are strata, each that holds tokens among them.
spec fn is_order(counts: Seq<usize>, order: Seq<usize>) -> bool {
    &&& forall|i: int| 0 <= i < order.len() ==> #[trigger] order[i] < 64
    &&& forall|s: usize| s < 64 && counts[s as int] != 0 ==> #[trigger] order.contains(s)
}

proof fn lemma_sum_update(values: Seq<usize>, at: int, value: usize, count: int)
    requires
        0 <= at < values.len(),
        0 <= count <= values.len(),
    ensures
        sum_of(values.update(at, value), count) == sum_of(values, count) + (if at < count {
            value - values[at]
        } else {
            0
        }),
    decreases count,
{
    if count > 0 {
        lemma_sum_update(values, at, value, count - 1);
    }
}

proof fn lemma_sum_bounds(low: Seq<usize>, high: Seq<usize>, count: int)
    requires
        low.len() == high.len(),
        0 <= count <= low.len(),
        forall|s: int| 0 <= s < low.len() ==> #[trigger] low[s] <= high[s],
    ensures
        0 <= sum_of(low, count) <= sum_of(high, count),
        sum_of(low, count) == sum_of(high, count) ==> forall|s: int|
            0 <= s < count ==> #[trigger] low[s] == high[s],
        (forall|s: int| 0 <= s < count ==> #[trigger] low[s] == high[s]) ==> sum_of(low, count)
            == sum_of(high, count),
    decreases count,
{
    if count > 0 {
        lemma_sum_bounds(low, high, count - 1);
    }
}

proof fn lemma_round(
    counts: Seq<usize>,
    order: Seq<usize>,
    quotas: Seq<usize>,
    remaining: nat,
    i: int,
)
    requires
        are_quotas(counts, quotas),
        forall|k: int| 0 <= k < order.len() ==> #[trigger] order[k] < 64,
        0 <= i <= order.len(),
    ensures
        ({
            let next = sampling::allocated(counts, order, quotas, remaining, i);
            &&& are_quotas(counts, next.0)
            &&& sum_of(next.0, 64) + next.1 == sum_of(quotas, 64) + remaining
            &&& next.1 <= remaining
            &&& next.1 == remaining && remaining > 0 ==> next.0 == quotas && forall|k: int|
                i <= k < order.len() ==> quotas[#[trigger] order[k] as int]
                    == counts[order[k] as int]
        }),
    decreases order.len() - i,
{
    if i < order.len() && remaining > 0 {
        let stratum = order[i] as int;
        assert(order[i] < 64);
        if quotas[stratum] >= counts[stratum] {
            lemma_round(counts, order, quotas, remaining, i + 1);
        } else {
            let amount: nat = if counts[stratum] - quotas[stratum] >= 2 && remaining >= 2 {
                2
            } else {
                1
            };
            let more = quotas.update(stratum, (quotas[stratum] + amount) as usize);
            lemma_sum_update(quotas, stratum, (quotas[stratum] + amount) as usize, 64);
            lemma_round(counts, order, more, (remaining - amount) as nat, i + 1);
        }
    }
}

proof fn lemma_rounds(
    counts: Seq<usize>,
    order: Seq<usize>,
    quotas: Seq<usize>,
    remaining: nat,
)
    requires
        are_quotas(counts, quotas),
        is_order(counts, order),
        sum_of(quotas, 64) + remaining <= sum_of(counts, 64),
    ensures
        ({
            let all = sampling::allocated_in_rounds(counts, order, quotas, remaining);
            &&& are_quotas(counts, all)
            &&& sum_of(all, 64) == sum_of(quotas, 64) + remaining
        }),
    decreases remaining,
{
    let next = sampling::allocated(counts, order, quotas, remaining, 0);
    lemma_round(counts, order, quotas, remaining, 0);
    if remaining > 0 {
        if next.1 >= remaining {
            assert forall|s: int| 0 <= s < 64 implies #[trigger] quotas[s] == counts[s] by {
                if counts[s] != 0 {
                    assert(order.contains(s as usize));
                    let k = choose|k: int| 0 <= k < order.len() && order[k] == s as usize;
                    assert(quotas[order[k] as int] == counts[order[k] as int]);
                }
            }
            lemma_sum_bounds(quotas, counts, 64);
        } else {
            lemma_rounds(counts, order, next.0, next.1);
        }
    }
}

proof fn lemma_keys(counts: Seq<usize>, count: int)
    requires
        0 <= count <= 64,
        counts.len() == 64,
    ensures
        ({
            let keys = sampling::strata_below(counts, count);
            &&& forall|i: int| 0 <= i < keys.len() ==> #[trigger] keys[i] < count
            &&& forall|i: int, j: int|
                0 <= i < j < keys.len() ==> #[trigger] keys[i] < #[trigger] keys[j]
            &&& forall|s: usize|
                s < count && counts[s as int] != 0 ==> #[trigger] keys.contains(s)
        }),
    decreases count,
{
    if count > 0 {
        lemma_keys(counts, count - 1);
        let before = sampling::strata_below(counts, count - 1);
        let keys = sampling::strata_below(counts, count);
        assert forall|s: usize| s < count && counts[s as int] != 0 implies
            #[trigger] keys.contains(s) by {
            if s < count - 1 {
                assert(before.contains(s));
                let k = choose|k: int| 0 <= k < before.len() && before[k] == s;
                assert(keys[k] == s);
            } else {
                assert(keys[keys.len() - 1] == s);
            }
        }
    }
}

proof fn lemma_sum_keys(counts: Seq<usize>, quotas: Seq<usize>, count: int)
    requires
        are_quotas(counts, quotas),
        0 <= count <= 64,
    ensures
        sum_at(quotas, sampling::strata_below(counts, count)) == sum_of(quotas, count),
    decreases count,
{
    if count > 0 {
        lemma_sum_keys(counts, quotas, count - 1);
        let before = sampling::strata_below(counts, count - 1);
        if counts[count - 1] != 0 {
            assert(before.push((count - 1) as usize).drop_last() =~= before);
        } else {
            assert(quotas[count - 1] <= counts[count - 1]);
        }
    }
}

proof fn lemma_sum_first(values: Seq<usize>, places: Seq<usize>)
    requires
        places.len() > 0,
    ensures
        sum_at(values, places) == values[places.first() as int] + sum_at(
            values,
            places.drop_first(),
        ),
    decreases places.len(),
{
    if places.len() == 1 {
        assert(places.drop_first() =~= Seq::<usize>::empty());
        assert(places.drop_last() =~= Seq::<usize>::empty());
        assert(sum_at(values, Seq::<usize>::empty()) == 0);
    } else {
        lemma_sum_first(values, places.drop_last());
        assert(places.drop_last().drop_first() =~= places.drop_first().drop_last());
        assert(places.drop_first().last() == places.last());
    }
}

proof fn lemma_sum_alternated(values: Seq<usize>, keys: Seq<usize>)
    ensures
        sum_at(values, sampling::alternated(keys)) == sum_at(values, keys),
    decreases keys.len(),
{
    let turned = sampling::alternated(keys);
    if keys.len() < 2 {
        assert(turned =~= keys);
    } else {
        let inner = keys.drop_first().drop_last();
        lemma_sum_alternated(values, inner);
        lemma_sum_first(values, keys);
        lemma_sum_first(values, turned);
        lemma_sum_first(values, turned.drop_first());
        assert(turned.drop_first().drop_first() =~= sampling::alternated(inner));
        assert(turned.first() == keys.first());
        assert(turned.drop_first().first() == keys.last());
        assert(keys.drop_first().last() == keys.last());
    }
}

proof fn lemma_alternated(keys: Seq<usize>)
    requires
        forall|i: int, j: int| 0 <= i < j < keys.len() ==> #[trigger] keys[i] < #[trigger] keys[j],
    ensures
        ({
            let turned = sampling::alternated(keys);
            &&& turned.len() == keys.len()
            &&& forall|i: int| 0 <= i < turned.len() ==> keys.contains(#[trigger] turned[i])
            &&& forall|s: usize| #[trigger] keys.contains(s) ==> turned.contains(s)
            &&& forall|i: int, j: int|
                0 <= i < j < turned.len() ==> #[trigger] turned[i] != #[trigger] turned[j]
        }),
{
    let turned = sampling::alternated(keys);
    let n = keys.len() as int;
    assert forall|i: int| 0 <= i < n implies keys.contains(#[trigger] turned[i]) by {
        let k = if i % 2 == 0 {
            i / 2
        } else {
            n - 1 - i / 2
        };
        assert(turned[i] == keys[k]);
    }
    assert forall|s: usize| #[trigger] keys.contains(s) implies turned.contains(s) by {
        let k = choose|k: int| 0 <= k < n && keys[k] == s;
        let i = if 2 * k < n {
            2 * k
        } else {
            2 * (n - 1 - k) + 1
        };
        assert(0 <= i < n);
        assert(turned[i] == keys[k]);
    }
    assert forall|i: int, j: int| 0 <= i < j < n implies #[trigger] turned[i]
        != #[trigger] turned[j] by {
        let a = if i % 2 == 0 {
            i / 2
        } else {
            n - 1 - i / 2
        };
        let b = if j % 2 == 0 {
            j / 2
        } else {
            n - 1 - j / 2
        };
        assert(a != b && 0 <= a < n && 0 <= b < n);
        assert(turned[i] == keys[a] && turned[j] == keys[b]);
        if a < b {
            assert(keys[a] < keys[b]);
        } else {
            assert(keys[b] < keys[a]);
        }
    }
}

proof fn lemma_tokens_of_stratum(offsets: Seq<u64>, stratum: int, count: int)
    requires
        0 <= count <= u32::MAX,
    ensures
        ({
            let tokens = sampling::stratum_tokens(offsets, stratum, count);
            &&& tokens.len() <= count
            &&& forall|k: int|
                0 <= k < tokens.len() ==> #[trigger] tokens[k] < count && sampling::stratum_of(
                    offsets,
                    tokens[k] as int,
                ) == Some(stratum as nat)
            &&& forall|i: int, j: int|
                0 <= i < j < tokens.len() ==> #[trigger] tokens[i] < #[trigger] tokens[j]
        }),
    decreases count,
{
    if count > 0 {
        lemma_tokens_of_stratum(offsets, stratum, count - 1);
    }
}

proof fn lemma_stratum_totals(offsets: Seq<u64>, count: int)
    requires
        0 <= count <= u32::MAX,
        count == 0 || count < offsets.len(),
    ensures
        sum_of(sampling::stratum_sizes(offsets, count), 64) == paired_tokens(offsets, count),
        sampling::active_tokens(offsets, count) == paired_tokens(offsets, count),
    decreases count,
{
    let sizes = sampling::stratum_sizes(offsets, count);
    if count <= 0 {
        assert forall|s: int| 0 <= s < 64 implies #[trigger] sizes[s] == 0 by {
            assert(sampling::stratum_tokens(offsets, s, 0).len() == 0);
        }
        lemma_sum_bounds(Seq::new(64, |s: int| 0usize), sizes, 64);
        lemma_zero_sum(64);
    } else {
        let token = count - 1;
        let before = sampling::stratum_sizes(offsets, token);
        lemma_stratum_totals(offsets, token);
        sampling::lemma_stratum(offsets, token);
        assert forall|s: int| 0 <= s < 64 implies sampling::stratum_tokens(
            offsets,
            s,
            token,
        ).len() <= u32::MAX by {
            lemma_tokens_of_stratum(offsets, s, token);
        }
        match sampling::stratum_of(offsets, token) {
            Some(found) => {
                let value = (before[found as int] + 1) as usize;
                lemma_tokens_of_stratum(offsets, found as int, token);
                lemma_tokens_of_stratum(offsets, found as int, count);
                assert(sizes =~= before.update(found as int, value));
                lemma_sum_update(before, found as int, value, 64);
            },
            None => {
                assert(sizes =~= before);
            },
        }
    }
}

proof fn lemma_zero_sum(count: int)
    requires
        0 <= count <= 64,
    ensures
        sum_of(Seq::new(64, |s: int| 0usize), count) == 0,
    decreases count,
{
    if count > 0 {
        lemma_zero_sum(count - 1);
    }
}

proof fn lemma_samples_rise(n: nat, count: nat, i: int, j: int)
    requires
        0 <= i < j < count <= n,
    ensures
        sampling::sample_at(n, count, i) < sampling::sample_at(n, count, j),
    decreases j - i,
{
    sampling::lemma_sample_at(n, count, j - 1);
    if i < j - 1 {
        lemma_samples_rise(n, count, i, j - 1);
    }
}

/// The sample of the first strata: its tokens are of these strata, none twice.
proof fn lemma_gathered(
    offsets: Seq<u64>,
    tokens: int,
    order: Seq<usize>,
    quotas: Seq<usize>,
    count: int,
)
    requires
        0 <= tokens <= u32::MAX,
        are_quotas(sampling::stratum_sizes(offsets, tokens), quotas),
        forall|i: int| 0 <= i < order.len() ==> #[trigger] order[i] < 64,
        forall|i: int, j: int|
            0 <= i < j < order.len() ==> #[trigger] order[i] != #[trigger] order[j],
        0 <= count <= order.len(),
    ensures
        ({
            let sample = sampling::gathered(offsets, tokens, order, quotas, count);
            &&& sample.len() == sum_at(quotas, order.take(count))
            &&& sample.no_duplicates()
            &&& forall|k: int|
                0 <= k < sample.len() ==> #[trigger] sample[k] < tokens && of_strata(
                    offsets,
                    order.take(count),
                    sample[k] as int,
                )
        }),
    decreases count,
{
    if count > 0 {
        let before = sampling::gathered(offsets, tokens, order, quotas, count - 1);
        lemma_gathered(offsets, tokens, order, quotas, count - 1);
        let stratum = order[count - 1] as int;
        assert(order[count - 1] < 64);
        let listed = sampling::stratum_tokens(offsets, stratum, tokens);
        lemma_tokens_of_stratum(offsets, stratum, tokens);
        let quota = quotas[stratum] as nat;
        assert(quotas[stratum] <= sampling::stratum_sizes(offsets, tokens)[stratum]);
        let part = sampling::spread(listed, quota);
        let sample = sampling::gathered(offsets, tokens, order, quotas, count);
        assert(order.take(count).drop_last() =~= order.take(count - 1));
        assert(order.take(count).last() == order[count - 1]);
        assert forall|k: int| 0 <= k < part.len() implies #[trigger] part[k] < tokens
            && sampling::stratum_of(offsets, part[k] as int) == Some(stratum as nat) by {
            sampling::lemma_sample_at(listed.len(), quota, k);
            let at = sampling::sample_at(listed.len(), quota, k);
            assert(part[k] == listed[at]);
        }
        assert forall|i: int, j: int| 0 <= i < j < part.len() implies #[trigger] part[i]
            != #[trigger] part[j] by {
            sampling::lemma_sample_at(listed.len(), quota, i);
            sampling::lemma_sample_at(listed.len(), quota, j);
            lemma_samples_rise(listed.len(), quota, i, j);
            assert(listed[sampling::sample_at(listed.len(), quota, i)]
                < listed[sampling::sample_at(listed.len(), quota, j)]);
        }
        assert forall|k: int| 0 <= k < before.len() implies sampling::stratum_of(
            offsets,
            #[trigger] before[k] as int,
        ) != Some(stratum as nat) by {
            assert(of_strata(offsets, order.take(count - 1), before[k] as int));
            let i = choose|i: int|
                0 <= i < order.take(count - 1).len() && sampling::stratum_of(
                    offsets,
                    before[k] as int,
                ) == Some(#[trigger] order.take(count - 1)[i] as nat);
            assert(order.take(count - 1)[i] == order[i]);
            assert(order[i] != order[count - 1]);
        }
        assert(sample == before + part);
        assert forall|i: int, j: int| 0 <= i < sample.len() && 0 <= j < sample.len() && i
            != j implies sample[i] != sample[j] by {
            if i < before.len() && j < before.len() {
                assert(before[i] != before[j]);
            } else if i < before.len() {
                assert(sample[j] == part[j - before.len()]);
                assert(sample[i] == before[i]);
            } else if j < before.len() {
                assert(sample[i] == part[i - before.len()]);
                assert(sample[j] == before[j]);
            } else {
                assert(sample[i] == part[i - before.len()]);
                assert(sample[j] == part[j - before.len()]);
            }
        }
        assert forall|k: int| 0 <= k < sample.len() implies #[trigger] sample[k] < tokens
            && of_strata(offsets, order.take(count), sample[k] as int) by {
            if k < before.len() {
                assert(sample[k] == before[k]);
                let i = choose|i: int|
                    0 <= i < order.take(count - 1).len() && sampling::stratum_of(
                        offsets,
                        before[k] as int,
                    ) == Some(#[trigger] order.take(count - 1)[i] as nat);
                assert(order.take(count)[i] == order.take(count - 1)[i]);
            } else {
                assert(sample[k] == part[k - before.len()]);
                assert(order.take(count)[count - 1] == order[count - 1]);
            }
        }
    } else {
        assert(order.take(0).len() == 0);
    }
}

/// The token's stratum is among those given.
spec fn of_strata(offsets: Seq<u64>, order: Seq<usize>, token: int) -> bool {
    exists|i: int|
        0 <= i < order.len() && sampling::stratum_of(offsets, token) == Some(
            #[trigger] order[i] as nat,
        )
}

/// A sample holds tokens that have pairs, none twice: as many as asked for, or all there are.
pub proof fn lemma_sample_of_paired_tokens(offsets: Seq<u64>, limit: int)
    requires
        0 < offsets.len() <= u32::MAX,
        0 <= limit,
    ensures
        ({
            let sample = sampling::stratified_sample(offsets, limit);
            let paired = paired_tokens(offsets, offsets.len() - 1);
            &&& sample.no_duplicates()
            &&& forall|k: int|
                0 <= k < sample.len() ==> has_pairs(offsets, #[trigger] sample[k] as int)
            &&& sample.len() == limit || sample.len() == paired
            &&& sample.len() <= limit
            &&& sample.len() <= paired
        }),
{
    let tokens = offsets.len() - 1;
    let counts = sampling::stratum_sizes(offsets, tokens);
    let active = sampling::active_tokens(offsets, tokens);
    let target = if limit < active {
        limit as nat
    } else {
        active
    };
    let keys = sampling::strata_below(counts, 64);
    let order = sampling::alternated(keys);
    let zeros = Seq::new(64, |s: int| 0usize);
    let quotas = sampling::allocated_in_rounds(counts, order, zeros, target);
    lemma_stratum_totals(offsets, tokens);
    lemma_keys(counts, 64);
    lemma_alternated(keys);
    assert forall|i: int| 0 <= i < order.len() implies #[trigger] order[i] < 64 by {
        assert(keys.contains(order[i]));
    }
    assert(is_order(counts, order)) by {
        assert forall|s: usize| s < 64 && counts[s as int] != 0 implies #[trigger] order.contains(
            s,
        ) by {
            assert(keys.contains(s));
        }
    }
    lemma_zero_sum(64);
    lemma_rounds(counts, order, zeros, target);
    lemma_sum_keys(counts, quotas, 64);
    lemma_sum_alternated(quotas, keys);
    lemma_gathered(offsets, tokens, order, quotas, order.len() as int);
    assert(order.take(order.len() as int) =~= order);
    let sample = sampling::stratified_sample(offsets, limit);
    assert forall|k: int| 0 <= k < sample.len() implies has_pairs(
        offsets,
        #[trigger] sample[k] as int,
    ) by {
        assert(of_strata(offsets, order, sample[k] as int));
    }
}

/// What a stratum has after `rounds` full rounds: two each, up to what it holds.
pub open spec fn after_rounds(counts: Seq<usize>, rounds: int, stratum: int) -> int {
    if counts[stratum] < 2 * rounds {
        counts[stratum] as int
    } else {
        2 * rounds
    }
}

/// The stratum stands in the order at `i` or later.
spec fn comes_later(order: Seq<usize>, i: int, stratum: int) -> bool {
    exists|k: int| i <= k < order.len() && #[trigger] order[k] == stratum
}

proof fn lemma_round_gives_two(
    counts: Seq<usize>,
    order: Seq<usize>,
    quotas: Seq<usize>,
    remaining: nat,
    i: int,
    stratum: int,
)
    requires
        are_quotas(counts, quotas),
        forall|k: int| 0 <= k < order.len() ==> #[trigger] order[k] < 64,
        forall|a: int, b: int|
            0 <= a < b < order.len() ==> #[trigger] order[a] != #[trigger] order[b],
        0 <= i <= order.len(),
        0 <= stratum < 64,
    ensures
        ({
            let next = sampling::allocated(counts, order, quotas, remaining, i);
            &&& quotas[stratum] <= next.0[stratum] <= quotas[stratum] + 2
            &&& !comes_later(order, i, stratum) ==> next.0[stratum] == quotas[stratum]
            &&& comes_later(order, i, stratum) && next.1 > 0 ==> next.0[stratum] == (
            if counts[stratum] < quotas[stratum] + 2 {
                counts[stratum] as int
            } else {
                quotas[stratum] + 2
            })
        }),
    decreases order.len() - i,
{
    if i < order.len() && remaining > 0 {
        let here = order[i] as int;
        assert(order[i] < 64);
        assert(here != stratum && comes_later(order, i, stratum) ==> comes_later(
            order,
            i + 1,
            stratum,
        ));
        assert(comes_later(order, i + 1, stratum) ==> comes_later(order, i, stratum));
        assert(here == stratum ==> !comes_later(order, i + 1, stratum));
        assert(here == stratum ==> comes_later(order, i, stratum));
        if quotas[here] >= counts[here] {
            lemma_round_gives_two(counts, order, quotas, remaining, i + 1, stratum);
        } else {
            let amount: nat = if counts[here] - quotas[here] >= 2 && remaining >= 2 {
                2
            } else {
                1
            };
            let more = quotas.update(here, (quotas[here] + amount) as usize);
            lemma_round(counts, order, more, (remaining - amount) as nat, i + 1);
            lemma_round_gives_two(
                counts,
                order,
                more,
                (remaining - amount) as nat,
                i + 1,
                stratum,
            );
        }
    }
}

proof fn lemma_levels(
    counts: Seq<usize>,
    order: Seq<usize>,
    quotas: Seq<usize>,
    remaining: nat,
    rounds: int,
) -> (full: int)
    requires
        are_quotas(counts, quotas),
        is_order(counts, order),
        forall|a: int, b: int|
            0 <= a < b < order.len() ==> #[trigger] order[a] != #[trigger] order[b],
        0 <= rounds,
        forall|s: int| 0 <= s < 64 ==> #[trigger] quotas[s] == after_rounds(counts, rounds, s),
    ensures
        full >= 0,
        ({
            let all = sampling::allocated_in_rounds(counts, order, quotas, remaining);
            forall|s: int|
                0 <= s < 64 ==> after_rounds(counts, full, s) <= #[trigger] all[s] <= after_rounds(
                    counts,
                    full + 1,
                    s,
                )
        }),
    decreases remaining,
{
    let next = sampling::allocated(counts, order, quotas, remaining, 0);
    lemma_round(counts, order, quotas, remaining, 0);
    if remaining == 0 || next.1 >= remaining {
        assert(sampling::allocated_in_rounds(counts, order, quotas, remaining) == quotas);
        assert forall|s: int| 0 <= s < 64 implies after_rounds(counts, rounds, s)
            <= #[trigger] quotas[s] <= after_rounds(counts, rounds + 1, s) by {}
        rounds
    } else {
        assert forall|s: int| 0 <= s < 64 implies after_rounds(counts, rounds, s)
            <= #[trigger] next.0[s] <= after_rounds(counts, rounds + 1, s) && (next.1 > 0
            ==> next.0[s] == after_rounds(counts, rounds + 1, s)) by {
            lemma_round_gives_two(counts, order, quotas, remaining, 0, s);
            assert(quotas[s] == after_rounds(counts, rounds, s));
            assert(next.0[s] <= counts[s]);
            if counts[s] != 0 {
                assert(order.contains(s as usize));
                let k = choose|k: int| 0 <= k < order.len() && order[k] == s as usize;
                assert(comes_later(order, 0, s));
            }
        }
        if next.1 > 0 {
            let full = lemma_levels(counts, order, next.0, next.1, rounds + 1);
            assert(sampling::allocated_in_rounds(counts, order, quotas, remaining)
                == sampling::allocated_in_rounds(counts, order, next.0, next.1));
            full
        } else {
            assert(sampling::allocated_in_rounds(counts, order, next.0, next.1) == next.0);
            assert(sampling::allocated_in_rounds(counts, order, quotas, remaining) == next.0);
            assert forall|s: int| 0 <= s < 64 implies after_rounds(counts, rounds, s)
                <= #[trigger] next.0[s] <= after_rounds(counts, rounds + 1, s) by {}
            rounds
        }
    }
}

/// Strata are sampled alike: one that still holds tokens outside the sample has at most two
/// fewer in it than any other. Together they have as many as are to be given.
pub proof fn lemma_strata_are_sampled_alike(
    counts: Seq<usize>,
    order: Seq<usize>,
    target: nat,
    s: int,
    t: int,
)
    requires
        counts.len() == 64,
        forall|i: int| 0 <= i < order.len() ==> #[trigger] order[i] < 64,
        forall|k: usize| k < 64 && counts[k as int] != 0 ==> #[trigger] order.contains(k),
        forall|a: int, b: int|
            0 <= a < b < order.len() ==> #[trigger] order[a] != #[trigger] order[b],
        target <= sum_of(counts, 64),
        0 <= s < 64,
        0 <= t < 64,
    ensures
        ({
            let quotas = sampling::allocated_in_rounds(
                counts,
                order,
                Seq::new(64, |k: int| 0usize),
                target,
            );
            &&& quotas.len() == 64
            &&& sum_of(quotas, 64) == target
            &&& quotas[s] <= counts[s]
            &&& quotas[s] < counts[s] ==> quotas[t] <= quotas[s] + 2
        }),
{
    let zeros = Seq::new(64, |k: int| 0usize);
    let quotas = sampling::allocated_in_rounds(counts, order, zeros, target);
    lemma_zero_sum(64);
    lemma_rounds(counts, order, zeros, target);
    let full = lemma_levels(counts, order, zeros, target, 0);
    assert(after_rounds(counts, full, s) <= quotas[s]);
    assert(quotas[t] <= after_rounds(counts, full + 1, t));
}

} // verus!
