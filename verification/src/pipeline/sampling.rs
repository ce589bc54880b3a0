//! Which atoms and tokens are examined exhaustively.

use vstd::prelude::*;

verus! {

/// Number of strata of token groups.
pub const STRATA: usize = 64;

/// The position of sample `i` of `count` among `n`.
pub open spec fn sample_at(n: nat, count: nat, i: int) -> int {
    i * n / count as int
}

/// Places of a sample are within the range and rise.
pub(crate) proof fn lemma_sample_at(n: nat, count: nat, i: int)
    requires
        0 <= i < count <= n,
    ensures
        0 <= sample_at(n, count, i) < n,
        i + 1 < count ==> sample_at(n, count, i) < sample_at(n, count, i + 1),
{
    let c = count as int;
    let a = i * n;
    let b = (i + 1) * n;
    assert(b == a + n) by (nonlinear_arith)
        requires
            a == i * n,
            b == (i + 1) * n,
    ;
    assert(a >= 0) by (nonlinear_arith)
        requires
            i >= 0,
            a == i * n,
    ;
    assert(a < c * n) by (nonlinear_arith)
        requires
            i < c,
            a == i * n,
            n > 0,
    ;
    vstd::arithmetic::div_mod::lemma_div_is_ordered(a + c, b, c);
    vstd::arithmetic::div_mod::lemma_div_plus_one(a, c);
    vstd::arithmetic::div_mod::lemma_div_pos_is_pos(a, c);
    assert(a / c < n) by (nonlinear_arith)
        requires
            a < c * n,
            c > 0,
            a >= 0,
    ;
}

/// At most `limit` of `n` positions, evenly spread.
#[verifier::loop_isolation(false)]
pub fn deterministic_sample(n: usize, limit: usize) -> (sample: Vec<u32>)
    requires
        n <= u32::MAX,
    ensures
        ({
            let count = if limit < n {
                limit as nat
            } else {
                n as nat
            };
            &&& sample@.len() == count
            &&& forall|i: int|
                0 <= i < count ==> #[trigger] sample@[i] == sample_at(n as nat, count, i)
            &&& forall|i: int, j: int|
                0 <= i < j < count ==> (#[trigger] sample@[i]) < (#[trigger] sample@[j])
            &&& forall|i: int| 0 <= i < count ==> (#[trigger] sample@[i]) < n
        }),
{
    let count: usize = if limit < n {
        limit
    } else {
        n
    };
    let mut sample: Vec<u32> = Vec::new();
    let mut i: usize = 0;
    while i < count
        invariant
            i <= count,
            sample@.len() == i,
            forall|k: int|
                0 <= k < i ==> #[trigger] sample@[k] == sample_at(n as nat, count as nat, k),
            forall|k: int| 0 <= k < i ==> (#[trigger] sample@[k]) < n,
            forall|a: int, b: int|
                0 <= a < b < i ==> (#[trigger] sample@[a]) < (#[trigger] sample@[b]),
        decreases count - i,
    {
        proof {
            lemma_sample_at(n as nat, count as nat, i as int);
            if i > 0 {
                lemma_sample_at(n as nat, count as nat, i - 1);
            }
            assert(i * n <= 4294967295 * 4294967295) by (nonlinear_arith)
                requires
                    0 <= i <= 4294967295,
                    0 <= n <= 4294967295,
            ;
        }
        let at: u128 = i as u128 * n as u128 / count as u128;
        assert(at == sample_at(n as nat, count as nat, i as int));
        assert(i > 0 ==> sample@[i - 1] < at);
        sample.push(at as u32);
        i = i + 1;
    }
    sample
}

/// The atom is among those whose pairs were examined.
pub open spec fn is_examined(calibration: Seq<u32>, holdout: Seq<u32>, atom: int) -> bool {
    (exists|i: int| 0 <= i < calibration.len() && #[trigger] calibration[i] == atom) || (exists|
        i: int,
    |
        0 <= i < holdout.len() && #[trigger] holdout[i] == atom)
}

/// All examined atoms exist, and at most one atom was not examined.
pub open spec fn covers_pairs(calibration: Seq<u32>, holdout: Seq<u32>, atom_count: int) -> bool {
    atom_count < 2 || {
        &&& forall|i: int| 0 <= i < calibration.len() ==> #[trigger] calibration[i] < atom_count
        &&& forall|i: int| 0 <= i < holdout.len() ==> #[trigger] holdout[i] < atom_count
        &&& forall|a: int, b: int|
            0 <= a < b < atom_count ==> #[trigger] is_examined(calibration, holdout, a)
                || #[trigger] is_examined(calibration, holdout, b)
    }
}

/// Every unordered pair of atoms has an examined atom.
#[verifier::loop_isolation(false)]
pub fn pair_frontier_covers_all_unordered_pairs(
    calibration: &[u32],
    holdout: &[u32],
    atom_count: usize,
) -> (covered: bool)
    ensures
        covered == covers_pairs(calibration@, holdout@, atom_count as int),
{
    if atom_count < 2 {
        return true;
    }
    let mut seen: Vec<bool> = Vec::new();
    let mut i: usize = 0;
    while i < atom_count
        invariant
            i <= atom_count,
            seen@.len() == i,
            forall|k: int| 0 <= k < i ==> !#[trigger] seen@[k],
        decreases atom_count - i,
    {
        seen.push(false);
        i = i + 1;
    }
    let ghost c = calibration@;
    let ghost h = holdout@;
    let mut i: usize = 0;
    while i < calibration.len()
        invariant
            i <= c.len(),
            seen@.len() == atom_count,
            forall|k: int| 0 <= k < i ==> #[trigger] c[k] < atom_count,
            forall|atom: int|
                0 <= atom < atom_count ==> #[trigger] seen@[atom] == is_examined(
                    c.take(i as int),
                    Seq::empty(),
                    atom,
                ),
        decreases calibration.len() - i,
    {
        let atom: usize = calibration[i] as usize;
        if atom >= atom_count {
            assert(c[i as int] >= atom_count);
            return false;
        }
        let ghost before = seen@;
        seen.set(atom, true);
        proof {
            assert forall|a: int| 0 <= a < atom_count implies #[trigger] seen@[a] == is_examined(
                c.take(i + 1),
                Seq::empty(),
                a,
            ) by {
                assert(before[a] == is_examined(c.take(i as int), Seq::empty(), a));
                if is_examined(c.take(i as int), Seq::empty(), a) {
                    let k = choose|k: int|
                        0 <= k < c.take(i as int).len() && #[trigger] c.take(i as int)[k] == a;
                    assert(c.take(i + 1)[k] == a);
                }
                if a == atom {
                    assert(c.take(i + 1)[i as int] == a);
                }
                if is_examined(c.take(i + 1), Seq::empty(), a) && a != atom {
                    let k = choose|k: int|
                        0 <= k < c.take(i + 1).len() && #[trigger] c.take(i + 1)[k] == a;
                    assert(c.take(i as int)[k] == a);
                }
            }
        }
        i = i + 1;
    }
    assert(c.take(i as int) =~= c);
    let mut j: usize = 0;
    assert(h.take(0) =~= Seq::<u32>::empty());
    while j < holdout.len()
        invariant
            j <= h.len(),
            seen@.len() == atom_count,
            forall|k: int| 0 <= k < j ==> #[trigger] h[k] < atom_count,
            forall|atom: int|
                0 <= atom < atom_count ==> #[trigger] seen@[atom] == is_examined(
                    c,
                    h.take(j as int),
                    atom,
                ),
        decreases holdout.len() - j,
    {
        let atom: usize = holdout[j] as usize;
        if atom >= atom_count {
            assert(h[j as int] >= atom_count);
            return false;
        }
        let ghost before = seen@;
        seen.set(atom, true);
        proof {
            assert forall|a: int| 0 <= a < atom_count implies #[trigger] seen@[a] == is_examined(
                c,
                h.take(j + 1),
                a,
            ) by {
                assert(before[a] == is_examined(c, h.take(j as int), a));
                if exists|k: int| 0 <= k < h.take(j as int).len() && #[trigger] h.take(j as int)[k]
                    == a {
                    let k = choose|k: int|
                        0 <= k < h.take(j as int).len() && #[trigger] h.take(j as int)[k] == a;
                    assert(h.take(j + 1)[k] == a);
                }
                if a == atom {
                    assert(h.take(j + 1)[j as int] == a);
                }
                if (exists|k: int| 0 <= k < h.take(j + 1).len() && #[trigger] h.take(j + 1)[k] == a)
                    && a != atom {
                    let k = choose|k: int|
                        0 <= k < h.take(j + 1).len() && #[trigger] h.take(j + 1)[k] == a;
                    assert(h.take(j as int)[k] == a);
                }
            }
        }
        j = j + 1;
    }
    assert(h.take(j as int) =~= h);
    let mut missed: Option<usize> = None;
    let mut k: usize = 0;
    while k < atom_count
        invariant
            k <= atom_count,
            match missed {
                Some(at) => {
                    &&& at < k
                    &&& !is_examined(c, h, at as int)
                    &&& forall|a: int|
                        0 <= a < k && a != at ==> #[trigger] is_examined(c, h, a)
                },
                None => forall|a: int| 0 <= a < k ==> #[trigger] is_examined(c, h, a),
            },
        decreases atom_count - k,
    {
        assert(seen@[k as int] == is_examined(c, h, k as int));
        if !seen[k] {
            match missed {
                Some(at) => {
                    assert(!is_examined(c, h, at as int) && !is_examined(c, h, k as int));
                    return false;
                },
                None => {
                    missed = Some(k);
                },
            }
        }
        k = k + 1;
    }
    true
}

/// The scan examined everything: all pairs of atoms, all token groups, and all of their work.
pub fn evidence_scan_is_exhaustive(
    pair_frontier_exhaustive: bool,
    all_shared_groups_selected: bool,
    evaluated_shared_pair_work: u64,
    shared_pair_population: u64,
) -> (exhaustive: bool)
    ensures
        exhaustive == (pair_frontier_exhaustive && all_shared_groups_selected
            && evaluated_shared_pair_work == shared_pair_population),
{
    pair_frontier_exhaustive && all_shared_groups_selected && evaluated_shared_pair_work
        == shared_pair_population
}

/// The whole part of the binary logarithm.
pub open spec fn log2(work: nat) -> nat
    decreases work,
{
    if work < 2 {
        0
    } else {
        log2(work / 2) + 1
    }
}

proof fn lemma_log2_mono(a: nat, b: nat)
    requires
        a <= b,
    ensures
        log2(a) <= log2(b),
    decreases b,
{
    if a >= 2 {
        lemma_log2_mono(a / 2, b / 2);
    }
}

/// The stratum of a token: the logarithm of the pairs of its members, where it has two members
/// and the pairs can be counted.
pub open spec fn stratum_of(offsets: Seq<u64>, token: int) -> Option<nat> {
    if token + 1 >= offsets.len() || offsets[token] > offsets[token + 1] {
        None
    } else {
        let members = offsets[token + 1] - offsets[token];
        if members < 2 || members * (members - 1) > u64::MAX {
            None
        } else {
            Some(log2((members * (members - 1) / 2) as nat))
        }
    }
}

/// A stratum is one of 64.
pub(crate) proof fn lemma_stratum(offsets: Seq<u64>, token: int)
    ensures
        stratum_of(offsets, token) matches Some(stratum) ==> stratum < 64,
{
    if let Some(stratum) = stratum_of(offsets, token) {
        let members = offsets[token + 1] - offsets[token];
        let pairs = members * (members - 1);
        assert(pairs >= 0) by (nonlinear_arith)
            requires
                members >= 2,
                pairs == members * (members - 1),
        ;
        let work = (pairs / 2) as nat;
        assert(log2(18446744073709551615) <= 63) by {
            reveal_with_fuel(log2, 65);
        }
        lemma_log2_mono(work, 18446744073709551615);
    }
}

/// The stratum of a token, where it has one.
pub fn shared_token_work_stratum(token_member_offsets: &[u64], token: u32) -> (stratum: Option<u32>)
    requires
        token < usize::MAX,
    ensures
        match stratum_of(token_member_offsets@, token as int) {
            Some(expected) => stratum matches Some(found) && found == expected && found < 64,
            None => stratum is None,
        },
{
    let at: usize = token as usize;
    let len: usize = token_member_offsets.len();
    if len < 2 || at >= len - 1 {
        return None;
    }
    let begin: u64 = token_member_offsets[at];
    let end: u64 = token_member_offsets[at + 1];
    if begin > end || end - begin < 2 {
        return None;
    }
    let members: u64 = end - begin;
    let pairs: u64 = match members.checked_mul(members - 1) {
        Some(pairs) => pairs,
        None => {
            return None;
        },
    };
    let ghost work = (pairs / 2) as nat;
    let mut left: u64 = pairs / 2;
    let mut stratum: u32 = 0;
    proof {
        lemma_stratum(token_member_offsets@, token as int);
    }
    while left >= 2
        invariant
            stratum + log2(left as nat) == log2(work),
            log2(work) < 64,
        decreases left,
    {
        left = left / 2;
        stratum = stratum + 1;
    }
    Some(stratum)
}

/// The tokens of a stratum among the first `count`, in order.
pub open spec fn stratum_tokens(offsets: Seq<u64>, stratum: int, count: int) -> Seq<u32>
    decreases count,
{
    if count <= 0 {
        Seq::empty()
    } else {
        let before = stratum_tokens(offsets, stratum, count - 1);
        match stratum_of(offsets, count - 1) {
            Some(found) if found == stratum => before.push((count - 1) as u32),
            _ => before,
        }
    }
}

/// The number of tokens with a stratum among the first `count`.
pub open spec fn active_tokens(offsets: Seq<u64>, count: int) -> nat
    decreases count,
{
    if count <= 0 {
        0
    } else {
        active_tokens(offsets, count - 1) + (if stratum_of(offsets, count - 1) is Some {
            1nat
        } else {
            0nat
        })
    }
}

/// The strata below `count` that have tokens, in order.
pub open spec fn strata_below(counts: Seq<usize>, count: int) -> Seq<usize>
    decreases count,
{
    if count <= 0 {
        Seq::empty()
    } else if counts[count - 1] != 0 {
        strata_below(counts, count - 1).push((count - 1) as usize)
    } else {
        strata_below(counts, count - 1)
    }
}

/// First and last alternate, towards the middle.
pub open spec fn alternated(keys: Seq<usize>) -> Seq<usize> {
    Seq::new(
        keys.len(),
        |i: int|
            if i % 2 == 0 {
                keys[i / 2]
            } else {
                keys[keys.len() - 1 - i / 2]
            },
    )
}

/// One round of the allocation from position `i` on: each stratum in turn takes two, or one
/// where only one is left of it or to give.
pub open spec fn allocated(
    counts: Seq<usize>,
    order: Seq<usize>,
    quotas: Seq<usize>,
    remaining: nat,
    i: int,
) -> (Seq<usize>, nat)
    decreases order.len() - i,
{
    if i < 0 || i >= order.len() || remaining == 0 {
        (quotas, remaining)
    } else {
        let stratum = order[i] as int;
        if quotas[stratum] >= counts[stratum] {
            allocated(counts, order, quotas, remaining, i + 1)
        } else {
            let amount: nat = if counts[stratum] - quotas[stratum] >= 2 && remaining >= 2 {
                2
            } else {
                1
            };
            allocated(
                counts,
                order,
                quotas.update(stratum, (quotas[stratum] + amount) as usize),
                (remaining - amount) as nat,
                i + 1,
            )
        }
    }
}

/// Rounds of the allocation, until nothing is left or nothing is taken.
pub open spec fn allocated_in_rounds(
    counts: Seq<usize>,
    order: Seq<usize>,
    quotas: Seq<usize>,
    remaining: nat,
) -> Seq<usize>
    decreases remaining,
{
    let next = allocated(counts, order, quotas, remaining, 0);
    if remaining == 0 || next.1 >= remaining {
        quotas
    } else {
        allocated_in_rounds(counts, order, next.0, next.1)
    }
}

/// Tokens of a stratum, evenly spread.
pub open spec fn spread(tokens: Seq<u32>, quota: nat) -> Seq<u32> {
    Seq::new(quota, |k: int| tokens[sample_at(tokens.len(), quota, k)])
}

/// The sizes of the strata.
pub open spec fn stratum_sizes(offsets: Seq<u64>, count: int) -> Seq<usize> {
    Seq::new(64, |s: int| stratum_tokens(offsets, s, count).len() as usize)
}

/// What each of the first `count` strata of the order contributes, one after the other.
pub open spec fn gathered(
    offsets: Seq<u64>,
    tokens: int,
    order: Seq<usize>,
    quotas: Seq<usize>,
    count: int,
) -> Seq<u32>
    decreases count,
{
    if count <= 0 {
        Seq::empty()
    } else {
        let stratum = order[count - 1] as int;
        gathered(offsets, tokens, order, quotas, count - 1) + spread(
            stratum_tokens(offsets, stratum, tokens),
            quotas[stratum] as nat,
        )
    }
}

/// The sample: tokens of all strata, the smallest and the largest groups first.
pub open spec fn stratified_sample(offsets: Seq<u64>, limit: int) -> Seq<u32> {
    let tokens = if offsets.len() > 0 {
        offsets.len() - 1
    } else {
        0
    };
    let counts = stratum_sizes(offsets, tokens);
    let active = active_tokens(offsets, tokens);
    let target = if limit < active {
        limit as nat
    } else {
        active
    };
    let order = alternated(strata_below(counts, 64));
    let quotas = allocated_in_rounds(counts, order, Seq::new(64, |s: int| 0usize), target);
    gathered(offsets, tokens, order, quotas, order.len() as int)
}

proof fn lemma_strata_below(counts: Seq<usize>, count: int)
    requires
        0 <= count <= 64,
    ensures
        strata_below(counts, count).len() <= count,
        forall|i: int|
            0 <= i < strata_below(counts, count).len() ==> (#[trigger] strata_below(
                counts,
                count,
            )[i]) < count,
    decreases count,
{
    if count > 0 {
        lemma_strata_below(counts, count - 1);
    }
}

proof fn lemma_stratum_tokens_len(offsets: Seq<u64>, stratum: int, count: int)
    requires
        0 <= count,
    ensures
        stratum_tokens(offsets, stratum, count).len() <= count,
        stratum_tokens(offsets, stratum, count).len() <= active_tokens(offsets, count),
    decreases count,
{
    if count > 0 {
        lemma_stratum_tokens_len(offsets, stratum, count - 1);
    }
}

proof fn lemma_stratum_tokens_grow(offsets: Seq<u64>, stratum: int, count: int, most: int)
    requires
        count <= most,
    ensures
        stratum_tokens(offsets, stratum, count).len() <= stratum_tokens(
            offsets,
            stratum,
            most,
        ).len(),
    decreases most - count,
{
    if count < most {
        lemma_stratum_tokens_grow(offsets, stratum, count, most - 1);
    }
}

/// Zero for every stratum.
fn zeros() -> (values: Vec<usize>)
    ensures
        values@ == Seq::new(64, |s: int| 0usize),
{
    let mut values: Vec<usize> = Vec::new();
    while values.len() < STRATA
        invariant
            values@.len() <= 64,
            forall|k: int| 0 <= k < values@.len() ==> #[trigger] values@[k] == 0,
        decreases 64 - values.len(),
    {
        values.push(0);
    }
    assert(values@ =~= Seq::new(64, |s: int| 0usize));
    values
}

/// Gives each stratum its share of the target, in rounds.
#[verifier::loop_isolation(false)]
fn allocate(counts: &Vec<usize>, order: &Vec<usize>, target: usize) -> (quotas: Vec<usize>)
    requires
        counts@.len() == 64,
        forall|i: int| 0 <= i < order@.len() ==> (#[trigger] order@[i]) < 64,
    ensures
        quotas@ == allocated_in_rounds(
            counts@,
            order@,
            Seq::new(64, |s: int| 0usize),
            target as nat,
        ),
        quotas@.len() == 64,
        forall|s: int| 0 <= s < 64 ==> (#[trigger] quotas@[s]) <= counts@[s],
{
    let mut quotas: Vec<usize> = zeros();
    let mut remaining: usize = target;
    let ghost last = allocated_in_rounds(counts@, order@, quotas@, target as nat);
    while remaining > 0
        invariant
            quotas@.len() == 64,
            forall|s: int| 0 <= s < 64 ==> (#[trigger] quotas@[s]) <= counts@[s],
            last == allocated_in_rounds(counts@, order@, quotas@, remaining as nat),
        decreases remaining,
    {
        let before: usize = remaining;
        let ghost start = quotas@;
        let ghost next = allocated(counts@, order@, quotas@, remaining as nat, 0);
        let mut i: usize = 0;
        while i < order.len() && remaining > 0
            invariant
                i <= order@.len(),
                quotas@.len() == 64,
                remaining <= before,
                remaining == before ==> quotas@ == start,
                forall|s: int| 0 <= s < 64 ==> (#[trigger] quotas@[s]) <= counts@[s],
                next == allocated(counts@, order@, quotas@, remaining as nat, i as int),
            decreases order.len() - i,
        {
            let stratum: usize = order[i];
            let used: usize = quotas[stratum];
            let capacity: usize = counts[stratum];
            if used < capacity {
                let amount: usize = if capacity - used >= 2 && remaining >= 2 {
                    2
                } else {
                    1
                };
                quotas.set(stratum, used + amount);
                remaining = remaining - amount;
            }
            i = i + 1;
        }
        if remaining >= before {
            assert(last == quotas@);
            return quotas;
        }
    }
    quotas
}

spec fn is_pick(token: u32, tokens: Seq<u32>, at: int) -> bool {
    at < tokens.len() && token == tokens[at]
}

/// What was picked of a stratum so far.
spec fn is_picked(picked: Seq<u32>, tokens: Seq<u32>, size: nat, quota: nat) -> bool {
    &&& picked.len() <= quota
    &&& forall|k: int|
        0 <= k < picked.len() ==> #[trigger] is_pick(picked[k], tokens, sample_at(size, quota, k))
    &&& picked.len() < quota ==> sample_at(size, quota, picked.len() as int) >= tokens.len()
}

/// Picks the token at a position of its stratum where the share of the stratum has it.
fn pick(
    picked: &mut Vec<u32>,
    token: u32,
    position: usize,
    size: usize,
    quota: usize,
    Ghost(listed): Ghost<Seq<u32>>,
)
    requires
        is_picked(old(picked)@, listed, size as nat, quota as nat),
        position == listed.len(),
        position < size <= u32::MAX,
        quota <= size,
    ensures
        is_picked(final(picked)@, listed.push(token), size as nat, quota as nat),
{
    let index: usize = picked.len();
    let ghost before = picked@;
    let ghost more = listed.push(token);
    if index < quota {
        proof {
            lemma_sample_at(size as nat, quota as nat, index as int);
            assert(index * size <= 4294967295 * 4294967295) by (nonlinear_arith)
                requires
                    0 <= index <= 4294967295,
                    0 <= size <= 4294967295,
            ;
        }
        let at: u128 = index as u128 * size as u128 / quota as u128;
        assert(at == sample_at(size as nat, quota as nat, index as int));
        if at == position as u128 {
            picked.push(token);
            assert(picked@.len() == index + 1);
            assert(index + 1 < quota ==> sample_at(size as nat, quota as nat, index + 1)
                >= more.len());
        } else {
            assert(sample_at(size as nat, quota as nat, index as int) >= more.len());
        }
    }
    proof {
        assert(picked@.len() < quota ==> sample_at(
            size as nat,
            quota as nat,
            picked@.len() as int,
        ) >= more.len());
        assert forall|k: int| 0 <= k < picked@.len() implies #[trigger] is_pick(
            picked@[k],
            more,
            sample_at(size as nat, quota as nat, k),
        ) by {
            if k < before.len() {
                assert(is_pick(before[k], listed, sample_at(size as nat, quota as nat, k)));
                lemma_sample_at(size as nat, quota as nat, k);
            }
        }
        assert(picked@.len() <= quota);
        assert(is_picked(picked@, more, size as nat, quota as nat));
    }
}

/// A sample of the tokens with at least two members: the strata share it as evenly as their
/// sizes allow, and each stratum's share is evenly spread.
#[verifier::loop_isolation(false)]
#[verifier::rlimit(40)]
pub fn stratified_active_token_sample(token_member_offsets: &[u64], limit: usize) -> (sample: Vec<
    u32,
>)
    requires
        token_member_offsets@.len() <= u32::MAX,
    ensures
        sample@ == stratified_sample(token_member_offsets@, limit as int),
{
    let ghost offsets = token_member_offsets@;
    let len: usize = token_member_offsets.len();
    let tokens: usize = if len > 0 {
        len - 1
    } else {
        0
    };
    let mut counts: Vec<usize> = zeros();
    let mut active: usize = 0;
    let mut token: usize = 0;
    while token < tokens
        invariant
            token <= tokens,
            counts@.len() == 64,
            active == active_tokens(offsets, token as int),
            active <= token,
            forall|s: int|
                0 <= s < 64 ==> #[trigger] counts@[s] == stratum_tokens(
                    offsets,
                    s,
                    token as int,
                ).len(),
        decreases tokens - token,
    {
        if let Some(stratum) = shared_token_work_stratum(token_member_offsets, token as u32) {
            let s: usize = stratum as usize;
            proof {
                lemma_stratum_tokens_len(offsets, s as int, token as int);
            }
            let next: usize = counts[s] + 1;
            counts.set(s, next);
            active = active + 1;
        }
        token = token + 1;
    }
    assert(counts@ =~= stratum_sizes(offsets, tokens as int));
    let target: usize = if limit < active {
        limit
    } else {
        active
    };
    let mut keys: Vec<usize> = Vec::new();
    let mut s: usize = 0;
    while s < STRATA
        invariant
            s <= 64,
            keys@ == strata_below(counts@, s as int),
        decreases 64 - s,
    {
        if counts[s] != 0 {
            keys.push(s);
        }
        s = s + 1;
    }
    proof {
        lemma_strata_below(counts@, 64);
    }
    let mut order: Vec<usize> = Vec::new();
    let mut i: usize = 0;
    while i < keys.len()
        invariant
            i <= keys@.len(),
            keys@.len() <= 64,
            order@ == alternated(keys@).take(i as int),
        decreases keys.len() - i,
    {
        let pick: usize = if i % 2 == 0 {
            keys[i / 2]
        } else {
            keys[keys.len() - 1 - i / 2]
        };
        order.push(pick);
        assert(order@ =~= alternated(keys@).take(i + 1));
        i = i + 1;
    }
    assert(order@ =~= alternated(keys@));
    assert forall|k: int| 0 <= k < order@.len() implies (#[trigger] order@[k]) < 64 by {
        assert(order@[k] == alternated(keys@)[k]);
    }
    let quotas = allocate(&counts, &order, target);
    let mut visited: Vec<usize> = zeros();
    let mut selected: Vec<Vec<u32>> = Vec::new();
    while selected.len() < STRATA
        invariant
            selected@.len() <= 64,
            forall|k: int| 0 <= k < selected@.len() ==> (#[trigger] selected@[k])@.len() == 0,
        decreases 64 - selected.len(),
    {
        selected.push(Vec::new());
    }
    let mut token: usize = 0;
    proof {
        assert forall|s: int| 0 <= s < 64 implies #[trigger] is_picked(
            selected@[s]@,
            stratum_tokens(offsets, s, 0),
            counts@[s] as nat,
            quotas@[s] as nat,
        ) by {
            if quotas@[s] > 0 {
                lemma_sample_at(counts@[s] as nat, quotas@[s] as nat, 0);
            }
        }
    }
    while token < tokens
        invariant
            token <= tokens,
            visited@.len() == 64,
            selected@.len() == 64,
            forall|s: int|
                0 <= s < 64 ==> #[trigger] visited@[s] == stratum_tokens(
                    offsets,
                    s,
                    token as int,
                ).len(),
            forall|s: int|
                0 <= s < 64 ==> #[trigger] is_picked(
                    selected@[s]@,
                    stratum_tokens(offsets, s, token as int),
                    counts@[s] as nat,
                    quotas@[s] as nat,
                ),
        decreases tokens - token,
    {
        let ghost before = selected@;
        if let Some(found) = shared_token_work_stratum(token_member_offsets, token as u32) {
            let s: usize = found as usize;
            let position: usize = visited[s];
            let quota: usize = quotas[s];
            proof {
                lemma_stratum_tokens_len(offsets, s as int, token as int);
                lemma_stratum_tokens_len(offsets, s as int, tokens as int);
                lemma_stratum_tokens_grow(offsets, s as int, token + 1, tokens as int);
            }
            visited.set(s, position + 1);
            let ghost listed = stratum_tokens(offsets, s as int, token as int);
            let ghost more = stratum_tokens(offsets, s as int, token + 1);
            assert(more == listed.push(token as u32));
            assert(is_picked(before[s as int]@, listed, counts@[s as int] as nat, quota as nat));
            let mut row: Vec<u32> = Vec::new();
            std::mem::swap(&mut row, &mut selected[s]);
            pick(&mut row, token as u32, position, counts[s], quota, Ghost(listed));
            selected.set(s, row);
        }
        proof {
            assert forall|s: int| 0 <= s < 64 implies #[trigger] is_picked(
                selected@[s]@,
                stratum_tokens(offsets, s, token + 1),
                counts@[s] as nat,
                quotas@[s] as nat,
            ) by {
                assert(is_picked(
                    before[s]@,
                    stratum_tokens(offsets, s, token as int),
                    counts@[s] as nat,
                    quotas@[s] as nat,
                ));
            }
        }
        token = token + 1;
    }
    proof {
        assert forall|s: int| 0 <= s < 64 implies (#[trigger] selected@[s])@ == spread(
            stratum_tokens(offsets, s, tokens as int),
            quotas@[s] as nat,
        ) by {
            let all = stratum_tokens(offsets, s, tokens as int);
            let quota = quotas@[s] as nat;
            let picked = selected@[s]@;
            assert(is_picked(picked, all, counts@[s] as nat, quota));
            if picked.len() < quota {
                lemma_sample_at(counts@[s] as nat, quota, picked.len() as int);
            }
            assert forall|k: int| 0 <= k < picked.len() implies picked[k] == spread(all, quota)[k] by {
                assert(is_pick(picked[k], all, sample_at(counts@[s] as nat, quota, k)));
            }
            assert(picked =~= spread(all, quota));
        }
    }
    let mut sample: Vec<u32> = Vec::new();
    let mut i: usize = 0;
    while i < order.len()
        invariant
            i <= order@.len(),
            sample@ == gathered(offsets, tokens as int, order@, quotas@, i as int),
        decreases order.len() - i,
    {
        let s: usize = order[i];
        let mut k: usize = 0;
        let ghost start = sample@;
        let ghost row = selected@[s as int]@;
        assert(start + row.take(0) =~= start);
        while k < selected[s].len()
            invariant
                k <= row.len(),
                sample@ == start + row.take(k as int),
            decreases row.len() - k,
        {
            sample.push(selected[s][k]);
            assert(sample@ =~= start + row.take(k + 1));
            k = k + 1;
        }
        assert(row.take(k as int) =~= row);
        i = i + 1;
    }
    sample
}

/// A sample is spread evenly: the value at `i` of `count` stands at the `i`-th of `count` equal
/// parts of all values.
pub proof fn lemma_sample_is_even(n: nat, count: nat, i: int)
    requires
        0 <= i < count,
    ensures
        sample_at(n, count, i) * count <= i * n < (sample_at(n, count, i) + 1) * count,
{
    vstd::arithmetic::div_mod::lemma_fundamental_div_mod(i * n, count as int);
    vstd::arithmetic::div_mod::lemma_mod_bound(i * n, count as int);
    let at = sample_at(n, count, i);
    assert(count * at == at * count) by (nonlinear_arith);
    assert((at + 1) * count == at * count + count) by (nonlinear_arith);
}

/// Two to the power of `exponent`.
pub open spec fn power(exponent: nat) -> nat
    decreases exponent,
{
    if exponent == 0 {
        1
    } else {
        2 * power((exponent - 1) as nat)
    }
}

proof fn lemma_log2(work: nat)
    requires
        work >= 1,
    ensures
        power(log2(work)) <= work < power(log2(work) + 1),
    decreases work,
{
    reveal_with_fuel(power, 3);
    if work >= 2 {
        lemma_log2(work / 2);
        assert(power(log2(work)) == 2 * power(log2(work / 2)));
        assert(power(log2(work) + 1) == 2 * power(log2(work / 2) + 1));
    }
}

/// A token has a stratum exactly where it has two members or more, whose ordered pairs can be
/// counted: the exponent of the greatest power of two that is no more than its pairs.
pub proof fn lemma_stratum_bounds_pairs(offsets: Seq<u64>, token: int)
    requires
        0 <= token,
        token + 1 < offsets.len(),
    ensures
        ({
            let n = offsets[token + 1] - offsets[token];
            match stratum_of(offsets, token) {
                Some(stratum) => n >= 2 && n * (n - 1) <= u64::MAX && power(stratum) <= n * (n - 1)
                    / 2 < power(stratum + 1),
                None => n < 2 || n * (n - 1) > u64::MAX,
            }
        }),
{
    let n = offsets[token + 1] - offsets[token];
    if n >= 2 {
        assert(n * (n - 1) >= 2) by (nonlinear_arith)
            requires
                n >= 2,
        ;
        lemma_log2((n * (n - 1) / 2) as nat);
    }
}

/// A frontier covers all pairs of atoms exactly where, of every two different atoms, one was
/// examined; and it names known atoms alone.
pub proof fn lemma_covers_every_pair(calibration: Seq<u32>, holdout: Seq<u32>, atom_count: int)
    requires
        2 <= atom_count <= u32::MAX,
    ensures
        covers_pairs(calibration, holdout, atom_count) <==> {
            &&& forall|x: u32| #[trigger] calibration.contains(x) ==> x < atom_count
            &&& forall|x: u32| #[trigger] holdout.contains(x) ==> x < atom_count
            &&& forall|a: u32, b: u32|
                a != b && a < atom_count && b < atom_count ==> {
                    ||| #[trigger] calibration.contains(a) || holdout.contains(a)
                    ||| #[trigger] calibration.contains(b) || holdout.contains(b)
                }
        },
{
    assert forall|x: u32| #[trigger] is_examined(calibration, holdout, x as int)
        <==> calibration.contains(x) || holdout.contains(x) by {
        if calibration.contains(x) {
            assert(calibration[calibration.index_of(x)] == x);
        }
        if holdout.contains(x) {
            assert(holdout[holdout.index_of(x)] == x);
        }
    }
    if covers_pairs(calibration, holdout, atom_count) {
        assert forall|x: u32| #[trigger] calibration.contains(x) implies x < atom_count by {
            assert(calibration[calibration.index_of(x)] < atom_count);
        }
        assert forall|x: u32| #[trigger] holdout.contains(x) implies x < atom_count by {
            assert(holdout[holdout.index_of(x)] < atom_count);
        }
        assert forall|a: u32, b: u32| a != b && a < atom_count && b < atom_count implies {
            ||| #[trigger] calibration.contains(a) || holdout.contains(a)
            ||| #[trigger] calibration.contains(b) || holdout.contains(b)
        } by {
            assert(is_examined(calibration, holdout, a as int) || is_examined(
                calibration,
                holdout,
                b as int,
            )) by {
                if a < b {
                    assert(is_examined(calibration, holdout, a as int) || is_examined(
                        calibration,
                        holdout,
                        b as int,
                    ));
                } else {
                    assert(is_examined(calibration, holdout, b as int) || is_examined(
                        calibration,
                        holdout,
                        a as int,
                    ));
                }
            }
        }
    }
    if (forall|x: u32|
        #[trigger] calibration.contains(x) ==> x < atom_count) && (forall|x: u32|
        #[trigger] holdout.contains(x) ==> x < atom_count) && (forall|a: u32, b: u32|
        a != b && a < atom_count && b < atom_count ==> {
            ||| #[trigger] calibration.contains(a) || holdout.contains(a)
            ||| #[trigger] calibration.contains(b) || holdout.contains(b)
        }) {
        assert forall|i: int| 0 <= i < calibration.len() implies #[trigger] calibration[i]
            < atom_count by {
            assert(calibration.contains(calibration[i]));
        }
        assert forall|i: int| 0 <= i < holdout.len() implies #[trigger] holdout[i]
            < atom_count by {
            assert(holdout.contains(holdout[i]));
        }
        assert forall|a: int, b: int| 0 <= a < b < atom_count implies #[trigger] is_examined(
            calibration,
            holdout,
            a,
        ) || #[trigger] is_examined(calibration, holdout, b) by {
            let x = a as u32;
            let y = b as u32;
            assert(calibration.contains(x) || holdout.contains(x) || calibration.contains(y)
                || holdout.contains(y));
        }
    }
}

} // verus!
