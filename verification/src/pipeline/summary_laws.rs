//! What the rows of a summary count, contract by contract.

use crate::pipeline::scopes::{ChainPairRoots, ScopeComponents};
use crate::pipeline::summary;
use crate::pipeline::summary::SummaryEntry;
use crate::pipeline::summary_rows;
use crate::pipeline::summary_rows::MetadataSummaryRow;
use crate::snapshot::features::{FeatureReady, FeatureView};
use vstd::prelude::*;

verus! {

/// The sum over the positions below `count`.
pub open spec fn summed(weight: spec_fn(int) -> nat, count: int) -> nat
    decreases count,
{
    if count <= 0 {
        0
    } else {
        summed(weight, count - 1) + weight(count - 1)
    }
}

proof fn lemma_summed_same(one: spec_fn(int) -> nat, other: spec_fn(int) -> nat, count: int)
    requires
        forall|k: int| 0 <= k < count ==> #[trigger] one(k) == other(k),
    ensures
        summed(one, count) == summed(other, count),
    decreases count,
{
    if count > 0 {
        lemma_summed_same(one, other, count - 1);
        assert(one(count - 1) == other(count - 1));
    }
}

proof fn lemma_summed_add(
    one: spec_fn(int) -> nat,
    two: spec_fn(int) -> nat,
    both: spec_fn(int) -> nat,
    count: int,
)
    requires
        forall|k: int| 0 <= k < count ==> #[trigger] both(k) == one(k) + two(k),
    ensures
        summed(both, count) == summed(one, count) + summed(two, count),
    decreases count,
{
    if count > 0 {
        lemma_summed_add(one, two, both, count - 1);
        assert(both(count - 1) == one(count - 1) + two(count - 1));
    }
}

proof fn lemma_summed_positive(weight: spec_fn(int) -> nat, count: int)
    ensures
        summed(weight, count) > 0 <==> exists|k: int| 0 <= k < count && #[trigger] weight(k) > 0,
    decreases count,
{
    if count > 0 {
        lemma_summed_positive(weight, count - 1);
        if weight(count - 1) > 0 {
            assert(0 <= count - 1 < count && weight(count - 1) > 0);
        }
    }
}

/// The weights without that of one position.
pub open spec fn without(weight: spec_fn(int) -> nat, at: int) -> spec_fn(int) -> nat {
    |k: int|
        if k == at {
            0nat
        } else {
            weight(k)
        }
}

proof fn lemma_summed_without(weight: spec_fn(int) -> nat, at: int, count: int)
    requires
        0 <= at,
    ensures
        summed(weight, count) == summed(without(weight, at), count) + (if at < count {
            weight(at)
        } else {
            0
        }),
    decreases count,
{
    if count > 0 {
        lemma_summed_without(weight, at, count - 1);
    }
}

proof fn lemma_tally_summed(
    entries: Seq<SummaryEntry>,
    weight: spec_fn(SummaryEntry) -> nat,
    count: int,
)
    requires
        0 <= count <= entries.len(),
    ensures
        summary::tally(entries.take(count), weight) == summed(
            |k: int| weight(entries[k]),
            count,
        ),
    decreases count,
{
    if count > 0 {
        lemma_tally_summed(entries, weight, count - 1);
        assert(entries.take(count).drop_last() =~= entries.take(count - 1));
    }
}

/// Another entry has the root and the chain or, with `secondary`, the root and another chain.
pub open spec fn has_partner(entries: Seq<SummaryEntry>, secondary: bool, k: int) -> bool {
    exists|j: int|
        0 <= j < entries.len() && j != k && (#[trigger] entries[j]).root == entries[k].root && (
        entries[j].chain == entries[k].chain) == !secondary
}

/// Two other entries have the root and, without `secondary`, the chain.
pub open spec fn has_two_others(entries: Seq<SummaryEntry>, secondary: bool, k: int) -> bool {
    exists|i: int, j: int|
        0 <= i < entries.len() && 0 <= j < entries.len() && i != j && i != k && j != k && (
        #[trigger] entries[i]).root == entries[k].root && (#[trigger] entries[j]).root
            == entries[k].root && (secondary || (entries[i].chain == entries[k].chain
            && entries[j].chain == entries[k].chain))
}

/// No earlier entry has the root and the chain.
pub open spec fn is_first(entries: Seq<SummaryEntry>, k: int) -> bool {
    forall|j: int|
        0 <= j < k ==> !((#[trigger] entries[j]).root == entries[k].root && entries[j].chain
            == entries[k].chain)
}

/// The entry is a duplicate of the chain.
pub open spec fn is_duplicate(
    entries: Seq<SummaryEntry>,
    secondary: bool,
    chain: int,
    k: int,
) -> bool {
    entries[k].chain == chain && has_partner(entries, secondary, k)
}

/// The duplicates of a chain.
pub open spec fn duplicates(entries: Seq<SummaryEntry>, secondary: bool, chain: int) -> nat {
    summed(
        |k: int|
            if is_duplicate(entries, secondary, chain, k) {
                1nat
            } else {
                0nat
            },
        entries.len() as int,
    )
}

/// The tokens of the duplicates of a chain.
pub open spec fn duplicate_tokens(entries: Seq<SummaryEntry>, secondary: bool, chain: int) -> nat {
    summed(
        |k: int|
            if is_duplicate(entries, secondary, chain, k) && entries[k].nfts >= 0 {
                entries[k].nfts as nat
            } else {
                0nat
            },
        entries.len() as int,
    )
}

/// The groups of a chain: each is counted at the first of its duplicates.
pub open spec fn groups(entries: Seq<SummaryEntry>, secondary: bool, chain: int) -> nat {
    summed(
        |k: int|
            if is_duplicate(entries, secondary, chain, k) && is_first(entries, k) {
                1nat
            } else {
                0nat
            },
        entries.len() as int,
    )
}

/// The groups of a chain with more than two members.
pub open spec fn large_groups(entries: Seq<SummaryEntry>, secondary: bool, chain: int) -> nat {
    summed(
        |k: int|
            if is_duplicate(entries, secondary, chain, k) && is_first(entries, k)
                && has_two_others(entries, secondary, k) {
                1nat
            } else {
                0nat
            },
        entries.len() as int,
    )
}

spec fn root_weight(entries: Seq<SummaryEntry>, root: int) -> spec_fn(int) -> nat {
    |k: int| (summary::of_root(root))(entries[k])
}

spec fn chain_weight(entries: Seq<SummaryEntry>, root: int, chain: int) -> spec_fn(int) -> nat {
    |k: int| (summary::of_chain(root, chain))(entries[k])
}

proof fn lemma_counts(entries: Seq<SummaryEntry>, root: int, chain: int)
    ensures
        summary::root_count(entries, root) == summed(
            root_weight(entries, root),
            entries.len() as int,
        ),
        summary::chain_count(entries, root, chain) == summed(
            chain_weight(entries, root, chain),
            entries.len() as int,
        ),
        summary::chain_nfts(entries, root, chain) == summed(
            |k: int| (summary::nfts_of(root, chain))(entries[k]),
            entries.len() as int,
        ),
{
    let n = entries.len() as int;
    assert(entries.take(n) =~= entries);
    lemma_tally_summed(entries, summary::of_root(root), n);
    lemma_tally_summed(entries, summary::of_chain(root, chain), n);
    lemma_tally_summed(entries, summary::nfts_of(root, chain), n);
    lemma_summed_same(
        root_weight(entries, root),
        |k: int| (summary::of_root(root))(entries[k]),
        n,
    );
    lemma_summed_same(
        chain_weight(entries, root, chain),
        |k: int| (summary::of_chain(root, chain))(entries[k]),
        n,
    );
}

/// With one position known to count, there are two where another counts, and three where two
/// others do.
proof fn lemma_more(weight: spec_fn(int) -> nat, at: int, count: int)
    requires
        0 <= at < count,
        weight(at) == 1,
        forall|k: int| #[trigger] weight(k) <= 1,
    ensures
        summed(weight, count) >= 2 <==> exists|j: int|
            0 <= j < count && j != at && #[trigger] weight(j) > 0,
        summed(weight, count) >= 3 <==> exists|i: int, j: int|
            0 <= i < count && 0 <= j < count && i != j && i != at && j != at && #[trigger] weight(i)
                > 0 && #[trigger] weight(j) > 0,
{
    let rest = without(weight, at);
    lemma_summed_without(weight, at, count);
    lemma_summed_positive(rest, count);
    if exists|j: int| 0 <= j < count && j != at && #[trigger] weight(j) > 0 {
        let j = choose|j: int| 0 <= j < count && j != at && #[trigger] weight(j) > 0;
        assert(rest(j) > 0);
    }
    if exists|j: int| 0 <= j < count && #[trigger] rest(j) > 0 {
        let j = choose|j: int| 0 <= j < count && #[trigger] rest(j) > 0;
        assert(j != at && weight(j) > 0);
        let last = without(rest, j);
        lemma_summed_without(rest, j, count);
        lemma_summed_positive(last, count);
        if exists|i: int| 0 <= i < count && #[trigger] last(i) > 0 {
            let i = choose|i: int| 0 <= i < count && #[trigger] last(i) > 0;
            assert(weight(i) > 0 && weight(j) > 0);
        }
        if exists|a: int, b: int|
            0 <= a < count && 0 <= b < count && a != b && a != at && b != at && #[trigger] weight(a)
                > 0 && #[trigger] weight(b) > 0 {
            let (a, b) = choose|a: int, b: int|
                0 <= a < count && 0 <= b < count && a != b && a != at && b != at
                    && #[trigger] weight(a) > 0 && #[trigger] weight(b) > 0;
            if a == j {
                assert(last(b) > 0);
            } else {
                assert(last(a) > 0);
            }
        }
    }
}

proof fn lemma_is_group(entries: Seq<SummaryEntry>, secondary: bool, k: int)
    requires
        0 <= k < entries.len(),
    ensures
        summary::is_group(
            entries,
            secondary,
            entries[k].root as int,
            entries[k].chain as int,
        ) <==> has_partner(entries, secondary, k),
        ({
            let totals = summary::group_totals(
                entries,
                secondary,
                entries[k].root as int,
                entries[k].chain as int,
            );
            has_partner(entries, secondary, k) ==> (totals.large_groups == 1 <==> has_two_others(
                entries,
                secondary,
                k,
            ))
        }),
{
    let n = entries.len() as int;
    let root = entries[k].root as int;
    let chain = entries[k].chain as int;
    let own = chain_weight(entries, root, chain);
    let all = root_weight(entries, root);
    lemma_counts(entries, root, chain);
    lemma_more(own, k, n);
    lemma_more(all, k, n);
    let others = |j: int|
        if entries[j].root == root && entries[j].chain != chain {
            1nat
        } else {
            0nat
        };
    lemma_summed_add(own, others, all, n);
    lemma_summed_positive(others, n);
    lemma_summed_positive(own, n);
    assert(own(k) > 0);
    if has_partner(entries, secondary, k) {
        let j = choose|j: int|
            0 <= j < entries.len() && j != k && (#[trigger] entries[j]).root == entries[k].root && (
            entries[j].chain == entries[k].chain) == !secondary;
        if secondary {
            assert(others(j) > 0);
        } else {
            assert(own(j) > 0);
        }
    }
    if secondary {
        if exists|j: int| 0 <= j < n && #[trigger] others(j) > 0 {
            let j = choose|j: int| 0 <= j < n && #[trigger] others(j) > 0;
            assert(entries[j].root == root && j != k);
        }
    } else {
        if exists|j: int| 0 <= j < n && j != k && #[trigger] own(j) > 0 {
            let j = choose|j: int| 0 <= j < n && j != k && #[trigger] own(j) > 0;
            assert(entries[j].root == root);
        }
    }
    let counted = if secondary {
        all
    } else {
        own
    };
    if exists|i: int, j: int|
        0 <= i < n && 0 <= j < n && i != j && i != k && j != k && #[trigger] counted(i) > 0
            && #[trigger] counted(j) > 0 {
        let (i, j) = choose|i: int, j: int|
            0 <= i < n && 0 <= j < n && i != j && i != k && j != k && #[trigger] counted(i) > 0
                && #[trigger] counted(j) > 0;
        assert(entries[i].root == root && entries[j].root == root);
    }
    if has_two_others(entries, secondary, k) {
        let (i, j) = choose|i: int, j: int|
            0 <= i < entries.len() && 0 <= j < entries.len() && i != j && i != k && j != k && (
            #[trigger] entries[i]).root == entries[k].root && (#[trigger] entries[j]).root
                == entries[k].root && (secondary || (entries[i].chain == entries[k].chain
                && entries[j].chain == entries[k].chain));
        assert(counted(i) > 0 && counted(j) > 0);
    }
}

/// The first entry of a root and chain, where there is one.
proof fn lemma_one_first(entries: Seq<SummaryEntry>, root: int, chain: int, count: int)
    requires
        0 <= count <= entries.len(),
    ensures
        summed(
            |k: int|
                if entries[k].root == root && entries[k].chain == chain && is_first(entries, k) {
                    1nat
                } else {
                    0nat
                },
            count,
        ) == (if summed(chain_weight(entries, root, chain), count) > 0 {
            1nat
        } else {
            0nat
        }),
    decreases count,
{
    if count > 0 {
        lemma_one_first(entries, root, chain, count - 1);
        let own = chain_weight(entries, root, chain);
        lemma_summed_positive(own, count - 1);
        let k = count - 1;
        if entries[k].root == root && entries[k].chain == chain {
            if is_first(entries, k) {
                assert forall|j: int| 0 <= j < k implies #[trigger] own(j) == 0 by {
                    assert(!(entries[j].root == entries[k].root && entries[j].chain
                        == entries[k].chain));
                }
            } else {
                let j = choose|j: int|
                    0 <= j < k && (#[trigger] entries[j]).root == entries[k].root
                        && entries[j].chain == entries[k].chain;
                assert(own(j) > 0);
            }
        }
    }
}

/// The entry is of the chain, its root is below the bound, and its group counts.
spec fn counts_below(
    entries: Seq<SummaryEntry>,
    secondary: bool,
    chain: int,
    bound: int,
    k: int,
) -> bool {
    is_duplicate(entries, secondary, chain, k) && entries[k].root < bound
}

spec fn contract_weight(
    entries: Seq<SummaryEntry>,
    secondary: bool,
    chain: int,
    bound: int,
) -> spec_fn(int) -> nat {
    |k: int|
        if counts_below(entries, secondary, chain, bound, k) {
            1nat
        } else {
            0nat
        }
}

spec fn token_weight(
    entries: Seq<SummaryEntry>,
    secondary: bool,
    chain: int,
    bound: int,
) -> spec_fn(int) -> nat {
    |k: int|
        if counts_below(entries, secondary, chain, bound, k) && entries[k].nfts >= 0 {
            entries[k].nfts as nat
        } else {
            0nat
        }
}

spec fn group_weight(
    entries: Seq<SummaryEntry>,
    secondary: bool,
    chain: int,
    bound: int,
) -> spec_fn(int) -> nat {
    |k: int|
        if counts_below(entries, secondary, chain, bound, k) && is_first(entries, k) {
            1nat
        } else {
            0nat
        }
}

spec fn large_weight(
    entries: Seq<SummaryEntry>,
    secondary: bool,
    chain: int,
    bound: int,
) -> spec_fn(int) -> nat {
    |k: int|
        if counts_below(entries, secondary, chain, bound, k) && is_first(entries, k)
            && has_two_others(entries, secondary, k) {
            1nat
        } else {
            0nat
        }
}

proof fn lemma_totals_below(entries: Seq<SummaryEntry>, secondary: bool, chain: int, bound: int)
    requires
        0 <= bound,
    ensures
        ({
            let totals = summary::totals_below(entries, secondary, chain, bound);
            let n = entries.len() as int;
            &&& totals.contracts == summed(contract_weight(entries, secondary, chain, bound), n)
            &&& totals.nfts == summed(token_weight(entries, secondary, chain, bound), n)
            &&& totals.groups == summed(group_weight(entries, secondary, chain, bound), n)
            &&& totals.large_groups == summed(large_weight(entries, secondary, chain, bound), n)
        }),
    decreases bound,
{
    let n = entries.len() as int;
    if bound == 0 {
        let none = |k: int| 0nat;
        lemma_summed_same(contract_weight(entries, secondary, chain, 0), none, n);
        lemma_summed_same(token_weight(entries, secondary, chain, 0), none, n);
        lemma_summed_same(group_weight(entries, secondary, chain, 0), none, n);
        lemma_summed_same(large_weight(entries, secondary, chain, 0), none, n);
        lemma_summed_positive(none, n);
    } else {
        let root = bound - 1;
        lemma_totals_below(entries, secondary, chain, root);
        lemma_counts(entries, root, chain);
        let own = summary::group_totals(entries, secondary, root, chain);
        let is_group = summary::is_group(entries, secondary, root, chain);
        assert forall|k: int|
            0 <= k < n && entries[k].root == root && entries[k].chain == chain implies (
        #[trigger] has_partner(entries, secondary, k) <==> is_group) && (is_group ==> (
        own.large_groups == 1 <==> has_two_others(entries, secondary, k))) by {
            lemma_is_group(entries, secondary, k);
        }
        let contracts = |k: int|
            if is_group {
                (summary::of_chain(root, chain))(entries[k])
            } else {
                0nat
            };
        let tokens = |k: int|
            if is_group {
                (summary::nfts_of(root, chain))(entries[k])
            } else {
                0nat
            };
        let first = |k: int|
            if entries[k].root == root && entries[k].chain == chain && is_first(entries, k) {
                1nat
            } else {
                0nat
            };
        let group = |k: int|
            if is_group {
                first(k)
            } else {
                0nat
            };
        let large = |k: int|
            if is_group && own.large_groups == 1 {
                first(k)
            } else {
                0nat
            };
        let none = |k: int| 0nat;
        lemma_summed_positive(none, n);
        lemma_one_first(entries, root, chain, n);
        lemma_summed_positive(chain_weight(entries, root, chain), n);
        if is_group {
            lemma_summed_same(contracts, chain_weight(entries, root, chain), n);
            lemma_summed_same(
                tokens,
                |k: int| (summary::nfts_of(root, chain))(entries[k]),
                n,
            );
            lemma_summed_same(group, first, n);
            lemma_summed_same(
                first,
                |k: int|
                    if entries[k].root == root && entries[k].chain == chain && is_first(
                        entries,
                        k,
                    ) {
                        1nat
                    } else {
                        0nat
                    },
                n,
            );
        } else {
            lemma_summed_same(contracts, none, n);
            lemma_summed_same(tokens, none, n);
            lemma_summed_same(group, none, n);
        }
        if is_group && own.large_groups == 1 {
            lemma_summed_same(large, first, n);
        } else {
            lemma_summed_same(large, none, n);
        }
        lemma_summed_add(
            contract_weight(entries, secondary, chain, root),
            contracts,
            contract_weight(entries, secondary, chain, bound),
            n,
        );
        lemma_summed_add(
            token_weight(entries, secondary, chain, root),
            tokens,
            token_weight(entries, secondary, chain, bound),
            n,
        );
        lemma_summed_add(
            group_weight(entries, secondary, chain, root),
            group,
            group_weight(entries, secondary, chain, bound),
            n,
        );
        let before = large_weight(entries, secondary, chain, root);
        let after = large_weight(entries, secondary, chain, bound);
        assert forall|k: int| 0 <= k < n implies #[trigger] after(k) == before(k) + large(k) by {
            if entries[k].root == root && entries[k].chain == chain {
                assert(has_partner(entries, secondary, k) <==> is_group);
            }
        }
        lemma_summed_add(
            large_weight(entries, secondary, chain, root),
            large,
            large_weight(entries, secondary, chain, bound),
            n,
        );
    }
}

/// The totals of a chain count its duplicates: the entries of the chain with another entry of
/// their root, of the same chain or, with `secondary`, of another one. They count the tokens of
/// those, their groups, and the groups of more than two.
pub proof fn lemma_chain_totals(entries: Seq<SummaryEntry>, secondary: bool, chain: int)
    ensures
        ({
            let totals = summary::chain_totals(entries, secondary, chain);
            &&& totals.contracts == duplicates(entries, secondary, chain)
            &&& totals.nfts == duplicate_tokens(entries, secondary, chain)
            &&& totals.groups == groups(entries, secondary, chain)
            &&& totals.large_groups == large_groups(entries, secondary, chain)
        }),
{
    let n = entries.len() as int;
    let bound = u32::MAX + 1;
    lemma_totals_below(entries, secondary, chain, bound);
    lemma_summed_same(
        contract_weight(entries, secondary, chain, bound),
        |k: int|
            if is_duplicate(entries, secondary, chain, k) {
                1nat
            } else {
                0nat
            },
        n,
    );
    lemma_summed_same(
        token_weight(entries, secondary, chain, bound),
        |k: int|
            if is_duplicate(entries, secondary, chain, k) && entries[k].nfts >= 0 {
                entries[k].nfts as nat
            } else {
                0nat
            },
        n,
    );
    lemma_summed_same(
        group_weight(entries, secondary, chain, bound),
        |k: int|
            if is_duplicate(entries, secondary, chain, k) && is_first(entries, k) {
                1nat
            } else {
                0nat
            },
        n,
    );
    lemma_summed_same(
        large_weight(entries, secondary, chain, bound),
        |k: int|
            if is_duplicate(entries, secondary, chain, k) && is_first(entries, k)
                && has_two_others(entries, secondary, k) {
                1nat
            } else {
                0nat
            },
        n,
    );
}

/// The contracts with their roots, chains and tokens.
pub open spec fn contract_entries(features: FeatureView, roots: Seq<u32>) -> Seq<SummaryEntry> {
    Seq::new(
        roots.len(),
        |x: int|
            SummaryEntry {
                root: roots[x],
                chain: features.contract_chain@[x],
                nfts: tokens_at(features, x),
            },
    )
}

/// The tokens of a contract, as many as are kept.
pub open spec fn tokens_at(features: FeatureView, contract: int) -> i64 {
    if features.contract_weight@[contract] <= i64::MAX {
        features.contract_weight@[contract] as i64
    } else {
        i64::MAX
    }
}

proof fn lemma_scope_entries(
    features: FeatureView,
    roots: Seq<u32>,
    chain_count: int,
    count: int,
)
    requires
        0 <= count <= roots.len() == features.contract_chain@.len(),
        forall|x: int|
            0 <= x < roots.len() ==> (#[trigger] features.contract_chain@[x]) < chain_count,
    ensures
        summary_rows::entries_of_roots(features, roots, chain_count, count) == contract_entries(
            features,
            roots,
        ).take(count),
    decreases count,
{
    if count > 0 {
        lemma_scope_entries(features, roots, chain_count, count - 1);
        assert(features.contract_chain@[count - 1] < chain_count);
        assert(contract_entries(features, roots).take(count) =~= contract_entries(
            features,
            roots,
        ).take(count - 1).push(contract_entries(features, roots)[count - 1]));
    } else {
        assert(contract_entries(features, roots).take(0) =~= Seq::empty());
    }
}

/// The row holds the duplicates of a chain among the entries.
pub open spec fn row_counts(
    row: MetadataSummaryRow,
    entries: Seq<SummaryEntry>,
    secondary: bool,
    chain: int,
) -> bool {
    let tokens = duplicate_tokens(entries, secondary, chain);
    &&& row.duplicate_contract_count == duplicates(entries, secondary, chain)
    &&& row.duplicate_nft_count == (if tokens <= i64::MAX {
        tokens as int
    } else {
        i64::MAX as int
    })
    &&& row.group_count == groups(entries, secondary, chain)
    &&& row.group_size_ge_2_count == groups(entries, secondary, chain)
    &&& row.group_size_gt_2_count == large_groups(entries, secondary, chain)
}

/// The row names a chain, with the totals that are announced for it.
pub open spec fn row_names(row: MetadataSummaryRow, ready: FeatureReady, chain: int) -> bool {
    &&& row.primary_chain@ == ready.chains@[chain]@
    &&& chain < ready.chain_totals@.len() ==> row.total_contracts
        == ready.chain_totals@[chain].contracts && row.total_nfts == ready.chain_totals@[chain].nfts
}

/// The rows of a chain: the first counts its contracts that share a root within chains with
/// another contract of the chain. Where there are other chains, the second counts those that
/// share a root across chains with a contract of another chain.
pub proof fn lemma_rows_of_chain(
    rows: Seq<MetadataSummaryRow>,
    ready: FeatureReady,
    features: FeatureView,
    scopes: ScopeComponents,
    chain_count: int,
    chain: int,
)
    requires
        summary_rows::are_summary_rows(rows, ready, features, scopes, chain_count),
        0 <= chain < chain_count <= ready.chains@.len(),
        scopes.intra_roots@.len() == features.contract_chain@.len(),
        scopes.cross_roots@.len() == features.contract_chain@.len(),
        forall|x: int|
            0 <= x < features.contract_chain@.len() ==> (#[trigger] features.contract_chain@[x])
                < chain_count,
    ensures
        ({
            let at = if chain_count > 1 {
                2 * chain
            } else {
                chain
            };
            &&& row_counts(
                rows[at],
                contract_entries(features, scopes.intra_roots@),
                false,
                chain,
            )
            &&& rows[at].scope@ == "intra_chain"@
            &&& rows[at].secondary_chain@ == ""@
            &&& row_names(rows[at], ready, chain)
            &&& chain_count > 1 ==> {
                &&& row_counts(
                    rows[at + 1],
                    contract_entries(features, scopes.cross_roots@),
                    true,
                    chain,
                )
                &&& rows[at + 1].scope@ == "cross_chain_summary"@
                &&& rows[at + 1].secondary_chain@ == ""@
                &&& row_names(rows[at + 1], ready, chain)
            }
        }),
{
    let n = features.contract_chain@.len() as int;
    let intra = contract_entries(features, scopes.intra_roots@);
    let cross = contract_entries(features, scopes.cross_roots@);
    assert(summary_rows::counts_chain(rows, ready, features, scopes, chain_count, chain));
    lemma_scope_entries(features, scopes.intra_roots@, chain_count, n);
    lemma_scope_entries(features, scopes.cross_roots@, chain_count, n);
    assert(intra.take(n) =~= intra);
    assert(cross.take(n) =~= cross);
    lemma_chain_totals(intra, false, chain);
    lemma_chain_totals(cross, true, chain);
    assert(chain * 2 == 2 * chain);
}

/// The contracts of two chains with their roots, those of the left chain first.
pub open spec fn pair_contract_entries(
    features: FeatureView,
    pair: ChainPairRoots,
    left: Seq<u32>,
    right: Seq<u32>,
) -> Seq<SummaryEntry> {
    Seq::new(
        pair.roots@.len(),
        |x: int|
            if x < left.len() {
                SummaryEntry {
                    root: pair.roots@[x],
                    chain: pair.left_chain,
                    nfts: tokens_at(features, left[x] as int),
                }
            } else {
                SummaryEntry {
                    root: pair.roots@[x],
                    chain: pair.right_chain,
                    nfts: tokens_at(features, right[x - left.len()] as int),
                }
            },
    )
}

proof fn lemma_pair_contract_entries(
    features: FeatureView,
    pair: ChainPairRoots,
    left: Seq<u32>,
    right: Seq<u32>,
    count: int,
)
    requires
        0 <= count <= pair.roots@.len() == left.len() + right.len(),
        forall|x: int|
            0 <= x < left.len() ==> (#[trigger] left[x]) < features.contract_weight@.len(),
        forall|x: int|
            0 <= x < right.len() ==> (#[trigger] right[x]) < features.contract_weight@.len(),
    ensures
        summary_rows::pair_entries(features, pair, left, right, count) == pair_contract_entries(
            features,
            pair,
            left,
            right,
        ).take(count),
    decreases count,
{
    let all = pair_contract_entries(features, pair, left, right);
    if count > 0 {
        lemma_pair_contract_entries(features, pair, left, right, count - 1);
        let x = count - 1;
        if x < left.len() {
            assert(left[x] < features.contract_weight@.len());
        } else {
            assert(right[x - left.len()] < features.contract_weight@.len());
        }
        assert(all.take(count) =~= all.take(count - 1).push(all[count - 1]));
    } else {
        assert(all.take(0) =~= Seq::empty());
    }
}

/// The rows of a pair of chains: each counts the contracts of one of the two that share a root
/// with a contract of the other.
pub proof fn lemma_rows_of_pair(
    rows: Seq<MetadataSummaryRow>,
    ready: FeatureReady,
    features: FeatureView,
    scopes: ScopeComponents,
    chain_count: int,
    k: int,
    left: Seq<u32>,
    right: Seq<u32>,
)
    requires
        summary_rows::are_summary_rows(rows, ready, features, scopes, chain_count),
        0 <= k < scopes.chain_pair_roots@.len(),
        scopes.row(scopes.chain_pair_roots@[k].left_chain as int) == Some(left),
        scopes.row(scopes.chain_pair_roots@[k].right_chain as int) == Some(right),
        scopes.chain_pair_roots@[k].left_chain != scopes.chain_pair_roots@[k].right_chain,
        scopes.chain_pair_roots@[k].left_chain < ready.chains@.len(),
        scopes.chain_pair_roots@[k].right_chain < ready.chains@.len(),
        scopes.chain_pair_roots@[k].roots@.len() == left.len() + right.len(),
        forall|x: int|
            0 <= x < left.len() ==> (#[trigger] left[x]) < features.contract_weight@.len(),
        forall|x: int|
            0 <= x < right.len() ==> (#[trigger] right[x]) < features.contract_weight@.len(),
    ensures
        ({
            let pair = scopes.chain_pair_roots@[k];
            let entries = pair_contract_entries(features, pair, left, right);
            let at = (if chain_count > 1 {
                2 * chain_count
            } else {
                chain_count
            }) + 2 * k;
            &&& row_counts(rows[at], entries, true, pair.left_chain as int)
            &&& row_names(rows[at], ready, pair.left_chain as int)
            &&& rows[at].scope@ == "chain_matrix"@
            &&& rows[at].secondary_chain@ == ready.chains@[pair.right_chain as int]@
            &&& row_counts(rows[at + 1], entries, true, pair.right_chain as int)
            &&& row_names(rows[at + 1], ready, pair.right_chain as int)
            &&& rows[at + 1].scope@ == "chain_matrix"@
            &&& rows[at + 1].secondary_chain@ == ready.chains@[pair.left_chain as int]@
        }),
{
    let pair = scopes.chain_pair_roots@[k];
    let entries = pair_contract_entries(features, pair, left, right);
    let n = pair.roots@.len() as int;
    let first = chain_count * summary_rows::rows_per_chain(chain_count);
    assert(first == if chain_count > 1 {
        2 * chain_count
    } else {
        chain_count
    });
    assert(summary_rows::counts_pair(rows, ready, features, scopes, first + 2 * k, k));
    lemma_pair_contract_entries(features, pair, left, right, n);
    assert(entries.take(n) =~= entries);
    lemma_chain_totals(entries, true, pair.left_chain as int);
    lemma_chain_totals(entries, true, pair.right_chain as int);
}

} // verus!
