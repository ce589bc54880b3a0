//! Counting the duplicate groups of each chain.

use vstd::prelude::*;

verus! {

/// A contract as the summary sees it: its root, its chain and its tokens.
#[derive(Debug, Clone, Copy, PartialEq, Eq, Structural)]
pub struct SummaryEntry {
    pub root: u32,
    pub chain: u32,
    pub nfts: i64,
}

impl SummaryEntry {
    /// The entry is ordered before the other, or has its root and chain.
    pub open spec fn precedes(self, other: SummaryEntry) -> bool {
        self.root < other.root || (self.root == other.root && self.chain <= other.chain)
    }
}

/// The sum of the weights.
pub open spec fn tally<T>(items: Seq<T>, weight: spec_fn(T) -> nat) -> nat
    decreases items.len(),
{
    if items.len() == 0 {
        0
    } else {
        tally(items.drop_last(), weight) + weight(items.last())
    }
}

/// One for each entry of the root.
pub open spec fn of_root(root: int) -> spec_fn(SummaryEntry) -> nat {
    |entry: SummaryEntry|
        if entry.root == root {
            1nat
        } else {
            0nat
        }
}

/// One for each entry of the root and chain.
pub open spec fn of_chain(root: int, chain: int) -> spec_fn(SummaryEntry) -> nat {
    |entry: SummaryEntry|
        if entry.root == root && entry.chain == chain {
            1nat
        } else {
            0nat
        }
}

/// The tokens of each entry of the root and chain.
pub open spec fn nfts_of(root: int, chain: int) -> spec_fn(SummaryEntry) -> nat {
    |entry: SummaryEntry|
        if entry.root == root && entry.chain == chain && entry.nfts >= 0 {
            entry.nfts as nat
        } else {
            0nat
        }
}

/// The number of entries of a root.
pub open spec fn root_count(entries: Seq<SummaryEntry>, root: int) -> nat {
    tally(entries, of_root(root))
}

/// The number of entries of a root and chain.
pub open spec fn chain_count(entries: Seq<SummaryEntry>, root: int, chain: int) -> nat {
    tally(entries, of_chain(root, chain))
}

/// The tokens of a root and chain.
pub open spec fn chain_nfts(entries: Seq<SummaryEntry>, root: int, chain: int) -> nat {
    tally(entries, nfts_of(root, chain))
}

/// Counts without limits.
pub struct SummaryTotals {
    pub groups: nat,
    pub contracts: nat,
    pub nfts: nat,
    pub large_groups: nat,
}

/// Counts of nothing.
pub open spec fn no_totals() -> SummaryTotals {
    SummaryTotals { groups: 0, contracts: 0, nfts: 0, large_groups: 0 }
}

/// The counts of both.
pub open spec fn joined(a: SummaryTotals, b: SummaryTotals) -> SummaryTotals {
    SummaryTotals {
        groups: a.groups + b.groups,
        contracts: a.contracts + b.contracts,
        nfts: a.nfts + b.nfts,
        large_groups: a.large_groups + b.large_groups,
    }
}

/// The group of a root counts for the chain: the chain has two entries in it or, with
/// `secondary`, the chain and another chain have entries in it.
pub open spec fn is_group(
    entries: Seq<SummaryEntry>,
    secondary: bool,
    root: int,
    chain: int,
) -> bool {
    let count = chain_count(entries, root, chain);
    if secondary {
        count > 0 && root_count(entries, root) > count
    } else {
        count >= 2
    }
}

/// What a root counts for the chain. A group is large above two entries, of the chain or, with
/// `secondary`, of all chains.
pub open spec fn group_totals(
    entries: Seq<SummaryEntry>,
    secondary: bool,
    root: int,
    chain: int,
) -> SummaryTotals {
    if is_group(entries, secondary, root, chain) {
        let size = if secondary {
            root_count(entries, root)
        } else {
            chain_count(entries, root, chain)
        };
        SummaryTotals {
            groups: 1,
            contracts: chain_count(entries, root, chain),
            nfts: chain_nfts(entries, root, chain),
            large_groups: if size > 2 {
                1
            } else {
                0
            },
        }
    } else {
        no_totals()
    }
}

/// What the roots below the bound count for the chain.
pub open spec fn totals_below(
    entries: Seq<SummaryEntry>,
    secondary: bool,
    chain: int,
    bound: int,
) -> SummaryTotals
    decreases bound,
{
    if bound <= 0 {
        no_totals()
    } else {
        joined(
            totals_below(entries, secondary, chain, bound - 1),
            group_totals(entries, secondary, bound - 1, chain),
        )
    }
}

/// What all roots count for the chain.
pub open spec fn chain_totals(
    entries: Seq<SummaryEntry>,
    secondary: bool,
    chain: int,
) -> SummaryTotals {
    totals_below(entries, secondary, chain, u32::MAX + 1)
}

/// The count, or the greatest that is kept.
pub open spec fn capped(count: nat) -> int {
    if count > i64::MAX {
        i64::MAX as int
    } else {
        count as int
    }
}

/// The duplicates of a chain.
#[derive(Debug, Clone, Copy, PartialEq, Eq, Structural)]
pub struct SummaryStats {
    pub group_count: i64,
    pub duplicate_contract_count: i64,
    pub duplicate_nft_count: i64,
    pub group_size_ge_2_count: i64,
    pub group_size_gt_2_count: i64,
}

impl SummaryStats {
    /// No duplicates.
    pub fn none() -> (stats: SummaryStats)
        ensures
            stats.counts(no_totals()),
    {
        SummaryStats {
            group_count: 0,
            duplicate_contract_count: 0,
            duplicate_nft_count: 0,
            group_size_ge_2_count: 0,
            group_size_gt_2_count: 0,
        }
    }

    /// The stats hold the counts, the tokens up to the greatest that is kept.
    pub open spec fn counts(self, totals: SummaryTotals) -> bool {
        &&& self.group_count == totals.groups
        &&& self.duplicate_contract_count == totals.contracts
        &&& self.duplicate_nft_count == capped(totals.nfts)
        &&& self.group_size_ge_2_count == totals.groups
        &&& self.group_size_gt_2_count == totals.large_groups
    }
}

/// The sum, or the greatest that is kept.
pub fn capped_sum(a: i64, b: i64) -> (sum: i64)
    requires
        a >= 0,
        b >= 0,
    ensures
        sum == capped((a + b) as nat),
{
    if a > i64::MAX - b {
        i64::MAX
    } else {
        a + b
    }
}

/// Adds one group to the stats.
pub(crate) fn accumulate_summary(target: &mut SummaryStats, count: i64, nfts: i64, large: bool)
    requires
        count >= 0,
        nfts >= 0,
        old(target).duplicate_nft_count >= 0,
        old(target).group_count < i64::MAX,
        old(target).group_size_ge_2_count < i64::MAX,
        old(target).group_size_gt_2_count < i64::MAX,
        old(target).duplicate_contract_count + count <= i64::MAX,
    ensures
        final(target).group_count == old(target).group_count + 1,
        final(target).duplicate_contract_count == old(target).duplicate_contract_count + count,
        final(target).duplicate_nft_count == capped(
            (old(target).duplicate_nft_count + nfts) as nat,
        ),
        final(target).group_size_ge_2_count == old(target).group_size_ge_2_count + 1,
        final(target).group_size_gt_2_count == old(target).group_size_gt_2_count + (if large {
            1int
        } else {
            0
        }),
{
    target.group_count = target.group_count + 1;
    target.duplicate_contract_count = target.duplicate_contract_count + count;
    target.duplicate_nft_count = capped_sum(target.duplicate_nft_count, nfts);
    target.group_size_ge_2_count = target.group_size_ge_2_count + 1;
    if large {
        target.group_size_gt_2_count = target.group_size_gt_2_count + 1;
    }
}

pub proof fn lemma_tally_push<T>(items: Seq<T>, item: T, weight: spec_fn(T) -> nat)
    ensures
        tally(items.push(item), weight) == tally(items, weight) + weight(item),
{
    assert(items.push(item).drop_last() =~= items);
}

proof fn lemma_tally_remove<T>(items: Seq<T>, at: int, weight: spec_fn(T) -> nat)
    requires
        0 <= at < items.len(),
    ensures
        tally(items, weight) == tally(items.remove(at), weight) + weight(items[at]),
    decreases items.len(),
{
    let last = items.len() - 1;
    if at == last {
        assert(items.remove(at) =~= items.drop_last());
    } else {
        lemma_tally_remove(items.drop_last(), at, weight);
        assert(items.remove(at).drop_last() =~= items.drop_last().remove(at));
        assert(items.remove(at).last() == items.last());
    }
}

/// The sum of the weights does not depend on the order.
pub proof fn lemma_tally_order<T>(a: Seq<T>, b: Seq<T>, weight: spec_fn(T) -> nat)
    requires
        a.to_multiset() == b.to_multiset(),
    ensures
        tally(a, weight) == tally(b, weight),
    decreases a.len(),
{
    broadcast use vstd::seq_lib::group_to_multiset_ensures;

    assert(a.len() == a.to_multiset().len());
    assert(b.len() == b.to_multiset().len());
    if a.len() > 0 {
        let item = a.last();
        assert(a.contains(item));
        assert(b.to_multiset().count(item) > 0);
        assert(b.contains(item));
        let at = b.index_of(item);
        assert(b[at] == item);
        lemma_tally_remove(b, at, weight);
        assert(a.remove(a.len() - 1) =~= a.drop_last());
        assert(a.drop_last().to_multiset() =~= b.remove(at).to_multiset());
        lemma_tally_order(a.drop_last(), b.remove(at), weight);
    }
}

proof fn lemma_tally_mono<T>(items: Seq<T>, less: spec_fn(T) -> nat, more: spec_fn(T) -> nat)
    requires
        forall|item: T| #[trigger] less(item) <= more(item),
    ensures
        tally(items, less) <= tally(items, more),
    decreases items.len(),
{
    if items.len() > 0 {
        lemma_tally_mono(items.drop_last(), less, more);
        assert(less(items.last()) <= more(items.last()));
    }
}

proof fn lemma_tally_sum<T>(
    items: Seq<T>,
    one: spec_fn(T) -> nat,
    two: spec_fn(T) -> nat,
    both: spec_fn(T) -> nat,
)
    requires
        forall|item: T| #[trigger] one(item) + two(item) == both(item),
    ensures
        tally(items, one) + tally(items, two) == tally(items, both),
    decreases items.len(),
{
    if items.len() > 0 {
        lemma_tally_sum(items.drop_last(), one, two, both);
        assert(one(items.last()) + two(items.last()) == both(items.last()));
    }
}

pub proof fn lemma_tally_len<T>(items: Seq<T>, weight: spec_fn(T) -> nat)
    requires
        forall|item: T| #[trigger] weight(item) <= 1,
    ensures
        tally(items, weight) <= items.len(),
    decreases items.len(),
{
    if items.len() > 0 {
        lemma_tally_len(items.drop_last(), weight);
        assert(weight(items.last()) <= 1);
    }
}

/// What one more entry counts.
pub proof fn lemma_counts_push(entries: Seq<SummaryEntry>, entry: SummaryEntry)
    requires
        entry.nfts >= 0,
    ensures
        forall|root: int| #[trigger]
            root_count(entries.push(entry), root) == root_count(entries, root) + (if entry.root
                == root {
                1int
            } else {
                0
            }),
        forall|root: int, chain: int| #[trigger]
            chain_count(entries.push(entry), root, chain) == chain_count(entries, root, chain) + (
            if entry.root == root && entry.chain == chain {
                1int
            } else {
                0
            }),
        forall|root: int, chain: int| #[trigger]
            chain_nfts(entries.push(entry), root, chain) == chain_nfts(entries, root, chain) + (
            if entry.root == root && entry.chain == chain {
                entry.nfts as int
            } else {
                0
            }),
{
    assert forall|root: int| #[trigger]
        root_count(entries.push(entry), root) == root_count(entries, root) + (if entry.root
            == root {
            1int
        } else {
            0
        }) by {
        lemma_tally_push(entries, entry, of_root(root));
    }
    assert forall|root: int, chain: int| #[trigger]
        chain_count(entries.push(entry), root, chain) == chain_count(entries, root, chain) + (
        if entry.root == root && entry.chain == chain {
            1int
        } else {
            0
        }) by {
        lemma_tally_push(entries, entry, of_chain(root, chain));
    }
    assert forall|root: int, chain: int| #[trigger]
        chain_nfts(entries.push(entry), root, chain) == chain_nfts(entries, root, chain) + (
        if entry.root == root && entry.chain == chain {
            entry.nfts as int
        } else {
            0
        }) by {
        lemma_tally_push(entries, entry, nfts_of(root, chain));
    }
}

pub proof fn lemma_chain_within_root(entries: Seq<SummaryEntry>, root: int, chain: int)
    ensures
        chain_count(entries, root, chain) <= root_count(entries, root),
{
    lemma_tally_mono(entries, of_chain(root, chain), of_root(root));
}

proof fn lemma_totals_same(
    one: Seq<SummaryEntry>,
    two: Seq<SummaryEntry>,
    secondary: bool,
    chain: int,
    bound: int,
)
    requires
        forall|root: int|
            0 <= root < bound ==> group_totals(one, secondary, root, chain)
                == #[trigger] group_totals(two, secondary, root, chain),
    ensures
        totals_below(one, secondary, chain, bound) == totals_below(two, secondary, chain, bound),
    decreases bound,
{
    if bound > 0 {
        lemma_totals_same(one, two, secondary, chain, bound - 1);
        assert(group_totals(one, secondary, bound - 1, chain) == group_totals(
            two,
            secondary,
            bound - 1,
            chain,
        ));
    }
}

pub proof fn lemma_totals_gap(
    entries: Seq<SummaryEntry>,
    secondary: bool,
    chain: int,
    from: int,
    to: int,
)
    requires
        0 <= from <= to,
        forall|root: int|
            from <= root < to ==> #[trigger] group_totals(entries, secondary, root, chain)
                == no_totals(),
    ensures
        totals_below(entries, secondary, chain, to) == totals_below(
            entries,
            secondary,
            chain,
            from,
        ),
    decreases to - from,
{
    if from < to {
        lemma_totals_gap(entries, secondary, chain, from, to - 1);
        assert(group_totals(entries, secondary, to - 1, chain) == no_totals());
    }
}

/// One for each entry of a root below the bound.
spec fn of_roots_below(bound: int) -> spec_fn(SummaryEntry) -> nat {
    |entry: SummaryEntry|
        if entry.root < bound {
            1nat
        } else {
            0nat
        }
}

proof fn lemma_totals_within(
    entries: Seq<SummaryEntry>,
    secondary: bool,
    chain: int,
    bound: int,
)
    ensures
        totals_below(entries, secondary, chain, bound).contracts <= tally(
            entries,
            of_roots_below(bound),
        ),
        totals_below(entries, secondary, chain, bound).large_groups <= totals_below(
            entries,
            secondary,
            chain,
            bound,
        ).groups,
        totals_below(entries, secondary, chain, bound).groups <= totals_below(
            entries,
            secondary,
            chain,
            bound,
        ).contracts,
    decreases bound,
{
    if bound > 0 {
        lemma_totals_within(entries, secondary, chain, bound - 1);
        lemma_tally_sum(
            entries,
            of_roots_below(bound - 1),
            of_root(bound - 1),
            of_roots_below(bound),
        );
        lemma_chain_within_root(entries, bound - 1, chain);
    }
}

/// No count exceeds the number of entries.
pub proof fn lemma_totals_bounded(
    entries: Seq<SummaryEntry>,
    secondary: bool,
    chain: int,
    bound: int,
)
    ensures
        totals_below(entries, secondary, chain, bound).contracts <= entries.len(),
        totals_below(entries, secondary, chain, bound).groups <= entries.len(),
        totals_below(entries, secondary, chain, bound).large_groups <= totals_below(
            entries,
            secondary,
            chain,
            bound,
        ).groups,
{
    lemma_totals_within(entries, secondary, chain, bound);
    lemma_tally_len(entries, of_roots_below(bound));
}

/// The counts of a chain do not depend on the order of the entries.
pub proof fn lemma_totals_order(
    a: Seq<SummaryEntry>,
    b: Seq<SummaryEntry>,
    secondary: bool,
    chain: int,
)
    requires
        same_tallies(a, b),
    ensures
        chain_totals(a, secondary, chain) == chain_totals(b, secondary, chain),
{
    assert forall|root: int| 0 <= root <= u32::MAX implies group_totals(a, secondary, root, chain)
        == #[trigger] group_totals(b, secondary, root, chain) by {
        assert(root_count(a, root) == root_count(b, root));
        assert(chain_count(a, root, chain) == chain_count(b, root, chain));
        assert(chain_nfts(a, root, chain) == chain_nfts(b, root, chain));
    }
    lemma_totals_same(a, b, secondary, chain, u32::MAX + 1);
}

/// Every root and chain has as many entries and tokens in both.
pub open spec fn same_tallies(a: Seq<SummaryEntry>, b: Seq<SummaryEntry>) -> bool {
    forall|weight: spec_fn(SummaryEntry) -> nat| #[trigger] tally(a, weight) == tally(b, weight)
}

/// Which chains the stats are kept for.
#[derive(Debug, Clone, Copy, PartialEq, Eq, Structural)]
pub enum SummaryChainSelection {
    /// The chains below a number.
    All(usize),
    /// Two chains.
    Pair { left: u32, right: u32 },
}

impl SummaryChainSelection {
    /// Where the stats of a chain are kept.
    pub open spec fn slot_of(self, chain: int) -> Option<int> {
        match self {
            SummaryChainSelection::All(count) => if 0 <= chain < count {
                Some(chain)
            } else {
                None
            },
            SummaryChainSelection::Pair { left, right } => if chain == left {
                Some(0int)
            } else if chain == right {
                Some(1int)
            } else {
                None
            },
        }
    }

    /// The number of chains that stats are kept for.
    pub open spec fn slots(self) -> int {
        match self {
            SummaryChainSelection::All(count) => count as int,
            SummaryChainSelection::Pair { .. } => 2,
        }
    }

    /// The chain has stats.
    pub fn includes(&self, chain: u32) -> (included: bool)
        ensures
            included == (self.slot_of(chain as int) is Some),
    {
        self.slot(chain).is_some()
    }

    /// Where the stats of a chain are kept.
    pub fn slot(&self, chain: u32) -> (slot: Option<usize>)
        ensures
            match self.slot_of(chain as int) {
                Some(at) => slot matches Some(found) && found == at,
                None => slot is None,
            },
    {
        match *self {
            SummaryChainSelection::All(count) => if (chain as usize) < count {
                Some(chain as usize)
            } else {
                None
            },
            SummaryChainSelection::Pair { left, right } => if chain == left {
                Some(0)
            } else if chain == right {
                Some(1)
            } else {
                None
            },
        }
    }

    /// Stats without duplicates.
    pub fn no_stats(&self) -> (stats: Vec<SummaryStats>)
        ensures
            stats@.len() == self.slots(),
            forall|k: int| 0 <= k < stats@.len() ==> (#[trigger] stats@[k]).counts(no_totals()),
    {
        let slots: usize = match *self {
            SummaryChainSelection::All(count) => count,
            SummaryChainSelection::Pair { .. } => 2,
        };
        let mut stats: Vec<SummaryStats> = Vec::new();
        let mut k: usize = 0;
        while k < slots
            invariant
                k <= slots,
                stats@.len() == k,
                forall|i: int|
                    0 <= i < stats@.len() ==> (#[trigger] stats@[i]).counts(no_totals()),
            decreases slots - k,
        {
            stats.push(SummaryStats::none());
            k = k + 1;
        }
        stats
    }
}

/// The stats hold, for each of their chains, what the entries count.
pub open spec fn are_stats(
    stats: Seq<SummaryStats>,
    selection: SummaryChainSelection,
    entries: Seq<SummaryEntry>,
    secondary: bool,
) -> bool {
    &&& stats.len() == selection.slots()
    &&& forall|chain: int|
        (#[trigger] selection.slot_of(chain)) is Some ==> stats[selection.slot_of(
            chain,
        )->0].counts(chain_totals(entries, secondary, chain))
}

/// The entries of a root that belong to one chain.
#[derive(Debug, Clone, Copy, PartialEq, Eq, Structural)]
pub struct SummaryChainGroup {
    pub chain: u32,
    pub count: i64,
    pub nfts: i64,
}

impl SummaryChainGroup {
    /// The group holds what the entries of a root hold for its chain.
    pub open spec fn is_of(self, entries: Seq<SummaryEntry>, root: int) -> bool {
        &&& self.count == chain_count(entries, root, self.chain as int)
        &&& self.count > 0
        &&& self.nfts == capped(chain_nfts(entries, root, self.chain as int))
    }
}

/// Counts entries that come ordered by root and chain, one at a time, in constant space.
pub struct SortedSummaryAccumulator {
    pub require_secondary: bool,
    pub selection: SummaryChainSelection,
    pub stats: Vec<SummaryStats>,
    pub current: Option<SummaryEntry>,
    pub current_count: i64,
    pub current_nfts: i64,
    pub root_total: i64,
    pub pending: Vec<SummaryChainGroup>,
    pub direct_secondary: bool,
    pub seen: Ghost<Seq<SummaryEntry>>,
}

impl SortedSummaryAccumulator {
    /// Groups of the current root are counted as soon as they end.
    spec fn counts_at_once(self) -> bool {
        !self.require_secondary || self.direct_secondary
    }

    /// The stats of each chain count what `expected` says.
    spec fn stats_are(self, expected: spec_fn(int) -> SummaryTotals) -> bool {
        &&& self.stats@.len() == self.selection.slots()
        &&& forall|chain: int|
            (#[trigger] self.selection.slot_of(chain)) is Some
                ==> self.stats@[self.selection.slot_of(chain)->0].counts(expected(chain))
    }

    /// What the stats count while the chains below `end` of the current root have ended.
    spec fn expected(self, root: int, end: int) -> spec_fn(int) -> SummaryTotals {
        let before = |chain: int|
            totals_below(self.seen@, self.require_secondary, chain, root);
        |chain: int|
            if self.counts_at_once() && chain < end {
                joined(
                    before(chain),
                    group_totals(self.seen@, self.require_secondary, root, chain),
                )
            } else {
                before(chain)
            }
    }

    spec fn is_pending(self, chain: int) -> bool {
        exists|k: int| 0 <= k < self.pending@.len() && #[trigger] self.pending@[k].chain == chain
    }

    /// The chains below `end` of the current root have ended; `rest` entries of the root have
    /// not.
    spec fn has_ended(self, root: int, end: int, rest: int) -> bool {
        &&& self.stats_are(self.expected(root, end))
        &&& self.root_total == root_count(self.seen@, root)
        &&& self.root_total <= self.seen@.len() <= i64::MAX
        &&& !self.require_secondary ==> self.pending@.len() == 0 && !self.direct_secondary
        &&& self.direct_secondary ==> {
            &&& self.pending@.len() == 0
            &&& self.root_total > 2
            &&& rest < self.root_total
            &&& forall|chain: int|
                0 <= chain < end && chain_count(self.seen@, root, chain) > 0
                    ==> #[trigger] is_group(self.seen@, true, root, chain)
        }
        &&& self.require_secondary && !self.direct_secondary ==> {
            &&& self.pending@.len() <= 2
            &&& forall|k: int|
                0 <= k < self.pending@.len() ==> {
                    &&& (#[trigger] self.pending@[k]).is_of(self.seen@, root)
                    &&& self.pending@[k].chain < end
                }
            &&& forall|chain: int|
                0 <= chain < end && #[trigger] chain_count(self.seen@, root, chain) > 0
                    ==> self.is_pending(chain)
            &&& self.pending@.len() == 2 ==> self.pending@[0].chain != self.pending@[1].chain
            &&& self.root_total == rest + (if self.pending@.len() > 0 {
                self.pending@[0].count as int
            } else {
                0
            }) + (if self.pending@.len() > 1 {
                self.pending@[1].count as int
            } else {
                0
            })
        }
    }

    /// Nothing that was seen comes after the entry.
    spec fn nothing_after(self, last: SummaryEntry) -> bool {
        &&& forall|root: int| root > last.root ==> #[trigger] root_count(self.seen@, root) == 0
        &&& forall|chain: int|
            chain > last.chain ==> #[trigger] chain_count(self.seen@, last.root as int, chain) == 0
    }

    /// The accumulator holds what it has seen.
    pub closed spec fn wf(self) -> bool {
        match self.current {
            None => {
                &&& self.seen@.len() == 0
                &&& self.stats_are(|chain: int| no_totals())
                &&& self.current_count == 0
                &&& self.current_nfts == 0
                &&& self.root_total == 0
                &&& self.pending@.len() == 0
                &&& !self.direct_secondary
            },
            Some(last) => {
                let root = last.root as int;
                &&& self.seen@.len() > 0
                &&& self.seen@.last() == last
                &&& self.nothing_after(last)
                &&& self.current_count > 0
                &&& self.current_count == chain_count(self.seen@, root, last.chain as int)
                &&& self.current_nfts == capped(chain_nfts(self.seen@, root, last.chain as int))
                &&& self.has_ended(root, last.chain as int, self.current_count as int)
            },
        }
    }

    /// An accumulator that has seen nothing.
    pub fn new(require_secondary: bool, selection: SummaryChainSelection) -> (accumulator:
        SortedSummaryAccumulator)
        ensures
            accumulator.wf(),
            accumulator.seen@ == Seq::<SummaryEntry>::empty(),
            accumulator.require_secondary == require_secondary,
            accumulator.selection == selection,
    {
        SortedSummaryAccumulator {
            require_secondary,
            selection,
            stats: selection.no_stats(),
            current: None,
            current_count: 0,
            current_nfts: 0,
            root_total: 0,
            pending: Vec::new(),
            direct_secondary: false,
            seen: Ghost(Seq::empty()),
        }
    }

    /// Counts a group for its chain.
    fn emit_summary_group(
        &mut self,
        group: SummaryChainGroup,
        large: bool,
        Ghost(before): Ghost<spec_fn(int) -> SummaryTotals>,
        Ghost(limit): Ghost<spec_fn(int) -> SummaryTotals>,
        Ghost(nfts): Ghost<nat>,
    )
        requires
            group.count > 0,
            group.nfts == capped(nfts),
            old(self).stats_are(before),
            before(group.chain as int).groups < i64::MAX,
            before(group.chain as int).large_groups < i64::MAX,
            before(group.chain as int).contracts + group.count <= i64::MAX,
            forall|chain: int|
                chain != group.chain ==> before(chain) == #[trigger] limit(chain),
            limit(group.chain as int) == joined(
                before(group.chain as int),
                SummaryTotals {
                    groups: 1,
                    contracts: group.count as nat,
                    nfts,
                    large_groups: if large {
                        1
                    } else {
                        0
                    },
                },
            ),
        ensures
            final(self).stats_are(limit),
            *final(self) == (SortedSummaryAccumulator { stats: final(self).stats, ..*old(self) }),
    {
        if let Some(at) = self.selection.slot(group.chain) {
            let mut stats: SummaryStats = self.stats[at];
            accumulate_summary(&mut stats, group.count, group.nfts, large);
            self.stats.set(at, stats);
        }
        assert forall|chain: int| (#[trigger] self.selection.slot_of(chain)) is Some implies
            self.stats@[self.selection.slot_of(chain)->0].counts(limit(chain)) by {
            if chain != group.chain {
                assert(before(chain) == limit(chain));
            }
        }
    }

    /// What the stats count once the pending groups of the current root are counted.
    spec fn flushed(self, root: int, large: bool) -> spec_fn(int) -> SummaryTotals {
        |chain: int|
            {
                let before = totals_below(self.seen@, self.require_secondary, chain, root);
                if self.is_pending(chain) {
                    joined(
                        before,
                        SummaryTotals {
                            groups: 1,
                            contracts: chain_count(self.seen@, root, chain),
                            nfts: chain_nfts(self.seen@, root, chain),
                            large_groups: if large {
                                1
                            } else {
                                0
                            },
                        },
                    )
                } else {
                    before
                }
            }
    }

    /// Counts the pending groups of the current root.
    fn flush_pending(&mut self, large: bool, Ghost(root): Ghost<int>)
        requires
            0 <= root <= u32::MAX,
            old(self).require_secondary,
            old(self).seen@.len() <= i64::MAX,
            old(self).pending@.len() == 2,
            old(self).pending@[0].chain != old(self).pending@[1].chain,
            old(self).stats_are(
                |chain: int| totals_below(old(self).seen@, true, chain, root),
            ),
            forall|k: int|
                0 <= k < old(self).pending@.len() ==> {
                    &&& (#[trigger] old(self).pending@[k]).is_of(old(self).seen@, root)
                    &&& is_group(old(self).seen@, true, root, old(self).pending@[k].chain as int)
                },
        ensures
            final(self).stats_are(old(self).flushed(root, large)),
            final(self).pending@.len() == 0,
            *final(self) == (SortedSummaryAccumulator {
                stats: final(self).stats,
                pending: final(self).pending,
                ..*old(self)
            }),
    {
        let first: SummaryChainGroup = self.pending[0];
        let second: SummaryChainGroup = self.pending[1];
        let ghost seen = self.seen@;
        let ghost one = first.chain as int;
        let ghost two = second.chain as int;
        let ghost before = |chain: int| totals_below(seen, true, chain, root);
        let ghost after = self.flushed(root, large);
        let ghost middle = |chain: int|
            if chain == one {
                after(chain)
            } else {
                before(chain)
            };
        proof {
            assert(self.pending@[0] == first);
            assert(self.pending@[1] == second);
            lemma_totals_bounded(seen, true, one, root);
            lemma_totals_bounded(seen, true, one, root + 1);
            lemma_totals_bounded(seen, true, two, root);
            lemma_totals_bounded(seen, true, two, root + 1);
            assert(self.is_pending(one));
            assert(self.is_pending(two));
            assert(totals_below(seen, true, one, root + 1) == joined(
                before(one),
                group_totals(seen, true, root, one),
            ));
            assert(totals_below(seen, true, two, root + 1) == joined(
                before(two),
                group_totals(seen, true, root, two),
            ));
        }
        self.emit_summary_group(
            first,
            large,
            Ghost(before),
            Ghost(middle),
            Ghost(chain_nfts(seen, root, one)),
        );
        assert forall|chain: int| chain != two implies middle(chain) == #[trigger] after(chain) by {
            if chain != one {
                assert(!old(self).is_pending(chain));
            }
        }
        self.emit_summary_group(
            second,
            large,
            Ghost(middle),
            Ghost(after),
            Ghost(chain_nfts(seen, root, two)),
        );
        self.pending = Vec::new();
    }

    /// Ends the current chain of the current root.
    #[verifier::rlimit(30)]
    fn finish_current_chain(&mut self)
        requires
            old(self).wf(),
            old(self).current is Some,
        ensures
            final(self).has_ended(
                old(self).current->0.root as int,
                old(self).current->0.chain + 1,
                0,
            ),
            final(self).current_count == 0,
            final(self).current_nfts == 0,
            final(self).current == old(self).current,
            final(self).seen == old(self).seen,
            final(self).selection == old(self).selection,
            final(self).require_secondary == old(self).require_secondary,
    {
        if let Some(last) = self.current {
            let ghost root = last.root as int;
            let ghost cc = last.chain as int;
            let ghost seen = self.seen@;
            let ghost secondary = self.require_secondary;
            let group = SummaryChainGroup {
                chain: last.chain,
                count: self.current_count,
                nfts: self.current_nfts,
            };
            let ghost nfts = chain_nfts(seen, root, cc);
            let ghost before = self.expected(root, cc);
            proof {
                lemma_totals_bounded(seen, secondary, cc, root);
            lemma_totals_bounded(seen, secondary, cc, root + 1);
                assert(totals_below(seen, secondary, cc, root + 1) == joined(
                    totals_below(seen, secondary, cc, root),
                    group_totals(seen, secondary, root, cc),
                ));
            }
            self.current_count = 0;
            self.current_nfts = 0;
            if !self.require_secondary {
                let ghost after = self.expected(root, cc + 1);
                if group.count >= 2 {
                    self.emit_summary_group(
                        group,
                        group.count > 2,
                        Ghost(before),
                        Ghost(after),
                        Ghost(nfts),
                    );
                } else {
                    assert forall|chain: int| before(chain) == #[trigger] after(chain) by {}
                    assert forall|chain: int| (#[trigger] self.selection.slot_of(
                        chain,
                    )) is Some implies self.stats@[self.selection.slot_of(chain)->0].counts(
                        after(chain),
                    ) by {
                        assert(before(chain) == after(chain));
                    }
                }
                assert(self.expected(root, cc + 1) == after);
                return;
            }
            if self.direct_secondary {
                let ghost after = self.expected(root, cc + 1);
                self.emit_summary_group(group, true, Ghost(before), Ghost(after), Ghost(nfts));
                assert(self.expected(root, cc + 1) == after);
                return;
            }
            let ghost bare = |chain: int| totals_below(seen, true, chain, root);
            assert forall|chain: int| before(chain) == #[trigger] bare(chain) by {}
            assert forall|chain: int| (#[trigger] self.selection.slot_of(chain)) is Some implies
                self.stats@[self.selection.slot_of(chain)->0].counts(bare(chain)) by {
                assert(before(chain) == bare(chain));
            }
            if self.pending.len() == 2 {
                let ghost flat = self.flushed(root, true);
                let ghost waiting = *self;
                proof {
                    assert(self.pending@[0].is_of(seen, root));
                    assert(self.pending@[1].is_of(seen, root));
                }
                self.flush_pending(true, Ghost(root));
                self.direct_secondary = true;
                let ghost after = self.expected(root, cc + 1);
                proof {
                    assert(!waiting.is_pending(cc));
                    assert forall|chain: int| chain != cc && self.selection.slot_of(
                        chain,
                    ) is Some implies flat(chain) == #[trigger] after(chain) by {
                        if waiting.is_pending(chain) {
                            let k = choose|k: int|
                                0 <= k < waiting.pending@.len()
                                    && #[trigger] waiting.pending@[k].chain == chain;
                            assert(waiting.pending@[k].is_of(seen, root));
                        } else if chain < cc {
                            assert(chain_count(seen, root, chain) == 0);
                        }
                    }
                }
                let ghost limit = |chain: int|
                    if chain == cc {
                        after(chain)
                    } else {
                        flat(chain)
                    };
                self.emit_summary_group(group, true, Ghost(flat), Ghost(limit), Ghost(nfts));
                proof {
                    assert forall|chain: int| (#[trigger] self.selection.slot_of(
                        chain,
                    )) is Some implies self.stats@[self.selection.slot_of(chain)->0].counts(
                        after(chain),
                    ) by {
                        assert(limit(chain) == after(chain));
                    }
                    assert(self.expected(root, cc + 1) == after);
                    assert forall|chain: int| 0 <= chain < cc + 1 && chain_count(
                        seen,
                        root,
                        chain,
                    ) > 0 implies #[trigger] is_group(seen, true, root, chain) by {
                        if chain < cc {
                            assert(waiting.is_pending(chain));
                        }
                    }
                }
                return;
            }
            let ghost waiting = *self;
            self.pending.push(group);
            proof {
                assert(group.is_of(seen, root));
                assert(self.pending@[self.pending@.len() - 1] == group);
                assert(forall|k: int|
                    0 <= k < waiting.pending@.len() ==> #[trigger] waiting.pending@[k]
                        == self.pending@[k]);
                assert forall|chain: int| 0 <= chain < cc + 1 && #[trigger] chain_count(
                    seen,
                    root,
                    chain,
                ) > 0 implies self.is_pending(chain) by {
                    if chain < cc {
                        assert(waiting.is_pending(chain));
                        let k = choose|k: int|
                            0 <= k < waiting.pending@.len()
                                && #[trigger] waiting.pending@[k].chain == chain;
                        assert(self.pending@[k].chain == chain);
                    }
                }
            }
            if self.pending.len() >= 2 && self.root_total > 2 {
                let ghost flat = self.flushed(root, true);
                let ghost waiting = *self;
                proof {
                    assert(self.pending@[0].is_of(seen, root));
                    assert(self.pending@[1].is_of(seen, root));
                }
                self.flush_pending(true, Ghost(root));
                self.direct_secondary = true;
                let ghost after = self.expected(root, cc + 1);
                proof {
                    assert forall|chain: int| (#[trigger] self.selection.slot_of(
                        chain,
                    )) is Some implies self.stats@[self.selection.slot_of(chain)->0].counts(
                        after(chain),
                    ) by {
                        if waiting.is_pending(chain) {
                            let k = choose|k: int|
                                0 <= k < waiting.pending@.len()
                                    && #[trigger] waiting.pending@[k].chain == chain;
                            assert(waiting.pending@[k].is_of(seen, root));
                        } else if chain < cc + 1 {
                            assert(chain_count(seen, root, chain) == 0);
                        }
                        assert(flat(chain) == after(chain));
                    }
                    assert forall|chain: int| 0 <= chain < cc + 1 && chain_count(
                        seen,
                        root,
                        chain,
                    ) > 0 implies #[trigger] is_group(seen, true, root, chain) by {
                        assert(waiting.is_pending(chain));
                    }
                }
            } else {
                let ghost after = self.expected(root, cc + 1);
                assert forall|chain: int| (#[trigger] self.selection.slot_of(
                    chain,
                )) is Some implies self.stats@[self.selection.slot_of(chain)->0].counts(
                    after(chain),
                ) by {
                    assert(bare(chain) == after(chain));
                }
            }
        }
    }

    /// Ends the current root.
    fn finish_root(&mut self)
        requires
            old(self).current is Some,
            old(self).nothing_after(old(self).current->0),
            old(self).has_ended(old(self).current->0.root as int, old(self).current->0.chain + 1, 0),
        ensures
            final(self).stats_are(
                |chain: int|
                    totals_below(
                        old(self).seen@,
                        old(self).require_secondary,
                        chain,
                        old(self).current->0.root + 1,
                    ),
            ),
            *final(self) == (SortedSummaryAccumulator {
                stats: final(self).stats,
                pending: final(self).pending,
                root_total: 0,
                direct_secondary: false,
                ..*old(self)
            }),
            final(self).pending@.len() == 0,
    {
        let ghost last = self.current->0;
        let ghost root = last.root as int;
        let ghost end = last.chain + 1;
        let ghost seen = self.seen@;
        let ghost secondary = self.require_secondary;
        let ghost waiting = *self;
        let ghost after = |chain: int| totals_below(seen, secondary, chain, root + 1);
        let ghost before = self.expected(root, end);
        if self.require_secondary && !self.direct_secondary && self.pending.len() >= 2 {
            proof {
                let bare = |chain: int| totals_below(seen, true, chain, root);
                assert forall|chain: int| (#[trigger] self.selection.slot_of(
                    chain,
                )) is Some implies self.stats@[self.selection.slot_of(chain)->0].counts(
                    bare(chain),
                ) by {
                    assert(before(chain) == bare(chain));
                }
                assert(self.pending@[0].is_of(seen, root));
                assert(self.pending@[1].is_of(seen, root));
            }
            let large: bool = self.root_total > 2;
            self.flush_pending(large, Ghost(root));
            proof {
                let flat = waiting.flushed(root, large);
                assert forall|chain: int| (#[trigger] self.selection.slot_of(
                    chain,
                )) is Some implies self.stats@[self.selection.slot_of(chain)->0].counts(
                    after(chain),
                ) by {
                    if waiting.is_pending(chain) {
                        let k = choose|k: int|
                            0 <= k < waiting.pending@.len()
                                && #[trigger] waiting.pending@[k].chain == chain;
                        assert(waiting.pending@[k].is_of(seen, root));
                    } else {
                        assert(chain_count(seen, root, chain) == 0);
                    }
                    assert(flat(chain) == after(chain));
                }
            }
        } else {
            proof {
                assert forall|chain: int| (#[trigger] self.selection.slot_of(
                    chain,
                )) is Some implies self.stats@[self.selection.slot_of(chain)->0].counts(
                    after(chain),
                ) by {
                    if chain >= end {
                        assert(chain_count(seen, root, chain) == 0);
                    } else if !self.counts_at_once() {
                        if self.is_pending(chain) {
                            let k = choose|k: int|
                                0 <= k < self.pending@.len() && #[trigger] self.pending@[k].chain
                                    == chain;
                            assert(self.pending@[k].is_of(seen, root));
                        } else {
                            assert(chain_count(seen, root, chain) == 0);
                        }
                    }
                    assert(before(chain) == after(chain));
                }
            }
        }
        self.root_total = 0;
        self.pending = Vec::new();
        self.direct_secondary = false;
        assert(self.stats_are(after));
    }

    /// Takes the next entry.
    #[verifier::rlimit(30)]
    pub fn push(&mut self, entry: SummaryEntry)
        requires
            old(self).wf(),
            entry.nfts >= 0,
            old(self).seen@.len() < i64::MAX,
            old(self).seen@.len() > 0 ==> old(self).seen@.last().precedes(entry),
        ensures
            final(self).wf(),
            final(self).seen@ == old(self).seen@.push(entry),
            final(self).selection == old(self).selection,
            final(self).require_secondary == old(self).require_secondary,
    {
        let ghost start = self.seen@;
        let ghost now = start.push(entry);
        let ghost root = entry.root as int;
        let ghost cc = entry.chain as int;
        let ghost secondary = self.require_secondary;
        proof {
            lemma_counts_push(start, entry);
            lemma_tally_len(now, of_root(root));
        }
        let mut fresh: bool = true;
        match self.current {
            None => {
                proof {
                    let before = |chain: int| no_totals();
                    assert forall|r: int, chain: int| true implies #[trigger] chain_count(
                        start,
                        r,
                        chain,
                    ) == 0 && #[trigger] chain_nfts(start, r, chain) == 0 by {}
                    assert forall|r: int| true implies #[trigger] root_count(start, r) == 0 by {}
                    assert forall|chain: int| (#[trigger] self.selection.slot_of(
                        chain,
                    )) is Some implies self.stats@[self.selection.slot_of(chain)->0].counts(
                        totals_below(now, secondary, chain, root),
                    ) by {
                        lemma_totals_gap(now, secondary, chain, 0, root);
                        assert(before(chain) == no_totals());
                    }
                }
            },
            Some(last) => {
                if last.root != entry.root {
                    self.finish_current_chain();
                    let ghost ended = *self;
                    self.finish_root();
                    proof {
                        let before = |chain: int|
                            totals_below(start, secondary, chain, last.root + 1);
                        assert(self.stats_are(before));
                        assert forall|chain: int| true implies #[trigger] chain_count(
                            start,
                            root,
                            chain,
                        ) == 0 by {
                            assert(root_count(start, root) == 0);
                            lemma_chain_within_root(start, root, chain);
                        }
                        assert forall|chain: int| (#[trigger] self.selection.slot_of(
                            chain,
                        )) is Some implies self.stats@[self.selection.slot_of(chain)->0].counts(
                            totals_below(now, secondary, chain, root),
                        ) by {
                            assert(before(chain) == totals_below(
                                start,
                                secondary,
                                chain,
                                last.root + 1,
                            ));
                            assert forall|r: int| last.root + 1 <= r < root implies
                                #[trigger] group_totals(start, secondary, r, chain)
                                == no_totals() by {
                                assert(root_count(start, r) == 0);
                                lemma_chain_within_root(start, r, chain);
                            }
                            lemma_totals_gap(start, secondary, chain, last.root + 1, root);
                            lemma_totals_same(start, now, secondary, chain, root);
                        }
                        lemma_no_nfts(start, root, cc);
                    }
                } else {
                    fresh = false;
                    let ghost at_once = self.counts_at_once();
                    if last.chain != entry.chain {
                        self.finish_current_chain();
                        proof {
                            lemma_no_nfts(start, root, cc);
                        }
                    }
                    proof {
                        let end = if last.chain != entry.chain {
                            last.chain + 1
                        } else {
                            last.chain as int
                        };
                        let before = self.expected(root, end);
                        let after = (SortedSummaryAccumulator {
                            seen: Ghost(now),
                            ..*self
                        }).expected(root, cc);
                        assert forall|chain: int| (#[trigger] self.selection.slot_of(
                            chain,
                        )) is Some implies self.stats@[self.selection.slot_of(chain)->0].counts(
                            after(chain),
                        ) by {
                            lemma_totals_same(start, now, secondary, chain, root);
                            assert(self.stats@[self.selection.slot_of(chain)->0].counts(
                                before(chain),
                            ));
                            if chain < cc {
                                if chain >= end {
                                    assert(chain_count(start, root, chain) == 0);
                                    assert(chain_count(now, root, chain) == 0);
                                } else if self.direct_secondary {
                                    if chain_count(start, root, chain) > 0 {
                                        assert(is_group(start, true, root, chain));
                                    }
                                }
                            }
                            assert(before(chain) == after(chain));
                        }
                        if self.direct_secondary {
                            assert forall|chain: int| 0 <= chain < cc && chain_count(
                                now,
                                root,
                                chain,
                            ) > 0 implies #[trigger] is_group(now, true, root, chain) by {
                                assert(chain < end);
                                assert(is_group(start, true, root, chain));
                            }
                        }
                        assert forall|k: int| 0 <= k < self.pending@.len() implies (
                        #[trigger] self.pending@[k]).is_of(now, root) && self.pending@[k].chain
                            < cc by {
                            assert(self.pending@[k].is_of(start, root));
                        }
                        assert forall|chain: int| 0 <= chain < cc && #[trigger] chain_count(
                            now,
                            root,
                            chain,
                        ) > 0 implies chain_count(start, root, chain) > 0 && chain < end by {}
                    }
                }
            },
        }
        proof {
            lemma_chain_within_root(now, root, cc);
        }
        self.seen = Ghost(now);
        self.current = Some(entry);
        self.current_count = self.current_count + 1;
        self.current_nfts = capped_sum(self.current_nfts, entry.nfts);
        self.root_total = self.root_total + 1;
        proof {
            assert(self.nothing_after(entry));
            if fresh {
                let after = self.expected(root, cc);
                assert forall|chain: int| (#[trigger] self.selection.slot_of(
                    chain,
                )) is Some implies self.stats@[self.selection.slot_of(chain)->0].counts(
                    after(chain),
                ) by {
                    if chain < cc {
                        assert(chain_count(now, root, chain) == 0);
                    }
                }
            }
        }
    }

    /// Ends the count.
    pub fn finish(self) -> (stats: Vec<SummaryStats>)
        requires
            self.wf(),
        ensures
            are_stats(stats@, self.selection, self.seen@, self.require_secondary),
    {
        let mut state = self;
        let ghost seen = self.seen@;
        let ghost secondary = self.require_secondary;
        match state.current {
            None => {
                proof {
                    assert forall|chain: int| (#[trigger] self.selection.slot_of(
                        chain,
                    )) is Some implies state.stats@[self.selection.slot_of(chain)->0].counts(
                        chain_totals(seen, secondary, chain),
                    ) by {
                        let none = |chain: int| no_totals();
                        assert(none(chain) == no_totals());
                        lemma_totals_gap(seen, secondary, chain, 0, u32::MAX + 1);
                    }
                }
            },
            Some(last) => {
                state.finish_current_chain();
                state.finish_root();
                proof {
                    let before = |chain: int| totals_below(seen, secondary, chain, last.root + 1);
                    assert(state.stats_are(before));
                    assert forall|chain: int| (#[trigger] self.selection.slot_of(
                        chain,
                    )) is Some implies state.stats@[self.selection.slot_of(chain)->0].counts(
                        chain_totals(seen, secondary, chain),
                    ) by {
                        assert(before(chain) == totals_below(
                            seen,
                            secondary,
                            chain,
                            last.root + 1,
                        ));
                        assert forall|r: int| last.root + 1 <= r < u32::MAX + 1 implies
                            #[trigger] group_totals(seen, secondary, r, chain) == no_totals() by {
                            assert(root_count(seen, r) == 0);
                            lemma_chain_within_root(seen, r, chain);
                        }
                        lemma_totals_gap(seen, secondary, chain, last.root + 1, u32::MAX + 1);
                    }
                }
            },
        }
        state.stats
    }
}

proof fn lemma_no_nfts(entries: Seq<SummaryEntry>, root: int, chain: int)
    requires
        chain_count(entries, root, chain) == 0,
    ensures
        chain_nfts(entries, root, chain) == 0,
    decreases entries.len(),
{
    if entries.len() > 0 {
        lemma_no_nfts(entries.drop_last(), root, chain);
    }
}

} // verus!
