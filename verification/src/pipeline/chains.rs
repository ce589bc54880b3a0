//! Chains, their contracts, and pairs of chains.

use crate::pipeline::error::{
    invariant_error, overflow_error, PipelineError, PipelineFault,
};
use crate::pipeline::error;
use crate::reduce::collector::capacity_of;
use crate::resource::{BrokerModel, MemoryBroker, MemoryError, MemoryLease};
use crate::text;
use crate::text::decimal;
use vstd::prelude::*;
use vstd::slice::slice_subrange;

verus! {

/// Words kept in memory or read from a mapped file.
#[derive(Debug, Eq)]
pub struct RootStorage {
    pub words: Vec<u32>,
    pub mapped: bool,
}

impl View for RootStorage {
    type V = Seq<u32>;

    open spec fn view(&self) -> Seq<u32> {
        self.words@
    }
}

impl PartialEq for RootStorage {
    /// Whether the words are equal, wherever they are kept.
    fn eq(&self, other: &RootStorage) -> (equal: bool) {
        if self.words.len() != other.words.len() {
            return false;
        }
        let mut i: usize = 0;
        while i < self.words.len()
            invariant
                i <= self.words@.len(),
                self.words@.len() == other.words@.len(),
                forall|k: int| 0 <= k < i ==> self.words@[k] == #[trigger] other.words@[k],
            decreases self.words.len() - i,
        {
            if self.words[i] != other.words[i] {
                return false;
            }
            i = i + 1;
        }
        assert(self.words@ =~= other.words@);
        true
    }
}

impl vstd::std_specs::cmp::PartialEqSpecImpl for RootStorage {
    open spec fn obeys_eq_spec() -> bool {
        true
    }

    open spec fn eq_spec(&self, other: &RootStorage) -> bool {
        self@ == other@
    }
}

/// The bytes of `count` words, at most `u64::MAX`.
pub open spec fn word_bytes(count: nat) -> u64 {
    if count * 4 > u64::MAX {
        u64::MAX
    } else {
        (count * 4) as u64
    }
}

impl RootStorage {
    /// Words kept in memory.
    pub fn resident(words: Vec<u32>) -> (storage: RootStorage)
        ensures
            storage@ == words@,
            !storage.mapped,
    {
        RootStorage { words, mapped: false }
    }

    /// Words of a mapped file.
    pub fn mapped(words: Vec<u32>) -> (storage: RootStorage)
        ensures
            storage@ == words@,
            storage.mapped,
    {
        RootStorage { words, mapped: true }
    }

    /// The words.
    pub fn as_slice(&self) -> (words: &[u32])
        ensures
            words@ == self@,
    {
        self.words.as_slice()
    }

    /// The number of words.
    pub fn len(&self) -> (len: usize)
        ensures
            len == self@.len(),
    {
        self.words.len()
    }

    /// The bytes of words kept in memory, with the room that the allocator gave, which is left
    /// open; none of mapped words.
    pub fn resident_bytes(&self) -> (bytes: u64)
        ensures
            is_resident_measure(bytes, *self),
    {
        if self.mapped {
            0
        } else {
            let capacity: usize = capacity_of(&self.words);
            let bytes: u64 = match (capacity as u64).checked_mul(4) {
                Some(bytes) => bytes,
                None => u64::MAX,
            };
            assert(bytes == word_bytes(capacity as nat));
            bytes
        }
    }

    /// Whether the words are of a mapped file.
    pub fn is_mapped(&self) -> (mapped: bool)
        ensures
            mapped == self.mapped,
    {
        self.mapped
    }
}

/// The contracts of a chain among the first `end`, in ascending order.
pub open spec fn members(chains: Seq<u32>, chain: int, end: int) -> Seq<u32>
    decreases end,
{
    if end <= 0 {
        Seq::empty()
    } else if chains[end - 1] == chain {
        members(chains, chain, end - 1).push((end - 1) as u32)
    } else {
        members(chains, chain, end - 1)
    }
}

/// The number of contracts among the first `end` whose chain is below `chain`.
pub open spec fn below(chains: Seq<u32>, chain: int, end: int) -> nat
    decreases end,
{
    if end <= 0 {
        0
    } else {
        below(chains, chain, end - 1) + if chains[end - 1] < chain {
            1nat
        } else {
            0nat
        }
    }
}

/// The contracts of a chain.
pub open spec fn chain_members(chains: Seq<u32>, chain: int) -> Seq<u32> {
    members(chains, chain, chains.len() as int)
}

/// The contracts of chains up to one are those of chains before it and its own.
pub(crate) proof fn lemma_below_step(chains: Seq<u32>, chain: int, end: int)
    requires
        0 <= end <= chains.len(),
    ensures
        below(chains, chain + 1, end) == below(chains, chain, end) + members(
            chains,
            chain,
            end,
        ).len(),
        below(chains, chain, end) <= end,
        members(chains, chain, end).len() <= end,
    decreases end,
{
    if end > 0 {
        lemma_below_step(chains, chain, end - 1);
    }
}

proof fn lemma_below_monotone(chains: Seq<u32>, low: int, high: int, end: int)
    requires
        low <= high,
        0 <= end <= chains.len(),
    ensures
        below(chains, low, end) <= below(chains, high, end) <= end,
    decreases end,
{
    if end > 0 {
        lemma_below_monotone(chains, low, high, end - 1);
    }
}

/// Every contract is of a chain before one that is after all chains.
pub(crate) proof fn lemma_below_all(chains: Seq<u32>, chain: int, end: int)
    requires
        0 <= end <= chains.len(),
        forall|i: int| 0 <= i < end ==> #[trigger] chains[i] < chain,
    ensures
        below(chains, chain, end) == end,
        below(chains, 0, end) == 0,
    decreases end,
{
    if end > 0 {
        lemma_below_all(chains, chain, end - 1);
    }
}

proof fn lemma_members_grow(chains: Seq<u32>, chain: int, low: int, high: int)
    requires
        0 <= low <= high <= chains.len(),
    ensures
        members(chains, chain, low).len() <= members(chains, chain, high).len(),
        members(chains, chain, low) == members(chains, chain, high).take(
            members(chains, chain, low).len() as int,
        ),
    decreases high - low,
{
    let small = members(chains, chain, low);
    if low < high {
        lemma_members_grow(chains, chain, low, high - 1);
        let middle = members(chains, chain, high - 1);
        let large = members(chains, chain, high);
        assert(large.take(small.len() as int) =~= middle.take(small.len() as int));
    } else {
        assert(small.take(small.len() as int) =~= small);
    }
}

/// A chain lists exactly its contracts, each at the rank it has among them.
pub proof fn lemma_member_ranks(chains: Seq<u32>, chain: int, end: int)
    requires
        0 <= end <= chains.len() <= u32::MAX,
    ensures
        forall|r: int|
            0 <= r < members(chains, chain, end).len() ==> {
                let contract = #[trigger] members(chains, chain, end)[r];
                &&& contract < end
                &&& chains[contract as int] == chain
                &&& members(chains, chain, contract as int).len() == r
            },
        forall|k: int|
            0 <= k < end && #[trigger] chains[k] == chain ==> {
                &&& members(chains, chain, k).len() < members(chains, chain, end).len()
                &&& members(chains, chain, end)[members(chains, chain, k).len() as int] == k
            },
    decreases end,
{
    if end > 0 {
        lemma_member_ranks(chains, chain, end - 1);
        let before = members(chains, chain, end - 1);
        let all = members(chains, chain, end);
        assert forall|r: int| 0 <= r < all.len() implies ({
            let contract = #[trigger] all[r];
            &&& contract < end
            &&& chains[contract as int] == chain
            &&& members(chains, chain, contract as int).len() == r
        }) by {
            if r < before.len() {
                assert(all[r] == before[r]);
            }
        }
        assert forall|k: int| 0 <= k < end && #[trigger] chains[k] == chain implies ({
            &&& members(chains, chain, k).len() < all.len()
            &&& all[members(chains, chain, k).len() as int] == k
        }) by {
            if k < end - 1 {
                assert(before[members(chains, chain, k).len() as int] == k);
            }
        }
    }
}

/// Where a contract stands when all are listed chain by chain.
pub open spec fn listed_at(chains: Seq<u32>, contract: int) -> int {
    (below(chains, chains[contract] as int, chains.len() as int) + members(
        chains,
        chains[contract] as int,
        contract,
    ).len()) as int
}

proof fn lemma_listed_apart(chains: Seq<u32>, a: int, b: int)
    requires
        0 <= a < b < chains.len() <= u32::MAX,
    ensures
        listed_at(chains, a) != listed_at(chains, b),
        0 <= listed_at(chains, a) < chains.len(),
{
    let n = chains.len() as int;
    let x = chains[a] as int;
    let y = chains[b] as int;
    lemma_member_ranks(chains, x, n);
    lemma_member_ranks(chains, y, n);
    lemma_below_step(chains, x, n);
    lemma_below_step(chains, y, n);
    lemma_below_monotone(chains, x + 1, x + 1, n);
    assert(chains[a] == x);
    if x == y {
        assert(chain_members(chains, x)[members(chains, x, a).len() as int] == a);
        assert(chain_members(chains, x)[members(chains, x, b).len() as int] == b);
    } else if x < y {
        lemma_below_monotone(chains, x + 1, y, n);
        assert(chains[a] == x);
    } else {
        lemma_below_monotone(chains, y + 1, x, n);
        assert(chains[b] == y);
    }
}

/// The contracts listed chain by chain, and each contract's rank in its chain.
pub struct ChainContractIndex {
    pub offsets: RootStorage,
    pub contracts: RootStorage,
    pub local_rank: RootStorage,
    pub chains: Ghost<Seq<u32>>,
}

/// Every contract's chain is one of the first `chain_count`.
pub open spec fn chains_below(chains: Seq<u32>, chain_count: int) -> bool {
    forall|i: int| 0 <= i < chains.len() ==> #[trigger] chains[i] < chain_count
}

impl ChainContractIndex {
    /// The index lists the contracts of its chains, and holds their ranks unless dropped.
    pub open spec fn wf(self) -> bool {
        &&& self.lists(self.chains@, self.offsets@.len() - 1)
        &&& self.ranks(self.chains@) || self.local_rank@.len() == 0
    }

    /// The index lists the contracts of each chain.
    pub open spec fn lists(self, chains: Seq<u32>, chain_count: int) -> bool {
        &&& chains.len() <= u32::MAX
        &&& chains_below(chains, chain_count)
        &&& self.offsets@.len() == chain_count + 1
        &&& self.contracts@.len() == chains.len()
        &&& forall|chain: int|
            0 <= chain <= chain_count ==> #[trigger] self.offsets@[chain] == below(
                chains,
                chain,
                chains.len() as int,
            )
        &&& forall|contract: int|
            0 <= contract < chains.len() ==> self.contracts@[#[trigger] listed_at(chains, contract)]
                == contract
    }

    /// The index holds the rank of each contract.
    pub open spec fn ranks(self, chains: Seq<u32>) -> bool {
        &&& self.local_rank@.len() == chains.len()
        &&& forall|contract: int|
            0 <= contract < chains.len() ==> #[trigger] self.local_rank@[contract] == members(
                chains,
                chains[contract] as int,
                contract,
            ).len()
    }
}

/// The rows of an index are the contracts of the chains.
pub proof fn lemma_index_rows(index: ChainContractIndex, chains: Seq<u32>, chain_count: int, chain: int)
    requires
        index.lists(chains, chain_count),
        0 <= chain < chain_count,
    ensures
        index.offsets@[chain] <= index.offsets@[chain + 1] <= chains.len(),
        index.offsets@[chain + 1] - index.offsets@[chain] == chain_members(chains, chain).len(),
        index.contracts@.subrange(
            index.offsets@[chain] as int,
            index.offsets@[chain + 1] as int,
        ) == chain_members(chains, chain),
{
    let n = chains.len() as int;
    lemma_below_step(chains, chain, n);
    lemma_below_monotone(chains, chain, chain + 1, n);
    lemma_member_ranks(chains, chain, n);
    let row = index.contracts@.subrange(
        index.offsets@[chain] as int,
        index.offsets@[chain + 1] as int,
    );
    let expected = chain_members(chains, chain);
    assert(row.len() == expected.len());
    assert forall|r: int| 0 <= r < row.len() implies row[r] == expected[r] by {
        let contract = expected[r] as int;
        assert(chains[contract] == chain);
        assert(listed_at(chains, contract) == below(chains, chain, n) + r);
        assert(index.contracts@[listed_at(chains, contract)] == contract);
    }
    assert(row =~= expected);
}

/// Lists contracts whose chains are all known.
fn list_contracts(contract_chain: &[u32], chain_count: usize, mapped: bool) -> (index:
    ChainContractIndex)
    requires
        contract_chain@.len() <= u32::MAX,
        chains_below(contract_chain@, chain_count as int),
    ensures
        index.lists(contract_chain@, chain_count as int),
        index.ranks(contract_chain@),
        index.wf(),
        index.chains@ == contract_chain@,
        index.offsets.mapped == mapped,
        index.contracts.mapped == mapped,
        index.local_rank.mapped == mapped,
{
    let ghost chains = contract_chain@;
    let count: usize = contract_chain.len();
    let ghost n = count as int;
    let mut counts: Vec<u32> = Vec::new();
    let mut c: usize = 0;
    while c < chain_count
        invariant
            c <= chain_count,
            counts@.len() == c,
            forall|k: int| 0 <= k < c ==> #[trigger] counts@[k] == 0,
        decreases chain_count - c,
    {
        counts.push(0);
        c = c + 1;
    }
    let mut local_rank: Vec<u32> = Vec::with_capacity(count);
    let mut i: usize = 0;
    while i < count
        invariant
            i <= count,
            chains == contract_chain@,
            count == chains.len(),
            chains.len() <= u32::MAX,
            chains_below(chains, chain_count as int),
            counts@.len() == chain_count,
            local_rank@.len() == i,
            forall|k: int|
                0 <= k < chain_count ==> #[trigger] counts@[k] == members(
                    chains,
                    k,
                    i as int,
                ).len(),
            forall|k: int|
                0 <= k < i ==> #[trigger] local_rank@[k] == members(
                    chains,
                    chains[k] as int,
                    k,
                ).len(),
        decreases count - i,
    {
        let chain: usize = contract_chain[i] as usize;
        assert(chains[i as int] < chain_count);
        proof {
            lemma_below_step(chains, chain as int, i as int);
        }
        let rank: u32 = counts[chain];
        local_rank.push(rank);
        counts.set(chain, rank + 1);
        i = i + 1;
    }
    let mut offsets: Vec<u32> = Vec::with_capacity(chain_count.saturating_add(1));
    offsets.push(0);
    let mut d: usize = 0;
    proof {
        lemma_below_all(chains, chain_count as int, n);
    }
    while d < chain_count
        invariant
            d <= chain_count,
            n == chains.len(),
            chains.len() <= u32::MAX,
            counts@.len() == chain_count,
            offsets@.len() == d + 1,
            forall|k: int|
                0 <= k < chain_count ==> #[trigger] counts@[k] == members(chains, k, n).len(),
            forall|k: int| 0 <= k <= d ==> #[trigger] offsets@[k] == below(chains, k, n),
        decreases chain_count - d,
    {
        proof {
            lemma_below_step(chains, d as int, n);
            lemma_below_monotone(chains, d as int, d + 1, n);
            assert(counts@[d as int] == members(chains, d as int, n).len());
        }
        let begin: u32 = offsets[d];
        offsets.push(begin + counts[d]);
        d = d + 1;
    }
    let mut cursors: Vec<u32> = Vec::new();
    let mut e: usize = 0;
    while e < chain_count
        invariant
            e <= chain_count,
            offsets@.len() == chain_count + 1,
            cursors@.len() == e,
            forall|k: int| 0 <= k < e ==> #[trigger] cursors@[k] == offsets@[k],
        decreases chain_count - e,
    {
        cursors.push(offsets[e]);
        e = e + 1;
    }
    let mut contracts: Vec<u32> = Vec::with_capacity(count);
    let mut z: usize = 0;
    while z < count
        invariant
            z <= count,
            contracts@.len() == z,
        decreases count - z,
    {
        contracts.push(0);
        z = z + 1;
    }
    let mut j: usize = 0;
    assert forall|k: int| 0 <= k < chain_count implies #[trigger] cursors@[k] == below(chains, k, n)
        + members(chains, k, 0).len() by {
        assert(cursors@[k] == offsets@[k]);
    }
    while j < count
        invariant
            j <= count,
            chains == contract_chain@,
            n == count,
            count == chains.len(),
            chains.len() <= u32::MAX,
            chains_below(chains, chain_count as int),
            cursors@.len() == chain_count,
            contracts@.len() == count,
            forall|k: int|
                0 <= k < chain_count ==> #[trigger] cursors@[k] == below(chains, k, n) + members(
                    chains,
                    k,
                    j as int,
                ).len(),
            forall|k: int|
                0 <= k < j ==> contracts@[#[trigger] listed_at(chains, k)] == k,
        decreases count - j,
    {
        let chain: usize = contract_chain[j] as usize;
        assert(chains[j as int] < chain_count);
        let ghost before = contracts@;
        proof {
            lemma_below_step(chains, chain as int, n);
            lemma_below_monotone(chains, chain + 1, chain + 1, n);
            lemma_member_ranks(chains, chain as int, n);
            assert(cursors@[chain as int] == listed_at(chains, j as int));
        }
        let target: u32 = cursors[chain];
        contracts.set(target as usize, j as u32);
        cursors.set(chain, target + 1);
        proof {
            assert forall|k: int| 0 <= k < j + 1 implies contracts@[#[trigger] listed_at(chains, k)]
                == k by {
                if k < j {
                    lemma_listed_apart(chains, k, j as int);
                    assert(before[listed_at(chains, k)] == k);
                }
            }
        }
        j = j + 1;
    }
    ChainContractIndex {
        offsets: RootStorage { words: offsets, mapped },
        contracts: RootStorage { words: contracts, mapped },
        local_rank: RootStorage { words: local_rank, mapped },
        chains: Ghost(contract_chain@),
    }
}

/// Some chain from position `at` on is `bound` or more.
pub open spec fn unknown_from(chains: Seq<u32>, bound: int, at: int) -> bool {
    exists|i: int| at <= i < chains.len() && #[trigger] chains[i] >= bound
}

fn has_unknown_chain(contract_chain: &[u32], bound: usize) -> (unknown: bool)
    ensures
        unknown == unknown_from(contract_chain@, bound as int, 0),
{
    let mut i: usize = 0;
    while i < contract_chain.len()
        invariant
            i <= contract_chain@.len(),
            forall|k: int| 0 <= k < i ==> #[trigger] contract_chain@[k] < bound,
        decreases contract_chain.len() - i,
    {
        if contract_chain[i] as usize >= bound {
            assert(contract_chain@[i as int] >= bound);
            return true;
        }
        i = i + 1;
    }
    false
}

/// What a chain table is asked for beyond its end.
pub open spec fn missing_chain_fault(chain: int, chain_count: int) -> PipelineFault {
    if chain > chain_count {
        PipelineFault::Invariant("missing chain offset"@)
    } else {
        PipelineFault::Invariant("missing chain end offset"@)
    }
}

/// A contract's position in the joint list of two chains.
pub open spec fn local_of(chains: Seq<u32>, contract: int, left: int, right: int) -> int {
    if chains[contract] == left {
        members(chains, left, contract).len() as int
    } else {
        (chain_members(chains, left).len() + members(chains, right, contract).len()) as int
    }
}

/// The contracts of two chains, those of the left chain first.
pub open spec fn pair_members(chains: Seq<u32>, left: int, right: int) -> Seq<u32> {
    chain_members(chains, left) + chain_members(chains, right)
}

/// Two different chains have no more contracts than there are.
pub proof fn lemma_pair_fits(chains: Seq<u32>, left: int, right: int)
    requires
        left != right,
    ensures
        pair_members(chains, left, right).len() <= chains.len(),
{
    lemma_members_apart(chains, left, right, chains.len() as int);
}

proof fn lemma_members_apart(chains: Seq<u32>, left: int, right: int, end: int)
    requires
        left != right,
        0 <= end <= chains.len(),
    ensures
        members(chains, left, end).len() + members(chains, right, end).len() <= end,
    decreases end,
{
    if end > 0 {
        lemma_members_apart(chains, left, right, end - 1);
    }
}

/// Positions in the joint list of two different chains and their contracts match one to one.
pub proof fn lemma_pair_positions(chains: Seq<u32>, left: int, right: int)
    requires
        left != right,
        chains.len() <= u32::MAX,
    ensures
        forall|contract: int|
            0 <= contract < chains.len() && (chains[contract] == left || chains[contract] == right)
                ==> {
                &&& 0 <= #[trigger] local_of(chains, contract, left, right) < pair_members(
                    chains,
                    left,
                    right,
                ).len()
                &&& pair_members(chains, left, right)[local_of(chains, contract, left, right)]
                    == contract
            },
        forall|local: int|
            0 <= local < pair_members(chains, left, right).len() ==> {
                let contract = #[trigger] pair_members(chains, left, right)[local];
                &&& contract < chains.len()
                &&& (chains[contract as int] == left || chains[contract as int] == right)
                &&& local_of(chains, contract as int, left, right) == local
            },
{
    lemma_member_ranks(chains, left, chains.len() as int);
    lemma_member_ranks(chains, right, chains.len() as int);
    let a = chain_members(chains, left);
    let b = chain_members(chains, right);
    let all = pair_members(chains, left, right);
    assert forall|local: int| 0 <= local < all.len() implies ({
        let contract = #[trigger] all[local];
        &&& contract < chains.len()
        &&& (chains[contract as int] == left || chains[contract as int] == right)
        &&& local_of(chains, contract as int, left, right) == local
    }) by {
        if local < a.len() {
            assert(all[local] == a[local]);
        } else {
            assert(all[local] == b[local - a.len()]);
        }
    }
}

impl ChainContractIndex {
    /// Lists the contracts of each chain, in memory.
    pub fn build(contract_chain: &[u32], chain_count: usize) -> (result: Result<
        ChainContractIndex,
        PipelineError,
    >)
        requires
            contract_chain@.len() <= u32::MAX,
        ensures
            chains_below(contract_chain@, chain_count as int) ==> (result matches Ok(index) && {
                &&& index.lists(contract_chain@, chain_count as int)
                &&& index.ranks(contract_chain@)
                &&& index.wf() && index.chains@ == contract_chain@
                &&& !index.offsets.mapped && !index.contracts.mapped && !index.local_rank.mapped
            }),
            !chains_below(contract_chain@, chain_count as int) ==> (result matches Err(e) && e@
                == PipelineFault::Invariant("contract chain outside selected chain table"@)),
    {
        if has_unknown_chain(contract_chain, chain_count) {
            return Err(invariant_error("contract chain outside selected chain table"));
        }
        Ok(list_contracts(contract_chain, chain_count, false))
    }

    /// Lists the contracts of each chain, to be kept in mapped files.
    pub fn build_external(contract_chain: &[u32], chain_count: usize) -> (result: Result<
        ChainContractIndex,
        PipelineError,
    >)
        requires
            contract_chain@.len() <= u32::MAX,
        ensures
            chain_count == usize::MAX ==> (result matches Err(e) && e@ == error::overflow_fault()),
            chain_count < usize::MAX ==> {
                &&& chains_below(contract_chain@, chain_count as int) ==> (result matches Ok(index)
                    && {
                    &&& index.lists(contract_chain@, chain_count as int)
                    &&& index.ranks(contract_chain@)
                &&& index.wf() && index.chains@ == contract_chain@
                    &&& index.offsets.mapped && index.contracts.mapped && index.local_rank.mapped
                })
                &&& !chains_below(contract_chain@, chain_count + 1) ==> (result matches Err(e) && e@
                    == PipelineFault::Invariant("contract chain outside selected chain table"@))
                &&& chains_below(contract_chain@, chain_count + 1) && !chains_below(
                    contract_chain@,
                    chain_count as int,
                ) ==> (result matches Err(e) && e@ == PipelineFault::Invariant(
                    "chain offsets do not cover every contract"@,
                ))
            },
    {
        let offsets_len: usize = match chain_count.checked_add(1) {
            None => {
                return Err(overflow_error());
            },
            Some(len) => len,
        };
        if has_unknown_chain(contract_chain, offsets_len) {
            return Err(invariant_error("contract chain outside selected chain table"));
        }
        if has_unknown_chain(contract_chain, chain_count) {
            return Err(invariant_error("chain offsets do not cover every contract"));
        }
        Ok(list_contracts(contract_chain, chain_count, true))
    }

    /// The contracts of a chain.
    pub fn contracts_for_chain(
        &self,
        chain: usize,
    ) -> (result: Result<&[u32], PipelineError>)
        requires
            self.wf(),
        ensures
            chain < self.offsets@.len() - 1 ==> (result matches Ok(row) && row@ == chain_members(
                self.chains@,
                chain as int,
            )),
            chain >= self.offsets@.len() - 1 ==> (result matches Err(e) && e@
                == missing_chain_fault(chain as int, self.offsets@.len() - 1)),
    {
        if chain >= self.offsets.len() {
            return Err(invariant_error("missing chain offset"));
        }
        if chain >= self.offsets.len() - 1 {
            return Err(invariant_error("missing chain end offset"));
        }
        proof {
            lemma_index_rows(*self, self.chains@, self.offsets@.len() - 1, chain as int);
        }
        let begin: usize = self.offsets.words[chain] as usize;
        let end: usize = self.offsets.words[chain + 1] as usize;
        Ok(slice_subrange(self.contracts.as_slice(), begin, end))
    }

    /// The number of contracts of a chain.
    pub fn chain_contract_count(
        &self,
        chain: usize,
    ) -> (result: Result<u32, PipelineError>)
        requires
            self.wf(),
        ensures
            chain < self.offsets@.len() - 1 ==> (result matches Ok(count) && count
                == chain_members(self.chains@, chain as int).len()),
            chain >= self.offsets@.len() - 1 ==> (result matches Err(e) && e@
                == missing_chain_fault(chain as int, self.offsets@.len() - 1)),
    {
        match self.contracts_for_chain(chain) {
            Err(error) => Err(error),
            Ok(row) => {
                proof {
                    lemma_below_step(self.chains@, chain as int, self.chains@.len() as int);
                }
                Ok(row.len() as u32)
            },
        }
    }

    /// The number of contracts of two chains.
    pub fn pair_node_count(
        &self,
        left: usize,
        right: usize,
    ) -> (result: Result<u32, PipelineError>)
        requires
            self.wf(),
        ensures
            ({
                let count = self.offsets@.len() - 1;
                if left >= count {
                    result matches Err(e) && e@ == missing_chain_fault(left as int, count)
                } else if right >= count {
                    result matches Err(e) && e@ == missing_chain_fault(right as int, count)
                } else if pair_members(self.chains@, left as int, right as int).len() > u32::MAX {
                    result matches Err(e) && e@ == error::overflow_fault()
                } else {
                    result matches Ok(nodes) && nodes == pair_members(
                        self.chains@,
                        left as int,
                        right as int,
                    ).len()
                }
            }),
    {
        let a: u32 = match self.chain_contract_count(left) {
            Err(error) => {
                return Err(error);
            },
            Ok(count) => count,
        };
        let b: u32 = match self.chain_contract_count(right) {
            Err(error) => {
                return Err(error);
            },
            Ok(count) => count,
        };
        match a.checked_add(b) {
            None => Err(overflow_error()),
            Some(nodes) => Ok(nodes),
        }
    }

    /// A contract's position in the joint list of two chains.
    pub fn pair_local_contract(
        &self,
        contract_chain: &[u32],
        contract: u32,
        left: usize,
        right: usize,
    ) -> (result: Result<u32, PipelineError>)
        requires
            self.wf(),
            self.chains@ == contract_chain@,
        ensures
            ({
                let chains = contract_chain@;
                if contract >= chains.len() {
                    result matches Err(e) && e@ == PipelineFault::Invariant(
                        "pair edge contract out of range"@,
                    )
                } else if self.local_rank@.len() == 0 {
                    result matches Err(e) && e@ == PipelineFault::Invariant(
                        "missing contract local rank"@,
                    )
                } else if chains[contract as int] != left && chains[contract as int] != right {
                    result matches Err(e) && e@ == PipelineFault::Invariant(
                        "chain-pair forest contains an endpoint from another chain"@,
                    )
                } else if chains[contract as int] != left && left >= self.offsets@.len() - 1 {
                    result matches Err(e) && e@ == missing_chain_fault(
                        left as int,
                        self.offsets@.len() - 1,
                    )
                } else if local_of(chains, contract as int, left as int, right as int) > u32::MAX {
                    result matches Err(e) && e@ == error::overflow_fault()
                } else {
                    result matches Ok(local) && local == local_of(
                        chains,
                        contract as int,
                        left as int,
                        right as int,
                    )
                }
            }),
    {
        let at: usize = contract as usize;
        if at >= contract_chain.len() {
            return Err(invariant_error("pair edge contract out of range"));
        }
        if at >= self.local_rank.len() {
            return Err(invariant_error("missing contract local rank"));
        }
        let chain: usize = contract_chain[at] as usize;
        let rank: u32 = self.local_rank.words[at];
        if chain == left {
            Ok(rank)
        } else if chain == right {
            let left_count: u32 = match self.chain_contract_count(left) {
                Err(error) => {
                    return Err(error);
                },
                Ok(count) => count,
            };
            match left_count.checked_add(rank) {
                None => Err(overflow_error()),
                Some(local) => Ok(local),
            }
        } else {
            Err(invariant_error("chain-pair forest contains an endpoint from another chain"))
        }
    }

    /// The bytes of the lists kept in memory, with the room that the allocator gave, which is
    /// left open.
    pub fn retained_bytes(&self) -> (bytes: u64)
        ensures
            is_list_measure(bytes, *self),
    {
        let offsets: u64 = self.offsets.resident_bytes();
        let contracts: u64 = self.contracts.resident_bytes();
        let bytes: u64 = offsets.saturating_add(contracts);
        assert(bytes == saturating(offsets, contracts));
        bytes
    }

    /// The bytes of the lists and ranks kept in memory, with the room that the allocator gave,
    /// which is left open.
    pub fn total_bytes(&self) -> (bytes: u64)
        ensures
            is_index_measure(bytes, *self),
    {
        let lists: u64 = self.retained_bytes();
        let ranks: u64 = self.local_rank.resident_bytes();
        let bytes: u64 = lists.saturating_add(ranks);
        assert(bytes == saturating(lists, ranks));
        bytes
    }

    /// Drops the ranks.
    pub fn release_local_rank(&mut self)
        ensures
            final(self).local_rank@.len() == 0,
            !final(self).local_rank.mapped,
            final(self).offsets == old(self).offsets,
            final(self).contracts == old(self).contracts,
            final(self).chains == old(self).chains,
    {
        let none: Vec<u32> = Vec::new();
        self.local_rank = RootStorage::resident(none);
    }
}

/// The bytes of words kept in memory: those of the room that the allocator gave, never less than
/// the words take.
pub open spec fn is_resident_measure(bytes: u64, storage: RootStorage) -> bool {
    if storage.mapped {
        bytes == 0
    } else {
        exists|capacity: usize|
            capacity >= storage@.len() && bytes == #[trigger] word_bytes(capacity as nat)
    }
}

/// The bytes of the lists of an index kept in memory.
pub open spec fn is_list_measure(bytes: u64, index: ChainContractIndex) -> bool {
    exists|offsets: u64, contracts: u64|
        is_resident_measure(offsets, index.offsets) && is_resident_measure(
            contracts,
            index.contracts,
        ) && bytes == #[trigger] saturating(offsets, contracts)
}

/// The bytes of the lists and ranks of an index kept in memory.
pub open spec fn is_index_measure(bytes: u64, index: ChainContractIndex) -> bool {
    exists|lists: u64, ranks: u64|
        is_list_measure(lists, index) && is_resident_measure(ranks, index.local_rank) && bytes
            == #[trigger] saturating(lists, ranks)
}

/// The sum, at most `u64::MAX`.
pub open spec fn saturating(a: u64, b: u64) -> u64 {
    if a + b > u64::MAX {
        u64::MAX
    } else {
        (a + b) as u64
    }
}

/// The bytes that the lists and ranks of contracts are expected to take in memory.
pub open spec fn chain_index_estimate(contracts: nat, chain_count: nat) -> nat {
    contracts * 8 + (chain_count + 1) * 8
}

/// What is told of an index that does not fit beside what is reserved.
pub open spec fn external_index_advisory(requested: nat, used: nat, hard_top: nat) -> Seq<char> {
    "chain-local component index exceeds the remaining broker budget: requested="@
        + text::decimal_text(requested) + " bytes, used="@ + text::decimal_text(used)
        + " bytes, hard_top="@ + text::decimal_text(hard_top)
        + " bytes; rebuilding in linear-time checksummed typed arrays and demand-paged mmap instead of allocating outside the broker"@
}

/// What is told of an index that takes more than was reserved for it.
pub open spec fn measured_index_advisory(measured: nat, error: MemoryError) -> Seq<char> {
    "measured chain-local component index requires "@ + text::decimal_text(measured)
        + " bytes beyond its estimate ("@ + error.text()
        + "); retaining the completed index and letting actual allocation pressure determine whether execution can continue"@
}

/// What becomes of the lease of an index that was measured: it is for the bytes measured, or is
/// given back where they do not fit, which is told.
pub open spec fn settles_index(
    result: Result<Option<MemoryLease>, PipelineError>,
    id: int,
    measured: u64,
    after: BrokerModel,
    before: BrokerModel,
    told: Seq<String>,
    told_before: Seq<String>,
) -> bool {
    let slot = before.slots[id];
    let more = measured - slot.bytes;
    if more <= 0 {
        &&& result matches Ok(Some(kept)) && kept.id() == id
        &&& after == before.rewrite(id, measured, slot.reclaimable)
        &&& told == told_before
    } else if before.used + more > u64::MAX {
        &&& result matches Err(e) && e@ == error::overflow_fault()
        &&& after == before.rewrite(id, 0, false)
        &&& told == told_before
    } else if more > before.available(Some(id)) {
        &&& result matches Ok(None)
        &&& after == before.rewrite(id, 0, false)
        &&& told.len() == told_before.len() + 1
        &&& told.drop_last() == told_before
        &&& told.last()@ == measured_index_advisory(
            measured as nat,
            MemoryError::Budget {
                requested: more as u64,
                used: before.used,
                hard_top: before.hard_top,
            },
        )
    } else {
        &&& result matches Ok(Some(kept)) && kept.id() == id
        &&& after == before.make_room(more as u64, Some(id)).rewrite(
            id,
            measured,
            slot.reclaimable,
        )
        &&& told == told_before
    }
}

/// Changes the lease of an index to the bytes that were measured.
pub fn settle_index_lease(
    lease: MemoryLease,
    measured: u64,
    memory: &mut MemoryBroker,
    advisories: &mut Vec<String>,
) -> (result: Result<Option<MemoryLease>, PipelineError>)
    requires
        old(memory)@.wf(),
        lease.is_of(old(memory)@),
    ensures
        final(memory)@.wf(),
        settles_index(
            result,
            lease.id() as int,
            measured,
            final(memory)@,
            old(memory)@,
            final(advisories)@,
            old(advisories)@,
        ),
{
    let mut lease = lease;
    match lease.resize(memory, measured) {
        Ok(_) => Ok(Some(lease)),
        Err(error) => {
            lease.release(memory);
            match error {
                MemoryError::Budget { .. } => {
                    advisories.push(
                        "measured chain-local component index requires ".to_owned().concat(
                            decimal(measured).as_str(),
                        ).concat(" bytes beyond its estimate (").concat(
                            error.message().as_str(),
                        ).concat(
                            "); retaining the completed index and letting actual allocation pressure determine whether execution can continue",
                        ),
                    );
                    assert(advisories@.drop_last() =~= old(advisories)@);
                    Ok(None)
                },
                _ => Err(PipelineError::Memory(error)),
            }
        },
    }
}

/// The index lists the contracts of each chain.
pub open spec fn is_index(index: ChainContractIndex, chains: Seq<u32>, chain_count: int) -> bool {
    &&& index.wf()
    &&& index.chains@ == chains
    &&& index.lists(chains, chain_count)
    &&& index.ranks(chains)
}

/// The index is to be kept in mapped files, which is told: its estimate does not fit.
pub open spec fn is_external_index(
    result: Result<(ChainContractIndex, Option<MemoryLease>), PipelineError>,
    chains: Seq<u32>,
    chain_count: int,
    before: BrokerModel,
    told: Seq<String>,
    told_before: Seq<String>,
) -> bool {
    &&& result matches Ok((index, lease)) && lease is None && index.contracts.mapped && is_index(
        index,
        chains,
        chain_count,
    )
    &&& told.len() == told_before.len() + 1
    &&& told.drop_last() == told_before
    &&& told.last()@ == external_index_advisory(
        chain_index_estimate(chains.len(), chain_count as nat),
        before.used as nat,
        before.hard_top as nat,
    )
}

/// The index is in memory. Its lease is settled for the bytes that were measured.
pub open spec fn is_resident_index(
    result: Result<(ChainContractIndex, Option<MemoryLease>), PipelineError>,
    chains: Seq<u32>,
    chain_count: int,
    index: ChainContractIndex,
    measured: u64,
    after: BrokerModel,
    before: BrokerModel,
    told: Seq<String>,
    told_before: Seq<String>,
) -> bool {
    let estimate = chain_index_estimate(chains.len(), chain_count as nat) as u64;
    &&& is_index(index, chains, chain_count)
    &&& !index.contracts.mapped
    &&& is_index_measure(measured, index)
    &&& result matches Ok((own, _)) ==> own == index
    &&& settles_index(
        match result {
            Ok((_, lease)) => Ok(lease),
            Err(error) => Err(error),
        },
        before.slots.len() as int,
        measured,
        after,
        before.make_room(estimate, None).lease(estimate, false),
        told,
        told_before,
    )
}

/// What admitting the lists of contracts gives: an overflow, lists to be kept in mapped files
/// where the estimate does not fit, and else lists in memory.
pub open spec fn is_index_admission(
    result: Result<(ChainContractIndex, Option<MemoryLease>), PipelineError>,
    chains: Seq<u32>,
    chain_count: int,
    after: BrokerModel,
    before: BrokerModel,
    told: Seq<String>,
    told_before: Seq<String>,
) -> bool {
    let estimate = chain_index_estimate(chains.len(), chain_count as nat);
    if before.used + estimate > u64::MAX {
        &&& result matches Err(e) && e@ == error::overflow_fault()
        &&& after == before
        &&& told == told_before
    } else if estimate > before.available(None) {
        after == before && is_external_index(
            result,
            chains,
            chain_count,
            before,
            told,
            told_before,
        )
    } else {
        exists|index: ChainContractIndex, measured: u64| #[trigger]
            is_resident_index(
                result,
                chains,
                chain_count,
                index,
                measured,
                after,
                before,
                told,
                told_before,
            )
    }
}

/// Lists the contracts of each chain, in memory where that fits beside what is reserved, and else
/// to be kept in mapped files. The lease is for the bytes that the lists take: how much room the
/// allocator gave them is left open, and [`settle_index_lease`] says what follows from it.
pub fn admit_chain_index(
    contract_chain: &[u32],
    chain_count: usize,
    memory: &mut MemoryBroker,
    advisories: &mut Vec<String>,
) -> (result: Result<(ChainContractIndex, Option<MemoryLease>), PipelineError>)
    requires
        contract_chain@.len() <= u32::MAX,
        chain_count <= u32::MAX,
        chain_count < usize::MAX,
        chains_below(contract_chain@, chain_count as int),
        old(memory)@.wf(),
    ensures
        final(memory)@.wf(),
        is_index_admission(
            result,
            contract_chain@,
            chain_count as int,
            final(memory)@,
            old(memory)@,
            final(advisories)@,
            old(advisories)@,
        ),
{
    let estimate: u64 = contract_chain.len() as u64 * 8 + (chain_count as u64 + 1) * 8;
    let used: u64 = memory.used_bytes();
    let hard_top: u64 = memory.hard_top_bytes();
    match memory.reserve(estimate) {
        Ok(lease) => {
            let index = match ChainContractIndex::build(contract_chain, chain_count) {
                Ok(index) => index,
                Err(error) => {
                    assert(false);
                    return Err(error);
                },
            };
            let measured: u64 = index.total_bytes();
            let ghost listed = index;
            let settled = settle_index_lease(lease, measured, memory, advisories);
            let result = match settled {
                Ok(kept) => Ok((index, kept)),
                Err(error) => Err(error),
            };
            assert(is_resident_index(
                result,
                contract_chain@,
                chain_count as int,
                listed,
                measured,
                memory@,
                old(memory)@,
                advisories@,
                old(advisories)@,
            ));
            result
        },
        Err(MemoryError::Budget { .. }) => {
            advisories.push(
                "chain-local component index exceeds the remaining broker budget: requested=".to_owned().concat(
                    decimal(estimate).as_str(),
                ).concat(" bytes, used=").concat(decimal(used).as_str()).concat(
                    " bytes, hard_top=",
                ).concat(decimal(hard_top).as_str()).concat(
                    " bytes; rebuilding in linear-time checksummed typed arrays and demand-paged mmap instead of allocating outside the broker",
                ),
            );
            assert(advisories@.drop_last() =~= old(advisories)@);
            match ChainContractIndex::build_external(contract_chain, chain_count) {
                Ok(index) => Ok((index, None)),
                Err(error) => {
                    assert(false);
                    Err(error)
                },
            }
        },
        Err(error) => Err(PipelineError::Memory(error)),
    }
}

} // verus!
