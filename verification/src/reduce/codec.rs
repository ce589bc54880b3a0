//! Stored forms of component roots.

use crate::reduce::chain;
use crate::reduce::chain::{check_roots_in_range, ComponentSnapshot, COMPONENT_SNAPSHOT_REVISION};
use crate::reduce::error::{chain_error, ReduceError, ReduceFault};
use vstd::prelude::*;
use vstd::string::*;

verus! {

/// Words that two more file headers cost.
pub const SPARSE_OVERHEAD_WORDS: usize = 16;

/// Revision of the chain manifest.
pub const COMPONENT_SNAPSHOT_CHAIN_REVISION: u32 = 1;

/// Component roots as they are stored: one word per node, or only the nodes that are not
/// their own root.
#[derive(Debug, PartialEq, Eq)]
pub enum StoredRoots {
    Dense(Vec<u32>),
    Sparse { nodes: Vec<u32>, values: Vec<u32> },
}

/// The nodes that are not their own root, in order.
pub open spec fn moved_nodes(roots: Seq<u32>) -> Seq<u32>
    decreases roots.len(),
{
    if roots.len() == 0 {
        Seq::empty()
    } else {
        let node = (roots.len() - 1) as u32;
        let earlier = moved_nodes(roots.drop_last());
        if roots.last() != node {
            earlier.push(node)
        } else {
            earlier
        }
    }
}

/// The roots of those nodes.
pub open spec fn moved_values(roots: Seq<u32>) -> Seq<u32> {
    moved_nodes(roots).map_values(|node: u32| roots[node as int])
}

/// Two words for each moved node and two headers take less than one word per node.
pub open spec fn sparse_is_smaller(roots: Seq<u32>) -> bool {
    2 * moved_nodes(roots).len() + SPARSE_OVERHEAD_WORDS < roots.len()
}

/// The identity roots of `node_count` nodes with the first `count` stored ones put in.
pub open spec fn placed(nodes: Seq<u32>, values: Seq<u32>, node_count: nat, count: int) -> Seq<u32>
    decreases count,
{
    if count <= 0 {
        Seq::new(node_count, |i: int| i as u32)
    } else {
        placed(nodes, values, node_count, count - 1).update(
            nodes[count - 1] as int,
            values[count - 1],
        )
    }
}

/// Entry `i` names a node and a root in range, after the entry before.
pub open spec fn sparse_entry_valid(
    nodes: Seq<u32>,
    values: Seq<u32>,
    node_count: nat,
    i: int,
) -> bool {
    &&& nodes[i] < node_count
    &&& values[i] < node_count
    &&& i > 0 ==> nodes[i - 1] < nodes[i]
}

/// All entries are valid.
pub open spec fn sparse_valid(nodes: Seq<u32>, values: Seq<u32>, node_count: nat) -> bool {
    forall|i: int|
        0 <= i < nodes.len() ==> #[trigger] sparse_entry_valid(nodes, values, node_count, i)
}

/// What stored roots say, or why they are refused.
pub open spec fn decoded(stored: StoredRoots, node_count: nat) -> Result<Seq<u32>, Seq<char>> {
    match stored {
        StoredRoots::Dense(roots) => if roots@.len() != node_count || !chain::roots_in_range(
            roots@,
        ) {
            Err("component snapshot roots invalid"@)
        } else {
            Ok(roots@)
        },
        StoredRoots::Sparse { nodes, values } => if nodes@.len() != values@.len() {
            Err("sparse component roots have mismatched columns"@)
        } else if !sparse_valid(nodes@, values@, node_count) {
            Err("sparse component roots are invalid"@)
        } else {
            Ok(placed(nodes@, values@, node_count, nodes@.len() as int))
        },
    }
}

proof fn lemma_moved_nodes(roots: Seq<u32>)
    requires
        roots.len() <= u32::MAX,
    ensures
        moved_nodes(roots).len() <= roots.len(),
        forall|i: int|
            0 <= i < moved_nodes(roots).len() ==> {
                &&& (#[trigger] moved_nodes(roots)[i]) < roots.len()
                &&& roots[moved_nodes(roots)[i] as int] != moved_nodes(roots)[i]
            },
        forall|i: int, j: int|
            0 <= i < j < moved_nodes(roots).len() ==> (#[trigger] moved_nodes(roots)[i]) < (
            #[trigger] moved_nodes(roots)[j]),
        forall|node: int|
            0 <= node < roots.len() && #[trigger] roots[node] != node ==> moved_nodes(
                roots,
            ).contains(node as u32),
    decreases roots.len(),
{
    if roots.len() > 0 {
        let rest = roots.drop_last();
        lemma_moved_nodes(rest);
        let node = roots.len() - 1;
        let here = moved_nodes(roots);
        let there = moved_nodes(rest);
        assert forall|i: int| 0 <= i < here.len() implies {
            &&& (#[trigger] here[i]) < roots.len()
            &&& roots[here[i] as int] != here[i]
        } by {
            if i < there.len() {
                assert(here[i] == there[i]);
                assert(rest[there[i] as int] == roots[there[i] as int]);
            }
        }
        assert forall|i: int, j: int| 0 <= i < j < here.len() implies (#[trigger] here[i]) < (
        #[trigger] here[j]) by {
            assert(here[i] == there[i]);
            if j < there.len() {
                assert(here[j] == there[j]);
            }
        }
        assert forall|other: int|
            0 <= other < roots.len() && #[trigger] roots[other] != other implies here.contains(
            other as u32,
        ) by {
            if other < node {
                assert(rest[other] == roots[other]);
                let k = there.index_of(other as u32);
                assert(here[k] == other as u32);
            } else {
                assert(here[there.len() as int] == node as u32);
            }
        }
    }
}

proof fn lemma_placed(nodes: Seq<u32>, values: Seq<u32>, node_count: nat, count: int)
    requires
        nodes.len() == values.len(),
        0 <= count <= nodes.len(),
        node_count <= u32::MAX,
        sparse_valid(nodes, values, node_count),
    ensures
        placed(nodes, values, node_count, count).len() == node_count,
        forall|i: int|
            0 <= i < count ==> placed(nodes, values, node_count, count)[#[trigger] nodes[i] as int]
                == values[i],
        forall|node: int|
            0 <= node < node_count && !nodes.take(count).contains(node as u32)
                ==> #[trigger] placed(nodes, values, node_count, count)[node] == node,
        chain::roots_in_range(placed(nodes, values, node_count, count)),
    decreases count,
{
    if count > 0 {
        let last = count - 1;
        lemma_placed(nodes, values, node_count, last);
        assert(sparse_entry_valid(nodes, values, node_count, last));
        lemma_sparse_increasing(nodes, values, node_count);
        let before = placed(nodes, values, node_count, last);
        let after = placed(nodes, values, node_count, count);
        assert forall|i: int| 0 <= i < count implies after[#[trigger] nodes[i] as int]
            == values[i] by {
            if i < last {
                assert(nodes[i] < nodes[last]);
            }
        }
        assert forall|node: int|
            0 <= node < node_count && !nodes.take(count).contains(node as u32) implies
            #[trigger] after[node] == node by {
            assert(nodes.take(count)[last] == nodes[last]);
            if nodes.take(last).contains(node as u32) {
                let k = nodes.take(last).index_of(node as u32);
                assert(nodes.take(count)[k] == node as u32);
            }
            assert(before[node] == node);
        }
    } else {
        assert(nodes.take(0) =~= Seq::empty());
    }
}

proof fn lemma_sparse_increasing(nodes: Seq<u32>, values: Seq<u32>, node_count: nat)
    requires
        sparse_valid(nodes, values, node_count),
    ensures
        forall|i: int, j: int|
            0 <= i < j < nodes.len() ==> #[trigger] nodes[i] < #[trigger] nodes[j],
{
    assert forall|i: int, j: int| 0 <= i < j < nodes.len() implies #[trigger] nodes[i]
        < #[trigger] nodes[j] by {
        lemma_sparse_step(nodes, values, node_count, i, j);
    }
}

proof fn lemma_sparse_step(nodes: Seq<u32>, values: Seq<u32>, node_count: nat, i: int, j: int)
    requires
        sparse_valid(nodes, values, node_count),
        0 <= i < j < nodes.len(),
    ensures
        nodes[i] < nodes[j],
    decreases j - i,
{
    assert(sparse_entry_valid(nodes, values, node_count, j));
    if i < j - 1 {
        lemma_sparse_step(nodes, values, node_count, i, j - 1);
    }
}

/// Reading back stored roots gives the roots: what is written is what is read.
pub proof fn lemma_sparse_round_trip(roots: Seq<u32>)
    requires
        roots.len() <= u32::MAX,
        chain::roots_in_range(roots),
    ensures
        moved_nodes(roots).len() == moved_values(roots).len(),
        sparse_valid(moved_nodes(roots), moved_values(roots), roots.len()),
        placed(
            moved_nodes(roots),
            moved_values(roots),
            roots.len(),
            moved_nodes(roots).len() as int,
        ) == roots,
{
    let nodes = moved_nodes(roots);
    let values = moved_values(roots);
    lemma_moved_nodes(roots);
    assert forall|i: int| 0 <= i < nodes.len() implies #[trigger] sparse_entry_valid(
        nodes,
        values,
        roots.len(),
        i,
    ) by {
        assert(values[i] == roots[nodes[i] as int]);
        if i > 0 {
            assert(nodes[i - 1] < nodes[i]);
        }
    }
    lemma_placed(nodes, values, roots.len(), nodes.len() as int);
    let read = placed(nodes, values, roots.len(), nodes.len() as int);
    assert(nodes.take(nodes.len() as int) =~= nodes);
    assert forall|node: int| 0 <= node < roots.len() implies read[node] == roots[node] by {
        if nodes.contains(node as u32) {
            let k = nodes.index_of(node as u32);
            assert(read[nodes[k] as int] == values[k]);
        } else {
            assert(read[node] == node);
            if roots[node] != node {
                assert(nodes.contains(node as u32));
            }
        }
    }
    assert(read =~= roots);
}

/// The stored form of roots: sparse where that takes fewer words.
pub fn encode_component_roots(roots: &[u32]) -> (stored: StoredRoots)
    requires
        roots@.len() <= u32::MAX,
    ensures
        match stored {
            StoredRoots::Sparse { nodes, values } => sparse_is_smaller(roots@) && nodes@
                == moved_nodes(roots@) && values@ == moved_values(roots@),
            StoredRoots::Dense(words) => !sparse_is_smaller(roots@) && words@ == roots@,
        },
        chain::roots_in_range(roots@) ==> decoded(stored, roots@.len()) == Ok::<
            Seq<u32>,
            Seq<char>,
        >(roots@),
{
    let mut nodes: Vec<u32> = Vec::new();
    let mut values: Vec<u32> = Vec::new();
    let mut i: usize = 0;
    assert(values@ =~= moved_values(roots@.take(0)));
    while i < roots.len()
        invariant
            i <= roots@.len() <= u32::MAX,
            nodes@ == moved_nodes(roots@.take(i as int)),
            nodes@.len() == values@.len(),
            nodes@.len() <= i,
            forall|k: int|
                0 <= k < nodes@.len() ==> {
                    &&& (#[trigger] nodes@[k]) < i
                    &&& values@[k] == roots@[nodes@[k] as int]
                },
        decreases roots.len() - i,
    {
        assert(roots@.take(i + 1).drop_last() =~= roots@.take(i as int));
        if roots[i] != i as u32 {
            nodes.push(i as u32);
            values.push(roots[i]);
        }
        i = i + 1;
    }
    proof {
        assert(roots@.take(i as int) =~= roots@);
        assert(values@ =~= moved_values(roots@));
        if chain::roots_in_range(roots@) {
            lemma_sparse_round_trip(roots@);
        }
    }
    if nodes.len() < roots.len() / 2 && 2 * nodes.len() < roots.len() - roots.len() % 2
        && roots.len() - 2 * nodes.len() > SPARSE_OVERHEAD_WORDS {
        StoredRoots::Sparse { nodes, values }
    } else {
        let mut words: Vec<u32> = Vec::new();
        let mut j: usize = 0;
        while j < roots.len()
            invariant
                j <= roots@.len(),
                words@ == roots@.take(j as int),
            decreases roots.len() - j,
        {
            words.push(roots[j]);
            j = j + 1;
            assert(words@ =~= roots@.take(j as int));
        }
        assert(words@ =~= roots@);
        StoredRoots::Dense(words)
    }
}

/// The roots that the stored form holds.
pub fn decode_component_roots(stored: StoredRoots, node_count: u32) -> (result: Result<
    Vec<u32>,
    ReduceError,
>)
    ensures
        match decoded(stored, node_count as nat) {
            Ok(roots) => result matches Ok(r) && r@ == roots,
            Err(text) => result matches Err(e) && e@ == ReduceFault::SnapshotChain(text),
        },
{
    match stored {
        StoredRoots::Dense(roots) => {
            if roots.len() != node_count as usize || !check_roots_in_range(&roots) {
                return Err(chain_error("component snapshot roots invalid"));
            }
            Ok(roots)
        },
        StoredRoots::Sparse { nodes, values } => {
            if nodes.len() != values.len() {
                return Err(chain_error("sparse component roots have mismatched columns"));
            }
            let ghost count = node_count as nat;
            let mut roots: Vec<u32> = Vec::new();
            let mut node: u32 = 0;
            while node < node_count
                invariant
                    node <= node_count,
                    roots@.len() == node,
                    forall|k: int| 0 <= k < node ==> #[trigger] roots@[k] == k,
                decreases node_count - node,
            {
                roots.push(node);
                node = node + 1;
            }
            assert(roots@ =~= placed(nodes@, values@, count, 0));
            let mut i: usize = 0;
            while i < nodes.len()
                invariant
                    i <= nodes@.len(),
                    nodes@.len() == values@.len(),
                    count == node_count,
                    stored == (StoredRoots::Sparse { nodes, values }),
                    roots@.len() == node_count,
                    roots@ == placed(nodes@, values@, count, i as int),
                    forall|k: int|
                        0 <= k < i ==> #[trigger] sparse_entry_valid(nodes@, values@, count, k),
                decreases nodes.len() - i,
            {
                if nodes[i] >= node_count || values[i] >= node_count || (i > 0 && nodes[i]
                    <= nodes[i - 1]) {
                    assert(!sparse_entry_valid(nodes@, values@, count, i as int));
                    return Err(chain_error("sparse component roots are invalid"));
                }
                roots.set(nodes[i] as usize, values[i]);
                i = i + 1;
            }
            Ok(roots)
        },
    }
}

impl ComponentSnapshot {
    /// A snapshot from its stored description: refused where the description is of another
    /// revision or epoch, names no roots, or names invalid ones.
    pub fn decode(
        revision: u32,
        epoch: u32,
        expected_epoch: u32,
        base_epoch: Option<u32>,
        node_count: u32,
        stored: Option<StoredRoots>,
    ) -> (result: Result<ComponentSnapshot, ReduceError>)
        ensures
            if revision != COMPONENT_SNAPSHOT_REVISION || epoch != expected_epoch {
                result matches Err(e) && e@ == ReduceFault::SnapshotChain(
                    "component snapshot revision/epoch mismatch"@,
                )
            } else {
                match stored {
                    None => result matches Err(e) && e@ == ReduceFault::SnapshotChain(
                        "component snapshot root storage is invalid"@,
                    ),
                    Some(form) => match decoded(form, node_count as nat) {
                        Err(text) => result matches Err(e) && e@ == ReduceFault::SnapshotChain(
                            text,
                        ),
                        Ok(roots) => result matches Ok(snapshot) && snapshot@ == (
                        chain::SnapshotModel { revision, epoch, base_epoch, roots }),
                    },
                }
            },
    {
        if revision != COMPONENT_SNAPSHOT_REVISION || epoch != expected_epoch {
            return Err(chain_error("component snapshot revision/epoch mismatch"));
        }
        match stored {
            None => Err(chain_error("component snapshot root storage is invalid")),
            Some(form) => match decode_component_roots(form, node_count) {
                Err(error) => Err(error),
                Ok(roots) => Ok(ComponentSnapshot { revision, epoch, base_epoch, roots }),
            },
        }
    }
}

/// What a snapshot chain belongs to.
#[derive(Debug, Clone, PartialEq, Eq)]
pub struct ComponentSnapshotIdentity {
    pub schema_revision: u32,
    pub snapshot_fingerprint: String,
    pub connectivity_revision: u32,
    pub connectivity_plan_digest: String,
    pub scope_identity: String,
    pub node_count: u32,
}

impl ComponentSnapshotIdentity {
    /// All fields agree.
    pub open spec fn agrees(&self, other: &ComponentSnapshotIdentity) -> bool {
        &&& self.schema_revision == other.schema_revision
        &&& self.snapshot_fingerprint@ == other.snapshot_fingerprint@
        &&& self.connectivity_revision == other.connectivity_revision
        &&& self.connectivity_plan_digest@ == other.connectivity_plan_digest@
        &&& self.scope_identity@ == other.scope_identity@
        &&& self.node_count == other.node_count
    }

    /// A manifest of this revision and identity is of the expected chain.
    pub fn is_current(&self, manifest_revision: u32, expected: &ComponentSnapshotIdentity) -> (current:
        bool)
        ensures
            current == (manifest_revision == COMPONENT_SNAPSHOT_CHAIN_REVISION && self.agrees(
                expected,
            )),
    {
        manifest_revision == COMPONENT_SNAPSHOT_CHAIN_REVISION && self.schema_revision
            == expected.schema_revision && self.snapshot_fingerprint
            == expected.snapshot_fingerprint && self.connectivity_revision
            == expected.connectivity_revision && self.connectivity_plan_digest
            == expected.connectivity_plan_digest && self.scope_identity == expected.scope_identity
            && self.node_count == expected.node_count
    }

    /// Refuses roots that are not of this identity's nodes.
    pub fn validate_component_roots(&self, roots: &[u32]) -> (result: Result<(), ReduceError>)
        ensures
            if roots@.len() == self.node_count && chain::roots_in_range(roots@) {
                result is Ok
            } else {
                result matches Err(e) && e@ == ReduceFault::SnapshotChain(
                    "component roots do not match snapshot identity"@,
                )
            },
    {
        if roots.len() != self.node_count as usize || !check_roots_in_range(roots) {
            return Err(chain_error("component roots do not match snapshot identity"));
        }
        Ok(())
    }

    /// Refuses a dense snapshot description that is not the only, full one of this identity.
    pub fn validate_dense_snapshot(
        &self,
        revision: u32,
        epoch: u32,
        base_epoch: Option<u32>,
        node_count: usize,
    ) -> (result: Result<(), ReduceError>)
        ensures
            if revision == COMPONENT_SNAPSHOT_REVISION && epoch == 0 && base_epoch is None
                && node_count == self.node_count {
                result is Ok
            } else {
                result matches Err(e) && e@ == ReduceFault::SnapshotChain(
                    "component snapshot identity/node count mismatch"@,
                )
            },
    {
        if revision != COMPONENT_SNAPSHOT_REVISION || epoch != 0 || base_epoch.is_some()
            || node_count != self.node_count as usize {
            return Err(chain_error("component snapshot identity/node count mismatch"));
        }
        Ok(())
    }
}

/// A node is listed as moved exactly if it is not its own root, and each once.
pub proof fn lemma_moved_are_listed(roots: Seq<u32>, node: u32)
    requires
        roots.len() <= u32::MAX,
    ensures
        moved_nodes(roots).contains(node) <==> node < roots.len() && roots[node as int] != node,
        forall|i: int, j: int|
            0 <= i < j < moved_nodes(roots).len() ==> #[trigger] moved_nodes(roots)[i]
                < #[trigger] moved_nodes(roots)[j],
        forall|i: int|
            0 <= i < moved_nodes(roots).len() ==> #[trigger] moved_nodes(roots)[i] < roots.len(),
    decreases roots.len(),
{
    if roots.len() > 0 {
        let rest = roots.drop_last();
        let earlier = moved_nodes(rest);
        let last = (roots.len() - 1) as u32;
        lemma_moved_are_listed(rest, node);
        if roots.last() != last {
            let all = earlier.push(last);
            assert(moved_nodes(roots) == all);
            if earlier.contains(node) {
                let i = choose|i: int| 0 <= i < earlier.len() && earlier[i] == node;
                assert(all[i] == node);
            }
            if all.contains(node) && node != last {
                let i = choose|i: int| 0 <= i < all.len() && all[i] == node;
                assert(earlier[i] == node);
            }
            assert(all[earlier.len() as int] == last);
        }
    }
}

/// Sparse roots give a listed node the value beside it, and leave every other its own root.
pub proof fn lemma_sparse_places(
    nodes: Seq<u32>,
    values: Seq<u32>,
    node_count: nat,
    count: int,
    node: int,
)
    requires
        nodes.len() == values.len(),
        node_count <= u32::MAX,
        sparse_valid(nodes, values, node_count),
        0 <= count <= nodes.len(),
        0 <= node < node_count,
    ensures
        ({
            let roots = placed(nodes, values, node_count, count);
            &&& roots.len() == node_count
            &&& forall|i: int|
                0 <= i < count && #[trigger] nodes[i] == node ==> roots[node] == values[i]
            &&& (forall|i: int| 0 <= i < count ==> #[trigger] nodes[i] != node) ==> roots[node]
                == node
        }),
    decreases count,
{
    if count > 0 {
        lemma_sparse_places(nodes, values, node_count, count - 1, node);
        assert(sparse_entry_valid(nodes, values, node_count, count - 1));
        assert forall|i: int| 0 <= i < count - 1 implies #[trigger] nodes[i] < nodes[count - 1] by {
            lemma_nodes_rise(nodes, values, node_count, i, count - 1);
        }
    }
}

proof fn lemma_nodes_rise(nodes: Seq<u32>, values: Seq<u32>, node_count: nat, i: int, j: int)
    requires
        sparse_valid(nodes, values, node_count),
        0 <= i < j < nodes.len(),
    ensures
        nodes[i] < nodes[j],
    decreases j - i,
{
    assert(sparse_entry_valid(nodes, values, node_count, j));
    if i < j - 1 {
        lemma_nodes_rise(nodes, values, node_count, i, j - 1);
    }
}

/// Roots are stored sparsely exactly if that saves words: two for a moved node and sixteen more
/// are fewer than one for every node.
pub proof fn lemma_sparse_saves_words(roots: Seq<u32>)
    ensures
        sparse_is_smaller(roots) <==> moved_nodes(roots).len() + moved_values(roots).len() + 16
            < roots.len(),
{
}

} // verus!
