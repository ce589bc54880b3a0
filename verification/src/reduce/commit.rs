//! Component roots in a directory: the steps that write them, and what is read back.

use crate::reduce::chain;
use crate::reduce::chain::{
    validate_component_snapshot_chain, ComponentSnapshot, SnapshotModel,
    COMPONENT_SNAPSHOT_REVISION,
};
use crate::reduce::codec;
use crate::reduce::codec::{
    encode_component_roots, ComponentSnapshotIdentity, StoredRoots,
    COMPONENT_SNAPSHOT_CHAIN_REVISION,
};
use crate::reduce::error::{ReduceError, ReduceFault};
use vstd::prelude::*;
use vstd::string::*;

verus! {

/// A snapshot as it is stored, with what its marker says.
#[derive(Debug, PartialEq, Eq)]
pub struct StoredSnapshot {
    pub revision: u32,
    pub epoch: u32,
    pub base_epoch: Option<u32>,
    pub node_count: u32,
    pub roots: Option<StoredRoots>,
}

/// The marker of a chain: whose roots the directory holds, and in which snapshots.
#[derive(Debug, PartialEq, Eq)]
pub struct ChainMarker {
    pub revision: u32,
    pub identity: ComponentSnapshotIdentity,
    pub epochs: Vec<u32>,
}

/// A step of writing roots.
#[derive(Debug, PartialEq, Eq)]
pub enum CommitStep {
    /// The marker of the chain is removed.
    Withdraw,
    /// A snapshot is written in place of that of its epoch.
    Store(StoredSnapshot),
    /// The marker of the chain is written.
    Announce(ChainMarker),
    /// The caller is told.
    Tell,
}

/// What a directory holds.
pub struct RootDirectory {
    pub marker: Option<ChainMarker>,
    pub snapshots: Map<u32, StoredSnapshot>,
}

impl RootDirectory {
    /// The directory after a step.
    pub open spec fn after(self, step: CommitStep) -> RootDirectory {
        match step {
            CommitStep::Withdraw => RootDirectory { marker: None, ..self },
            CommitStep::Store(snapshot) => RootDirectory {
                snapshots: self.snapshots.insert(snapshot.epoch, snapshot),
                ..self
            },
            CommitStep::Announce(marker) => RootDirectory { marker: Some(marker), ..self },
            CommitStep::Tell => self,
        }
    }

    /// The directory after the first `count` steps.
    pub open spec fn after_all(self, steps: Seq<CommitStep>, count: int) -> RootDirectory
        decreases count,
    {
        if count <= 0 {
            self
        } else {
            self.after_all(steps, count - 1).after(steps[count - 1])
        }
    }

    /// The directory holds this chain for an identity: the marker names its epochs, and each
    /// snapshot is read as it was.
    pub open spec fn holds_chain(
        self,
        identity: ComponentSnapshotIdentity,
        chain: Seq<SnapshotModel>,
    ) -> bool {
        &&& self.marker matches Some(marker) && marker.is_of(identity) && marker.epochs@
            == epochs_of(chain)
        &&& forall|k: int|
            0 <= k < chain.len() ==> self.snapshots.contains_key((#[trigger] chain[k]).epoch)
                && self.snapshots[chain[k].epoch].outcome(chain[k].epoch) == Ok::<
                SnapshotModel,
                ReduceFault,
            >(chain[k])
    }
}

/// How often the caller is told in the first `count` steps.
pub open spec fn tells(steps: Seq<CommitStep>, count: int) -> nat
    decreases count,
{
    if count <= 0 {
        0
    } else {
        tells(steps, count - 1) + if steps[count - 1] is Tell {
            1nat
        } else {
            0nat
        }
    }
}

/// The epochs of the snapshots, in order.
pub open spec fn epochs_of(chain: Seq<SnapshotModel>) -> Seq<u32> {
    chain.map_values(|snapshot: SnapshotModel| snapshot.epoch)
}

/// The stored form of roots: one word per node where that is asked for or takes no more words.
pub open spec fn is_form(form: StoredRoots, roots: Seq<u32>, dense: bool) -> bool {
    match form {
        StoredRoots::Sparse { nodes, values } => !dense && codec::sparse_is_smaller(roots)
            && nodes@ == codec::moved_nodes(roots) && values@ == codec::moved_values(roots),
        StoredRoots::Dense(words) => (dense || !codec::sparse_is_smaller(roots)) && words@ == roots,
    }
}

impl StoredSnapshot {
    /// The stored form of a snapshot.
    pub open spec fn is_stored(self, snapshot: SnapshotModel, dense: bool) -> bool {
        &&& self.revision == snapshot.revision
        &&& self.epoch == snapshot.epoch
        &&& self.base_epoch == snapshot.base_epoch
        &&& self.node_count == snapshot.roots.len()
        &&& self.roots matches Some(form) && is_form(form, snapshot.roots, dense)
    }

    /// What reading the snapshot of an epoch gives.
    pub open spec fn outcome(self, epoch: u32) -> Result<SnapshotModel, ReduceFault> {
        if self.revision != COMPONENT_SNAPSHOT_REVISION || self.epoch != epoch {
            Err(ReduceFault::SnapshotChain("component snapshot revision/epoch mismatch"@))
        } else {
            match self.roots {
                None => Err(
                    ReduceFault::SnapshotChain("component snapshot root storage is invalid"@),
                ),
                Some(form) => match codec::decoded(form, self.node_count as nat) {
                    Err(text) => Err(ReduceFault::SnapshotChain(text)),
                    Ok(roots) => Ok(
                        SnapshotModel {
                            revision: self.revision,
                            epoch: self.epoch,
                            base_epoch: self.base_epoch,
                            roots,
                        },
                    ),
                },
            }
        }
    }

    /// Reads the snapshot of an epoch.
    pub fn open(self, epoch: u32) -> (result: Result<ComponentSnapshot, ReduceError>)
        ensures
            chain::is_snapshot_result(result, self.outcome(epoch)),
    {
        ComponentSnapshot::decode(
            self.revision,
            self.epoch,
            epoch,
            self.base_epoch,
            self.node_count,
            self.roots,
        )
    }
}

impl ChainMarker {
    /// The marker is of the identity.
    pub open spec fn is_of(self, identity: ComponentSnapshotIdentity) -> bool {
        self.revision == COMPONENT_SNAPSHOT_CHAIN_REVISION && self.identity.agrees(&identity)
    }

    /// Whether the marker is of the identity.
    pub fn is_current(&self, expected: &ComponentSnapshotIdentity) -> (current: bool)
        ensures
            current == self.is_of(*expected),
    {
        self.identity.is_current(self.revision, expected)
    }
}

/// The steps that write a chain: the marker is withdrawn first, every snapshot is written and
/// told, and the new marker comes last and is told.
pub open spec fn is_commit(
    steps: Seq<CommitStep>,
    identity: ComponentSnapshotIdentity,
    chain: Seq<SnapshotModel>,
    dense: bool,
) -> bool {
    let n = chain.len() as int;
    &&& steps.len() == 2 * n + 3
    &&& steps[0] is Withdraw
    &&& forall|k: int| 0 <= k < n ==> #[trigger] stores_at(steps, chain, dense, k)
    &&& steps[2 * n + 1] matches CommitStep::Announce(marker) && marker.is_of(identity)
        && marker.epochs@ == epochs_of(chain)
    &&& steps[2 * n + 2] is Tell
}

/// Snapshot `k` is written and told.
pub open spec fn stores_at(
    steps: Seq<CommitStep>,
    chain: Seq<SnapshotModel>,
    dense: bool,
    k: int,
) -> bool {
    &&& steps[2 * k + 1] matches CommitStep::Store(stored) && stored.is_stored(chain[k], dense)
    &&& steps[2 * k + 2] is Tell
}

fn copy_identity(identity: &ComponentSnapshotIdentity) -> (copy: ComponentSnapshotIdentity)
    ensures
        copy.agrees(identity),
{
    ComponentSnapshotIdentity {
        schema_revision: identity.schema_revision,
        snapshot_fingerprint: identity.snapshot_fingerprint.clone(),
        connectivity_revision: identity.connectivity_revision,
        connectivity_plan_digest: identity.connectivity_plan_digest.clone(),
        scope_identity: identity.scope_identity.clone(),
        node_count: identity.node_count,
    }
}

fn dense_roots(roots: &[u32]) -> (stored: StoredRoots)
    ensures
        is_form(stored, roots@, true),
{
    let mut words: Vec<u32> = Vec::with_capacity(roots.len());
    let mut i: usize = 0;
    assert(roots@.take(0) =~= Seq::<u32>::empty());
    while i < roots.len()
        invariant
            i <= roots@.len(),
            words@ == roots@.take(i as int),
        decreases roots.len() - i,
    {
        words.push(roots[i]);
        i = i + 1;
        assert(words@ =~= roots@.take(i as int));
    }
    assert(words@ =~= roots@);
    StoredRoots::Dense(words)
}

/// The one snapshot of reduced roots.
pub open spec fn root_chain(roots: Seq<u32>) -> Seq<SnapshotModel> {
    seq![
        SnapshotModel { revision: COMPONENT_SNAPSHOT_REVISION, epoch: 0, base_epoch: None, roots },
    ]
}

/// The steps that write roots as one full snapshot, with one word per node where `dense`.
/// Refuses roots that are not of the identity.
pub fn plan_root_commit(identity: &ComponentSnapshotIdentity, roots: &[u32], dense: bool) -> (result:
    Result<Vec<CommitStep>, ReduceError>)
    ensures
        if roots@.len() == identity.node_count && chain::roots_in_range(roots@) {
            result matches Ok(steps) && is_commit(
                steps@,
                *identity,
                root_chain(roots@),
                dense,
            )
        } else {
            result matches Err(e) && e@ == ReduceFault::SnapshotChain(
                "component roots do not match snapshot identity"@,
            )
        },
{
    if let Err(error) = identity.validate_component_roots(roots) {
        return Err(error);
    }
    let form: StoredRoots = if dense {
        dense_roots(roots)
    } else {
        encode_component_roots(roots)
    };
    let snapshot = StoredSnapshot {
        revision: COMPONENT_SNAPSHOT_REVISION,
        epoch: 0,
        base_epoch: None,
        node_count: identity.node_count,
        roots: Some(form),
    };
    let mut epochs: Vec<u32> = Vec::new();
    epochs.push(0);
    let marker = ChainMarker {
        revision: COMPONENT_SNAPSHOT_CHAIN_REVISION,
        identity: copy_identity(identity),
        epochs,
    };
    let ghost models = root_chain(roots@);
    let mut steps: Vec<CommitStep> = Vec::new();
    steps.push(CommitStep::Withdraw);
    steps.push(CommitStep::Store(snapshot));
    steps.push(CommitStep::Tell);
    steps.push(CommitStep::Announce(marker));
    steps.push(CommitStep::Tell);
    proof {
        assert(epochs_of(models) =~= seq![0u32]);
        assert(marker.epochs@ =~= seq![0u32]);
        assert(stores_at(steps@, models, dense, 0));
    }
    Ok(steps)
}

/// The steps that write a chain of snapshots. Refuses a chain that does not belong to the nodes of
/// the identity or cannot be recovered.
pub fn plan_chain_commit(
    identity: &ComponentSnapshotIdentity,
    snapshots: &[ComponentSnapshot],
) -> (result: Result<Vec<CommitStep>, ReduceError>)
    ensures
        match chain::chain_fault(identity.node_count, chain::models(snapshots@)) {
            None => result matches Ok(steps) && is_commit(
                steps@,
                *identity,
                chain::models(snapshots@),
                false,
            ),
            Some(fault) => result matches Err(e) && e@ == fault,
        },
{
    if let Err(error) = validate_component_snapshot_chain(identity.node_count, snapshots) {
        return Err(error);
    }
    let ghost models = chain::models(snapshots@);
    let mut steps: Vec<CommitStep> = Vec::new();
    let mut epochs: Vec<u32> = Vec::new();
    steps.push(CommitStep::Withdraw);
    let mut k: usize = 0;
    while k < snapshots.len()
        invariant
            k <= snapshots@.len(),
            models == chain::models(snapshots@),
            chain::chain_fault(identity.node_count, models) is None,
            steps@.len() == 2 * k + 1,
            steps@[0] is Withdraw,
            forall|i: int| 0 <= i < k ==> #[trigger] stores_at(steps@, models, false, i),
            epochs@.len() == k,
            forall|i: int| 0 <= i < k ==> #[trigger] epochs@[i] == models[i].epoch,
        decreases snapshots.len() - k,
    {
        let ghost before = steps@;
        let snapshot = &snapshots[k];
        assert(models[k as int] == snapshot@);
        assert(models[k as int].roots.len() == identity.node_count);
        steps.push(
            CommitStep::Store(
                StoredSnapshot {
                    revision: snapshot.revision,
                    epoch: snapshot.epoch,
                    base_epoch: snapshot.base_epoch,
                    node_count: identity.node_count,
                    roots: Some(encode_component_roots(snapshot.roots.as_slice())),
                },
            ),
        );
        steps.push(CommitStep::Tell);
        epochs.push(snapshot.epoch);
        proof {
            assert forall|i: int| 0 <= i < k + 1 implies #[trigger] stores_at(
                steps@,
                models,
                false,
                i,
            ) by {
                if i < k {
                    assert(stores_at(before, models, false, i));
                    assert(steps@[2 * i + 1] == before[2 * i + 1]);
                    assert(steps@[2 * i + 2] == before[2 * i + 2]);
                }
            }
        }
        k = k + 1;
    }
    let ghost stored = steps@;
    assert(epochs@ =~= epochs_of(models));
    steps.push(
        CommitStep::Announce(
            ChainMarker {
                revision: COMPONENT_SNAPSHOT_CHAIN_REVISION,
                identity: copy_identity(identity),
                epochs,
            },
        ),
    );
    steps.push(CommitStep::Tell);
    proof {
        assert forall|i: int| 0 <= i < models.len() implies #[trigger] stores_at(
            steps@,
            models,
            false,
            i,
        ) by {
            assert(stores_at(stored, models, false, i));
            assert(steps@[2 * i + 1] == stored[2 * i + 1]);
            assert(steps@[2 * i + 2] == stored[2 * i + 2]);
        }
    }
    Ok(steps)
}

/// Why a chain cannot be read: a snapshot is refused, or all of them together.
#[derive(Debug, PartialEq, Eq)]
pub enum ChainReadError {
    Snapshot { epoch: u32, error: ReduceError },
    Chain(ReduceError),
}

/// The first snapshot from `at` on that cannot be read.
pub open spec fn first_unreadable(
    stored: Seq<StoredSnapshot>,
    epochs: Seq<u32>,
    at: int,
) -> Option<int>
    decreases stored.len() - at,
{
    if at < 0 || at >= stored.len() {
        None
    } else if stored[at].outcome(epochs[at]) is Err {
        Some(at)
    } else {
        first_unreadable(stored, epochs, at + 1)
    }
}

/// The snapshots as they are read.
pub open spec fn read_chain(stored: Seq<StoredSnapshot>, epochs: Seq<u32>) -> Seq<SnapshotModel> {
    Seq::new(stored.len(), |k: int| stored[k].outcome(epochs[k])->Ok_0)
}

/// The snapshots that a marker names: nothing where it is of another identity. Refuses a snapshot
/// that cannot be read, and a chain that does not belong to the nodes or cannot be recovered.
#[verifier::loop_isolation(false)]
pub fn open_snapshot_chain(
    marker: &ChainMarker,
    stored: Vec<StoredSnapshot>,
    expected: &ComponentSnapshotIdentity,
) -> (result: Result<Option<Vec<ComponentSnapshot>>, ChainReadError>)
    requires
        stored@.len() == marker.epochs@.len(),
    ensures
        ({
            let epochs = marker.epochs@;
            let all = read_chain(stored@, epochs);
            if !marker.is_of(*expected) {
                result matches Ok(None)
            } else {
                match first_unreadable(stored@, epochs, 0) {
                    Some(at) => result matches Err(ChainReadError::Snapshot { epoch, error })
                        && epoch == epochs[at] && Err::<SnapshotModel, ReduceFault>(error@)
                        == stored@[at].outcome(epochs[at]),
                    None => match chain::chain_fault(expected.node_count, all) {
                        Some(fault) => result matches Err(ChainReadError::Chain(error)) && error@
                            == fault,
                        None => result matches Ok(Some(snapshots)) && chain::models(snapshots@)
                            == all,
                    },
                }
            }
        }),
{
    if !marker.is_current(expected) {
        return Ok(None);
    }
    let ghost all = stored@;
    let ghost epochs = marker.epochs@;
    let count: usize = marker.epochs.len();
    let mut stored = stored;
    let mut reversed: Vec<StoredSnapshot> = Vec::new();
    while stored.len() > 0
        invariant
            stored@.len() + reversed@.len() == all.len(),
            stored@ == all.take(stored@.len() as int),
            forall|i: int|
                0 <= i < reversed@.len() ==> #[trigger] reversed@[i] == all[all.len() - 1 - i],
        decreases stored.len(),
    {
        let ghost before = stored@;
        if let Some(last) = stored.pop() {
            assert(last == all[before.len() - 1]);
            assert(stored@ =~= all.take(before.len() - 1));
            reversed.push(last);
        }
    }
    let mut snapshots: Vec<ComponentSnapshot> = Vec::new();
    let mut k: usize = 0;
    assert(all.take(all.len() as int) =~= all);
    while reversed.len() > 0
        invariant
            k <= count,
            k + reversed@.len() == all.len(),
            all.len() == count,
            epochs == marker.epochs@,
            snapshots@.len() == k,
            forall|i: int|
                0 <= i < reversed@.len() ==> #[trigger] reversed@[i] == all[all.len() - 1 - i],
            forall|i: int|
                0 <= i < k ==> all[i].outcome(epochs[i]) == Ok::<SnapshotModel, ReduceFault>(
                    (#[trigger] snapshots@[i])@,
                ),
            first_unreadable(all, epochs, 0) == first_unreadable(all, epochs, k as int),
        decreases reversed.len(),
    {
        let ghost before = reversed@;
        if let Some(next) = reversed.pop() {
            assert(before[before.len() - 1] == all[k as int]);
            let epoch: u32 = marker.epochs[k];
            match next.open(epoch) {
                Err(error) => {
                    assert(first_unreadable(all, epochs, k as int) == Some(k as int));
                    return Err(ChainReadError::Snapshot { epoch, error });
                },
                Ok(snapshot) => {
                    snapshots.push(snapshot);
                },
            }
            k = k + 1;
        }
    }
    assert(chain::models(snapshots@) =~= read_chain(all, epochs));
    match validate_component_snapshot_chain(expected.node_count, snapshots.as_slice()) {
        Err(error) => Err(ChainReadError::Chain(error)),
        Ok(_) => Ok(Some(snapshots)),
    }
}

proof fn lemma_form_decodes(form: StoredRoots, roots: Seq<u32>, dense: bool)
    requires
        is_form(form, roots, dense),
        roots.len() <= u32::MAX,
        chain::roots_in_range(roots),
    ensures
        codec::decoded(form, roots.len()) == Ok::<Seq<u32>, Seq<char>>(roots),
{
    codec::lemma_sparse_round_trip(roots);
}

proof fn lemma_epochs_apart(chain: Seq<SnapshotModel>, i: int, j: int)
    requires
        chain::epochs_increase(chain),
        0 <= i < j < chain.len(),
    ensures
        chain[i].epoch < chain[j].epoch,
    decreases j - i,
{
    assert(chain::increases_at(chain, j - 1));
    if i < j - 1 {
        lemma_epochs_apart(chain, i, j - 1);
    }
}

proof fn lemma_stored(
    before: RootDirectory,
    steps: Seq<CommitStep>,
    identity: ComponentSnapshotIdentity,
    chain: Seq<SnapshotModel>,
    dense: bool,
    k: int,
)
    requires
        is_commit(steps, identity, chain, dense),
        chain::epochs_increase(chain),
        0 <= k <= chain.len(),
    ensures
        before.after_all(steps, 2 * k + 1).marker is None,
        k > 0 ==> before.after_all(steps, 2 * k).marker is None,
        tells(steps, 2 * k + 1) == k,
        forall|i: int|
            0 <= i < k ==> before.after_all(steps, 2 * k + 1).snapshots.contains_key(
                (#[trigger] chain[i]).epoch,
            ) && before.after_all(steps, 2 * k + 1).snapshots[chain[i].epoch].is_stored(
                chain[i],
                dense,
            ),
    decreases k,
{
    if k == 0 {
        assert(before.after_all(steps, 1) == before.after_all(steps, 0).after(steps[0]));
        assert(tells(steps, 1) == tells(steps, 0) + 0);
    } else {
        lemma_stored(before, steps, identity, chain, dense, k - 1);
        assert(stores_at(steps, chain, dense, k - 1));
        let earlier = before.after_all(steps, 2 * k - 1);
        let stored = steps[2 * k - 1]->Store_0;
        assert(2 * (k - 1) + 1 == 2 * k - 1);
        assert(2 * (k - 1) + 2 == 2 * k);
        assert(before.after_all(steps, 2 * k) == earlier.after(steps[2 * k - 1]));
        assert(before.after_all(steps, 2 * k + 1) == before.after_all(steps, 2 * k).after(
            steps[2 * k],
        ));
        assert(tells(steps, 2 * k) == tells(steps, 2 * k - 1));
        assert(tells(steps, 2 * k + 1) == tells(steps, 2 * k) + 1);
        let last = before.after_all(steps, 2 * k + 1);
        assert(last.snapshots == earlier.snapshots.insert(stored.epoch, stored));
        assert forall|i: int| 0 <= i < k implies last.snapshots.contains_key(
            (#[trigger] chain[i]).epoch,
        ) && last.snapshots[chain[i].epoch].is_stored(chain[i], dense) by {
            if i < k - 1 {
                lemma_epochs_apart(chain, i, k - 1);
            }
        }
    }
}

/// What is committed is read back, whatever the directory held: once all steps are done, it holds
/// the chain for its identity. Until the last snapshot is written no marker stands, so that an
/// earlier identity is never bound to other roots. The caller is told once for every snapshot
/// and once for the marker.
pub proof fn lemma_commit_is_read_back(
    before: RootDirectory,
    steps: Seq<CommitStep>,
    identity: ComponentSnapshotIdentity,
    chain: Seq<SnapshotModel>,
    dense: bool,
)
    requires
        is_commit(steps, identity, chain, dense),
        chain::chain_fault(identity.node_count, chain) is None,
        forall|k: int| 0 <= k < chain.len() ==> chain::roots_in_range((#[trigger] chain[k]).roots),
    ensures
        before.after_all(steps, steps.len() as int).holds_chain(identity, chain),
        forall|count: int|
            1 <= count <= 2 * chain.len() + 1 ==> (#[trigger] before.after_all(
                steps,
                count,
            )).marker is None,
        tells(steps, steps.len() as int) == chain.len() + 1,
{
    let n = chain.len() as int;
    lemma_stored(before, steps, identity, chain, dense, n);
    let stored = before.after_all(steps, 2 * n + 1);
    let announced = before.after_all(steps, 2 * n + 2);
    let last = before.after_all(steps, 2 * n + 3);
    assert(announced == stored.after(steps[2 * n + 1]));
    assert(last == announced.after(steps[2 * n + 2]));
    assert(tells(steps, 2 * n + 2) == tells(steps, 2 * n + 1));
    assert(tells(steps, 2 * n + 3) == tells(steps, 2 * n + 2) + 1);
    assert forall|k: int| 0 <= k < n implies last.snapshots.contains_key(
        (#[trigger] chain[k]).epoch,
    ) && last.snapshots[chain[k].epoch].outcome(chain[k].epoch) == Ok::<
        SnapshotModel,
        ReduceFault,
    >(chain[k]) by {
        let own = stored.snapshots[chain[k].epoch];
        assert(own.is_stored(chain[k], dense));
        lemma_form_decodes(own.roots->0, chain[k].roots, dense);
    }
    assert forall|count: int| 1 <= count <= 2 * n + 1 implies (#[trigger] before.after_all(
        steps,
        count,
    )).marker is None by {
        let k = count / 2;
        lemma_stored(before, steps, identity, chain, dense, k);
    }
}

/// Committed roots are recovered, whatever the directory held: reading what it holds for the
/// identity gives one snapshot with exactly these roots, from which they are recovered. At the
/// first of the two times that the caller is told no marker stands.
pub proof fn lemma_roots_are_recovered(
    before: RootDirectory,
    steps: Seq<CommitStep>,
    identity: ComponentSnapshotIdentity,
    roots: Seq<u32>,
    dense: bool,
)
    requires
        is_commit(steps, identity, root_chain(roots), dense),
        roots.len() == identity.node_count,
        chain::roots_in_range(roots),
    ensures
        before.after_all(steps, steps.len() as int).holds_chain(identity, root_chain(roots)),
        chain::chain_fault(identity.node_count, root_chain(roots)) is None,
        chain::recovery_fault(root_chain(roots)) is None,
        root_chain(roots).last().roots == roots,
        tells(steps, steps.len() as int) == 2,
        steps[2] is Tell,
        before.after_all(steps, 2).marker is None,
        before.after_all(steps, 3).marker is None,
{
    let chain = root_chain(roots);
    assert(chain[0].base_epoch is None);
    assert(chain::last_full(chain, 1) == Some(0int));
    assert(chain::first_broken(chain, 1) is None);
    lemma_commit_is_read_back(before, steps, identity, chain, dense);
    assert(stores_at(steps, chain, dense, 0));
}

/// A directory that holds a chain gives it back: the marker is of the identity, every snapshot
/// that it names can be read, and the snapshots read are the chain.
pub proof fn lemma_held_chain_is_read(
    directory: RootDirectory,
    identity: ComponentSnapshotIdentity,
    chain: Seq<SnapshotModel>,
    stored: Seq<StoredSnapshot>,
)
    requires
        directory.holds_chain(identity, chain),
        stored.len() == chain.len(),
        forall|k: int|
            0 <= k < chain.len() ==> stored[k] == directory.snapshots[(#[trigger] chain[k]).epoch],
    ensures
        directory.marker matches Some(marker) && marker.is_of(identity) && first_unreadable(
            stored,
            marker.epochs@,
            0,
        ) is None && read_chain(stored, marker.epochs@) == chain,
{
    let epochs = directory.marker->0.epochs@;
    assert forall|k: int| 0 <= k < chain.len() implies #[trigger] stored[k].outcome(epochs[k])
        == Ok::<SnapshotModel, ReduceFault>(chain[k]) by {
        assert(epochs[k] == chain[k].epoch);
        assert(stored[k] == directory.snapshots[chain[k].epoch]);
    }
    lemma_all_readable(stored, epochs, 0);
    assert(read_chain(stored, epochs) =~= chain);
}

proof fn lemma_all_readable(stored: Seq<StoredSnapshot>, epochs: Seq<u32>, at: int)
    requires
        0 <= at,
        forall|k: int| 0 <= k < stored.len() ==> #[trigger] stored[k].outcome(epochs[k]) is Ok,
    ensures
        first_unreadable(stored, epochs, at) is None,
    decreases stored.len() - at,
{
    if at < stored.len() {
        lemma_all_readable(stored, epochs, at + 1);
    }
}

} // verus!
