//! The stored forests of a run, and whether they can be used again.

use crate::pipeline::catalog::SerializableIndexMetrics;
use crate::pipeline::chains;
use crate::pipeline::chains::ChainContractIndex;
use crate::pipeline::collectors::ScopeForestRuns;
use crate::pipeline::error;
use crate::pipeline::error::{overflow_error, PipelineError, PipelineFault};
use crate::pipeline::pairs;
use crate::pipeline::pairs::chain_pairs;
use crate::reduce::component;
use crate::reduce::error::{ReduceError, ReduceFault};
use crate::reduce::storage::ForestRunStorage;
use crate::scoring::MATCH_SEMANTICS_REVISION;
use vstd::prelude::*;
use vstd::string::*;

verus! {

/// Revision of the stored forests.
pub const CONNECTIVITY_RUN_REVISION: u32 = 6;

/// The count, or the greatest that is kept.
pub open spec fn capped_count(count: nat) -> u64 {
    if count > u64::MAX {
        u64::MAX
    } else {
        count as u64
    }
}

/// The number of edges of the runs, where it fits.
fn checked_edge_count(runs: &Vec<ForestRunStorage>) -> (count: Option<u64>)
    ensures
        if component::storage_edges(runs@).len() > u64::MAX {
            count is None
        } else {
            count == Some(component::storage_edges(runs@).len() as u64)
        },
{
    let mut count: u64 = 0;
    let mut i: usize = 0;
    assert(runs@.take(0) =~= Seq::<ForestRunStorage>::empty());
    while i < runs.len()
        invariant
            i <= runs@.len(),
            count == component::storage_edges(runs@.take(i as int)).len(),
        decreases runs.len() - i,
    {
        assert(runs@.take(i + 1).drop_last() =~= runs@.take(i as int));
        count = match count.checked_add(runs[i].edge_count() as u64) {
            Some(sum) => sum,
            None => {
                proof {
                    lemma_edges_grow(runs@, i + 1);
                }
                return None;
            },
        };
        i = i + 1;
    }
    assert(runs@.take(i as int) =~= runs@);
    Some(count)
}

/// The number of edges of the runs.
pub fn run_edge_count(runs: &Vec<ForestRunStorage>) -> (count: u64)
    ensures
        count == capped_count(component::storage_edges(runs@).len()),
{
    match checked_edge_count(runs) {
        Some(count) => count,
        None => u64::MAX,
    }
}

/// The number of edges of the first `count` scopes.
pub open spec fn edges_below(runs: ScopeForestRuns, count: int) -> nat
    decreases count,
{
    if count <= 0 {
        0
    } else {
        edges_below(runs, count - 1) + component::storage_edges(runs.scope(count - 1)).len()
    }
}

/// The number of edges of all scopes.
pub fn stored_edge_count(runs: &ScopeForestRuns) -> (count: u64)
    ensures
        count == capped_count(edges_below(*runs, runs.pairs@.len() as int + 2)),
{
    assert(runs.scope(0) == runs.intra@);
    assert(runs.scope(1) == runs.cross@);
    let mut count: u64 = run_edge_count(&runs.intra).saturating_add(run_edge_count(&runs.cross));
    let mut k: usize = 0;
    proof {
        reveal_with_fuel(edges_below, 3);
    }
    while k < runs.pairs.len()
        invariant
            k <= runs.pairs@.len(),
            count == capped_count(edges_below(*runs, k + 2)),
        decreases runs.pairs.len() - k,
    {
        assert(runs.scope(k + 2) == runs.pairs@[k as int]@);
        count = count.saturating_add(run_edge_count(&runs.pairs[k]));
        k = k + 1;
    }
    count
}

/// The runs of the scope have a mapped run among them.
pub open spec fn has_mapped(runs: Seq<ForestRunStorage>) -> bool {
    exists|i: int| 0 <= i < runs.len() && (#[trigger] runs[i]) is Mapped
}

fn any_mapped(runs: &Vec<ForestRunStorage>) -> (mapped: bool)
    ensures
        mapped == has_mapped(runs@),
{
    let mut i: usize = 0;
    while i < runs.len()
        invariant
            i <= runs@.len(),
            forall|k: int| 0 <= k < i ==> !((#[trigger] runs@[k]) is Mapped),
        decreases runs.len() - i,
    {
        if runs[i].is_mapped() {
            assert(runs@[i as int] is Mapped);
            return true;
        }
        i = i + 1;
    }
    false
}

/// Some run of a scope was spilled to a mapped file.
pub fn has_mapped_runs(runs: &ScopeForestRuns) -> (mapped: bool)
    ensures
        mapped == exists|scope: int|
            0 <= scope < runs.pairs@.len() + 2 && has_mapped(#[trigger] runs.scope(scope)),
{
    assert(runs.scope(0) == runs.intra@);
    assert(runs.scope(1) == runs.cross@);
    if any_mapped(&runs.intra) || any_mapped(&runs.cross) {
        return true;
    }
    let mut k: usize = 0;
    while k < runs.pairs.len()
        invariant
            k <= runs.pairs@.len(),
            forall|scope: int|
                0 <= scope < k + 2 ==> !has_mapped(#[trigger] runs.scope(scope)),
        decreases runs.pairs.len() - k,
    {
        assert(runs.scope(k + 2) == runs.pairs@[k as int]@);
        if any_mapped(&runs.pairs[k]) {
            return true;
        }
        k = k + 1;
    }
    false
}

/// The nodes of a scope.
pub open spec fn scope_nodes(chains: Seq<u32>, chain_count: int, scope: int) -> nat {
    if scope < 2 {
        chains.len()
    } else {
        let pair = pairs::all_pairs(chain_count)[scope - 2];
        chains::pair_members(chains, pair.0 as int, pair.1 as int).len()
    }
}

/// The work of reducing the first `count` scopes: their edges and their nodes.
pub open spec fn work_below(
    runs: ScopeForestRuns,
    chains: Seq<u32>,
    chain_count: int,
    count: int,
) -> nat
    decreases count,
{
    if count <= 0 {
        0
    } else {
        work_below(runs, chains, chain_count, count - 1) + component::storage_edges(
            runs.scope(count - 1),
        ).len() + scope_nodes(chains, chain_count, count - 1)
    }
}

/// More scopes take no less work.
pub(crate) proof fn lemma_work_grows(
    runs: ScopeForestRuns,
    chains: Seq<u32>,
    chain_count: int,
    count: int,
    most: int,
)
    requires
        count <= most,
    ensures
        work_below(runs, chains, chain_count, count) <= work_below(
            runs,
            chains,
            chain_count,
            most,
        ),
    decreases most - count,
{
    if count < most {
        lemma_work_grows(runs, chains, chain_count, count, most - 1);
    }
}

fn add_work(total: u64, runs: &Vec<ForestRunStorage>, nodes: u32) -> (sum: Option<u64>)
    ensures
        ({
            let work = total + component::storage_edges(runs@).len() + nodes;
            if work <= u64::MAX {
                sum == Some(work as u64)
            } else {
                sum is None
            }
        }),
{
    match checked_edge_count(runs) {
        Some(edges) => match edges.checked_add(nodes as u64) {
            Some(work) => total.checked_add(work),
            None => None,
        },
        None => None,
    }
}

proof fn lemma_edges_grow(runs: Seq<ForestRunStorage>, count: int)
    requires
        0 <= count <= runs.len(),
    ensures
        component::storage_edges(runs.take(count)).len() <= component::storage_edges(runs).len(),
    decreases runs.len() - count,
{
    if count < runs.len() {
        lemma_edges_grow(runs, count + 1);
        assert(runs.take(count + 1).drop_last() =~= runs.take(count));
    } else {
        assert(runs.take(count) =~= runs);
    }
}

/// The nodes of the first `count` scopes.
pub open spec fn nodes_below(chains: Seq<u32>, chain_count: int, count: int) -> nat
    decreases count,
{
    if count <= 0 {
        0
    } else {
        nodes_below(chains, chain_count, count - 1) + scope_nodes(chains, chain_count, count - 1)
    }
}

/// Where there are no forests, the work is the nodes.
pub proof fn lemma_work_of_none(
    runs: ScopeForestRuns,
    chains: Seq<u32>,
    chain_count: int,
    count: int,
)
    requires
        forall|scope: int| 0 <= scope < count ==> (#[trigger] runs.scope(scope)).len() == 0,
    ensures
        work_below(runs, chains, chain_count, count) == nodes_below(chains, chain_count, count),
    decreases count,
{
    if count > 0 {
        lemma_work_of_none(runs, chains, chain_count, count - 1);
        assert(runs.scope(count - 1).len() == 0);
    }
}

/// The work of reducing all scopes.
#[verifier::loop_isolation(false)]
pub fn reduce_total(
    runs: &ScopeForestRuns,
    index: &ChainContractIndex,
    chain_count: usize,
    contract_chain: &[u32],
) -> (result: Result<u64, PipelineError>)
    requires
        contract_chain@.len() <= u32::MAX,
        chain_count <= u32::MAX,
        index.wf(),
        index.chains@ == contract_chain@,
        index.offsets@.len() == chain_count + 1,
        runs.pairs@.len() == pairs::all_pairs(chain_count as int).len(),
    ensures
        ({
            let work = work_below(
                *runs,
                contract_chain@,
                chain_count as int,
                runs.pairs@.len() as int + 2,
            );
            if work <= u64::MAX {
                result matches Ok(total) && total == work
            } else {
                result matches Err(e) && e@ == error::overflow_fault()
            }
        }),
{
    let ghost all = contract_chain@;
    let ghost c = chain_count as int;
    let ghost most = runs.pairs@.len() + 2;
    let list = chain_pairs(chain_count);
    let nodes: u32 = contract_chain.len() as u32;
    assert(runs.scope(0) == runs.intra@);
    assert(runs.scope(1) == runs.cross@);
    proof {
        reveal_with_fuel(work_below, 3);
        lemma_work_grows(*runs, all, c, 1, most as int);
        lemma_work_grows(*runs, all, c, 2, most as int);
    }
    let first: u64 = match add_work(0, &runs.intra, nodes) {
        Some(sum) => sum,
        None => {
            return Err(overflow_error());
        },
    };
    let mut total: u64 = match add_work(first, &runs.cross, nodes) {
        Some(sum) => sum,
        None => {
            return Err(overflow_error());
        },
    };
    let mut k: usize = 0;
    while k < list.len()
        invariant
            k <= list@.len(),
            total == work_below(*runs, all, c, k + 2),
        decreases list.len() - k,
    {
        let (left, right) = list[k];
        proof {
            pairs::lemma_pairs_ordered(c, c, k as int);
            chains::lemma_pair_fits(all, left as int, right as int);
            assert(runs.scope(k + 2) == runs.pairs@[k as int]@);
            lemma_work_grows(*runs, all, c, k + 3, most as int);
        }
        let pair_nodes: u32 = match index.pair_node_count(left as usize, right as usize) {
            Ok(nodes) => nodes,
            Err(error) => {
                assert(false);
                return Err(error);
            },
        };
        total = match add_work(total, &runs.pairs[k], pair_nodes) {
            Some(sum) => sum,
            None => {
                return Err(overflow_error());
            },
        };
        k = k + 1;
    }
    Ok(total)
}

/// What stored forests say of themselves.
#[derive(Debug)]
pub struct ConnectivityRunManifest {
    pub revision: u32,
    pub schema_revision: u32,
    pub snapshot_fingerprint: String,
    pub connectivity_plan_digest: String,
    pub chain_count: usize,
    pub intra_runs: u32,
    pub cross_runs: u32,
    pub pair_runs: Vec<u32>,
    pub index_metrics: SerializableIndexMetrics,
    pub candidate_pair_visits: u64,
    pub accepted_edge_count: u64,
}

impl ConnectivityRunManifest {
    /// The forests are those of this snapshot, plan and number of chains.
    pub open spec fn fits(
        self,
        snapshot_fingerprint: Seq<char>,
        connectivity_plan_digest: Seq<char>,
        chain_count: int,
    ) -> bool {
        &&& self.revision == CONNECTIVITY_RUN_REVISION
        &&& self.schema_revision == MATCH_SEMANTICS_REVISION
        &&& self.snapshot_fingerprint@ == snapshot_fingerprint
        &&& self.connectivity_plan_digest@ == connectivity_plan_digest
        &&& self.chain_count == chain_count
        &&& self.pair_runs@.len() == pairs::all_pairs(chain_count).len()
    }

    /// The forests can be used again.
    pub fn is_current(
        &self,
        snapshot_fingerprint: &String,
        connectivity_plan_digest: &String,
        chain_count: usize,
    ) -> (current: bool)
        requires
            chain_count * (chain_count - 1) <= usize::MAX,
        ensures
            current == self.fits(
                snapshot_fingerprint@,
                connectivity_plan_digest@,
                chain_count as int,
            ),
    {
        let expected: usize = if chain_count == 0 {
            0
        } else {
            chain_count * (chain_count - 1) / 2
        };
        proof {
            pairs::lemma_all_pairs_len(chain_count as int);
        }
        self.revision == CONNECTIVITY_RUN_REVISION && self.schema_revision
            == MATCH_SEMANTICS_REVISION && self.snapshot_fingerprint == *snapshot_fingerprint
            && self.connectivity_plan_digest == *connectivity_plan_digest && self.chain_count == chain_count && self.pair_runs.len() == expected
    }
}

/// Too many runs to be numbered.
pub open spec fn run_count_fault(requested: nat) -> PipelineFault {
    PipelineFault::Reduce(
        ReduceFault::Budget {
            resource: "forest_run_count"@,
            requested: requested as u64,
            limit: u32::MAX as u64,
        },
    )
}

fn run_count(runs: &Vec<ForestRunStorage>) -> (result: Result<u32, PipelineError>)
    ensures
        if runs@.len() <= u32::MAX {
            result matches Ok(count) && count == runs@.len()
        } else {
            result matches Err(e) && e@ == run_count_fault(runs@.len())
        },
{
    let len: usize = runs.len();
    if len as u64 > u32::MAX as u64 {
        return Err(
            PipelineError::Reduce(
                ReduceError::Budget {
                    resource: "forest_run_count",
                    requested: len as u64,
                    limit: u32::MAX as u64,
                },
            ),
        );
    }
    Ok(len as u32)
}

/// The run counts of the pairs of chains.
pub open spec fn pair_counts(runs: ScopeForestRuns) -> Seq<u32> {
    Seq::new(runs.pairs@.len(), |k: int| runs.pairs@[k]@.len() as u32)
}

/// No scope has more runs than can be numbered.
pub open spec fn runs_numbered(runs: ScopeForestRuns) -> bool {
    forall|scope: int|
        0 <= scope < runs.pairs@.len() + 2 ==> (#[trigger] runs.scope(scope)).len() <= u32::MAX
}

/// What the forests of a run say of themselves.
pub fn connectivity_manifest(
    snapshot_fingerprint: &str,
    connectivity_plan_digest: &str,
    chain_count: usize,
    runs: &ScopeForestRuns,
    index_metrics: SerializableIndexMetrics,
    candidate_pair_visits: u64,
    accepted_edge_count: u64,
) -> (result: Result<ConnectivityRunManifest, PipelineError>)
    requires
        runs.pairs@.len() == pairs::all_pairs(chain_count as int).len(),
    ensures
        match result {
            Ok(manifest) => {
                &&& runs_numbered(*runs)
                &&& manifest.fits(
                    snapshot_fingerprint@,
                    connectivity_plan_digest@,
                    chain_count as int,
                )
                &&& manifest.intra_runs == runs.intra@.len()
                &&& manifest.cross_runs == runs.cross@.len()
                &&& manifest.pair_runs@ == pair_counts(*runs)
                &&& manifest.index_metrics == index_metrics
                &&& manifest.candidate_pair_visits == candidate_pair_visits
                &&& manifest.accepted_edge_count == accepted_edge_count
            },
            Err(e) => exists|scope: int|
                0 <= scope < runs.pairs@.len() + 2 && (#[trigger] runs.scope(scope)).len()
                    > u32::MAX && e@ == run_count_fault(runs.scope(scope).len()),
        },
{
    assert(runs.scope(0) == runs.intra@);
    assert(runs.scope(1) == runs.cross@);
    let mut pair_runs: Vec<u32> = Vec::new();
    let mut k: usize = 0;
    while k < runs.pairs.len()
        invariant
            k <= runs.pairs@.len(),
            pair_runs@ == pair_counts(*runs).take(k as int),
            forall|scope: int|
                2 <= scope < k + 2 ==> (#[trigger] runs.scope(scope)).len() <= u32::MAX,
        decreases runs.pairs.len() - k,
    {
        assert(runs.scope(k + 2) == runs.pairs@[k as int]@);
        match run_count(&runs.pairs[k]) {
            Ok(count) => {
                pair_runs.push(count);
            },
            Err(error) => {
                return Err(error);
            },
        }
        assert(pair_runs@ =~= pair_counts(*runs).take(k + 1));
        k = k + 1;
    }
    assert(pair_runs@ =~= pair_counts(*runs));
    let intra_runs: u32 = match run_count(&runs.intra) {
        Ok(count) => count,
        Err(error) => {
            return Err(error);
        },
    };
    let cross_runs: u32 = match run_count(&runs.cross) {
        Ok(count) => count,
        Err(error) => {
            return Err(error);
        },
    };
    Ok(
        ConnectivityRunManifest {
            revision: CONNECTIVITY_RUN_REVISION,
            schema_revision: MATCH_SEMANTICS_REVISION,
            snapshot_fingerprint: snapshot_fingerprint.to_owned(),
            connectivity_plan_digest: connectivity_plan_digest.to_owned(),
            chain_count,
            intra_runs,
            cross_runs,
            pair_runs,
            index_metrics,
            candidate_pair_visits,
            accepted_edge_count,
        },
    )
}

/// What a run stores, a later run of the same snapshot, plan and chains uses again.
pub proof fn lemma_manifest_is_current(
    manifest: ConnectivityRunManifest,
    snapshot_fingerprint: Seq<char>,
    connectivity_plan_digest: Seq<char>,
    chain_count: int,
    other_fingerprint: Seq<char>,
    other_digest: Seq<char>,
    other_count: int,
)
    requires
        manifest.fits(snapshot_fingerprint, connectivity_plan_digest, chain_count),
    ensures
        manifest.fits(other_fingerprint, other_digest, other_count) <==> (other_fingerprint
            == snapshot_fingerprint && other_digest == connectivity_plan_digest && other_count
            == chain_count),
{
}

} // verus!
