//! The frozen recall plan and coverage certificates.

use crate::digest;
use crate::digest::hash_u32;
use crate::scheduler::catalog::WorkCatalog;
use crate::scheduler::jobs::{JobDescriptor, SchedulerError};
use crate::sorting;
use crate::sorting::{sorted_distinct, sorted_distinct_u32};
use vstd::prelude::*;

verus! {

/// Schema revision of recall plans.
pub const RECALL_PLAN_REVISION: u32 = 1;

const ID_SPAN: u128 = 0x1_0000_0000;

const WORK_SPAN: u128 = 0x1_0000_0000_0000_0000_0000_0000;

/// Job `a` comes before job `b`: rescued jobs first, then the larger work, then the smaller
/// identity.
pub open spec fn comes_before(
    jobs: Seq<JobDescriptor>,
    rescued: Seq<u32>,
    a: u32,
    b: u32,
) -> bool {
    let left = jobs[a as int];
    let right = jobs[b as int];
    if rescued.contains(a) != rescued.contains(b) {
        rescued.contains(a)
    } else if left.estimated_work != right.estimated_work {
        left.estimated_work > right.estimated_work
    } else {
        a < b
    }
}

/// Every job once, in the order of [`comes_before`].
pub open spec fn is_job_order(
    jobs: Seq<JobDescriptor>,
    rescued: Seq<u32>,
    order: Seq<u32>,
) -> bool {
    &&& order.len() == jobs.len()
    &&& forall|i: int| 0 <= i < order.len() ==> #[trigger] order[i] < jobs.len()
    &&& forall|i: int, j: int|
        0 <= i < j < order.len() ==> comes_before(
            jobs,
            rescued,
            #[trigger] order[i],
            #[trigger] order[j],
        )
}

/// The values, each once, in ascending order.
pub open spec fn is_distinct_order(values: Seq<u32>, ordered: Seq<u32>) -> bool {
    &&& sorting::strictly_ascending_u32(ordered)
    &&& forall|value: u32| ordered.contains(value) <==> values.contains(value)
}

spec fn job_key(job: JobDescriptor, rescued: bool) -> int {
    (if rescued {
        0int
    } else {
        WORK_SPAN as int
    }) + (u64::MAX - job.estimated_work) * ID_SPAN + job.job_id
}

/// What a run must recall, fixed before it starts.
pub struct RecallPlan {
    pub schema_revision: u32,
    pub snapshot_fingerprint: String,
    pub sampled_lefts: Vec<u32>,
    pub rescue_jobs: Vec<u32>,
    pub exact_rescue_lefts: Vec<u32>,
    pub ordered_job_ids: Vec<u32>,
    pub frozen: bool,
}

/// The jobs in the order of a recall plan.
fn order_jobs(catalog: &WorkCatalog, rescued: &Vec<u32>) -> (order: Vec<u32>)
    requires
        catalog.wf(),
    ensures
        is_job_order(catalog.jobs@, rescued@, order@),
{
    let jobs = catalog.jobs.iter();
    let count: usize = jobs.len();
    let mut flags: Vec<bool> = Vec::new();
    let mut c: usize = 0;
    while c < count
        invariant
            c <= count,
            flags@.len() == c,
            forall|k: int| 0 <= k < c ==> !(#[trigger] flags@[k]),
        decreases count - c,
    {
        flags.push(false);
        c = c + 1;
    }
    let mut r: usize = 0;
    while r < rescued.len()
        invariant
            r <= rescued@.len(),
            flags@.len() == count,
            forall|k: int|
                0 <= k < count ==> (#[trigger] flags@[k] <==> exists|j: int|
                    0 <= j < r && #[trigger] rescued@[j] == k),
        decreases rescued.len() - r,
    {
        let ghost before = flags@;
        let id: usize = rescued[r] as usize;
        if id < count {
            flags.set(id, true);
        }
        proof {
            assert forall|k: int| 0 <= k < count implies (#[trigger] flags@[k] <==> exists|j: int|
                0 <= j < r + 1 && #[trigger] rescued@[j] == k) by {
                if k == id {
                    assert(rescued@[r as int] == k);
                } else {
                    assert(flags@[k] == before[k]);
                    if before[k] {
                        let j = choose|j: int| 0 <= j < r && #[trigger] rescued@[j] == k;
                        assert(0 <= j < r + 1 && rescued@[j] == k);
                    }
                }
            }
        }
        r = r + 1;
    }
    proof {
        assert forall|k: int| 0 <= k < count implies #[trigger] flags@[k] == rescued@.contains(
            k as u32,
        ) by {
            if flags@[k] {
                let j = choose|j: int| 0 <= j < rescued@.len() && #[trigger] rescued@[j] == k;
                assert(rescued@[j] == k as u32);
            }
            if rescued@.contains(k as u32) {
                let j = rescued@.index_of(k as u32);
                assert(rescued@[j] == k);
            }
        }
    }
    let mut keys: Vec<u128> = Vec::new();
    let mut i: usize = 0;
    while i < count
        invariant
            i <= count,
            count == jobs@.len(),
            flags@.len() == count,
            keys@.len() == i,
            forall|k: int|
                0 <= k < i ==> #[trigger] keys@[k] == job_key(jobs@[k], flags@[k]),
        decreases count - i,
    {
        let job: JobDescriptor = jobs[i];
        let base: u128 = if flags[i] {
            0
        } else {
            WORK_SPAN
        };
        let work: u128 = (u64::MAX - job.estimated_work) as u128;
        keys.push(base + work * ID_SPAN + job.job_id as u128);
        i = i + 1;
    }
    let ordered = sorted_distinct(keys, false);
    let mut order: Vec<u32> = Vec::new();
    let mut o: usize = 0;
    while o < ordered.len()
        invariant
            o <= ordered@.len(),
            order@.len() == o,
            forall|k: int| 0 <= k < o ==> #[trigger] order@[k] == ordered@[k] % ID_SPAN,
        decreases ordered.len() - o,
    {
        order.push((ordered[o] % ID_SPAN) as u32);
        o = o + 1;
    }
    proof {
        assert(jobs@ == catalog.jobs@);
        assert forall|k: int| 0 <= k < count implies #[trigger] keys@[k] % ID_SPAN == k by {
            assert(jobs@[k].job_id == k);
        }
        assert forall|k: int| 0 <= k < order@.len() implies #[trigger] order@[k] < count
            && ordered@[k] == keys@[order@[k] as int] by {
            assert(ordered@.contains(ordered@[k]));
            let at = keys@.index_of(ordered@[k]);
            assert(keys@[at] % ID_SPAN == at);
        }
        assert forall|a: int, b: int| 0 <= a < b < order@.len() implies comes_before(
            jobs@,
            rescued@,
            #[trigger] order@[a],
            #[trigger] order@[b],
        ) by {
            let x = order@[a] as int;
            let y = order@[b] as int;
            assert(ordered@[a] < ordered@[b]);
            assert(keys@[x] < keys@[y]);
            assert(keys@[x] == job_key(jobs@[x], flags@[x]));
            assert(keys@[y] == job_key(jobs@[y], flags@[y]));
            assert(jobs@[x].job_id == x && jobs@[y].job_id == y);
            assert(flags@[x] == rescued@.contains(x as u32));
            assert(flags@[y] == rescued@.contains(y as u32));
        }
        assert(keys@.no_duplicates()) by {
            assert forall|a: int, b: int| 0 <= a < count && 0 <= b < count && a != b implies keys@[a]
                != keys@[b] by {
                assert(keys@[a] % ID_SPAN == a);
                assert(keys@[b] % ID_SPAN == b);
            }
        }
        assert(ordered@.no_duplicates());
        keys@.unique_seq_to_set();
        ordered@.unique_seq_to_set();
        assert(keys@.to_set() =~= ordered@.to_set());
    }
    order
}

/// The fields of a frozen plan.
pub open spec fn is_plan_of(
    plan: RecallPlan,
    catalog: WorkCatalog,
    sampled_lefts: Seq<u32>,
    rescue_jobs: Seq<u32>,
    exact_rescue_lefts: Seq<u32>,
) -> bool {
    &&& plan.schema_revision == RECALL_PLAN_REVISION
    &&& plan.snapshot_fingerprint@ == catalog.snapshot_fingerprint@
    &&& is_distinct_order(sampled_lefts, plan.sampled_lefts@)
    &&& is_distinct_order(rescue_jobs, plan.rescue_jobs@)
    &&& is_distinct_order(exact_rescue_lefts, plan.exact_rescue_lefts@)
    &&& is_job_order(catalog.jobs@, rescue_jobs, plan.ordered_job_ids@)
    &&& plan.frozen
}

impl RecallPlan {
    /// A plan without exact rescue.
    pub fn freeze(catalog: &WorkCatalog, sampled_lefts: Vec<u32>, rescue_jobs: Vec<u32>) -> (plan:
        RecallPlan)
        requires
            catalog.wf(),
        ensures
            is_plan_of(plan, *catalog, sampled_lefts@, rescue_jobs@, Seq::empty()),
    {
        let none: Vec<u32> = Vec::new();
        RecallPlan::freeze_with_rescue_lefts(catalog, sampled_lefts, rescue_jobs, none)
    }

    /// A plan of sampled lefts, jobs to rescue and lefts to rescue exactly.
    pub fn freeze_with_rescue_lefts(
        catalog: &WorkCatalog,
        sampled_lefts: Vec<u32>,
        rescue_jobs: Vec<u32>,
        exact_rescue_lefts: Vec<u32>,
    ) -> (plan: RecallPlan)
        requires
            catalog.wf(),
        ensures
            is_plan_of(
                plan,
                *catalog,
                sampled_lefts@,
                rescue_jobs@,
                exact_rescue_lefts@,
            ),
    {
        let sampled = sorted_distinct_u32(&sampled_lefts);
        let rescued = sorted_distinct_u32(&rescue_jobs);
        let exact = sorted_distinct_u32(&exact_rescue_lefts);
        let order = order_jobs(catalog, &rescued);
        RecallPlan {
            schema_revision: RECALL_PLAN_REVISION,
            snapshot_fingerprint: catalog.snapshot_fingerprint.clone(),
            sampled_lefts: sampled,
            rescue_jobs: rescued,
            exact_rescue_lefts: exact,
            ordered_job_ids: order,
            frozen: true,
        }
    }
}

/// At most one order of the jobs is that of a recall plan.
pub proof fn lemma_job_order_unique(
    jobs: Seq<JobDescriptor>,
    rescued: Seq<u32>,
    left: Seq<u32>,
    right: Seq<u32>,
)
    requires
        is_job_order(jobs, rescued, left),
        is_job_order(jobs, rescued, right),
        jobs.len() <= u32::MAX,
    ensures
        left == right,
{
    lemma_order_prefix(jobs, rescued, left, right, left.len() as int);
    assert(left =~= right);
}

proof fn lemma_order_covers(jobs: Seq<JobDescriptor>, rescued: Seq<u32>, order: Seq<u32>, id: u32)
    requires
        is_job_order(jobs, rescued, order),
        id < jobs.len(),
        jobs.len() <= u32::MAX,
    ensures
        order.contains(id),
{
    assert(order.no_duplicates());
    order.unique_seq_to_set();
    let all = Set::<u32>::new(|value: u32| value < jobs.len());
    lemma_u32_below(jobs.len());
    assert(order.to_set().subset_of(all)) by {
        assert forall|value: u32| order.to_set().contains(value) implies all.contains(value) by {
            let at = order.index_of(value);
            assert(order[at] < jobs.len());
        }
    }
    vstd::set_lib::lemma_subset_equality(order.to_set(), all);
    assert(order.to_set().contains(id));
}

proof fn lemma_u32_below(count: nat)
    requires
        count <= u32::MAX,
    ensures
        Set::<u32>::new(|value: u32| value < count).finite(),
        Set::<u32>::new(|value: u32| value < count).len() == count,
    decreases count,
{
    let all = Set::<u32>::new(|value: u32| value < count);
    if count == 0 {
        assert(all =~= Set::empty());
    } else {
        let fewer = Set::<u32>::new(|value: u32| value < count - 1);
        lemma_u32_below((count - 1) as nat);
        assert(fewer =~= Set::<u32>::new(|value: u32| value < (count - 1) as nat));
        assert(all =~= fewer.insert((count - 1) as u32));
    }
}

proof fn lemma_order_prefix(
    jobs: Seq<JobDescriptor>,
    rescued: Seq<u32>,
    left: Seq<u32>,
    right: Seq<u32>,
    count: int,
)
    requires
        is_job_order(jobs, rescued, left),
        is_job_order(jobs, rescued, right),
        jobs.len() <= u32::MAX,
        0 <= count <= left.len(),
    ensures
        forall|i: int| 0 <= i < count ==> #[trigger] left[i] == right[i],
    decreases count,
{
    if count > 0 {
        lemma_order_prefix(jobs, rescued, left, right, count - 1);
        let at = count - 1;
        lemma_order_covers(jobs, rescued, right, left[at]);
        lemma_order_covers(jobs, rescued, left, right[at]);
        let i = right.index_of(left[at]);
        let j = left.index_of(right[at]);
        assert(right[i] == left[at]);
        assert(left[j] == right[at]);
        if i < at {
            assert(left[i] == right[i]);
            assert(comes_before(jobs, rescued, left[i], left[at]));
        }
        if j < at {
            assert(left[j] == right[j]);
            assert(comes_before(jobs, rescued, right[j], right[at]));
        }
        if i > at && j > at {
            assert(comes_before(jobs, rescued, right[at], right[i]));
            assert(comes_before(jobs, rescued, left[at], left[j]));
        }
    }
}

/// A record that a job was carried out on given inputs.
pub struct CoverageCertificate {
    pub snapshot_fingerprint: String,
    pub job_id: u32,
    pub frontier_hash: String,
}

/// The certificate is bound to the catalog's snapshot and the frontier.
pub open spec fn covers(
    certificate: CoverageCertificate,
    catalog: WorkCatalog,
    frontier: Seq<u32>,
) -> bool {
    &&& certificate.snapshot_fingerprint@ == catalog.snapshot_fingerprint@
    &&& certificate.frontier_hash@ == digest::digest_text(digest::word_bytes(frontier))
}

impl CoverageCertificate {
    /// The certificate of a job on a frontier.
    pub fn issue(catalog: &WorkCatalog, job_id: u32, frontier: &[u32]) -> (certificate:
        CoverageCertificate)
        ensures
            certificate.job_id == job_id,
            covers(certificate, *catalog, frontier@),
    {
        CoverageCertificate {
            snapshot_fingerprint: catalog.snapshot_fingerprint.clone(),
            job_id,
            frontier_hash: hash_u32(frontier),
        }
    }

    /// Refuses a certificate of another snapshot or frontier.
    pub fn validate(&self, catalog: &WorkCatalog, frontier: &[u32]) -> (result: Result<
        (),
        SchedulerError,
    >)
        ensures
            covers(*self, *catalog, frontier@) ==> result is Ok,
            !covers(*self, *catalog, frontier@) ==> result == Err::<(), SchedulerError>(
                SchedulerError::StaleCoverage,
            ),
    {
        if self.snapshot_fingerprint == catalog.snapshot_fingerprint && self.frontier_hash
            == hash_u32(frontier) {
            Ok(())
        } else {
            Err(SchedulerError::StaleCoverage)
        }
    }
}

/// A frozen plan runs every job of the catalog exactly once. Rescued jobs run before all others.
/// Of two jobs that are both rescued or both not, the one with more work runs first and, with
/// equal work, the one with the smaller identity. The values of each list are kept once, in
/// ascending order.
pub proof fn lemma_plan_runs_every_job(
    plan: RecallPlan,
    catalog: WorkCatalog,
    sampled_lefts: Seq<u32>,
    rescue_jobs: Seq<u32>,
    exact_rescue_lefts: Seq<u32>,
)
    requires
        is_plan_of(plan, catalog, sampled_lefts, rescue_jobs, exact_rescue_lefts),
        catalog.jobs@.len() <= u32::MAX,
    ensures
        plan.ordered_job_ids@.len() == catalog.jobs@.len(),
        forall|id: u32|
            id < catalog.jobs@.len() ==> #[trigger] plan.ordered_job_ids@.contains(id),
        forall|i: int, j: int|
            0 <= i < j < plan.ordered_job_ids@.len() ==> {
                let a = #[trigger] plan.ordered_job_ids@[i];
                let b = #[trigger] plan.ordered_job_ids@[j];
                let first = catalog.jobs@[a as int].estimated_work;
                let second = catalog.jobs@[b as int].estimated_work;
                &&& a != b
                &&& rescue_jobs.contains(b) ==> rescue_jobs.contains(a)
                &&& (rescue_jobs.contains(a) <==> rescue_jobs.contains(b)) ==> first > second || (
                first == second && a < b)
            },
        forall|value: u32|
            #[trigger] plan.sampled_lefts@.contains(value) <==> sampled_lefts.contains(value),
        forall|value: u32|
            #[trigger] plan.rescue_jobs@.contains(value) <==> rescue_jobs.contains(value),
        forall|value: u32|
            #[trigger] plan.exact_rescue_lefts@.contains(value) <==> exact_rescue_lefts.contains(
                value,
            ),
        forall|i: int, j: int|
            0 <= i < j < plan.sampled_lefts@.len() ==> (#[trigger] plan.sampled_lefts@[i]) < (
            #[trigger] plan.sampled_lefts@[j]),
        forall|i: int, j: int|
            0 <= i < j < plan.exact_rescue_lefts@.len() ==> (
            #[trigger] plan.exact_rescue_lefts@[i]) < (#[trigger] plan.exact_rescue_lefts@[j]),
        plan.snapshot_fingerprint@ == catalog.snapshot_fingerprint@,
        plan.frozen,
{
    let order = plan.ordered_job_ids@;
    assert forall|id: u32| id < catalog.jobs@.len() implies #[trigger] order.contains(id) by {
        lemma_order_covers(catalog.jobs@, rescue_jobs, order, id);
    }
    assert forall|i: int, j: int| 0 <= i < j < order.len() implies {
        let a = #[trigger] order[i];
        let b = #[trigger] order[j];
        let first = catalog.jobs@[a as int].estimated_work;
        let second = catalog.jobs@[b as int].estimated_work;
        &&& a != b
        &&& rescue_jobs.contains(b) ==> rescue_jobs.contains(a)
        &&& (rescue_jobs.contains(a) <==> rescue_jobs.contains(b)) ==> first > second || (first
            == second && a < b)
    } by {
        assert(comes_before(catalog.jobs@, rescue_jobs, order[i], order[j]));
    }
}

/// A certificate holds exactly for the snapshot and the frontier that it was issued on: a
/// frontier with the same digest.
pub proof fn lemma_certificate_is_bound(
    certificate: CoverageCertificate,
    catalog: WorkCatalog,
    other: WorkCatalog,
    frontier: Seq<u32>,
    next: Seq<u32>,
)
    requires
        covers(certificate, catalog, frontier),
    ensures
        covers(certificate, other, next) <==> catalog.snapshot_fingerprint@
            == other.snapshot_fingerprint@ && digest::digest_text(digest::word_bytes(frontier))
            == digest::digest_text(digest::word_bytes(next)),
{
}

} // verus!
