//! Rescue seeds, and the pairs that they match.

use crate::columns;
use crate::pipeline::atoms;
use crate::pipeline::atoms::{atom_contracts, atom_payload};
use crate::pipeline::catalog;
use crate::pipeline::error;
use crate::pipeline::error::{overflow_error, PipelineError, PipelineFault};
use crate::pipeline::shared;
use crate::pipeline::shared::SHARED_LOCAL_ROUTING_MIN_MEMBERS;
use crate::progress::{ProgressCounters, ProgressEvent, ProgressPhase, WorkUnit};
use crate::snapshot::features::FeatureView;
use crate::text;
use crate::text::decimal;
use std::collections::HashMap;
use vstd::prelude::*;
use vstd::string::*;

verus! {

broadcast use vstd::std_specs::hash::group_hash_axioms;

/// Progress is reported in portions of this many.
pub const RESCUE_PROGRESS_CHUNK: u64 = 65_536;

/// What is scored again beside the catalog.
#[derive(Debug, Clone)]
pub struct RescuePlan {
    /// Atoms that are scored against all atoms.
    pub pair_atoms: Vec<u32>,
    /// Contracts that are scored against all members of their large tokens.
    pub shared_contracts: Vec<u32>,
    /// Edges that need no scoring.
    pub shared_edges: Vec<(u32, u32)>,
}

/// The first value from `at` on that is not below `bound`.
pub open spec fn first_beyond(values: Seq<u32>, bound: int, at: int) -> Option<u32>
    decreases values.len() - at,
{
    if at < 0 || at >= values.len() {
        None
    } else if values[at] >= bound {
        Some(values[at])
    } else {
        first_beyond(values, bound, at + 1)
    }
}

/// The edge joins two different contracts.
pub open spec fn is_contract_edge(edge: (u32, u32), contracts: int) -> bool {
    edge.0 != edge.1 && edge.0 < contracts && edge.1 < contracts
}

/// The first edge from `at` on that does not join two different contracts.
pub open spec fn first_bad_edge(edges: Seq<(u32, u32)>, contracts: int, at: int) -> Option<(u32, u32)>
    decreases edges.len() - at,
{
    if at < 0 || at >= edges.len() {
        None
    } else if !is_contract_edge(edges[at], contracts) {
        Some(edges[at])
    } else {
        first_bad_edge(edges, contracts, at + 1)
    }
}

/// The pairs visited where `seeds` of `members` are scored against all others, each pair once.
pub open spec fn seed_visits(seeds: int, members: int) -> int {
    seeds * (if members > 0 {
        members - 1
    } else {
        0
    }) - seeds * (seeds - 1) / 2
}

/// A count of [`seed_visits`] does not fit.
pub open spec fn seed_visits_overflow(seeds: int, members: int) -> bool {
    ||| seeds * (if members > 0 {
        members - 1
    } else {
        0
    }) > u64::MAX
    ||| seeds * (seeds - 1) > u64::MAX
    ||| seed_visits(seeds, members) < 0
}

/// The values mark themselves.
pub open spec fn is_mask(mask: Seq<bool>, values: Seq<u32>) -> bool {
    forall|i: int|
        0 <= i < mask.len() ==> (#[trigger] mask[i] <==> exists|k: int|
            0 <= k < values.len() && #[trigger] values[k] == i)
}

/// How many of the first `count` members of a token are marked.
pub open spec fn marked_members(view: FeatureView, mask: Seq<bool>, token: int, count: int) -> int
    decreases count,
{
    if count <= 0 {
        0
    } else {
        marked_members(view, mask, token, count - 1) + (if mask[shared::member_contract(
            view,
            token,
            count - 1,
        ) as int] {
            1int
        } else {
            0
        })
    }
}

/// The marked members of a large token.
pub open spec fn token_seeds(view: FeatureView, mask: Seq<bool>, token: int) -> int {
    if shared::group_len(view, token) >= SHARED_LOCAL_ROUTING_MIN_MEMBERS {
        marked_members(view, mask, token, shared::group_len(view, token))
    } else {
        0
    }
}

/// The pairs visited for the seeds of the first `count` tokens.
pub open spec fn shared_seed_visits(view: FeatureView, mask: Seq<bool>, count: int) -> int
    decreases count,
{
    if count <= 0 {
        0
    } else {
        shared_seed_visits(view, mask, count - 1) + (if token_seeds(view, mask, count - 1) > 0 {
            seed_visits(
                token_seeds(view, mask, count - 1),
                shared::group_len(view, count - 1),
            )
        } else {
            0
        })
    }
}

/// A count of [`shared_seed_visits`] does not fit.
pub open spec fn shared_visits_overflow(view: FeatureView, mask: Seq<bool>, count: int) -> bool
    decreases count,
{
    if count <= 0 {
        false
    } else {
        shared_visits_overflow(view, mask, count - 1) || (token_seeds(view, mask, count - 1) > 0 && (
        seed_visits_overflow(
            token_seeds(view, mask, count - 1),
            shared::group_len(view, count - 1),
        ) || shared_seed_visits(view, mask, count) > u64::MAX))
    }
}

/// What is wrong with rescue seeds, if anything.
pub open spec fn seeds_fault(rescue: RescuePlan, atom_count: int, contracts: int) -> Option<
    PipelineFault,
> {
    let atom = first_beyond(rescue.pair_atoms@, atom_count, 0);
    let contract = first_beyond(rescue.shared_contracts@, contracts, 0);
    let edge = first_bad_edge(rescue.shared_edges@, contracts, 0);
    if atom is Some {
        Some(
            PipelineFault::Invariant(
                "rescue atom "@ + text::decimal_text(atom->0 as nat)
                    + " is outside atom universe "@ + text::decimal_text(atom_count as nat),
            ),
        )
    } else if seed_visits_overflow(rescue.pair_atoms@.len() as int, atom_count) {
        Some(error::overflow_fault())
    } else if contract is Some {
        Some(
            PipelineFault::Invariant(
                "shared rescue contract "@ + text::decimal_text(contract->0 as nat)
                    + " is outside contract universe "@ + text::decimal_text(contracts as nat),
            ),
        )
    } else if edge is Some {
        Some(
            PipelineFault::Invariant(
                "direct shared rescue edge ("@ + text::decimal_text((edge->0).0 as nat) + ", "@
                    + text::decimal_text((edge->0).1 as nat) + ") is outside contract universe "@
                    + text::decimal_text(contracts as nat) + " or is a self-edge"@,
            ),
        )
    } else {
        None
    }
}

/// Checked rescue seeds.
#[derive(Debug, Clone)]
pub struct RescueSeeds {
    /// Marks the pair atoms.
    pub atom_mask: Vec<bool>,
    /// Marks the shared contracts.
    pub contract_mask: Vec<bool>,
    pub atom_score_visits: u64,
    pub shared_score_visits: u64,
}

/// Seeds of a rescue plan.
pub open spec fn are_seeds(
    seeds: RescueSeeds,
    rescue: RescuePlan,
    view: FeatureView,
    atom_count: int,
) -> bool {
    &&& seeds.atom_mask@.len() == atom_count
    &&& seeds.contract_mask@.len() == view.contract_count()
    &&& is_mask(seeds.atom_mask@, rescue.pair_atoms@)
    &&& is_mask(seeds.contract_mask@, rescue.shared_contracts@)
    &&& seeds.atom_score_visits == seed_visits(rescue.pair_atoms@.len() as int, atom_count)
    &&& seeds.shared_score_visits == shared_seed_visits(
        view,
        seeds.contract_mask@,
        view.token_member_offsets@.len() - 1,
    )
    &&& columns::all_below(rescue.pair_atoms@, atom_count)
    &&& forall|k: int|
        0 <= k < rescue.shared_edges@.len() ==> is_contract_edge(
            #[trigger] rescue.shared_edges@[k],
            view.contract_count(),
        )
}

/// The marks of values.
fn mark(values: &Vec<u32>, len: usize) -> (mask: Vec<bool>)
    requires
        columns::all_below(values@, len as int),
    ensures
        mask@.len() == len,
        is_mask(mask@, values@),
{
    let mut mask: Vec<bool> = Vec::new();
    let mut i: usize = 0;
    while i < len
        invariant
            i <= len,
            mask@.len() == i,
            forall|k: int| 0 <= k < i ==> !(#[trigger] mask@[k]),
        decreases len - i,
    {
        mask.push(false);
        i = i + 1;
    }
    let mut v: usize = 0;
    while v < values.len()
        invariant
            v <= values@.len(),
            mask@.len() == len,
            columns::all_below(values@, len as int),
            forall|i: int|
                0 <= i < mask@.len() ==> (#[trigger] mask@[i] <==> exists|k: int|
                    0 <= k < v && #[trigger] values@[k] == i),
        decreases values.len() - v,
    {
        let value: u32 = values[v];
        assert(values@[v as int] < len);
        let ghost before = mask@;
        mask.set(value as usize, true);
        proof {
            assert forall|i: int| 0 <= i < mask@.len() implies (#[trigger] mask@[i] <==> exists|
                k: int,
            |
                0 <= k < v + 1 && #[trigger] values@[k] == i) by {
                if i == value {
                    assert(values@[v as int] == i);
                } else {
                    assert(mask@[i] == before[i]);
                }
            }
        }
        v = v + 1;
    }
    mask
}

fn find_beyond(values: &Vec<u32>, bound: usize) -> (found: Option<u32>)
    ensures
        found == first_beyond(values@, bound as int, 0),
        found is None ==> columns::all_below(values@, bound as int),
{
    let mut i: usize = 0;
    while i < values.len()
        invariant
            i <= values@.len(),
            first_beyond(values@, bound as int, 0) == first_beyond(values@, bound as int, i as int),
            forall|k: int| 0 <= k < i ==> #[trigger] values@[k] < bound,
        decreases values.len() - i,
    {
        if values[i] as usize >= bound {
            return Some(values[i]);
        }
        i = i + 1;
    }
    None
}

fn find_bad_edge(edges: &Vec<(u32, u32)>, contracts: usize) -> (found: Option<(u32, u32)>)
    ensures
        found == first_bad_edge(edges@, contracts as int, 0),
        found is None ==> forall|k: int|
            0 <= k < edges@.len() ==> is_contract_edge(#[trigger] edges@[k], contracts as int),
{
    let mut i: usize = 0;
    while i < edges.len()
        invariant
            i <= edges@.len(),
            first_bad_edge(edges@, contracts as int, 0) == first_bad_edge(
                edges@,
                contracts as int,
                i as int,
            ),
            forall|k: int|
                0 <= k < i ==> is_contract_edge(#[trigger] edges@[k], contracts as int),
        decreases edges.len() - i,
    {
        let (left, right) = edges[i];
        if left == right || left as usize >= contracts || right as usize >= contracts {
            return Some((left, right));
        }
        i = i + 1;
    }
    None
}

/// The pairs visited where `seeds` of `members` are scored against all others.
fn count_seed_visits(seeds: u64, members: u64) -> (result: Result<u64, PipelineError>)
    ensures
        if seed_visits_overflow(seeds as int, members as int) {
            result matches Err(e) && e@ == error::overflow_fault()
        } else {
            result matches Ok(visits) && visits == seed_visits(seeds as int, members as int)
        },
{
    let others: u64 = members.saturating_sub(1);
    let fewer: u64 = seeds.saturating_sub(1);
    proof {
        if seeds == 0 {
            assert(seeds * fewer == 0 && seeds * (seeds - 1) == 0) by (nonlinear_arith)
                requires
                    seeds == 0,
            ;
        }
    }
    match seeds.checked_mul(others) {
        None => Err(overflow_error()),
        Some(visits) => match seeds.checked_mul(fewer) {
            None => Err(overflow_error()),
            Some(twice) => {
                let duplicates: u64 = twice / 2;
                if visits < duplicates {
                    Err(overflow_error())
                } else {
                    Ok(visits - duplicates)
                }
            },
        },
    }
}

/// A report on preparing rescue pairs.
pub open spec fn is_prepare_report(event: ProgressEvent, completed: int, groups: int) -> bool {
    &&& event.phase == ProgressPhase::PrepareRescuePairs
    &&& event.completed == completed
    &&& event.total is None
    &&& event.unit == WorkUnit::Items
    &&& event.counters == (ProgressCounters {
        candidates: 0,
        scored: 0,
        expanded: 0,
        matched: 0,
        groups: groups as u64,
    })
}

struct PrepareWork {
    completed: u64,
    reported: u64,
}

impl PrepareWork {
    fn report(&self, groups: u64, reports: &mut Vec<ProgressEvent>)
        ensures
            catalog::tells_open(
                final(reports)@,
                old(reports)@,
                ProgressPhase::PrepareRescuePairs,
                WorkUnit::Items,
            ),
            final(reports)@.len() == old(reports)@.len() + 1,
            is_prepare_report(final(reports)@.last(), self.completed as int, groups as int),
    {
        let counters = ProgressCounters {
            candidates: 0,
            scored: 0,
            expanded: 0,
            matched: 0,
            groups,
        };
        reports.push(
            ProgressEvent::indeterminate(
                ProgressPhase::PrepareRescuePairs,
                self.completed,
                WorkUnit::Items,
                counters,
            ),
        );
        assert(reports@.take(old(reports)@.len() as int) =~= old(reports)@);
    }

    /// Counts `items` items, and reports each full portion.
    fn advance(&mut self, items: u64, groups: u64, reports: &mut Vec<ProgressEvent>)
        requires
            old(self).reported <= old(self).completed,
        ensures
            final(self).reported <= final(self).completed,
            catalog::tells_open(
                final(reports)@,
                old(reports)@,
                ProgressPhase::PrepareRescuePairs,
                WorkUnit::Items,
            ),
            final(self).completed == (if old(self).completed + items <= u64::MAX {
                (old(self).completed + items) as u64
            } else {
                u64::MAX
            }),
    {
        let ghost told = reports@;
        let end: u64 = self.completed.saturating_add(items);
        assert(reports@.take(told.len() as int) =~= told);
        while end - self.reported >= RESCUE_PROGRESS_CHUNK
            invariant
                self.reported <= end,
                self.completed <= end,
                catalog::tells_open(
                    reports@,
                    told,
                    ProgressPhase::PrepareRescuePairs,
                    WorkUnit::Items,
                ),
            decreases end - self.reported,
        {
            let ghost middle = reports@;
            self.reported = self.reported + RESCUE_PROGRESS_CHUNK;
            self.completed = self.reported;
            self.report(groups, reports);
            proof {
                catalog::lemma_tells_open(
                    reports@,
                    middle,
                    told,
                    ProgressPhase::PrepareRescuePairs,
                    WorkUnit::Items,
                );
            }
        }
        self.completed = end;
    }
}

proof fn lemma_visits_overflow_grows(view: FeatureView, mask: Seq<bool>, count: int, more: int)
    requires
        0 <= count <= more,
        shared_visits_overflow(view, mask, count),
    ensures
        shared_visits_overflow(view, mask, more),
    decreases more - count,
{
    if count < more {
        lemma_visits_overflow_grows(view, mask, count, more - 1);
    }
}

/// The marked members of a large token.
#[verifier::loop_isolation(false)]
fn count_token_seeds(features: &FeatureView, mask: &Vec<bool>, token: usize) -> (seeds: u64)
    requires
        shared::has_members(*features),
        token + 1 < features.token_member_offsets@.len(),
        mask@.len() == features.contract_count(),
    ensures
        seeds == token_seeds(*features, mask@, token as int),
        seeds <= shared::group_len(*features, token as int),
{
    let ghost view = *features;
    let rows: usize = features.token_member_offsets.len();
    let stored: usize = features.token_member_contracts.len();
    proof {
        columns::lemma_row_bounds(
            view.token_member_offsets@,
            view.token_member_contracts@.len(),
            token as int,
        );
    }
    let begin: usize = features.token_member_offsets[token] as usize;
    let end: usize = features.token_member_offsets[token + 1] as usize;
    if end - begin < SHARED_LOCAL_ROUTING_MIN_MEMBERS {
        return 0;
    }
    let mut seeds: u64 = 0;
    let mut at: usize = begin;
    while at < end
        invariant
            begin <= at <= end,
            seeds == marked_members(view, mask@, token as int, at - begin),
            seeds <= at - begin,
        decreases end - at,
    {
        assert(view.token_member_contracts@[at as int] < view.contract_count());
        if mask[features.token_member_contracts[at] as usize] {
            seeds = seeds + 1;
        }
        at = at + 1;
    }
    seeds
}

/// Checks rescue seeds and counts the pairs to visit.
#[verifier::loop_isolation(false)]
pub fn prepare_rescue(
    features: &FeatureView,
    rescue: &RescuePlan,
    atom_count: u32,
    reports: &mut Vec<ProgressEvent>,
) -> (result: Result<RescueSeeds, PipelineError>)
    requires
        shared::has_members(*features),
        features.contract_count() <= u32::MAX,
    ensures
        catalog::tells_open(
            final(reports)@,
            old(reports)@,
            ProgressPhase::PrepareRescuePairs,
            WorkUnit::Items,
        ),
        match seeds_fault(*rescue, atom_count as int, features.contract_count()) {
            Some(fault) => result matches Err(e) && e@ == fault,
            None => match result {
                Ok(seeds) => {
                    &&& are_seeds(seeds, *rescue, *features, atom_count as int)
                    &&& final(reports)@.last().phase == ProgressPhase::PrepareRescuePairs
                },
                Err(e) => e@ == error::overflow_fault() && forall|mask: Seq<bool>|
                    mask.len() == features.contract_count() && #[trigger] is_mask(
                        mask,
                        rescue.shared_contracts@,
                    ) ==> shared_visits_overflow(
                        *features,
                        mask,
                        features.token_member_offsets@.len() - 1,
                    ),
            },
        },
{
    let ghost view = *features;
    let ghost told = reports@;
    let contracts: usize = features.contract_source.len();
    let mut work = PrepareWork { completed: 0, reported: 0 };
    work.report(0, reports);
    let ghost told_first = reports@;
    if let Some(atom) = find_beyond(&rescue.pair_atoms, atom_count as usize) {
        return Err(
            PipelineError::Invariant(
                "rescue atom ".to_owned().concat(decimal(atom as u64).as_str()).concat(
                    " is outside atom universe ",
                ).concat(decimal(atom_count as u64).as_str()),
            ),
        );
    }
    work.advance(rescue.pair_atoms.len() as u64, 0, reports);
    let ghost told_atoms = reports@;
    proof {
        catalog::lemma_tells_open(
            told_atoms,
            told_first,
            told,
            ProgressPhase::PrepareRescuePairs,
            WorkUnit::Items,
        );
    }
    let atom_score_visits: u64 = count_seed_visits(
        rescue.pair_atoms.len() as u64,
        atom_count as u64,
    )?;
    if let Some(contract) = find_beyond(&rescue.shared_contracts, contracts) {
        return Err(
            PipelineError::Invariant(
                "shared rescue contract ".to_owned().concat(decimal(contract as u64).as_str()).concat(
                    " is outside contract universe ",
                ).concat(decimal(contracts as u64).as_str()),
            ),
        );
    }
    work.advance(rescue.shared_contracts.len() as u64, 0, reports);
    let ghost told_contracts = reports@;
    proof {
        catalog::lemma_tells_open(
            told_contracts,
            told_atoms,
            told,
            ProgressPhase::PrepareRescuePairs,
            WorkUnit::Items,
        );
    }
    if let Some((left, right)) = find_bad_edge(&rescue.shared_edges, contracts) {
        return Err(
            PipelineError::Invariant(
                "direct shared rescue edge (".to_owned().concat(decimal(left as u64).as_str()).concat(
                    ", ",
                ).concat(decimal(right as u64).as_str()).concat(
                    ") is outside contract universe ",
                ).concat(decimal(contracts as u64).as_str()).concat(" or is a self-edge"),
            ),
        );
    }
    let contract_mask = mark(&rescue.shared_contracts, contracts);
    let count: usize = features.token_member_offsets.len() - 1;
    let mut shared_score_visits: u64 = 0;
    let mut groups: u64 = 0;
    let mut token: usize = 0;
    while token < count
        invariant
            token <= count,
            groups <= token,
            work.reported <= work.completed,
            catalog::tells_open(
                reports@,
                told,
                ProgressPhase::PrepareRescuePairs,
                WorkUnit::Items,
            ),
            shared_score_visits == shared_seed_visits(view, contract_mask@, token as int),
            !shared_visits_overflow(view, contract_mask@, token as int),
        decreases count - token,
    {
        let ghost middle = reports@;
        let ghost mask = contract_mask@;
        proof {
            columns::lemma_row_bounds(
                view.token_member_offsets@,
                view.token_member_contracts@.len(),
                token as int,
            );
            if shared_visits_overflow(view, mask, token + 1) {
                lemma_visits_overflow_grows(view, mask, token + 1, count as int);
                assert forall|other: Seq<bool>|
                    other.len() == view.contract_count() && #[trigger] is_mask(
                        other,
                        rescue.shared_contracts@,
                    ) implies shared_visits_overflow(view, other, count as int) by {
                    lemma_mask_unique(mask, other, rescue.shared_contracts@);
                }
            }
        }
        let members: u64 = features.token_member_offsets[token + 1]
            - features.token_member_offsets[token];
        let seeds: u64 = count_token_seeds(features, &contract_mask, token);
        work.advance(members, groups, reports);
        proof {
            catalog::lemma_tells_open(
                reports@,
                middle,
                told,
                ProgressPhase::PrepareRescuePairs,
                WorkUnit::Items,
            );
        }
        if seeds > 0 {
            groups = groups + 1;
            let visits: u64 = count_seed_visits(seeds, members)?;
            shared_score_visits = match shared_score_visits.checked_add(visits) {
                Some(sum) => sum,
                None => {
                    return Err(overflow_error());
                },
            };
        }
        token = token + 1;
    }
    let ghost told_tokens = reports@;
    work.report(groups, reports);
    proof {
        catalog::lemma_tells_open(
            reports@,
            told_tokens,
            told,
            ProgressPhase::PrepareRescuePairs,
            WorkUnit::Items,
        );
    }
    let atom_mask = mark(&rescue.pair_atoms, atom_count as usize);
    Ok(RescueSeeds { atom_mask, contract_mask, atom_score_visits, shared_score_visits })
}

proof fn lemma_mask_unique(a: Seq<bool>, b: Seq<bool>, values: Seq<u32>)
    requires
        is_mask(a, values),
        is_mask(b, values),
        a.len() == b.len(),
    ensures
        a == b,
{
    assert forall|i: int| 0 <= i < a.len() implies a[i] == b[i] by {
        assert(a[i] == b[i]);
    }
    assert(a =~= b);
}

/// Remembers decisions on the payloads of a row.
struct RowCache {
    decisions: HashMap<u32, bool>,
    max_entries: usize,
}

impl RowCache {
    /// Every remembered decision is the scorer's.
    closed spec fn agrees<F: Fn(u32, u32) -> bool>(self, scorer: F, left: u32) -> bool {
        forall|right: u32| #[trigger]
            self.decisions@.contains_key(right) ==> self.decisions@[right] == shared::pair_matches(
                scorer,
                left,
                right,
            )
    }

    fn new(max_entries: usize) -> (cache: RowCache)
        ensures
            cache.decisions@ == Map::<u32, bool>::empty(),
    {
        RowCache { decisions: HashMap::new(), max_entries }
    }

    /// Whether the payloads match.
    fn bounded_payload_match<F: Fn(u32, u32) -> bool>(
        &mut self,
        left: u32,
        right: u32,
        scorer: &F,
    ) -> (matched: bool)
        requires
            shared::is_pair_scorer(*scorer),
            old(self).agrees(*scorer, left),
        ensures
            matched == shared::pair_matches(*scorer, left, right),
            final(self).agrees(*scorer, left),
    {
        if self.max_entries == 0 {
            return scorer(left, right);
        }
        if let Some(decision) = self.decisions.get(&right) {
            return *decision;
        }
        let decision: bool = scorer(left, right);
        if self.decisions.len() < self.max_entries {
            self.decisions.insert(right, decision);
        }
        decision
    }
}

/// The seed is not scored against itself, nor against a smaller seed.
pub open spec fn skips(mask: Seq<bool>, seed: u32, other: u32) -> bool {
    seed == other || (mask[other as int] && other < seed)
}

/// The seed atom matches the atom.
pub open spec fn atoms_match<F: Fn(u32, u32) -> bool>(
    view: FeatureView,
    scorer: F,
    left: u32,
    right: u32,
) -> bool {
    shared::pair_matches(
        scorer,
        atoms::payload_of(view, left as int),
        atoms::payload_of(view, right as int),
    )
}

/// The pairs of contracts of two atoms.
pub open spec fn contract_pairs(view: FeatureView, pair: (u32, u32)) -> nat {
    atoms::members_of(view, pair.0 as int).len() * atoms::members_of(view, pair.1 as int).len()
}

/// The matches of a seed atom among the atoms from `begin` up to `end`.
pub open spec fn atom_row<F: Fn(u32, u32) -> bool>(
    view: FeatureView,
    scorer: F,
    mask: Seq<bool>,
    left: u32,
    begin: int,
    end: int,
) -> Seq<(u32, u32)>
    decreases end - begin,
{
    if end <= begin {
        Seq::empty()
    } else {
        let before = atom_row(view, scorer, mask, left, begin, end - 1);
        let right = (end - 1) as u32;
        if !skips(mask, left, right) && atoms_match(view, scorer, left, right) {
            before.push((left, right))
        } else {
            before
        }
    }
}

/// The atoms from `begin` up to `end` that a seed atom is scored against.
pub open spec fn atom_row_work(mask: Seq<bool>, left: u32, begin: int, end: int) -> nat
    decreases end - begin,
{
    if end <= begin {
        0
    } else {
        atom_row_work(mask, left, begin, end - 1) + (if skips(mask, left, (end - 1) as u32) {
            0nat
        } else {
            1nat
        })
    }
}

/// The pairs of contracts of the pairs of atoms.
pub open spec fn contract_pair_sum(view: FeatureView, pairs: Seq<(u32, u32)>) -> nat
    decreases pairs.len(),
{
    if pairs.len() == 0 {
        0
    } else {
        contract_pair_sum(view, pairs.drop_last()) + contract_pairs(view, pairs.last())
    }
}

/// The matches of one tile.
pub struct RescueTile {
    pub pairs: Vec<(u32, u32)>,
    pub expansion_work: u64,
    pub work: u64,
}

/// Scores a seed atom against the atoms from `begin` up to `end`.
#[verifier::loop_isolation(false)]
pub fn score_atom_tile<F: Fn(u32, u32) -> bool>(
    features: &FeatureView,
    mask: &Vec<bool>,
    left: u32,
    begin: u32,
    end: u32,
    cache_entries: usize,
    scorer: &F,
) -> (result: Result<RescueTile, PipelineError>)
    requires
        atoms::atoms_sorted(*features),
        begin <= end <= atoms::atom_count(*features),
        left < atoms::atom_count(*features),
        mask@.len() == atoms::atom_count(*features),
        shared::is_pair_scorer(*scorer),
    ensures
        ({
            let row = atom_row(*features, *scorer, mask@, left, begin as int, end as int);
            let expansion = contract_pair_sum(*features, row);
            if expansion <= u64::MAX {
                result matches Ok(tile) && tile.pairs@ == row && tile.expansion_work == expansion
                    && tile.work == atom_row_work(mask@, left, begin as int, end as int)
            } else {
                result matches Err(e) && e@ == error::overflow_fault()
            }
        }),
{
    let ghost view = *features;
    let left_payload: u32 = atom_payload(features, left);
    let left_members: usize = atom_contracts(features, left).len();
    let mut cache = RowCache::new(cache_entries);
    let mut pairs: Vec<(u32, u32)> = Vec::new();
    let mut expansion_work: u64 = 0;
    let mut work: u64 = 0;
    let mut right: u32 = begin;
    while right < end
        invariant
            begin <= right <= end,
            cache.agrees(*scorer, left_payload),
            pairs@ == atom_row(view, *scorer, mask@, left, begin as int, right as int),
            expansion_work == contract_pair_sum(view, pairs@),
            work == atom_row_work(mask@, left, begin as int, right as int),
            work <= right - begin,
        decreases end - right,
    {
        let ghost before = pairs@;
        if left != right && !(mask[right as usize] && right < left) {
            let right_payload: u32 = atom_payload(features, right);
            work = work + 1;
            if cache.bounded_payload_match(left_payload, right_payload, scorer) {
                let right_members: usize = atom_contracts(features, right).len();
                proof {
                    atoms::lemma_members_known(view, left as int);
                    atoms::lemma_members_known(view, right as int);
                    catalog::lemma_product_fits(left_members as nat, right_members as nat);
                    assert(before.push((left, right)).drop_last() =~= before);
                    lemma_atom_row_prefix(
                        view,
                        *scorer,
                        mask@,
                        left,
                        begin as int,
                        right + 1,
                        end as int,
                    );
                }
                let product: u64 = left_members as u64 * right_members as u64;
                pairs.push((left, right));
                expansion_work = match expansion_work.checked_add(product) {
                    Some(sum) => sum,
                    None => {
                        return Err(overflow_error());
                    },
                };
            }
        }
        right = right + 1;
    }
    Ok(RescueTile { pairs, expansion_work, work })
}

/// The pairs of contracts of part of a row are not more than those of the row.
proof fn lemma_atom_row_prefix<F: Fn(u32, u32) -> bool>(
    view: FeatureView,
    scorer: F,
    mask: Seq<bool>,
    left: u32,
    begin: int,
    count: int,
    end: int,
)
    requires
        begin <= count <= end,
    ensures
        contract_pair_sum(view, atom_row(view, scorer, mask, left, begin, count))
            <= contract_pair_sum(view, atom_row(view, scorer, mask, left, begin, end)),
    decreases end - count,
{
    if count < end {
        lemma_atom_row_prefix(view, scorer, mask, left, begin, count, end - 1);
        let before = atom_row(view, scorer, mask, left, begin, end - 1);
        assert(before.push((left, (end - 1) as u32)).drop_last() =~= before);
    }
}

/// The matches of a seed member among the members of its token from `begin` up to `end`.
pub open spec fn seed_row<F: Fn(u32, u32) -> bool>(
    view: FeatureView,
    scorer: F,
    mask: Seq<bool>,
    token: int,
    seed: int,
    begin: int,
    end: int,
) -> Seq<(u32, u32)>
    decreases end - begin,
{
    if end <= begin {
        Seq::empty()
    } else {
        let before = seed_row(view, scorer, mask, token, seed, begin, end - 1);
        let left = shared::member_contract(view, token, seed);
        let right = shared::member_contract(view, token, end - 1);
        if !skips(mask, left, right) && shared::pair_matches(
            scorer,
            shared::member_payload(view, token, seed),
            shared::member_payload(view, token, end - 1),
        ) {
            before.push((left, right))
        } else {
            before
        }
    }
}

/// The members from `begin` up to `end` that a seed member is scored against.
pub open spec fn seed_row_work(
    view: FeatureView,
    mask: Seq<bool>,
    token: int,
    seed: int,
    begin: int,
    end: int,
) -> nat
    decreases end - begin,
{
    if end <= begin {
        0
    } else {
        seed_row_work(view, mask, token, seed, begin, end - 1) + (if skips(
            mask,
            shared::member_contract(view, token, seed),
            shared::member_contract(view, token, end - 1),
        ) {
            0nat
        } else {
            1nat
        })
    }
}

/// Scores a seed member against the members of its token from `begin` up to `end`.
#[verifier::loop_isolation(false)]
pub fn score_seed_tile<F: Fn(u32, u32) -> bool>(
    features: &FeatureView,
    mask: &Vec<bool>,
    token: usize,
    seed: usize,
    begin: usize,
    end: usize,
    cache_entries: usize,
    scorer: &F,
) -> (tile: RescueTile)
    requires
        shared::has_members(*features),
        token + 1 < features.token_member_offsets@.len(),
        seed < shared::group_len(*features, token as int),
        begin <= end <= shared::group_len(*features, token as int),
        mask@.len() == features.contract_count(),
        shared::is_pair_scorer(*scorer),
    ensures
        tile.pairs@ == seed_row(
            *features,
            *scorer,
            mask@,
            token as int,
            seed as int,
            begin as int,
            end as int,
        ),
        tile.expansion_work == 0,
        tile.work == seed_row_work(
            *features,
            mask@,
            token as int,
            seed as int,
            begin as int,
            end as int,
        ),
{
    let ghost view = *features;
    let ghost t = token as int;
    let rows: usize = features.token_member_offsets.len();
    let stored: usize = features.token_member_contracts.len();
    proof {
        columns::lemma_row_bounds(
            view.token_member_offsets@,
            view.token_member_contracts@.len(),
            t,
        );
    }
    let base: usize = features.token_member_offsets[token] as usize;
    let left: u32 = features.token_member_contracts[base + seed];
    assert(view.token_member_sources@[base + seed] < view.source_to_payload@.len());
    let left_payload: u32 = features.source_to_payload[features.token_member_sources[base
        + seed] as usize];
    let mut cache = RowCache::new(cache_entries);
    let mut pairs: Vec<(u32, u32)> = Vec::new();
    let mut work: u64 = 0;
    let mut member: usize = begin;
    while member < end
        invariant
            begin <= member <= end,
            cache.agrees(*scorer, left_payload),
            pairs@ == seed_row(view, *scorer, mask@, t, seed as int, begin as int, member as int),
            work == seed_row_work(view, mask@, t, seed as int, begin as int, member as int),
            work <= member - begin,
        decreases end - member,
    {
        let right: u32 = features.token_member_contracts[base + member];
        assert(view.token_member_contracts@[base + member] < view.contract_count());
        assert(view.token_member_sources@[base + member] < view.source_to_payload@.len());
        if left != right && !(mask[right as usize] && right < left) {
            let right_payload: u32 = features.source_to_payload[features.token_member_sources[base
                + member] as usize];
            work = work + 1;
            if cache.bounded_payload_match(left_payload, right_payload, scorer) {
                pairs.push((left, right));
            }
        }
        member = member + 1;
    }
    RescueTile { pairs, expansion_work: 0, work }
}

/// Counts one more unit of work. Where more than a chunk is pending, a chunk is to be told and
/// no longer pends, so that some work always stays for the end of a row.
pub fn record_rescue_plan_work(pending_work: &mut u64, progress_chunk: u64) -> (told: Option<u64>)
    ensures
        ({
            let chunk = if progress_chunk < 1 {
                1
            } else {
                progress_chunk
            };
            let counted = if *old(pending_work) == u64::MAX {
                u64::MAX as int
            } else {
                *old(pending_work) + 1
            };
            if counted > chunk {
                told == Some(chunk) && *final(pending_work) == counted - chunk
            } else {
                told is None && *final(pending_work) == counted
            }
        }),
        *final(pending_work) > 0,
{
    let counted: u64 = pending_work.saturating_add(1);
    let chunk: u64 = if progress_chunk < 1 {
        1
    } else {
        progress_chunk
    };
    if counted > chunk {
        *pending_work = counted - chunk;
        Some(chunk)
    } else {
        *pending_work = counted;
        None
    }
}

/// Takes the pending work.
pub fn take_rescue_plan_work(pending_work: &mut u64) -> (work: u64)
    ensures
        work == *old(pending_work),
        *final(pending_work) == 0,
{
    let work: u64 = *pending_work;
    *pending_work = 0;
    work
}

/// Scoring `seeds` of `members` against all others visits every pair with a seed once: all pairs
/// of the members but those of members that are no seeds.
pub proof fn lemma_seed_visits(seeds: int, members: int)
    requires
        0 <= seeds <= members,
    ensures
        2 * seed_visits(seeds, members) == members * (members - 1) - (members - seeds) * (members
            - seeds - 1),
{
    let rest = seeds * (seeds - 1);
    let half = seeds / 2;
    if seeds % 2 == 0 {
        assert(rest == 2 * (half * (seeds - 1))) by (nonlinear_arith)
            requires
                seeds == 2 * half,
                rest == seeds * (seeds - 1),
        ;
    } else {
        assert(rest == 2 * (half * seeds)) by (nonlinear_arith)
            requires
                seeds == 2 * half + 1,
                rest == seeds * (seeds - 1),
        ;
    }
    assert(members * (members - 1) - (members - seeds) * (members - seeds - 1) == 2 * (seeds * (
    members - 1)) - rest) by (nonlinear_arith)
        requires
            rest == seeds * (seeds - 1),
    ;
    if members == 0 {
        assert(seeds * (members - 1) == 0) by (nonlinear_arith)
            requires
                seeds == 0,
        ;
    }
}

/// Checked seeds mark exactly the atoms and contracts of the plan, which are known.
pub proof fn lemma_seeds_are_marked(
    seeds: RescueSeeds,
    rescue: RescuePlan,
    view: FeatureView,
    atom_count: int,
)
    requires
        are_seeds(seeds, rescue, view, atom_count),
        atom_count <= u32::MAX,
        view.contract_count() <= u32::MAX,
    ensures
        seeds.atom_mask@.len() == atom_count,
        seeds.contract_mask@.len() == view.contract_source@.len(),
        forall|atom: u32|
            atom < atom_count ==> (seeds.atom_mask@[atom as int]
                <==> #[trigger] rescue.pair_atoms@.contains(atom)),
        forall|contract: u32|
            contract < view.contract_source@.len() ==> (seeds.contract_mask@[contract as int]
                <==> #[trigger] rescue.shared_contracts@.contains(contract)),
        forall|atom: u32| #[trigger] rescue.pair_atoms@.contains(atom) ==> atom < atom_count,
        forall|k: int|
            0 <= k < rescue.shared_edges@.len() ==> (#[trigger] rescue.shared_edges@[k]).0
                != rescue.shared_edges@[k].1,
{
    assert forall|atom: u32| atom < atom_count implies (seeds.atom_mask@[atom as int]
        <==> #[trigger] rescue.pair_atoms@.contains(atom)) by {
        let mask = seeds.atom_mask@;
        if mask[atom as int] {
            let k = choose|k: int|
                0 <= k < rescue.pair_atoms@.len() && #[trigger] rescue.pair_atoms@[k] == atom;
            assert(rescue.pair_atoms@[k] == atom);
        }
        if rescue.pair_atoms@.contains(atom) {
            assert(rescue.pair_atoms@[rescue.pair_atoms@.index_of(atom)] == atom);
        }
    }
    assert forall|contract: u32| contract < view.contract_source@.len() implies (
    seeds.contract_mask@[contract as int] <==> #[trigger] rescue.shared_contracts@.contains(
        contract,
    )) by {
        let mask = seeds.contract_mask@;
        let values = rescue.shared_contracts@;
        if mask[contract as int] {
            let k = choose|k: int| 0 <= k < values.len() && #[trigger] values[k] == contract;
            assert(values[k] == contract);
        }
        if values.contains(contract) {
            assert(values[values.index_of(contract)] == contract);
        }
    }
    assert forall|atom: u32| #[trigger] rescue.pair_atoms@.contains(atom) implies atom
        < atom_count by {
        assert(rescue.pair_atoms@[rescue.pair_atoms@.index_of(atom)] < atom_count);
    }
    assert forall|k: int| 0 <= k < rescue.shared_edges@.len() implies (
    #[trigger] rescue.shared_edges@[k]).0 != rescue.shared_edges@[k].1 by {
        assert(is_contract_edge(rescue.shared_edges@[k], view.contract_count()));
    }
}

} // verus!
