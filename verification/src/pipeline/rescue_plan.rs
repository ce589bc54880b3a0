//! Planning the rescue: all matches of the seeds.

use crate::columns;
use crate::pipeline::atoms;
use crate::pipeline::atoms::atom_contracts;
use crate::pipeline::catalog;
use crate::pipeline::error;
use crate::pipeline::error::{overflow_error, PipelineError};
use crate::pipeline::rescue_memory::{
    reserve_or_continue, rescue_final_match_bytes, RescueAdmission, MAX_RESCUE_GLOBAL_SORT_PAIRS,
    RESCUE_CHUNK_BYTES, RESCUE_MATCH_CHUNK_PAIRS, RESCUE_PAIR_BYTES, RESCUE_SCORE_TILE,
};
use crate::pipeline::rescue_scan;
use crate::pipeline::rescue_scan::{
    score_atom_tile, score_seed_tile, RescuePlan, RescueSeeds, RescueTile,
};
use crate::pipeline::rescue_store;
use crate::pipeline::rescue_store::{sort_pairs, RescueSpillWrite, RescueStore};
use crate::pipeline::shared;
use crate::pipeline::shared::SHARED_LOCAL_ROUTING_MIN_MEMBERS;
use crate::progress::{ProgressCounters, ProgressEvent, ProgressPhase, WorkUnit};
use crate::resource;
use crate::resource::{BrokerModel, MemoryBroker, MemoryError, MemoryLease};
use crate::snapshot::features::FeatureView;
use crate::text;
use crate::text::decimal;
use vstd::prelude::*;

verus! {

/// The matches of the first `count` seed atoms.
pub open spec fn atom_matches<F: Fn(u32, u32) -> bool>(
    view: FeatureView,
    scorer: F,
    mask: Seq<bool>,
    seeds: Seq<u32>,
    count: int,
) -> Seq<(u32, u32)>
    decreases count,
{
    if count <= 0 {
        Seq::empty()
    } else {
        atom_matches(view, scorer, mask, seeds, count - 1) + rescue_scan::atom_row(
            view,
            scorer,
            mask,
            seeds[count - 1],
            0,
            mask.len() as int,
        )
    }
}

/// The matches of the seeds among the first `count` members of a token.
pub open spec fn token_matches<F: Fn(u32, u32) -> bool>(
    view: FeatureView,
    scorer: F,
    mask: Seq<bool>,
    token: int,
    count: int,
) -> Seq<(u32, u32)>
    decreases count,
{
    if count <= 0 {
        Seq::empty()
    } else {
        let before = token_matches(view, scorer, mask, token, count - 1);
        if mask[shared::member_contract(view, token, count - 1) as int] {
            before + rescue_scan::seed_row(
                view,
                scorer,
                mask,
                token,
                count - 1,
                0,
                shared::group_len(view, token),
            )
        } else {
            before
        }
    }
}

/// The matches of the seeds of the first `count` tokens; only large tokens have seeds.
pub open spec fn shared_matches<F: Fn(u32, u32) -> bool>(
    view: FeatureView,
    scorer: F,
    mask: Seq<bool>,
    count: int,
) -> Seq<(u32, u32)>
    decreases count,
{
    if count <= 0 {
        Seq::empty()
    } else {
        let before = shared_matches(view, scorer, mask, count - 1);
        let members = shared::group_len(view, count - 1);
        if members >= SHARED_LOCAL_ROUTING_MIN_MEMBERS {
            before + token_matches(view, scorer, mask, count - 1, members)
        } else {
            before
        }
    }
}

/// Two parts of a row are the row.
proof fn lemma_atom_row_split<F: Fn(u32, u32) -> bool>(
    view: FeatureView,
    scorer: F,
    mask: Seq<bool>,
    left: u32,
    begin: int,
    middle: int,
    end: int,
)
    requires
        begin <= middle <= end,
    ensures
        rescue_scan::atom_row(view, scorer, mask, left, begin, end) == rescue_scan::atom_row(
            view,
            scorer,
            mask,
            left,
            begin,
            middle,
        ) + rescue_scan::atom_row(view, scorer, mask, left, middle, end),
    decreases end - middle,
{
    let first = rescue_scan::atom_row(view, scorer, mask, left, begin, middle);
    let second = rescue_scan::atom_row(view, scorer, mask, left, middle, end);
    if middle < end {
        lemma_atom_row_split(view, scorer, mask, left, begin, middle, end - 1);
    }
    assert(rescue_scan::atom_row(view, scorer, mask, left, begin, end) =~= first + second);
}

proof fn lemma_seed_row_split<F: Fn(u32, u32) -> bool>(
    view: FeatureView,
    scorer: F,
    mask: Seq<bool>,
    token: int,
    seed: int,
    begin: int,
    middle: int,
    end: int,
)
    requires
        begin <= middle <= end,
    ensures
        rescue_scan::seed_row(view, scorer, mask, token, seed, begin, end)
            == rescue_scan::seed_row(view, scorer, mask, token, seed, begin, middle)
            + rescue_scan::seed_row(view, scorer, mask, token, seed, middle, end),
    decreases end - middle,
{
    let first = rescue_scan::seed_row(view, scorer, mask, token, seed, begin, middle);
    let second = rescue_scan::seed_row(view, scorer, mask, token, seed, middle, end);
    if middle < end {
        lemma_seed_row_split(view, scorer, mask, token, seed, begin, middle, end - 1);
    }
    assert(rescue_scan::seed_row(view, scorer, mask, token, seed, begin, end) =~= first + second);
}

/// The pairs of contracts of two lists of pairs.
pub proof fn lemma_contract_pair_sum(view: FeatureView, a: Seq<(u32, u32)>, b: Seq<(u32, u32)>)
    ensures
        rescue_scan::contract_pair_sum(view, a + b) == rescue_scan::contract_pair_sum(view, a)
            + rescue_scan::contract_pair_sum(view, b),
    decreases b.len(),
{
    let all = a + b;
    if b.len() == 0 {
        assert(all =~= a);
    } else {
        lemma_contract_pair_sum(view, a, b.drop_last());
        assert(all.drop_last() =~= a + b.drop_last());
    }
}

/// What was spilled is what the store holds, once it spills.
pub open spec fn is_spill_of(spill: RescueSpillWrite, store: RescueStore) -> bool {
    if store.spilling {
        spill.atom@ == rescue_store::stored_pairs(store.all_atom_pairs()) && spill.shared@
            == rescue_store::stored_pairs(store.all_shared_edges())
    } else {
        spill.atom@.len() == 0 && spill.shared@.len() == 0
    }
}

/// The number of pairs that a store took in.
pub open spec fn stored_count(store: RescueStore) -> nat {
    store.all_atom_pairs().len() + store.all_shared_edges().len()
}

/// Every chunk took its bytes from the room, until they were refused and all were given back.
pub open spec fn is_admitted(
    store: RescueStore,
    refused: Option<MemoryError>,
    room: int,
    memory: MemoryBroker,
) -> bool {
    match refused {
        None => {
            &&& !store.spilling
            &&& store.leases@.len() <= stored_count(store)
        },
        Some(error) => {
            &&& store.spilling
            &&& room < stored_count(store) * RESCUE_CHUNK_BYTES
            &&& is_chunk_refusal(error, memory@.hard_top)
        },
    }
}

/// Beside the bytes of the chunks' leases the room is available.
pub open spec fn keeps_room(store: RescueStore, room: int, memory: MemoryBroker) -> bool {
    &&& memory@.wf()
    &&& store.holds_leases(memory)
    &&& memory@.available(None) == room - store.leases@.len() * RESCUE_CHUNK_BYTES
}

/// A chunk did not fit under the hard top.
pub open spec fn is_chunk_refusal(error: MemoryError, top: u64) -> bool {
    error matches MemoryError::Budget { requested, hard_top, .. } && requested == RESCUE_CHUNK_BYTES
        && hard_top == top
}

/// What is told of matches that are spilled.
pub open spec fn spill_advisory(error: MemoryError, directory: Seq<char>) -> Seq<char> {
    "metadata rescue matched-pair corpus exceeded the resident memory budget ("@ + error.text()
        + "); switching to bounded one-pass disk streaming in "@ + directory
}

/// What is told of matches that are too many to sort.
pub open spec fn bypass_advisory(raw: nat) -> Seq<char> {
    "metadata rescue produced "@ + text::decimal_text(raw)
        + " matched pairs; bypassing the O(N log N) global sort above "@ + text::decimal_text(
        MAX_RESCUE_GLOBAL_SORT_PAIRS as nat,
    ) + " pairs and consuming resident chunks directly"@
}

/// What is told of matches that could not be copied to be sorted.
pub open spec fn flatten_advisory(bytes: nat, error: MemoryError) -> Seq<char> {
    "metadata rescue flatten needs "@ + text::decimal_text(bytes)
        + " additional resident bytes but cannot be admitted ("@ + error.text()
        + "); retaining the already admitted chunks and streaming them directly without a global sort"@
}

/// The text was added, where there is one.
pub open spec fn advises(
    after: Seq<String>,
    before: Seq<String>,
    text: Option<Seq<char>>,
) -> bool {
    match text {
        None => after == before,
        Some(text) => after.len() == before.len() + 1 && after.drop_last() == before
            && after.last()@ == text,
    }
}

/// What is told of a plan.
pub open spec fn plan_advice(
    plan: RescueExecutionPlan,
    raw: nat,
    spilled: MemoryError,
    unsorted: MemoryError,
    directory: Seq<char>,
) -> Option<Seq<char>> {
    match plan.matches {
        RescueMatches::Sorted { .. } => None,
        RescueMatches::Spilled => Some(spill_advisory(spilled, directory)),
        RescueMatches::Chunks { .. } => Some(
            if raw > MAX_RESCUE_GLOBAL_SORT_PAIRS {
                bypass_advisory(raw)
            } else {
                flatten_advisory(raw * RESCUE_PAIR_BYTES as nat, unsorted)
            },
        ),
    }
}

/// Rescue scoring in progress.
pub struct RescueScoring {
    pub store: RescueStore,
    /// Why matches are spilled, where they are.
    pub refused: Option<MemoryError>,
    /// The bytes that could be reserved before anything was stored.
    pub room: Ghost<int>,
    /// The pairs of contracts of the matched atom pairs.
    pub expansion: u64,
    /// The number of matched atom pairs.
    pub atom_count: u64,
    /// The number of matched shared edges.
    pub shared_count: u64,
    pub completed: u64,
    pub total: u64,
}

/// The length, or the greatest number.
pub open spec fn counted(len: nat) -> u64 {
    if len < u64::MAX {
        len as u64
    } else {
        u64::MAX
    }
}

impl RescueScoring {
    pub open spec fn wf(self, view: FeatureView, memory: MemoryBroker) -> bool {
        &&& self.store.wf()
        &&& keeps_room(self.store, self.room@, memory)
        &&& is_admitted(self.store, self.refused, self.room@, memory)
        &&& self.expansion == rescue_scan::contract_pair_sum(view, self.store.all_atom_pairs())
        &&& self.atom_count == counted(self.store.all_atom_pairs().len())
        &&& self.shared_count == counted(self.store.all_shared_edges().len())
    }

    /// Nothing scored.
    pub fn new(total: u64, memory: &MemoryBroker) -> (scoring: RescueScoring)
        requires
            memory@.wf(),
        ensures
            forall|view: FeatureView| #[trigger] scoring.wf(view, *memory),
            scoring.room@ == memory@.available(None),
            scoring.store.all_atom_pairs().len() == 0,
            scoring.store.all_shared_edges().len() == 0,
            !scoring.store.spilling,
            scoring.total == total,
    {
        let scoring = RescueScoring {
            store: RescueStore::new(),
            refused: None,
            room: Ghost(memory@.available(None)),
            expansion: 0,
            atom_count: 0,
            shared_count: 0,
            completed: 0,
            total,
        };
        proof {
            assert forall|view: FeatureView| #[trigger] scoring.wf(view, *memory) by {
                assert(scoring.store.holds_leases(*memory));
            }
        }
        scoring
    }

    /// Stores the matches of a tile in chunks, and appends what is spilled.
    #[verifier::loop_isolation(false)]
    fn take_tile(
        &mut self,
        tile: RescueTile,
        shared: bool,
        memory: &mut MemoryBroker,
        spill: &mut RescueSpillWrite,
        reports: &mut Vec<ProgressEvent>,
        Ghost(view): Ghost<FeatureView>,
    ) -> (result: Result<(), PipelineError>)
        requires
            old(self).wf(view, *old(memory)),
            is_spill_of(*old(spill), old(self).store),
            tile.expansion_work == (if shared {
                0
            } else {
                rescue_scan::contract_pair_sum(view, tile.pairs@)
            }),
        ensures
            final(memory)@.hard_top == old(memory)@.hard_top,
            keeps_room(final(self).store, old(self).room@, *final(memory)),
            final(self).room == old(self).room,
            catalog::extends(final(reports)@, old(reports)@),
            final(self).total == old(self).total,
            match result {
                Ok(_) => {
                    &&& final(self).wf(view, *final(memory))
                    &&& is_spill_of(*final(spill), final(self).store)
                    &&& final(self).store.all_atom_pairs() == old(self).store.all_atom_pairs() + (
                    if shared {
                        Seq::empty()
                    } else {
                        tile.pairs@
                    })
                    &&& final(self).store.all_shared_edges() == old(self).store.all_shared_edges()
                        + (if shared {
                        tile.pairs@
                    } else {
                        Seq::empty()
                    })
                    &&& final(self).completed <= final(self).total
                },
                Err(e) => e@ == error::overflow_fault() && (old(self).expansion
                    + tile.expansion_work > u64::MAX || old(memory)@.hard_top + RESCUE_CHUNK_BYTES
                    > u64::MAX),
            },
    {
        let ghost told = reports@;
        let ghost first = *self;
        let ghost pairs = tile.pairs@;
        assert(reports@.take(told.len() as int) =~= told);
        let expansion: u64 = match self.expansion.checked_add(tile.expansion_work) {
            Some(sum) => sum,
            None => {
                return Err(overflow_error());
            },
        };
        let count: usize = tile.pairs.len();
        let mut begin: usize = 0;
        let ghost none = Seq::<(u32, u32)>::empty();
        proof {
            assert(pairs.take(0) =~= none);
            assert(first.store.all_atom_pairs() + none =~= first.store.all_atom_pairs());
            assert(first.store.all_shared_edges() + none =~= first.store.all_shared_edges());
        }
        while begin < count
            invariant
                begin <= count,
                keeps_room(self.store, self.room@, *memory),
                memory@.hard_top == old(memory)@.hard_top,
                self.store.wf(),
                is_spill_of(*spill, self.store),
                self.expansion == first.expansion,
                self.atom_count == first.atom_count,
                self.shared_count == first.shared_count,
                self.completed == first.completed,
                self.total == first.total,
                self.room == first.room,
                is_admitted(self.store, self.refused, self.room@, *memory),
                self.store.all_atom_pairs() == first.store.all_atom_pairs() + (if shared {
                    none
                } else {
                    pairs.take(begin as int)
                }),
                self.store.all_shared_edges() == first.store.all_shared_edges() + (if shared {
                    pairs.take(begin as int)
                } else {
                    none
                }),
            decreases count - begin,
        {
            let end: usize = if count - begin > RESCUE_MATCH_CHUNK_PAIRS {
                begin + RESCUE_MATCH_CHUNK_PAIRS
            } else {
                count
            };
            let chunk = copy_range(&tile.pairs, begin, end);
            let ghost before = self.store;
            let used: u64 = memory.used_bytes();
            let hard_top: u64 = memory.hard_top_bytes();
            let mut write = self.store.store(chunk, shared, memory)?;
            if self.refused.is_none() && self.store.spilling {
                self.refused = Some(
                    MemoryError::Budget { requested: RESCUE_CHUNK_BYTES, used, hard_top },
                );
            }
            proof {
                assert(pairs.take(begin as int) + pairs.subrange(begin as int, end as int)
                    =~= pairs.take(end as int));
                assert(none + none =~= none);
                let atom = if shared {
                    none
                } else {
                    chunk@
                };
                let edges = if shared {
                    chunk@
                } else {
                    none
                };
                rescue_store::lemma_stored_concat(before.all_atom_pairs(), atom);
                rescue_store::lemma_stored_concat(before.all_shared_edges(), edges);
                if before.spilling {
                    assert(spill.atom@ + write.atom@ == rescue_store::stored_pairs(
                        self.store.all_atom_pairs(),
                    ));
                    assert(spill.shared@ + write.shared@ == rescue_store::stored_pairs(
                        self.store.all_shared_edges(),
                    ));
                } else {
                    assert(spill.atom@ + write.atom@ =~= write.atom@);
                    assert(spill.shared@ + write.shared@ =~= write.shared@);
                }
                assert(self.store.all_atom_pairs() =~= first.store.all_atom_pairs() + (if shared {
                    none
                } else {
                    pairs.take(end as int)
                }));
                assert(self.store.all_shared_edges() =~= first.store.all_shared_edges() + (
                if shared {
                    pairs.take(end as int)
                } else {
                    none
                }));
            }
            spill.atom.append(&mut write.atom);
            spill.shared.append(&mut write.shared);
            begin = end;
        }
        proof {
            assert(pairs.take(begin as int) =~= pairs);
            lemma_contract_pair_sum(view, first.store.all_atom_pairs(), pairs);
        }
        self.expansion = expansion;
        if shared {
            self.shared_count = self.shared_count.saturating_add(count as u64);
        } else {
            self.atom_count = self.atom_count.saturating_add(count as u64);
        }
        let completed: u64 = self.completed.saturating_add(tile.work);
        self.completed = if completed < self.total {
            completed
        } else {
            self.total
        };
        self.report(reports);
        Ok(())
    }

    fn report(&self, reports: &mut Vec<ProgressEvent>)
        ensures
            catalog::extends(final(reports)@, old(reports)@),
            final(reports)@.len() == old(reports)@.len() + 1,
            final(reports)@.last().phase == ProgressPhase::PlanRescuePairs,
            final(reports)@.last().completed == self.completed,
            final(reports)@.last().total == Some(self.total),
    {
        let counters = ProgressCounters {
            candidates: 0,
            scored: self.completed,
            expanded: 0,
            matched: self.atom_count.saturating_add(self.shared_count),
            groups: 0,
        };
        reports.push(
            ProgressEvent::determinate(
                ProgressPhase::PlanRescuePairs,
                self.completed,
                self.total,
                WorkUnit::Pairs,
                counters,
            ),
        );
        assert(reports@.take(old(reports)@.len() as int) =~= old(reports)@);
    }
}

/// The pairs from `begin` up to `end`.
fn copy_range(pairs: &Vec<(u32, u32)>, begin: usize, end: usize) -> (chunk: Vec<(u32, u32)>)
    requires
        begin <= end <= pairs@.len(),
    ensures
        chunk@ == pairs@.subrange(begin as int, end as int),
{
    let mut chunk: Vec<(u32, u32)> = Vec::new();
    let mut i: usize = begin;
    while i < end
        invariant
            begin <= i <= end <= pairs@.len(),
            chunk@ == pairs@.subrange(begin as int, i as int),
        decreases end - i,
    {
        chunk.push(pairs[i]);
        assert(pairs@.subrange(begin as int, i + 1) =~= pairs@.subrange(
            begin as int,
            i as int,
        ).push(pairs@[i as int]));
        i = i + 1;
    }
    chunk
}

/// What planning a rescue needs of the features.
pub open spec fn is_rescuable(view: FeatureView) -> bool {
    &&& atoms::atoms_sorted(view)
    &&& shared::has_members(view)
}

/// All matches of the seeds have been stored.
pub open spec fn holds_matches<F: Fn(u32, u32) -> bool>(
    store: RescueStore,
    view: FeatureView,
    scorer: F,
    rescue: RescuePlan,
    seeds: RescueSeeds,
) -> bool {
    &&& store.all_atom_pairs() == atom_matches(
        view,
        scorer,
        seeds.atom_mask@,
        rescue.pair_atoms@,
        rescue.pair_atoms@.len() as int,
    )
    &&& store.all_shared_edges() == shared_matches(
        view,
        scorer,
        seeds.contract_mask@,
        view.token_member_offsets@.len() - 1,
    )
}

proof fn lemma_atom_matches_grow<F: Fn(u32, u32) -> bool>(
    view: FeatureView,
    scorer: F,
    mask: Seq<bool>,
    seeds: Seq<u32>,
    count: int,
    more: int,
)
    requires
        0 <= count <= more,
    ensures
        rescue_scan::contract_pair_sum(view, atom_matches(view, scorer, mask, seeds, count))
            <= rescue_scan::contract_pair_sum(
            view,
            atom_matches(view, scorer, mask, seeds, more),
        ),
    decreases more - count,
{
    if count < more {
        lemma_atom_matches_grow(view, scorer, mask, seeds, count, more - 1);
        lemma_contract_pair_sum(
            view,
            atom_matches(view, scorer, mask, seeds, more - 1),
            rescue_scan::atom_row(view, scorer, mask, seeds[more - 1], 0, mask.len() as int),
        );
    }
}

/// Scores the seed atoms against all atoms, tile by tile.
#[verifier::loop_isolation(false)]
#[verifier::rlimit(40)]
fn score_seed_atoms<F: Fn(u32, u32) -> bool>(
    features: &FeatureView,
    rescue: &RescuePlan,
    seeds: &RescueSeeds,
    cache_entries: usize,
    scorer: &F,
    scoring: &mut RescueScoring,
    memory: &mut MemoryBroker,
    spill: &mut RescueSpillWrite,
    reports: &mut Vec<ProgressEvent>,
) -> (result: Result<(), PipelineError>)
    requires
        is_rescuable(*features),
        rescue_scan::are_seeds(*seeds, *rescue, *features, atoms::atom_count(*features)),
        atoms::atom_count(*features) <= u32::MAX,
        shared::is_pair_scorer(*scorer),
        old(scoring).wf(*features, *old(memory)),
        is_spill_of(*old(spill), old(scoring).store),
        old(scoring).store.all_atom_pairs().len() == 0,
    ensures
        keeps_room(final(scoring).store, old(scoring).room@, *final(memory)),
        final(memory)@.hard_top == old(memory)@.hard_top,
        catalog::extends(final(reports)@, old(reports)@),
        final(scoring).total == old(scoring).total,
        ({
            let all = atom_matches(
                *features,
                *scorer,
                seeds.atom_mask@,
                rescue.pair_atoms@,
                rescue.pair_atoms@.len() as int,
            );
            match result {
                Ok(_) => {
                    &&& final(scoring).wf(*features, *final(memory))
                    &&& final(scoring).room == old(scoring).room
                    &&& is_spill_of(*final(spill), final(scoring).store)
                    &&& final(scoring).store.all_atom_pairs() == all
                    &&& final(scoring).store.all_shared_edges() == old(scoring).store.all_shared_edges()
                },
                Err(e) => e@ == error::overflow_fault() && (rescue_scan::contract_pair_sum(
                    *features,
                    all,
                ) > u64::MAX || old(memory)@.hard_top + RESCUE_CHUNK_BYTES > u64::MAX),
            }
        }),
{
    let ghost view = *features;
    let ghost mask = seeds.atom_mask@;
    let ghost atoms_all = rescue.pair_atoms@;
    let ghost n = atoms_all.len() as int;
    let ghost told = reports@;
    let ghost none = Seq::<(u32, u32)>::empty();
    let count: u32 = seeds.atom_mask.len() as u32;
    let mut s: usize = 0;
    proof {
        assert(reports@.take(told.len() as int) =~= told);
        assert(scoring.store.all_atom_pairs() =~= none);
        assert(old(scoring).store.all_shared_edges() + none
            =~= old(scoring).store.all_shared_edges());
    }
    while s < rescue.pair_atoms.len()
        invariant
            s <= rescue.pair_atoms@.len(),
            memory@.hard_top == old(memory)@.hard_top,
            scoring.total == old(scoring).total,
            catalog::extends(reports@, told),
            scoring.wf(view, *memory),
            scoring.room == old(scoring).room,
            is_spill_of(*spill, scoring.store),
            scoring.store.all_atom_pairs() == atom_matches(
                view,
                *scorer,
                mask,
                atoms_all,
                s as int,
            ),
            scoring.store.all_shared_edges() == old(scoring).store.all_shared_edges(),
        decreases rescue.pair_atoms.len() - s,
    {
        let left: u32 = rescue.pair_atoms[s];
        let ghost done = atom_matches(view, *scorer, mask, atoms_all, s as int);
        assert(atoms_all[s as int] < atoms::atom_count(view));
        let mut begin: u32 = 0;
        assert(done + rescue_scan::atom_row(view, *scorer, mask, left, 0, 0) =~= done);
        while begin < count
            invariant
                begin <= count,
                memory@.hard_top == old(memory)@.hard_top,
                scoring.total == old(scoring).total,
                catalog::extends(reports@, told),
                scoring.wf(view, *memory),
                scoring.room == old(scoring).room,
                is_spill_of(*spill, scoring.store),
                scoring.store.all_atom_pairs() == done + rescue_scan::atom_row(
                    view,
                    *scorer,
                    mask,
                    left,
                    0,
                    begin as int,
                ),
                scoring.store.all_shared_edges() == old(scoring).store.all_shared_edges(),
            decreases count - begin,
        {
            let end: u32 = if count - begin > RESCUE_SCORE_TILE as u32 {
                begin + RESCUE_SCORE_TILE as u32
            } else {
                count
            };
            let ghost row = rescue_scan::atom_row(view, *scorer, mask, left, 0, begin as int);
            let ghost part = rescue_scan::atom_row(
                view,
                *scorer,
                mask,
                left,
                begin as int,
                end as int,
            );
            let ghost middle = reports@;
            proof {
                lemma_atom_row_split(view, *scorer, mask, left, 0, begin as int, end as int);
                lemma_atom_row_split(view, *scorer, mask, left, 0, end as int, count as int);
                let rest = rescue_scan::atom_row(
                    view,
                    *scorer,
                    mask,
                    left,
                    end as int,
                    count as int,
                );
                lemma_contract_pair_sum(view, row + part, rest);
                lemma_contract_pair_sum(view, row, part);
                lemma_contract_pair_sum(view, done, row);
                lemma_contract_pair_sum(view, done, row + part + rest);
                lemma_atom_matches_grow(view, *scorer, mask, atoms_all, s + 1, n);
                assert(done + row + part =~= done + (row + part));
            }
            let tile = score_atom_tile(
                features,
                &seeds.atom_mask,
                left,
                begin,
                end,
                cache_entries,
                scorer,
            )?;
            let taken = scoring.take_tile(
                tile,
                false,
                memory,
                spill,
                reports,
                Ghost(view),
            );
            proof {
                catalog::lemma_extends(reports@, middle, told);
            }
            if let Err(error) = taken {
                return Err(error);
            }
            begin = end;
        }
        s = s + 1;
    }
    Ok(())
}

/// Scores the seed members of large tokens against all members, tile by tile.
#[verifier::loop_isolation(false)]
fn score_seed_members<F: Fn(u32, u32) -> bool>(
    features: &FeatureView,
    rescue: &RescuePlan,
    seeds: &RescueSeeds,
    cache_entries: usize,
    scorer: &F,
    scoring: &mut RescueScoring,
    memory: &mut MemoryBroker,
    spill: &mut RescueSpillWrite,
    reports: &mut Vec<ProgressEvent>,
) -> (result: Result<(), PipelineError>)
    requires
        is_rescuable(*features),
        rescue_scan::are_seeds(*seeds, *rescue, *features, atoms::atom_count(*features)),
        shared::is_pair_scorer(*scorer),
        old(scoring).wf(*features, *old(memory)),
        is_spill_of(*old(spill), old(scoring).store),
        old(scoring).store.all_shared_edges().len() == 0,
    ensures
        keeps_room(final(scoring).store, old(scoring).room@, *final(memory)),
        final(memory)@.hard_top == old(memory)@.hard_top,
        catalog::extends(final(reports)@, old(reports)@),
        final(scoring).total == old(scoring).total,
        match result {
            Ok(_) => {
                &&& final(scoring).wf(*features, *final(memory))
                &&& final(scoring).room == old(scoring).room
                &&& is_spill_of(*final(spill), final(scoring).store)
                &&& final(scoring).store.all_atom_pairs() == old(scoring).store.all_atom_pairs()
                &&& final(scoring).store.all_shared_edges() == shared_matches(
                    *features,
                    *scorer,
                    seeds.contract_mask@,
                    features.token_member_offsets@.len() - 1,
                )
            },
            Err(e) => e@ == error::overflow_fault() && old(memory)@.hard_top + RESCUE_CHUNK_BYTES
                > u64::MAX,
        },
{
    let ghost view = *features;
    let ghost mask = seeds.contract_mask@;
    let ghost told = reports@;
    let ghost none = Seq::<(u32, u32)>::empty();
    let tokens: usize = features.token_member_offsets.len() - 1;
    let stored: usize = features.token_member_contracts.len();
    let mut token: usize = 0;
    proof {
        assert(reports@.take(told.len() as int) =~= told);
        assert(scoring.store.all_shared_edges() =~= none);
        assert(old(scoring).store.all_atom_pairs() + none =~= old(scoring).store.all_atom_pairs());
    }
    while token < tokens
        invariant
            token <= tokens,
            memory@.hard_top == old(memory)@.hard_top,
            scoring.total == old(scoring).total,
            catalog::extends(reports@, told),
            scoring.wf(view, *memory),
            scoring.room == old(scoring).room,
            is_spill_of(*spill, scoring.store),
            scoring.store.all_atom_pairs() == old(scoring).store.all_atom_pairs(),
            scoring.store.all_shared_edges() == shared_matches(view, *scorer, mask, token as int),
        decreases tokens - token,
    {
        let ghost t = token as int;
        let ghost before = shared_matches(view, *scorer, mask, t);
        proof {
            columns::lemma_row_bounds(
                view.token_member_offsets@,
                view.token_member_contracts@.len(),
                t,
            );
        }
        let base: usize = features.token_member_offsets[token] as usize;
        let members: usize = features.token_member_offsets[token + 1] as usize - base;
        if members >= SHARED_LOCAL_ROUTING_MIN_MEMBERS {
            let mut seed: usize = 0;
            assert(before + token_matches(view, *scorer, mask, t, 0) =~= before);
            while seed < members
                invariant
                    seed <= members,
                    memory@.hard_top == old(memory)@.hard_top,
                    scoring.total == old(scoring).total,
                    catalog::extends(reports@, told),
                    scoring.wf(view, *memory),
                    scoring.room == old(scoring).room,
                    is_spill_of(*spill, scoring.store),
                    scoring.store.all_atom_pairs() == old(scoring).store.all_atom_pairs(),
                    scoring.store.all_shared_edges() == before + token_matches(
                        view,
                        *scorer,
                        mask,
                        t,
                        seed as int,
                    ),
                decreases members - seed,
            {
                assert(view.token_member_contracts@[base + seed] < view.contract_count());
                let ghost done = before + token_matches(view, *scorer, mask, t, seed as int);
                if seeds.contract_mask[features.token_member_contracts[base + seed] as usize] {
                    let mut begin: usize = 0;
                    assert(done + rescue_scan::seed_row(
                        view,
                        *scorer,
                        mask,
                        t,
                        seed as int,
                        0,
                        0,
                    ) =~= done);
                    while begin < members
                        invariant
                            begin <= members,
                            memory@.hard_top == old(memory)@.hard_top,
                            scoring.total == old(scoring).total,
                            catalog::extends(reports@, told),
                            scoring.wf(view, *memory),
                            scoring.room == old(scoring).room,
                            is_spill_of(*spill, scoring.store),
                            scoring.store.all_atom_pairs() == old(scoring).store.all_atom_pairs(),
                            scoring.store.all_shared_edges() == done + rescue_scan::seed_row(
                                view,
                                *scorer,
                                mask,
                                t,
                                seed as int,
                                0,
                                begin as int,
                            ),
                        decreases members - begin,
                    {
                        let end: usize = if members - begin > RESCUE_SCORE_TILE {
                            begin + RESCUE_SCORE_TILE
                        } else {
                            members
                        };
                        let ghost middle = reports@;
                        let ghost row = rescue_scan::seed_row(
                            view,
                            *scorer,
                            mask,
                            t,
                            seed as int,
                            0,
                            begin as int,
                        );
                        let ghost part = rescue_scan::seed_row(
                            view,
                            *scorer,
                            mask,
                            t,
                            seed as int,
                            begin as int,
                            end as int,
                        );
                        proof {
                            lemma_seed_row_split(
                                view,
                                *scorer,
                                mask,
                                t,
                                seed as int,
                                0,
                                begin as int,
                                end as int,
                            );
                            assert(done + row + part =~= done + (row + part));
                        }
                        let tile = score_seed_tile(
                            features,
                            &seeds.contract_mask,
                            token,
                            seed,
                            begin,
                            end,
                            cache_entries,
                            scorer,
                        );
                        let taken = scoring.take_tile(
                            tile,
                            true,
                            memory,
                            spill,
                            reports,
                            Ghost(view),
                        );
                        proof {
                            catalog::lemma_extends(reports@, middle, told);
                        }
                        if let Err(error) = taken {
                            return Err(error);
                        }
                        begin = end;
                    }
                    proof {
                        assert(done + rescue_scan::seed_row(
                            view,
                            *scorer,
                            mask,
                            t,
                            seed as int,
                            0,
                            members as int,
                        ) =~= before + token_matches(view, *scorer, mask, t, seed + 1));
                    }
                }
                seed = seed + 1;
            }
        }
        token = token + 1;
    }
    Ok(())
}

/// Where the matches of a rescue plan are.
pub enum RescueMatches {
    /// All matches, each once and in order.
    Sorted { atom_pairs: Vec<(u32, u32)>, shared_edges: Vec<(u32, u32)> },
    /// Matches in chunks, beside the edges that need no scoring.
    Chunks { atom: Vec<Vec<(u32, u32)>>, shared: Vec<Vec<(u32, u32)>> },
    /// Spilled matches, beside the edges that need no scoring.
    Spilled,
}

/// A planned rescue.
pub struct RescueExecutionPlan {
    pub atom_score_visits: u64,
    pub contract_expansion_visits: u64,
    pub shared_score_visits: u64,
    pub matches: RescueMatches,
    pub matched_shared_edge_count: u64,
    pub stream_buffer_bytes: u64,
}

impl RescueExecutionPlan {
    /// All pairs that the rescue visits.
    pub fn total_visits(&self) -> (visits: u64)
        ensures
            visits == (if self.atom_score_visits + self.shared_score_visits
                + self.contract_expansion_visits + self.matched_shared_edge_count <= u64::MAX {
                (self.atom_score_visits + self.shared_score_visits + self.contract_expansion_visits
                    + self.matched_shared_edge_count) as u64
            } else {
                u64::MAX
            }),
    {
        self.atom_score_visits.saturating_add(self.shared_score_visits).saturating_add(
            self.contract_expansion_visits,
        ).saturating_add(self.matched_shared_edge_count)
    }

    /// The pairs that remain to be visited, at most `u64::MAX`.
    pub open spec fn work(self) -> u64 {
        if self.contract_expansion_visits + self.matched_shared_edge_count <= u64::MAX {
            (self.contract_expansion_visits + self.matched_shared_edge_count) as u64
        } else {
            u64::MAX
        }
    }

    /// The pairs that remain to be visited.
    pub fn execution_work(&self) -> (work: u64)
        ensures
            work == self.work(),
    {
        self.contract_expansion_visits.saturating_add(self.matched_shared_edge_count)
    }
}

/// The number of matches with the edges that need no scoring.
pub open spec fn raw_matches(store: RescueStore, rescue: RescuePlan) -> nat {
    store.all_atom_pairs().len() + store.all_shared_edges().len() + rescue.shared_edges@.len()
}

/// The plan holds the stored matches: spilled where the store spills, in chunks where they are
/// too many to sort or `admitted` is false, and else sorted.
pub open spec fn is_plan_of(
    plan: RescueExecutionPlan,
    store: RescueStore,
    rescue: RescuePlan,
    view: FeatureView,
    admitted: bool,
) -> bool {
    let atoms = store.all_atom_pairs();
    let edges = store.all_shared_edges();
    let raw = raw_matches(store, rescue);
    match plan.matches {
        RescueMatches::Spilled => {
            &&& store.spilling
            &&& plan.contract_expansion_visits == rescue_scan::contract_pair_sum(view, atoms)
            &&& plan.matched_shared_edge_count == rescue.shared_edges@.len() + edges.len()
        },
        RescueMatches::Chunks { atom, shared } => {
            &&& !store.spilling
            &&& raw > MAX_RESCUE_GLOBAL_SORT_PAIRS || !admitted
            &&& rescue_store::flat(atom@) == atoms
            &&& if raw > MAX_RESCUE_GLOBAL_SORT_PAIRS {
                shared@.len() == store.shared_chunks@.len() && forall|k: int|
                    0 <= k < shared@.len() ==> rescue_store::is_ordered_set(
                        store.shared_chunks@[k]@,
                        #[trigger] shared@[k]@,
                    )
            } else {
                rescue_store::flat(shared@) == edges
            }
            &&& plan.contract_expansion_visits == rescue_scan::contract_pair_sum(view, atoms)
            &&& plan.matched_shared_edge_count == rescue.shared_edges@.len()
                + rescue_store::flat(shared@).len()
        },
        RescueMatches::Sorted { atom_pairs, shared_edges } => {
            &&& !store.spilling
            &&& raw <= MAX_RESCUE_GLOBAL_SORT_PAIRS && admitted
            &&& rescue_store::is_ordered_set(atoms, atom_pairs@)
            &&& rescue_store::is_ordered_set(rescue.shared_edges@ + edges, shared_edges@)
            &&& plan.contract_expansion_visits == rescue_scan::contract_pair_sum(
                view,
                atom_pairs@,
            )
            &&& plan.matched_shared_edge_count == shared_edges@.len()
        },
    }
}

/// What a plan keeps reserved of the room: the bytes of sorted matches, those of every chunk, or
/// none. The rest is available.
pub open spec fn keeps_plan(
    plan: RescueExecutionPlan,
    leases: Seq<MemoryLease>,
    raw: nat,
    room: int,
    memory: BrokerModel,
) -> bool {
    match plan.matches {
        RescueMatches::Spilled => leases.len() == 0 && memory.available(None) == room,
        RescueMatches::Chunks { atom, shared } => {
            &&& leases.len() == atom@.len() + shared@.len()
            &&& resource::hold_each(leases, memory, RESCUE_CHUNK_BYTES)
            &&& memory.available(None) == room - leases.len() * RESCUE_CHUNK_BYTES
        },
        RescueMatches::Sorted { .. } => {
            &&& leases.len() == 1
            &&& raw * RESCUE_PAIR_BYTES <= u64::MAX
            &&& resource::hold_each(leases, memory, (raw * RESCUE_PAIR_BYTES) as u64)
            &&& memory.available(None) == room - raw * RESCUE_PAIR_BYTES
        },
    }
}

proof fn lemma_sum_without(view: FeatureView, pairs: Seq<(u32, u32)>, i: int)
    requires
        0 <= i < pairs.len(),
    ensures
        rescue_scan::contract_pair_sum(view, pairs) == rescue_scan::contract_pair_sum(
            view,
            pairs.remove(i),
        ) + rescue_scan::contract_pairs(view, pairs[i]),
{
    let head = pairs.take(i);
    let tail = pairs.skip(i + 1);
    let one = seq![pairs[i]];
    assert(pairs =~= head + (one + tail));
    assert(pairs.remove(i) =~= head + tail);
    lemma_contract_pair_sum(view, head, one + tail);
    lemma_contract_pair_sum(view, one, tail);
    lemma_contract_pair_sum(view, head, tail);
    assert(one.drop_last() =~= Seq::<(u32, u32)>::empty());
    assert(rescue_scan::contract_pair_sum(view, Seq::empty()) == 0);
    assert(rescue_scan::contract_pair_sum(view, one) == rescue_scan::contract_pairs(
        view,
        pairs[i],
    ));
}

/// Distinct pairs among others have no more pairs of contracts than those.
proof fn lemma_distinct_sum(view: FeatureView, some: Seq<(u32, u32)>, all: Seq<(u32, u32)>)
    requires
        forall|i: int, j: int|
            0 <= i < j < some.len() ==> #[trigger] some[i] != #[trigger] some[j],
        forall|i: int| 0 <= i < some.len() ==> all.contains(#[trigger] some[i]),
    ensures
        rescue_scan::contract_pair_sum(view, some) <= rescue_scan::contract_pair_sum(view, all),
    decreases some.len(),
{
    if some.len() > 0 {
        let last = some.last();
        let rest = some.drop_last();
        assert(some[some.len() - 1] == last);
        let at = all.index_of(last);
        let fewer = all.remove(at);
        lemma_sum_without(view, all, at);
        assert forall|i: int| 0 <= i < rest.len() implies fewer.contains(#[trigger] rest[i]) by {
            assert(rest[i] == some[i]);
            let k = all.index_of(some[i]);
            if k < at {
                assert(fewer[k] == some[i]);
            } else {
                assert(fewer[k - 1] == some[i]);
            }
        }
        assert forall|i: int, j: int| 0 <= i < j < rest.len() implies #[trigger] rest[i]
            != #[trigger] rest[j] by {
            assert(some[i] != some[j]);
        }
        lemma_distinct_sum(view, rest, fewer);
    }
}

/// A report on finalizing a rescue plan.
fn report_finalize(completed: u64, matched: u64, reports: &mut Vec<ProgressEvent>)
    ensures
        catalog::extends(final(reports)@, old(reports)@),
        final(reports)@.len() == old(reports)@.len() + 1,
        final(reports)@.last().phase == ProgressPhase::FinalizeRescuePlan,
        final(reports)@.last().completed == completed,
        final(reports)@.last().total is None,
        final(reports)@.last().counters.matched == matched,
{
    let counters = ProgressCounters { candidates: 0, scored: 0, expanded: 0, matched, groups: 0 };
    reports.push(
        ProgressEvent::indeterminate(
            ProgressPhase::FinalizeRescuePlan,
            completed,
            WorkUnit::Items,
            counters,
        ),
    );
    assert(reports@.take(old(reports)@.len() as int) =~= old(reports)@);
}

/// All pairs of chunks, one after the other.
fn flatten(mut first: Vec<(u32, u32)>, chunks: &Vec<Vec<(u32, u32)>>) -> (all: Vec<(u32, u32)>)
    ensures
        all@ == first@ + rescue_store::flat(chunks@),
{
    let ghost before = first@;
    let mut i: usize = 0;
    assert(chunks@.take(0) =~= Seq::<Vec<(u32, u32)>>::empty());
    assert(first@ =~= before + rescue_store::flat(chunks@.take(0)));
    while i < chunks.len()
        invariant
            i <= chunks@.len(),
            first@ == before + rescue_store::flat(chunks@.take(i as int)),
        decreases chunks.len() - i,
    {
        let ghost done = first@;
        let mut k: usize = 0;
        assert(done + chunks@[i as int]@.take(0) =~= done);
        while k < chunks[i].len()
            invariant
                i < chunks@.len(),
                k <= chunks@[i as int]@.len(),
                first@ == done + chunks@[i as int]@.take(k as int),
            decreases chunks@[i as int]@.len() - k,
        {
            first.push(chunks[i][k]);
            assert(first@ =~= done + chunks@[i as int]@.take(k + 1));
            k = k + 1;
        }
        proof {
            assert(chunks@[i as int]@.take(k as int) =~= chunks@[i as int]@);
            assert(chunks@.take(i + 1).drop_last() =~= chunks@.take(i as int));
            assert(first@ =~= before + rescue_store::flat(chunks@.take(i + 1)));
        }
        i = i + 1;
    }
    assert(chunks@.take(i as int) =~= chunks@);
    first
}

/// The pairs of contracts of the pairs of atoms.
fn sum_contract_pairs(features: &FeatureView, pairs: &Vec<(u32, u32)>) -> (sum: u64)
    requires
        atoms::atoms_sorted(*features),
        forall|k: int|
            0 <= k < pairs@.len() ==> (#[trigger] pairs@[k]).0 < atoms::atom_count(*features)
                && pairs@[k].1 < atoms::atom_count(*features),
        rescue_scan::contract_pair_sum(*features, pairs@) <= u64::MAX,
    ensures
        sum == rescue_scan::contract_pair_sum(*features, pairs@),
{
    let mut sum: u64 = 0;
    let mut i: usize = 0;
    assert(pairs@.take(0) =~= Seq::<(u32, u32)>::empty());
    while i < pairs.len()
        invariant
            i <= pairs@.len(),
            atoms::atoms_sorted(*features),
            forall|k: int|
                0 <= k < pairs@.len() ==> (#[trigger] pairs@[k]).0 < atoms::atom_count(*features)
                    && pairs@[k].1 < atoms::atom_count(*features),
            rescue_scan::contract_pair_sum(*features, pairs@) <= u64::MAX,
            sum == rescue_scan::contract_pair_sum(*features, pairs@.take(i as int)),
        decreases pairs.len() - i,
    {
        let (left, right) = pairs[i];
        assert(pairs@[i as int] == (left, right));
        let a: usize = atom_contracts(features, left).len();
        let b: usize = atom_contracts(features, right).len();
        proof {
            catalog::lemma_product_fits(a as nat, b as nat);
            assert(pairs@.take(i + 1).drop_last() =~= pairs@.take(i as int));
            assert(pairs@ =~= pairs@.take(i + 1) + pairs@.skip(i + 1));
            lemma_contract_pair_sum(*features, pairs@.take(i + 1), pairs@.skip(i + 1));
        }
        sum = sum + a as u64 * b as u64;
        i = i + 1;
    }
    assert(pairs@.take(i as int) =~= pairs@);
    sum
}

/// Each chunk's distinct pairs in order.
fn sort_chunks(chunks: &Vec<Vec<(u32, u32)>>) -> (sorted: Vec<Vec<(u32, u32)>>)
    ensures
        sorted@.len() == chunks@.len(),
        forall|k: int|
            0 <= k < sorted@.len() ==> rescue_store::is_ordered_set(
                chunks@[k]@,
                #[trigger] sorted@[k]@,
            ),
        rescue_store::flat(sorted@).len() <= rescue_store::flat(chunks@).len(),
{
    let mut sorted: Vec<Vec<(u32, u32)>> = Vec::new();
    let mut i: usize = 0;
    assert(chunks@.take(0) =~= Seq::<Vec<(u32, u32)>>::empty());
    while i < chunks.len()
        invariant
            i <= chunks@.len(),
            sorted@.len() == i,
            forall|k: int|
                0 <= k < sorted@.len() ==> rescue_store::is_ordered_set(
                    chunks@[k]@,
                    #[trigger] sorted@[k]@,
                ),
            rescue_store::flat(sorted@).len() <= rescue_store::flat(chunks@.take(i as int)).len(),
        decreases chunks.len() - i,
    {
        let ghost before = sorted@;
        sorted.push(sort_pairs(&chunks[i]));
        assert(sorted@.drop_last() =~= before);
        assert(chunks@.take(i + 1).drop_last() =~= chunks@.take(i as int));
        i = i + 1;
    }
    assert(chunks@.take(i as int) =~= chunks@);
    sorted
}

/// The number of pairs of chunks.
fn count_chunks(chunks: &Vec<Vec<(u32, u32)>>) -> (count: u64)
    requires
        rescue_store::flat(chunks@).len() <= u64::MAX,
    ensures
        count == rescue_store::flat(chunks@).len(),
{
    let mut count: u64 = 0;
    let mut i: usize = 0;
    assert(chunks@.take(0) =~= Seq::<Vec<(u32, u32)>>::empty());
    while i < chunks.len()
        invariant
            i <= chunks@.len(),
            rescue_store::flat(chunks@).len() <= u64::MAX,
            count == rescue_store::flat(chunks@.take(i as int)).len(),
        decreases chunks.len() - i,
    {
        proof {
            assert(chunks@.take(i + 1).drop_last() =~= chunks@.take(i as int));
            lemma_flat_grows(chunks@, i + 1);
        }
        count = count + chunks[i].len() as u64;
        i = i + 1;
    }
    assert(chunks@.take(i as int) =~= chunks@);
    count
}

proof fn lemma_flat_grows(chunks: Seq<Vec<(u32, u32)>>, count: int)
    requires
        0 <= count <= chunks.len(),
    ensures
        rescue_store::flat(chunks.take(count)).len() <= rescue_store::flat(chunks).len(),
    decreases chunks.len() - count,
{
    if count < chunks.len() {
        assert(chunks.take(count + 1).drop_last() =~= chunks.take(count));
        lemma_flat_grows(chunks, count + 1);
    } else {
        assert(chunks.take(count) =~= chunks);
    }
}

/// Turns stored matches into a plan, sorted where that can be admitted. Returns it with the leases
/// of what it holds.
#[verifier::loop_isolation(false)]
#[verifier::rlimit(30)]
pub fn finish_rescue(
    features: &FeatureView,
    rescue: &RescuePlan,
    seeds: &RescueSeeds,
    scoring: RescueScoring,
    stream_buffer_bytes: u64,
    memory: &mut MemoryBroker,
    advisories: &mut Vec<String>,
    reports: &mut Vec<ProgressEvent>,
) -> (result: Result<(RescueExecutionPlan, Vec<MemoryLease>), PipelineError>)
    requires
        atoms::atoms_sorted(*features),
        scoring.wf(*features, *old(memory)),
        forall|k: int|
            0 <= k < scoring.store.all_atom_pairs().len() ==> (
            #[trigger] scoring.store.all_atom_pairs()[k]).0 < atoms::atom_count(*features)
                && scoring.store.all_atom_pairs()[k].1 < atoms::atom_count(*features),
    ensures
        final(memory)@.wf(),
        catalog::extends(final(reports)@, old(reports)@),
        ({
            let raw = raw_matches(scoring.store, *rescue);
            let bytes = raw * RESCUE_PAIR_BYTES;
            let sorts = !scoring.store.spilling && raw <= MAX_RESCUE_GLOBAL_SORT_PAIRS;
            if raw > u64::MAX || scoring.store.all_atom_pairs().len() >= u64::MAX
                || scoring.store.all_shared_edges().len() >= u64::MAX || (sorts && old(memory)@.used + bytes > u64::MAX) {
                (result matches Err(e) && e@ == error::overflow_fault()) && final(memory)@.available(None) == scoring.room@
            } else {
                &&& result is Ok
                &&& (result matches Ok((plan, leases)) ==> {
                    &&& keeps_plan(plan, leases@, raw, scoring.room@, final(memory)@)
                    &&& is_plan_of(
                        plan,
                        scoring.store,
                        *rescue,
                        *features,
                        bytes <= old(memory)@.available(None),
                    )
                    &&& advises(
                        final(advisories)@,
                        old(advisories)@,
                        if plan.matches is Spilled {
                            None
                        } else {
                            plan_advice(
                                plan,
                                raw,
                                MemoryError::Overflow,
                                MemoryError::Budget {
                                    requested: bytes as u64,
                                    used: old(memory)@.used,
                                    hard_top: old(memory)@.hard_top,
                                },
                                Seq::empty(),
                            )
                        },
                    )
                    &&& plan.atom_score_visits == seeds.atom_score_visits
                    &&& plan.shared_score_visits == seeds.shared_score_visits
                    &&& plan.stream_buffer_bytes == (if plan.matches is Sorted {
                        0
                    } else {
                        stream_buffer_bytes
                    })
                    &&& final(reports)@.last().phase == ProgressPhase::FinalizeRescuePlan
                    &&& final(reports)@.last().total is None
                })
            }
        }),
{
    let ghost view = *features;
    let ghost told = reports@;
    let ghost store = scoring.store;
    let ghost atoms_all = store.all_atom_pairs();
    let ghost edges_all = store.all_shared_edges();
    let base: u64 = rescue.shared_edges.len() as u64;
    let RescueScoring { store: kept, expansion, atom_count, shared_count, .. } = scoring;
    let RescueStore { atom_chunks, shared_chunks, spilling, leases, .. } = kept;
    let ghost held = leases@;
    let ghost start = memory@;
    proof {
        assert(reports@.take(told.len() as int) =~= told);
        resource::lemma_held_bytes(held, start, RESCUE_CHUNK_BYTES);
    }
    if atom_count == u64::MAX || shared_count == u64::MAX {
        resource::release_all(leases, memory);
        return Err(overflow_error());
    }
    let raw: u64 = match atom_count.checked_add(shared_count) {
        None => {
            resource::release_all(leases, memory);
            return Err(overflow_error());
        },
        Some(sum) => match sum.checked_add(base) {
            None => {
                resource::release_all(leases, memory);
                return Err(overflow_error());
            },
            Some(raw) => raw,
        },
    };
    report_finalize(0, raw, reports);
    let ghost told_first = reports@;
    if spilling {
        report_finalize(raw, raw, reports);
        proof {
            catalog::lemma_extends(reports@, told_first, told);
        }
        return Ok(
            (
                RescueExecutionPlan {
                    atom_score_visits: seeds.atom_score_visits,
                    contract_expansion_visits: expansion,
                    shared_score_visits: seeds.shared_score_visits,
                    matches: RescueMatches::Spilled,
                    matched_shared_edge_count: base + shared_count,
                    stream_buffer_bytes,
                },
                leases,
            ),
        );
    }
    if raw > MAX_RESCUE_GLOBAL_SORT_PAIRS {
        advisories.push(
            "metadata rescue produced ".to_owned().concat(decimal(raw).as_str()).concat(
                " matched pairs; bypassing the O(N log N) global sort above ",
            ).concat(decimal(MAX_RESCUE_GLOBAL_SORT_PAIRS).as_str()).concat(
                " pairs and consuming resident chunks directly",
            ),
        );
        assert(advisories@.drop_last() =~= old(advisories)@);
        let sorted = sort_chunks(&shared_chunks);
        let count: u64 = base + count_chunks(&sorted);
        report_finalize(atom_count + count, atom_count + count, reports);
        proof {
            catalog::lemma_extends(reports@, told_first, told);
        }
        return Ok(
            (
                RescueExecutionPlan {
                    atom_score_visits: seeds.atom_score_visits,
                    contract_expansion_visits: expansion,
                    shared_score_visits: seeds.shared_score_visits,
                    matches: RescueMatches::Chunks { atom: atom_chunks, shared: sorted },
                    matched_shared_edge_count: count,
                    stream_buffer_bytes,
                },
                leases,
            ),
        );
    }
    let bytes: u64 = match rescue_final_match_bytes(atom_count, base + shared_count) {
        Ok(bytes) => bytes,
        Err(error) => {
            resource::release_all(leases, memory);
            return Err(PipelineError::Memory(error));
        },
    };
    let used: u64 = memory.used_bytes();
    let hard_top: u64 = memory.hard_top_bytes();
    let admitted = match reserve_or_continue(memory, bytes) {
        Ok(admitted) => admitted,
        Err(error) => {
            resource::release_all(leases, memory);
            return Err(error);
        },
    };
    let lease: MemoryLease = match admitted {
        Some(lease) => lease,
        None => {
            let error = MemoryError::Budget { requested: bytes, used, hard_top };
            advisories.push(
                "metadata rescue flatten needs ".to_owned().concat(decimal(bytes).as_str()).concat(
                    " additional resident bytes but cannot be admitted (",
                ).concat(error.message().as_str()).concat(
                    "); retaining the already admitted chunks and streaming them directly without a global sort",
                ),
            );
            assert(advisories@.drop_last() =~= old(advisories)@);
            report_finalize(raw, raw, reports);
            proof {
                catalog::lemma_extends(reports@, told_first, told);
            }
            return Ok(
                (
                    RescueExecutionPlan {
                        atom_score_visits: seeds.atom_score_visits,
                        contract_expansion_visits: expansion,
                        shared_score_visits: seeds.shared_score_visits,
                        matches: RescueMatches::Chunks {
                            atom: atom_chunks,
                            shared: shared_chunks,
                        },
                        matched_shared_edge_count: base + shared_count,
                        stream_buffer_bytes,
                    },
                    leases,
                ),
            );
        },
    };
    let flat_atoms = flatten(Vec::new(), &atom_chunks);
    let flat_edges = flatten(
        copy_range(&rescue.shared_edges, 0, rescue.shared_edges.len()),
        &shared_chunks,
    );
    let ghost reserved = memory@;
    proof {
        resource::lemma_lease_takes(start, bytes);
        resource::lemma_reserve_keeps(held, start, bytes, RESCUE_CHUNK_BYTES);
        resource::lemma_held_bytes(held, reserved, RESCUE_CHUNK_BYTES);
    }
    resource::release_all(leases, memory);
    let mut copy_lease: Vec<MemoryLease> = Vec::new();
    copy_lease.push(lease);
    proof {
        assert(memory@.slots[start.slots.len() as int] == reserved.slots[start.slots.len() as int]);
        assert(copy_lease@[0] == lease);
        assert(resource::hold_each(copy_lease@, memory@, bytes));

        assert(flat_atoms@ =~= atoms_all);
        assert(rescue.shared_edges@.subrange(0, rescue.shared_edges@.len() as int)
            =~= rescue.shared_edges@);
    }
    let atom_pairs = sort_pairs(&flat_atoms);
    let shared_edges = sort_pairs(&flat_edges);
    proof {
        assert forall|k: int| 0 <= k < atom_pairs@.len() implies atoms_all.contains(
            #[trigger] atom_pairs@[k],
        ) && atom_pairs@[k].0 < atoms::atom_count(view) && atom_pairs@[k].1 < atoms::atom_count(
            view,
        ) by {
            assert(atom_pairs@.contains(atom_pairs@[k]));
            let at = atoms_all.index_of(atom_pairs@[k]);
            assert(atoms_all[at] == atom_pairs@[k]);
        }
        assert forall|i: int, j: int| 0 <= i < j < atom_pairs@.len() implies
            #[trigger] atom_pairs@[i] != #[trigger] atom_pairs@[j] by {
            assert(rescue_store::pair_precedes(atom_pairs@[i], atom_pairs@[j]));
        }
        lemma_distinct_sum(view, atom_pairs@, atoms_all);
    }
    let finalized: u64 = atom_pairs.len() as u64 + shared_edges.len() as u64;
    report_finalize(finalized, finalized, reports);
    let ghost told_second = reports@;
    let visits: u64 = sum_contract_pairs(features, &atom_pairs);
    report_finalize(
        finalized.saturating_add(atom_pairs.len() as u64),
        finalized,
        reports,
    );
    proof {
        catalog::lemma_extends(told_second, told_first, told);
        catalog::lemma_extends(reports@, told_second, told);
    }
    let count: u64 = shared_edges.len() as u64;
    Ok(
        (
            RescueExecutionPlan {
                atom_score_visits: seeds.atom_score_visits,
                contract_expansion_visits: visits,
                shared_score_visits: seeds.shared_score_visits,
                matches: RescueMatches::Sorted { atom_pairs, shared_edges },
                matched_shared_edge_count: count,
                stream_buffer_bytes: 0,
            },
            copy_lease,
        ),
    )
}

/// Every matched atom pair is a pair of atoms.
proof fn lemma_atom_matches_known<F: Fn(u32, u32) -> bool>(
    view: FeatureView,
    scorer: F,
    mask: Seq<bool>,
    seeds: Seq<u32>,
    count: int,
    k: int,
)
    requires
        0 <= count <= seeds.len(),
        columns::all_below(seeds, mask.len() as int),
        mask.len() <= u32::MAX,
        0 <= k < atom_matches(view, scorer, mask, seeds, count).len(),
    ensures
        atom_matches(view, scorer, mask, seeds, count)[k].0 < mask.len(),
        atom_matches(view, scorer, mask, seeds, count)[k].1 < mask.len(),
    decreases count,
{
    let before = atom_matches(view, scorer, mask, seeds, count - 1);
    if k < before.len() {
        lemma_atom_matches_known(view, scorer, mask, seeds, count - 1, k);
    } else {
        assert(seeds[count - 1] < mask.len());
        lemma_atom_row_known(
            view,
            scorer,
            mask,
            seeds[count - 1],
            0,
            mask.len() as int,
            k - before.len(),
        );
    }
}

proof fn lemma_atom_row_known<F: Fn(u32, u32) -> bool>(
    view: FeatureView,
    scorer: F,
    mask: Seq<bool>,
    left: u32,
    begin: int,
    end: int,
    k: int,
)
    requires
        0 <= begin,
        end <= u32::MAX,
        0 <= k < rescue_scan::atom_row(view, scorer, mask, left, begin, end).len(),
    ensures
        rescue_scan::atom_row(view, scorer, mask, left, begin, end)[k].0 == left,
        rescue_scan::atom_row(view, scorer, mask, left, begin, end)[k].1 < end,
    decreases end - begin,
{
    let before = rescue_scan::atom_row(view, scorer, mask, left, begin, end - 1);
    if k < before.len() {
        lemma_atom_row_known(view, scorer, mask, left, begin, end - 1, k);
    }
}

/// Plans a rescue: scores all seeds, and keeps the matches where they fit. What does not fit is
/// appended to `spill`, for files in `spill_directory`. Says in `advisories` where matches are
/// not sorted, and why. Returns the plan with the leases of what it holds.
#[verifier::rlimit(30)]
pub fn build_rescue_execution_plan<F: Fn(u32, u32) -> bool>(
    features: &FeatureView,
    rescue: &RescuePlan,
    seeds: &RescueSeeds,
    admission: &RescueAdmission,
    scorer: &F,
    memory: &mut MemoryBroker,
    spill_directory: &str,
    spill: &mut RescueSpillWrite,
    advisories: &mut Vec<String>,
    reports: &mut Vec<ProgressEvent>,
) -> (result: Result<(RescueExecutionPlan, Vec<MemoryLease>), PipelineError>)
    requires
        is_rescuable(*features),
        rescue_scan::are_seeds(*seeds, *rescue, *features, atoms::atom_count(*features)),
        atoms::atom_count(*features) <= u32::MAX,
        shared::is_pair_scorer(*scorer),
        old(memory)@.wf(),
        old(spill).atom@.len() == 0,
        old(spill).shared@.len() == 0,
    ensures
        final(memory)@.wf(),
        catalog::extends(final(reports)@, old(reports)@),
        result matches Err(e) ==> e@ == error::overflow_fault() && final(memory)@.available(None) == old(memory)@.available(None),
        result matches Ok((plan, leases)) ==> {
            &&& keeps_plan(
                plan,
                leases@,
                raw_count(*features, *scorer, *rescue, *seeds),
                old(memory)@.available(None),
                final(memory)@,
            )
            &&& plan.atom_score_visits == seeds.atom_score_visits
            &&& plan.shared_score_visits == seeds.shared_score_visits
            &&& plan.stream_buffer_bytes == (if plan.matches is Sorted {
                0
            } else {
                admission.stream_buffer_bytes
            })
            &&& exists|store: RescueStore, admitted: bool| #[trigger]
                is_plan_of(plan, store, *rescue, *features, admitted) && store.wf()
                    && holds_matches(store, *features, *scorer, *rescue, *seeds) && is_spill_of(
                    *final(spill),
                    store,
                ) && fits_room(store, *rescue, old(memory)@.available(None), admitted)
            &&& exists|spilled: MemoryError, unsorted: MemoryError|
                #![trigger plan_advice(
                    plan,
                    raw_count(*features, *scorer, *rescue, *seeds),
                    spilled,
                    unsorted,
                    spill_directory@,
                )]
                {
                    let raw = raw_count(*features, *scorer, *rescue, *seeds);
                    &&& advises(
                        final(advisories)@,
                        old(advisories)@,
                        plan_advice(plan, raw, spilled, unsorted, spill_directory@),
                    )
                    &&& plan.matches is Spilled ==> is_chunk_refusal(
                        spilled,
                        old(memory)@.hard_top,
                    )
                    &&& plan.matches is Chunks && raw <= MAX_RESCUE_GLOBAL_SORT_PAIRS ==> (
                    unsorted matches MemoryError::Budget { requested, hard_top, .. } && requested
                        == raw * RESCUE_PAIR_BYTES && hard_top == old(memory)@.hard_top)
                }
            &&& final(reports)@.last().phase == ProgressPhase::FinalizeRescuePlan
            &&& final(reports)@.last().total is None
        },
        is_small_rescue(*features, *scorer, *rescue, *seeds, *old(memory)) ==> result is Ok,
        result matches Ok((plan, _)) ==> ({
            let raw = raw_count(*features, *scorer, *rescue, *seeds);
            raw <= MAX_RESCUE_GLOBAL_SORT_PAIRS && (raw - rescue.shared_edges@.len())
                * RESCUE_CHUNK_BYTES + raw * RESCUE_PAIR_BYTES <= old(memory)@.available(None)
                ==> plan.matches is Sorted
        }),
{
    let ghost view = *features;
    let ghost told = reports@;
    let ghost mask = seeds.atom_mask@;
    let ghost n = rescue.pair_atoms@.len() as int;
    assert(reports@.take(told.len() as int) =~= told);
    let total: u64 = match seeds.atom_score_visits.checked_add(seeds.shared_score_visits) {
        Some(total) => total,
        None => {
            return Err(overflow_error());
        },
    };
    let mut scoring = RescueScoring::new(total, memory);
    assert(scoring.wf(view, *memory));
    scoring.report(reports);
    let ghost told_first = reports@;
    let atoms_scored = score_seed_atoms(
        features,
        rescue,
        seeds,
        admission.cache_entries_per_lane,
        scorer,
        &mut scoring,
        memory,
        spill,
        reports,
    );
    let ghost told_atoms = reports@;
    proof {
        catalog::lemma_extends(told_atoms, told_first, told);
    }
    if let Err(error) = atoms_scored {
        proof {
            resource::lemma_held_bytes(scoring.store.leases@, memory@, RESCUE_CHUNK_BYTES);
        }
        resource::release_all(scoring.store.leases, memory);
        return Err(error);
    }
    let members_scored = score_seed_members(
        features,
        rescue,
        seeds,
        admission.cache_entries_per_lane,
        scorer,
        &mut scoring,
        memory,
        spill,
        reports,
    );
    let ghost told_members = reports@;
    proof {
        catalog::lemma_extends(told_members, told_atoms, told);
    }
    if let Err(error) = members_scored {
        proof {
            resource::lemma_held_bytes(scoring.store.leases@, memory@, RESCUE_CHUNK_BYTES);
        }
        resource::release_all(scoring.store.leases, memory);
        return Err(error);
    }
    proof {
        let pairs = scoring.store.all_atom_pairs();
        assert forall|k: int| 0 <= k < pairs.len() implies (#[trigger] pairs[k]).0
            < atoms::atom_count(view) && pairs[k].1 < atoms::atom_count(view) by {
            lemma_atom_matches_known(view, *scorer, mask, rescue.pair_atoms@, n, k);
        }
    }
    let ghost store = scoring.store;
    let ghost refused = scoring.refused;
    let ghost available = memory@.available(None);
    let ghost used = memory@.used;
    let ghost raw = raw_matches(store, *rescue);
    let ghost advised = advisories@;
    if let Some(error) = &scoring.refused {
        advisories.push(
            "metadata rescue matched-pair corpus exceeded the resident memory budget (".to_owned().concat(
                error.message().as_str(),
            ).concat("); switching to bounded one-pass disk streaming in ").concat(
                spill_directory,
            ),
        );
        assert(advisories@.drop_last() =~= advised);
    }
    let result = finish_rescue(
        features,
        rescue,
        seeds,
        scoring,
        admission.stream_buffer_bytes,
        memory,
        advisories,
        reports,
    );
    proof {
        catalog::lemma_extends(reports@, told_members, told);
        if result is Ok {
            let plan = (result->Ok_0).0;
            let admitted = raw * RESCUE_PAIR_BYTES <= available;
            let unsorted = MemoryError::Budget {
                requested: (raw * RESCUE_PAIR_BYTES) as u64,
                used,
                hard_top: old(memory)@.hard_top,
            };
            let spilled = if let Some(error) = refused {
                error
            } else {
                MemoryError::Overflow
            };
            assert(raw == raw_count(*features, *scorer, *rescue, *seeds));
            assert(fits_room(store, *rescue, old(memory)@.available(None), admitted));
            assert(is_plan_of(plan, store, *rescue, view, admitted));
            assert(advises(
                advisories@,
                advised,
                plan_advice(plan, raw, spilled, unsorted, spill_directory@),
            ));
        }
    }
    result
}

/// All matches of a rescue, those that need no scoring among them.
pub open spec fn raw_count<F: Fn(u32, u32) -> bool>(
    view: FeatureView,
    scorer: F,
    rescue: RescuePlan,
    seeds: RescueSeeds,
) -> nat {
    atom_matches(
        view,
        scorer,
        seeds.atom_mask@,
        rescue.pair_atoms@,
        rescue.pair_atoms@.len() as int,
    ).len() + shared_matches(
        view,
        scorer,
        seeds.contract_mask@,
        view.token_member_offsets@.len() - 1,
    ).len() + rescue.shared_edges@.len()
}

/// Matches are spilled only where their chunks exceed the room, and sorted where a copy fits
/// beside the chunks.
pub open spec fn fits_room(
    store: RescueStore,
    rescue: RescuePlan,
    room: int,
    admitted: bool,
) -> bool {
    if store.spilling {
        room < stored_count(store) * RESCUE_CHUNK_BYTES
    } else {
        &&& store.leases@.len() <= stored_count(store)
        &&& admitted == (raw_matches(store, rescue) * RESCUE_PAIR_BYTES <= room
            - store.leases@.len() * RESCUE_CHUNK_BYTES)
    }
}

/// The counts of a rescue leave room in 64 bits.
pub open spec fn is_small_rescue<F: Fn(u32, u32) -> bool>(
    view: FeatureView,
    scorer: F,
    rescue: RescuePlan,
    seeds: RescueSeeds,
    memory: MemoryBroker,
) -> bool {
    let pairs = atom_matches(
        view,
        scorer,
        seeds.atom_mask@,
        rescue.pair_atoms@,
        rescue.pair_atoms@.len() as int,
    );
    let edges = shared_matches(
        view,
        scorer,
        seeds.contract_mask@,
        view.token_member_offsets@.len() - 1,
    );
    let raw = pairs.len() + edges.len() + rescue.shared_edges@.len();
    &&& seeds.atom_score_visits + seeds.shared_score_visits <= u64::MAX
    &&& rescue_scan::contract_pair_sum(view, pairs) <= u64::MAX
    &&& memory@.hard_top + RESCUE_CHUNK_BYTES <= u64::MAX
    &&& memory@.hard_top + raw * RESCUE_PAIR_BYTES < u64::MAX
}

} // verus!
