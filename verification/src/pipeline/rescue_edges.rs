//! Submitting the edges of a planned rescue.

use crate::pipeline::atoms;
use crate::pipeline::atoms::atom_contracts;
use crate::pipeline::catalog;
use crate::pipeline::collectors;
use crate::pipeline::collectors::ScopeCollectors;
use crate::pipeline::compaction;
use crate::pipeline::error::{PipelineError, PipelineFault};
use crate::pipeline::expansion;
use crate::pipeline::rescue_memory::{rescue_spill_batch_pairs, MAX_RESCUE_STREAM_IO_BYTES};
use crate::pipeline::rescue_plan::{RescueExecutionPlan, RescueMatches};
use crate::pipeline::rescue_store;
use crate::pipeline::rescue_store::{decode_pairs, RescueSpillWrite};
use crate::pipeline::submission;
use crate::pipeline::submission::{flush_edges, push_pending_edge};
use crate::pipeline::tokens;
use crate::pipeline::tokens::contracts_share_retained_token;
use crate::progress::{ProgressCounters, ProgressEvent, ProgressPhase, WorkUnit};
use crate::reduce::graph::Edge;
use crate::snapshot::features::FeatureView;
use crate::text;
use crate::text::decimal;
use vstd::prelude::*;
use vstd::slice::slice_subrange;
use vstd::string::*;

verus! {

/// Edges are submitted in batches of this many.
pub const RESCUE_EDGE_BATCH: usize = 4_096;

/// A part of the pairs of two lists.
#[derive(Clone, Copy, Debug, PartialEq, Eq, Structural)]
pub struct RescueExpansionTile {
    pub left_begin: usize,
    pub left_end: usize,
    pub right_begin: usize,
    pub right_end: usize,
}

/// How many tiles of `side` cover `count`.
pub open spec fn tiles_of(count: int, side: int) -> int {
    (count + side - 1) / side
}

/// The end of the tile that begins at `begin`.
pub open spec fn tile_end(begin: int, side: int, count: int) -> int {
    if begin + side < count {
        begin + side
    } else {
        count
    }
}

/// The tiles of `left` by `right` pairs in the rows of tiles below `row` and the first `column`
/// tiles of row `row`.
pub open spec fn tiles_before(left: int, right: int, side: int, row: int, column: int) -> Seq<
    RescueExpansionTile,
>
    decreases row, column,
{
    if column > 0 {
        tiles_before(left, right, side, row, column - 1).push(
            RescueExpansionTile {
                left_begin: (row * side) as usize,
                left_end: tile_end(row * side, side, left) as usize,
                right_begin: ((column - 1) * side) as usize,
                right_end: tile_end((column - 1) * side, side, right) as usize,
            },
        )
    } else if row > 0 {
        tiles_before(left, right, side, row - 1, tiles_of(right, side))
    } else {
        Seq::empty()
    }
}

/// The tiles of the first `count` lists of pairs.
pub open spec fn all_tiles(dimensions: Seq<(usize, usize)>, side: int, count: int) -> Seq<
    RescueExpansionTile,
>
    decreases count,
{
    if count <= 0 {
        Seq::empty()
    } else {
        let (left, right) = dimensions[count - 1];
        all_tiles(dimensions, side, count - 1) + tiles_before(
            left as int,
            right as int,
            side,
            tiles_of(left as int, side),
            0,
        )
    }
}

/// The tile holds the pair.
pub open spec fn tile_holds(tile: RescueExpansionTile, i: int, j: int) -> bool {
    tile.left_begin <= i < tile.left_end && tile.right_begin <= j < tile.right_end
}

/// Divides lists of pairs into tiles of at most `tile_side` by `tile_side` pairs.
#[verifier::loop_isolation(false)]
pub fn rescue_expansion_tiles(dimensions: &Vec<(usize, usize)>, tile_side: usize) -> (tiles: Vec<
    RescueExpansionTile,
>)
    ensures
        tiles@ == all_tiles(
            dimensions@,
            if tile_side > 1 {
                tile_side as int
            } else {
                1
            },
            dimensions@.len() as int,
        ),
{
    let side: usize = if tile_side > 1 {
        tile_side
    } else {
        1
    };
    let ghost s = side as int;
    let mut tiles: Vec<RescueExpansionTile> = Vec::new();
    let mut d: usize = 0;
    while d < dimensions.len()
        invariant
            d <= dimensions@.len(),
            tiles@ == all_tiles(dimensions@, s, d as int),
        decreases dimensions.len() - d,
    {
        let (left, right) = dimensions[d];
        assert(dimensions@[d as int] == (left, right));
        let ghost done = tiles@;
        let ghost mut row: int = 0;
        let mut left_begin: usize = 0;
        proof {
            assert(done + tiles_before(left as int, right as int, s, 0, 0) =~= done);
            assert(0 * s == 0);
            lemma_no_tiles(s);
        }
        while left_begin < left
            invariant
                0 <= row,
                left_begin <= left,
                left_begin < left ==> left_begin == row * s,
                left_begin >= left ==> row == tiles_of(left as int, s),
                tiles@ == done + tiles_before(left as int, right as int, s, row, 0),
            decreases left - left_begin,
        {
            let left_end: usize = if left - left_begin > side {
                left_begin + side
            } else {
                left
            };
            let mut right_begin: usize = 0;
            let ghost mut column: int = 0;
            assert(0 * s == 0);
            while right_begin < right
                invariant
                    0 <= column,
                    right_begin <= right,
                    right_begin < right ==> right_begin == column * s,
                    right_begin >= right ==> column == tiles_of(right as int, s),
                    tiles@ == done + tiles_before(left as int, right as int, s, row, column),
                decreases right - right_begin,
            {
                let right_end: usize = if right - right_begin > side {
                    right_begin + side
                } else {
                    right
                };
                let ghost before = tiles@;
                tiles.push(
                    RescueExpansionTile { left_begin, left_end, right_begin, right_end },
                );
                proof {
                    assert((column + 1) * s == column * s + s) by (nonlinear_arith);
                    lemma_tile_step(right as int, s, column);
                    column = column + 1;
                    assert(tiles@ =~= done + tiles_before(
                        left as int,
                        right as int,
                        s,
                        row,
                        column,
                    ));
                }
                right_begin = right_end;
            }
            proof {
                assert(column == tiles_of(right as int, s));
                assert((row + 1) * s == row * s + s) by (nonlinear_arith);
                lemma_tile_step(left as int, s, row);
                assert(tiles_before(left as int, right as int, s, row + 1, 0) == tiles_before(
                    left as int,
                    right as int,
                    s,
                    row,
                    column,
                ));
                row = row + 1;
            }
            left_begin = left_end;
        }
        d = d + 1;
    }
    tiles
}

/// How many tiles hold the pair.
pub open spec fn holding(tiles: Seq<RescueExpansionTile>, i: int, j: int) -> nat
    decreases tiles.len(),
{
    if tiles.len() == 0 {
        0
    } else {
        holding(tiles.drop_last(), i, j) + (if tile_holds(tiles.last(), i, j) {
            1nat
        } else {
            0
        })
    }
}

proof fn lemma_holding(left: int, right: int, side: int, row: int, column: int, i: int, j: int)
    requires
        0 <= i < left <= usize::MAX,
        0 <= j < right <= usize::MAX,
        side > 0,
        0 <= row,
        0 <= column,
        row < tiles_of(left, side) || column == 0,
        row <= tiles_of(left, side),
        column <= tiles_of(right, side),
    ensures
        holding(tiles_before(left, right, side, row, column), i, j) == (if i / side < row || (i
            / side == row && j / side < column) {
            1nat
        } else {
            0
        }),
    decreases row, column,
{
    let tiles = tiles_before(left, right, side, row, column);
    lemma_in_tiles(i, left, side);
    lemma_in_tiles(j, right, side);
    if column > 0 {
        lemma_holding(left, right, side, row, column - 1, i, j);
        assert(tiles.drop_last() =~= tiles_before(left, right, side, row, column - 1));
        lemma_tile_range(left, side, row, i);
        lemma_tile_range(right, side, column - 1, j);
        assert(tile_holds(tiles.last(), i, j) <==> i / side == row && j / side == column - 1);
    } else if row > 0 {
        lemma_holding(left, right, side, row - 1, tiles_of(right, side), i, j);
    }
}

proof fn lemma_in_tiles(i: int, count: int, side: int)
    requires
        0 <= i < count,
        side > 0,
    ensures
        0 <= i / side < tiles_of(count, side),
{
    assert(0 <= i / side < (count + side - 1) / side) by (nonlinear_arith)
        requires
            0 <= i < count,
            side > 0,
    ;
}

/// The tile at `k` holds exactly what is divided to `k`.
proof fn lemma_tile_range(count: int, side: int, k: int, i: int)
    requires
        side > 0,
        0 <= k < tiles_of(count, side),
        0 <= i < count <= usize::MAX,
    ensures
        0 <= k * side <= usize::MAX,
        0 <= tile_end(k * side, side, count) <= usize::MAX,
        k * side <= i < tile_end(k * side, side, count) <==> i / side == k,
{
    assert(0 <= k * side < count) by (nonlinear_arith)
        requires
            side > 0,
            0 <= k < (count + side - 1) / side,
    ;
    assert(k * side <= i < k * side + side <==> i / side == k) by (nonlinear_arith)
        requires
            side > 0,
            0 <= i,
    ;
}

/// Tiles of two lists hold each of their pairs exactly once.
pub proof fn lemma_tiles_cover_once(left: int, right: int, side: int, i: int, j: int)
    requires
        0 <= i < left <= usize::MAX,
        0 <= j < right <= usize::MAX,
        side > 0,
    ensures
        holding(tiles_before(left, right, side, tiles_of(left, side), 0), i, j) == 1,
{
    lemma_in_tiles(i, left, side);
    lemma_in_tiles(j, right, side);
    lemma_holding(left, right, side, tiles_of(left, side), 0, i, j);
}

proof fn lemma_no_tiles(side: int)
    requires
        side > 0,
    ensures
        tiles_of(0, side) == 0,
{
    assert((0 + side - 1) / side == 0) by (nonlinear_arith)
        requires
            side > 0,
    ;
}

/// The tile after the last one begins beyond the end.
proof fn lemma_tile_step(count: int, side: int, k: int)
    requires
        side > 0,
        0 <= k,
        k * side < count,
    ensures
        count - k * side <= side ==> tiles_of(count, side) == k + 1,
{
    if count - k * side <= side {
        assert((count + side - 1) / side == k + 1) by (nonlinear_arith)
            requires
                side > 0,
                k * side < count,
                count <= k * side + side,
        ;
    }
}

/// The direct edges of pairs of atoms.
pub open spec fn atom_pair_edges(view: FeatureView, pairs: Seq<(u32, u32)>) -> Seq<Edge>
    decreases pairs.len(),
{
    if pairs.len() == 0 {
        Seq::empty()
    } else {
        let last = pairs.last();
        atom_pair_edges(view, pairs.drop_last()) + expansion::direct_pairs(
            view,
            atoms::members_of(view, last.0 as int),
            atoms::members_of(view, last.1 as int),
        )
    }
}

/// Pairs of contracts as edges.
pub open spec fn contract_edges(pairs: Seq<(u32, u32)>) -> Seq<Edge>
    decreases pairs.len(),
{
    if pairs.len() == 0 {
        Seq::empty()
    } else {
        contract_edges(pairs.drop_last()).push(Edge::between(pairs.last().0, pairs.last().1))
    }
}

/// The pairs are pairs of atoms.
pub open spec fn known_atom_pairs(view: FeatureView, pairs: Seq<(u32, u32)>) -> bool {
    forall|k: int|
        0 <= k < pairs.len() ==> (#[trigger] pairs[k]).0 < atoms::atom_count(view) && pairs[k].1
            < atoms::atom_count(view)
}

/// The pairs are pairs of contracts.
pub open spec fn known_contract_pairs(view: FeatureView, pairs: Seq<(u32, u32)>) -> bool {
    forall|k: int|
        0 <= k < pairs.len() ==> (#[trigger] pairs[k]).0 < view.contract_count() && pairs[k].1
            < view.contract_count()
}

/// A report on rescue pairs.
pub open spec fn is_rescue_report(event: ProgressEvent, completed: u64, total: u64) -> bool {
    &&& event.phase == ProgressPhase::RescuePairs
    &&& event.completed == completed
    &&& event.total == Some(total)
    &&& event.unit == WorkUnit::Pairs
}

/// The reports go on, each of them of rescued pairs and with the total.
pub open spec fn tells(after: Seq<ProgressEvent>, before: Seq<ProgressEvent>, total: u64) -> bool {
    &&& catalog::extends(after, before)
    &&& forall|k: int|
        before.len() <= k < after.len() ==> is_rescue_report(
            #[trigger] after[k],
            after[k].completed,
            total,
        )
}

proof fn lemma_tells(
    last: Seq<ProgressEvent>,
    middle: Seq<ProgressEvent>,
    first: Seq<ProgressEvent>,
    total: u64,
)
    requires
        tells(last, middle, total),
        tells(middle, first, total),
    ensures
        tells(last, first, total),
{
    catalog::lemma_extends(last, middle, first);
    assert forall|k: int| first.len() <= k < last.len() implies is_rescue_report(
        #[trigger] last[k],
        last[k].completed,
        total,
    ) by {
        if k < middle.len() {
            assert(last.take(middle.len() as int)[k] == last[k]);
            assert(is_rescue_report(middle[k], middle[k].completed, total));
        }
    }
}

/// The count grew by the work, at most to `u64::MAX`.
pub open spec fn counted(before: u64, work: nat) -> u64 {
    if before + work <= u64::MAX {
        (before + work) as u64
    } else {
        u64::MAX
    }
}

/// The pairs of contracts that pairs of atoms stand for.
pub open spec fn atom_pair_work(view: FeatureView, pairs: Seq<(u32, u32)>) -> nat
    decreases pairs.len(),
{
    if pairs.len() == 0 {
        0
    } else {
        let last = pairs.last();
        atom_pair_work(view, pairs.drop_last()) + atoms::members_of(view, last.0 as int).len()
            * atoms::members_of(view, last.1 as int).len()
    }
}

/// The work of pairs of atoms, or of pairs of contracts.
pub open spec fn pairs_work(view: FeatureView, pairs: Seq<(u32, u32)>, shared: bool) -> nat {
    if shared {
        pairs.len()
    } else {
        atom_pair_work(view, pairs)
    }
}

proof fn lemma_pairs_work_concat(
    view: FeatureView,
    a: Seq<(u32, u32)>,
    b: Seq<(u32, u32)>,
    shared: bool,
)
    ensures
        pairs_work(view, a + b, shared) == pairs_work(view, a, shared) + pairs_work(
            view,
            b,
            shared,
        ),
    decreases b.len(),
{
    if b.len() == 0 {
        assert(a + b =~= a);
    } else {
        lemma_pairs_work_concat(view, a, b.drop_last(), shared);
        assert((a + b).drop_last() =~= a + b.drop_last());
    }
}

/// Submission of rescue edges in progress.
pub struct RescueExpansion {
    pub completed: u64,
    pub total: u64,
}

impl RescueExpansion {
    fn report(&self, total: u64, matched: u64, reports: &mut Vec<ProgressEvent>)
        ensures
            tells(final(reports)@, old(reports)@, total),
            final(reports)@.len() == old(reports)@.len() + 1,
            is_rescue_report(final(reports)@.last(), self.completed, total),
    {
        let counters = ProgressCounters {
            candidates: 0,
            scored: 0,
            expanded: 0,
            matched,
            groups: 0,
        };
        reports.push(
            ProgressEvent::determinate(
                ProgressPhase::RescuePairs,
                self.completed,
                total,
                WorkUnit::Pairs,
                counters,
            ),
        );
        assert(reports@.take(old(reports)@.len() as int) =~= old(reports)@);
    }

    /// Submits the direct edges of pairs of atoms.
    #[verifier::loop_isolation(false)]
    #[verifier::rlimit(30)]
    pub fn append_rescue_atom_pairs(
        &mut self,
        features: &FeatureView,
        pairs: &Vec<(u32, u32)>,
        collectors: &mut ScopeCollectors,
        chain_count: usize,
        reports: &mut Vec<ProgressEvent>,
    ) -> (result: Result<(), PipelineError>)
        requires
            catalog::is_expandable(*features, chain_count as int),
            known_atom_pairs(*features, pairs@),
            old(collectors).wf(),
            submission::covers_chains(*old(collectors), chain_count as int),
        ensures
            final(self).total == old(self).total,
            tells(final(reports)@, old(reports)@, old(self).total),
            result is Ok ==> final(self).completed == counted(
                old(self).completed,
                atom_pair_work(*features, pairs@),
            ),
            submits(
                *final(collectors),
                *old(collectors),
                atom_pair_edges(*features, pairs@),
                features.contract_chain@,
                chain_count as int,
                result,
            ),
    {
        let ghost view = *features;
        let ghost chains = view.contract_chain@;
        let ghost c = chain_count as int;
        let ghost before = *collectors;
        let ghost told = reports@;
        let mut pending: Vec<Edge> = Vec::new();
        let mut k: usize = 0;
        proof {
            assert(reports@.take(told.len() as int) =~= told);
            assert(pairs@.take(0) =~= Seq::<(u32, u32)>::empty());
            submission::lemma_sink_rests(pending@, before, chains, c);
            assert(pending@ =~= Seq::<Edge>::empty());
        }
        while k < pairs.len()
            invariant
                k <= pairs@.len(),
                self.total == old(self).total,
                tells(reports@, told, self.total),
                self.completed == counted(
                    old(self).completed,
                    atom_pair_work(view, pairs@.take(k as int)),
                ),
                submission::sink_steps(
                    pending@,
                    *collectors,
                    Seq::empty(),
                    before,
                    chains,
                    c,
                    Ok(()),
                    atom_pair_edges(view, pairs@.take(k as int)),
                ),
            decreases pairs.len() - k,
        {
            let ghost done = atom_pair_edges(view, pairs@.take(k as int));
            let ghost middle_told = reports@;
            let (left_atom, right_atom) = pairs[k];
            assert(pairs@[k as int] == (left_atom, right_atom));
            let left = atom_contracts(features, left_atom);
            let right = atom_contracts(features, right_atom);
            let ghost middle_pending = pending@;
            let ghost middle = *collectors;
            let taken = take_direct_pairs(
                features,
                left,
                right,
                &mut pending,
                collectors,
                chain_count,
            );
            proof {
                assert(pairs@.take(k + 1).drop_last() =~= pairs@.take(k as int));
                submission::lemma_sink_steps_more(
                    pending@,
                    *collectors,
                    middle_pending,
                    middle,
                    Seq::empty(),
                    before,
                    chains,
                    c,
                    taken,
                    done,
                    expansion::direct_pairs(view, left@, right@),
                );
                catalog::lemma_product_fits(left@.len(), right@.len());
            }
            if let Err(error) = taken {
                proof {
                    let few = atom_pair_edges(view, pairs@.take(k + 1));
                    assert(pairs@.take(k + 1) + pairs@.skip(k + 1) =~= pairs@);
                    lemma_atom_pair_edges_concat(view, pairs@.take(k + 1), pairs@.skip(k + 1));
                    submission::lemma_begins(few, atom_pair_edges(view, pairs@.skip(k + 1)));
                    assert(Seq::<Edge>::empty() + few =~= few);
                    submission::lemma_refusal_longer(
                        error@,
                        before,
                        *collectors,
                        few,
                        atom_pair_edges(view, pairs@),
                        chains,
                        c,
                    );
                }
                return Err(error);
            }
            self.completed = self.completed.saturating_add(
                left.len() as u64 * right.len() as u64,
            );
            self.report(self.total, collectors.accepted_edges(), reports);
            proof {
                lemma_tells(reports@, middle_told, told, self.total);
            }
            k = k + 1;
        }
        let ghost all = atom_pair_edges(view, pairs@);
        assert(pairs@.take(k as int) =~= pairs@);
        let ghost last_pending = pending@;
        let ghost last = *collectors;
        let flushed = flush_edges(
            &mut pending,
            collectors,
            &features.contract_chain,
            chain_count,
        );
        proof {
            submission::lemma_sink_steps_more(
                pending@,
                *collectors,
                last_pending,
                last,
                Seq::empty(),
                before,
                chains,
                c,
                flushed,
                all,
                Seq::empty(),
            );
            assert(all + Seq::<Edge>::empty() =~= all);
            assert(Seq::<Edge>::empty() + all =~= all);
            assert(pending@ =~= Seq::<Edge>::empty());
            if flushed is Ok {
                submission::lemma_moved_all(*collectors, before, all, chains, c);
            }
        }
        flushed
    }

    /// Submits pairs of contracts as edges.
    #[verifier::loop_isolation(false)]
    pub fn append_rescue_shared_pairs(
        &mut self,
        features: &FeatureView,
        pairs: &Vec<(u32, u32)>,
        collectors: &mut ScopeCollectors,
        chain_count: usize,
        reports: &mut Vec<ProgressEvent>,
    ) -> (result: Result<(), PipelineError>)
        requires
            catalog::is_expandable(*features, chain_count as int),
            known_contract_pairs(*features, pairs@),
            old(collectors).wf(),
            submission::covers_chains(*old(collectors), chain_count as int),
        ensures
            final(self).total == old(self).total,
            tells(final(reports)@, old(reports)@, old(self).total),
            result is Ok ==> final(self).completed == counted(
                old(self).completed,
                pairs@.len(),
            ),
            submits(
                *final(collectors),
                *old(collectors),
                contract_edges(pairs@),
                features.contract_chain@,
                chain_count as int,
                result,
            ),
    {
        let ghost view = *features;
        let ghost chains = view.contract_chain@;
        let ghost c = chain_count as int;
        let ghost before = *collectors;
        let ghost told = reports@;
        let mut pending: Vec<Edge> = Vec::new();
        let mut k: usize = 0;
        proof {
            assert(reports@.take(told.len() as int) =~= told);
            assert(pairs@.take(0) =~= Seq::<(u32, u32)>::empty());
            submission::lemma_sink_rests(pending@, before, chains, c);
            assert(pending@ =~= Seq::<Edge>::empty());
        }
        while k < pairs.len()
            invariant
                k <= pairs@.len(),
                self.total == old(self).total,
                tells(reports@, told, self.total),
                self.completed == old(self).completed,
                submission::sink_steps(
                    pending@,
                    *collectors,
                    Seq::empty(),
                    before,
                    chains,
                    c,
                    Ok(()),
                    contract_edges(pairs@.take(k as int)),
                ),
            decreases pairs.len() - k,
        {
            let ghost done = contract_edges(pairs@.take(k as int));
            let ghost middle_pending = pending@;
            let ghost middle = *collectors;
            let (left, right) = pairs[k];
            assert(pairs@[k as int] == (left, right));
            let edge = Edge::new(left, right);
            proof {
                assert(chains[left as int] < c && chains[right as int] < c);
                assert(seq![edge][0] == edge);
                assert(pairs@.take(k + 1).drop_last() =~= pairs@.take(k as int));
            }
            let taken = push_pending_edge(
                &mut pending,
                RESCUE_EDGE_BATCH,
                collectors,
                &features.contract_chain,
                chain_count,
                edge,
            );
            proof {
                submission::lemma_sink_steps_more(
                    pending@,
                    *collectors,
                    middle_pending,
                    middle,
                    Seq::empty(),
                    before,
                    chains,
                    c,
                    taken,
                    done,
                    seq![edge],
                );
                assert(done + seq![edge] =~= contract_edges(pairs@.take(k + 1)));
            }
            if let Err(error) = taken {
                proof {
                    let few = contract_edges(pairs@.take(k + 1));
                    assert(pairs@.take(k + 1) + pairs@.skip(k + 1) =~= pairs@);
                    lemma_contract_edges_concat(pairs@.take(k + 1), pairs@.skip(k + 1));
                    submission::lemma_begins(few, contract_edges(pairs@.skip(k + 1)));
                    assert(Seq::<Edge>::empty() + few =~= few);
                    submission::lemma_refusal_longer(
                        error@,
                        before,
                        *collectors,
                        few,
                        contract_edges(pairs@),
                        chains,
                        c,
                    );
                }
                return Err(error);
            }
            k = k + 1;
        }
        let ghost all = contract_edges(pairs@);
        assert(pairs@.take(k as int) =~= pairs@);
        let ghost last_pending = pending@;
        let ghost last = *collectors;
        let flushed = flush_edges(
            &mut pending,
            collectors,
            &features.contract_chain,
            chain_count,
        );
        proof {
            submission::lemma_sink_steps_more(
                pending@,
                *collectors,
                last_pending,
                last,
                Seq::empty(),
                before,
                chains,
                c,
                flushed,
                all,
                Seq::empty(),
            );
            assert(all + Seq::<Edge>::empty() =~= all);
            assert(Seq::<Edge>::empty() + all =~= all);
            assert(pending@ =~= Seq::<Edge>::empty());
            if flushed is Ok {
                submission::lemma_moved_all(*collectors, before, all, chains, c);
            }
        }
        if let Err(error) = flushed {
            return Err(error);
        }
        self.completed = self.completed.saturating_add(pairs.len() as u64);
        self.report(self.total, collectors.accepted_edges(), reports);
        Ok(())
    }
}

/// All edges were submitted, or the collectors refused them.
pub open spec fn submits(
    after: ScopeCollectors,
    before: ScopeCollectors,
    edges: Seq<Edge>,
    chains: Seq<u32>,
    chain_count: int,
    result: Result<(), PipelineError>,
) -> bool {
    &&& after.wf()
    &&& after.continues(before)
    &&& after.scopes() == before.scopes()
    &&& before.is_cancelled() ==> after.is_cancelled()
    &&& !before.is_cancelled() ==> (after.is_cancelled() <==> result is Err)
    &&& match result {
        Ok(_) => submission::gains(after, before, edges, chains, chain_count)
            && collectors::counts_more(after.accepted(), before.accepted(), edges.len()),
        Err(e) => submission::is_refusal(e@, before, after, edges, chains, chain_count),
    }
    &&& edges.len() == 0 ==> result is Ok && after == before
}

/// Takes the direct edges between two sides.
#[verifier::loop_isolation(false)]
fn take_direct_pairs(
    features: &FeatureView,
    left: &[u32],
    right: &[u32],
    pending: &mut Vec<Edge>,
    collectors: &mut ScopeCollectors,
    chain_count: usize,
) -> (result: Result<(), PipelineError>)
    requires
        catalog::is_expandable(*features, chain_count as int),
        tokens::are_contracts(*features, left@),
        tokens::are_contracts(*features, right@),
        old(collectors).wf(),
        submission::covers_chains(*old(collectors), chain_count as int),
        compaction::edges_known(
            old(pending)@,
            features.contract_chain@,
            chain_count as int,
        ),
    ensures
        submission::sink_steps(
            final(pending)@,
            *final(collectors),
            old(pending)@,
            *old(collectors),
            features.contract_chain@,
            chain_count as int,
            result,
            expansion::direct_pairs(*features, left@, right@),
        ),
{
    let ghost view = *features;
    let ghost chains = view.contract_chain@;
    let ghost c = chain_count as int;
    let ghost before = *collectors;
    let ghost was = pending@;
    let mut i: usize = 0;
    proof {
        submission::lemma_sink_rests(was, before, chains, c);
    }
    while i < left.len()
        invariant
            i <= left@.len(),
            submission::sink_steps(
                pending@,
                *collectors,
                was,
                before,
                chains,
                c,
                Ok(()),
                expansion::direct_rows(view, left@, right@, i as int),
            ),
        decreases left.len() - i,
    {
        let ghost rows = expansion::direct_rows(view, left@, right@, i as int);
        let mut j: usize = 0;
        assert(left@[i as int] < view.contract_count());
        assert(rows + expansion::direct_row(view, left@[i as int], right@, 0) =~= rows);
        while j < right.len()
            invariant
                j <= right@.len(),
                submission::sink_steps(
                    pending@,
                    *collectors,
                    was,
                    before,
                    chains,
                    c,
                    Ok(()),
                    rows + expansion::direct_row(view, left@[i as int], right@, j as int),
                ),
            decreases right.len() - j,
        {
            let ghost done = rows + expansion::direct_row(
                view,
                left@[i as int],
                right@,
                j as int,
            );
            let ghost middle_pending = pending@;
            let ghost middle = *collectors;
            assert(right@[j as int] < view.contract_count());
            if left[i] != right[j] && !contracts_share_retained_token(features, left[i], right[j]) {
                let edge = Edge::new(left[i], right[j]);
                proof {
                    assert(chains[left@[i as int] as int] < c);
                    assert(chains[right@[j as int] as int] < c);
                    assert(seq![edge][0] == edge);
                }
                let taken = push_pending_edge(
                    pending,
                    RESCUE_EDGE_BATCH,
                    collectors,
                    &features.contract_chain,
                    chain_count,
                    edge,
                );
                proof {
                    submission::lemma_sink_steps_more(
                        pending@,
                        *collectors,
                        middle_pending,
                        middle,
                        was,
                        before,
                        chains,
                        c,
                        taken,
                        done,
                        seq![edge],
                    );
                    assert(done + seq![edge] =~= rows + expansion::direct_row(
                        view,
                        left@[i as int],
                        right@,
                        j + 1,
                    ));
                }
                if let Err(error) = taken {
                    proof {
                        expansion::lemma_direct_row_grows(
                            view,
                            left@[i as int],
                            right@,
                            j + 1,
                            right@.len() as int,
                        );
                        expansion::lemma_direct_rows_grow(
                            view,
                            left@,
                            right@,
                            i + 1,
                            left@.len() as int,
                        );
                        let row = expansion::direct_row(view, left@[i as int], right@, j + 1);
                        let full = expansion::direct_row(
                            view,
                            left@[i as int],
                            right@,
                            right@.len() as int,
                        );
                        let all = expansion::direct_pairs(view, left@, right@);
                        submission::lemma_begins_more(rows, full, row);
                        submission::lemma_begins_more(all, rows + full, rows + row);
                        submission::lemma_begins_more(was, all, rows + row);
                        submission::lemma_refusal_longer(
                            error@,
                            before,
                            *collectors,
                            was + (rows + row),
                            was + all,
                            chains,
                            c,
                        );
                    }
                    return Err(error);
                }
            }
            j = j + 1;
        }
        i = i + 1;
    }
    Ok(())
}

proof fn lemma_flat_grows(
    view: FeatureView,
    chunks: Seq<Vec<(u32, u32)>>,
    count: int,
    more: int,
    shared: bool,
)
    requires
        0 <= count <= more <= chunks.len(),
    ensures
        submission::begins(
            edges_of_pairs(view, rescue_store::flat(chunks.take(more)), shared),
            edges_of_pairs(view, rescue_store::flat(chunks.take(count)), shared),
        ),
    decreases more - count,
{
    let all = edges_of_pairs(view, rescue_store::flat(chunks.take(more)), shared);
    let few = edges_of_pairs(view, rescue_store::flat(chunks.take(count)), shared);
    submission::lemma_begins(all, Seq::empty());
    if count < more {
        let most = edges_of_pairs(view, rescue_store::flat(chunks.take(more - 1)), shared);
        lemma_flat_grows(view, chunks, count, more - 1, shared);
        assert(chunks.take(more).drop_last() =~= chunks.take(more - 1));
        lemma_edges_of_pairs_concat(
            view,
            rescue_store::flat(chunks.take(more - 1)),
            chunks[more - 1]@,
            shared,
        );
        submission::lemma_begins(most, edges_of_pairs(view, chunks[more - 1]@, shared));
        submission::lemma_begins_more(all, most, few);
    }
}

/// Submitting edges and then others.
proof fn lemma_submits_more(
    last: ScopeCollectors,
    middle: ScopeCollectors,
    first: ScopeCollectors,
    edges: Seq<Edge>,
    more: Seq<Edge>,
    chains: Seq<u32>,
    chain_count: int,
    result: Result<(), PipelineError>,
)
    requires
        submits(middle, first, edges, chains, chain_count, Ok(())),
        submits(last, middle, more, chains, chain_count, result),
    ensures
        submits(last, first, edges + more, chains, chain_count, result),
{
    collectors::lemma_continues_on(last, middle, first);
    if result is Ok {
        submission::lemma_gains_more(last, middle, first, edges, more, chains, chain_count);
    } else if !first.is_cancelled() {
        submission::lemma_stops_on_later(
            last,
            middle,
            first,
            edges,
            more,
            chains,
            chain_count,
            result->Err_0@,
        );
    }
}

proof fn lemma_submits_none(collectors: ScopeCollectors, chains: Seq<u32>, chain_count: int)
    requires
        collectors.wf(),
    ensures
        submits(collectors, collectors, Seq::empty(), chains, chain_count, Ok(())),
{
    collectors::lemma_continues_on(collectors, collectors, collectors);
    submission::lemma_gains_none(collectors, chains, chain_count);
}

proof fn lemma_atom_pair_edges_concat(view: FeatureView, a: Seq<(u32, u32)>, b: Seq<(u32, u32)>)
    ensures
        atom_pair_edges(view, a + b) == atom_pair_edges(view, a) + atom_pair_edges(view, b),
    decreases b.len(),
{
    let all = a + b;
    if b.len() == 0 {
        assert(all =~= a);
        assert(atom_pair_edges(view, a) + atom_pair_edges(view, b) =~= atom_pair_edges(view, a));
    } else {
        lemma_atom_pair_edges_concat(view, a, b.drop_last());
        assert(all.drop_last() =~= a + b.drop_last());
        assert(atom_pair_edges(view, all) =~= atom_pair_edges(view, a) + atom_pair_edges(view, b));
    }
}

/// The edges of two lists are the edges of each.
pub(crate) proof fn lemma_contract_edges_concat(a: Seq<(u32, u32)>, b: Seq<(u32, u32)>)
    ensures
        contract_edges(a + b) == contract_edges(a) + contract_edges(b),
    decreases b.len(),
{
    let all = a + b;
    if b.len() == 0 {
        assert(all =~= a);
        assert(contract_edges(a) + contract_edges(b) =~= contract_edges(a));
    } else {
        lemma_contract_edges_concat(a, b.drop_last());
        assert(all.drop_last() =~= a + b.drop_last());
        assert(contract_edges(all) =~= contract_edges(a) + contract_edges(b));
    }
}

/// Pairs of atoms, or pairs of contracts.
pub open spec fn known_pairs(view: FeatureView, pairs: Seq<(u32, u32)>, shared: bool) -> bool {
    if shared {
        known_contract_pairs(view, pairs)
    } else {
        known_atom_pairs(view, pairs)
    }
}

/// The edges of pairs of atoms, or of pairs of contracts.
pub open spec fn edges_of_pairs(view: FeatureView, pairs: Seq<(u32, u32)>, shared: bool) -> Seq<
    Edge,
> {
    if shared {
        contract_edges(pairs)
    } else {
        atom_pair_edges(view, pairs)
    }
}

proof fn lemma_edges_of_pairs_concat(
    view: FeatureView,
    a: Seq<(u32, u32)>,
    b: Seq<(u32, u32)>,
    shared: bool,
)
    ensures
        edges_of_pairs(view, a + b, shared) == edges_of_pairs(view, a, shared) + edges_of_pairs(
            view,
            b,
            shared,
        ),
{
    lemma_atom_pair_edges_concat(view, a, b);
    lemma_contract_edges_concat(a, b);
}

/// The pairs that bytes hold.
pub open spec fn decoded(bytes: Seq<u8>) -> Seq<(u32, u32)> {
    Seq::new(bytes.len() / 8, |k: int| rescue_store::pair_at(bytes, k))
}

/// Spilled bytes end within a pair; the last batch has `filled` bytes.
pub open spec fn truncation(path: Seq<char>, filled: nat) -> PipelineFault {
    PipelineFault::Invariant(
        "truncated rescue spill file "@ + path + ": "@ + text::decimal_text(filled)
            + " trailing bytes"@,
    )
}

/// Submission of spilled pairs failed: the collectors refused them, or the bytes end within a
/// pair.
pub open spec fn spill_fails(
    after: ScopeCollectors,
    before: ScopeCollectors,
    bytes: Seq<u8>,
    path: Seq<char>,
    batch: nat,
    fault: PipelineFault,
    edges: Seq<Edge>,
    chains: Seq<u32>,
    chain_count: int,
) -> bool {
    &&& after.wf()
    &&& after.continues(before)
    &&& after.scopes() == before.scopes()
    &&& before.is_cancelled() ==> after.is_cancelled()
    &&& if !before.is_cancelled() && after.is_cancelled() {
        submission::stops_on(after, before, edges, chains, chain_count, fault)
    } else {
        (bytes.len() % 8 != 0 && fault == truncation(path, bytes.len() % (batch * 8))) || (
        before.is_cancelled() && submission::is_refusal(
            fault,
            before,
            after,
            edges,
            chains,
            chain_count,
        ))
    }
}

impl RescueExpansion {
    /// Submits pairs of atoms, or pairs of contracts.
    fn append_pairs(
        &mut self,
        features: &FeatureView,
        pairs: &Vec<(u32, u32)>,
        shared: bool,
        collectors: &mut ScopeCollectors,
        chain_count: usize,
        reports: &mut Vec<ProgressEvent>,
    ) -> (result: Result<(), PipelineError>)
        requires
            catalog::is_expandable(*features, chain_count as int),
            known_pairs(*features, pairs@, shared),
            old(collectors).wf(),
            submission::covers_chains(*old(collectors), chain_count as int),
        ensures
            final(self).total == old(self).total,
            tells(final(reports)@, old(reports)@, old(self).total),
            result is Ok ==> final(self).completed == counted(
                old(self).completed,
                pairs_work(*features, pairs@, shared),
            ),
            submits(
                *final(collectors),
                *old(collectors),
                edges_of_pairs(*features, pairs@, shared),
                features.contract_chain@,
                chain_count as int,
                result,
            ),
    {
        if shared {
            self.append_rescue_shared_pairs(features, pairs, collectors, chain_count, reports)
        } else {
            self.append_rescue_atom_pairs(features, pairs, collectors, chain_count, reports)
        }
    }

    /// Submits chunks of pairs.
    #[verifier::loop_isolation(false)]
    fn append_chunks(
        &mut self,
        features: &FeatureView,
        chunks: &Vec<Vec<(u32, u32)>>,
        shared: bool,
        collectors: &mut ScopeCollectors,
        chain_count: usize,
        reports: &mut Vec<ProgressEvent>,
    ) -> (result: Result<(), PipelineError>)
        requires
            catalog::is_expandable(*features, chain_count as int),
            forall|k: int|
                0 <= k < chunks@.len() ==> known_pairs(*features, #[trigger] chunks@[k]@, shared),
            old(collectors).wf(),
            submission::covers_chains(*old(collectors), chain_count as int),
        ensures
            final(self).total == old(self).total,
            tells(final(reports)@, old(reports)@, old(self).total),
            result is Ok ==> final(self).completed == counted(
                old(self).completed,
                pairs_work(*features, rescue_store::flat(chunks@), shared),
            ),
            submits(
                *final(collectors),
                *old(collectors),
                edges_of_pairs(*features, rescue_store::flat(chunks@), shared),
                features.contract_chain@,
                chain_count as int,
                result,
            ),
    {
        let ghost view = *features;
        let ghost chains = view.contract_chain@;
        let ghost c = chain_count as int;
        let ghost before = *collectors;
        let ghost told = reports@;
        let mut k: usize = 0;
        proof {
            assert(reports@.take(told.len() as int) =~= told);
            assert(chunks@.take(0) =~= Seq::<Vec<(u32, u32)>>::empty());
            lemma_submits_none(before, chains, c);
        }
        while k < chunks.len()
            invariant
                k <= chunks@.len(),
                self.total == old(self).total,
                tells(reports@, told, self.total),
                self.completed == counted(
                    old(self).completed,
                    pairs_work(view, rescue_store::flat(chunks@.take(k as int)), shared),
                ),
                submits(
                    *collectors,
                    before,
                    edges_of_pairs(view, rescue_store::flat(chunks@.take(k as int)), shared),
                    chains,
                    c,
                    Ok(()),
                ),
            decreases chunks.len() - k,
        {
            let ghost done = rescue_store::flat(chunks@.take(k as int));
            let ghost middle = *collectors;
            let ghost told_middle = reports@;
            let result = self.append_pairs(
                features,
                &chunks[k],
                shared,
                collectors,
                chain_count,
                reports,
            );
            proof {
                lemma_tells(reports@, told_middle, told, self.total);
                lemma_pairs_work_concat(view, done, chunks@[k as int]@, shared);
                assert(chunks@.take(k + 1).drop_last() =~= chunks@.take(k as int));
                lemma_edges_of_pairs_concat(view, done, chunks@[k as int]@, shared);
                lemma_submits_more(
                    *collectors,
                    middle,
                    before,
                    edges_of_pairs(view, done, shared),
                    edges_of_pairs(view, chunks@[k as int]@, shared),
                    chains,
                    c,
                    result,
                );
            }
            if let Err(error) = result {
                proof {
                    lemma_flat_grows(view, chunks@, k + 1, chunks@.len() as int, shared);
                    assert(chunks@.take(chunks@.len() as int) =~= chunks@);
                    submission::lemma_refusal_longer(
                        error@,
                        before,
                        *collectors,
                        edges_of_pairs(view, rescue_store::flat(chunks@.take(k + 1)), shared),
                        edges_of_pairs(view, rescue_store::flat(chunks@), shared),
                        chains,
                        c,
                    );
                }
                return Err(error);
            }
            k = k + 1;
        }
        assert(chunks@.take(k as int) =~= chunks@);
        Ok(())
    }

    /// Reads spilled pairs batch by batch, and submits them.
    #[verifier::loop_isolation(false)]
    #[verifier::rlimit(60)]
    fn append_spilled(
        &mut self,
        features: &FeatureView,
        bytes: &Vec<u8>,
        path: &str,
        batch_pairs: usize,
        shared: bool,
        collectors: &mut ScopeCollectors,
        chain_count: usize,
        reports: &mut Vec<ProgressEvent>,
    ) -> (result: Result<(), PipelineError>)
        requires
            catalog::is_expandable(*features, chain_count as int),
            known_pairs(*features, decoded(bytes@), shared),
            0 < batch_pairs,
            batch_pairs * 8 <= usize::MAX,
            old(collectors).wf(),
            submission::covers_chains(*old(collectors), chain_count as int),
        ensures
            final(self).total == old(self).total,
            tells(final(reports)@, old(reports)@, old(self).total),
            result is Ok ==> final(self).completed == counted(
                old(self).completed,
                pairs_work(*features, decoded(bytes@), shared),
            ),
            match result {
                Ok(_) => bytes@.len() % 8 == 0 && submits(
                    *final(collectors),
                    *old(collectors),
                    edges_of_pairs(*features, decoded(bytes@), shared),
                    features.contract_chain@,
                    chain_count as int,
                    result,
                ),
                Err(e) => spill_fails(
                    *final(collectors),
                    *old(collectors),
                    bytes@,
                    path@,
                    batch_pairs as nat,
                    e@,
                    edges_of_pairs(*features, decoded(bytes@), shared),
                    features.contract_chain@,
                    chain_count as int,
                ),
            },
            edges_of_pairs(*features, decoded(bytes@), shared).len() == 0 ==> *final(collectors)
                == *old(collectors) && (bytes@.len() % 8 != 0 || result is Ok),
    {
        let ghost view = *features;
        let ghost chains = view.contract_chain@;
        let ghost c = chain_count as int;
        let ghost before = *collectors;
        let ghost told = reports@;
        let ghost all = decoded(bytes@);
        let width: usize = batch_pairs * 8;
        let len: usize = bytes.len();
        let mut begin: usize = 0;
        let ghost mut batches: int = 0;
        proof {
            assert(reports@.take(told.len() as int) =~= told);
            assert(all.take(0) =~= Seq::<(u32, u32)>::empty());
            lemma_submits_none(before, chains, c);
            assert(edges_of_pairs(view, all.take(0), shared) =~= Seq::<Edge>::empty());
            assert(0 * width == 0);
        }
        while begin < len
            invariant
                begin <= len,
                begin % 8 == 0,
                0 <= batches,
                begin < len ==> begin == batches * width,
                self.total == old(self).total,
                tells(reports@, told, self.total),
                self.completed == counted(
                    old(self).completed,
                    pairs_work(view, all.take(begin as int / 8), shared),
                ),
                submits(
                    *collectors,
                    before,
                    edges_of_pairs(view, all.take(begin as int / 8), shared),
                    chains,
                    c,
                    Ok(()),
                ),
            decreases len - begin,
        {
            let end: usize = if len - begin > width {
                begin + width
            } else {
                len
            };
            let ghost done = all.take(begin as int / 8);
            let ghost middle = *collectors;
            let ghost told_middle = reports@;
            let part = slice_subrange(bytes.as_slice(), begin, end);
            proof {
                assert(width % 8 == 0);
                if end - begin < width {
                    lemma_remainder(len as int, width as int, batches);
                } else {
                    assert((batches + 1) * width == batches * width + width)
                        by (nonlinear_arith);
                }
            }
            match decode_pairs(part) {
                Err(filled) => {
                    proof {
                        let count = begin as int / 8;
                        assert(all.take(count) + all.skip(count) =~= all);
                        lemma_edges_of_pairs_concat(
                            view,
                            all.take(count),
                            all.skip(count),
                            shared,
                        );
                    }
                    return Err(
                        PipelineError::Invariant(
                            "truncated rescue spill file ".to_owned().concat(path).concat(
                                ": ",
                            ).concat(decimal(filled as u64).as_str()).concat(" trailing bytes"),
                        ),
                    );
                },
                Ok(pairs) => {
                    proof {
                        assert forall|k: int| 0 <= k < pairs@.len() implies #[trigger] pairs@[k]
                            == all[begin as int / 8 + k] by {
                            let at = begin as int / 8 + k;
                            assert(part@.subrange(k * 8, k * 8 + 4) =~= bytes@.subrange(
                                at * 8,
                                at * 8 + 4,
                            ));
                            assert(part@.subrange(k * 8 + 4, k * 8 + 8) =~= bytes@.subrange(
                                at * 8 + 4,
                                at * 8 + 8,
                            ));
                        }
                        assert(all.take(end as int / 8) =~= done + pairs@);
                        lemma_edges_of_pairs_concat(view, done, pairs@, shared);
                    }
                    let result = self.append_pairs(
                        features,
                        &pairs,
                        shared,
                        collectors,
                        chain_count,
                        reports,
                    );
                    proof {
                        lemma_tells(reports@, told_middle, told, self.total);
                        lemma_pairs_work_concat(view, done, pairs@, shared);
                        lemma_submits_more(
                            *collectors,
                            middle,
                            before,
                            edges_of_pairs(view, done, shared),
                            edges_of_pairs(view, pairs@, shared),
                            chains,
                            c,
                            result,
                        );
                    }
                    if let Err(error) = result {
                        proof {
                            let count = end as int / 8;
                            assert(all.take(count) + all.skip(count) =~= all);
                            lemma_edges_of_pairs_concat(
                                view,
                                all.take(count),
                                all.skip(count),
                                shared,
                            );
                            submission::lemma_begins(
                                edges_of_pairs(view, all.take(count), shared),
                                edges_of_pairs(view, all.skip(count), shared),
                            );
                            submission::lemma_refusal_longer(
                                error@,
                                before,
                                *collectors,
                                edges_of_pairs(view, all.take(count), shared),
                                edges_of_pairs(view, all, shared),
                                chains,
                                c,
                            );
                        }
                        return Err(error);
                    }
                },
            }
            begin = end;
            proof {
                batches = batches + 1;
            }
        }
        assert(all.take(begin as int / 8) =~= all);
        Ok(())
    }
}

proof fn lemma_remainder(len: int, width: int, batches: int)
    requires
        0 <= batches,
        batches * width <= len < batches * width + width,
        width > 0,
    ensures
        len - batches * width == len % width,
{
    vstd::arithmetic::div_mod::lemma_fundamental_div_mod_converse(
        len,
        width,
        batches,
        len - batches * width,
    );
}

/// The edges of a plan's matches, the edges that need no scoring among them.
pub open spec fn plan_edges(
    view: FeatureView,
    matches: RescueMatches,
    base: Seq<(u32, u32)>,
    spill: RescueSpillWrite,
) -> Seq<Edge> {
    match matches {
        RescueMatches::Sorted { atom_pairs, shared_edges } => atom_pair_edges(view, atom_pairs@)
            + contract_edges(shared_edges@),
        RescueMatches::Chunks { atom, shared } => atom_pair_edges(view, rescue_store::flat(atom@))
            + contract_edges(base) + contract_edges(rescue_store::flat(shared@)),
        RescueMatches::Spilled => atom_pair_edges(view, decoded(spill.atom@)) + contract_edges(base)
            + contract_edges(decoded(spill.shared@)),
    }
}

/// The pairs of contracts that a plan's matches stand for.
pub open spec fn plan_work(
    view: FeatureView,
    matches: RescueMatches,
    base: Seq<(u32, u32)>,
    spill: RescueSpillWrite,
) -> nat {
    match matches {
        RescueMatches::Sorted { atom_pairs, shared_edges } => atom_pair_work(view, atom_pairs@)
            + shared_edges@.len(),
        RescueMatches::Chunks { atom, shared } => atom_pair_work(view, rescue_store::flat(atom@))
            + base.len() + rescue_store::flat(shared@).len(),
        RescueMatches::Spilled => atom_pair_work(view, decoded(spill.atom@)) + base.len()
            + decoded(spill.shared@).len(),
    }
}

/// The pairs of a plan's matches are known.
pub open spec fn plan_known(
    view: FeatureView,
    matches: RescueMatches,
    base: Seq<(u32, u32)>,
    spill: RescueSpillWrite,
) -> bool {
    &&& known_contract_pairs(view, base)
    &&& match matches {
        RescueMatches::Sorted { atom_pairs, shared_edges } => known_atom_pairs(view, atom_pairs@)
            && known_contract_pairs(view, shared_edges@),
        RescueMatches::Chunks { atom, shared } => (forall|k: int|
            0 <= k < atom@.len() ==> known_pairs(view, #[trigger] atom@[k]@, false)) && forall|
            k: int,
        |
            0 <= k < shared@.len() ==> known_pairs(view, #[trigger] shared@[k]@, true),
        RescueMatches::Spilled => known_atom_pairs(view, decoded(spill.atom@))
            && known_contract_pairs(view, decoded(spill.shared@)),
    }
}

/// Submits the edges of a planned rescue. `spill` holds what was spilled, `available` the bytes
/// that buffers may take beside those of the plan.
#[verifier::rlimit(30)]
pub fn append_rescue_edges(
    features: &FeatureView,
    plan: &RescueExecutionPlan,
    base: &Vec<(u32, u32)>,
    spill: &RescueSpillWrite,
    atom_path: &str,
    shared_path: &str,
    available: u64,
    collectors: &mut ScopeCollectors,
    chain_count: usize,
    reports: &mut Vec<ProgressEvent>,
) -> (result: Result<(), PipelineError>)
    requires
        catalog::is_expandable(*features, chain_count as int),
        plan_known(*features, plan.matches, base@, *spill),
        old(collectors).wf(),
        submission::covers_chains(*old(collectors), chain_count as int),
    ensures
        catalog::extends(final(reports)@, old(reports)@),
        ({
            let begin = old(reports)@.len() as int;
            let end = final(reports)@.len() as int;
            &&& begin < end
            &&& is_rescue_report(final(reports)@[begin], 0, plan.work())
            &&& forall|k: int|
                begin <= k < end - 1 ==> is_rescue_report(
                    #[trigger] final(reports)@[k],
                    final(reports)@[k].completed,
                    plan.work(),
                )
            &&& result is Ok ==> {
                let work = plan_work(*features, plan.matches, base@, *spill);
                begin + 1 < end && is_rescue_report(
                    final(reports)@[end - 1],
                    counted(0, work),
                    counted(0, work),
                )
            }
        }),
        final(collectors).wf(),
        final(collectors).continues(*old(collectors)),
        final(collectors).scopes() == old(collectors).scopes(),
        match result {
            Ok(_) => {
                &&& submission::gains(
                    *final(collectors),
                    *old(collectors),
                    plan_edges(*features, plan.matches, base@, *spill),
                    features.contract_chain@,
                    chain_count as int,
                )
                &&& collectors::counts_more(
                    final(collectors).accepted(),
                    old(collectors).accepted(),
                    plan_edges(*features, plan.matches, base@, *spill).len(),
                )
                &&& final(collectors).is_cancelled() == old(collectors).is_cancelled()
                &&& plan.matches is Spilled ==> spill.atom@.len() % 8 == 0 && spill.shared@.len() % 8
                    == 0
            },
            Err(e) => if plan.matches is Spilled && !submission::is_refusal(
                e@,
                *old(collectors),
                *final(collectors),
                plan_edges(*features, plan.matches, base@, *spill),
                features.contract_chain@,
                chain_count as int,
            ) {
                ||| spill.atom@.len() % 8 != 0 && exists|filled: nat| e@ == #[trigger] truncation(
                    atom_path@,
                    filled,
                )
                ||| spill.shared@.len() % 8 != 0 && exists|filled: nat|
                    e@ == #[trigger] truncation(shared_path@, filled)
            } else {
                submission::is_refusal(
                    e@,
                    *old(collectors),
                    *final(collectors),
                    plan_edges(*features, plan.matches, base@, *spill),
                    features.contract_chain@,
                    chain_count as int,
                )
            },
        },
        plan_edges(*features, plan.matches, base@, *spill).len() == 0 ==> *final(collectors)
            == *old(collectors) && (plan.matches is Spilled && (spill.atom@.len() % 8 != 0
            || spill.shared@.len() % 8 != 0) || result is Ok),
{
    let ghost view = *features;
    let ghost chains = view.contract_chain@;
    let ghost c = chain_count as int;
    let ghost before = *collectors;
    let ghost told = reports@;
    let mut work = RescueExpansion { completed: 0, total: plan.execution_work() };
    work.report(work.total, 0, reports);
    let ghost told_first = reports@;
    let ghost all = plan_edges(view, plan.matches, base@, *spill);
    match &plan.matches {
        RescueMatches::Sorted { atom_pairs, shared_edges } => {
            let atoms_done = work.append_rescue_atom_pairs(
                features,
                atom_pairs,
                collectors,
                chain_count,
                reports,
            );
            let ghost middle = *collectors;
            let ghost told_second = reports@;
            proof {
                lemma_tells(told_second, told_first, told, work.total);
            }
            if let Err(error) = atoms_done {
                proof {
                    let few = atom_pair_edges(view, atom_pairs@);
                    let rest = contract_edges(shared_edges@);
                    submission::lemma_begins(few, rest);
                    assert(few + rest =~= all);
                    submission::lemma_refusal_longer(
                        error@,
                        before,
                        *collectors,
                        few,
                        all,
                        chains,
                        c,
                    );
                }
                return Err(error);
            }
            let edges_done = work.append_rescue_shared_pairs(
                features,
                shared_edges,
                collectors,
                chain_count,
                reports,
            );
            proof {
                lemma_tells(reports@, told_second, told, work.total);
                lemma_submits_more(
                    *collectors,
                    middle,
                    before,
                    atom_pair_edges(view, atom_pairs@),
                    contract_edges(shared_edges@),
                    chains,
                    c,
                    edges_done,
                );
            }
            if let Err(error) = edges_done {
                return Err(error);
            }
        },
        RescueMatches::Chunks { atom, shared } => {
            let atoms_done = work.append_chunks(
                features,
                atom,
                false,
                collectors,
                chain_count,
                reports,
            );
            let ghost middle = *collectors;
            let ghost told_second = reports@;
            proof {
                lemma_tells(told_second, told_first, told, work.total);
            }
            if let Err(error) = atoms_done {
                proof {
                    let few = atom_pair_edges(view, rescue_store::flat(atom@));
                    let rest = contract_edges(base@) + contract_edges(rescue_store::flat(shared@));
                    submission::lemma_begins(few, rest);
                    assert(few + rest =~= all);
                    submission::lemma_refusal_longer(
                        error@,
                        before,
                        *collectors,
                        few,
                        all,
                        chains,
                        c,
                    );
                }
                return Err(error);
            }
            let base_done = work.append_rescue_shared_pairs(
                features,
                base,
                collectors,
                chain_count,
                reports,
            );
            let ghost third = *collectors;
            let ghost told_third = reports@;
            proof {
                lemma_tells(told_third, told_second, told, work.total);
                lemma_submits_more(
                    third,
                    middle,
                    before,
                    atom_pair_edges(view, rescue_store::flat(atom@)),
                    contract_edges(base@),
                    chains,
                    c,
                    base_done,
                );
            }
            if let Err(error) = base_done {
                proof {
                    let few = atom_pair_edges(view, rescue_store::flat(atom@)) + contract_edges(base@);
                    let rest = contract_edges(rescue_store::flat(shared@));
                    submission::lemma_begins(few, rest);
                    assert(few + rest =~= all);
                    submission::lemma_refusal_longer(
                        error@,
                        before,
                        *collectors,
                        few,
                        all,
                        chains,
                        c,
                    );
                }
                return Err(error);
            }
            let edges_done = work.append_chunks(
                features,
                shared,
                true,
                collectors,
                chain_count,
                reports,
            );
            proof {
                lemma_tells(reports@, told_third, told, work.total);
                lemma_submits_more(
                    *collectors,
                    third,
                    before,
                    atom_pair_edges(view, rescue_store::flat(atom@)) + contract_edges(base@),
                    contract_edges(rescue_store::flat(shared@)),
                    chains,
                    c,
                    edges_done,
                );
            }
            if let Err(error) = edges_done {
                return Err(error);
            }
        },
        RescueMatches::Spilled => {
            let extra: u64 = if available < MAX_RESCUE_STREAM_IO_BYTES {
                available
            } else {
                MAX_RESCUE_STREAM_IO_BYTES
            };
            let batch: usize = rescue_spill_batch_pairs(
                plan.stream_buffer_bytes.saturating_add(extra),
            );
            let atoms_done = work.append_spilled(
                features,
                &spill.atom,
                atom_path,
                batch,
                false,
                collectors,
                chain_count,
                reports,
            );
            let ghost middle = *collectors;
            let ghost told_second = reports@;
            proof {
                lemma_tells(told_second, told_first, told, work.total);
            }
            if let Err(error) = atoms_done {
                proof {
                    let few = atom_pair_edges(view, decoded(spill.atom@));
                    let rest = contract_edges(base@) + contract_edges(decoded(spill.shared@));
                    submission::lemma_begins(few, rest);
                    assert(few + rest =~= all);
                    if submission::is_refusal(error@, before, *collectors, few, chains, c) {
                        submission::lemma_refusal_longer(
                            error@,
                            before,
                            *collectors,
                            few,
                            all,
                            chains,
                            c,
                        );
                    }
                }
                return Err(error);
            }
            let base_done = work.append_rescue_shared_pairs(
                features,
                base,
                collectors,
                chain_count,
                reports,
            );
            let ghost third = *collectors;
            let ghost told_third = reports@;
            proof {
                lemma_tells(told_third, told_second, told, work.total);
                lemma_submits_more(
                    third,
                    middle,
                    before,
                    atom_pair_edges(view, decoded(spill.atom@)),
                    contract_edges(base@),
                    chains,
                    c,
                    base_done,
                );
            }
            if let Err(error) = base_done {
                proof {
                    let few = atom_pair_edges(view, decoded(spill.atom@)) + contract_edges(base@);
                    let rest = contract_edges(decoded(spill.shared@));
                    submission::lemma_begins(few, rest);
                    assert(few + rest =~= all);
                    submission::lemma_refusal_longer(
                        error@,
                        before,
                        *collectors,
                        few,
                        all,
                        chains,
                        c,
                    );
                }
                return Err(error);
            }
            let edges_done = work.append_spilled(
                features,
                &spill.shared,
                shared_path,
                batch,
                true,
                collectors,
                chain_count,
                reports,
            );
            proof {
                lemma_tells(reports@, told_third, told, work.total);
                collectors::lemma_continues_on(*collectors, third, before);
                if edges_done is Ok {
                    lemma_submits_more(
                        *collectors,
                        third,
                        before,
                        atom_pair_edges(view, decoded(spill.atom@)) + contract_edges(base@),
                        contract_edges(decoded(spill.shared@)),
                        chains,
                        c,
                        edges_done,
                    );
                } else if !before.is_cancelled() && collectors.is_cancelled() {
                    submission::lemma_stops_on_later(
                        *collectors,
                        third,
                        before,
                        atom_pair_edges(view, decoded(spill.atom@)) + contract_edges(base@),
                        contract_edges(decoded(spill.shared@)),
                        chains,
                        c,
                        edges_done->Err_0@,
                    );
                }
            }
            if let Err(error) = edges_done {
                return Err(error);
            }
        },
    }
    let ghost told_last = reports@;
    work.report(work.completed, collectors.accepted_edges(), reports);
    proof {
        catalog::lemma_extends(reports@, told_last, told);
        let end = reports@.len() as int;
        assert(reports@.take(end - 1) == told_last);
        assert forall|k: int| told.len() <= k < end - 1 implies is_rescue_report(
            #[trigger] reports@[k],
            reports@[k].completed,
            plan.work(),
        ) by {
            assert(reports@.take(end - 1)[k] == reports@[k]);
            assert(is_rescue_report(told_last[k], told_last[k].completed, plan.work()));
        }
        assert(reports@.take(end - 1)[told.len() as int] == reports@[told.len() as int]);
    }
    Ok(())
}

} // verus!
