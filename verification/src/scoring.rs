//! Which terms two payloads share. Scores are sums over the steps found here.

use crate::columns;
use crate::snapshot::features::FeatureView;
use vstd::prelude::*;

verus! {

/// Revision of the rules by which two payloads match.
pub const MATCH_SEMANTICS_REVISION: u32 = 7;

/// One step of a walk along two rows of terms: a term of the left row alone, of the right row
/// alone, or of both.
#[derive(Debug, Clone, Copy, PartialEq, Eq, Structural)]
pub enum TermStep {
    Left(usize),
    Right(usize),
    Both(usize, usize),
}

/// The step with the two rows swapped.
pub open spec fn mirrored(step: TermStep) -> TermStep {
    match step {
        TermStep::Left(i) => TermStep::Right(i),
        TermStep::Right(j) => TermStep::Left(j),
        TermStep::Both(i, j) => TermStep::Both(j, i),
    }
}

/// The walk along both rows from positions `i` and `j` on: the smaller term goes first, equal
/// terms go together.
pub open spec fn merged(left: Seq<u32>, right: Seq<u32>, i: int, j: int) -> Seq<TermStep>
    decreases left.len() - i + right.len() - j,
{
    if !(0 <= i <= left.len() && 0 <= j <= right.len()) || (i == left.len() && j == right.len()) {
        seq![]
    } else if j >= right.len() || (i < left.len() && left[i] < right[j]) {
        seq![TermStep::Left(i as usize)] + merged(left, right, i + 1, j)
    } else if i >= left.len() || right[j] < left[i] {
        seq![TermStep::Right(j as usize)] + merged(left, right, i, j + 1)
    } else {
        seq![TermStep::Both(i as usize, j as usize)] + merged(left, right, i + 1, j + 1)
    }
}

/// Every term is greater than the one before it.
pub open spec fn increases(terms: Seq<u32>) -> bool {
    forall|i: int, j: int| 0 <= i < j < terms.len() ==> #[trigger] terms[i] < #[trigger] terms[j]
}

/// The walk along two rows of terms.
pub fn merge_terms(left: &[u32], right: &[u32]) -> (steps: Vec<TermStep>)
    ensures
        steps@ == merged(left@, right@, 0, 0),
        is_complete_walk(steps@, left@, right@),
{
    let left_len: usize = left.len();
    let right_len: usize = right.len();
    proof {
        lemma_merge_takes_every_term(left@, right@);
    }
    let mut steps: Vec<TermStep> = Vec::new();
    let mut i: usize = 0;
    let mut j: usize = 0;
    assert(steps@ + merged(left@, right@, 0, 0) =~= merged(left@, right@, 0, 0));
    while i < left.len() || j < right.len()
        invariant
            i <= left@.len(),
            j <= right@.len(),
            steps@ + merged(left@, right@, i as int, j as int) == merged(left@, right@, 0, 0),
        decreases left@.len() - i + right@.len() - j,
    {
        let ghost before = steps@;
        let ghost rest = merged(left@, right@, i as int, j as int);
        if j >= right.len() || (i < left.len() && left[i] < right[j]) {
            steps.push(TermStep::Left(i));
            i = i + 1;
        } else if i >= left.len() || right[j] < left[i] {
            steps.push(TermStep::Right(j));
            j = j + 1;
        } else {
            steps.push(TermStep::Both(i, j));
            i = i + 1;
            j = j + 1;
        }
        assert(steps@ + merged(left@, right@, i as int, j as int) =~= before + rest);
    }
    assert(steps@ + merged(left@, right@, i as int, j as int) =~= steps@);
    steps
}

proof fn lemma_prepend(step: TermStep, rest: Seq<TermStep>, wanted: TermStep)
    ensures
        (seq![step] + rest).contains(wanted) <==> step == wanted || rest.contains(wanted),
{
    let all = seq![step] + rest;
    assert(all[0] == step);
    if rest.contains(wanted) {
        assert(all[rest.index_of(wanted) + 1] == wanted);
    }
    if all.contains(wanted) && step != wanted {
        let k = all.index_of(wanted);
        assert(rest[k - 1] == wanted);
    }
}

proof fn lemma_common_from(
    left: Seq<u32>,
    right: Seq<u32>,
    i: int,
    j: int,
    a: usize,
    b: usize,
)
    requires
        increases(left),
        increases(right),
        left.len() <= usize::MAX,
        right.len() <= usize::MAX,
        0 <= i <= left.len(),
        0 <= j <= right.len(),
    ensures
        merged(left, right, i, j).contains(TermStep::Both(a, b)) <==> i <= a < left.len() && j <= b
            < right.len() && left[a as int] == right[b as int],
    decreases left.len() - i + right.len() - j,
{
    let wanted = TermStep::Both(a, b);
    if i >= left.len() && j >= right.len() {
    } else if j >= right.len() || (i < left.len() && left[i] < right[j]) {
        lemma_common_from(left, right, i + 1, j, a, b);
        lemma_prepend(TermStep::Left(i as usize), merged(left, right, i + 1, j), wanted);
        if a == i && j <= b < right.len() {
            assert(right[j] <= right[b as int]);
        }
    } else if i >= left.len() || right[j] < left[i] {
        lemma_common_from(left, right, i, j + 1, a, b);
        lemma_prepend(TermStep::Right(j as usize), merged(left, right, i, j + 1), wanted);
        if b == j && i <= a < left.len() {
            assert(left[i] <= left[a as int]);
        }
    } else {
        lemma_common_from(left, right, i + 1, j + 1, a, b);
        lemma_prepend(
            TermStep::Both(i as usize, j as usize),
            merged(left, right, i + 1, j + 1),
            wanted,
        );
        if a == i && j < b < right.len() {
            assert(right[j] < right[b as int]);
        }
        if b == j && i < a < left.len() {
            assert(left[i] < left[a as int]);
        }
    }
}

/// A walk along increasing rows meets the two places of every common term, and takes no other
/// two terms together.
pub proof fn lemma_merge_meets_common_terms(left: Seq<u32>, right: Seq<u32>, a: usize, b: usize)
    requires
        increases(left),
        increases(right),
        left.len() <= usize::MAX,
        right.len() <= usize::MAX,
    ensures
        merged(left, right, 0, 0).contains(TermStep::Both(a, b)) <==> a < left.len() && b
            < right.len() && left[a as int] == right[b as int],
{
    lemma_common_from(left, right, 0, 0, a, b);
}

proof fn lemma_mirrored_from(left: Seq<u32>, right: Seq<u32>, i: int, j: int)
    requires
        0 <= i <= left.len(),
        0 <= j <= right.len(),
    ensures
        merged(right, left, j, i) == merged(left, right, i, j).map_values(
            |step: TermStep| mirrored(step),
        ),
    decreases left.len() - i + right.len() - j,
{
    let mirror = |step: TermStep| mirrored(step);
    if i >= left.len() && j >= right.len() {
        assert(merged(right, left, j, i) =~= merged(left, right, i, j).map_values(mirror));
    } else if j >= right.len() || (i < left.len() && left[i] < right[j]) {
        lemma_mirrored_from(left, right, i + 1, j);
        assert(merged(right, left, j, i) =~= merged(left, right, i, j).map_values(mirror));
    } else if i >= left.len() || right[j] < left[i] {
        lemma_mirrored_from(left, right, i, j + 1);
        assert(merged(right, left, j, i) =~= merged(left, right, i, j).map_values(mirror));
    } else {
        lemma_mirrored_from(left, right, i + 1, j + 1);
        assert(merged(right, left, j, i) =~= merged(left, right, i, j).map_values(mirror));
    }
}

/// Swapping the two rows mirrors the walk: both directions of a score come from one walk.
pub proof fn lemma_merge_is_symmetric(left: Seq<u32>, right: Seq<u32>)
    ensures
        merged(right, left, 0, 0) == merged(left, right, 0, 0).map_values(
            |step: TermStep| mirrored(step),
        ),
{
    lemma_mirrored_from(left, right, 0, 0);
}

/// The positions of the left row that steps take, in their order.
pub open spec fn left_taken(steps: Seq<TermStep>) -> Seq<int>
    decreases steps.len(),
{
    if steps.len() == 0 {
        Seq::empty()
    } else {
        match steps.last() {
            TermStep::Left(i) => left_taken(steps.drop_last()).push(i as int),
            TermStep::Right(_) => left_taken(steps.drop_last()),
            TermStep::Both(i, _) => left_taken(steps.drop_last()).push(i as int),
        }
    }
}

/// The positions of the right row that steps take, in their order.
pub open spec fn right_taken(steps: Seq<TermStep>) -> Seq<int>
    decreases steps.len(),
{
    if steps.len() == 0 {
        Seq::empty()
    } else {
        match steps.last() {
            TermStep::Left(_) => right_taken(steps.drop_last()),
            TermStep::Right(j) => right_taken(steps.drop_last()).push(j as int),
            TermStep::Both(_, j) => right_taken(steps.drop_last()).push(j as int),
        }
    }
}

/// The numbers below `count`, in order.
pub open spec fn counted_up(count: nat) -> Seq<int> {
    Seq::new(count, |k: int| k)
}

/// Step `k` takes the next term of a row, where that is smaller than the next of the other row or
/// the other row is at its end, and the next terms of both rows where they are equal.
pub open spec fn takes_next(steps: Seq<TermStep>, left: Seq<u32>, right: Seq<u32>, k: int) -> bool {
    let i = left_taken(steps.take(k)).len() as int;
    let j = right_taken(steps.take(k)).len() as int;
    match steps[k] {
        TermStep::Left(a) => a == i && i < left.len() && (j < right.len() ==> left[i] < right[j]),
        TermStep::Right(b) => b == j && j < right.len() && (i < left.len() ==> right[j] < left[i]),
        TermStep::Both(a, b) => a == i && b == j && i < left.len() && j < right.len() && left[i]
            == right[j],
    }
}

/// A complete walk along two rows: every position of each row is taken exactly once, in order,
/// and every step takes what is next.
pub open spec fn is_complete_walk(steps: Seq<TermStep>, left: Seq<u32>, right: Seq<u32>) -> bool {
    &&& left_taken(steps) == counted_up(left.len())
    &&& right_taken(steps) == counted_up(right.len())
    &&& forall|k: int| 0 <= k < steps.len() ==> #[trigger] takes_next(steps, left, right, k)
}

proof fn lemma_walk_from(prefix: Seq<TermStep>, left: Seq<u32>, right: Seq<u32>, i: int, j: int)
    requires
        left.len() <= usize::MAX,
        right.len() <= usize::MAX,
        0 <= i <= left.len(),
        0 <= j <= right.len(),
        left_taken(prefix) == counted_up(i as nat),
        right_taken(prefix) == counted_up(j as nat),
        forall|k: int| 0 <= k < prefix.len() ==> #[trigger] takes_next(prefix, left, right, k),
    ensures
        is_complete_walk(prefix + merged(left, right, i, j), left, right),
    decreases left.len() - i + right.len() - j,
{
    let rest = merged(left, right, i, j);
    if i >= left.len() && j >= right.len() {
        assert(prefix + rest =~= prefix);
    } else {
        let step = if j >= right.len() || (i < left.len() && left[i] < right[j]) {
            TermStep::Left(i as usize)
        } else if i >= left.len() || right[j] < left[i] {
            TermStep::Right(j as usize)
        } else {
            TermStep::Both(i as usize, j as usize)
        };
        let next_i = if step is Right {
            i
        } else {
            i + 1
        };
        let next_j = if step is Left {
            j
        } else {
            j + 1
        };
        let longer = prefix.push(step);
        assert(longer.drop_last() =~= prefix);
        assert(left_taken(longer) =~= counted_up(next_i as nat));
        assert(right_taken(longer) =~= counted_up(next_j as nat));
        assert forall|k: int| 0 <= k < longer.len() implies #[trigger] takes_next(
            longer,
            left,
            right,
            k,
        ) by {
            assert(longer.take(k) =~= prefix.take(k));
            if k < prefix.len() {
                assert(takes_next(prefix, left, right, k));
            } else {
                assert(prefix.take(k) =~= prefix);
            }
        }
        lemma_walk_from(longer, left, right, next_i, next_j);
        assert(prefix + rest =~= longer + merged(left, right, next_i, next_j));
    }
}

/// The walk along two rows takes every position of each row exactly once and in order, the
/// left-over terms of the longer row among them, and equal next terms together.
pub proof fn lemma_merge_takes_every_term(left: Seq<u32>, right: Seq<u32>)
    requires
        left.len() <= usize::MAX,
        right.len() <= usize::MAX,
    ensures
        is_complete_walk(merged(left, right, 0, 0), left, right),
{
    assert(left_taken(Seq::empty()) =~= counted_up(0));
    assert(right_taken(Seq::empty()) =~= counted_up(0));
    lemma_walk_from(Seq::empty(), left, right, 0, 0);
    assert(Seq::<TermStep>::empty() + merged(left, right, 0, 0) =~= merged(left, right, 0, 0));
}

/// Where the template terms of a payload stand, and where their weights start.
#[derive(Debug, Clone, Copy, PartialEq, Eq, Structural)]
pub struct TemplateRow {
    pub start: usize,
    pub end: usize,
    pub weights: usize,
}

/// Bounds of row `i`, where there is such a row.
pub open spec fn row_bounds(offsets: Seq<u64>, i: int) -> Option<(int, int)> {
    if i + 1 < offsets.len() {
        Some((offsets[i] as int, offsets[i + 1] as int))
    } else {
        None
    }
}

/// The template row of a payload: none where the payload is unknown, or its weights do not
/// belong to its terms one by one.
pub open spec fn template_row_of(view: FeatureView, payload: int) -> Option<(int, int, int)> {
    match (
        row_bounds(view.payload_template_offsets@, payload),
        row_bounds(view.prepared_weight_offsets@, payload),
    ) {
        (Some(terms), Some(weights)) => if terms.1 - terms.0 == weights.1 - weights.0 {
            Some((terms.0, terms.1, weights.0))
        } else {
            None
        },
        _ => None,
    }
}

/// Bounds of row `i`, where there is such a row.
fn row_at(offsets: &Vec<u64>, i: usize, values_len: usize) -> (row: Option<(usize, usize)>)
    requires
        columns::is_row_table(offsets@, values_len as nat),
    ensures
        match row_bounds(offsets@, i as int) {
            Some(bounds) => row matches Some(found) && found.0 == bounds.0 && found.1 == bounds.1
                && found.0 <= found.1 <= values_len,
            None => row is None,
        },
{
    let count: usize = offsets.len();
    if i >= count - 1 {
        None
    } else {
        assert(offsets@[i + 1] <= offsets@[offsets@.len() - 1]);
        Some((offsets[i] as usize, offsets[i + 1] as usize))
    }
}

/// The template row of a payload.
pub fn template_parts(view: &FeatureView, payload: usize) -> (row: Option<TemplateRow>)
    requires
        columns::is_row_table(
            view.payload_template_offsets@,
            view.payload_template_terms@.len(),
        ),
        columns::is_row_table(view.prepared_weight_offsets@, view.prepared_weights@.len()),
    ensures
        match template_row_of(*view, payload as int) {
            Some(expected) => row matches Some(found) && found.start == expected.0 && found.end
                == expected.1 && found.weights == expected.2,
            None => row is None,
        },
{
    let terms = row_at(
        &view.payload_template_offsets,
        payload,
        view.payload_template_terms.len(),
    );
    let weights = row_at(&view.prepared_weight_offsets, payload, view.prepared_weights.len());
    match (terms, weights) {
        (Some((start, end)), Some((first, last))) => {
            if end - start == last - first {
                Some(TemplateRow { start, end, weights: first })
            } else {
                None
            }
        },
        _ => None,
    }
}

/// The content row of a payload.
pub fn content_parts(view: &FeatureView, payload: usize) -> (row: Option<(usize, usize)>)
    requires
        columns::is_row_table(view.payload_content_offsets@, view.payload_content_terms@.len()),
    ensures
        match row_bounds(view.payload_content_offsets@, payload as int) {
            Some(bounds) => row matches Some(found) && found.0 == bounds.0 && found.1 == bounds.1,
            None => row is None,
        },
{
    row_at(&view.payload_content_offsets, payload, view.payload_content_terms.len())
}

} // verus!
