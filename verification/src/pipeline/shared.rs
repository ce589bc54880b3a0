//! Edges between the members of a retained token whose payloads match.

use crate::columns;
use crate::pipeline::collectors;
use crate::pipeline::collectors::ScopeCollectors;
use crate::pipeline::compaction;
use crate::pipeline::error;
use crate::pipeline::error::{overflow_error, PipelineError};
use crate::pipeline::fallback::checked_add_pairs;
use crate::pipeline::catalog;
use crate::pipeline::submission;
use crate::pipeline::submission::{flush_edges, push_pending_edge};
use crate::progress::{
    ProgressCounters, ProgressEvent, ProgressPhase, TotalKind, WorkClass, WorkUnit,
};
use crate::reduce::graph::Edge;
use crate::snapshot::features::FeatureView;
use crate::snapshot::metadata::MetadataSnapshot;
use std::collections::{HashMap, HashSet};
use vstd::prelude::*;

verus! {

broadcast use vstd::std_specs::hash::group_hash_axioms;

/// Groups of this many members or more are routed where their index fits.
pub const SHARED_LOCAL_ROUTING_MIN_MEMBERS: usize = 256;

/// Edges are submitted in batches of this many.
pub const SHARED_EDGE_BATCH: usize = 4_096;

/// Visited pairs are reported in portions of this many.
pub const SHARED_WORK_BATCH: u64 = 16_384;

/// Planned members are reported in portions of this many.
pub const SHARED_PROGRESS_CHUNK: u64 = 65_536;

/// The scorer can be asked about any two payloads and always gives the same answer, in either
/// order.
pub open spec fn is_pair_scorer<F: Fn(u32, u32) -> bool>(scorer: F) -> bool {
    &&& forall|left: u32, right: u32| #[trigger] call_requires(scorer, (left, right))
    &&& forall|left: u32, right: u32|
        !(#[trigger] call_ensures(scorer, (left, right), true) && call_ensures(
            scorer,
            (right, left),
            false,
        ))
    &&& forall|left: u32, right: u32|
        !(#[trigger] call_ensures(scorer, (left, right), true) && call_ensures(
            scorer,
            (left, right),
            false,
        ))
}

/// The scorer matches the payloads, in one of their orders.
pub open spec fn pair_matches<F: Fn(u32, u32) -> bool>(scorer: F, left: u32, right: u32) -> bool {
    call_ensures(scorer, (left, right), true) || call_ensures(scorer, (right, left), true)
}

/// Identifies two payloads, whatever their order.
pub open spec fn pair_key(left: u32, right: u32) -> u64 {
    if left <= right {
        (left * 4294967296 + right) as u64
    } else {
        (right * 4294967296 + left) as u64
    }
}

/// Different pairs of payloads have different keys.
pub proof fn lemma_pair_key_injective(a: u32, b: u32, c: u32, d: u32)
    requires
        pair_key(a, b) == pair_key(c, d),
    ensures
        (a == c && b == d) || (a == d && b == c),
{
}

/// Identifies two payloads, whatever their order.
pub fn payload_pair_key(left: u32, right: u32) -> (key: u64)
    ensures
        key == pair_key(left, right),
{
    if left <= right {
        left as u64 * 4294967296 + right as u64
    } else {
        right as u64 * 4294967296 + left as u64
    }
}

/// Some payload occurs twice.
pub open spec fn has_duplicate(payloads: Seq<u32>) -> bool {
    exists|i: int, j: int|
        0 <= i < j < payloads.len() && #[trigger] payloads[i] == #[trigger] payloads[j]
}

/// Whether some payload occurs twice.
pub fn payloads_have_duplicates(payloads: &[u32]) -> (duplicates: bool)
    ensures
        duplicates == has_duplicate(payloads@),
{
    let mut seen: HashSet<u32> = HashSet::new();
    let mut i: usize = 0;
    while i < payloads.len()
        invariant
            i <= payloads@.len(),
            forall|payload: u32|
                seen@.contains(payload) <==> exists|k: int|
                    0 <= k < i && #[trigger] payloads@[k] == payload,
            forall|a: int, b: int|
                0 <= a < b < i ==> #[trigger] payloads@[a] != #[trigger] payloads@[b],
        decreases payloads.len() - i,
    {
        let payload: u32 = payloads[i];
        if seen.contains(&payload) {
            return true;
        }
        seen.insert(payload);
        assert forall|other: u32|
            seen@.contains(other) <==> exists|k: int|
                0 <= k < i + 1 && #[trigger] payloads@[k] == other by {
            if other == payload {
                assert(payloads@[i as int] == other);
            }
        }
        i = i + 1;
    }
    false
}

/// Remembers decisions on pairs of payloads.
pub struct SharedPayloadScoreCache {
    decisions: HashMap<u64, bool>,
    max_entries: usize,
}

impl SharedPayloadScoreCache {
    /// Every remembered decision is the scorer's.
    pub closed spec fn agrees<F: Fn(u32, u32) -> bool>(self, scorer: F) -> bool {
        forall|left: u32, right: u32| #[trigger]
            self.decisions@.contains_key(pair_key(left, right)) ==> self.decisions@[pair_key(
                left,
                right,
            )] == pair_matches(scorer, left, right)
    }

    /// The most decisions that are remembered.
    pub closed spec fn limit(self) -> usize {
        self.max_entries
    }

    /// A cache of at most `max_entries` decisions, or none where it is not enabled.
    pub fn new(enabled: bool, max_entries: usize) -> (cache: SharedPayloadScoreCache)
        ensures
            cache.limit() == (if enabled {
                max_entries
            } else {
                0
            }),
            cache.is_new(),
    {
        SharedPayloadScoreCache {
            decisions: HashMap::new(),
            max_entries: if enabled {
                max_entries
            } else {
                0
            },
        }
    }

    /// Nothing is remembered.
    pub closed spec fn is_new(self) -> bool {
        self.decisions@ == Map::<u64, bool>::empty()
    }

    /// A new cache agrees with any scorer.
    pub proof fn lemma_new_agrees<F: Fn(u32, u32) -> bool>(self, scorer: F)
        requires
            self.is_new(),
        ensures
            self.agrees(scorer),
    {
    }

    /// Whether the payloads match.
    pub fn exact_match<F: Fn(u32, u32) -> bool>(&mut self, left: u32, right: u32, scorer: &F) -> (matched:
        bool)
        requires
            is_pair_scorer(*scorer),
            old(self).agrees(*scorer),
        ensures
            matched == pair_matches(*scorer, left, right),
            final(self).agrees(*scorer),
            final(self).limit() == old(self).limit(),
    {
        if self.max_entries == 0 {
            return scorer(left, right);
        }
        let key: u64 = payload_pair_key(left, right);
        if let Some(decision) = self.decisions.get(&key) {
            assert(self.decisions@.contains_key(pair_key(left, right)));
            return *decision;
        }
        let decision: bool = scorer(left, right);
        let ghost before = *self;
        if self.decisions.len() < self.max_entries {
            self.decisions.insert(key, decision);
            proof {
                assert forall|a: u32, b: u32| #[trigger]
                    self.decisions@.contains_key(pair_key(a, b)) implies self.decisions@[pair_key(
                    a,
                    b,
                )] == pair_matches(*scorer, a, b) by {
                    if pair_key(a, b) == key {
                        lemma_pair_key_injective(a, b, left, right);
                    } else {
                        assert(before.decisions@.contains_key(pair_key(a, b)));
                    }
                }
            }
        }
        decision
    }
}

/// Sources have known payloads, and payloads have template and content terms.
pub open spec fn has_payload_terms(view: FeatureView) -> bool {
    &&& columns::all_below(view.source_to_payload@, view.payload_count())
    &&& columns::is_row_table(
        view.payload_template_offsets@,
        view.payload_template_terms@.len(),
    )
    &&& columns::is_row_table(view.payload_content_offsets@, view.payload_content_terms@.len())
    &&& view.payload_template_offsets@.len() == view.payload_count() + 1
    &&& view.payload_content_offsets@.len() == view.payload_count() + 1
}

/// The members of tokens and their payloads are known.
pub open spec fn is_shareable(view: FeatureView, chain_count: int) -> bool {
    &&& has_members(view)
    &&& view.contract_chain@.len() == view.contract_count()
    &&& view.contract_count() <= u32::MAX
    &&& columns::all_below(view.contract_chain@, chain_count)
}

/// A consistent snapshot's tokens can be scored.
pub proof fn lemma_snapshot_shareable(snapshot: MetadataSnapshot)
    requires
        snapshot.wf(),
    ensures
        is_shareable(snapshot.features, snapshot.ready.chains@.len() as int),
{
}

/// The number of members of a token.
pub open spec fn group_len(view: FeatureView, token: int) -> int {
    view.token_member_offsets@[token + 1] - view.token_member_offsets@[token]
}

/// The contract of a token's member.
pub open spec fn member_contract(view: FeatureView, token: int, member: int) -> u32 {
    view.token_member_contracts@[view.token_member_offsets@[token] + member]
}

/// The payload of a token's member.
pub open spec fn member_payload(view: FeatureView, token: int, member: int) -> u32 {
    view.source_to_payload@[view.token_member_sources@[view.token_member_offsets@[token]
        + member] as int]
}

/// The number of template and content terms of a payload.
pub open spec fn term_count(view: FeatureView, payload: int) -> int {
    view.payload_template_offsets@[payload + 1] - view.payload_template_offsets@[payload]
        + view.payload_content_offsets@[payload + 1] - view.payload_content_offsets@[payload]
}

/// Bytes that routing takes for a member of a payload.
pub open spec fn member_bytes(view: FeatureView, payload: int) -> int {
    let bytes = term_count(view, payload) * 8 + 256;
    if bytes <= u64::MAX {
        bytes
    } else {
        u64::MAX as int
    }
}

/// Bytes that routing takes for the first `count` members of a token.
pub open spec fn members_bytes(view: FeatureView, token: int, count: int) -> int
    decreases count,
{
    if count <= 0 {
        0
    } else {
        members_bytes(view, token, count - 1) + member_bytes(
            view,
            member_payload(view, token, count - 1) as int,
        )
    }
}

/// Bytes that routing takes for a token; small groups are not routed.
pub open spec fn group_bytes(view: FeatureView, token: int) -> int {
    if group_len(view, token) < SHARED_LOCAL_ROUTING_MIN_MEMBERS {
        0
    } else {
        members_bytes(view, token, group_len(view, token))
    }
}

/// Bytes that routing takes for a member.
pub fn shared_member_index_bytes(features: &FeatureView, source: u32) -> (result: Result<
    u64,
    PipelineError,
>)
    requires
        has_payload_terms(*features),
        source < features.source_to_payload@.len(),
    ensures
        ({
            let payload = features.source_to_payload@[source as int] as int;
            if term_count(*features, payload) > u64::MAX {
                result matches Err(e) && e@ == error::overflow_fault()
            } else {
                result matches Ok(bytes) && bytes == member_bytes(*features, payload)
            }
        }),
{
    let ghost view = *features;
    let payload: usize = features.source_to_payload[source as usize] as usize;
    let rows: usize = features.payload_template_offsets.len();
    let content_rows: usize = features.payload_content_offsets.len();
    proof {
        assert(view.source_to_payload@[source as int] < view.payload_count());
        columns::lemma_row_bounds(
            view.payload_template_offsets@,
            view.payload_template_terms@.len(),
            payload as int,
        );
        columns::lemma_row_bounds(
            view.payload_content_offsets@,
            view.payload_content_terms@.len(),
            payload as int,
        );
    }
    let template: u64 = features.payload_template_offsets[payload + 1]
        - features.payload_template_offsets[payload];
    let content: u64 = features.payload_content_offsets[payload + 1]
        - features.payload_content_offsets[payload];
    match template.checked_add(content) {
        None => Err(overflow_error()),
        Some(terms) => {
            let bytes: u64 = match terms.checked_mul(8) {
                Some(bytes) => bytes,
                None => u64::MAX,
            };
            Ok(bytes.saturating_add(256))
        },
    }
}

/// A count of the first `count` members of a routed token does not fit.
pub open spec fn bytes_overflow(view: FeatureView, token: int, count: int) -> bool
    decreases count,
{
    if count <= 0 {
        false
    } else {
        bytes_overflow(view, token, count - 1) || term_count(
            view,
            member_payload(view, token, count - 1) as int,
        ) > u64::MAX || members_bytes(view, token, count) > u64::MAX
    }
}

/// Bytes that routing takes for a token do not fit.
pub open spec fn group_overflows(view: FeatureView, token: int) -> bool {
    group_len(view, token) >= SHARED_LOCAL_ROUTING_MIN_MEMBERS && bytes_overflow(
        view,
        token,
        group_len(view, token),
    )
}

proof fn lemma_bytes_overflow_grows(view: FeatureView, token: int, count: int, more: int)
    requires
        0 <= count <= more,
        bytes_overflow(view, token, count),
    ensures
        bytes_overflow(view, token, more),
    decreases more - count,
{
    if count < more {
        lemma_bytes_overflow_grows(view, token, count, more - 1);
    }
}

/// Bytes that routing takes for a token; small groups are not routed.
#[verifier::loop_isolation(false)]
pub fn shared_group_index_bytes(features: &FeatureView, token: usize) -> (result: Result<
    u64,
    PipelineError,
>)
    requires
        has_members(*features),
        token + 1 < features.token_member_offsets@.len(),
    ensures
        if group_overflows(*features, token as int) {
            result matches Err(e) && e@ == error::overflow_fault()
        } else {
            result matches Ok(bytes) && bytes == group_bytes(*features, token as int)
        },
{
    let ghost view = *features;
    let rows: usize = features.token_member_offsets.len();
    let stored: usize = features.token_member_sources.len();
    proof {
        columns::lemma_row_bounds(
            view.token_member_offsets@,
            view.token_member_contracts@.len(),
            token as int,
        );
    }
    let begin: usize = features.token_member_offsets[token] as usize;
    let end: usize = features.token_member_offsets[token + 1] as usize;
    if end - begin < SHARED_LOCAL_ROUTING_MIN_MEMBERS {
        return Ok(0);
    }
    let mut bytes: u64 = 0;
    let mut at: usize = begin;
    while at < end
        invariant
            begin <= at <= end,
            bytes == members_bytes(view, token as int, at - begin),
            !bytes_overflow(view, token as int, at - begin),
        decreases end - at,
    {
        assert(view.token_member_sources@[at as int] < view.source_to_payload@.len());
        proof {
            assert(member_payload(view, token as int, at - begin)
                == view.source_to_payload@[view.token_member_sources@[at as int] as int]);
            if bytes_overflow(view, token as int, at + 1 - begin) {
                lemma_bytes_overflow_grows(view, token as int, at + 1 - begin, end - begin);
            }
        }
        let own: u64 = shared_member_index_bytes(features, features.token_member_sources[at])?;
        bytes = match bytes.checked_add(own) {
            Some(sum) => sum,
            None => {
                return Err(overflow_error());
            },
        };
        at = at + 1;
    }
    Ok(bytes)
}

/// Tokens have known members with known payloads.
pub open spec fn has_members(view: FeatureView) -> bool {
    let members = view.token_member_contracts@;
    &&& columns::is_row_table(view.token_member_offsets@, members.len())
    &&& view.token_member_sources@.len() == members.len()
    &&& columns::all_below(members, view.contract_count())
    &&& columns::all_below(view.token_member_sources@, view.source_to_payload@.len() as int)
    &&& has_payload_terms(view)
}

/// The edge between two members of a token, where their contracts differ and their payloads
/// match.
pub open spec fn member_edge<F: Fn(u32, u32) -> bool>(
    view: FeatureView,
    scorer: F,
    token: int,
    i: int,
    j: int,
) -> Seq<Edge> {
    let left = member_contract(view, token, i);
    let right = member_contract(view, token, j);
    if left != right && pair_matches(
        scorer,
        member_payload(view, token, i),
        member_payload(view, token, j),
    ) {
        seq![Edge::between(left, right)]
    } else {
        Seq::empty()
    }
}

/// The edges of member `i` to the members after it, up to `end`.
pub open spec fn member_row<F: Fn(u32, u32) -> bool>(
    view: FeatureView,
    scorer: F,
    token: int,
    i: int,
    end: int,
) -> Seq<Edge>
    decreases end - i,
{
    if end <= i + 1 {
        Seq::empty()
    } else {
        member_row(view, scorer, token, i, end - 1) + member_edge(
            view,
            scorer,
            token,
            i,
            end - 1,
        )
    }
}

/// The edges of the first `count` members to those after them.
pub open spec fn member_rows<F: Fn(u32, u32) -> bool>(
    view: FeatureView,
    scorer: F,
    token: int,
    count: int,
) -> Seq<Edge>
    decreases count,
{
    if count <= 0 {
        Seq::empty()
    } else {
        member_rows(view, scorer, token, count - 1) + member_row(
            view,
            scorer,
            token,
            count - 1,
            group_len(view, token),
        )
    }
}

/// The edges of routed pairs of members.
pub open spec fn routed_edges<F: Fn(u32, u32) -> bool>(
    view: FeatureView,
    scorer: F,
    token: int,
    routes: Seq<(u32, u32)>,
    count: int,
) -> Seq<Edge>
    decreases count,
{
    if count <= 0 {
        Seq::empty()
    } else {
        routed_edges(view, scorer, token, routes, count - 1) + member_edge(
            view,
            scorer,
            token,
            routes[count - 1].0 as int,
            routes[count - 1].1 as int,
        )
    }
}

/// The token's pairs are routed: it has many members, and their index fits.
pub open spec fn is_routed(view: FeatureView, token: int, budget: u64) -> bool {
    group_len(view, token) >= SHARED_LOCAL_ROUTING_MIN_MEMBERS && group_bytes(view, token) <= budget
}

/// The edges of a token.
pub open spec fn token_edges<F: Fn(u32, u32) -> bool>(
    view: FeatureView,
    scorer: F,
    token: int,
    routes: Seq<(u32, u32)>,
    budget: u64,
) -> Seq<Edge> {
    if is_routed(view, token, budget) {
        routed_edges(view, scorer, token, routes, routes.len() as int)
    } else {
        member_rows(view, scorer, token, group_len(view, token))
    }
}

/// The pairs visited for a token.
pub open spec fn token_visits(
    view: FeatureView,
    token: int,
    routes: Seq<(u32, u32)>,
    budget: u64,
) -> int {
    if is_routed(view, token, budget) {
        routes.len() as int
    } else {
        group_len(view, token) * (group_len(view, token) - 1) / 2
    }
}

/// The edges of the first `count` tokens.
pub open spec fn shared_edges<F: Fn(u32, u32) -> bool>(
    view: FeatureView,
    scorer: F,
    routes: Seq<Vec<(u32, u32)>>,
    budget: u64,
    count: int,
) -> Seq<Edge>
    decreases count,
{
    if count <= 0 {
        Seq::empty()
    } else {
        shared_edges(view, scorer, routes, budget, count - 1) + token_edges(
            view,
            scorer,
            count - 1,
            routes[count - 1]@,
            budget,
        )
    }
}

/// The pairs visited for the first `count` tokens.
pub open spec fn shared_visits(
    view: FeatureView,
    routes: Seq<Vec<(u32, u32)>>,
    budget: u64,
    count: int,
) -> int
    decreases count,
{
    if count <= 0 {
        0
    } else {
        shared_visits(view, routes, budget, count - 1) + token_visits(
            view,
            count - 1,
            routes[count - 1]@,
            budget,
        )
    }
}

/// The pairs of members of the first `count` tokens.
pub open spec fn member_pair_total(view: FeatureView, count: int) -> int
    decreases count,
{
    if count <= 0 {
        0
    } else {
        member_pair_total(view, count - 1) + group_len(view, count - 1) * (group_len(
            view,
            count - 1,
        ) - 1) / 2
    }
}

/// Some group of the first `count` tokens is too large for its pairs to be counted.
pub open spec fn pairs_overflow(view: FeatureView, count: int) -> bool
    decreases count,
{
    if count <= 0 {
        false
    } else {
        pairs_overflow(view, count - 1) || group_len(view, count - 1) * (group_len(
            view,
            count - 1,
        ) - 1) > u64::MAX || member_pair_total(view, count) > u64::MAX
    }
}

/// Routing routes every matching pair of members.
pub open spec fn routes_all<F: Fn(u32, u32) -> bool>(
    view: FeatureView,
    scorer: F,
    token: int,
    routes: Seq<(u32, u32)>,
) -> bool {
    forall|i: int, j: int|
        0 <= i < j < group_len(view, token) && (#[trigger] member_edge(view, scorer, token, i, j)).len()
            > 0 ==> routes.contains((i as u32, j as u32)) || routes.contains((j as u32, i as u32))
}

proof fn lemma_pairs_overflow_grows(view: FeatureView, count: int, more: int)
    requires
        0 <= count <= more,
        pairs_overflow(view, count),
    ensures
        pairs_overflow(view, more),
    decreases more - count,
{
    if count < more {
        lemma_pairs_overflow_grows(view, count, more - 1);
    }
}

/// The pairs of members of all tokens.
#[verifier::loop_isolation(false)]
fn count_member_pairs(features: &FeatureView) -> (result: Result<u64, PipelineError>)
    requires
        has_members(*features),
    ensures
        ({
            let count = features.token_member_offsets@.len() - 1;
            if pairs_overflow(*features, count) {
                result matches Err(e) && e@ == error::overflow_fault()
            } else {
                result matches Ok(total) && total == member_pair_total(*features, count)
            }
        }),
{
    let ghost view = *features;
    let count: usize = features.token_member_offsets.len() - 1;
    let mut total: u64 = 0;
    let mut token: usize = 0;
    while token < count
        invariant
            token <= count,
            total == member_pair_total(view, token as int),
            !pairs_overflow(view, token as int),
        decreases count - token,
    {
        proof {
            columns::lemma_row_bounds(
                view.token_member_offsets@,
                view.token_member_contracts@.len(),
                token as int,
            );
            if pairs_overflow(view, token + 1) {
                lemma_pairs_overflow_grows(view, token + 1, count as int);
            }
        }
        let members: u64 = features.token_member_offsets[token + 1]
            - features.token_member_offsets[token];
        total = checked_add_pairs(total, members)?;
        token = token + 1;
    }
    Ok(total)
}

/// A report on shared pairs.
pub open spec fn is_shared_report(
    event: ProgressEvent,
    completed: int,
    total: int,
    groups: int,
) -> bool {
    event == (ProgressEvent {
        phase: ProgressPhase::SharedTokenPairs,
        completed: completed as u64,
        total: Some(total as u64),
        unit: WorkUnit::Pairs,
        work_class: WorkClass::SharedScores,
        total_kind: TotalKind::UpperBound,
        counters: ProgressCounters {
            candidates: 0,
            scored: 0,
            expanded: 0,
            matched: event.counters.matched,
            groups: groups as u64,
        },
    })
}

/// The event is of shared pairs, of which there are at most `total`.
pub open spec fn is_shared_event(event: ProgressEvent, total: u64) -> bool {
    &&& event.phase == ProgressPhase::SharedTokenPairs
    &&& event.unit == WorkUnit::Pairs
    &&& event.work_class == WorkClass::SharedScores
    &&& event.total == Some(total)
    &&& event.total_kind == TotalKind::UpperBound
    &&& event.counters.candidates == 0
    &&& event.counters.scored == 0
    &&& event.counters.expanded == 0
}

/// Reports of shared pairs were added.
pub open spec fn tells_shared(
    after: Seq<ProgressEvent>,
    before: Seq<ProgressEvent>,
    total: u64,
) -> bool {
    &&& catalog::extends(after, before)
    &&& forall|k: int|
        before.len() <= k < after.len() ==> is_shared_event(#[trigger] after[k], total)
}

proof fn lemma_tells_shared(
    last: Seq<ProgressEvent>,
    middle: Seq<ProgressEvent>,
    first: Seq<ProgressEvent>,
    total: u64,
)
    requires
        tells_shared(last, middle, total),
        tells_shared(middle, first, total),
    ensures
        tells_shared(last, first, total),
        forall|k: int| 0 <= k < middle.len() ==> #[trigger] last[k] == middle[k],
{
    catalog::lemma_extends(last, middle, first);
    assert forall|k: int| 0 <= k < middle.len() implies #[trigger] last[k] == middle[k] by {
        assert(last.take(middle.len() as int)[k] == last[k]);
    }
    assert forall|k: int| first.len() <= k < last.len() implies is_shared_event(
        #[trigger] last[k],
        total,
    ) by {
        if k < middle.len() {
            assert(is_shared_event(middle[k], total));
        }
    }
}

/// The edges of more tokens begin with those of fewer.
proof fn lemma_shared_edges_grow<F: Fn(u32, u32) -> bool>(
    view: FeatureView,
    scorer: F,
    routes: Seq<Vec<(u32, u32)>>,
    budget: u64,
    count: int,
    more: int,
)
    requires
        count <= more,
    ensures
        submission::begins(
            shared_edges(view, scorer, routes, budget, more),
            shared_edges(view, scorer, routes, budget, count),
        ),
    decreases more - count,
{
    let all = shared_edges(view, scorer, routes, budget, more);
    let few = shared_edges(view, scorer, routes, budget, count);
    submission::lemma_begins(all, Seq::empty());
    if count < more {
        let most = shared_edges(view, scorer, routes, budget, more - 1);
        lemma_shared_edges_grow(view, scorer, routes, budget, count, more - 1);
        submission::lemma_begins(
            most,
            token_edges(view, scorer, more - 1, routes[more - 1]@, budget),
        );
        submission::lemma_begins_more(all, most, few);
    }
}

proof fn lemma_member_rows_grow<F: Fn(u32, u32) -> bool>(
    view: FeatureView,
    scorer: F,
    token: int,
    count: int,
    more: int,
)
    requires
        count <= more,
    ensures
        submission::begins(
            member_rows(view, scorer, token, more),
            member_rows(view, scorer, token, count),
        ),
    decreases more - count,
{
    let all = member_rows(view, scorer, token, more);
    let few = member_rows(view, scorer, token, count);
    submission::lemma_begins(all, Seq::empty());
    if count < more {
        let most = member_rows(view, scorer, token, more - 1);
        lemma_member_rows_grow(view, scorer, token, count, more - 1);
        submission::lemma_begins(
            most,
            member_row(view, scorer, token, more - 1, group_len(view, token)),
        );
        submission::lemma_begins_more(all, most, few);
    }
}

proof fn lemma_member_row_grows<F: Fn(u32, u32) -> bool>(
    view: FeatureView,
    scorer: F,
    token: int,
    i: int,
    end: int,
    more: int,
)
    requires
        end <= more,
    ensures
        submission::begins(
            member_row(view, scorer, token, i, more),
            member_row(view, scorer, token, i, end),
        ),
    decreases more - end,
{
    let all = member_row(view, scorer, token, i, more);
    let few = member_row(view, scorer, token, i, end);
    submission::lemma_begins(all, Seq::empty());
    if end < more {
        let most = member_row(view, scorer, token, i, more - 1);
        lemma_member_row_grows(view, scorer, token, i, end, more - 1);
        submission::lemma_begins(most, member_edge(view, scorer, token, i, more - 1));
        submission::lemma_begins_more(all, most, few);
    }
}

proof fn lemma_routed_edges_grow<F: Fn(u32, u32) -> bool>(
    view: FeatureView,
    scorer: F,
    token: int,
    routes: Seq<(u32, u32)>,
    count: int,
    more: int,
)
    requires
        count <= more,
    ensures
        submission::begins(
            routed_edges(view, scorer, token, routes, more),
            routed_edges(view, scorer, token, routes, count),
        ),
    decreases more - count,
{
    let all = routed_edges(view, scorer, token, routes, more);
    let few = routed_edges(view, scorer, token, routes, count);
    submission::lemma_begins(all, Seq::empty());
    if count < more {
        let most = routed_edges(view, scorer, token, routes, more - 1);
        lemma_routed_edges_grow(view, scorer, token, routes, count, more - 1);
        submission::lemma_begins(
            most,
            member_edge(
                view,
                scorer,
                token,
                routes[more - 1].0 as int,
                routes[more - 1].1 as int,
            ),
        );
        submission::lemma_begins_more(all, most, few);
    }
}

/// Progress over shared pairs.
struct SharedWork {
    total: u64,
    completed: u64,
    groups: u64,
    pending: u64,
}

impl SharedWork {
    fn report(&self, matched: u64, reports: &mut Vec<ProgressEvent>)
        ensures
            tells_shared(final(reports)@, old(reports)@, self.total),
            final(reports)@.len() == old(reports)@.len() + 1,
            final(reports)@.last().counters.matched == matched,
            is_shared_report(
                final(reports)@.last(),
                self.completed as int,
                self.total as int,
                self.groups as int,
            ),
    {
        let counters = ProgressCounters {
            candidates: 0,
            scored: 0,
            expanded: 0,
            matched,
            groups: self.groups,
        };
        reports.push(
            ProgressEvent::determinate(
                ProgressPhase::SharedTokenPairs,
                self.completed,
                self.total,
                WorkUnit::Pairs,
                counters,
            ).with_plan(WorkClass::SharedScores, TotalKind::UpperBound),
        );
        assert(reports@.take(old(reports)@.len() as int) =~= old(reports)@);
    }

    /// Counts the pending pairs as visited.
    fn settle(&mut self, finished: u64, matched: u64, reports: &mut Vec<ProgressEvent>) -> (result: Result<
        (),
        PipelineError,
    >)
        ensures
            tells_shared(final(reports)@, old(reports)@, old(self).total),
            final(self).total == old(self).total,
            if old(self).completed + old(self).pending <= u64::MAX {
                &&& result is Ok
                &&& final(self).completed == old(self).completed + old(self).pending
                &&& final(self).pending == 0
                &&& old(self).groups + finished <= u64::MAX ==> final(self).groups == old(self).groups + finished
            } else {
                result matches Err(e) && e@ == error::overflow_fault()
            },
    {
        match self.completed.checked_add(self.pending) {
            None => {
                assert(reports@.take(old(reports)@.len() as int) =~= old(reports)@);
                Err(overflow_error())
            },
            Some(completed) => {
                self.completed = completed;
                self.groups = self.groups.saturating_add(finished);
                self.pending = 0;
                self.report(matched, reports);
                Ok(())
            },
        }
    }

    /// Counts a pair.
    fn visit(&mut self, matched: u64, reports: &mut Vec<ProgressEvent>) -> (result: Result<
        (),
        PipelineError,
    >)
        requires
            old(self).pending < SHARED_WORK_BATCH,
        ensures
            tells_shared(final(reports)@, old(reports)@, old(self).total),
            final(self).total == old(self).total,
            match result {
                Ok(_) => final(self).groups == old(self).groups && final(self).pending < SHARED_WORK_BATCH && final(self).completed + final(self).pending == old(self).completed + old(self).pending + 1,
                Err(e) => e@ == error::overflow_fault() && old(self).completed + old(self).pending
                    + 1 > u64::MAX,
            },
    {
        assert(reports@.take(old(reports)@.len() as int) =~= old(reports)@);
        self.pending = self.pending + 1;
        if self.pending >= SHARED_WORK_BATCH {
            return self.settle(0, matched, reports);
        }
        Ok(())
    }
}

/// Scores a pair of members and takes the edge between them.
fn take_member_pair<F: Fn(u32, u32) -> bool>(
    features: &FeatureView,
    token: usize,
    i: usize,
    j: usize,
    scorer: &F,
    cache: &mut SharedPayloadScoreCache,
    pending: &mut Vec<Edge>,
    collectors: &mut ScopeCollectors,
    chain_count: usize,
) -> (result: Result<(), PipelineError>)
    requires
        is_shareable(*features, chain_count as int),
        token + 1 < features.token_member_offsets@.len(),
        i < group_len(*features, token as int),
        j < group_len(*features, token as int),
        is_pair_scorer(*scorer),
        old(cache).agrees(*scorer),
        old(collectors).wf(),
        submission::covers_chains(*old(collectors), chain_count as int),
        compaction::edges_known(
            old(pending)@,
            features.contract_chain@,
            chain_count as int,
        ),
    ensures
        final(cache).agrees(*scorer),
        submission::sink_steps(
            final(pending)@,
            *final(collectors),
            old(pending)@,
            *old(collectors),
            features.contract_chain@,
            chain_count as int,
            result,
            member_edge(*features, *scorer, token as int, i as int, j as int),
        ),
{
    let ghost view = *features;
    let ghost chains = view.contract_chain@;
    let ghost c = chain_count as int;
    let rows: usize = features.token_member_offsets.len();
    let stored: usize = features.token_member_contracts.len();
    proof {
        columns::lemma_row_bounds(
            view.token_member_offsets@,
            view.token_member_contracts@.len(),
            token as int,
        );
    }
    let begin: usize = features.token_member_offsets[token] as usize;
    let left: u32 = features.token_member_contracts[begin + i];
    let right: u32 = features.token_member_contracts[begin + j];
    proof {
        submission::lemma_sink_rests(pending@, *collectors, chains, c);
        assert(view.token_member_contracts@[begin + i] < view.contract_count());
        assert(view.token_member_contracts@[begin + j] < view.contract_count());
        assert(view.token_member_sources@[begin + i] < view.source_to_payload@.len());
        assert(view.token_member_sources@[begin + j] < view.source_to_payload@.len());
        assert(chains[left as int] < c && chains[right as int] < c);
    }
    if left == right {
        return Ok(());
    }
    let left_payload: u32 = features.source_to_payload[features.token_member_sources[begin
        + i] as usize];
    let right_payload: u32 = features.source_to_payload[features.token_member_sources[begin
        + j] as usize];
    if cache.exact_match(left_payload, right_payload, scorer) {
        let edge = Edge::new(left, right);
        proof {
            assert(seq![edge][0] == edge);
        }
        return push_pending_edge(
            pending,
            SHARED_EDGE_BATCH,
            collectors,
            &features.contract_chain,
            chain_count,
            edge,
        );
    }
    Ok(())
}

/// The payloads of a token's members.
fn member_payloads(features: &FeatureView, token: usize) -> (payloads: Vec<u32>)
    requires
        has_members(*features),
        token + 1 < features.token_member_offsets@.len(),
    ensures
        payloads@.len() == group_len(*features, token as int),
        forall|k: int|
            0 <= k < payloads@.len() ==> #[trigger] payloads@[k] == member_payload(
                *features,
                token as int,
                k,
            ),
{
    let ghost view = *features;
    let rows: usize = features.token_member_offsets.len();
    let stored: usize = features.token_member_sources.len();
    proof {
        columns::lemma_row_bounds(
            view.token_member_offsets@,
            view.token_member_contracts@.len(),
            token as int,
        );
    }
    let begin: usize = features.token_member_offsets[token] as usize;
    let end: usize = features.token_member_offsets[token + 1] as usize;
    let mut payloads: Vec<u32> = Vec::new();
    let mut at: usize = begin;
    while at < end
        invariant
            begin <= at <= end <= stored,
            view == *features,
            has_members(view),
            stored == view.token_member_sources@.len(),
            begin == view.token_member_offsets@[token as int],
            payloads@.len() == at - begin,
            forall|k: int|
                0 <= k < payloads@.len() ==> #[trigger] payloads@[k] == member_payload(
                    view,
                    token as int,
                    k,
                ),
        decreases end - at,
    {
        assert(view.token_member_sources@[at as int] < view.source_to_payload@.len());
        payloads.push(features.source_to_payload[features.token_member_sources[at] as usize]);
        at = at + 1;
    }
    payloads
}

/// The routed pairs are pairs of members.
pub open spec fn are_member_pairs(view: FeatureView, token: int, routes: Seq<(u32, u32)>) -> bool {
    forall|k: int|
        0 <= k < routes.len() ==> (#[trigger] routes[k]).0 < group_len(view, token) && routes[k].1
            < group_len(view, token)
}

/// The pairs of the first `i` members of `n` with those after them.
spec fn pairs_before(i: int, n: int) -> int {
    i * (2 * n - i - 1) / 2
}

proof fn lemma_pairs_before(i: int, n: int)
    requires
        0 <= i < n,
    ensures
        pairs_before(0, n) == 0,
        pairs_before(i + 1, n) == pairs_before(i, n) + (n - i - 1),
        pairs_before(n, n) == n * (n - 1) / 2,
{
    assert((i + 1) * (2 * n - (i + 1) - 1) == i * (2 * n - i - 1) + 2 * (n - i - 1))
        by (nonlinear_arith);
    assert(0 * (2 * n - 0 - 1) == 0);
    assert(n * (2 * n - n - 1) == n * (n - 1));
}

proof fn lemma_pairs_before_bound(i: int, n: int)
    requires
        0 <= i <= n,
    ensures
        pairs_before(i, n) <= n * (n - 1) / 2,
    decreases n - i,
{
    if i < n {
        lemma_pairs_before(i, n);
        lemma_pairs_before_bound(i + 1, n);
    } else {
        assert(n * (2 * n - n - 1) == n * (n - 1));
    }
}

/// Visits all pairs of members of a token.
#[verifier::loop_isolation(false)]
fn scan_all_pairs<F: Fn(u32, u32) -> bool>(
    features: &FeatureView,
    token: usize,
    scorer: &F,
    cache: &mut SharedPayloadScoreCache,
    pending: &mut Vec<Edge>,
    work: &mut SharedWork,
    collectors: &mut ScopeCollectors,
    chain_count: usize,
    reports: &mut Vec<ProgressEvent>,
) -> (result: Result<(), PipelineError>)
    requires
        is_shareable(*features, chain_count as int),
        token + 1 < features.token_member_offsets@.len(),
        is_pair_scorer(*scorer),
        old(cache).agrees(*scorer),
        old(work).pending == 0,
        old(pending)@.len() == 0,
        old(collectors).wf(),
        submission::covers_chains(*old(collectors), chain_count as int),
    ensures
        final(work).total == old(work).total,
        tells_shared(final(reports)@, old(reports)@, old(work).total),
        ({
            let n = group_len(*features, token as int);
            let visits = old(work).completed + n * (n - 1) / 2;
            match result {
                Ok(_) => {
                    &&& final(work).groups == old(work).groups
                    &&& final(work).completed + final(work).pending == visits
                    &&& submission::sink_steps(
                        final(pending)@,
                        *final(collectors),
                        old(pending)@,
                        *old(collectors),
                        features.contract_chain@,
                        chain_count as int,
                        Ok(()),
                        member_rows(*features, *scorer, token as int, n),
                    )
                },
                Err(e) => {
                    &&& catalog::score_fails(
                        *final(collectors),
                        *old(collectors),
                        e@,
                        visits > u64::MAX,
                        member_rows(*features, *scorer, token as int, n),
                        features.contract_chain@,
                        chain_count as int,
                    )
                    &&& member_rows(
                        *features,
                        *scorer,
                        token as int,
                        n,
                    ).len() == 0 ==> visits > u64::MAX && *final(collectors) == *old(collectors)
                },
            }
        }),
{
    let ghost view = *features;
    let ghost chains = view.contract_chain@;
    let ghost c = chain_count as int;
    let ghost t = token as int;
    let ghost n = group_len(view, t);
    let ghost before = *collectors;
    let ghost told = reports@;
    let ghost start = work.completed as int;
    let rows: usize = features.token_member_offsets.len();
    let stored: usize = features.token_member_contracts.len();
    proof {
        columns::lemma_row_bounds(
            view.token_member_offsets@,
            view.token_member_contracts@.len(),
            t,
        );
        submission::lemma_sink_rests(pending@, before, chains, c);
        assert(reports@.take(told.len() as int) =~= told);
        lemma_pairs_before_bound(0, n);
        assert(0 * (2 * n - 0 - 1) == 0);
    }
    let count: usize = (features.token_member_offsets[token + 1]
        - features.token_member_offsets[token]) as usize;
    assert(count == n);
    assert(pending@ =~= Seq::<Edge>::empty());
    let mut i: usize = 0;
    while i < count
        invariant
            i <= count,
            cache.agrees(*scorer),
            work.total == old(work).total,
            work.groups == old(work).groups,
            work.pending < SHARED_WORK_BATCH,
            work.completed + work.pending == start + pairs_before(i as int, n),
            tells_shared(reports@, told, work.total),
            submission::sink_steps(
                pending@,
                *collectors,
                Seq::empty(),
                before,
                chains,
                c,
                Ok(()),
                member_rows(view, *scorer, t, i as int),
            ),
        decreases count - i,
    {
        let ghost done = member_rows(view, *scorer, t, i as int);
        let mut j: usize = i + 1;
        assert(done + member_row(view, *scorer, t, i as int, i + 1) =~= done);
        while j < count
            invariant
                i < j <= count,
                cache.agrees(*scorer),
                work.total == old(work).total,
                work.groups == old(work).groups,
                work.pending < SHARED_WORK_BATCH,
                work.completed + work.pending == start + pairs_before(i as int, n) + (j - i - 1),
                tells_shared(reports@, told, work.total),
                submission::sink_steps(
                    pending@,
                    *collectors,
                    Seq::empty(),
                    before,
                    chains,
                    c,
                    Ok(()),
                    done + member_row(view, *scorer, t, i as int, j as int),
                ),
            decreases count - j,
        {
            let ghost some = done + member_row(view, *scorer, t, i as int, j as int);
            let ghost middle_pending = pending@;
            let ghost middle = *collectors;
            let ghost told_middle = reports@;
            let ghost edge = member_edge(view, *scorer, t, i as int, j as int);
            let taken = take_member_pair(
                features,
                token,
                i,
                j,
                scorer,
                cache,
                pending,
                collectors,
                chain_count,
            );
            proof {
                submission::lemma_sink_steps_more(
                    pending@,
                    *collectors,
                    middle_pending,
                    middle,
                    Seq::empty(),
                    before,
                    chains,
                    c,
                    taken,
                    some,
                    edge,
                );
                assert(some + edge =~= done + member_row(view, *scorer, t, i as int, j + 1));
                lemma_pairs_before(i as int, n);
                lemma_pairs_before_bound(i + 1, n);
                lemma_member_row_grows(view, *scorer, t, i as int, j + 1, n);
                lemma_member_rows_grow(view, *scorer, t, i + 1, n);
            }
            if let Err(error) = taken {
                proof {
                    let row = member_row(view, *scorer, t, i as int, j + 1);
                    let full = member_row(view, *scorer, t, i as int, n);
                    let all = member_rows(view, *scorer, t, n);
                    submission::lemma_begins_more(done, full, row);
                    submission::lemma_begins_more(all, done + full, done + row);
                    assert(Seq::<Edge>::empty() + (done + row) =~= done + row);
                    submission::lemma_refusal_longer(
                        error@,
                        before,
                        *collectors,
                        done + row,
                        all,
                        chains,
                        c,
                    );
                }
                return Err(error);
            }
            let visited = work.visit(collectors.accepted_edges(), reports);
            proof {
                lemma_tells_shared(reports@, told_middle, told, work.total);
            }
            if let Err(error) = visited {
                return Err(error);
            }
            j = j + 1;
        }
        proof {
            lemma_pairs_before(i as int, n);
        }
        i = i + 1;
    }
    proof {
        if n > 0 {
            lemma_pairs_before(0, n);
        }
    }
    Ok(())
}

/// Visits the routed pairs of members of a token.
#[verifier::loop_isolation(false)]
fn scan_routed_pairs<F: Fn(u32, u32) -> bool>(
    features: &FeatureView,
    token: usize,
    routes: &Vec<(u32, u32)>,
    scorer: &F,
    cache: &mut SharedPayloadScoreCache,
    pending: &mut Vec<Edge>,
    work: &mut SharedWork,
    collectors: &mut ScopeCollectors,
    chain_count: usize,
    reports: &mut Vec<ProgressEvent>,
) -> (result: Result<(), PipelineError>)
    requires
        is_shareable(*features, chain_count as int),
        token + 1 < features.token_member_offsets@.len(),
        are_member_pairs(*features, token as int, routes@),
        is_pair_scorer(*scorer),
        old(cache).agrees(*scorer),
        old(work).pending == 0,
        old(pending)@.len() == 0,
        old(collectors).wf(),
        submission::covers_chains(*old(collectors), chain_count as int),
    ensures
        final(work).total == old(work).total,
        tells_shared(final(reports)@, old(reports)@, old(work).total),
        ({
            let visits = old(work).completed + routes@.len();
            match result {
                Ok(_) => {
                    &&& final(work).groups == old(work).groups
                    &&& final(work).completed + final(work).pending == visits
                    &&& submission::sink_steps(
                        final(pending)@,
                        *final(collectors),
                        old(pending)@,
                        *old(collectors),
                        features.contract_chain@,
                        chain_count as int,
                        Ok(()),
                        routed_edges(
                            *features,
                            *scorer,
                            token as int,
                            routes@,
                            routes@.len() as int,
                        ),
                    )
                },
                Err(e) => {
                    &&& catalog::score_fails(
                        *final(collectors),
                        *old(collectors),
                        e@,
                        visits > u64::MAX,
                        routed_edges(
                            *features,
                            *scorer,
                            token as int,
                            routes@,
                            routes@.len() as int,
                        ),
                        features.contract_chain@,
                        chain_count as int,
                    )
                    &&& routed_edges(
                        *features,
                        *scorer,
                        token as int,
                        routes@,
                        routes@.len() as int,
                    ).len() == 0 ==> visits > u64::MAX && *final(collectors) == *old(collectors)
                },
            }
        }),
{
    let ghost view = *features;
    let ghost chains = view.contract_chain@;
    let ghost c = chain_count as int;
    let ghost t = token as int;
    let ghost before = *collectors;
    let ghost told = reports@;
    let ghost start = work.completed as int;
    proof {
        submission::lemma_sink_rests(pending@, before, chains, c);
        assert(reports@.take(told.len() as int) =~= told);
        assert(pending@ =~= Seq::<Edge>::empty());
    }
    let mut k: usize = 0;
    while k < routes.len()
        invariant
            k <= routes@.len(),
            cache.agrees(*scorer),
            work.total == old(work).total,
            work.groups == old(work).groups,
            work.pending < SHARED_WORK_BATCH,
            work.completed + work.pending == start + k,
            tells_shared(reports@, told, work.total),
            submission::sink_steps(
                pending@,
                *collectors,
                Seq::empty(),
                before,
                chains,
                c,
                Ok(()),
                routed_edges(view, *scorer, t, routes@, k as int),
            ),
        decreases routes.len() - k,
    {
        let ghost some = routed_edges(view, *scorer, t, routes@, k as int);
        let ghost middle_pending = pending@;
        let ghost middle = *collectors;
        let ghost told_middle = reports@;
        let (i, j) = routes[k];
        assert(routes@[k as int] == (i, j));
        let ghost edge = member_edge(view, *scorer, t, i as int, j as int);
        let taken = take_member_pair(
            features,
            token,
            i as usize,
            j as usize,
            scorer,
            cache,
            pending,
            collectors,
            chain_count,
        );
        proof {
            submission::lemma_sink_steps_more(
                pending@,
                *collectors,
                middle_pending,
                middle,
                Seq::empty(),
                before,
                chains,
                c,
                taken,
                some,
                edge,
            );
        }
        proof {
            lemma_routed_edges_grow(view, *scorer, t, routes@, k + 1, routes@.len() as int);
        }
        if let Err(error) = taken {
            proof {
                assert(Seq::<Edge>::empty() + (some + edge) =~= some + edge);
                submission::lemma_refusal_longer(
                    error@,
                    before,
                    *collectors,
                    some + edge,
                    routed_edges(view, *scorer, t, routes@, routes@.len() as int),
                    chains,
                    c,
                );
            }
            return Err(error);
        }
        let visited = work.visit(collectors.accepted_edges(), reports);
        proof {
            lemma_tells_shared(reports@, told_middle, told, work.total);
        }
        if let Err(error) = visited {
            return Err(error);
        }
        k = k + 1;
    }
    Ok(())
}

/// Some count of the first `count` tokens does not fit.
pub open spec fn sharing_overflows(
    view: FeatureView,
    routes: Seq<Vec<(u32, u32)>>,
    budget: u64,
    count: int,
) -> bool {
    ||| shared_visits(view, routes, budget, count) > u64::MAX
    ||| exists|token: int| 0 <= token < count && #[trigger] group_overflows(view, token)
}

/// More tokens take no fewer visits.
pub(crate) proof fn lemma_visits_grow(
    view: FeatureView,
    routes: Seq<Vec<(u32, u32)>>,
    budget: u64,
    count: int,
    more: int,
)
    requires
        has_members(view),
        0 <= count <= more < view.token_member_offsets@.len(),
    ensures
        shared_visits(view, routes, budget, count) <= shared_visits(view, routes, budget, more),
    decreases more - count,
{
    if count < more {
        lemma_visits_grow(view, routes, budget, count, more - 1);
        columns::lemma_row_bounds(
            view.token_member_offsets@,
            view.token_member_contracts@.len(),
            more - 1,
        );
        let n = group_len(view, more - 1);
        assert(n * (n - 1) >= 0) by (nonlinear_arith)
            requires
                n >= 0,
        ;
    }
}

/// Submits the edges between members of each token whose payloads match. Returns the number of
/// visited pairs.
#[verifier::loop_isolation(false)]
#[verifier::rlimit(40)]
pub fn append_shared_token_edges<F: Fn(u32, u32) -> bool>(
    features: &FeatureView,
    routes: &Vec<Vec<(u32, u32)>>,
    group_index_budget_bytes: u64,
    max_cache_entries: usize,
    scorer: &F,
    collectors: &mut ScopeCollectors,
    chain_count: usize,
    reports: &mut Vec<ProgressEvent>,
) -> (result: Result<u64, PipelineError>)
    requires
        is_shareable(*features, chain_count as int),
        routes@.len() == features.token_member_offsets@.len() - 1,
        forall|token: int|
            0 <= token < routes@.len() ==> are_member_pairs(
                *features,
                token,
                #[trigger] routes@[token]@,
            ),
        is_pair_scorer(*scorer),
        old(collectors).wf(),
        submission::covers_chains(*old(collectors), chain_count as int),
    ensures
        final(collectors).wf(),
        final(collectors).continues(*old(collectors)),
        catalog::extends(final(reports)@, old(reports)@),
        ({
            let count = features.token_member_offsets@.len() - 1;
            let total = member_pair_total(*features, count);
            let visits = shared_visits(*features, routes@, group_index_budget_bytes, count);
            if pairs_overflow(*features, count) {
                *final(collectors) == *old(collectors) && final(reports)@ == old(reports)@ && (
                result matches Err(e) && e@ == error::overflow_fault())
            } else {
                &&& tells_shared(final(reports)@, old(reports)@, total as u64)
                &&& is_shared_report(final(reports)@[old(reports)@.len() as int], 0, total, 0)
                &&& shared_edges(
                    *features,
                    *scorer,
                    routes@,
                    group_index_budget_bytes,
                    count,
                ).len() == 0 ==> *final(collectors) == *old(collectors) && (sharing_overflows(
                    *features,
                    routes@,
                    group_index_budget_bytes,
                    count,
                ) || result is Ok)
                &&& match result {
                    Ok(completed) => {
                        &&& !sharing_overflows(
                            *features,
                            routes@,
                            group_index_budget_bytes,
                            count,
                        )
                        &&& completed == visits
                        &&& submission::gains(
                            *final(collectors),
                            *old(collectors),
                            shared_edges(
                                *features,
                                *scorer,
                                routes@,
                                group_index_budget_bytes,
                                count,
                            ),
                            features.contract_chain@,
                            chain_count as int,
                        )
                        &&& collectors::counts_more(
                            final(collectors).accepted(),
                            old(collectors).accepted(),
                            shared_edges(
                                *features,
                                *scorer,
                                routes@,
                                group_index_budget_bytes,
                                count,
                            ).len(),
                        )
                        &&& final(collectors).is_cancelled() == old(collectors).is_cancelled()
                        &&& is_shared_report(final(reports)@.last(), visits, total, count)
                        &&& final(reports)@.last().counters.matched
                            == final(collectors).accepted()
                    },
                    Err(e) => catalog::score_fails(
                        *final(collectors),
                        *old(collectors),
                        e@,
                        sharing_overflows(
                            *features,
                            routes@,
                            group_index_budget_bytes,
                            count,
                        ),
                        shared_edges(
                            *features,
                            *scorer,
                            routes@,
                            group_index_budget_bytes,
                            count,
                        ),
                        features.contract_chain@,
                        chain_count as int,
                    ),
                }
            }
        }),
{
    let ghost view = *features;
    let ghost chains = view.contract_chain@;
    let ghost c = chain_count as int;
    let ghost before = *collectors;
    let ghost told = reports@;
    let ghost budget = group_index_budget_bytes;
    proof {
        collectors::lemma_continues_on(before, before, before);
        assert(reports@.take(told.len() as int) =~= told);
    }
    let total: u64 = count_member_pairs(features)?;
    let count: usize = features.token_member_offsets.len() - 1;
    let mut work = SharedWork { total, completed: 0, groups: 0, pending: 0 };
    work.report(0, reports);
    let ghost begun = reports@;
    let mut pending: Vec<Edge> = Vec::new();
    let mut token: usize = 0;
    proof {
        submission::lemma_sink_rests(pending@, before, chains, c);
        assert(pending@ =~= Seq::<Edge>::empty());
    }
    while token < count
        invariant
            token <= count,
            work.total == total,
            work.pending == 0,
            work.groups == token,
            work.completed == shared_visits(view, routes@, budget, token as int),
            pending@.len() == 0,
            forall|other: int| 0 <= other < token ==> !#[trigger] group_overflows(view, other),
            tells_shared(reports@, told, total),
            reports@.len() >= begun.len(),
            reports@[told.len() as int] == begun[told.len() as int],
            submission::sink_steps(
                pending@,
                *collectors,
                Seq::empty(),
                before,
                chains,
                c,
                Ok(()),
                shared_edges(view, *scorer, routes@, budget, token as int),
            ),
        decreases count - token,
    {
        let ghost t = token as int;
        let ghost done = shared_edges(view, *scorer, routes@, budget, t);
        let ghost own = token_edges(view, *scorer, t, routes@[t]@, budget);
        let ghost middle_pending = pending@;
        let ghost middle = *collectors;
        let ghost told_middle = reports@;
        let ghost visited_before = work.completed as int;
        proof {
            columns::lemma_row_bounds(
                view.token_member_offsets@,
                view.token_member_contracts@.len(),
                t,
            );
            lemma_visits_grow(view, routes@, budget, t + 1, count as int);
            lemma_shared_edges_grow(view, *scorer, routes@, budget, t + 1, count as int);
            assert(pending@ =~= Seq::<Edge>::empty());
            collectors::lemma_continues_on(middle, middle, before);
        }
        let bytes: u64 = match shared_group_index_bytes(features, token) {
            Ok(bytes) => bytes,
            Err(error) => {
                assert(group_overflows(view, t));
                return Err(error);
            },
        };
        let payloads = member_payloads(features, token);
        let indexed: bool = payloads.len() >= SHARED_LOCAL_ROUTING_MIN_MEMBERS;
        let cached: bool = if indexed && bytes > group_index_budget_bytes {
            max_cache_entries != 0
        } else {
            payloads_have_duplicates(payloads.as_slice())
        };
        let mut cache = SharedPayloadScoreCache::new(cached, max_cache_entries);
        proof {
            cache.lemma_new_agrees(*scorer);
            assert(are_member_pairs(view, t, routes@[t]@));
        }
        let scanned = if indexed && bytes <= group_index_budget_bytes {
            scan_routed_pairs(
                features,
                token,
                &routes[token],
                scorer,
                &mut cache,
                &mut pending,
                &mut work,
                collectors,
                chain_count,
                reports,
            )
        } else {
            scan_all_pairs(
                features,
                token,
                scorer,
                &mut cache,
                &mut pending,
                &mut work,
                collectors,
                chain_count,
                reports,
            )
        };
        proof {
            lemma_tells_shared(reports@, told_middle, told, total);
            collectors::lemma_continues_on(*collectors, middle, before);
        }
        let ghost all = shared_edges(view, *scorer, routes@, budget, count as int);
        if let Err(error) = scanned {
            proof {
                submission::lemma_moved_all(middle, before, done, chains, c);
                catalog::lemma_score_fails(
                    *collectors,
                    middle,
                    before,
                    error@,
                    sharing_overflows(view, routes@, budget, count as int),
                    done,
                    own,
                    all,
                    chains,
                    c,
                );
            }
            return Err(error);
        }
        let ghost scanned_pending = pending@;
        let ghost scanned_collectors = *collectors;
        proof {
            submission::lemma_sink_steps_more(
                pending@,
                *collectors,
                middle_pending,
                middle,
                Seq::empty(),
                before,
                chains,
                c,
                Ok(()),
                done,
                own,
            );
        }
        let flushed = flush_edges(
            &mut pending,
            collectors,
            &features.contract_chain,
            chain_count,
        );
        proof {
            submission::lemma_sink_steps_more(
                pending@,
                *collectors,
                scanned_pending,
                scanned_collectors,
                Seq::empty(),
                before,
                chains,
                c,
                flushed,
                done + own,
                Seq::empty(),
            );
            assert(done + own + Seq::<Edge>::empty() =~= done + own);
        }
        if let Err(error) = flushed {
            proof {
                assert(Seq::<Edge>::empty() + (done + own) =~= done + own);
                submission::lemma_refusal_longer(
                    error@,
                    before,
                    *collectors,
                    done + own,
                    all,
                    chains,
                    c,
                );
            }
            return Err(error);
        }
        let ghost told_flushed = reports@;
        let settled = work.settle(1, collectors.accepted_edges(), reports);
        proof {
            lemma_tells_shared(reports@, told_flushed, told, total);
        }
        if let Err(error) = settled {
            return Err(error);
        }
        token = token + 1;
    }
    let ghost told_all = reports@;
    work.report(collectors.accepted_edges(), reports);
    proof {
        lemma_tells_shared(reports@, told_all, told, total);
        assert(pending@ =~= Seq::<Edge>::empty());
        submission::lemma_moved_all(
            *collectors,
            before,
            shared_edges(view, *scorer, routes@, budget, count as int),
            chains,
            c,
        );
    }
    Ok(work.completed)
}

/// Two sequences together hold what each holds.
pub(crate) proof fn lemma_concat_holds(a: Seq<Edge>, b: Seq<Edge>, edge: Edge)
    ensures
        (a + b).contains(edge) <==> a.contains(edge) || b.contains(edge),
{
    let all = a + b;
    if a.contains(edge) {
        assert(all[a.index_of(edge)] == edge);
    }
    if b.contains(edge) {
        assert(all[a.len() + b.index_of(edge)] == edge);
    }
    if all.contains(edge) {
        let at = all.index_of(edge);
        if at < a.len() {
            assert(a[at] == edge);
        } else {
            assert(b[at - a.len()] == edge);
        }
    }
}

proof fn lemma_member_row_holds<F: Fn(u32, u32) -> bool>(
    view: FeatureView,
    scorer: F,
    token: int,
    i: int,
    end: int,
    edge: Edge,
)
    requires
        0 <= i,
    ensures
        member_row(view, scorer, token, i, end).contains(edge) <==> exists|j: int|
            i < j < end && (#[trigger] member_edge(view, scorer, token, i, j)).contains(edge),
    decreases end - i,
{
    if end > i + 1 {
        lemma_member_row_holds(view, scorer, token, i, end - 1, edge);
        lemma_concat_holds(
            member_row(view, scorer, token, i, end - 1),
            member_edge(view, scorer, token, i, end - 1),
            edge,
        );
    }
}

/// The edges of members hold those of every two of them.
pub(crate) proof fn lemma_member_rows_hold<F: Fn(u32, u32) -> bool>(
    view: FeatureView,
    scorer: F,
    token: int,
    count: int,
    edge: Edge,
)
    requires
        0 <= count,
    ensures
        member_rows(view, scorer, token, count).contains(edge) <==> exists|i: int, j: int|
            0 <= i < count && i < j < group_len(view, token) && (#[trigger] member_edge(
                view,
                scorer,
                token,
                i,
                j,
            )).contains(edge),
    decreases count,
{
    if count > 0 {
        lemma_member_rows_hold(view, scorer, token, count - 1, edge);
        lemma_member_row_holds(view, scorer, token, count - 1, group_len(view, token), edge);
        lemma_concat_holds(
            member_rows(view, scorer, token, count - 1),
            member_row(view, scorer, token, count - 1, group_len(view, token)),
            edge,
        );
    }
}

/// The edges of routed pairs hold those of every pair.
pub(crate) proof fn lemma_routed_hold<F: Fn(u32, u32) -> bool>(
    view: FeatureView,
    scorer: F,
    token: int,
    routes: Seq<(u32, u32)>,
    count: int,
    edge: Edge,
)
    requires
        0 <= count <= routes.len(),
    ensures
        routed_edges(view, scorer, token, routes, count).contains(edge) <==> exists|k: int|
            0 <= k < count && member_edge(
                view,
                scorer,
                token,
                (#[trigger] routes[k]).0 as int,
                routes[k].1 as int,
            ).contains(edge),
    decreases count,
{
    if count > 0 {
        lemma_routed_hold(view, scorer, token, routes, count - 1, edge);
        lemma_concat_holds(
            routed_edges(view, scorer, token, routes, count - 1),
            member_edge(
                view,
                scorer,
                token,
                routes[count - 1].0 as int,
                routes[count - 1].1 as int,
            ),
            edge,
        );
    }
}

/// Routing that routes every matching pair of a token's members yields the same edges as
/// visiting all pairs.
pub proof fn lemma_routing_is_exact<F: Fn(u32, u32) -> bool>(
    view: FeatureView,
    scorer: F,
    token: int,
    routes: Seq<(u32, u32)>,
    edge: Edge,
)
    requires
        0 <= group_len(view, token) <= u32::MAX,
        are_member_pairs(view, token, routes),
        routes_all(view, scorer, token, routes),
    ensures
        routed_edges(view, scorer, token, routes, routes.len() as int).contains(edge)
            <==> member_rows(view, scorer, token, group_len(view, token)).contains(edge),
{
    let n = group_len(view, token);
    lemma_member_rows_hold(view, scorer, token, n, edge);
    lemma_routed_hold(view, scorer, token, routes, routes.len() as int, edge);
    if routed_edges(view, scorer, token, routes, routes.len() as int).contains(edge) {
        let k = choose|k: int|
            0 <= k < routes.len() && member_edge(
                view,
                scorer,
                token,
                (#[trigger] routes[k]).0 as int,
                routes[k].1 as int,
            ).contains(edge);
        let i = routes[k].0 as int;
        let j = routes[k].1 as int;
        if i < j {
            assert(member_edge(view, scorer, token, i, j).contains(edge));
        } else {
            assert(member_edge(view, scorer, token, j, i) == member_edge(
                view,
                scorer,
                token,
                i,
                j,
            ));
            assert(i != j);
            assert(member_edge(view, scorer, token, j, i).contains(edge));
        }
    }
    if member_rows(view, scorer, token, n).contains(edge) {
        let (i, j) = choose|i: int, j: int|
            0 <= i < n && i < j < n && (#[trigger] member_edge(
                view,
                scorer,
                token,
                i,
                j,
            )).contains(edge);
        if routes.contains((i as u32, j as u32)) {
            let k = routes.index_of((i as u32, j as u32));
            assert(routes[k].0 == i && routes[k].1 == j);
        } else {
            let k = routes.index_of((j as u32, i as u32));
            assert(routes[k].0 == j && routes[k].1 == i);
            assert(member_edge(view, scorer, token, j, i) == member_edge(
                view,
                scorer,
                token,
                i,
                j,
            ));
        }
    }
}

/// The greatest number of bytes that routing takes for one of the first `count` tokens.
pub open spec fn max_group_bytes(view: FeatureView, count: int) -> int
    decreases count,
{
    if count <= 0 {
        0
    } else {
        let before = max_group_bytes(view, count - 1);
        let own = group_bytes(view, count - 1);
        if own > before {
            own
        } else {
            before
        }
    }
}

/// A report on planning shared pairs.
pub open spec fn is_plan_report(event: ProgressEvent, completed: int, total: int, groups: int) -> bool {
    event == (ProgressEvent {
        phase: ProgressPhase::PlanSharedTokenPairs,
        completed: completed as u64,
        total: Some(total as u64),
        unit: WorkUnit::Items,
        work_class: WorkClass::Generic,
        total_kind: TotalKind::Exact,
        counters: ProgressCounters {
            candidates: 0,
            scored: 0,
            expanded: 0,
            matched: 0,
            groups: groups as u64,
        },
    })
}

fn report_plan(completed: u64, total: u64, groups: u64, reports: &mut Vec<ProgressEvent>)
    ensures
        final(reports)@.len() == old(reports)@.len() + 1,
        catalog::extends(final(reports)@, old(reports)@),
        is_plan_report(final(reports)@.last(), completed as int, total as int, groups as int),
{
    let counters = ProgressCounters { candidates: 0, scored: 0, expanded: 0, matched: 0, groups };
    reports.push(
        ProgressEvent::determinate(
            ProgressPhase::PlanSharedTokenPairs,
            completed,
            total,
            WorkUnit::Items,
            counters,
        ),
    );
    assert(reports@.take(old(reports)@.len() as int) =~= old(reports)@);
}

/// The greatest number of bytes that routing takes for one token.
#[verifier::loop_isolation(false)]
pub fn max_shared_group_index_bytes_with_progress(
    features: &FeatureView,
    reports: &mut Vec<ProgressEvent>,
) -> (result: Result<u64, PipelineError>)
    requires
        has_members(*features),
    ensures
        catalog::extends(final(reports)@, old(reports)@),
        ({
            let count = features.token_member_offsets@.len() - 1;
            let total = features.token_member_contracts@.len() as int;
            if exists|token: int|
                0 <= token < count && #[trigger] group_overflows(*features, token) {
                result matches Err(e) && e@ == error::overflow_fault()
            } else {
                &&& result matches Ok(bytes) && bytes == max_group_bytes(*features, count)
                &&& is_plan_report(final(reports)@.last(), total, total, count)
            }
        }),
{
    let ghost view = *features;
    let ghost told = reports@;
    let count: usize = features.token_member_offsets.len() - 1;
    let total: u64 = features.token_member_offsets[count];
    let stored: usize = features.token_member_contracts.len();
    report_plan(0, total, 0, reports);
    let mut maximum: u64 = 0;
    let mut completed: u64 = 0;
    let mut token: usize = 0;
    while token < count
        invariant
            token <= count,
            catalog::extends(reports@, told),
            completed == view.token_member_offsets@[token as int],
            maximum == max_group_bytes(view, token as int),
            forall|t: int| 0 <= t < token ==> !(#[trigger] group_overflows(view, t)),
            is_plan_report(reports@.last(), completed as int, total as int, token as int),
        decreases count - token,
    {
        proof {
            columns::lemma_row_bounds(
                view.token_member_offsets@,
                view.token_member_contracts@.len(),
                token as int,
            );
        }
        let bytes: u64 = match shared_group_index_bytes(features, token) {
            Ok(bytes) => bytes,
            Err(error) => {
                assert(group_overflows(view, token as int));
                return Err(error);
            },
        };
        let end: u64 = features.token_member_offsets[token + 1];
        while end - completed >= SHARED_PROGRESS_CHUNK
            invariant
                completed <= end,
                catalog::extends(reports@, told),
            decreases end - completed,
        {
            let ghost middle = reports@;
            completed = completed + SHARED_PROGRESS_CHUNK;
            report_plan(completed, total, token as u64, reports);
            proof {
                catalog::lemma_extends(reports@, middle, told);
            }
        }
        completed = end;
        if bytes > maximum {
            maximum = bytes;
        }
        let ghost middle = reports@;
        token = token + 1;
        report_plan(completed, total, token as u64, reports);
        proof {
            catalog::lemma_extends(reports@, middle, told);
        }
    }
    Ok(maximum)
}

} // verus!
