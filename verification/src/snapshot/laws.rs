//! What an opened snapshot is, column by column.

use crate::columns;
use crate::snapshot::atoms;
use crate::snapshot::blocking;
use crate::snapshot::blocking::BlockingView;
use crate::snapshot::features;
use crate::snapshot::features::{FeatureReady, FeatureView};
use crate::snapshot::metadata;
use crate::snapshot::metadata::BlockingReady;
use vstd::prelude::*;

verus! {

/// Offsets of `rows` rows over `values` values: from zero to the last value, never back.
pub open spec fn is_table(offsets: Seq<u64>, rows: int, values: int) -> bool {
    &&& offsets.len() == rows + 1
    &&& offsets.len() > 0
    &&& offsets[0] == 0
    &&& offsets[rows] == values
    &&& forall|i: int, j: int|
        0 <= i && j == i + 1 && j <= rows ==> #[trigger] offsets[i] <= #[trigger] offsets[j]
}

/// Each value between `begin` and `end` is above the one before it.
pub open spec fn is_rising(values: Seq<u32>, begin: int, end: int) -> bool {
    forall|i: int, j: int|
        begin <= i && j == i + 1 && j < end ==> #[trigger] values[i] < #[trigger] values[j]
}

/// The values of a row rise.
pub open spec fn is_rising_row(offsets: Seq<u64>, values: Seq<u32>, row: int) -> bool {
    is_rising(values, offsets[row] as int, offsets[row + 1] as int)
}

/// The value stands between two offsets of the column.
pub open spec fn is_listed(offsets: Seq<u64>, values: Seq<u32>, row: int, value: int) -> bool {
    exists|k: int| offsets[row] <= k < offsets[row + 1] && value == #[trigger] values[k]
}

/// The sum of numbers.
pub open spec fn added(values: Seq<u32>) -> int
    decreases values.len(),
{
    if values.len() == 0 {
        0
    } else {
        values.first() + added(values.drop_first())
    }
}

proof fn lemma_table_ascends(offsets: Seq<u64>, rows: int, values: int, i: int, j: int)
    requires
        is_table(offsets, rows, values),
        0 <= i <= j <= rows,
    ensures
        offsets[i] <= offsets[j],
    decreases j - i,
{
    if i < j {
        lemma_table_ascends(offsets, rows, values, i, j - 1);
        assert(offsets[j - 1] <= offsets[j]);
    }
}

/// Offsets are a row table exactly if they start at zero, end at the number of values and
/// never go back.
pub proof fn lemma_tables(offsets: Seq<u64>, values: nat)
    ensures
        columns::is_row_table(offsets, values) <==> is_table(
            offsets,
            offsets.len() - 1,
            values as int,
        ),
{
    let rows = offsets.len() - 1;
    if is_table(offsets, rows, values as int) {
        assert forall|i: int, j: int| 0 <= i <= j < offsets.len() implies offsets[i]
            <= offsets[j] by {
            lemma_table_ascends(offsets, rows, values as int, i, j);
        }
    }
}

proof fn lemma_rising_pairs(values: Seq<u32>, begin: int, end: int, i: int, j: int)
    requires
        is_rising(values, begin, end),
        begin <= i < j < end,
    ensures
        values[i] < values[j],
    decreases j - i,
{
    assert(values[j - 1] < values[j]);
    if i < j - 1 {
        lemma_rising_pairs(values, begin, end, i, j - 1);
    }
}

/// A row increases exactly if each of its values is above the one before it.
pub proof fn lemma_rows_rise(offsets: Seq<u64>, values: Seq<u32>, row: int)
    ensures
        columns::row_increases(offsets, values, row) <==> is_rising_row(offsets, values, row),
{
    let begin = offsets[row] as int;
    let end = offsets[row + 1] as int;
    if is_rising(values, begin, end) {
        assert forall|i: int, j: int| begin <= i < j < end implies #[trigger] values[i]
            < #[trigger] values[j] by {
            lemma_rising_pairs(values, begin, end, i, j);
        }
    }
}

proof fn lemma_added_splits(values: Seq<u32>)
    requires
        values.len() > 0,
    ensures
        added(values) == added(values.drop_last()) + values.last(),
    decreases values.len(),
{
    if values.len() == 1 {
        assert(values.drop_first() =~= Seq::<u32>::empty());
        assert(values.drop_last() =~= Seq::<u32>::empty());
        assert(added(Seq::<u32>::empty()) == 0);
    } else {
        lemma_added_splits(values.drop_first());
        assert(values.drop_first().drop_last() =~= values.drop_last().drop_first());
        assert(values.drop_last().first() == values.first());
        assert(values.drop_first().last() == values.last());
    }
}

proof fn lemma_value_sums(values: Seq<u32>, begin: int, end: int)
    requires
        0 <= begin <= end <= values.len(),
    ensures
        features::value_sum(values, begin, end) == added(values.subrange(begin, end)),
    decreases end - begin,
{
    let part = values.subrange(begin, end);
    if begin < end {
        lemma_value_sums(values, begin, end - 1);
        lemma_added_splits(part);
        assert(part.drop_last() =~= values.subrange(begin, end - 1));
    } else {
        assert(part =~= Seq::<u32>::empty());
    }
}

/// Two tables describe one relation, each from its side.
pub open spec fn is_one_relation(
    offsets: Seq<u64>,
    values: Seq<u32>,
    other_offsets: Seq<u64>,
    other_values: Seq<u32>,
) -> bool {
    forall|a: int, b: int|
        0 <= a < offsets.len() - 1 && 0 <= b < other_offsets.len() - 1 ==> (#[trigger] is_listed(
            offsets,
            values,
            a,
            b,
        ) <==> is_listed(other_offsets, other_values, b, a))
}

/// Over known rows, two tables are mutual exactly if they describe one relation.
pub proof fn lemma_relations(
    offsets: Seq<u64>,
    values: Seq<u32>,
    other_offsets: Seq<u64>,
    other_values: Seq<u32>,
)
    requires
        is_table(other_offsets, other_offsets.len() - 1, other_values.len() as int),
        is_table(offsets, offsets.len() - 1, values.len() as int),
        columns::all_below(other_values, offsets.len() - 1),
    ensures
        columns::are_mutual(offsets, values, other_offsets, other_values) <==> (columns::all_below(
            values,
            other_offsets.len() - 1,
        ) && is_one_relation(offsets, values, other_offsets, other_values)),
{
    let rows = offsets.len() - 1;
    let others = other_offsets.len() - 1;
    assert forall|a: int, b: int| #[trigger]
        columns::row_holds(offsets, values, a, b) == is_listed(offsets, values, a, b) by {}
    assert forall|a: int, b: int| #[trigger]
        columns::row_holds(other_offsets, other_values, a, b) == is_listed(
            other_offsets,
            other_values,
            a,
            b,
        ) by {}
    if columns::are_mutual(offsets, values, other_offsets, other_values) {
        assert forall|k: int| 0 <= k < values.len() implies #[trigger] values[k] < others by {
            let row = lemma_row_at(offsets, rows, values.len() as int, k);
            assert(columns::row_holds(offsets, values, row, values[k] as int));
        }
        assert forall|a: int, b: int|
            0 <= a < rows && 0 <= b < others implies (#[trigger] is_listed(offsets, values, a, b)
            <==> is_listed(other_offsets, other_values, b, a)) by {
            assert(columns::row_holds(offsets, values, a, b) == is_listed(offsets, values, a, b));
            assert(columns::row_holds(other_offsets, other_values, b, a) == is_listed(
                other_offsets,
                other_values,
                b,
                a,
            ));
        }
    }
    if columns::all_below(values, others) && is_one_relation(
        offsets,
        values,
        other_offsets,
        other_values,
    ) {
        assert forall|a: int, b: int|
            0 <= a < rows && #[trigger] columns::row_holds(offsets, values, a, b) implies 0 <= b
            < others && columns::row_holds(other_offsets, other_values, b, a) by {
            let k = choose|k: int| offsets[a] <= k < offsets[a + 1] && #[trigger] values[k] == b;
            lemma_table_ascends(offsets, rows, values.len() as int, a + 1, rows);
            assert(values[k] < others);
            assert(is_listed(offsets, values, a, b));
            assert(columns::row_holds(other_offsets, other_values, b, a) == is_listed(
                other_offsets,
                other_values,
                b,
                a,
            ));
        }
        assert forall|a: int, b: int|
            0 <= b < others && #[trigger] columns::row_holds(
                other_offsets,
                other_values,
                b,
                a,
            ) implies columns::row_holds(offsets, values, a, b) by {
            let k = choose|k: int|
                other_offsets[b] <= k < other_offsets[b + 1] && #[trigger] other_values[k] == a;
            lemma_table_ascends(other_offsets, others, other_values.len() as int, b + 1, others);
            assert(other_values[k] < rows);
            assert(is_listed(other_offsets, other_values, b, a));
            assert(is_listed(offsets, values, a, b));
        }
    }
}

/// Every value stands in a row.
proof fn lemma_row_at(offsets: Seq<u64>, rows: int, values: int, k: int) -> (row: int)
    requires
        is_table(offsets, rows, values),
        0 <= k < values,
    ensures
        0 <= row < rows,
        offsets[row] <= k < offsets[row + 1],
{
    lemma_row_before(offsets, rows, values, k, rows)
}

proof fn lemma_row_before(offsets: Seq<u64>, rows: int, values: int, k: int, at: int) -> (row: int)
    requires
        is_table(offsets, rows, values),
        0 <= at <= rows,
        0 <= k < offsets[at],
    ensures
        0 <= row < at,
        offsets[row] <= k < offsets[row + 1],
    decreases at,
{
    if offsets[at - 1] <= k {
        at - 1
    } else {
        lemma_row_before(offsets, rows, values, k, at - 1)
    }
}

/// The feature columns have the announced lengths and fit each other.
pub open spec fn has_sound_lengths(view: FeatureView, ready: FeatureReady) -> bool {
    let payloads = ready.payload_count as int;
    let contracts = view.contract_source@.len() as int;
    let tokens = view.token_member_offsets@.len() - 1;
    let atoms = view.fallback_atom_offsets@.len() - 1;
    let terms = view.payload_template_terms@.len() as int;
    let words = view.payload_content_terms@.len() as int;
    let members = view.token_member_contracts@.len() as int;
    &&& view.source_to_payload@.len() == ready.source_count
    &&& is_table(view.payload_template_offsets@, payloads, terms)
    &&& view.payload_template_freqs@.len() == terms
    &&& is_table(view.payload_content_offsets@, payloads, words)
    &&& view.payload_content_freqs@.len() == words
    &&& is_table(view.prepared_weight_offsets@, payloads, terms)
    &&& view.prepared_weights@.len() == terms
    &&& view.payload_lengths@.len() == payloads
    &&& view.query_denominators@.len() == payloads
    &&& view.payload_template_sigs@.len() == payloads * ready.signature_bytes
    &&& view.payload_content_sigs@.len() == payloads * ready.signature_bytes
    &&& is_table(view.contract_token_offsets@, contracts, view.contract_tokens@.len() as int)
    &&& view.contract_payload@.len() == contracts
    &&& view.contract_chain@.len() == contracts
    &&& view.contract_weight@.len() == contracts
    &&& is_table(view.token_member_offsets@, tokens, members)
    &&& view.token_member_sources@.len() == members
    &&& is_table(view.fallback_atom_offsets@, atoms, view.fallback_atom_contracts@.len() as int)
}

/// Sources have payloads, and each contract has the payload of its source.
pub open spec fn has_sound_sources(view: FeatureView, ready: FeatureReady) -> bool {
    &&& forall|source: int|
        0 <= source < view.source_to_payload@.len() ==> #[trigger] view.source_to_payload@[source]
            < ready.payload_count
    &&& forall|contract: int|
        0 <= contract < view.contract_source@.len()
            ==> #[trigger] view.contract_source@[contract] < ready.source_count
            && view.source_to_payload@[view.contract_source@[contract] as int]
            == view.contract_payload@[contract]
}

/// A payload's terms rise and occur, its length counts its content, and each of its template
/// terms has a weight: a finite number that is not below zero. Its denominator is finite and
/// above zero.
pub open spec fn is_sound_payload(view: FeatureView, payload: int) -> bool {
    let first = view.payload_template_offsets@[payload] as int;
    let last = view.payload_template_offsets@[payload + 1] as int;
    let begin = view.payload_content_offsets@[payload] as int;
    let end = view.payload_content_offsets@[payload + 1] as int;
    let low = view.prepared_weight_offsets@[payload] as int;
    let high = view.prepared_weight_offsets@[payload + 1] as int;
    let denominator = view.query_denominators@[payload];
    &&& is_rising(view.payload_template_terms@, first, last)
    &&& is_rising(view.payload_content_terms@, begin, end)
    &&& forall|k: int| first <= k < last ==> #[trigger] view.payload_template_freqs@[k] > 0
    &&& forall|k: int| begin <= k < end ==> #[trigger] view.payload_content_freqs@[k] > 0
    &&& added(view.payload_content_freqs@.subrange(begin, end)) == view.payload_lengths@[payload]
    &&& high - low == last - first
    &&& forall|k: int|
        low <= k < high ==> (#[trigger] view.prepared_weights@[k] < 0x7ff0_0000_0000_0000
            || view.prepared_weights@[k] == 0x8000_0000_0000_0000)
    &&& 0 < denominator < 0x7ff0_0000_0000_0000
}

/// Contracts and tokens list each other, members in order, and a source stands for one
/// contract only, wherever it occurs.
pub open spec fn has_sound_tokens(view: FeatureView, ready: FeatureReady) -> bool {
    let contracts = view.contract_source@.len() as int;
    let tokens = view.token_member_offsets@.len() - 1;
    let member = view.token_member_contracts@;
    let source = view.token_member_sources@;
    &&& forall|k: int|
        0 <= k < view.contract_tokens@.len() ==> #[trigger] view.contract_tokens@[k] < tokens
    &&& forall|k: int|
        0 <= k < member.len() ==> #[trigger] member[k] < contracts && source[k]
            < ready.source_count
    &&& forall|i: int, j: int|
        0 <= i < member.len() && 0 <= j < member.len() && #[trigger] source[i]
            == #[trigger] source[j] ==> member[i] == member[j]
    &&& forall|contract: int, k: int|
        0 <= contract < contracts && 0 <= k < member.len()
            && #[trigger] view.contract_source@[contract] == #[trigger] source[k] ==> member[k]
            == contract
    &&& forall|contract: int|
        0 <= contract < contracts ==> #[trigger] is_rising_row(
            view.contract_token_offsets@,
            view.contract_tokens@,
            contract,
        )
    &&& forall|token: int, i: int, j: int|
        0 <= token < tokens && view.token_member_offsets@[token] <= i && j == i + 1 && j
            < #[trigger] view.token_member_offsets@[token + 1] ==> #[trigger] member[i]
            < #[trigger] member[j] || (member[i] == member[j] && source[i] < source[j])
    &&& is_one_relation(
        view.contract_token_offsets@,
        view.contract_tokens@,
        view.token_member_offsets@,
        member,
    )
}

/// Chains have names of their own, totals under those names that are not below zero, and
/// every contract has a chain.
pub open spec fn has_sound_chains(view: FeatureView, ready: FeatureReady) -> bool {
    let chains = ready.chains@;
    let totals = ready.chain_totals@;
    &&& forall|i: int| 0 <= i < chains.len() ==> (#[trigger] chains[i])@.len() > 0
    &&& forall|i: int, j: int|
        0 <= i < chains.len() && 0 <= j < chains.len() && (#[trigger] chains[i])@
            == (#[trigger] chains[j])@ ==> i == j
    &&& totals.len() == chains.len()
    &&& forall|i: int|
        0 <= i < totals.len() ==> (#[trigger] totals[i]).name@ == chains[i]@ && totals[i].contracts
            >= 0 && totals[i].nfts >= 0
    &&& forall|contract: int|
        0 <= contract < view.contract_chain@.len() ==> #[trigger] view.contract_chain@[contract]
            < chains.len()
}

proof fn lemma_shapes(view: FeatureView, ready: FeatureReady)
    ensures
        view.shape_fault(ready) is None <==> has_sound_lengths(view, ready),
{
    lemma_tables(view.payload_template_offsets@, view.payload_template_terms@.len());
    lemma_tables(view.payload_content_offsets@, view.payload_content_terms@.len());
    lemma_tables(view.prepared_weight_offsets@, view.prepared_weights@.len());
    lemma_tables(view.contract_token_offsets@, view.contract_tokens@.len());
    lemma_tables(view.token_member_offsets@, view.token_member_contracts@.len());
    lemma_tables(view.fallback_atom_offsets@, view.fallback_atom_contracts@.len());
}

proof fn lemma_payload(view: FeatureView, ready: FeatureReady, payload: int)
    requires
        has_sound_lengths(view, ready),
        0 <= payload < ready.payload_count,
    ensures
        view.payload_fault(payload) is None <==> is_sound_payload(view, payload),
{
    let template = view.payload_template_offsets@;
    let content = view.payload_content_offsets@;
    let payloads = ready.payload_count as int;
    let words = view.payload_content_terms@.len() as int;
    lemma_rows_rise(template, view.payload_template_terms@, payload);
    lemma_rows_rise(content, view.payload_content_terms@, payload);
    lemma_table_ascends(content, payloads, words, payload, payload + 1);
    lemma_table_ascends(content, payloads, words, payload + 1, payloads);
    lemma_value_sums(
        view.payload_content_freqs@,
        content[payload] as int,
        content[payload + 1] as int,
    );
}

proof fn lemma_payloads(view: FeatureView, ready: FeatureReady, at: int)
    requires
        has_sound_lengths(view, ready),
        0 <= at <= ready.payload_count,
    ensures
        view.first_payload_fault(at) is None <==> (forall|payload: int|
            at <= payload < ready.payload_count ==> #[trigger] is_sound_payload(view, payload)),
    decreases ready.payload_count - at,
{
    if at < ready.payload_count {
        lemma_payload(view, ready, at);
        lemma_payloads(view, ready, at + 1);
        if view.first_payload_fault(at) is None {
            assert forall|payload: int| at <= payload < ready.payload_count implies
                #[trigger] is_sound_payload(view, payload) by {
                if payload > at {
                    assert(view.first_payload_fault(at + 1) is None);
                }
            }
        }
    }
}

proof fn lemma_tokens(view: FeatureView, ready: FeatureReady)
    requires
        has_sound_lengths(view, ready),
    ensures
        view.token_fault(ready) is None <==> has_sound_tokens(view, ready),
{
    let contracts = view.contract_source@.len() as int;
    let tokens = view.token_member_offsets@.len() - 1;
    let member = view.token_member_contracts@;
    let source = view.token_member_sources@;
    let offsets = view.contract_token_offsets@;
    let members = view.token_member_offsets@;
    assert forall|contract: int| 0 <= contract < contracts implies #[trigger]
        columns::row_increases(offsets, view.contract_tokens@, contract) == is_rising_row(
            offsets,
            view.contract_tokens@,
            contract,
        ) by {
        lemma_rows_rise(offsets, view.contract_tokens@, contract);
    }
    if columns::all_below(member, contracts) {
        lemma_relations(offsets, view.contract_tokens@, members, member);
    }
    if view.token_fault(ready) is None {
        assert forall|contract: int| 0 <= contract < contracts implies #[trigger] is_rising_row(
            offsets,
            view.contract_tokens@,
            contract,
        ) by {
            assert(columns::row_increases(offsets, view.contract_tokens@, contract));
        }
        assert forall|token: int, i: int, j: int|
            0 <= token < tokens && members[token] <= i && j == i + 1 && j
                < #[trigger] members[token + 1] implies #[trigger] member[i] < #[trigger] member[j]
            || (member[i] == member[j] && source[i] < source[j]) by {
            assert(features::members_ordered(view, token));
            assert(features::member_follows(view, j));
        }
        assert(!view.has_shared_source());
        assert forall|i: int, j: int|
            0 <= i < member.len() && 0 <= j < member.len() && #[trigger] source[i]
                == #[trigger] source[j] implies member[i] == member[j] by {}
        assert(!view.has_foreign_representative());
        assert(has_sound_tokens(view, ready));
    }
    if has_sound_tokens(view, ready) {
        assert(!view.has_shared_source());
        assert(!view.has_foreign_representative());
        assert forall|contract: int| 0 <= contract < contracts implies #[trigger]
            columns::row_increases(offsets, view.contract_tokens@, contract) by {
            assert(is_rising_row(offsets, view.contract_tokens@, contract));
        }
        assert forall|token: int| 0 <= token < tokens implies #[trigger] features::members_ordered(
            view,
            token,
        ) by {
            assert forall|k: int| members[token] < k < members[token + 1] implies
                #[trigger] features::member_follows(view, k) by {
                let i = k - 1;
                assert(members[token] <= i && k < members[token + 1]);
                assert(member[i] < member[k] || (member[i] == member[k] && source[i] < source[k]));
            }
        }
        assert forall|k: int| 0 <= k < source.len() implies #[trigger] source[k]
            < ready.source_count by {
            assert(member[k] < contracts);
        }
        assert(columns::all_below(source, ready.source_count as int));
        assert(view.token_fault(ready) is None);
    }
}

proof fn lemma_sources(view: FeatureView, ready: FeatureReady)
    requires
        has_sound_lengths(view, ready),
    ensures
        view.identity_fault(ready) is None <==> has_sound_sources(view, ready),
{
    if has_sound_sources(view, ready) {
        assert forall|contract: int| 0 <= contract < view.contract_payload@.len() implies
            #[trigger] view.contract_payload@[contract] < ready.payload_count by {
            let source = view.contract_source@[contract];
            assert(view.source_to_payload@[source as int] < ready.payload_count);
        }
        assert(columns::all_below(view.contract_payload@, view.payload_count()));
        assert(view.identity_fault(ready) is None);
    }
    if view.identity_fault(ready) is None {
        assert(columns::all_below(view.source_to_payload@, view.payload_count()));
        assert forall|contract: int| 0 <= contract < view.contract_source@.len() implies
            #[trigger] view.contract_source@[contract] < ready.source_count
            && view.source_to_payload@[view.contract_source@[contract] as int]
            == view.contract_payload@[contract] by {}
        assert(has_sound_sources(view, ready));
    }
}

/// The feature columns are taken exactly if their lengths agree, each contract has the payload
/// of its source, and payloads, tokens and chains are sound.
pub proof fn lemma_features_are_sound(view: FeatureView, ready: FeatureReady)
    ensures
        view.fault(ready) is None <==> {
            &&& has_sound_lengths(view, ready)
            &&& has_sound_sources(view, ready)
            &&& forall|payload: int|
                0 <= payload < ready.payload_count ==> #[trigger] is_sound_payload(view, payload)
            &&& has_sound_tokens(view, ready)
            &&& has_sound_chains(view, ready)
        },
{
    lemma_shapes(view, ready);
    if has_sound_lengths(view, ready) {
        lemma_payloads(view, ready, 0);
        lemma_tokens(view, ready);
        lemma_sources(view, ready);
        assert(view.chain_fault(ready) is None <==> has_sound_chains(view, ready));
    }
}

/// An atom's blocks rise. If it has none, its routing status is two.
pub open spec fn is_routed(view: BlockingView, atom: int) -> bool {
    &&& is_rising_row(view.atom_block_offsets@, view.atom_block_ids@, atom)
    &&& view.atom_block_offsets@[atom] == view.atom_block_offsets@[atom + 1]
        ==> view.routing_statuses@[atom] == 2
}

/// Atoms and blocks list each other, in order. The columns of atoms have the announced length;
/// routing statuses are below three and block kinds too. An atom in no block is one of routing
/// status two.
pub open spec fn is_sound_blocking(view: BlockingView, atoms: int) -> bool {
    let blocks = view.block_atom_offsets@.len() - 1;
    let offsets = view.atom_block_offsets@;
    let ids = view.atom_block_ids@;
    &&& view.primary_storage_shards@.len() == atoms
    &&& view.template_simhashes@.len() == atoms
    &&& view.content_simhashes@.len() == atoms
    &&& view.routing_statuses@.len() == atoms
    &&& is_table(offsets, atoms, ids.len() as int)
    &&& is_table(view.block_atom_offsets@, blocks, view.block_atoms@.len() as int)
    &&& view.block_kinds@.len() == blocks
    &&& view.block_keys@.len() == blocks
    &&& forall|k: int| 0 <= k < ids.len() ==> #[trigger] ids[k] < blocks
    &&& forall|k: int|
        0 <= k < view.block_atoms@.len() ==> #[trigger] view.block_atoms@[k] < atoms
    &&& forall|atom: int| 0 <= atom < atoms ==> #[trigger] view.routing_statuses@[atom] < 3
    &&& forall|block: int| 0 <= block < blocks ==> #[trigger] view.block_kinds@[block] < 3
    &&& forall|atom: int| 0 <= atom < atoms ==> #[trigger] is_routed(view, atom)
    &&& forall|block: int|
        0 <= block < blocks ==> #[trigger] is_rising_row(
            view.block_atom_offsets@,
            view.block_atoms@,
            block,
        )
    &&& is_one_relation(offsets, ids, view.block_atom_offsets@, view.block_atoms@)
}

proof fn lemma_atom_blocks(view: BlockingView, atoms: nat, at: int)
    requires
        0 <= at <= atoms,
    ensures
        blocking::first_atom_fault(view, atoms, at) is None <==> (forall|atom: int|
            at <= atom < atoms ==> #[trigger] is_routed(view, atom)),
    decreases atoms - at,
{
    if at < atoms {
        lemma_rows_rise(view.atom_block_offsets@, view.atom_block_ids@, at);
        lemma_atom_blocks(view, atoms, at + 1);
        if blocking::first_atom_fault(view, atoms, at) is None {
            assert forall|atom: int| at <= atom < atoms implies #[trigger] is_routed(
                view,
                atom,
            ) by {
                if atom > at {
                    assert(at + 1 <= atom);
                }
            }
        } else {
            assert(!is_routed(view, at) || blocking::first_atom_fault(view, atoms, at + 1) is Some);
        }
    }
}

proof fn lemma_block_shapes(view: BlockingView, atoms: nat)
    ensures
        (view.column_fault(atoms) is None && view.shape_fault(atoms) is None) <==> {
            let blocks = view.block_atom_offsets@.len() - 1;
            &&& view.primary_storage_shards@.len() == atoms
            &&& view.template_simhashes@.len() == atoms
            &&& view.content_simhashes@.len() == atoms
            &&& view.routing_statuses@.len() == atoms
            &&& is_table(
                view.atom_block_offsets@,
                atoms as int,
                view.atom_block_ids@.len() as int,
            )
            &&& is_table(view.block_atom_offsets@, blocks, view.block_atoms@.len() as int)
            &&& view.block_kinds@.len() == blocks
            &&& view.block_keys@.len() == blocks
            &&& columns::all_below(view.atom_block_ids@, blocks)
            &&& columns::all_below(view.block_atoms@, atoms as int)
            &&& forall|atom: int| 0 <= atom < atoms ==> #[trigger] view.routing_statuses@[atom] < 3
            &&& forall|block: int| 0 <= block < blocks ==> #[trigger] view.block_kinds@[block] < 3
        },
{
    lemma_tables(view.atom_block_offsets@, view.atom_block_ids@.len());
    lemma_tables(view.block_atom_offsets@, view.block_atoms@.len());
}

/// The blocking columns are taken exactly if they are sound.
pub proof fn lemma_blocking_is_sound(view: BlockingView, atoms: nat)
    ensures
        view.fault(atoms) is None <==> is_sound_blocking(view, atoms as int),
{
    let blocks = view.block_atom_offsets@.len() - 1;
    let offsets = view.block_atom_offsets@;
    lemma_block_shapes(view, atoms);
    if view.column_fault(atoms) is None && view.shape_fault(atoms) is None {
        lemma_atom_blocks(view, atoms, 0);
        assert forall|block: int| #[trigger]
            columns::row_increases(offsets, view.block_atoms@, block) == is_rising_row(
                offsets,
                view.block_atoms@,
                block,
            ) by {
            lemma_rows_rise(offsets, view.block_atoms@, block);
        }
        lemma_relations(
            view.atom_block_offsets@,
            view.atom_block_ids@,
            offsets,
            view.block_atoms@,
        );
        if view.membership_fault(atoms) is None {
            assert forall|block: int| 0 <= block < blocks implies #[trigger] is_rising_row(
                offsets,
                view.block_atoms@,
                block,
            ) by {
                assert(columns::row_increases(offsets, view.block_atoms@, block));
            }
            assert(is_sound_blocking(view, atoms as int));
        }
        if is_sound_blocking(view, atoms as int) {
            assert forall|block: int| 0 <= block < blocks implies #[trigger]
                columns::row_increases(offsets, view.block_atoms@, block) by {
                assert(is_rising_row(offsets, view.block_atoms@, block));
            }
            assert(view.membership_fault(atoms) is None);
        }
    }
}

/// Two rows hold the same values in the same order.
pub open spec fn same_values<T>(offsets: Seq<u64>, values: Seq<T>, left: int, right: int) -> bool {
    &&& offsets[left + 1] - offsets[left] == offsets[right + 1] - offsets[right]
    &&& forall|i: int, j: int|
        offsets[left] <= i < offsets[left + 1] && i - offsets[left] == j - offsets[right]
            ==> #[trigger] values[i] == #[trigger] values[j]
}

/// Two contracts are of one chain and score alike.
pub open spec fn scores_alike(view: FeatureView, left: int, right: int) -> bool {
    let a = view.contract_payload@[left] as int;
    let b = view.contract_payload@[right] as int;
    let template = view.payload_template_offsets@;
    let content = view.payload_content_offsets@;
    &&& view.contract_chain@[left] == view.contract_chain@[right]
    &&& same_values(template, view.payload_template_terms@, a, b)
    &&& same_values(template, view.payload_template_freqs@, a, b)
    &&& same_values(content, view.payload_content_terms@, a, b)
    &&& same_values(content, view.payload_content_freqs@, a, b)
    &&& same_values(view.prepared_weight_offsets@, view.prepared_weights@, a, b)
    &&& view.payload_lengths@[a] == view.payload_lengths@[b]
    &&& view.query_denominators@[a] == view.query_denominators@[b]
}

/// An atom is not empty, its contracts rise, and each scores as its first contract does.
pub open spec fn is_sound_atom(view: FeatureView, atom: int) -> bool {
    let begin = view.fallback_atom_offsets@[atom] as int;
    let end = view.fallback_atom_offsets@[atom + 1] as int;
    let members = view.fallback_atom_contracts@;
    &&& begin < end
    &&& is_rising(members, begin, end)
    &&& forall|k: int|
        begin <= k < end ==> scores_alike(view, members[begin] as int, #[trigger] members[k] as int)
}

/// The atoms divide the contracts: each contract stands in one atom, and there once.
pub open spec fn are_sound_atoms(view: FeatureView, atoms: int) -> bool {
    let members = view.fallback_atom_contracts@;
    let contracts = view.contract_source@.len() as int;
    &&& view.fallback_atom_offsets@.len() == atoms + 1
    &&& forall|k: int| 0 <= k < members.len() ==> #[trigger] members[k] < contracts
    &&& forall|i: int, j: int|
        0 <= i < members.len() && 0 <= j < members.len() && #[trigger] members[i]
            == #[trigger] members[j] ==> i == j
    &&& forall|contract: u32| contract < contracts ==> #[trigger] members.contains(contract)
    &&& forall|atom: int| 0 <= atom < atoms ==> #[trigger] is_sound_atom(view, atom)
}

proof fn lemma_same_values<T>(
    offsets: Seq<u64>,
    rows: int,
    values: Seq<T>,
    left: int,
    right: int,
)
    requires
        is_table(offsets, rows, values.len() as int),
        0 <= left < rows,
        0 <= right < rows,
    ensures
        columns::row_of(offsets, values, left) == columns::row_of(offsets, values, right)
            <==> same_values(offsets, values, right, left),
{
    let len = values.len() as int;
    lemma_table_ascends(offsets, rows, len, 0, left);
    lemma_table_ascends(offsets, rows, len, left, left + 1);
    lemma_table_ascends(offsets, rows, len, left + 1, rows);
    lemma_table_ascends(offsets, rows, len, 0, right);
    lemma_table_ascends(offsets, rows, len, right, right + 1);
    lemma_table_ascends(offsets, rows, len, right + 1, rows);
    let a = columns::row_of(offsets, values, left);
    let b = columns::row_of(offsets, values, right);
    if a == b {
        assert(a.len() == b.len());
        assert forall|i: int, j: int|
            offsets[right] <= i < offsets[right + 1] && i - offsets[right] == j
                - offsets[left] implies #[trigger] values[i] == #[trigger] values[j] by {
            let d = i - offsets[right];
            assert(a[d] == values[j]);
            assert(b[d] == values[i]);
        }
    }
    if same_values(offsets, values, right, left) {
        assert forall|d: int| 0 <= d < a.len() implies a[d] == b[d] by {
            assert(values[offsets[right] + d] == values[offsets[left] + d]);
        }
        assert(a =~= b);
    }
}

proof fn lemma_alike(view: FeatureView, ready: FeatureReady, first: int, k: int)
    requires
        has_sound_lengths(view, ready),
        has_sound_sources(view, ready),
        0 <= first < view.fallback_atom_contracts@.len(),
        0 <= k < view.fallback_atom_contracts@.len(),
        view.fallback_atom_contracts@[first] < view.contract_source@.len(),
        view.fallback_atom_contracts@[k] < view.contract_source@.len(),
    ensures
        atoms::is_alike(view, first, k) <==> scores_alike(
            view,
            view.fallback_atom_contracts@[first] as int,
            view.fallback_atom_contracts@[k] as int,
        ),
{
    let payloads = ready.payload_count as int;
    let contract = view.fallback_atom_contracts@[k] as int;
    let other = view.fallback_atom_contracts@[first] as int;
    assert(view.contract_source@[contract] < ready.source_count);
    assert(view.contract_source@[other] < ready.source_count);
    let a = view.contract_payload@[contract] as int;
    let b = view.contract_payload@[other] as int;
    assert(view.source_to_payload@[view.contract_source@[contract] as int] < payloads);
    assert(view.source_to_payload@[view.contract_source@[other] as int] < payloads);
    lemma_same_values(view.payload_template_offsets@, payloads, view.payload_template_terms@, a, b);
    lemma_same_values(view.payload_template_offsets@, payloads, view.payload_template_freqs@, a, b);
    lemma_same_values(view.payload_content_offsets@, payloads, view.payload_content_terms@, a, b);
    lemma_same_values(view.payload_content_offsets@, payloads, view.payload_content_freqs@, a, b);
    lemma_same_values(view.prepared_weight_offsets@, payloads, view.prepared_weights@, a, b);
}

proof fn lemma_no_repeat(values: Seq<u32>, begin: int, end: int)
    requires
        begin <= end,
    ensures
        atoms::first_repeat(values, begin, end) is None <==> (forall|k: int|
            begin <= k < end ==> !(#[trigger] atoms::is_repeat(values, k))),
    decreases end - begin,
{
    if begin < end {
        lemma_no_repeat(values, begin + 1, end);
    }
}

/// An atom repeats no contract from before.
spec fn is_new_atom(view: FeatureView, atom: int) -> bool {
    let begin = view.fallback_atom_offsets@[atom] as int;
    let end = view.fallback_atom_offsets@[atom + 1] as int;
    forall|k: int|
        begin <= k < end ==> !(#[trigger] atoms::is_repeat(view.fallback_atom_contracts@, k))
}

/// An atom is sound and repeats nothing.
spec fn is_taken_atom(view: FeatureView, atom: int) -> bool {
    is_sound_atom(view, atom) && is_new_atom(view, atom)
}

proof fn lemma_atom(view: FeatureView, ready: FeatureReady, atom: int)
    requires
        has_sound_lengths(view, ready),
        has_sound_sources(view, ready),
        columns::all_below(view.fallback_atom_contracts@, view.contract_count()),
        0 <= atom < view.fallback_atom_offsets@.len() - 1,
    ensures
        atoms::atom_fault(view, atom) is None <==> is_taken_atom(view, atom),
{
    let offsets = view.fallback_atom_offsets@;
    let members = view.fallback_atom_contracts@;
    let rows = offsets.len() - 1;
    let len = members.len() as int;
    let begin = offsets[atom] as int;
    let end = offsets[atom + 1] as int;
    lemma_table_ascends(offsets, rows, len, 0, atom);
    lemma_table_ascends(offsets, rows, len, atom, atom + 1);
    lemma_table_ascends(offsets, rows, len, atom + 1, rows);
    lemma_rows_rise(offsets, members, atom);
    lemma_no_repeat(members, begin, end);
    assert forall|k: int| begin <= k < end implies #[trigger] atoms::is_alike(view, begin, k)
        == scores_alike(view, members[begin] as int, members[k] as int) by {
        lemma_alike(view, ready, begin, k);
    }
    if atoms::atom_fault(view, atom) is None {
        assert forall|k: int| begin <= k < end implies scores_alike(
            view,
            members[begin] as int,
            #[trigger] members[k] as int,
        ) by {
            if k > begin {
                assert(atoms::is_alike(view, begin, k));
            }
        }
    }
}

proof fn lemma_atoms(view: FeatureView, ready: FeatureReady, count: nat, at: int)
    requires
        has_sound_lengths(view, ready),
        has_sound_sources(view, ready),
        columns::all_below(view.fallback_atom_contracts@, view.contract_count()),
        view.fallback_atom_offsets@.len() == count + 1,
        0 <= at <= count,
    ensures
        atoms::first_atom_fault(view, count, at) is None <==> (forall|atom: int|
            at <= atom < count ==> #[trigger] is_taken_atom(view, atom)),
    decreases count - at,
{
    if at < count {
        lemma_atom(view, ready, at);
        lemma_atoms(view, ready, count, at + 1);
        if atoms::first_atom_fault(view, count, at) is None {
            assert forall|atom: int| at <= atom < count implies #[trigger] is_taken_atom(
                view,
                atom,
            ) by {
                assert(atoms::first_atom_fault(view, count, at + 1) is None);
                if atom > at {
                    assert(at + 1 <= atom);
                }
            }
        } else {
            assert(!is_taken_atom(view, at) || atoms::first_atom_fault(view, count, at + 1) is Some);
        }
    }
}

proof fn lemma_none_missing(view: FeatureView, at: int)
    requires
        0 <= at <= view.contract_count() <= u32::MAX,
    ensures
        atoms::first_missing(view, at) is None <==> (forall|contract: u32|
            at <= contract < view.contract_count()
                ==> #[trigger] view.fallback_atom_contracts@.contains(contract)),
    decreases view.contract_count() - at,
{
    if at < view.contract_count() {
        lemma_none_missing(view, at + 1);
        if atoms::first_missing(view, at) is None {
            assert forall|contract: u32| at <= contract < view.contract_count() implies
                #[trigger] view.fallback_atom_contracts@.contains(contract) by {
                if contract > at {
                    assert(at + 1 <= contract);
                } else {
                    assert(contract == at as u32);
                }
            }
        }
    }
}

/// The atoms of sound feature columns are taken exactly if they divide the contracts.
pub proof fn lemma_atoms_are_sound(view: FeatureView, ready: FeatureReady, count: nat)
    requires
        has_sound_lengths(view, ready),
        has_sound_sources(view, ready),
        view.has_small_identities(),
    ensures
        atoms::atoms_fault(view, count) is None <==> are_sound_atoms(view, count as int),
{
    let offsets = view.fallback_atom_offsets@;
    let members = view.fallback_atom_contracts@;
    let len = members.len() as int;
    if offsets.len() == count + 1 && columns::all_below(members, view.contract_count()) {
        lemma_atoms(view, ready, count, 0);
        lemma_none_missing(view, 0);
        if atoms::atoms_fault(view, count) is None {
            assert forall|i: int, j: int| 0 <= i < j < len implies #[trigger] members[i]
                != #[trigger] members[j] by {
                let atom = lemma_row_at(offsets, count as int, len, j);
                assert(is_taken_atom(view, atom));
                assert(!atoms::is_repeat(members, j));
            }
            assert forall|atom: int| 0 <= atom < count implies #[trigger] is_sound_atom(
                view,
                atom,
            ) by {
                assert(is_taken_atom(view, atom));
            }
            assert(are_sound_atoms(view, count as int));
        }
        if are_sound_atoms(view, count as int) {
            assert forall|atom: int| 0 <= atom < count implies #[trigger] is_taken_atom(
                view,
                atom,
            ) by {
                assert(is_sound_atom(view, atom));
                lemma_table_ascends(offsets, count as int, len, 0, atom);
                lemma_table_ascends(offsets, count as int, len, atom + 1, count as int);
            }
            assert(atoms::first_atom_fault(view, count, 0) is None);
            assert(atoms::first_missing(view, 0) is None);
        }
    }
}

/// A snapshot opens exactly if both announcements are of revision three and of one run, its
/// feature and blocking columns are sound, and its atoms divide the contracts.
pub proof fn lemma_snapshot_is_sound(
    ready: FeatureReady,
    blocking_ready: BlockingReady,
    view: FeatureView,
    routes: BlockingView,
)
    requires
        view.has_small_identities(),
    ensures
        metadata::snapshot_fault(ready, blocking_ready, view, routes) is None <==> {
            &&& ready.schema_revision == 3
            &&& blocking_ready.blocking_revision == 3
            &&& ready.artifact_run_id is Some <==> blocking_ready.artifact_run_id is Some
            &&& ready.artifact_run_id is Some ==> ready.artifact_run_id->0@
                == blocking_ready.artifact_run_id->0@
            &&& has_sound_lengths(view, ready)
            &&& has_sound_sources(view, ready)
            &&& forall|payload: int|
                0 <= payload < ready.payload_count ==> #[trigger] is_sound_payload(view, payload)
            &&& has_sound_tokens(view, ready)
            &&& has_sound_chains(view, ready)
            &&& is_sound_blocking(routes, blocking_ready.atom_count as int)
            &&& are_sound_atoms(view, blocking_ready.atom_count as int)
        },
{
    lemma_features_are_sound(view, ready);
    lemma_blocking_is_sound(routes, blocking_ready.atom_count as nat);
    if has_sound_lengths(view, ready) && has_sound_sources(view, ready) {
        lemma_atoms_are_sound(view, ready, blocking_ready.atom_count as nat);
    }
}

} // verus!
