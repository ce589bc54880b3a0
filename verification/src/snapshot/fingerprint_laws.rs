//! What a fingerprint tells apart.

use crate::snapshot::blocking::BlockingView;
use crate::snapshot::features::{ChainTotal, FeatureView};
use crate::snapshot::metadata;
use crate::snapshot::metadata::MetadataSnapshot;
use vstd::prelude::*;

verus! {

/// The columns of both are of the same lengths.
pub open spec fn same_feature_lengths(a: FeatureView, b: FeatureView) -> bool {
    &&& a.source_to_payload.len() == b.source_to_payload.len()
    &&& a.payload_template_offsets.len() == b.payload_template_offsets.len()
    &&& a.payload_template_terms.len() == b.payload_template_terms.len()
    &&& a.payload_template_freqs.len() == b.payload_template_freqs.len()
    &&& a.payload_content_offsets.len() == b.payload_content_offsets.len()
    &&& a.payload_content_terms.len() == b.payload_content_terms.len()
    &&& a.payload_content_freqs.len() == b.payload_content_freqs.len()
    &&& a.payload_template_sigs.len() == b.payload_template_sigs.len()
    &&& a.payload_content_sigs.len() == b.payload_content_sigs.len()
    &&& a.contract_token_offsets.len() == b.contract_token_offsets.len()
    &&& a.contract_tokens.len() == b.contract_tokens.len()
    &&& a.token_member_offsets.len() == b.token_member_offsets.len()
    &&& a.token_member_contracts.len() == b.token_member_contracts.len()
    &&& a.token_member_sources.len() == b.token_member_sources.len()
    &&& a.payload_lengths.len() == b.payload_lengths.len()
    &&& a.query_denominators.len() == b.query_denominators.len()
    &&& a.prepared_weight_offsets.len() == b.prepared_weight_offsets.len()
    &&& a.prepared_weights.len() == b.prepared_weights.len()
    &&& a.contract_source.len() == b.contract_source.len()
    &&& a.contract_chain.len() == b.contract_chain.len()
    &&& a.contract_payload.len() == b.contract_payload.len()
    &&& a.contract_weight.len() == b.contract_weight.len()
    &&& a.fallback_atom_offsets.len() == b.fallback_atom_offsets.len()
    &&& a.fallback_atom_contracts.len() == b.fallback_atom_contracts.len()
}

/// The columns of both are of the same lengths.
pub open spec fn same_blocking_lengths(a: BlockingView, b: BlockingView) -> bool {
    &&& a.primary_storage_shards.len() == b.primary_storage_shards.len()
    &&& a.template_simhashes.len() == b.template_simhashes.len()
    &&& a.content_simhashes.len() == b.content_simhashes.len()
    &&& a.routing_statuses.len() == b.routing_statuses.len()
    &&& a.atom_block_offsets.len() == b.atom_block_offsets.len()
    &&& a.atom_block_ids.len() == b.atom_block_ids.len()
    &&& a.block_atom_offsets.len() == b.block_atom_offsets.len()
    &&& a.block_atoms.len() == b.block_atoms.len()
    &&& a.block_kinds.len() == b.block_kinds.len()
    &&& a.block_keys.len() == b.block_keys.len()
}

proof fn lemma_cancel(a: Seq<u8>, x: Seq<u8>, b: Seq<u8>, y: Seq<u8>)
    requires
        a + x == b + y,
        a.len() == b.len(),
    ensures
        a == b,
        x == y,
{
    let whole = a + x;
    assert(whole.subrange(0, a.len() as int) =~= a);
    assert((b + y).subrange(0, b.len() as int) =~= b);
    assert(whole.subrange(a.len() as int, whole.len() as int) =~= x);
    assert((b + y).subrange(b.len() as int, (b + y).len() as int) =~= y);
}

proof fn lemma_words(a: u64, b: u64)
    ensures
        vstd::bytes::spec_u64_to_le_bytes(a).len() == 8,
        vstd::bytes::spec_u64_to_le_bytes(b).len() == 8,
        vstd::bytes::spec_u64_to_le_bytes(a) == vstd::bytes::spec_u64_to_le_bytes(b) ==> a == b,
{
    vstd::bytes::lemma_auto_spec_u64_to_from_le_bytes();
    let x = vstd::bytes::spec_u64_from_le_bytes(vstd::bytes::spec_u64_to_le_bytes(a));
    let y = vstd::bytes::spec_u64_from_le_bytes(vstd::bytes::spec_u64_to_le_bytes(b));
    assert(x == a && y == b);
}

proof fn lemma_texts(a: Seq<char>, b: Seq<char>)
    requires
        vstd::utf8::encode_utf8(a) == vstd::utf8::encode_utf8(b),
    ensures
        a == b,
{
    vstd::utf8::encode_utf8_decode_utf8(a);
    vstd::utf8::encode_utf8_decode_utf8(b);
}

/// Columns under the same labels, with checksums of the same lengths.
spec fn are_labelled_alike(
    a: Seq<(Seq<char>, nat)>,
    b: Seq<(Seq<char>, nat)>,
    left: Seq<Vec<u8>>,
    right: Seq<Vec<u8>>,
) -> bool {
    &&& a.len() == b.len()
    &&& a.len() <= left.len()
    &&& a.len() <= right.len()
    &&& forall|i: int| 0 <= i < a.len() ==> (#[trigger] a[i]).0 == b[i].0
    &&& forall|i: int| 0 <= i < a.len() ==> (#[trigger] left[i])@.len() == right[i]@.len()
}

proof fn lemma_columns(
    a: Seq<(Seq<char>, nat)>,
    b: Seq<(Seq<char>, nat)>,
    left: Seq<Vec<u8>>,
    right: Seq<Vec<u8>>,
)
    requires
        are_labelled_alike(a, b, left, right),
    ensures
        metadata::all_column_bytes(a, left).len() == metadata::all_column_bytes(b, right).len(),
        metadata::all_column_bytes(a, left) == metadata::all_column_bytes(b, right) ==> forall|
            i: int,
        |
            0 <= i < a.len() ==> (#[trigger] a[i]).1 as u64 == b[i].1 as u64 && left[i]@
                == right[i]@,
    decreases a.len(),
{
    if a.len() > 0 {
        let last = a.len() - 1;
        let c = a.drop_last();
        let d = b.drop_last();
        assert forall|i: int| 0 <= i < c.len() implies (#[trigger] c[i]).0 == d[i].0 by {
            assert(a[i].0 == b[i].0);
        }
        lemma_columns(c, d, left, right);
        let m = metadata::all_column_bytes(c, left);
        let n = metadata::all_column_bytes(d, right);
        let p = vstd::utf8::encode_utf8(a[last].0);
        let q = vstd::utf8::encode_utf8(b[last].0);
        assert(a[last].0 == b[last].0);
        assert(left[last]@.len() == right[last]@.len());
        let s = vstd::bytes::spec_u64_to_le_bytes(a[last].1 as u64);
        let t = vstd::bytes::spec_u64_to_le_bytes(b[last].1 as u64);
        lemma_words(a[last].1 as u64, b[last].1 as u64);
        if metadata::all_column_bytes(a, left) == metadata::all_column_bytes(b, right) {
            lemma_cancel(m, p + s + left[last]@, n, q + t + right[last]@);
            lemma_cancel(p + s, left[last]@, q + t, right[last]@);
            lemma_cancel(p, s, q, t);
            assert forall|i: int| 0 <= i < a.len() implies (#[trigger] a[i]).1 as u64
                == b[i].1 as u64 && left[i]@ == right[i]@ by {
                if i < last {
                    assert(c[i] == a[i] && d[i] == b[i]);
                }
            }
        }
    }
}

proof fn lemma_names_first(names: Seq<String>)
    requires
        names.len() > 0,
    ensures
        ({
            let name = vstd::utf8::encode_utf8(names.first()@);
            metadata::chain_name_bytes(names) == vstd::bytes::spec_u64_to_le_bytes(
                name.len() as u64,
            ) + (name + metadata::chain_name_bytes(names.drop_first()))
        }),
    decreases names.len(),
{
    let name = vstd::utf8::encode_utf8(names.first()@);
    let word = vstd::bytes::spec_u64_to_le_bytes(name.len() as u64);
    if names.len() == 1 {
        assert(names.drop_last() =~= Seq::<String>::empty());
        assert(names.drop_first() =~= Seq::<String>::empty());
        let none = metadata::chain_name_bytes(Seq::<String>::empty());
        assert(none =~= Seq::<u8>::empty());
        assert(none + word + name =~= word + (name + none));
    } else {
        let rest = names.drop_last();
        lemma_names_first(rest);
        assert(rest.drop_first() =~= names.drop_first().drop_last());
        assert(names.drop_first().last() == names.last());
        let end = vstd::utf8::encode_utf8(names.last()@);
        let mark = vstd::bytes::spec_u64_to_le_bytes(end.len() as u64);
        let middle = metadata::chain_name_bytes(rest.drop_first());
        assert(word + (name + middle) + mark + end =~= word + (name + (middle + mark + end)));
    }
}

proof fn lemma_names(a: Seq<String>, x: Seq<u8>, b: Seq<String>, y: Seq<u8>)
    requires
        a.len() == b.len(),
        metadata::chain_name_bytes(a) + x == metadata::chain_name_bytes(b) + y,
        forall|i: int|
            0 <= i < a.len() ==> vstd::utf8::encode_utf8((#[trigger] a[i])@).len() <= u64::MAX,
        forall|i: int|
            0 <= i < b.len() ==> vstd::utf8::encode_utf8((#[trigger] b[i])@).len() <= u64::MAX,
    ensures
        forall|i: int| 0 <= i < a.len() ==> (#[trigger] a[i])@ == b[i]@,
        x == y,
    decreases a.len(),
{
    if a.len() > 0 {
        lemma_names_first(a);
        lemma_names_first(b);
        let c = a.drop_first();
        let d = b.drop_first();
        let p = vstd::utf8::encode_utf8(a[0]@);
        let q = vstd::utf8::encode_utf8(b[0]@);
        let s = vstd::bytes::spec_u64_to_le_bytes(p.len() as u64);
        let t = vstd::bytes::spec_u64_to_le_bytes(q.len() as u64);
        let m = metadata::chain_name_bytes(c);
        let n = metadata::chain_name_bytes(d);
        lemma_words(p.len() as u64, q.len() as u64);
        assert(s + (p + m) + x =~= s + (p + (m + x)));
        assert(t + (q + n) + y =~= t + (q + (n + y)));
        lemma_cancel(s, p + (m + x), t, q + (n + y));
        lemma_cancel(p, m + x, q, n + y);
        lemma_texts(a[0]@, b[0]@);
        assert forall|i: int| 0 <= i < c.len() implies vstd::utf8::encode_utf8(
            (#[trigger] c[i])@,
        ).len() <= u64::MAX by {
            assert(c[i] == a[i + 1]);
        }
        assert forall|i: int| 0 <= i < d.len() implies vstd::utf8::encode_utf8(
            (#[trigger] d[i])@,
        ).len() <= u64::MAX by {
            assert(d[i] == b[i + 1]);
        }
        lemma_names(c, x, d, y);
        assert forall|i: int| 0 <= i < a.len() implies (#[trigger] a[i])@ == b[i]@ by {
            if i > 0 {
                assert(c[i - 1] == a[i] && d[i - 1] == b[i]);
                assert(c[i - 1]@ == d[i - 1]@);
            }
        }
    } else {
        assert(metadata::chain_name_bytes(a) + x =~= x);
        assert(metadata::chain_name_bytes(b) + y =~= y);
    }
}

proof fn lemma_totals(a: Seq<ChainTotal>, b: Seq<ChainTotal>)
    requires
        a.len() == b.len(),
        forall|i: int| 0 <= i < a.len() ==> (#[trigger] a[i]).name@ == b[i].name@,
    ensures
        metadata::chain_total_bytes(a).len() == metadata::chain_total_bytes(b).len(),
        metadata::chain_total_bytes(a) == metadata::chain_total_bytes(b) ==> forall|i: int|
            0 <= i < a.len() ==> (#[trigger] a[i]).contracts as u64 == b[i].contracts as u64
                && a[i].nfts as u64 == b[i].nfts as u64,
    decreases a.len(),
{
    if a.len() > 0 {
        let last = a.len() - 1;
        let c = a.drop_last();
        let d = b.drop_last();
        assert forall|i: int| 0 <= i < c.len() implies (#[trigger] c[i]).name@ == d[i].name@ by {
            assert(a[i].name@ == b[i].name@);
        }
        lemma_totals(c, d);
        assert(a[last].name@ == b[last].name@);
        let m = metadata::chain_total_bytes(c);
        let n = metadata::chain_total_bytes(d);
        let name = vstd::utf8::encode_utf8(a[last].name@);
        let s = vstd::bytes::spec_u64_to_le_bytes(a[last].contracts as u64);
        let t = vstd::bytes::spec_u64_to_le_bytes(b[last].contracts as u64);
        let v = vstd::bytes::spec_u64_to_le_bytes(a[last].nfts as u64);
        let w = vstd::bytes::spec_u64_to_le_bytes(b[last].nfts as u64);
        lemma_words(a[last].contracts as u64, b[last].contracts as u64);
        lemma_words(a[last].nfts as u64, b[last].nfts as u64);
        if metadata::chain_total_bytes(a) == metadata::chain_total_bytes(b) {
            lemma_cancel(m + name + s, v, n + name + t, w);
            lemma_cancel(m + name, s, n + name, t);
            lemma_cancel(m, name, n, name);
            assert forall|i: int| 0 <= i < a.len() implies (#[trigger] a[i]).contracts as u64
                == b[i].contracts as u64 && a[i].nfts as u64 == b[i].nfts as u64 by {
                if i < last {
                    assert(c[i] == a[i] && d[i] == b[i]);
                }
            }
        }
    }
}

/// Totals stand under the names of the chains and are not below zero.
pub open spec fn has_named_totals(snapshot: MetadataSnapshot) -> bool {
    &&& snapshot.ready.chain_totals@.len() == snapshot.ready.chains@.len()
    &&& forall|i: int|
        0 <= i < snapshot.ready.chains@.len() ==> (
        #[trigger] snapshot.ready.chain_totals@[i]).name@ == snapshot.ready.chains@[i]@
            && snapshot.ready.chain_totals@[i].contracts >= 0
            && snapshot.ready.chain_totals@[i].nfts >= 0
    &&& forall|i: int|
        0 <= i < snapshot.ready.chains@.len() ==> vstd::utf8::encode_utf8(
            (#[trigger] snapshot.ready.chains@[i])@,
        ).len() <= u64::MAX
}

/// Two snapshots of as many chains, with checksums of the same lengths, have the same bytes to
/// take the fingerprint of only if they agree in the number of atoms, in the length and the
/// checksum of every column, and in the name and the totals of every chain.
pub proof fn lemma_fingerprint_tells_apart(a: MetadataSnapshot, b: MetadataSnapshot)
    requires
        a.fingerprint_bytes() == b.fingerprint_bytes(),
        a.checksums@.len() == 34,
        b.checksums@.len() == 34,
        forall|i: int|
            0 <= i < 34 ==> (#[trigger] a.checksums@[i])@.len() == b.checksums@[i]@.len(),
        a.ready.chains@.len() == b.ready.chains@.len(),
        has_named_totals(a),
        has_named_totals(b),
    ensures
        a.blocking_ready.atom_count == b.blocking_ready.atom_count,
        same_feature_lengths(a.features, b.features),
        same_blocking_lengths(a.blocking, b.blocking),
        forall|i: int| 0 <= i < 34 ==> (#[trigger] a.checksums@[i])@ == b.checksums@[i]@,
        forall|i: int|
            0 <= i < a.ready.chains@.len() ==> (#[trigger] a.ready.chains@[i])@
                == b.ready.chains@[i]@,
        forall|i: int|
            0 <= i < a.ready.chains@.len() ==> (#[trigger] a.ready.chain_totals@[i]).contracts
                == b.ready.chain_totals@[i].contracts && a.ready.chain_totals@[i].nfts
                == b.ready.chain_totals@[i].nfts,
{
    let tag = vstd::utf8::encode_utf8("metadata-snapshot-fingerprint-v2"@);
    let s = vstd::bytes::spec_u64_to_le_bytes(a.blocking_ready.atom_count as u64);
    let t = vstd::bytes::spec_u64_to_le_bytes(b.blocking_ready.atom_count as u64);
    lemma_words(a.blocking_ready.atom_count as u64, b.blocking_ready.atom_count as u64);
    let c = metadata::named_columns(a.features, a.blocking);
    let d = metadata::named_columns(b.features, b.blocking);
    assert(are_labelled_alike(c, d, a.checksums@, b.checksums@));
    lemma_columns(c, d, a.checksums@, b.checksums@);
    let k = metadata::all_column_bytes(c, a.checksums@);
    let l = metadata::all_column_bytes(d, b.checksums@);
    let m = metadata::chain_name_bytes(a.ready.chains@);
    let n = metadata::chain_name_bytes(b.ready.chains@);
    let v = metadata::chain_total_bytes(a.ready.chain_totals@);
    let w = metadata::chain_total_bytes(b.ready.chain_totals@);
    assert(tag + s + k + m + v =~= (tag + s + k) + (m + v));
    assert(tag + t + l + n + w =~= (tag + t + l) + (n + w));
    lemma_cancel(tag + s + k, m + v, tag + t + l, n + w);
    lemma_cancel(tag + s, k, tag + t, l);
    lemma_cancel(tag, s, tag, t);
    lemma_names(a.ready.chains@, v, b.ready.chains@, w);
    assert forall|i: int| 0 <= i < a.ready.chain_totals@.len() implies (
    #[trigger] a.ready.chain_totals@[i]).name@ == b.ready.chain_totals@[i].name@ by {
        assert(a.ready.chains@[i]@ == b.ready.chains@[i]@);
    }
    lemma_totals(a.ready.chain_totals@, b.ready.chain_totals@);
    lemma_lengths(a, b);
}

proof fn lemma_lengths(a: MetadataSnapshot, b: MetadataSnapshot)
    requires
        ({
            let c = metadata::named_columns(a.features, a.blocking);
            let d = metadata::named_columns(b.features, b.blocking);
            forall|i: int| 0 <= i < 34 ==> (#[trigger] c[i]).1 as u64 == d[i].1 as u64
        }),
    ensures
        same_feature_lengths(a.features, b.features),
        same_blocking_lengths(a.blocking, b.blocking),
{
    let c = metadata::named_columns(a.features, a.blocking);
    let d = metadata::named_columns(b.features, b.blocking);
    assert(c[0].1 as u64 == d[0].1 as u64 && c[1].1 as u64 == d[1].1 as u64);
    assert(c[2].1 as u64 == d[2].1 as u64 && c[3].1 as u64 == d[3].1 as u64);
    assert(c[4].1 as u64 == d[4].1 as u64 && c[5].1 as u64 == d[5].1 as u64);
    assert(c[6].1 as u64 == d[6].1 as u64 && c[7].1 as u64 == d[7].1 as u64);
    assert(c[8].1 as u64 == d[8].1 as u64 && c[9].1 as u64 == d[9].1 as u64);
    assert(c[10].1 as u64 == d[10].1 as u64 && c[11].1 as u64 == d[11].1 as u64);
    assert(c[12].1 as u64 == d[12].1 as u64 && c[13].1 as u64 == d[13].1 as u64);
    assert(c[14].1 as u64 == d[14].1 as u64 && c[15].1 as u64 == d[15].1 as u64);
    assert(c[16].1 as u64 == d[16].1 as u64 && c[17].1 as u64 == d[17].1 as u64);
    assert(c[18].1 as u64 == d[18].1 as u64 && c[19].1 as u64 == d[19].1 as u64);
    assert(c[20].1 as u64 == d[20].1 as u64 && c[21].1 as u64 == d[21].1 as u64);
    assert(c[22].1 as u64 == d[22].1 as u64 && c[23].1 as u64 == d[23].1 as u64);
    assert(c[24].1 as u64 == d[24].1 as u64 && c[25].1 as u64 == d[25].1 as u64);
    assert(c[26].1 as u64 == d[26].1 as u64 && c[27].1 as u64 == d[27].1 as u64);
    assert(c[28].1 as u64 == d[28].1 as u64 && c[29].1 as u64 == d[29].1 as u64);
    assert(c[30].1 as u64 == d[30].1 as u64 && c[31].1 as u64 == d[31].1 as u64);
    assert(c[32].1 as u64 == d[32].1 as u64 && c[33].1 as u64 == d[33].1 as u64);
}

} // verus!
