//! An opened snapshot and its fingerprint.

use crate::digest;
use crate::digest::digest_hex;
use crate::snapshot::atoms;
use crate::snapshot::blocking::BlockingView;
use crate::snapshot::error::{SnapshotError, SnapshotFault};
use crate::snapshot::features::{ChainTotal, FeatureReady, FeatureView};
use vstd::bytes::u64_to_le_bytes;
use vstd::prelude::*;
use vstd::string::*;

verus! {

/// Schema revision of the feature columns.
pub const ENCODE_SCHEMA_REVISION: u32 = 3;

/// Revision of the blocking columns.
pub const BLOCKING_REVISION: u32 = 3;

/// Columns of a snapshot's features.
pub const FEATURE_COLUMNS: usize = 24;

/// Columns of a snapshot, features and blocking together.
pub const SNAPSHOT_COLUMNS: usize = 34;

/// What the blocking columns are announced to be.
#[derive(Debug)]
pub struct BlockingReady {
    pub blocking_revision: u32,
    pub atom_count: usize,
    pub artifact_run_id: Option<String>,
}

/// Both runs are the same, or both are unnamed.
pub open spec fn same_run(left: Option<String>, right: Option<String>) -> bool {
    match (left, right) {
        (Some(left), Some(right)) => left@ == right@,
        (None, None) => true,
        _ => false,
    }
}

/// The announcements contradict each other or are of another revision.
pub open spec fn ready_fault(features: FeatureReady, blocking: BlockingReady) -> Option<
    SnapshotFault,
> {
    if features.schema_revision != ENCODE_SCHEMA_REVISION {
        Some(
            SnapshotFault::Revision {
                artifact: "encode"@,
                got: features.schema_revision,
                expected: ENCODE_SCHEMA_REVISION,
            },
        )
    } else if blocking.blocking_revision != BLOCKING_REVISION {
        Some(
            SnapshotFault::Revision {
                artifact: "blocking"@,
                got: blocking.blocking_revision,
                expected: BLOCKING_REVISION,
            },
        )
    } else if !same_run(features.artifact_run_id, blocking.artifact_run_id) {
        Some(SnapshotFault::Invariant("encode and blocking publish generation mismatch"@))
    } else {
        None
    }
}

/// A text as a fault.
pub open spec fn invariant_fault(fault: Option<Seq<char>>) -> Option<SnapshotFault> {
    match fault {
        Some(text) => Some(SnapshotFault::Invariant(text)),
        None => None,
    }
}

/// What is wrong with a snapshot, if anything.
pub open spec fn snapshot_fault(
    ready: FeatureReady,
    blocking_ready: BlockingReady,
    features: FeatureView,
    blocking: BlockingView,
) -> Option<SnapshotFault> {
    let atom_count = blocking_ready.atom_count as nat;
    if ready_fault(ready, blocking_ready) is Some {
        ready_fault(ready, blocking_ready)
    } else if features.fault(ready) is Some {
        invariant_fault(features.fault(ready))
    } else if blocking.fault(atom_count) is Some {
        invariant_fault(blocking.fault(atom_count))
    } else {
        invariant_fault(atoms::atoms_fault(features, atom_count))
    }
}

/// How many columns are read before a snapshot is refused, or all.
pub open spec fn columns_read(
    ready: FeatureReady,
    blocking_ready: BlockingReady,
    features: FeatureView,
) -> int {
    if ready_fault(ready, blocking_ready) is Some {
        0
    } else if features.fault(ready) is Some {
        FEATURE_COLUMNS as int
    } else {
        SNAPSHOT_COLUMNS as int
    }
}

/// A consistent set of feature and blocking columns.
pub struct MetadataSnapshot {
    pub ready: FeatureReady,
    pub blocking_ready: BlockingReady,
    pub features: FeatureView,
    pub blocking: BlockingView,
    /// The checksums that the columns were read with, in the order of [`named_columns`].
    pub checksums: Vec<Vec<u8>>,
}

/// The label and length of each column, features first.
pub open spec fn named_columns(features: FeatureView, blocking: BlockingView) -> Seq<
    (Seq<char>, nat),
> {
    seq![
        ("source_to_payload"@, features.source_to_payload@.len()),
        ("payload_template_offsets"@, features.payload_template_offsets@.len()),
        ("payload_template_terms"@, features.payload_template_terms@.len()),
        ("payload_template_freqs"@, features.payload_template_freqs@.len()),
        ("payload_content_offsets"@, features.payload_content_offsets@.len()),
        ("payload_content_terms"@, features.payload_content_terms@.len()),
        ("payload_content_freqs"@, features.payload_content_freqs@.len()),
        ("payload_template_sigs"@, features.payload_template_sigs@.len()),
        ("payload_content_sigs"@, features.payload_content_sigs@.len()),
        ("contract_token_offsets"@, features.contract_token_offsets@.len()),
        ("contract_tokens"@, features.contract_tokens@.len()),
        ("token_member_offsets"@, features.token_member_offsets@.len()),
        ("token_member_contracts"@, features.token_member_contracts@.len()),
        ("token_member_sources"@, features.token_member_sources@.len()),
        ("payload_lengths"@, features.payload_lengths@.len()),
        ("query_denominators"@, features.query_denominators@.len()),
        ("prepared_weight_offsets"@, features.prepared_weight_offsets@.len()),
        ("prepared_weights"@, features.prepared_weights@.len()),
        ("contract_source"@, features.contract_source@.len()),
        ("contract_chain"@, features.contract_chain@.len()),
        ("contract_payload"@, features.contract_payload@.len()),
        ("contract_weight"@, features.contract_weight@.len()),
        ("fallback_atom_offsets"@, features.fallback_atom_offsets@.len()),
        ("fallback_atom_contracts"@, features.fallback_atom_contracts@.len()),
        ("primary_storage_shards"@, blocking.primary_storage_shards@.len()),
        ("template_simhashes"@, blocking.template_simhashes@.len()),
        ("content_simhashes"@, blocking.content_simhashes@.len()),
        ("routing_statuses"@, blocking.routing_statuses@.len()),
        ("atom_block_offsets"@, blocking.atom_block_offsets@.len()),
        ("atom_block_ids"@, blocking.atom_block_ids@.len()),
        ("block_atom_offsets"@, blocking.block_atom_offsets@.len()),
        ("block_atoms"@, blocking.block_atoms@.len()),
        ("block_kinds"@, blocking.block_kinds@.len()),
        ("block_keys"@, blocking.block_keys@.len()),
    ]
}

/// The encoding of a column: its label, its length and its checksum.
pub open spec fn column_bytes(column: (Seq<char>, nat), checksum: Seq<u8>) -> Seq<u8> {
    vstd::utf8::encode_utf8(column.0) + vstd::bytes::spec_u64_to_le_bytes(column.1 as u64)
        + checksum
}

/// The encodings of the columns, one after the other.
pub open spec fn all_column_bytes(columns: Seq<(Seq<char>, nat)>, checksums: Seq<Vec<u8>>) -> Seq<
    u8,
>
    decreases columns.len(),
{
    if columns.len() == 0 {
        Seq::empty()
    } else {
        all_column_bytes(columns.drop_last(), checksums) + column_bytes(
            columns.last(),
            checksums[columns.len() - 1]@,
        )
    }
}

/// The encodings of chain names, each after its length.
pub open spec fn chain_name_bytes(names: Seq<String>) -> Seq<u8>
    decreases names.len(),
{
    if names.len() == 0 {
        Seq::empty()
    } else {
        let name = vstd::utf8::encode_utf8(names.last()@);
        chain_name_bytes(names.drop_last()) + vstd::bytes::spec_u64_to_le_bytes(name.len() as u64)
            + name
    }
}

/// The encodings of chain totals.
pub open spec fn chain_total_bytes(totals: Seq<ChainTotal>) -> Seq<u8>
    decreases totals.len(),
{
    if totals.len() == 0 {
        Seq::empty()
    } else {
        chain_total_bytes(totals.drop_last()) + vstd::utf8::encode_utf8(totals.last().name@)
            + vstd::bytes::spec_u64_to_le_bytes(totals.last().contracts as u64)
            + vstd::bytes::spec_u64_to_le_bytes(totals.last().nfts as u64)
    }
}

/// The sum of the sizes.
pub open spec fn size_sum(sizes: Seq<u64>) -> nat
    decreases sizes.len(),
{
    if sizes.len() == 0 {
        0
    } else {
        size_sum(sizes.drop_last()) + sizes.last() as nat
    }
}

proof fn lemma_size_sum_grows(sizes: Seq<u64>, count: int)
    requires
        0 <= count <= sizes.len(),
    ensures
        size_sum(sizes.take(count)) <= size_sum(sizes),
    decreases sizes.len() - count,
{
    if count < sizes.len() {
        assert(sizes.take(count + 1).drop_last() =~= sizes.take(count));
        lemma_size_sum_grows(sizes, count + 1);
    } else {
        assert(sizes.take(count) =~= sizes);
    }
}

/// Appends the sizes from `begin` up to `end`.
fn report_sizes(sizes: &Vec<u64>, begin: usize, end: usize, reports: &mut Vec<u64>)
    requires
        begin <= end <= sizes@.len(),
    ensures
        final(reports)@ == old(reports)@ + sizes@.subrange(begin as int, end as int),
{
    let ghost before = reports@;
    let mut i: usize = begin;
    while i < end
        invariant
            begin <= i <= end <= sizes@.len(),
            reports@ == before + sizes@.subrange(begin as int, i as int),
        decreases end - i,
    {
        reports.push(sizes[i]);
        assert(sizes@.subrange(begin as int, i + 1) =~= sizes@.subrange(
            begin as int,
            i as int,
        ).push(sizes@[i as int]));
        i = i + 1;
    }
}

fn runs_agree(left: &Option<String>, right: &Option<String>) -> (agree: bool)
    ensures
        agree == same_run(*left, *right),
{
    match (left, right) {
        (Some(left), Some(right)) => *left == *right,
        (None, None) => true,
        _ => false,
    }
}

fn check_ready(features: &FeatureReady, blocking: &BlockingReady) -> (result: Result<
    (),
    SnapshotError,
>)
    ensures
        match ready_fault(*features, *blocking) {
            None => result is Ok,
            Some(fault) => result matches Err(e) && e@ == fault,
        },
{
    check_revision("encode", features.schema_revision, ENCODE_SCHEMA_REVISION)?;
    check_revision("blocking", blocking.blocking_revision, BLOCKING_REVISION)?;
    if !runs_agree(&features.artifact_run_id, &blocking.artifact_run_id) {
        return Err(
            SnapshotError::Invariant("encode and blocking publish generation mismatch".to_owned()),
        );
    }
    Ok(())
}

/// Refuses another revision than the expected one.
pub fn check_revision(artifact: &'static str, got: u32, expected: u32) -> (result: Result<
    (),
    SnapshotError,
>)
    ensures
        got == expected ==> result is Ok,
        got != expected ==> (result matches Err(e) && e@ == (SnapshotFault::Revision {
            artifact: artifact@,
            got,
            expected,
        })),
{
    if got == expected {
        Ok(())
    } else {
        Err(SnapshotError::Revision { artifact, got, expected })
    }
}

impl MetadataSnapshot {
    /// The columns are consistent, and each has a checksum.
    pub open spec fn wf(self) -> bool {
        &&& self.features.has_small_identities()
        &&& self.blocking.block_atom_offsets@.len() <= u32::MAX
        &&& self.checksums@.len() == SNAPSHOT_COLUMNS
        &&& snapshot_fault(self.ready, self.blocking_ready, self.features, self.blocking) is None
    }

    /// Opens a snapshot from its columns and what they are announced to be.
    pub fn open(
        ready: FeatureReady,
        blocking_ready: BlockingReady,
        features: FeatureView,
        blocking: BlockingView,
        checksums: Vec<Vec<u8>>,
    ) -> (result: Result<MetadataSnapshot, SnapshotError>)
        requires
            features.has_small_identities(),
            blocking.block_atom_offsets@.len() <= u32::MAX,
            checksums@.len() == SNAPSHOT_COLUMNS,
        ensures
            match snapshot_fault(ready, blocking_ready, features, blocking) {
                None => result == Ok::<MetadataSnapshot, SnapshotError>(
                    (MetadataSnapshot { ready, blocking_ready, features, blocking, checksums }),
                ),
                Some(fault) => result matches Err(e) && e@ == fault,
            },
            result matches Ok(snapshot) ==> snapshot.wf(),
    {
        check_ready(&ready, &blocking_ready)?;
        if let Some(text) = features.check(&ready) {
            return Err(SnapshotError::Invariant(text));
        }
        blocking.validate(blocking_ready.atom_count)?;
        if let Some(text) = features.check_atoms(blocking_ready.atom_count, Ghost(ready)) {
            return Err(SnapshotError::Invariant(text));
        }
        Ok(MetadataSnapshot { ready, blocking_ready, features, blocking, checksums })
    }

    /// Opens a snapshot and appends, for each column that was read, its stored size.
    pub fn open_with_progress(
        ready: FeatureReady,
        blocking_ready: BlockingReady,
        features: FeatureView,
        blocking: BlockingView,
        checksums: Vec<Vec<u8>>,
        sizes: &Vec<u64>,
        reports: &mut Vec<u64>,
    ) -> (result: Result<MetadataSnapshot, SnapshotError>)
        requires
            features.has_small_identities(),
            blocking.block_atom_offsets@.len() <= u32::MAX,
            checksums@.len() == SNAPSHOT_COLUMNS,
            sizes@.len() == SNAPSHOT_COLUMNS,
        ensures
            match snapshot_fault(ready, blocking_ready, features, blocking) {
                None => result == Ok::<MetadataSnapshot, SnapshotError>(
                    (MetadataSnapshot { ready, blocking_ready, features, blocking, checksums }),
                ),
                Some(fault) => result matches Err(e) && e@ == fault,
            },
            result matches Ok(snapshot) ==> snapshot.wf(),
            final(reports)@ == old(reports)@ + sizes@.take(
                columns_read(ready, blocking_ready, features),
            ),
    {
        let ghost before = reports@;
        assert(before + sizes@.take(0) =~= before);
        check_ready(&ready, &blocking_ready)?;
        report_sizes(sizes, 0, FEATURE_COLUMNS, reports);
        if let Some(text) = features.check(&ready) {
            return Err(SnapshotError::Invariant(text));
        }
        report_sizes(sizes, FEATURE_COLUMNS, SNAPSHOT_COLUMNS, reports);
        assert(reports@ =~= before + sizes@.take(SNAPSHOT_COLUMNS as int));
        blocking.validate(blocking_ready.atom_count)?;
        if let Some(text) = features.check_atoms(blocking_ready.atom_count, Ghost(ready)) {
            return Err(SnapshotError::Invariant(text));
        }
        Ok(MetadataSnapshot { ready, blocking_ready, features, blocking, checksums })
    }

    /// The bytes of all stored columns.
    pub fn verification_bytes(sizes: &Vec<u64>) -> (result: Result<u64, SnapshotError>)
        ensures
            size_sum(sizes@) <= u64::MAX ==> (result matches Ok(total) && total == size_sum(
                sizes@,
            )),
            size_sum(sizes@) > u64::MAX ==> (result matches Err(e) && e@
                == SnapshotFault::Invariant("snapshot verification byte overflow"@)),
    {
        let mut total: u64 = 0;
        let mut i: usize = 0;
        assert(sizes@.take(0) =~= Seq::<u64>::empty());
        while i < sizes.len()
            invariant
                i <= sizes@.len(),
                total == size_sum(sizes@.take(i as int)),
            decreases sizes.len() - i,
        {
            proof {
                assert(sizes@.take(i + 1).drop_last() =~= sizes@.take(i as int));
                lemma_size_sum_grows(sizes@, i + 1);
            }
            match total.checked_add(sizes[i]) {
                Some(sum) => {
                    total = sum;
                },
                None => {
                    return Err(
                        SnapshotError::Invariant("snapshot verification byte overflow".to_owned()),
                    );
                },
            }
            i = i + 1;
        }
        assert(sizes@.take(i as int) =~= sizes@);
        Ok(total)
    }

    /// The feature columns.
    pub fn features(&self) -> (view: &FeatureView)
        ensures
            *view == self.features,
    {
        &self.features
    }

    /// The blocking columns.
    pub fn blocking(&self) -> (view: &BlockingView)
        ensures
            *view == self.blocking,
    {
        &self.blocking
    }

    /// The number of atoms.
    pub fn atom_count(&self) -> (count: usize)
        ensures
            count == self.blocking_ready.atom_count,
    {
        self.blocking_ready.atom_count
    }

    /// The number of contracts.
    pub fn contract_count(&self) -> (count: usize)
        ensures
            count == self.features.contract_count(),
    {
        self.features.contract_source.len()
    }

    /// The chain names.
    pub fn chain_names(&self) -> (names: &Vec<String>)
        ensures
            *names == self.ready.chains,
    {
        &self.ready.chains
    }

    /// The chain totals.
    pub fn chain_totals(&self) -> (totals: &Vec<ChainTotal>)
        ensures
            *totals == self.ready.chain_totals,
    {
        &self.ready.chain_totals
    }

    /// What the fingerprint is the digest of.
    pub open spec fn fingerprint_bytes(self) -> Seq<u8> {
        vstd::utf8::encode_utf8("metadata-snapshot-fingerprint-v2"@)
            + vstd::bytes::spec_u64_to_le_bytes(self.blocking_ready.atom_count as u64)
            + all_column_bytes(named_columns(self.features, self.blocking), self.checksums@)
            + chain_name_bytes(self.ready.chains@) + chain_total_bytes(self.ready.chain_totals@)
    }

    /// The digest that identifies the snapshot: equal only for equal announcements, lengths
    /// and checksums, as far as the digest tells them apart.
    pub fn fingerprint(&self) -> (fingerprint: String)
        requires
            self.wf(),
        ensures
            fingerprint@ == digest::digest_text(self.fingerprint_bytes()),
    {
        let mut bytes: Vec<u8> = Vec::new();
        append_text(&mut bytes, "metadata-snapshot-fingerprint-v2");
        append_word(&mut bytes, self.blocking_ready.atom_count as u64);
        let columns = self.list_columns();
        let ghost named = named_columns(self.features, self.blocking);
        let ghost before = bytes@;
        let mut i: usize = 0;
        assert(named.take(0) =~= Seq::<(Seq<char>, nat)>::empty());
        assert(before + all_column_bytes(named.take(0), self.checksums@) =~= before);
        while i < columns.len()
            invariant
                i <= columns@.len(),
                self.checksums@.len() == named.len(),
                columns@.len() == named.len(),
                forall|k: int| 0 <= k < named.len() ==> is_column(#[trigger] columns@[k], named[k]),
                bytes@ == before + all_column_bytes(named.take(i as int), self.checksums@),
            decreases columns.len() - i,
        {
            assert(is_column(columns@[i as int], named[i as int]));
            append_text(&mut bytes, columns[i].0);
            append_word(&mut bytes, columns[i].1);
            append_bytes(&mut bytes, &self.checksums[i]);
            proof {
                assert(named.take(i + 1).drop_last() =~= named.take(i as int));
                assert(named.take(i + 1).last() == named[i as int]);
                assert(bytes@ =~= before + all_column_bytes(named.take(i + 1), self.checksums@));
            }
            i = i + 1;
        }
        assert(named.take(i as int) =~= named);
        self.append_chains(&mut bytes);
        assert(bytes@ =~= self.fingerprint_bytes());
        digest_hex(&bytes)
    }

    fn append_chains(&self, bytes: &mut Vec<u8>)
        requires
            self.wf(),
        ensures
            final(bytes)@ == old(bytes)@ + chain_name_bytes(self.ready.chains@)
                + chain_total_bytes(self.ready.chain_totals@),
    {
        let ghost start = bytes@;
        let names = &self.ready.chains;
        let mut i: usize = 0;
        assert(names@.take(0) =~= Seq::<String>::empty());
        assert(start + chain_name_bytes(names@.take(0)) =~= start);
        while i < names.len()
            invariant
                i <= names@.len(),
                bytes@ == start + chain_name_bytes(names@.take(i as int)),
            decreases names.len() - i,
        {
            let encoded = names[i].as_str().as_bytes_vec();
            append_word(bytes, encoded.len() as u64);
            append_bytes(bytes, &encoded);
            proof {
                assert(names@.take(i + 1).drop_last() =~= names@.take(i as int));
                assert(names@.take(i + 1).last() == names@[i as int]);
                assert(bytes@ =~= start + chain_name_bytes(names@.take(i + 1)));
            }
            i = i + 1;
        }
        assert(names@.take(i as int) =~= names@);
        let ghost middle = bytes@;
        let totals = &self.ready.chain_totals;
        let mut j: usize = 0;
        assert(totals@.take(0) =~= Seq::<ChainTotal>::empty());
        assert(middle + chain_total_bytes(totals@.take(0)) =~= middle);
        while j < totals.len()
            invariant
                j <= totals@.len(),
                bytes@ == middle + chain_total_bytes(totals@.take(j as int)),
            decreases totals.len() - j,
        {
            append_text(bytes, totals[j].name.as_str());
            append_word(bytes, totals[j].contracts as u64);
            append_word(bytes, totals[j].nfts as u64);
            proof {
                assert(totals@.take(j + 1).drop_last() =~= totals@.take(j as int));
                assert(totals@.take(j + 1).last() == totals@[j as int]);
                assert(bytes@ =~= middle + chain_total_bytes(totals@.take(j + 1)));
            }
            j = j + 1;
        }
        assert(totals@.take(j as int) =~= totals@);
    }

    fn list_columns(&self) -> (columns: Vec<(&'static str, u64)>)
        ensures
            columns@.len() == SNAPSHOT_COLUMNS,
            named_columns(self.features, self.blocking).len() == SNAPSHOT_COLUMNS,
            forall|k: int|
                0 <= k < SNAPSHOT_COLUMNS ==> is_column(
                    #[trigger] columns@[k],
                    named_columns(self.features, self.blocking)[k],
                ),
    {
        let f = &self.features;
        let b = &self.blocking;
        let mut columns: Vec<(&'static str, u64)> = Vec::new();
        columns.push(("source_to_payload", f.source_to_payload.len() as u64));
        columns.push(("payload_template_offsets", f.payload_template_offsets.len() as u64));
        columns.push(("payload_template_terms", f.payload_template_terms.len() as u64));
        columns.push(("payload_template_freqs", f.payload_template_freqs.len() as u64));
        columns.push(("payload_content_offsets", f.payload_content_offsets.len() as u64));
        columns.push(("payload_content_terms", f.payload_content_terms.len() as u64));
        columns.push(("payload_content_freqs", f.payload_content_freqs.len() as u64));
        columns.push(("payload_template_sigs", f.payload_template_sigs.len() as u64));
        columns.push(("payload_content_sigs", f.payload_content_sigs.len() as u64));
        columns.push(("contract_token_offsets", f.contract_token_offsets.len() as u64));
        columns.push(("contract_tokens", f.contract_tokens.len() as u64));
        columns.push(("token_member_offsets", f.token_member_offsets.len() as u64));
        columns.push(("token_member_contracts", f.token_member_contracts.len() as u64));
        columns.push(("token_member_sources", f.token_member_sources.len() as u64));
        columns.push(("payload_lengths", f.payload_lengths.len() as u64));
        columns.push(("query_denominators", f.query_denominators.len() as u64));
        columns.push(("prepared_weight_offsets", f.prepared_weight_offsets.len() as u64));
        columns.push(("prepared_weights", f.prepared_weights.len() as u64));
        columns.push(("contract_source", f.contract_source.len() as u64));
        columns.push(("contract_chain", f.contract_chain.len() as u64));
        columns.push(("contract_payload", f.contract_payload.len() as u64));
        columns.push(("contract_weight", f.contract_weight.len() as u64));
        columns.push(("fallback_atom_offsets", f.fallback_atom_offsets.len() as u64));
        columns.push(("fallback_atom_contracts", f.fallback_atom_contracts.len() as u64));
        columns.push(("primary_storage_shards", b.primary_storage_shards.len() as u64));
        columns.push(("template_simhashes", b.template_simhashes.len() as u64));
        columns.push(("content_simhashes", b.content_simhashes.len() as u64));
        columns.push(("routing_statuses", b.routing_statuses.len() as u64));
        columns.push(("atom_block_offsets", b.atom_block_offsets.len() as u64));
        columns.push(("atom_block_ids", b.atom_block_ids.len() as u64));
        columns.push(("block_atom_offsets", b.block_atom_offsets.len() as u64));
        columns.push(("block_atoms", b.block_atoms.len() as u64));
        columns.push(("block_kinds", b.block_kinds.len() as u64));
        columns.push(("block_keys", b.block_keys.len() as u64));
        columns
    }
}

spec fn is_column(column: (&str, u64), named: (Seq<char>, nat)) -> bool {
    column.0@ == named.0 && column.1 == named.1
}

fn append_bytes(bytes: &mut Vec<u8>, more: &Vec<u8>)
    ensures
        final(bytes)@ == old(bytes)@ + more@,
{
    bytes.extend_from_slice(more.as_slice());
}

fn append_text(bytes: &mut Vec<u8>, text: &str)
    ensures
        final(bytes)@ == old(bytes)@ + vstd::utf8::encode_utf8(text@),
{
    let encoded = text.as_bytes_vec();
    append_bytes(bytes, &encoded);
}

fn append_word(bytes: &mut Vec<u8>, word: u64)
    ensures
        final(bytes)@ == old(bytes)@ + vstd::bytes::spec_u64_to_le_bytes(word),
{
    let encoded = u64_to_le_bytes(word);
    append_bytes(bytes, &encoded);
}

} // verus!
