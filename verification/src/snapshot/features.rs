//! Feature columns: payload terms, contracts and their retained tokens.

use crate::columns;
use crate::columns::{check_all_below, check_mutual, check_row_increases, check_row_table};
use crate::text;
use crate::text::decimal;
use vstd::prelude::*;
use vstd::string::*;

verus! {

/// Bit pattern of the smallest 64-bit float that is not finite.
pub const INFINITE_BITS: u64 = 0x7ff0_0000_0000_0000;

/// Bit pattern of negative zero.
pub const NEGATIVE_ZERO_BITS: u64 = 0x8000_0000_0000_0000;

/// The feature columns. Weights and denominators are 64-bit floats, kept as bit patterns.
pub struct FeatureView {
    pub source_to_payload: Vec<u32>,
    pub payload_template_offsets: Vec<u64>,
    pub payload_template_terms: Vec<u32>,
    pub payload_template_freqs: Vec<u32>,
    pub payload_content_offsets: Vec<u64>,
    pub payload_content_terms: Vec<u32>,
    pub payload_content_freqs: Vec<u32>,
    pub payload_template_sigs: Vec<u8>,
    pub payload_content_sigs: Vec<u8>,
    pub contract_token_offsets: Vec<u64>,
    pub contract_tokens: Vec<u32>,
    pub token_member_offsets: Vec<u64>,
    pub token_member_contracts: Vec<u32>,
    pub token_member_sources: Vec<u32>,
    pub payload_lengths: Vec<u32>,
    pub query_denominators: Vec<u64>,
    pub prepared_weight_offsets: Vec<u64>,
    pub prepared_weights: Vec<u64>,
    pub contract_source: Vec<u32>,
    pub contract_chain: Vec<u32>,
    pub contract_payload: Vec<u32>,
    pub contract_weight: Vec<u64>,
    pub fallback_atom_offsets: Vec<u64>,
    pub fallback_atom_contracts: Vec<u32>,
}

/// Totals of a chain.
#[derive(Debug, Clone)]
pub struct ChainTotal {
    pub name: String,
    pub contracts: i64,
    pub nfts: i64,
}

/// What the feature columns are announced to be.
#[derive(Debug)]
pub struct FeatureReady {
    pub schema_revision: u32,
    pub source_count: usize,
    pub payload_count: usize,
    /// Bytes of the term signature of one payload.
    pub signature_bytes: usize,
    pub artifact_run_id: Option<String>,
    pub chains: Vec<String>,
    pub chain_totals: Vec<ChainTotal>,
}

/// A finite weight that is not below zero.
pub open spec fn is_weight(bits: u64) -> bool {
    bits < INFINITE_BITS || bits == NEGATIVE_ZERO_BITS
}

/// A finite denominator above zero.
pub open spec fn is_denominator(bits: u64) -> bool {
    0 < bits < INFINITE_BITS
}

/// The sum of the values from `begin` up to `end`.
pub open spec fn value_sum(values: Seq<u32>, begin: int, end: int) -> nat
    decreases end - begin,
{
    if end <= begin {
        0
    } else {
        value_sum(values, begin, end - 1) + values[end - 1] as nat
    }
}

/// Row `row` holds a zero.
pub open spec fn row_has_zero(offsets: Seq<u64>, values: Seq<u32>, row: int) -> bool {
    exists|k: int| offsets[row] <= k < offsets[row + 1] && #[trigger] values[k] == 0
}

/// Member `k` comes after member `k - 1`, by contract and then by source.
pub open spec fn member_follows(view: FeatureView, k: int) -> bool {
    let contracts = view.token_member_contracts@;
    let sources = view.token_member_sources@;
    contracts[k - 1] < contracts[k] || (contracts[k - 1] == contracts[k] && sources[k - 1]
        < sources[k])
}

/// The members of a token are in order, none twice.
pub open spec fn members_ordered(view: FeatureView, token: int) -> bool {
    forall|k: int|
        view.token_member_offsets@[token] < k < view.token_member_offsets@[token + 1]
            ==> #[trigger] member_follows(view, k)
}

impl FeatureView {
    pub open spec fn payload_count(self) -> int {
        if self.payload_template_offsets@.len() == 0 {
            0
        } else {
            self.payload_template_offsets@.len() - 1
        }
    }

    pub open spec fn contract_count(self) -> int {
        self.contract_source@.len() as int
    }

    pub open spec fn token_count(self) -> int {
        self.token_member_offsets@.len() - 1
    }

    /// Identities fit 32 bits, with one value to spare.
    pub open spec fn has_small_identities(self) -> bool {
        &&& self.contract_source@.len() <= u32::MAX
        &&& self.token_member_offsets@.len() <= u32::MAX
    }

    /// Columns that go together have other lengths.
    pub open spec fn has_uneven_columns(self, ready: FeatureReady) -> bool {
        let payloads = self.payload_count();
        ||| self.payload_template_terms@.len() != self.payload_template_freqs@.len()
        ||| self.payload_content_terms@.len() != self.payload_content_freqs@.len()
        ||| self.token_member_contracts@.len() != self.token_member_sources@.len()
        ||| self.payload_lengths@.len() != payloads
        ||| self.query_denominators@.len() != payloads
        ||| self.prepared_weight_offsets@.len() != payloads + 1
        ||| !columns::is_row_table(self.prepared_weight_offsets@, self.prepared_weights@.len())
        ||| self.prepared_weights@.len() != self.payload_template_terms@.len()
        ||| self.payload_template_sigs@.len() != payloads * ready.signature_bytes
        ||| self.payload_content_sigs@.len() != payloads * ready.signature_bytes
        ||| self.contract_source@.len() != self.contract_payload@.len()
        ||| self.contract_source@.len() != self.contract_chain@.len()
        ||| self.contract_source@.len() != self.contract_weight@.len()
    }

    /// The columns do not fit each other.
    pub open spec fn shape_fault(self, ready: FeatureReady) -> Option<Seq<char>> {
        let template = columns::row_table_fault(
            "template"@,
            self.payload_template_offsets@,
            self.payload_template_terms@.len(),
        );
        let content = columns::row_table_fault(
            "content"@,
            self.payload_content_offsets@,
            self.payload_content_terms@.len(),
        );
        let tokens = columns::row_table_fault(
            "contract_tokens"@,
            self.contract_token_offsets@,
            self.contract_tokens@.len(),
        );
        let members = columns::row_table_fault(
            "token_members"@,
            self.token_member_offsets@,
            self.token_member_contracts@.len(),
        );
        let atoms = columns::row_table_fault(
            "fallback_atoms"@,
            self.fallback_atom_offsets@,
            self.fallback_atom_contracts@.len(),
        );
        if self.source_to_payload@.len() != ready.source_count {
            Some("source_count"@)
        } else if self.payload_count() != ready.payload_count || self.payload_content_offsets@.len()
            != self.payload_count() + 1 {
            Some("payload_count"@)
        } else if template is Some {
            template
        } else if content is Some {
            content
        } else if tokens is Some {
            tokens
        } else if members is Some {
            members
        } else if atoms is Some {
            atoms
        } else if self.has_uneven_columns(ready) {
            Some("parallel column length"@)
        } else if self.contract_token_offsets@.len() != self.contract_count() + 1 {
            Some(
                "contract_token_offsets length "@ + text::decimal_text(
                    self.contract_token_offsets@.len(),
                ) + " != contract_count + 1 "@ + text::decimal_text(
                    (self.contract_count() + 1) as nat,
                ),
            )
        } else {
            None
        }
    }

    /// Sources, contracts and payloads contradict each other.
    pub open spec fn identity_fault(self, ready: FeatureReady) -> Option<Seq<char>> {
        if !columns::all_below(self.source_to_payload@, self.payload_count())
            || !columns::all_below(self.contract_payload@, self.payload_count())
            || !columns::all_below(self.contract_source@, ready.source_count as int) {
            Some("source/contract identity references missing row"@)
        } else if exists|contract: int|
            0 <= contract < self.contract_count() && self.source_to_payload@[(
            #[trigger] self.contract_source@[contract]) as int]
                != self.contract_payload@[contract] {
            Some("contract source/payload identity mismatch"@)
        } else {
            None
        }
    }

    /// What is wrong with a payload.
    pub open spec fn payload_fault(self, payload: int) -> Option<Seq<char>> {
        let template = self.payload_template_offsets@;
        let content = self.payload_content_offsets@;
        let prepared = self.prepared_weight_offsets@;
        if !columns::row_increases(template, self.payload_template_terms@, payload) {
            Some("payload template terms not strictly sorted"@)
        } else if !columns::row_increases(content, self.payload_content_terms@, payload) {
            Some("payload content terms not strictly sorted"@)
        } else if row_has_zero(template, self.payload_template_freqs@, payload) || row_has_zero(
            content,
            self.payload_content_freqs@,
            payload,
        ) {
            Some("payload term frequency must be positive"@)
        } else if value_sum(
            self.payload_content_freqs@,
            content[payload] as int,
            content[payload + 1] as int,
        ) != self.payload_lengths@[payload] {
            Some("payload content length mismatch"@)
        } else if prepared[payload + 1] - prepared[payload] != template[payload + 1]
            - template[payload] {
            Some("prepared template weight cardinality mismatch"@)
        } else if exists|k: int|
            prepared[payload] <= k < prepared[payload + 1] && !is_weight(
                #[trigger] self.prepared_weights@[k],
            ) {
            Some("invalid prepared template weight"@)
        } else if !is_denominator(self.query_denominators@[payload]) {
            Some("invalid query denominator"@)
        } else {
            None
        }
    }

    /// What is wrong with the first payload from `at` on that has a fault.
    pub open spec fn first_payload_fault(self, at: int) -> Option<Seq<char>>
        decreases self.payload_count() - at,
    {
        if at < 0 || at >= self.payload_count() {
            None
        } else if self.payload_fault(at) is Some {
            self.payload_fault(at)
        } else {
            self.first_payload_fault(at + 1)
        }
    }

    /// Some source belongs to two contracts.
    pub open spec fn has_shared_source(self) -> bool {
        exists|i: int, j: int|
            0 <= i < j < self.token_member_sources@.len() && #[trigger] self.token_member_sources@[i]
                == #[trigger] self.token_member_sources@[j] && self.token_member_contracts@[i]
                != self.token_member_contracts@[j]
    }

    /// Some contract is represented by a source of another contract.
    pub open spec fn has_foreign_representative(self) -> bool {
        exists|contract: int, k: int|
            0 <= contract < self.contract_source@.len() && 0 <= k < self.token_member_sources@.len()
                && #[trigger] self.contract_source@[contract]
                == #[trigger] self.token_member_sources@[k] && self.token_member_contracts@[k]
                != contract
    }

    /// Tokens and their members contradict each other.
    pub open spec fn token_fault(self, ready: FeatureReady) -> Option<Seq<char>> {
        if !columns::all_below(self.token_member_contracts@, self.contract_count()) {
            Some("token member references missing contract"@)
        } else if !columns::all_below(self.token_member_sources@, ready.source_count as int) {
            Some("token member references missing source"@)
        } else if self.has_shared_source() {
            Some("source identity belongs to multiple contracts"@)
        } else if self.has_foreign_representative() {
            Some("contract representative source identity mismatch"@)
        } else if exists|contract: int|
            0 <= contract < self.contract_count() && !(#[trigger] columns::row_increases(
                self.contract_token_offsets@,
                self.contract_tokens@,
                contract,
            )) {
            Some("contract tokens not strictly sorted"@)
        } else if exists|token: int|
            0 <= token < self.token_count() && !(#[trigger] members_ordered(self, token)) {
            Some("token members not strictly sorted"@)
        } else if !columns::are_mutual(
            self.contract_token_offsets@,
            self.contract_tokens@,
            self.token_member_offsets@,
            self.token_member_contracts@,
        ) {
            Some("token membership directions disagree"@)
        } else {
            None
        }
    }

    /// Chains contradict what was announced.
    pub open spec fn chain_fault(self, ready: FeatureReady) -> Option<Seq<char>> {
        let chains = ready.chains@;
        let totals = ready.chain_totals@;
        if (exists|i: int| 0 <= i < chains.len() && (#[trigger] chains[i])@.len() == 0) || exists|
            i: int,
            j: int,
        |
            0 <= i < j < chains.len() && (#[trigger] chains[i])@ == (#[trigger] chains[j])@ {
            Some("chain identities are empty or duplicated"@)
        } else if totals.len() != chains.len() || exists|i: int|
            0 <= i < totals.len() && (#[trigger] totals[i]).name@ != chains[i]@ {
            Some("chain totals do not align with chain ids"@)
        } else if exists|i: int|
            0 <= i < totals.len() && ((#[trigger] totals[i]).contracts < 0 || totals[i].nfts < 0) {
            Some("chain totals must be non-negative"@)
        } else if !columns::all_below(self.contract_chain@, chains.len() as int) {
            Some("contract references missing chain"@)
        } else {
            None
        }
    }

    /// What is wrong with the columns, if anything.
    pub open spec fn fault(self, ready: FeatureReady) -> Option<Seq<char>> {
        if self.shape_fault(ready) is Some {
            self.shape_fault(ready)
        } else if self.identity_fault(ready) is Some {
            self.identity_fault(ready)
        } else if self.first_payload_fault(0) is Some {
            self.first_payload_fault(0)
        } else if self.token_fault(ready) is Some {
            self.token_fault(ready)
        } else {
            self.chain_fault(ready)
        }
    }
}

proof fn lemma_value_sum_grows(values: Seq<u32>, begin: int, mid: int, end: int)
    requires
        begin <= mid <= end,
    ensures
        value_sum(values, begin, mid) <= value_sum(values, begin, end),
    decreases end - mid,
{
    if mid < end {
        lemma_value_sum_grows(values, begin, mid, end - 1);
    }
}

proof fn lemma_members_ascend(view: FeatureView, token: int, i: int, j: int)
    requires
        members_ordered(view, token),
        view.token_member_offsets@[token] <= i < j < view.token_member_offsets@[token + 1],
    ensures
        view.token_member_contracts@[i] <= view.token_member_contracts@[j],
    decreases j - i,
{
    assert(member_follows(view, j));
    if i < j - 1 {
        lemma_members_ascend(view, token, i, j - 1);
    }
}

/// Whether `payloads` rows of `bytes` bytes fill `len` bytes.
fn fills(len: usize, payloads: usize, bytes: usize) -> (filled: bool)
    ensures
        filled == (len == payloads * bytes),
{
    match payloads.checked_mul(bytes) {
        Some(product) => len == product,
        None => false,
    }
}

/// Whether row `row` holds a zero.
fn check_row_zero(offsets: &Vec<u64>, values: &Vec<u32>, row: usize) -> (zero: bool)
    requires
        columns::is_row_table(offsets@, values@.len()),
        row + 1 < offsets@.len(),
    ensures
        zero == row_has_zero(offsets@, values@, row as int),
{
    let rows: usize = offsets.len();
    let count: usize = values.len();
    proof {
        columns::lemma_row_bounds(offsets@, values@.len(), row as int);
    }
    let end: usize = offsets[row + 1] as usize;
    let mut k: usize = offsets[row] as usize;
    while k < end
        invariant
            end == offsets@[row + 1],
            offsets@[row as int] <= k <= end <= values@.len(),
            forall|i: int| offsets@[row as int] <= i < k ==> #[trigger] values@[i] != 0,
        decreases end - k,
    {
        if values[k] == 0 {
            assert(values@[k as int] == 0);
            return true;
        }
        k = k + 1;
    }
    false
}

/// Whether the values of row `row` sum to `expected`.
fn check_row_sum(offsets: &Vec<u64>, values: &Vec<u32>, row: usize, expected: u32) -> (equal: bool)
    requires
        columns::is_row_table(offsets@, values@.len()),
        row + 1 < offsets@.len(),
    ensures
        equal == (value_sum(values@, offsets@[row as int] as int, offsets@[row + 1] as int)
            == expected),
{
    let rows: usize = offsets.len();
    let count: usize = values.len();
    proof {
        columns::lemma_row_bounds(offsets@, values@.len(), row as int);
    }
    let begin: usize = offsets[row] as usize;
    let end: usize = offsets[row + 1] as usize;
    let mut total: u32 = 0;
    let mut k: usize = begin;
    while k < end
        invariant
            begin == offsets@[row as int],
            end == offsets@[row + 1],
            begin <= k <= end <= values@.len(),
            total == value_sum(values@, begin as int, k as int),
        decreases end - k,
    {
        proof {
            lemma_value_sum_grows(values@, begin as int, k + 1, end as int);
        }
        match total.checked_add(values[k]) {
            Some(sum) => {
                total = sum;
            },
            None => {
                return false;
            },
        }
        k = k + 1;
    }
    total == expected
}

impl FeatureView {
    /// Checks the columns in full; the text says what is wrong first.
    pub fn check(&self, ready: &FeatureReady) -> (fault: Option<String>)
        requires
            self.has_small_identities(),
        ensures
            columns::same_fault(fault, self.fault(*ready)),
    {
        if let Some(text) = self.check_shape(ready) {
            return Some(text);
        }
        if let Some(text) = self.check_identities(ready) {
            return Some(text);
        }
        if let Some(text) = self.check_payloads(ready) {
            return Some(text);
        }
        if let Some(text) = self.check_tokens(ready) {
            return Some(text);
        }
        self.check_chains(ready)
    }

    fn check_shape(&self, ready: &FeatureReady) -> (fault: Option<String>)
        requires
            self.has_small_identities(),
        ensures
            columns::same_fault(fault, self.shape_fault(*ready)),
    {
        if self.source_to_payload.len() != ready.source_count {
            return Some("source_count".to_owned());
        }
        let payloads: usize = if self.payload_template_offsets.len() == 0 {
            0
        } else {
            self.payload_template_offsets.len() - 1
        };
        if payloads != ready.payload_count || self.payload_content_offsets.len() == 0
            || self.payload_content_offsets.len() - 1 != payloads {
            return Some("payload_count".to_owned());
        }
        if let Some(text) = check_row_table(
            "template",
            &self.payload_template_offsets,
            self.payload_template_terms.len(),
        ) {
            return Some(text);
        }
        if let Some(text) = check_row_table(
            "content",
            &self.payload_content_offsets,
            self.payload_content_terms.len(),
        ) {
            return Some(text);
        }
        if let Some(text) = check_row_table(
            "contract_tokens",
            &self.contract_token_offsets,
            self.contract_tokens.len(),
        ) {
            return Some(text);
        }
        if let Some(text) = check_row_table(
            "token_members",
            &self.token_member_offsets,
            self.token_member_contracts.len(),
        ) {
            return Some(text);
        }
        if let Some(text) = check_row_table(
            "fallback_atoms",
            &self.fallback_atom_offsets,
            self.fallback_atom_contracts.len(),
        ) {
            return Some(text);
        }
        let contracts: usize = self.contract_source.len();
        let prepared_fault = check_row_table(
            "prepared_weights",
            &self.prepared_weight_offsets,
            self.prepared_weights.len(),
        );
        if self.payload_template_terms.len() != self.payload_template_freqs.len()
            || self.payload_content_terms.len() != self.payload_content_freqs.len()
            || self.token_member_contracts.len() != self.token_member_sources.len()
            || self.payload_lengths.len() != payloads || self.query_denominators.len() != payloads
            || self.prepared_weight_offsets.len() == 0 || self.prepared_weight_offsets.len() - 1
            != payloads || prepared_fault.is_some() || self.prepared_weights.len()
            != self.payload_template_terms.len() || !fills(
            self.payload_template_sigs.len(),
            payloads,
            ready.signature_bytes,
        ) || !fills(self.payload_content_sigs.len(), payloads, ready.signature_bytes) || contracts
            != self.contract_payload.len() || contracts != self.contract_chain.len() || contracts
            != self.contract_weight.len() {
            return Some("parallel column length".to_owned());
        }
        if self.contract_token_offsets.len() - 1 != contracts {
            let expected = decimal(contracts as u64 + 1);
            return Some(
                "contract_token_offsets length ".to_owned().concat(
                    decimal(self.contract_token_offsets.len() as u64).as_str(),
                ).concat(" != contract_count + 1 ").concat(expected.as_str()),
            );
        }
        None
    }

    fn check_identities(&self, ready: &FeatureReady) -> (fault: Option<String>)
        requires
            self.shape_fault(*ready) is None,
        ensures
            columns::same_fault(fault, self.identity_fault(*ready)),
    {
        let payloads: usize = self.payload_template_offsets.len() - 1;
        if !check_all_below(&self.source_to_payload, payloads) || !check_all_below(
            &self.contract_payload,
            payloads,
        ) || !check_all_below(&self.contract_source, ready.source_count) {
            return Some("source/contract identity references missing row".to_owned());
        }
        let mut contract: usize = 0;
        while contract < self.contract_source.len()
            invariant
                contract <= self.contract_source@.len(),
                self.shape_fault(*ready) is None,
                columns::all_below(self.source_to_payload@, self.payload_count()),
                columns::all_below(self.contract_payload@, self.payload_count()),
                columns::all_below(self.contract_source@, ready.source_count as int),
                forall|k: int|
                    0 <= k < contract ==> self.source_to_payload@[(
                    #[trigger] self.contract_source@[k]) as int] == self.contract_payload@[k],
            decreases self.contract_source.len() - contract,
        {
            let source: u32 = self.contract_source[contract];
            assert(self.contract_source@[contract as int] < ready.source_count);
            if self.source_to_payload[source as usize] != self.contract_payload[contract] {
                assert(self.source_to_payload@[self.contract_source@[contract as int] as int]
                    != self.contract_payload@[contract as int]);
                return Some("contract source/payload identity mismatch".to_owned());
            }
            contract = contract + 1;
        }
        None
    }

    fn check_payloads(&self, ready: &FeatureReady) -> (fault: Option<String>)
        requires
            self.shape_fault(*ready) is None,
        ensures
            columns::same_fault(fault, self.first_payload_fault(0)),
    {
        let payloads: usize = self.payload_template_offsets.len() - 1;
        let mut payload: usize = 0;
        while payload < payloads
            invariant
                payload <= payloads,
                payloads == self.payload_count(),
                self.shape_fault(*ready) is None,
                self.first_payload_fault(0) == self.first_payload_fault(payload as int),
            decreases payloads - payload,
        {
            let fault = self.check_payload(payload, Ghost(*ready));
            if fault.is_some() {
                return fault;
            }
            payload = payload + 1;
        }
        None
    }

    fn check_payload(&self, payload: usize, Ghost(ready): Ghost<FeatureReady>) -> (fault: Option<
        String,
    >)
        requires
            self.shape_fault(ready) is None,
            payload < self.payload_count(),
        ensures
            columns::same_fault(fault, self.payload_fault(payload as int)),
    {
        if !check_row_increases(
            &self.payload_template_offsets,
            &self.payload_template_terms,
            payload,
        ) {
            return Some("payload template terms not strictly sorted".to_owned());
        }
        if !check_row_increases(
            &self.payload_content_offsets,
            &self.payload_content_terms,
            payload,
        ) {
            return Some("payload content terms not strictly sorted".to_owned());
        }
        if check_row_zero(&self.payload_template_offsets, &self.payload_template_freqs, payload)
            || check_row_zero(
            &self.payload_content_offsets,
            &self.payload_content_freqs,
            payload,
        ) {
            return Some("payload term frequency must be positive".to_owned());
        }
        if !check_row_sum(
            &self.payload_content_offsets,
            &self.payload_content_freqs,
            payload,
            self.payload_lengths[payload],
        ) {
            return Some("payload content length mismatch".to_owned());
        }
        let rows: usize = self.payload_template_offsets.len();
        let weight_count: usize = self.prepared_weights.len();
        proof {
            columns::lemma_row_bounds(
                self.payload_template_offsets@,
                self.payload_template_terms@.len(),
                payload as int,
            );
            columns::lemma_row_bounds(
                self.prepared_weight_offsets@,
                self.prepared_weights@.len(),
                payload as int,
            );
        }
        let begin: u64 = self.prepared_weight_offsets[payload];
        let end: u64 = self.prepared_weight_offsets[payload + 1];
        if end - begin != self.payload_template_offsets[payload + 1]
            - self.payload_template_offsets[payload] {
            return Some("prepared template weight cardinality mismatch".to_owned());
        }
        let mut k: usize = begin as usize;
        let mut weighted: bool = true;
        while k < end as usize
            invariant
                begin == self.prepared_weight_offsets@[payload as int],
                end == self.prepared_weight_offsets@[payload + 1],
                begin <= k <= end <= self.prepared_weights@.len(),
                weight_count == self.prepared_weights@.len(),
                weighted <==> forall|i: int|
                    begin <= i < k ==> is_weight(#[trigger] self.prepared_weights@[i]),
            decreases end - k,
        {
            let bits: u64 = self.prepared_weights[k];
            let ghost here = self.prepared_weights@[k as int];
            if !(bits < INFINITE_BITS || bits == NEGATIVE_ZERO_BITS) {
                assert(!is_weight(here));
                weighted = false;
            }
            k = k + 1;
        }
        if !weighted {
            return Some("invalid prepared template weight".to_owned());
        }
        let denominator: u64 = self.query_denominators[payload];
        if !(0 < denominator && denominator < INFINITE_BITS) {
            return Some("invalid query denominator".to_owned());
        }
        None
    }

    fn check_tokens(&self, ready: &FeatureReady) -> (fault: Option<String>)
        requires
            self.has_small_identities(),
            self.shape_fault(*ready) is None,
            self.identity_fault(*ready) is None,
        ensures
            columns::same_fault(fault, self.token_fault(*ready)),
    {
        let contracts: usize = self.contract_source.len();
        if !check_all_below(&self.token_member_contracts, contracts) {
            return Some("token member references missing contract".to_owned());
        }
        if !check_all_below(&self.token_member_sources, ready.source_count) {
            return Some("token member references missing source".to_owned());
        }
        match self.collect_owners(ready.source_count) {
            None => {
                return Some("source identity belongs to multiple contracts".to_owned());
            },
            Some(owners) => {
                if self.check_foreign_representative(&owners, ready.source_count) {
                    return Some("contract representative source identity mismatch".to_owned());
                }
            },
        }
        let mut contract: usize = 0;
        let mut sorted: bool = true;
        while contract < contracts
            invariant
                contract <= contracts,
                contracts == self.contract_count(),
                self.shape_fault(*ready) is None,
                sorted <==> forall|k: int|
                    0 <= k < contract ==> #[trigger] columns::row_increases(
                        self.contract_token_offsets@,
                        self.contract_tokens@,
                        k,
                    ),
            decreases contracts - contract,
        {
            if !check_row_increases(&self.contract_token_offsets, &self.contract_tokens, contract) {
                sorted = false;
            }
            contract = contract + 1;
        }
        if !sorted {
            return Some("contract tokens not strictly sorted".to_owned());
        }
        let tokens: usize = self.token_member_offsets.len() - 1;
        let mut token: usize = 0;
        let mut ordered: bool = true;
        while token < tokens
            invariant
                token <= tokens,
                tokens == self.token_count(),
                self.shape_fault(*ready) is None,
                ordered <==> forall|k: int|
                    0 <= k < token ==> #[trigger] members_ordered(*self, k),
            decreases tokens - token,
        {
            if !self.check_members(token, Ghost(*ready)) {
                ordered = false;
            }
            token = token + 1;
        }
        if !ordered {
            return Some("token members not strictly sorted".to_owned());
        }
        proof {
            assert forall|t: int| 0 <= t < self.token_member_offsets@.len() - 1 implies
                #[trigger] columns::row_ascends(
                self.token_member_offsets@,
                self.token_member_contracts@,
                t,
            ) by {
                assert(members_ordered(*self, t));
                assert forall|i: int, j: int|
                    self.token_member_offsets@[t] <= i < j < self.token_member_offsets@[t
                        + 1] implies #[trigger] self.token_member_contracts@[i]
                    <= #[trigger] self.token_member_contracts@[j] by {
                    lemma_members_ascend(*self, t, i, j);
                }
            }
        }
        if !check_mutual(
            &self.contract_token_offsets,
            &self.contract_tokens,
            &self.token_member_offsets,
            &self.token_member_contracts,
        ) {
            return Some("token membership directions disagree".to_owned());
        }
        None
    }

    /// For each source the contract it belongs to, or `u32::MAX`; nothing where a source
    /// belongs to two.
    fn collect_owners(&self, source_count: usize) -> (owners: Option<Vec<u32>>)
        requires
            self.has_small_identities(),
            self.token_member_contracts@.len() == self.token_member_sources@.len(),
            columns::all_below(self.token_member_contracts@, self.contract_count()),
            columns::all_below(self.token_member_sources@, source_count as int),
        ensures
            owners is None <==> self.has_shared_source(),
            owners matches Some(owners) ==> self.are_owners(
                owners@,
                source_count as nat,
                self.token_member_sources@.len() as int,
            ),
    {
        let mut owners: Vec<u32> = Vec::new();
        let mut s: usize = 0;
        while s < source_count
            invariant
                s <= source_count,
                owners@.len() == s,
                forall|i: int| 0 <= i < s ==> #[trigger] owners@[i] == u32::MAX,
            decreases source_count - s,
        {
            owners.push(u32::MAX);
            s = s + 1;
        }
        let mut k: usize = 0;
        while k < self.token_member_sources.len()
            invariant
                k <= self.token_member_sources@.len(),
                self.has_small_identities(),
                self.token_member_contracts@.len() == self.token_member_sources@.len(),
                columns::all_below(self.token_member_contracts@, self.contract_count()),
                columns::all_below(self.token_member_sources@, source_count as int),
                self.are_owners(owners@, source_count as nat, k as int),
            decreases self.token_member_sources.len() - k,
        {
            let contract: u32 = self.token_member_contracts[k];
            let source: usize = self.token_member_sources[k] as usize;
            assert(self.token_member_contracts@[k as int] < self.contract_count());
            assert(self.token_member_sources@[k as int] < source_count);
            let owner: u32 = owners[source];
            let ghost before = owners@;
            if owner == u32::MAX {
                owners.set(source, contract);
            } else if owner != contract {
                proof {
                    assert(self.owner_is(before, source as int, k as int));
                    let i = choose|i: int|
                        0 <= i < k && self.token_member_sources@[i] == source
                            && self.token_member_contracts@[i] == owner;
                    assert(self.token_member_sources@[i] == self.token_member_sources@[k as int]);
                    assert(self.has_shared_source());
                }
                return None;
            }
            proof {
                assert forall|source: int| 0 <= source < source_count implies
                    #[trigger] self.owner_is(owners@, source, k + 1) by {
                    assert(self.owner_is(before, source, k as int));
                    if self.token_member_sources@[k as int] == source {
                        if before[source] != u32::MAX {
                            let i = choose|i: int|
                                0 <= i < k && self.token_member_sources@[i] == source
                                    && self.token_member_contracts@[i] == before[source];
                            assert(0 <= i < k + 1);
                        } else {
                            assert(0 <= k < k + 1 && self.token_member_sources@[k as int] == source
                                && self.token_member_contracts@[k as int] == owners@[source]);
                        }
                    }
                }
            }
            k = k + 1;
        }
        proof {
            if self.has_shared_source() {
                let (i, j) = choose|i: int, j: int|
                    0 <= i < j < self.token_member_sources@.len()
                        && #[trigger] self.token_member_sources@[i]
                        == #[trigger] self.token_member_sources@[j]
                        && self.token_member_contracts@[i] != self.token_member_contracts@[j];
                assert(self.owner_is(owners@, self.token_member_sources@[i] as int, k as int));
            }
        }
        Some(owners)
    }

    /// The owner of a source among the first `count` members.
    spec fn owner_is(self, owners: Seq<u32>, source: int, count: int) -> bool {
        &&& forall|i: int|
            0 <= i < count && #[trigger] self.token_member_sources@[i] == source
                ==> self.token_member_contracts@[i] == owners[source]
        &&& owners[source] != u32::MAX ==> exists|i: int|
            0 <= i < count && #[trigger] self.token_member_sources@[i] == source
                && self.token_member_contracts@[i] == owners[source]
    }

    spec fn are_owners(self, owners: Seq<u32>, source_count: nat, count: int) -> bool {
        &&& owners.len() == source_count
        &&& forall|source: int|
            0 <= source < source_count ==> #[trigger] self.owner_is(owners, source, count)
    }

    fn check_foreign_representative(&self, owners: &Vec<u32>, source_count: usize) -> (foreign: bool)
        requires
            self.has_small_identities(),
            columns::all_below(self.contract_source@, source_count as int),
            self.token_member_contracts@.len() == self.token_member_sources@.len(),
            columns::all_below(self.token_member_contracts@, self.contract_count()),
            self.are_owners(
                owners@,
                source_count as nat,
                self.token_member_sources@.len() as int,
            ),
        ensures
            foreign == self.has_foreign_representative(),
    {
        let ghost count = self.token_member_sources@.len() as int;
        let mut contract: usize = 0;
        while contract < self.contract_source.len()
            invariant
                contract <= self.contract_source@.len(),
                self.has_small_identities(),
                count == self.token_member_sources@.len(),
                self.token_member_contracts@.len() == self.token_member_sources@.len(),
                columns::all_below(self.contract_source@, source_count as int),
                columns::all_below(self.token_member_contracts@, self.contract_count()),
                self.are_owners(owners@, source_count as nat, count),
                forall|c: int, k: int|
                    0 <= c < contract && 0 <= k < count && #[trigger] self.contract_source@[c]
                        == #[trigger] self.token_member_sources@[k]
                        ==> self.token_member_contracts@[k] == c,
            decreases self.contract_source.len() - contract,
        {
            let source: usize = self.contract_source[contract] as usize;
            assert(self.contract_source@[contract as int] < source_count);
            let owner: u32 = owners[source];
            assert(self.owner_is(owners@, source as int, count));
            if owner != u32::MAX && owner != contract as u32 {
                proof {
                    let k = choose|k: int|
                        0 <= k < count && #[trigger] self.token_member_sources@[k] == source
                            && self.token_member_contracts@[k] == owner;
                    assert(self.contract_source@[contract as int] == self.token_member_sources@[k]);
                }
                return true;
            }
            proof {
                assert forall|k: int|
                    0 <= k < count && self.contract_source@[contract as int]
                        == #[trigger] self.token_member_sources@[k] implies
                    self.token_member_contracts@[k] == contract by {
                    assert(self.token_member_contracts@[k] < self.contract_count());
                    assert(self.token_member_contracts@[k] == owner);
                }
            }
            contract = contract + 1;
        }
        false
    }

    fn check_members(&self, token: usize, Ghost(ready): Ghost<FeatureReady>) -> (ordered: bool)
        requires
            self.shape_fault(ready) is None,
            token < self.token_count(),
        ensures
            ordered == members_ordered(*self, token as int),
    {
        let rows: usize = self.token_member_offsets.len();
        let count: usize = self.token_member_contracts.len();
        proof {
            columns::lemma_row_bounds(
                self.token_member_offsets@,
                self.token_member_contracts@.len(),
                token as int,
            );
        }
        let begin: usize = self.token_member_offsets[token] as usize;
        let end: usize = self.token_member_offsets[token + 1] as usize;
        if begin == end {
            return true;
        }
        let mut k: usize = begin + 1;
        while k < end
            invariant
                begin == self.token_member_offsets@[token as int],
                end == self.token_member_offsets@[token + 1],
                begin < k <= end <= self.token_member_contracts@.len(),
                self.token_member_contracts@.len() == self.token_member_sources@.len(),
                forall|i: int| begin < i < k ==> #[trigger] member_follows(*self, i),
            decreases end - k,
        {
            let earlier: u32 = self.token_member_contracts[k - 1];
            let later: u32 = self.token_member_contracts[k];
            if earlier > later || (earlier == later && self.token_member_sources[k - 1]
                >= self.token_member_sources[k]) {
                assert(!member_follows(*self, k as int));
                return false;
            }
            assert(member_follows(*self, k as int));
            k = k + 1;
        }
        true
    }

    fn check_chains(&self, ready: &FeatureReady) -> (fault: Option<String>)
        ensures
            columns::same_fault(fault, self.chain_fault(*ready)),
    {
        if has_empty(&ready.chains) || has_duplicate(&ready.chains) {
            return Some("chain identities are empty or duplicated".to_owned());
        }
        if ready.chain_totals.len() != ready.chains.len() {
            return Some("chain totals do not align with chain ids".to_owned());
        }
        let mut i: usize = 0;
        let mut aligned: bool = true;
        let mut positive: bool = true;
        while i < ready.chain_totals.len()
            invariant
                i <= ready.chain_totals@.len(),
                ready.chain_totals@.len() == ready.chains@.len(),
                aligned <==> forall|k: int|
                    0 <= k < i ==> (#[trigger] ready.chain_totals@[k]).name@ == ready.chains@[k]@,
                positive <==> forall|k: int|
                    0 <= k < i ==> (#[trigger] ready.chain_totals@[k]).contracts >= 0
                        && ready.chain_totals@[k].nfts >= 0,
            decreases ready.chain_totals.len() - i,
        {
            let ghost here = ready.chain_totals@[i as int];
            if ready.chain_totals[i].name != ready.chains[i] {
                assert(here.name@ != ready.chains@[i as int]@);
                aligned = false;
            }
            if ready.chain_totals[i].contracts < 0 || ready.chain_totals[i].nfts < 0 {
                assert(here.contracts < 0 || here.nfts < 0);
                positive = false;
            }
            i = i + 1;
        }
        if !aligned {
            return Some("chain totals do not align with chain ids".to_owned());
        }
        if !positive {
            return Some("chain totals must be non-negative".to_owned());
        }
        if !check_all_below(&self.contract_chain, ready.chains.len()) {
            return Some("contract references missing chain".to_owned());
        }
        None
    }
}

fn has_empty(names: &Vec<String>) -> (empty: bool)
    ensures
        empty == exists|i: int| 0 <= i < names@.len() && (#[trigger] names@[i])@.len() == 0,
{
    let mut i: usize = 0;
    while i < names.len()
        invariant
            i <= names@.len(),
            forall|k: int| 0 <= k < i ==> (#[trigger] names@[k])@.len() > 0,
        decreases names.len() - i,
    {
        if names[i].as_str().unicode_len() == 0 {
            assert(names@[i as int]@.len() == 0);
            return true;
        }
        i = i + 1;
    }
    false
}

fn has_duplicate(names: &Vec<String>) -> (duplicate: bool)
    ensures
        duplicate == exists|i: int, j: int|
            0 <= i < j < names@.len() && (#[trigger] names@[i])@ == (#[trigger] names@[j])@,
{
    let mut j: usize = 0;
    while j < names.len()
        invariant
            j <= names@.len(),
            forall|a: int, b: int|
                0 <= a < b < j ==> (#[trigger] names@[a])@ != (#[trigger] names@[b])@,
        decreases names.len() - j,
    {
        let mut i: usize = 0;
        while i < j
            invariant
                i <= j < names@.len(),
                forall|a: int| 0 <= a < i ==> (#[trigger] names@[a])@ != names@[j as int]@,
            decreases j - i,
        {
            if names[i] == names[j] {
                assert(names@[i as int]@ == names@[j as int]@);
                return true;
            }
            i = i + 1;
        }
        j = j + 1;
    }
    false
}

} // verus!
