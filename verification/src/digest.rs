//! SHA-256 digests as lower-case hexadecimal text.

use crate::text;
use crate::text::hex_digest;
use sha2::{Digest, Sha256};
use vstd::bytes::u32_to_le_bytes;
use vstd::prelude::*;

verus! {

/// The SHA-256 digest of `data`.
pub uninterp spec fn sha256_of(data: Seq<u8>) -> Seq<u8>;

/// Calls `Digest::digest` of sha2 for `Sha256`: the digest of exactly these bytes, which is
/// 32 bytes long.
#[verifier::external_body]
fn sha256(data: &[u8]) -> (digest: Vec<u8>)
    ensures
        digest@ == sha256_of(data@),
        digest@.len() == 32,
{
    Sha256::digest(data).to_vec()
}

/// The digest of `data` as text.
pub open spec fn digest_text(data: Seq<u8>) -> Seq<char> {
    text::hex_text(sha256_of(data))
}

/// The digest of `data` as text.
pub fn digest_hex(data: &Vec<u8>) -> (digest: String)
    ensures
        digest@ == digest_text(data@),
{
    let bytes: Vec<u8> = sha256(data.as_slice());
    hex_digest(bytes.as_slice())
}

/// The words as bytes, least significant byte first.
pub open spec fn word_bytes(words: Seq<u32>) -> Seq<u8>
    decreases words.len(),
{
    if words.len() == 0 {
        Seq::empty()
    } else {
        word_bytes(words.drop_last()) + vstd::bytes::spec_u32_to_le_bytes(words.last())
    }
}

/// The words as bytes, least significant byte first.
pub fn encode_words(words: &[u32]) -> (bytes: Vec<u8>)
    ensures
        bytes@ == word_bytes(words@),
{
    let mut bytes: Vec<u8> = Vec::new();
    let mut i: usize = 0;
    while i < words.len()
        invariant
            i <= words@.len(),
            bytes@ == word_bytes(words@.take(i as int)),
        decreases words.len() - i,
    {
        let mut word: Vec<u8> = u32_to_le_bytes(words[i]);
        bytes.append(&mut word);
        assert(words@.take(i + 1).drop_last() =~= words@.take(i as int));
        i = i + 1;
    }
    assert(words@.take(i as int) =~= words@);
    bytes
}

/// The digest of the words as text.
pub fn hash_u32(words: &[u32]) -> (digest: String)
    ensures
        digest@ == digest_text(word_bytes(words@)),
{
    let bytes: Vec<u8> = encode_words(words);
    digest_hex(&bytes)
}

/// Words lie one after the other, four bytes each, the lowest byte first.
pub proof fn lemma_words_in_place(words: Seq<u32>, k: int)
    requires
        0 <= k < words.len(),
    ensures
        word_bytes(words).len() == 4 * words.len(),
        word_bytes(words).subrange(4 * k, 4 * k + 4) == vstd::bytes::spec_u32_to_le_bytes(words[k]),
        vstd::bytes::spec_u32_from_le_bytes(word_bytes(words).subrange(4 * k, 4 * k + 4))
            == words[k],
    decreases words.len(),
{
    vstd::bytes::lemma_auto_spec_u32_to_from_le_bytes();
    let rest = words.drop_last();
    let last = vstd::bytes::spec_u32_to_le_bytes(words.last());
    if rest.len() > 0 {
        lemma_words_in_place(
            rest,
            if k < rest.len() {
                k
            } else {
                0
            },
        );
    } else {
        assert(word_bytes(rest) =~= Seq::<u8>::empty());
    }
    assert(last.len() == 4);
    assert(word_bytes(words) == word_bytes(rest) + last);
    let part = word_bytes(words).subrange(4 * k, 4 * k + 4);
    if k < rest.len() {
        assert(part =~= word_bytes(rest).subrange(4 * k, 4 * k + 4));
    } else {
        assert(part =~= last);
    }
}

} // verus!
