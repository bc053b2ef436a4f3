//! What a container is, and what reading one gives.

use crate::bytes;
use crate::bytes::{push_all, push_be};
use crate::crypto;
use crate::crypto::{NONCE_LEN, TAG_LEN};
use crate::format::plan;
use crate::format::plan::PlanView;
use crate::format::{FormatError, HEADER_NONCE_COUNTER};
use vstd::prelude::*;

verus! {

/// Length of a SHA-256 digest.
pub const HASH_LEN: usize = 32;

/// The SHA-256 digest of `data`.
pub uninterp spec fn sha256_of(data: Seq<u8>) -> Seq<u8>;

/// `sha2::Sha256::digest`, whose output is determined by its input.
#[verifier::external_body]
fn sha256(data: &[u8]) -> (digest: [u8; HASH_LEN])
    ensures
        digest@ == sha256_of(data@),
{
    <sha2::Sha256 as sha2::Digest>::digest(data).into()
}

/// The hash that ties every chunk to the header: that of the header and its
/// tag.
pub open spec fn header_hash(header: Seq<u8>, tag: Seq<u8>) -> Seq<u8> {
    sha256_of(header + tag)
}

/// The associated data of a chunk: the header hash, the index of the chunk, and
/// whether it is the last one. A chunk moved, repeated or taken from another
/// container is thereby presented with other associated data.
pub open spec fn chunk_aad_of(hash: Seq<u8>, index: nat, is_last: bool) -> Seq<u8> {
    hash + bytes::be(index, 8) + seq![if is_last { 1u8 } else { 0u8 }]
}

/// Different headers, positions or last-chunk marks give different associated
/// data.
pub proof fn law_chunk_aad_is_injective(
    hash_a: Seq<u8>,
    index_a: u64,
    last_a: bool,
    hash_b: Seq<u8>,
    index_b: u64,
    last_b: bool,
)
    requires
        hash_a.len() == HASH_LEN,
        hash_b.len() == HASH_LEN,
        chunk_aad_of(hash_a, index_a as nat, last_a) == chunk_aad_of(
            hash_b,
            index_b as nat,
            last_b,
        ),
    ensures
        hash_a == hash_b,
        index_a == index_b,
        last_a == last_b,
{
    let a = chunk_aad_of(hash_a, index_a as nat, last_a);
    let b = chunk_aad_of(hash_b, index_b as nat, last_b);
    bytes::lemma_be_len(index_a as nat, 8);
    bytes::lemma_be_len(index_b as nat, 8);
    assert(a.subrange(0, 32) =~= hash_a);
    assert(b.subrange(0, 32) =~= hash_b);
    assert(a.subrange(32, 40) =~= bytes::be(index_a as nat, 8));
    assert(b.subrange(32, 40) =~= bytes::be(index_b as nat, 8));
    assert(a[40] == if last_a { 1u8 } else { 0u8 });
    assert(b[40] == if last_b { 1u8 } else { 0u8 });
    bytes::lemma_pow256_values();
    bytes::lemma_be_injective(index_a as nat, index_b as nat, 8);
}

/// The nonce of the header is that of no chunk.
pub proof fn law_header_nonce_is_no_chunk_nonce(base_nonce: Seq<u8>, index: u64)
    requires
        index < HEADER_NONCE_COUNTER,
    ensures
        crypto::nonce_at(base_nonce, index) != crypto::nonce_at(base_nonce, HEADER_NONCE_COUNTER),
{
    crypto::law_nonces_are_injective(base_nonce, index, HEADER_NONCE_COUNTER);
}

/// No two chunks of a container have the same nonce, and none has that of the
/// header.
pub proof fn law_nonces_of_a_container_are_distinct(plan: PlanView, a: nat, b: nat)
    requires
        plan.wf(),
        a < plan.total_chunks,
        b < plan.total_chunks,
    ensures
        a != b ==> chunk_nonce(plan, a) != chunk_nonce(plan, b),
        chunk_nonce(plan, a) != crypto::nonce_at(plan.base_nonce, HEADER_NONCE_COUNTER),
{
    plan::lemma_chunk_bounds(plan, a);
    plan::lemma_chunk_bounds(plan, b);
    crypto::law_nonces_are_injective(plan.base_nonce, a as u64, b as u64);
    law_header_nonce_is_no_chunk_nonce(plan.base_nonce, a as u64);
}

/// The nonce of chunk `index`.
pub open spec fn chunk_nonce(plan: PlanView, index: nat) -> Seq<u8> {
    crypto::nonce_at(plan.base_nonce, index as u64)
}

/// Chunk `index`, encrypted.
pub open spec fn sealed_chunk(
    key: Seq<u8>,
    plan: PlanView,
    hash: Seq<u8>,
    index: nat,
    plaintext: Seq<u8>,
) -> Seq<u8> {
    crypto::aes256gcm_seal(
        key,
        chunk_nonce(plan, index),
        plaintext,
        chunk_aad_of(hash, index, plan.is_last(index)),
    )
}

/// Chunk `index`, decrypted, if it is authentic at that place.
pub open spec fn opened_chunk(
    key: Seq<u8>,
    plan: PlanView,
    hash: Seq<u8>,
    index: nat,
    ciphertext: Seq<u8>,
) -> Option<Seq<u8>> {
    crypto::aes256gcm_open(
        key,
        chunk_nonce(plan, index),
        ciphertext,
        chunk_aad_of(hash, index, plan.is_last(index)),
    )
}

/// The encrypted chunks of `data` from chunk `index` on.
pub open spec fn sealed_chunks(
    key: Seq<u8>,
    plan: PlanView,
    hash: Seq<u8>,
    data: Seq<u8>,
    index: nat,
) -> Seq<u8>
    decreases plan.total_chunks - index,
{
    if index >= plan.total_chunks {
        Seq::empty()
    } else {
        sealed_chunk(key, plan, hash, index, plan.chunk(data, index)) + sealed_chunks(
            key,
            plan,
            hash,
            data,
            index + 1,
        )
    }
}

/// What comes before, followed by what was read; an error stays an error.
pub open spec fn prepend(before: Seq<u8>, outcome: Result<Seq<u8>, FormatError>) -> Result<
    Seq<u8>,
    FormatError,
> {
    match outcome {
        Ok(after) => Ok(before + after),
        Err(error) => Err(error),
    }
}

/// What reading the chunks from chunk `index` on gives, when `rest` is left of
/// the container: every chunk must be there in full and authentic at its
/// place, and nothing may follow the last one.
pub open spec fn open_chunks(
    key: Seq<u8>,
    plan: PlanView,
    hash: Seq<u8>,
    index: nat,
    rest: Seq<u8>,
) -> Result<Seq<u8>, FormatError>
    decreases plan.total_chunks - index,
{
    let want = (plan.chunk_len(index) + TAG_LEN) as int;
    if index >= plan.total_chunks {
        if rest.len() == 0 {
            Ok(Seq::empty())
        } else {
            Err(FormatError::Corrupted)
        }
    } else if rest.len() < want {
        Err(FormatError::Truncated)
    } else {
        match opened_chunk(key, plan, hash, index, rest.take(want)) {
            None => Err(FormatError::Corrupted),
            Some(plaintext) => prepend(
                plaintext,
                open_chunks(key, plan, hash, index + 1, rest.skip(want)),
            ),
        }
    }
}

/// The tag of a header: AES-GCM over nothing, with the header as associated
/// data.
pub open spec fn header_tag(key: Seq<u8>, base_nonce: Seq<u8>, header: Seq<u8>) -> Seq<u8> {
    crypto::aes256gcm_seal(
        key,
        crypto::nonce_at(base_nonce, HEADER_NONCE_COUNTER),
        Seq::empty(),
        header,
    )
}

/// The container of `data` under `key` with the header bytes `header`.
pub open spec fn container(key: Seq<u8>, header: Seq<u8>, plan: PlanView, data: Seq<u8>) -> Seq<
    u8,
> {
    let tag = header_tag(key, plan.base_nonce, header);
    header + tag + sealed_chunks(key, plan, header_hash(header, tag), data, 0)
}

/// What reading a container gives once its header is known, when `rest` follows
/// the header: first the tag of the header, then the chunks. A tag that does
/// not authenticate the header is what a wrong password looks like.
pub open spec fn open_sealed(key: Seq<u8>, header: Seq<u8>, plan: PlanView, rest: Seq<u8>) -> Result<
    Seq<u8>,
    FormatError,
> {
    if rest.len() < TAG_LEN {
        Err(FormatError::Truncated)
    } else if crypto::aes256gcm_open(
        key,
        crypto::nonce_at(plan.base_nonce, HEADER_NONCE_COUNTER),
        rest.take(TAG_LEN as int),
        header,
    ) is None {
        Err(FormatError::WrongPassword)
    } else {
        open_chunks(
            key,
            plan,
            header_hash(header, rest.take(TAG_LEN as int)),
            0,
            rest.skip(TAG_LEN as int),
        )
    }
}

/// Cutting off the end of chunks that are accepted makes them truncated.
pub proof fn lemma_cut_chunks_are_truncated(
    key: Seq<u8>,
    plan: PlanView,
    hash: Seq<u8>,
    index: nat,
    rest: Seq<u8>,
    len: int,
)
    requires
        open_chunks(key, plan, hash, index, rest) is Ok,
        0 <= len < rest.len(),
    ensures
        open_chunks(key, plan, hash, index, rest.take(len)) == Err::<Seq<u8>, FormatError>(
            FormatError::Truncated,
        ),
    decreases plan.total_chunks - index,
{
    let want = (plan.chunk_len(index) + TAG_LEN) as int;
    if index < plan.total_chunks && len >= want {
        assert(rest.take(len).take(want) =~= rest.take(want));
        assert(rest.take(len).skip(want) =~= rest.skip(want).take(len - want));
        lemma_cut_chunks_are_truncated(key, plan, hash, index + 1, rest.skip(want), len - want);
    }
}

/// Adding bytes after chunks that are accepted makes them corrupted.
pub proof fn lemma_extended_chunks_are_corrupted(
    key: Seq<u8>,
    plan: PlanView,
    hash: Seq<u8>,
    index: nat,
    rest: Seq<u8>,
    extra: Seq<u8>,
)
    requires
        open_chunks(key, plan, hash, index, rest) is Ok,
        extra.len() > 0,
    ensures
        open_chunks(key, plan, hash, index, rest + extra) == Err::<Seq<u8>, FormatError>(
            FormatError::Corrupted,
        ),
    decreases plan.total_chunks - index,
{
    let want = (plan.chunk_len(index) + TAG_LEN) as int;
    if index < plan.total_chunks {
        assert((rest + extra).take(want) =~= rest.take(want));
        assert((rest + extra).skip(want) =~= rest.skip(want) + extra);
        lemma_extended_chunks_are_corrupted(key, plan, hash, index + 1, rest.skip(want), extra);
    }
}

/// The nonce of a chunk, or of the header, from the base nonce: see
/// [`crypto::nonce_at`].
pub fn derive_nonce(base_nonce: &[u8; NONCE_LEN], counter: u64) -> (nonce: [u8; NONCE_LEN])
    ensures
        nonce@ == crypto::nonce_at(base_nonce@, counter),
{
    crypto::derive_nonce_for_sequence(base_nonce, counter)
}

/// The associated data of a chunk.
pub fn chunk_aad(header_hash: &[u8; HASH_LEN], index: u64, is_last: bool) -> (aad: Vec<u8>)
    ensures
        aad@ == chunk_aad_of(header_hash@, index as nat, is_last),
        aad@.len() == HASH_LEN + 9,
{
    let mut aad: Vec<u8> = Vec::with_capacity(HASH_LEN + 8 + 1);
    push_all(&mut aad, header_hash);
    push_be(&mut aad, index, 8);
    aad.push(if is_last { 1 } else { 0 });
    proof {
        bytes::lemma_be_len(index as nat, 8);
        assert(aad@ =~= chunk_aad_of(header_hash@, index as nat, is_last));
    }
    aad
}

/// The hash of a header and its tag.
pub fn hash_header(header: &[u8], tag: &[u8]) -> (hash: [u8; HASH_LEN])
    ensures
        hash@ == header_hash(header@, tag@),
{
    let mut input: Vec<u8> = Vec::new();
    push_all(&mut input, header);
    push_all(&mut input, tag);
    proof {
        assert(input@ =~= header@ + tag@);
    }
    sha256(input.as_slice())
}

} // verus!
