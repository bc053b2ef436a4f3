//! What holds of containers as a whole, said over their bytes.

use crate::bytes;
use crate::crypto;
use crate::crypto::{Argon2Params, CryptoError, Password};
use crate::draw;
use crate::format::container;
use crate::format::header;
use crate::format::header::HeaderView;
use crate::format::memory;
use crate::format::plan;
use crate::format::plan::PlanView;
use crate::format::raw_key;
use crate::format::recipients;
use crate::format::recipients::HeaderV2View;
use crate::format::FormatError;
use vstd::prelude::*;

verus! {

// ---------------------------------------------------------------------------
// Sizes
// ---------------------------------------------------------------------------

/// A plaintext makes as many chunks as it takes to hold it, and at least one.
pub proof fn law_chunks_are_as_many_as_it_takes(size: nat, chunk_size: nat)
    requires
        chunk_size > 0,
    ensures
        size == 0 ==> plan::chunk_count(size, chunk_size) == 1,
        size > 0 ==> (plan::chunk_count(size, chunk_size) - 1) * chunk_size < size
            <= plan::chunk_count(size, chunk_size) * chunk_size,
{
    if size > 0 {
        let n = plan::chunk_count(size, chunk_size) as int;
        let s = size as int;
        let c = chunk_size as int;
        assert((n - 1) * c < s <= n * c) by (nonlinear_arith)
            requires
                n == (s + c - 1) / c,
                s > 0,
                c > 0,
        ;
    }
}

/// Which sizes a header may declare: chunks of 1 KiB to 64 MiB, room for one more
/// chunk on 64 bits, and as many chunks as it takes.
pub proof fn law_sizes_that_agree(plan: PlanView)
    ensures
        plan.wf() <==> {
            &&& plan.base_nonce.len() == 12
            &&& 1024 <= plan.chunk_size <= 67108864
            &&& plan.size + plan.chunk_size <= 0xffff_ffff_ffff_ffff
            &&& plan.total_chunks >= 1
            &&& plan.size == 0 ==> plan.total_chunks == 1
            &&& plan.size > 0 ==> (plan.total_chunks - 1) * plan.chunk_size < plan.size
                <= plan.total_chunks * plan.chunk_size
        },
{
    if plan.chunk_size >= 1024 {
        law_chunks_are_as_many_as_it_takes(plan.size, plan.chunk_size);
        if plan.size > 0 {
            let n = plan.total_chunks as int;
            let m = plan::chunk_count(plan.size, plan.chunk_size) as int;
            let s = plan.size as int;
            let c = plan.chunk_size as int;
            assert((n - 1) * c < s <= n * c && (m - 1) * c < s <= m * c ==> n == m)
                by (nonlinear_arith)
                requires
                    c > 0,
            ;
            assert(m >= 1) by (nonlinear_arith)
                requires
                    s <= m * c,
                    s > 0,
                    c > 0,
            ;
        }
    }
}

/// The chunks are the plaintext, cut every `chunk_size` bytes: each of them is full
/// but the last, which holds what is left.
pub proof fn law_chunks_cut_the_plaintext(plan: PlanView, data: Seq<u8>, index: nat)
    requires
        plan.wf(),
        data.len() == plan.size,
        index < plan.total_chunks,
    ensures
        ({
            let start = (plan.chunk_size * index) as int;
            let end = if index + 1 < plan.total_chunks {
                (plan.chunk_size * (index + 1)) as int
            } else {
                plan.size as int
            };
            &&& 0 <= start <= end <= plan.size
            &&& end - start <= plan.chunk_size
            &&& plan.chunk_len(index) == end - start
            &&& plan.chunk(data, index) == data.subrange(start, end)
            &&& plan.is_last(index) <==> index + 1 == plan.total_chunks
        }),
{
    plan::lemma_chunk_bounds(plan, index);
}

// ---------------------------------------------------------------------------
// Headers
// ---------------------------------------------------------------------------

/// A header is accepted exactly if its fields are valid and the bytes are those it
/// is written as.
pub proof fn law_header_is_read_as_it_is_written(buf: Seq<u8>, header: HeaderView)
    ensures
        header::decode_header(buf) == Some(header) <==> header.wf() && buf == header.encode(),
{
    if header::decode_header(buf) == Some(header) {
        header::law_encode_of_decode(buf);
    }
    if header.wf() && buf == header.encode() {
        header::law_decode_of_encode(header);
    }
}

/// Which headers are valid.
pub proof fn law_valid_headers(header: HeaderView)
    ensures
        header.wf() <==> {
            &&& header.salt.len() == 16
            &&& header.base_nonce.len() == 12
            &&& 1024 <= header.chunk_size <= 67108864
            &&& header.total_plaintext_size + header.chunk_size <= 0xffff_ffff_ffff_ffff
            &&& header.total_chunks >= 1
            &&& header.total_plaintext_size == 0 ==> header.total_chunks == 1
            &&& header.total_plaintext_size > 0 ==> (header.total_chunks - 1) * header.chunk_size
                < header.total_plaintext_size <= header.total_chunks * header.chunk_size
        },
        header.plan().base_nonce == header.base_nonce,
        header.plan().chunk_size == header.chunk_size,
        header.plan().total_chunks == header.total_chunks,
        header.plan().size == header.total_plaintext_size,
{
    law_sizes_that_agree(header.plan());
}

/// The key of a container under a password is what Argon2id makes of the whole
/// password, with the salt and the parameters that its header declares.
pub proof fn law_key_of_a_container(password: Password, header: HeaderView)
    ensures
        memory::password_key(password, header) == crypto::argon2id_key(
            vstd::utf8::encode_utf8(password@),
            header.salt,
            header.argon2_params.memory_kib,
            header.argon2_params.iterations,
            header.argon2_params.parallelism,
        ),
{
}

// ---------------------------------------------------------------------------
// Containers
// ---------------------------------------------------------------------------

/// The bytes of a container: the header, its tag, and every chunk encrypted under
/// the nonce of its index, bound to the hash of the header and its tag, to its index,
/// and to whether it is the last one.
pub proof fn law_container_layout(key: Seq<u8>, header: Seq<u8>, plan: PlanView, data: Seq<u8>)
    requires
        plan.wf(),
        data.len() == plan.size,
    ensures
        ({
            let tag = crypto::aes256gcm_seal(
                key,
                crypto::nonce_at(plan.base_nonce, 0xffff_ffff_ffff_ffff),
                Seq::empty(),
                header,
            );
            let hash = container::sha256_of(header + tag);
            container::container(key, header, plan, data) == header + tag + Seq::new(
                plan.total_chunks,
                |i: int|
                    crypto::aes256gcm_seal(
                        key,
                        crypto::nonce_at(plan.base_nonce, i as u64),
                        data.subrange(
                            plan.chunk_size * i,
                            if i + 1 < plan.total_chunks {
                                plan.chunk_size * (i + 1)
                            } else {
                                plan.size as int
                            },
                        ),
                        hash + bytes::be(i as nat, 8) + seq![
                            if i + 1 == plan.total_chunks {
                                1u8
                            } else {
                                0u8
                            },
                        ],
                    ),
            ).flatten()
        }),
{
    let tag = container::header_tag(key, plan.base_nonce, header);
    let hash = container::header_hash(header, tag);
    let chunks = Seq::new(
        plan.total_chunks,
        |i: int|
            crypto::aes256gcm_seal(
                key,
                crypto::nonce_at(plan.base_nonce, i as u64),
                data.subrange(
                    plan.chunk_size * i,
                    if i + 1 < plan.total_chunks {
                        plan.chunk_size * (i + 1)
                    } else {
                        plan.size as int
                    },
                ),
                hash + bytes::be(i as nat, 8) + seq![
                    if i + 1 == plan.total_chunks {
                        1u8
                    } else {
                        0u8
                    },
                ],
            ),
    );
    assert forall|i: int| 0 <= i < plan.total_chunks implies #[trigger] chunks[i]
        == container::sealed_chunk(key, plan, hash, i as nat, plan.chunk(data, i as nat)) by {
        law_chunks_cut_the_plaintext(plan, data, i as nat);
    }
    lemma_sealed_chunks(key, plan, hash, data, chunks, 0);
    assert(chunks.skip(0) =~= chunks);
}

proof fn lemma_sealed_chunks(
    key: Seq<u8>,
    plan: PlanView,
    hash: Seq<u8>,
    data: Seq<u8>,
    chunks: Seq<Seq<u8>>,
    index: nat,
)
    requires
        chunks.len() == plan.total_chunks,
        index <= plan.total_chunks,
        forall|i: int|
            0 <= i < plan.total_chunks ==> #[trigger] chunks[i] == container::sealed_chunk(
                key,
                plan,
                hash,
                i as nat,
                plan.chunk(data, i as nat),
            ),
    ensures
        container::sealed_chunks(key, plan, hash, data, index) == chunks.skip(
            index as int,
        ).flatten(),
    decreases plan.total_chunks - index,
{
    let rest = chunks.skip(index as int);
    if index < plan.total_chunks {
        lemma_sealed_chunks(key, plan, hash, data, chunks, index + 1);
        assert(rest.first() == chunks[index as int]);
        assert(rest.drop_first() =~= chunks.skip((index + 1) as int));
    }
}

/// Chunk `index` of the encrypted chunks `body`, opened at its place: under the nonce
/// of its index, with the hash, the index and whether it is the last one as
/// associated data. Nothing unless it is authentic there.
pub open spec fn chunk_in(
    key: Seq<u8>,
    hash: Seq<u8>,
    plan: PlanView,
    body: Seq<u8>,
    index: int,
) -> Option<Seq<u8>> {
    crypto::aes256gcm_open(
        key,
        crypto::nonce_at(plan.base_nonce, index as u64),
        body.subrange((plan.chunk_size + 16) * index, end_of(plan, index)),
        hash + bytes::be(index as nat, 8) + seq![
            if index + 1 == plan.total_chunks {
                1u8
            } else {
                0u8
            },
        ],
    )
}

/// Where encrypted chunk `index` ends.
pub open spec fn end_of(plan: PlanView, index: int) -> int {
    if index + 1 < plan.total_chunks {
        (plan.chunk_size + 16) * (index + 1)
    } else {
        (plan.size + 16 * plan.total_chunks) as int
    }
}

proof fn lemma_end_of(plan: PlanView, index: nat)
    requires
        plan.wf(),
        index < plan.total_chunks,
    ensures
        memory::sealed_start(plan, index) == (plan.chunk_size + 16) * index,
        end_of(plan, index as int) == memory::sealed_start(plan, index) + plan.chunk_len(index)
            + 16,
        index + 1 < plan.total_chunks ==> memory::sealed_start(plan, index + 1) == end_of(
            plan,
            index as int,
        ),
        0 <= memory::sealed_start(plan, index) < end_of(plan, index as int) <= plan.size + 16
            * plan.total_chunks,
        plan.total_chunks >= 1,
{
    plan::lemma_chunk_bounds(plan, index);
    memory::lemma_sealed_start(plan, 0, index);
    let c = plan.chunk_size as int;
    let n = plan.total_chunks as int;
    let i = index as int;
    assert((c + 16) * i == c * i + 16 * i) by (nonlinear_arith);
    assert((c + 16) * (i + 1) == c * i + c + 16 * i + 16) by (nonlinear_arith);
    assert(c * (i + 1) == c * i + c) by (nonlinear_arith);
}

proof fn lemma_same_chunk(key: Seq<u8>, hash: Seq<u8>, plan: PlanView, body: Seq<u8>, index: nat)
    requires
        plan.wf(),
        index < plan.total_chunks,
    ensures
        chunk_in(key, hash, plan, body, index as int) == container::opened_chunk(
            key,
            plan,
            hash,
            index,
            memory::piece_at(plan, body, index),
        ),
{
    lemma_end_of(plan, index);
}

/// What reading the chunks from chunk `index` on gives.
#[verifier::rlimit(40)]
proof fn lemma_chunks_from(
    key: Seq<u8>,
    hash: Seq<u8>,
    plan: PlanView,
    body: Seq<u8>,
    index: nat,
)
    requires
        plan.wf(),
        index < plan.total_chunks,
        memory::sealed_start(plan, index) <= body.len(),
    ensures
        ({
            let outcome = container::open_chunks(
                key,
                plan,
                hash,
                index,
                body.skip(memory::sealed_start(plan, index)),
            );
            let whole = plan.size + 16 * plan.total_chunks;
            let opened = Seq::new(
                (plan.total_chunks - index) as nat,
                |k: int| chunk_in(key, hash, plan, body, index + k)->Some_0,
            );
            if exists|i: int|
                index <= i < plan.total_chunks && end_of(plan, i) <= body.len()
                    && #[trigger] chunk_in(key, hash, plan, body, i) is None {
                outcome == Err::<Seq<u8>, FormatError>(FormatError::Corrupted)
            } else if body.len() < whole {
                outcome == Err::<Seq<u8>, FormatError>(FormatError::Truncated)
            } else if body.len() > whole {
                outcome == Err::<Seq<u8>, FormatError>(FormatError::Corrupted)
            } else {
                outcome == Ok::<Seq<u8>, FormatError>(opened.flatten())
            }
        }),
    decreases plan.total_chunks - index,
{
    let start = memory::sealed_start(plan, index);
    let rest = body.skip(start);
    let want = (plan.chunk_len(index) + 16) as int;
    let end = end_of(plan, index as int);
    let whole = plan.size + 16 * plan.total_chunks;
    let outcome = container::open_chunks(key, plan, hash, index, rest);
    let here = chunk_in(key, hash, plan, body, index as int);
    let opened = Seq::new(
        (plan.total_chunks - index) as nat,
        |k: int| chunk_in(key, hash, plan, body, index + k)->Some_0,
    );
    lemma_end_of(plan, index);
    lemma_same_chunk(key, hash, plan, body, index);
    if body.len() < end {
        assert forall|i: int| index <= i < plan.total_chunks implies end_of(plan, i) > body.len() by {
            lemma_ends_grow(plan, index as int, i);
        }
    } else {
        assert(rest.take(want) =~= memory::piece_at(plan, body, index));
        assert(rest.skip(want) =~= body.skip(end));
        if here is None {
            assert(index <= index as int && end_of(plan, index as int) <= body.len());
        } else if index + 1 < plan.total_chunks {
            lemma_chunks_from(key, hash, plan, body, index + 1);
            let later = Seq::new(
                (plan.total_chunks - (index + 1)) as nat,
                |k: int| chunk_in(key, hash, plan, body, index + 1 + k)->Some_0,
            );
            assert(opened.drop_first() =~= later);
            assert(opened.first() == here->Some_0);
            assert(opened.flatten() == here->Some_0 + later.flatten());
            if exists|i: int|
                index <= i < plan.total_chunks && end_of(plan, i) <= body.len()
                    && #[trigger] chunk_in(key, hash, plan, body, i) is None {
                let i = choose|i: int|
                    index <= i < plan.total_chunks && end_of(plan, i) <= body.len()
                        && #[trigger] chunk_in(key, hash, plan, body, i) is None;
                assert(i != index);
                assert(index + 1 <= i);
            }
        } else {
            assert(opened =~= seq![here->Some_0]);
            opened.lemma_flatten_one_element();
            let after = container::open_chunks(key, plan, hash, index + 1, rest.skip(want));
            assert(here->Some_0 + Seq::<u8>::empty() =~= here->Some_0);
        }
    }
}

proof fn lemma_ends_grow(plan: PlanView, a: int, b: int)
    requires
        plan.wf(),
        0 <= a <= b < plan.total_chunks,
    ensures
        end_of(plan, a) <= end_of(plan, b),
{
    lemma_end_of(plan, a as nat);
    lemma_end_of(plan, b as nat);
    if b + 1 < plan.total_chunks {
        memory::lemma_sealed_start(plan, (a + 1) as nat, (b + 1) as nat);
    }
}

/// What becomes of what follows a header. Less than a tag is truncated. A tag that
/// does not authenticate the header is what a wrong password looks like. Then a chunk
/// that is there in full and not authentic at its place makes the container
/// corrupted. If there is none, too few bytes are truncated, too many corrupted, and
/// the exact number gives the chunks put together.
pub proof fn law_outcome_of_opening(
    key: Seq<u8>,
    header: Seq<u8>,
    plan: PlanView,
    rest: Seq<u8>,
)
    requires
        plan.wf(),
    ensures
        ({
            let outcome = container::open_sealed(key, header, plan, rest);
            let tag = rest.take(16);
            let hash = container::sha256_of(header + tag);
            let body = rest.skip(16);
            let whole = plan.size + 16 * plan.total_chunks;
            if rest.len() < 16 {
                outcome == Err::<Seq<u8>, FormatError>(FormatError::Truncated)
            } else if crypto::aes256gcm_open(
                key,
                crypto::nonce_at(plan.base_nonce, 0xffff_ffff_ffff_ffff),
                tag,
                header,
            ) is None {
                outcome == Err::<Seq<u8>, FormatError>(FormatError::WrongPassword)
            } else if exists|i: int|
                0 <= i < plan.total_chunks && end_of(plan, i) <= body.len() && #[trigger] chunk_in(
                    key,
                    hash,
                    plan,
                    body,
                    i,
                ) is None {
                outcome == Err::<Seq<u8>, FormatError>(FormatError::Corrupted)
            } else if body.len() < whole {
                outcome == Err::<Seq<u8>, FormatError>(FormatError::Truncated)
            } else if body.len() > whole {
                outcome == Err::<Seq<u8>, FormatError>(FormatError::Corrupted)
            } else {
                outcome == Ok::<Seq<u8>, FormatError>(
                    Seq::new(
                        plan.total_chunks,
                        |i: int| chunk_in(key, hash, plan, body, i)->Some_0,
                    ).flatten(),
                )
            }
        }),
{
    if rest.len() >= 16 {
        let hash = container::header_hash(header, rest.take(16));
        let body = rest.skip(16);
        law_sizes_that_agree(plan);
        memory::lemma_sealed_start(plan, 0, 0);
        lemma_chunks_from(key, hash, plan, body, 0);
        assert(body.skip(0) =~= body);
        assert(Seq::new(
            plan.total_chunks,
            |i: int| chunk_in(key, hash, plan, body, i)->Some_0,
        ) =~= Seq::new(
            (plan.total_chunks - 0) as nat,
            |k: int| chunk_in(key, hash, plan, body, 0 + k)->Some_0,
        ));
    }
}

/// What becomes of a container under a key: its first 62 bytes must be a valid
/// header with parameters within the policy, and its tag must be there; what follows
/// is opened.
pub proof fn law_outcome_of_decryption(bytes: Seq<u8>, key: Seq<u8>, header: HeaderView)
    ensures
        bytes.len() < 62 ==> memory::decrypted(bytes, key) == Err::<Seq<u8>, FormatError>(
            FormatError::Truncated,
        ),
        bytes.len() >= 62 && !(exists|h: HeaderView| #[trigger]
            h.encode() == bytes.take(62) && h.wf()) ==> memory::decrypted(bytes, key) == Err::<
            Seq<u8>,
            FormatError,
        >(FormatError::InvalidHeader),
        bytes.len() >= 62 && header.wf() && bytes.take(62) == header.encode() ==> {
            memory::decrypted(bytes, key) == (if bytes.len() < 78 {
                Err::<Seq<u8>, FormatError>(FormatError::Truncated)
            } else if !header.argon2_params.in_policy() {
                Err(FormatError::Crypto(CryptoError::Argon2ParamsOutOfPolicy))
            } else {
                container::open_sealed(key, header.encode(), header.plan(), bytes.skip(62))
            })
        },
        memory::read_start(bytes) == Ok::<HeaderView, FormatError>(header) <==> bytes.len() >= 78
            && header.wf() && header.argon2_params.in_policy() && bytes.take(62)
            == header.encode(),
{
    if bytes.len() >= 62 {
        let start = bytes.take(62);
        law_header_is_read_as_it_is_written(start, header);
        match header::decode_header(start) {
            Some(h) => {
                law_header_is_read_as_it_is_written(start, h);
                assert(h.encode() == start && h.wf());
            },
            None => {},
        }
    }
}

/// What an encryption under a password is: a container in chunks of 1 MiB, whose
/// header declares the parameters, the size, and a salt and a base nonce that were
/// drawn, under the key of the password for that header. Decryption under that key gives the data back.
pub proof fn law_encryption_under_a_password(
    sealed: Seq<u8>,
    data: Seq<u8>,
    password: Password,
    params: Argon2Params,
) -> (header: HeaderView)
    requires
        memory::is_encryption_of(sealed, data, password, params),
    ensures
        header.wf(),
        header.argon2_params == params,
        params.in_policy(),
        draw::drawn(header.salt),
        draw::drawn(header.base_nonce),
        header.chunk_size == 1048576,
        header.total_plaintext_size == data.len(),
        sealed.len() == 78 + data.len() + 16 * header.total_chunks,
        ({
            let key = crypto::argon2id_key(
                vstd::utf8::encode_utf8(password@),
                header.salt,
                params.memory_kib,
                params.iterations,
                params.parallelism,
            );
            &&& sealed == container::container(key, header.encode(), header.plan(), data)
            &&& memory::decrypted(sealed, key) == Ok::<Seq<u8>, FormatError>(data)
        }),
{
    let header = memory::read_start(sealed)->Ok_0;
    law_key_of_a_container(password, header);
    law_chunks_are_as_many_as_it_takes(data.len(), 1048576);
    header
}

/// What becomes of a version 2 container under a key: it starts with a valid header,
/// and what follows the header is opened.
pub proof fn law_outcome_of_v2_decryption(
    header: HeaderV2View,
    rest: Seq<u8>,
    key: Seq<u8>,
)
    requires
        header.wf(),
    ensures
        raw_key::decrypted_v2(header.encode() + rest, key) == container::open_sealed(
            key,
            header.encode(),
            header.plan(),
            rest,
        ),
        header.plan().base_nonce == header.base_nonce,
        header.plan().chunk_size == header.chunk_size,
        header.plan().total_chunks == header.total_chunks,
        header.plan().size == header.total_plaintext_size,
{
    recipients::law_read_of_encode(header, rest);
}

} // verus!
