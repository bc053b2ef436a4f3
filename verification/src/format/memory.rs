//! Containers held in memory.

use crate::bytes::{copy_array, push_all};
use crate::crypto;
use crate::crypto::{
    derive_key, generate_base_nonce, generate_salt, Argon2Params, CryptoError, DerivedKey,
    Password, TAG_LEN,
};
use crate::derivation;
use crate::derivation::Derivation;
use crate::draw;
use crate::format::container;
use crate::format::header;
use crate::format::header::{Header, HeaderView};
use crate::format::plan;
use crate::format::plan::{fits, ChunkPlan, PlanView};
use crate::format::stream::{Decryptor, Encryptor};
use crate::format::{FormatError, DEFAULT_CHUNK_SIZE, HEADER_FIXED_LEN, HEADER_NONCE_COUNTER};
use crate::secret::SecretBytes;
use vstd::prelude::*;
use vstd::slice::slice_subrange;

verus! {

/// What a call that hands out secret bytes returned, as a value.
pub open spec fn outcome_of(result: Result<SecretBytes, FormatError>) -> Result<
    Seq<u8>,
    FormatError,
> {
    match result {
        Ok(plaintext) => Ok(plaintext@),
        Err(error) => Err(error),
    }
}

/// Chunk `index` of `data`, once encrypted, has the length it should and opens
/// to itself.
pub open spec fn chunk_opens(
    key: Seq<u8>,
    plan: PlanView,
    hash: Seq<u8>,
    data: Seq<u8>,
    index: nat,
) -> bool {
    let sealed = container::sealed_chunk(key, plan, hash, index, plan.chunk(data, index));
    &&& sealed.len() == plan.chunk_len(index) + TAG_LEN
    &&& container::opened_chunk(key, plan, hash, index, sealed) == Some(plan.chunk(data, index))
}

/// No other tag opens the encrypted bytes of chunk `index` of `data`.
pub open spec fn chunk_tag_is_bound(
    key: Seq<u8>,
    plan: PlanView,
    hash: Seq<u8>,
    data: Seq<u8>,
    index: nat,
) -> bool {
    let sealed = container::sealed_chunk(key, plan, hash, index, plan.chunk(data, index));
    let body = plan.chunk_len(index) as int;
    forall|other: Seq<u8>|
        other.len() == sealed.len() && other.take(body) == sealed.take(body) && (
        #[trigger] container::opened_chunk(key, plan, hash, index, other)) is Some ==> other
            == sealed
}

/// Where encrypted chunk `index` starts among the encrypted chunks.
pub open spec fn sealed_start(plan: PlanView, index: nat) -> int {
    (plan.chunk_size + TAG_LEN) * index
}

/// The bytes at the place of encrypted chunk `index`.
pub open spec fn piece_at(plan: PlanView, body: Seq<u8>, index: nat) -> Seq<u8> {
    body.subrange(
        sealed_start(plan, index),
        sealed_start(plan, index) + plan.chunk_len(index) + TAG_LEN,
    )
}

/// Encrypted chunks of full size follow each other.
pub proof fn lemma_sealed_start(plan: PlanView, a: nat, b: nat)
    requires
        a <= b,
    ensures
        0 <= sealed_start(plan, a) <= sealed_start(plan, b),
        sealed_start(plan, 0) == 0,
        sealed_start(plan, a + 1) == sealed_start(plan, a) + plan.chunk_size + TAG_LEN,
{
    let unit = (plan.chunk_size + TAG_LEN) as int;
    assert(0 <= unit * a <= unit * b) by (nonlinear_arith)
        requires
            0 <= a <= b,
            unit >= 0,
    ;
    assert(unit * 0 == 0) by (nonlinear_arith);
    assert(unit * (a + 1) == unit * a + unit) by (nonlinear_arith);
}

/// Reading from chunk `index` on stops at the first chunk that is not authentic.
pub proof fn lemma_first_bad_chunk(
    key: Seq<u8>,
    plan: PlanView,
    hash: Seq<u8>,
    body: Seq<u8>,
    bad: nat,
    index: nat,
)
    requires
        plan.wf(),
        index <= bad < plan.total_chunks,
        sealed_start(plan, bad) + plan.chunk_len(bad) + TAG_LEN <= body.len(),
        forall|i: nat|
            i < bad ==> (#[trigger] container::opened_chunk(
                key,
                plan,
                hash,
                i,
                piece_at(plan, body, i),
            )) is Some,
        container::opened_chunk(key, plan, hash, bad, piece_at(plan, body, bad)) is None,
    ensures
        container::open_chunks(key, plan, hash, index, body.skip(sealed_start(plan, index)))
            == Err::<Seq<u8>, FormatError>(FormatError::Corrupted),
    decreases bad - index,
{
    let start = sealed_start(plan, index);
    let want = (plan.chunk_len(index) + TAG_LEN) as int;
    let rest = body.skip(start);
    lemma_sealed_start(plan, index, bad);
    if index < bad {
        lemma_sealed_start(plan, index + 1, bad);
        assert(!plan.is_last(index));
        assert(rest.take(want) =~= piece_at(plan, body, index));
        assert(container::opened_chunk(
            key,
            plan,
            hash,
            index,
            piece_at(plan, body, index),
        ) is Some);
        assert(rest.skip(want) =~= body.skip(sealed_start(plan, index + 1)));
        lemma_first_bad_chunk(key, plan, hash, body, bad, index + 1);
    } else {
        assert(rest.take(want) =~= piece_at(plan, body, index));
    }
}

/// `altered` differs from `sealed`, and only in the tag of chunk `index`, which
/// starts `start` bytes into them.
pub open spec fn alters_tag(
    plan: PlanView,
    sealed: Seq<u8>,
    altered: Seq<u8>,
    start: int,
    index: nat,
) -> bool {
    let tag_start = start + plan.chunk_len(index);
    &&& altered.len() == sealed.len()
    &&& altered != sealed
    &&& forall|i: int|
        0 <= i < sealed.len() && !(tag_start <= i < tag_start + TAG_LEN) ==> altered[i] == sealed[i]
}

proof fn lemma_altered_tag(
    key: Seq<u8>,
    plan: PlanView,
    hash: Seq<u8>,
    data: Seq<u8>,
    altered: Seq<u8>,
    index: nat,
    target: nat,
)
    requires
        plan.wf(),
        data.len() == plan.size,
        index <= target < plan.total_chunks,
        forall|j: nat| j < plan.total_chunks ==> chunk_opens(key, plan, hash, data, j),
        forall|j: nat| j < plan.total_chunks ==> chunk_tag_is_bound(key, plan, hash, data, j),
        alters_tag(
            plan,
            container::sealed_chunks(key, plan, hash, data, index),
            altered,
            sealed_start(plan, target) - sealed_start(plan, index),
            target,
        ),
    ensures
        container::open_chunks(key, plan, hash, index, altered) == Err::<Seq<u8>, FormatError>(
            FormatError::Corrupted,
        ),
    decreases target - index,
{
    let all = container::sealed_chunks(key, plan, hash, data, index);
    let start = sealed_start(plan, target) - sealed_start(plan, index);
    let sealed = container::sealed_chunk(key, plan, hash, index, plan.chunk(data, index));
    let after = container::sealed_chunks(key, plan, hash, data, index + 1);
    let want = (plan.chunk_len(index) + TAG_LEN) as int;
    assert(chunk_opens(key, plan, hash, data, index));
    assert(all.take(want) =~= sealed);
    assert(all.skip(want) =~= after);
    if index == target {
        assert(chunk_tag_is_bound(key, plan, hash, data, index));
        let body = plan.chunk_len(index) as int;
        assert(altered.take(want).take(body) =~= sealed.take(body));
        assert(altered.skip(want) =~= after);
        if altered.take(want) == sealed {
            assert(altered =~= altered.take(want) + altered.skip(want));
            assert(all =~= sealed + after);
        }
    } else {
        lemma_sealed_start(plan, index, target);
        lemma_sealed_start(plan, index + 1, target);
        assert(!plan.is_last(index));
        assert(altered.take(want) =~= sealed);
        let rest = altered.skip(want);
        assert forall|i: int|
            0 <= i < after.len() && !(start - want + plan.chunk_len(target) <= i < start - want
                + plan.chunk_len(target) + TAG_LEN) implies rest[i] == after[i] by {
            assert(all.skip(want)[i] == all[i + want]);
            assert(rest[i] == altered[i + want]);
        }
        if rest == after {
            assert(altered =~= altered.take(want) + rest);
            assert(all =~= sealed + after);
        }
        lemma_altered_tag(key, plan, hash, data, rest, index + 1, target);
    }
}

/// Where chunk `index` starts, or where the plaintext ends if there is none.
pub open spec fn done_before(plan: PlanView, index: nat) -> nat {
    if index < plan.total_chunks {
        plan.chunk_start(index)
    } else {
        plan.size
    }
}

proof fn lemma_first_chunk(plan: PlanView)
    requires
        plan.wf(),
    ensures
        plan.total_chunks >= 1,
        done_before(plan, 0) == 0,
{
    let c = plan.chunk_size as int;
    let s = plan.size as int;
    assert(c * 0 == 0) by (nonlinear_arith);
    if s > 0 {
        assert((s + c - 1) / c >= 1) by (nonlinear_arith)
            requires
                s >= 1,
                c >= 1,
        ;
    }
}

proof fn lemma_open_of_sealed(
    key: Seq<u8>,
    plan: PlanView,
    hash: Seq<u8>,
    data: Seq<u8>,
    index: nat,
)
    requires
        plan.wf(),
        data.len() == plan.size,
        index <= plan.total_chunks,
        forall|j: nat| index <= j < plan.total_chunks ==> chunk_opens(key, plan, hash, data, j),
    ensures
        container::open_chunks(
            key,
            plan,
            hash,
            index,
            container::sealed_chunks(key, plan, hash, data, index),
        ) == Ok::<Seq<u8>, FormatError>(data.skip(done_before(plan, index) as int)),
        container::sealed_chunks(key, plan, hash, data, index).len() == plan.size - done_before(
            plan,
            index,
        ) + TAG_LEN * (plan.total_chunks - index),
    decreases plan.total_chunks - index,
{
    if index < plan.total_chunks {
        plan::lemma_chunk_bounds(plan, index);
        lemma_open_of_sealed(key, plan, hash, data, index + 1);
        assert(chunk_opens(key, plan, hash, data, index));
        let piece = plan.chunk(data, index);
        let sealed = container::sealed_chunk(key, plan, hash, index, piece);
        let after = container::sealed_chunks(key, plan, hash, data, index + 1);
        assert((sealed + after).take(sealed.len() as int) =~= sealed);
        assert((sealed + after).skip(sealed.len() as int) =~= after);
        assert(piece + data.skip(done_before(plan, index + 1) as int) =~= data.skip(
            done_before(plan, index) as int,
        ));
    } else {
        assert(data.skip(plan.size as int) =~= Seq::<u8>::empty());
    }
}

/// The encrypted chunks of `data` before chunk `index`.
pub open spec fn sealed_before(
    key: Seq<u8>,
    plan: PlanView,
    hash: Seq<u8>,
    data: Seq<u8>,
    index: nat,
) -> Seq<u8>
    decreases index,
{
    if index == 0 {
        Seq::empty()
    } else {
        let last = (index - 1) as nat;
        sealed_before(key, plan, hash, data, last) + container::sealed_chunk(
            key,
            plan,
            hash,
            last,
            plan.chunk(data, last),
        )
    }
}

proof fn lemma_before_and_after(
    key: Seq<u8>,
    plan: PlanView,
    hash: Seq<u8>,
    data: Seq<u8>,
    index: nat,
)
    requires
        index <= plan.total_chunks,
    ensures
        sealed_before(key, plan, hash, data, index) + container::sealed_chunks(
            key,
            plan,
            hash,
            data,
            index,
        ) == container::sealed_chunks(key, plan, hash, data, 0),
    decreases index,
{
    if index == 0 {
        assert(Seq::<u8>::empty() + container::sealed_chunks(key, plan, hash, data, 0)
            =~= container::sealed_chunks(key, plan, hash, data, 0));
    } else {
        let last = (index - 1) as nat;
        lemma_before_and_after(key, plan, hash, data, last);
        let sealed = container::sealed_chunk(key, plan, hash, last, plan.chunk(data, last));
        assert(sealed_before(key, plan, hash, data, index) + container::sealed_chunks(
            key,
            plan,
            hash,
            data,
            index,
        ) =~= sealed_before(key, plan, hash, data, last) + (sealed + container::sealed_chunks(
            key,
            plan,
            hash,
            data,
            index,
        )));
    }
}

proof fn lemma_before_ignores_the_rest(
    key: Seq<u8>,
    plan: PlanView,
    hash: Seq<u8>,
    data: Seq<u8>,
    more: Seq<u8>,
    index: nat,
)
    requires
        plan.wf(),
        index <= plan.total_chunks,
        done_before(plan, index) <= data.len(),
    ensures
        sealed_before(key, plan, hash, data, index) == sealed_before(
            key,
            plan,
            hash,
            data + more,
            index,
        ),
    decreases index,
{
    if index > 0 {
        let last = (index - 1) as nat;
        plan::lemma_chunk_bounds(plan, last);
        lemma_before_ignores_the_rest(key, plan, hash, data, more, last);
        assert(plan.chunk(data, last) =~= plan.chunk(data + more, last));
    }
}

/// The container of `data` under `key`, with the header bytes `header` and cut
/// as `plan` says. It opens to `data` again.
pub fn seal_container(key: DerivedKey, plan: ChunkPlan, header: &[u8], data: &[u8]) -> (sealed: Vec<
    u8,
>)
    requires
        plan@.wf(),
        header@.len() <= crypto::AEAD_MAX_AAD,
        data@.len() == plan@.size,
    ensures
        sealed@ == container::container(key@, header@, plan@, data@),
        sealed@.len() == header@.len() + TAG_LEN + data@.len() + TAG_LEN * plan@.total_chunks,
        container::open_sealed(key@, header@, plan@, sealed@.skip(header@.len() as int)) == Ok::<
            Seq<u8>,
            FormatError,
        >(data@),
        forall|rest: Seq<u8>|
            rest.len() >= TAG_LEN && rest.take(TAG_LEN as int) != sealed@.subrange(
                header@.len() as int,
                header@.len() + TAG_LEN,
            ) ==> #[trigger] container::open_sealed(key@, header@, plan@, rest) == Err::<
                Seq<u8>,
                FormatError,
            >(FormatError::WrongPassword),
        forall|altered: Seq<u8>, index: nat|
            index < plan@.total_chunks && #[trigger] alters_tag(
                plan@,
                sealed@.skip(header@.len() as int),
                altered,
                TAG_LEN + sealed_start(plan@, index),
                index,
            ) ==> container::open_sealed(key@, header@, plan@, altered) == Err::<
                Seq<u8>,
                FormatError,
            >(FormatError::Corrupted),
{
    let ghost k = key@;
    let (mut encryptor, tag) = Encryptor::new(key, plan, header);
    let ghost hash = encryptor.hash();
    let ghost all = container::sealed_chunks(k, plan@, hash, data@, 0);
    let mut out: Vec<u8> = Vec::new();
    push_all(&mut out, header);
    push_all(&mut out, tag.as_slice());
    let ghost head = header@ + tag@;
    let mut position: usize = 0;
    proof {
        assert(out@ =~= head);
        lemma_first_chunk(plan@);
    }
    while !encryptor.is_done()
        invariant
            encryptor.wf(),
            encryptor.key() == k,
            encryptor.plan() == plan@,
            encryptor.hash() == hash,
            encryptor.index() <= plan@.total_chunks,
            plan@.wf(),
            data.len() == plan@.size,
            position == done_before(plan@, encryptor.index()),
            all == container::sealed_chunks(k, plan@, hash, data@, 0),
            out@ + container::sealed_chunks(k, plan@, hash, data@, encryptor.index()) == head
                + all,
            forall|j: nat|
                j < encryptor.index() ==> chunk_opens(k, plan@, hash, data@, j),
            forall|j: nat|
                j < encryptor.index() ==> chunk_tag_is_bound(k, plan@, hash, data@, j),
        decreases plan@.total_chunks - encryptor.index(),
    {
        let ghost index = encryptor.index();
        proof {
            plan::lemma_chunk_bounds(plan@, index);
        }
        let want: usize = encryptor.wanted();
        let piece = slice_subrange(data, position, position + want);
        proof {
            assert(piece@ =~= plan@.chunk(data@, index));
        }
        match encryptor.seal_chunk(piece) {
            Ok((sealed, _)) => {
                let ghost before = out@;
                push_all(&mut out, sealed.as_slice());
                position = position + want;
                proof {
                    assert(chunk_opens(k, plan@, hash, data@, index));
                    assert(chunk_tag_is_bound(k, plan@, hash, data@, index));
                    let after = container::sealed_chunks(k, plan@, hash, data@, index + 1);
                    assert(before + (sealed@ + after) =~= out@ + after);
                }
            },
            Err(_) => {
                vstd::pervasive::unreached::<()>();
            },
        }
    }
    proof {
        let n = plan@.total_chunks;
        assert(container::sealed_chunks(k, plan@, hash, data@, n) =~= Seq::<u8>::empty());
        assert(out@ =~= head + all);
        lemma_open_of_sealed(k, plan@, hash, data@, 0);
        lemma_first_chunk(plan@);
        assert(data@.skip(0) =~= data@);
        let rest = out@.skip(header@.len() as int);
        assert(rest.take(TAG_LEN as int) =~= tag@);
        assert(rest.skip(TAG_LEN as int) =~= all);
        assert(out@.subrange(header@.len() as int, header@.len() + TAG_LEN) =~= tag@);
        assert forall|altered: Seq<u8>, index: nat|
            index < plan@.total_chunks && #[trigger] alters_tag(
                plan@,
                rest,
                altered,
                TAG_LEN + sealed_start(plan@, index),
                index,
            ) implies container::open_sealed(k, header@, plan@, altered) == Err::<
            Seq<u8>,
            FormatError,
        >(FormatError::Corrupted) by {
            let tag_len = TAG_LEN as int;
            let start = sealed_start(plan@, index);
            lemma_sealed_start(plan@, 0, index);
            assert(altered.take(tag_len) =~= tag@);
            let body = altered.skip(tag_len);
            assert forall|i: int|
                0 <= i < all.len() && !(start + plan@.chunk_len(index) <= i < start
                    + plan@.chunk_len(index) + TAG_LEN) implies body[i] == all[i] by {
                assert(body[i] == altered[i + tag_len]);
                assert(all[i] == rest[i + tag_len]);
            }
            if body == all {
                assert(altered =~= altered.take(tag_len) + body);
                assert(rest =~= tag@ + all);
            }
            lemma_altered_tag(k, plan@, hash, data@, body, 0, index);
        }
    }
    out
}

/// Reads what follows the header of a container: the tag of the header, then
/// the chunks. Only a container that is accepted as a whole gives a plaintext,
/// and only the exact container of that plaintext is accepted.
pub fn open_container(key: DerivedKey, plan: ChunkPlan, header: &[u8], rest: &[u8]) -> (result:
    Result<SecretBytes, FormatError>)
    requires
        plan@.wf(),
    ensures
        outcome_of(result) == container::open_sealed(key@, header@, plan@, rest@),
        result matches Ok(plaintext) ==> {
            &&& plaintext@.len() == plan@.size
            &&& header@ + rest@ == container::container(key@, header@, plan@, plaintext@)
        },
{
    let ghost k = key@;
    let tag_len: usize = if rest.len() < TAG_LEN {
        rest.len()
    } else {
        TAG_LEN
    };
    let tag = slice_subrange(rest, 0, tag_len);
    proof {
        assert(tag@ =~= rest@.take(tag_len as int));
    }
    let mut decryptor = match Decryptor::new(key, plan, header, tag) {
        Ok(decryptor) => decryptor,
        Err(error) => {
            return Err(error);
        },
    };
    let ghost hash = decryptor.hash();
    let body = slice_subrange(rest, TAG_LEN, rest.len());
    proof {
        assert(body@ =~= rest@.skip(TAG_LEN as int));
        lemma_first_chunk(plan@);
    }
    let mut out = SecretBytes::new(Vec::new());
    let mut position: usize = 0;
    proof {
        assert(body@.skip(0) =~= body@);
        assert(body@.take(0) =~= Seq::<u8>::empty());
        let start = decryptor.outcome(body@);
        assert(container::prepend(Seq::<u8>::empty(), start) == start) by {
            if start is Ok {
                assert(Seq::<u8>::empty() + start->Ok_0 =~= start->Ok_0);
            }
        }
    }
    let ghost whole = container::open_chunks(k, plan@, hash, 0, body@);
    while !decryptor.is_done()
        invariant
            decryptor.wf(),
            decryptor.key() == k,
            decryptor.plan() == plan@,
            decryptor.hash() == hash,
            decryptor.index() <= plan@.total_chunks,
            plan@.wf(),
            k == key@,
            position <= body@.len(),
            whole == container::open_sealed(k, header@, plan@, rest@),
            whole == container::prepend(out@, decryptor.outcome(body@.skip(position as int))),
            out@.len() == done_before(plan@, decryptor.index()),
            body@.take(position as int) == sealed_before(
                k,
                plan@,
                hash,
                out@,
                decryptor.index(),
            ),
        decreases plan@.total_chunks - decryptor.index(),
    {
        let ghost index = decryptor.index();
        let ghost left = body@.skip(position as int);
        proof {
            plan::lemma_chunk_bounds(plan@, index);
        }
        let want: usize = decryptor.wanted();
        let available: usize = body.len() - position;
        let len: usize = if available < want {
            available
        } else {
            want
        };
        let ciphertext = slice_subrange(body, position, position + len);
        proof {
            assert(ciphertext@ =~= left.take(len as int));
            assert(whole == container::prepend(
                out@,
                container::open_chunks(k, plan@, hash, index, left),
            ));
        }
        match decryptor.open_chunk(ciphertext) {
            Ok((plaintext, _)) => {
                let ghost before = out@;
                proof {
                    let later = body@.skip(position + want);
                    assert(left =~= ciphertext@ + later);
                    let next = decryptor.outcome(later);
                    if next is Ok {
                        assert(before + (plaintext@ + next->Ok_0) =~= (before + plaintext@)
                            + next->Ok_0);
                    }
                    lemma_before_ignores_the_rest(k, plan@, hash, before, plaintext@, index);
                    assert(plan@.chunk(before + plaintext@, index) =~= plaintext@);
                    assert(body@.take(position + want) =~= body@.take(position as int)
                        + ciphertext@);
                }
                out.extend(plaintext.as_slice());
                position = position + want;
            },
            Err(error) => {
                return Err(error);
            },
        }
    }
    let trailing: bool = position < body.len();
    match decryptor.finish(trailing) {
        Ok(_) => {
            proof {
                let n = plan@.total_chunks;
                assert(body@.skip(position as int) =~= Seq::<u8>::empty());
                assert(out@ + Seq::<u8>::empty() =~= out@);
                lemma_before_and_after(k, plan@, hash, out@, n);
                assert(body@.take(position as int) =~= body@);
                assert(sealed_before(k, plan@, hash, out@, n) + Seq::<u8>::empty()
                    =~= sealed_before(k, plan@, hash, out@, n));
                assert(header@ + rest@ =~= header@ + tag@ + body@);
            }
            Ok(out)
        },
        Err(error) => Err(error),
    }
}

/// What the start of a container says: its header, provided that the header and
/// its tag are there in full, that the header is valid, and that its Argon2id
/// parameters are within the policy.
pub open spec fn read_start(bytes: Seq<u8>) -> Result<HeaderView, FormatError> {
    if bytes.len() < HEADER_FIXED_LEN {
        Err(FormatError::Truncated)
    } else {
        match header::decode_header(bytes.take(HEADER_FIXED_LEN as int)) {
            None => Err(FormatError::InvalidHeader),
            Some(header) => if bytes.len() < HEADER_FIXED_LEN + TAG_LEN {
                Err(FormatError::Truncated)
            } else if !header.argon2_params.in_policy() {
                Err(FormatError::Crypto(CryptoError::Argon2ParamsOutOfPolicy))
            } else {
                Ok(header)
            },
        }
    }
}

/// What a container holds under a key.
pub open spec fn decrypted(bytes: Seq<u8>, key: Seq<u8>) -> Result<Seq<u8>, FormatError> {
    match read_start(bytes) {
        Err(error) => Err(error),
        Ok(header) => container::open_sealed(
            key,
            bytes.take(HEADER_FIXED_LEN as int),
            header.plan(),
            bytes.skip(HEADER_FIXED_LEN as int),
        ),
    }
}

/// Whatever else is put in place of a tag of the container `sealed`, it is
/// refused: for the tag of the header as a wrong password would be, for that of
/// a chunk as corrupted.
pub open spec fn tags_are_bound(sealed: Seq<u8>, plan: PlanView, key: Seq<u8>) -> bool {
    let fixed = HEADER_FIXED_LEN as int;
    let start = fixed + TAG_LEN;
    &&& forall|altered: Seq<u8>|
        altered.len() >= start && altered.take(fixed) == sealed.take(fixed) && altered.subrange(
            fixed,
            start,
        ) != sealed.subrange(fixed, start) ==> #[trigger] decrypted(altered, key) == Err::<
            Seq<u8>,
            FormatError,
        >(FormatError::WrongPassword)
    &&& forall|altered: Seq<u8>, index: nat|
        index < plan.total_chunks && #[trigger] alters_tag(
            plan,
            sealed,
            altered,
            start + sealed_start(plan, index),
            index,
        ) ==> decrypted(altered, key) == Err::<Seq<u8>, FormatError>(FormatError::Corrupted)
}

/// The key that a password gives for a container with the given header.
pub open spec fn password_key(password: Password, header: HeaderView) -> Seq<u8> {
    crypto::key_of(password.spec_bytes(), header.salt, header.argon2_params)
}

/// A container that is accepted is truncated once its end is cut off, wherever
/// the cut is.
pub proof fn law_cut_container_is_truncated(bytes: Seq<u8>, key: Seq<u8>, len: int)
    requires
        decrypted(bytes, key) is Ok,
        0 <= len < bytes.len(),
    ensures
        decrypted(bytes.take(len), key) == Err::<Seq<u8>, FormatError>(FormatError::Truncated),
{
    if len >= HEADER_FIXED_LEN {
        let fixed = HEADER_FIXED_LEN as int;
        let tag_len = TAG_LEN as int;
        assert(bytes.take(len).take(fixed) =~= bytes.take(fixed));
        if len >= fixed + tag_len {
            let plan = read_start(bytes)->Ok_0.plan();
            let rest = bytes.skip(fixed);
            let cut = bytes.take(len).skip(fixed);
            assert(cut.take(tag_len) =~= rest.take(tag_len));
            assert(cut.skip(tag_len) =~= rest.skip(tag_len).take(len - fixed - tag_len));
            container::lemma_cut_chunks_are_truncated(
                key,
                plan,
                container::header_hash(bytes.take(fixed), rest.take(tag_len)),
                0,
                rest.skip(tag_len),
                len - fixed - tag_len,
            );
        }
    }
}

/// A container that is accepted is corrupted once anything is added after it.
pub proof fn law_extended_container_is_corrupted(bytes: Seq<u8>, key: Seq<u8>, extra: Seq<u8>)
    requires
        decrypted(bytes, key) is Ok,
        extra.len() > 0,
    ensures
        decrypted(bytes + extra, key) == Err::<Seq<u8>, FormatError>(FormatError::Corrupted),
{
    let fixed = HEADER_FIXED_LEN as int;
    let tag_len = TAG_LEN as int;
    let plan = read_start(bytes)->Ok_0.plan();
    let rest = bytes.skip(fixed);
    let longer = (bytes + extra).skip(fixed);
    assert((bytes + extra).take(fixed) =~= bytes.take(fixed));
    assert(longer.take(tag_len) =~= rest.take(tag_len));
    assert(longer.skip(tag_len) =~= rest.skip(tag_len) + extra);
    container::lemma_extended_chunks_are_corrupted(
        key,
        plan,
        container::header_hash(bytes.take(fixed), rest.take(tag_len)),
        0,
        rest.skip(tag_len),
        extra,
    );
}

/// What stands at the place of chunk `index` of a container is authentic there.
pub open spec fn chunk_is_authentic(bytes: Seq<u8>, key: Seq<u8>, index: nat) -> bool {
    let fixed = HEADER_FIXED_LEN as int;
    let plan = read_start(bytes)->Ok_0.plan();
    let rest = bytes.skip(fixed);
    container::opened_chunk(
        key,
        plan,
        container::header_hash(bytes.take(fixed), rest.take(TAG_LEN as int)),
        index,
        piece_at(plan, rest.skip(TAG_LEN as int), index),
    ) is Some
}

/// The first chunk that is not authentic where it stands makes the whole
/// container corrupted, whatever follows: a chunk that was altered, moved,
/// repeated or taken from another container is held against the nonce and the
/// associated data of its place. Under a key that does not open the header, the
/// chunks are not looked at.
pub proof fn law_first_bad_chunk_is_corrupted(bytes: Seq<u8>, key: Seq<u8>, bad: nat)
    requires
        read_start(bytes) is Ok,
        bad < read_start(bytes)->Ok_0.total_chunks,
        bytes.len() >= HEADER_FIXED_LEN + TAG_LEN + sealed_start(
            read_start(bytes)->Ok_0.plan(),
            bad,
        ) + read_start(bytes)->Ok_0.plan().chunk_len(bad) + TAG_LEN,
        forall|i: nat| i < bad ==> #[trigger] chunk_is_authentic(bytes, key, i),
        !chunk_is_authentic(bytes, key, bad),
    ensures
        decrypted(bytes, key) == Err::<Seq<u8>, FormatError>(FormatError::Corrupted)
            || decrypted(bytes, key) == Err::<Seq<u8>, FormatError>(FormatError::WrongPassword),
        decrypted(bytes, key) == Err::<Seq<u8>, FormatError>(FormatError::WrongPassword)
            <==> crypto::aes256gcm_open(
            key,
            crypto::nonce_at(read_start(bytes)->Ok_0.base_nonce, HEADER_NONCE_COUNTER),
            bytes.subrange(HEADER_FIXED_LEN as int, HEADER_FIXED_LEN + TAG_LEN),
            bytes.take(HEADER_FIXED_LEN as int),
        ) is None,
{
    let fixed = HEADER_FIXED_LEN as int;
    let tag_len = TAG_LEN as int;
    let plan = read_start(bytes)->Ok_0.plan();
    let rest = bytes.skip(fixed);
    let body = rest.skip(tag_len);
    let hash = container::header_hash(bytes.take(fixed), rest.take(tag_len));
    assert(rest.take(tag_len) =~= bytes.subrange(fixed, fixed + tag_len));
    header::law_encode_of_decode(bytes.take(fixed));
    assert forall|i: nat| i < bad implies (#[trigger] container::opened_chunk(
        key,
        plan,
        hash,
        i,
        piece_at(plan, body, i),
    )) is Some by {
        assert(chunk_is_authentic(bytes, key, i));
    }
    lemma_sealed_start(plan, 0, bad);
    assert(body.skip(0) =~= body);
    lemma_first_bad_chunk(key, plan, hash, body, bad, 0);
}

/// Reads the header from what could be read of its bytes.
pub fn read_header(start: &[u8]) -> (result: Result<Header, FormatError>)
    requires
        start@.len() <= HEADER_FIXED_LEN,
    ensures
        match result {
            Ok(header) => header::decode_header(start@) == Some(header@),
            Err(error) => error == (if start@.len() < HEADER_FIXED_LEN {
                FormatError::Truncated
            } else {
                FormatError::InvalidHeader
            }),
        },
        result is Err ==> header::decode_header(start@) is None,
{
    if start.len() < HEADER_FIXED_LEN {
        return Err(FormatError::Truncated);
    }
    let buf: [u8; HEADER_FIXED_LEN] = copy_array(start, 0);
    proof {
        assert(buf@ =~= start@);
    }
    Header::from_bytes(&buf)
}

/// Reads the start of a container.
fn check_start(bytes: &[u8]) -> (result: Result<Header, FormatError>)
    ensures
        match result {
            Ok(header) => read_start(bytes@) == Ok::<HeaderView, FormatError>(header@)
                && header@.wf(),
            Err(error) => read_start(bytes@) == Err::<HeaderView, FormatError>(error),
        },
{
    let start_len: usize = if bytes.len() < HEADER_FIXED_LEN {
        bytes.len()
    } else {
        HEADER_FIXED_LEN
    };
    let start = slice_subrange(bytes, 0, start_len);
    proof {
        assert(start@ =~= bytes@.take(start_len as int));
    }
    let header = match read_header(start) {
        Ok(header) => header,
        Err(error) => {
            return Err(error);
        },
    };
    if bytes.len() < HEADER_FIXED_LEN + TAG_LEN {
        return Err(FormatError::Truncated);
    }
    match header.argon2_params.validate() {
        Ok(_) => Ok(header),
        Err(error) => Err(FormatError::Crypto(error)),
    }
}

/// An altered chunk tag lies past the header, which has `fixed` bytes, and its
/// tag.
pub proof fn lemma_altered_after_start(
    plan: PlanView,
    sealed: Seq<u8>,
    altered: Seq<u8>,
    fixed: int,
    index: nat,
)
    requires
        0 <= fixed,
        sealed.len() >= fixed + TAG_LEN,
        alters_tag(plan, sealed, altered, fixed + TAG_LEN + sealed_start(plan, index), index),
    ensures
        altered.take(fixed) == sealed.take(fixed),
        alters_tag(
            plan,
            sealed.skip(fixed),
            altered.skip(fixed),
            TAG_LEN + sealed_start(plan, index),
            index,
        ),
{
    let tag_len = TAG_LEN as int;
    let start = sealed_start(plan, index);
    lemma_sealed_start(plan, 0, index);
    let rest = sealed.skip(fixed);
    let other = altered.skip(fixed);
    assert(altered.take(fixed) =~= sealed.take(fixed));
    assert forall|i: int|
        0 <= i < rest.len() && !(tag_len + start + plan.chunk_len(index) <= i < tag_len + start
            + plan.chunk_len(index) + TAG_LEN) implies other[i] == rest[i] by {
        assert(other[i] == altered[i + fixed]);
        assert(rest[i] == sealed[i + fixed]);
    }
    if other == rest {
        assert(altered =~= altered.take(fixed) + other);
        assert(sealed =~= sealed.take(fixed) + rest);
    }
}

#[verifier::rlimit(40)]
proof fn lemma_tags_are_bound(sealed: Seq<u8>, header: HeaderView, key: Seq<u8>)
    requires
        header.wf(),
        header.argon2_params.in_policy(),
        header.encode().len() == HEADER_FIXED_LEN,
        sealed.len() >= HEADER_FIXED_LEN + TAG_LEN,
        sealed.take(HEADER_FIXED_LEN as int) == header.encode(),
        forall|rest: Seq<u8>|
            rest.len() >= TAG_LEN && rest.take(TAG_LEN as int) != sealed.subrange(
                HEADER_FIXED_LEN as int,
                HEADER_FIXED_LEN + TAG_LEN,
            ) ==> #[trigger] container::open_sealed(key, header.encode(), header.plan(), rest)
                == Err::<Seq<u8>, FormatError>(FormatError::WrongPassword),
        forall|altered: Seq<u8>, index: nat|
            index < header.plan().total_chunks && #[trigger] alters_tag(
                header.plan(),
                sealed.skip(HEADER_FIXED_LEN as int),
                altered,
                TAG_LEN + sealed_start(header.plan(), index),
                index,
            ) ==> container::open_sealed(key, header.encode(), header.plan(), altered) == Err::<
                Seq<u8>,
                FormatError,
            >(FormatError::Corrupted),
    ensures
        tags_are_bound(sealed, header.plan(), key),
{
    let fixed = HEADER_FIXED_LEN as int;
    let tag_len = TAG_LEN as int;
    let plan = header.plan();
    header::law_decode_of_encode(header);
    assert forall|altered: Seq<u8>|
        altered.len() >= fixed + tag_len && altered.take(fixed) == sealed.take(fixed)
            && altered.subrange(fixed, fixed + tag_len) != sealed.subrange(
            fixed,
            fixed + tag_len,
        ) implies #[trigger] decrypted(altered, key) == Err::<Seq<u8>, FormatError>(
        FormatError::WrongPassword,
    ) by {
        assert(altered.skip(fixed).take(tag_len) =~= altered.subrange(fixed, fixed + tag_len));
    }
    assert forall|altered: Seq<u8>, index: nat|
        index < plan.total_chunks && #[trigger] alters_tag(
            plan,
            sealed,
            altered,
            fixed + tag_len + sealed_start(plan, index),
            index,
        ) implies decrypted(altered, key) == Err::<Seq<u8>, FormatError>(
        FormatError::Corrupted,
    ) by {
        lemma_altered_after_start(plan, sealed, altered, fixed, index);
    }
}

/// Encrypts `data` under a key, with the given header.
pub fn encrypt_bytes_with_key(data: &[u8], header: &Header, key: DerivedKey) -> (sealed: Vec<u8>)
    requires
        header@.wf(),
        data@.len() == header.total_plaintext_size,
    ensures
        sealed@ == container::container(key@, header@.encode(), header@.plan(), data@),
        sealed@.len() == HEADER_FIXED_LEN + TAG_LEN + data@.len() + TAG_LEN * header.total_chunks,
        sealed@.take(HEADER_FIXED_LEN as int) == header@.encode(),
        header.argon2_params.in_policy() ==> decrypted(sealed@, key@) == Ok::<
            Seq<u8>,
            FormatError,
        >(data@),
        header.argon2_params.in_policy() ==> tags_are_bound(sealed@, header@.plan(), key@),
{
    let header_bytes = header.to_bytes();
    let ghost k = key@;
    let sealed = seal_container(key, header.plan(), header_bytes.as_slice(), data);
    proof {
        header::law_decode_of_encode(header@);
        assert(sealed@.take(HEADER_FIXED_LEN as int) =~= header@.encode());
        if header.argon2_params.in_policy() {
            lemma_tags_are_bound(sealed@, header@, k);
        }
    }
    sealed
}

/// `sealed` is a container of `data` under `password`, in chunks of 1 MiB, with
/// the parameters `params`, which are within the policy, and a salt and a base nonce
/// that were drawn. It opens to `data`, and
/// no other tag will do in it.
pub open spec fn is_encryption_of(
    sealed: Seq<u8>,
    data: Seq<u8>,
    password: Password,
    params: Argon2Params,
) -> bool {
    &&& params.in_policy()
    &&& read_start(sealed) is Ok
    &&& {
        let header = read_start(sealed)->Ok_0;
        let key = password_key(password, header);
        &&& header.wf()
        &&& header.argon2_params == params
        &&& draw::drawn(header.salt)
        &&& draw::drawn(header.base_nonce)
        &&& header.chunk_size == DEFAULT_CHUNK_SIZE
        &&& header.total_plaintext_size == data.len()
        &&& sealed == container::container(key, header.encode(), header.plan(), data)
        &&& decrypted(sealed, key) == Ok::<Seq<u8>, FormatError>(data)
        &&& tags_are_bound(sealed, header.plan(), key)
        &&& sealed.len() == HEADER_FIXED_LEN + TAG_LEN + data.len() + TAG_LEN * plan::chunk_count(
            data.len(),
            DEFAULT_CHUNK_SIZE as nat,
        )
    }
}

/// What encrypting `size` bytes under a password may fail with: parameters
/// outside the policy always do; within it the derivation of the key may have
/// failed, and a size that cannot be counted in is refused.
pub open spec fn encryption_may_fail(
    error: FormatError,
    size: nat,
    password: Password,
    params: Argon2Params,
) -> bool {
    if !params.in_policy() {
        error == FormatError::Crypto(CryptoError::Argon2ParamsOutOfPolicy)
    } else {
        ||| error == FormatError::Crypto(CryptoError::KeyDerivationFailed) && exists|salt: Seq<u8>|
            #[trigger] derivation::derivation_failed(
                vstd::utf8::encode_utf8(password@),
                salt,
                params,
            )
        ||| error == FormatError::InvalidHeader && !plan::size_fits(
            size,
            DEFAULT_CHUNK_SIZE as nat,
        )
    }
}

/// Encryption fails for three reasons only: parameters outside the policy, a size
/// that leaves no room for one more chunk on 64 bits, or a derivation of the key that
/// was run for this password with these parameters and failed. What the data hold
/// plays no part.
pub proof fn law_encryption_fails_only_for_a_reason(
    error: FormatError,
    size: nat,
    password: Password,
    params: Argon2Params,
)
    requires
        encryption_may_fail(error, size, password, params),
    ensures
        error == FormatError::Crypto(CryptoError::Argon2ParamsOutOfPolicy) <==> !params.in_policy(),
        error == FormatError::InvalidHeader ==> size + 1048576 > u64::MAX,
        error == FormatError::Crypto(CryptoError::KeyDerivationFailed) ==> exists|
            salt: Seq<u8>,
            d: Derivation,
        |
            {
                &&& #[trigger] derivation::failed_on(
                    d,
                    vstd::utf8::encode_utf8(password@),
                    salt,
                    params,
                )
                &&& d.password() == vstd::utf8::encode_utf8(password@)
                &&& d.params() == params
                &&& d.outcome() is Err
            },
        error == FormatError::Crypto(CryptoError::Argon2ParamsOutOfPolicy) || error
            == FormatError::InvalidHeader || error == FormatError::Crypto(
            CryptoError::KeyDerivationFailed,
        ),
{
    if error == FormatError::Crypto(CryptoError::KeyDerivationFailed) {
        let password = vstd::utf8::encode_utf8(password@);
        let salt = choose|salt: Seq<u8>| #[trigger]
            derivation::derivation_failed(password, salt, params);
        let d = choose|d: Derivation| #[trigger]
            derivation::failed_on(d, password, salt, params);
        assert(derivation::failed_on(d, password, salt, params));
    }
}

/// Encrypts `data` under a password, in memory: a fresh salt and a fresh base
/// nonce, the key that they and the password give, and the container of `data`
/// in chunks of 1 MiB, which opens to `data` again. Parameters outside the
/// policy are refused, the derivation of the key may fail, and a size that cannot
/// be counted in is refused.
pub fn encrypt_bytes(data: &[u8], password: &Password, params: Argon2Params) -> (result: Result<
    Vec<u8>,
    FormatError,
>)
    ensures
        match result {
            Ok(sealed) => is_encryption_of(sealed@, data@, *password, params),
            Err(error) => encryption_may_fail(error, data@.len(), *password, params),
        },
{
    let salt = generate_salt();
    let base_nonce = generate_base_nonce();
    let key = match derive_key(password, &salt, params) {
        Ok(key) => key,
        Err(error) => {
            return Err(FormatError::Crypto(error));
        },
    };
    let size: u64 = data.len() as u64;
    if !fits(size, DEFAULT_CHUNK_SIZE) {
        return Err(FormatError::InvalidHeader);
    }
    let header = Header::for_plaintext(salt, params, base_nonce, size);
    let sealed = encrypt_bytes_with_key(data, &header, key);
    proof {
        header::law_decode_of_encode(header@);
    }
    Ok(sealed)
}

/// Decrypts a container under a key that is already known.
pub fn decrypt_bytes_with_key(bytes: &[u8], key: DerivedKey) -> (result: Result<
    SecretBytes,
    FormatError,
>)
    ensures
        outcome_of(result) == decrypted(bytes@, key@),
        result matches Ok(plaintext) ==> {
            &&& read_start(bytes@) is Ok
            &&& {
                let header = read_start(bytes@)->Ok_0;
                &&& plaintext@.len() == header.total_plaintext_size
                &&& bytes@ == container::container(
                    key@,
                    header.encode(),
                    header.plan(),
                    plaintext@,
                )
            }
        },
{
    match check_start(bytes) {
        Ok(header) => open_after_start(bytes, &header, key),
        Err(error) => Err(error),
    }
}

/// Decrypts a container whose start has been read.
fn open_after_start(bytes: &[u8], header: &Header, key: DerivedKey) -> (result: Result<
    SecretBytes,
    FormatError,
>)
    requires
        read_start(bytes@) == Ok::<HeaderView, FormatError>(header@),
        header@.wf(),
    ensures
        outcome_of(result) == decrypted(bytes@, key@),
        result matches Ok(plaintext) ==> {
            &&& plaintext@.len() == header.total_plaintext_size
            &&& bytes@ == container::container(
                key@,
                header@.encode(),
                header@.plan(),
                plaintext@,
            )
        },
{
    let header_bytes = slice_subrange(bytes, 0, HEADER_FIXED_LEN);
    let rest = slice_subrange(bytes, HEADER_FIXED_LEN, bytes.len());
    proof {
        assert(header_bytes@ =~= bytes@.take(HEADER_FIXED_LEN as int));
        assert(rest@ =~= bytes@.skip(HEADER_FIXED_LEN as int));
        header::law_encode_of_decode(header_bytes@);
        assert(header_bytes@ + rest@ =~= bytes@);
    }
    open_container(key, header.plan(), header_bytes, rest)
}

/// Decrypts a container under a password, in memory. The header is checked and
/// authenticated before anything else; no plaintext comes out unless the whole
/// container is authentic, and then the container is exactly that of the
/// plaintext. Only the derivation of the key can fail for a reason other than
/// what the container holds.
pub fn decrypt_bytes(bytes: &[u8], password: &Password) -> (result: Result<
    SecretBytes,
    FormatError,
>)
    ensures
        match read_start(bytes@) {
            Err(error) => outcome_of(result) == Err::<Seq<u8>, FormatError>(error),
            Ok(header) => {
                ||| outcome_of(result) == decrypted(bytes@, password_key(*password, header))
                ||| outcome_of(result) == Err::<Seq<u8>, FormatError>(
                    FormatError::Crypto(CryptoError::KeyDerivationFailed),
                ) && derivation::derivation_failed(
                    vstd::utf8::encode_utf8(password@),
                    header.salt,
                    header.argon2_params,
                )
            },
        },
        result matches Ok(plaintext) ==> {
            &&& read_start(bytes@) is Ok
            &&& {
                let header = read_start(bytes@)->Ok_0;
                &&& plaintext@.len() == header.total_plaintext_size
                &&& bytes@ == container::container(
                    password_key(*password, header),
                    header.encode(),
                    header.plan(),
                    plaintext@,
                )
            }
        },
{
    let header = match check_start(bytes) {
        Ok(header) => header,
        Err(error) => {
            return Err(error);
        },
    };
    match derive_key(password, &header.salt, header.argon2_params) {
        Ok(key) => open_after_start(bytes, &header, key),
        Err(error) => Err(FormatError::Crypto(error)),
    }
}

} // verus!
