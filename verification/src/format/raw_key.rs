//! Encrypting and decrypting under a key that the caller already holds.

use crate::bytes;
use crate::crypto;
use crate::crypto::{generate_base_nonce, RawKey, NONCE_LEN, TAG_LEN};
use crate::draw;
use crate::format::container;
use crate::format::header;
use crate::format::memory;
use crate::format::memory::{open_container, read_header, seal_container};
use crate::format::plan;
use crate::format::plan::{count_chunks, fits};
use crate::format::recipients;
use crate::format::recipients::{
    recipients_are_in_policy, HeaderV2, HeaderV2View, KeySource, KeySourceView, Recipient,
    RecipientView,
};
use crate::format::{
    FormatError, DEFAULT_CHUNK_SIZE, FORMAT_VERSION, HEADER_FIXED_LEN, HEADER_NONCE_COUNTER, MAGIC,
};
use crate::secret::SecretBytes;
use vstd::prelude::*;
use vstd::slice::slice_subrange;

verus! {

/// What a version 2 container holds under a key.
pub open spec fn decrypted_v2(data: Seq<u8>, key: Seq<u8>) -> Result<Seq<u8>, FormatError> {
    match recipients::read_header_v2(data) {
        Err(error) => Err(error),
        Ok((header, rest)) => container::open_sealed(key, header.encode(), header.plan(), rest),
    }
}

/// A version 2 container that is accepted is truncated once its end is cut off,
/// wherever the cut is.
pub proof fn law_cut_v2_container_is_truncated(data: Seq<u8>, key: Seq<u8>, len: int)
    requires
        decrypted_v2(data, key) is Ok,
        0 <= len < data.len(),
    ensures
        decrypted_v2(data.take(len), key) == Err::<Seq<u8>, FormatError>(FormatError::Truncated),
{
    let (header, rest) = recipients::read_header_v2(data)->Ok_0;
    recipients::law_accepted_header(data, len);
    let used = header.encode().len() as int;
    if len >= used {
        let cut = rest.take(len - used);
        let tag_len = TAG_LEN as int;
        if cut.len() >= tag_len {
            assert(cut.take(tag_len) =~= rest.take(tag_len));
            assert(cut.skip(tag_len) =~= rest.skip(tag_len).take(cut.len() - tag_len));
            container::lemma_cut_chunks_are_truncated(
                key,
                header.plan(),
                container::header_hash(header.encode(), rest.take(tag_len)),
                0,
                rest.skip(tag_len),
                cut.len() - tag_len,
            );
        }
    }
}

/// A version 2 container that is accepted is corrupted once anything is added
/// after it.
pub proof fn law_extended_v2_container_is_corrupted(data: Seq<u8>, key: Seq<u8>, extra: Seq<u8>)
    requires
        decrypted_v2(data, key) is Ok,
        extra.len() > 0,
    ensures
        decrypted_v2(data + extra, key) == Err::<Seq<u8>, FormatError>(FormatError::Corrupted),
{
    let (header, rest) = recipients::read_header_v2(data)->Ok_0;
    recipients::law_accepted_header(data, data.len() as int);
    let tag_len = TAG_LEN as int;
    bytes::lemma_concat_assoc(header.encode(), rest, extra);
    recipients::law_read_of_encode(header, rest + extra);
    assert((rest + extra).take(tag_len) =~= rest.take(tag_len));
    assert((rest + extra).skip(tag_len) =~= rest.skip(tag_len) + extra);
    container::lemma_extended_chunks_are_corrupted(
        key,
        header.plan(),
        container::header_hash(header.encode(), rest.take(tag_len)),
        0,
        rest.skip(tag_len),
        extra,
    );
}

/// Whatever else is put in place of a tag of the version 2 container `sealed`, it
/// is refused: for the tag of the header as a wrong password would be, for that of
/// a chunk as corrupted.
pub open spec fn v2_tags_are_bound(sealed: Seq<u8>, header: HeaderV2View, key: Seq<u8>) -> bool {
    let fixed = header.encode().len() as int;
    let start = fixed + TAG_LEN;
    &&& forall|altered: Seq<u8>|
        altered.len() >= start && altered.take(fixed) == sealed.take(fixed) && altered.subrange(
            fixed,
            start,
        ) != sealed.subrange(fixed, start) ==> #[trigger] decrypted_v2(altered, key) == Err::<
            Seq<u8>,
            FormatError,
        >(FormatError::WrongPassword)
    &&& forall|altered: Seq<u8>, index: nat|
        index < header.total_chunks && #[trigger] memory::alters_tag(
            header.plan(),
            sealed,
            altered,
            start + memory::sealed_start(header.plan(), index),
            index,
        ) ==> decrypted_v2(altered, key) == Err::<Seq<u8>, FormatError>(FormatError::Corrupted)
}

proof fn lemma_v2_tags_are_bound(sealed: Seq<u8>, header: HeaderV2View, key: Seq<u8>)
    requires
        header.wf(),
        sealed.len() >= header.encode().len() + TAG_LEN,
        sealed.take(header.encode().len() as int) == header.encode(),
        forall|rest: Seq<u8>|
            rest.len() >= TAG_LEN && rest.take(TAG_LEN as int) != sealed.subrange(
                header.encode().len() as int,
                header.encode().len() + TAG_LEN,
            ) ==> #[trigger] container::open_sealed(key, header.encode(), header.plan(), rest)
                == Err::<Seq<u8>, FormatError>(FormatError::WrongPassword),
        forall|altered: Seq<u8>, index: nat|
            index < header.plan().total_chunks && #[trigger] memory::alters_tag(
                header.plan(),
                sealed.skip(header.encode().len() as int),
                altered,
                TAG_LEN + memory::sealed_start(header.plan(), index),
                index,
            ) ==> container::open_sealed(key, header.encode(), header.plan(), altered) == Err::<
                Seq<u8>,
                FormatError,
            >(FormatError::Corrupted),
    ensures
        v2_tags_are_bound(sealed, header, key),
{
    let fixed = header.encode().len() as int;
    let tag_len = TAG_LEN as int;
    assert forall|altered: Seq<u8>|
        altered.len() >= fixed + tag_len && altered.take(fixed) == sealed.take(fixed)
            && altered.subrange(fixed, fixed + tag_len) != sealed.subrange(
            fixed,
            fixed + tag_len,
        ) implies #[trigger] decrypted_v2(altered, key) == Err::<Seq<u8>, FormatError>(
        FormatError::WrongPassword,
    ) by {
        let rest = altered.skip(fixed);
        assert(rest.take(tag_len) =~= altered.subrange(fixed, fixed + tag_len));
        assert(altered =~= header.encode() + rest);
        recipients::law_read_of_encode(header, rest);
    }
    assert forall|altered: Seq<u8>, index: nat|
        index < header.total_chunks && #[trigger] memory::alters_tag(
            header.plan(),
            sealed,
            altered,
            fixed + tag_len + memory::sealed_start(header.plan(), index),
            index,
        ) implies decrypted_v2(altered, key) == Err::<Seq<u8>, FormatError>(
        FormatError::Corrupted,
    ) by {
        let rest = altered.skip(fixed);
        memory::lemma_altered_after_start(header.plan(), sealed, altered, fixed, index);
        assert(altered =~= header.encode() + rest);
        recipients::law_read_of_encode(header, rest);
    }
}

/// What stands at the place of chunk `index` of a version 2 container is authentic
/// there.
pub open spec fn v2_chunk_is_authentic(data: Seq<u8>, key: Seq<u8>, index: nat) -> bool {
    let (header, rest) = recipients::read_header_v2(data)->Ok_0;
    container::opened_chunk(
        key,
        header.plan(),
        container::header_hash(header.encode(), rest.take(TAG_LEN as int)),
        index,
        memory::piece_at(header.plan(), rest.skip(TAG_LEN as int), index),
    ) is Some
}

/// The first chunk that is not authentic where it stands makes the whole version 2
/// container corrupted, whatever follows. Under a key that does not open the
/// header, the chunks are not looked at.
pub proof fn law_first_bad_chunk_of_v2_is_corrupted(data: Seq<u8>, key: Seq<u8>, bad: nat)
    requires
        recipients::read_header_v2(data) is Ok,
        bad < recipients::read_header_v2(data)->Ok_0.0.total_chunks,
        recipients::read_header_v2(data)->Ok_0.1.len() >= TAG_LEN + memory::sealed_start(
            recipients::read_header_v2(data)->Ok_0.0.plan(),
            bad,
        ) + recipients::read_header_v2(data)->Ok_0.0.plan().chunk_len(bad) + TAG_LEN,
        forall|i: nat| i < bad ==> #[trigger] v2_chunk_is_authentic(data, key, i),
        !v2_chunk_is_authentic(data, key, bad),
    ensures
        ({
            let (header, rest) = recipients::read_header_v2(data)->Ok_0;
            let outcome = decrypted_v2(data, key);
            let opens = crypto::aes256gcm_open(
                key,
                crypto::nonce_at(header.base_nonce, HEADER_NONCE_COUNTER),
                rest.take(TAG_LEN as int),
                header.encode(),
            ) is Some;
            outcome == Err::<Seq<u8>, FormatError>(
                if opens {
                    FormatError::Corrupted
                } else {
                    FormatError::WrongPassword
                },
            )
        }),
{
    let (header, rest) = recipients::read_header_v2(data)->Ok_0;
    let plan = header.plan();
    let tag_len = TAG_LEN as int;
    let body = rest.skip(tag_len);
    let hash = container::header_hash(header.encode(), rest.take(tag_len));
    recipients::law_accepted_header(data, 0);
    assert forall|i: nat| i < bad implies (#[trigger] container::opened_chunk(
        key,
        plan,
        hash,
        i,
        memory::piece_at(plan, body, i),
    )) is Some by {
        assert(v2_chunk_is_authentic(data, key, i));
    }
    memory::lemma_sealed_start(plan, 0, bad);
    assert(body.skip(0) =~= body);
    memory::lemma_first_bad_chunk(key, plan, hash, body, bad, 0);
}

/// The header of a plaintext of `size` bytes for `recipients`, cut into chunks of
/// 1 MiB. Recipients outside the policy are refused, and so is a size that cannot
/// be counted in.
pub fn header_for_recipients(
    recipients: Vec<Recipient>,
    base_nonce: [u8; NONCE_LEN],
    size: u64,
) -> (result: Result<HeaderV2, FormatError>)
    ensures
        match result {
            Ok(header) => {
                &&& header@.wf()
                &&& header@.key_source == KeySourceView::Recipients(
                    recipients::recipients_of(recipients@),
                )
                &&& header@.base_nonce == base_nonce@
                &&& header@.chunk_size == DEFAULT_CHUNK_SIZE
                &&& header@.total_plaintext_size == size
            },
            Err(error) => {
                &&& !recipients::recipients_wf(recipients::recipients_of(recipients@))
                    || !plan::size_fits(size as nat, DEFAULT_CHUNK_SIZE as nat)
                &&& error == FormatError::InvalidHeader
            },
        },
{
    if !recipients_are_in_policy(&recipients) || !fits(size, DEFAULT_CHUNK_SIZE) {
        return Err(FormatError::InvalidHeader);
    }
    let total_chunks: u64 = count_chunks(size, DEFAULT_CHUNK_SIZE);
    Ok(
        HeaderV2 {
            key_source: KeySource::Recipients(recipients),
            base_nonce,
            chunk_size: DEFAULT_CHUNK_SIZE,
            total_chunks,
            total_plaintext_size: size,
        },
    )
}

/// Encrypts `data` under `key`, with the given header.
pub fn encrypt_bytes_with_header_v2(data: &[u8], header: &HeaderV2, key: RawKey) -> (sealed: Vec<
    u8,
>)
    requires
        header@.wf(),
        data@.len() == header.total_plaintext_size,
    ensures
        sealed@ == container::container(key@, header@.encode(), header@.plan(), data@),
        recipients::read_header_v2(sealed@) is Ok,
        recipients::read_header_v2(sealed@)->Ok_0.0 == header@,
        decrypted_v2(sealed@, key@) == Ok::<Seq<u8>, FormatError>(data@),
        v2_tags_are_bound(sealed@, header@, key@),
{
    let header_bytes = header.to_bytes();
    let ghost k = key@;
    let sealed = seal_container(
        key.into_derived_key(),
        header.plan(),
        header_bytes.as_slice(),
        data,
    );
    proof {
        let rest = sealed@.skip(header_bytes@.len() as int);
        assert(sealed@ =~= header@.encode() + rest);
        recipients::law_read_of_encode(header@, rest);
        assert(sealed@.take(header_bytes@.len() as int) =~= header@.encode());
        lemma_v2_tags_are_bound(sealed@, header@, k);
    }
    sealed
}

/// Encrypts `data` under a content key that the caller has wrapped for the
/// recipients: a fresh base nonce, and the container of `data` in chunks of
/// 1 MiB, which opens to `data` again under that key. Recipients outside the
/// policy are refused, and so is a size that cannot be counted in.
pub fn encrypt_bytes_with_raw_key(data: &[u8], key: RawKey, recipients: Vec<Recipient>) -> (result:
    Result<Vec<u8>, FormatError>)
    ensures
        match result {
            Ok(sealed) => {
                &&& recipients::read_header_v2(sealed@) is Ok
                &&& {
                    let header = recipients::read_header_v2(sealed@)->Ok_0.0;
                    &&& header.key_source == KeySourceView::Recipients(
                        recipients::recipients_of(recipients@),
                    )
                    &&& draw::drawn(header.base_nonce)
                    &&& header.chunk_size == DEFAULT_CHUNK_SIZE
                    &&& header.total_plaintext_size == data@.len()
                    &&& sealed@ == container::container(
                        key@,
                        header.encode(),
                        header.plan(),
                        data@,
                    )
                    &&& v2_tags_are_bound(sealed@, header, key@)
                }
                &&& decrypted_v2(sealed@, key@) == Ok::<Seq<u8>, FormatError>(data@)
            },
            Err(error) => {
                &&& !recipients::recipients_wf(recipients::recipients_of(recipients@))
                    || !plan::size_fits(data@.len(), DEFAULT_CHUNK_SIZE as nat)
                &&& error == FormatError::InvalidHeader
            },
        },
{
    let base_nonce = generate_base_nonce();
    match header_for_recipients(recipients, base_nonce, data.len() as u64) {
        Ok(header) => Ok(encrypt_bytes_with_header_v2(data, &header, key)),
        Err(error) => Err(error),
    }
}

/// Decrypts a version 2 container under a key that the caller holds. A key that
/// does not authenticate the header is reported as a wrong password.
pub fn decrypt_bytes_with_raw_key(data: &[u8], key: RawKey) -> (result: Result<
    SecretBytes,
    FormatError,
>)
    ensures
        memory::outcome_of(result) == decrypted_v2(data@, key@),
        result matches Ok(plaintext) ==> {
            &&& recipients::read_header_v2(data@) is Ok
            &&& {
                let header = recipients::read_header_v2(data@)->Ok_0.0;
                &&& plaintext@.len() == header.total_plaintext_size
                &&& data@ == container::container(
                    key@,
                    header.encode(),
                    header.plan(),
                    plaintext@,
                )
            }
        },
{
    let (header, len) = match HeaderV2::read(data) {
        Ok(found) => found,
        Err(error) => {
            return Err(error);
        },
    };
    proof {
        recipients::law_accepted_header(data@, 0);
    }
    let header_bytes = slice_subrange(data, 0, len);
    let rest = slice_subrange(data, len, data.len());
    proof {
        assert(rest@ =~= data@.skip(len as int));
        assert(header_bytes@ =~= header@.encode());
        assert(header_bytes@ + rest@ =~= data@);
    }
    open_container(key.into_derived_key(), header.plan(), header_bytes, rest)
}

/// What it takes to open a container.
#[derive(Debug)]
pub enum HeaderKeyRequirement {
    Password,
    Recipients(Vec<Recipient>),
}

/// What it takes to open a container, as a value.
pub enum RequirementView {
    Password,
    Recipients(Seq<RecipientView>),
}

impl View for HeaderKeyRequirement {
    type V = RequirementView;

    open spec fn view(&self) -> RequirementView {
        match self {
            HeaderKeyRequirement::Password => RequirementView::Password,
            HeaderKeyRequirement::Recipients(list) => RequirementView::Recipients(
                recipients::recipients_of(list@),
            ),
        }
    }
}

/// What the header of a container says it takes to open it. A version 1 header
/// always takes a password.
pub open spec fn key_requirement(data: Seq<u8>) -> Result<RequirementView, FormatError> {
    if data.len() >= 5 && data.take(4) == MAGIC@ && data[4] == FORMAT_VERSION {
        if data.len() < HEADER_FIXED_LEN {
            Err(FormatError::Truncated)
        } else if header::decode_header(data.take(HEADER_FIXED_LEN as int)) is None {
            Err(FormatError::InvalidHeader)
        } else {
            Ok(RequirementView::Password)
        }
    } else {
        match recipients::read_header_v2(data) {
            Err(error) => Err(error),
            Ok((header, _)) => match header.key_source {
                KeySourceView::Password { .. } => Ok(RequirementView::Password),
                KeySourceView::Recipients(list) => Ok(RequirementView::Recipients(list)),
            },
        }
    }
}

/// Reads the header of a container, and nothing else, to say what it takes to
/// open it. No secret is needed.
pub fn inspect_key_requirement(data: &[u8]) -> (result: Result<HeaderKeyRequirement, FormatError>)
    ensures
        match result {
            Ok(requirement) => key_requirement(data@) == Ok::<RequirementView, FormatError>(
                requirement@,
            ),
            Err(error) => key_requirement(data@) == Err::<RequirementView, FormatError>(error),
        },
{
    let is_v1: bool = data.len() >= 5 && data[0] == MAGIC[0] && data[1] == MAGIC[1] && data[2]
        == MAGIC[2] && data[3] == MAGIC[3] && data[4] == FORMAT_VERSION;
    proof {
        if data@.len() >= 5 {
            assert(data@.take(4)[0] == data@[0]);
            assert(data@.take(4)[1] == data@[1]);
            assert(data@.take(4)[2] == data@[2]);
            assert(data@.take(4)[3] == data@[3]);
            if is_v1 {
                assert(data@.take(4) =~= MAGIC@);
            }
        }
    }
    if is_v1 {
        let len: usize = if data.len() < HEADER_FIXED_LEN {
            data.len()
        } else {
            HEADER_FIXED_LEN
        };
        let start = slice_subrange(data, 0, len);
        proof {
            assert(start@ =~= data@.take(len as int));
        }
        return match read_header(start) {
            Ok(_) => Ok(HeaderKeyRequirement::Password),
            Err(error) => Err(error),
        };
    }
    match HeaderV2::read(data) {
        Ok((header, _)) => match header.key_source {
            KeySource::Password { .. } => Ok(HeaderKeyRequirement::Password),
            KeySource::Recipients(list) => Ok(HeaderKeyRequirement::Recipients(list)),
        },
        Err(error) => Err(error),
    }
}

/// What a container takes to be opened: a password if it starts with a valid version 1
/// header; what its header says if it starts with a valid version 2 one.
pub proof fn law_what_a_container_takes(
    first: header::HeaderView,
    second: HeaderV2View,
    more: Seq<u8>,
)
    ensures
        first.wf() ==> key_requirement(first.encode() + more) == Ok::<
            RequirementView,
            FormatError,
        >(RequirementView::Password),
        second.wf() ==> key_requirement(second.encode() + more) == Ok::<
            RequirementView,
            FormatError,
        >(
            match second.key_source {
                KeySourceView::Password { .. } => RequirementView::Password,
                KeySourceView::Recipients(list) => RequirementView::Recipients(list),
            },
        ),
{
    if first.wf() {
        let data = first.encode() + more;
        header::law_decode_of_encode(first);
        header::law_header_layout(first);
        assert(data.take(HEADER_FIXED_LEN as int) =~= first.encode());
        assert(first.encode().subrange(0, 5)[4] == data[4]);
        assert(data.take(4) =~= first.encode().subrange(0, 5).take(4));
        assert(data.take(4) =~= MAGIC@);
    }
    if second.wf() {
        let data = second.encode() + more;
        recipients::law_read_of_encode(second, more);
        recipients::law_v2_header_layout(second);
        assert(data[4] == 2);
    }
}

} // verus!
