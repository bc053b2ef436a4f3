//! Containers whose key comes from outside.
//!
//! Their header (version 2) says where the key comes from: a password, or a
//! list of recipients, each with the content key wrapped for it. Wrapping and
//! unwrapping is the caller's business: identifiers and wrapped keys are opaque
//! here. Everything after the header is as in a container under a password.
//!
//! ```text
//! magic (4), version = 2 (1), key source (1)
//! key source 0: salt (16), memory (4), iterations (4), parallelism (1)
//! key source 1: number of recipients (2), then for each
//!               length (2) and identifier, length (2) and wrapped key
//! base nonce (12), chunk size (4), chunks (8), plaintext size (8)
//! ```

use crate::bytes;
use crate::bytes::{copy_array, push_all, push_be, read_be};
use crate::crypto::{
    Argon2Params, MAX_RECIPIENTS, MAX_RECIPIENT_ID_LEN, MAX_WRAPPED_KEY_LEN, NONCE_LEN, SALT_LEN,
};
use crate::format::plan::{sizes_agree, ChunkPlan, PlanView};
use crate::format::{FormatError, FORMAT_VERSION_V2, MAGIC};
use vstd::prelude::*;
use vstd::slice::{slice_subrange, slice_to_vec};

verus! {

/// Length of what every version 2 header starts with.
pub const PREFIX_LEN: usize = 4 + 1 + 1;

/// Length of what every header ends with.
pub const SUFFIX_LEN: usize = NONCE_LEN + 4 + 8 + 8;

/// Someone the content key is wrapped for.
#[derive(Debug, Clone)]
pub struct Recipient {
    /// Which key unwraps it; not secret.
    pub recipient_id: Vec<u8>,
    /// The content key, wrapped.
    pub wrapped_key: Vec<u8>,
}

/// A recipient, as a value.
#[verifier::ext_equal]
pub struct RecipientView {
    pub recipient_id: Seq<u8>,
    pub wrapped_key: Seq<u8>,
}

impl View for Recipient {
    type V = RecipientView;

    open spec fn view(&self) -> RecipientView {
        RecipientView { recipient_id: self.recipient_id@, wrapped_key: self.wrapped_key@ }
    }
}

/// Recipients, as values.
pub open spec fn recipients_of(recipients: Seq<Recipient>) -> Seq<RecipientView> {
    recipients.map_values(|recipient: Recipient| recipient@)
}

/// Where the key of a container comes from.
#[derive(Debug, Clone)]
pub enum KeySource {
    Password { salt: [u8; SALT_LEN], argon2_params: Argon2Params },
    Recipients(Vec<Recipient>),
}

/// Where the key of a container comes from, as a value.
#[verifier::ext_equal]
pub enum KeySourceView {
    Password { salt: Seq<u8>, argon2_params: Argon2Params },
    Recipients(Seq<RecipientView>),
}

impl View for KeySource {
    type V = KeySourceView;

    open spec fn view(&self) -> KeySourceView {
        match self {
            KeySource::Password { salt, argon2_params } => KeySourceView::Password {
                salt: salt@,
                argon2_params: *argon2_params,
            },
            KeySource::Recipients(recipients) => KeySourceView::Recipients(
                recipients_of(recipients@),
            ),
        }
    }
}

/// A version 2 header.
#[derive(Debug, Clone)]
pub struct HeaderV2 {
    pub key_source: KeySource,
    pub base_nonce: [u8; NONCE_LEN],
    pub chunk_size: u32,
    pub total_chunks: u64,
    pub total_plaintext_size: u64,
}

/// A version 2 header, as a value.
#[verifier::ext_equal]
pub struct HeaderV2View {
    pub key_source: KeySourceView,
    pub base_nonce: Seq<u8>,
    pub chunk_size: u32,
    pub total_chunks: u64,
    pub total_plaintext_size: u64,
}

impl View for HeaderV2 {
    type V = HeaderV2View;

    open spec fn view(&self) -> HeaderV2View {
        HeaderV2View {
            key_source: self.key_source@,
            base_nonce: self.base_nonce@,
            chunk_size: self.chunk_size,
            total_chunks: self.total_chunks,
            total_plaintext_size: self.total_plaintext_size,
        }
    }
}

impl RecipientView {
    /// The lengths are within the policy.
    pub open spec fn wf(self) -> bool {
        &&& self.recipient_id.len() <= MAX_RECIPIENT_ID_LEN
        &&& self.wrapped_key.len() <= MAX_WRAPPED_KEY_LEN
    }

    pub open spec fn encode(self) -> Seq<u8> {
        bytes::be(self.recipient_id.len(), 2) + self.recipient_id + bytes::be(
            self.wrapped_key.len(),
            2,
        ) + self.wrapped_key
    }
}

pub open spec fn encode_recipients(recipients: Seq<RecipientView>) -> Seq<u8>
    decreases recipients.len(),
{
    if recipients.len() == 0 {
        Seq::empty()
    } else {
        recipients[0].encode() + encode_recipients(recipients.drop_first())
    }
}

/// The number of recipients and all their lengths are within the policy.
pub open spec fn recipients_wf(recipients: Seq<RecipientView>) -> bool {
    &&& recipients.len() <= MAX_RECIPIENTS
    &&& forall|i: int| 0 <= i < recipients.len() ==> (#[trigger] recipients[i]).wf()
}

impl KeySourceView {
    pub open spec fn wf(self) -> bool {
        match self {
            KeySourceView::Password { salt, .. } => salt.len() == SALT_LEN,
            KeySourceView::Recipients(recipients) => recipients_wf(recipients),
        }
    }

    pub open spec fn encode(self) -> Seq<u8> {
        match self {
            KeySourceView::Password { salt, argon2_params } => seq![0u8] + (salt + bytes::be(
                argon2_params.memory_kib as nat,
                4,
            ) + bytes::be(argon2_params.iterations as nat, 4) + seq![argon2_params.parallelism]),
            KeySourceView::Recipients(recipients) => seq![1u8] + (bytes::be(recipients.len(), 2)
                + encode_recipients(recipients)),
        }
    }
}

impl HeaderV2View {
    /// How the plaintext is cut.
    pub open spec fn plan(self) -> PlanView {
        PlanView {
            base_nonce: self.base_nonce,
            chunk_size: self.chunk_size as nat,
            total_chunks: self.total_chunks as nat,
            size: self.total_plaintext_size as nat,
        }
    }

    pub open spec fn wf(self) -> bool {
        &&& self.key_source.wf()
        &&& self.plan().wf()
    }

    pub open spec fn encode_suffix(self) -> Seq<u8> {
        self.base_nonce + bytes::be(self.chunk_size as nat, 4) + bytes::be(
            self.total_chunks as nat,
            8,
        ) + bytes::be(self.total_plaintext_size as nat, 8)
    }

    /// The bytes of the header.
    pub open spec fn encode(self) -> Seq<u8> {
        MAGIC@ + seq![FORMAT_VERSION_V2] + self.key_source.encode() + self.encode_suffix()
    }
}

// ---------------------------------------------------------------------------
// Reading a header
// ---------------------------------------------------------------------------

/// Reading a length and that many bytes: the bytes, and what follows them. A
/// length above `max` is refused before the bytes are looked at.
pub open spec fn read_blob(rest: Seq<u8>, max: nat) -> Result<(Seq<u8>, Seq<u8>), FormatError> {
    let len = bytes::be_value(rest.take(2)) as int;
    if rest.len() < 2 {
        Err(FormatError::Truncated)
    } else if len > max {
        Err(FormatError::InvalidHeader)
    } else if rest.len() < 2 + len {
        Err(FormatError::Truncated)
    } else {
        Ok((rest.subrange(2, 2 + len), rest.skip(2 + len)))
    }
}

/// Reading one recipient, and what follows it.
pub open spec fn read_recipient(rest: Seq<u8>) -> Result<(RecipientView, Seq<u8>), FormatError> {
    match read_blob(rest, MAX_RECIPIENT_ID_LEN as nat) {
        Err(error) => Err(error),
        Ok((recipient_id, after)) => match read_blob(after, MAX_WRAPPED_KEY_LEN as nat) {
            Err(error) => Err(error),
            Ok((wrapped_key, after)) => Ok((RecipientView { recipient_id, wrapped_key }, after)),
        },
    }
}

/// Reading `count` recipients, and what follows them.
pub open spec fn read_recipients(rest: Seq<u8>, count: nat) -> Result<
    (Seq<RecipientView>, Seq<u8>),
    FormatError,
>
    decreases count,
{
    if count == 0 {
        Ok((Seq::empty(), rest))
    } else {
        match read_recipient(rest) {
            Err(error) => Err(error),
            Ok((recipient, after)) => match read_recipients(after, (count - 1) as nat) {
                Err(error) => Err(error),
                Ok((recipients, after)) => Ok((seq![recipient] + recipients, after)),
            },
        }
    }
}

/// Reading what follows the key source 0.
pub open spec fn read_password_source(rest: Seq<u8>) -> Result<
    (KeySourceView, Seq<u8>),
    FormatError,
> {
    if rest.len() < 25 {
        Err(FormatError::Truncated)
    } else {
        Ok(
            (
                KeySourceView::Password {
                    salt: rest.subrange(0, 16),
                    argon2_params: Argon2Params {
                        memory_kib: bytes::be_value(rest.subrange(16, 20)) as u32,
                        iterations: bytes::be_value(rest.subrange(20, 24)) as u32,
                        parallelism: rest[24],
                    },
                },
                rest.skip(25),
            ),
        )
    }
}

/// Reading what follows the key source 1.
pub open spec fn read_recipient_source(rest: Seq<u8>) -> Result<
    (KeySourceView, Seq<u8>),
    FormatError,
> {
    let count = bytes::be_value(rest.take(2));
    if rest.len() < 2 {
        Err(FormatError::Truncated)
    } else if count > MAX_RECIPIENTS {
        Err(FormatError::InvalidHeader)
    } else {
        match read_recipients(rest.skip(2), count) {
            Err(error) => Err(error),
            Ok((recipients, after)) => Ok((KeySourceView::Recipients(recipients), after)),
        }
    }
}

/// Reading the end of a header.
pub open spec fn read_suffix(key_source: KeySourceView, rest: Seq<u8>) -> Result<
    HeaderV2View,
    FormatError,
> {
    let header = HeaderV2View {
        key_source,
        base_nonce: rest.subrange(0, 12),
        chunk_size: bytes::be_value(rest.subrange(12, 16)) as u32,
        total_chunks: bytes::be_value(rest.subrange(16, 24)) as u64,
        total_plaintext_size: bytes::be_value(rest.subrange(24, 32)) as u64,
    };
    if rest.len() < SUFFIX_LEN {
        Err(FormatError::Truncated)
    } else if !header.plan().wf() {
        Err(FormatError::InvalidHeader)
    } else {
        Ok(header)
    }
}

/// Reading the header at the start of a container: the header, and what follows
/// it.
#[verifier::opaque]
pub open spec fn read_header_v2(data: Seq<u8>) -> Result<(HeaderV2View, Seq<u8>), FormatError> {
    if data.len() < PREFIX_LEN {
        Err(FormatError::Truncated)
    } else if data.take(4) != MAGIC@ || data[4] != FORMAT_VERSION_V2 || data[5] > 1 {
        Err(FormatError::InvalidHeader)
    } else {
        let rest = data.skip(PREFIX_LEN as int);
        let source = if data[5] == 0 {
            read_password_source(rest)
        } else {
            read_recipient_source(rest)
        };
        match source {
            Err(error) => Err(error),
            Ok((key_source, after)) => match read_suffix(key_source, after) {
                Err(error) => Err(error),
                Ok(header) => Ok((header, after.skip(SUFFIX_LEN as int))),
            },
        }
    }
}

proof fn lemma_read_blob(blob: Seq<u8>, more: Seq<u8>, max: nat)
    requires
        blob.len() <= max,
        max <= 0xffff,
    ensures
        read_blob(bytes::be(blob.len(), 2) + blob + more, max) == Ok::<
            (Seq<u8>, Seq<u8>),
            FormatError,
        >((blob, more)),
{
    let data = bytes::be(blob.len(), 2) + blob + more;
    bytes::lemma_pow256_values();
    bytes::lemma_be_value_of_be(blob.len(), 2);
    assert(data.take(2) =~= bytes::be(blob.len(), 2));
    assert(data.subrange(2, (2 + blob.len()) as int) =~= blob);
    assert(data.skip((2 + blob.len()) as int) =~= more);
}

proof fn lemma_read_recipient(recipient: RecipientView, more: Seq<u8>)
    requires
        recipient.wf(),
    ensures
        read_recipient(recipient.encode() + more) == Ok::<(RecipientView, Seq<u8>), FormatError>(
            (recipient, more),
        ),
{
    let id = recipient.recipient_id;
    let key = recipient.wrapped_key;
    let second = bytes::be(key.len(), 2) + key + more;
    assert(recipient.encode() + more =~= bytes::be(id.len(), 2) + id + second);
    lemma_read_blob(id, second, MAX_RECIPIENT_ID_LEN as nat);
    lemma_read_blob(key, more, MAX_WRAPPED_KEY_LEN as nat);
}

proof fn lemma_read_recipients(recipients: Seq<RecipientView>, more: Seq<u8>)
    requires
        forall|i: int| 0 <= i < recipients.len() ==> (#[trigger] recipients[i]).wf(),
    ensures
        read_recipients(encode_recipients(recipients) + more, recipients.len()) == Ok::<
            (Seq<RecipientView>, Seq<u8>),
            FormatError,
        >((recipients, more)),
    decreases recipients.len(),
{
    if recipients.len() == 0 {
        assert(encode_recipients(recipients) + more =~= more);
        assert(recipients =~= Seq::empty());
    } else {
        let first = recipients[0];
        let tail = recipients.drop_first();
        assert(first.wf());
        assert forall|i: int| 0 <= i < tail.len() implies (#[trigger] tail[i]).wf() by {
            assert(tail[i] == recipients[i + 1]);
        }
        lemma_read_recipients(tail, more);
        bytes::lemma_concat_assoc(first.encode(), encode_recipients(tail), more);
        lemma_read_recipient(first, encode_recipients(tail) + more);
        assert(seq![first] + tail =~= recipients);
    }
}

proof fn lemma_read_source(source: KeySourceView, more: Seq<u8>)
    requires
        source.wf(),
    ensures
        ({
            let data = source.encode() + more;
            &&& data.len() >= 1
            &&& data[0] <= 1
            &&& (if data[0] == 0 {
                read_password_source(data.skip(1))
            } else {
                read_recipient_source(data.skip(1))
            }) == Ok::<(KeySourceView, Seq<u8>), FormatError>((source, more))
        }),
{
    let data = source.encode() + more;
    bytes::lemma_pow256_values();
    match source {
        KeySourceView::Password { salt, argon2_params } => {
            let memory = argon2_params.memory_kib as nat;
            let iterations = argon2_params.iterations as nat;
            bytes::lemma_be_value_of_be(memory, 4);
            bytes::lemma_be_value_of_be(iterations, 4);
            let rest = data.skip(1);
            assert(rest.subrange(0, 16) =~= salt);
            assert(rest.subrange(16, 20) =~= bytes::be(memory, 4));
            assert(rest.subrange(20, 24) =~= bytes::be(iterations, 4));
            assert(rest[24] == argon2_params.parallelism);
            assert(rest.skip(25) =~= more);
        },
        KeySourceView::Recipients(recipients) => {
            bytes::lemma_be_value_of_be(recipients.len(), 2);
            let rest = data.skip(1);
            assert(rest.take(2) =~= bytes::be(recipients.len(), 2));
            assert(rest.skip(2) =~= encode_recipients(recipients) + more);
            lemma_read_recipients(recipients, more);
        },
    }
}

proof fn lemma_read_suffix(header: HeaderV2View, more: Seq<u8>)
    requires
        header.wf(),
    ensures
        read_suffix(header.key_source, header.encode_suffix() + more) == Ok::<
            HeaderV2View,
            FormatError,
        >(header),
        (header.encode_suffix() + more).skip(SUFFIX_LEN as int) == more,
{
    bytes::lemma_pow256_values();
    bytes::lemma_be_value_of_be(header.chunk_size as nat, 4);
    bytes::lemma_be_value_of_be(header.total_chunks as nat, 8);
    bytes::lemma_be_value_of_be(header.total_plaintext_size as nat, 8);
    let rest = header.encode_suffix() + more;
    assert(rest.subrange(0, 12) =~= header.base_nonce);
    assert(rest.subrange(12, 16) =~= bytes::be(header.chunk_size as nat, 4));
    assert(rest.subrange(16, 24) =~= bytes::be(header.total_chunks as nat, 8));
    assert(rest.subrange(24, 32) =~= bytes::be(header.total_plaintext_size as nat, 8));
    assert(rest.skip(SUFFIX_LEN as int) =~= more);
}

proof fn lemma_split_prefix(source: Seq<u8>, rest: Seq<u8>)
    requires
        source.len() >= 1,
    ensures
        ({
            let data = MAGIC@ + seq![FORMAT_VERSION_V2] + source + rest;
            &&& data.len() >= PREFIX_LEN
            &&& data.take(4) == MAGIC@
            &&& data[4] == FORMAT_VERSION_V2
            &&& data[5] == (source + rest)[0]
            &&& data.skip(PREFIX_LEN as int) == (source + rest).skip(1)
        }),
{
    let data = MAGIC@ + seq![FORMAT_VERSION_V2] + source + rest;
    assert(data.take(4) =~= MAGIC@);
    assert(data.skip(PREFIX_LEN as int) =~= (source + rest).skip(1));
}

/// A header that is written reads back as itself, with what follows it.
pub proof fn law_read_of_encode(header: HeaderV2View, more: Seq<u8>)
    requires
        header.wf(),
    ensures
        read_header_v2(header.encode() + more) == Ok::<(HeaderV2View, Seq<u8>), FormatError>(
            (header, more),
        ),
{
    reveal(read_header_v2);
    let source = header.key_source.encode();
    let rest = header.encode_suffix() + more;
    lemma_read_source(header.key_source, rest);
    lemma_read_suffix(header, more);
    lemma_split_prefix(source, rest);
    assert(header.encode() + more =~= MAGIC@ + seq![FORMAT_VERSION_V2] + source + rest);
}

// ---------------------------------------------------------------------------
// Cut and accepted headers
// ---------------------------------------------------------------------------

/// Reading a length and its bytes again from data that is cut.
proof fn lemma_cut_blob(rest: Seq<u8>, max: nat, len: int)
    requires
        read_blob(rest, max) is Ok,
        0 <= len <= rest.len(),
    ensures
        ({
            let (blob, after) = read_blob(rest, max)->Ok_0;
            let used = rest.len() - after.len();
            &&& used == 2 + blob.len()
            &&& blob.len() <= max
            &&& rest == bytes::be(blob.len(), 2) + blob + after
            &&& read_blob(rest.take(len), max) == if len < used {
                Err::<(Seq<u8>, Seq<u8>), FormatError>(FormatError::Truncated)
            } else {
                Ok::<(Seq<u8>, Seq<u8>), FormatError>((blob, after.take(len - used)))
            }
        }),
{
    let (blob, after) = read_blob(rest, max)->Ok_0;
    let used = 2 + blob.len();
    bytes::lemma_be_of_be_value(rest.take(2));
    assert(rest =~= bytes::be(blob.len(), 2) + blob + after);
    if len >= 2 {
        assert(rest.take(len).take(2) =~= rest.take(2));
        if len >= used {
            assert(rest.take(len).subrange(2, used as int) =~= blob);
            assert(rest.take(len).skip(used as int) =~= after.take(len - used));
        }
    }
}

proof fn lemma_cut_recipient(rest: Seq<u8>, len: int)
    requires
        read_recipient(rest) is Ok,
        0 <= len <= rest.len(),
    ensures
        ({
            let (recipient, after) = read_recipient(rest)->Ok_0;
            let used = rest.len() - after.len();
            &&& used > 0
            &&& recipient.wf()
            &&& rest == recipient.encode() + after
            &&& read_recipient(rest.take(len)) == if len < used {
                Err::<(RecipientView, Seq<u8>), FormatError>(FormatError::Truncated)
            } else {
                Ok::<(RecipientView, Seq<u8>), FormatError>((recipient, after.take(len - used)))
            }
        }),
{
    let max_id = MAX_RECIPIENT_ID_LEN as nat;
    let max_key = MAX_WRAPPED_KEY_LEN as nat;
    let (id, middle) = read_blob(rest, max_id)->Ok_0;
    let (key, after) = read_blob(middle, max_key)->Ok_0;
    lemma_cut_blob(rest, max_id, len);
    let first = rest.len() - middle.len();
    if len >= first {
        lemma_cut_blob(middle, max_key, len - first);
    } else {
        lemma_cut_blob(middle, max_key, 0);
    }
    assert(rest =~= read_recipient(rest)->Ok_0.0.encode() + after);
}

proof fn lemma_cut_recipients(rest: Seq<u8>, count: nat, len: int)
    requires
        read_recipients(rest, count) is Ok,
        0 <= len <= rest.len(),
    ensures
        ({
            let (recipients, after) = read_recipients(rest, count)->Ok_0;
            let used = rest.len() - after.len();
            &&& used >= 0
            &&& recipients.len() == count
            &&& forall|i: int| 0 <= i < recipients.len() ==> (#[trigger] recipients[i]).wf()
            &&& rest == encode_recipients(recipients) + after
            &&& read_recipients(rest.take(len), count) == if len < used {
                Err::<(Seq<RecipientView>, Seq<u8>), FormatError>(FormatError::Truncated)
            } else {
                Ok::<(Seq<RecipientView>, Seq<u8>), FormatError>(
                    (recipients, after.take(len - used)),
                )
            }
        }),
    decreases count,
{
    let (recipients, after) = read_recipients(rest, count)->Ok_0;
    if count == 0 {
        assert(encode_recipients(recipients) + after =~= rest);
    } else {
        let (first, middle) = read_recipient(rest)->Ok_0;
        let (tail, _) = read_recipients(middle, (count - 1) as nat)->Ok_0;
        lemma_cut_recipient(rest, len);
        let used = rest.len() - middle.len();
        if len >= used {
            lemma_cut_recipients(middle, (count - 1) as nat, len - used);
        } else {
            lemma_cut_recipients(middle, (count - 1) as nat, 0);
        }
        assert(recipients.drop_first() =~= tail);
        assert(rest =~= encode_recipients(recipients) + after);
        assert forall|i: int| 0 <= i < recipients.len() implies (
        #[trigger] recipients[i]).wf() by {
            if i > 0 {
                assert(recipients[i] == tail[i - 1]);
            }
        }
    }
}

/// Reading the key source that data which starts with its byte has.
pub open spec fn read_source(data: Seq<u8>) -> Result<(KeySourceView, Seq<u8>), FormatError> {
    if data[0] == 0 {
        read_password_source(data.skip(1))
    } else {
        read_recipient_source(data.skip(1))
    }
}

#[verifier::rlimit(40)]
proof fn lemma_cut_source(data: Seq<u8>, len: int)
    requires
        data.len() >= 1,
        data[0] <= 1,
        read_source(data) is Ok,
        1 <= len <= data.len(),
    ensures
        ({
            let (source, after) = read_source(data)->Ok_0;
            let used = data.len() - after.len();
            &&& used >= 1
            &&& source.wf()
            &&& data == source.encode() + after
            &&& read_source(data.take(len)) == if len < used {
                Err::<(KeySourceView, Seq<u8>), FormatError>(FormatError::Truncated)
            } else {
                Ok::<(KeySourceView, Seq<u8>), FormatError>((source, after.take(len - used)))
            }
        }),
{
    let rest = data.skip(1);
    assert(data.take(len).skip(1) =~= rest.take(len - 1));
    assert(data =~= seq![data[0]] + rest);
    if data[0] == 0 {
        lemma_cut_password_source(rest, len - 1);
    } else {
        lemma_cut_recipient_source(rest, len - 1);
    }
}

#[verifier::rlimit(40)]
proof fn lemma_cut_recipient_source(rest: Seq<u8>, len: int)
    requires
        read_recipient_source(rest) is Ok,
        0 <= len <= rest.len(),
    ensures
        ({
            let (source, after) = read_recipient_source(rest)->Ok_0;
            let used = rest.len() - after.len();
            &&& used >= 0
            &&& source.wf()
            &&& seq![1u8] + rest == source.encode() + after
            &&& read_recipient_source(rest.take(len)) == if len < used {
                Err::<(KeySourceView, Seq<u8>), FormatError>(FormatError::Truncated)
            } else {
                Ok::<(KeySourceView, Seq<u8>), FormatError>((source, after.take(len - used)))
            }
        }),
{
    let count = bytes::be_value(rest.take(2));
    let (recipients, after) = read_recipients(rest.skip(2), count)->Ok_0;
    let cut = rest.take(len);
    if len >= 2 {
        assert(cut.take(2) =~= rest.take(2));
        assert(cut.skip(2) =~= rest.skip(2).take(len - 2));
        lemma_cut_recipients(rest.skip(2), count, len - 2);
    } else {
        lemma_cut_recipients(rest.skip(2), count, 0);
    }
    lemma_recipient_source_layout(rest);
}

#[verifier::rlimit(40)]
proof fn lemma_recipient_source_layout(rest: Seq<u8>)
    requires
        read_recipient_source(rest) is Ok,
    ensures
        ({
            let (source, after) = read_recipient_source(rest)->Ok_0;
            &&& source.wf()
            &&& seq![1u8] + rest == source.encode() + after
        }),
{
    let count = bytes::be_value(rest.take(2));
    let (recipients, after) = read_recipients(rest.skip(2), count)->Ok_0;
    let encoded = encode_recipients(recipients);
    let number = bytes::be(recipients.len(), 2);
    lemma_cut_recipients(rest.skip(2), count, 0);
    bytes::lemma_be_of_be_value(rest.take(2));
    assert(rest =~= rest.take(2) + rest.skip(2));
    bytes::lemma_concat_assoc(number, encoded, after);
    bytes::lemma_concat_assoc(seq![1u8], number + encoded, after);
}

proof fn lemma_cut_password_source(rest: Seq<u8>, len: int)
    requires
        read_password_source(rest) is Ok,
        0 <= len <= rest.len(),
    ensures
        ({
            let (source, after) = read_password_source(rest)->Ok_0;
            &&& after.len() == rest.len() - 25
            &&& source.wf()
            &&& seq![0u8] + rest == source.encode() + after
            &&& read_password_source(rest.take(len)) == if len < 25 {
                Err::<(KeySourceView, Seq<u8>), FormatError>(FormatError::Truncated)
            } else {
                Ok::<(KeySourceView, Seq<u8>), FormatError>((source, after.take(len - 25)))
            }
        }),
{
    let (source, after) = read_password_source(rest)->Ok_0;
    bytes::lemma_pow256_values();
    bytes::lemma_be_value_bound(rest.subrange(16, 20));
    bytes::lemma_be_value_bound(rest.subrange(20, 24));
    bytes::lemma_be_of_be_value(rest.subrange(16, 20));
    bytes::lemma_be_of_be_value(rest.subrange(20, 24));
    assert(seq![0u8] + rest =~= source.encode() + after);
    if len >= 25 {
        let cut = rest.take(len);
        assert(cut.subrange(0, 16) =~= rest.subrange(0, 16));
        assert(cut.subrange(16, 20) =~= rest.subrange(16, 20));
        assert(cut.subrange(20, 24) =~= rest.subrange(20, 24));
        assert(cut.skip(25) =~= after.take(len - 25));
    }
}

proof fn lemma_cut_suffix(source: KeySourceView, rest: Seq<u8>, len: int)
    requires
        read_suffix(source, rest) is Ok,
        0 <= len <= rest.len(),
    ensures
        ({
            let header = read_suffix(source, rest)->Ok_0;
            &&& rest == header.encode_suffix() + rest.skip(SUFFIX_LEN as int)
            &&& read_suffix(source, rest.take(len)) == if len < SUFFIX_LEN {
                Err::<HeaderV2View, FormatError>(FormatError::Truncated)
            } else {
                Ok::<HeaderV2View, FormatError>(header)
            }
            &&& len >= SUFFIX_LEN ==> rest.take(len).skip(SUFFIX_LEN as int) == rest.skip(
                SUFFIX_LEN as int,
            ).take(len - SUFFIX_LEN)
        }),
{
    let header = read_suffix(source, rest)->Ok_0;
    bytes::lemma_pow256_values();
    bytes::lemma_be_value_bound(rest.subrange(12, 16));
    bytes::lemma_be_value_bound(rest.subrange(16, 24));
    bytes::lemma_be_value_bound(rest.subrange(24, 32));
    bytes::lemma_be_of_be_value(rest.subrange(12, 16));
    bytes::lemma_be_of_be_value(rest.subrange(16, 24));
    bytes::lemma_be_of_be_value(rest.subrange(24, 32));
    assert(rest =~= header.encode_suffix() + rest.skip(SUFFIX_LEN as int));
    if len >= SUFFIX_LEN {
        let cut = rest.take(len);
        assert(cut.subrange(0, 12) =~= rest.subrange(0, 12));
        assert(cut.subrange(12, 16) =~= rest.subrange(12, 16));
        assert(cut.subrange(16, 24) =~= rest.subrange(16, 24));
        assert(cut.subrange(24, 32) =~= rest.subrange(24, 32));
        assert(cut.skip(SUFFIX_LEN as int) =~= rest.skip(SUFFIX_LEN as int).take(
            len - SUFFIX_LEN,
        ));
    }
}

/// The bytes of an accepted header are exactly the ones it is written as, and
/// cutting it off anywhere makes it truncated.
pub proof fn law_accepted_header(data: Seq<u8>, len: int)
    requires
        read_header_v2(data) is Ok,
        0 <= len <= data.len(),
    ensures
        ({
            let (header, rest) = read_header_v2(data)->Ok_0;
            let used = header.encode().len();
            &&& header.wf()
            &&& data == header.encode() + rest
            &&& read_header_v2(data.take(len)) == if len < used {
                Err::<(HeaderV2View, Seq<u8>), FormatError>(FormatError::Truncated)
            } else {
                Ok::<(HeaderV2View, Seq<u8>), FormatError>((header, rest.take(len - used)))
            }
        }),
{
    reveal(read_header_v2);
    let (header, rest) = read_header_v2(data)->Ok_0;
    let from_source = data.skip(5);
    assert(data.skip(PREFIX_LEN as int) =~= from_source.skip(1));
    let (source, after) = read_source(from_source)->Ok_0;
    let prefix = MAGIC@ + seq![FORMAT_VERSION_V2];
    assert(data =~= prefix + from_source) by {
        assert(data.take(4) == MAGIC@);
        assert forall|i: int| 0 <= i < 4 implies data[i] == #[trigger] MAGIC@[i] by {
            assert(data.take(4)[i] == data[i]);
        }
    }
    if len < PREFIX_LEN {
        lemma_cut_source(from_source, 1);
        lemma_cut_suffix(source, after, 0);
    } else {
        let cut = data.take(len);
        assert(cut.take(4) =~= data.take(4));
        assert(cut.skip(PREFIX_LEN as int) =~= from_source.take(len - 5).skip(1));
        lemma_cut_source(from_source, len - 5);
        let used = from_source.len() - after.len();
        if len - 5 >= used {
            lemma_cut_suffix(source, after, len - 5 - used);
        } else {
            lemma_cut_suffix(source, after, 0);
        }
    }
    assert(header.encode() + rest =~= prefix + (source.encode() + (header.encode_suffix() + rest)));
}

// ---------------------------------------------------------------------------
// Writing and reading, computed
// ---------------------------------------------------------------------------

proof fn lemma_recipients_len(recipients: Seq<RecipientView>)
    requires
        forall|i: int| 0 <= i < recipients.len() ==> (#[trigger] recipients[i]).wf(),
    ensures
        encode_recipients(recipients).len() <= 1284 * recipients.len(),
    decreases recipients.len(),
{
    if recipients.len() > 0 {
        let tail = recipients.drop_first();
        assert(recipients[0].wf());
        bytes::lemma_be_len(recipients[0].recipient_id.len(), 2);
        bytes::lemma_be_len(recipients[0].wrapped_key.len(), 2);
        assert forall|i: int| 0 <= i < tail.len() implies (#[trigger] tail[i]).wf() by {
            assert(tail[i] == recipients[i + 1]);
        }
        lemma_recipients_len(tail);
    }
}

/// The longest that a header within the policy is.
pub const MAX_HEADER_V2_LEN: usize = 82_216;

proof fn lemma_header_len(header: HeaderV2View)
    requires
        header.wf(),
    ensures
        header.encode().len() <= MAX_HEADER_V2_LEN,
{
    bytes::lemma_be_len(header.chunk_size as nat, 4);
    bytes::lemma_be_len(header.total_chunks as nat, 8);
    bytes::lemma_be_len(header.total_plaintext_size as nat, 8);
    match header.key_source {
        KeySourceView::Password { salt, argon2_params } => {
            bytes::lemma_be_len(argon2_params.memory_kib as nat, 4);
            bytes::lemma_be_len(argon2_params.iterations as nat, 4);
        },
        KeySourceView::Recipients(recipients) => {
            bytes::lemma_be_len(recipients.len(), 2);
            lemma_recipients_len(recipients);
        },
    }
}

proof fn lemma_encode_one_more(recipients: Seq<RecipientView>)
    requires
        recipients.len() > 0,
    ensures
        encode_recipients(recipients) == encode_recipients(recipients.drop_last())
            + recipients.last().encode(),
    decreases recipients.len(),
{
    if recipients.len() == 1 {
        assert(recipients.drop_first() =~= Seq::empty());
        assert(recipients.drop_last() =~= Seq::empty());
        assert(encode_recipients(recipients) =~= encode_recipients(recipients.drop_last())
            + recipients.last().encode());
    } else {
        lemma_encode_one_more(recipients.drop_first());
        assert(recipients.drop_first().drop_last() =~= recipients.drop_last().drop_first());
        assert(encode_recipients(recipients) =~= encode_recipients(recipients.drop_last())
            + recipients.last().encode());
    }
}

/// Whether the number of recipients and all their lengths are within the policy.
pub fn recipients_are_in_policy(recipients: &Vec<Recipient>) -> (in_policy: bool)
    ensures
        in_policy == recipients_wf(recipients_of(recipients@)),
{
    let ghost views = recipients_of(recipients@);
    if recipients.len() > MAX_RECIPIENTS as usize {
        return false;
    }
    let mut i: usize = 0;
    while i < recipients.len()
        invariant
            i <= recipients@.len(),
            views == recipients_of(recipients@),
            forall|j: int| 0 <= j < i ==> (#[trigger] views[j]).wf(),
        decreases recipients@.len() - i,
    {
        proof {
            assert(views[i as int] == recipients@[i as int]@);
        }
        if recipients[i].recipient_id.len() > MAX_RECIPIENT_ID_LEN as usize
            || recipients[i].wrapped_key.len() > MAX_WRAPPED_KEY_LEN as usize {
            assert(!views[i as int].wf());
            return false;
        }
        i = i + 1;
    }
    true
}

impl HeaderV2 {
    /// How the plaintext is cut.
    pub fn plan(&self) -> (plan: ChunkPlan)
        ensures
            plan@ == self@.plan(),
    {
        ChunkPlan {
            base_nonce: self.base_nonce,
            chunk_size: self.chunk_size,
            total_chunks: self.total_chunks,
            total_plaintext_size: self.total_plaintext_size,
        }
    }

    /// The bytes of the header, without its tag.
    pub fn to_bytes(&self) -> (buf: Vec<u8>)
        requires
            self@.wf(),
        ensures
            buf@ == self@.encode(),
            buf@.len() <= MAX_HEADER_V2_LEN,
    {
        let mut buf: Vec<u8> = Vec::new();
        push_all(&mut buf, &MAGIC);
        buf.push(FORMAT_VERSION_V2);
        let ghost start = buf@;
        push_source(&mut buf, &self.key_source);
        push_all(&mut buf, &self.base_nonce);
        push_be(&mut buf, self.chunk_size as u64, 4);
        push_be(&mut buf, self.total_chunks, 8);
        push_be(&mut buf, self.total_plaintext_size, 8);
        proof {
            assert(start =~= MAGIC@ + seq![FORMAT_VERSION_V2]);
            assert(buf@ =~= self@.encode());
            lemma_header_len(self@);
        }
        buf
    }

    /// Reads the header at the start of `data`: the header, and its length. The
    /// magic, the version, the bounds on the recipients, and the agreement
    /// between the sizes are all checked.
    pub fn read(data: &[u8]) -> (result: Result<(Self, usize), FormatError>)
        ensures
            match result {
                Ok((header, len)) => {
                    &&& len <= data@.len()
                    &&& read_header_v2(data@) == Ok::<(HeaderV2View, Seq<u8>), FormatError>(
                        (header@, data@.skip(len as int)),
                    )
                },
                Err(error) => read_header_v2(data@) == Err::<
                    (HeaderV2View, Seq<u8>),
                    FormatError,
                >(error),
            },
    {
        proof {
            reveal(read_header_v2);
        }
        if data.len() < PREFIX_LEN {
            return Err(FormatError::Truncated);
        }
        proof {
            assert(data@.take(4)[0] == data@[0]);
            assert(data@.take(4)[1] == data@[1]);
            assert(data@.take(4)[2] == data@[2]);
            assert(data@.take(4)[3] == data@[3]);
        }
        if data[0] != MAGIC[0] || data[1] != MAGIC[1] || data[2] != MAGIC[2] || data[3]
            != MAGIC[3] {
            return Err(FormatError::InvalidHeader);
        }
        proof {
            assert(data@.take(4) =~= MAGIC@);
        }
        if data[4] != FORMAT_VERSION_V2 || data[5] > 1 {
            return Err(FormatError::InvalidHeader);
        }
        let source = if data[5] == 0 {
            read_password_source_at(data, PREFIX_LEN)
        } else {
            read_recipient_source_at(data, PREFIX_LEN)
        };
        let (key_source, at) = match source {
            Ok(found) => found,
            Err(error) => {
                return Err(error);
            },
        };
        let ghost rest = data@.skip(at as int);
        if data.len() - at < SUFFIX_LEN {
            return Err(FormatError::Truncated);
        }
        let base_nonce: [u8; NONCE_LEN] = copy_array(data, at);
        let chunk_size: u32 = read_be(data, at + 12, 4) as u32;
        let total_chunks: u64 = read_be(data, at + 16, 8);
        let total_plaintext_size: u64 = read_be(data, at + 24, 8);
        proof {
            bytes::lemma_pow256_values();
            assert(rest.subrange(0, 12) =~= data@.subrange(at as int, at + 12));
            assert(rest.subrange(12, 16) =~= data@.subrange(at + 12, at + 16));
            assert(rest.subrange(16, 24) =~= data@.subrange(at + 16, at + 24));
            assert(rest.subrange(24, 32) =~= data@.subrange(at + 24, at + 32));
            assert(rest.skip(SUFFIX_LEN as int) =~= data@.skip(at + SUFFIX_LEN));
        }
        if !sizes_agree(chunk_size, total_chunks, total_plaintext_size) {
            return Err(FormatError::InvalidHeader);
        }
        let header = HeaderV2 {
            key_source,
            base_nonce,
            chunk_size,
            total_chunks,
            total_plaintext_size,
        };
        Ok((header, at + SUFFIX_LEN))
    }
}

fn push_source(buf: &mut Vec<u8>, source: &KeySource)
    requires
        source@.wf(),
    ensures
        final(buf)@ == old(buf)@ + source@.encode(),
{
    match source {
        KeySource::Password { salt, argon2_params } => {
            buf.push(0);
            push_all(buf, salt);
            push_be(buf, argon2_params.memory_kib as u64, 4);
            push_be(buf, argon2_params.iterations as u64, 4);
            buf.push(argon2_params.parallelism);
            proof {
                assert(buf@ =~= old(buf)@ + source@.encode());
            }
        },
        KeySource::Recipients(recipients) => {
            let ghost views = recipients_of(recipients@);
            buf.push(1);
            push_be(buf, recipients.len() as u64, 2);
            let ghost start = buf@;
            let mut i: usize = 0;
            proof {
                assert(views.take(0) =~= Seq::empty());
                assert(start + encode_recipients(views.take(0)) =~= start);
            }
            while i < recipients.len()
                invariant
                    i <= recipients@.len(),
                    views == recipients_of(recipients@),
                    buf@ == start + encode_recipients(views.take(i as int)),
                decreases recipients@.len() - i,
            {
                let recipient = &recipients[i];
                let ghost before = buf@;
                push_be(buf, recipient.recipient_id.len() as u64, 2);
                push_all(buf, recipient.recipient_id.as_slice());
                push_be(buf, recipient.wrapped_key.len() as u64, 2);
                push_all(buf, recipient.wrapped_key.as_slice());
                proof {
                    assert(buf@ =~= before + recipient@.encode());
                    lemma_encode_one_more(views.take(i + 1));
                    assert(views.take(i + 1).drop_last() =~= views.take(i as int));
                    assert(views.take(i + 1).last() == recipient@);
                    assert(buf@ =~= start + encode_recipients(views.take(i + 1)));
                }
                i = i + 1;
            }
            proof {
                assert(views.take(views.len() as int) =~= views);
                assert(buf@ =~= old(buf)@ + source@.encode());
            }
        },
    }
}

fn read_password_source_at(data: &[u8], at: usize) -> (result: Result<
    (KeySource, usize),
    FormatError,
>)
    requires
        at <= data@.len(),
    ensures
        match result {
            Ok((source, next)) => {
                &&& at <= next <= data@.len()
                &&& read_password_source(data@.skip(at as int)) == Ok::<
                    (KeySourceView, Seq<u8>),
                    FormatError,
                >((source@, data@.skip(next as int)))
            },
            Err(error) => read_password_source(data@.skip(at as int)) == Err::<
                (KeySourceView, Seq<u8>),
                FormatError,
            >(error),
        },
{
    let ghost rest = data@.skip(at as int);
    if data.len() - at < 25 {
        return Err(FormatError::Truncated);
    }
    let salt: [u8; SALT_LEN] = copy_array(data, at);
    let memory_kib: u32 = read_be(data, at + 16, 4) as u32;
    let iterations: u32 = read_be(data, at + 20, 4) as u32;
    let parallelism: u8 = data[at + 24];
    proof {
        bytes::lemma_pow256_values();
        assert(rest.subrange(0, 16) =~= data@.subrange(at as int, at + 16));
        assert(rest.subrange(16, 20) =~= data@.subrange(at + 16, at + 20));
        assert(rest.subrange(20, 24) =~= data@.subrange(at + 20, at + 24));
        assert(rest.skip(25) =~= data@.skip(at + 25));
    }
    let argon2_params = Argon2Params { memory_kib, iterations, parallelism };
    Ok((KeySource::Password { salt, argon2_params }, at + 25))
}

fn read_blob_at(data: &[u8], at: usize, max: u16) -> (result: Result<(Vec<u8>, usize), FormatError>)
    requires
        at <= data@.len(),
    ensures
        match result {
            Ok((blob, next)) => {
                &&& at <= next <= data@.len()
                &&& read_blob(data@.skip(at as int), max as nat) == Ok::<
                    (Seq<u8>, Seq<u8>),
                    FormatError,
                >((blob@, data@.skip(next as int)))
            },
            Err(error) => read_blob(data@.skip(at as int), max as nat) == Err::<
                (Seq<u8>, Seq<u8>),
                FormatError,
            >(error),
        },
{
    let ghost rest = data@.skip(at as int);
    if data.len() - at < 2 {
        return Err(FormatError::Truncated);
    }
    let len: usize = read_be(data, at, 2) as usize;
    proof {
        bytes::lemma_pow256_values();
        assert(rest.take(2) =~= data@.subrange(at as int, at + 2));
    }
    if len > max as usize {
        return Err(FormatError::InvalidHeader);
    }
    if data.len() - at - 2 < len {
        return Err(FormatError::Truncated);
    }
    let blob = slice_to_vec(slice_subrange(data, at + 2, at + 2 + len));
    proof {
        assert(rest.subrange(2, 2 + len) =~= blob@);
        assert(rest.skip(2 + len) =~= data@.skip(at + 2 + len));
    }
    Ok((blob, at + 2 + len))
}

/// What was read before, followed by what is read next.
pub open spec fn recipients_after(
    before: Seq<RecipientView>,
    outcome: Result<(Seq<RecipientView>, Seq<u8>), FormatError>,
) -> Result<(Seq<RecipientView>, Seq<u8>), FormatError> {
    match outcome {
        Ok((recipients, rest)) => Ok((before + recipients, rest)),
        Err(error) => Err(error),
    }
}

fn read_recipient_source_at(data: &[u8], at: usize) -> (result: Result<
    (KeySource, usize),
    FormatError,
>)
    requires
        at <= data@.len(),
    ensures
        match result {
            Ok((source, next)) => {
                &&& at <= next <= data@.len()
                &&& read_recipient_source(data@.skip(at as int)) == Ok::<
                    (KeySourceView, Seq<u8>),
                    FormatError,
                >((source@, data@.skip(next as int)))
            },
            Err(error) => read_recipient_source(data@.skip(at as int)) == Err::<
                (KeySourceView, Seq<u8>),
                FormatError,
            >(error),
        },
{
    let ghost rest = data@.skip(at as int);
    if data.len() - at < 2 {
        return Err(FormatError::Truncated);
    }
    let count: usize = read_be(data, at, 2) as usize;
    proof {
        bytes::lemma_pow256_values();
        assert(rest.take(2) =~= data@.subrange(at as int, at + 2));
        assert(rest.skip(2) =~= data@.skip(at + 2));
    }
    if count > MAX_RECIPIENTS as usize {
        return Err(FormatError::InvalidHeader);
    }
    let mut recipients: Vec<Recipient> = Vec::new();
    let mut next: usize = at + 2;
    let ghost whole = read_recipients(data@.skip(at + 2), count as nat);
    let mut i: usize = 0;
    proof {
        assert(recipients_of(recipients@) =~= Seq::empty());
        if whole is Ok {
            assert(Seq::<RecipientView>::empty() + whole->Ok_0.0 =~= whole->Ok_0.0);
        }
    }
    while i < count
        invariant
            i <= count,
            at <= next <= data@.len(),
            whole == read_recipients(rest.skip(2), count as nat),
            rest == data@.skip(at as int),
            rest.len() >= 2,
            count <= MAX_RECIPIENTS,
            count == bytes::be_value(rest.take(2)),
            whole == recipients_after(
                recipients_of(recipients@),
                read_recipients(data@.skip(next as int), (count - i) as nat),
            ),
        decreases count - i,
    {
        let ghost before = recipients_of(recipients@);
        let (recipient_id, middle) = match read_blob_at(data, next, MAX_RECIPIENT_ID_LEN) {
            Ok(found) => found,
            Err(error) => {
                return Err(error);
            },
        };
        let (wrapped_key, after) = match read_blob_at(data, middle, MAX_WRAPPED_KEY_LEN) {
            Ok(found) => found,
            Err(error) => {
                return Err(error);
            },
        };
        let recipient = Recipient { recipient_id, wrapped_key };
        let ghost this = recipient@;
        recipients.push(recipient);
        proof {
            assert(recipients_of(recipients@) =~= before.push(this));
            let tail = read_recipients(data@.skip(after as int), (count - i - 1) as nat);
            if tail is Ok {
                assert(before + (seq![this] + tail->Ok_0.0) =~= before.push(this) + tail->Ok_0.0);
            }
        }
        next = after;
        i = i + 1;
    }
    proof {
        assert(recipients_of(recipients@) + Seq::empty() =~= recipients_of(recipients@));
    }
    Ok((KeySource::Recipients(recipients), next))
}

/// The policy on recipients: at most 64 of them, identifiers of at most 256 bytes,
/// wrapped keys of at most 1024, and nothing else.
pub proof fn law_policy_on_recipients(recipients: Seq<RecipientView>)
    ensures
        recipients_wf(recipients) <==> recipients.len() <= 64 && forall|i: int|
            0 <= i < recipients.len() ==> (#[trigger] recipients[i]).recipient_id.len() <= 256
                && recipients[i].wrapped_key.len() <= 1024,
{
    if forall|i: int|
        0 <= i < recipients.len() ==> (#[trigger] recipients[i]).recipient_id.len() <= 256
            && recipients[i].wrapped_key.len() <= 1024 {
        assert forall|i: int| 0 <= i < recipients.len() implies (
        #[trigger] recipients[i]).wf() by {
            assert(recipients[i].recipient_id.len() <= 256);
        }
    }
}

/// Which version 2 headers are valid.
pub proof fn law_valid_v2_headers(header: HeaderV2View)
    ensures
        header.wf() <==> header.plan().wf() && match header.key_source {
            KeySourceView::Password { salt, .. } => salt.len() == 16,
            KeySourceView::Recipients(recipients) => recipients.len() <= 64 && forall|i: int|
                0 <= i < recipients.len() ==> (#[trigger] recipients[i]).recipient_id.len() <= 256
                    && recipients[i].wrapped_key.len() <= 1024,
        },
{
    if let KeySourceView::Recipients(recipients) = header.key_source {
        law_policy_on_recipients(recipients);
    }
}

/// The bytes of a version 2 header.
pub proof fn law_v2_header_layout(header: HeaderV2View)
    ensures
        ({
            let source = match header.key_source {
                KeySourceView::Password { salt, argon2_params } => seq![0u8] + salt + bytes::be(
                    argon2_params.memory_kib as nat,
                    4,
                ) + bytes::be(argon2_params.iterations as nat, 4) + seq![
                    argon2_params.parallelism,
                ],
                KeySourceView::Recipients(recipients) => seq![1u8] + bytes::be(
                    recipients.len(),
                    2,
                ) + recipients.map_values(
                    |recipient: RecipientView|
                        bytes::be(recipient.recipient_id.len(), 2) + recipient.recipient_id
                            + bytes::be(recipient.wrapped_key.len(), 2) + recipient.wrapped_key,
                ).flatten(),
            };
            header.encode() == seq![0x45u8, 0x4eu8, 0x43u8, 0x31u8, 2u8] + source
                + header.base_nonce + bytes::be(header.chunk_size as nat, 4) + bytes::be(
                header.total_chunks as nat,
                8,
            ) + bytes::be(header.total_plaintext_size as nat, 8)
        }),
{
    let source = match header.key_source {
        KeySourceView::Password { salt, argon2_params } => seq![0u8] + salt + bytes::be(
            argon2_params.memory_kib as nat,
            4,
        ) + bytes::be(argon2_params.iterations as nat, 4) + seq![argon2_params.parallelism],
        KeySourceView::Recipients(recipients) => seq![1u8] + bytes::be(recipients.len(), 2)
            + recipients.map_values(
            |recipient: RecipientView|
                bytes::be(recipient.recipient_id.len(), 2) + recipient.recipient_id + bytes::be(
                    recipient.wrapped_key.len(),
                    2,
                ) + recipient.wrapped_key,
        ).flatten(),
    };
    if let KeySourceView::Recipients(recipients) = header.key_source {
        lemma_recipients_one_by_one(recipients);
    }
    assert(source =~= header.key_source.encode());
    assert(MAGIC@ + seq![FORMAT_VERSION_V2] =~= seq![0x45u8, 0x4eu8, 0x43u8, 0x31u8, 2u8]);
    let start = MAGIC@ + seq![FORMAT_VERSION_V2] + source;
    let (a, b, c, d) = (
        header.base_nonce,
        bytes::be(header.chunk_size as nat, 4),
        bytes::be(header.total_chunks as nat, 8),
        bytes::be(header.total_plaintext_size as nat, 8),
    );
    assert(start + (a + b + c + d) =~= start + a + b + c + d);
}

proof fn lemma_recipients_one_by_one(recipients: Seq<RecipientView>)
    ensures
        encode_recipients(recipients) == recipients.map_values(
            |recipient: RecipientView|
                bytes::be(recipient.recipient_id.len(), 2) + recipient.recipient_id + bytes::be(
                    recipient.wrapped_key.len(),
                    2,
                ) + recipient.wrapped_key,
        ).flatten(),
    decreases recipients.len(),
{
    let of = |recipient: RecipientView|
        bytes::be(recipient.recipient_id.len(), 2) + recipient.recipient_id + bytes::be(
            recipient.wrapped_key.len(),
            2,
        ) + recipient.wrapped_key;
    let all = recipients.map_values(of);
    if recipients.len() > 0 {
        lemma_recipients_one_by_one(recipients.drop_first());
        assert(all.drop_first() =~= recipients.drop_first().map_values(of));
        assert(all.first() == recipients[0].encode());
    } else {
        assert(all =~= Seq::empty());
        assert(all.flatten() =~= Seq::<u8>::empty());
    }
}

/// A version 2 header is accepted exactly if its fields are valid and the bytes start
/// with those it is written as.
pub proof fn law_v2_header_is_read_as_it_is_written(
    data: Seq<u8>,
    header: HeaderV2View,
    more: Seq<u8>,
)
    ensures
        read_header_v2(data) == Ok::<(HeaderV2View, Seq<u8>), FormatError>((header, more))
            <==> header.wf() && data == header.encode() + more,
{
    if read_header_v2(data) == Ok::<(HeaderV2View, Seq<u8>), FormatError>((header, more)) {
        law_accepted_header(data, 0);
    }
    if header.wf() && data == header.encode() + more {
        law_read_of_encode(header, more);
    }
}

/// Bytes that do not start as a version 2 header does are no header, and fewer than
/// six are truncated.
pub proof fn law_start_of_a_v2_header(data: Seq<u8>)
    ensures
        data.len() < 6 ==> read_header_v2(data) == Err::<(HeaderV2View, Seq<u8>), FormatError>(
            FormatError::Truncated,
        ),
        data.len() >= 6 && (data.take(4) != seq![0x45u8, 0x4eu8, 0x43u8, 0x31u8] || data[4] != 2
            || data[5] > 1) ==> read_header_v2(data) == Err::<
            (HeaderV2View, Seq<u8>),
            FormatError,
        >(FormatError::InvalidHeader),
        read_header_v2(data) is Err ==> read_header_v2(data)->Err_0 == FormatError::Truncated
            || read_header_v2(data)->Err_0 == FormatError::InvalidHeader,
{
    reveal(read_header_v2);
    assert(MAGIC@ =~= seq![0x45u8, 0x4eu8, 0x43u8, 0x31u8]);
    if data.len() >= 6 && data[5] == 1 {
        let rest = data.skip(PREFIX_LEN as int);
        if rest.len() >= 2 {
            lemma_recipients_fail_as_a_header(rest.skip(2), bytes::be_value(rest.take(2)));
        }
    }
}

proof fn lemma_recipients_fail_as_a_header(rest: Seq<u8>, count: nat)
    ensures
        read_recipients(rest, count) is Err ==> read_recipients(rest, count)->Err_0
            == FormatError::Truncated || read_recipients(rest, count)->Err_0
            == FormatError::InvalidHeader,
    decreases count,
{
    if count > 0 {
        if let Ok((_, after)) = read_recipient(rest) {
            lemma_recipients_fail_as_a_header(after, (count - 1) as nat);
        }
    }
}

/// Headers and recipients are what their fields say.
pub proof fn law_v2_header_fields(header: HeaderV2, recipients: Seq<Recipient>, i: int)
    ensures
        header@.base_nonce == header.base_nonce@,
        header@.chunk_size == header.chunk_size,
        header@.total_chunks == header.total_chunks,
        header@.total_plaintext_size == header.total_plaintext_size,
        match header.key_source {
            KeySource::Password { salt, argon2_params } => header@.key_source
                == (KeySourceView::Password { salt: salt@, argon2_params }),
            KeySource::Recipients(list) => header@.key_source == KeySourceView::Recipients(
                recipients_of(list@),
            ),
        },
        recipients_of(recipients).len() == recipients.len(),
        0 <= i < recipients.len() ==> recipients_of(recipients)[i].recipient_id
            == recipients[i].recipient_id@ && recipients_of(recipients)[i].wrapped_key
            == recipients[i].wrapped_key@,
{
}

} // verus!
