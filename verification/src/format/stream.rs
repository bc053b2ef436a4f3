//! Writing and reading a container one chunk at a time.
//!
//! The caller does the input and output: it hands over the bytes that it read,
//! and writes the bytes that it is given.

use crate::crypto;
use crate::crypto::{decrypt_buffer, encrypt_buffer, DerivedKey, Nonce, NONCE_LEN, TAG_LEN};
use crate::error::{IoError, IoErrorKind};
use crate::format::container;
use crate::format::container::{chunk_aad, derive_nonce, hash_header, HASH_LEN};
use crate::format::plan;
use crate::format::plan::{expected_plaintext_len, ChunkPlan, PlanView};
use crate::format::{FormatError, HEADER_NONCE_COUNTER, MAX_CHUNK_SIZE};
use crate::secret::SecretBytes;
use vstd::prelude::*;

verus! {

/// How far an operation has come, reported after each chunk.
#[derive(Debug, Clone, Copy)]
pub struct ProgressUpdate {
    /// Index of the chunk that was just dealt with, from 0.
    pub chunk_index: u64,
    /// Number of chunks in all.
    pub total_chunks: u64,
    /// Bytes of plaintext dealt with so far.
    pub bytes_done: u64,
    /// Bytes of plaintext in all.
    pub bytes_total: u64,
}

impl ProgressUpdate {
    /// This is the report that follows chunk `index` of `plan`.
    pub open spec fn reports(self, plan: PlanView, index: nat) -> bool {
        &&& self.chunk_index == index
        &&& self.total_chunks == plan.total_chunks
        &&& self.bytes_done == plan.chunk_start(index) + plan.chunk_len(index)
        &&& self.bytes_total == plan.size
    }
}

/// What the answer to a progress report means: going on, or stopping with
/// `Cancelled`.
pub fn check_cancelled(keep_going: bool) -> (result: Result<(), FormatError>)
    ensures
        result == (if keep_going {
            Ok::<(), FormatError>(())
        } else {
            Err::<(), FormatError>(FormatError::Cancelled)
        }),
{
    if keep_going {
        Ok(())
    } else {
        Err(FormatError::Cancelled)
    }
}

/// Encrypts a buffer that is short enough for AES-GCM.
fn seal(key: &DerivedKey, nonce: [u8; NONCE_LEN], plaintext: &[u8], aad: &[u8]) -> (sealed: Vec<u8>)
    requires
        plaintext@.len() <= MAX_CHUNK_SIZE,
        aad@.len() <= crypto::AEAD_MAX_AAD,
    ensures
        sealed@ == crypto::aes256gcm_seal(key@, nonce@, plaintext@, aad@),
        sealed@.len() == plaintext@.len() + TAG_LEN,
        crypto::aes256gcm_open(key@, nonce@, sealed@, aad@) == Some(plaintext@),
        forall|other: Seq<u8>|
            other.len() == sealed@.len() && other.take(plaintext@.len() as int) == sealed@.take(
                plaintext@.len() as int,
            ) && (#[trigger] crypto::aes256gcm_open(key@, nonce@, other, aad@)) is Some ==> other
                == sealed@,
{
    match encrypt_buffer(key, Nonce::from_raw_unchecked(nonce), plaintext, aad) {
        Ok(sealed) => sealed,
        Err(_) => vstd::pervasive::unreached(),
    }
}

/// The tag of a header under a key.
pub fn seal_header(key: &DerivedKey, base_nonce: &[u8; NONCE_LEN], header: &[u8]) -> (tag: Vec<u8>)
    requires
        header@.len() <= crypto::AEAD_MAX_AAD,
    ensures
        tag@ == container::header_tag(key@, base_nonce@, header@),
        tag@.len() == TAG_LEN,
        crypto::aes256gcm_open(
            key@,
            crypto::nonce_at(base_nonce@, HEADER_NONCE_COUNTER),
            tag@,
            header@,
        ) == Some(Seq::<u8>::empty()),
        forall|other: Seq<u8>|
            other.len() == TAG_LEN && (#[trigger] crypto::aes256gcm_open(
                key@,
                crypto::nonce_at(base_nonce@, HEADER_NONCE_COUNTER),
                other,
                header@,
            )) is Some ==> other == tag@,
{
    let nonce = derive_nonce(base_nonce, HEADER_NONCE_COUNTER);
    let empty: [u8; 0] = [];
    proof {
        assert(empty@ =~= Seq::<u8>::empty());
    }
    let tag = seal(key, nonce, &empty, header);
    proof {
        assert forall|other: Seq<u8>|
            other.len() == TAG_LEN && (#[trigger] crypto::aes256gcm_open(
                key@,
                nonce@,
                other,
                header@,
            )) is Some implies other == tag@ by {
            assert(other.take(0) =~= tag@.take(0));
        }
    }
    tag
}

/// Makes the encrypted chunks of a container, in order.
pub struct Encryptor {
    key: DerivedKey,
    plan: ChunkPlan,
    header_hash: [u8; HASH_LEN],
    index: u64,
}

impl Encryptor {
    pub closed spec fn key(&self) -> Seq<u8> {
        self.key@
    }

    pub closed spec fn plan(&self) -> PlanView {
        self.plan@
    }

    pub closed spec fn hash(&self) -> Seq<u8> {
        self.header_hash@
    }

    /// The chunk that comes next.
    pub closed spec fn index(&self) -> nat {
        self.index as nat
    }

    pub closed spec fn wf(&self) -> bool {
        &&& self.plan@.wf()
        &&& self.index <= self.plan.total_chunks
    }

    /// Every chunk has been made.
    pub open spec fn done(&self) -> bool {
        self.index() >= self.plan().total_chunks
    }

    /// Starts a container with the given header: returns the tag of the header,
    /// to be written after it, and what makes the chunks.
    pub fn new(key: DerivedKey, plan: ChunkPlan, header: &[u8]) -> (result: (Self, Vec<u8>))
        requires
            plan@.wf(),
            header@.len() <= crypto::AEAD_MAX_AAD,
        ensures
            result.0.wf(),
            result.0.key() == key@,
            result.0.plan() == plan@,
            result.0.hash() == container::header_hash(header@, result.1@),
            result.0.index() == 0,
            result.1@ == container::header_tag(key@, plan@.base_nonce, header@),
            result.1@.len() == TAG_LEN,
            crypto::aes256gcm_open(
                key@,
                crypto::nonce_at(plan@.base_nonce, HEADER_NONCE_COUNTER),
                result.1@,
                header@,
            ) == Some(Seq::<u8>::empty()),
            forall|other: Seq<u8>|
                other.len() == TAG_LEN && (#[trigger] crypto::aes256gcm_open(
                    key@,
                    crypto::nonce_at(plan@.base_nonce, HEADER_NONCE_COUNTER),
                    other,
                    header@,
                )) is Some ==> other == result.1@,
    {
        let tag = seal_header(&key, &plan.base_nonce, header);
        let header_hash = hash_header(header, tag.as_slice());
        (Encryptor { key, plan, header_hash, index: 0 }, tag)
    }

    pub fn is_done(&self) -> (done: bool)
        requires
            self.wf(),
        ensures
            done == self.done(),
    {
        self.index >= self.plan.total_chunks
    }

    /// How many bytes of plaintext the next chunk takes.
    pub fn wanted(&self) -> (len: usize)
        requires
            self.wf(),
            !self.done(),
        ensures
            len == self.plan().chunk_len(self.index()),
            len <= MAX_CHUNK_SIZE,
    {
        expected_plaintext_len(&self.plan, self.index) as usize
    }

    /// Encrypts the next chunk. `plaintext` is what could be read of the
    /// [`Self::wanted`] bytes; if it is shorter the source has shrunk meanwhile,
    /// and nothing changes.
    pub fn seal_chunk(&mut self, plaintext: &[u8]) -> (result: Result<
        (Vec<u8>, ProgressUpdate),
        FormatError,
    >)
        requires
            old(self).wf(),
            !old(self).done(),
            plaintext@.len() <= old(self).plan().chunk_len(old(self).index()),
        ensures
            final(self).wf(),
            final(self).key() == old(self).key(),
            final(self).plan() == old(self).plan(),
            final(self).hash() == old(self).hash(),
            match result {
                Ok((sealed, progress)) => {
                    &&& plaintext@.len() == old(self).plan().chunk_len(old(self).index())
                    &&& final(self).index() == old(self).index() + 1
                    &&& sealed@ == container::sealed_chunk(
                        old(self).key(),
                        old(self).plan(),
                        old(self).hash(),
                        old(self).index(),
                        plaintext@,
                    )
                    &&& sealed@.len() == plaintext@.len() + TAG_LEN
                    &&& container::opened_chunk(
                        old(self).key(),
                        old(self).plan(),
                        old(self).hash(),
                        old(self).index(),
                        sealed@,
                    ) == Some(plaintext@)
                    &&& forall|other: Seq<u8>|
                        other.len() == sealed@.len() && other.take(plaintext@.len() as int)
                            == sealed@.take(plaintext@.len() as int) && (
                        #[trigger] container::opened_chunk(
                            old(self).key(),
                            old(self).plan(),
                            old(self).hash(),
                            old(self).index(),
                            other,
                        )) is Some ==> other == sealed@
                    &&& progress.reports(old(self).plan(), old(self).index())
                },
                Err(error) => {
                    &&& plaintext@.len() < old(self).plan().chunk_len(old(self).index())
                    &&& final(self).index() == old(self).index()
                    &&& error matches FormatError::Io(e) && e.kind == IoErrorKind::UnexpectedEof
                        && e.message@
                        == "le fichier source est plus court que sa taille initiale"@
                },
            },
    {
        let index: u64 = self.index;
        let want: u64 = expected_plaintext_len(&self.plan, index);
        proof {
            plan::lemma_chunk_bounds(self.plan@, index as nat);
        }
        if (plaintext.len() as u64) < want {
            return Err(
                FormatError::Io(
                    IoError::new(
                        IoErrorKind::UnexpectedEof,
                        "le fichier source est plus court que sa taille initiale",
                    ),
                ),
            );
        }
        let is_last: bool = index + 1 >= self.plan.total_chunks;
        let nonce = derive_nonce(&self.plan.base_nonce, index);
        let aad = chunk_aad(&self.header_hash, index, is_last);
        let sealed = seal(&self.key, nonce, plaintext, aad.as_slice());
        self.index = index + 1;
        let progress = ProgressUpdate {
            chunk_index: index,
            total_chunks: self.plan.total_chunks,
            bytes_done: self.plan.chunk_size as u64 * index + want,
            bytes_total: self.plan.total_plaintext_size,
        };
        Ok((sealed, progress))
    }
}

/// Opens the encrypted chunks of a container, in order.
pub struct Decryptor {
    key: DerivedKey,
    plan: ChunkPlan,
    header_hash: [u8; HASH_LEN],
    index: u64,
}

impl Decryptor {
    pub closed spec fn key(&self) -> Seq<u8> {
        self.key@
    }

    pub closed spec fn plan(&self) -> PlanView {
        self.plan@
    }

    pub closed spec fn hash(&self) -> Seq<u8> {
        self.header_hash@
    }

    /// The chunk that comes next.
    pub closed spec fn index(&self) -> nat {
        self.index as nat
    }

    pub closed spec fn wf(&self) -> bool {
        &&& self.plan@.wf()
        &&& self.index <= self.plan.total_chunks
    }

    /// Every chunk has been read.
    pub open spec fn done(&self) -> bool {
        self.index() >= self.plan().total_chunks
    }

    /// What reading the rest of the container gives.
    pub open spec fn outcome(&self, rest: Seq<u8>) -> Result<Seq<u8>, FormatError> {
        container::open_chunks(self.key(), self.plan(), self.hash(), self.index(), rest)
    }

    /// Checks the tag of a header before anything else is read. `tag` is what
    /// could be read of its 16 bytes. A tag that does not authenticate the header is
    /// what a wrong key looks like.
    pub fn new(key: DerivedKey, plan: ChunkPlan, header: &[u8], tag: &[u8]) -> (result: Result<
        Self,
        FormatError,
    >)
        requires
            plan@.wf(),
            tag@.len() <= TAG_LEN,
        ensures
            match result {
                Ok(decryptor) => {
                    &&& decryptor.wf()
                    &&& decryptor.key() == key@
                    &&& decryptor.plan() == plan@
                    &&& decryptor.hash() == container::header_hash(header@, tag@)
                    &&& decryptor.index() == 0
                    &&& tag@.len() == TAG_LEN
                    &&& crypto::aes256gcm_open(
                        key@,
                        crypto::nonce_at(plan@.base_nonce, HEADER_NONCE_COUNTER),
                        tag@,
                        header@,
                    ) is Some
                    &&& tag@ == container::header_tag(key@, plan@.base_nonce, header@)
                },
                Err(error) => error == (if tag@.len() < TAG_LEN {
                    FormatError::Truncated
                } else {
                    FormatError::WrongPassword
                }),
            },
            tag@.len() == TAG_LEN && crypto::aes256gcm_open(
                key@,
                crypto::nonce_at(plan@.base_nonce, HEADER_NONCE_COUNTER),
                tag@,
                header@,
            ) is Some ==> result is Ok,
    {
        if tag.len() < TAG_LEN {
            return Err(FormatError::Truncated);
        }
        let nonce = derive_nonce(&plan.base_nonce, HEADER_NONCE_COUNTER);
        match decrypt_buffer(&key, Nonce::from_raw_unchecked(nonce), tag, header) {
            Ok(empty) => {
                proof {
                    assert(empty@ =~= Seq::<u8>::empty());
                }
            },
            Err(_) => {
                return Err(FormatError::WrongPassword);
            },
        }
        let header_hash = hash_header(header, tag);
        Ok(Decryptor { key, plan, header_hash, index: 0 })
    }

    pub fn is_done(&self) -> (done: bool)
        requires
            self.wf(),
        ensures
            done == self.done(),
    {
        self.index >= self.plan.total_chunks
    }

    /// How many bytes the next encrypted chunk has, its tag included.
    pub fn wanted(&self) -> (len: usize)
        requires
            self.wf(),
            !self.done(),
        ensures
            len == self.plan().chunk_len(self.index()) + TAG_LEN,
            len <= MAX_CHUNK_SIZE + TAG_LEN,
    {
        expected_plaintext_len(&self.plan, self.index) as usize + TAG_LEN
    }

    /// Opens the next chunk. `ciphertext` is what could be read of the
    /// [`Self::wanted`] bytes; if it is shorter the container is truncated.
    pub fn open_chunk(&mut self, ciphertext: &[u8]) -> (result: Result<
        (SecretBytes, ProgressUpdate),
        FormatError,
    >)
        requires
            old(self).wf(),
            !old(self).done(),
            ciphertext@.len() <= old(self).plan().chunk_len(old(self).index()) + TAG_LEN,
        ensures
            final(self).wf(),
            final(self).key() == old(self).key(),
            final(self).plan() == old(self).plan(),
            final(self).hash() == old(self).hash(),
            match result {
                Ok((plaintext, progress)) => {
                    &&& ciphertext@.len() == old(self).plan().chunk_len(old(self).index())
                        + TAG_LEN
                    &&& final(self).index() == old(self).index() + 1
                    &&& container::opened_chunk(
                        old(self).key(),
                        old(self).plan(),
                        old(self).hash(),
                        old(self).index(),
                        ciphertext@,
                    ) == Some(plaintext@)
                    &&& plaintext@.len() + TAG_LEN == ciphertext@.len()
                    &&& ciphertext@ == container::sealed_chunk(
                        old(self).key(),
                        old(self).plan(),
                        old(self).hash(),
                        old(self).index(),
                        plaintext@,
                    )
                    &&& progress.reports(old(self).plan(), old(self).index())
                    &&& forall|rest: Seq<u8>| #[trigger]
                        old(self).outcome(ciphertext@ + rest) == container::prepend(
                            plaintext@,
                            final(self).outcome(rest),
                        )
                },
                Err(error) => {
                    &&& final(self).index() == old(self).index()
                    &&& if ciphertext@.len() < old(self).plan().chunk_len(old(self).index())
                        + TAG_LEN {
                        error == FormatError::Truncated
                    } else {
                        &&& error == FormatError::Corrupted
                        &&& container::opened_chunk(
                            old(self).key(),
                            old(self).plan(),
                            old(self).hash(),
                            old(self).index(),
                            ciphertext@,
                        ) is None
                    }
                },
            },
    {
        let index: u64 = self.index;
        let want: u64 = expected_plaintext_len(&self.plan, index);
        proof {
            plan::lemma_chunk_bounds(self.plan@, index as nat);
        }
        if ciphertext.len() < want as usize + TAG_LEN {
            return Err(FormatError::Truncated);
        }
        let is_last: bool = index + 1 >= self.plan.total_chunks;
        let nonce = derive_nonce(&self.plan.base_nonce, index);
        let aad = chunk_aad(&self.header_hash, index, is_last);
        let plaintext = match decrypt_buffer(
            &self.key,
            Nonce::from_raw_unchecked(nonce),
            ciphertext,
            aad.as_slice(),
        ) {
            Ok(plaintext) => plaintext,
            Err(_) => {
                return Err(FormatError::Corrupted);
            },
        };
        self.index = index + 1;
        let progress = ProgressUpdate {
            chunk_index: index,
            total_chunks: self.plan.total_chunks,
            bytes_done: self.plan.chunk_size as u64 * index + want,
            bytes_total: self.plan.total_plaintext_size,
        };
        proof {
            assert forall|rest: Seq<u8>| #[trigger]
                old(self).outcome(ciphertext@ + rest) == container::prepend(
                    plaintext@,
                    self.outcome(rest),
                ) by {
                assert((ciphertext@ + rest).take(want + TAG_LEN) =~= ciphertext@);
                assert((ciphertext@ + rest).skip(want + TAG_LEN) =~= rest);
            }
        }
        Ok((plaintext, progress))
    }

    /// Ends the reading once every chunk has been read. A container that goes
    /// on after its last chunk is corrupted.
    pub fn finish(&self, trailing: bool) -> (result: Result<(), FormatError>)
        requires
            self.wf(),
            self.done(),
        ensures
            result == (if trailing {
                Err::<(), FormatError>(FormatError::Corrupted)
            } else {
                Ok::<(), FormatError>(())
            }),
    {
        if trailing {
            Err(FormatError::Corrupted)
        } else {
            Ok(())
        }
    }
}

/// What is reported after a chunk: its index, the number of chunks, how far into the
/// plaintext it ends, and how long the plaintext is. After the last chunk all of it is
/// done.
pub proof fn law_progress(progress: ProgressUpdate, plan: PlanView, index: nat)
    requires
        plan.wf(),
        index < plan.total_chunks,
        progress.reports(plan, index),
    ensures
        progress.chunk_index == index,
        progress.total_chunks == plan.total_chunks,
        progress.bytes_total == plan.size,
        progress.bytes_done == (if index + 1 < plan.total_chunks {
            plan.chunk_size * (index + 1)
        } else {
            plan.size
        }),
{
    plan::lemma_chunk_bounds(plan, index);
}

} // verus!
