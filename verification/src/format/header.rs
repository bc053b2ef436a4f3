//! The header of a container whose key comes from a password.

use crate::bytes;
use crate::bytes::{copy_array, push_all, push_be, read_be};
use crate::crypto::{Argon2Params, NONCE_LEN, SALT_LEN};
use crate::format::plan;
use crate::format::plan::{ChunkPlan, PlanView};
use crate::format::{FormatError, DEFAULT_CHUNK_SIZE, FORMAT_VERSION, HEADER_FIXED_LEN, MAGIC};
use vstd::prelude::*;

verus! {

/// The header of a `.enc` container.
#[derive(Debug, Clone)]
pub struct Header {
    pub salt: [u8; SALT_LEN],
    pub argon2_params: Argon2Params,
    pub base_nonce: [u8; NONCE_LEN],
    pub chunk_size: u32,
    pub total_chunks: u64,
    pub total_plaintext_size: u64,
}

/// What a header declares.
#[verifier::ext_equal]
pub struct HeaderView {
    pub salt: Seq<u8>,
    pub argon2_params: Argon2Params,
    pub base_nonce: Seq<u8>,
    pub chunk_size: u32,
    pub total_chunks: u64,
    pub total_plaintext_size: u64,
}

impl View for Header {
    type V = HeaderView;

    open spec fn view(&self) -> HeaderView {
        HeaderView {
            salt: self.salt@,
            argon2_params: self.argon2_params,
            base_nonce: self.base_nonce@,
            chunk_size: self.chunk_size,
            total_chunks: self.total_chunks,
            total_plaintext_size: self.total_plaintext_size,
        }
    }
}

impl HeaderView {
    /// How the plaintext is cut.
    pub open spec fn plan(self) -> PlanView {
        PlanView {
            base_nonce: self.base_nonce,
            chunk_size: self.chunk_size as nat,
            total_chunks: self.total_chunks as nat,
            size: self.total_plaintext_size as nat,
        }
    }

    /// The fields have their lengths and the sizes agree with each other.
    pub open spec fn wf(self) -> bool {
        &&& self.salt.len() == SALT_LEN
        &&& self.plan().wf()
    }

    /// The 62 bytes of the header, all integers big-endian.
    pub open spec fn encode(self) -> Seq<u8> {
        MAGIC@ + seq![FORMAT_VERSION] + self.salt + bytes::be(
            self.argon2_params.memory_kib as nat,
            4,
        ) + bytes::be(self.argon2_params.iterations as nat, 4)
            + seq![self.argon2_params.parallelism] + self.base_nonce + bytes::be(
            self.chunk_size as nat,
            4,
        ) + bytes::be(self.total_chunks as nat, 8) + bytes::be(
            self.total_plaintext_size as nat,
            8,
        )
    }
}

/// The fields that 62 bytes spell, whatever they are.
pub open spec fn header_fields(buf: Seq<u8>) -> HeaderView {
    HeaderView {
        salt: buf.subrange(5, 21),
        argon2_params: Argon2Params {
            memory_kib: bytes::be_value(buf.subrange(21, 25)) as u32,
            iterations: bytes::be_value(buf.subrange(25, 29)) as u32,
            parallelism: buf[29],
        },
        base_nonce: buf.subrange(30, 42),
        chunk_size: bytes::be_value(buf.subrange(42, 46)) as u32,
        total_chunks: bytes::be_value(buf.subrange(46, 54)) as u64,
        total_plaintext_size: bytes::be_value(buf.subrange(54, 62)) as u64,
    }
}

/// The header that 62 bytes hold: nothing unless they start with the magic and
/// the version, and declare sizes that agree with each other.
pub open spec fn decode_header(buf: Seq<u8>) -> Option<HeaderView> {
    if buf.len() == HEADER_FIXED_LEN && buf.subrange(0, 4) == MAGIC@ && buf[4] == FORMAT_VERSION
        && header_fields(buf).wf() {
        Some(header_fields(buf))
    } else {
        None
    }
}

proof fn lemma_encoded_fields(header: HeaderView)
    requires
        header.salt.len() == SALT_LEN,
        header.base_nonce.len() == NONCE_LEN,
    ensures
        header.encode().len() == HEADER_FIXED_LEN,
        header.encode().subrange(0, 4) == MAGIC@,
        header.encode()[4] == FORMAT_VERSION,
        header_fields(header.encode()) == header,
{
    let encoded = header.encode();
    let memory = header.argon2_params.memory_kib as nat;
    let iterations = header.argon2_params.iterations as nat;
    bytes::lemma_pow256_values();
    bytes::lemma_be_value_of_be(memory, 4);
    bytes::lemma_be_value_of_be(iterations, 4);
    bytes::lemma_be_value_of_be(header.chunk_size as nat, 4);
    bytes::lemma_be_value_of_be(header.total_chunks as nat, 8);
    bytes::lemma_be_value_of_be(header.total_plaintext_size as nat, 8);
    assert(encoded.subrange(0, 4) =~= MAGIC@);
    assert(encoded.subrange(5, 21) =~= header.salt);
    assert(encoded.subrange(21, 25) =~= bytes::be(memory, 4));
    assert(encoded.subrange(25, 29) =~= bytes::be(iterations, 4));
    assert(encoded[29] == header.argon2_params.parallelism);
    assert(encoded.subrange(30, 42) =~= header.base_nonce);
    assert(encoded.subrange(42, 46) =~= bytes::be(header.chunk_size as nat, 4));
    assert(encoded.subrange(46, 54) =~= bytes::be(header.total_chunks as nat, 8));
    assert(encoded.subrange(54, 62) =~= bytes::be(header.total_plaintext_size as nat, 8));
    assert(header_fields(encoded) =~= header);
}

/// A header that is written reads back as itself.
pub proof fn law_decode_of_encode(header: HeaderView)
    requires
        header.wf(),
    ensures
        decode_header(header.encode()) == Some(header),
        header.encode().len() == HEADER_FIXED_LEN,
{
    lemma_encoded_fields(header);
}

/// The bytes of an accepted header are exactly the ones it is written as.
pub proof fn law_encode_of_decode(buf: Seq<u8>)
    requires
        decode_header(buf) is Some,
    ensures
        decode_header(buf)->Some_0.encode() == buf,
        decode_header(buf)->Some_0.wf(),
{
    let header = decode_header(buf)->Some_0;
    bytes::lemma_pow256_values();
    let s1 = buf.subrange(21, 25);
    let s2 = buf.subrange(25, 29);
    let s3 = buf.subrange(42, 46);
    let s4 = buf.subrange(46, 54);
    let s5 = buf.subrange(54, 62);
    bytes::lemma_be_value_bound(s1);
    bytes::lemma_be_value_bound(s2);
    bytes::lemma_be_value_bound(s3);
    bytes::lemma_be_value_bound(s4);
    bytes::lemma_be_value_bound(s5);
    bytes::lemma_be_of_be_value(s1);
    bytes::lemma_be_of_be_value(s2);
    bytes::lemma_be_of_be_value(s3);
    bytes::lemma_be_of_be_value(s4);
    bytes::lemma_be_of_be_value(s5);
    let encoded = header.encode();
    assert(encoded.len() == 62);
    assert forall|i: int| 0 <= i < 62 implies encoded[i] == buf[i] by {
        if i < 4 {
            assert(buf.subrange(0, 4)[i] == buf[i]);
        } else if 21 <= i < 25 {
            assert(s1[i - 21] == buf[i]);
        } else if 25 <= i < 29 {
            assert(s2[i - 25] == buf[i]);
        } else if 42 <= i < 46 {
            assert(s3[i - 42] == buf[i]);
        } else if 46 <= i < 54 {
            assert(s4[i - 46] == buf[i]);
        } else if 54 <= i {
            assert(s5[i - 54] == buf[i]);
        }
    }
    assert(encoded =~= buf);
}

/// A header whose magic or version is altered is refused, whatever the rest.
pub proof fn law_altered_magic_or_version_is_refused(buf: Seq<u8>)
    requires
        buf.len() == HEADER_FIXED_LEN,
        buf[0] != MAGIC@[0] || buf[1] != MAGIC@[1] || buf[2] != MAGIC@[2] || buf[3] != MAGIC@[3]
            || buf[4] != FORMAT_VERSION,
    ensures
        decode_header(buf) is None,
{
    assert(buf.subrange(0, 4)[0] == buf[0]);
    assert(buf.subrange(0, 4)[1] == buf[1]);
    assert(buf.subrange(0, 4)[2] == buf[2]);
    assert(buf.subrange(0, 4)[3] == buf[3]);
}

impl Header {
    /// The header of a plaintext of `size` bytes cut into chunks of 1 MiB.
    pub fn for_plaintext(
        salt: [u8; SALT_LEN],
        argon2_params: Argon2Params,
        base_nonce: [u8; NONCE_LEN],
        size: u64,
    ) -> (header: Self)
        ensures
            header@ == (HeaderView {
                salt: salt@,
                argon2_params,
                base_nonce: base_nonce@,
                chunk_size: DEFAULT_CHUNK_SIZE,
                total_chunks: plan::chunk_count(size as nat, DEFAULT_CHUNK_SIZE as nat) as u64,
                total_plaintext_size: size,
            }),
            header@.total_chunks == plan::chunk_count(size as nat, DEFAULT_CHUNK_SIZE as nat),
            header@.wf() <==> plan::size_fits(size as nat, DEFAULT_CHUNK_SIZE as nat),
    {
        let total_chunks: u64 = plan::count_chunks(size, DEFAULT_CHUNK_SIZE);
        Header {
            salt,
            argon2_params,
            base_nonce,
            chunk_size: DEFAULT_CHUNK_SIZE,
            total_chunks,
            total_plaintext_size: size,
        }
    }

    /// The bytes of the header, without its tag.
    pub fn to_bytes(&self) -> (buf: Vec<u8>)
        ensures
            buf@ == self@.encode(),
            buf@.len() == HEADER_FIXED_LEN,
    {
        let mut buf: Vec<u8> = Vec::with_capacity(HEADER_FIXED_LEN);
        push_all(&mut buf, &MAGIC);
        buf.push(FORMAT_VERSION);
        push_all(&mut buf, &self.salt);
        push_be(&mut buf, self.argon2_params.memory_kib as u64, 4);
        push_be(&mut buf, self.argon2_params.iterations as u64, 4);
        buf.push(self.argon2_params.parallelism);
        push_all(&mut buf, &self.base_nonce);
        push_be(&mut buf, self.chunk_size as u64, 4);
        push_be(&mut buf, self.total_chunks, 8);
        push_be(&mut buf, self.total_plaintext_size, 8);
        proof {
            assert(buf@ =~= self@.encode());
            lemma_encoded_fields(self@);
        }
        buf
    }

    /// Reads a header. The magic, the version, the bounds on the chunk size and
    /// the agreement between the sizes are all checked.
    pub fn from_bytes(buf: &[u8; HEADER_FIXED_LEN]) -> (result: Result<Self, FormatError>)
        ensures
            match result {
                Ok(header) => decode_header(buf@) == Some(header@),
                Err(error) => decode_header(buf@) is None && error == FormatError::InvalidHeader,
            },
    {
        proof {
            bytes::lemma_pow256_values();
            assert(buf@.subrange(0, 4)[0] == buf@[0]);
            assert(buf@.subrange(0, 4)[1] == buf@[1]);
            assert(buf@.subrange(0, 4)[2] == buf@[2]);
            assert(buf@.subrange(0, 4)[3] == buf@[3]);
        }
        if buf[0] != MAGIC[0] || buf[1] != MAGIC[1] || buf[2] != MAGIC[2] || buf[3] != MAGIC[3] {
            return Err(FormatError::InvalidHeader);
        }
        proof {
            assert(buf@.subrange(0, 4) =~= MAGIC@);
        }
        if buf[4] != FORMAT_VERSION {
            return Err(FormatError::InvalidHeader);
        }
        let salt: [u8; SALT_LEN] = copy_array(buf, 5);
        let memory_kib: u32 = read_be(buf, 21, 4) as u32;
        let iterations: u32 = read_be(buf, 25, 4) as u32;
        let parallelism: u8 = buf[29];
        let base_nonce: [u8; NONCE_LEN] = copy_array(buf, 30);
        let chunk_size: u32 = read_be(buf, 42, 4) as u32;
        let total_chunks: u64 = read_be(buf, 46, 8);
        let total_plaintext_size: u64 = read_be(buf, 54, 8);
        let header = Header {
            salt,
            argon2_params: Argon2Params { memory_kib, iterations, parallelism },
            base_nonce,
            chunk_size,
            total_chunks,
            total_plaintext_size,
        };
        assert(header@ =~= header_fields(buf@));
        if !plan::sizes_agree(chunk_size, total_chunks, total_plaintext_size) {
            return Err(FormatError::InvalidHeader);
        }
        Ok(header)
    }

    /// How the plaintext is cut.
    pub fn plan(&self) -> (plan: ChunkPlan)
        ensures
            plan@ == self@.plan(),
    {
        ChunkPlan {
            base_nonce: self.base_nonce,
            chunk_size: self.chunk_size,
            total_chunks: self.total_chunks,
            total_plaintext_size: self.total_plaintext_size,
        }
    }
}

/// Where the fields of a header lie.
pub proof fn law_header_layout(header: HeaderView)
    requires
        header.salt.len() == 16,
        header.base_nonce.len() == 12,
    ensures
        ({
            let encoded = header.encode();
            &&& encoded.len() == 62
            &&& encoded.subrange(0, 5) == seq![0x45u8, 0x4eu8, 0x43u8, 0x31u8, 1u8]
            &&& encoded.subrange(5, 21) == header.salt
            &&& encoded.subrange(21, 25) == bytes::be(header.argon2_params.memory_kib as nat, 4)
            &&& encoded.subrange(25, 29) == bytes::be(header.argon2_params.iterations as nat, 4)
            &&& encoded[29] == header.argon2_params.parallelism
            &&& encoded.subrange(30, 42) == header.base_nonce
            &&& encoded.subrange(42, 46) == bytes::be(header.chunk_size as nat, 4)
            &&& encoded.subrange(46, 54) == bytes::be(header.total_chunks as nat, 8)
            &&& encoded.subrange(54, 62) == bytes::be(header.total_plaintext_size as nat, 8)
        }),
{
    let encoded = header.encode();
    lemma_encoded_fields(header);
    bytes::lemma_be_len(header.argon2_params.memory_kib as nat, 4);
    bytes::lemma_be_len(header.argon2_params.iterations as nat, 4);
    bytes::lemma_be_len(header.chunk_size as nat, 4);
    bytes::lemma_be_len(header.total_chunks as nat, 8);
    bytes::lemma_be_len(header.total_plaintext_size as nat, 8);
    assert(encoded.subrange(0, 5) =~= seq![0x45u8, 0x4eu8, 0x43u8, 0x31u8, 1u8]);
    assert(encoded.subrange(21, 25) =~= bytes::be(header.argon2_params.memory_kib as nat, 4));
    assert(encoded.subrange(25, 29) =~= bytes::be(header.argon2_params.iterations as nat, 4));
    assert(encoded.subrange(42, 46) =~= bytes::be(header.chunk_size as nat, 4));
    assert(encoded.subrange(46, 54) =~= bytes::be(header.total_chunks as nat, 8));
    assert(encoded.subrange(54, 62) =~= bytes::be(header.total_plaintext_size as nat, 8));
}

/// A header is what its fields say.
pub proof fn law_header_fields(header: Header)
    ensures
        header@.salt == header.salt@,
        header@.argon2_params == header.argon2_params,
        header@.base_nonce == header.base_nonce@,
        header@.chunk_size == header.chunk_size,
        header@.total_chunks == header.total_chunks,
        header@.total_plaintext_size == header.total_plaintext_size,
{
}

} // verus!
