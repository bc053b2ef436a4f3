//! How a plaintext is cut into chunks.

use crate::crypto::NONCE_LEN;
use crate::format::{MAX_CHUNK_SIZE, MIN_CHUNK_SIZE};
use vstd::prelude::*;

verus! {

/// How many chunks a plaintext of `size` bytes makes. An empty plaintext still
/// makes one (empty) chunk.
pub open spec fn chunk_count(size: nat, chunk_size: nat) -> nat {
    if size == 0 {
        1
    } else {
        ((size + chunk_size - 1) as nat) / chunk_size
    }
}

/// A plaintext of `size` bytes can be cut into chunks of `chunk_size` bytes with
/// the sizes computed on 64 bits.
pub open spec fn size_fits(size: nat, chunk_size: nat) -> bool {
    size + chunk_size <= u64::MAX
}

/// How a plaintext is cut into chunks, and the nonce their nonces derive from.
#[verifier::ext_equal]
pub struct PlanView {
    pub base_nonce: Seq<u8>,
    pub chunk_size: nat,
    pub total_chunks: nat,
    pub size: nat,
}

impl PlanView {
    /// The chunk size is within the policy, the chunks cover the plaintext, and
    /// the sizes can be computed with on 64 bits.
    pub open spec fn wf(self) -> bool {
        &&& self.base_nonce.len() == NONCE_LEN
        &&& MIN_CHUNK_SIZE <= self.chunk_size <= MAX_CHUNK_SIZE
        &&& size_fits(self.size, self.chunk_size)
        &&& self.total_chunks == chunk_count(self.size, self.chunk_size)
    }

    pub open spec fn is_last(self, index: nat) -> bool {
        index + 1 >= self.total_chunks
    }

    /// Where chunk `index` starts in the plaintext.
    pub open spec fn chunk_start(self, index: nat) -> nat {
        self.chunk_size * index
    }

    /// How long chunk `index` is: the declared size, or what is left for the
    /// last one.
    pub open spec fn chunk_len(self, index: nat) -> nat {
        if self.is_last(index) {
            if self.size >= self.chunk_start(index) {
                (self.size - self.chunk_start(index)) as nat
            } else {
                0
            }
        } else {
            self.chunk_size
        }
    }

    /// The part of `data` that chunk `index` holds.
    pub open spec fn chunk(self, data: Seq<u8>, index: nat) -> Seq<u8> {
        data.subrange(
            self.chunk_start(index) as int,
            (self.chunk_start(index) + self.chunk_len(index)) as int,
        )
    }
}

/// The chunks follow each other without a gap and the last one ends where the
/// plaintext ends.
pub proof fn lemma_chunk_bounds(plan: PlanView, index: nat)
    requires
        plan.wf(),
        index < plan.total_chunks,
    ensures
        plan.chunk_len(index) <= plan.chunk_size,
        plan.chunk_start(index) <= plan.size,
        plan.chunk_start(index) + plan.chunk_len(index) <= plan.size,
        plan.is_last(index) ==> plan.chunk_start(index) + plan.chunk_len(index) == plan.size,
        !plan.is_last(index) ==> plan.chunk_start(index) + plan.chunk_len(index)
            == plan.chunk_start(index + 1),
        plan.total_chunks <= plan.size + 1,
{
    let c = plan.chunk_size as int;
    let n = plan.total_chunks as int;
    let s = plan.size as int;
    let i = index as int;
    if s == 0 {
        assert(c * 0 == 0) by (nonlinear_arith);
    } else {
        // n is the quotient of s + c - 1 by c.
        assert(c * n <= s + c - 1 && s <= c * n) by (nonlinear_arith)
            requires
                c >= 1024,
                s >= 1,
                n == (s + c - 1) / c,
        ;
        assert(c * i <= c * (n - 1)) by (nonlinear_arith)
            requires
                i <= n - 1,
                c >= 1024,
        ;
        assert(c * (n - 1) == c * n - c) by (nonlinear_arith);
        assert(c * (i + 1) == c * i + c) by (nonlinear_arith);
        assert(n <= s + 1) by (nonlinear_arith)
            requires
                c * n <= s + c - 1,
                c >= 1024,
                s >= 1,
        ;
        if !plan.is_last(index) {
            assert(c * (i + 1) <= c * (n - 1)) by (nonlinear_arith)
                requires
                    i + 1 <= n - 1,
                    c >= 1024,
            ;
        } else {
            assert(i == n - 1);
            assert(c * i == c * n - c);
        }
    }
}

/// [`size_fits`], computed.
pub fn fits(size: u64, chunk_size: u32) -> (result: bool)
    ensures
        result == size_fits(size as nat, chunk_size as nat),
{
    size <= u64::MAX - chunk_size as u64
}

/// [`chunk_count`], computed.
pub fn count_chunks(size: u64, chunk_size: u32) -> (count: u64)
    requires
        chunk_size > 0,
    ensures
        count == chunk_count(size as nat, chunk_size as nat),
{
    if size == 0 {
        1
    } else {
        let c: u64 = chunk_size as u64;
        proof {
            let s = size as int;
            let d = chunk_size as int;
            assert(1 + (s - 1) / d == (s + d - 1) / d) by (nonlinear_arith)
                requires
                    s >= 1,
                    d >= 1,
            ;
            assert((s - 1) / d < s) by (nonlinear_arith)
                requires
                    s >= 1,
                    d >= 1,
            ;
        }
        1 + (size - 1) / c
    }
}

/// The sizes that a header declares agree with each other: the chunk size is
/// within the policy, and the chunks cover the plaintext, without any
/// computation leaving 64 bits.
pub fn sizes_agree(chunk_size: u32, total_chunks: u64, total_plaintext_size: u64) -> (agree: bool)
    ensures
        agree == {
            &&& MIN_CHUNK_SIZE <= chunk_size <= MAX_CHUNK_SIZE
            &&& total_plaintext_size + chunk_size <= u64::MAX
            &&& total_chunks == chunk_count(total_plaintext_size as nat, chunk_size as nat)
        },
{
    if chunk_size < MIN_CHUNK_SIZE || chunk_size > MAX_CHUNK_SIZE {
        return false;
    }
    if total_plaintext_size.checked_add(chunk_size as u64).is_none() {
        return false;
    }
    total_chunks == count_chunks(total_plaintext_size, chunk_size)
}

/// How a plaintext is cut into chunks, and the nonce their nonces derive from.
#[derive(Clone, Copy)]
pub struct ChunkPlan {
    pub base_nonce: [u8; NONCE_LEN],
    pub chunk_size: u32,
    pub total_chunks: u64,
    pub total_plaintext_size: u64,
}

impl View for ChunkPlan {
    type V = PlanView;

    open spec fn view(&self) -> PlanView {
        PlanView {
            base_nonce: self.base_nonce@,
            chunk_size: self.chunk_size as nat,
            total_chunks: self.total_chunks as nat,
            size: self.total_plaintext_size as nat,
        }
    }
}

/// The length of the plaintext of chunk `index`: the declared size, or what is
/// left for the last one.
pub fn expected_plaintext_len(plan: &ChunkPlan, index: u64) -> (len: u64)
    requires
        plan@.wf(),
        index < plan.total_chunks,
    ensures
        len == plan@.chunk_len(index as nat),
        len <= plan.chunk_size,
{
    proof {
        lemma_chunk_bounds(plan@, index as nat);
    }
    let chunk_size: u64 = plan.chunk_size as u64;
    if index + 1 < plan.total_chunks {
        chunk_size
    } else {
        plan.total_plaintext_size - chunk_size * index
    }
}

} // verus!
