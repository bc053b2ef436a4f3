//! Cryptographic primitives: key derivation (Argon2id) and authenticated
//! encryption (AES-256-GCM) of one buffer. Nothing here knows about chunks or
//! files: the `.enc` container is built on top of it, in [`crate::format`].
//!
//! Passwords, keys and decrypted data only travel in types that erase
//! themselves from memory when they are dropped.

use crate::bytes;
use crate::bytes::{copy_array, push_be};
use crate::derivation;
use crate::derivation::Derivation;
use crate::draw;
use crate::draw::Draw;
use crate::secret::{zeroize_slice, SecretBytes};
use aes_gcm::aead::{Aead, KeyInit, Payload};
use rand::TryRng;
use vstd::prelude::*;

pub use crate::secret::Password;

verus! {

/// Length of the Argon2id salt (random, one per container).
pub const SALT_LEN: usize = 16;

/// Length of an AES-GCM nonce.
pub const NONCE_LEN: usize = 12;

/// Length of an AES-256 key.
pub const KEY_LEN: usize = 32;

/// Length of an AES-GCM authentication tag.
pub const TAG_LEN: usize = 16;

/// Policy bounds on the Argon2id parameters. They are fixed and never come
/// from a container: whoever writes a header cannot have a derivation of
/// arbitrary cost run before the password is checked.
pub const MIN_ARGON2_MEMORY_KIB: u32 = 8 * 1024;

pub const MAX_ARGON2_MEMORY_KIB: u32 = 1024 * 1024;

pub const MIN_ARGON2_ITERATIONS: u32 = 1;

pub const MAX_ARGON2_ITERATIONS: u32 = 50;

pub const MIN_ARGON2_PARALLELISM: u8 = 1;

pub const MAX_ARGON2_PARALLELISM: u8 = 16;

/// Policy bounds on the recipient list of a container whose key comes from
/// outside.
pub const MAX_RECIPIENTS: u16 = 64;

pub const MAX_RECIPIENT_ID_LEN: u16 = 256;

pub const MAX_WRAPPED_KEY_LEN: u16 = 1024;

/// The longest plaintext that AES-GCM encrypts under one nonce, in bytes.
pub const AEAD_MAX_PLAINTEXT: u64 = 0xf_ffff_ffe0;

/// The longest associated data that AES-GCM accepts, in bytes.
pub const AEAD_MAX_AAD: u64 = 0x1fff_ffff_ffff_ffff;

/// Argon2id parameters, stored in the header of a container.
#[derive(Debug, Clone, Copy, PartialEq, Eq, Structural)]
pub struct Argon2Params {
    /// Memory, in KiB.
    pub memory_kib: u32,
    /// Number of passes.
    pub iterations: u32,
    /// Number of lanes.
    pub parallelism: u8,
}

impl Default for Argon2Params {
    /// 64 MiB of memory, 3 passes, 4 lanes.
    fn default() -> (params: Self)
        ensures
            params.memory_kib == 65536,
            params.iterations == 3,
            params.parallelism == 4,
    {
        Argon2Params { memory_kib: 64 * 1024, iterations: 3, parallelism: 4 }
    }
}

/// What can go wrong in a cryptographic operation.
#[derive(Debug, Clone, Copy, PartialEq, Eq, Structural)]
pub enum CryptoError {
    InvalidParams,
    Argon2ParamsOutOfPolicy,
    KeyDerivationFailed,
    AuthenticationFailed,
    NonceSequenceExhausted,
}

impl CryptoError {
    pub open spec fn spec_message(self) -> Seq<char> {
        match self {
            CryptoError::InvalidParams => "paramètres Argon2id invalides"@,
            CryptoError::Argon2ParamsOutOfPolicy =>
                "paramètres Argon2id hors politique de sécurité (min/max)"@,
            CryptoError::KeyDerivationFailed => "échec de la dérivation de clé"@,
            CryptoError::AuthenticationFailed =>
                "échec d'authentification (mot de passe incorrect ou donnée altérée)"@,
            CryptoError::NonceSequenceExhausted =>
                "séquence de nonces épuisée (compteur 64 bits atteint)"@,
        }
    }

    /// The message shown to the user.
    pub fn message(&self) -> (text: &'static str)
        ensures
            text@ == self.spec_message(),
    {
        match self {
            CryptoError::InvalidParams => "paramètres Argon2id invalides",
            CryptoError::Argon2ParamsOutOfPolicy =>
                "paramètres Argon2id hors politique de sécurité (min/max)",
            CryptoError::KeyDerivationFailed => "échec de la dérivation de clé",
            CryptoError::AuthenticationFailed =>
                "échec d'authentification (mot de passe incorrect ou donnée altérée)",
            CryptoError::NonceSequenceExhausted =>
                "séquence de nonces épuisée (compteur 64 bits atteint)",
        }
    }
}

impl Argon2Params {
    /// The parameters lie within the policy bounds.
    pub open spec fn in_policy(self) -> bool {
        &&& MIN_ARGON2_MEMORY_KIB <= self.memory_kib <= MAX_ARGON2_MEMORY_KIB
        &&& MIN_ARGON2_ITERATIONS <= self.iterations <= MAX_ARGON2_ITERATIONS
        &&& MIN_ARGON2_PARALLELISM <= self.parallelism <= MAX_ARGON2_PARALLELISM
    }

    /// Checks the policy bounds. [`derive_key`] calls this before any
    /// derivation, wherever the parameters come from.
    pub fn validate(&self) -> (result: Result<(), CryptoError>)
        ensures
            result == (if self.in_policy() {
                Ok::<(), CryptoError>(())
            } else {
                Err::<(), CryptoError>(CryptoError::Argon2ParamsOutOfPolicy)
            }),
    {
        if self.memory_kib < MIN_ARGON2_MEMORY_KIB || self.memory_kib > MAX_ARGON2_MEMORY_KIB
            || self.iterations < MIN_ARGON2_ITERATIONS || self.iterations > MAX_ARGON2_ITERATIONS
            || self.parallelism < MIN_ARGON2_PARALLELISM || self.parallelism
            > MAX_ARGON2_PARALLELISM {
            return Err(CryptoError::Argon2ParamsOutOfPolicy);
        }
        Ok(())
    }
}

/// A 32-byte key, erased from memory when it is dropped.
pub struct DerivedKey(pub(crate) [u8; KEY_LEN]);

impl View for DerivedKey {
    type V = Seq<u8>;

    closed spec fn view(&self) -> Seq<u8> {
        self.0@
    }
}

impl DerivedKey {
    pub fn as_bytes(&self) -> (bytes: &[u8; KEY_LEN])
        ensures
            bytes@ == self@,
    {
        &self.0
    }
}

impl Clone for DerivedKey {
    fn clone(&self) -> (copy: Self)
        ensures
            copy@ == self@,
    {
        DerivedKey(self.0)
    }
}

impl Drop for DerivedKey {
    fn drop(&mut self)
        opens_invariants none
        no_unwind
    {
        zeroize_slice(&mut self.0);
    }
}

/// An AES-256 key that the caller already holds, as opposed to one derived
/// from a password. It is only stored: how it was obtained is not this
/// library's concern.
pub struct RawKey(DerivedKey);

impl Clone for RawKey {
    fn clone(&self) -> (copy: Self)
        ensures
            copy@ == self@,
    {
        RawKey(self.0.clone())
    }
}

impl View for RawKey {
    type V = Seq<u8>;

    closed spec fn view(&self) -> Seq<u8> {
        self.0@
    }
}

impl RawKey {
    pub fn from_bytes(bytes: [u8; KEY_LEN]) -> (key: Self)
        ensures
            key@ == bytes@,
    {
        RawKey(DerivedKey(bytes))
    }

    /// A fresh content key from the system's random number generator. Every byte of
    /// it is drawn.
    pub fn generate_random() -> (key: Self)
        ensures
            key@.len() == KEY_LEN,
            draw::drawn(key@),
    {
        let draw = fill_random(KEY_LEN);
        let key = RawKey(DerivedKey(copy_array(draw.as_slice(), 0)));
        proof {
            assert(key@ =~= draw.bytes());
            assert(draw::gave(draw, key@));
        }
        key
    }

    pub fn as_bytes(&self) -> (bytes: &[u8; KEY_LEN])
        ensures
            bytes@ == self@,
    {
        self.0.as_bytes()
    }

    pub fn into_derived_key(self) -> (key: DerivedKey)
        ensures
            key@ == self@,
    {
        self.0.clone()
    }
}

/// `rand::rngs::SysRng::try_fill_bytes`: `len` bytes from the system's random
/// number generator. Nothing is claimed of them but their number, and that the
/// generator was asked for all of them. Without a source of entropy the program stops
/// here: going on with a predictable salt, nonce or key is not an option.
#[verifier::external_body]
fn fill_random(len: usize) -> (draw: Draw)
    ensures
        draw.bytes().len() == len,
        draw.asked() == len,
{
    let mut buffer = vec![0u8; len];
    rand::rngs::SysRng.try_fill_bytes(&mut buffer).expect(
        "source d'entropie du système indisponible",
    );
    Draw::record(buffer)
}

/// A random salt, one per container. Every byte of it is drawn.
pub fn generate_salt() -> (salt: [u8; SALT_LEN])
    ensures
        salt@.len() == SALT_LEN,
        draw::drawn(salt@),
{
    let draw = fill_random(SALT_LEN);
    let salt: [u8; SALT_LEN] = copy_array(draw.as_slice(), 0);
    proof {
        assert(salt@ =~= draw.bytes());
        assert(draw::gave(draw, salt@));
    }
    salt
}

/// A random base nonce, one per container; the nonces of the header and of
/// the chunks are derived from it. Every byte of it is drawn.
pub fn generate_base_nonce() -> (nonce: [u8; NONCE_LEN])
    ensures
        nonce@.len() == NONCE_LEN,
        draw::drawn(nonce@),
{
    let draw = fill_random(NONCE_LEN);
    let nonce: [u8; NONCE_LEN] = copy_array(draw.as_slice(), 0);
    proof {
        assert(nonce@ =~= draw.bytes());
        assert(draw::gave(draw, nonce@));
    }
    nonce
}

/// A nonce for one call of [`encrypt_buffer`] or [`decrypt_buffer`]. It is
/// neither `Clone` nor `Copy`: a call consumes it.
pub struct Nonce([u8; NONCE_LEN]);

impl View for Nonce {
    type V = Seq<u8>;

    closed spec fn view(&self) -> Seq<u8> {
        self.0@
    }
}

impl Nonce {
    /// A nonce made of the caller's bytes. Use it only where it is certain
    /// that the pair (key, nonce) is used once; [`NonceSequence`] gives that
    /// guarantee otherwise.
    pub fn from_raw_unchecked(bytes: [u8; NONCE_LEN]) -> (nonce: Self)
        ensures
            nonce@ == bytes@,
    {
        Nonce(bytes)
    }

    pub fn as_bytes(&self) -> (bytes: &[u8; NONCE_LEN])
        ensures
            bytes@ == self@,
    {
        &self.0
    }
}

/// The nonce of a counter: the last 8 bytes of `base` are XORed with the
/// counter, big-endian.
pub open spec fn nonce_at(base: Seq<u8>, counter: u64) -> Seq<u8> {
    Seq::new(
        NONCE_LEN as nat,
        |i: int|
            if i < 4 {
                base[i]
            } else {
                base[i] ^ bytes::be(counter as nat, 8)[i - 4]
            },
    )
}

/// The nonce of a counter is the base nonce XORed with the counter, written
/// big-endian on the last eight bytes; the counter 0 has the base nonce itself.
pub proof fn law_nonce_is_the_base_xored_with_the_counter(base: Seq<u8>, counter: u64)
    requires
        base.len() == 12,
    ensures
        nonce_at(base, counter).len() == 12,
        forall|i: int| 0 <= i < 4 ==> #[trigger] nonce_at(base, counter)[i] == base[i],
        forall|i: int|
            4 <= i < 12 ==> #[trigger] nonce_at(base, counter)[i] ^ base[i] == bytes::be(
                counter as nat,
                8,
            )[i - 4],
        bytes::be_value(bytes::be(counter as nat, 8)) == counter,
        nonce_at(base, 0) == base,
{
    bytes::lemma_pow256_values();
    bytes::lemma_be_value_of_be(counter as nat, 8);
    bytes::lemma_be_len(counter as nat, 8);
    assert forall|i: int| 4 <= i < 12 implies #[trigger] nonce_at(base, counter)[i] ^ base[i]
        == bytes::be(counter as nat, 8)[i - 4] by {
        let x = base[i];
        let y = bytes::be(counter as nat, 8)[i - 4];
        assert((x ^ y) ^ x == y) by (bit_vector);
    }
    assert forall|i: int| 4 <= i < 12 implies #[trigger] nonce_at(base, 0)[i] == base[i] by {
        let x = base[i];
        bytes::lemma_be_of_zero(8, i - 4);
        assert(x ^ 0u8 == x) by (bit_vector);
    }
    assert(nonce_at(base, 0) =~= base);
}

/// Under one base nonce, distinct counters give distinct nonces.
pub proof fn law_nonces_are_injective(base: Seq<u8>, a: u64, b: u64)
    ensures
        nonce_at(base, a) == nonce_at(base, b) ==> a == b,
{
    if nonce_at(base, a) == nonce_at(base, b) {
        bytes::lemma_be_len(a as nat, 8);
        bytes::lemma_be_len(b as nat, 8);
        assert forall|j: int| 0 <= j < 8 implies #[trigger] bytes::be(a as nat, 8)[j] == bytes::be(
            b as nat,
            8,
        )[j] by {
            let x = base[j + 4];
            let y = bytes::be(a as nat, 8)[j];
            let z = bytes::be(b as nat, 8)[j];
            assert(nonce_at(base, a)[j + 4] == x ^ y);
            assert(nonce_at(base, b)[j + 4] == x ^ z);
            assert(x ^ y == x ^ z ==> y == z) by (bit_vector);
        }
        assert(bytes::be(a as nat, 8) =~= bytes::be(b as nat, 8));
        bytes::lemma_pow256_values();
        bytes::lemma_be_injective(a as nat, b as nat, 8);
    }
}

/// The nonce of `counter` under `base`.
pub fn derive_nonce_for_sequence(base: &[u8; NONCE_LEN], counter: u64) -> (nonce: [u8; NONCE_LEN])
    ensures
        nonce@ == nonce_at(base@, counter),
{
    let mut counter_bytes: Vec<u8> = Vec::new();
    push_be(&mut counter_bytes, counter, 8);
    proof {
        bytes::lemma_be_len(counter as nat, 8);
        assert(counter_bytes@ =~= bytes::be(counter as nat, 8));
    }
    let mut out: [u8; NONCE_LEN] = *base;
    let mut i: usize = 0;
    while i < 8
        invariant
            i <= 8,
            counter_bytes@ == bytes::be(counter as nat, 8),
            counter_bytes@.len() == 8,
            forall|j: int|
                0 <= j < NONCE_LEN ==> out@[j] == if 4 <= j < 4 + i {
                    base@[j] ^ counter_bytes@[j - 4]
                } else {
                    base@[j]
                },
        decreases 8 - i,
    {
        out[4 + i] = out[4 + i] ^ counter_bytes[i];
        i = i + 1;
    }
    proof {
        assert(out@ =~= nonce_at(base@, counter));
    }
    out
}

/// Hands out nonces that never repeat, for use under one key: an internal
/// counter only ever grows.
pub struct NonceSequence {
    base: [u8; NONCE_LEN],
    next_counter: u64,
}

impl NonceSequence {
    pub closed spec fn base(&self) -> Seq<u8> {
        self.base@
    }

    /// How many nonces the sequence has handed out.
    pub closed spec fn count(&self) -> u64 {
        self.next_counter
    }

    pub fn new(base: [u8; NONCE_LEN]) -> (sequence: Self)
        ensures
            sequence.base() == base@,
            sequence.count() == 0,
    {
        NonceSequence { base, next_counter: 0 }
    }

    /// The next nonce: that of the counter, which then grows by one. Once the
    /// 64-bit counter is used up the sequence stays as it is and returns an
    /// error rather than a nonce it already gave.
    #[must_use]
    pub fn next(&mut self) -> (result: Result<Nonce, CryptoError>)
        ensures
            final(self).base() == old(self).base(),
            match result {
                Ok(nonce) => {
                    &&& old(self).count() < u64::MAX
                    &&& nonce@ == nonce_at(old(self).base(), old(self).count())
                    &&& forall|earlier: u64|
                        earlier < old(self).count() ==> nonce@ != #[trigger] nonce_at(
                            old(self).base(),
                            earlier,
                        )
                    &&& final(self).count() == old(self).count() + 1
                },
                Err(error) => {
                    &&& old(self).count() == u64::MAX
                    &&& error == CryptoError::NonceSequenceExhausted
                    &&& final(self).count() == old(self).count()
                },
            },
    {
        let counter: u64 = self.next_counter;
        match counter.checked_add(1) {
            Some(next) => {
                self.next_counter = next;
                proof {
                    assert forall|earlier: u64| earlier < counter implies nonce_at(
                        self.base@,
                        counter,
                    ) != #[trigger] nonce_at(self.base@, earlier) by {
                        law_nonces_are_injective(self.base@, earlier, counter);
                    }
                }
                Ok(Nonce(derive_nonce_for_sequence(&self.base, counter)))
            },
            None => Err(CryptoError::NonceSequenceExhausted),
        }
    }
}

/// The 32 bytes that Argon2id (version 0x13) derives from a password and a
/// salt with the given memory (in KiB), passes and lanes.
pub uninterp spec fn argon2id_key(
    password: Seq<u8>,
    salt: Seq<u8>,
    memory_kib: u32,
    iterations: u32,
    parallelism: u8,
) -> Seq<u8>;

/// `argon2::Params::new` followed by `argon2::Argon2::hash_password_into`.
/// `Params::new` refuses less than one pass or lane, and less than 8 KiB of
/// memory per lane. What comes out of the derivation is determined by the
/// arguments; a password longer than 2^32 - 1 bytes is refused, and so is a
/// derivation whose memory cannot be allocated: no success is promised. What was
/// run on which inputs goes into the result.
#[verifier::external_body]
fn argon2id<'a>(password: &'a [u8], salt: &'a [u8; SALT_LEN], params: Argon2Params) -> (result:
    Derivation<'a>)
    ensures
        result.password() == password@,
        result.salt() == salt@,
        result.params() == params,
        match result.outcome() {
            Ok(key) => {
                &&& key == argon2id_key(
                    password@,
                    salt@,
                    params.memory_kib,
                    params.iterations,
                    params.parallelism,
                )
                &&& params.iterations >= 1
                &&& params.parallelism >= 1
                &&& params.memory_kib >= 8 * (params.parallelism as int)
                &&& password@.len() <= u32::MAX
            },
            Err(error) => error == (if params.iterations >= 1 && params.parallelism >= 1
                && params.memory_kib >= 8 * (params.parallelism as int) {
                CryptoError::KeyDerivationFailed
            } else {
                CryptoError::InvalidParams
            }),
        },
{
    let lanes = params.parallelism as u32;
    let cost = match argon2::Params::new(params.memory_kib, params.iterations, lanes, Some(KEY_LEN)) {
        Ok(cost) => cost,
        Err(_) => return Derivation::record(password, salt, params, Err(CryptoError::InvalidParams)),
    };
    let hasher = argon2::Argon2::new(argon2::Algorithm::Argon2id, argon2::Version::V0x13, cost);
    let mut key = zeroize::Zeroizing::new([0u8; KEY_LEN]);
    let outcome = match hasher.hash_password_into(password, salt, key.as_mut()) {
        Ok(()) => Ok(DerivedKey(*key)),
        Err(_) => Err(CryptoError::KeyDerivationFailed),
    };
    Derivation::record(password, salt, params, outcome)
}

/// The key of `password`, `salt` and `params`, as a function of its inputs.
pub open spec fn key_of(password: Seq<u8>, salt: Seq<u8>, params: Argon2Params) -> Seq<u8> {
    argon2id_key(password, salt, params.memory_kib, params.iterations, params.parallelism)
}

/// The key of a password is what Argon2id makes of all its bytes and of the whole
/// salt, with the three parameters as they are.
pub proof fn law_key_is_argon2id_of_the_whole_password(
    password: Seq<u8>,
    salt: Seq<u8>,
    params: Argon2Params,
)
    ensures
        key_of(password, salt, params) == argon2id_key(
            password,
            salt,
            params.memory_kib,
            params.iterations,
            params.parallelism,
        ),
{
}

/// The policy: 8 MiB to 1 GiB of memory, 1 to 50 passes, 1 to 16 lanes, and nothing
/// else.
pub proof fn law_policy_bounds(params: Argon2Params)
    ensures
        params.in_policy() <==> {
            &&& 8192 <= params.memory_kib <= 1048576
            &&& 1 <= params.iterations <= 50
            &&& 1 <= params.parallelism <= 16
        },
{
}

/// Derives a key from a password and a salt with Argon2id. Parameters outside
/// the policy are refused before anything is computed. Within it the result is
/// the key that the inputs determine, unless the derivation itself was run and
/// failed (too little memory, or a password longer than 2^32 - 1 bytes).
pub fn derive_key(password: &Password, salt: &[u8; SALT_LEN], params: Argon2Params) -> (result:
    Result<DerivedKey, CryptoError>)
    ensures
        match result {
            Ok(key) => {
                &&& params.in_policy()
                &&& key@ == key_of(password.spec_bytes(), salt@, params)
                &&& key@ == argon2id_key(
                    vstd::utf8::encode_utf8(password@),
                    salt@,
                    params.memory_kib,
                    params.iterations,
                    params.parallelism,
                )
            },
            Err(error) => error == (if params.in_policy() {
                CryptoError::KeyDerivationFailed
            } else {
                CryptoError::Argon2ParamsOutOfPolicy
            }),
        },
        result is Err && params.in_policy() ==> derivation::derivation_failed(
            vstd::utf8::encode_utf8(password@),
            salt@,
            params,
        ),
        password.spec_bytes().len() > u32::MAX ==> result is Err,
{
    if let Err(error) = params.validate() {
        return Err(error);
    }
    let derivation = argon2id(password.as_bytes(), salt, params);
    proof {
        if derivation.outcome() is Err {
            assert(derivation::failed_on(derivation, password.spec_bytes(), salt@, params));
        }
    }
    derivation.into_outcome()
}

#[verifier::external_type_specification]
#[verifier::external_body]
pub struct ExAeadError(aes_gcm::Error);

/// What AES-256-GCM makes of a plaintext and its associated data: the
/// encrypted bytes followed by the tag.
pub uninterp spec fn aes256gcm_seal(
    key: Seq<u8>,
    nonce: Seq<u8>,
    plaintext: Seq<u8>,
    aad: Seq<u8>,
) -> Seq<u8>;

/// What AES-256-GCM makes of encrypted bytes followed by a tag: the plaintext,
/// or nothing if the tag does not authenticate them.
pub uninterp spec fn aes256gcm_open(
    key: Seq<u8>,
    nonce: Seq<u8>,
    ciphertext: Seq<u8>,
    aad: Seq<u8>,
) -> Option<Seq<u8>>;

/// `ciphertext` is what AES-256-GCM makes of `plaintext`, and neither the plaintext
/// nor the associated data is longer than it allows.
pub open spec fn is_sealed_from(
    ciphertext: Seq<u8>,
    key: Seq<u8>,
    nonce: Seq<u8>,
    plaintext: Seq<u8>,
    aad: Seq<u8>,
) -> bool {
    &&& plaintext.len() <= AEAD_MAX_PLAINTEXT
    &&& aad.len() <= AEAD_MAX_AAD
    &&& plaintext.len() + TAG_LEN == ciphertext.len()
    &&& aes256gcm_seal(key, nonce, plaintext, aad) == ciphertext
}

/// `aes_gcm::Aes256Gcm::encrypt`. It fails if and only if the plaintext or the
/// associated data is longer than AES-GCM allows. Its output is 16 bytes longer
/// than the plaintext, opens to it again, and no other tag opens the same
/// encrypted bytes: the tag is a function of them and of the associated data.
#[verifier::external_body]
fn aes256gcm_encrypt(
    key: &[u8; KEY_LEN],
    nonce: &[u8; NONCE_LEN],
    plaintext: &[u8],
    aad: &[u8],
) -> (result: Result<Vec<u8>, aes_gcm::Error>)
    requires
        plaintext@.len() + TAG_LEN <= isize::MAX,
    ensures
        match result {
            Ok(sealed) => {
                &&& plaintext@.len() <= AEAD_MAX_PLAINTEXT
                &&& aad@.len() <= AEAD_MAX_AAD
                &&& sealed@ == aes256gcm_seal(key@, nonce@, plaintext@, aad@)
                &&& sealed@.len() == plaintext@.len() + TAG_LEN
                &&& aes256gcm_open(key@, nonce@, sealed@, aad@) == Some(plaintext@)
                &&& forall|other: Seq<u8>|
                    other.len() == sealed@.len() && other.take(plaintext@.len() as int)
                        == sealed@.take(plaintext@.len() as int) && (#[trigger] aes256gcm_open(
                        key@,
                        nonce@,
                        other,
                        aad@,
                    )) is Some ==> other == sealed@
            },
            Err(_) => plaintext@.len() > AEAD_MAX_PLAINTEXT || aad@.len() > AEAD_MAX_AAD,
        },
{
    let key = aes_gcm::Key::<aes_gcm::Aes256Gcm>::from(*key);
    let nonce = aes_gcm::Nonce::from(*nonce);
    aes_gcm::Aes256Gcm::new(&key).encrypt(&nonce, Payload { msg: plaintext, aad })
}

/// `aes_gcm::Aes256Gcm::decrypt`. It succeeds if and only if the tag (the last
/// 16 bytes) is the one that AES-GCM computes for the encrypted bytes and the
/// associated data, and neither is longer than it allows. The bytes are then the
/// ones that encrypting the plaintext gives; if it fails, there is no plaintext
/// that they are made of.
#[verifier::external_body]
fn aes256gcm_decrypt(
    key: &[u8; KEY_LEN],
    nonce: &[u8; NONCE_LEN],
    ciphertext: &[u8],
    aad: &[u8],
) -> (result: Result<Vec<u8>, aes_gcm::Error>)
    ensures
        match result {
            Ok(plaintext) => {
                &&& aes256gcm_open(key@, nonce@, ciphertext@, aad@) == Some(plaintext@)
                &&& is_sealed_from(ciphertext@, key@, nonce@, plaintext@, aad@)
                &&& forall|other: Seq<u8>| #[trigger]
                    is_sealed_from(ciphertext@, key@, nonce@, other, aad@) ==> other
                        == plaintext@
            },
            Err(_) => {
                &&& aes256gcm_open(key@, nonce@, ciphertext@, aad@) is None
                &&& forall|plaintext: Seq<u8>|
                    !#[trigger] is_sealed_from(ciphertext@, key@, nonce@, plaintext, aad@)
            },
        },
{
    let key = aes_gcm::Key::<aes_gcm::Aes256Gcm>::from(*key);
    let nonce = aes_gcm::Nonce::from(*nonce);
    aes_gcm::Aes256Gcm::new(&key).decrypt(&nonce, Payload { msg: ciphertext, aad })
}

/// Encrypts one buffer with AES-256-GCM and returns the encrypted bytes
/// followed by the 16-byte tag. `aad` is authenticated along with them, and is
/// neither encrypted nor part of the result.
///
/// The same key and nonce must never serve twice: that breaks both
/// confidentiality and authentication. [`NonceSequence`] gives nonces that do
/// not repeat.
pub fn encrypt_buffer(key: &DerivedKey, nonce: Nonce, plaintext: &[u8], aad: &[u8]) -> (result:
    Result<Vec<u8>, CryptoError>)
    requires
        usize::BITS == 64 || plaintext@.len() + TAG_LEN <= isize::MAX,
    ensures
        forall|sealed: Seq<u8>| #[trigger]
            is_sealed_from(sealed, key@, nonce@, plaintext@, aad@) <==> (result matches Ok(made)
                && made@ == sealed),
        result is Ok <==> plaintext@.len() <= AEAD_MAX_PLAINTEXT && aad@.len() <= AEAD_MAX_AAD,
        match result {
            Ok(sealed) => {
                &&& is_sealed_from(sealed@, key@, nonce@, plaintext@, aad@)
                &&& aes256gcm_open(key@, nonce@, sealed@, aad@) == Some(plaintext@)
                &&& forall|other: Seq<u8>|
                    other.len() == sealed@.len() && other.take(plaintext@.len() as int)
                        == sealed@.take(plaintext@.len() as int) && (#[trigger] aes256gcm_open(
                        key@,
                        nonce@,
                        other,
                        aad@,
                    )) is Some ==> other == sealed@
            },
            Err(error) => error == CryptoError::AuthenticationFailed,
        },
{
    if plaintext.len() as u64 > AEAD_MAX_PLAINTEXT {
        return Err(CryptoError::AuthenticationFailed);
    }
    match aes256gcm_encrypt(key.as_bytes(), nonce.as_bytes(), plaintext, aad) {
        Ok(sealed) => Ok(sealed),
        Err(_) => Err(CryptoError::AuthenticationFailed),
    }
}

/// Decrypts and authenticates a buffer. It gives a plaintext if and only if
/// [`encrypt_buffer`] makes the buffer of that plaintext under the same key, nonce
/// and associated data. Otherwise the result is `AuthenticationFailed` and no
/// plaintext at all.
pub fn decrypt_buffer(key: &DerivedKey, nonce: Nonce, ciphertext: &[u8], aad: &[u8]) -> (result:
    Result<SecretBytes, CryptoError>)
    ensures
        forall|plaintext: Seq<u8>| #[trigger]
            is_sealed_from(ciphertext@, key@, nonce@, plaintext, aad@) <==> (result matches Ok(
                opened,
            ) && opened@ == plaintext),
        match result {
            Ok(plaintext) => {
                &&& aes256gcm_open(key@, nonce@, ciphertext@, aad@) == Some(plaintext@)
                &&& is_sealed_from(ciphertext@, key@, nonce@, plaintext@, aad@)
            },
            Err(error) => {
                &&& aes256gcm_open(key@, nonce@, ciphertext@, aad@) is None
                &&& error == CryptoError::AuthenticationFailed
            },
        },
{
    match aes256gcm_decrypt(key.as_bytes(), nonce.as_bytes(), ciphertext, aad) {
        Ok(plaintext) => Ok(SecretBytes::new(plaintext)),
        Err(_) => Err(CryptoError::AuthenticationFailed),
    }
}

/// Overwrites a buffer with zeros.
pub fn purge(buf: &mut [u8])
    ensures
        final(buf)@ == Seq::new(old(buf)@.len(), |i: int| 0u8),
{
    zeroize_slice(buf);
}

/// Each failure has its own words.
pub proof fn law_crypto_messages(error: CryptoError)
    ensures
        error.spec_message() == (match error {
            CryptoError::InvalidParams => "paramètres Argon2id invalides"@,
            CryptoError::Argon2ParamsOutOfPolicy =>
                "paramètres Argon2id hors politique de sécurité (min/max)"@,
            CryptoError::KeyDerivationFailed => "échec de la dérivation de clé"@,
            CryptoError::AuthenticationFailed =>
                "échec d'authentification (mot de passe incorrect ou donnée altérée)"@,
            CryptoError::NonceSequenceExhausted =>
                "séquence de nonces épuisée (compteur 64 bits atteint)"@,
        }),
{
}

} // verus!
