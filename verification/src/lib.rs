//! Encryption of files and folders under a password.
//!
//! Nothing here reads or writes files: the caller hands over bytes and gets
//! bytes, or decisions, back.
//!
//! # Levels
//!
//! - Files and folders: [`encrypt_paths`] and [`decrypt_to_dir`], from a
//!   description of what is selected to the actions that restore it.
//! - Containers: [`encrypt_bytes`] and [`decrypt_bytes`] in memory, or
//!   [`format::stream::Encryptor`] and [`format::stream::Decryptor`] chunk by
//!   chunk. They take care of the AES-GCM nonces.
//! - Containers under a key that the caller already holds, with a list of
//!   recipients it is wrapped for: [`encrypt_bytes_with_raw_key`],
//!   [`decrypt_bytes_with_raw_key`] and [`inspect_key_requirement`].
//! - Archives: [`archive`] packs files and folders into the one stream that is
//!   encrypted, [`compress`] compresses each file.
//! - Primitives: [`crypto::encrypt_buffer`] and [`crypto::decrypt_buffer`], which
//!   leave it to the caller that a nonce serves once. They are not re-exported
//!   here on purpose.
//! - [`password_policy`]: which passwords are accepted.

pub mod archive;
pub mod bytes;
pub mod compress;
pub mod crypto;
pub mod derivation;
pub mod draw;
pub mod error;
pub mod format;
pub mod password_policy;
pub mod pipeline;
pub mod secret;
pub mod strength;
pub mod text;

use vstd::prelude::*;

pub use archive::{ArchiveError, ArchiveWarning, ExtractionLimits};
pub use crypto::{
    derive_key, generate_base_nonce, generate_salt, Argon2Params, CryptoError, DerivedKey,
    Password, RawKey, MAX_ARGON2_ITERATIONS, MAX_ARGON2_MEMORY_KIB, MAX_ARGON2_PARALLELISM,
    MAX_RECIPIENTS, MAX_RECIPIENT_ID_LEN, MAX_WRAPPED_KEY_LEN, MIN_ARGON2_ITERATIONS,
    MIN_ARGON2_MEMORY_KIB, MIN_ARGON2_PARALLELISM,
};
pub use error::{IoError, IoErrorKind};
pub use format::header::Header;
pub use format::memory::{decrypt_bytes, encrypt_bytes};
pub use format::raw_key::{
    decrypt_bytes_with_raw_key, encrypt_bytes_with_raw_key, inspect_key_requirement,
    HeaderKeyRequirement,
};
pub use format::recipients::{HeaderV2, KeySource, Recipient};
pub use format::stream::ProgressUpdate;
pub use format::{
    FormatError, DEFAULT_CHUNK_SIZE, FORMAT_VERSION_V2, MAX_CHUNK_SIZE, MIN_CHUNK_SIZE,
};
pub use password_policy::{
    assess_password, passwords_match, validate_new_password, PasswordAssessment,
    PasswordPolicyError, MIN_LENGTH, REQUIRED_SCORE,
};
pub use pipeline::{decrypt_to_dir, encrypt_paths, PipelineError};
pub use secret::SecretBytes;

verus! {

/// Version of this library, for applications to show.
pub const VERSION: &'static str = "1.0.0";

} // verus!
