//! The `.enc` container.
//!
//! ```text
//! header (62 bytes, in clear, authenticated)
//! header tag (16 bytes)
//! chunk 0, encrypted, followed by its tag (16 bytes)
//! chunk 1 ...
//! last chunk, marked as such
//! ```
//!
//! A container holds one plaintext, cut into chunks of the size that the
//! header declares. [`encrypt_bytes`] and [`decrypt_bytes`] work in memory;
//! [`Encryptor`] and [`Decryptor`] take the chunks one at a time, for callers
//! that stream files.

pub mod container;
pub mod header;
pub mod laws;
pub mod memory;
pub mod plan;
pub mod raw_key;
pub mod recipients;
pub mod stream;

use crate::crypto::{CryptoError, NONCE_LEN, SALT_LEN};
use crate::error::IoError;
use vstd::prelude::*;

verus! {

/// The four bytes that open a container: `ENC1`.
pub const MAGIC: [u8; 4] = [0x45, 0x4e, 0x43, 0x31];

/// Version of the format.
pub const FORMAT_VERSION: u8 = 1;

/// Version of the format whose key may come from outside.
pub const FORMAT_VERSION_V2: u8 = 2;

/// Size of a chunk of plaintext: 1 MiB.
pub const DEFAULT_CHUNK_SIZE: u32 = 1024 * 1024;

/// Policy bounds on the chunk size that a header may declare.
pub const MIN_CHUNK_SIZE: u32 = 1024;

pub const MAX_CHUNK_SIZE: u32 = 64 * 1024 * 1024;

/// Length of a header, without its tag.
pub const HEADER_FIXED_LEN: usize = 4 + 1 + SALT_LEN + 9 + NONCE_LEN + 4 + 8 + 8;

/// The counter whose nonce authenticates the header. The chunks use the
/// counters `0, 1, 2, ...`, which never reach it.
pub const HEADER_NONCE_COUNTER: u64 = 0xffff_ffff_ffff_ffff;

/// What can go wrong with a container. A wrong password, an altered or
/// truncated container and a failure of the system are told apart, so that the
/// user is shown the right message.
#[derive(Debug)]
pub enum FormatError {
    WrongPassword,
    Corrupted,
    Truncated,
    InvalidHeader,
    Io(IoError),
    Crypto(CryptoError),
    Cancelled,
}

impl FormatError {
    pub open spec fn spec_message(&self) -> Seq<char> {
        match self {
            FormatError::WrongPassword => "mot de passe incorrect"@,
            FormatError::Corrupted => "fichier corrompu ou altéré"@,
            FormatError::Truncated => "fichier tronqué (données manquantes)"@,
            FormatError::InvalidHeader => "en-tête invalide (magic ou version incompatible)"@,
            FormatError::Io(error) => "erreur système : "@ + error.message@,
            FormatError::Crypto(error) => "erreur cryptographique interne : "@
                + error.spec_message(),
            FormatError::Cancelled => "opération annulée"@,
        }
    }

    /// The message shown to the user.
    pub fn message(&self) -> (message: String)
        ensures
            message@ == self.spec_message(),
    {
        match self {
            FormatError::WrongPassword => "mot de passe incorrect".to_string(),
            FormatError::Corrupted => "fichier corrompu ou altéré".to_string(),
            FormatError::Truncated => "fichier tronqué (données manquantes)".to_string(),
            FormatError::InvalidHeader =>
                "en-tête invalide (magic ou version incompatible)".to_string(),
            FormatError::Io(error) => {
                let mut message = "erreur système : ".to_string();
                message.append(error.message.as_str());
                message
            },
            FormatError::Crypto(error) => {
                let mut message = "erreur cryptographique interne : ".to_string();
                message.append(error.message());
                message
            },
            FormatError::Cancelled => "opération annulée".to_string(),
        }
    }
}

/// Each failure has its own words.
pub proof fn law_format_messages(error: FormatError)
    ensures
        error.spec_message() == (match error {
            FormatError::WrongPassword => "mot de passe incorrect"@,
            FormatError::Corrupted => "fichier corrompu ou altéré"@,
            FormatError::Truncated => "fichier tronqué (données manquantes)"@,
            FormatError::InvalidHeader => "en-tête invalide (magic ou version incompatible)"@,
            FormatError::Io(io) => "erreur système : "@ + io.message@,
            FormatError::Crypto(inner) => "erreur cryptographique interne : "@
                + inner.spec_message(),
            FormatError::Cancelled => "opération annulée"@,
        }),
{
}

} // verus!
