//! The archive that is encrypted: files and folders in one stream.
//!
//! ```text
//! number of entries: u32
//! for each entry:
//!   length of the relative path: u16, relative path in UTF-8
//!   type: 1 byte (0 = file, 1 = folder)
//!   permissions: u32
//!   size of the content: u64 (0 for a folder)
//!   content (of a file)
//! ```
//!
//! The content of a file is compressed before it goes into the archive; the size
//! is that of the compressed content.
//!
//! - Symbolic links are never followed: they are left out with a warning, and so
//!   are names that are not UTF-8.
//! - The full mode is stored; what is restored is filtered, see
//!   [`extract::sanitize_mode`].
//! - A relative path that is empty, absolute or climbs with `..` is refused when
//!   the archive is read.


pub mod entry_laws;
pub mod extract;
pub mod laws;
pub mod listing;
pub mod pack;
pub mod path;
pub mod selection;
pub mod unpack;

use crate::error::{IoError, IoErrorKind};
use vstd::prelude::*;

pub use pack::{build_archive, plan_archive};
pub use unpack::{extract_archive, extract_archive_with_limits};

verus! {

#[verifier::external_type_specification]
#[verifier::external_body]
pub struct ExPathBuf(std::path::PathBuf);

/// Something that was left out of an archive, which does not stop the rest.
#[derive(Debug)]
pub struct ArchiveWarning {
    pub path: std::path::PathBuf,
    pub reason: String,
}

/// What can go wrong with an archive.
#[derive(Debug)]
pub enum ArchiveError {
    Io(IoError),
    UnsafePath(String),
    PathTooLong(String),
    LimitExceeded(String),
    Malformed,
}

/// An archive failure, as a value.
pub enum ArchiveErrorView {
    Io(IoErrorKind),
    UnsafePath(Seq<char>),
    PathTooLong(Seq<char>),
    LimitExceeded(Seq<char>),
    Malformed,
}

impl View for ArchiveError {
    type V = ArchiveErrorView;

    open spec fn view(&self) -> ArchiveErrorView {
        match self {
            ArchiveError::Io(error) => ArchiveErrorView::Io(error.kind),
            ArchiveError::UnsafePath(path) => ArchiveErrorView::UnsafePath(path@),
            ArchiveError::PathTooLong(path) => ArchiveErrorView::PathTooLong(path@),
            ArchiveError::LimitExceeded(what) => ArchiveErrorView::LimitExceeded(what@),
            ArchiveError::Malformed => ArchiveErrorView::Malformed,
        }
    }
}

impl ArchiveError {
    pub open spec fn spec_message(&self) -> Seq<char> {
        match self {
            ArchiveError::Io(error) => "erreur système : "@ + error.message@,
            ArchiveError::UnsafePath(path) =>
                "chemin non sûr dans l'archive (absolu, vide, ou tentative d'évasion) : "@ + path@,
            ArchiveError::PathTooLong(path) =>
                "chemin trop long pour le format d'archive (max 65535 octets UTF-8) : "@ + path@,
            ArchiveError::LimitExceeded(what) =>
                "limite de ressources d'extraction dépassée : "@ + what@,
            ArchiveError::Malformed => "archive corrompue ou mal formée"@,
        }
    }

    /// The message shown to the user.
    pub fn message(&self) -> (message: String)
        ensures
            message@ == self.spec_message(),
    {
        match self {
            ArchiveError::Io(error) => {
                let mut message = "erreur système : ".to_string();
                message.append(error.message.as_str());
                message
            },
            ArchiveError::UnsafePath(path) => {
                let mut message =
                    "chemin non sûr dans l'archive (absolu, vide, ou tentative d'évasion) : ".to_string();
                message.append(path.as_str());
                message
            },
            ArchiveError::PathTooLong(path) => {
                let mut message =
                    "chemin trop long pour le format d'archive (max 65535 octets UTF-8) : ".to_string();
                message.append(path.as_str());
                message
            },
            ArchiveError::LimitExceeded(what) => {
                let mut message = "limite de ressources d'extraction dépassée : ".to_string();
                message.append(what.as_str());
                message
            },
            ArchiveError::Malformed => "archive corrompue ou mal formée".to_string(),
        }
    }
}

/// Limits on what an extraction may cost, whatever the archive declares.
#[derive(Debug, Clone, Copy)]
pub struct ExtractionLimits {
    pub max_entries: u32,
    pub max_entry_compressed_size: u64,
    pub max_total_extracted_size: u64,
    /// Whether files keep their executable bits. Folders always do; `setuid`,
    /// `setgid`, `sticky` and writing by others are never restored.
    pub preserve_executable_bit: bool,
}

impl ExtractionLimits {
    /// A million entries, 8 GiB per compressed entry, 100 GiB in all, executable
    /// bits kept.
    pub open spec fn spec_default() -> Self {
        ExtractionLimits {
            max_entries: 1_000_000,
            max_entry_compressed_size: 0x2_0000_0000,
            max_total_extracted_size: 0x19_0000_0000,
            preserve_executable_bit: true,
        }
    }
}

impl Default for ExtractionLimits {
    fn default() -> (limits: Self)
        ensures
            limits == Self::spec_default(),
    {
        ExtractionLimits {
            max_entries: 1_000_000,
            max_entry_compressed_size: 8 * 1024 * 1024 * 1024,
            max_total_extracted_size: 100 * 1024 * 1024 * 1024,
            preserve_executable_bit: true,
        }
    }
}

/// Each failure has its own words.
pub proof fn law_archive_messages(error: ArchiveError)
    ensures
        error.spec_message() == (match error {
            ArchiveError::Io(io) => "erreur système : "@ + io.message@,
            ArchiveError::UnsafePath(path) =>
                "chemin non sûr dans l'archive (absolu, vide, ou tentative d'évasion) : "@ + path@,
            ArchiveError::PathTooLong(path) =>
                "chemin trop long pour le format d'archive (max 65535 octets UTF-8) : "@ + path@,
            ArchiveError::LimitExceeded(what) =>
                "limite de ressources d'extraction dépassée : "@ + what@,
            ArchiveError::Malformed => "archive corrompue ou mal formée"@,
        }),
{
}

/// The default limits.
pub proof fn law_default_limits()
    ensures
        ExtractionLimits::spec_default().max_entries == 1_000_000,
        ExtractionLimits::spec_default().max_entry_compressed_size == 8 * 1024 * 1024 * 1024,
        ExtractionLimits::spec_default().max_total_extracted_size == 100 * 1024 * 1024 * 1024,
        ExtractionLimits::spec_default().preserve_executable_bit,
{
}

} // verus!
