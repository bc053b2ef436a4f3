//! Encrypting a selection of files and folders, restoring it, and how failures
//! are reported.

use crate::archive::extract;
use crate::archive::extract::{Action, ActionView, ExtractionView};
use crate::archive::laws;
use crate::archive::listing::Node;
use crate::archive::pack;
use crate::archive::pack::{build_archive, Payload};
use crate::archive::unpack;
use crate::archive::unpack::extract_archive;
use crate::archive::{ArchiveError, ArchiveErrorView, ArchiveWarning, ExtractionLimits};
use crate::crypto::{Argon2Params, CryptoError, Password};
use crate::derivation;
use crate::format::memory;
use crate::format::memory::{decrypt_bytes, encrypt_bytes};
use crate::format::FormatError;
use vstd::prelude::*;

verus! {

/// A failure of the container or of the archive in it.
#[derive(Debug)]
pub enum PipelineError {
    Format(FormatError),
    Archive(ArchiveError),
}

impl PipelineError {
    pub open spec fn spec_message(&self) -> Seq<char> {
        match self {
            PipelineError::Format(error) => error.spec_message(),
            PipelineError::Archive(error) => error.spec_message(),
        }
    }

    /// The message of the failure itself.
    pub fn message(&self) -> (message: String)
        ensures
            message@ == self.spec_message(),
    {
        match self {
            PipelineError::Format(error) => error.message(),
            PipelineError::Archive(error) => error.message(),
        }
    }

    pub open spec fn spec_report(&self) -> Seq<char> {
        match self {
            PipelineError::Format(FormatError::WrongPassword) =>
                "Erreur : mot de passe incorrect."@,
            PipelineError::Format(FormatError::Corrupted) =>
                "Erreur : fichier corrompu ou altéré."@,
            PipelineError::Format(FormatError::Truncated) =>
                "Erreur : fichier tronqué (données manquantes)."@,
            PipelineError::Format(FormatError::Cancelled) => "Erreur : opération annulée."@,
            PipelineError::Format(FormatError::InvalidHeader) =>
                "Erreur : ce fichier n'est pas une archive .enc valide."@,
            PipelineError::Format(FormatError::Io(error)) => "Erreur système : "@
                + error.message@,
            PipelineError::Format(FormatError::Crypto(error)) =>
                "Erreur cryptographique interne : "@ + error.spec_message(),
            PipelineError::Archive(error) => "Erreur d'archivage : "@ + error.spec_message(),
        }
    }

    /// What the user is told: each nature of failure has its own words.
    pub fn report(&self) -> (report: String)
        ensures
            report@ == self.spec_report(),
    {
        match self {
            PipelineError::Format(FormatError::WrongPassword) =>
                "Erreur : mot de passe incorrect.".to_string(),
            PipelineError::Format(FormatError::Corrupted) =>
                "Erreur : fichier corrompu ou altéré.".to_string(),
            PipelineError::Format(FormatError::Truncated) =>
                "Erreur : fichier tronqué (données manquantes).".to_string(),
            PipelineError::Format(FormatError::Cancelled) =>
                "Erreur : opération annulée.".to_string(),
            PipelineError::Format(FormatError::InvalidHeader) =>
                "Erreur : ce fichier n'est pas une archive .enc valide.".to_string(),
            PipelineError::Format(FormatError::Io(error)) => {
                let mut report = "Erreur système : ".to_string();
                report.append(error.message.as_str());
                report
            },
            PipelineError::Format(FormatError::Crypto(error)) => {
                let mut report = "Erreur cryptographique interne : ".to_string();
                report.append(error.message());
                report
            },
            PipelineError::Archive(error) => {
                let mut report = "Erreur d'archivage : ".to_string();
                report.append(error.message().as_str());
                report
            },
        }
    }
}

/// The container of a selection, and what was left out of it.
pub struct EncryptedSelection {
    pub bytes: Vec<u8>,
    pub warnings: Vec<ArchiveWarning>,
}

/// Encrypts a selection of files and folders: its archive, then the container of
/// the archive under `password`.
pub fn encrypt_paths(
    selected: Vec<Node<Payload>>,
    password: &Password,
    params: Argon2Params,
) -> (result: Result<EncryptedSelection, PipelineError>)
    ensures
        ({
            let plan = pack::planned(selected@);
            let entries = pack::entries_bytes(plan.entries);
            let archive = pack::archive_bytes(plan.entries);
            match result {
                Ok(encrypted) => {
                    &&& entries is Ok
                    &&& pack::contents_come_back(plan.entries)
                    &&& memory::is_encryption_of(encrypted.bytes@, archive, *password, params)
                    &&& pack::warnings_of(encrypted.warnings@) == plan.warnings
                },
                Err(PipelineError::Archive(error)) => entries == Err::<Seq<u8>, ArchiveErrorView>(
                    error@,
                ),
                Err(PipelineError::Format(error)) => entries is Ok && memory::encryption_may_fail(
                    error,
                    archive.len(),
                    *password,
                    params,
                ),
            }
        }),
{
    let archive = match build_archive(selected) {
        Ok(archive) => archive,
        Err(error) => {
            return Err(PipelineError::Archive(error));
        },
    };
    match encrypt_bytes(archive.bytes.as_slice(), password, params) {
        Ok(bytes) => Ok(EncryptedSelection { bytes, warnings: archive.warnings }),
        Err(error) => Err(PipelineError::Format(error)),
    }
}

/// What restoring the archive `plaintext` comes to, with the default limits.
pub open spec fn restoration(plaintext: Seq<u8>) -> ExtractionView {
    extract::extraction(plaintext, ExtractionLimits::spec_default())
}

/// Decrypts a container under `password`, and gives what it takes to restore what
/// the archive in it holds, below the destination. Nothing is handed out unless
/// the whole container is authentic and the whole archive can be extracted: a
/// failure leaves the destination as it is.
pub fn decrypt_to_dir(bytes: &[u8], password: &Password) -> (result: Result<
    Vec<Action>,
    PipelineError,
>)
    ensures
        ({
            let start = memory::read_start(bytes@);
            let plaintext = memory::decrypted(
                bytes@,
                memory::password_key(*password, start->Ok_0),
            );
            match result {
                Ok(actions) => {
                    &&& start is Ok
                    &&& plaintext is Ok
                    &&& restoration(plaintext->Ok_0) == (ExtractionView {
                        actions: unpack::actions_of(actions@),
                        error: None,
                    })
                },
                Err(PipelineError::Archive(error)) => {
                    &&& start is Ok
                    &&& plaintext is Ok
                    &&& restoration(plaintext->Ok_0).error == Some(error@)
                },
                Err(PipelineError::Format(error)) => {
                    ||| start is Err && start->Err_0 == error
                    ||| start is Ok && plaintext is Err && plaintext->Err_0 == error
                    ||| start is Ok && error == FormatError::Crypto(
                        CryptoError::KeyDerivationFailed,
                    ) && derivation::derivation_failed(
                        vstd::utf8::encode_utf8(password@),
                        start->Ok_0.salt,
                        start->Ok_0.argon2_params,
                    )
                },
            }
        }),
{
    let plaintext = match decrypt_bytes(bytes, password) {
        Ok(plaintext) => plaintext,
        Err(error) => {
            return Err(PipelineError::Format(error));
        },
    };
    let extraction = extract_archive(plaintext.as_slice());
    match extraction.result {
        Ok(_) => Ok(extraction.actions),
        Err(error) => Err(PipelineError::Archive(error)),
    }
}

/// What was encrypted comes back: under the key that opens the container of a
/// selection, every folder is restored, and every file with its content, in
/// order, with filtered permissions. That holds of files and folders with
/// ordinary names that are within the default limits.
pub proof fn law_selection_comes_back(selected: Seq<Node<Payload>>, sealed: Seq<u8>, key: Seq<u8>)
    requires
        laws::are_named_properly(selected),
        pack::entries_bytes(pack::planned(selected).entries) is Ok,
        pack::contents_come_back(pack::planned(selected).entries),
        memory::decrypted(sealed, key) == Ok::<Seq<u8>, FormatError>(
            pack::archive_bytes(pack::planned(selected).entries),
        ),
        laws::are_within(pack::planned(selected).entries, ExtractionLimits::spec_default()),
    ensures
        restoration(memory::decrypted(sealed, key)->Ok_0) == (ExtractionView {
            actions: seq![ActionView::CreateRoot] + laws::restore_all(
                pack::planned(selected).entries,
                ExtractionLimits::spec_default(),
            ),
            error: None,
        }),
{
    let entries = pack::planned(selected).entries;
    laws::law_planned_paths_are_safe(selected);
    laws::law_extract_of_build(
        entries,
        pack::archive_bytes(entries),
        ExtractionLimits::spec_default(),
    );
}

/// What the user is told of each failure.
pub proof fn law_reports(error: PipelineError)
    ensures
        error.spec_message() == (match error {
            PipelineError::Format(inner) => inner.spec_message(),
            PipelineError::Archive(inner) => inner.spec_message(),
        }),
        error.spec_report() == (match error {
            PipelineError::Format(FormatError::WrongPassword) =>
                "Erreur : mot de passe incorrect."@,
            PipelineError::Format(FormatError::Corrupted) =>
                "Erreur : fichier corrompu ou altéré."@,
            PipelineError::Format(FormatError::Truncated) =>
                "Erreur : fichier tronqué (données manquantes)."@,
            PipelineError::Format(FormatError::Cancelled) => "Erreur : opération annulée."@,
            PipelineError::Format(FormatError::InvalidHeader) =>
                "Erreur : ce fichier n'est pas une archive .enc valide."@,
            PipelineError::Format(FormatError::Io(io)) => "Erreur système : "@ + io.message@,
            PipelineError::Format(FormatError::Crypto(inner)) =>
                "Erreur cryptographique interne : "@ + inner.spec_message(),
            PipelineError::Archive(inner) => "Erreur d'archivage : "@ + inner.spec_message(),
        }),
{
}

/// What is restored is what extracting the decrypted archive with the default limits
/// comes to.
pub proof fn law_restoration_is_an_extraction(plaintext: Seq<u8>)
    ensures
        restoration(plaintext) == extract::extraction(
            plaintext,
            ExtractionLimits {
                max_entries: 1_000_000,
                max_entry_compressed_size: 0x2_0000_0000,
                max_total_extracted_size: 0x19_0000_0000,
                preserve_executable_bit: true,
            },
        ),
{
}

} // verus!
