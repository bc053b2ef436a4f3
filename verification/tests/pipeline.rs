use chiffre_aes_core::archive::extract::Action;
use chiffre_aes_core::archive::listing::{Found, Node};
use chiffre_aes_core::archive::pack::Payload;
use chiffre_aes_core::archive::{build_archive, extract_archive};
use chiffre_aes_core::{
    decrypt_to_dir, encrypt_bytes, encrypt_paths, Argon2Params, ArchiveError, CryptoError,
    FormatError, IoError, IoErrorKind, Password, PipelineError, VERSION,
};
use std::path::PathBuf;

fn small_params() -> Argon2Params {
    Argon2Params { memory_kib: 8 * 1024, iterations: 1, parallelism: 1 }
}

fn file(name: &str, content: &[u8]) -> Node<Payload> {
    let payload = Payload { permissions: 0o644, content: content.to_vec() };
    node(name, Found::File { payload })
}

fn folder(name: &str, children: Vec<Node<Payload>>) -> Node<Payload> {
    let payload = Payload { permissions: 0o755, content: Vec::new() };
    node(name, Found::Directory { payload, children })
}

fn node(name: &str, found: Found<Payload>) -> Node<Payload> {
    Node { path: PathBuf::from(name), name: Some(name.as_bytes().to_vec()), found }
}

fn files(actions: &[Action]) -> Vec<(String, Vec<u8>)> {
    actions
        .iter()
        .filter_map(|action| match action {
            Action::File { path, content, .. } => Some((path.clone(), content.clone())),
            _ => None,
        })
        .collect()
}

#[test]
fn full_pipeline_roundtrip_folder() {
    let notes = "des notes avec accents : éàê, et un peu de répétition AAAAAAAAAAAAAAAAAAAA";
    let selected = vec![folder(
        "projet",
        vec![
            folder("docs", vec![file("notes.txt", notes.as_bytes())]),
            file("readme.txt", b"lisez-moi"),
            file("vide.bin", b""),
        ],
    )];
    let password = Password::new("mot-de-passe-pipeline-complet".to_string());
    let encrypted = encrypt_paths(selected, &password, small_params()).ok().unwrap();
    assert!(encrypted.warnings.is_empty());

    let actions = decrypt_to_dir(&encrypted.bytes, &password).unwrap();
    assert!(matches!(actions[0], Action::CreateRoot));
    assert_eq!(
        files(&actions),
        vec![
            ("projet/docs/notes.txt".to_string(), notes.as_bytes().to_vec()),
            ("projet/readme.txt".to_string(), b"lisez-moi".to_vec()),
            ("projet/vide.bin".to_string(), Vec::new()),
        ]
    );
}

#[test]
fn full_pipeline_wrong_password_creates_nothing() {
    let selected = vec![file("secret.txt", b"contenu confidentiel")];
    let good = Password::new("bon-mot-de-passe-pipeline".to_string());
    let bad = Password::new("mauvais-mot-de-passe-pipeline".to_string());
    let encrypted = encrypt_paths(selected, &good, small_params()).ok().unwrap();
    let result = decrypt_to_dir(&encrypted.bytes, &bad);
    assert!(matches!(result, Err(PipelineError::Format(FormatError::WrongPassword))));
}

#[test]
fn extraction_failure_leaves_absent_destination_untouched() {
    // The first entry is there in full, the second is cut: the extraction fails
    // after the first, and nothing at all is handed out.
    let selected = vec![file("a.txt", &vec![b'A'; 4096]), file("b.txt", &vec![b'B'; 4096])];
    let mut archive = build_archive(selected).unwrap();
    assert_eq!(archive.count, 2);
    assert!(archive.warnings.is_empty());

    let truncated_len = archive.bytes.len() - 16;
    archive.bytes.truncate(truncated_len);
    let extraction = extract_archive(&archive.bytes);
    assert!(matches!(extraction.result, Err(ArchiveError::Malformed) | Err(ArchiveError::Io(_))));
    assert_eq!(files(&extraction.actions), vec![("a.txt".to_string(), vec![b'A'; 4096])]);

    let password = Password::new("mot-de-passe-de-test-atomicite".to_string());
    let enc = encrypt_bytes(&archive.bytes, &password, small_params()).unwrap();
    assert!(matches!(
        decrypt_to_dir(&enc, &password),
        Err(PipelineError::Archive(ArchiveError::Malformed | ArchiveError::Io(_)))
    ));
}

#[test]
fn refused_selections_and_parameters_are_reported() {
    let password = Password::new("mot-de-passe".to_string());
    let long = file(&"a".repeat(65536), b"x");
    assert!(matches!(
        encrypt_paths(vec![long], &password, small_params()),
        Err(PipelineError::Archive(ArchiveError::PathTooLong(_)))
    ));
    let params = Argon2Params { memory_kib: 0, iterations: 1, parallelism: 1 };
    assert!(matches!(
        encrypt_paths(vec![file("a", b"x")], &password, params),
        Err(PipelineError::Format(FormatError::Crypto(CryptoError::Argon2ParamsOutOfPolicy)))
    ));
}

#[test]
fn what_is_left_out_is_reported_with_the_container() {
    let password = Password::new("mot-de-passe".to_string());
    let selected = vec![node("lien", Found::Symlink), file("a", b"x")];
    let encrypted = encrypt_paths(selected, &password, small_params()).ok().unwrap();
    assert_eq!(encrypted.warnings.len(), 1);
    assert_eq!(encrypted.warnings[0].path, PathBuf::from("lien"));
    let actions = decrypt_to_dir(&encrypted.bytes, &password).unwrap();
    assert_eq!(files(&actions), vec![("a".to_string(), b"x".to_vec())]);
}

#[test]
fn each_failure_is_reported_in_its_own_words() {
    let report = |error| PipelineError::Format(error).report();
    assert_eq!(report(FormatError::WrongPassword), "Erreur : mot de passe incorrect.");
    assert_eq!(report(FormatError::Corrupted), "Erreur : fichier corrompu ou altéré.");
    assert_eq!(report(FormatError::Truncated), "Erreur : fichier tronqué (données manquantes).");
    assert_eq!(report(FormatError::Cancelled), "Erreur : opération annulée.");
    assert_eq!(
        report(FormatError::InvalidHeader),
        "Erreur : ce fichier n'est pas une archive .enc valide."
    );
    assert_eq!(
        report(FormatError::Io(IoError::new(IoErrorKind::Other, "refusé"))),
        "Erreur système : refusé"
    );
    assert_eq!(
        report(FormatError::Crypto(CryptoError::InvalidParams)),
        "Erreur cryptographique interne : paramètres Argon2id invalides"
    );
    assert_eq!(
        PipelineError::Archive(ArchiveError::Malformed).report(),
        "Erreur d'archivage : archive corrompue ou mal formée"
    );
    assert_eq!(
        PipelineError::Archive(ArchiveError::Malformed).message(),
        "archive corrompue ou mal formée"
    );
    assert_eq!(
        PipelineError::Format(FormatError::Cancelled).message(),
        "opération annulée"
    );
}

#[test]
fn version_is_that_of_the_package() {
    assert_eq!(VERSION, "1.0.0");
}
