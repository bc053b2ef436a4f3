use chiffre_aes_core::archive::extract::{sanitize_mode, Action, Extractor, READ_CHUNK_SIZE};
use chiffre_aes_core::archive::listing::{order_by_name, Found, Node};
use chiffre_aes_core::archive::pack::{write_entry, Payload};
use chiffre_aes_core::archive::path::validate_relative_path;
use chiffre_aes_core::archive::{
    build_archive, extract_archive, extract_archive_with_limits, plan_archive,
};
use chiffre_aes_core::compress::compress_bytes;
use chiffre_aes_core::{ArchiveError, ExtractionLimits, IoError, IoErrorKind};
use std::path::PathBuf;

fn file(path: &str, content: &[u8]) -> Node<Payload> {
    file_with_mode(path, 0o644, content)
}

fn file_with_mode(path: &str, permissions: u32, content: &[u8]) -> Node<Payload> {
    node(path, Found::File { payload: Payload { permissions, content: content.to_vec() } })
}

fn folder(path: &str, children: Vec<Node<Payload>>) -> Node<Payload> {
    let payload = Payload { permissions: 0o755, content: Vec::new() };
    node(path, Found::Directory { payload, children })
}

fn node<T>(path: &str, found: Found<T>) -> Node<T> {
    let path = PathBuf::from(path);
    let name = path.file_name().map(|n| n.as_encoded_bytes().to_vec());
    Node { path, name, found }
}

/// The content of the file that the actions write at `rel`.
fn content_of<'a>(actions: &'a [Action], rel: &str) -> Option<&'a [u8]> {
    actions.iter().find_map(|action| match action {
        Action::File { path, content, .. } if path == rel => Some(content.as_slice()),
        _ => None,
    })
}

fn mode_of(actions: &[Action], rel: &str) -> Option<u32> {
    actions.iter().find_map(|action| match action {
        Action::File { path, mode, .. } if path == rel => Some(*mode),
        Action::Directory { path, mode } if path == rel => Some(*mode),
        _ => None,
    })
}

fn has_directory(actions: &[Action], rel: &str) -> bool {
    actions.iter().any(|action| matches!(action, Action::Directory { path, .. } if path == rel))
}

/// What comes before the content of a file in an archive of one entry.
fn one_entry(name: &str, permissions: u32, size: u64) -> Vec<u8> {
    let mut buf = Vec::new();
    buf.extend_from_slice(&1u32.to_be_bytes());
    buf.extend_from_slice(&(name.len() as u16).to_be_bytes());
    buf.extend_from_slice(name.as_bytes());
    buf.push(0);
    buf.extend_from_slice(&permissions.to_be_bytes());
    buf.extend_from_slice(&size.to_be_bytes());
    buf
}

fn one_file(name: &str, permissions: u32, content: &[u8]) -> Vec<u8> {
    let content = compress_bytes(content).unwrap();
    let mut buf = one_entry(name, permissions, content.len() as u64);
    buf.extend_from_slice(&content);
    buf
}

#[test]
fn roundtrip_directory_tree_by_hash() {
    let b: &[u8] =
        b"contenu du fichier b, un peu plus long pour tester la compression AAAAAAAAAAAAAAAAAAAA";
    let unicode = "contenu unicode : café, mañana, 日本語".as_bytes();
    let selected = vec![folder(
        "/src/dossier",
        vec![
            file("/src/dossier/a.txt", b"contenu du fichier a"),
            folder(
                "/src/dossier/sous-dossier",
                vec![file("/src/dossier/sous-dossier/b.txt", b)],
            ),
            file("/src/dossier/vide.txt", b""),
            file("/src/dossier/étoile-éàç.txt", unicode),
        ],
    )];

    let archive = build_archive(selected).unwrap();
    assert_eq!(archive.count, 6);
    assert!(archive.warnings.is_empty());

    let extraction = extract_archive(&archive.bytes);
    assert!(extraction.result.is_ok());
    let actions = &extraction.actions;
    assert!(matches!(actions[0], Action::CreateRoot));
    assert_eq!(content_of(actions, "dossier/a.txt"), Some(b"contenu du fichier a".as_slice()));
    assert_eq!(content_of(actions, "dossier/sous-dossier/b.txt"), Some(b));
    assert_eq!(content_of(actions, "dossier/vide.txt"), Some(b"".as_slice()));
    assert_eq!(content_of(actions, "dossier/étoile-éàç.txt"), Some(unicode));
    assert!(has_directory(actions, "dossier"));
    assert!(has_directory(actions, "dossier/sous-dossier"));
}

#[test]
fn roundtrip_mixed_files_and_folders_selection() {
    let selected = vec![
        file("/src/isole.txt", b"fichier isole hors dossier"),
        folder("/src/sous", vec![file("/src/sous/interne.txt", b"fichier dans un dossier")]),
    ];
    let archive = build_archive(selected).unwrap();
    let extraction = extract_archive(&archive.bytes);
    assert!(extraction.result.is_ok());
    assert_eq!(
        content_of(&extraction.actions, "isole.txt"),
        Some(b"fichier isole hors dossier".as_slice())
    );
    assert_eq!(
        content_of(&extraction.actions, "sous/interne.txt"),
        Some(b"fichier dans un dossier".as_slice())
    );
}

#[test]
fn symlink_is_skipped_with_warning() {
    let selected = vec![
        file("/src/reel.txt", b"cible reelle"),
        node("/src/lien.txt", Found::Symlink),
    ];
    let archive = build_archive(selected).unwrap();
    assert_eq!(archive.count, 1, "seul le fichier réel doit être archivé");
    assert_eq!(archive.warnings.len(), 1);
    assert!(archive.warnings[0].reason.contains("lien symbolique"));
    assert_eq!(archive.warnings[0].path, PathBuf::from("/src/lien.txt"));

    let extraction = extract_archive(&archive.bytes);
    assert!(content_of(&extraction.actions, "reel.txt").is_some());
    assert!(content_of(&extraction.actions, "lien.txt").is_none());
}

#[test]
fn permissions_are_preserved() {
    let selected = vec![file_with_mode("/src/executable.sh", 0o750, b"#!/bin/sh\necho hello\n")];
    let archive = build_archive(selected).unwrap();
    let extraction = extract_archive(&archive.bytes);
    assert!(extraction.result.is_ok());
    assert_eq!(mode_of(&extraction.actions, "executable.sh"), Some(0o750));
}

#[test]
fn extract_rejects_path_traversal_attempt() {
    let buf = one_file("../evasion.txt", 0o644, b"contenu");
    let extraction = extract_archive(&buf);
    match extraction.result {
        Err(ArchiveError::UnsafePath(path)) => assert_eq!(path, "../evasion.txt"),
        _ => panic!("le chemin devait être refusé"),
    }
    assert_eq!(extraction.actions.len(), 1);
}

#[test]
fn empty_file_roundtrip() {
    let archive = build_archive(vec![file("/src/rien.txt", b"")]).unwrap();
    let extraction = extract_archive(&archive.bytes);
    assert!(extraction.result.is_ok());
    assert_eq!(content_of(&extraction.actions, "rien.txt"), Some(b"".as_slice()));
}

#[test]
fn build_archive_rejects_path_longer_than_u16_max() {
    let huge_name = "a".repeat(u16::MAX as usize + 1);
    let result = write_entry(&huge_name, true, 0o644, &[]);
    assert!(matches!(result, Err(ArchiveError::PathTooLong(_))));
    let just_fits = "a".repeat(u16::MAX as usize);
    let entry = write_entry(&just_fits, true, 0o644, &[]).unwrap();
    assert_eq!(entry.len(), 2 + 65535 + 1 + 4 + 8);
    assert!(matches!(
        build_archive(vec![file(&format!("/{huge_name}"), b"x")]),
        Err(ArchiveError::PathTooLong(_))
    ));
}

#[test]
fn extract_rejects_entry_count_above_limit() {
    let limits = ExtractionLimits { max_entries: 2, ..ExtractionLimits::default() };
    let buf = 3u32.to_be_bytes();
    let extraction = extract_archive_with_limits(&buf, limits);
    match extraction.result {
        Err(ArchiveError::LimitExceeded(message)) => {
            assert_eq!(message, "nombre d'entrées (3) dépasse la limite autorisée (2)")
        }
        _ => panic!("l'archive devait être refusée"),
    }
    assert!(extraction.actions.is_empty());
}

#[test]
fn extract_rejects_entry_compressed_size_above_limit() {
    let limits = ExtractionLimits { max_entry_compressed_size: 10, ..ExtractionLimits::default() };
    let buf = one_entry("gros_fichier.bin", 0o644, 100);
    let extraction = extract_archive_with_limits(&buf, limits);
    match extraction.result {
        Err(ArchiveError::LimitExceeded(message)) => assert_eq!(
            message,
            "taille compressée déclarée pour gros_fichier.bin (100 octets) dépasse la limite par entrée (10 octets)"
        ),
        _ => panic!("l'archive devait être refusée"),
    }
}

#[test]
fn extract_does_not_allocate_declared_size_before_reading_actual_bytes() {
    let buf = one_entry("presque_vide.bin", 0o644, 2u64 * 1024 * 1024 * 1024);
    let extraction = extract_archive_with_limits(&buf, ExtractionLimits::default());
    assert!(
        matches!(extraction.result, Err(ArchiveError::Malformed) | Err(ArchiveError::Io(_))),
        "attendu une erreur de flux tronqué"
    );

    // The content is asked for in blocks, never all at once.
    let mut extractor = Extractor::new(ExtractionLimits::default());
    let mut rest = buf.as_slice();
    while !rest.is_empty() {
        let want = extractor.wanted();
        extractor.feed(&rest[..want]).unwrap();
        rest = &rest[want..];
    }
    assert_eq!(extractor.wanted(), READ_CHUNK_SIZE);
}

#[test]
fn extract_rejects_total_extracted_size_above_limit_decompression_bomb() {
    let huge_plain = vec![0u8; 10_000_000];
    let compressed = compress_bytes(&huge_plain).unwrap();
    assert!(
        (compressed.len() as u64) < huge_plain.len() as u64 / 10,
        "le contenu doit rester nettement plus compact compressé que décompressé pour ce test"
    );
    let limit = compressed.len() as u64 * 10;
    let limits =
        ExtractionLimits { max_total_extracted_size: limit, ..ExtractionLimits::default() };
    let buf = one_file("bombe.bin", 0o644, &huge_plain);
    let extraction = extract_archive_with_limits(&buf, limits);
    match &extraction.result {
        Err(ArchiveError::LimitExceeded(message)) => assert_eq!(
            message,
            &format!(
                "taille totale extraite dépasserait la limite autorisée ({limit} octets) en traitant bombe.bin"
            )
        ),
        _ => panic!("l'archive devait être refusée"),
    }
    assert!(content_of(&extraction.actions, "bombe.bin").is_none());
}

#[test]
fn extract_reports_malformed_not_limit_exceeded_for_genuinely_corrupt_stream() {
    let mut garbage = compress_bytes(&vec![0x55u8; 500]).unwrap();
    for b in garbage.iter_mut().skip(2).take(8) {
        *b ^= 0xFF;
    }
    let mut buf = one_entry("corrompu.bin", 0o644, garbage.len() as u64);
    buf.extend_from_slice(&garbage);
    let extraction = extract_archive(&buf);
    assert!(matches!(extraction.result, Err(ArchiveError::Malformed)));
}

#[test]
fn extract_never_restores_setuid_or_other_write_even_with_executable_bit_preserved() {
    let buf = one_file("innocent.txt", 0o4777, b"contenu");
    let extraction = extract_archive(&buf);
    assert!(extraction.result.is_ok());
    let mode = mode_of(&extraction.actions, "innocent.txt").unwrap();
    assert_eq!(mode & 0o4000, 0, "setuid ne doit jamais être restauré");
    assert_eq!(mode & 0o002, 0, "other-write ne doit jamais être restauré");
    assert_ne!(mode & 0o100, 0, "exécutable (owner) doit être restauré par défaut");
}

#[test]
fn extract_strips_executable_bit_when_explicitly_disabled() {
    let limits =
        ExtractionLimits { preserve_executable_bit: false, ..ExtractionLimits::default() };
    let buf = one_file("innocent.txt", 0o4777, b"contenu");
    let extraction = extract_archive_with_limits(&buf, limits);
    assert!(extraction.result.is_ok());
    let mode = mode_of(&extraction.actions, "innocent.txt").unwrap();
    assert_eq!(mode & 0o4000, 0, "setuid ne doit jamais être restauré");
    assert_eq!(mode & 0o002, 0, "other-write ne doit jamais être restauré");
    assert_eq!(
        mode & 0o111,
        0,
        "exécutable ne doit pas être restauré quand preserve_executable_bit=false"
    );
}

#[test]
fn extract_preserves_executable_bit_only_when_explicitly_requested() {
    let limits = ExtractionLimits { preserve_executable_bit: true, ..ExtractionLimits::default() };
    let buf = one_file("script.sh", 0o4755, b"#!/bin/sh\necho ok\n");
    let extraction = extract_archive_with_limits(&buf, limits);
    assert!(extraction.result.is_ok());
    let mode = mode_of(&extraction.actions, "script.sh").unwrap();
    assert_eq!(mode & 0o4000, 0, "setuid ne doit JAMAIS être restauré");
    assert_ne!(mode & 0o100, 0, "exécutable (owner) doit être restauré ici");
}

#[test]
fn extract_with_default_limits_still_accepts_normal_archive() {
    let archive = build_archive(vec![file("/src/normal.txt", b"contenu tout a fait normal")]);
    let archive = archive.unwrap();
    let extraction = extract_archive_with_limits(&archive.bytes, ExtractionLimits::default());
    assert!(extraction.result.is_ok());
    assert_eq!(
        content_of(&extraction.actions, "normal.txt"),
        Some(b"contenu tout a fait normal".as_slice())
    );
}

#[test]
fn modes_are_filtered() {
    assert_eq!(sanitize_mode(0o7777, false, true), 0o775);
    assert_eq!(sanitize_mode(0o7777, false, false), 0o664);
    assert_eq!(sanitize_mode(0o7777, true, false), 0o775);
    assert_eq!(sanitize_mode(0o100644, false, true), 0o644);
}

#[test]
fn default_limits() {
    let limits = ExtractionLimits::default();
    assert_eq!(limits.max_entries, 1_000_000);
    assert_eq!(limits.max_entry_compressed_size, 8 * 1024 * 1024 * 1024);
    assert_eq!(limits.max_total_extracted_size, 100 * 1024 * 1024 * 1024);
    assert!(limits.preserve_executable_bit);
}

#[test]
fn unsafe_paths_are_those_with_other_than_normal_components() {
    for path in [
        "", "/", "/etc/passwd", ".", "..", "./a", "../a", "a/..", "a/../b", "a/b/..", "//a",
    ] {
        assert!(validate_relative_path(path).is_err(), "{path}");
        let mut normal = std::path::Path::new(path).components();
        assert!(
            path.is_empty() || normal.any(|c| !matches!(c, std::path::Component::Normal(_))),
            "{path}"
        );
    }
    for path in [
        "a", "a/b", "a//b", "a/./b", "a/", "a/.", ".a", "..a", "a..", "...", "a/..b", "é/ü", "a\\b",
    ] {
        assert!(validate_relative_path(path).is_ok(), "{path}");
        let mut components = std::path::Path::new(path).components();
        assert!(components.all(|c| matches!(c, std::path::Component::Normal(_))), "{path}");
    }
}

#[test]
fn archive_layout_is_fixed() {
    let archive = build_archive(vec![folder("/d", vec![file_with_mode("/d/f", 0o600, b"x")])]);
    let archive = archive.unwrap();
    let body = compress_bytes(b"x").unwrap();
    let mut expected = vec![0, 0, 0, 2];
    expected.extend_from_slice(&[0, 1, b'd', 1, 0, 0, 0o755u16.to_be_bytes()[0], 0o355]);
    expected.extend_from_slice(&[0; 8]);
    expected.extend_from_slice(&[0, 3, b'd', b'/', b'f', 0, 0, 0, 0o600u16.to_be_bytes()[0], 0o200]);
    expected.extend_from_slice(&(body.len() as u64).to_be_bytes());
    expected.extend_from_slice(&body);
    assert_eq!(archive.bytes, expected);
}

#[test]
fn entries_are_listed_in_order_and_what_is_left_out_is_reported() {
    let unnamed = |path: &str, found| Node { path: PathBuf::from(path), name: None, found };
    let not_utf8 = |path: &str, found| Node {
        path: PathBuf::from(path),
        name: Some(vec![b'c', 0xff]),
        found,
    };
    let selected = vec![
        node("/absent", Found::Inaccessible { error: "introuvable".to_string() }),
        node(
            "/d",
            Found::Directory {
                payload: 1,
                children: vec![
                    node("/d/lien", Found::Symlink),
                    node(
                        "/d/e",
                        Found::Directory {
                            payload: 6,
                            children: vec![node("/d/e/b", Found::File { payload: 7 })],
                        },
                    ),
                    not_utf8(
                        "/d/??",
                        Found::Directory {
                            payload: 4,
                            children: vec![node("/d/??/x", Found::File { payload: 5 })],
                        },
                    ),
                    node("/d/a", Found::File { payload: 2 }),
                    unnamed("/d/?", Found::File { payload: 3 }),
                ],
            },
        ),
        node("/b", Found::File { payload: 8 }),
    ];
    let plan = plan_archive(selected);
    let entries: Vec<(&str, bool, i32)> =
        plan.entries.iter().map(|e| (e.rel_path.as_str(), e.is_dir, e.payload)).collect();
    assert_eq!(
        entries,
        vec![
            ("d", true, 1),
            ("d/a", false, 2),
            ("d/e", true, 6),
            ("d/e/b", false, 7),
            ("b", false, 8)
        ]
    );
    let warnings: Vec<(&str, &str)> = plan
        .warnings
        .iter()
        .map(|w| (w.path.to_str().unwrap(), w.reason.as_str()))
        .collect();
    assert_eq!(
        warnings,
        vec![
            ("/absent", "inaccessible : introuvable"),
            ("/d/?", "nom de fichier non-UTF8, ignoré"),
            ("/d/??", "nom de fichier non-UTF8, ignoré"),
            ("/d/lien", "lien symbolique ignoré (non suivi)"),
        ]
    );
}

#[test]
fn folders_are_gone_through_in_the_order_of_names() {
    let names = ["b", "a", "é", "B", "ab", "", "a"];
    let nodes: Vec<Node<()>> = names
        .iter()
        .map(|name| Node {
            path: PathBuf::from(name),
            name: Some(name.as_bytes().to_vec()),
            found: Found::Symlink,
        })
        .collect();
    assert_eq!(order_by_name(&nodes), vec![5, 3, 1, 6, 4, 0, 2]);

    let selected = vec![folder("/d", vec![file("/d/z", b"1"), file("/d/m", b"2")])];
    let archive = build_archive(selected).unwrap();
    let written: Vec<String> = extract_archive(&archive.bytes)
        .actions
        .into_iter()
        .filter_map(|action| match action {
            Action::File { path, .. } => Some(path),
            _ => None,
        })
        .collect();
    assert_eq!(written, vec!["d/m".to_string(), "d/z".to_string()]);
}

#[test]
fn malformed_archives_are_refused() {
    assert!(matches!(extract_archive(&[0, 0, 0]).result, Err(ArchiveError::Malformed)));
    // A path that is not UTF-8.
    let bad_path = [0, 0, 0, 1, 0, 1, 0xff];
    assert!(matches!(extract_archive(&bad_path).result, Err(ArchiveError::Malformed)));
    // A type that is neither a file nor a folder.
    let mut bad_type = one_file("a", 0o644, b"x");
    bad_type[7] = 2;
    assert!(matches!(extract_archive(&bad_type).result, Err(ArchiveError::Malformed)));
    // Every cut of an archive.
    let whole = one_file("a", 0o644, b"contenu");
    for len in 0..whole.len() {
        assert!(matches!(extract_archive(&whole[..len]).result, Err(ArchiveError::Malformed)));
    }
    // What follows the last entry is ignored.
    let mut longer = whole.clone();
    longer.push(7);
    assert!(extract_archive(&longer).result.is_ok());
}

#[test]
fn limit_on_the_total_counts_all_files() {
    let selected = vec![file("/a", &[1; 60]), file("/b", &[2; 60])];
    let archive = build_archive(selected).unwrap();
    let exact = ExtractionLimits { max_total_extracted_size: 120, ..ExtractionLimits::default() };
    assert!(extract_archive_with_limits(&archive.bytes, exact).result.is_ok());
    let short = ExtractionLimits { max_total_extracted_size: 119, ..ExtractionLimits::default() };
    let extraction = extract_archive_with_limits(&archive.bytes, short);
    assert!(matches!(extraction.result, Err(ArchiveError::LimitExceeded(_))));
    assert_eq!(content_of(&extraction.actions, "a"), Some([1u8; 60].as_slice()));
    assert!(content_of(&extraction.actions, "b").is_none());
}

#[test]
fn large_content_goes_through_in_blocks() {
    let mut state = 0x9e37_79b9_7f4a_7c15u64;
    let mut content = Vec::new();
    for _ in 0..400_000 {
        state ^= state << 13;
        state ^= state >> 7;
        state ^= state << 17;
        content.push((state >> 32) as u8);
    }
    let archive = build_archive(vec![file("/gros", &content)]).unwrap();
    assert!(archive.bytes.len() > 2 * READ_CHUNK_SIZE);
    let extraction = extract_archive(&archive.bytes);
    assert!(extraction.result.is_ok());
    assert_eq!(content_of(&extraction.actions, "gros"), Some(content.as_slice()));
}

#[test]
fn archive_errors_have_their_messages() {
    assert_eq!(
        ArchiveError::Io(IoError::new(IoErrorKind::Other, "disque plein")).message(),
        "erreur système : disque plein"
    );
    assert_eq!(
        ArchiveError::UnsafePath("../x".to_string()).message(),
        "chemin non sûr dans l'archive (absolu, vide, ou tentative d'évasion) : ../x"
    );
    assert_eq!(
        ArchiveError::PathTooLong("long".to_string()).message(),
        "chemin trop long pour le format d'archive (max 65535 octets UTF-8) : long"
    );
    assert_eq!(
        ArchiveError::LimitExceeded("trop".to_string()).message(),
        "limite de ressources d'extraction dépassée : trop"
    );
    assert_eq!(ArchiveError::Malformed.message(), "archive corrompue ou mal formée");
}
