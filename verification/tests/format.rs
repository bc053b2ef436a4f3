use chiffre_aes_core::crypto::{
    derive_key, encrypt_buffer, generate_base_nonce, generate_salt, Nonce, RawKey, NONCE_LEN,
    TAG_LEN,
};
use chiffre_aes_core::format::container::{chunk_aad, derive_nonce, hash_header};
use chiffre_aes_core::format::memory::{
    decrypt_bytes_with_key, encrypt_bytes_with_key, read_header,
};
use chiffre_aes_core::format::plan::{count_chunks, expected_plaintext_len, sizes_agree};
use chiffre_aes_core::format::stream::{check_cancelled, Decryptor, Encryptor};
use chiffre_aes_core::format::{HEADER_FIXED_LEN, HEADER_NONCE_COUNTER, MAGIC};
use chiffre_aes_core::{
    decrypt_bytes, encrypt_bytes, Argon2Params, CryptoError, FormatError, Header, IoError,
    IoErrorKind, Password, ProgressUpdate, DEFAULT_CHUNK_SIZE, MAX_ARGON2_MEMORY_KIB,
    MAX_CHUNK_SIZE, MIN_CHUNK_SIZE,
};
use std::collections::HashSet;

fn pwd(s: &str) -> Password {
    Password::new(s.to_string())
}

fn small_params() -> Argon2Params {
    Argon2Params { memory_kib: 8 * 1024, iterations: 1, parallelism: 1 }
}

fn multi_chunk_content() -> Vec<u8> {
    let mut content = vec![0u8; 2_684_354];
    for (i, b) in content.iter_mut().enumerate() {
        *b = (i % 251) as u8;
    }
    content
}

/// Encrypts chunk by chunk, answering each report with `on_progress`.
fn encrypt_streaming(
    data: &[u8],
    password: &Password,
    on_progress: &mut dyn FnMut(ProgressUpdate) -> bool,
) -> Result<Vec<u8>, FormatError> {
    let salt = generate_salt();
    let params = small_params();
    let key = derive_key(password, &salt, params).map_err(FormatError::Crypto)?;
    let header =
        Header::for_plaintext(salt, params, generate_base_nonce(), data.len() as u64);
    let mut out = header.to_bytes();
    let (mut encryptor, tag) = Encryptor::new(key, header.plan(), &out);
    out.extend_from_slice(&tag);
    let mut rest = data;
    while !encryptor.is_done() {
        let want = encryptor.wanted();
        let (sealed, progress) = encryptor.seal_chunk(&rest[..want])?;
        rest = &rest[want..];
        out.extend_from_slice(&sealed);
        check_cancelled(on_progress(progress))?;
    }
    Ok(out)
}

/// Decrypts chunk by chunk, answering each report with `on_progress`.
fn decrypt_streaming(
    data: &[u8],
    password: &Password,
    on_progress: &mut dyn FnMut(ProgressUpdate) -> bool,
) -> Result<Vec<u8>, FormatError> {
    let header = read_header(&data[..HEADER_FIXED_LEN])?;
    let mut rest = &data[HEADER_FIXED_LEN..];
    let key =
        derive_key(password, &header.salt, header.argon2_params).map_err(FormatError::Crypto)?;
    let mut decryptor =
        Decryptor::new(key, header.plan(), &data[..HEADER_FIXED_LEN], &rest[..TAG_LEN])?;
    rest = &rest[TAG_LEN..];
    let mut out = Vec::new();
    while !decryptor.is_done() {
        let want = decryptor.wanted().min(rest.len());
        let (plaintext, progress) = decryptor.open_chunk(&rest[..want])?;
        rest = &rest[want..];
        out.extend_from_slice(plaintext.as_slice());
        check_cancelled(on_progress(progress))?;
    }
    decryptor.finish(!rest.is_empty())?;
    Ok(out)
}

#[test]
fn roundtrip_small_file() {
    let original = b"Hello, monde ! Contenu de test.";
    let password = pwd("un-mot-de-passe-de-test-solide");
    let enc = encrypt_bytes(original, &password, small_params()).unwrap();
    let restored = decrypt_bytes(&enc, &password).unwrap();
    assert_eq!(restored.as_slice(), original);
}

#[test]
fn roundtrip_empty_file() {
    let password = pwd("mot-de-passe-fichier-vide-123");
    let enc = encrypt_bytes(b"", &password, small_params()).unwrap();
    let restored = decrypt_bytes(&enc, &password).unwrap();
    assert_eq!(restored.as_slice(), b"");
    assert_eq!(restored.len(), 0);
}

#[test]
fn roundtrip_multi_chunk_file() {
    let content = multi_chunk_content();
    let password = pwd("mot-de-passe-multi-chunk-xyz");
    let enc = encrypt_bytes(&content, &password, small_params()).unwrap();
    let restored = decrypt_bytes(&enc, &password).unwrap();
    assert_eq!(restored.as_slice(), content.as_slice());
}

#[test]
fn decrypt_fails_with_wrong_password_before_writing_anything() {
    let enc =
        encrypt_bytes(b"donnee confidentielle", &pwd("bon-mot-de-passe-ici"), small_params())
            .unwrap();
    let result = decrypt_bytes(&enc, &pwd("mauvais-mot-de-passe"));
    assert!(matches!(result, Err(FormatError::WrongPassword)));
    let mut written = 0;
    let result = decrypt_streaming(&enc, &pwd("mauvais-mot-de-passe"), &mut |_| {
        written += 1;
        true
    });
    assert!(matches!(result, Err(FormatError::WrongPassword)));
    assert_eq!(written, 0);
}

#[test]
fn decrypt_fails_on_corrupted_chunk() {
    let password = pwd("mot-de-passe-corruption-test");
    let mut bytes = encrypt_bytes(&vec![b'X'; 5000], &password, small_params()).unwrap();
    let corrupt_pos = HEADER_FIXED_LEN + TAG_LEN + 10;
    bytes[corrupt_pos] ^= 0xFF;
    let result = decrypt_bytes(&bytes, &password);
    assert!(matches!(result, Err(FormatError::Corrupted)));
}

#[test]
fn decrypt_fails_on_truncated_file() {
    let password = pwd("mot-de-passe-troncature-test");
    let bytes = encrypt_bytes(&vec![b'Y'; 5000], &password, small_params()).unwrap();
    let truncated = &bytes[..bytes.len() - 5];
    let result = decrypt_bytes(truncated, &password);
    assert!(matches!(result, Err(FormatError::Truncated)));
}

/// A container of two full chunks of the smallest size, made by hand. Each call
/// uses a fresh salt and base nonce.
fn build_two_chunk_enc(aads: [(u64, bool); 2]) -> (Vec<u8>, Password) {
    let password = pwd("mot-de-passe-bas-niveau-test");
    let params = small_params();
    let salt = generate_salt();
    let base_nonce = generate_base_nonce();
    let key = derive_key(&password, &salt, params).unwrap();

    let chunk_size: u32 = MIN_CHUNK_SIZE;
    let plaintext_a = vec![b'A'; chunk_size as usize];
    let plaintext_b = vec![b'B'; chunk_size as usize];
    let total_size = (plaintext_a.len() + plaintext_b.len()) as u64;

    let header = Header {
        salt,
        argon2_params: params,
        base_nonce,
        chunk_size,
        total_chunks: 2,
        total_plaintext_size: total_size,
    };
    let header_bytes = header.to_bytes();
    let header_nonce = derive_nonce(&header.base_nonce, HEADER_NONCE_COUNTER);
    let header_tag =
        encrypt_buffer(&key, Nonce::from_raw_unchecked(header_nonce), &[], &header_bytes).unwrap();
    let header_hash = hash_header(&header_bytes, &header_tag);

    let aad0 = chunk_aad(&header_hash, aads[0].0, aads[0].1);
    let aad1 = chunk_aad(&header_hash, aads[1].0, aads[1].1);
    let nonce0 = derive_nonce(&header.base_nonce, 0);
    let nonce1 = derive_nonce(&header.base_nonce, 1);
    let c0 =
        encrypt_buffer(&key, Nonce::from_raw_unchecked(nonce0), &plaintext_a, &aad0).unwrap();
    let c1 =
        encrypt_buffer(&key, Nonce::from_raw_unchecked(nonce1), &plaintext_b, &aad1).unwrap();

    let mut enc = header_bytes;
    enc.extend_from_slice(&header_tag);
    enc.extend_from_slice(&c0);
    enc.extend_from_slice(&c1);
    (enc, password)
}

const IN_ORDER: [(u64, bool); 2] = [(0, false), (1, true)];

#[test]
fn container_made_by_hand_is_accepted() {
    let (bytes, password) = build_two_chunk_enc(IN_ORDER);
    let restored = decrypt_bytes(&bytes, &password).unwrap();
    let mut expected = vec![b'A'; 1024];
    expected.extend_from_slice(&[b'B'; 1024]);
    assert_eq!(restored.as_slice(), expected.as_slice());
}

#[test]
fn decrypt_fails_on_duplicated_chunk() {
    let (mut bytes, password) = build_two_chunk_enc(IN_ORDER);
    let chunk_len = MIN_CHUNK_SIZE as usize + TAG_LEN;
    let prefix_len = HEADER_FIXED_LEN + TAG_LEN;
    let c0 = bytes[prefix_len..prefix_len + chunk_len].to_vec();
    bytes[prefix_len + chunk_len..prefix_len + 2 * chunk_len].copy_from_slice(&c0);
    let result = decrypt_bytes(&bytes, &password);
    assert!(matches!(result, Err(FormatError::Corrupted)));
}

#[test]
fn decrypt_fails_on_extra_trailing_data() {
    let (mut bytes, password) = build_two_chunk_enc(IN_ORDER);
    bytes.push(0x42);
    let result = decrypt_bytes(&bytes, &password);
    assert!(matches!(result, Err(FormatError::Corrupted)));
}

#[test]
fn decrypt_fails_on_chunk_from_another_archive() {
    let (mut bytes_a, password) = build_two_chunk_enc(IN_ORDER);
    let (bytes_b, _) = build_two_chunk_enc(IN_ORDER);
    let chunk_len = MIN_CHUNK_SIZE as usize + TAG_LEN;
    let prefix_len = HEADER_FIXED_LEN + TAG_LEN;
    bytes_a[prefix_len..prefix_len + chunk_len]
        .copy_from_slice(&bytes_b[prefix_len..prefix_len + chunk_len]);
    let result = decrypt_bytes(&bytes_a, &password);
    assert!(matches!(result, Err(FormatError::Corrupted)));
}

#[test]
fn decrypt_fails_when_chunk_tag_specifically_modified() {
    let (mut bytes, password) = build_two_chunk_enc(IN_ORDER);
    let chunk_len = MIN_CHUNK_SIZE as usize + TAG_LEN;
    let prefix_len = HEADER_FIXED_LEN + TAG_LEN;
    let tag_last_byte_pos = prefix_len + chunk_len - 1;
    bytes[tag_last_byte_pos] ^= 0xFF;
    let result = decrypt_bytes(&bytes, &password);
    assert!(matches!(result, Err(FormatError::Corrupted)));
}

#[test]
fn header_magic_mismatch_is_rejected() {
    let password = pwd("mot-de-passe-magic-test");
    let mut bytes = encrypt_bytes(b"contenu", &password, small_params()).unwrap();
    bytes[0] ^= 0xFF;
    let result = decrypt_bytes(&bytes, &password);
    assert!(matches!(result, Err(FormatError::InvalidHeader)));
}

#[test]
fn header_version_mismatch_is_rejected() {
    let password = pwd("mot-de-passe-version-test");
    let mut bytes = encrypt_bytes(b"contenu", &password, small_params()).unwrap();
    bytes[4] = 0xFF;
    let result = decrypt_bytes(&bytes, &password);
    assert!(matches!(result, Err(FormatError::InvalidHeader)));
}

#[test]
fn chunk_size_below_minimum_in_header_is_rejected() {
    let password = pwd("mot-de-passe-chunk-min-test");
    let mut bytes = encrypt_bytes(b"contenu de test", &password, small_params()).unwrap();
    let offset = 4 + 1 + 16 + 9 + 12;
    bytes[offset..offset + 4].copy_from_slice(&100u32.to_be_bytes());
    let result = decrypt_bytes(&bytes, &password);
    assert!(matches!(result, Err(FormatError::InvalidHeader)));
}

#[test]
fn chunk_size_above_maximum_in_header_is_rejected() {
    let password = pwd("mot-de-passe-chunk-max-test");
    let mut bytes = encrypt_bytes(b"contenu de test", &password, small_params()).unwrap();
    let offset = 4 + 1 + 16 + 9 + 12;
    let too_big = MAX_CHUNK_SIZE + 1;
    bytes[offset..offset + 4].copy_from_slice(&too_big.to_be_bytes());
    let result = decrypt_bytes(&bytes, &password);
    assert!(matches!(result, Err(FormatError::InvalidHeader)));
}

#[test]
fn total_chunks_inconsistent_with_size_is_rejected() {
    let password = pwd("mot-de-passe-total-chunks-test");
    let mut bytes = encrypt_bytes(b"contenu court", &password, small_params()).unwrap();
    let offset = 4 + 1 + 16 + 9 + 12 + 4;
    bytes[offset..offset + 8].copy_from_slice(&2u64.to_be_bytes());
    let result = decrypt_bytes(&bytes, &password);
    assert!(matches!(result, Err(FormatError::InvalidHeader)));
}

#[test]
fn argon2_params_tampered_in_header_rejected_before_password_check() {
    let password = pwd("mot-de-passe-argon-tampered-test");
    let mut bytes = encrypt_bytes(b"contenu de test", &password, small_params()).unwrap();
    let offset = 4 + 1 + 16;
    let hostile = MAX_ARGON2_MEMORY_KIB + 1;
    bytes[offset..offset + 4].copy_from_slice(&hostile.to_be_bytes());
    let result = decrypt_bytes(&bytes, &password);
    assert!(matches!(
        result,
        Err(FormatError::Crypto(CryptoError::Argon2ParamsOutOfPolicy))
    ));
}

#[test]
fn decrypt_fails_on_reordered_chunks() {
    let (bytes, password) = build_two_chunk_enc([(1, false), (0, true)]);
    let result = decrypt_bytes(&bytes, &password);
    assert!(matches!(result, Err(FormatError::Corrupted)));
}

#[test]
fn derive_nonce_is_injective_over_a_wide_range_of_counters() {
    let base_nonce = generate_base_nonce();
    let mut counters: Vec<u64> = (0..2_000).collect();
    counters.extend([
        u32::MAX as u64 - 1,
        u32::MAX as u64,
        u32::MAX as u64 + 1,
        u64::MAX - 2,
        u64::MAX - 1,
        u64::MAX,
        0xAAAA_AAAA_AAAA_AAAA,
        0x5555_5555_5555_5555,
    ]);
    let distinct_counters: HashSet<u64> = counters.iter().copied().collect();
    assert_eq!(distinct_counters.len(), counters.len());

    let nonces: Vec<[u8; NONCE_LEN]> =
        counters.iter().map(|&c| derive_nonce(&base_nonce, c)).collect();
    let unique: HashSet<[u8; NONCE_LEN]> = nonces.iter().copied().collect();
    assert_eq!(unique.len(), counters.len());
}

#[test]
fn derive_nonce_differing_counters_always_yield_differing_nonces() {
    let base_nonce = generate_base_nonce();
    let pairs: &[(u64, u64)] = &[
        (0, 1),
        (0, u64::MAX),
        (1, u64::MAX),
        (1_000, 1_001),
        (0, 1 << 32),
        (1 << 63, (1 << 63) + 1),
        (0xFFFF_FFFF_0000_0000, 0x0000_0000_FFFF_FFFF),
    ];
    for &(a, b) in pairs {
        assert_ne!(a, b, "cas de test invalide : les deux compteurs sont identiques");
        let nonce_a = derive_nonce(&base_nonce, a);
        let nonce_b = derive_nonce(&base_nonce, b);
        assert_ne!(nonce_a, nonce_b, "compteurs {a} et {b} (distincts) ont produit le même nonce");
    }
}

#[test]
fn header_nonce_never_collides_with_any_chunk_nonce_in_practice() {
    let base_nonce = generate_base_nonce();
    let header_nonce = derive_nonce(&base_nonce, HEADER_NONCE_COUNTER);
    for chunk_index in 0..10_000u64 {
        let chunk_nonce = derive_nonce(&base_nonce, chunk_index);
        assert_ne!(
            header_nonce, chunk_nonce,
            "le nonce de l'en-tête coïncide avec celui du chunk {chunk_index}"
        );
    }
}

#[test]
fn derive_nonce_is_deterministic_for_a_given_base_and_counter() {
    let base_nonce = generate_base_nonce();
    for counter in [0u64, 1, 42, u64::MAX / 2, u64::MAX] {
        assert_eq!(derive_nonce(&base_nonce, counter), derive_nonce(&base_nonce, counter));
    }
}

#[test]
fn derive_nonce_xors_the_counter_on_the_last_eight_bytes() {
    let base = [0xffu8; NONCE_LEN];
    assert_eq!(
        derive_nonce(&base, 0x0102_0304_0506_0708),
        [0xff, 0xff, 0xff, 0xff, 0xfe, 0xfd, 0xfc, 0xfb, 0xfa, 0xf9, 0xf8, 0xf7]
    );
}

#[test]
fn progress_is_reported_for_each_chunk_and_reaches_100_percent() {
    let content = multi_chunk_content();
    let password = pwd("mot-de-passe-progression-test");
    let mut updates: Vec<ProgressUpdate> = Vec::new();
    encrypt_streaming(&content, &password, &mut |u| {
        updates.push(u);
        true
    })
    .unwrap();

    assert_eq!(updates.len(), 3, "3 chunks attendus pour ~2.56 Mo à 1 Mo/chunk");
    assert_eq!(updates.last().unwrap().bytes_done, content.len() as u64);
    assert_eq!(updates.last().unwrap().bytes_total, content.len() as u64);
    assert_eq!(updates.last().unwrap().total_chunks, 3);
    assert_eq!(updates.last().unwrap().chunk_index, 2);
    assert!(updates.windows(2).all(|w| w[0].bytes_done < w[1].bytes_done));
}

#[test]
fn cancelling_mid_progress_leaves_no_output_file() {
    let content = multi_chunk_content();
    let password = pwd("mot-de-passe-annulation-test");
    let mut calls = 0;
    let result = encrypt_streaming(&content, &password, &mut |_| {
        calls += 1;
        calls < 2
    });
    assert!(matches!(result, Err(FormatError::Cancelled)));
    assert_eq!(calls, 2);
}

#[test]
fn encrypt_file_without_progress_still_works_unchanged() {
    let password = pwd("mot-de-passe-retrocompat");
    let enc = encrypt_bytes(b"contenu inchange", &password, small_params()).unwrap();
    let restored = decrypt_bytes(&enc, &password).unwrap();
    assert_eq!(restored.as_slice(), b"contenu inchange");
}

#[test]
fn decrypt_progress_is_reported_for_each_chunk_and_reaches_100_percent() {
    let content = multi_chunk_content();
    let password = pwd("mot-de-passe-progression-dechiffrement");
    let enc = encrypt_bytes(&content, &password, small_params()).unwrap();

    let mut updates: Vec<ProgressUpdate> = Vec::new();
    let restored = decrypt_streaming(&enc, &password, &mut |u| {
        updates.push(u);
        true
    })
    .unwrap();

    assert_eq!(updates.len(), 3);
    assert_eq!(updates.last().unwrap().bytes_done, content.len() as u64);
    assert_eq!(updates.last().unwrap().bytes_total, content.len() as u64);
    assert_eq!(restored, content);
}

#[test]
fn cancelling_decrypt_mid_progress_leaves_no_output_file() {
    let content = multi_chunk_content();
    let password = pwd("mot-de-passe-annulation-dechiffrement");
    let enc = encrypt_bytes(&content, &password, small_params()).unwrap();
    let mut calls = 0;
    let result = decrypt_streaming(&enc, &password, &mut |_| {
        calls += 1;
        calls < 2
    });
    assert!(matches!(result, Err(FormatError::Cancelled)));
    assert_eq!(calls, 2);
}

#[test]
fn decrypt_file_without_progress_still_works_unchanged() {
    let password = pwd("mot-de-passe-retrocompat-dechiffrement");
    let original = b"contenu inchange (dechiffrement)";
    let enc = encrypt_bytes(original, &password, small_params()).unwrap();
    assert_eq!(decrypt_bytes(&enc, &password).unwrap().as_slice(), original);
}

#[test]
fn streaming_and_memory_containers_are_interchangeable() {
    let content = multi_chunk_content();
    let password = pwd("mot-de-passe-des-deux-chemins");
    let streamed = encrypt_streaming(&content, &password, &mut |_| true).unwrap();
    assert_eq!(decrypt_bytes(&streamed, &password).unwrap().as_slice(), content.as_slice());
}

#[test]
fn header_has_62_bytes_in_a_fixed_layout() {
    assert_eq!(HEADER_FIXED_LEN, 62);
    let header = Header {
        salt: [0x11; 16],
        argon2_params: Argon2Params { memory_kib: 0x0102_0304, iterations: 5, parallelism: 6 },
        base_nonce: [0x22; 12],
        chunk_size: 0x0010_0000,
        total_chunks: 2,
        total_plaintext_size: 0x0010_0001,
    };
    let mut expected = b"ENC1".to_vec();
    assert_eq!(expected, MAGIC);
    expected.push(1);
    expected.extend_from_slice(&[0x11; 16]);
    expected.extend_from_slice(&[1, 2, 3, 4, 0, 0, 0, 5, 6]);
    expected.extend_from_slice(&[0x22; 12]);
    expected.extend_from_slice(&[0, 0x10, 0, 0]);
    expected.extend_from_slice(&[0, 0, 0, 0, 0, 0, 0, 2]);
    expected.extend_from_slice(&[0, 0, 0, 0, 0, 0x10, 0, 1]);
    assert_eq!(header.to_bytes(), expected);

    let array: [u8; HEADER_FIXED_LEN] = expected.clone().try_into().unwrap();
    let read = Header::from_bytes(&array).unwrap();
    assert_eq!(read.to_bytes(), expected);
    assert_eq!(read.total_plaintext_size, 0x0010_0001);
}

#[test]
fn header_sizes_must_agree() {
    assert!(sizes_agree(1024, 1, 0));
    assert!(!sizes_agree(1024, 0, 0));
    assert!(sizes_agree(1024, 1, 1024));
    assert!(sizes_agree(1024, 2, 1025));
    assert!(!sizes_agree(1023, 1, 1));
    assert!(sizes_agree(MAX_CHUNK_SIZE, 1, 1));
    assert!(!sizes_agree(MAX_CHUNK_SIZE + 1, 1, 1));
    assert!(!sizes_agree(1024, 1 << 54, u64::MAX));
    assert_eq!(count_chunks(0, DEFAULT_CHUNK_SIZE), 1);
    assert_eq!(count_chunks(1 << 20, DEFAULT_CHUNK_SIZE), 1);
    assert_eq!(count_chunks((1 << 20) + 1, DEFAULT_CHUNK_SIZE), 2);
    assert_eq!(count_chunks(u64::MAX, 1024), 1 << 54);
}

#[test]
fn last_chunk_holds_what_is_left() {
    let header =
        Header::for_plaintext([0; 16], small_params(), [0; 12], 2 * DEFAULT_CHUNK_SIZE as u64 + 7);
    let plan = header.plan();
    assert_eq!(header.total_chunks, 3);
    assert_eq!(expected_plaintext_len(&plan, 0), DEFAULT_CHUNK_SIZE as u64);
    assert_eq!(expected_plaintext_len(&plan, 1), DEFAULT_CHUNK_SIZE as u64);
    assert_eq!(expected_plaintext_len(&plan, 2), 7);
}

#[test]
fn chunk_aad_is_hash_index_and_mark() {
    let mut expected = vec![9u8; 32];
    expected.extend_from_slice(&[0, 0, 0, 0, 0, 0, 1, 2, 1]);
    assert_eq!(chunk_aad(&[9; 32], 0x0102, true), expected);
    *expected.last_mut().unwrap() = 0;
    assert_eq!(chunk_aad(&[9; 32], 0x0102, false), expected);
}

#[test]
fn header_hash_is_sha_256() {
    // SHA-256 of "abc".
    let expected = [
        0xba, 0x78, 0x16, 0xbf, 0x8f, 0x01, 0xcf, 0xea, 0x41, 0x41, 0x40, 0xde, 0x5d, 0xae, 0x22,
        0x23, 0xb0, 0x03, 0x61, 0xa3, 0x96, 0x17, 0x7a, 0x9c, 0xb4, 0x10, 0xff, 0x61, 0xf2, 0x00,
        0x15, 0xad,
    ];
    assert_eq!(hash_header(b"a", b"bc"), expected);
}

#[test]
fn container_length_is_known_in_advance() {
    let password = pwd("longueur");
    for (size, chunks) in [(0usize, 1usize), (1, 1), (1 << 20, 1), ((1 << 20) + 1, 2)] {
        let enc = encrypt_bytes(&vec![1; size], &password, small_params()).unwrap();
        assert_eq!(enc.len(), 62 + 16 + size + 16 * chunks);
    }
}

#[test]
fn every_cut_of_a_container_is_truncated() {
    let key = || RawKey::from_bytes([5; 32]).into_derived_key();
    let data = vec![3u8; 1500];
    let header = Header {
        chunk_size: 1024,
        total_chunks: 2,
        ..Header::for_plaintext([1; 16], small_params(), [2; 12], 1500)
    };
    let enc = encrypt_bytes_with_key(&data, &header, key());
    assert_eq!(decrypt_bytes_with_key(&enc, key()).unwrap().as_slice(), data.as_slice());
    for len in 0..enc.len() {
        assert!(matches!(
            decrypt_bytes_with_key(&enc[..len], key()),
            Err(FormatError::Truncated)
        ));
    }
    for extra in [1, 16, 2000] {
        let mut longer = enc.clone();
        longer.resize(enc.len() + extra, 0);
        assert!(matches!(decrypt_bytes_with_key(&longer, key()), Err(FormatError::Corrupted)));
    }
}

#[test]
fn every_altered_byte_of_a_container_is_refused() {
    let key = || RawKey::from_bytes([6; 32]).into_derived_key();
    let data = vec![4u8; 1100];
    let header = Header {
        chunk_size: 1024,
        total_chunks: 2,
        ..Header::for_plaintext([1; 16], small_params(), [2; 12], 1100)
    };
    let enc = encrypt_bytes_with_key(&data, &header, key());
    for i in 0..enc.len() {
        let mut altered = enc.clone();
        altered[i] ^= 0x10;
        let result = decrypt_bytes_with_key(&altered, key());
        assert!(result.is_err(), "octet {i}");
        if (HEADER_FIXED_LEN..HEADER_FIXED_LEN + TAG_LEN).contains(&i) {
            assert!(matches!(result, Err(FormatError::WrongPassword)));
        }
        if i >= HEADER_FIXED_LEN + TAG_LEN {
            assert!(matches!(result, Err(FormatError::Corrupted)));
        }
    }
}

#[test]
fn parameters_outside_the_policy_are_refused_when_encrypting() {
    let params = Argon2Params { iterations: 51, ..small_params() };
    assert!(matches!(
        encrypt_bytes(b"x", &pwd("y"), params),
        Err(FormatError::Crypto(CryptoError::Argon2ParamsOutOfPolicy))
    ));
}

#[test]
fn source_that_shrinks_is_reported() {
    let header = Header::for_plaintext([1; 16], small_params(), [2; 12], 10);
    let key = RawKey::from_bytes([6; 32]).into_derived_key();
    let (mut encryptor, _) = Encryptor::new(key, header.plan(), &header.to_bytes());
    assert_eq!(encryptor.wanted(), 10);
    match encryptor.seal_chunk(b"trop court"[..9].as_ref()) {
        Err(FormatError::Io(error)) => {
            assert_eq!(error.kind, IoErrorKind::UnexpectedEof);
            assert_eq!(error.message, "le fichier source est plus court que sa taille initiale");
        }
        _ => panic!("une erreur était attendue"),
    }
    assert!(!encryptor.is_done());
}

#[test]
fn format_errors_have_their_messages() {
    assert_eq!(FormatError::WrongPassword.message(), "mot de passe incorrect");
    assert_eq!(FormatError::Corrupted.message(), "fichier corrompu ou altéré");
    assert_eq!(FormatError::Truncated.message(), "fichier tronqué (données manquantes)");
    assert_eq!(
        FormatError::InvalidHeader.message(),
        "en-tête invalide (magic ou version incompatible)"
    );
    assert_eq!(
        FormatError::Io(IoError::new(IoErrorKind::Other, "disque plein")).message(),
        "erreur système : disque plein"
    );
    assert_eq!(
        FormatError::Crypto(CryptoError::KeyDerivationFailed).message(),
        "erreur cryptographique interne : échec de la dérivation de clé"
    );
    assert_eq!(FormatError::Cancelled.message(), "opération annulée");
}
