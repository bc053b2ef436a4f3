use chiffre_aes_core::crypto::{
    decrypt_buffer, derive_key, encrypt_buffer, generate_base_nonce, generate_salt, purge,
    Argon2Params, CryptoError, DerivedKey, Nonce, NonceSequence, Password, RawKey, KEY_LEN,
    MAX_ARGON2_ITERATIONS, MAX_ARGON2_MEMORY_KIB, MAX_ARGON2_PARALLELISM, MIN_ARGON2_ITERATIONS,
    MIN_ARGON2_MEMORY_KIB, MIN_ARGON2_PARALLELISM, NONCE_LEN, SALT_LEN, TAG_LEN,
};

fn test_password(s: &str) -> Password {
    Password::new(s.to_string())
}

/// Cheap parameters, for tests that do not depend on the cost.
fn small_params() -> Argon2Params {
    Argon2Params { memory_kib: 8 * 1024, iterations: 1, parallelism: 1 }
}

fn some_key(s: &str) -> DerivedKey {
    derive_key(&test_password(s), &[7u8; SALT_LEN], small_params()).unwrap()
}

fn from_hex(s: &str) -> Vec<u8> {
    (0..s.len() / 2).map(|i| u8::from_str_radix(&s[2 * i..2 * i + 2], 16).unwrap()).collect()
}

#[test]
fn generate_salt_is_not_all_zero_and_varies_between_calls() {
    let s1 = generate_salt();
    let s2 = generate_salt();
    assert_ne!(s1, [0u8; SALT_LEN], "le sel généré ne doit jamais être nul");
    assert_ne!(s1, s2, "deux sels générés successivement doivent différer");
}

#[test]
fn generate_base_nonce_is_not_all_zero_and_varies_between_calls() {
    let n1 = generate_base_nonce();
    let n2 = generate_base_nonce();
    assert_ne!(n1, [0u8; NONCE_LEN], "le nonce généré ne doit jamais être nul");
    assert_ne!(n1, n2, "deux nonces générés successivement doivent différer");
}

#[test]
fn derive_key_is_deterministic_given_same_salt_and_params() {
    let pwd = test_password("CorrectHorseBatteryStaple!42");
    let salt = generate_salt();
    let params = Argon2Params::default();

    let k1 = derive_key(&pwd, &salt, params).unwrap();
    let k2 = derive_key(&pwd, &salt, params).unwrap();

    assert_eq!(k1.as_bytes(), k2.as_bytes());
}

#[test]
fn derive_key_differs_with_different_salt() {
    let pwd = test_password("CorrectHorseBatteryStaple!42");
    let salt_a = generate_salt();
    let salt_b = generate_salt();
    let params = Argon2Params::default();

    let ka = derive_key(&pwd, &salt_a, params).unwrap();
    let kb = derive_key(&pwd, &salt_b, params).unwrap();

    assert_ne!(ka.as_bytes(), kb.as_bytes());
}

#[test]
fn derive_key_differs_with_different_password() {
    let salt = generate_salt();
    let params = Argon2Params::default();

    let ka = derive_key(&test_password("motdepasse-un"), &salt, params).unwrap();
    let kb = derive_key(&test_password("motdepasse-deux"), &salt, params).unwrap();

    assert_ne!(ka.as_bytes(), kb.as_bytes());
}

#[test]
fn encrypt_then_decrypt_roundtrip() {
    let pwd = test_password("un mot de passe suffisamment robuste !!");
    let salt = generate_salt();
    let nonce = generate_base_nonce();
    let params = Argon2Params::default();
    let key = derive_key(&pwd, &salt, params).unwrap();

    let plaintext = b"contenu secret a chiffrer, avec des caracteres divers: e a e u i c";
    let aad = b"contexte-authentifie";

    let ciphertext =
        encrypt_buffer(&key, Nonce::from_raw_unchecked(nonce), plaintext, aad).unwrap();
    assert_ne!(ciphertext.as_slice(), plaintext.as_slice());

    let decrypted =
        decrypt_buffer(&key, Nonce::from_raw_unchecked(nonce), &ciphertext, aad).unwrap();
    assert_eq!(decrypted.as_slice(), plaintext.as_slice());
}

#[test]
fn decrypt_fails_with_wrong_password() {
    let salt = generate_salt();
    let nonce = generate_base_nonce();
    let params = Argon2Params::default();

    let key_ok = derive_key(&test_password("bon-mot-de-passe-solide"), &salt, params).unwrap();
    let key_wrong =
        derive_key(&test_password("mauvais-mot-de-passe-solide"), &salt, params).unwrap();

    let plaintext = b"donnee sensible";
    let ciphertext =
        encrypt_buffer(&key_ok, Nonce::from_raw_unchecked(nonce), plaintext, b"aad").unwrap();

    let result = decrypt_buffer(&key_wrong, Nonce::from_raw_unchecked(nonce), &ciphertext, b"aad");
    assert!(matches!(result, Err(CryptoError::AuthenticationFailed)));
}

#[test]
fn decrypt_fails_if_ciphertext_tampered() {
    let pwd = test_password("mot de passe pour test de falsification");
    let salt = generate_salt();
    let nonce = generate_base_nonce();
    let params = Argon2Params::default();
    let key = derive_key(&pwd, &salt, params).unwrap();

    let plaintext = b"donnee integre";
    let mut ciphertext =
        encrypt_buffer(&key, Nonce::from_raw_unchecked(nonce), plaintext, b"aad").unwrap();

    let last = ciphertext.len() - 1;
    ciphertext[last] ^= 0xFF;

    let result = decrypt_buffer(&key, Nonce::from_raw_unchecked(nonce), &ciphertext, b"aad");
    assert!(matches!(result, Err(CryptoError::AuthenticationFailed)));
}

#[test]
fn decrypt_fails_if_aad_mismatches() {
    let pwd = test_password("mot de passe pour test aad");
    let salt = generate_salt();
    let nonce = generate_base_nonce();
    let params = Argon2Params::default();
    let key = derive_key(&pwd, &salt, params).unwrap();

    let plaintext = b"donnee liee a un contexte precis";
    let ciphertext =
        encrypt_buffer(&key, Nonce::from_raw_unchecked(nonce), plaintext, b"contexte-A").unwrap();

    let result =
        decrypt_buffer(&key, Nonce::from_raw_unchecked(nonce), &ciphertext, b"contexte-B");
    assert!(matches!(result, Err(CryptoError::AuthenticationFailed)));
}

#[test]
fn nonce_sequence_never_repeats_across_many_calls() {
    let mut seq = NonceSequence::new(generate_base_nonce());
    let mut seen = std::collections::HashSet::new();
    for _ in 0..10_000 {
        let n = seq.next().unwrap();
        assert!(seen.insert(*n.as_bytes()), "nonce répété détecté");
    }
}

#[test]
fn derived_key_zeroizes_on_drop() {
    let mut buf = [0xAAu8; KEY_LEN];
    purge(&mut buf);
    assert_eq!(buf, [0u8; KEY_LEN]);
}

#[test]
fn password_zeroizing_type_clears_on_drop() {
    let pwd = test_password("mot-de-passe-temporaire");
    assert_eq!(pwd.as_str(), "mot-de-passe-temporaire");
    drop(pwd);
}

#[test]
fn default_params_pass_validation() {
    assert!(Argon2Params::default().validate().is_ok());
}

#[test]
fn params_at_exact_bounds_pass_validation() {
    let at_min = Argon2Params {
        memory_kib: MIN_ARGON2_MEMORY_KIB,
        iterations: MIN_ARGON2_ITERATIONS,
        parallelism: MIN_ARGON2_PARALLELISM,
    };
    assert!(at_min.validate().is_ok());

    let at_max = Argon2Params {
        memory_kib: MAX_ARGON2_MEMORY_KIB,
        iterations: MAX_ARGON2_ITERATIONS,
        parallelism: MAX_ARGON2_PARALLELISM,
    };
    assert!(at_max.validate().is_ok());
}

#[test]
fn memory_zero_is_rejected() {
    let params = Argon2Params { memory_kib: 0, ..Argon2Params::default() };
    assert!(matches!(params.validate(), Err(CryptoError::Argon2ParamsOutOfPolicy)));
}

#[test]
fn memory_excessive_is_rejected() {
    let params =
        Argon2Params { memory_kib: MAX_ARGON2_MEMORY_KIB + 1, ..Argon2Params::default() };
    assert!(matches!(params.validate(), Err(CryptoError::Argon2ParamsOutOfPolicy)));
}

#[test]
fn iterations_zero_is_rejected() {
    let params = Argon2Params { iterations: 0, ..Argon2Params::default() };
    assert!(matches!(params.validate(), Err(CryptoError::Argon2ParamsOutOfPolicy)));
}

#[test]
fn iterations_excessive_is_rejected() {
    let params =
        Argon2Params { iterations: MAX_ARGON2_ITERATIONS + 1, ..Argon2Params::default() };
    assert!(matches!(params.validate(), Err(CryptoError::Argon2ParamsOutOfPolicy)));
}

#[test]
fn parallelism_zero_is_rejected() {
    let params = Argon2Params { parallelism: 0, ..Argon2Params::default() };
    assert!(matches!(params.validate(), Err(CryptoError::Argon2ParamsOutOfPolicy)));
}

#[test]
fn parallelism_excessive_is_rejected() {
    let params =
        Argon2Params { parallelism: MAX_ARGON2_PARALLELISM + 1, ..Argon2Params::default() };
    assert!(matches!(params.validate(), Err(CryptoError::Argon2ParamsOutOfPolicy)));
}

#[test]
fn derive_key_rejects_out_of_policy_params_without_deriving() {
    let pwd = test_password("peu importe");
    let salt = generate_salt();
    let hostile =
        Argon2Params { memory_kib: MAX_ARGON2_MEMORY_KIB + 1, iterations: 1, parallelism: 1 };
    let result = derive_key(&pwd, &salt, hostile);
    assert!(matches!(result, Err(CryptoError::Argon2ParamsOutOfPolicy)));
}

#[test]
fn default_params_are_64_mib_3_passes_4_lanes() {
    let params = Argon2Params::default();
    assert_eq!(params.memory_kib, 65536);
    assert_eq!(params.iterations, 3);
    assert_eq!(params.parallelism, 4);
}

#[test]
fn derived_key_is_that_of_argon2id() {
    let key = derive_key(&test_password("mot de passe"), b"0123456789abcdef", small_params());
    let mut expected = [0u8; KEY_LEN];
    argon2::Argon2::new(
        argon2::Algorithm::Argon2id,
        argon2::Version::V0x13,
        argon2::Params::new(8 * 1024, 1, 1, Some(KEY_LEN)).unwrap(),
    )
    .hash_password_into("mot de passe".as_bytes(), b"0123456789abcdef", &mut expected)
    .unwrap();
    assert_eq!(key.unwrap().as_bytes(), &expected);
}

#[test]
fn aes_256_gcm_known_answers() {
    let key = RawKey::from_bytes([0u8; KEY_LEN]);
    assert_eq!(key.as_bytes(), &[0u8; KEY_LEN]);
    let sealed = aes_with_zero_key(&[], &[]);
    assert_eq!(sealed, from_hex("530f8afbc74536b9a963b4f1c4cb738b"));
    let sealed = aes_with_zero_key(&[0u8; 16], &[]);
    assert_eq!(
        sealed,
        from_hex("cea7403d4d606b6e074ec5d3baf39d18d0d1c8a799996bf0265b98b5d48ab919")
    );
}

/// AES-256-GCM with an all-zero key and nonce.
fn aes_with_zero_key(plaintext: &[u8], aad: &[u8]) -> Vec<u8> {
    let key = RawKey::from_bytes([0u8; KEY_LEN]).into_derived_key();
    encrypt_buffer(&key, Nonce::from_raw_unchecked([0u8; NONCE_LEN]), plaintext, aad).unwrap()
}

#[test]
fn sealed_buffer_is_longer_by_the_tag_and_depends_on_every_input() {
    let key = some_key("a");
    let other_key = some_key("b");
    let nonce = |n: u8| Nonce::from_raw_unchecked([n; NONCE_LEN]);
    let sealed = encrypt_buffer(&key, nonce(1), b"bonjour", b"aad").unwrap();
    assert_eq!(sealed.len(), 7 + TAG_LEN);
    assert_ne!(sealed, encrypt_buffer(&other_key, nonce(1), b"bonjour", b"aad").unwrap());
    assert_ne!(sealed, encrypt_buffer(&key, nonce(2), b"bonjour", b"aad").unwrap());
    assert_ne!(sealed, encrypt_buffer(&key, nonce(1), b"bonsoir", b"aad").unwrap());
    assert_ne!(sealed, encrypt_buffer(&key, nonce(1), b"bonjour", b"").unwrap());
    assert!(matches!(
        decrypt_buffer(&key, nonce(2), &sealed, b"aad"),
        Err(CryptoError::AuthenticationFailed)
    ));
    assert!(matches!(
        decrypt_buffer(&key, nonce(1), &sealed[..TAG_LEN - 1], b"aad"),
        Err(CryptoError::AuthenticationFailed)
    ));
}

#[test]
fn every_other_tag_is_refused() {
    let key = some_key("tag");
    let sealed =
        encrypt_buffer(&key, Nonce::from_raw_unchecked([3; NONCE_LEN]), b"abc", b"").unwrap();
    for i in 3..sealed.len() {
        for bit in 0..8 {
            let mut altered = sealed.clone();
            altered[i] ^= 1 << bit;
            let result =
                decrypt_buffer(&key, Nonce::from_raw_unchecked([3; NONCE_LEN]), &altered, b"");
            assert!(matches!(result, Err(CryptoError::AuthenticationFailed)));
        }
    }
}

#[test]
fn nonces_of_a_sequence_are_the_base_xored_with_the_counter() {
    let base = [0xf0u8; NONCE_LEN];
    let mut sequence = NonceSequence::new(base);
    assert_eq!(sequence.next().unwrap().as_bytes(), &base);
    let mut expected = base;
    expected[NONCE_LEN - 1] ^= 1;
    assert_eq!(sequence.next().unwrap().as_bytes(), &expected);
}

#[test]
fn random_keys_differ() {
    let a = RawKey::generate_random();
    let b = RawKey::generate_random();
    assert_ne!(a.as_bytes(), &[0u8; KEY_LEN]);
    assert_ne!(a.as_bytes(), b.as_bytes());
    assert_eq!(a.clone().as_bytes(), a.as_bytes());
}

#[test]
fn crypto_errors_have_their_messages() {
    assert_eq!(CryptoError::InvalidParams.message(), "paramètres Argon2id invalides");
    assert_eq!(
        CryptoError::Argon2ParamsOutOfPolicy.message(),
        "paramètres Argon2id hors politique de sécurité (min/max)"
    );
    assert_eq!(CryptoError::KeyDerivationFailed.message(), "échec de la dérivation de clé");
    assert_eq!(
        CryptoError::AuthenticationFailed.message(),
        "échec d'authentification (mot de passe incorrect ou donnée altérée)"
    );
    assert_eq!(
        CryptoError::NonceSequenceExhausted.message(),
        "séquence de nonces épuisée (compteur 64 bits atteint)"
    );
}

#[test]
fn decryption_succeeds_on_what_encryption_gives_and_on_nothing_shorter_than_a_tag() {
    let key = some_key("iff");
    let nonce = || Nonce::from_raw_unchecked([5; NONCE_LEN]);
    for len in [0usize, 1, 15, 16, 17, 100] {
        let data = vec![0xa5; len];
        let sealed = encrypt_buffer(&key, nonce(), &data, b"aad").unwrap();
        let opened = decrypt_buffer(&key, nonce(), &sealed, b"aad").unwrap();
        assert_eq!(opened.as_slice(), data.as_slice());
        assert_eq!(encrypt_buffer(&key, nonce(), opened.as_slice(), b"aad").unwrap(), sealed);
        assert!(matches!(
            decrypt_buffer(&key, nonce(), &sealed[1..], b"aad"),
            Err(CryptoError::AuthenticationFailed)
        ));
    }
    for len in 0..16 {
        assert!(matches!(
            decrypt_buffer(&key, nonce(), &vec![0; len], b"aad"),
            Err(CryptoError::AuthenticationFailed)
        ));
    }
}
