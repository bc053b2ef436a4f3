use chiffre_aes_core::format::raw_key::{
    decrypt_bytes_with_raw_key, encrypt_bytes_with_header_v2, encrypt_bytes_with_raw_key,
    header_for_recipients, inspect_key_requirement, HeaderKeyRequirement,
};
use chiffre_aes_core::format::recipients::{HeaderV2, KeySource, Recipient};
use chiffre_aes_core::{
    encrypt_bytes, Argon2Params, FormatError, Password, RawKey, DEFAULT_CHUNK_SIZE,
};

fn small_params() -> Argon2Params {
    Argon2Params { memory_kib: 8 * 1024, iterations: 1, parallelism: 1 }
}

fn recipient(id: &[u8], wrapped: &[u8]) -> Recipient {
    Recipient { recipient_id: id.to_vec(), wrapped_key: wrapped.to_vec() }
}

fn key(n: u8) -> RawKey {
    RawKey::from_bytes([n; 32])
}

#[test]
fn roundtrip_for_several_recipients_and_chunks() {
    let recipients = || vec![recipient(b"alice", &[1; 512]), recipient(b"bob", &[2; 512])];
    for size in [0usize, 1, (1 << 20) + 5] {
        let data = vec![0x5a; size];
        let enc = encrypt_bytes_with_raw_key(&data, key(7), recipients()).unwrap();
        let plain = decrypt_bytes_with_raw_key(&enc, key(7)).unwrap();
        assert_eq!(plain.as_slice(), data.as_slice());
        match inspect_key_requirement(&enc).unwrap() {
            HeaderKeyRequirement::Recipients(list) => {
                assert_eq!(list.len(), 2);
                assert_eq!(list[1].recipient_id, b"bob");
                assert_eq!(list[0].wrapped_key, vec![1; 512]);
            }
            HeaderKeyRequirement::Password => panic!("des destinataires étaient attendus"),
        }
        assert!(matches!(
            decrypt_bytes_with_raw_key(&enc, key(8)),
            Err(FormatError::WrongPassword)
        ));
    }
}

#[test]
fn header_v2_layout_is_fixed() {
    let header =
        header_for_recipients(vec![recipient(b"ab", b"xyz")], [0x33; 12], 3).unwrap();
    let mut expected = b"ENC1".to_vec();
    expected.extend_from_slice(&[2, 1, 0, 1, 0, 2, b'a', b'b', 0, 3, b'x', b'y', b'z']);
    expected.extend_from_slice(&[0x33; 12]);
    expected.extend_from_slice(&DEFAULT_CHUNK_SIZE.to_be_bytes());
    expected.extend_from_slice(&1u64.to_be_bytes());
    expected.extend_from_slice(&3u64.to_be_bytes());
    assert_eq!(header.to_bytes(), expected);

    let (read, len) = HeaderV2::read(&expected).unwrap();
    assert_eq!(len, expected.len());
    assert_eq!(read.to_bytes(), expected);

    let password = HeaderV2 {
        key_source: KeySource::Password { salt: [0x44; 16], argon2_params: small_params() },
        ..header
    };
    let mut expected = b"ENC1".to_vec();
    expected.extend_from_slice(&[2, 0]);
    expected.extend_from_slice(&[0x44; 16]);
    expected.extend_from_slice(&[0, 0, 0x20, 0, 0, 0, 0, 1, 1]);
    expected.extend_from_slice(&[0x33; 12]);
    expected.extend_from_slice(&DEFAULT_CHUNK_SIZE.to_be_bytes());
    expected.extend_from_slice(&1u64.to_be_bytes());
    expected.extend_from_slice(&3u64.to_be_bytes());
    assert_eq!(password.to_bytes(), expected);
    let enc = encrypt_bytes_with_header_v2(b"abc", &password, key(1));
    assert_eq!(&enc[..expected.len()], expected.as_slice());
    assert_eq!(decrypt_bytes_with_raw_key(&enc, key(1)).unwrap().as_slice(), b"abc");
    assert!(matches!(inspect_key_requirement(&enc), Ok(HeaderKeyRequirement::Password)));
}

#[test]
fn recipients_outside_the_policy_are_refused() {
    let refused = |recipients| {
        matches!(
            encrypt_bytes_with_raw_key(b"x", key(1), recipients),
            Err(FormatError::InvalidHeader)
        )
    };
    let accepted =
        |recipients| encrypt_bytes_with_raw_key(b"x", key(1), recipients).is_ok();
    assert!(accepted(vec![recipient(b"a", b"k"); 64]));
    assert!(refused(vec![recipient(b"a", b"k"); 65]));
    assert!(accepted(vec![recipient(&[1; 256], b"k")]));
    assert!(refused(vec![recipient(&[1; 257], b"k")]));
    assert!(accepted(vec![recipient(b"a", &[1; 1024])]));
    assert!(refused(vec![recipient(b"a", &[1; 1025])]));
    assert!(accepted(vec![recipient(&[1; 256], &[2; 1024]); 64]));
}

#[test]
fn declared_lengths_outside_the_policy_are_refused_before_anything_is_read() {
    let enc = encrypt_bytes_with_raw_key(b"x", key(1), vec![recipient(b"ab", b"xyz")]).unwrap();
    let altered = |at: usize, value: u16| {
        let mut altered = enc.clone();
        altered[at..at + 2].copy_from_slice(&value.to_be_bytes());
        decrypt_bytes_with_raw_key(&altered, key(1))
    };
    assert!(matches!(altered(6, 65), Err(FormatError::InvalidHeader)));
    assert!(matches!(altered(8, 257), Err(FormatError::InvalidHeader)));
    assert!(matches!(altered(12, 1025), Err(FormatError::InvalidHeader)));
    assert!(matches!(altered(12, 1024), Err(FormatError::Truncated)));
}

#[test]
fn altering_a_recipient_breaks_the_header() {
    let enc =
        encrypt_bytes_with_raw_key(b"bonjour", key(1), vec![recipient(b"ab", b"xyz")]).unwrap();
    for at in [10, 11, 14, 15, 16, 20] {
        let mut altered = enc.clone();
        altered[at] ^= 1;
        assert!(matches!(
            decrypt_bytes_with_raw_key(&altered, key(1)),
            Err(FormatError::WrongPassword)
        ));
    }
}

#[test]
fn every_cut_of_a_v2_container_is_truncated() {
    let enc =
        encrypt_bytes_with_raw_key(b"bonjour", key(1), vec![recipient(b"ab", b"xyz")]).unwrap();
    for len in 0..enc.len() {
        assert!(matches!(
            decrypt_bytes_with_raw_key(&enc[..len], key(1)),
            Err(FormatError::Truncated)
        ));
    }
    let mut longer = enc.clone();
    longer.push(0);
    assert!(matches!(decrypt_bytes_with_raw_key(&longer, key(1)), Err(FormatError::Corrupted)));
}

#[test]
fn versions_are_told_apart() {
    let password = Password::new("mot de passe".to_string());
    let v1 = encrypt_bytes(b"x", &password, small_params()).unwrap();
    assert!(matches!(inspect_key_requirement(&v1), Ok(HeaderKeyRequirement::Password)));
    assert!(matches!(
        decrypt_bytes_with_raw_key(&v1, key(1)),
        Err(FormatError::InvalidHeader)
    ));
    let v2 = encrypt_bytes_with_raw_key(b"x", key(1), Vec::new()).unwrap();
    assert!(matches!(
        chiffre_aes_core::decrypt_bytes(&v2, &password),
        Err(FormatError::InvalidHeader)
    ));
    assert!(matches!(inspect_key_requirement(b"ENC1"), Err(FormatError::Truncated)));
    assert!(matches!(inspect_key_requirement(b"ENC1\x01abc"), Err(FormatError::Truncated)));
    assert!(matches!(inspect_key_requirement(b"ENC2\x01\x00"), Err(FormatError::InvalidHeader)));
}

fn two_chunks() -> Vec<u8> {
    let data = vec![0x5a; (1 << 20) + 5];
    encrypt_bytes_with_raw_key(&data, key(7), vec![recipient(b"alice", &[1; 8])]).unwrap()
}

#[test]
fn no_other_tag_will_do_in_a_v2_container() {
    let enc = two_chunks();
    let (_, header_len) = HeaderV2::read(&enc).unwrap();
    let first_tag = header_len + 16 + (1 << 20);
    let last_tag = enc.len() - 16;
    for i in 0..16 {
        let mut altered = enc.clone();
        altered[header_len + i] ^= 1;
        assert!(matches!(
            decrypt_bytes_with_raw_key(&altered, key(7)),
            Err(FormatError::WrongPassword)
        ));
    }
    for start in [first_tag, last_tag] {
        for i in [0, 7, 15] {
            let mut altered = enc.clone();
            altered[start + i] ^= 0x80;
            assert!(matches!(
                decrypt_bytes_with_raw_key(&altered, key(7)),
                Err(FormatError::Corrupted)
            ));
        }
    }
}

#[test]
fn first_bad_chunk_of_a_v2_container_makes_it_corrupted() {
    let enc = two_chunks();
    let (_, header_len) = HeaderV2::read(&enc).unwrap();
    let chunks = header_len + 16;
    let second = chunks + (1 << 20) + 16;
    for at in [chunks, second - 17, second, enc.len() - 17] {
        let mut altered = enc.clone();
        altered[at] ^= 1;
        assert!(matches!(
            decrypt_bytes_with_raw_key(&altered, key(7)),
            Err(FormatError::Corrupted)
        ));
    }
    let mut foreign = enc.clone();
    foreign[chunks..second].copy_from_slice(&two_chunks()[chunks..second]);
    assert!(matches!(
        decrypt_bytes_with_raw_key(&foreign, key(7)),
        Err(FormatError::Corrupted)
    ));
}
