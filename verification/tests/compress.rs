use chiffre_aes_core::compress::{compress_bytes, decompress_bytes, decompress_bytes_capped};
use chiffre_aes_core::IoErrorKind;

#[test]
fn roundtrip_compress_decompress() {
    let original = b"AAAAAAAAAABBBBBBBBBBCCCCCCCCCC contenu repetitif compressible";
    let compressed = compress_bytes(original).unwrap();
    let restored = decompress_bytes(&compressed).unwrap();
    assert_eq!(restored, original);
}

#[test]
fn roundtrip_empty_input() {
    let compressed = compress_bytes(b"").unwrap();
    let restored = decompress_bytes(&compressed).unwrap();
    assert_eq!(restored, b"");
}

#[test]
fn compression_actually_reduces_size_for_repetitive_data() {
    let original = vec![b'A'; 100_000];
    let compressed = compress_bytes(&original).unwrap();
    assert!(compressed.len() < original.len() / 10);
}

#[test]
fn limit_is_on_what_comes_out() {
    let original = vec![7u8; 200_000];
    let compressed = compress_bytes(&original).unwrap();
    assert_eq!(decompress_bytes_capped(&compressed, 200_000).unwrap(), original);
    for max_len in [0, 1, 65_536, 199_999] {
        let error = decompress_bytes_capped(&compressed, max_len).unwrap_err();
        assert_eq!(error.kind, IoErrorKind::OutOfMemory);
        assert_eq!(
            error.message,
            "sortie décompressée dépasse la limite autorisée (décompression bombe suspectée)"
        );
    }
    assert_eq!(decompress_bytes_capped(&compress_bytes(b"").unwrap(), 0).unwrap(), b"");
}

#[test]
fn cut_stream_is_told_apart_from_the_limit() {
    let compressed = compress_bytes(&vec![9u8; 1000]).unwrap();
    for len in 0..compressed.len() {
        let error = decompress_bytes(&compressed[..len]).unwrap_err();
        assert_eq!(error.kind, IoErrorKind::UnexpectedEof, "{len}");
    }
    // A block type that does not exist.
    let error = decompress_bytes(&[0x07, 0, 0]).unwrap_err();
    assert_eq!(error.kind, IoErrorKind::InvalidInput);
}

#[test]
fn what_follows_the_stream_is_ignored() {
    let mut compressed = compress_bytes(b"bonjour").unwrap();
    compressed.extend_from_slice(b"suite");
    assert_eq!(decompress_bytes(&compressed).unwrap(), b"bonjour");
}
