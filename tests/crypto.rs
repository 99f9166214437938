use bit_swap_core::crypto::{hex_to_bytes, info_hash_to_bytes, sha256, sha256_hex, verify_piece_hash};
use bit_swap_core::error::BitSwapError;

#[test]
fn test_sha256() {
    let data = b"Hello, BitSwapTorrent!";
    let hash = sha256(data);
    let hex_hash = sha256_hex(data);

    assert_eq!(hex_hash, hex::encode(hash));
    assert_eq!(hash.len(), 32);
}

#[test]
fn test_piece_verification() {
    let data = b"test piece data";
    let hash = sha256_hex(data);

    assert!(verify_piece_hash(data, &hash));
    assert!(!verify_piece_hash(data, "invalid_hash"));
}

#[test]
fn test_info_hash_conversion() {
    let hash_hex = "a".repeat(64);
    let hash_bytes = info_hash_to_bytes(&hash_hex).unwrap();

    assert_eq!(hash_bytes.len(), 32);
    assert_eq!(hex::encode(hash_bytes), hash_hex);
}

#[test]
fn sha256_of_empty_input_is_the_known_digest() {
    assert_eq!(
        sha256_hex(b""),
        "e3b0c44298fc1c149afbf4c8996fb92427ae41e4649b934ca495991b7852b855"
    );
    assert_eq!(sha256(b"abc")[0], 0xba);
}

#[test]
fn hex_decoding_accepts_both_cases() {
    assert_eq!(hex_to_bytes("00ff10Ab").unwrap(), vec![0x00, 0xff, 0x10, 0xab]);
    assert_eq!(hex_to_bytes("").unwrap(), Vec::<u8>::new());
}

#[test]
fn hex_decoding_rejects_odd_length_and_bad_digits() {
    assert!(matches!(hex_to_bytes("abc"), Err(BitSwapError::Crypto(_))));
    assert!(matches!(hex_to_bytes("zz"), Err(BitSwapError::Crypto(_))));
}

#[test]
fn info_hash_of_wrong_length_is_rejected() {
    assert!(matches!(info_hash_to_bytes("abcd"), Err(BitSwapError::Crypto(_))));
    assert!(matches!(info_hash_to_bytes(&"g".repeat(64)), Err(BitSwapError::Crypto(_))));
}

#[test]
fn piece_hash_comparison_is_case_sensitive() {
    let data = b"xyz";
    let upper = sha256_hex(data).to_uppercase();
    assert!(!verify_piece_hash(data, &upper));
}

#[test]
fn plain_messages_become_other_errors() {
    let e: BitSwapError = String::from("boom").into();
    assert_eq!(e, BitSwapError::Other("boom".to_string()));
}
