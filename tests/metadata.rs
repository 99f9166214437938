use bit_swap_core::canonical::encode_info;
use bit_swap_core::error::BitSwapError;
use bit_swap_core::metadata::{BitSwapMetadata, FileEntry, PieceHasher};
use bit_swap_core::order::sort_file_entries;
use sha2::Digest;

fn digest_hex(data: &[u8]) -> String {
    hex::encode(sha2::Sha256::digest(data))
}

fn entry(path: &[&str], length: u64) -> FileEntry {
    FileEntry { path: path.iter().map(|s| s.to_string()).collect(), length, file_hash: None }
}

#[test]
fn single_file_metadata() {
    let contents = b"Hello, BitSwapTorrent!";
    let mut hasher = PieceHasher::new(1024);
    hasher.update(contents);
    let pieces = hasher.finish();
    let files = vec![entry(&["test.txt"], contents.len() as u64)];
    let meta = BitSwapMetadata::from_parts("test.txt".to_string(), 1024, files, pieces).unwrap();

    assert_eq!(meta.name, "test.txt");
    assert_eq!(meta.piece_count(), 1);
    assert_eq!(meta.files.len(), 1);
    assert_eq!(meta.files[0].length, 22);
    assert_eq!(meta.pieces[0], digest_hex(contents));
    let canonical = format!(
        "{{\"name\":\"test.txt\",\"piece_length\":1024,\"pieces\":[\"{}\"],\"files\":[{{\"path\":[\"test.txt\"],\"length\":22}}]}}",
        digest_hex(contents)
    );
    assert_eq!(meta.info_hash, digest_hex(canonical.as_bytes()));
    assert!(meta.validate().is_ok());
}

#[test]
fn piece_boundary_gives_two_distinct_pieces() {
    let data: Vec<u8> = (0..2048).map(|i| if i % 2 == 0 { 0x00 } else { 0xff }).collect();
    let mut hasher = PieceHasher::new(1024);
    hasher.update(&data);
    let pieces = hasher.finish();
    assert_eq!(pieces.len(), 2);
    assert_eq!(pieces[0], digest_hex(&data[..1024]));
    assert_eq!(pieces[1], digest_hex(&data[1024..]));
    assert_eq!(pieces[0], pieces[1]);
    let mut other = data.clone();
    other[1500] = 0x01;
    let mut hasher2 = PieceHasher::new(1024);
    hasher2.update(&other);
    let pieces2 = hasher2.finish();
    assert_ne!(pieces2[0], pieces2[1]);
}

#[test]
fn hashing_does_not_depend_on_chunking() {
    let data: Vec<u8> = (0..3000u32).map(|i| (i * 7 % 251) as u8).collect();
    let mut whole = PieceHasher::new(512);
    whole.update(&data);
    let mut pieces_in_bits = PieceHasher::new(512);
    for chunk in data.chunks(97) {
        pieces_in_bits.update(chunk);
    }
    let a = whole.finish();
    let b = pieces_in_bits.finish();
    assert_eq!(a, b);
    assert_eq!(a.len(), 6);
    assert_eq!(a[5], digest_hex(&data[2560..]));
}

#[test]
fn empty_stream_has_no_pieces() {
    let hasher = PieceHasher::new(16);
    assert!(hasher.finish().is_empty());
}

#[test]
fn from_parts_rejects_missing_parts() {
    let pieces = vec!["0".repeat(64)];
    assert!(matches!(
        BitSwapMetadata::from_parts(String::new(), 16, vec![entry(&["a"], 1)], pieces.clone()),
        Err(BitSwapError::Metadata(_))
    ));
    assert!(matches!(
        BitSwapMetadata::from_parts("x".to_string(), 16, vec![], pieces.clone()),
        Err(BitSwapError::Metadata(_))
    ));
    assert!(matches!(
        BitSwapMetadata::from_parts("x".to_string(), 16, vec![entry(&["a"], 1)], vec![]),
        Err(BitSwapError::Metadata(_))
    ));
}

#[test]
fn validation_rules() {
    let mut meta = BitSwapMetadata::new("test".to_string(), 32);
    assert!(meta.validate().is_err());
    meta.files.push(entry(&["test.txt"], 64));
    meta.pieces = vec!["a".repeat(64), "b".repeat(64)];
    assert!(meta.validate().is_ok());
    meta.pieces[1] = "B".repeat(64);
    match meta.validate() {
        Err(BitSwapError::Metadata(m)) => {
            assert!(m.contains("test"));
            assert!(m.contains("piece 1"));
        }
        other => panic!("unexpected {:?}", other),
    }
    meta.pieces[1] = "b".repeat(63);
    assert!(meta.validate().is_err());
    meta.pieces = vec!["a".repeat(64)];
    assert!(meta.validate().is_err());
    meta.pieces = vec!["a".repeat(64), "b".repeat(64)];
    meta.piece_length = 0;
    assert!(meta.validate().is_err());
}

#[test]
fn test_magnet_url() {
    let mut metadata = BitSwapMetadata::new("test".to_string(), 1024);
    metadata.info_hash = "abcd1234".to_string();
    metadata.trackers.push("http://tracker.example.com:8080/announce".to_string());

    let magnet = metadata.to_magnet_url();
    assert!(magnet.contains("magnet:?xt=urn:btih:abcd1234"));
    assert!(magnet.contains("dn=test"));
    assert_eq!(
        magnet,
        "magnet:?xt=urn:btih:abcd1234&dn=test&tr=http%3A%2F%2Ftracker.example.com%3A8080%2Fannounce"
    );
}

#[test]
fn magnet_lists_web_seeds_after_trackers() {
    let mut metadata = BitSwapMetadata::new("my file.txt".to_string(), 1024);
    metadata.info_hash = "ff".to_string();
    metadata.trackers.push("t1".to_string());
    metadata.web_seed.push("w~1".to_string());
    assert_eq!(metadata.to_magnet_url(), "magnet:?xt=urn:btih:ff&dn=my%20file.txt&tr=t1&ws=w~1");
}

#[test]
fn new_metadata_is_stamped() {
    let meta = BitSwapMetadata::new("n".to_string(), 8);
    assert_eq!(meta.created_by, "BitSwapTorrent/0.1.0");
    assert_eq!(meta.created_at.len(), 20);
    assert!(meta.created_at.ends_with('Z'));
    assert!(meta.pieces.is_empty() && meta.files.is_empty() && meta.info_hash.is_empty());
}

#[test]
fn canonical_encoding_escapes_strings_and_optional_hash() {
    let files = vec![FileEntry {
        path: vec!["d\"ir".to_string(), "a\\b\n\u{1}é".to_string()],
        length: 1234567890123,
        file_hash: Some("h".to_string()),
    }];
    let bytes = encode_info("n", 7, &vec!["p".to_string(), "q".to_string()], &files);
    let text = String::from_utf8(bytes).unwrap();
    assert_eq!(
        text,
        "{\"name\":\"n\",\"piece_length\":7,\"pieces\":[\"p\",\"q\"],\"files\":[{\"path\":[\"d\\\"ir\",\"a\\\\b\\n\\u0001é\"],\"length\":1234567890123,\"file_hash\":\"h\"}]}"
    );
}

#[test]
fn total_size_sums_file_lengths() {
    let mut meta = BitSwapMetadata::new("x".to_string(), 512);
    meta.files = vec![entry(&["a"], 100), entry(&["b"], 900), entry(&["c"], 100)];
    assert_eq!(meta.total_size(), 1100);
    assert_eq!(meta.checked_total_size(), Some(1100));
    meta.files.push(entry(&["d"], u64::MAX));
    assert_eq!(meta.checked_total_size(), None);
}

#[test]
fn file_order_does_not_depend_on_listing_order() {
    let listing1 = vec![entry(&["b.txt"], 1), entry(&["a", "z"], 2), entry(&["a.txt"], 3), entry(&["a", "b", "c"], 4)];
    let listing2 = vec![entry(&["a.txt"], 3), entry(&["a", "b", "c"], 4), entry(&["b.txt"], 1), entry(&["a", "z"], 2)];
    let sorted1 = sort_file_entries(listing1);
    let sorted2 = sort_file_entries(listing2);
    let paths1: Vec<Vec<String>> = sorted1.iter().map(|f| f.path.clone()).collect();
    let paths2: Vec<Vec<String>> = sorted2.iter().map(|f| f.path.clone()).collect();
    assert_eq!(paths1, paths2);
    assert_eq!(
        paths1,
        vec![
            vec!["a".to_string(), "b".to_string(), "c".to_string()],
            vec!["a".to_string(), "z".to_string()],
            vec!["a.txt".to_string()],
            vec!["b.txt".to_string()],
        ]
    );
    let pieces = vec!["0".repeat(64)];
    let m1 = BitSwapMetadata::from_parts("d".to_string(), 16, sorted1, pieces.clone()).unwrap();
    let m2 = BitSwapMetadata::from_parts("d".to_string(), 16, sorted2, pieces).unwrap();
    assert_eq!(m1.info_hash, m2.info_hash);
}
