use bit_swap_core::error::BitSwapError;
use bit_swap_core::metadata::{BitSwapMetadata, FileEntry, PieceHasher};
use bit_swap_core::storage::{FileRange, PieceState, PieceWrite, StorageManager};
use std::collections::HashMap;

fn entry(name: &str, length: u64) -> FileEntry {
    FileEntry { path: vec![name.to_string()], length, file_hash: None }
}

fn metadata_for(files: Vec<(&str, Vec<u8>)>, piece_length: u32) -> BitSwapMetadata {
    let mut hasher = PieceHasher::new(piece_length);
    let mut entries = Vec::new();
    for (name, data) in &files {
        hasher.update(data);
        entries.push(entry(name, data.len() as u64));
    }
    BitSwapMetadata::from_parts("t".to_string(), piece_length, entries, hasher.finish()).unwrap()
}

fn apply(disk: &mut Vec<Vec<u8>>, writes: &[PieceWrite]) {
    for w in writes {
        let file = &mut disk[w.range.file_index];
        let start = w.range.file_offset as usize;
        file[start..start + w.data.len()].copy_from_slice(&w.data);
    }
}

fn read(disk: &[Vec<u8>], ranges: &[FileRange]) -> Vec<Vec<u8>> {
    ranges
        .iter()
        .map(|r| {
            let start = r.file_offset as usize;
            disk[r.file_index][start..start + r.length as usize].to_vec()
        })
        .collect()
}

fn alternating() -> Vec<u8> {
    (0..2048).map(|i| if i % 2 == 0 { 0x00 } else { 0xff }).collect()
}

#[test]
fn storage_manager_starts_missing() {
    let mut metadata = BitSwapMetadata::new("test".to_string(), 32);
    metadata.files.push(entry("test.txt", 64));
    metadata.pieces = vec!["a".repeat(64), "b".repeat(64)];

    let storage = StorageManager::new(metadata, "/tmp/store".to_string()).unwrap();
    assert_eq!(storage.get_piece_state(0), PieceState::Missing);
    assert_eq!(storage.get_piece_state(1), PieceState::Missing);
    assert_eq!(storage.verified_count(), 0);
    assert_eq!(storage.get_missing_pieces(), vec![0, 1]);
    assert!(storage.get_available_pieces().is_empty());
}

#[test]
fn storage_rejects_invalid_metadata() {
    let metadata = BitSwapMetadata::new("test".to_string(), 32);
    assert!(matches!(StorageManager::new(metadata, String::new()), Err(BitSwapError::Metadata(_))));
}

#[test]
fn multi_file_piece_layout() {
    let meta = metadata_for(vec![("f0", vec![1u8; 100]), ("f1", vec![2u8; 900]), ("f2", vec![3u8; 100])], 512);
    let storage = StorageManager::new(meta, String::new()).unwrap();
    assert_eq!(storage.piece_count(), 3);
    assert_eq!(storage.piece_size(0), 512);
    assert_eq!(storage.piece_size(1), 512);
    assert_eq!(storage.piece_size(2), 76);
    let infos = storage.calculate_piece_info();
    assert_eq!(infos.len(), 3);
    assert_eq!(
        infos[0].file_ranges,
        vec![
            FileRange { file_index: 0, file_offset: 0, length: 100 },
            FileRange { file_index: 1, file_offset: 0, length: 412 },
        ]
    );
    assert_eq!(
        infos[1].file_ranges,
        vec![
            FileRange { file_index: 1, file_offset: 412, length: 488 },
            FileRange { file_index: 2, file_offset: 0, length: 24 },
        ]
    );
    assert_eq!(infos[2].file_ranges, vec![FileRange { file_index: 2, file_offset: 24, length: 76 }]);
    let sum: u64 = (0..3).map(|i| storage.piece_size(i) as u64).sum();
    assert_eq!(sum, storage.metadata().total_size());
    assert!(storage.piece_info(3).is_none());
}

#[test]
fn empty_files_get_no_ranges() {
    let meta = metadata_for(vec![("a", vec![5u8; 10]), ("empty", vec![]), ("b", vec![6u8; 10])], 8);
    let storage = StorageManager::new(meta, String::new()).unwrap();
    let infos = storage.calculate_piece_info();
    assert_eq!(infos.len(), 3);
    assert_eq!(
        infos[1].file_ranges,
        vec![
            FileRange { file_index: 0, file_offset: 8, length: 2 },
            FileRange { file_index: 2, file_offset: 0, length: 6 },
        ]
    );
}

#[test]
fn write_then_read_piece() {
    let data = alternating();
    let meta = metadata_for(vec![("f", data.clone())], 1024);
    let mut storage = StorageManager::new(meta, String::new()).unwrap();
    let mut disk = vec![vec![0u8; 2048]];

    let writes = storage.plan_write_piece(0, &data[..1024]).unwrap();
    assert_eq!(storage.get_piece_state(0), PieceState::Missing);
    apply(&mut disk, &writes);
    storage.set_piece_state(0, PieceState::Verified);
    assert_eq!(storage.get_piece_state(0), PieceState::Verified);

    let info = storage.plan_read_piece(0).unwrap();
    let bytes = storage.assemble_piece(0, read(&disk, &info.file_ranges)).unwrap();
    assert_eq!(bytes, data[..1024].to_vec());

    let mut mutated = data[1024..].to_vec();
    mutated[0] ^= 0x01;
    let before = disk.clone();
    match storage.plan_write_piece(1, &mutated) {
        Err(BitSwapError::PieceVerificationFailed { piece_index, expected, actual }) => {
            assert_eq!(piece_index, 1);
            assert_eq!(expected, storage.metadata().pieces[1]);
            assert_ne!(actual, expected);
        }
        other => panic!("unexpected result {:?}", other.map(|w| w.len())),
    }
    assert_eq!(storage.get_piece_state(1), PieceState::Corrupted);
    assert_eq!(disk, before);
    assert_eq!(storage.get_missing_pieces(), vec![1]);
    assert_eq!(storage.get_available_pieces(), vec![0]);
    assert_eq!(storage.calculate_downloaded_bytes(), 1024);
}

#[test]
fn write_spanning_files_splits_bytes() {
    let f0 = vec![1u8; 100];
    let f1: Vec<u8> = (0..900u32).map(|i| i as u8).collect();
    let f2 = vec![3u8; 100];
    let meta = metadata_for(vec![("f0", f0.clone()), ("f1", f1.clone()), ("f2", f2.clone())], 512);
    let mut storage = StorageManager::new(meta, String::new()).unwrap();
    let mut disk = vec![vec![0u8; 100], vec![0u8; 900], vec![0u8; 100]];
    let whole: Vec<u8> = [f0.clone(), f1.clone(), f2.clone()].concat();
    for i in 0..3u32 {
        let start = i as usize * 512;
        let end = (start + 512).min(whole.len());
        let writes = storage.plan_write_piece(i, &whole[start..end]).unwrap();
        apply(&mut disk, &writes);
        storage.set_piece_state(i, PieceState::Verified);
    }
    assert_eq!(disk, vec![f0, f1, f2]);
    assert!(storage.is_complete());
    assert_eq!(storage.calculate_downloaded_bytes(), 1100);
    let info = storage.plan_read_piece(1).unwrap();
    let bytes = storage.assemble_piece(1, read(&disk, &info.file_ranges)).unwrap();
    assert_eq!(bytes, whole[512..1024].to_vec());
}

#[test]
fn write_errors() {
    let meta = metadata_for(vec![("f", alternating())], 1024);
    let mut storage = StorageManager::new(meta, String::new()).unwrap();
    assert!(matches!(
        storage.plan_write_piece(2, &[0u8; 1024]),
        Err(BitSwapError::InvalidPieceIndex { index: 2, total: 2 })
    ));
    assert!(matches!(storage.plan_write_piece(0, &[0u8; 10]), Err(BitSwapError::Storage(_))));
    assert_eq!(storage.get_piece_state(0), PieceState::Missing);
    assert!(matches!(storage.plan_read_piece(0), Err(BitSwapError::Storage(_))));
    assert!(matches!(storage.assemble_piece(0, vec![vec![0u8; 3]]), Err(BitSwapError::Storage(_))));
    assert!(matches!(
        storage.assemble_piece(9, vec![]),
        Err(BitSwapError::InvalidPieceIndex { index: 9, total: 2 })
    ));
}

#[test]
fn opening_intact_files_verifies_every_piece() {
    let data = alternating();
    let meta = metadata_for(vec![("f", data.clone())], 1024);
    let mut storage = StorageManager::new(meta, String::new()).unwrap();
    assert!(storage.load_or_initialize_pieces(None));
    for i in 0..storage.piece_count() {
        let info = storage.piece_info(i).unwrap();
        let bytes = storage.assemble_piece(i, read(&[data.clone()], &info.file_ranges)).unwrap();
        assert!(storage.verify_piece_on_disk(i, &bytes));
    }
    assert!(storage.is_complete());
    assert_eq!(storage.verified_count(), storage.piece_count());
    assert!(!storage.verify_piece_on_disk(0, b"wrong"));
    assert!(!storage.verify_piece_on_disk(7, &data));
}

#[test]
fn resume_record_round_trip() {
    let meta = metadata_for(vec![("f", alternating())], 1024);
    let mut storage = StorageManager::new(meta.clone(), String::new()).unwrap();
    storage.set_piece_state(1, PieceState::Verified);
    let record = storage.resume_data(1700000000, 5);
    assert_eq!(record.info_hash, meta.info_hash);
    assert_eq!(record.downloaded_bytes, 1024);
    assert_eq!(record.uploaded_bytes, 5);
    assert_eq!(record.last_updated, 1700000000);
    assert_eq!(record.piece_states.get(&0), Some(&PieceState::Missing));
    assert_eq!(record.piece_states.get(&1), Some(&PieceState::Verified));

    let mut reopened = StorageManager::new(meta.clone(), String::new()).unwrap();
    assert!(!reopened.load_or_initialize_pieces(Some(record.clone())));
    assert_eq!(reopened.get_piece_state(1), PieceState::Verified);
    assert_eq!(reopened.get_piece_state(0), PieceState::Missing);

    let mut foreign = record;
    foreign.info_hash = "other".to_string();
    let mut fresh = StorageManager::new(meta, String::new()).unwrap();
    fresh.set_piece_state(0, PieceState::Verified);
    assert!(fresh.load_or_initialize_pieces(Some(foreign)));
    assert_eq!(fresh.get_piece_state(0), PieceState::Missing);
    assert_eq!(fresh.get_piece_state(1), PieceState::Missing);
}

#[test]
fn resume_record_without_an_entry_leaves_the_piece_missing() {
    let meta = metadata_for(vec![("f", alternating())], 1024);
    let mut storage = StorageManager::new(meta.clone(), String::new()).unwrap();
    let mut states = HashMap::new();
    states.insert(1u32, PieceState::Downloading);
    let record = bit_swap_core::storage::ResumeData {
        info_hash: meta.info_hash.clone(),
        piece_states: states,
        last_updated: 0,
        downloaded_bytes: 0,
        uploaded_bytes: 0,
    };
    assert!(!storage.load_or_initialize_pieces(Some(record)));
    assert_eq!(storage.get_piece_state(0), PieceState::Missing);
    assert_eq!(storage.get_piece_state(1), PieceState::Downloading);
}
