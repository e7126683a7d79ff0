use pdf_extractor::extractor::WordPosition;
use pdf_extractor::positions::{
    decode_blob, strip_header, transform_flags, PositionError, PositionStore, COORDS_DEFAULT_FLAGS,
    POSITIONS_SCHEMA_VERSION,
};

fn word(page: u32, x_min: f32, y_min: f32, x_max: f32, y_max: f32, text: &str) -> WordPosition {
    WordPosition {
        page,
        x_min: x_min.to_bits(),
        y_min: y_min.to_bits(),
        x_max: x_max.to_bits(),
        y_max: y_max.to_bits(),
        text: text.to_string(),
    }
}

fn sample_positions() -> Vec<(usize, WordPosition)> {
    vec![
        (0, word(1, 10.0, 20.0, 50.0, 30.0, "hello")),
        (2, word(1, 60.0, 20.0, 100.0, 30.0, "world")),
        (5, word(2, 10.0, 40.0, 50.0, 50.0, "Hello")),
    ]
}

/// The words of the sample as a compressed list without a header.
fn bare_frame() -> Vec<u8> {
    let rows: Vec<(u64, u32, f32, f32, f32, f32, String)> = sample_positions()
        .into_iter()
        .map(|(offset, p)| {
            (
                offset as u64,
                p.page,
                f32::from_bits(p.x_min),
                f32::from_bits(p.y_min),
                f32::from_bits(p.x_max),
                f32::from_bits(p.y_max),
                p.text,
            )
        })
        .collect();
    zstd::bulk::compress(&bincode::serialize(&rows).unwrap(), 3).unwrap()
}

#[test]
fn test_store_and_retrieve() {
    let mut store = PositionStore::open_in_memory();
    store.store_positions(1, &sample_positions()).unwrap();

    let all = store.load_all_for_doc(1).unwrap();
    assert_eq!(all.len(), 3);
    assert_eq!(all[0].word_text, "hello");
}

#[test]
fn test_get_positions_by_offset() {
    let mut store = PositionStore::open_in_memory();
    store.store_positions(1, &sample_positions()).unwrap();

    let results = store.get_positions(1, &[0, 5]).unwrap();
    assert_eq!(results.len(), 2);
    assert_eq!(results[0].word_text, "hello");
    assert_eq!(results[1].word_text, "Hello");
}

#[test]
fn test_get_positions_by_term() {
    let mut store = PositionStore::open_in_memory();
    store.store_positions(1, &sample_positions()).unwrap();

    // Case-insensitive search for "hello" should match both "hello" and "Hello"
    let results = store.get_positions_by_term(1, "hello").unwrap();
    assert_eq!(results.len(), 2);

    // Exact match
    let results = store.get_positions_by_term(1, "world").unwrap();
    assert_eq!(results.len(), 1);
}

#[test]
fn test_get_positions_empty() {
    let mut store = PositionStore::open_in_memory();
    store.store_positions(1, &sample_positions()).unwrap();

    let results = store.get_positions(1, &[]).unwrap();
    assert!(results.is_empty());
}

#[test]
fn test_delete_doc() {
    let mut store = PositionStore::open_in_memory();
    store.store_positions(1, &sample_positions()).unwrap();
    assert_eq!(store.count_positions(1).unwrap(), 3);

    store.delete_doc(1);
    assert_eq!(store.count_positions(1).unwrap(), 0);
}

#[test]
fn test_nonexistent_doc() {
    let store = PositionStore::open_in_memory();
    let results = store.get_positions(999, &[0]).unwrap_err();
    assert!(results.message().contains("No positions found"));

    assert_eq!(store.count_positions(999).unwrap(), 0);
}

#[test]
fn test_schema_version_roundtrip() {
    let mut store = PositionStore::open_in_memory();
    store.store_positions(1, &sample_positions()).unwrap();

    // Read back — schema version is transparent
    let all = store.load_all_for_doc(1).unwrap();
    assert_eq!(all.len(), 3);

    // The block has the version header byte
    assert_eq!(store.blob(1).unwrap()[0], POSITIONS_SCHEMA_VERSION);

    // A block without a version header
    let mut store2 = PositionStore::open_in_memory();
    store2.put_blob(99, bare_frame());
    let all_legacy = store2.load_all_for_doc(99).unwrap();
    assert_eq!(all_legacy.len(), 3, "Legacy blobs should still be readable");
}

#[test]
fn test_schema_version_rejects_unknown() {
    let mut store = PositionStore::open_in_memory();
    let blob = vec![255u8, 0, 1, 2, 3]; // version 255, garbage payload
    store.put_blob(99, blob);
    let result = store.load_all_for_doc(99);
    assert!(result.is_err(), "Unknown schema version should error");
    let err = result.unwrap_err().message();
    assert!(
        err.contains("Unsupported positions schema version"),
        "error should mention version, got: {}",
        err
    );
}

#[test]
fn words_come_back_as_they_were() {
    let mut store = PositionStore::open_in_memory();
    store.store_positions(7, &sample_positions()).unwrap();
    let all = store.load_all_for_doc(7).unwrap();
    assert_eq!((all[1].word_offset, all[1].page), (2, 1));
    assert_eq!(f32::from_bits(all[1].x_min), 60.0);
    assert_eq!(f32::from_bits(all[1].y_min), 20.0);
    assert_eq!(f32::from_bits(all[1].x_max), 100.0);
    assert_eq!(f32::from_bits(all[1].y_max), 30.0);
    assert_eq!(all[1].word_text, "world");
    assert_eq!(store.get_transform_flags(7), Some(COORDS_DEFAULT_FLAGS));
    assert_eq!(store.get_transform_flags(8), None);
}

#[test]
fn nothing_is_stored_for_a_document_without_words() {
    let mut store = PositionStore::open_in_memory();
    store.store_positions(7, &sample_positions()).unwrap();
    store.store_positions(7, &Vec::new()).unwrap();
    assert_eq!(store.count_positions(7).unwrap(), 3);
    store.store_positions(8, &Vec::new()).unwrap();
    assert!(store.blob(8).is_none());
}

#[test]
fn a_batch_is_stored_document_by_document() {
    let words = sample_positions();
    let refs: Vec<(usize, &WordPosition)> = words.iter().map(|(i, w)| (*i, w)).collect();
    let mut store = PositionStore::open_in_memory();
    store.store_positions_batch(&vec![(1, refs[..1].to_vec()), (2, refs[1..].to_vec())]).unwrap();
    assert_eq!(store.count_positions(1).unwrap(), 1);
    assert_eq!(store.count_positions(2).unwrap(), 2);
}

#[test]
fn blocks_of_every_version_are_read() {
    let frame = bare_frame();
    let mut first = vec![1u8];
    first.extend_from_slice(&frame);
    assert_eq!(decode_blob(&first).unwrap().len(), 3);
    assert_eq!(transform_flags(&first), None);
    let mut second = vec![2u8, 9u8];
    second.extend_from_slice(&frame);
    assert_eq!(decode_blob(&second).unwrap().len(), 3);
    assert_eq!(transform_flags(&second), Some(9));
    assert_eq!(transform_flags(&frame), None);
    assert_eq!(strip_header(&second).unwrap(), frame.as_slice());
}

#[test]
fn broken_blocks_are_errors() {
    assert!(matches!(decode_blob(&[]), Err(PositionError::EmptyBlob)));
    assert!(matches!(decode_blob(&[0, 1]), Err(PositionError::VersionZero)));
    assert!(matches!(decode_blob(&[2]), Err(PositionError::Truncated)));
    assert!(matches!(decode_blob(&[77, 1, 2]), Err(PositionError::Unsupported(77))));
    assert!(matches!(decode_blob(&[1, 9, 9, 9]), Err(PositionError::Decompress(_))));
    let mut no_words = vec![1u8];
    no_words.extend_from_slice(&zstd::bulk::compress(b"xyz", 3).unwrap());
    assert!(matches!(decode_blob(&no_words), Err(PositionError::Deserialise(_))));
    let store = PositionStore::open_in_memory();
    assert!(matches!(store.load_all_for_doc(5), Err(PositionError::NotFound(5))));
}
