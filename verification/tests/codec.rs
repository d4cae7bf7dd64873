use huffman::codec::{compress, decompress, HEADER_SIZE};

#[test]
fn test_compress_decompress_text() {
    let original = b"hello world, this is a huffman test!";
    let compressed = compress(original).unwrap();
    let decompressed = decompress(&compressed).unwrap();
    assert_eq!(original.to_vec(), decompressed);
}

#[test]
fn test_compressed_is_smaller_for_repetitive_data() {
    // 40,000 'a's: payload is 40,000 bits = 5,000 bytes
    let original: Vec<u8> = vec![b'a'; 40_000];
    let compressed = compress(&original).unwrap();
    assert!(
        compressed.len() < original.len(),
        "Compressed ({} bytes) should be smaller than original ({} bytes)",
        compressed.len(),
        original.len()
    );
}

#[test]
fn test_small_file_has_header_overhead() {
    // For tiny inputs the fixed 2068-byte header dominates.
    let original = b"aaaaaaaaaaaaaaaaaaaaaaaaaaaaaaaaaaaaaaaa"; // 40 bytes
    let compressed = compress(original).unwrap();
    assert!(
        compressed.len() > original.len(),
        "Small files are expected to grow due to the fixed header overhead"
    );
}

#[test]
fn test_invalid_magic_rejected() {
    let bad = b"NOPE\x00\x00\x00\x00\x00\x00\x00\x00\x00\x00\x00\x00\x00\x00\x00\x00";
    assert!(decompress(bad).is_err());
}

#[test]
fn test_binary_data_roundtrip() {
    let original: Vec<u8> = (0u8..=255).cycle().take(1024).collect();
    let compressed = compress(&original).unwrap();
    let decompressed = decompress(&compressed).unwrap();
    assert_eq!(original, decompressed);
}

#[test]
fn test_empty_input_rejected() {
    assert!(compress(&[]).is_err());
}

#[test]
fn empty_input_message() {
    assert_eq!(compress(&[]).unwrap_err(), "Cannot compress empty input");
}

#[test]
fn header_layout() {
    let compressed = compress(b"aab").unwrap();
    assert_eq!(HEADER_SIZE, 2068);
    assert_eq!(&compressed[0..4], b"HUFF");
    assert_eq!(&compressed[4..12], &3u64.to_le_bytes());
    // a = 2, b = 1: b is merged first (left), a is right: a -> 1, b -> 0
    // bits: 1 1 0 -> 0b1100_0000
    assert_eq!(&compressed[12..20], &3u64.to_le_bytes());
    assert_eq!(&compressed[20 + 8 * 97..28 + 8 * 97], &2u64.to_le_bytes());
    assert_eq!(&compressed[20 + 8 * 98..28 + 8 * 98], &1u64.to_le_bytes());
    assert_eq!(&compressed[20..28], &0u64.to_le_bytes());
    assert_eq!(compressed.len(), HEADER_SIZE + 1);
    assert_eq!(compressed[HEADER_SIZE], 0b1100_0000);
}

#[test]
fn repetitive_size_is_exact() {
    let original: Vec<u8> = vec![b'a'; 40_000];
    let compressed = compress(&original).unwrap();
    assert_eq!(compressed.len(), 2068 + 5000);
}

#[test]
fn single_zero_byte_roundtrip() {
    let original = vec![0u8; 17];
    let compressed = compress(&original).unwrap();
    assert_eq!(decompress(&compressed).unwrap(), original);
}

#[test]
fn single_byte_input_roundtrip() {
    let original = vec![200u8];
    let compressed = compress(&original).unwrap();
    assert_eq!(decompress(&compressed).unwrap(), original);
}

#[test]
fn too_small_input_message() {
    let err = decompress(&[0u8; 100]).unwrap_err();
    assert_eq!(err, "Input too small to be a valid .huff file");
}

#[test]
fn invalid_magic_message() {
    let mut bad = vec![0u8; HEADER_SIZE];
    bad[0..4].copy_from_slice(b"HUFX");
    assert_eq!(decompress(&bad).unwrap_err(), "Invalid magic number — not a .huff file");
}

#[test]
fn all_zero_table_cannot_rebuild_tree() {
    let mut file = vec![0u8; HEADER_SIZE];
    file[0..4].copy_from_slice(b"HUFF");
    assert_eq!(decompress(&file).unwrap_err(), "Failed to rebuild Huffman tree");
}

#[test]
fn zero_length_file_decodes_to_nothing() {
    // valid header with original size 0 decodes to empty output
    let mut file = compress(b"abc").unwrap();
    file[4..12].copy_from_slice(&0u64.to_le_bytes());
    assert_eq!(decompress(&file).unwrap(), Vec::<u8>::new());
}

#[test]
fn truncated_payload_is_reported() {
    let mut file = compress(b"hello hello hello").unwrap();
    file.truncate(HEADER_SIZE + 1);
    assert_eq!(
        decompress(&file).unwrap_err(),
        "Unexpected end of bitstream during decoding"
    );
}

#[test]
fn bit_count_limits_decoding() {
    let mut file = compress(b"hello hello hello").unwrap();
    file[12..20].copy_from_slice(&3u64.to_le_bytes());
    assert_eq!(
        decompress(&file).unwrap_err(),
        "Unexpected end of bitstream during decoding"
    );
}

#[test]
fn text_roundtrip_many_symbols() {
    let original = b"The quick brown fox jumps over the lazy dog 0123456789!?".repeat(7);
    let compressed = compress(&original).unwrap();
    assert_eq!(decompress(&compressed).unwrap(), original);
}

#[test]
fn trailing_bytes_are_ignored() {
    let original = b"trailing bytes after the payload".to_vec();
    let mut file = compress(&original).unwrap();
    file.extend_from_slice(&[0xFF, 0x00, 0xAB, 0xCD]);
    assert_eq!(decompress(&file).unwrap(), original);
}

#[test]
fn encoding_fits_for_ordinary_input() {
    assert!(huffman::codec::check_encoding_fits(b"hello"));
    assert!(huffman::codec::check_encoding_fits(&[]));
}

#[test]
fn header_counts_checked() {
    let file = compress(b"abc").unwrap();
    assert!(huffman::codec::check_header_counts(&file));
    let mut bad = file.clone();
    bad[20..28].copy_from_slice(&u64::MAX.to_le_bytes());
    bad[28..36].copy_from_slice(&u64::MAX.to_le_bytes());
    assert!(!huffman::codec::check_header_counts(&bad));
    assert!(huffman::codec::check_header_counts(b"short"));
}
