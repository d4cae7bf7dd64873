use huffman::{compress, decompress};

#[test]
fn compress_result_reports_sizes() {
    let r = compress(b"abracadabra");
    assert!(r.success());
    assert_eq!(r.original_size(), 11);
    assert_eq!(r.compressed_size(), r.data().len());
    assert_eq!(r.error(), "");
}

#[test]
fn compress_result_on_empty_input() {
    let r = compress(&[]);
    assert!(!r.success());
    assert!(r.data().is_empty());
    assert_eq!(r.error(), "Cannot compress empty input");
    assert_eq!(r.original_size(), 0);
    assert_eq!(r.compressed_size(), 0);
}

#[test]
fn decompress_result_roundtrip() {
    let c = compress(b"abracadabra");
    let d = decompress(&c.data());
    assert!(d.success());
    assert_eq!(d.data(), b"abracadabra".to_vec());
    assert_eq!(d.original_size(), 11);
    assert_eq!(d.compressed_size(), c.data().len());
}

#[test]
fn decompress_result_on_bad_input() {
    let d = decompress(b"short");
    assert!(!d.success());
    assert_eq!(d.error(), "Input too small to be a valid .huff file");
    assert_eq!(d.original_size(), 0);
    assert_eq!(d.compressed_size(), 0);
}
