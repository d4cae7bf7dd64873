use huffman::bits::{BitReader, BitWriter};

#[test]
fn test_write_read_roundtrip() {
    let bits = vec![true, false, true, true, false, false, true, false];
    let mut writer = BitWriter::new();
    writer.write_bits(&bits);
    let bytes = writer.finish();

    let mut reader = BitReader::new(&bytes, bits.len() as u64);
    let recovered: Vec<bool> = std::iter::from_fn(|| reader.read_bit()).collect();
    assert_eq!(bits, recovered);
}

#[test]
fn test_partial_byte_padded_correctly() {
    // Write only 3 bits: 1, 0, 1 should become 10100000 = 0xA0
    let mut writer = BitWriter::new();
    writer.write_bit(true);
    writer.write_bit(false);
    writer.write_bit(true);
    let bytes = writer.finish();
    assert_eq!(bytes.len(), 1);
    assert_eq!(bytes[0], 0b10100000);
}

#[test]
fn test_total_bits_stops_reading_padding() {
    let mut writer = BitWriter::new();
    writer.write_bits(&[true, false, true]); // 3 real bits
    let bytes = writer.finish(); // padded to 1 byte

    // Reader must stop at 3 bits, not read the 5 padding zeros
    let mut reader = BitReader::new(&bytes, 3);
    assert_eq!(reader.read_bit(), Some(true));
    assert_eq!(reader.read_bit(), Some(false));
    assert_eq!(reader.read_bit(), Some(true));
    assert_eq!(reader.read_bit(), None); // padding is ignored
}

#[test]
fn empty_writer_gives_no_bytes() {
    let writer = BitWriter::new();
    assert_eq!(writer.finish(), Vec::<u8>::new());
}

#[test]
fn full_bytes_are_not_padded() {
    let mut writer = BitWriter::new();
    // 0xF0 then 0x0F
    writer.write_bits(&[true, true, true, true, false, false, false, false]);
    writer.write_bits(&[false, false, false, false, true, true, true, true]);
    assert_eq!(writer.finish(), vec![0xF0, 0x0F]);
}

#[test]
fn nine_bits_make_two_bytes() {
    let mut writer = BitWriter::new();
    writer.write_bits(&[true; 9]);
    assert_eq!(writer.finish(), vec![0xFF, 0x80]);
}

#[test]
fn reader_stops_at_end_of_data() {
    // total_bits larger than the data: the reader stops after the last byte
    let bytes = [0b0100_0001u8];
    let mut reader = BitReader::new(&bytes, 100);
    let got: Vec<bool> = std::iter::from_fn(|| reader.read_bit()).collect();
    assert_eq!(got, vec![false, true, false, false, false, false, false, true]);
    assert_eq!(reader.read_bit(), None);
}

#[test]
fn reader_crosses_byte_boundary() {
    let bytes = [0x00u8, 0xFF];
    let mut reader = BitReader::new(&bytes, 10);
    let got: Vec<bool> = std::iter::from_fn(|| reader.read_bit()).collect();
    assert_eq!(got, vec![false, false, false, false, false, false, false, false, true, true]);
}

#[test]
fn reader_with_zero_total_reads_nothing() {
    let bytes = [0xFFu8];
    let mut reader = BitReader::new(&bytes, 0);
    assert_eq!(reader.read_bit(), None);
}
