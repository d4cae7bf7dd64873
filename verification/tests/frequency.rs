use huffman::frequency::count_frequencies;

#[test]
fn test_empty_input() {
    let freq = count_frequencies(&[]);
    assert!(freq.iter().all(|&f| f == 0));
}

#[test]
fn test_single_byte() {
    let freq = count_frequencies(&[42]);
    assert_eq!(freq[42], 1);
    assert_eq!(freq[0], 0);
}

#[test]
fn test_repeated_bytes() {
    let data = vec![0u8, 0, 1, 2, 2, 2];
    let freq = count_frequencies(&data);
    assert_eq!(freq[0], 2);
    assert_eq!(freq[1], 1);
    assert_eq!(freq[2], 3);
}

#[test]
fn test_all_bytes() {
    // Every byte 0-255 appears exactly once
    let data: Vec<u8> = (0..=255).collect();
    let freq = count_frequencies(&data);
    assert!(freq.iter().all(|&f| f == 1));
}

#[test]
fn counts_add_up_to_length() {
    let data = b"mississippi";
    let freq = count_frequencies(data);
    assert_eq!(freq.iter().sum::<u64>(), data.len() as u64);
    assert_eq!(freq[b'm' as usize], 1);
    assert_eq!(freq[b'i' as usize], 4);
    assert_eq!(freq[b's' as usize], 4);
    assert_eq!(freq[b'p' as usize], 2);
    assert_eq!(freq[255], 0);
}
