use huffman::codebook::build_codebook;
use huffman::frequency::count_frequencies;
use huffman::tree::{build_tree, HuffmanNode};

#[test]
fn test_all_used_bytes_have_codes() {
    let data = b"abracadabra";
    let freq = count_frequencies(data);
    let tree = build_tree(&freq).unwrap();
    let book = build_codebook(&tree);

    for &b in data {
        assert!(!book[b as usize].is_empty(), "byte {} should have a code", b);
    }
}

#[test]
fn test_higher_freq_gets_shorter_code() {
    // 'a' appears 5x, others appear fewer times'a' should be shortest
    let data = b"abracadabra"; // a=5, b=2, r=2, c=1, d=1
    let freq = count_frequencies(data);
    let tree = build_tree(&freq).unwrap();
    let book = build_codebook(&tree);

    let a_len = book[b'a' as usize].len();
    let c_len = book[b'c' as usize].len();
    let d_len = book[b'd' as usize].len();
    assert!(a_len <= c_len, "'a' should have code <= 'c'");
    assert!(a_len <= d_len, "'a' should have code <= 'd'");
}

#[test]
fn test_codes_are_prefix_free() {
    let data = b"hello world";
    let freq = count_frequencies(data);
    let tree = build_tree(&freq).unwrap();
    let book = build_codebook(&tree);

    let codes: Vec<&Vec<bool>> = book.iter().filter(|c| !c.is_empty()).collect();

    // No code should be a prefix of another
    for (i, a) in codes.iter().enumerate() {
        for (j, b) in codes.iter().enumerate() {
            if i != j && a.len() <= b.len() {
                assert!(&b[..a.len()] != a.as_slice(), "Code {:?} is a prefix of {:?}", a, b);
            }
        }
    }
}

#[test]
fn unused_bytes_have_empty_codes() {
    let data = b"abracadabra";
    let freq = count_frequencies(data);
    let tree = build_tree(&freq).unwrap();
    let book = build_codebook(&tree);
    for b in 0..=255u8 {
        if !data.contains(&b) {
            assert!(book[b as usize].is_empty(), "byte {} should have no code", b);
        }
    }
}

#[test]
fn codes_follow_left_false_right_true() {
    let tree = HuffmanNode::Internal {
        frequency: 3,
        left: Box::new(HuffmanNode::Leaf { byte: 1, frequency: 1 }),
        right: Box::new(HuffmanNode::Internal {
            frequency: 2,
            left: Box::new(HuffmanNode::Leaf { byte: 2, frequency: 1 }),
            right: Box::new(HuffmanNode::Leaf { byte: 3, frequency: 1 }),
        }),
    };
    let book = build_codebook(&tree);
    assert_eq!(book[1], vec![false]);
    assert_eq!(book[2], vec![true, false]);
    assert_eq!(book[3], vec![true, true]);
    assert!(book[0].is_empty());
}

#[test]
fn single_byte_zero_takes_right_leaf() {
    // Only byte 0 occurs: the zero-frequency leaf on the right also carries
    // byte 0, and the later (right) path wins.
    let freq = count_frequencies(&[0u8, 0, 0]);
    let tree = build_tree(&freq).unwrap();
    let book = build_codebook(&tree);
    assert_eq!(book[0], vec![true]);
}

#[test]
fn single_byte_gets_one_bit_code() {
    let freq = count_frequencies(b"zzzz");
    let tree = build_tree(&freq).unwrap();
    let book = build_codebook(&tree);
    assert_eq!(book[b'z' as usize], vec![false]);
}

#[test]
fn padding_leaf_gives_no_code() {
    // One distinct byte other than 0: the zero-frequency leaf for byte 0
    // gives byte 0 no code.
    let freq = count_frequencies(&[7u8, 7, 7]);
    let tree = build_tree(&freq).unwrap();
    let book = build_codebook(&tree);
    assert_eq!(book[7], vec![false]);
    assert!(book[0].is_empty());
}

#[test]
fn entry_empty_exactly_when_absent() {
    for data in [&b"abracadabra"[..], &b"x"[..], &[0u8, 0, 1][..], &[5u8][..]] {
        let freq = count_frequencies(data);
        let tree = build_tree(&freq).unwrap();
        let book = build_codebook(&tree);
        for b in 0..=255u8 {
            assert_eq!(book[b as usize].is_empty(), !data.contains(&b), "byte {}", b);
        }
    }
}
