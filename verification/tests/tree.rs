use huffman::frequency::count_frequencies;
use huffman::tree::{build_tree, HuffmanNode};

fn leaf_bytes(node: &HuffmanNode, out: &mut Vec<u8>) {
    match node {
        HuffmanNode::Leaf { byte, .. } => out.push(*byte),
        HuffmanNode::Internal { left, right, .. } => {
            leaf_bytes(left, out);
            leaf_bytes(right, out);
        }
    }
}

#[test]
fn test_empty_gives_none() {
    let freq = count_frequencies(&[]);
    assert!(build_tree(&freq).is_none());
}

#[test]
fn test_single_unique_byte() {
    let freq = count_frequencies(&[7u8, 7, 7]);
    let tree = build_tree(&freq).unwrap();
    // Root should be Internal wrapping a Leaf with byte=7
    match *tree {
        HuffmanNode::Internal { left, .. } => match *left {
            HuffmanNode::Leaf { byte, frequency } => {
                assert_eq!(byte, 7);
                assert_eq!(frequency, 3);
            }
            _ => panic!("Expected leaf on left"),
        },
        _ => panic!("Expected internal root"),
    }
}

#[test]
fn test_root_frequency_equals_total_bytes() {
    let data = b"hello world";
    let freq = count_frequencies(data);
    let tree = build_tree(&freq).unwrap();
    assert_eq!(tree.frequency(), data.len() as u64);
}

#[test]
fn single_byte_tree_has_zero_leaf_on_right() {
    let freq = count_frequencies(&[9u8, 9]);
    let tree = build_tree(&freq).unwrap();
    match *tree {
        HuffmanNode::Internal { frequency, right, .. } => {
            assert_eq!(frequency, 2);
            match *right {
                HuffmanNode::Leaf { byte, frequency } => {
                    assert_eq!(byte, 0);
                    assert_eq!(frequency, 0);
                }
                _ => panic!("Expected zero leaf on right"),
            }
        }
        _ => panic!("Expected internal root"),
    }
}

#[test]
fn two_bytes_merge_lowest_first() {
    // 'a' x1, 'b' x2: the least frequent node becomes the left child
    let freq = count_frequencies(b"abb");
    let tree = build_tree(&freq).unwrap();
    match *tree {
        HuffmanNode::Internal { frequency, left, right } => {
            assert_eq!(frequency, 3);
            assert_eq!(left.frequency(), 1);
            assert_eq!(right.frequency(), 2);
        }
        _ => panic!("Expected internal root"),
    }
}

#[test]
fn every_present_byte_has_one_leaf() {
    let data = b"the quick brown fox";
    let freq = count_frequencies(data);
    let tree = build_tree(&freq).unwrap();
    let mut bytes = Vec::new();
    leaf_bytes(&tree, &mut bytes);
    bytes.sort();
    let mut expected: Vec<u8> = data.to_vec();
    expected.sort();
    expected.dedup();
    assert_eq!(bytes, expected);
}

#[test]
fn leaf_frequency_reports_its_count() {
    let leaf = HuffmanNode::Leaf { byte: 3, frequency: 17 };
    assert_eq!(leaf.frequency(), 17);
}
