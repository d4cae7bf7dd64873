use vstd::prelude::*;
use crate::frequency::table_total;
use crate::tree::{HuffmanNode, huffman_tree, lemma_huffman_tree};

verus! {

/// Maps each byte value (0–255) to its Huffman bit sequence.
/// Bytes that never appear in the input have an empty Vec.
pub type Codebook = [Vec<bool>; 256];

/// The path from `node` to a leaf labelled `b` (false = left, true = right).
/// Where two leaves carry the label (byte 0 when the tree wraps a single
/// byte 0), the one further right wins, as the depth-first walk that fills
/// the codebook visits it last.
pub open spec fn code_of(node: HuffmanNode, b: u8) -> Option<Seq<bool>>
    decreases node,
{
    match node {
        HuffmanNode::Leaf { byte, .. } => if byte == b {
            Some(Seq::empty())
        } else {
            None
        },
        HuffmanNode::Internal { left, right, .. } => match code_of(*right, b) {
            Some(p) => Some(seq![true] + p),
            None => match code_of(*left, b) {
                Some(p) => Some(seq![false] + p),
                None => None,
            },
        },
    }
}

/// The path for `b`, or empty when no leaf carries `b`.
pub open spec fn code_for(node: HuffmanNode, b: u8) -> Seq<bool> {
    match code_of(node, b) {
        Some(p) => p,
        None => Seq::empty(),
    }
}

/// The codebook entry for `b`: its path when a leaf of non-zero frequency
/// carries `b`, and empty otherwise (the zero-frequency leaf that pads a
/// single-byte tree gives no code).
pub open spec fn codebook_entry(node: HuffmanNode, b: u8) -> Seq<bool> {
    if node.positive_labels().contains(b) {
        code_for(node, b)
    } else {
        Seq::empty()
    }
}

/// Follow `bits` from `node` down to a leaf: the leaf's byte and how many bits
/// were used, or `None` when the bits run out first.
pub open spec fn walk(node: HuffmanNode, bits: Seq<bool>) -> Option<(u8, nat)>
    decreases node,
{
    match node {
        HuffmanNode::Leaf { byte, .. } => Some((byte, 0)),
        HuffmanNode::Internal { left, right, .. } => if bits.len() == 0 {
            None
        } else if bits[0] {
            match walk(*right, bits.drop_first()) {
                Some((b, k)) => Some((b, k + 1)),
                None => None,
            }
        } else {
            match walk(*left, bits.drop_first()) {
                Some((b, k)) => Some((b, k + 1)),
                None => None,
            }
        },
    }
}

/// A code leads back to its byte, whatever bits follow it.
pub proof fn lemma_code_walk(node: HuffmanNode, b: u8, rest: Seq<bool>)
    requires
        code_of(node, b) is Some,
    ensures
        walk(node, code_of(node, b).unwrap() + rest) == Some((b, code_of(node, b).unwrap().len())),
    decreases node,
{
    match node {
        HuffmanNode::Leaf { .. } => {
            assert(Seq::<bool>::empty() + rest =~= rest);
        },
        HuffmanNode::Internal { left, right, .. } => {
            let p = code_of(node, b).unwrap();
            match code_of(*right, b) {
                Some(q) => {
                    lemma_code_walk(*right, b, rest);
                    assert((p + rest).drop_first() =~= q + rest);
                },
                None => {
                    let q = code_of(*left, b).unwrap();
                    lemma_code_walk(*left, b, rest);
                    assert((p + rest).drop_first() =~= q + rest);
                },
            }
        },
    }
}

/// Every label has a code, and below an internal node every code is non-empty.
pub proof fn lemma_code_exists(node: HuffmanNode, b: u8)
    ensures
        node.labels().contains(b) <==> code_of(node, b) is Some,
        node is Internal && code_of(node, b) is Some ==> code_of(node, b).unwrap().len() > 0,
    decreases node,
{
    match node {
        HuffmanNode::Leaf { .. } => {},
        HuffmanNode::Internal { left, right, .. } => {
            lemma_code_exists(*left, b);
            lemma_code_exists(*right, b);
        },
    }
}

/// No code is longer than the tree is high.
pub proof fn lemma_code_len(node: HuffmanNode, b: u8)
    ensures
        code_for(node, b).len() <= node.height(),
    decreases node,
{
    match node {
        HuffmanNode::Leaf { .. } => {},
        HuffmanNode::Internal { left, right, .. } => {
            lemma_code_len(*left, b);
            lemma_code_len(*right, b);
        },
    }
}

/// In the codebook of a tree, no non-empty entry of one byte is a prefix of
/// the entry of another byte.
pub proof fn lemma_codebook_prefix_free(node: HuffmanNode, a: u8, b: u8)
    requires
        a != b,
        codebook_entry(node, a).len() > 0,
        codebook_entry(node, b).len() > 0,
        codebook_entry(node, a).len() <= codebook_entry(node, b).len(),
    ensures
        codebook_entry(node, b).take(codebook_entry(node, a).len() as int) != codebook_entry(
            node,
            a,
        ),
{
    lemma_prefix_free(node, a, b);
}

/// In the codebook of the tree built from a frequency table, a byte's entry
/// is empty exactly when the byte does not occur.
pub proof fn lemma_entry_empty_iff_absent(f: Seq<u64>, b: u8)
    requires
        f.len() == 256,
        table_total(f) <= u64::MAX,
        huffman_tree(f) is Some,
    ensures
        codebook_entry(huffman_tree(f).unwrap(), b).len() == 0 <==> f[b as int] == 0,
{
    lemma_huffman_tree(f);
    lemma_code_exists(huffman_tree(f).unwrap(), b);
}

/// A non-empty codebook entry leads back to its byte, whatever bits follow
/// it, and uses exactly its own bits.
pub proof fn lemma_entry_decodes(node: HuffmanNode, b: u8, rest: Seq<bool>)
    requires
        codebook_entry(node, b).len() > 0,
    ensures
        walk(node, codebook_entry(node, b) + rest) == Some((b, codebook_entry(node, b).len())),
{
    lemma_code_walk(node, b, rest);
}

/// The codes of two different bytes: neither is a prefix of the other.
pub proof fn lemma_prefix_free(node: HuffmanNode, a: u8, b: u8)
    requires
        a != b,
        code_of(node, a) is Some,
        code_of(node, b) is Some,
        code_of(node, a).unwrap().len() <= code_of(node, b).unwrap().len(),
    ensures
        code_of(node, b).unwrap().take(code_of(node, a).unwrap().len() as int) != code_of(
            node,
            a,
        ).unwrap(),
    decreases node,
{
    match node {
        HuffmanNode::Leaf { .. } => {},
        HuffmanNode::Internal { left, right, .. } => {
            let p = code_of(node, a).unwrap();
            let q = code_of(node, b).unwrap();
            let pa = code_of(*right, a);
            let qb = code_of(*right, b);
            if p[0] == q[0] {
                let child = if p[0] {
                    *right
                } else {
                    *left
                };
                assert(code_of(child, a) is Some && p.drop_first() == code_of(child, a).unwrap());
                assert(code_of(child, b) is Some && q.drop_first() == code_of(child, b).unwrap());
                lemma_prefix_free(child, a, b);
                if q.take(p.len() as int) == p {
                    assert(q.drop_first().take(p.drop_first().len() as int) =~= p.drop_first());
                }
            } else {
                assert(q.take(p.len() as int)[0] != p[0]);
            }
        },
    }
}

/// An empty code for every byte value.
fn no_code() -> (c: Vec<bool>)
    ensures
        c@.len() == 0,
{
    Vec::new()
}

/// `std::array::from_fn` filling all 256 entries with `no_code()`.
/// Trusted: every entry is the empty vector that `no_code` returns.
#[verifier::external_body]
fn empty_codebook() -> (book: Codebook)
    ensures
        forall|i: int| 0 <= i < 256 ==> (#[trigger] book@[i])@.len() == 0,
{
    std::array::from_fn(|_| no_code())
}

/// Walks the Huffman tree recursively, building the codebook.
/// Bytes without a leaf of non-zero frequency get an empty entry.
pub fn build_codebook(root: &HuffmanNode) -> (book: Codebook)
    ensures
        forall|b: u8| (#[trigger] book@[b as int])@ == codebook_entry(*root, b),
{
    let mut codebook = empty_codebook();
    let mut path: Vec<bool> = Vec::new();
    traverse(root, &mut path, &mut codebook);
    proof {
        assert forall|b: u8| (#[trigger] codebook@[b as int])@ == code_for(*root, b) by {
            if code_of(*root, b) is Some {
                assert(path@ + code_of(*root, b).unwrap() =~= code_of(*root, b).unwrap());
            }
        }
    }
    // Clear the entries of bytes that only label zero-frequency leaves
    let mut occurs = [false; 256];
    mark_occurring(root, &mut occurs);
    for i in 0..256usize
        invariant
            forall|b: u8| #[trigger] occurs@[b as int] == root.positive_labels().contains(b),
            forall|b: u8|
                (#[trigger] codebook@[b as int])@ == if (b as int) < i {
                    codebook_entry(*root, b)
                } else {
                    code_for(*root, b)
                },
    {
        if !occurs[i] {
            codebook[i] = no_code();
        }
        proof {
            let bi = i as u8;
            assert(bi as int == i);
            if root.positive_labels().contains(bi) {
                assert(occurs@[bi as int]);
            }
        }
    }
    codebook
}

/// Mark every byte that labels a leaf of non-zero frequency below `node`.
fn mark_occurring(node: &HuffmanNode, occurs: &mut [bool; 256])
    ensures
        forall|b: u8|
            #[trigger] final(occurs)@[b as int] == (old(occurs)@[b as int]
                || node.positive_labels().contains(b)),
    decreases node,
{
    match node {
        HuffmanNode::Leaf { byte, frequency } => {
            if *frequency > 0 {
                occurs[*byte as usize] = true;
            }
        },
        HuffmanNode::Internal { left, right, .. } => {
            mark_occurring(left, occurs);
            mark_occurring(right, occurs);
        },
    }
}

/// Recursive DFS traversal of the Huffman tree.
fn traverse(node: &HuffmanNode, path: &mut Vec<bool>, codebook: &mut Codebook)
    ensures
        final(path)@ == old(path)@,
        forall|b: u8|
            (#[trigger] final(codebook)@[b as int])@ == match code_of(*node, b) {
                Some(p) => old(path)@ + p,
                None => old(codebook)@[b as int]@,
            },
    decreases node,
{
    match node {
        HuffmanNode::Leaf { byte, .. } => {
            // Assign current path as this byte's code
            let code = path.clone();
            assert(code@ =~= path@);
            codebook[*byte as usize] = code;
            proof {
                assert forall|b: u8| (#[trigger] codebook@[b as int])@ == match code_of(*node, b) {
                    Some(p) => old(path)@ + p,
                    None => old(codebook)@[b as int]@,
                } by {
                    if b == *byte {
                        assert(old(path)@ + Seq::<bool>::empty() =~= old(path)@);
                    }
                }
            }
        },
        HuffmanNode::Internal { left, right, .. } => {
            // Go left, append 0
            path.push(false);
            traverse(left, path, codebook);
            path.pop();
            let ghost mid = codebook@;
            // Go right, append 1
            path.push(true);
            traverse(right, path, codebook);
            path.pop();
            proof {
                assert forall|b: u8| (#[trigger] codebook@[b as int])@ == match code_of(*node, b) {
                    Some(p) => old(path)@ + p,
                    None => old(codebook)@[b as int]@,
                } by {
                    match code_of(**right, b) {
                        Some(q) => {
                            assert(old(path)@.push(true) + q =~= old(path)@ + (seq![true] + q));
                        },
                        None => {
                            match code_of(**left, b) {
                                Some(q) => {
                                    assert(old(path)@.push(false) + q =~= old(path)@ + (seq![false]
                                        + q));
                                },
                                None => {},
                            }
                        },
                    }
                }
            }
        },
    }
}

} // verus!
