use vstd::prelude::*;
use crate::code_lengths::{
    depths_follow_weights, leaves_weigh_as_in, lemma_huffman_tree_shape, weights_add_up,
};
use crate::frequency::{prefix_total, table_total};

verus! {

// Node Definition

/// A single node in the Huffman tree.
/// Either a Leaf (holds a byte value) or an Internal node (holds two children).
#[derive(Debug)]
pub enum HuffmanNode {
    Leaf { byte: u8, frequency: u64 },
    Internal { frequency: u64, left: Box<HuffmanNode>, right: Box<HuffmanNode> },
}

impl HuffmanNode {
    /// The frequency stored in this node.
    pub open spec fn freq(self) -> u64 {
        match self {
            HuffmanNode::Leaf { frequency, .. } => frequency,
            HuffmanNode::Internal { frequency, .. } => frequency,
        }
    }

    /// The byte values at the leaves below this node.
    pub open spec fn labels(self) -> Set<u8>
        decreases self,
    {
        match self {
            HuffmanNode::Leaf { byte, .. } => set![byte],
            HuffmanNode::Internal { left, right, .. } => left.labels().union(right.labels()),
        }
    }

    /// The byte values at the leaves of non-zero frequency below this node.
    pub open spec fn positive_labels(self) -> Set<u8>
        decreases self,
    {
        match self {
            HuffmanNode::Leaf { byte, frequency } => if frequency > 0 {
                set![byte]
            } else {
                Set::empty()
            },
            HuffmanNode::Internal { left, right, .. } => left.positive_labels().union(
                right.positive_labels(),
            ),
        }
    }

    /// The number of edges on the longest path from this node to a leaf.
    pub open spec fn height(self) -> nat
        decreases self,
    {
        match self {
            HuffmanNode::Leaf { .. } => 0,
            HuffmanNode::Internal { left, right, .. } => 1 + if left.height() >= right.height() {
                left.height()
            } else {
                right.height()
            },
        }
    }

    /// The number of leaves below this node.
    pub open spec fn leaf_count(self) -> nat
        decreases self,
    {
        match self {
            HuffmanNode::Leaf { .. } => 1,
            HuffmanNode::Internal { left, right, .. } => left.leaf_count() + right.leaf_count(),
        }
    }

    pub fn frequency(&self) -> (f: u64)
        ensures
            f == self.freq(),
    {
        match self {
            HuffmanNode::Leaf { frequency, .. } => *frequency,
            HuffmanNode::Internal { frequency, .. } => *frequency,
        }
    }
}

// The forest of subtrees that tree construction works on

/// The sum of the frequencies of the roots of a forest.
pub open spec fn forest_total(s: Seq<HuffmanNode>) -> nat
    decreases s.len(),
{
    if s.len() == 0 {
        0
    } else {
        forest_total(s.drop_last()) + s.last().freq() as nat
    }
}

/// The leaf labels of all trees of a forest.
pub open spec fn forest_labels(s: Seq<HuffmanNode>) -> Set<u8>
    decreases s.len(),
{
    if s.len() == 0 {
        Set::empty()
    } else {
        forest_labels(s.drop_last()).union(s.last().labels())
    }
}

/// The labels of the leaves of non-zero frequency of all trees of a forest.
pub open spec fn forest_positive_labels(s: Seq<HuffmanNode>) -> Set<u8>
    decreases s.len(),
{
    if s.len() == 0 {
        Set::empty()
    } else {
        forest_positive_labels(s.drop_last()).union(s.last().positive_labels())
    }
}

/// The number of leaves of all trees of a forest.
pub open spec fn forest_leaf_count(s: Seq<HuffmanNode>) -> nat
    decreases s.len(),
{
    if s.len() == 0 {
        0
    } else {
        forest_leaf_count(s.drop_last()) + s.last().leaf_count()
    }
}

/// Every tree of the forest is no higher than its leaf count less one.
pub open spec fn forest_is_lean(s: Seq<HuffmanNode>) -> bool {
    forall|k: int| 0 <= k < s.len() ==> #[trigger] s[k].height() + 1 <= s[k].leaf_count()
}

/// The position of the first root of least frequency.
pub open spec fn min_index(s: Seq<HuffmanNode>) -> int
    decreases s.len(),
{
    if s.len() <= 1 {
        0
    } else {
        let m = min_index(s.drop_last());
        if s.last().freq() < s[m].freq() {
            s.len() - 1
        } else {
            m
        }
    }
}

/// One merge: take out the two least frequent roots (the first of least
/// frequency, then the first of least frequency among the rest) and append
/// a node that has them as left and right child.
pub open spec fn merge_step(s: Seq<HuffmanNode>) -> Seq<HuffmanNode> {
    let i = min_index(s);
    let a = s[i];
    let rest = s.remove(i);
    let j = min_index(rest);
    let b = rest[j];
    rest.remove(j).push(
        HuffmanNode::Internal {
            frequency: (a.freq() + b.freq()) as u64,
            left: Box::new(a),
            right: Box::new(b),
        },
    )
}

/// Merge until at most one tree is left.
pub open spec fn merge_all(s: Seq<HuffmanNode>) -> Seq<HuffmanNode>
    decreases s.len(),
{
    if s.len() <= 1 {
        s
    } else {
        proof {
            lemma_merge_step_len(s);
        }
        merge_all(merge_step(s))
    }
}

/// One leaf per byte value among the first `n` whose frequency is not zero,
/// in order of byte value.
pub open spec fn leaves_upto(f: Seq<u64>, n: nat) -> Seq<HuffmanNode>
    decreases n,
{
    if n == 0 {
        Seq::empty()
    } else {
        let prev = leaves_upto(f, (n - 1) as nat);
        if f[n - 1] > 0 {
            prev.push(HuffmanNode::Leaf { byte: (n - 1) as u8, frequency: f[n - 1] })
        } else {
            prev
        }
    }
}

/// The Huffman tree this library builds from a 256-entry frequency table.
/// With one byte value present, its leaf is wrapped in an internal node
/// whose right child is a zero-frequency leaf for byte 0.
pub open spec fn huffman_tree(f: Seq<u64>) -> Option<HuffmanNode> {
    let leaves = leaves_upto(f, 256);
    if leaves.len() == 0 {
        None
    } else if leaves.len() == 1 {
        Some(
            HuffmanNode::Internal {
                frequency: leaves[0].freq(),
                left: Box::new(leaves[0]),
                right: Box::new(HuffmanNode::Leaf { byte: 0, frequency: 0 }),
            },
        )
    } else {
        Some(merge_all(leaves)[0])
    }
}

// Lemmas on forests

pub proof fn lemma_min_index(s: Seq<HuffmanNode>)
    requires
        s.len() > 0,
    ensures
        0 <= min_index(s) < s.len(),
        forall|k: int| 0 <= k < s.len() ==> s[min_index(s)].freq() <= #[trigger] s[k].freq(),
        forall|k: int| 0 <= k < min_index(s) ==> s[min_index(s)].freq() < #[trigger] s[k].freq(),
    decreases s.len(),
{
    if s.len() > 1 {
        let t = s.drop_last();
        lemma_min_index(t);
        assert forall|k: int| 0 <= k < s.len() implies s[min_index(s)].freq() <= #[trigger] s[k].freq() by {
            if k < s.len() - 1 {
                assert(s[k] == t[k]);
            }
        }
        assert forall|k: int| 0 <= k < min_index(s) implies s[min_index(s)].freq() < #[trigger] s[k].freq() by {
            assert(s[k] == t[k]);
        }
    }
}

pub proof fn lemma_merge_step_len(s: Seq<HuffmanNode>)
    requires
        s.len() >= 2,
    ensures
        merge_step(s).len() == s.len() - 1,
{
    lemma_min_index(s);
    lemma_min_index(s.remove(min_index(s)));
}

proof fn lemma_concat(a: Seq<HuffmanNode>, b: Seq<HuffmanNode>)
    ensures
        forest_total(a + b) == forest_total(a) + forest_total(b),
        forest_labels(a + b) == forest_labels(a).union(forest_labels(b)),
        forest_positive_labels(a + b) == forest_positive_labels(a).union(forest_positive_labels(b)),
        forest_leaf_count(a + b) == forest_leaf_count(a) + forest_leaf_count(b),
    decreases b.len(),
{
    if b.len() == 0 {
        assert(a + b =~= a);
        assert(forest_labels(a).union(Set::empty()) =~= forest_labels(a));
        assert(forest_positive_labels(a).union(Set::empty()) =~= forest_positive_labels(a));
    } else {
        assert((a + b).drop_last() =~= a + b.drop_last());
        lemma_concat(a, b.drop_last());
        assert(forest_labels(a + b) =~= forest_labels(a).union(forest_labels(b)));
        assert(forest_positive_labels(a + b) =~= forest_positive_labels(a).union(
            forest_positive_labels(b),
        ));
    }
}

proof fn lemma_single(x: HuffmanNode)
    ensures
        forest_total(seq![x]) == x.freq(),
        forest_labels(seq![x]) == x.labels(),
        forest_positive_labels(seq![x]) == x.positive_labels(),
        forest_leaf_count(seq![x]) == x.leaf_count(),
{
    reveal_with_fuel(forest_leaf_count, 2);
    reveal_with_fuel(forest_total, 2);
    reveal_with_fuel(forest_labels, 2);
    reveal_with_fuel(forest_positive_labels, 2);
    assert(seq![x].drop_last() =~= Seq::<HuffmanNode>::empty());
    assert(Set::<u8>::empty().union(x.labels()) =~= x.labels());
    assert(Set::<u8>::empty().union(x.positive_labels()) =~= x.positive_labels());
}

pub proof fn lemma_remove(s: Seq<HuffmanNode>, i: int)
    requires
        0 <= i < s.len(),
    ensures
        forest_total(s) == forest_total(s.remove(i)) + s[i].freq(),
        forest_labels(s) == forest_labels(s.remove(i)).union(s[i].labels()),
        forest_positive_labels(s) == forest_positive_labels(s.remove(i)).union(
            s[i].positive_labels(),
        ),
        forest_leaf_count(s) == forest_leaf_count(s.remove(i)) + s[i].leaf_count(),
        forall|k: int| 0 <= k < s.len() - 1 ==> #[trigger] s.remove(i)[k] == if k < i {
            s[k]
        } else {
            s[k + 1]
        },
{
    let a = s.take(i);
    let b = s.skip(i + 1);
    assert(s =~= a + seq![s[i]] + b);
    assert(s.remove(i) =~= a + b);
    lemma_concat(a, seq![s[i]]);
    lemma_concat(a + seq![s[i]], b);
    lemma_concat(a, b);
    lemma_single(s[i]);
    assert(forest_labels(s) =~= forest_labels(s.remove(i)).union(s[i].labels()));
    assert(forest_positive_labels(s) =~= forest_positive_labels(s.remove(i)).union(
        s[i].positive_labels(),
    ));
}

proof fn lemma_push(s: Seq<HuffmanNode>, x: HuffmanNode)
    ensures
        forest_total(s.push(x)) == forest_total(s) + x.freq(),
        forest_labels(s.push(x)) == forest_labels(s).union(x.labels()),
        forest_positive_labels(s.push(x)) == forest_positive_labels(s).union(x.positive_labels()),
        forest_leaf_count(s.push(x)) == forest_leaf_count(s) + x.leaf_count(),
{
    assert(s.push(x).drop_last() =~= s);
}

/// A merge keeps the total frequency and the leaf labels of the forest,
/// and appends an internal node.
pub proof fn lemma_merge_step(s: Seq<HuffmanNode>)
    requires
        s.len() >= 2,
        forest_total(s) <= u64::MAX,
    ensures
        merge_step(s).len() == s.len() - 1,
        forest_total(merge_step(s)) == forest_total(s),
        forest_labels(merge_step(s)) == forest_labels(s),
        forest_positive_labels(merge_step(s)) == forest_positive_labels(s),
        forest_leaf_count(merge_step(s)) == forest_leaf_count(s),
        forest_is_lean(s) ==> forest_is_lean(merge_step(s)),
        merge_step(s).last() is Internal,
{
    let i = min_index(s);
    lemma_min_index(s);
    let a = s[i];
    let rest = s.remove(i);
    lemma_remove(s, i);
    let j = min_index(rest);
    lemma_min_index(rest);
    let b = rest[j];
    lemma_remove(rest, j);
    let merged = HuffmanNode::Internal {
        frequency: (a.freq() + b.freq()) as u64,
        left: Box::new(a),
        right: Box::new(b),
    };
    lemma_push(rest.remove(j), merged);
    assert(merged.labels() == a.labels().union(b.labels()));
    assert(forest_labels(merge_step(s)) =~= forest_labels(s));
    assert(merged.positive_labels() == a.positive_labels().union(b.positive_labels()));
    assert(forest_positive_labels(merge_step(s)) =~= forest_positive_labels(s));
    if forest_is_lean(s) {
        let t = merge_step(s);
        assert(rest[j].height() + 1 <= rest[j].leaf_count());
        assert forall|k: int| 0 <= k < t.len() implies #[trigger] t[k].height() + 1
            <= t[k].leaf_count() by {
            if k < t.len() - 1 {
                let r2 = rest.remove(j);
                assert(t[k] == r2[k]);
                let k2 = if k < j { k } else { k + 1 };
                assert(r2[k] == rest[k2]);
                let k3 = if k2 < i { k2 } else { k2 + 1 };
                assert(rest[k2] == s[k3]);
                assert(s[k3].height() + 1 <= s[k3].leaf_count());
            } else {
                assert(t[k] == merged);
                assert(a.height() + 1 <= a.leaf_count());
                assert(merged.height() <= a.height() + b.height() + 1);
            }
        }
    }
}

/// Merging a forest of two or more trees ends in one internal node that holds
/// the total frequency and all leaf labels of the forest.
pub proof fn lemma_merge_all(s: Seq<HuffmanNode>)
    requires
        s.len() >= 2,
        forest_total(s) <= u64::MAX,
    ensures
        merge_all(s).len() == 1,
        merge_all(s)[0] is Internal,
        merge_all(s)[0].freq() == forest_total(s),
        merge_all(s)[0].labels() == forest_labels(s),
        merge_all(s)[0].positive_labels() == forest_positive_labels(s),
        forest_is_lean(s) ==> merge_all(s)[0].height() + 1 <= forest_leaf_count(s),
    decreases s.len(),
{
    lemma_merge_step(s);
    let t = merge_step(s);
    assert(merge_all(s) == merge_all(t));
    if t.len() >= 2 {
        lemma_merge_all(t);
    } else {
        assert(merge_all(t) == t);
        assert(t =~= seq![t[0]]);
        lemma_single(t[0]);
        if forest_is_lean(s) {
            assert(t[0].height() + 1 <= t[0].leaf_count());
        }
    }
}

pub proof fn lemma_leaves(f: Seq<u64>, n: nat)
    requires
        n <= f.len(),
        n <= 256,
    ensures
        forest_total(leaves_upto(f, n)) == prefix_total(f, n),
        forall|b: u8| #[trigger]
            forest_labels(leaves_upto(f, n)).contains(b) <==> (b < n && f[b as int] > 0),
        forest_positive_labels(leaves_upto(f, n)) == forest_labels(leaves_upto(f, n)),
        leaves_upto(f, n).len() == 0 <==> (forall|k: int| 0 <= k < n ==> f[k] == 0),
        forall|k: int| 0 <= k < leaves_upto(f, n).len() ==> #[trigger] leaves_upto(f, n)[k] is Leaf,
        leaves_upto(f, n).len() <= n,
        forest_leaf_count(leaves_upto(f, n)) == leaves_upto(f, n).len(),
        forest_is_lean(leaves_upto(f, n)),
    decreases n,
{
    if n > 0 {
        let prev = leaves_upto(f, (n - 1) as nat);
        lemma_leaves(f, (n - 1) as nat);
        if f[n - 1] > 0 {
            let x = HuffmanNode::Leaf { byte: (n - 1) as u8, frequency: f[n - 1] };
            lemma_push(prev, x);
            assert(x.positive_labels() =~= x.labels());
            let cur = leaves_upto(f, n);
            assert forall|k: int| 0 <= k < cur.len() implies #[trigger] cur[k].height() + 1
                <= cur[k].leaf_count() by {
                if k < cur.len() - 1 {
                    assert(cur[k] == prev[k]);
                }
            }
            assert forall|b: u8|
                #[trigger] forest_labels(leaves_upto(f, n)).contains(b) <==> (b < n && f[b as int]
                    > 0) by {
                if b == (n - 1) as u8 {
                    assert(x.labels().contains(b));
                }
            }
        } else {
            assert forall|b: u8|
                #[trigger] forest_labels(leaves_upto(f, n)).contains(b) <==> (b < n && f[b as int]
                    > 0) by {
                if b == (n - 1) as u8 {
                    assert(b as int == n - 1);
                }
            }
        }
        if leaves_upto(f, n).len() == 0 {
            assert forall|k: int| 0 <= k < n implies f[k] == 0 by {
                if k < n - 1 {
                } else {
                    assert(f[n - 1] == 0);
                }
            }
        }
    }
}

/// What the construction promises of its result: `None` exactly when no byte
/// occurs, otherwise an internal root that holds the total frequency and has
/// a leaf for every byte that occurs.
pub proof fn lemma_huffman_tree(f: Seq<u64>)
    requires
        f.len() == 256,
        table_total(f) <= u64::MAX,
    ensures
        huffman_tree(f) is None <==> (forall|k: int| 0 <= k < 256 ==> f[k] == 0),
        huffman_tree(f) matches Some(t) ==> {
            &&& t is Internal
            &&& t.freq() == table_total(f)
            &&& forall|b: u8| f[b as int] > 0 ==> #[trigger] t.labels().contains(b)
            &&& forall|b: u8| #[trigger] t.positive_labels().contains(b) <==> f[b as int] > 0
            &&& t.height() <= 255
        },
{
    let leaves = leaves_upto(f, 256);
    lemma_leaves(f, 256);
    if leaves.len() == 1 {
        assert(leaves =~= seq![leaves[0]]);
        lemma_single(leaves[0]);
        let t = huffman_tree(f).unwrap();
        assert(leaves[0] is Leaf);
        assert(leaves[0].height() == 0);
        assert(HuffmanNode::Leaf { byte: 0, frequency: 0 }.height() == 0);
        assert(t.height() == 1);
        assert(HuffmanNode::Leaf { byte: 0, frequency: 0 }.positive_labels() =~= Set::<u8>::empty());
        assert(t.positive_labels() =~= leaves[0].positive_labels());
        assert forall|b: u8| #[trigger] t.positive_labels().contains(b) <==> f[b as int] > 0 by {
            assert(forest_labels(leaves).contains(b) <==> f[b as int] > 0);
        }
        assert forall|b: u8| f[b as int] > 0 implies #[trigger] t.labels().contains(b) by {
            assert(forest_labels(leaves).contains(b));
        }
    } else if leaves.len() >= 2 {
        lemma_merge_all(leaves);
        let t = huffman_tree(f).unwrap();
        assert(t == merge_all(leaves)[0]);
        assert(t.height() + 1 <= 256);
        assert forall|b: u8| #[trigger] t.positive_labels().contains(b) <==> f[b as int] > 0 by {
            assert(forest_labels(leaves).contains(b) <==> f[b as int] > 0);
        }
        assert forall|b: u8| f[b as int] > 0 implies #[trigger] t.labels().contains(b) by {
            assert(forest_labels(leaves).contains(b));
        }
    }
}

// Tree Construction

/// The position of the first node of least frequency in a non-empty forest.
fn find_min(forest: &Vec<HuffmanNode>) -> (m: usize)
    requires
        forest@.len() > 0,
    ensures
        m == min_index(forest@),
        m < forest@.len(),
{
    proof {
        lemma_min_index(forest@);
    }
    let n = forest.len();
    let mut best: usize = 0;
    let mut i: usize = 1;
    assert(forest@.take(1).len() == 1);
    while i < n
        invariant
            n == forest@.len(),
            1 <= i <= n,
            best < i,
            best == min_index(forest@.take(i as int)),
        decreases n - i,
    {
        let ghost pre = forest@.take(i as int);
        let ghost next = forest@.take(i + 1);
        assert(next.drop_last() =~= pre);
        assert(next[best as int] == forest@[best as int]);
        if forest[i].frequency() < forest[best].frequency() {
            best = i;
        }
        i = i + 1;
    }
    assert(forest@.take(n as int) =~= forest@);
    best
}

/// Builds a Huffman tree from a frequency table.
/// Returns None if the input was empty (all frequencies are zero).
pub fn build_tree(frequencies: &[u64; 256]) -> (tree: Option<Box<HuffmanNode>>)
    requires
        table_total(frequencies@) <= u64::MAX,
    ensures
        match tree {
            Some(t) => huffman_tree(frequencies@) == Some(*t),
            None => huffman_tree(frequencies@) is None,
        },
        tree is None <==> (forall|k: int| 0 <= k < 256 ==> frequencies@[k] == 0),
        tree matches Some(t) ==> {
            &&& *t is Internal
            &&& t.freq() == table_total(frequencies@)
            &&& forall|b: u8| frequencies@[b as int] > 0 ==> #[trigger] t.labels().contains(b)
            &&& forall|b: u8| #[trigger] t.positive_labels().contains(b) <==> frequencies@[b as int] > 0
            &&& depths_follow_weights(*t)
            &&& weights_add_up(*t)
            &&& leaves_weigh_as_in(*t, frequencies@)
        },
{
    let ghost f = frequencies@;
    proof {
        lemma_huffman_tree(f);
        lemma_huffman_tree_shape(f);
        lemma_leaves(f, 256);
    }
    let mut forest: Vec<HuffmanNode> = Vec::new();

    // Step 1: one Leaf per byte that actually appears
    for i in 0..256usize
        invariant
            f == frequencies@,
            forest@ == leaves_upto(f, i as nat),
    {
        let freq = frequencies[i];
        if freq > 0 {
            forest.push(HuffmanNode::Leaf { byte: i as u8, frequency: freq });
        }
    }

    // Edge case: file was empty
    if forest.len() == 0 {
        return None;
    }

    // Edge case: only one unique byte, wrap it in an internal node
    // so the tree always has at least one left/right branch to traverse
    if forest.len() == 1 {
        let only = forest.pop().unwrap();
        let freq = only.frequency();
        return Some(
            Box::new(
                HuffmanNode::Internal {
                    frequency: freq,
                    left: Box::new(only),
                    right: Box::new(HuffmanNode::Leaf { byte: 0, frequency: 0 }),
                },
            ),
        );
    }
    let ghost target = merge_all(forest@);

    // Step 2: merge the two lowest-frequency nodes repeatedly
    while forest.len() > 1
        invariant
            forest@.len() >= 1,
            merge_all(forest@) == target,
            forest_total(forest@) <= u64::MAX,
        decreases forest@.len(),
    {
        let ghost before = forest@;
        proof {
            lemma_merge_step(before);
            lemma_min_index(before);
            lemma_remove(before, min_index(before));
            lemma_min_index(before.remove(min_index(before)));
            lemma_remove(before.remove(min_index(before)), min_index(before.remove(min_index(before))));
        }
        let i = find_min(&forest);
        let left = forest.remove(i);
        let j = find_min(&forest);
        let right = forest.remove(j);
        let merged = HuffmanNode::Internal {
            frequency: left.frequency() + right.frequency(),
            left: Box::new(left),
            right: Box::new(right),
        };
        forest.push(merged);
        assert(forest@ =~= merge_step(before));
    }

    // Step 3: the last remaining node is the root
    assert(target == forest@);
    let root = forest.pop().unwrap();
    Some(Box::new(root))
}

} // verus!
