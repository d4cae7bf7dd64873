use vstd::prelude::*;
use crate::codebook::{code_for, code_of, lemma_code_exists};
use crate::frequency::table_total;
use crate::tree::{
    HuffmanNode, forest_total, huffman_tree, leaves_upto, lemma_huffman_tree, lemma_leaves,
    lemma_merge_step, lemma_min_index, lemma_remove, merge_all, merge_step, min_index,
};

verus! {

/// The tree at `k` comes before the tree at `l` in the order in which the
/// construction picks trees: lower frequency first, then earlier position.
pub open spec fn picked_before(s: Seq<HuffmanNode>, k: int, l: int) -> bool {
    s[k].freq() < s[l].freq() || (s[k].freq() == s[l].freq() && k < l)
}

/// The position in `s` of the second tree a merge step takes.
pub open spec fn second_pos(s: Seq<HuffmanNode>) -> int {
    let i = min_index(s);
    let j = min_index(s.remove(i));
    if j < i {
        j
    } else {
        j + 1
    }
}

/// Where a tree that a merge step does not take ends up.
pub open spec fn moved_pos(s: Seq<HuffmanNode>, k: int) -> int {
    let i = min_index(s);
    let j = min_index(s.remove(i));
    let k1 = if k < i {
        k
    } else {
        k - 1
    };
    if k1 < j {
        k1
    } else {
        k1 - 1
    }
}

/// Where a tree that stands at `k` after a merge step (and is not the new
/// node) stood before.
pub open spec fn unmoved_pos(s: Seq<HuffmanNode>, k: int) -> int {
    let i = min_index(s);
    let j = min_index(s.remove(i));
    let k1 = if k < j {
        k
    } else {
        k + 1
    };
    if k1 < i {
        k1
    } else {
        k1 + 1
    }
}

/// How many merges the tree at position `k` of `s` still takes part in.
pub open spec fn future(s: Seq<HuffmanNode>, k: int) -> nat
    decreases s.len(),
{
    if s.len() <= 1 {
        0
    } else {
        proof {
            crate::tree::lemma_merge_step_len(s);
        }
        if k == min_index(s) || k == second_pos(s) {
            1 + future(merge_step(s), s.len() - 2)
        } else {
            future(merge_step(s), moved_pos(s, k))
        }
    }
}

/// How a merge step moves the trees it does not take, and what it picks.
pub proof fn lemma_step_positions(s: Seq<HuffmanNode>)
    requires
        s.len() >= 2,
    ensures
        0 <= min_index(s) < s.len(),
        0 <= second_pos(s) < s.len(),
        min_index(s) != second_pos(s),
        merge_step(s).len() == s.len() - 1,
        merge_step(s)[s.len() - 2] == (HuffmanNode::Internal {
            frequency: (s[min_index(s)].freq() + s[second_pos(s)].freq()) as u64,
            left: Box::new(s[min_index(s)]),
            right: Box::new(s[second_pos(s)]),
        }),
        forall|k: int|
            0 <= k < s.len() && k != min_index(s) ==> #[trigger] picked_before(s, min_index(s), k),
        forall|k: int|
            0 <= k < s.len() && k != min_index(s) && k != second_pos(s) ==> #[trigger] picked_before(
                s,
                second_pos(s),
                k,
            ),
        forall|k: int|
            0 <= k < s.len() && k != min_index(s) && k != second_pos(s) ==> {
                &&& 0 <= #[trigger] moved_pos(s, k) < s.len() - 2
                &&& merge_step(s)[moved_pos(s, k)] == s[k]
                &&& unmoved_pos(s, moved_pos(s, k)) == k
            },
        forall|k: int|
            0 <= k < s.len() - 2 ==> {
                &&& 0 <= #[trigger] unmoved_pos(s, k) < s.len()
                &&& unmoved_pos(s, k) != min_index(s)
                &&& unmoved_pos(s, k) != second_pos(s)
                &&& moved_pos(s, unmoved_pos(s, k)) == k
            },
        forall|k: int, l: int|
            0 <= k < l < s.len() && k != min_index(s) && k != second_pos(s) && l != min_index(s)
                && l != second_pos(s) ==> #[trigger] moved_pos(s, k) < #[trigger] moved_pos(s, l),
{
    let i = min_index(s);
    lemma_min_index(s);
    let rest = s.remove(i);
    let j = min_index(rest);
    lemma_min_index(rest);
    let jj = second_pos(s);
    assert(rest[j] == s[jj]);
    assert forall|k: int| 0 <= k < s.len() && k != i implies #[trigger] picked_before(s, i, k) by {
    }
    assert forall|k: int| 0 <= k < s.len() && k != i && k != jj implies #[trigger] picked_before(
        s,
        jj,
        k,
    ) by {
        let r = if k < i {
            k
        } else {
            k - 1
        };
        assert(rest[r] == s[k]);
        if r < j {
            assert(rest[j].freq() < rest[r].freq());
        }
    }
    assert forall|k: int| 0 <= k < s.len() && k != i && k != jj implies {
        &&& 0 <= #[trigger] moved_pos(s, k) < s.len() - 2
        &&& merge_step(s)[moved_pos(s, k)] == s[k]
        &&& unmoved_pos(s, moved_pos(s, k)) == k
    } by {
        let k1 = if k < i {
            k
        } else {
            k - 1
        };
        assert(rest[k1] == s[k]);
        assert(rest.remove(j)[moved_pos(s, k)] == rest[k1]);
    }
    assert forall|k: int| 0 <= k < s.len() - 2 implies {
        &&& 0 <= #[trigger] unmoved_pos(s, k) < s.len()
        &&& unmoved_pos(s, k) != i
        &&& unmoved_pos(s, k) != jj
        &&& moved_pos(s, unmoved_pos(s, k)) == k
    } by {
    }
}

/// The two trees a merge step takes weigh no more than the whole forest.
proof fn lemma_taken_within_total(s: Seq<HuffmanNode>)
    requires
        s.len() >= 2,
    ensures
        s[min_index(s)].freq() + s[second_pos(s)].freq() <= forest_total(s),
{
    let i = min_index(s);
    lemma_min_index(s);
    let rest = s.remove(i);
    lemma_min_index(rest);
    let j = min_index(rest);
    lemma_remove(s, i);
    lemma_remove(rest, j);
    assert(rest[j] == s[second_pos(s)]);
}

/// A tree that is picked before another takes part in at least as many
/// further merges.
pub proof fn lemma_picked_first_merges_more(s: Seq<HuffmanNode>, k: int, l: int)
    requires
        forest_total(s) <= u64::MAX,
        0 <= k < s.len(),
        0 <= l < s.len(),
        picked_before(s, k, l),
    ensures
        future(s, k) >= future(s, l),
    decreases s.len(), 0int,
{
    if s.len() >= 2 {
        lemma_step_positions(s);
        lemma_merge_step(s);
        lemma_taken_within_total(s);
        let i = min_index(s);
        let jj = second_pos(s);
        let t = merge_step(s);
        let mm = s.len() - 2;
        let k_taken = k == i || k == jj;
        let l_taken = l == i || l == jj;
        if k_taken && l_taken {
        } else if k_taken {
            let l2 = moved_pos(s, l);
            assert(t[l2] == s[l]);
            if picked_before(t, mm, l2) {
                lemma_picked_first_merges_more(t, mm, l2);
            } else {
                assert(picked_before(t, l2, mm));
                let theta = s[jj].freq();
                assert(picked_before(s, i, jj));
                assert(t[mm].freq() == s[i].freq() + s[jj].freq());
                assert forall|k2: int| 0 <= k2 < t.len() && #[trigger] picked_before(t, k2, mm)
                    implies t[k2].freq() >= theta by {
                    if k2 != mm {
                        let k0 = unmoved_pos(s, k2);
                        assert(t[k2] == s[k0]);
                        assert(picked_before(s, jj, k0));
                    }
                }
                lemma_close_to_new_merges_at_most_once_more(t, mm, theta, l2);
            }
        } else if l_taken {
            if l == i {
                assert(picked_before(s, i, k));
            } else {
                assert(picked_before(s, jj, k));
            }
        } else {
            let k2 = moved_pos(s, k);
            let l2 = moved_pos(s, l);
            assert(t[k2] == s[k]);
            assert(t[l2] == s[l]);
            if k < l {
                assert(k2 < l2);
            } else {
                assert(l2 < k2);
            }
            lemma_picked_first_merges_more(t, k2, l2);
        }
    }
}

/// Let every tree picked before the tree at `m` weigh at least `theta`, and
/// the tree at `m` at most `2 * theta`. Then a tree picked before `m` takes
/// part in at most one merge more than `m`.
pub proof fn lemma_close_to_new_merges_at_most_once_more(
    s: Seq<HuffmanNode>,
    m: int,
    theta: u64,
    l: int,
)
    requires
        forest_total(s) <= u64::MAX,
        0 <= m < s.len(),
        0 <= l < s.len(),
        s[m].freq() <= 2 * theta,
        forall|k: int| 0 <= k < s.len() && #[trigger] picked_before(s, k, m) ==> s[k].freq() >= theta,
        picked_before(s, l, m),
    ensures
        future(s, l) <= future(s, m) + 1,
    decreases s.len(), 1int,
{
    if s.len() >= 2 {
        lemma_step_positions(s);
        lemma_merge_step(s);
        lemma_taken_within_total(s);
        let i = min_index(s);
        let jj = second_pos(s);
        let t = merge_step(s);
        let mm = s.len() - 2;
        let m_taken = m == i || m == jj;
        let l_taken = l == i || l == jj;
        if m_taken {
            if m == i {
                assert(picked_before(s, i, l));
            } else {
                if l != i {
                    assert(picked_before(s, jj, l));
                }
            }
        } else if l_taken {
            assert(picked_before(s, i, m));
            assert(picked_before(s, jj, m));
            let m2 = moved_pos(s, m);
            assert(t[m2] == s[m]);
            assert(t[mm].freq() == s[i].freq() + s[jj].freq());
            assert(picked_before(t, m2, mm));
            lemma_picked_first_merges_more(t, m2, mm);
        } else {
            let m2 = moved_pos(s, m);
            let l2 = moved_pos(s, l);
            assert(t[m2] == s[m]);
            assert(t[l2] == s[l]);
            if l < m {
                assert(l2 < m2);
            } else {
                assert(m2 < l2);
            }
            assert(picked_before(s, i, m));
            assert(picked_before(s, jj, m));
            assert forall|k2: int| 0 <= k2 < t.len() && #[trigger] picked_before(t, k2, m2)
                implies t[k2].freq() >= theta by {
                if k2 == mm {
                    assert(t[mm].freq() == s[i].freq() + s[jj].freq());
                } else {
                    let k0 = unmoved_pos(s, k2);
                    assert(t[k2] == s[k0]);
                    if k2 < m2 {
                        assert(k0 < m);
                    } else {
                        assert(m < k0);
                    }
                    assert(picked_before(s, k0, m));
                }
            }
            lemma_close_to_new_merges_at_most_once_more(t, m2, theta, l2);
        }
    }
}

/// No byte labels leaves in two different trees of the forest.
pub open spec fn forest_disjoint(s: Seq<HuffmanNode>) -> bool {
    forall|k: int, l: int, x: u8|
        0 <= k < s.len() && 0 <= l < s.len() && k != l && #[trigger] s[k].labels().contains(x)
            ==> !#[trigger] s[l].labels().contains(x)
}

proof fn lemma_step_disjoint(s: Seq<HuffmanNode>)
    requires
        s.len() >= 2,
        forest_disjoint(s),
    ensures
        forest_disjoint(merge_step(s)),
{
    lemma_step_positions(s);
    let t = merge_step(s);
    let i = min_index(s);
    let jj = second_pos(s);
    let mm = s.len() - 2;
    assert(t[mm].labels() == s[i].labels().union(s[jj].labels()));
    assert forall|k: int, l: int, x: u8|
        0 <= k < t.len() && 0 <= l < t.len() && k != l && #[trigger] t[k].labels().contains(x)
            implies !#[trigger] t[l].labels().contains(x) by {
        if k != mm && l != mm {
            assert(t[k] == s[unmoved_pos(s, k)]);
            assert(t[l] == s[unmoved_pos(s, l)]);
            assert(moved_pos(s, unmoved_pos(s, k)) == k);
        } else if k == mm {
            let l0 = unmoved_pos(s, l);
            assert(t[l] == s[l0]);
            if s[i].labels().contains(x) {
                assert(!s[l0].labels().contains(x));
            } else {
                assert(!s[l0].labels().contains(x));
            }
        } else {
            let k0 = unmoved_pos(s, k);
            assert(t[k] == s[k0]);
            assert(!s[i].labels().contains(x));
            assert(!s[jj].labels().contains(x));
        }
    }
}

/// In the final tree, a byte's code is as long as its path in the tree of
/// the forest that holds it, plus the merges that tree still takes part in.
pub proof fn lemma_final_code_len(s: Seq<HuffmanNode>, k: int, x: u8)
    requires
        forest_total(s) <= u64::MAX,
        forest_disjoint(s),
        0 <= k < s.len(),
        s[k].labels().contains(x),
    ensures
        code_of(merge_all(s)[0], x) is Some,
        code_of(s[k], x) is Some,
        code_of(merge_all(s)[0], x).unwrap().len() == code_of(s[k], x).unwrap().len() + future(
            s,
            k,
        ),
    decreases s.len(),
{
    lemma_code_exists(s[k], x);
    if s.len() == 1 {
        assert(merge_all(s) == s);
    } else {
        lemma_step_positions(s);
        lemma_merge_step(s);
        lemma_step_disjoint(s);
        let t = merge_step(s);
        let i = min_index(s);
        let jj = second_pos(s);
        let mm = s.len() - 2;
        assert(merge_all(s) == merge_all(t));
        if k == i || k == jj {
            let merged = t[mm];
            lemma_code_exists(s[jj], x);
            lemma_code_exists(s[i], x);
            if k == jj {
                assert(code_of(merged, x) == Some(seq![true] + code_of(s[jj], x).unwrap()));
            } else {
                assert(!s[jj].labels().contains(x));
                assert(code_of(merged, x) == Some(seq![false] + code_of(s[i], x).unwrap()));
            }
            assert(merged.labels().contains(x));
            lemma_final_code_len(t, mm, x);
        } else {
            let k2 = moved_pos(s, k);
            assert(t[k2] == s[k]);
            lemma_final_code_len(t, k2, x);
        }
    }
}

/// The byte of a leaf.
pub open spec fn leaf_byte(node: HuffmanNode) -> u8 {
    match node {
        HuffmanNode::Leaf { byte, .. } => byte,
        HuffmanNode::Internal { .. } => 0,
    }
}

/// The initial forest holds one leaf per byte that occurs, with that byte's
/// frequency, in increasing byte order.
proof fn lemma_leaf_entries(f: Seq<u64>, n: nat)
    requires
        f.len() == 256,
        n <= 256,
    ensures
        forall|k: int|
            0 <= k < leaves_upto(f, n).len() ==> {
                &&& #[trigger] leaves_upto(f, n)[k] is Leaf
                &&& leaf_byte(leaves_upto(f, n)[k]) < n
                &&& leaves_upto(f, n)[k].freq() == f[leaf_byte(leaves_upto(f, n)[k]) as int]
                &&& leaves_upto(f, n)[k].freq() > 0
                &&& leaves_upto(f, n)[k].labels() == set![leaf_byte(leaves_upto(f, n)[k])]
            },
        forall|k: int, l: int|
            0 <= k < l < leaves_upto(f, n).len() ==> leaf_byte(#[trigger] leaves_upto(f, n)[k])
                < leaf_byte(#[trigger] leaves_upto(f, n)[l]),
        forall|x: u8|
            x < n && #[trigger] f[x as int] > 0 ==> exists|k: int|
                0 <= k < leaves_upto(f, n).len() && leaf_byte(#[trigger] leaves_upto(f, n)[k])
                    == x,
    decreases n,
{
    if n > 0 {
        let prev = leaves_upto(f, (n - 1) as nat);
        lemma_leaf_entries(f, (n - 1) as nat);
        let cur = leaves_upto(f, n);
        if f[n - 1] > 0 {
            let b = (n - 1) as u8;
            assert(cur == prev.push(HuffmanNode::Leaf { byte: b, frequency: f[n - 1] }));
            assert forall|k: int| 0 <= k < cur.len() implies {
                &&& #[trigger] cur[k] is Leaf
                &&& leaf_byte(cur[k]) < n
                &&& cur[k].freq() == f[leaf_byte(cur[k]) as int]
                &&& cur[k].freq() > 0
                &&& cur[k].labels() == set![leaf_byte(cur[k])]
            } by {
                if k < cur.len() - 1 {
                    assert(cur[k] == prev[k]);
                }
            }
            assert forall|k: int, l: int| 0 <= k < l < cur.len() implies leaf_byte(
                #[trigger] cur[k],
            ) < leaf_byte(#[trigger] cur[l]) by {
                assert(cur[k] == prev[k]);
                if l < cur.len() - 1 {
                    assert(cur[l] == prev[l]);
                }
            }
            assert forall|x: u8| x < n && #[trigger] f[x as int] > 0 implies exists|k: int|
                0 <= k < cur.len() && leaf_byte(#[trigger] cur[k]) == x by {
                if x < n - 1 {
                    let k = choose|k: int| 0 <= k < prev.len() && leaf_byte(#[trigger] prev[k]) == x;
                    assert(cur[k] == prev[k]);
                } else {
                    assert(x == b);
                    assert(leaf_byte(cur[cur.len() - 1]) == x);
                }
            }
        } else {
            assert(cur == prev);
            assert forall|x: u8| x < n && #[trigger] f[x as int] > 0 implies exists|k: int|
                0 <= k < cur.len() && leaf_byte(#[trigger] cur[k]) == x by {
                assert(x < n - 1);
            }
        }
    }
}

/// A byte that occurs more often than another gets a code no longer than the
/// other's.
pub proof fn lemma_more_frequent_code_not_longer(f: Seq<u64>, x: u8, y: u8)
    requires
        f.len() == 256,
        table_total(f) <= u64::MAX,
        f[x as int] > f[y as int],
        f[y as int] > 0,
    ensures
        huffman_tree(f) is Some,
        code_for(huffman_tree(f).unwrap(), x).len() <= code_for(huffman_tree(f).unwrap(), y).len(),
{
    let leaves = leaves_upto(f, 256);
    lemma_leaves(f, 256);
    lemma_leaf_entries(f, 256);
    lemma_huffman_tree(f);
    let kx = choose|k: int| 0 <= k < leaves.len() && leaf_byte(#[trigger] leaves[k]) == x;
    let ky = choose|k: int| 0 <= k < leaves.len() && leaf_byte(#[trigger] leaves[k]) == y;
    assert(kx != ky);
    if leaves.len() == 1 {
        assert(false);
    }
    assert(forest_disjoint(leaves)) by {
        assert forall|k: int, l: int, z: u8|
            0 <= k < leaves.len() && 0 <= l < leaves.len() && k != l
                && #[trigger] leaves[k].labels().contains(z) implies !#[trigger] leaves[l].labels().contains(
            z,
        ) by {
            if k < l {
                assert(leaf_byte(leaves[k]) < leaf_byte(leaves[l]));
            } else {
                assert(leaf_byte(leaves[l]) < leaf_byte(leaves[k]));
            }
        }
    }
    assert(picked_before(leaves, ky, kx));
    lemma_picked_first_merges_more(leaves, ky, kx);
    assert(leaves[kx].labels().contains(x));
    assert(leaves[ky].labels().contains(y));
    lemma_final_code_len(leaves, kx, x);
    lemma_final_code_len(leaves, ky, y);
    assert(code_of(leaves[kx], x) == Some(Seq::<bool>::empty()));
    assert(code_of(leaves[ky], y) == Some(Seq::<bool>::empty()));
}

// Depths follow weights

/// `x` is a node of `t` at depth `d` (the root is at depth 0).
pub open spec fn has_node_at(t: HuffmanNode, x: HuffmanNode, d: nat) -> bool
    decreases t,
{
    if d == 0 {
        x == t
    } else {
        match t {
            HuffmanNode::Leaf { .. } => false,
            HuffmanNode::Internal { left, right, .. } => has_node_at(*left, x, (d - 1) as nat)
                || has_node_at(*right, x, (d - 1) as nat),
        }
    }
}

/// Every internal node of `t` weighs what its two children weigh together.
pub open spec fn weights_add_up(t: HuffmanNode) -> bool
    decreases t,
{
    match t {
        HuffmanNode::Leaf { .. } => true,
        HuffmanNode::Internal { frequency, left, right } => frequency == left.freq()
            + right.freq() && weights_add_up(*left) && weights_add_up(*right),
    }
}

/// A node of `t` that is lighter than another is no shallower: more weight
/// never sits deeper in the tree.
pub open spec fn depths_follow_weights(t: HuffmanNode) -> bool {
    forall|x: HuffmanNode, dx: nat, y: HuffmanNode, dy: nat|
        #[trigger] has_node_at(t, x, dx) && #[trigger] has_node_at(t, y, dy) && x.freq() < y.freq()
            ==> dx >= dy
}

/// Every leaf of `t` carries the frequency of its byte in `f`, or zero.
pub open spec fn leaves_weigh_as_in(t: HuffmanNode, f: Seq<u64>) -> bool {
    forall|x: HuffmanNode, d: nat|
        #[trigger] has_node_at(t, x, d) && x is Leaf ==> x.freq() == f[leaf_byte(x) as int]
            || x.freq() == 0
}

/// In the final tree, a node of the tree at `k` of the forest lies at its
/// depth in that tree plus the merges the tree still takes part in; lighter
/// nodes end up no shallower.
spec fn final_depths_ordered(s: Seq<HuffmanNode>) -> bool {
    forall|k: int, l: int, x: HuffmanNode, dx: nat, y: HuffmanNode, dy: nat|
        0 <= k < s.len() && 0 <= l < s.len() && #[trigger] has_node_at(s[k], x, dx)
            && #[trigger] has_node_at(s[l], y, dy) && x.freq() < y.freq() ==> dx + future(s, k)
            >= dy + future(s, l)
}

/// Nodes that have been merged weigh no more than any tree of the forest.
spec fn merged_nodes_light(s: Seq<HuffmanNode>) -> bool {
    forall|k: int, l: int, x: HuffmanNode, dx: nat|
        0 <= k < s.len() && 0 <= l < s.len() && #[trigger] has_node_at(s[k], x, dx) && dx >= 1
            ==> x.freq() <= #[trigger] s[l].freq()
}

spec fn forest_consistent(s: Seq<HuffmanNode>, f: Seq<u64>) -> bool {
    &&& forall|k: int| 0 <= k < s.len() ==> #[trigger] weights_add_up(s[k])
    &&& forall|k: int, x: HuffmanNode, d: nat|
        0 <= k < s.len() && #[trigger] has_node_at(s[k], x, d) && x is Leaf ==> x.freq()
            == f[leaf_byte(x) as int]
}

/// Where a node of the forest after a merge step stood before it.
proof fn lemma_step_node(s: Seq<HuffmanNode>, kk: int, x: HuffmanNode, dx: nat) -> (r: (int, nat))
    requires
        s.len() >= 2,
        0 <= kk < s.len() - 1,
        has_node_at(merge_step(s)[kk], x, dx),
        !(kk == s.len() - 2 && dx == 0),
    ensures
        0 <= r.0 < s.len(),
        has_node_at(s[r.0], x, r.1),
        r.1 + future(s, r.0) == dx + future(merge_step(s), kk),
        kk < s.len() - 2 ==> r.0 == unmoved_pos(s, kk) && r.1 == dx,
        kk == s.len() - 2 ==> (r.0 == min_index(s) || r.0 == second_pos(s)) && r.1 + 1 == dx,
{
    lemma_step_positions(s);
    let t = merge_step(s);
    let i = min_index(s);
    let jj = second_pos(s);
    if kk < s.len() - 2 {
        let k0 = unmoved_pos(s, kk);
        assert(t[kk] == s[k0]);
        (k0, dx)
    } else {
        let d1 = (dx - 1) as nat;
        if has_node_at(s[i], x, d1) {
            (i, d1)
        } else {
            (jj, d1)
        }
    }
}

/// A node below the root of `t` sits below one of its children.
proof fn lemma_node_below_root(t: HuffmanNode, x: HuffmanNode, d: nat)
    requires
        has_node_at(t, x, d),
        d >= 1,
    ensures
        t is Internal,
        t matches HuffmanNode::Internal { left, right, .. } ==> has_node_at(*left, *left, 0)
            && has_node_at(t, *left, 1) && has_node_at(t, *right, 1),
{
    match t {
        HuffmanNode::Leaf { .. } => {},
        HuffmanNode::Internal { left, right, .. } => {
            assert(has_node_at(*left, *left, 0));
            assert(has_node_at(*right, *right, 0));
        },
    }
}

/// A merge step keeps the facts that make the final tree's depths follow its
/// weights.
proof fn lemma_step_keeps_depth_order(s: Seq<HuffmanNode>, f: Seq<u64>)
    requires
        s.len() >= 2,
        forest_total(s) <= u64::MAX,
        final_depths_ordered(s),
        merged_nodes_light(s),
        forest_consistent(s, f),
    ensures
        forest_total(merge_step(s)) <= u64::MAX,
        final_depths_ordered(merge_step(s)),
        merged_nodes_light(merge_step(s)),
        forest_consistent(merge_step(s), f),
{
    lemma_step_positions(s);
    lemma_merge_step(s);
    lemma_taken_within_total(s);
    let t = merge_step(s);
    let i = min_index(s);
    let jj = second_pos(s);
    let mm = s.len() - 2;
    let m = t[mm];
    assert(m.freq() == s[i].freq() + s[jj].freq());
    assert(picked_before(s, i, jj));
    // merged nodes stay light
    assert forall|k2: int, l2: int, x: HuffmanNode, dx: nat|
        0 <= k2 < t.len() && 0 <= l2 < t.len() && #[trigger] has_node_at(t[k2], x, dx) && dx >= 1
            implies x.freq() <= #[trigger] t[l2].freq() by {
        let (k0, d0) = lemma_step_node(s, k2, x, dx);
        if l2 < mm {
            let l0 = unmoved_pos(s, l2);
            assert(t[l2] == s[l0]);
            if d0 >= 1 {
            } else {
                assert(x == s[k0]);
                assert(picked_before(s, k0, l0));
            }
        } else {
            if d0 >= 1 {
                assert(x.freq() <= s[i].freq());
            } else {
                assert(x == s[k0]);
            }
        }
    }
    // weights and leaves
    assert forall|k2: int| 0 <= k2 < t.len() implies #[trigger] weights_add_up(t[k2]) by {
        if k2 < mm {
            assert(t[k2] == s[unmoved_pos(s, k2)]);
        } else {
            assert(weights_add_up(s[i]));
            assert(weights_add_up(s[jj]));
        }
    }
    assert forall|k2: int, x: HuffmanNode, d: nat|
        0 <= k2 < t.len() && #[trigger] has_node_at(t[k2], x, d) && x is Leaf implies x.freq()
            == f[leaf_byte(x) as int] by {
        if !(k2 == mm && d == 0) {
            let (k0, d0) = lemma_step_node(s, k2, x, d);
        }
    }
    // depths
    assert forall|k2: int, l2: int, x: HuffmanNode, dx: nat, y: HuffmanNode, dy: nat|
        0 <= k2 < t.len() && 0 <= l2 < t.len() && #[trigger] has_node_at(t[k2], x, dx)
            && #[trigger] has_node_at(t[l2], y, dy) && x.freq() < y.freq() implies dx + future(
        t,
        k2,
    ) >= dy + future(t, l2) by {
        let xm = k2 == mm && dx == 0;
        let ym = l2 == mm && dy == 0;
        if !xm && !ym {
            let (k0, d0) = lemma_step_node(s, k2, x, dx);
            let (l0, e0) = lemma_step_node(s, l2, y, dy);
        } else if xm && ym {
        } else if xm {
            assert(x == m);
            if dy >= 1 {
                assert(y.freq() <= t[mm].freq());
            } else {
                assert(y == t[l2]);
                assert(picked_before(t, mm, l2));
                lemma_picked_first_merges_more(t, mm, l2);
            }
        } else {
            assert(y == m);
            if k2 == mm {
            } else if picked_before(t, k2, mm) {
                lemma_picked_first_merges_more(t, k2, mm);
            } else {
                let r = t[k2];
                assert(r.freq() > m.freq());
                if dx == 0 {
                    assert(x == r);
                } else {
                    lemma_node_below_root(r, x, dx);
                    match r {
                        HuffmanNode::Internal { left, right, .. } => {
                            let theta: u64 = if left.freq() >= right.freq() {
                                left.freq()
                            } else {
                                right.freq()
                            };
                            assert(weights_add_up(r));
                            assert forall|k3: int|
                                0 <= k3 < t.len() && #[trigger] picked_before(t, k3, k2) implies t[k3].freq()
                                >= theta by {
                                assert(has_node_at(t[k2], *left, 1));
                                assert(has_node_at(t[k2], *right, 1));
                                assert(left.freq() <= t[k3].freq());
                                assert(right.freq() <= t[k3].freq());
                            }
                            assert(picked_before(t, mm, k2));
                            lemma_close_to_new_merges_at_most_once_more(t, k2, theta, mm);
                        },
                        _ => {},
                    }
                }
            }
        }
    }
}

proof fn lemma_merge_all_depth_order(s: Seq<HuffmanNode>, f: Seq<u64>)
    requires
        s.len() >= 1,
        forest_total(s) <= u64::MAX,
        final_depths_ordered(s),
        merged_nodes_light(s),
        forest_consistent(s, f),
    ensures
        merge_all(s).len() == 1,
        depths_follow_weights(merge_all(s)[0]),
        weights_add_up(merge_all(s)[0]),
        leaves_weigh_as_in(merge_all(s)[0], f),
    decreases s.len(),
{
    if s.len() == 1 {
        assert(merge_all(s) == s);
        assert(future(s, 0) == 0);
        let t = s[0];
        assert forall|x: HuffmanNode, dx: nat, y: HuffmanNode, dy: nat|
            #[trigger] has_node_at(t, x, dx) && #[trigger] has_node_at(t, y, dy) && x.freq()
                < y.freq() implies dx >= dy by {
            assert(dx + future(s, 0) >= dy + future(s, 0));
        }
        assert(weights_add_up(s[0]));
    } else {
        lemma_step_keeps_depth_order(s, f);
        lemma_merge_step(s);
        assert(merge_all(s) == merge_all(merge_step(s)));
        lemma_merge_all_depth_order(merge_step(s), f);
    }
}

/// The initial forest of leaves meets the facts behind depth order.
proof fn lemma_leaves_depth_order(f: Seq<u64>)
    requires
        f.len() == 256,
        table_total(f) <= u64::MAX,
    ensures
        final_depths_ordered(leaves_upto(f, 256)),
        merged_nodes_light(leaves_upto(f, 256)),
        forest_consistent(leaves_upto(f, 256), f),
{
    let leaves = leaves_upto(f, 256);
    lemma_leaves(f, 256);
    lemma_leaf_entries(f, 256);
    assert forall|k: int, x: HuffmanNode, d: nat|
        0 <= k < leaves.len() && #[trigger] has_node_at(leaves[k], x, d) implies d == 0 && x
        == leaves[k] by {
        assert(leaves[k] is Leaf);
    }
    assert forall|k: int| 0 <= k < leaves.len() implies #[trigger] weights_add_up(leaves[k]) by {
        assert(leaves[k] is Leaf);
    }
    assert forall|k: int, l: int, x: HuffmanNode, dx: nat, y: HuffmanNode, dy: nat|
        0 <= k < leaves.len() && 0 <= l < leaves.len() && #[trigger] has_node_at(leaves[k], x, dx)
            && #[trigger] has_node_at(leaves[l], y, dy) && x.freq() < y.freq() implies dx + future(
        leaves,
        k,
    ) >= dy + future(leaves, l) by {
        assert(picked_before(leaves, k, l));
        lemma_picked_first_merges_more(leaves, k, l);
    }
}

/// The shape of the tree built from a frequency table: every internal node
/// weighs what its children weigh, every leaf weighs its byte's count (or
/// zero), and a lighter node never sits above a heavier one. A tree with a
/// heavy leaf hung high above lighter internal nodes, or with equally
/// frequent bytes at depths two apart, breaks this.
pub proof fn lemma_huffman_tree_shape(f: Seq<u64>)
    requires
        f.len() == 256,
        table_total(f) <= u64::MAX,
    ensures
        huffman_tree(f) matches Some(t) ==> {
            &&& depths_follow_weights(t)
            &&& weights_add_up(t)
            &&& leaves_weigh_as_in(t, f)
        },
{
    let leaves = leaves_upto(f, 256);
    lemma_leaves(f, 256);
    lemma_leaf_entries(f, 256);
    if leaves.len() == 1 {
        let a = leaves[0];
        let z = HuffmanNode::Leaf { byte: 0, frequency: 0 };
        let t = HuffmanNode::Internal { frequency: a.freq(), left: Box::new(a), right: Box::new(z) };
        assert(huffman_tree(f) == Some(t));
        assert(a is Leaf);
        assert forall|x: HuffmanNode, d: nat| #[trigger] has_node_at(t, x, d) implies (d == 0 && x
            == t) || (d == 1 && (x == a || x == z)) by {
            if d == 1 {
                assert(has_node_at(a, x, 0) || has_node_at(z, x, 0));
            } else if d >= 2 {
                let d1 = (d - 1) as nat;
                assert(has_node_at(a, x, d1) || has_node_at(z, x, d1));
                assert(!has_node_at(a, x, d1));
                assert(!has_node_at(z, x, d1));
            }
        }
        assert(leaf_byte(a) < 256 && a.freq() == f[leaf_byte(a) as int]);
        assert(weights_add_up(a));
        assert(weights_add_up(z));
        assert(z.freq() == 0);
        assert(weights_add_up(t));
        assert(depths_follow_weights(t));
        assert(leaves_weigh_as_in(t, f));
    } else if leaves.len() >= 2 {
        lemma_leaves_depth_order(f);
        lemma_merge_all_depth_order(leaves, f);
        lemma_huffman_tree(f);
    }
}

/// A node of a node of `t` is a node of `t`, the depths adding up.
proof fn lemma_node_of_node(t: HuffmanNode, m: HuffmanNode, d: nat, x: HuffmanNode, e: nat)
    requires
        has_node_at(t, m, d),
        has_node_at(m, x, e),
    ensures
        has_node_at(t, x, d + e),
    decreases t, d,
{
    if d > 0 {
        match t {
            HuffmanNode::Leaf { .. } => {},
            HuffmanNode::Internal { left, right, .. } => {
                let d1 = (d - 1) as nat;
                if has_node_at(*left, m, d1) {
                    lemma_node_of_node(*left, m, d1, x, e);
                } else {
                    lemma_node_of_node(*right, m, d1, x, e);
                }
                assert((d + e - 1) as nat == d1 + e);
            },
        }
    } else {
        assert(d + e == e);
    }
}

/// Every tree of the forest ends up as a subtree of the final tree.
proof fn lemma_subtree_persists(s: Seq<HuffmanNode>, k: int) -> (d: nat)
    requires
        s.len() >= 1,
        0 <= k < s.len(),
    ensures
        merge_all(s).len() >= 1,
        has_node_at(merge_all(s)[0], s[k], d),
    decreases s.len(),
{
    if s.len() == 1 {
        assert(merge_all(s) == s);
        0
    } else {
        lemma_step_positions(s);
        let t = merge_step(s);
        let mm = s.len() - 2;
        assert(merge_all(s) == merge_all(t));
        if k == min_index(s) || k == second_pos(s) {
            let d0 = lemma_subtree_persists(t, mm);
            assert(has_node_at(s[k], s[k], 0));
            assert(has_node_at(t[mm], s[k], 1));
            lemma_node_of_node(merge_all(t)[0], t[mm], d0, s[k], 1);
            d0 + 1
        } else {
            let k2 = moved_pos(s, k);
            assert(t[k2] == s[k]);
            lemma_subtree_persists(t, k2)
        }
    }
}

/// The two bytes that come first in the order (frequency, then byte value)
/// hang side by side in the tree: the first as left and the second as right
/// child of one node. Any other order of merging breaks this.
pub proof fn lemma_two_lightest_are_siblings(f: Seq<u64>, a: u8, b: u8) -> (d: nat)
    requires
        f.len() == 256,
        table_total(f) <= u64::MAX,
        a != b,
        f[a as int] > 0,
        f[b as int] > 0,
        f[a as int] < f[b as int] || (f[a as int] == f[b as int] && a < b),
        forall|c: u8|
            c != a && c != b && #[trigger] f[c as int] > 0 ==> f[b as int] < f[c as int] || (f[b as int]
                == f[c as int] && b < c),
    ensures
        huffman_tree(f) is Some,
        has_node_at(
            huffman_tree(f).unwrap(),
            HuffmanNode::Internal {
                frequency: (f[a as int] + f[b as int]) as u64,
                left: Box::new(HuffmanNode::Leaf { byte: a, frequency: f[a as int] }),
                right: Box::new(HuffmanNode::Leaf { byte: b, frequency: f[b as int] }),
            },
            d,
        ),
{
    let leaves = leaves_upto(f, 256);
    lemma_leaves(f, 256);
    lemma_leaf_entries(f, 256);
    lemma_huffman_tree(f);
    let ka = choose|k: int| 0 <= k < leaves.len() && leaf_byte(#[trigger] leaves[k]) == a;
    let kb = choose|k: int| 0 <= k < leaves.len() && leaf_byte(#[trigger] leaves[k]) == b;
    assert(ka != kb);
    if leaves.len() == 1 {
        assert(false);
    }
    lemma_step_positions(leaves);
    let i = min_index(leaves);
    let jj = second_pos(leaves);
    // byte order is position order
    assert forall|k: int, l: int|
        0 <= k < leaves.len() && 0 <= l < leaves.len() && leaf_byte(#[trigger] leaves[k]) < leaf_byte(
            #[trigger] leaves[l],
        ) implies k < l by {
        if l < k {
            assert(leaf_byte(leaves[l]) < leaf_byte(leaves[k]));
        }
    }
    if i != ka {
        assert(picked_before(leaves, i, ka));
        let c = leaf_byte(leaves[i]);
        assert(f[c as int] > 0);
        if c != b {
            assert(leaf_byte(leaves[i]) != leaf_byte(leaves[ka]));
            if leaf_byte(leaves[ka]) < leaf_byte(leaves[i]) {
                assert(ka < i);
            }
        } else {
            assert(i == kb);
            if leaf_byte(leaves[ka]) < leaf_byte(leaves[i]) {
                assert(ka < i);
            }
        }
    }
    assert(i == ka);
    if jj != kb {
        assert(picked_before(leaves, jj, kb));
        let c = leaf_byte(leaves[jj]);
        assert(jj != ka);
        assert(c != a);
        assert(f[c as int] > 0);
        if c == b {
            assert(jj == kb);
        }
        if leaf_byte(leaves[kb]) < leaf_byte(leaves[jj]) {
            assert(kb < jj);
        }
    }
    assert(jj == kb);
    lemma_merge_step(leaves);
    lemma_taken_within_total(leaves);
    let t = merge_step(leaves);
    let mm = leaves.len() - 2;
    let d = lemma_subtree_persists(t, mm);
    assert(merge_all(leaves) == merge_all(t));
    assert(leaves[ka] == HuffmanNode::Leaf { byte: a, frequency: f[a as int] });
    assert(leaves[kb] == HuffmanNode::Leaf { byte: b, frequency: f[b as int] });
    d
}

} // verus!
