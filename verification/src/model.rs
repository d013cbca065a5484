//! The mathematical model of the tree: layers as sequences of digests,
//! ordered root first, and the functions that determine a tree from its
//! leaf layer.

use vstd::prelude::*;
use crate::hashing::{sha3_of, hash_pair};

verus! {

/// The leaf layer for a sequence of data elements: each element hashed
/// independently, in order.
pub open spec fn leaf_layer_of(leaves: Seq<Seq<u8>>) -> Seq<Seq<u8>> {
    Seq::new(leaves.len(), |i: int| sha3_of(leaves[i]))
}

/// The layer directly above `child`: adjacent pairs combined left to right;
/// an unpaired last node is combined with its own duplicate.
pub open spec fn parent_layer(child: Seq<Seq<u8>>) -> Seq<Seq<u8>> {
    Seq::new(
        (child.len() + 1) / 2,
        |i: int| hash_pair(
            child[2 * i],
            if 2 * i + 1 < child.len() { child[2 * i + 1] } else { child[2 * i] },
        ),
    )
}

/// `parent_layer` applied `k` times.
pub open spec fn iter_parent(layer: Seq<Seq<u8>>, k: nat) -> Seq<Seq<u8>>
    decreases k,
{
    if k == 0 {
        layer
    } else {
        parent_layer(iter_parent(layer, (k - 1) as nat))
    }
}

/// All layers strictly above a given layer, root first: parents derived
/// upward until a layer of length one (or an empty layer) stands on top.
pub open spec fn layers_above(layer: Seq<Seq<u8>>) -> Seq<Seq<Seq<u8>>>
    decreases layer.len(),
{
    if layer.len() <= 1 {
        Seq::empty()
    } else {
        layers_above(parent_layer(layer)).push(parent_layer(layer))
    }
}

/// The full tree determined by a leaf layer: root first, the leaf layer last.
pub open spec fn tree_from_leaf_hashes(leaf: Seq<Seq<u8>>) -> Seq<Seq<Seq<u8>>> {
    layers_above(leaf).push(leaf)
}

/// The tree that building from scratch over the given data elements yields.
pub open spec fn tree_of(leaves: Seq<Seq<u8>>) -> Seq<Seq<Seq<u8>>> {
    tree_from_leaf_hashes(leaf_layer_of(leaves))
}

/// A well-formed tree: at least one layer, and fully determined by its leaf
/// layer.
pub open spec fn wf(t: Seq<Seq<Seq<u8>>>) -> bool {
    t.len() >= 1 && t == tree_from_leaf_hashes(t[t.len() - 1])
}

/// The root commitment: the single hash of layer zero, or none when the tree
/// holds no element.
pub open spec fn root_of(t: Seq<Seq<Seq<u8>>>) -> Option<Seq<u8>> {
    if t.len() >= 1 && t[0].len() >= 1 {
        Some(t[0][0])
    } else {
        None
    }
}

/// The tree after one element is appended: determined by the old leaf layer
/// extended with the element's hash.
pub open spec fn after_add(t: Seq<Seq<Seq<u8>>>, elem: Seq<u8>) -> Seq<Seq<Seq<u8>>> {
    tree_from_leaf_hashes(t[t.len() - 1].push(sha3_of(elem)))
}

/// The sibling needed to recompute the parent of the node at `idx`: its pair
/// partner, or the node itself when it stands unpaired at the end.
pub open spec fn sibling_or_self(layer: Seq<Seq<u8>>, idx: int) -> Seq<u8> {
    if idx % 2 == 0 {
        if idx + 1 < layer.len() { layer[idx + 1] } else { layer[idx] }
    } else {
        layer[idx - 1]
    }
}

/// The sibling path for the node at `idx` of layer `level`, collected upward
/// to (but not including) the root layer.
pub open spec fn proof_path(t: Seq<Seq<Seq<u8>>>, level: int, idx: int) -> Seq<Seq<u8>>
    decreases level,
{
    if level <= 0 {
        Seq::empty()
    } else {
        seq![sibling_or_self(t[level], idx)] + proof_path(t, level - 1, idx / 2)
    }
}

/// The root that a leaf hash and a sibling path recompute: at each step the
/// running hash is combined with the next sibling, on the side the running
/// index dictates, and the index is halved.
pub open spec fn reconstruct(h: Seq<u8>, proof: Seq<Seq<u8>>, idx: int) -> Seq<u8>
    decreases proof.len(),
{
    if proof.len() == 0 {
        h
    } else {
        let next = if idx % 2 == 0 {
            hash_pair(h, proof[0])
        } else {
            hash_pair(proof[0], h)
        };
        reconstruct(next, proof.drop_first(), idx / 2)
    }
}

/// Shifting the start of an iterated derivation: deriving `k` parents of the
/// parent is deriving `k + 1` parents of the layer itself.
pub proof fn lemma_iter_parent_shift(layer: Seq<Seq<u8>>, k: nat)
    ensures
        iter_parent(parent_layer(layer), k) == iter_parent(layer, k + 1),
    decreases k,
{
    if k == 0 {
        assert(iter_parent(layer, 1) == parent_layer(iter_parent(layer, 0)));
    } else {
        lemma_iter_parent_shift(layer, (k - 1) as nat);
        assert(iter_parent(layer, k + 1) == parent_layer(iter_parent(layer, k)));
    }
}

/// The shape of the tree a leaf layer determines: the leaf layer stands last;
/// every layer is the parent of the one below it, hence is its iterated
/// parent derivation of the leaves; every layer below the root has at least
/// two nodes; and the root layer has exactly one node as soon as a leaf
/// exists.
pub proof fn lemma_tree_shape(leaf: Seq<Seq<u8>>)
    ensures
        tree_from_leaf_hashes(leaf).len() >= 1,
        tree_from_leaf_hashes(leaf)[tree_from_leaf_hashes(leaf).len() - 1] == leaf,
        forall|i: int| 1 <= i < tree_from_leaf_hashes(leaf).len()
            ==> tree_from_leaf_hashes(leaf)[i - 1]
                == #[trigger] parent_layer(tree_from_leaf_hashes(leaf)[i]),
        forall|d: nat| d < tree_from_leaf_hashes(leaf).len()
            ==> tree_from_leaf_hashes(leaf)[tree_from_leaf_hashes(leaf).len() - 1 - d]
                == #[trigger] iter_parent(leaf, d),
        forall|i: int| 1 <= i < tree_from_leaf_hashes(leaf).len()
            ==> #[trigger] tree_from_leaf_hashes(leaf)[i].len() >= 2,
        leaf.len() >= 1 ==> tree_from_leaf_hashes(leaf)[0].len() == 1,
        leaf.len() <= 1 <==> tree_from_leaf_hashes(leaf).len() == 1,
    decreases leaf.len(),
{
    let t = tree_from_leaf_hashes(leaf);
    if leaf.len() <= 1 {
        assert(t =~= seq![leaf]);
    } else {
        let p = parent_layer(leaf);
        assert(p.len() == (leaf.len() + 1) / 2);
        assert(p.len() < leaf.len());
        assert(p.len() >= 1);
        lemma_tree_shape(p);
        let tp = tree_from_leaf_hashes(p);
        assert(t =~= tp.push(leaf));
        assert forall|i: int| 1 <= i < t.len()
            implies t[i - 1] == #[trigger] parent_layer(t[i]) by {
            if i < tp.len() {
                assert(t[i - 1] == tp[i - 1] && t[i] == tp[i]);
            } else {
                assert(t[i - 1] == p && t[i] == leaf);
            }
        }
        assert forall|d: nat| d < t.len()
            implies t[t.len() - 1 - d] == #[trigger] iter_parent(leaf, d) by {
            if d == 0 {
                assert(iter_parent(leaf, 0) == leaf);
            } else {
                assert(t[t.len() - 1 - d] == tp[tp.len() - 1 - ((d - 1) as nat)]);
                assert(tp[tp.len() - 1 - ((d - 1) as nat)] == iter_parent(p, (d - 1) as nat));
                lemma_iter_parent_shift(leaf, (d - 1) as nat);
            }
        }
    }
}

/// How many layers the tree over a leaf layer has: one more than the number
/// of derivations it takes to first reach a layer of at most one node.
pub proof fn lemma_tree_height(leaf: Seq<Seq<u8>>, k: nat)
    requires
        iter_parent(leaf, k).len() <= 1,
        forall|j: nat| j < k ==> #[trigger] iter_parent(leaf, j).len() >= 2,
    ensures
        tree_from_leaf_hashes(leaf).len() == k + 1,
    decreases k,
{
    if k == 0 {
        assert(leaf.len() <= 1);
    } else {
        assert(iter_parent(leaf, 0).len() >= 2);
        assert(leaf.len() >= 2);
        let p = parent_layer(leaf);
        assert forall|j: nat| j < (k - 1) as nat
            implies #[trigger] iter_parent(p, j).len() >= 2 by {
            lemma_iter_parent_shift(leaf, j);
            assert(iter_parent(leaf, j + 1).len() >= 2);
        }
        lemma_iter_parent_shift(leaf, (k - 1) as nat);
        lemma_tree_height(p, (k - 1) as nat);
        assert(tree_from_leaf_hashes(leaf) =~= tree_from_leaf_hashes(p).push(leaf));
    }
}

/// Appending a node to a layer of even length adds one unpaired node, so the
/// parent layer gains the self-duplicate hash of the new node.
pub proof fn lemma_parent_push_even(c: Seq<Seq<u8>>, x: Seq<u8>)
    requires
        c.len() % 2 == 0,
    ensures
        parent_layer(c.push(x)) == parent_layer(c).push(hash_pair(x, x)),
{
    let lhs = parent_layer(c.push(x));
    let rhs = parent_layer(c).push(hash_pair(x, x));
    assert(lhs.len() == rhs.len());
    assert forall|i: int| 0 <= i < lhs.len() implies lhs[i] == rhs[i] by {
        if i < rhs.len() - 1 {
            assert(2 * i + 1 < c.len());
            assert(c.push(x)[2 * i] == c[2 * i]);
            assert(c.push(x)[2 * i + 1] == c[2 * i + 1]);
        } else {
            assert(2 * i == c.len());
            assert(c.push(x)[2 * i] == x);
        }
    }
    assert(lhs =~= rhs);
}

/// Appending a node to a layer of odd length pairs the previously unpaired
/// last node, so the parent layer keeps its length and its last hash becomes
/// the pair's combined hash.
pub proof fn lemma_parent_push_odd(c: Seq<Seq<u8>>, x: Seq<u8>)
    requires
        c.len() % 2 == 1,
    ensures
        parent_layer(c.push(x)) == parent_layer(c).update(
            parent_layer(c).len() - 1,
            hash_pair(c[c.len() - 1], x),
        ),
{
    let lhs = parent_layer(c.push(x));
    let rhs = parent_layer(c).update(parent_layer(c).len() - 1, hash_pair(c[c.len() - 1], x));
    assert(lhs.len() == rhs.len());
    assert forall|i: int| 0 <= i < lhs.len() implies lhs[i] == rhs[i] by {
        if i < rhs.len() - 1 {
            assert(2 * i + 1 < c.len());
            assert(c.push(x)[2 * i] == c[2 * i]);
            assert(c.push(x)[2 * i + 1] == c[2 * i + 1]);
        } else {
            assert(2 * i == c.len() - 1);
            assert(c.push(x)[2 * i] == c[c.len() - 1]);
            assert(c.push(x)[2 * i + 1] == x);
        }
    }
    assert(lhs =~= rhs);
}

/// Recomputing upward through the sibling path of a node reaches the root:
/// at every level the combined hash of the node and its sibling is exactly
/// the parent node the halved index points at.
pub proof fn lemma_reconstruct_level(t: Seq<Seq<Seq<u8>>>, level: int, idx: int)
    requires
        t.len() >= 1,
        forall|i: int| 1 <= i < t.len() ==> t[i - 1] == #[trigger] parent_layer(t[i]),
        t[0].len() == 1,
        0 <= level < t.len(),
        0 <= idx < t[level].len(),
    ensures
        reconstruct(t[level][idx], proof_path(t, level, idx), idx) == t[0][0],
    decreases level,
{
    if level == 0 {
        assert(proof_path(t, 0, idx) == Seq::<Seq<u8>>::empty());
    } else {
        let lay = t[level];
        let par = t[level - 1];
        assert(par == parent_layer(lay));
        let sib = sibling_or_self(lay, idx);
        let half = idx / 2;
        assert(0 <= half < par.len());
        let step = if idx % 2 == 0 {
            hash_pair(lay[idx], sib)
        } else {
            hash_pair(sib, lay[idx])
        };
        assert(step == par[half]) by {
            if idx % 2 == 0 {
                assert(2 * half == idx);
            } else {
                assert(2 * half == idx - 1);
            }
        }
        let pp = proof_path(t, level, idx);
        assert(pp == seq![sib] + proof_path(t, level - 1, half));
        assert(pp[0] == sib);
        assert(pp.drop_first() =~= proof_path(t, level - 1, half));
        assert(reconstruct(lay[idx], pp, idx)
            == reconstruct(step, proof_path(t, level - 1, half), half));
        lemma_reconstruct_level(t, level - 1, half);
    }
}

/// One step of the incremental updater's upward walk, seen on the model: how
/// the parent of the changed child layer relates to the parent of the old
/// child layer `sc`, by the three ways the child can have changed.
pub proof fn lemma_walk_step(sc: Seq<Seq<u8>>, child: Seq<Seq<u8>>, grew: bool)
    requires
        sc.len() >= 2,
        grew ==> child == sc.push(child.last()),
        !grew ==> child.len() == sc.len() && child == sc.update(sc.len() - 1, child.last()),
    ensures
        child.len() >= 2,
        grew && child.len() % 2 == 1 ==> parent_layer(child) == parent_layer(sc).push(
            hash_pair(child[child.len() - 1], child[child.len() - 1]),
        ),
        !grew && child.len() % 2 == 1 ==> parent_layer(child) == parent_layer(sc).update(
            parent_layer(sc).len() - 1,
            hash_pair(child[child.len() - 1], child[child.len() - 1]),
        ),
        child.len() % 2 == 0 ==> parent_layer(child) == parent_layer(sc).update(
            parent_layer(sc).len() - 1,
            hash_pair(child[child.len() - 2], child[child.len() - 1]),
        ),
{
    let y = child.last();
    if grew {
        if child.len() % 2 == 1 {
            lemma_parent_push_even(sc, y);
        } else {
            lemma_parent_push_odd(sc, y);
            assert(sc[sc.len() - 1] == child[child.len() - 2]);
        }
    } else {
        lemma_parent_update_last(sc, y);
        if child.len() % 2 == 0 {
            assert(sc[sc.len() - 2] == child[child.len() - 2]);
        }
    }
}

/// Overwriting the last node of a layer changes only the last node of its
/// parent layer: recombined with its left partner when the layer's length is
/// even, with its own duplicate when it is odd.
pub proof fn lemma_parent_update_last(c: Seq<Seq<u8>>, x: Seq<u8>)
    requires
        c.len() >= 1,
    ensures
        parent_layer(c.update(c.len() - 1, x)) == parent_layer(c).update(
            parent_layer(c).len() - 1,
            if c.len() % 2 == 0 { hash_pair(c[c.len() - 2], x) } else { hash_pair(x, x) },
        ),
{
    let w = if c.len() % 2 == 0 { hash_pair(c[c.len() - 2], x) } else { hash_pair(x, x) };
    let cu = c.update(c.len() - 1, x);
    let lhs = parent_layer(cu);
    let rhs = parent_layer(c).update(parent_layer(c).len() - 1, w);
    assert(lhs.len() == rhs.len());
    assert forall|i: int| 0 <= i < lhs.len() implies lhs[i] == rhs[i] by {
        if i < rhs.len() - 1 {
            assert(2 * i + 1 < c.len() - 1);
            assert(cu[2 * i] == c[2 * i]);
            assert(cu[2 * i + 1] == c[2 * i + 1]);
        } else {
            if c.len() % 2 == 0 {
                assert(2 * i == c.len() - 2);
                assert(cu[2 * i] == c[c.len() - 2]);
                assert(cu[2 * i + 1] == x);
            } else {
                assert(2 * i == c.len() - 1);
                assert(cu[2 * i] == x);
            }
        }
    }
    assert(lhs =~= rhs);
}

} // verus!
