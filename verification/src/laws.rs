//! The library's general guarantees, each stated and proved over the model
//! that the executable functions' contracts speak of.

use vstd::prelude::*;
use crate::hashing::sha3_of;
use crate::model::{
    leaf_layer_of, parent_layer, tree_from_leaf_hashes, tree_of, wf, root_of, after_add,
    proof_path, reconstruct, lemma_tree_shape, lemma_reconstruct_level,
};

verus! {

/// Determinism: one leaf sequence determines one tree, so equal leaf
/// sequences always yield the same layers and the same root.
pub proof fn lemma_build_deterministic(l1: Seq<Seq<u8>>, l2: Seq<Seq<u8>>)
    requires
        l1 == l2,
    ensures
        tree_of(l1) == tree_of(l2),
        root_of(tree_of(l1)) == root_of(tree_of(l2)),
{
}

/// The tree left behind by a run of single-element insertions, one element
/// at a time, first element first.
pub open spec fn extend_tree(t: Seq<Seq<Seq<u8>>>, elems: Seq<Seq<u8>>) -> Seq<Seq<Seq<u8>>>
    decreases elems.len(),
{
    if elems.len() == 0 {
        t
    } else {
        extend_tree(after_add(t, elems[0]), elems.drop_first())
    }
}

/// Incremental equivalence: building over any prefix of the elements and
/// then inserting the remaining elements one at a time yields exactly the
/// tree built over all the elements at once.
pub proof fn lemma_incremental_equivalence(l: Seq<Seq<u8>>, k: int)
    requires
        0 <= k <= l.len(),
    ensures
        extend_tree(tree_of(l.take(k)), l.skip(k)) == tree_of(l),
    decreases l.len() - k,
{
    if k == l.len() {
        assert(l.take(k) =~= l);
        assert(l.skip(k).len() == 0);
    } else {
        let t = tree_of(l.take(k));
        lemma_tree_shape(leaf_layer_of(l.take(k)));
        assert(t[t.len() - 1] == leaf_layer_of(l.take(k)));
        assert(leaf_layer_of(l.take(k)).push(sha3_of(l[k]))
            =~= leaf_layer_of(l.take(k + 1)));
        assert(after_add(t, l[k]) == tree_of(l.take(k + 1)));
        lemma_incremental_equivalence(l, k + 1);
        assert(l.skip(k)[0] == l[k]);
        assert(l.skip(k).drop_first() =~= l.skip(k + 1));
        assert(extend_tree(t, l.skip(k))
            == extend_tree(after_add(t, l[k]), l.skip(k + 1)));
    }
}

/// The empty build has no root; one element then inserted stands alone, and
/// its hash is itself the root, with no combining.
pub proof fn lemma_empty_tree(elem: Seq<u8>)
    ensures
        root_of(tree_of(Seq::<Seq<u8>>::empty())) is None,
        after_add(tree_of(Seq::<Seq<u8>>::empty()), elem) == seq![seq![sha3_of(elem)]],
        root_of(after_add(tree_of(Seq::<Seq<u8>>::empty()), elem)) == Some(sha3_of(elem)),
{
    let l0 = leaf_layer_of(Seq::<Seq<u8>>::empty());
    assert(l0 =~= Seq::<Seq<u8>>::empty());
    let t0 = tree_of(Seq::<Seq<u8>>::empty());
    assert(t0 =~= seq![l0]);
    assert(t0[0].len() == 0);
    let nl = t0[t0.len() - 1].push(sha3_of(elem));
    assert(nl =~= seq![sha3_of(elem)]);
    let t1 = tree_from_leaf_hashes(nl);
    assert(t1 =~= seq![nl]);
    assert(t1 =~~= seq![seq![sha3_of(elem)]]);
    assert(t1[0][0] == sha3_of(elem));
}

/// Proof round-trip: for any leaf of a well-formed tree, the sibling path
/// the proof engine derives for it recomputes exactly the tree's root, so
/// verification of a freshly generated proof succeeds.
pub proof fn lemma_proof_round_trip(t: Seq<Seq<Seq<u8>>>, idx: int)
    requires
        wf(t),
        0 <= idx < t[t.len() - 1].len(),
    ensures
        root_of(t) == Some(t[0][0]),
        reconstruct(t[t.len() - 1][idx], proof_path(t, t.len() - 1, idx), idx) == t[0][0],
{
    let leaf = t[t.len() - 1];
    lemma_tree_shape(leaf);
    assert(t[0].len() == 1);
    lemma_reconstruct_level(t, t.len() - 1, idx);
}

/// Layer shape: in a well-formed tree every layer above the leaves is
/// exactly as long as the ceiling of half its child layer, and the root
/// layer has exactly one node as soon as any element exists.
pub proof fn lemma_layer_shape(t: Seq<Seq<Seq<u8>>>)
    requires
        wf(t),
    ensures
        forall|i: int| 1 <= i < t.len() ==> t[i - 1].len() == (#[trigger] t[i].len() + 1) / 2,
        t[t.len() - 1].len() >= 1 ==> t[0].len() == 1,
{
    let leaf = t[t.len() - 1];
    lemma_tree_shape(leaf);
    assert forall|i: int| 1 <= i < t.len()
        implies t[i - 1].len() == (#[trigger] t[i].len() + 1) / 2 by {
        assert(t[i - 1] == parent_layer(t[i]));
    }
}

} // verus!
