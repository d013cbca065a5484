//! The tree itself: a vector of layers of digests, root first, together with
//! the builder, the incremental updater and the proof engine.

use vstd::prelude::*;
use crate::hashing::{HashValue, hash_pair, sha3_of, sha3_hash, hash_two, hash_eq};
use crate::model::{
    leaf_layer_of, parent_layer, iter_parent, tree_from_leaf_hashes, tree_of, wf, root_of,
    after_add, sibling_or_self, proof_path, reconstruct, lemma_tree_shape, lemma_tree_height,
    lemma_walk_step,
};

verus! {

/// The bytes a digest holds.
pub open spec fn layer_view(l: Seq<HashValue>) -> Seq<Seq<u8>> {
    Seq::new(l.len(), |i: int| l[i]@)
}

/// The bytes every digest of every layer holds, layer by layer.
pub open spec fn layers_view(ls: Seq<Vec<HashValue>>) -> Seq<Seq<Seq<u8>>> {
    Seq::new(ls.len(), |i: int| layer_view(ls[i]@))
}

/// The bytes each data element holds.
pub open spec fn bytes_view(s: Seq<Vec<u8>>) -> Seq<Seq<u8>> {
    Seq::new(s.len(), |i: int| s[i]@)
}

/// A binary Merkle hash tree over SHA3-256 digests, stored as its layers,
/// the root layer first and the leaf layer last.
pub struct MerkleTree {
    layers: Vec<Vec<HashValue>>,
}

impl View for MerkleTree {
    type V = Seq<Seq<Seq<u8>>>;

    closed spec fn view(&self) -> Seq<Seq<Seq<u8>>> {
        layers_view(self.layers@)
    }
}

impl MerkleTree {
    #[verifier::type_invariant]
    spec fn inv(self) -> bool {
        self.layers@.len() == 0 || wf(self@)
    }

    /// Builds the tree for the given data elements: each element is hashed
    /// into the leaf layer, and parent layers are derived upward until a
    /// single root hash stands on top. An empty element sequence yields a
    /// tree of one empty layer and no root.
    #[verifier::rlimit(100)]
    pub fn from_leaves(leaves: &[Vec<u8>]) -> (r: Self)
        ensures
            r@ == tree_of(bytes_view(leaves@)),
    {
        let ghost ll = leaf_layer_of(bytes_view(leaves@));
        let ghost expected = tree_from_leaf_hashes(ll);

        let first = build_first_layer(leaves);
        proof {
            lemma_tree_shape(ll);
        }
        let mut layers: Vec<Vec<HashValue>> = Vec::new();
        layers.push(first);
        let ghost k: int = expected.len() - 1;
        assert(layers_view(layers@) =~= expected.subrange(k, expected.len() as int));

        while layers[0].len() > 1
            invariant
                0 <= k < expected.len(),
                expected == tree_from_leaf_hashes(ll),
                layers@.len() == expected.len() - k,
                layers_view(layers@) == expected.subrange(k, expected.len() as int),
            decreases k,
        {
            proof {
                lemma_tree_shape(ll);
                assert(layers_view(layers@)[0] == expected.subrange(k, expected.len() as int)[0]);
                assert(layer_view(layers@[0]@) == expected[k]);
                assert(layers@[0]@.len() == expected[k].len());
                // only the top layer of the finished tree has fewer than two
                // nodes, so a longer layer cannot stand at index zero
                assert(k >= 1) by {
                    if k == 0 {
                        if ll.len() <= 1 {
                            assert(expected.len() == 1);
                            assert(expected[0] == ll);
                        }
                        assert(expected[0].len() <= 1);
                    }
                }
                assert(expected[k - 1] == parent_layer(expected[k]));
            }
            let next = build_next_layer(&layers[0]);
            let ghost pre = layers@;
            layers.insert(0, next);
            proof {
                k = k - 1;
                let sub = expected.subrange(k, expected.len() as int);
                assert forall|i2: int| 0 <= i2 < layers@.len()
                    implies layers_view(layers@)[i2] == sub[i2] by {
                    if i2 == 0 {
                        assert(layers@[0] == next);
                        assert(layer_view(next@) == expected[k]);
                    } else {
                        assert(layers@[i2] == pre[i2 - 1]);
                        assert(layers_view(pre)[i2 - 1]
                            == expected.subrange(k + 1, expected.len() as int)[i2 - 1]);
                    }
                }
                assert(layers_view(layers@) =~= sub);
            }
        }
        proof {
            lemma_tree_shape(ll);
            // the loop stopped on a layer of at most one node: that is the root
            assert(layers_view(layers@)[0] == expected.subrange(k, expected.len() as int)[0]);
            assert(layer_view(layers@[0]@) == expected[k]);
            assert(layers@[0]@.len() == expected[k].len());
            assert(k == 0) by {
                if k >= 1 {
                    assert(expected[k].len() >= 2);
                }
            }
            assert(layers_view(layers@) =~= expected);
        }
        MerkleTree { layers }
    }

    /// Appends one element to the tree in place: its hash joins the leaf
    /// layer, and only the path from the new leaf up to the root is
    /// recomputed. The result is exactly the tree a full rebuild over the
    /// extended leaf layer would yield. A tree that holds no layer at all
    /// has nowhere to put a leaf and stays unchanged.
    #[verifier::rlimit(50)]
    pub fn add_element(&mut self, elem: &[u8])
        ensures
            old(self)@.len() == 0 ==> final(self)@ == old(self)@,
            old(self)@.len() >= 1 ==> final(self)@ == after_add(old(self)@, elem@),
    {
        proof {
            use_type_invariant(&*self);
        }
        let h = sha3_hash(elem);
        let mut layers: Vec<Vec<HashValue>> = Vec::new();
        core::mem::swap(&mut self.layers, &mut layers);
        let ghost s_old: Seq<Seq<Seq<u8>>> = layers_view(layers@);
        let n = layers.len();
        if n == 0 {
            core::mem::swap(&mut self.layers, &mut layers);
            return;
        }
        let ghost old_leaf = s_old[n - 1];
        let ghost nl = old_leaf.push(sha3_of(elem@));
        proof {
            assert(wf(s_old));
            lemma_tree_shape(old_leaf);
        }

        // append the new hash to the leaf layer
        let ghost pre_pop = layers@;
        let mut leaf = layers.pop().unwrap();
        leaf.push(h);
        let leaf_len = leaf.len();
        layers.push(leaf);
        proof {
            assert(layers@ == pre_pop.subrange(0, n - 1).push(leaf));
            lemma_set_last_layer(pre_pop, layers@, leaf);
            assert(layer_view(leaf@) =~= nl);
            assert(layers_view(layers@)[n - 1] == nl);
        }

        if n == 1 {
            // the leaf layer was the whole tree: at most one leaf before
            assert(old_leaf.len() <= 1);
            if leaf_len == 1 {
                // the new hash is the whole tree and the root
                proof {
                    assert(layers_view(layers@) =~= tree_from_leaf_hashes(nl));
                    lemma_tree_shape(nl);
                }
                core::mem::swap(&mut self.layers, &mut layers);
                return;
            }
            // exactly two leaves now: synthesize the root layer above them
            let a = layers[0][0];
            let b = layers[0][1];
            let r = hash_two(&a, &b);
            let mut root_layer: Vec<HashValue> = Vec::new();
            root_layer.push(r);
            let ghost pre = layers@;
            layers.insert(0, root_layer);
            proof {
                let p = parent_layer(nl);
                assert(a@ == nl[0] && b@ == nl[1]);
                assert(p.len() == 1 && p[0] == hash_pair(nl[0], nl[1]));
                assert(layer_view(layers@[0]@) =~= p);
                assert(layers@[1] == pre[0]);
                lemma_tree_shape(nl);
                assert(iter_parent(nl, 0) == nl);
                assert(iter_parent(nl, 1) == parent_layer(iter_parent(nl, 0)));
                lemma_tree_height(nl, 1);
                assert(tree_from_leaf_hashes(nl).len() == 2);
                assert(layers_view(layers@) =~= tree_from_leaf_hashes(nl));
            }
            core::mem::swap(&mut self.layers, &mut layers);
            return;
        }

        // at least one layer stands above the leaves: walk the path upward
        proof {
            assert(old_leaf.len() >= 2);
            assert(nl.last() == sha3_of(elem@));
        }
        update_path(&mut layers, Ghost(s_old), Ghost(nl));
        proof {
            lemma_tree_shape(nl);
            assert(layers_view(layers@) == after_add(s_old, elem@));
        }
        core::mem::swap(&mut self.layers, &mut layers);
    }

    /// The single hash of the root layer, or none when the tree holds no
    /// element.
    pub fn get_root(&self) -> (r: Option<HashValue>)
        ensures
            match r {
                Some(h) => root_of(self@) == Some(h@),
                None => root_of(self@) is None,
            },
    {
        if self.layers.len() >= 1 && self.layers[0].len() >= 1 {
            Some(self.layers[0][0])
        } else {
            None
        }
    }

    /// The leaf layer, or none when the tree holds no layer at all.
    pub fn get_leaves(&self) -> (r: Option<&Vec<HashValue>>)
        ensures
            match r {
                Some(l) => self@.len() >= 1 && layer_view(l@) == self@[self@.len() - 1],
                None => self@.len() == 0,
            },
    {
        if self.layers.len() >= 1 {
            Some(&self.layers[self.layers.len() - 1])
        } else {
            None
        }
    }

    /// How many layers the tree holds.
    pub fn layer_count(&self) -> (r: usize)
        ensures
            r == self@.len(),
    {
        self.layers.len()
    }

    /// Read access to one layer, from the root (index zero) down to the
    /// leaves.
    pub fn layer_at(&self, idx: usize) -> (r: &Vec<HashValue>)
        requires
            idx < self@.len(),
        ensures
            layer_view(r@) == self@[idx as int],
    {
        &self.layers[idx]
    }

    /// Derives an inclusion proof for the given element: the sibling hashes
    /// along the path from the element's leaf (the first leaf whose hash
    /// matches) up to, but not including, the root layer, together with the
    /// leaf's index. Returns none exactly when no leaf holds the element's
    /// hash.
    #[verifier::rlimit(50)]
    pub fn generate_proof(&self, elem: &[u8]) -> (r: Option<(Vec<HashValue>, usize)>)
        ensures
            match r {
                Some(p) => {
                    &&& self@.len() >= 1
                    &&& (p.1 as int) < self@[self@.len() - 1].len()
                    &&& self@[self@.len() - 1][p.1 as int] == sha3_of(elem@)
                    &&& forall|j: int| 0 <= j < p.1
                        ==> #[trigger] self@[self@.len() - 1][j] != sha3_of(elem@)
                    &&& layer_view(p.0@) == proof_path(self@, self@.len() - 1, p.1 as int)
                },
                None => self@.len() == 0 || forall|j: int|
                    0 <= j < self@[self@.len() - 1].len()
                        ==> #[trigger] self@[self@.len() - 1][j] != sha3_of(elem@),
            },
    {
        let target = sha3_hash(elem);
        let leaf_idx = match self.get_leaf_idx(target) {
            Some(i) => i,
            None => {
                return None;
            },
        };
        proof {
            use_type_invariant(&*self);
            lemma_tree_shape(self@[self@.len() - 1]);
        }
        let n = self.layers.len();
        let mut proof_hashes: Vec<HashValue> = Vec::new();
        let mut idx = leaf_idx;
        let mut level = n - 1;
        while level >= 1
            invariant
                level <= n - 1,
                n == self@.len(),
                n >= 1,
                wf(self@),
                idx < self@[level as int].len(),
                layer_view(proof_hashes@) + proof_path(self@, level as int, idx as int)
                    == proof_path(self@, n - 1, leaf_idx as int),
            decreases level,
        {
            proof {
                lemma_tree_shape(self@[self@.len() - 1]);
                assert(self@[level - 1] == parent_layer(self@[level as int]));
            }
            let layer = &self.layers[level];
            proof {
                assert(layer_view(layer@) == self@[level as int]);
            }
            let sib: HashValue = if idx % 2 == 0 {
                if idx + 1 < layer.len() {
                    layer[idx + 1]
                } else {
                    layer[idx]
                }
            } else {
                layer[idx - 1]
            };
            proof {
                assert(sib@ == sibling_or_self(self@[level as int], idx as int));
                let rest = proof_path(self@, level - 1, idx as int / 2);
                assert(proof_path(self@, level as int, idx as int) == seq![sib@] + rest);
                assert(layer_view(proof_hashes@.push(sib))
                    =~= layer_view(proof_hashes@).push(sib@));
                assert(layer_view(proof_hashes@).push(sib@) + rest
                    =~= layer_view(proof_hashes@) + (seq![sib@] + rest));
                assert(idx as int / 2 < parent_layer(self@[level as int]).len());
            }
            proof_hashes.push(sib);
            idx = idx / 2;
            level = level - 1;
        }
        proof {
            assert(proof_path(self@, 0, idx as int) == Seq::<Seq<u8>>::empty());
            assert(layer_view(proof_hashes@) + Seq::<Seq<u8>>::empty()
                =~= layer_view(proof_hashes@));
        }
        Some((proof_hashes, leaf_idx))
    }

    /// Recomputes a root hash from the element's hash and the proof's
    /// sibling sequence, and compares it with the tree's current root: true
    /// exactly when the tree has a root and the recomputed hash equals it.
    pub fn verify_proof(&self, elem: &[u8], proof: &Vec<HashValue>, idx: usize) -> (r: bool)
        ensures
            r == match root_of(self@) {
                Some(root) => reconstruct(sha3_of(elem@), layer_view(proof@), idx as int)
                    == root,
                None => false,
            },
    {
        let mut hash = sha3_hash(elem);
        let mut i: usize = 0;
        let mut cur = idx;
        proof {
            assert(layer_view(proof@).skip(0) =~= layer_view(proof@));
        }
        while i < proof.len()
            invariant
                i <= proof.len(),
                reconstruct(sha3_of(elem@), layer_view(proof@), idx as int)
                    == reconstruct(hash@, layer_view(proof@).skip(i as int), cur as int),
            decreases proof.len() - i,
        {
            let part = proof[i];
            proof {
                let rem = layer_view(proof@).skip(i as int);
                assert(rem.len() == proof@.len() - i);
                assert(rem[0] == proof@[i as int]@);
                assert(rem.drop_first() =~= layer_view(proof@).skip(i + 1));
            }
            let next = if cur % 2 == 0 {
                hash_two(&hash, &part)
            } else {
                hash_two(&part, &hash)
            };
            hash = next;
            cur = cur / 2;
            i = i + 1;
        }
        proof {
            assert(layer_view(proof@).skip(proof@.len() as int) =~= Seq::<Seq<u8>>::empty());
        }
        match self.get_root() {
            None => false,
            Some(root) => hash_eq(&hash, &root),
        }
    }

    /// The index of the first leaf equal to `target`, or none when no leaf
    /// matches (or no leaf layer exists).
    pub fn get_leaf_idx(&self, target: HashValue) -> (r: Option<usize>)
        ensures
            match r {
                Some(i) => {
                    &&& self@.len() >= 1
                    &&& i < self@[self@.len() - 1].len()
                    &&& self@[self@.len() - 1][i as int] == target@
                    &&& forall|j: int| 0 <= j < i ==> #[trigger] self@[self@.len() - 1][j] != target@
                },
                None => self@.len() == 0 || forall|j: int|
                    0 <= j < self@[self@.len() - 1].len()
                        ==> #[trigger] self@[self@.len() - 1][j] != target@,
            },
    {
        if self.layers.len() == 0 {
            return None;
        }
        let leaves = &self.layers[self.layers.len() - 1];
        let mut i: usize = 0;
        while i < leaves.len()
            invariant
                i <= leaves.len(),
                layer_view(leaves@) == self@[self@.len() - 1],
                self@.len() >= 1,
                forall|j: int| 0 <= j < i ==> #[trigger] self@[self@.len() - 1][j] != target@,
            decreases leaves.len() - i,
        {
            if hash_eq(&leaves[i], &target) {
                return Some(i);
            }
            i = i + 1;
        }
        None
    }
}

/// Hashes each data element independently, in order: the leaf layer.
fn build_first_layer(leaves: &[Vec<u8>]) -> (r: Vec<HashValue>)
    ensures
        layer_view(r@) == leaf_layer_of(bytes_view(leaves@)),
{
    let mut first: Vec<HashValue> = Vec::new();
    let mut i: usize = 0;
    while i < leaves.len()
        invariant
            i <= leaves.len(),
            first@.len() == i,
            forall|j: int| 0 <= j < i ==> first@[j]@ == sha3_of(leaves@[j]@),
        decreases leaves.len() - i,
    {
        first.push(sha3_hash(leaves[i].as_slice()));
        i = i + 1;
    }
    assert(layer_view(first@) =~= leaf_layer_of(bytes_view(leaves@)));
    first
}

/// Derives the layer above `child`: adjacent pairs hashed left to right, an
/// unpaired last node hashed with its own duplicate.
fn build_next_layer(child: &Vec<HashValue>) -> (r: Vec<HashValue>)
    ensures
        layer_view(r@) == parent_layer(layer_view(child@)),
{
    let len = child.len();
    let target = len / 2 + len % 2;
    let mut out: Vec<HashValue> = Vec::new();
    let mut i: usize = 0;
    while i < target
        invariant
            i <= target,
            target == len / 2 + len % 2,
            len == child@.len(),
            out@.len() == i,
            forall|j: int| 0 <= j < i ==> out@[j]@ == parent_layer(layer_view(child@))[j],
        decreases target - i,
    {
        let left = child[2 * i];
        let right = if 2 * i + 1 < len {
            child[2 * i + 1]
        } else {
            left
        };
        out.push(hash_two(&left, &right));
        i = i + 1;
    }
    assert(layer_view(out@) =~= parent_layer(layer_view(child@)));
    out
}

/// The incremental updater's upward walk over a layer vector whose leaf
/// layer (last) already holds the new leaf layer `nl` while every layer
/// above still holds its old value from the well-formed tree `s_old`. It
/// rewrites the path so the vector holds exactly the tree `nl` determines.
fn update_path(
    layers: &mut Vec<Vec<HashValue>>,
    Ghost(s_old): Ghost<Seq<Seq<Seq<u8>>>>,
    Ghost(nl): Ghost<Seq<Seq<u8>>>,
)
    requires
        wf(s_old),
        s_old.len() >= 2,
        old(layers)@.len() == s_old.len(),
        s_old[s_old.len() - 1].len() >= 2,
        nl == s_old[s_old.len() - 1].push(nl.last()),
        forall|i: int| 0 <= i < s_old.len() - 1 ==> layers_view(old(layers)@)[i] == s_old[i],
        layers_view(old(layers)@)[s_old.len() - 1] == nl,
    ensures
        layers_view(final(layers)@) == tree_from_leaf_hashes(nl),
{
    let n = layers.len();
    let ghost old_leaf = s_old[n - 1];
    let mut lvl: usize = n - 1;
    let mut grew: bool = true;
    proof {
        assert(iter_parent(nl, 0) == nl);
    }
    while lvl > 0
        invariant
            layers@.len() == n,
            lvl <= n - 1,
            n == s_old.len(),
            2 <= n,
            wf(s_old),
            old_leaf == s_old[n - 1],
            old_leaf.len() >= 2,
            nl == old_leaf.push(nl.last()),
            forall|i: int| 0 <= i < lvl ==> layers_view(layers@)[i] == s_old[i],
            forall|i: int| lvl <= i < n
                ==> layers_view(layers@)[i] == iter_parent(nl, (n - 1 - i) as nat),
            forall|i: int| lvl <= i < n
                ==> #[trigger] layers_view(layers@)[i].len() >= s_old[i].len(),
            grew ==> layers_view(layers@)[lvl as int] == s_old[lvl as int].push(
                layers_view(layers@)[lvl as int].last(),
            ),
            !grew ==> layers_view(layers@)[lvl as int].len() == s_old[lvl as int].len()
                && layers_view(layers@)[lvl as int] == s_old[lvl as int].update(
                s_old[lvl as int].len() - 1,
                layers_view(layers@)[lvl as int].last(),
            ),
        decreases lvl,
    {
        let curr = lvl - 1;
        let ghost sc = s_old[lvl as int];
        let ghost sp = s_old[curr as int];
        let ghost child = layers_view(layers@)[lvl as int];
        proof {
            lemma_tree_shape(old_leaf);
            assert(sp == parent_layer(sc));
            assert(sc.len() >= 2);
            assert(sp.len() >= 1);
            lemma_walk_step(sc, child, grew);
        }
        let child_len = layers[lvl].len();
        proof {
            assert(layer_view(layers@[lvl as int]@) == child);
            assert(child_len == child.len());
        }
        // the hash for the affected node of the current layer: the last
        // child pair recombined, or the unpaired last child duplicated
        let v: HashValue = if child_len % 2 == 1 {
            let a = layers[lvl][child_len - 1];
            proof {
                assert(a@ == child[child_len - 1]);
            }
            hash_two(&a, &a)
        } else {
            let a = layers[lvl][child_len - 2];
            let b = layers[lvl][child_len - 1];
            proof {
                assert(a@ == child[child_len - 2]);
                assert(b@ == child[child_len - 1]);
            }
            hash_two(&a, &b)
        };
        let push_new = grew && child_len % 2 == 1;
        let ghost pre = layers@;
        let mut cl = layers.remove(curr);
        proof {
            assert(layer_view(cl@) == sp);
        }
        let ghost cl_pre = cl@;
        if push_new {
            cl.push(v);
            proof {
                lemma_layer_push(cl_pre, v);
                assert(layer_view(cl@) == sp.push(v@));
                assert(layer_view(cl@) == parent_layer(child));
            }
        } else {
            let _ = cl.pop();
            cl.push(v);
            proof {
                lemma_layer_set_last(cl_pre, cl@, v);
                assert(layer_view(cl@) == sp.update(sp.len() - 1, v@));
                assert(layer_view(cl@) == parent_layer(child));
            }
        }
        layers.insert(curr, cl);
        proof {
            lemma_replace_layer(pre, layers@, curr as int, cl);
            assert(child == iter_parent(nl, (n - 1 - lvl) as nat));
            assert(iter_parent(nl, (n - 1 - curr) as nat)
                == parent_layer(iter_parent(nl, (n - 2 - curr) as nat)));
            assert(layers_view(layers@)[curr as int] == parent_layer(child));
            assert(layers_view(layers@)[curr as int].last() == v@);
        }
        grew = push_new;
        lvl = curr;
    }

    // the walk reached the old root layer: when it gained a second node, a
    // brand-new root layer is synthesized above it
    proof {
        lemma_tree_shape(old_leaf);
        assert(s_old[0].len() == 1);
        assert forall|j: nat| j < (n - 1) as nat
            implies #[trigger] iter_parent(nl, j).len() >= 2 by {
            let i = n - 1 - j;
            assert(1 <= i < n);
            assert(layers_view(layers@)[i as int] == iter_parent(nl, (n - 1 - i) as nat));
            assert(layers_view(layers@)[i as int].len() >= s_old[i as int].len());
            assert(s_old[i as int].len() >= 2);
        }
    }
    let ghost top = layers_view(layers@)[0];
    let root_len = layers[0].len();
    proof {
        assert(layer_view(layers@[0]@) == top);
        assert(root_len == top.len());
        assert(top == iter_parent(nl, (n - 1) as nat));
        assert(top.len() == 1 || top.len() == 2);
    }
    if root_len != 1 {
        let a = layers[0][0];
        let b = layers[0][1];
        let r = hash_two(&a, &b);
        let mut root_layer: Vec<HashValue> = Vec::new();
        root_layer.push(r);
        let ghost pre = layers@;
        layers.insert(0, root_layer);
        proof {
            let p = parent_layer(top);
            assert(iter_parent(nl, n as nat) == p);
            assert(p.len() == 1);
            lemma_tree_height(nl, n as nat);
            lemma_tree_shape(nl);
            let t = tree_from_leaf_hashes(nl);
            assert(t.len() == n + 1);
            assert(a@ == top[0] && b@ == top[1]);
            assert(p[0] == hash_pair(top[0], top[1]));
            assert(layer_view(layers@[0]@) =~= p);
            assert forall|i2: int| 0 <= i2 < t.len()
                implies layers_view(layers@)[i2] == t[i2] by {
                if i2 == 0 {
                    assert(t[0] == iter_parent(nl, n as nat));
                } else {
                    assert(layers@[i2] == pre[i2 - 1]);
                    assert(layers_view(pre)[i2 - 1] == iter_parent(nl, (n - i2) as nat));
                    assert(t[t.len() - 1 - ((n - i2) as nat)]
                        == iter_parent(nl, (n - i2) as nat));
                }
            }
            assert(layers_view(layers@) =~= t);
        }
    } else {
        proof {
            lemma_tree_height(nl, (n - 1) as nat);
            lemma_tree_shape(nl);
            let t = tree_from_leaf_hashes(nl);
            assert(t.len() == n);
            assert forall|i2: int| 0 <= i2 < t.len()
                implies layers_view(layers@)[i2] == t[i2] by {
                assert(layers_view(layers@)[i2] == iter_parent(nl, (n - 1 - i2) as nat));
                assert(t[t.len() - 1 - ((n - 1 - i2) as nat)]
                    == iter_parent(nl, (n - 1 - i2) as nat));
            }
            assert(layers_view(layers@) =~= t);
        }
    }
}

/// Replacing the last entry of a layer vector changes exactly the last layer
/// of the view.
proof fn lemma_set_last_layer(pre: Seq<Vec<HashValue>>, post: Seq<Vec<HashValue>>, cl: Vec<HashValue>)
    requires
        pre.len() >= 1,
        post == pre.subrange(0, pre.len() - 1).push(cl),
    ensures
        post.len() == pre.len(),
        forall|j: int| 0 <= j < pre.len() - 1
            ==> #[trigger] layers_view(post)[j] == layers_view(pre)[j],
        layers_view(post)[pre.len() - 1] == layer_view(cl@),
{
    assert forall|j: int| 0 <= j < pre.len() - 1
        implies #[trigger] layers_view(post)[j] == layers_view(pre)[j] by {
        assert(post[j] == pre[j]);
    }
    assert(post[pre.len() - 1] == cl);
}

/// Removing a layer and inserting another at the same index changes exactly
/// that layer of the view.
proof fn lemma_replace_layer(pre: Seq<Vec<HashValue>>, post: Seq<Vec<HashValue>>, i: int, cl: Vec<HashValue>)
    requires
        0 <= i < pre.len(),
        post == pre.remove(i).insert(i, cl),
    ensures
        post.len() == pre.len(),
        forall|j: int| 0 <= j < pre.len() && j != i
            ==> #[trigger] layers_view(post)[j] == layers_view(pre)[j],
        layers_view(post)[i] == layer_view(cl@),
{
    let rem = pre.remove(i);
    assert forall|j: int| 0 <= j < pre.len() && j != i
        implies #[trigger] layers_view(post)[j] == layers_view(pre)[j] by {
        if j < i {
            assert(post[j] == rem[j]);
            assert(rem[j] == pre[j]);
        } else {
            assert(post[j] == rem[j - 1]);
            assert(rem[j - 1] == pre[j]);
        }
    }
    assert(post[i] == cl);
}

/// Appending a digest appends its bytes to the layer's view.
proof fn lemma_layer_push(pre: Seq<HashValue>, v: HashValue)
    ensures
        layer_view(pre.push(v)) == layer_view(pre).push(v@),
{
    assert(layer_view(pre.push(v)) =~= layer_view(pre).push(v@));
}

/// Dropping the last digest and appending another overwrites the last entry
/// of the layer's view.
proof fn lemma_layer_set_last(pre: Seq<HashValue>, post: Seq<HashValue>, v: HashValue)
    requires
        pre.len() >= 1,
        post == pre.subrange(0, pre.len() - 1).push(v),
    ensures
        layer_view(post) == layer_view(pre).update(pre.len() - 1, v@),
{
    assert(layer_view(post) =~= layer_view(pre).update(pre.len() - 1, v@));
}

} // verus!
