use merkle_tree::tree::MerkleTree;

fn leaves_of(items: &[&str]) -> Vec<Vec<u8>> {
    items.iter().map(|s| s.as_bytes().to_vec()).collect()
}

#[test]
fn tree_creation_power_of_two() {
    let tree = MerkleTree::from_leaves(&leaves_of(&["1", "2", "3", "4"]));
    assert_eq!(
        Some([
            137, 153, 44, 123, 164, 130, 79, 195, 21, 135, 186, 74, 94, 220, 125, 98, 73, 20,
            100, 119, 87, 220, 77, 185, 218, 60, 243, 252, 72, 120, 28, 89
        ]),
        tree.get_root()
    );
}

#[test]
fn tree_creation_not_power_of_two() {
    let tree = MerkleTree::from_leaves(&leaves_of(&["1", "2", "3"]));
    assert_eq!(
        Some([
            98, 188, 83, 184, 206, 109, 0, 66, 150, 238, 25, 116, 106, 0, 246, 132, 255, 226,
            108, 94, 28, 117, 105, 41, 66, 101, 52, 101, 72, 97, 26, 94
        ]),
        tree.get_root()
    );
}

#[test]
fn empty_tree() {
    let leaves: Vec<Vec<u8>> = Vec::new();
    let tree = MerkleTree::from_leaves(&leaves);
    assert_eq!(None, tree.get_root())
}

#[test]
fn tree_add_element() {
    let leaves: Vec<Vec<u8>> = Vec::new();
    let mut tree = MerkleTree::from_leaves(&leaves);
    assert_eq!(None, tree.get_root());
    tree.add_element("1".as_bytes());
    assert_eq!(
        Some([
            103, 177, 118, 112, 91, 70, 32, 102, 20, 33, 159, 71, 160, 90, 238, 122, 230, 163,
            237, 190, 133, 11, 187, 226, 20, 197, 54, 185, 137, 174, 164, 210
        ]),
        tree.get_root()
    );
    tree.add_element("2".as_bytes());
    assert_eq!(
        Some([
            129, 126, 89, 113, 153, 50, 84, 184, 160, 87, 205, 216, 126, 177, 231, 150, 152,
            165, 130, 249, 154, 118, 205, 125, 38, 65, 70, 141, 241, 48, 219, 0
        ]),
        tree.get_root()
    );
    tree.add_element("3".as_bytes());
    assert_eq!(
        Some([
            98, 188, 83, 184, 206, 109, 0, 66, 150, 238, 25, 116, 106, 0, 246, 132, 255, 226,
            108, 94, 28, 117, 105, 41, 66, 101, 52, 101, 72, 97, 26, 94
        ]),
        tree.get_root()
    );
    tree.add_element("4".as_bytes());
    assert_eq!(
        Some([
            137, 153, 44, 123, 164, 130, 79, 195, 21, 135, 186, 74, 94, 220, 125, 98, 73, 20,
            100, 119, 87, 220, 77, 185, 218, 60, 243, 252, 72, 120, 28, 89
        ]),
        tree.get_root()
    );
}

#[test]
fn verify_generated_proof() {
    let tree = MerkleTree::from_leaves(&leaves_of(&["1", "2", "3"]));
    let Some((proof, idx)) = tree.generate_proof("1".as_bytes()) else {
        panic!()
    };
    assert!(tree.verify_proof("1".as_bytes(), &proof, idx))
}

#[test]
fn verify_proof_after_tree_modification() {
    let mut tree = MerkleTree::from_leaves(&leaves_of(&["1", "2", "3"]));
    let Some((proof, idx)) = tree.generate_proof("1".as_bytes()) else {
        panic!()
    };
    assert!(tree.verify_proof("1".as_bytes(), &proof, idx));
    tree.add_element("4".as_bytes());
    assert!(!tree.verify_proof("1".as_bytes(), &proof, idx));
}

#[test]
fn build_is_deterministic() {
    let a = MerkleTree::from_leaves(&leaves_of(&["a", "b", "c", "d", "e"]));
    let b = MerkleTree::from_leaves(&leaves_of(&["a", "b", "c", "d", "e"]));
    assert_eq!(a.get_root(), b.get_root());
    assert!(a.get_root().is_some());
}

#[test]
fn incremental_matches_full_build() {
    let items = ["1", "2", "3", "4", "5", "6"];
    let full = MerkleTree::from_leaves(&leaves_of(&items));
    for k in 0..=items.len() {
        let mut tree = MerkleTree::from_leaves(&leaves_of(&items[..k]));
        for item in &items[k..] {
            tree.add_element(item.as_bytes());
        }
        assert_eq!(full.get_root(), tree.get_root());
    }
}

#[test]
fn empty_then_one_element_root_is_leaf_hash() {
    let leaves: Vec<Vec<u8>> = Vec::new();
    let mut tree = MerkleTree::from_leaves(&leaves);
    assert_eq!(None, tree.get_root());
    tree.add_element("1".as_bytes());
    let expected: [u8; 32] = sha3_digest("1".as_bytes());
    assert_eq!(Some(expected), tree.get_root());
}

fn sha3_digest(data: &[u8]) -> [u8; 32] {
    <sha3::Sha3_256 as sha3::Digest>::digest(data).into()
}

#[test]
fn proof_round_trip_for_every_element() {
    let items = ["1", "2", "3", "4", "5"];
    let tree = MerkleTree::from_leaves(&leaves_of(&items));
    for item in &items {
        let Some((proof, idx)) = tree.generate_proof(item.as_bytes()) else {
            panic!()
        };
        assert!(tree.verify_proof(item.as_bytes(), &proof, idx));
    }
}

#[test]
fn proof_for_absent_element_is_not_found() {
    let tree = MerkleTree::from_leaves(&leaves_of(&["1", "2", "3"]));
    assert!(tree.generate_proof("7".as_bytes()).is_none());
    let empty: Vec<Vec<u8>> = Vec::new();
    let empty_tree = MerkleTree::from_leaves(&empty);
    assert!(empty_tree.generate_proof("1".as_bytes()).is_none());
}

#[test]
fn layer_lengths_follow_ceiling_rule() {
    let mut tree = MerkleTree::from_leaves(&leaves_of(&["1", "2", "3", "4", "5"]));
    tree.add_element("6".as_bytes());
    let n = tree.layer_count();
    assert_eq!(4, n);
    assert_eq!(6, tree.layer_at(n - 1).len());
    for i in 1..n {
        let child_len = tree.layer_at(i).len();
        assert_eq!(child_len.div_ceil(2), tree.layer_at(i - 1).len());
    }
    assert_eq!(1, tree.layer_at(0).len());
}

#[test]
fn leaf_lookup_finds_first_match() {
    let tree = MerkleTree::from_leaves(&leaves_of(&["1", "2", "1"]));
    assert_eq!(Some(1), tree.get_leaf_idx(sha3_digest("2".as_bytes())));
    assert_eq!(Some(0), tree.get_leaf_idx(sha3_digest("1".as_bytes())));
    assert_eq!(None, tree.get_leaf_idx([0u8; 32]));
}

#[test]
fn leaves_hold_element_hashes_in_order() {
    let items = ["x", "y", "z"];
    let tree = MerkleTree::from_leaves(&leaves_of(&items));
    let leaves = tree.get_leaves().unwrap();
    assert_eq!(3, leaves.len());
    for (i, item) in items.iter().enumerate() {
        assert_eq!(sha3_digest(item.as_bytes()), leaves[i]);
    }
}
