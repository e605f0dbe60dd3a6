use credible_coin::entry::MerkleTreeEntry;
use credible_coin::merkle::{
    hash_concat, hash_data, is_power_of_two, verify_merkle_proof, Error, HashDirection, MerkleTree,
};
use sha2::Digest;

fn blocks(n: usize) -> Vec<Vec<u8>> {
    let mut out = Vec::new();
    for i in 0..n {
        out.push(format!("leaf-{}", i).into_bytes());
    }
    out
}

fn sha(data: &[u8]) -> Vec<u8> {
    sha2::Sha256::digest(data).to_vec()
}

#[test]
fn hash_data_is_sha256() {
    let h = hash_data(&b"abc".to_vec());
    assert_eq!(h.len(), 32);
    assert_eq!(h[0], 0xba);
    assert_eq!(h[1], 0x78);
    assert_eq!(h[31], 0xad);
}

#[test]
fn hash_concat_hashes_left_then_right() {
    let a = vec![1u8, 2];
    let b = vec![3u8];
    assert_eq!(hash_concat(&a, &b), sha(&[1, 2, 3]));
    assert_ne!(hash_concat(&a, &b), hash_concat(&b, &a));
}

#[test]
fn power_of_two_detection() {
    assert!(!is_power_of_two(0));
    assert!(is_power_of_two(1));
    assert!(is_power_of_two(2));
    assert!(!is_power_of_two(3));
    assert!(is_power_of_two(256));
    assert!(!is_power_of_two(6));
    assert!(is_power_of_two(1usize << 63));
    assert!(!is_power_of_two(usize::MAX));
}

#[test]
fn round_trip_membership_for_all_sizes() {
    for k in 0..=8 {
        let input = blocks(1 << k);
        let tree = MerkleTree::construct(&input).unwrap();
        let root = tree.root_hash();
        for (i, block) in input.iter().enumerate() {
            let proof = tree.get_merkle_proof_by_index(i).unwrap();
            assert!(verify_merkle_proof(&proof, block, &root));
        }
    }
}

#[test]
fn negative_membership_rejects_other_leaf() {
    let input = blocks(8);
    let tree = MerkleTree::construct(&input).unwrap();
    let root = tree.root_hash();
    let proof = tree.get_merkle_proof_by_index(2).unwrap();
    assert!(verify_merkle_proof(&proof, &input[2], &root));
    assert!(!verify_merkle_proof(&proof, &input[3], &root));
    assert!(!verify_merkle_proof(&proof, &b"not a leaf".to_vec(), &root));
}

#[test]
fn tampered_entry_changes_root() {
    let entries = vec![
        MerkleTreeEntry::new("addrA".to_string(), 100),
        MerkleTreeEntry::new("addrB".to_string(), 50),
    ];
    let tampered = vec![
        MerkleTreeEntry::new("addrA".to_string(), 101),
        MerkleTreeEntry::new("addrB".to_string(), 50),
    ];
    let a: Vec<Vec<u8>> = entries.iter().map(|e| e.serialize_entry()).collect();
    let b: Vec<Vec<u8>> = tampered.iter().map(|e| e.serialize_entry()).collect();
    let ta = MerkleTree::construct(&a).unwrap();
    let tb = MerkleTree::construct(&b).unwrap();
    assert_ne!(ta.root_hash(), tb.root_hash());
    assert_ne!(ta.leaves()[0], tb.leaves()[0]);
    assert_eq!(ta.leaves()[1], tb.leaves()[1]);
}

#[test]
fn construction_is_deterministic() {
    let input = blocks(16);
    let a = MerkleTree::construct(&input).unwrap();
    let b = MerkleTree::construct(&input).unwrap();
    assert_eq!(a.nodes, b.nodes);
    assert_eq!(a.levels, b.levels);
    assert_eq!(a.root_hash(), b.root_hash());
}

#[test]
fn invalid_leaf_counts_are_rejected() {
    assert_eq!(MerkleTree::construct(&blocks(3)).unwrap_err(), Error::InvalidLeafCount);
    assert_eq!(MerkleTree::construct(&blocks(0)).unwrap_err(), Error::InvalidLeafCount);
    assert_eq!(MerkleTree::construct(&blocks(6)).unwrap_err(), Error::InvalidLeafCount);
}

#[test]
fn proof_length_is_levels_minus_one() {
    for k in 0..=6 {
        let tree = MerkleTree::construct(&blocks(1 << k)).unwrap();
        assert_eq!(tree.levels, k + 1);
        for i in 0..(1 << k) {
            let proof = tree.get_merkle_proof_by_index(i).unwrap();
            assert_eq!(proof.hashes.len(), tree.levels - 1);
        }
    }
}

#[test]
fn tree_shape_and_accessors() {
    let input = blocks(4);
    let tree = MerkleTree::construct(&input).unwrap();
    assert_eq!(tree.nodes.len(), 7);
    assert_eq!(tree.num_leaves(), 4);
    assert_eq!(tree.leaves().len(), 4);
    assert_eq!(tree.leaves()[2], sha(&input[2]));
    let left = hash_concat(&sha(&input[0]), &sha(&input[1]));
    let right = hash_concat(&sha(&input[2]), &sha(&input[3]));
    assert_eq!(tree.nodes[4], left);
    assert_eq!(tree.nodes[5], right);
    assert_eq!(tree.root_hash(), hash_concat(&left, &right));
    assert!(MerkleTree::verify(&input, &tree.root_hash()));
    assert!(!MerkleTree::verify(&blocks(3), &tree.root_hash()));
    assert!(!MerkleTree::verify(&blocks(4)[..2], &tree.root_hash()));
}

#[test]
fn proof_steps_name_sibling_and_side() {
    let input = blocks(4);
    let tree = MerkleTree::construct(&input).unwrap();
    let proof = tree.get_merkle_proof_by_index(1).unwrap();
    assert_eq!(proof.hashes.len(), 2);
    assert_eq!(proof.hashes[0].0, HashDirection::Left);
    assert_eq!(proof.hashes[0].1, tree.nodes[0]);
    assert_eq!(proof.hashes[1].0, HashDirection::Right);
    assert_eq!(proof.hashes[1].1, tree.nodes[5]);
    assert!(matches!(tree.get_merkle_proof_by_index(4), Err(Error::IndexIsNotALeaf)));
}

#[test]
fn single_leaf_tree() {
    let input = blocks(1);
    let tree = MerkleTree::construct(&input).unwrap();
    assert_eq!(tree.levels, 1);
    assert_eq!(tree.root_hash(), sha(&input[0]));
    let proof = tree.get_merkle_proof_by_index(0).unwrap();
    assert!(proof.hashes.is_empty());
    assert!(verify_merkle_proof(&proof, &input[0], &tree.root_hash()));
}

#[test]
fn proof_by_data_takes_first_occurrence() {
    let input = vec![b"x".to_vec(), b"y".to_vec(), b"x".to_vec(), b"z".to_vec()];
    let tree = MerkleTree::construct(&input).unwrap();
    let by_data = tree.get_merkle_proof_by_data(&b"x".to_vec()).unwrap();
    let by_index = tree.get_merkle_proof_by_index(0).unwrap();
    assert_eq!(by_data.hashes, by_index.hashes);
    assert!(matches!(
        tree.get_merkle_proof_by_data(&b"w".to_vec()),
        Err(Error::CantFindDataInMerkleTree)
    ));
}
