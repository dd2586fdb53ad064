use zkvm_rs::merkle::{hash_bytes, MerkleTree};

#[test]
fn test_merkle_prove_verify() {
    let leaves: Vec<Vec<u8>> = (0..8u64).map(|i| i.to_le_bytes().to_vec()).collect();
    let tree = MerkleTree::new(&leaves);
    for i in 0..8 {
        let proof = tree.prove(i);
        assert!(MerkleTree::verify(&tree.root(), i, &leaves[i], &proof, 8), "proof failed for leaf {}", i,);
    }
}

#[test]
fn test_merkle_tampered_data_fails() {
    let leaves: Vec<Vec<u8>> = (0..4u64).map(|i| i.to_le_bytes().to_vec()).collect();
    let tree = MerkleTree::new(&leaves);
    let proof = tree.prove(0);
    let bad_data = 99u64.to_le_bytes().to_vec();
    assert!(!MerkleTree::verify(&tree.root(), 0, &bad_data, &proof, 4));
}

#[test]
fn merkle_hash_bytes_is_sha256() {
    let h = hash_bytes(b"abc");
    let expected: [u8; 32] = [
        0xba, 0x78, 0x16, 0xbf, 0x8f, 0x01, 0xcf, 0xea, 0x41, 0x41, 0x40, 0xde, 0x5d, 0xae, 0x22, 0x23, 0xb0, 0x03, 0x61,
        0xa3, 0x96, 0x17, 0x7a, 0x9c, 0xb4, 0x10, 0xff, 0x61, 0xf2, 0x00, 0x15, 0xad,
    ];
    assert_eq!(h, expected);
}

#[test]
fn merkle_single_leaf_root_is_leaf_hash() {
    let leaves = vec![b"only".to_vec()];
    let tree = MerkleTree::new(&leaves);
    assert_eq!(tree.root(), hash_bytes(b"only"));
    let proof = tree.prove(0);
    assert!(proof.siblings.is_empty());
    assert!(MerkleTree::verify(&tree.root(), 0, b"only", &proof, 1));
}

#[test]
fn merkle_proof_at_wrong_index_fails() {
    let leaves: Vec<Vec<u8>> = (0..4u64).map(|i| i.to_le_bytes().to_vec()).collect();
    let tree = MerkleTree::new(&leaves);
    let proof = tree.prove(1);
    assert_eq!(proof.siblings.len(), 2);
    assert!(!MerkleTree::verify(&tree.root(), 2, &leaves[1], &proof, 4));
}

#[test]
fn merkle_path_length_is_log2_of_leaves() {
    for (n, depth) in [(1usize, 0usize), (2, 1), (8, 3), (32, 5)] {
        let leaves: Vec<Vec<u8>> = (0..n as u64).map(|i| i.to_le_bytes().to_vec()).collect();
        let tree = MerkleTree::new(&leaves);
        for i in 0..n {
            assert_eq!(tree.prove(i).siblings.len(), depth);
        }
    }
}
