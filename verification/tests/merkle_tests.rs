use merkle_chain::merkle::{HashTreeError, MerkleTree};
use sha2::{Digest, Sha256};

fn batch(items: &[&str]) -> Vec<Vec<u8>> {
    items.iter().map(|s| s.as_bytes().to_vec()).collect()
}

fn sha(data: &[u8]) -> Vec<u8> {
    let mut hasher = Sha256::new();
    hasher.update(data);
    hasher.finalize().to_vec()
}

fn sha_pair(left: &[u8], right: &[u8]) -> Vec<u8> {
    let mut combined = left.to_vec();
    combined.extend_from_slice(right);
    sha(&combined)
}

#[test]
fn test_merkle_tree() {
    let data = batch(&["a", "b", "c", "d"]);
    let tree = MerkleTree::new(&data).unwrap();

    // Verify that the tree has the correct structure
    assert_eq!(tree.level_count(), 3); // 3 levels: leaves, internal, root
    assert_eq!(tree.level_len(0), 4); // 4 leaves
    assert_eq!(tree.level_len(1), 2); // 2 internal nodes
    assert_eq!(tree.level_len(2), 1); // 1 root
}

#[test]
fn test_merkle_proof() {
    let data = batch(&["a", "b", "c", "d"]);
    let tree = MerkleTree::new(&data).unwrap();

    // Generate and verify a proof for each item
    for (i, item) in data.iter().enumerate() {
        let proof = tree.generate_proof(i).unwrap();
        assert!(proof.verify(item));

        // Verify that the proof fails for different data
        if i > 0 {
            assert!(!proof.verify(&data[i - 1]));
        }
    }
}

#[test]
fn single_record_root_is_its_digest() {
    // SHA-256("abc"), the standard test vector: a one-leaf tree's root is
    // the record's own digest, so this pins the hash function itself.
    let expected: Vec<u8> = vec![
        0xba, 0x78, 0x16, 0xbf, 0x8f, 0x01, 0xcf, 0xea, 0x41, 0x41, 0x40, 0xde, 0x5d, 0xae, 0x22,
        0x23, 0xb0, 0x03, 0x61, 0xa3, 0x96, 0x17, 0x7a, 0x9c, 0xb4, 0x10, 0xff, 0x61, 0xf2, 0x00,
        0x15, 0xad,
    ];
    let data = batch(&["abc"]);
    let tree = MerkleTree::new(&data).unwrap();
    assert_eq!(tree.root_hash().clone(), expected);
    assert_eq!(tree.level_count(), 1);
}

#[test]
fn two_record_root_matches_manual_pairing() {
    let data = batch(&["a", "b"]);
    let tree = MerkleTree::new(&data).unwrap();
    let expected = sha_pair(&sha(b"a"), &sha(b"b"));
    assert_eq!(tree.root_hash().clone(), expected);
}

#[test]
fn root_is_deterministic() {
    let first = MerkleTree::new(&batch(&["x", "y", "z"])).unwrap();
    let second = MerkleTree::new(&batch(&["x", "y", "z"])).unwrap();
    assert_eq!(first.root_hash(), second.root_hash());
}

#[test]
fn reordering_changes_root() {
    let first = MerkleTree::new(&batch(&["x", "y", "z"])).unwrap();
    let swapped = MerkleTree::new(&batch(&["y", "x", "z"])).unwrap();
    assert_ne!(first.root_hash(), swapped.root_hash());
}

#[test]
fn proofs_verify_for_all_batch_sizes() {
    let names = ["r0", "r1", "r2", "r3", "r4", "r5", "r6"];
    for size in 1..=7usize {
        let data = batch(&names[..size]);
        let tree = MerkleTree::new(&data).unwrap();
        for (i, item) in data.iter().enumerate() {
            let proof = tree.generate_proof(i).unwrap();
            assert!(proof.verify(item), "size {size}, index {i}");
        }
    }
}

#[test]
fn wrong_record_rejected() {
    let data = batch(&["a", "b", "c", "d"]);
    let tree = MerkleTree::new(&data).unwrap();
    for i in 0..data.len() {
        let proof = tree.generate_proof(i).unwrap();
        for (j, other) in data.iter().enumerate() {
            if j != i {
                assert!(!proof.verify(other));
            }
        }
        assert!(!proof.verify(&b"foreign".to_vec()));
    }
}

#[test]
fn tampered_sibling_rejected() {
    let data = batch(&["a", "b", "c", "d"]);
    let tree = MerkleTree::new(&data).unwrap();
    let clean = tree.generate_proof(1).unwrap();
    let step_count = clean.num_steps();
    for s in 0..step_count {
        let byte_count = clean.steps[s].sibling.len();
        for k in 0..byte_count {
            for bit in 0..8u8 {
                let mut proof = tree.generate_proof(1).unwrap();
                proof.steps[s].sibling[k] ^= 1 << bit;
                assert!(!proof.verify(&data[1]), "step {s}, byte {k}, bit {bit}");
            }
        }
    }
}

#[test]
fn tampered_leaf_digest_rejected() {
    let data = batch(&["a", "b", "c", "d"]);
    let tree = MerkleTree::new(&data).unwrap();
    for k in 0..32 {
        let mut proof = tree.generate_proof(2).unwrap();
        proof.leaf_hash[k] ^= 1;
        assert!(!proof.verify(&data[2]), "byte {k}");
    }
}

#[test]
fn tampered_root_digest_rejected() {
    let data = batch(&["a", "b", "c", "d"]);
    let tree = MerkleTree::new(&data).unwrap();
    for k in 0..32 {
        let mut proof = tree.generate_proof(3).unwrap();
        proof.root_hash[k] ^= 1;
        assert!(!proof.verify(&data[3]), "byte {k}");
    }
}

#[test]
fn flipped_direction_flag_rejected() {
    let data = batch(&["a", "b", "c", "d"]);
    let tree = MerkleTree::new(&data).unwrap();
    let mut proof = tree.generate_proof(0).unwrap();
    proof.steps[0].sibling_on_right = !proof.steps[0].sibling_on_right;
    assert!(!proof.verify(&data[0]));
}

#[test]
fn empty_batch_rejected() {
    let data: Vec<Vec<u8>> = Vec::new();
    match MerkleTree::new(&data) {
        Err(HashTreeError::EmptyInputError) => {}
        _ => panic!("an empty batch must be rejected with EmptyInputError"),
    }
}

#[test]
fn out_of_range_index_rejected() {
    let data = batch(&["a", "b", "c", "d"]);
    let tree = MerkleTree::new(&data).unwrap();
    match tree.generate_proof(4) {
        Err(HashTreeError::IndexOutOfRangeError) => {}
        _ => panic!("index 4 of a 4-leaf tree must be rejected with IndexOutOfRangeError"),
    }
    match tree.generate_proof(100) {
        Err(HashTreeError::IndexOutOfRangeError) => {}
        _ => panic!("index 100 of a 4-leaf tree must be rejected with IndexOutOfRangeError"),
    }
    assert_eq!(tree.leaf_count(), 4);
}

#[test]
fn odd_batch_promotes_trailing_record() {
    let data = batch(&["a", "b", "c"]);
    let tree = MerkleTree::new(&data).unwrap();

    // Level 1 pairs "a" with "b" and promotes "c" unchanged.
    assert_eq!(tree.level_count(), 3);
    assert_eq!(tree.level_len(0), 3);
    assert_eq!(tree.level_len(1), 2);
    assert_eq!(tree.level_len(2), 1);
    let expected = sha_pair(&sha_pair(&sha(b"a"), &sha(b"b")), &sha(b"c"));
    assert_eq!(tree.root_hash().clone(), expected);

    // The promoted leaf crosses level 0 without a sibling, so its proof is
    // strictly shorter.
    let paired = tree.generate_proof(0).unwrap();
    let promoted = tree.generate_proof(2).unwrap();
    assert_eq!(paired.num_steps(), 2);
    assert_eq!(promoted.num_steps(), 1);
    assert!(paired.verify(&data[0]));
    assert!(promoted.verify(&data[2]));
}

#[test]
fn five_batch_root_matches_manual_promotion() {
    let data = batch(&["a", "b", "c", "d", "e"]);
    let tree = MerkleTree::new(&data).unwrap();
    let ab = sha_pair(&sha(b"a"), &sha(b"b"));
    let cd = sha_pair(&sha(b"c"), &sha(b"d"));
    let e = sha(b"e");
    let abcd = sha_pair(&ab, &cd);
    let expected = sha_pair(&abcd, &e);
    assert_eq!(tree.root_hash().clone(), expected);
    assert_eq!(tree.level_count(), 4);
    assert_eq!(tree.level_len(1), 3);
    assert_eq!(tree.level_len(2), 2);
}

#[test]
fn all_digests_are_32_bytes() {
    let data = batch(&["a", "b", "c", "d", "e"]);
    let tree = MerkleTree::new(&data).unwrap();
    assert_eq!(tree.root_hash().len(), 32);
    for i in 0..data.len() {
        let proof = tree.generate_proof(i).unwrap();
        assert_eq!(proof.leaf_hash.len(), 32);
        assert_eq!(proof.root_hash.len(), 32);
        for step in &proof.steps {
            assert_eq!(step.sibling.len(), 32);
        }
    }
}
