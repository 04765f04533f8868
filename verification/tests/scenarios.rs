use merkle_tree_api::hashing::{hash_pair, keccak256, smt_hash_internal};
use merkle_tree_api::hexstr::{decode_hex, encode_hex};
use merkle_tree_api::lmdb_tree::LmdbMerkleTree;
use merkle_tree_api::merkle_tree::IncrementalMerkleTree;
use merkle_tree_api::optimized_sparse_tree::OptimizedSparseMerkleTree;
use merkle_tree_api::sparse_merkle_tree::SparseMerkleTree;
use merkle_tree_api::storage::LmdbStorage;
use merkle_tree_api::TreeError;
use tempfile::TempDir;

fn hex(s: &str) -> Vec<u8> {
    s.as_bytes().to_vec()
}

fn temp_smt(depth: usize) -> (SparseMerkleTree, TempDir) {
    let temp_dir = TempDir::new().unwrap();
    let db_path = temp_dir.path().join("smt.db");
    let tree = SparseMerkleTree::new(db_path.to_str().unwrap(), depth).unwrap();
    (tree, temp_dir)
}

#[test]
fn test_keccak_known_vector() {
    // Keccak-256 of the empty input, a published reference digest.
    let digest = keccak256(&[]);
    assert_eq!(
        encode_hex(&digest),
        "c5d2460186f7233c927e7db2dcc703c0e500b653ca82273b7bfad8045d85a470"
    );
}

#[test]
fn test_hex_round_trip_and_rejection() {
    let bytes = vec![0u8, 1, 15, 16, 171, 255];
    let encoded = encode_hex(&bytes);
    assert_eq!(encoded, "00010f10abff");
    assert_eq!(decode_hex(&encoded), Some(bytes));
    assert_eq!(decode_hex("abc"), None);
    assert_eq!(decode_hex("zz"), None);
    assert_eq!(decode_hex("ABCDEF"), Some(vec![171u8, 205, 239]));
}

#[test]
fn test_imt_a_four_leaves_all_proofs_verify() {
    let leaves = vec![hex("a"), hex("b"), hex("c"), hex("d")];
    let mut tree = IncrementalMerkleTree::new();
    assert!(tree.add_leaves(leaves.clone()).is_ok());
    let root = tree.root().unwrap();

    let mut again = IncrementalMerkleTree::new();
    assert!(again.add_leaves(leaves.clone()).is_ok());
    assert_eq!(again.root().unwrap(), root);

    for i in 0..4 {
        let proof = tree.get_proof(i).unwrap();
        assert!(tree.verify_proof(&leaves[i], &proof, &root, i));
    }
}

#[test]
fn test_imt_b_odd_count_self_pairing() {
    let leaves = vec![hex("a"), hex("b"), hex("c")];
    let mut tree = IncrementalMerkleTree::new();
    assert!(tree.add_leaves(leaves.clone()).is_ok());
    let root = tree.root().unwrap();

    let proof = tree.get_proof(2).unwrap();
    // The lone leaf pairs with itself at level zero, so its level-zero
    // sibling is its own bytes; the level-one sibling is the pair of the
    // first two leaves. Exactly one sibling equals that pair hash.
    let h_leaf_ab = hash_pair(&hex("a"), &hex("b"));
    let ab_hex = encode_hex(&h_leaf_ab);
    let own_hex = encode_hex(&hex("c"));
    assert_eq!(proof.siblings.len(), 2);
    assert_eq!(proof.siblings[0], own_hex);
    assert_eq!(proof.siblings[1], ab_hex);
    let matching = proof.siblings.iter().filter(|s| **s == ab_hex).count();
    assert_eq!(matching, 1);
    assert!(tree.verify_proof(&hex("c"), &proof, &root, 2));

    // The root equals the root of the same level padded with its own last
    // element.
    let mut padded = IncrementalMerkleTree::new();
    assert!(padded.add_leaves(vec![hex("a"), hex("b"), hex("c"), hex("c")]).is_ok());
    assert_eq!(padded.root().unwrap(), root);
}

#[test]
fn test_imt_c_roots_differ() {
    let mut two = IncrementalMerkleTree::new();
    assert!(two.add_leaves(vec![hex("x"), hex("y")]).is_ok());
    let mut three = IncrementalMerkleTree::new();
    assert!(three.add_leaves(vec![hex("x"), hex("y"), hex("z")]).is_ok());
    assert_ne!(two.root().unwrap(), three.root().unwrap());
}

#[test]
fn test_imt_capacity_leaves_state_unchanged() {
    let mut tree = IncrementalMerkleTree::_new_with_max(2);
    assert!(tree.add_leaf(hex("one")).is_ok());
    assert!(tree.add_leaf(hex("two")).is_ok());
    let root_before = tree.root().unwrap();

    let result = tree.add_leaf(hex("three"));
    assert!(matches!(result, Err(TreeError::CapacityExceeded)));
    assert_eq!(tree.num_leaves(), 2);
    assert_eq!(tree.root().unwrap(), root_before);
}

#[test]
fn test_imt_sensitivity() {
    let leaves = vec![hex("a"), hex("b"), hex("c"), hex("d")];
    let mut tree = IncrementalMerkleTree::new();
    assert!(tree.add_leaves(leaves.clone()).is_ok());
    let root = tree.root().unwrap();
    let proof = tree.get_proof(1).unwrap();
    assert!(tree.verify_proof(&leaves[1], &proof, &root, 1));

    // Flipped leaf bit.
    let mut bad_leaf = leaves[1].clone();
    bad_leaf[0] ^= 1;
    assert!(!tree.verify_proof(&bad_leaf, &proof, &root, 1));

    // Wrong index.
    assert!(!tree.verify_proof(&leaves[1], &proof, &root, 0));

    // Flipped root bit.
    let mut bad_root = root.clone();
    bad_root[0] ^= 1;
    assert!(!tree.verify_proof(&leaves[1], &proof, &bad_root, 1));

    // Tampered sibling.
    let mut bad_proof = proof.clone();
    let tampered = decode_hex(&bad_proof.siblings[0]).map(|mut b| {
        b[0] ^= 1;
        encode_hex(&b)
    });
    bad_proof.siblings[0] = tampered.unwrap();
    assert!(!tree.verify_proof(&leaves[1], &proof, &bad_root, 1));
    assert!(!tree.verify_proof(&leaves[1], &bad_proof, &root, 1));
}

#[test]
fn test_imt_matches_stored_tree_root() {
    let temp_dir = TempDir::new().unwrap();
    let db_path = temp_dir.path().join("cross.db");
    let mut stored = LmdbMerkleTree::new(db_path.to_str().unwrap()).unwrap();
    let mut memory = IncrementalMerkleTree::new();

    let leaves = vec![hex("m1"), hex("m2"), hex("m3"), hex("m4"), hex("m5")];
    assert!(stored.add_leaves(leaves.clone()).is_ok());
    assert!(memory.add_leaves(leaves).is_ok());

    assert_eq!(stored.root().unwrap(), memory.root().unwrap());
    assert_eq!(
        stored.get_proof(3).unwrap().siblings,
        memory.get_proof(3).unwrap().siblings
    );
}

#[test]
fn test_smt_a_membership_and_non_membership() {
    let (mut tree, _t) = temp_smt(8);
    assert!(tree.insert(&hex("foo"), &hex("bar")).is_ok());

    let root = tree.root().unwrap();
    let proof = tree.get_proof(&hex("foo")).unwrap();
    assert_eq!(proof.siblings.len(), 8);

    // With a single key inserted no sibling lies on the key's own path, so
    // every served sibling is the per-level empty hash.
    let mut empty = keccak256(&[2u8]);
    for sib in proof.siblings.iter() {
        assert_eq!(*sib, encode_hex(&empty));
        empty = smt_hash_internal(&empty, &empty);
    }

    assert!(tree.verify_membership(&hex("foo"), &hex("bar"), &proof, &root));
    assert!(!tree.verify_membership(&hex("foo"), &hex("wrong"), &proof, &root));

    let absent = tree.get_proof(&hex("baz")).unwrap();
    assert!(tree.verify_non_membership(&hex("baz"), &absent, &root));
    assert!(!tree.verify_non_membership(&hex("foo"), &proof, &root));
}

#[test]
fn test_smt_insert_is_idempotent() {
    let (mut tree, _t) = temp_smt(16);
    assert!(tree.insert(&hex("k"), &hex("v")).is_ok());
    let r1 = tree.root().unwrap();
    assert!(tree.insert(&hex("k"), &hex("v")).is_ok());
    let r2 = tree.root().unwrap();
    assert_eq!(r1, r2);
}

#[test]
fn test_smt_wrong_length_proof_rejected() {
    let (mut tree, _t) = temp_smt(8);
    assert!(tree.insert(&hex("foo"), &hex("bar")).is_ok());
    let root = tree.root().unwrap();
    let mut proof = tree.get_proof(&hex("foo")).unwrap();
    proof.siblings.pop();
    assert!(!tree.verify_membership(&hex("foo"), &hex("bar"), &proof, &root));

    let mut proof2 = tree.get_proof(&hex("foo")).unwrap();
    proof2.siblings[0] = "not hex".to_string();
    assert!(!tree.verify_membership(&hex("foo"), &hex("bar"), &proof2, &root));
}

#[test]
fn test_smt_b_shared_prefix_materializes_divergence() {
    let depth = 8usize;
    let top_bits = |key: &[u8], n: u32| -> u8 {
        let d = keccak256(key);
        d[0] >> (8 - n)
    };

    // Find two keys whose digests share exactly a 3-bit prefix.
    let k1 = hex("sp0");
    let mut k2 = None;
    let mut i = 0u32;
    while k2.is_none() {
        let cand = format!("sp{}", i + 1).into_bytes();
        if top_bits(&k1, 3) == top_bits(&cand, 3) && top_bits(&k1, 4) != top_bits(&cand, 4) {
            k2 = Some(cand);
        }
        i += 1;
    }
    let k2 = k2.unwrap();

    let (mut tree, _t) = temp_smt(depth);
    assert!(tree.insert(&k1, &hex("v1")).is_ok());
    assert!(tree.insert(&k2, &hex("v2")).is_ok());

    // On k1's path, the only materialized sibling is the one at the level
    // where the two paths diverge: level depth - 1 - (shared prefix length).
    let proof = tree.get_proof(&k1).unwrap();
    let mut empty = keccak256(&[2u8]);
    let mut non_empty_levels = Vec::new();
    for (level, sib) in proof.siblings.iter().enumerate() {
        if *sib != encode_hex(&empty) {
            non_empty_levels.push(level);
        }
        empty = smt_hash_internal(&empty, &empty);
    }
    assert_eq!(non_empty_levels, vec![depth - 1 - 3]);

    let root = tree.root().unwrap();
    assert!(tree.verify_membership(&k1, &hex("v1"), &proof, &root));
    let proof2 = tree.get_proof(&k2).unwrap();
    assert!(tree.verify_membership(&k2, &hex("v2"), &proof2, &root));
}

#[test]
fn test_legacy_sparse_tree_round_trip() {
    let temp_dir = TempDir::new().unwrap();
    let db_path = temp_dir.path().join("legacy.db");
    let mut tree = OptimizedSparseMerkleTree::new(db_path.to_str().unwrap()).unwrap();

    assert!(tree.add_leaf(7, hex("value7")).is_ok());
    let root = tree.get_root().unwrap();
    let proof = tree.get_proof(7).unwrap();
    assert_eq!(proof.siblings.len(), 32);
    assert!(tree.verify_proof(&hex("value7"), &proof, &root, 7));
    assert!(!tree.verify_proof(&hex("other"), &proof, &root, 7));
    assert!(!tree.verify_proof(&hex("value7"), &proof, &root, 8));

    let result = tree.add_leaf(4294967296, hex("overflow"));
    assert!(matches!(result, Err(TreeError::CapacityExceeded)));
    assert!(matches!(
        tree.get_proof(4294967296),
        Err(TreeError::CapacityExceeded)
    ));
}

#[test]
fn test_storage_node_operations() {
    let temp_dir = TempDir::new().unwrap();
    let db_path = temp_dir.path().join("nodes.db");
    let mut storage = LmdbStorage::new(db_path.to_str().unwrap()).unwrap();

    assert_eq!(storage.get_node(3, 42).unwrap(), None);
    storage.store_node(3, 42, &hex("nodehash")).unwrap();
    assert_eq!(storage.get_node(3, 42).unwrap(), Some(hex("nodehash")));
    assert_eq!(storage.get_node(4, 42).unwrap(), None);
    assert_eq!(storage.get_node(3, 43).unwrap(), None);

    let updates = vec![
        (0u64, 5u64, hex("n0")),
        (1u64, 2u64, hex("n1")),
        (2u64, 1u64, hex("n2")),
    ];
    storage.store_path_batch(&updates).unwrap();
    assert_eq!(storage.get_node(0, 5).unwrap(), Some(hex("n0")));
    assert_eq!(storage.get_node(1, 2).unwrap(), Some(hex("n1")));
    assert_eq!(storage.get_node(2, 1).unwrap(), Some(hex("n2")));
}

#[test]
fn test_stored_tree_persistence_scenario() {
    let temp_dir = TempDir::new().unwrap();
    let db_path = temp_dir.path().join("persist.db");
    let path = db_path.to_str().unwrap();

    let root_before;
    {
        let mut tree = LmdbMerkleTree::new(path).unwrap();
        assert!(tree.add_leaves(vec![hex("p1"), hex("p2"), hex("p3")]).is_ok());
        assert_eq!(tree.num_leaves(), 3);
        root_before = tree.root().unwrap();
    }
    {
        let tree = LmdbMerkleTree::new(path).unwrap();
        assert_eq!(tree.num_leaves(), 3);
        assert_eq!(tree.root().unwrap(), root_before);
        for i in 0..3 {
            let proof = tree.get_proof(i).unwrap();
            let leaf = match i {
                0 => hex("p1"),
                1 => hex("p2"),
                _ => hex("p3"),
            };
            assert!(tree.verify_proof(&leaf, &proof, &root_before, i));
        }
    }
}

#[test]
fn test_smt_persistence_across_instances() {
    let temp_dir = TempDir::new().unwrap();
    let db_path = temp_dir.path().join("smt_persist.db");
    let path = db_path.to_str().unwrap();

    let root_before;
    {
        let mut tree = SparseMerkleTree::new(path, 8).unwrap();
        assert!(tree.insert(&hex("alpha"), &hex("one")).is_ok());
        root_before = tree.root().unwrap();
    }
    {
        let tree = SparseMerkleTree::new(path, 8).unwrap();
        assert_eq!(tree.root().unwrap(), root_before);
        let proof = tree.get_proof(&hex("alpha")).unwrap();
        assert!(tree.verify_membership(&hex("alpha"), &hex("one"), &proof, &root_before));
    }
}
