use merkle_tree_api::verkle_tree::{VerkleProof, VerkleTree};

#[test]
fn test_proof_and_verification() {
    let mut tree = VerkleTree::new();
    let key = b"mykey".to_vec();
    let value = b"myvalue".to_vec();
    tree.insert(key.clone(), value.clone()).unwrap();
    let root = tree.root_commitment().unwrap();

    let proof = tree.get_proof(&key).expect("Proof generation failed");
    assert_eq!(tree.simulate_commitment(&key, &value, &proof), root);
    assert!(tree._verify_proof(&key, &value, &proof, &root));
}

#[test]
fn test_insert_multiple_keys_and_root_changes() {
    let mut tree = VerkleTree::new();
    let k1 = b"a".to_vec();
    let v1 = b"1".to_vec();
    tree.insert(k1.clone(), v1.clone()).unwrap();
    let r1 = tree.root_commitment().unwrap();

    let k2 = b"b".to_vec();
    let v2 = b"2".to_vec();
    tree.insert(k2.clone(), v2.clone()).unwrap();
    let r2 = tree.root_commitment().unwrap();

    assert_ne!(r1, r2);
    let p1 = tree.get_proof(&k1).unwrap();
    assert!(tree._verify_proof(&k1, &v1, &p1, &r2));
    let p2 = tree.get_proof(&k2).unwrap();
    assert!(tree._verify_proof(&k2, &v2, &p2, &r2));
}

#[test]
fn test_overwrite_key_does_not_increase_count() {
    let mut tree = VerkleTree::new();
    tree.insert(b"x".to_vec(), b"old".to_vec()).unwrap();
    let c1 = tree.key_count;
    tree.insert(b"x".to_vec(), b"new".to_vec()).unwrap();
    assert_eq!(c1, tree.key_count);
}

#[test]
fn test_tree_full_error() {
    let mut tree = VerkleTree::new();
    tree.max_keys = 1;
    assert!(tree.insert(b"a".to_vec(), b"1".to_vec()).is_ok());
    assert!(tree.insert(b"b".to_vec(), b"2".to_vec()).is_err());
}

#[test]
fn test_get_proof_nonexistent_key() {
    let mut tree = VerkleTree::new();
    tree.insert(b"foo".to_vec(), b"bar".to_vec()).unwrap();
    assert!(tree.get_proof(&b"baz".to_vec()).is_none());
}

#[test]
fn test_prefix_and_child_keys() {
    let mut tree = VerkleTree::new();
    let full = vec![1, 2, 3];
    let pref = vec![1, 2];
    tree.insert(full.clone(), b"F".to_vec()).unwrap();
    tree.insert(pref.clone(), b"I".to_vec()).unwrap();
    let root = tree.root_commitment().unwrap();

    let p_pref = tree.get_proof(&pref).unwrap();
    assert!(tree._verify_proof(&pref, &b"I".to_vec(), &p_pref, &root));
    let p_full = tree.get_proof(&full).unwrap();
    assert!(tree._verify_proof(&full, &b"F".to_vec(), &p_full, &root));
}

#[test]
fn test_empty_key_insert_and_no_proof() {
    let mut tree = VerkleTree::new();
    tree.insert(Vec::new(), b"E".to_vec()).unwrap();
    let _ = tree.root_commitment().unwrap();
    assert!(tree.get_proof(&Vec::new()).is_none());
}

#[test]
fn test_multiple_leaf_siblings_count() {
    let mut tree = VerkleTree::new();
    tree.insert(vec![0, 1], b"A".to_vec()).unwrap();
    tree.insert(vec![0, 2], b"B".to_vec()).unwrap();
    tree.insert(vec![0, 3], b"C".to_vec()).unwrap();
    let root = tree.root_commitment().unwrap();

    let p = tree.get_proof(&vec![0, 2]).unwrap();
    assert_eq!(*p.siblings_per_level.last().unwrap(), 2);
    assert!(tree._verify_proof(&vec![0, 2], &b"B".to_vec(), &p, &root));
}

#[test]
fn test_simulate_with_invalid_proof() {
    let tree = VerkleTree::new();
    let bad = VerkleProof {
        path: vec![1, 2, 3],
        siblings: vec!["xx".into()],
        indices: vec![0, 1],
        siblings_per_level: vec![1, 1, 1],
    };
    assert!(tree.simulate_commitment(&b"".to_vec(), &b"".to_vec(), &bad).is_empty());
}

#[test]
fn test_default_new_equivalence() {
    let a = VerkleTree::new();
    let b = VerkleTree::default();
    assert_eq!(a.key_count, b.key_count);
    assert_eq!(a.max_keys, b.max_keys);
    assert_eq!(a.cache_valid, b.cache_valid);
}
