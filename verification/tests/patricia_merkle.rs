use merkle_tree_api::patricia_merkle::{PatriciaMerkleTree, PatriciaProof};

fn hex(s: &str) -> Vec<u8> {
    s.as_bytes().to_vec()
}

#[test]
fn patricia_merkle_test_empty_tree() {
    let tree = PatriciaMerkleTree::new();
    assert_eq!(tree.num_keys(), 0);
    assert!(tree.root_hash().is_none());
}

#[test]
fn test_single_key() {
    let mut tree = PatriciaMerkleTree::new();
    assert!(tree.insert(hex("key1"), hex("value1")).is_ok());
    assert_eq!(tree.num_keys(), 1);
    assert!(tree.root_hash().is_some());
    assert_eq!(tree.get(&hex("key1")), Some(hex("value1")));
}

#[test]
fn test_multiple_keys() {
    let mut tree = PatriciaMerkleTree::new();
    assert!(tree.insert(hex("key1"), hex("value1")).is_ok());
    assert!(tree.insert(hex("key2"), hex("value2")).is_ok());
    assert!(tree.insert(hex("key3"), hex("value3")).is_ok());

    assert_eq!(tree.num_keys(), 3);
    assert!(tree.root_hash().is_some());
    assert_eq!(tree.get(&hex("key1")), Some(hex("value1")));
    assert_eq!(tree.get(&hex("key2")), Some(hex("value2")));
    assert_eq!(tree.get(&hex("key3")), Some(hex("value3")));
}

#[test]
fn test_update_existing_key() {
    let mut tree = PatriciaMerkleTree::new();
    assert!(tree.insert(hex("key1"), hex("value1")).is_ok());
    assert_eq!(tree.num_keys(), 1);

    assert!(tree.insert(hex("key1"), hex("new_value")).is_ok());
    assert_eq!(tree.num_keys(), 1);
    assert_eq!(tree.get(&hex("key1")), Some(hex("new_value")));
}

#[test]
fn test_get_nonexistent_key() {
    let mut tree = PatriciaMerkleTree::new();
    assert!(tree.insert(hex("key1"), hex("value1")).is_ok());
    assert_eq!(tree.get(&hex("nonexistent")), None);
}

#[test]
fn test_common_prefix_keys() {
    let mut tree = PatriciaMerkleTree::new();
    assert!(tree.insert(hex("test"), hex("value1")).is_ok());
    assert!(tree.insert(hex("testing"), hex("value2")).is_ok());
    assert!(tree.insert(hex("tea"), hex("value3")).is_ok());

    assert_eq!(tree.num_keys(), 3);
    assert_eq!(tree.get(&hex("test")), Some(hex("value1")));
    assert_eq!(tree.get(&hex("testing")), Some(hex("value2")));
    assert_eq!(tree.get(&hex("tea")), Some(hex("value3")));
}

#[test]
fn test_proof_generation_valid_and_invalid_key() {
    let mut tree = PatriciaMerkleTree::new();
    let _ = tree.insert(hex("key1"), hex("value1"));
    let _ = tree.insert(hex("key2"), hex("value2"));

    let valid_proof = tree.get_proof(&hex("key1"));
    assert!(valid_proof.is_some());

    let invalid_proof = tree.get_proof(&hex("nonexistent"));
    assert!(invalid_proof.is_none());
}

#[test]
fn test_max_keys_enforced() {
    let test_max_keys = 10;
    let mut tree = PatriciaMerkleTree::_new_with_max(test_max_keys);

    for i in 0..test_max_keys {
        let key = format!("key{}", i).into_bytes();
        let value = format!("value{}", i).into_bytes();
        assert!(tree.insert(key, value).is_ok());
    }

    let result = tree.insert(hex("overflow"), hex("value"));
    assert!(result.is_err());
    assert_eq!(tree.num_keys(), test_max_keys);
}

#[test]
fn test_root_hash_consistency() {
    let mut tree = PatriciaMerkleTree::new();
    let _ = tree.insert(hex("key1"), hex("value1"));
    let _ = tree.insert(hex("key2"), hex("value2"));

    let hash1 = tree.root_hash();
    let hash2 = tree.root_hash();

    assert_eq!(hash1, hash2);
}

#[test]
fn test_root_hash_changes_after_insertion() {
    let mut tree = PatriciaMerkleTree::new();
    let _ = tree.insert(hex("key1"), hex("value1"));
    let hash1 = tree.root_hash();

    let _ = tree.insert(hex("key2"), hex("value2"));
    let hash2 = tree.root_hash();

    assert_ne!(hash1, hash2);
}

#[test]
fn patricia_merkle_test_proof_structure() {
    let mut tree = PatriciaMerkleTree::new();
    let _ = tree.insert(hex("key1"), hex("value1"));
    let _ = tree.insert(hex("key2"), hex("value2"));

    let proof = tree.get_proof(&hex("key1"));
    assert!(proof.is_some());
    let proof = proof.unwrap();

    assert_eq!(proof.siblings.len(), proof.directions.len());
    assert!(!proof.path.is_empty());
}

#[test]
fn patricia_merkle_test_proof_verification_valid() {
    let mut tree = PatriciaMerkleTree::new();
    let key = hex("test_key");
    let value = hex("test_value");
    let _ = tree.insert(key.clone(), value.clone());

    let root_hash = tree.root_hash().unwrap();
    let proof = tree.get_proof(&key).unwrap();

    assert!(tree._verify_proof(&key, &value, &proof, &root_hash));
}

#[test]
fn test_proof_verification_invalid_value() {
    let mut tree = PatriciaMerkleTree::new();
    let key = hex("test_key");
    let value = hex("test_value");
    let _ = tree.insert(key.clone(), value);

    let root_hash = tree.root_hash().unwrap();
    let proof = tree.get_proof(&key).unwrap();

    assert!(!tree._verify_proof(&key, &hex("wrong_value"), &proof, &root_hash));
}

#[test]
fn patricia_merkle_test_proof_verification_invalid_root() {
    let mut tree = PatriciaMerkleTree::new();
    let key = hex("test_key");
    let value = hex("test_value");
    let _ = tree.insert(key.clone(), value.clone());

    let proof = tree.get_proof(&key).unwrap();
    let wrong_root = hex("wrong_root");

    assert!(!tree._verify_proof(&key, &value, &proof, &wrong_root));
}

#[test]
fn patricia_merkle_test_proof_verification_malformed_proof() {
    let tree = PatriciaMerkleTree::new();
    let key = hex("test");
    let value = hex("value");
    let root = hex("root");

    let malformed_proof = PatriciaProof {
        path: vec![],
        siblings: vec!["abc".to_string()],
        directions: vec![true, false],
    };

    assert!(!tree._verify_proof(&key, &value, &malformed_proof, &root));

    let invalid_hex_proof = PatriciaProof {
        path: vec![],
        siblings: vec!["invalid_hex_string".to_string()],
        directions: vec![true],
    };

    assert!(!tree._verify_proof(&key, &value, &invalid_hex_proof, &root));
}

#[test]
fn test_key_prefix_edge_cases() {
    let mut tree = PatriciaMerkleTree::new();

    assert!(tree.insert(hex("a"), hex("value_a")).is_ok());
    assert!(tree.insert(hex("ab"), hex("value_ab")).is_ok());
    assert!(tree.insert(hex("abc"), hex("value_abc")).is_ok());

    assert_eq!(tree.get(&hex("a")), Some(hex("value_a")));
    assert_eq!(tree.get(&hex("ab")), Some(hex("value_ab")));
    assert_eq!(tree.get(&hex("abc")), Some(hex("value_abc")));
    assert_eq!(tree.num_keys(), 3);
}

#[test]
fn test_empty_key() {
    let mut tree = PatriciaMerkleTree::new();
    assert!(tree.insert(vec![], hex("empty_key_value")).is_ok());
    assert_eq!(tree.get(&vec![]), Some(hex("empty_key_value")));
    assert_eq!(tree.num_keys(), 1);
}
