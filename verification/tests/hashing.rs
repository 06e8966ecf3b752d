use merkle_tree::Hasher;
use merkle_tree::MerkleTree;
use merkle_tree::PolyHasher;

#[test]
fn poly_hash_of_empty_input() {
    let digest = PolyHasher::hash(&[]);
    assert_eq!(digest, vec![37, 35, 34, 132, 228, 156, 242, 203]);
}

#[test]
fn poly_hash_of_one_byte() {
    let digest = PolyHasher::hash(b"a");
    assert_eq!(digest, vec![64, 184, 1, 134, 76, 189, 99, 175]);
}

#[test]
fn poly_hash_of_three_bytes() {
    let digest = PolyHasher::hash(b"abc");
    assert_eq!(digest, vec![41, 233, 39, 109, 24, 26, 151, 218]);
}

#[test]
fn poly_hash_is_deterministic() {
    assert_eq!(PolyHasher::hash(b"same input"), PolyHasher::hash(b"same input"));
}

#[test]
fn poly_hash_has_eight_bytes() {
    assert_eq!(PolyHasher::hash(&[]).len(), 8);
    assert_eq!(PolyHasher::hash(b"somewhat longer input data").len(), 8);
}

#[test]
fn tree_hash_matches_injected_hasher() {
    assert_eq!(MerkleTree::<PolyHasher>::hash(b"xyz"), PolyHasher::hash(b"xyz"));
    assert_eq!(MerkleTree::<PolyHasher>::hash(&[]), PolyHasher::hash(&[]));
}
