use merkle_tree::MerkleTree;
use merkle_tree::PolyHasher;

fn cat(a: &[u8], b: &[u8]) -> Vec<u8> {
    let mut out = Vec::new();
    out.extend_from_slice(a);
    out.extend_from_slice(b);
    out
}

fn hash(data: &[u8]) -> Vec<u8> {
    MerkleTree::<PolyHasher>::hash(data)
}

#[test]
fn fresh_tree_has_doubled_leaf_count() {
    let t0 = MerkleTree::<PolyHasher>::new(0);
    assert_eq!(t0.leaf_count(), 2);
    let t1 = MerkleTree::<PolyHasher>::new(1);
    assert_eq!(t1.leaf_count(), 4);
    let t2 = MerkleTree::<PolyHasher>::new(2);
    assert_eq!(t2.leaf_count(), 8);
}

#[test]
fn fresh_tree_leaves_are_empty() {
    let t = MerkleTree::<PolyHasher>::new(1);
    for i in 0..t.leaf_count() {
        assert_eq!(t.leaf(i), None);
    }
}

#[test]
fn fresh_tree_root_is_all_empty_hash() {
    let t = MerkleTree::<PolyHasher>::new(1);
    // Both children of the root stand over empty leaves only: each is the
    // hash of two empty contributions, i.e. the hash of no bytes at all.
    let e1 = hash(&[]);
    let expected = hash(&cat(&e1, &e1));
    assert_eq!(t.root(), &expected);
    assert_eq!(t.root(), &vec![79, 188, 162, 103, 70, 1, 187, 29]);
}

#[test]
fn root_is_deterministic_across_constructions() {
    let t1 = MerkleTree::<PolyHasher>::new(3);
    let t2 = MerkleTree::<PolyHasher>::new(3);
    assert_eq!(t1.root(), t2.root());
}

#[test]
fn root_lookup_is_idempotent() {
    let mut t = MerkleTree::<PolyHasher>::new(1);
    t.insert(b"payload");
    let first = t.root().clone();
    let second = t.root().clone();
    assert_eq!(first, second);
}

#[test]
fn single_insert_scenario() {
    let mut t = MerkleTree::<PolyHasher>::new(1);
    t.insert(b"a");
    // The first leaf carries the hash of the data.
    assert_eq!(t.leaf(0), Some(&hash(b"a")));
    // The root hashes the concatenation of its two children: the left child
    // covers the leaf holding hash("a") and an empty leaf, the right child
    // covers two empty leaves.
    let left = hash(&cat(&hash(b"a"), &[]));
    let right = hash(&cat(&[], &[]));
    let expected = hash(&cat(&left, &right));
    assert_eq!(t.root(), &expected);
    assert_eq!(t.root(), &vec![57, 129, 100, 115, 142, 8, 107, 224]);
}

#[test]
fn leaves_fill_left_to_right() {
    let mut t = MerkleTree::<PolyHasher>::new(1);
    t.insert(b"one");
    t.insert(b"two");
    assert_eq!(t.leaf_count(), 4);
    assert_eq!(t.leaf(0), Some(&hash(b"one")));
    assert_eq!(t.leaf(1), Some(&hash(b"two")));
    assert_eq!(t.leaf(2), None);
    assert_eq!(t.leaf(3), None);
}

#[test]
fn each_insert_recomputes_the_path() {
    let mut t = MerkleTree::<PolyHasher>::new(1);
    t.insert(b"one");
    t.insert(b"two");
    t.insert(b"three");
    let left = hash(&cat(&hash(b"one"), &hash(b"two")));
    let right = hash(&cat(&hash(b"three"), &[]));
    let expected = hash(&cat(&left, &right));
    assert_eq!(t.root(), &expected);
}

#[test]
fn inserting_into_full_tree_grows_it() {
    let mut t = MerkleTree::<PolyHasher>::new(0);
    assert_eq!(t.leaf_count(), 2);
    t.insert(b"one");
    t.insert(b"two");
    // The tree is full; the next insert doubles the leaf capacity.
    t.insert(b"three");
    assert_eq!(t.leaf_count(), 4);
    // Previously inserted leaves are untouched, the new value lands in the
    // first slot of the fresh right half, and the rest stays empty.
    assert_eq!(t.leaf(0), Some(&hash(b"one")));
    assert_eq!(t.leaf(1), Some(&hash(b"two")));
    assert_eq!(t.leaf(2), Some(&hash(b"three")));
    assert_eq!(t.leaf(3), None);
    // The old root level's node survives as the left child of the new root.
    let left = hash(&cat(&hash(b"one"), &hash(b"two")));
    let right = hash(&cat(&hash(b"three"), &[]));
    let expected = hash(&cat(&left, &right));
    assert_eq!(t.root(), &expected);
}

#[test]
fn growth_can_repeat() {
    let mut t = MerkleTree::<PolyHasher>::new(0);
    let items: [&[u8]; 5] = [b"d0", b"d1", b"d2", b"d3", b"d4"];
    for item in items.iter() {
        t.insert(item);
    }
    assert_eq!(t.leaf_count(), 8);
    for (i, item) in items.iter().enumerate() {
        assert_eq!(t.leaf(i), Some(&hash(item)));
    }
    for i in items.len()..t.leaf_count() {
        assert_eq!(t.leaf(i), None);
    }
    let n01 = hash(&cat(&hash(b"d0"), &hash(b"d1")));
    let n23 = hash(&cat(&hash(b"d2"), &hash(b"d3")));
    let n4e = hash(&cat(&hash(b"d4"), &[]));
    let nee = hash(&cat(&[], &[]));
    let left = hash(&cat(&n01, &n23));
    let right = hash(&cat(&n4e, &nee));
    let expected = hash(&cat(&left, &right));
    assert_eq!(t.root(), &expected);
}

#[test]
fn filling_a_grown_tree_keeps_the_order() {
    let mut t = MerkleTree::<PolyHasher>::new(0);
    for i in 0..6u8 {
        t.insert(&[i]);
    }
    assert_eq!(t.leaf_count(), 8);
    for i in 0..6u8 {
        assert_eq!(t.leaf(i as usize), Some(&hash(&[i])));
    }
    assert_eq!(t.leaf(6), None);
    assert_eq!(t.leaf(7), None);
}
