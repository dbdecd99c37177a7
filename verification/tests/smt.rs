use zkplay::combine;
use zkplay::hash_leaf;
use zkplay::SparseMerkleTree;

/// An empty tree's root is the top of the default ladder: the hash of the
/// default leaf value, combined with itself 256 times.
#[test]
fn empty_root_is_ladder_top() {
    let tree = SparseMerkleTree::new();
    let mut h = hash_leaf(0);
    for _ in 0..256 {
        h = combine(&h, &h);
    }
    assert_eq!(tree.root(), h);
}

/// After an insertion, the proof for that address verifies against the new
/// root with the inserted value.
#[test]
fn round_trip_after_insert() {
    let mut tree = SparseMerkleTree::new();
    let mut addr = [0u8; 32];
    addr[0] = 0xA5;
    addr[13] = 0x3C;
    addr[31] = 0x81;
    tree.insert(addr, 7);
    let root = tree.root();
    let proof = tree.prove(&addr);
    assert!(SparseMerkleTree::verify_proof(&root, &addr, 7, &proof));
}

/// Substituting a different value while keeping root and proof fixed makes
/// verification fail.
#[test]
fn wrong_value_fails() {
    let mut tree = SparseMerkleTree::new();
    let mut addr = [0u8; 32];
    addr[7] = 0x10;
    tree.insert(addr, 7);
    let root = tree.root();
    let proof = tree.prove(&addr);
    assert!(!SparseMerkleTree::verify_proof(&root, &addr, 8, &proof));
    assert!(!SparseMerkleTree::verify_proof(&root, &addr, 0, &proof));
}

/// For an address never inserted, the proof verifies with the default value
/// 0 and fails with any non-zero value.
#[test]
fn untouched_address() {
    let mut tree = SparseMerkleTree::new();
    let mut inserted = [0u8; 32];
    inserted[31] = 0x02;
    tree.insert(inserted, 11);
    let root = tree.root();

    let mut untouched = [0u8; 32];
    untouched[0] = 0x40;
    let proof = tree.prove(&untouched);
    assert!(SparseMerkleTree::verify_proof(&root, &untouched, 0, &proof));
    assert!(!SparseMerkleTree::verify_proof(&root, &untouched, 1, &proof));
    assert!(!SparseMerkleTree::verify_proof(&root, &untouched, 99, &proof));
}

/// Flipping a single bit in any one proof entry changes the recomputed root
/// and makes verification fail.
#[test]
fn tamper_detection() {
    let mut tree = SparseMerkleTree::new();
    let mut addr = [0u8; 32];
    addr[16] = 0x55;
    tree.insert(addr, 3);
    let root = tree.root();
    let proof = tree.prove(&addr);
    assert!(SparseMerkleTree::verify_proof(&root, &addr, 3, &proof));

    for &pos in &[0usize, 1, 100, 200, 255] {
        let mut tampered = proof.clone();
        tampered[pos].h0 ^= 1;
        assert!(!SparseMerkleTree::verify_proof(&root, &addr, 3, &tampered));

        let mut tampered_high = proof.clone();
        tampered_high[pos].h3 ^= 1 << 63;
        assert!(!SparseMerkleTree::verify_proof(&root, &addr, 3, &tampered_high));
    }
}

/// Inserting the same (address, value) twice leaves the root unchanged.
#[test]
fn idempotent_insert() {
    let mut tree = SparseMerkleTree::new();
    let mut addr = [0u8; 32];
    addr[2] = 0x77;
    tree.insert(addr, 21);
    let first = tree.root();
    tree.insert(addr, 21);
    let second = tree.root();
    assert_eq!(first, second);
}

/// Overwriting an address stores the latest value: the old value no longer
/// verifies, the new one does.
#[test]
fn overwrite_takes_latest_value() {
    let mut tree = SparseMerkleTree::new();
    let mut addr = [0u8; 32];
    addr[30] = 0x09;
    tree.insert(addr, 5);
    tree.insert(addr, 6);
    let root = tree.root();
    let proof = tree.prove(&addr);
    assert!(SparseMerkleTree::verify_proof(&root, &addr, 6, &proof));
    assert!(!SparseMerkleTree::verify_proof(&root, &addr, 5, &proof));
}

/// `prove` yields exactly 256 entries, for a fresh tree and after
/// insertions.
#[test]
fn proof_always_256_entries() {
    let mut tree = SparseMerkleTree::new();
    let addr = [0u8; 32];
    assert_eq!(tree.prove(&addr).len(), 256);
    let mut other = [0xFFu8; 32];
    other[5] = 0;
    tree.insert(addr, 1);
    tree.insert(other, 2);
    assert_eq!(tree.prove(&addr).len(), 256);
    assert_eq!(tree.prove(&other).len(), 256);
}

/// A proof of any length other than 256 is rejected at once.
#[test]
fn wrong_length_proof_rejected() {
    let mut tree = SparseMerkleTree::new();
    let addr = [0u8; 32];
    tree.insert(addr, 1);
    let root = tree.root();
    let proof = tree.prove(&addr);

    let mut short = proof.clone();
    short.pop();
    assert!(!SparseMerkleTree::verify_proof(&root, &addr, 1, &short));

    let mut long = proof.clone();
    long.push(hash_leaf(0));
    assert!(!SparseMerkleTree::verify_proof(&root, &addr, 1, &long));

    let empty: Vec<zkplay::Digest> = Vec::new();
    assert!(!SparseMerkleTree::verify_proof(&root, &addr, 1, &empty));
}

/// The concrete scenario: insert value 1 at the all-zero address and value
/// 42 at the address whose last byte is 1; the proof for the first address
/// verifies with 1, fails with 2, and an address starting 0xFF that was
/// never inserted fails with 1.
#[test]
fn concrete_scenario() {
    let mut tree = SparseMerkleTree::new();

    let index1 = [0u8; 32];
    let value1: u64 = 1;

    let mut index2 = [0u8; 32];
    index2[31] = 0x01;
    let value2: u64 = 42;

    tree.insert(index1, value1);
    tree.insert(index2, value2);
    let root = tree.root();

    let proof1 = tree.prove(&index1);
    let proof2 = tree.prove(&index2);

    assert!(SparseMerkleTree::verify_proof(&root, &index1, value1, &proof1));
    assert!(SparseMerkleTree::verify_proof(&root, &index2, value2, &proof2));
    assert!(!SparseMerkleTree::verify_proof(&root, &index1, 2, &proof1));

    let mut non_existent = [0u8; 32];
    non_existent[0] = 0xFF;
    let non_existent_proof = tree.prove(&non_existent);
    assert!(!SparseMerkleTree::verify_proof(
        &root,
        &non_existent,
        1,
        &non_existent_proof
    ));
}

/// A proof generated against a superseded root no longer verifies against
/// the new root once another insertion moved it.
#[test]
fn stale_proof_fails_against_new_root() {
    let mut tree = SparseMerkleTree::new();
    let mut a = [0u8; 32];
    a[31] = 1;
    tree.insert(a, 9);
    let stale_proof = tree.prove(&a);
    let stale_root = tree.root();

    let mut b = [0u8; 32];
    b[31] = 2;
    tree.insert(b, 10);
    let new_root = tree.root();

    assert!(SparseMerkleTree::verify_proof(&stale_root, &a, 9, &stale_proof));
    assert_ne!(stale_root, new_root);
    assert!(!SparseMerkleTree::verify_proof(&new_root, &a, 9, &stale_proof));
    let fresh_proof = tree.prove(&a);
    assert!(SparseMerkleTree::verify_proof(&new_root, &a, 9, &fresh_proof));
}
