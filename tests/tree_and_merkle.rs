use hypercore::merkle::Merkle;
use hypercore::node::Node;
use hypercore::{full_roots, leaf_to_node, Error};

#[test]
fn leaf_positions_are_even() {
    assert_eq!(leaf_to_node(0), 0);
    assert_eq!(leaf_to_node(3), 6);
}

#[test]
fn full_roots_of_small_trees() {
    assert_eq!(full_roots(0), Vec::<usize>::new());
    assert_eq!(full_roots(2), vec![0]);
    assert_eq!(full_roots(4), vec![1]);
    assert_eq!(full_roots(6), vec![1, 4]);
    assert_eq!(full_roots(10), vec![3, 8]);
    assert_eq!(full_roots(16), vec![7]);
    assert_eq!(full_roots(30), vec![7, 19, 25, 28]);
}

#[test]
fn accumulator_roots_match_full_roots() {
    let mut merkle = Merkle::new();
    for n in 1..40usize {
        let block = vec![n as u8; n];
        merkle.next(&block);
        let indices: Vec<usize> = merkle.roots().iter().map(|r| r.index()).collect();
        assert_eq!(indices, full_roots(2 * n));
        assert_eq!(merkle.blocks(), n);
    }
}

#[test]
fn accumulator_creates_leaf_then_parents() {
    let mut merkle = Merkle::new();
    let first = merkle.next(b"a");
    assert_eq!(first.len(), 1);
    assert_eq!(first[0].index(), 0);
    assert_eq!(first[0].len(), 1);
    assert_eq!(first[0].hash.len(), 32);

    let second = merkle.next(b"bb");
    assert_eq!(second.len(), 2);
    assert_eq!(second[0].index(), 2);
    assert_eq!(second[0].len(), 2);
    assert_eq!(second[1].index(), 1);
    assert_eq!(second[1].len(), 3);

    let third = merkle.next(b"ccc");
    assert_eq!(third.len(), 1);
    assert_eq!(third[0].index(), 4);

    let fourth = merkle.next(b"dddd");
    let indices: Vec<usize> = fourth.iter().map(|n| n.index()).collect();
    assert_eq!(indices, vec![6, 5, 3]);
    assert_eq!(fourth[2].len(), 10);
}

#[test]
fn digests_depend_on_content() {
    let mut a = Merkle::new();
    let mut b = Merkle::new();
    let leaf_a = a.next(b"a");
    let leaf_b = b.next(b"b");
    assert_ne!(leaf_a[0].hash, leaf_b[0].hash);
    assert_ne!(leaf_a[0].hash, b"a".to_vec());
    let mut c = Merkle::new();
    assert_eq!(c.next(b"a")[0].hash, leaf_a[0].hash);
}

#[test]
fn node_record_round_trip() {
    let node = Node::new(9, 0x0102_0304_0506, (0u8..32).collect());
    let record = node.to_vec();
    assert_eq!(record.len(), 40);
    assert_eq!(&record[..8], &[0, 0, 1, 2, 3, 4, 5, 6]);
    let back = Node::from_vec(9, &record).unwrap();
    assert_eq!(back.index(), 9);
    assert_eq!(back.len(), 0x0102_0304_0506);
    assert_eq!(back.hash, node.hash);
    assert!(!back.is_empty());
}

#[test]
fn node_record_of_wrong_size_is_refused() {
    assert!(matches!(Node::from_vec(0, &[0u8; 39]), Err(Error::Decode)));
    assert!(matches!(Node::from_vec(0, &[0u8; 41]), Err(Error::Decode)));
}

#[test]
fn node_duplicate_keeps_fields() {
    let node = Node::new(4, 7, vec![1, 2, 3]);
    let copy = node.duplicate();
    assert_eq!(copy.index, 4);
    assert_eq!(copy.length, 7);
    assert_eq!(copy.hash, vec![1, 2, 3]);
}

#[test]
fn digest_layout_of_leaves_and_parents() {
    let mut merkle = Merkle::new();
    let a = merkle.next(b"a");
    let b = merkle.next(b"bb");
    let digest = |bytes: &[u8]| blake2_rfc::blake2b::blake2b(32, &[], bytes).as_bytes().to_vec();
    assert_eq!(a[0].hash, digest(b"a"));
    assert_eq!(b[0].hash, digest(b"bb"));
    let mut input = a[0].hash.clone();
    input.extend_from_slice(&b[0].hash);
    input.extend_from_slice(&1u64.to_be_bytes());
    input.extend_from_slice(&2u64.to_be_bytes());
    assert_eq!(b[1].hash, digest(&input));
}
