use poseidon_merkle::constants::WIDTH;
use poseidon_merkle::mds::generate;
use poseidon_merkle::{
    BigMerkleTree, Error, MerkleCoord, MerkleTree, Poseidon, PoseidonParams, Scalar, MERKLE_ARITY,
};

fn params() -> PoseidonParams {
    let mut ark = vec![];
    for i in 0..960u64 {
        let constant = Scalar::from_u64(i * i + 7 * i + 11);
        ark.push(constant.mul(&constant));
    }
    PoseidonParams::new(ark, generate(WIDTH))
}

fn big_merkle_default() -> BigMerkleTree {
    // 2^34
    let width = 17179869184;
    BigMerkleTree::new(params(), width)
}

fn bounds(tree: &BigMerkleTree) -> Vec<(usize, usize)> {
    let mut all: Vec<(usize, usize)> =
        tree.empty_intervals().iter().map(|r| (r.start, r.end)).collect();
    all.sort();
    all
}

#[test]
fn big_merkle_empty() {
    let mut merkle = big_merkle_default();
    let idx = merkle.width() / 3;

    assert!(merkle.node_is_empty(0, 0));
    assert!(merkle.node_is_empty(merkle.height(), idx));

    merkle.inserted(idx).unwrap();

    assert!(!merkle.node_is_empty(0, 0));
    assert!(!merkle.node_is_empty(merkle.height(), idx));
    assert!(merkle.node_is_empty(merkle.height(), idx - 1));
    assert!(merkle.node_is_empty(merkle.height(), idx + 1));

    merkle.inserted(0).unwrap();
    assert!(!merkle.node_is_empty(merkle.height(), 0));
}

#[test]
fn big_proof_verify() {
    let p = params();
    let mut t = big_merkle_default();
    for i in 0..64 {
        t.insert(i, Scalar::from_u64(i as u64)).unwrap();
    }

    let root = t.root().unwrap();
    let i = 21;

    let proof = t.prove(i).unwrap();
    assert!(proof.verify(&p, &Scalar::from_u64(i as u64), &root));
}

#[test]
fn big_proof_verify_failure() {
    let p = params();
    let mut t = big_merkle_default();
    for i in 0..64 {
        t.insert(i, Scalar::from_u64(i as u64)).unwrap();
    }

    let root = t.root().unwrap();
    let i = 21;

    let proof = t.prove(i + 1).unwrap();
    assert!(!proof.verify(&p, &Scalar::from_u64(i as u64), &root));
}

#[test]
fn sparse_proof_of_the_wrong_leaf_fails() {
    let p = params();
    let mut t = big_merkle_default();
    for i in 0..64 {
        t.insert(i, Scalar::from_u64(i as u64)).unwrap();
    }
    let root = t.root().unwrap();
    let proof = t.prove(21).unwrap();
    assert_eq!(proof.data().len(), 17);
    assert!(proof.verify(&p, &Scalar::from_u64(21), &root));
    assert!(!proof.verify(&p, &Scalar::from_u64(22), &root));
}

#[test]
fn new_tree_is_one_empty_interval() {
    let t = big_merkle_default();
    assert_eq!(t.height(), 17);
    assert_eq!(t.width(), 17179869184);
    assert_eq!(t.arity(), MERKLE_ARITY);
    assert_eq!(t.max_idx(), 0);
    assert_eq!(bounds(&t), vec![(0, 17179869184)]);

    let single = BigMerkleTree::new(params(), 1);
    assert_eq!(single.height(), 0);
    assert_eq!(bounds(&single), vec![(0, 1)]);
}

#[test]
fn inserted_splits_the_interval() {
    let mut t = BigMerkleTree::new(params(), 64);

    t.inserted(20).unwrap();
    assert_eq!(bounds(&t), vec![(0, 20), (21, 64)]);
    assert_eq!(t.max_idx(), 20);

    // the first index of an interval leaves no piece before it
    t.inserted(0).unwrap();
    assert_eq!(bounds(&t), vec![(1, 20), (21, 64)]);

    // the last index of an interval leaves no piece behind it
    t.inserted(63).unwrap();
    assert_eq!(bounds(&t), vec![(1, 20), (21, 63)]);
    assert_eq!(t.max_idx(), 63);

    // an index that is not empty changes nothing
    t.inserted(20).unwrap();
    assert_eq!(bounds(&t), vec![(1, 20), (21, 63)]);

    // an interval of one index goes away
    t.inserted(22).unwrap();
    t.inserted(21).unwrap();
    assert_eq!(bounds(&t), vec![(1, 20), (23, 63)]);
    assert_eq!(t.max_idx(), 63);
}

#[test]
fn remove_merges_intervals() {
    let mut t = BigMerkleTree::new(params(), 64);
    t.insert(30, Scalar::from_u64(7)).unwrap();
    assert_eq!(bounds(&t), vec![(0, 30), (31, 64)]);

    t.remove(30).unwrap();
    assert_eq!(bounds(&t), vec![(0, 64)]);
    assert!(t.node_is_empty(0, 0));
    assert_eq!(t.node(3, 30).unwrap(), None);
}

#[test]
fn removed_extends_the_neighbour() {
    let mut t = BigMerkleTree::new(params(), 64);
    for i in [10usize, 11, 12] {
        t.inserted(i).unwrap();
    }
    assert_eq!(bounds(&t), vec![(0, 10), (13, 64)]);

    // only the interval before the index is next to it
    t.removed(10).unwrap();
    assert_eq!(bounds(&t), vec![(0, 11), (13, 64)]);

    // only the interval behind the index is next to it
    t.inserted(10).unwrap();
    t.removed(12).unwrap();
    assert_eq!(bounds(&t), vec![(0, 10), (12, 64)]);

    // no interval is next to the index
    t.inserted(12).unwrap();
    t.inserted(13).unwrap();
    t.inserted(9).unwrap();
    t.removed(11).unwrap();
    assert_eq!(bounds(&t), vec![(0, 9), (11, 12), (14, 64)]);

    // an index that is empty already changes nothing
    t.removed(11).unwrap();
    t.removed(3).unwrap();
    t.removed(63).unwrap();
    assert_eq!(bounds(&t), vec![(0, 9), (11, 12), (14, 64)]);

    // the ends of the base
    let mut ends = BigMerkleTree::new(params(), 16);
    ends.inserted(0).unwrap();
    ends.inserted(15).unwrap();
    assert_eq!(bounds(&ends), vec![(1, 15)]);
    ends.removed(15).unwrap();
    assert_eq!(bounds(&ends), vec![(1, 16)]);
    ends.removed(0).unwrap();
    assert_eq!(bounds(&ends), vec![(0, 16)]);
}

#[test]
fn index_beyond_the_width_is_refused() {
    let mut t = BigMerkleTree::new(params(), 64);
    assert!(matches!(t.insert(64, Scalar::one()), Err(Error::IndexOutOfBounds)));
    assert!(matches!(t.inserted(64), Err(Error::IndexOutOfBounds)));
    assert!(matches!(t.remove(usize::MAX), Err(Error::IndexOutOfBounds)));
    assert!(matches!(t.removed(100), Err(Error::IndexOutOfBounds)));
    assert!(matches!(t.prove(64), Err(Error::IndexOutOfBounds)));
    assert!(matches!(t.node(4, 0), Err(Error::IndexOutOfBounds)));
    assert!(matches!(t.node(0, 1), Err(Error::IndexOutOfBounds)));
    assert!(matches!(t.node(2, 16), Err(Error::IndexOutOfBounds)));
    assert!(t.node(2, 15).is_ok());
    assert_eq!(bounds(&t), vec![(0, 64)]);
    assert_eq!(t.max_idx(), 0);
}

#[test]
fn root_of_a_tree_of_one_leaf() {
    let mut t = BigMerkleTree::new(params(), 1);
    assert!(matches!(t.root(), Err(Error::Other(_))));

    t.insert(0, Scalar::from_u64(5)).unwrap();
    assert_eq!(t.root().unwrap(), Scalar::from_u64(5));
    assert!(t.prove(0).unwrap().data().is_empty());

    t.remove(0).unwrap();
    assert!(matches!(t.root(), Err(Error::Other(_))));
}

#[test]
fn nodes_of_a_small_sparse_tree() {
    let p = params();
    let mut t = BigMerkleTree::new(params(), 16);
    t.insert(5, Scalar::from_u64(50)).unwrap();
    t.insert(6, Scalar::from_u64(60)).unwrap();

    assert_eq!(t.node(2, 5).unwrap(), Some(Scalar::from_u64(50)));
    assert_eq!(t.node(2, 4).unwrap(), None);
    // a node over an empty range is zero
    assert_eq!(t.node(1, 0).unwrap(), Some(Scalar::zero()));
    assert_eq!(t.node(1, 3).unwrap(), Some(Scalar::zero()));

    let mut h = Poseidon::new();
    h.replace(&[None, Some(Scalar::from_u64(50)), Some(Scalar::from_u64(60)), None]).unwrap();
    let inner = h.hash(&p);
    assert_eq!(t.node(1, 1).unwrap(), Some(inner));

    h.replace(&[Some(Scalar::zero()), Some(inner), Some(Scalar::zero()), Some(Scalar::zero())])
        .unwrap();
    let root = h.hash(&p);
    assert_eq!(t.node(0, 0).unwrap(), Some(root));
    assert_eq!(t.root().unwrap(), root);
}

#[test]
fn memo_is_dropped_on_a_change() {
    let mut t = BigMerkleTree::new(params(), 256);
    let mut fresh = BigMerkleTree::new(params(), 256);
    for i in 0..40usize {
        t.insert(i * 5, Scalar::from_u64(i as u64)).unwrap();
    }
    let before = t.root().unwrap();

    t.insert(77, Scalar::from_u64(1234)).unwrap();
    let after = t.root().unwrap();
    assert_ne!(after, before);

    t.remove(77).unwrap();
    assert_eq!(t.root().unwrap(), before);

    t.insert(77, Scalar::from_u64(1234)).unwrap();
    for i in 0..40usize {
        fresh.insert(i * 5, Scalar::from_u64(i as u64)).unwrap();
    }
    fresh.insert(77, Scalar::from_u64(1234)).unwrap();
    assert_eq!(fresh.root().unwrap(), after);
    assert_eq!(t.root().unwrap(), after);
}

#[test]
fn sparse_root_does_not_depend_on_the_order() {
    let mut forward = BigMerkleTree::new(params(), 1024);
    let mut backward = BigMerkleTree::new(params(), 1024);
    for i in 0..30usize {
        forward.insert(31 * i, Scalar::from_u64(i as u64)).unwrap();
        backward.insert(31 * (29 - i), Scalar::from_u64((29 - i) as u64)).unwrap();
    }
    assert_eq!(bounds(&forward), bounds(&backward));
    assert_eq!(forward.root().unwrap().to_bytes(), backward.root().unwrap().to_bytes());
}

#[test]
fn every_inserted_leaf_is_proved() {
    let p = params();
    let mut t = BigMerkleTree::new(params(), 1024);
    let at = [0usize, 1, 17, 300, 301, 1023];
    for i in at {
        t.insert(i, Scalar::from_u64(1000 + i as u64)).unwrap();
    }
    let root = t.root().unwrap();
    for i in at {
        let proof = t.prove(i).unwrap();
        assert_eq!(proof.data().len(), 5);
        assert!(proof.verify(&p, &Scalar::from_u64(1000 + i as u64), &root));
        assert!(!proof.verify(&p, &Scalar::from_u64(999), &root));
        assert_eq!(proof.root(&p), root);
    }
    assert!(!t.prove(17).unwrap().verify(&p, &Scalar::from_u64(1300), &root));
}

#[test]
fn full_sparse_tree_has_the_root_of_the_small_tree() {
    let mut small = MerkleTree::new(params());
    let mut big = BigMerkleTree::new(params(), 64);
    for i in 0..64usize {
        small.insert_unchecked(i, Scalar::from_u64(3 * i as u64));
        big.insert(i, Scalar::from_u64(3 * i as u64)).unwrap();
    }
    assert_eq!(big.root().unwrap(), small.root());
    assert!(big.prove(9).unwrap() == small.proof_index(9));
    assert!(big.empty_intervals().is_empty());
}

#[test]
fn segments_go_up_by_the_stride() {
    let mut t = BigMerkleTree::new(params(), 1024);
    assert_eq!(
        t.segments(),
        vec![MerkleCoord::new(3, 0), MerkleCoord::new(1, 0), MerkleCoord::new(0, 0)]
    );

    t.inserted(100).unwrap();
    let mut expected = vec![];
    for i in 0..7 {
        expected.push(MerkleCoord::new(3, i));
    }
    expected.push(MerkleCoord::new(1, 0));
    expected.push(MerkleCoord::new(0, 0));
    assert_eq!(t.segments(), expected);

    let flat = BigMerkleTree::new(params(), 1);
    assert!(flat.segments().is_empty());
}
