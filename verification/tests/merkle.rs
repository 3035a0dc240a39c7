use poseidon_merkle::constants::WIDTH;
use poseidon_merkle::mds::generate;
use poseidon_merkle::{
    BigProof, BigProofItem, Error, MerkleTree, Poseidon, PoseidonParams, Scalar, MERKLE_ARITY,
    MERKLE_HEIGHT, MERKLE_WIDTH,
};

fn params() -> PoseidonParams {
    let mut ark = vec![];
    for i in 0..960u64 {
        let constant = Scalar::from_u64(i * i + 7 * i + 11);
        ark.push(constant.mul(&constant));
    }
    PoseidonParams::new(ark, generate(WIDTH))
}

#[test]
fn merkle() {
    let mut t = MerkleTree::new(params());
    t.insert_unchecked(0, Scalar::one());
    let root = t.root();
    assert_ne!(Scalar::zero(), root)
}

#[test]
fn absent_leaf_counts_as_zero() {
    let mut t = MerkleTree::new(params());
    t.insert_unchecked(0, Scalar::one());
    let root = t.root();

    let mut t = MerkleTree::new(params());
    t.insert_unchecked(0, Scalar::one());
    t.insert_unchecked(1, Scalar::zero());
    assert_eq!(t.root(), root);

    let mut t = MerkleTree::new(params());
    t.insert_unchecked(0, Scalar::one());
    t.insert_unchecked(1, Scalar::one());
    assert_ne!(t.root(), root);
}

#[test]
fn merkle_det() {
    let mut v = vec![];
    for i in 0..MERKLE_ARITY {
        v.push(Scalar::from_u64(i as u64));
    }

    let mut t = MerkleTree::new(params());
    v.iter()
        .enumerate()
        .for_each(|(i, s)| t.insert_unchecked(i, *s));
    let root = t.root();

    let mut t = MerkleTree::new(params());
    v.iter()
        .enumerate()
        .for_each(|(i, s)| t.insert_unchecked(i, *s));

    assert_eq!(t.root(), root)
}

#[test]
fn merkle_sanity_proof() {
    let p = params();
    let base = Scalar::one();
    let mut t = MerkleTree::new(params());
    t.insert_unchecked(0, base);

    let root = t.root();

    let mut h = Poseidon::default();
    h.push(base).unwrap();
    let mut main_path = h.hash(&p);

    h.reset();
    let mut round_void = h.hash(&p);
    let mut void: Vec<Option<Scalar>> = std::iter::repeat(Some(round_void))
        .take(MERKLE_ARITY)
        .collect();

    for _ in 0..MERKLE_HEIGHT - 1 {
        h.replace(void.as_slice()).unwrap();
        round_void = h.hash(&p);

        void[0] = Some(main_path);
        h.replace(void.as_slice()).unwrap();
        main_path = h.hash(&p);

        void = std::iter::repeat(Some(round_void))
            .take(MERKLE_ARITY)
            .collect();
    }

    assert_eq!(root, main_path);
}

#[test]
fn single_leaf_membership() {
    let p = params();
    let mut t = MerkleTree::new(params());
    t.insert_unchecked(0, Scalar::one());
    let root = t.root();

    let rows = t.prove(&Scalar::one()).unwrap();
    assert_eq!(rows.data().len(), MERKLE_HEIGHT);
    assert!(rows.verify(&p, &Scalar::one(), &root));
    assert!(!rows.verify(&p, &Scalar::from_u64(2), &root));
    assert!(!rows.verify(&p, &Scalar::one(), &Scalar::one()));
    assert_eq!(rows.root(&p), root);
}

#[test]
fn every_leaf_of_a_tree_with_gaps_is_proved() {
    let p = params();
    let mut t = MerkleTree::new(params());
    for i in [1usize, 2, 7, 21, 40, 63] {
        t.insert_unchecked(i, Scalar::from_u64(100 + i as u64));
    }
    let root = t.root();

    for i in [1usize, 2, 7, 21, 40, 63] {
        let leaf = Scalar::from_u64(100 + i as u64);
        let by_leaf = t.prove(&leaf).unwrap();
        let by_index = t.proof_index(i);
        assert!(by_leaf == by_index);
        assert!(by_leaf.verify(&p, &leaf, &root));
        assert!(!by_leaf.verify(&p, &Scalar::from_u64(99), &root));
        assert_eq!(*by_leaf.data()[0].idx(), i % MERKLE_ARITY);
        assert_eq!(*by_leaf.data()[1].idx(), (i / 4) % MERKLE_ARITY);
        assert_eq!(*by_leaf.data()[2].idx(), i / 16);
        assert_eq!(by_leaf.data()[0].leaves()[i % 4], Some(leaf));
    }

    // the proof of one index does not prove the leaf of another
    let other = t.proof_index(2);
    assert!(!other.verify(&p, &Scalar::from_u64(101), &root));
}

#[test]
fn proof_takes_the_first_index_of_a_leaf() {
    let mut t = MerkleTree::new(params());
    t.insert_unchecked(9, Scalar::from_u64(5));
    t.insert_unchecked(4, Scalar::from_u64(5));
    t.insert_unchecked(30, Scalar::from_u64(5));

    assert_eq!(t.index_of(&Scalar::from_u64(5)), Some(4));
    let rows = t.prove(&Scalar::from_u64(5)).unwrap();
    assert!(rows == t.proof_index(4));
    assert!(rows != t.proof_index(9));
}

#[test]
fn proof_of_an_absent_leaf_is_refused() {
    let mut t = MerkleTree::new(params());
    assert!(matches!(t.prove(&Scalar::zero()), Err(Error::LeafNotFound)));

    t.insert_unchecked(3, Scalar::from_u64(5));
    assert!(matches!(t.prove(&Scalar::from_u64(6)), Err(Error::LeafNotFound)));
    assert!(t.prove(&Scalar::from_u64(5)).is_ok());

    t.remove_unchecked(3);
    assert!(matches!(t.prove(&Scalar::from_u64(5)), Err(Error::LeafNotFound)));
}

#[test]
fn root_follows_the_leaves() {
    let mut t = MerkleTree::new(params());
    let empty = t.root();

    t.insert_unchecked(10, Scalar::from_u64(3));
    let with_leaf = t.root();
    assert_ne!(with_leaf, empty);
    assert_eq!(t.root(), with_leaf);
    assert_eq!(t.leaves()[10], Some(Scalar::from_u64(3)));
    assert_eq!(t.leaves().len(), MERKLE_WIDTH);

    assert_eq!(t.remove_unchecked(10), Some(Scalar::from_u64(3)));
    assert_eq!(t.remove_unchecked(10), None);
    assert_eq!(t.leaves()[10], None);
    assert_eq!(t.root(), empty);
}

#[test]
fn root_does_not_depend_on_the_order_of_the_inserts() {
    let mut forward = MerkleTree::new(params());
    let mut backward = MerkleTree::new(params());
    for i in 0..20usize {
        forward.insert_unchecked(3 * i, Scalar::from_u64(i as u64));
        backward.insert_unchecked(3 * (19 - i), Scalar::from_u64((19 - i) as u64));
    }
    assert_eq!(forward.root().to_bytes(), backward.root().to_bytes());
}

#[test]
fn proof_root_starts_from_the_leaf_of_the_first_row() {
    let p = params();
    let mut t = MerkleTree::new(params());
    t.insert_unchecked(6, Scalar::from_u64(8));
    let root = t.root();
    assert_eq!(t.proof_index(6).root(&p), root);

    // an absent leaf on the path counts as zero
    let rows = t.proof_index(5);
    let expected = rows.climb_from(&p, Scalar::zero());
    assert_eq!(rows.root(&p), expected);
}

#[test]
fn proofs_are_compared_by_their_rows() {
    let row = [Some(Scalar::one()), None, None, Some(Scalar::zero())];
    let a = BigProof::new(vec![BigProofItem::new(1, row), BigProofItem::new(0, row)]);
    let b = BigProof::new(vec![BigProofItem::new(1, row), BigProofItem::new(0, row)]);
    let shorter = BigProof::new(vec![BigProofItem::new(1, row)]);
    let other_idx = BigProof::new(vec![BigProofItem::new(1, row), BigProofItem::new(2, row)]);
    let absent = [Some(Scalar::one()), None, None, None];
    let other_row = BigProof::new(vec![BigProofItem::new(1, row), BigProofItem::new(0, absent)]);

    assert!(a == b);
    assert!(a != shorter);
    assert!(a != other_idx);
    assert!(a != other_row);
    assert!(BigProof::default() == BigProof::new(vec![]));
    assert!(BigProofItem::new(1, row).same_as(&BigProofItem::new(1, row)));
    assert!(!BigProofItem::new(1, row).same_as(&BigProofItem::new(1, absent)));
}

#[test]
fn proof_bytes_tell_an_absent_leaf_from_a_zero() {
    let row = [Some(Scalar::from_u64(258)), None, Some(Scalar::zero()), None];
    let rows = BigProof::new(vec![BigProofItem::new(2, row)]);

    let mut expected: Vec<u8> = vec![1, 0, 0, 0, 0, 0, 0, 0];
    expected.extend_from_slice(&[2, 0, 0, 0, 0, 0, 0, 0]);
    expected.push(1);
    expected.extend_from_slice(&[2, 1]);
    expected.extend_from_slice(&[0u8; 30]);
    expected.push(0);
    expected.push(1);
    expected.extend_from_slice(&[0u8; 32]);
    expected.push(0);
    assert_eq!(rows.to_bytes(), expected);

    assert_eq!(BigProof::default().to_bytes(), vec![0u8; 8]);

    let mut t = MerkleTree::new(params());
    t.insert_unchecked(0, Scalar::one());
    let bytes = t.proof_index(0).to_bytes();
    assert_eq!(bytes.len(), 8 + (8 + 33 + 3) + 2 * (8 + 4 * 33));
    assert_eq!(bytes[..8], [3, 0, 0, 0, 0, 0, 0, 0]);
}
