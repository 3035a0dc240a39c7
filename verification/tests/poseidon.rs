use curve25519_dalek::scalar::Scalar as Reference;
use poseidon_merkle::constants::{FULL_ROUNDS, PARTIAL_ROUNDS, WIDTH};
use poseidon_merkle::mds::generate;
use poseidon_merkle::{
    Error, Poseidon, PoseidonParams, Scalar, MERKLE_ARITY, MERKLE_HEIGHT, MERKLE_WIDTH,
};

fn ark_blob() -> Vec<u8> {
    let mut blob = vec![];
    for i in 0..960u64 {
        let constant = Scalar::from_u64(i * i + 7 * i + 11);
        blob.extend_from_slice(&constant.mul(&constant).to_bytes());
    }
    blob
}

fn mds_blob() -> Vec<u8> {
    let mut blob = vec![];
    for row in generate(WIDTH) {
        for entry in row {
            blob.extend_from_slice(&entry.to_bytes());
        }
    }
    blob
}

fn params() -> PoseidonParams {
    PoseidonParams::from_bytes(ark_blob().as_slice(), mds_blob().as_slice())
}

fn reference_element(blob: &[u8], k: usize) -> Reference {
    let mut bytes = [0u8; 32];
    bytes.copy_from_slice(&blob[32 * k..32 * k + 32]);
    Reference::from_bytes_mod_order(bytes)
}

// The permutation, written directly over the field of the reference library.
fn reference_digest(leaves: [Option<u64>; MERKLE_ARITY]) -> [u8; 32] {
    let ark = ark_blob();
    let mds = mds_blob();
    let mut state = [Reference::ZERO; WIDTH];
    for (i, leaf) in leaves.iter().enumerate() {
        if let Some(x) = leaf {
            state[i + 1] = Reference::from(*x);
        }
    }
    for round in 0..FULL_ROUNDS + PARTIAL_ROUNDS {
        for i in 0..WIDTH {
            state[i] += reference_element(&ark, round * WIDTH + i);
        }
        let full = round < FULL_ROUNDS / 2 || round >= FULL_ROUNDS / 2 + PARTIAL_ROUNDS;
        for i in 0..WIDTH {
            if full || i == 0 {
                let x = state[i];
                state[i] = x * x * x * x * x;
            }
        }
        let mut mixed = [Reference::ZERO; WIDTH];
        for i in 0..WIDTH {
            for j in 0..WIDTH {
                mixed[i] += reference_element(&mds, i * WIDTH + j) * state[j];
            }
        }
        state = mixed;
    }
    state[1].to_bytes()
}

#[test]
fn constants_consistency() {
    // Grant we have enough constants for the sbox rounds
    assert!(WIDTH * (FULL_ROUNDS + PARTIAL_ROUNDS) <= params().ark_len());

    // Sanity check for the arity
    assert!(MERKLE_ARITY > 1);

    // Sanity check for the height
    assert!(MERKLE_HEIGHT > 1);

    // Enforce a relation between the provided MDS matrix and the arity of the merkle tree
    assert_eq!(WIDTH, MERKLE_ARITY + 1);

    // Enforce at least one level for the merkle tree
    assert!(MERKLE_WIDTH > MERKLE_ARITY);

    // Grant the defined arity is consistent with the defined width
    assert_eq!(
        MERKLE_ARITY.pow(std::cmp::max(2, MERKLE_HEIGHT as u32)),
        MERKLE_WIDTH
    );
}

#[test]
fn params_hold_every_constant_of_the_blob() {
    assert_eq!(params().ark_len(), 960);

    let short = &ark_blob()[..32 * 335 + 31];
    let p = PoseidonParams::from_bytes(short, mds_blob().as_slice());
    assert_eq!(p.ark_len(), 335);
}

#[test]
fn blobs_of_the_wrong_length_are_refused() {
    let ark = ark_blob();
    let mds = mds_blob();
    assert!(PoseidonParams::load(ark.as_slice(), mds.as_slice()).is_some());
    assert!(PoseidonParams::load(&ark[..32 * 335], mds.as_slice()).is_some());
    assert!(PoseidonParams::load(&ark[..32 * 335 - 1], mds.as_slice()).is_none());
    assert!(PoseidonParams::load(ark.as_slice(), &mds[..799]).is_none());
    assert!(PoseidonParams::load(ark.as_slice(), &ark[..801]).is_none());
    assert!(PoseidonParams::load(&[], &[]).is_none());

    let p = params();
    let loaded = PoseidonParams::load(ark.as_slice(), mds.as_slice()).unwrap();
    let mut a = Poseidon::new();
    let mut b = Poseidon::new();
    a.push(Scalar::from_u64(12)).unwrap();
    b.push(Scalar::from_u64(12)).unwrap();
    assert_eq!(a.hash(&p), b.hash(&loaded));
}

#[test]
fn hash_matches_the_permutation() {
    let p = params();

    let mut h = Poseidon::new();
    h.push(Scalar::from_u64(1)).unwrap();
    assert_eq!(h.hash(&p).to_bytes(), reference_digest([Some(1), None, None, None]));

    let mut h = Poseidon::new();
    for x in [5u64, 6, 7, 8] {
        h.push(Scalar::from_u64(x)).unwrap();
    }
    assert_eq!(h.hash(&p).to_bytes(), reference_digest([Some(5), Some(6), Some(7), Some(8)]));

    let mut h = Poseidon::new();
    assert_eq!(h.hash(&p).to_bytes(), reference_digest([None, None, None, None]));
}

#[test]
fn hash_depends_on_the_position() {
    let p = params();

    let mut first = Poseidon::new();
    first.insert_unchecked(0, Scalar::from_u64(9));
    let mut second = Poseidon::new();
    second.insert_unchecked(1, Scalar::from_u64(9));

    let a = first.hash(&p);
    let b = second.hash(&p);
    assert_ne!(a, b);
    assert_eq!(a.to_bytes(), reference_digest([Some(9), None, None, None]));
    assert_eq!(b.to_bytes(), reference_digest([None, Some(9), None, None]));
}

#[test]
fn hash_keeps_the_permuted_state() {
    let p = params();
    let mut h = Poseidon::new();
    h.push(Scalar::from_u64(3)).unwrap();
    let once = h.hash(&p);
    let twice = h.hash(&p);
    assert_ne!(once, twice);

    h.reset();
    h.push(Scalar::from_u64(3)).unwrap();
    assert_eq!(h.hash(&p), once);
}

#[test]
fn push_fails_on_a_full_sponge() {
    let mut h = Poseidon::new();
    for i in 0..MERKLE_ARITY {
        assert!(h.push(Scalar::from_u64(i as u64)).is_ok());
    }
    assert!(matches!(h.push(Scalar::one()), Err(Error::FullBuffer)));
    assert!(matches!(h.push(Scalar::one()), Err(Error::FullBuffer)));

    h.reset();
    assert!(h.push(Scalar::one()).is_ok());
}

#[test]
fn reset_gives_a_fresh_sponge() {
    let p = params();
    let fresh = Poseidon::new().hash(&p);

    let mut h = Poseidon::default();
    h.push(Scalar::from_u64(4)).unwrap();
    h.insert_unchecked(3, Scalar::from_u64(5));
    h.hash(&p);
    h.replace(&[Some(Scalar::one()), None]).unwrap();
    h.reset();

    assert_eq!(h.hash(&p), fresh);
}

#[test]
fn replace_loads_each_leaf_at_its_position() {
    let p = params();

    let mut h = Poseidon::new();
    h.push(Scalar::from_u64(77)).unwrap();
    h.replace(&[None, Some(Scalar::from_u64(2)), None, Some(Scalar::from_u64(4))]).unwrap();
    assert_eq!(h.hash(&p).to_bytes(), reference_digest([None, Some(2), None, Some(4)]));

    // the cursor stands behind the last leaf that is present
    let mut h = Poseidon::new();
    h.replace(&[None, Some(Scalar::from_u64(2))]).unwrap();
    h.push(Scalar::from_u64(3)).unwrap();
    assert_eq!(h.hash(&p).to_bytes(), reference_digest([None, Some(2), Some(3), None]));

    // an absent leaf counts as zero
    let mut h = Poseidon::new();
    h.replace(&[Some(Scalar::zero()), Some(Scalar::from_u64(2))]).unwrap();
    assert_eq!(h.hash(&p).to_bytes(), reference_digest([None, Some(2), None, None]));
}

#[test]
fn replace_refuses_more_leaves_than_the_arity() {
    let p = params();
    let fresh = Poseidon::new().hash(&p);

    let five = [Some(Scalar::one()); 5];
    let mut h = Poseidon::new();
    h.push(Scalar::from_u64(4)).unwrap();
    assert!(matches!(h.replace(&five), Err(Error::FullBuffer)));
    assert_eq!(h.hash(&p), fresh);

    let padded = [Some(Scalar::one()), None, None, None, None, None];
    let mut h = Poseidon::new();
    assert!(h.replace(&padded).is_ok());
    assert_eq!(h.hash(&p).to_bytes(), reference_digest([Some(1), None, None, None]));
}

#[test]
fn insert_unchecked_overwrites() {
    let p = params();
    let mut h = Poseidon::new();
    h.replace(&[Some(Scalar::from_u64(1)), Some(Scalar::from_u64(2))]).unwrap();
    h.insert_unchecked(0, Scalar::from_u64(8));
    // the cursor did not move back
    h.push(Scalar::from_u64(3)).unwrap();
    assert_eq!(h.hash(&p).to_bytes(), reference_digest([Some(8), Some(2), Some(3), None]));
}
