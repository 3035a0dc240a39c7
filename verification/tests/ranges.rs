use std::cmp::Ordering;

use poseidon_merkle::big_merkle::power::{arity_power, height_of_width};
use poseidon_merkle::{Error, MerkleCoord, MerkleRange};

#[test]
fn big_merkle_range_eq() {
    let r1 = MerkleRange::new(3, 0, 0);
    let r2 = MerkleRange::new(3, 3, 15);

    assert!(r1 == r2);
    assert!(r2 != r1)
}

#[test]
fn range_bounds_are_exact() {
    let whole = MerkleRange::new(3, 0, 0);
    assert_eq!((whole.start, whole.end), (0, 64));

    let leaf = MerkleRange::new(3, 3, 15);
    assert_eq!((leaf.start, leaf.end), (15, 16));

    let inner = MerkleRange::new(3, 1, 2);
    assert_eq!((inner.start, inner.end), (32, 48));

    let deep = MerkleRange::new(17, 15, 5);
    assert_eq!((deep.start, deep.end), (80, 96));
}

#[test]
fn range_contains_is_not_symmetric() {
    let outer = MerkleRange::from_bounds(4, 12);
    let inner = MerkleRange::from_bounds(6, 8);
    let overlapping = MerkleRange::from_bounds(10, 14);

    assert!(outer.contains(&inner));
    assert!(!inner.contains(&outer));
    assert!(outer.contains(&outer));
    assert!(!outer.contains(&overlapping));
}

#[test]
fn ranges_are_ordered_by_their_start() {
    let wide = MerkleRange::from_bounds(4, 12);
    let narrow = MerkleRange::from_bounds(4, 5);
    let later = MerkleRange::from_bounds(6, 8);

    assert!(wide < later);
    assert!(later > narrow);
    assert!(!(later < wide));
    assert_eq!(wide.partial_cmp(&narrow), Some(Ordering::Equal));
    assert_eq!(wide.partial_cmp(&later), Some(Ordering::Less));
    assert_eq!(later.partial_cmp(&wide), Some(Ordering::Greater));
}

#[test]
fn arity_powers_and_heights() {
    assert_eq!(arity_power(0), 1);
    assert_eq!(arity_power(3), 64);
    assert_eq!(arity_power(17), 17179869184);

    assert_eq!(height_of_width(1), Some(0));
    assert_eq!(height_of_width(64), Some(3));
    assert_eq!(height_of_width(17179869184), Some(17));
    assert_eq!(height_of_width(0), None);
    assert_eq!(height_of_width(2), None);
    assert_eq!(height_of_width(48), None);
    assert_eq!(height_of_width(128), None);
}

#[test]
fn coord_descend_goes_to_the_ancestor() {
    let mut coord = MerkleCoord::new(17, 1000);
    coord.descend(2);
    assert_eq!(coord, MerkleCoord::new(15, 62));

    coord.descend(1);
    assert_eq!(coord, MerkleCoord::new(14, 15));

    let mut near_root = MerkleCoord::new(1, 3);
    near_root.descend(2);
    assert_eq!(near_root, MerkleCoord::new(0, 0));

    near_root.descend(1);
    assert_eq!(near_root, MerkleCoord::new(0, 0));
}

#[test]
fn coord_key_round_trip() {
    let coord = MerkleCoord::new(3, 258);
    let key = coord.to_bytes();
    assert_eq!(key, vec![3, 0, 0, 0, 0, 0, 0, 0, 2, 1, 0, 0, 0, 0, 0, 0]);

    let back = MerkleCoord::from_bytes(key.as_slice()).unwrap();
    assert_eq!(back, coord);

    let other = MerkleCoord::new(258, 3).to_bytes();
    assert_ne!(other, key);
}

#[test]
fn coord_key_of_wrong_length_is_refused() {
    let short = [0u8; 15];
    assert!(matches!(MerkleCoord::from_bytes(&short), Err(Error::Other(_))));

    let long = [0u8; 17];
    assert!(matches!(MerkleCoord::from_bytes(&long), Err(Error::Other(_))));

    let empty: [u8; 0] = [];
    assert!(matches!(MerkleCoord::from_bytes(&empty), Err(Error::Other(_))));
}

#[test]
fn error_messages() {
    assert_eq!(
        Error::FullBuffer.message(),
        "The size of the buffer cannot be greater than the arity of the merkle tree."
    );
    assert_eq!(Error::IndexOutOfBounds.message(), "The referenced index is out of bounds.");
    assert_eq!(Error::LeafNotFound.message(), "The requested leaf is not present in the tree.");
    assert_eq!(Error::Other("disk".to_owned()).message(), "disk");
}
