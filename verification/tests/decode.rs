use index_set::vec::DecodeError;
use index_set::vec::VecIndexSet;
use index_set::IndexSet;

#[test]
fn decode_sorted_pairs_succeeds() {
    let pairs: Vec<(usize, u64)> = vec![(0, 1), (1, 1), (2, 1), (3, 1)];
    let set = match VecIndexSet::try_from_pairs(pairs) {
        Ok(set) => set,
        Err(_) => panic!("sorted input must decode"),
    };
    // Bit 0 of buckets 0..=3: indices 0, 64, 128, 192.
    assert_eq!(set.iter(), vec![0, 64, 128, 192]);
}

#[test]
fn decode_unsorted_pairs_fails() {
    let pairs: Vec<(usize, u64)> = vec![(0, 1), (1, 1), (3, 1), (2, 1)];
    assert_eq!(
        VecIndexSet::<u64>::try_from_pairs(pairs),
        Err(DecodeError::Malformed)
    );
}

#[test]
fn decode_duplicate_bucket_fails() {
    let pairs: Vec<(usize, u64)> = vec![(2, 1), (2, 2)];
    assert_eq!(
        VecIndexSet::<u64>::try_from_pairs(pairs),
        Err(DecodeError::Malformed)
    );
}

#[test]
fn decode_all_clear_word_fails() {
    let pairs: Vec<(usize, u64)> = vec![(0, 1), (1, 0)];
    assert_eq!(
        VecIndexSet::<u64>::try_from_pairs(pairs),
        Err(DecodeError::Malformed)
    );
}

#[test]
fn decode_unrepresentable_bucket_fails() {
    let pairs: Vec<(usize, u64)> = vec![(usize::MAX, 1)];
    assert_eq!(
        VecIndexSet::<u64>::try_from_pairs(pairs),
        Err(DecodeError::Malformed)
    );
}

#[test]
fn borsh_decode_sorted_bytes() {
    // A length-prefixed tuple array encodes the same bytes as a
    // `Vec` of four (bucket, word) pairs would.
    let valid = (4u32, [(0u64, 1u64), (1, 1), (2, 1), (3, 1)]);
    let bytes = borsh::to_vec(&valid).unwrap();

    let set = match VecIndexSet::try_from_bytes(&bytes) {
        Ok(set) => set,
        Err(_) => panic!("sorted input must decode"),
    };
    assert_eq!(set.iter(), vec![0, 64, 128, 192]);
    assert!(set.contains(64));
    assert!(!set.contains(1));
}

#[test]
fn borsh_decode_unsorted_bytes_fails() {
    let invalid = (4u32, [(0u64, 1u64), (1, 1), (3, 1), (2, 1)]);
    let bytes = borsh::to_vec(&invalid).unwrap();

    assert_eq!(
        VecIndexSet::try_from_bytes(&bytes),
        Err(DecodeError::Malformed)
    );
}

#[test]
fn borsh_decode_rejects_truncated_and_trailing_bytes() {
    let valid = (2u32, [(0u64, 1u64), (1, 1)]);
    let bytes = borsh::to_vec(&valid).unwrap();

    assert!(VecIndexSet::try_from_bytes(&bytes).is_ok());
    assert_eq!(
        VecIndexSet::try_from_bytes(&bytes[..bytes.len() - 1]),
        Err(DecodeError::Malformed)
    );
    let mut trailing = bytes.clone();
    trailing.push(0);
    assert_eq!(
        VecIndexSet::try_from_bytes(&trailing),
        Err(DecodeError::Malformed)
    );
}

#[test]
fn borsh_decode_round_trips_members() {
    // Bucket 1 with bits 0 and 5, bucket 7 with bit 63.
    let valid = (2u32, [(1u64, 0b100001u64), (7, 1u64 << 63)]);
    let bytes = borsh::to_vec(&valid).unwrap();

    let set = VecIndexSet::try_from_bytes(&bytes).unwrap_or_else(|_| panic!("must decode"));
    assert_eq!(set.iter(), vec![64, 69, 7 * 64 + 63]);
}
