use index_set::vec::VecIndexSet;
use index_set::IndexSet;

#[test]
fn vec_insert_yields_sorted_dedup() {
    let mut set: VecIndexSet<u64> = VecIndexSet::new();
    let mut indices = vec![1, 4, 6, 3, 1, 100, 123, 12, 3];

    for i in indices.iter().copied() {
        set.insert(i);
    }

    indices.sort_unstable();
    indices.dedup();

    let set_indices: Vec<usize> = set.iter();
    assert_eq!(indices, set_indices);

    // Bucket invariant, observably: never more entries than occupied
    // buckets below the maximum member.
    assert!(set.bucket_count() <= 123 / 64 + 1);
}

#[test]
fn vec_remove_scenario() {
    let mut set: VecIndexSet<u64> = VecIndexSet::new();
    let indices = [1, 4, 6, 3, 1, 100, 123, 12, 3];
    let remove = [100, 6, 100, 12, 123, 3];

    for i in indices.iter().copied() {
        set.insert(i);
    }
    for i in remove.iter().copied() {
        set.remove(i);
    }

    assert_eq!(set.iter(), vec![1, 4]);
    // Removing everything leaves an empty set with no buckets.
    set.remove(1);
    set.remove(4);
    assert!(set.is_empty());
    assert_eq!(set.bucket_count(), 0);
}

#[test]
fn vec_insert_is_idempotent() {
    let mut once: VecIndexSet<u64> = VecIndexSet::new();
    once.insert(77);
    let mut twice: VecIndexSet<u64> = VecIndexSet::new();
    twice.insert(77);
    twice.insert(77);
    assert_eq!(once, twice);
    assert_eq!(twice.len(), 1);

    // Removing an absent index is a no-op.
    let before = twice.clone();
    twice.remove(78);
    assert_eq!(before, twice);
}

#[test]
fn vec_len_and_is_empty() {
    let indices_1 = [1, 4, 6, 3];
    let indices_2 = [2, 100, 123, 12, 5];

    let mut set: VecIndexSet<u64> = VecIndexSet::new();

    assert!(set.is_empty());

    index_set::extend_from_indices(&mut set, &indices_1);
    assert!(!set.is_empty());
    assert_eq!(set.len(), indices_1.len());

    index_set::extend_from_indices(&mut set, &indices_2);
    assert!(!set.is_empty());
    assert_eq!(set.len(), indices_1.len() + indices_2.len());

    for item in indices_1.iter().copied() {
        set.remove(item);
    }
    assert!(!set.is_empty());
    assert_eq!(set.len(), indices_2.len());

    for item in indices_2.iter().copied() {
        set.remove(item);
    }
    assert!(set.is_empty());
    assert_eq!(set.len(), 0);
}

#[test]
fn vec_contains() {
    let indices = [1, 4, 6, 3, 2, 100, 123, 12, 5];
    let not_in_set = [50, 200, 150];

    let set: VecIndexSet<u64> = index_set::from_indices(&indices);

    for index in indices {
        assert!(set.contains(index));
    }
    for index in not_in_set {
        assert!(!set.contains(index));
    }
    // Every never-inserted index in a whole range is absent.
    for index in 0..256 {
        assert_eq!(set.contains(index), indices.contains(&index));
    }
}

#[test]
fn vec_union() {
    let indices_1 = [1, 4, 6, 3, 2];
    let indices_2 = [100, 123, 12, 5];

    let expected = {
        let mut set: VecIndexSet<u64> = VecIndexSet::new();
        for index in indices_1.iter().copied() {
            set.insert(index);
        }
        for index in indices_2.iter().copied() {
            set.insert(index);
        }
        set
    };

    let mut set: VecIndexSet<u64> = index_set::from_indices(&indices_1);
    let other: VecIndexSet<u64> = index_set::from_indices(&indices_2);

    set.union(&other);
    assert_eq!(set, expected);

    // The union equals the sorted deduplicated concatenation, and the
    // argument set is unchanged.
    let mut both: Vec<usize> = indices_1.iter().chain(indices_2.iter()).copied().collect();
    both.sort_unstable();
    both.dedup();
    assert_eq!(set.iter(), both);
    assert_eq!(other.iter(), {
        let mut v = indices_2.to_vec();
        v.sort_unstable();
        v
    });
}

#[test]
fn vec_with_capacity_and_reserve() {
    let mut set: VecIndexSet<u64> = VecIndexSet::with_capacity(16);
    assert!(set.is_empty());
    set.reserve(1000);
    set.insert(9);
    set.reserve(0);
    assert_eq!(set.iter(), vec![9]);
}

#[test]
fn vec_default_is_empty() {
    let set: VecIndexSet<u64> = Default::default();
    assert!(set.is_empty());
    assert_eq!(set.len(), 0);
}
