use index_set::btree::BTreeIndexSet;
use index_set::IndexSet;

#[test]
fn btree_insert_yields_sorted_dedup() {
    let mut set: BTreeIndexSet<u64> = BTreeIndexSet::new();
    let mut indices = vec![1, 4, 6, 3, 1, 100, 123, 12, 3];

    for i in indices.iter().copied() {
        set.insert(i);
    }

    indices.sort_unstable();
    indices.dedup();

    let set_indices: Vec<usize> = set.iter();
    assert_eq!(indices, set_indices);

    assert!(set.bucket_count() <= 123 / 64 + 1);
}

#[test]
fn btree_remove_scenario() {
    let mut set: BTreeIndexSet<u64> = BTreeIndexSet::new();
    let indices = [1, 4, 6, 3, 1, 100, 123, 12, 3];
    let remove = [100, 6, 100, 12, 123, 3];

    for i in indices.iter().copied() {
        set.insert(i);
    }
    for i in remove.iter().copied() {
        set.remove(i);
    }

    assert_eq!(set.iter(), vec![1, 4]);
    set.remove(1);
    set.remove(4);
    assert!(set.is_empty());
    assert_eq!(set.bucket_count(), 0);
}

#[test]
fn btree_insert_is_idempotent() {
    let mut once: BTreeIndexSet<u64> = BTreeIndexSet::new();
    once.insert(77);
    let mut twice: BTreeIndexSet<u64> = BTreeIndexSet::new();
    twice.insert(77);
    twice.insert(77);
    assert_eq!(once, twice);
    assert_eq!(twice.len(), 1);

    let before = twice.clone();
    twice.remove(78);
    assert_eq!(before, twice);
}

#[test]
fn btree_len_and_is_empty() {
    let indices_1 = [1, 4, 6, 3];
    let indices_2 = [2, 100, 123, 12, 5];

    let mut set: BTreeIndexSet<u64> = BTreeIndexSet::new();

    assert!(set.is_empty());

    index_set::extend_from_indices(&mut set, &indices_1);
    assert!(!set.is_empty());
    assert_eq!(set.len(), indices_1.len());

    index_set::extend_from_indices(&mut set, &indices_2);
    assert_eq!(set.len(), indices_1.len() + indices_2.len());

    for item in indices_1.iter().copied().chain(indices_2.iter().copied()) {
        set.remove(item);
    }
    assert!(set.is_empty());
    assert_eq!(set.len(), 0);
}

#[test]
fn btree_contains() {
    let indices = [1, 4, 6, 3, 2, 100, 123, 12, 5];
    let not_in_set = [50, 200, 150];

    let set: BTreeIndexSet<u64> = index_set::from_indices(&indices);

    for index in indices {
        assert!(set.contains(index));
    }
    for index in not_in_set {
        assert!(!set.contains(index));
    }
}

#[test]
fn btree_union() {
    let indices_1 = [1, 4, 6, 3, 2];
    let indices_2 = [100, 123, 12, 5];

    let expected = {
        let mut set: BTreeIndexSet<u64> = BTreeIndexSet::new();
        for index in indices_1.iter().copied() {
            set.insert(index);
        }
        for index in indices_2.iter().copied() {
            set.insert(index);
        }
        set
    };

    let mut set: BTreeIndexSet<u64> = index_set::from_indices(&indices_1);
    let other: BTreeIndexSet<u64> = index_set::from_indices(&indices_2);

    set.union(&other);
    assert_eq!(set, expected);

    let mut both: Vec<usize> = indices_1.iter().chain(indices_2.iter()).copied().collect();
    both.sort_unstable();
    both.dedup();
    assert_eq!(set.iter(), both);
    assert_eq!(other.iter(), {
        let mut v = indices_2.to_vec();
        v.sort_unstable();
        v
    });
}

#[test]
fn btree_with_capacity_is_a_stub() {
    // The capacity hint is advisory only; the set starts empty either way.
    let a: BTreeIndexSet<u64> = BTreeIndexSet::new();
    let b: BTreeIndexSet<u64> = BTreeIndexSet::with_capacity(1024);
    assert_eq!(a, b);
}

#[test]
fn btree_default_is_empty() {
    let set: BTreeIndexSet<u64> = Default::default();
    assert!(set.is_empty());
    assert_eq!(set.len(), 0);
}

#[test]
fn backends_agree() {
    // The two backends are observably identical under the shared
    // contract.
    let indices = [9, 0, 64, 63, 65, 128, 9, 1000, 4095, 4096];
    let remove = [64, 9, 4096, 5];

    let mut v: index_set::vec::VecIndexSet<u64> = index_set::from_indices(&indices);
    let mut b: BTreeIndexSet<u64> = index_set::from_indices(&indices);
    assert_eq!(v.iter(), b.iter());
    assert_eq!(v.len(), b.len());

    for r in remove {
        v.remove(r);
        b.remove(r);
    }
    assert_eq!(v.iter(), b.iter());
    for i in 0..5000 {
        assert_eq!(v.contains(i), b.contains(i));
    }
}
