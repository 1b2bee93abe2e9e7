use std::collections::BTreeSet;

use index_set::btree::BTreeIndexSet;
use index_set::vec::VecIndexSet;
use index_set::IndexSet;

fn exercise<T: IndexSet>(width: usize) {
    // Indices straddling the first few bucket boundaries for this word
    // width.
    let indices = [
        0,
        1,
        width - 1,
        width,
        width + 1,
        3 * width,
        3 * width + width / 2,
        10 * width + 7,
    ];
    let mut set = T::with_capacity(4);
    for i in indices.iter().copied() {
        set.insert(i);
    }

    let mut expected = indices.to_vec();
    expected.sort_unstable();
    expected.dedup();
    assert_eq!(set.iter(), expected);
    assert_eq!(set.len(), expected.len());

    for i in indices.iter().copied() {
        assert!(set.contains(i));
    }
    assert!(!set.contains(2 * width + 1));

    set.remove(width);
    assert!(!set.contains(width));
    assert!(set.contains(width - 1));
    assert!(set.contains(width + 1));
}

#[test]
fn vec_backend_all_widths() {
    exercise::<VecIndexSet<u8>>(8);
    exercise::<VecIndexSet<u16>>(16);
    exercise::<VecIndexSet<u32>>(32);
    exercise::<VecIndexSet<u64>>(64);
    exercise::<VecIndexSet<u128>>(128);
}

#[test]
fn btree_backend_all_widths() {
    exercise::<BTreeIndexSet<u8>>(8);
    exercise::<BTreeIndexSet<u16>>(16);
    exercise::<BTreeIndexSet<u32>>(32);
    exercise::<BTreeIndexSet<u64>>(64);
    exercise::<BTreeIndexSet<u128>>(128);
}

#[test]
fn from_indices_matches_btree_set() {
    let indices = [1, 4, 6, 3, 1, 100, 123, 12, 3];

    let got: VecIndexSet<u64> = index_set::from_indices(&indices);
    let expected: BTreeSet<usize> = indices.iter().copied().collect();

    assert_eq!(expected, index_set::to_btree_set(&got));

    let got: BTreeIndexSet<u64> = index_set::from_indices(&indices);
    assert_eq!(expected, index_set::to_btree_set(&got));
}

#[test]
fn extend_accumulates() {
    let mut set: VecIndexSet<u32> = VecIndexSet::new();
    index_set::extend_from_indices(&mut set, &[5, 1]);
    index_set::extend_from_indices(&mut set, &[5, 9, 70]);
    assert_eq!(set.iter(), vec![1, 5, 9, 70]);
}

#[test]
fn large_indices_round_trip() {
    let indices = [usize::MAX, usize::MAX - 1, 0, usize::MAX - 64];
    let mut set: VecIndexSet<u64> = index_set::from_indices(&indices);
    let mut expected = indices.to_vec();
    expected.sort_unstable();
    assert_eq!(set.iter(), expected);
    set.remove(usize::MAX);
    assert!(!set.contains(usize::MAX));
    assert!(set.contains(usize::MAX - 1));
}

#[test]
fn removal_is_order_independent() {
    let indices = [1, 4, 6, 3, 1, 100, 123, 12, 3];
    let remove_a = [100, 6, 100, 12, 123, 3];
    let remove_b = [3, 123, 12, 100, 6, 100];

    let mut a: VecIndexSet<u64> = index_set::from_indices(&indices);
    let mut b: VecIndexSet<u64> = index_set::from_indices(&indices);
    for r in remove_a {
        a.remove(r);
    }
    for r in remove_b {
        b.remove(r);
    }
    assert_eq!(a, b);
    assert_eq!(a.iter(), vec![1, 4]);
}
