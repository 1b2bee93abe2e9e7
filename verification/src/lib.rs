//! Compact sets of `usize` indices.
//!
//! A set is stored as a collection of bucket entries: pairs of a bucket
//! index and a fixed-width storage word whose bits record which of the
//! bucket's `WIDTH` consecutive indices are present.  Two backends share
//! one contract: [`btree::BTreeIndexSet`], keyed by an ordered map, and
//! [`vec::VecIndexSet`], a binary-searched sorted array of entries.

use vstd::prelude::*;

pub mod btree;
pub mod laws;
pub mod bucket;
pub mod storage;
pub mod vec;

verus! {

/// Public interface of any index set implementation.
///
/// `members` is the mathematical set of indices held; every operation
/// states its effect on `members`, and `inv` is the structural
/// well-formedness that all operations preserve.
pub trait IndexSet: Sized {
    /// The mathematical set of indices present in this set.
    spec fn members(&self) -> Set<nat>;

    /// Structural well-formedness, established by construction and
    /// preserved by every operation.
    spec fn inv(&self) -> bool;

    /// Every well-formed set holds finitely many indices, all of which
    /// are representable as `usize`.
    proof fn lemma_members_bounded(&self)
        requires
            self.inv(),
        ensures
            self.members().finite(),
            forall|i: nat| self.members().contains(i) ==> i <= usize::MAX,
    ;

    /// Create an empty set, with space for roughly `capacity` bucket
    /// entries where the backend supports pre-sizing.
    fn with_capacity(capacity: usize) -> (s: Self)
        ensures
            s.inv(),
            s.members() == Set::<nat>::empty(),
    ;

    /// Return the number of `usize` values present in this set.
    fn len(&self) -> (n: usize)
        requires
            self.inv(),
            self.members().len() <= usize::MAX,
        ensures
            n == self.members().len(),
    ;

    /// Checks if this set has no inner indexes stored within.
    fn is_empty(&self) -> (r: bool)
        requires
            self.inv(),
        ensures
            r == self.members().is_empty(),
    ;

    /// Add a new index to this set.
    fn insert(&mut self, index: usize)
        requires
            old(self).inv(),
        ensures
            final(self).inv(),
            final(self).members() == old(self).members().insert(index as nat),
    ;

    /// Remove an index from this set.
    fn remove(&mut self, index: usize)
        requires
            old(self).inv(),
        ensures
            final(self).inv(),
            final(self).members() == old(self).members().remove(index as nat),
    ;

    /// Check the presence of an index in this set.
    fn contains(&self, index: usize) -> (r: bool)
        requires
            self.inv(),
        ensures
            r == self.members().contains(index as nat),
    ;

    /// Return the indices in this set, in strictly ascending order.
    fn iter(&self) -> (indices: Vec<usize>)
        requires
            self.inv(),
        ensures
            forall|a: int, b: int|
                0 <= a < b < indices@.len() ==> indices@[a] < indices@[b],
            forall|i: usize| indices@.contains(i) <==> self.members().contains(i as nat),
    ;

    /// Merge two sets: a mutating set union between `self` and `other`.
    fn union(&mut self, other: &Self)
        requires
            old(self).inv(),
            other.inv(),
        ensures
            final(self).inv(),
            final(self).members() == old(self).members().union(other.members()),
    ;

    /// Attempt to reserve space for `additional` further elements.
    /// Purely a performance hint; the contents are untouched.
    fn reserve(&mut self, additional: usize)
        requires
            old(self).inv(),
        ensures
            final(self).inv(),
            final(self).members() == old(self).members(),
    ;
}

/// The set of indices a list of `usize` values stands for.
pub open spec fn seq_member_set(s: Seq<usize>) -> Set<nat> {
    Set::new(|i: nat| i <= usize::MAX && s.contains(i as usize))
}

/// One more list element adds exactly that index to the list's set.
proof fn lemma_seq_member_set_take_step(s: Seq<usize>, j: int)
    requires
        0 <= j < s.len(),
    ensures
        seq_member_set(s.take(j + 1)) == seq_member_set(s.take(j)).insert(s[j] as nat),
{
    assert(seq_member_set(s.take(j + 1)) =~= seq_member_set(s.take(j)).insert(s[j] as nat)) by {
        assert forall|i: nat|
            seq_member_set(s.take(j + 1)).contains(i) implies seq_member_set(s.take(j)).insert(
            s[j] as nat,
        ).contains(i) by {
            let m = choose|m: int| 0 <= m < s.take(j + 1).len() && #[trigger] s.take(j + 1)[m] == i as usize;
            if m < j {
                assert(s.take(j)[m] == i as usize);
            } else {
                assert(s.take(j + 1)[m] == s[j]);
            }
        }
        assert forall|i: nat|
            seq_member_set(s.take(j)).insert(s[j] as nat).contains(i) implies seq_member_set(
            s.take(j + 1),
        ).contains(i) by {
            if seq_member_set(s.take(j)).contains(i) {
                let m = choose|m: int| 0 <= m < s.take(j).len() && #[trigger] s.take(j)[m] == i as usize;
                assert(s.take(j + 1)[m] == i as usize);
            } else {
                assert(s.take(j + 1)[j] == s[j]);
            }
        }
    }
}

/// Build a set of any backend from a list of indices: create it with a
/// bounded capacity hint, then insert every element.
pub fn from_indices<T: IndexSet>(indices: &[usize]) -> (s: T)
    ensures
        s.inv(),
        s.members() == seq_member_set(indices@),
{
    let cap = safe_iter_reserve_cap(indices.len());
    let mut s = T::with_capacity(cap);
    proof {
        assert(seq_member_set(indices@.take(0)) =~= Set::<nat>::empty());
    }
    let mut j: usize = 0;
    while j < indices.len()
        invariant
            s.inv(),
            j <= indices@.len(),
            s.members() == seq_member_set(indices@.take(j as int)),
        decreases indices@.len() - j,
    {
        s.insert(indices[j]);
        j = j + 1;
        proof {
            lemma_seq_member_set_take_step(indices@, j as int - 1);
        }
    }
    proof {
        assert(indices@.take(indices@.len() as int) =~= indices@);
    }
    s
}

/// Extend a set in place from a list of indices: reserve bounded
/// additional space, then insert every element.
pub fn extend_from_indices<T: IndexSet>(s: &mut T, indices: &[usize])
    requires
        old(s).inv(),
    ensures
        final(s).inv(),
        final(s).members() == old(s).members().union(seq_member_set(indices@)),
{
    let cap = safe_iter_reserve_cap(indices.len());
    s.reserve(cap);
    proof {
        assert(old(s).members().union(seq_member_set(indices@.take(0))) =~= old(s).members());
    }
    let mut j: usize = 0;
    while j < indices.len()
        invariant
            s.inv(),
            j <= indices@.len(),
            s.members() == old(s).members().union(seq_member_set(indices@.take(j as int))),
        decreases indices@.len() - j,
    {
        s.insert(indices[j]);
        j = j + 1;
        proof {
            lemma_seq_member_set_take_step(indices@, j as int - 1);
            assert(s.members() =~= old(s).members().union(
                seq_member_set(indices@.take(j as int)),
            ));
        }
    }
    proof {
        assert(indices@.take(indices@.len() as int) =~= indices@);
    }
}

/// Drain a set, in ascending order, into an ordered integer collection.
pub fn to_btree_set<T: IndexSet>(s: &T) -> (r: std::collections::BTreeSet<usize>)
    requires
        s.inv(),
    ensures
        forall|i: usize| r@.contains(i) <==> s.members().contains(i as nat),
{
    let v = s.iter();
    let mut r = std::collections::BTreeSet::<usize>::new();
    let mut j: usize = 0;
    while j < v.len()
        invariant
            j <= v@.len(),
            forall|i: usize| v@.contains(i) <==> s.members().contains(i as nat),
            forall|i: usize| #[trigger] r@.contains(i) <==> v@.take(j as int).contains(i),
        decreases v@.len() - j,
    {
        let ghost r0 = r@;
        r.insert(v[j]);
        j = j + 1;
        proof {
            assert forall|i: usize| #[trigger]
                r@.contains(i) <==> v@.take(j as int).contains(i) by {
                if i != v@[j - 1] {
                    if r0.contains(i) {
                        let m = choose|m: int|
                            0 <= m < v@.take(j as int - 1).len() && #[trigger] v@.take(
                                j as int - 1,
                            )[m] == i;
                        assert(v@.take(j as int)[m] == i);
                    }
                    if v@.take(j as int).contains(i) {
                        let m = choose|m: int|
                            0 <= m < v@.take(j as int).len() && #[trigger] v@.take(j as int)[m] == i;
                        assert(v@.take(j as int - 1)[m] == i);
                    }
                } else {
                    assert(v@.take(j as int)[j - 1] == i);
                }
            }
        }
    }
    proof {
        assert(v@.take(v@.len() as int) =~= v@);
    }
    r
}

/// Bound an untrusted size hint by a small constant, so that a
/// malicious hint cannot force a huge allocation.
fn safe_iter_reserve_cap(min_cap: usize) -> (cap: usize)
    ensures
        cap == if min_cap < 256 {
            min_cap as int
        } else {
            256int
        },
{
    if min_cap < 256 {
        min_cap
    } else {
        256
    }
}

/// Split a global index into its bucket index and the bit position
/// within the bucket's storage word.
pub(crate) fn calculate_map_and_set_indices<S: storage::Storage>(index: usize) -> (r: (usize, usize))
    ensures
        r.0 == index as nat / S::spec_width(),
        r.1 == index as nat % S::spec_width(),
        r.1 < S::spec_width(),
        r.0 <= usize::MAX as nat / S::spec_width(),
{
    proof {
        S::lemma_width_facts();
        bucket::lemma_recompose(S::spec_width(), index as nat);
        bucket::lemma_div_monotone(S::spec_width(), index as nat, usize::MAX as nat);
    }
    let width = S::width();
    let map_index = index / width;
    let bit_set_index = index % width;

    (map_index, bit_set_index)
}

} // verus!
