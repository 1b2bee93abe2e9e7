//! Index set backed by a `Vec`.

use vstd::prelude::*;

use crate::bucket::entries_members;
use crate::bucket::entries_sorted;
use crate::bucket::entries_wf;
use crate::bucket::entry_covers;
use crate::bucket::entry_members;
use crate::bucket::entry_wf;
use crate::bucket::lemma_entries_members_bounded;
use crate::bucket::lemma_entry_singleton;
use crate::bucket::lemma_insert_entry;
use crate::bucket::lemma_members_at_bucket;
use crate::bucket::lemma_members_no_bucket;
use crate::bucket::lemma_pairs_model_insert;
use crate::bucket::lemma_pairs_model_remove;
use crate::bucket::lemma_pairs_model_update;
use crate::bucket::lemma_recompose;
use crate::bucket::lemma_remove_entry;
use crate::bucket::lemma_take_all;
use crate::bucket::lemma_take_len_step;
use crate::bucket::lemma_take_step;
use crate::bucket::lemma_take_zero;
use crate::bucket::lemma_update_clear;
use crate::bucket::lemma_update_or;
use crate::bucket::pairs_model;
use crate::bucket::push_entry_indices;
use crate::bucket::width_wf;
use crate::calculate_map_and_set_indices;
use crate::storage::Storage;
use crate::IndexSet;
use vstd::set_lib::lemma_len_subset;

verus! {

/// Why decoding a persisted entry list was rejected.
#[derive(Clone, Copy, Debug, PartialEq, Eq, Structural)]
pub enum DecodeError {
    /// The input is not a strictly ascending list of occupied bucket
    /// entries within the representable index range.
    Malformed,
}

/// What a persisted entry list must satisfy to be adopted as a set:
/// strictly ascending bucket indices, no all-clear word, and every
/// covered index representable as `usize`.
pub open spec fn valid_pairs<S: Storage>(ps: Seq<(usize, S)>) -> bool {
    &&& entries_sorted(pairs_model(ps))
    &&& entries_wf(S::spec_width(), pairs_model(ps))
}

/// What borsh decodes a byte string to, read as a list of
/// (bucket index, storage word) pairs; `None` when the bytes are not a
/// complete, well-formed encoding of such a list.
pub uninterp spec fn borsh_pairs_of(bytes: Seq<u8>) -> Option<Seq<(u64, u64)>>;

/// Whether every bucket index of a raw decoded entry list fits the
/// platform's `usize`.
pub open spec fn raw_pairs_fit(ps: Seq<(u64, u64)>) -> bool {
    forall|k: int| 0 <= k < ps.len() ==> (#[trigger] ps[k]).0 <= usize::MAX
}

/// A raw decoded entry list with its bucket indices as `usize`.
pub open spec fn raw_pairs_cast(ps: Seq<(u64, u64)>) -> Seq<(usize, u64)> {
    ps.map_values(|p: (u64, u64)| (p.0 as usize, p.1))
}

/// Relies on borsh's `BorshDeserialize` for `Vec<(u64, u64)>`: what the
/// bytes decode to is a function of the bytes alone, and decoding
/// either yields that value or fails on malformed or trailing input.
#[verifier::external_body]
fn borsh_decode_pairs(bytes: &[u8]) -> (r: Option<Vec<(u64, u64)>>)
    ensures
        r matches Some(v) ==> borsh_pairs_of(bytes@) == Some(v@),
        r is Some == borsh_pairs_of(bytes@) is Some,
{
    borsh::from_slice::<Vec<(u64, u64)>>(bytes).ok()
}

/// Index set backed by a `Vec` of (bucket index, storage word) pairs,
/// kept sorted by strictly ascending bucket index and searched by
/// binary search.
#[derive(Clone, Debug, PartialEq, Eq, Hash)]
pub struct VecIndexSet<S = u64> {
    /// Pairs of bucket indices to storage words.  If bit `B` is set in
    /// the word paired with bucket index `K`, then the index
    /// `K * WIDTH + B` is in the set.
    bit_sets: Vec<(usize, S)>,
}

impl<S: Storage> VecIndexSet<S> {
    /// The abstract bucket entries this set stores.
    pub closed spec fn entries(&self) -> Seq<(nat, Set<nat>)> {
        pairs_model(self.bit_sets@)
    }

    /// How many bucket entries are stored.
    pub closed spec fn spec_bucket_count(&self) -> nat {
        self.bit_sets@.len()
    }

    /// Create a new [`VecIndexSet`].
    pub fn new() -> (s: Self)
        ensures
            s.inv(),
            s.members() == Set::<nat>::empty(),
            s.spec_bucket_count() == 0,
    {
        let s = VecIndexSet { bit_sets: Vec::new() };
        proof {
            S::lemma_width_facts();
            assert(entries_members(S::spec_width(), s.entries()) =~= Set::<nat>::empty());
        }
        s
    }

    /// Create a new [`VecIndexSet`] with room for `capacity` bucket
    /// entries.
    pub fn with_capacity(capacity: usize) -> (s: Self)
        ensures
            s.inv(),
            s.members() == Set::<nat>::empty(),
            s.spec_bucket_count() == 0,
    {
        let s = VecIndexSet { bit_sets: Vec::with_capacity(capacity) };
        proof {
            S::lemma_width_facts();
            assert(entries_members(S::spec_width(), s.entries()) =~= Set::<nat>::empty());
        }
        s
    }

    /// How many bucket entries are stored.
    pub fn bucket_count(&self) -> (n: usize)
        ensures
            n == self.spec_bucket_count(),
    {
        self.bit_sets.len()
    }

    /// The bucket invariant, observably: since no stored word is ever
    /// all-clear, a set whose members all lie at or below `m` stores at
    /// most `m / WIDTH + 1` bucket entries.
    pub proof fn lemma_bucket_count_bound(&self, m: nat)
        requires
            self.inv(),
            forall|i: nat| self.members().contains(i) ==> i <= m,
        ensures
            self.spec_bucket_count() <= m / S::spec_width() + 1,
    {
        let w = S::spec_width();
        let es = self.entries();
        if es.len() > 0 {
            let last = es.len() - 1;
            crate::bucket::lemma_sorted_bucket_ge_index(es, last);
            assert(entry_wf(w, es[last]));
            // The last entry is occupied, so it covers some member.
            let t = choose|t: nat| es[last].1.contains(t);
            let i = es[last].0 * w + t;
            crate::bucket::lemma_decompose(w, es[last].0, t);
            assert(entry_covers(w, es[last], i));
            assert(self.members().contains(i));
            // That member bounds the last bucket, and buckets ascend.
            crate::bucket::lemma_div_monotone(w, i, m);
            assert(es[last].0 == i / w);
        }
    }

    /// Adopt a persisted entry list, after checking the invariant every
    /// lookup depends on: bucket indices strictly ascending, no word
    /// all-clear, and all covered indices representable.  Malformed
    /// input is rejected, never silently corrected.
    pub fn try_from_pairs(pairs: Vec<(usize, S)>) -> (r: Result<Self, DecodeError>)
        ensures
            match r {
                Ok(s) => {
                    &&& valid_pairs::<S>(pairs@)
                    &&& s.inv()
                    &&& s.entries() == pairs_model(pairs@)
                    &&& s.members() == entries_members(S::spec_width(), pairs_model(pairs@))
                },
                Err(e) => !valid_pairs::<S>(pairs@) && e == DecodeError::Malformed,
            },
    {
        let ghost w = S::spec_width();
        let ghost es = pairs_model(pairs@);
        proof {
            S::lemma_width_facts();
        }
        let width = S::width();
        let max_bucket = usize::MAX / width;
        let mut k: usize = 0;
        while k < pairs.len()
            invariant
                w == S::spec_width(),
                width_wf(w),
                es == pairs_model(pairs@),
                width == S::spec_width(),
                max_bucket == usize::MAX as nat / w,
                k <= pairs@.len(),
                forall|k1: int, k2: int|
                    #![trigger es[k1], es[k2]]
                    0 <= k1 < k2 < k ==> es[k1].0 < es[k2].0,
                forall|k1: int| 0 <= k1 < k ==> entry_wf(w, #[trigger] es[k1]),
            decreases pairs@.len() - k,
        {
            let (b, wd) = pairs[k];
            proof {
                assert(es[k as int] == (b as nat, wd.bits()));
                wd.lemma_bits_below_width();
            }
            if wd.is_zero() {
                proof {
                    assert(!entry_wf(w, es[k as int]));
                }
                return Err(DecodeError::Malformed);
            }
            if b > max_bucket {
                proof {
                    assert(!entry_wf(w, es[k as int]));
                }
                return Err(DecodeError::Malformed);
            }
            if k > 0 {
                let (prev, _) = pairs[k - 1];
                if prev >= b {
                    proof {
                        assert(es[k as int - 1].0 >= es[k as int].0);
                    }
                    return Err(DecodeError::Malformed);
                }
            }
            k = k + 1;
            proof {
                assert forall|k1: int, k2: int|
                    #![trigger es[k1], es[k2]]
                    0 <= k1 < k2 < k implies es[k1].0 < es[k2].0 by {
                    if k2 == k - 1 && k1 < k2 - 1 {
                        assert(es[k1].0 < es[k2 - 1].0);
                        assert(es[k2 - 1].0 < es[k2].0);
                    }
                }
            }
        }
        let s = VecIndexSet { bit_sets: pairs };
        Ok(s)
    }

    /// Merge one bucket entry into this set: OR the word `wd` into the
    /// bucket `b`, creating the bucket from an all-clear word if absent.
    pub(crate) fn merge_entry(&mut self, b: usize, wd: S)
        requires
            old(self).inv(),
            !wd.bits().is_empty(),
            forall|t: nat| wd.bits().contains(t) ==> t < S::spec_width(),
            b as nat <= usize::MAX as nat / S::spec_width(),
        ensures
            final(self).inv(),
            final(self).members() == old(self).members().union(
                entry_members(S::spec_width(), b as nat, wd.bits()),
            ),
    {
        let ghost w = S::spec_width();
        let ghost ps0 = self.bit_sets@;
        let ghost es0 = pairs_model(ps0);
        match self.lookup_pair(b) {
            Ok(k) => {
                let (bb, owd) = self.bit_sets[k];
                let wd2 = owd.or_with(wd);
                self.bit_sets[k] = (bb, wd2);
                proof {
                    lemma_pairs_model_update(ps0, k as int, (bb, wd2));
                    assert(es0[k as int] == (bb as nat, owd.bits()));
                    lemma_update_or(w, es0, k as int, wd.bits());
                    assert(pairs_model(self.bit_sets@) == es0.update(
                        k as int,
                        (es0[k as int].0, es0[k as int].1.union(wd.bits())),
                    ));
                    assert(self.members() == old(self).members().union(
                        entry_members(w, b as nat, wd.bits()),
                    ));
                    let es1 = pairs_model(self.bit_sets@);
                    assert forall|k1: int, k2: int|
                        #![trigger es1[k1], es1[k2]]
                        0 <= k1 < k2 < es1.len() implies es1[k1].0 < es1[k2].0 by {
                        assert(es1[k1].0 == es0[k1].0);
                        assert(es1[k2].0 == es0[k2].0);
                    }
                    assert forall|k1: int| 0 <= k1 < es1.len() implies entry_wf(
                        w,
                        #[trigger] es1[k1],
                    ) by {
                        assert(entry_wf(w, es0[k1]));
                        if k1 == k {
                            assert(es1[k1].1 == owd.bits().union(wd.bits()));
                            let x = choose|x: nat| owd.bits().contains(x);
                            assert(es1[k1].1.contains(x));
                        } else {
                            assert(es1[k1] == es0[k1]);
                        }
                    }
                }
            },
            Err(p) => {
                let wd2 = S::zero().or_with(wd);
                self.bit_sets.insert(p, (b, wd2));
                proof {
                    lemma_pairs_model_insert(ps0, p as int, (b, wd2));
                    assert(wd2.bits() =~= wd.bits());
                    lemma_insert_entry(w, es0, p as int, b as nat, wd2.bits());
                    assert(entry_members(w, b as nat, wd2.bits()) == entry_members(
                        w,
                        b as nat,
                        wd.bits(),
                    ));
                    assert(self.members() == old(self).members().union(
                        entry_members(w, b as nat, wd.bits()),
                    ));
                    let es1 = pairs_model(self.bit_sets@);
                    assert(es1 == es0.insert(p as int, (b as nat, wd2.bits())));
                    assert forall|k1: int, k2: int|
                        #![trigger es1[k1], es1[k2]]
                        0 <= k1 < k2 < es1.len() implies es1[k1].0 < es1[k2].0 by {
                        if k2 < p {
                            assert(es1[k1] == es0[k1]);
                            assert(es1[k2] == es0[k2]);
                        } else if k2 == p {
                            assert(es1[k1] == es0[k1]);
                            assert(ps0[k1].0 < b);
                        } else {
                            assert(es1[k2] == es0[k2 - 1]);
                            assert(ps0[k2 - 1].0 > b);
                            if k1 < p {
                                assert(es1[k1] == es0[k1]);
                                assert(ps0[k1].0 < b);
                            } else if k1 == p {
                            } else {
                                assert(es1[k1] == es0[k1 - 1]);
                            }
                        }
                    }
                    assert forall|k1: int| 0 <= k1 < es1.len() implies entry_wf(
                        w,
                        #[trigger] es1[k1],
                    ) by {
                        if k1 < p {
                            assert(es1[k1] == es0[k1]);
                            assert(entry_wf(w, es0[k1]));
                        } else if k1 == p {
                            assert(es1[k1].1 == wd2.bits());
                            let x = choose|x: nat| wd.bits().contains(x);
                            assert(es1[k1].1.contains(x));
                        } else {
                            assert(es1[k1] == es0[k1 - 1]);
                            assert(entry_wf(w, es0[k1 - 1]));
                        }
                    }
                }
            },
        }
    }

    /// Lookup the vec index of the bit set at `map_index`.
    fn lookup_pair(&self, map_index: usize) -> (r: Result<usize, usize>)
        requires
            entries_sorted(self.entries()),
        ensures
            match r {
                Ok(k) => k < self.bit_sets@.len() && (#[trigger] self.bit_sets@[k as int]).0
                    == map_index,
                Err(p) => {
                    &&& p <= self.bit_sets@.len()
                    &&& forall|k: int|
                        0 <= k < p ==> (#[trigger] self.bit_sets@[k]).0 < map_index
                    &&& forall|k: int|
                        p <= k < self.bit_sets@.len() ==> (#[trigger] self.bit_sets@[k]).0
                            > map_index
                },
            },
    {
        let mut lo: usize = 0;
        let mut hi: usize = self.bit_sets.len();
        while lo < hi
            invariant
                lo <= hi <= self.bit_sets@.len(),
                entries_sorted(self.entries()),
                forall|k: int| 0 <= k < lo ==> (#[trigger] self.bit_sets@[k]).0 < map_index,
                forall|k: int|
                    hi <= k < self.bit_sets@.len() ==> (#[trigger] self.bit_sets@[k]).0
                        > map_index,
            decreases hi - lo,
        {
            let mid = lo + (hi - lo) / 2;
            let b = self.bit_sets[mid].0;
            if b == map_index {
                return Ok(mid);
            } else if b < map_index {
                proof {
                    assert forall|k: int|
                        0 <= k < mid + 1 implies (#[trigger] self.bit_sets@[k]).0
                        < map_index by {
                        if k < mid {
                            assert(self.entries()[k].0 < self.entries()[mid as int].0);
                            assert(self.entries()[k].0 == self.bit_sets@[k].0 as nat);
                        }
                    }
                }
                lo = mid + 1;
            } else {
                proof {
                    assert forall|k: int|
                        mid <= k < self.bit_sets@.len() implies (#[trigger] self.bit_sets@[k]).0
                        > map_index by {
                        if k > mid {
                            assert(self.entries()[mid as int].0 < self.entries()[k].0);
                            assert(self.entries()[k].0 == self.bit_sets@[k].0 as nat);
                        }
                    }
                }
                hi = mid;
            }
        }
        Err(lo)
    }
}

impl<S: Storage> Default for VecIndexSet<S> {
    /// An empty set.
    fn default() -> (s: Self)
        ensures
            s.inv(),
            s.members() == Set::<nat>::empty(),
    {
        VecIndexSet::new()
    }
}

impl VecIndexSet<u64> {
    /// Decode a persisted set from its binary encoding.  The decoded
    /// entry list is adopted only once the sort invariant has been
    /// checked; out-of-order, all-clear or out-of-range entries are
    /// rejected as malformed.
    pub fn try_from_bytes(bytes: &[u8]) -> (r: Result<Self, DecodeError>)
        ensures
            match borsh_pairs_of(bytes@) {
                Some(ps) => {
                    &&& (r is Ok <==> raw_pairs_fit(ps) && valid_pairs::<u64>(
                        raw_pairs_cast(ps),
                    ))
                    &&& (r matches Ok(s) ==> s.inv() && s.entries() == pairs_model(
                        raw_pairs_cast(ps),
                    ) && s.members() == entries_members(
                        u64::spec_width(),
                        pairs_model(raw_pairs_cast(ps)),
                    ))
                    &&& (r matches Err(e) ==> e == DecodeError::Malformed)
                },
                None => r == Err::<VecIndexSet<u64>, DecodeError>(DecodeError::Malformed),
            },
    {
        let raw = match borsh_decode_pairs(bytes) {
            Some(v) => v,
            None => {
                return Err(DecodeError::Malformed);
            },
        };
        let mut pairs: Vec<(usize, u64)> = Vec::with_capacity(raw.len());
        let mut k: usize = 0;
        while k < raw.len()
            invariant
                borsh_pairs_of(bytes@) == Some(raw@),
                k <= raw@.len(),
                forall|m: int| 0 <= m < k ==> (#[trigger] raw@[m]).0 <= usize::MAX,
                pairs@ == raw_pairs_cast(raw@.take(k as int)),
            decreases raw@.len() - k,
        {
            let (b, wd) = raw[k];
            if b > (usize::MAX as u64) {
                proof {
                    assert(raw@[k as int].0 > usize::MAX);
                    assert(!raw_pairs_fit(raw@));
                }
                return Err(DecodeError::Malformed);
            }
            pairs.push((b as usize, wd));
            k = k + 1;
            proof {
                assert(pairs@ =~= raw_pairs_cast(raw@.take(k as int)));
            }
        }
        proof {
            assert(raw@.take(raw@.len() as int) =~= raw@);
            assert(raw_pairs_fit(raw@));
        }
        VecIndexSet::try_from_pairs(pairs)
    }
}

impl<S: Storage> IndexSet for VecIndexSet<S> {
    closed spec fn members(&self) -> Set<nat> {
        entries_members(S::spec_width(), pairs_model(self.bit_sets@))
    }

    closed spec fn inv(&self) -> bool {
        &&& width_wf(S::spec_width())
        &&& entries_sorted(pairs_model(self.bit_sets@))
        &&& entries_wf(S::spec_width(), pairs_model(self.bit_sets@))
    }

    proof fn lemma_members_bounded(&self) {
        lemma_entries_members_bounded(S::spec_width(), pairs_model(self.bit_sets@));
    }

    fn with_capacity(capacity: usize) -> (s: Self) {
        VecIndexSet::with_capacity(capacity)
    }

    fn len(&self) -> (n: usize) {
        let ghost w = S::spec_width();
        let ghost es = self.entries();
        let mut total: usize = 0;
        let mut k: usize = 0;
        proof {
            lemma_take_zero(w, es);
            crate::bucket::lemma_sorted_uniq(es);
        }
        while k < self.bit_sets.len()
            invariant
                self.inv(),
                crate::bucket::entries_uniq(es),
                self.members().len() <= usize::MAX,
                w == S::spec_width(),
                es == self.entries(),
                k <= self.bit_sets@.len(),
                entries_members(w, es.take(k as int)).finite(),
                total == entries_members(w, es.take(k as int)).len(),
            decreases self.bit_sets@.len() - k,
        {
            proof {
                lemma_take_len_step(w, es, k as int);
                // The next prefix is still a subset of all members, so
                // the running total cannot overflow.
                self.lemma_members_bounded();
                assert(entries_members(w, es.take(k as int + 1)) <= self.members()) by {
                    assert forall|i: nat|
                        entries_members(w, es.take(k as int + 1)).contains(
                            i,
                        ) implies self.members().contains(i) by {
                        let k1 = choose|k1: int|
                            0 <= k1 < es.take(k as int + 1).len() && entry_covers(
                                w,
                                #[trigger] es.take(k as int + 1)[k1],
                                i,
                            );
                        assert(es.take(k as int + 1)[k1] == es[k1]);
                        assert(entry_covers(w, es[k1], i));
                    }
                }
                lemma_len_subset(entries_members(w, es.take(k as int + 1)), self.members());
                assert(es[k as int].1 == self.bit_sets@[k as int].1.bits());
            }
            let wd = self.bit_sets[k].1;
            total = total + wd.num_of_high_bits();
            k = k + 1;
        }
        proof {
            lemma_take_all(w, es);
        }
        total
    }

    fn is_empty(&self) -> (r: bool) {
        let ghost w = S::spec_width();
        let ghost es = self.entries();
        proof {
            if es.len() == 0 {
                assert(self.members() =~= Set::<nat>::empty());
            } else {
                assert(entry_wf(w, es[0]));
                let t = choose|t: nat| es[0].1.contains(t);
                crate::bucket::lemma_decompose(w, es[0].0, t);
                assert(entry_covers(w, es[0], es[0].0 * w + t));
                assert(self.members().contains(es[0].0 * w + t));
            }
        }
        self.bit_sets.len() == 0
    }

    fn insert(&mut self, index: usize) {
        let ghost w = S::spec_width();
        let ghost es0 = pairs_model(old(self).bit_sets@);
        let (map_index, bit_index) = calculate_map_and_set_indices::<S>(index);
        let ghost t = index as nat % w;
        proof {
            lemma_recompose(w, index as nat);
        }
        match self.lookup_pair(map_index) {
            Ok(k) => {
                let (b, wd) = self.bit_sets[k];
                let wd2 = wd.with_bit_set(bit_index);
                self.bit_sets[k] = (b, wd2);
                proof {
                    lemma_pairs_model_update(old(self).bit_sets@, k as int, (b, wd2));
                    assert(es0[k as int] == (b as nat, wd.bits()));
                    assert(wd2.bits() =~= wd.bits().union(Set::<nat>::empty().insert(t)));
                    lemma_update_or(w, es0, k as int, Set::<nat>::empty().insert(t));
                    lemma_entry_singleton(w, b as nat, t);
                    assert(pairs_model(self.bit_sets@) == es0.update(
                        k as int,
                        (es0[k as int].0, es0[k as int].1.union(Set::<nat>::empty().insert(t))),
                    ));
                    assert(self.members() =~= old(self).members().insert(index as nat));
                    // The invariant: buckets and bucket order unchanged,
                    // the touched word only gained a bit.
                    let es1 = pairs_model(self.bit_sets@);
                    assert forall|k1: int, k2: int|
                        #![trigger es1[k1], es1[k2]]
                        0 <= k1 < k2 < es1.len() implies es1[k1].0 < es1[k2].0 by {
                        assert(es1[k1].0 == es0[k1].0);
                        assert(es1[k2].0 == es0[k2].0);
                    }
                    assert forall|k1: int| 0 <= k1 < es1.len() implies entry_wf(
                        w,
                        #[trigger] es1[k1],
                    ) by {
                        assert(entry_wf(w, es0[k1]));
                        if k1 == k {
                            assert(es1[k1].1.contains(t));
                        } else {
                            assert(es1[k1] == es0[k1]);
                        }
                    }
                }
            },
            Err(p) => {
                let wd2 = S::zero().with_bit_set(bit_index);
                self.bit_sets.insert(p, (map_index, wd2));
                proof {
                    lemma_pairs_model_insert(old(self).bit_sets@, p as int, (map_index, wd2));
                    lemma_insert_entry(w, es0, p as int, map_index as nat, wd2.bits());
                    assert(wd2.bits() == Set::<nat>::empty().insert(t));
                    lemma_entry_singleton(w, map_index as nat, t);
                    assert(self.members() =~= old(self).members().insert(index as nat));
                    let es1 = pairs_model(self.bit_sets@);
                    assert(es1 == es0.insert(p as int, (map_index as nat, wd2.bits())));
                    assert forall|k1: int, k2: int|
                        #![trigger es1[k1], es1[k2]]
                        0 <= k1 < k2 < es1.len() implies es1[k1].0 < es1[k2].0 by {
                        if k2 < p {
                            assert(es1[k1] == es0[k1]);
                            assert(es1[k2] == es0[k2]);
                        } else if k2 == p {
                            assert(es1[k1] == es0[k1]);
                            assert(old(self).bit_sets@[k1].0 < map_index);
                        } else {
                            assert(es1[k2] == es0[k2 - 1]);
                            assert(old(self).bit_sets@[k2 - 1].0 > map_index);
                            if k1 < p {
                                assert(es1[k1] == es0[k1]);
                                assert(old(self).bit_sets@[k1].0 < map_index);
                            } else if k1 == p {
                            } else {
                                assert(es1[k1] == es0[k1 - 1]);
                            }
                        }
                    }
                    assert forall|k1: int| 0 <= k1 < es1.len() implies entry_wf(
                        w,
                        #[trigger] es1[k1],
                    ) by {
                        if k1 < p {
                            assert(es1[k1] == es0[k1]);
                            assert(entry_wf(w, es0[k1]));
                        } else if k1 == p {
                            assert(es1[k1].1.contains(t));
                        } else {
                            assert(es1[k1] == es0[k1 - 1]);
                            assert(entry_wf(w, es0[k1 - 1]));
                        }
                    }
                }
            },
        }
    }

    fn remove(&mut self, index: usize) {
        let ghost w = S::spec_width();
        let ghost es0 = pairs_model(old(self).bit_sets@);
        let (map_index, bit_index) = calculate_map_and_set_indices::<S>(index);
        let ghost t = index as nat % w;
        proof {
            lemma_recompose(w, index as nat);
        }
        match self.lookup_pair(map_index) {
            Ok(k) => {
                let (b, wd) = self.bit_sets[k];
                let wd2 = wd.with_bit_cleared(bit_index);
                if wd2.is_zero() {
                    self.bit_sets.remove(k);
                    proof {
                        lemma_pairs_model_remove(old(self).bit_sets@, k as int);
                        lemma_remove_entry(w, es0, k as int);
                        assert(es0[k as int] == (b as nat, wd.bits()));
                        // The cleared word is empty, so the old word held
                        // at most the single bit `t`.
                        assert(entry_members(w, b as nat, wd.bits()) =~= Set::<nat>::empty().insert(
                            index as nat,
                        )) by {
                            lemma_entry_singleton(w, b as nat, t);
                            assert(wd.bits() <= Set::<nat>::empty().insert(t)) by {
                                assert forall|x: nat| wd.bits().contains(x) implies x == t by {
                                    if x != t {
                                        assert(wd2.bits().contains(x));
                                    }
                                }
                            }
                            assert(entry_wf(w, es0[k as int]));
                            assert(wd.bits() =~= Set::<nat>::empty().insert(t)) by {
                                if !wd.bits().contains(t) {
                                    assert(wd.bits() =~= Set::<nat>::empty());
                                }
                            }
                        }
                        assert(self.members() =~= old(self).members().remove(index as nat));
                        let es1 = pairs_model(self.bit_sets@);
                        assert forall|k1: int, k2: int|
                            #![trigger es1[k1], es1[k2]]
                            0 <= k1 < k2 < es1.len() implies es1[k1].0 < es1[k2].0 by {
                            assert(es1[k1] == if k1 < k {
                                es0[k1]
                            } else {
                                es0[k1 + 1]
                            });
                            assert(es1[k2] == if k2 < k {
                                es0[k2]
                            } else {
                                es0[k2 + 1]
                            });
                        }
                        assert forall|k1: int| 0 <= k1 < es1.len() implies entry_wf(
                            w,
                            #[trigger] es1[k1],
                        ) by {
                            assert(es1[k1] == if k1 < k {
                                es0[k1]
                            } else {
                                es0[k1 + 1]
                            });
                            assert(entry_wf(w, es0[k1]) && entry_wf(w, es0[k1 + 1]));
                        }
                    }
                } else {
                    self.bit_sets[k] = (b, wd2);
                    proof {
                        lemma_pairs_model_update(old(self).bit_sets@, k as int, (b, wd2));
                        assert(es0[k as int] == (b as nat, wd.bits()));
                        lemma_update_clear(w, es0, k as int, t);
                        assert(pairs_model(self.bit_sets@) == es0.update(
                            k as int,
                            (es0[k as int].0, es0[k as int].1.remove(t)),
                        ));
                        assert(self.members() =~= old(self).members().remove(index as nat));
                        let es1 = pairs_model(self.bit_sets@);
                        assert forall|k1: int, k2: int|
                            #![trigger es1[k1], es1[k2]]
                            0 <= k1 < k2 < es1.len() implies es1[k1].0 < es1[k2].0 by {
                            assert(es1[k1].0 == es0[k1].0);
                            assert(es1[k2].0 == es0[k2].0);
                        }
                        assert forall|k1: int| 0 <= k1 < es1.len() implies entry_wf(
                            w,
                            #[trigger] es1[k1],
                        ) by {
                            assert(entry_wf(w, es0[k1]));
                            if k1 == k {
                                // The remaining word is not all-clear.
                                assert(!wd2.bits().is_empty());
                                assert(es1[k1].1 == wd2.bits());
                            } else {
                                assert(es1[k1] == es0[k1]);
                            }
                        }
                    }
                }
            },
            Err(_) => {
                proof {
                    assert forall|k1: int|
                        0 <= k1 < es0.len() implies (#[trigger] es0[k1]).0 != index as nat
                        / w by {
                        assert(es0[k1].0 == old(self).bit_sets@[k1].0 as nat);
                    }
                    lemma_members_no_bucket(w, es0, index as nat);
                    assert(old(self).members().remove(index as nat) =~= old(self).members());
                }
            },
        }
    }

    fn contains(&self, index: usize) -> (r: bool) {
        let ghost w = S::spec_width();
        let ghost es = self.entries();
        let (map_index, bit_index) = calculate_map_and_set_indices::<S>(index);
        match self.lookup_pair(map_index) {
            Ok(k) => {
                proof {
                    assert(es[k as int].0 == self.bit_sets@[k as int].0 as nat);
                    lemma_members_at_bucket(w, es, k as int, index as nat);
                    assert(es[k as int].1 == self.bit_sets@[k as int].1.bits());
                }
                self.bit_sets[k].1.bit_is_set(bit_index)
            },
            Err(_) => {
                proof {
                    assert forall|k1: int|
                        0 <= k1 < es.len() implies (#[trigger] es[k1]).0 != index as nat / w by {
                        assert(es[k1].0 == self.bit_sets@[k1].0 as nat);
                    }
                    lemma_members_no_bucket(w, es, index as nat);
                }
                false
            },
        }
    }

    fn iter(&self) -> (indices: Vec<usize>) {
        let ghost w = S::spec_width();
        let ghost es = self.entries();
        let mut out: Vec<usize> = Vec::new();
        let mut k: usize = 0;
        proof {
            lemma_take_zero(w, es);
        }
        while k < self.bit_sets.len()
            invariant
                self.inv(),
                w == S::spec_width(),
                es == self.entries(),
                k <= self.bit_sets@.len(),
                forall|a: int, c: int| 0 <= a < c < out@.len() ==> out@[a] < out@[c],
                k < self.bit_sets@.len() ==> forall|j: int|
                    0 <= j < out@.len() ==> (out@[j] as nat) < es[k as int].0 * w,
                forall|i: usize|
                    out@.contains(i) <==> entries_members(w, es.take(k as int)).contains(i as nat),
            decreases self.bit_sets@.len() - k,
        {
            let (b, wd) = self.bit_sets[k];
            proof {
                assert(es[k as int] == (b as nat, wd.bits()));
                assert(entry_wf(w, es[k as int]));
            }
            let ghost before = out@;
            push_entry_indices(&mut out, b, wd);
            k = k + 1;
            proof {
                lemma_take_step(w, es, k as int - 1);
                assert forall|i: usize|
                    out@.contains(i) <==> entries_members(w, es.take(k as int)).contains(
                        i as nat,
                    ) by {
                    assert(out@.contains(i) <==> before.contains(i) || entry_members(
                        w,
                        b as nat,
                        wd.bits(),
                    ).contains(i as nat));
                }
                if k < self.bit_sets@.len() {
                    assert(es[k as int - 1].0 < es[k as int].0);
                    vstd::arithmetic::mul::lemma_mul_inequality(
                        es[k as int - 1].0 as int + 1,
                        es[k as int].0 as int,
                        w as int,
                    );
                    assert((es[k as int - 1].0 + 1) * w <= es[k as int].0 * w);
                    assert forall|j: int|
                        0 <= j < out@.len() implies (out@[j] as nat) < es[k as int].0 * w by {
                        assert((out@[j] as nat) < (es[k as int - 1].0 + 1) * w);
                    }
                }
            }
        }
        proof {
            lemma_take_all(w, es);
        }
        out
    }

    fn union(&mut self, other: &Self) {
        let ghost w = S::spec_width();
        let ghost eso = other.entries();
        let mut j: usize = 0;
        proof {
            lemma_take_zero(w, eso);
            assert(old(self).members().union(entries_members(w, eso.take(0))) =~= old(
                self,
            ).members());
        }
        while j < other.bit_sets.len()
            invariant
                self.inv(),
                other.inv(),
                w == S::spec_width(),
                eso == other.entries(),
                j <= other.bit_sets@.len(),
                self.members() == old(self).members().union(
                    entries_members(w, eso.take(j as int)),
                ),
            decreases other.bit_sets@.len() - j,
        {
            let ghost pre = self.members();
            let (b, ow) = other.bit_sets[j];
            proof {
                assert(eso[j as int] == (b as nat, ow.bits()));
                assert(entry_wf(w, eso[j as int]));
            }
            self.merge_entry(b, ow);
            j = j + 1;
            proof {
                lemma_take_step(w, eso, j as int - 1);
                assert(self.members() =~= old(self).members().union(
                    entries_members(w, eso.take(j as int)),
                ));
            }
        }
        proof {
            lemma_take_all(w, eso);
        }
    }

    fn reserve(&mut self, additional: usize) {
        self.bit_sets.reserve(additional);
    }
}

} // verus!
