//! Index set backed by a [`BTreeMap`].

use std::collections::btree_map;
use std::collections::BTreeMap;

use vstd::prelude::*;
use vstd::std_specs::btree::into_iter;
use vstd::std_specs::iter::IteratorSpec;

use crate::bucket::entries_members;
use crate::bucket::entries_uniq;
use crate::bucket::entries_wf;
use crate::bucket::entry_covers;
use crate::bucket::entry_members;
use crate::bucket::entry_wf;
use crate::bucket::lemma_decompose;
use crate::bucket::lemma_div_monotone;
use crate::bucket::lemma_entry_fits;
use crate::bucket::lemma_entry_singleton;
use crate::bucket::lemma_map_clear_bit;
use crate::bucket::lemma_map_or_word;
use crate::bucket::lemma_map_remove_bucket;
use crate::bucket::lemma_recompose;
use crate::bucket::lemma_take_all;
use crate::bucket::lemma_take_len_step;
use crate::bucket::lemma_take_step;
use crate::bucket::lemma_take_zero;
use crate::bucket::map_members;
use crate::bucket::map_model;
use crate::bucket::pairs_model;
use crate::bucket::width_wf;
use crate::calculate_map_and_set_indices;
use crate::storage::Storage;
use crate::vec::VecIndexSet;
use crate::IndexSet;
use vstd::set_lib::lemma_len_subset;

verus! {

/// Index set backed by a [`BTreeMap`].
#[derive(Clone, Debug, PartialEq, Eq, Hash)]
pub struct BTreeIndexSet<S = u64> {
    /// Map of bucket indices to storage words.  If bit `B` is set in the
    /// word at bucket index `K`, then the index `K * WIDTH + B` is in
    /// the set.
    bit_sets: BTreeMap<usize, S>,
}

impl<S: Storage> BTreeIndexSet<S> {
    /// The abstract bucket map this set stores.
    pub closed spec fn bucket_map(&self) -> Map<nat, Set<nat>> {
        map_model(self.bit_sets@)
    }

    /// How many bucket entries are stored.
    pub closed spec fn spec_bucket_count(&self) -> nat {
        self.bit_sets@.len()
    }

    /// Create a new [`BTreeIndexSet`].
    pub fn new() -> (s: Self)
        ensures
            s.inv(),
            s.members() == Set::<nat>::empty(),
            s.spec_bucket_count() == 0,
    {
        let s = BTreeIndexSet { bit_sets: BTreeMap::new() };
        proof {
            S::lemma_width_facts();
            assert(map_members(S::spec_width(), s.bucket_map()) =~= Set::<nat>::empty());
        }
        s
    }

    /// Create a new [`BTreeIndexSet`] with the given capacity.
    ///
    /// The underlying ordered map has no pre-sizing interface, so the
    /// capacity hint is ignored.
    pub fn with_capacity(_capacity: usize) -> (s: Self)
        ensures
            s.inv(),
            s.members() == Set::<nat>::empty(),
            s.spec_bucket_count() == 0,
    {
        BTreeIndexSet::new()
    }

    /// How many bucket entries are stored.
    pub fn bucket_count(&self) -> (n: usize)
        ensures
            n == self.spec_bucket_count(),
    {
        self.bit_sets.len()
    }

    /// The bucket invariant, observably: since no stored word is ever
    /// all-clear, a set whose members all lie at or below `m` stores at
    /// most `m / WIDTH + 1` bucket entries.
    pub proof fn lemma_bucket_count_bound(&self, m: nat)
        requires
            self.inv(),
            forall|i: nat| self.members().contains(i) ==> i <= m,
        ensures
            self.spec_bucket_count() <= m / S::spec_width() + 1,
    {
        let w = S::spec_width();
        let mm = self.bucket_map();
        let f = |k: usize| k as nat;
        assert(self.bit_sets@.dom().map(f) =~= mm.dom()) by {
            assert forall|b: nat| mm.dom().contains(b) implies self.bit_sets@.dom().map(f).contains(
                b,
            ) by {
                assert(self.bit_sets@.dom().contains(b as usize));
                assert(f(b as usize) == b);
            }
        }
        assert(vstd::relations::injective_on(f, self.bit_sets@.dom()));
        vstd::set_lib::lemma_map_size(self.bit_sets@.dom(), mm.dom(), f);
        // Every stored bucket is occupied, hence at most m / WIDTH.
        assert forall|b: nat| mm.dom().contains(b) implies b < m / w + 1 by {
            assert(self.bit_sets@.contains_key(b as usize));
            let t = choose|t: nat| mm[b].contains(t);
            self.bit_sets@[b as usize].lemma_bits_below_width();
            lemma_decompose(w, b, t);
            assert(map_members(w, mm).contains(b * w + t));
            assert(self.members().contains(b * w + t));
            lemma_div_monotone(w, b * w + t, m);
        }
        vstd::set_lib::range_set_properties::<nat>(0, m / w + 1);
        assert(mm.dom() <= Set::<nat>::range(0, m / w + 1));
        lemma_len_subset(mm.dom(), Set::<nat>::range(0, m / w + 1));
    }
}

impl<S: Storage> Default for BTreeIndexSet<S> {
    /// An empty set.
    fn default() -> (s: Self)
        ensures
            s.inv(),
            s.members() == Set::<nat>::empty(),
    {
        BTreeIndexSet::new()
    }
}

impl<S: Storage> IndexSet for BTreeIndexSet<S> {
    closed spec fn members(&self) -> Set<nat> {
        map_members(S::spec_width(), map_model(self.bit_sets@))
    }

    closed spec fn inv(&self) -> bool {
        &&& width_wf(S::spec_width())
        &&& forall|b: usize| #[trigger]
            self.bit_sets@.contains_key(b) ==> !self.bit_sets@[b].bits().is_empty()
        &&& forall|b: usize| #[trigger]
            self.bit_sets@.contains_key(b) ==> b as nat <= usize::MAX as nat / S::spec_width()
    }

    proof fn lemma_members_bounded(&self) {
        let w = S::spec_width();
        let mm = self.bucket_map();
        assert forall|i: nat| self.members().contains(i) implies i <= usize::MAX by {
            lemma_recompose(w, i);
            lemma_entry_fits(w, i / w);
        }
        vstd::set_lib::range_set_properties::<nat>(0, usize::MAX as nat + 1);
        assert(self.members() <= Set::<nat>::range(0, usize::MAX as nat + 1));
        vstd::set_lib::lemma_set_subset_finite(
            Set::<nat>::range(0, usize::MAX as nat + 1),
            self.members(),
        );
    }

    fn with_capacity(capacity: usize) -> (s: Self) {
        BTreeIndexSet::with_capacity(capacity)
    }

    fn len(&self) -> (n: usize) {
        let ghost w = S::spec_width();
        let it0 = bucket_iter(&self.bit_sets);
        let ghost gs = into_iter(it0);
        let ghost kvs = pairs_model(gs);
        proof {
            lemma_kv_entries(w, self.bit_sets@, gs);
            lemma_take_zero(w, kvs);
        }
        let mut total: usize = 0;
        for p in it: it0
            invariant
                self.inv(),
                self.members().len() <= usize::MAX,
                w == S::spec_width(),
                width_wf(w),
                it.seq().unref() == gs,
                kvs == pairs_model(gs),
                entries_uniq(kvs),
                entries_wf(w, kvs),
                entries_members(w, kvs) == self.members(),
                0 <= it.index() <= kvs.len(),
                entries_members(w, kvs.take(it.index())).finite(),
                total == entries_members(w, kvs.take(it.index())).len(),
        {
            let ghost k = it.index();
            proof {
                assert(p == it.seq()[k]);
                assert(gs[k] == (*(it.seq()[k].0), *(it.seq()[k].1)));
                assert(kvs[k] == (gs[k].0 as nat, gs[k].1.bits()));
                lemma_take_len_step(w, kvs, k);
                lemma_prefix_subset(w, kvs, k + 1);
                self.lemma_members_bounded();
                lemma_len_subset(entries_members(w, kvs.take(k + 1)), entries_members(w, kvs));
            }
            total = total + p.1.num_of_high_bits();
        }
        proof {
            lemma_take_all(w, kvs);
        }
        total
    }

    fn is_empty(&self) -> (r: bool) {
        let ghost w = S::spec_width();
        let ghost mm = self.bucket_map();
        proof {
            if self.bit_sets@.is_empty() {
                assert(self.members() =~= Set::<nat>::empty()) by {
                    assert forall|i: nat| !self.members().contains(i) by {
                        if mm.dom().contains(i / w) {
                            assert(self.bit_sets@.contains_key((i / w) as usize));
                            assert(self.bit_sets@.dom().contains((i / w) as usize));
                        }
                    }
                }
            } else {
                let b = choose|b: usize| self.bit_sets@.dom().contains(b);
                assert(self.bit_sets@.contains_key(b));
                let t = choose|t: nat| self.bit_sets@[b].bits().contains(t);
                self.bit_sets@[b].lemma_bits_below_width();
                assert(mm.dom().contains(b as nat) && mm[b as nat] == self.bit_sets@[b].bits());
                lemma_decompose(w, b as nat, t);
                assert(self.members().contains(b as nat * w + t));
            }
        }
        self.bit_sets.is_empty()
    }

    fn insert(&mut self, index: usize) {
        let ghost w = S::spec_width();
        let ghost mm = map_model(old(self).bit_sets@);
        let (map_index, bit_index) = calculate_map_and_set_indices::<S>(index);
        let ghost t = index as nat % w;
        proof {
            lemma_recompose(w, index as nat);
        }
        let wd = match self.bit_sets.get(&map_index) {
            Some(wd) => *wd,
            None => S::zero(),
        };
        let ghost wb = if mm.dom().contains(map_index as nat) {
            mm[map_index as nat]
        } else {
            Set::<nat>::empty()
        };
        proof {
            assert(wd.bits() == wb);
        }
        let wd2 = wd.with_bit_set(bit_index);
        self.bit_sets.insert(map_index, wd2);
        proof {
            assert(self.bit_sets@ == old(self).bit_sets@.insert(map_index, wd2));
            assert(map_model(self.bit_sets@) =~= mm.insert(map_index as nat, wd2.bits())) by {
                lemma_map_model_insert(old(self).bit_sets@, map_index, wd2);
            }
            assert(wd2.bits() =~= wb.union(Set::<nat>::empty().insert(t)));
            lemma_map_or_word(w, mm, map_index as nat, Set::<nat>::empty().insert(t));
            lemma_entry_singleton(w, map_index as nat, t);
            assert(self.members() =~= old(self).members().insert(index as nat));
            assert forall|b: usize| #[trigger]
                self.bit_sets@.contains_key(b) implies !self.bit_sets@[b].bits().is_empty() && (
            b as nat <= usize::MAX as nat / w) by {
                if b == map_index {
                    assert(self.bit_sets@[b] == wd2);
                    assert(wd2.bits().contains(t));
                } else {
                    assert(old(self).bit_sets@.contains_key(b));
                    assert(self.bit_sets@[b] == old(self).bit_sets@[b]);
                }
            }
        }
    }

    fn remove(&mut self, index: usize) {
        let ghost w = S::spec_width();
        let ghost mm = map_model(old(self).bit_sets@);
        let (map_index, bit_index) = calculate_map_and_set_indices::<S>(index);
        let ghost t = index as nat % w;
        proof {
            lemma_recompose(w, index as nat);
        }
        let wd = match self.bit_sets.get(&map_index) {
            Some(wd) => *wd,
            None => {
                proof {
                    assert(!mm.dom().contains(index as nat / w));
                    assert(old(self).members().remove(index as nat) =~= old(self).members());
                }
                return ;
            },
        };
        proof {
            assert(mm.dom().contains(map_index as nat) && mm[map_index as nat] == wd.bits());
        }
        let wd2 = wd.with_bit_cleared(bit_index);
        if wd2.is_zero() {
            self.bit_sets.remove(&map_index);
            proof {
                assert(self.bit_sets@ == old(self).bit_sets@.remove(map_index));
                assert(map_model(self.bit_sets@) =~= mm.remove(map_index as nat)) by {
                    lemma_map_model_remove(old(self).bit_sets@, map_index);
                }
                lemma_map_remove_bucket(w, mm, map_index as nat, t);
                assert(self.members() =~= old(self).members().remove(index as nat));
                assert forall|b: usize| #[trigger]
                    self.bit_sets@.contains_key(b) implies !self.bit_sets@[b].bits().is_empty()
                    && (b as nat <= usize::MAX as nat / w) by {
                    assert(old(self).bit_sets@.contains_key(b));
                    assert(self.bit_sets@[b] == old(self).bit_sets@[b]);
                }
            }
        } else {
            self.bit_sets.insert(map_index, wd2);
            proof {
                assert(self.bit_sets@ == old(self).bit_sets@.insert(map_index, wd2));
                assert(map_model(self.bit_sets@) =~= mm.insert(map_index as nat, wd2.bits())) by {
                    lemma_map_model_insert(old(self).bit_sets@, map_index, wd2);
                }
                lemma_map_clear_bit(w, mm, map_index as nat, t);
                assert(self.members() =~= old(self).members().remove(index as nat));
                assert forall|b: usize| #[trigger]
                    self.bit_sets@.contains_key(b) implies !self.bit_sets@[b].bits().is_empty()
                    && (b as nat <= usize::MAX as nat / w) by {
                    if b == map_index {
                        assert(self.bit_sets@[b] == wd2);
                    } else {
                        assert(old(self).bit_sets@.contains_key(b));
                        assert(self.bit_sets@[b] == old(self).bit_sets@[b]);
                    }
                }
            }
        }
    }

    fn contains(&self, index: usize) -> (r: bool) {
        let ghost w = S::spec_width();
        let ghost mm = self.bucket_map();
        let (map_index, bit_index) = calculate_map_and_set_indices::<S>(index);
        match self.bit_sets.get(&map_index) {
            Some(wd) => {
                proof {
                    assert(mm.dom().contains(index as nat / w) && mm[index as nat / w]
                        == wd.bits());
                }
                wd.bit_is_set(bit_index)
            },
            None => {
                proof {
                    assert(!mm.dom().contains(index as nat / w));
                }
                false
            },
        }
    }

    fn iter(&self) -> (indices: Vec<usize>) {
        let ghost w = S::spec_width();
        let it0 = bucket_iter(&self.bit_sets);
        let ghost gs = into_iter(it0);
        let ghost kvs = pairs_model(gs);
        proof {
            lemma_kv_entries(w, self.bit_sets@, gs);
            lemma_take_zero(w, kvs);
        }
        // Assemble the entries into a sorted array and reuse its
        // ascending walk.
        let mut entries: VecIndexSet<S> = VecIndexSet::new();
        for p in it: it0
            invariant
                entries.inv(),
                w == S::spec_width(),
                width_wf(w),
                it.seq().unref() == gs,
                kvs == pairs_model(gs),
                entries_wf(w, kvs),
                entries_members(w, kvs) == self.members(),
                0 <= it.index() <= kvs.len(),
                entries.members() == entries_members(w, kvs.take(it.index())),
        {
            let ghost k = it.index();
            proof {
                assert(p == it.seq()[k]);
                assert(gs[k] == (*(it.seq()[k].0), *(it.seq()[k].1)));
                assert(kvs[k] == (gs[k].0 as nat, gs[k].1.bits()));
                assert(entry_wf(w, kvs[k]));
            }
            entries.merge_entry(*p.0, *p.1);
            proof {
                lemma_take_step(w, kvs, k);
                assert(entries.members() =~= entries_members(w, kvs.take(k + 1)));
            }
        }
        proof {
            lemma_take_all(w, kvs);
        }
        entries.iter()
    }

    fn union(&mut self, other: &Self) {
        let ghost w = S::spec_width();
        let it0 = bucket_iter(&other.bit_sets);
        let ghost gs = into_iter(it0);
        let ghost kvs = pairs_model(gs);
        proof {
            lemma_kv_entries(w, other.bit_sets@, gs);
            lemma_take_zero(w, kvs);
            assert(old(self).members().union(entries_members(w, kvs.take(0))) =~= old(
                self,
            ).members());
        }
        for p in it: it0
            invariant
                self.inv(),
                w == S::spec_width(),
                width_wf(w),
                it.seq().unref() == gs,
                kvs == pairs_model(gs),
                entries_wf(w, kvs),
                0 <= it.index() <= kvs.len(),
                self.members() == old(self).members().union(
                    entries_members(w, kvs.take(it.index())),
                ),
        {
            let ghost k = it.index();
            let b = *p.0;
            let ow = *p.1;
            proof {
                assert(p == it.seq()[k]);
                assert(gs[k] == (*(it.seq()[k].0), *(it.seq()[k].1)));
                assert(kvs[k] == (b as nat, ow.bits()));
                assert(entry_wf(w, kvs[k]));
            }
            let ghost pre = self.members();
            let ghost m0 = self.bit_sets@;
            let ghost mm = map_model(m0);
            let wd = match self.bit_sets.get(&b) {
                Some(wd) => *wd,
                None => S::zero(),
            };
            let ghost wb = if mm.dom().contains(b as nat) {
                mm[b as nat]
            } else {
                Set::<nat>::empty()
            };
            proof {
                assert(wd.bits() == wb);
            }
            let wd2 = wd.or_with(ow);
            self.bit_sets.insert(b, wd2);
            proof {
                assert(self.bit_sets@ == m0.insert(b, wd2));
                assert(map_model(self.bit_sets@) =~= mm.insert(b as nat, wd2.bits())) by {
                    lemma_map_model_insert(m0, b, wd2);
                }
                lemma_map_or_word(w, mm, b as nat, ow.bits());
                assert(self.members() == pre.union(entry_members(w, b as nat, ow.bits())));
                lemma_take_step(w, kvs, k);
                assert(self.members() =~= old(self).members().union(
                    entries_members(w, kvs.take(k + 1)),
                ));
                assert forall|bb: usize| #[trigger]
                    self.bit_sets@.contains_key(bb) implies !self.bit_sets@[bb].bits().is_empty()
                    && (bb as nat <= usize::MAX as nat / w) by {
                    if bb == b {
                        assert(self.bit_sets@[bb] == wd2);
                        let x = choose|x: nat| ow.bits().contains(x);
                        assert(wd2.bits().contains(x));
                    } else {
                        assert(m0.contains_key(bb));
                        assert(self.bit_sets@[bb] == m0[bb]);
                    }
                }
            }
        }
        proof {
            lemma_take_all(w, kvs);
        }
    }

    fn reserve(&mut self, _additional: usize) {
        // The ordered map has no pre-sizing interface.
    }
}

/// The members of a prefix of an entry sequence are members of the
/// whole.
proof fn lemma_prefix_subset(w: nat, es: Seq<(nat, Set<nat>)>, k: int)
    requires
        0 <= k <= es.len(),
    ensures
        entries_members(w, es.take(k)) <= entries_members(w, es),
{
    assert forall|i: nat|
        entries_members(w, es.take(k)).contains(i) implies entries_members(w, es).contains(i) by {
        let k1 = choose|k1: int|
            0 <= k1 < es.take(k).len() && entry_covers(w, #[trigger] es.take(k)[k1], i);
        assert(es.take(k)[k1] == es[k1]);
        assert(entry_covers(w, es[k1], i));
    }
}

/// Inserting into the bucket map acts pointwise on its model.
proof fn lemma_map_model_insert<S: Storage>(m: Map<usize, S>, b: usize, wd: S)
    ensures
        map_model(m.insert(b, wd)) == map_model(m).insert(b as nat, wd.bits()),
{
    assert(map_model(m.insert(b, wd)) =~= map_model(m).insert(b as nat, wd.bits())) by {
        assert forall|x: nat|
            #![trigger map_model(m.insert(b, wd)).dom().contains(x)]
            true implies {
            &&& map_model(m.insert(b, wd)).dom().contains(x) == map_model(m).insert(
                b as nat,
                wd.bits(),
            ).dom().contains(x)
            &&& (map_model(m.insert(b, wd)).dom().contains(x) ==> map_model(m.insert(b, wd))[x]
                == map_model(m).insert(b as nat, wd.bits())[x])
        } by {
            if x <= usize::MAX {
                if x == b as nat {
                    assert(m.insert(b, wd).contains_key(x as usize));
                    assert(m.insert(b, wd)[b] == wd);
                } else {
                    assert(x as usize != b);
                    assert(m.insert(b, wd).contains_key(x as usize) == m.contains_key(x as usize));
                    if m.contains_key(x as usize) {
                        assert(m.insert(b, wd)[x as usize] == m[x as usize]);
                    }
                }
            }
        }
    }
}

/// Removing from the bucket map acts pointwise on its model.
proof fn lemma_map_model_remove<S: Storage>(m: Map<usize, S>, b: usize)
    ensures
        map_model(m.remove(b)) == map_model(m).remove(b as nat),
{
    assert(map_model(m.remove(b)) =~= map_model(m).remove(b as nat)) by {
        assert forall|x: nat|
            #![trigger map_model(m.remove(b)).dom().contains(x)]
            true implies {
            &&& map_model(m.remove(b)).dom().contains(x) == map_model(m).remove(
                b as nat,
            ).dom().contains(x)
            &&& (map_model(m.remove(b)).dom().contains(x) ==> map_model(m.remove(b))[x]
                == map_model(m).remove(b as nat)[x])
        } by {
            if x <= usize::MAX {
                if x == b as nat {
                    assert(!m.remove(b).contains_key(x as usize));
                } else {
                    assert(x as usize != b);
                    assert(m.remove(b).contains_key(x as usize) == m.contains_key(x as usize));
                    if m.contains_key(x as usize) {
                        assert(m.remove(b)[x as usize] == m[x as usize]);
                    }
                }
            }
        }
    }
}

/// The ordered map's iterator, with the key-value sequence it will
/// yield pinned down.  Relies on the standard library's iterator
/// contract for `BTreeMap`: the yielded pairs are exactly the map's
/// entries, each key exactly once.
fn bucket_iter<'a, S: Storage>(m: &'a BTreeMap<usize, S>) -> (r: btree_map::Iter<
    'a,
    usize,
    S,
>)
    ensures
        IteratorSpec::decrease(&r) is Some,
        IteratorSpec::initial_value_relation(&r, &r),
        into_iter(r).len() == m@.dom().len(),
        forall|k: int|
            0 <= k < into_iter(r).len() ==> m@.contains_key((#[trigger] into_iter(r)[k]).0)
                && m@[into_iter(r)[k].0] == into_iter(r)[k].1,
        forall|key: usize| #[trigger]
            m@.contains_key(key) ==> into_iter(r).contains((key, m@[key])),
        forall|a: int, c: int|
            0 <= a < c < into_iter(r).len() ==> (#[trigger] into_iter(r)[a]).0 != (
            #[trigger] into_iter(r)[c]).0,
{
    let it = m.iter();
    proof {
        let gs = into_iter(it);
        assert(gs == it.remaining().unref());
        assert(it.remaining() == vstd::std_specs::btree::spec_btree_map_iter(m).remaining());
        assert(gs.len() == m@.dom().len());
        assert forall|k: int|
            0 <= k < gs.len() implies m@.contains_key((#[trigger] gs[k]).0) && m@[gs[k].0]
            == gs[k].1 by {
            assert(gs[k] == (*(it.remaining()[k].0), *(it.remaining()[k].1)));
            assert(m@.contains_key(*(it.remaining()[k].0)));
        }
        assert forall|key: usize| #[trigger] m@.contains_key(key) implies gs.contains(
            (key, m@[key]),
        ) by {
            assert(it.remaining().contains((&key, &m@[key])));
            let j = choose|j: int|
                0 <= j < it.remaining().len() && it.remaining()[j] == (&key, &m@[key]);
            assert(gs[j] == (key, m@[key]));
        }
        assert forall|a: int, c: int|
            0 <= a < c < gs.len() implies (#[trigger] gs[a]).0 != (#[trigger] gs[c]).0 by {
            if gs[a].0 == gs[c].0 {
                assert(m@[gs[a].0] == gs[a].1 && m@[gs[c].0] == gs[c].1);
                assert(gs[a] == (*(it.remaining()[a].0), *(it.remaining()[a].1)));
                assert(gs[c] == (*(it.remaining()[c].0), *(it.remaining()[c].1)));
                assert(it.remaining()[a] == it.remaining()[c]);
                assert(it.remaining().no_duplicates());
            }
        }
    }
    it
}

/// The entry list an ordered bucket map yields is well-formed, has no
/// repeated bucket, and covers exactly the map's members.
proof fn lemma_kv_entries<S: Storage>(w: nat, m: Map<usize, S>, gs: Seq<(usize, S)>)
    requires
        w == S::spec_width(),
        width_wf(w),
        forall|b: usize| #[trigger] m.contains_key(b) ==> !m[b].bits().is_empty(),
        forall|b: usize| #[trigger] m.contains_key(b) ==> b as nat <= usize::MAX as nat / w,
        gs.len() == m.dom().len(),
        forall|k: int|
            0 <= k < gs.len() ==> m.contains_key((#[trigger] gs[k]).0) && m[gs[k].0] == gs[k].1,
        forall|key: usize| #[trigger] m.contains_key(key) ==> gs.contains((key, m[key])),
        forall|a: int, c: int|
            0 <= a < c < gs.len() ==> (#[trigger] gs[a]).0 != (#[trigger] gs[c]).0,
    ensures
        entries_uniq(pairs_model(gs)),
        entries_wf(w, pairs_model(gs)),
        entries_members(w, pairs_model(gs)) == map_members(w, map_model(m)),
{
    let kvs = pairs_model(gs);
    assert forall|k1: int, k2: int|
        #![trigger kvs[k1], kvs[k2]]
        0 <= k1 < k2 < kvs.len() implies kvs[k1].0 != kvs[k2].0 by {
        assert(kvs[k1].0 == gs[k1].0 as nat);
        assert(kvs[k2].0 == gs[k2].0 as nat);
    }
    assert forall|k: int| 0 <= k < kvs.len() implies entry_wf(w, #[trigger] kvs[k]) by {
        assert(kvs[k] == (gs[k].0 as nat, gs[k].1.bits()));
        assert(m.contains_key(gs[k].0) && m[gs[k].0] == gs[k].1);
        gs[k].1.lemma_bits_below_width();
    }
    assert(entries_members(w, kvs) =~= map_members(w, map_model(m))) by {
        assert forall|i: nat|
            entries_members(w, kvs).contains(i) implies map_members(w, map_model(m)).contains(
            i,
        ) by {
            let k = choose|k: int| 0 <= k < kvs.len() && entry_covers(w, #[trigger] kvs[k], i);
            assert(kvs[k] == (gs[k].0 as nat, gs[k].1.bits()));
            assert(m.contains_key(gs[k].0) && m[gs[k].0] == gs[k].1);
            assert(map_model(m).dom().contains(i / w));
            assert(map_model(m)[i / w] == gs[k].1.bits());
        }
        assert forall|i: nat|
            map_members(w, map_model(m)).contains(i) implies entries_members(w, kvs).contains(
            i,
        ) by {
            let mm = map_model(m);
            assert(mm.dom().contains(i / w));
            let b = (i / w) as usize;
            assert(m.contains_key(b));
            assert(gs.contains((b, m[b])));
            let k = choose|k: int| 0 <= k < gs.len() && gs[k] == (b, m[b]);
            assert(kvs[k] == (b as nat, m[b].bits()));
            assert(entry_covers(w, kvs[k], i));
        }
    }
}

} // verus!
