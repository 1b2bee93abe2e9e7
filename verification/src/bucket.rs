//! The bucket model shared by both backends.
//!
//! An index set holds bucket entries: a bucket index `b` together with a
//! storage word whose set bits `bs` stand for the indices
//! `b * WIDTH + t`, one per bit position `t` in `bs`.  This module gives
//! the mathematical reading of entries — as plain pairs of a bucket
//! number and a set of bit positions — and the lemmas that relate the
//! operations of both backends to plain set operations on the members.

use vstd::arithmetic::div_mod::lemma_div_is_ordered;
use vstd::arithmetic::div_mod::lemma_fundamental_div_mod;
use vstd::arithmetic::div_mod::lemma_fundamental_div_mod_converse;
use vstd::arithmetic::div_mod::lemma_mod_bound;
use vstd::arithmetic::mul::lemma_mul_basics;
use vstd::arithmetic::mul::lemma_mul_inequality;
use vstd::arithmetic::mul::lemma_mul_is_commutative;
use vstd::arithmetic::mul::lemma_mul_is_distributive_sub_other_way;
use vstd::prelude::*;
use vstd::set_lib::lemma_map_size;
use vstd::set_lib::lemma_set_disjoint_lens;
use vstd::set_lib::lemma_set_subset_finite;
use vstd::set_lib::range_set_properties;

use crate::storage::Storage;

verus! {

/// What a word width must satisfy: positive, representable, and a
/// divisor of `usize::MAX + 1`, so that every bucket index at most
/// `usize::MAX / w` covers only representable indices.
pub open spec fn width_wf(w: nat) -> bool {
    &&& w >= 1
    &&& w <= usize::MAX
    &&& (usize::MAX as nat + 1) % w == 0
}

/// Whether the entry `e` (bucket index, set bit positions) covers the
/// index `i`, for word width `w`.
pub open spec fn entry_covers(w: nat, e: (nat, Set<nat>), i: nat) -> bool {
    e.0 == i / w && e.1.contains(i % w)
}

/// The indices covered by the single bucket entry `(b, bs)`.
pub open spec fn entry_members(w: nat, b: nat, bs: Set<nat>) -> Set<nat> {
    Set::new(|i: nat| entry_covers(w, (b, bs), i))
}

/// The indices covered by a sequence of bucket entries.
pub open spec fn entries_members(w: nat, es: Seq<(nat, Set<nat>)>) -> Set<nat> {
    Set::new(|i: nat| exists|k: int| 0 <= k < es.len() && entry_covers(w, #[trigger] es[k], i))
}

/// The indices covered by a map from bucket index to set bit positions.
pub open spec fn map_members(w: nat, mm: Map<nat, Set<nat>>) -> Set<nat> {
    Set::new(|i: nat| mm.dom().contains(i / w) && mm[i / w].contains(i % w))
}

/// A single well-formed entry: occupied, bits below the width, and a
/// bucket index low enough that all covered indices fit in `usize`.
pub open spec fn entry_wf(w: nat, e: (nat, Set<nat>)) -> bool {
    &&& !e.1.is_empty()
    &&& forall|t: nat| e.1.contains(t) ==> t < w
    &&& e.0 <= usize::MAX as nat / w
}

/// Entries in strictly ascending bucket order.
pub open spec fn entries_sorted(es: Seq<(nat, Set<nat>)>) -> bool {
    forall|k1: int, k2: int|
        #![trigger es[k1], es[k2]]
        0 <= k1 < k2 < es.len() ==> es[k1].0 < es[k2].0
}

/// All entries well-formed.
pub open spec fn entries_wf(w: nat, es: Seq<(nat, Set<nat>)>) -> bool {
    forall|k: int| 0 <= k < es.len() ==> entry_wf(w, #[trigger] es[k])
}

/// No two entries share a bucket index.
pub open spec fn entries_uniq(es: Seq<(nat, Set<nat>)>) -> bool {
    forall|k1: int, k2: int|
        #![trigger es[k1], es[k2]]
        0 <= k1 < k2 < es.len() ==> es[k1].0 != es[k2].0
}

/// Strictly ascending buckets are in particular unique.
pub proof fn lemma_sorted_uniq(es: Seq<(nat, Set<nat>)>)
    requires
        entries_sorted(es),
    ensures
        entries_uniq(es),
{
}

/// The abstract entries of a pair vector (array backend).
pub open spec fn pairs_model<S: Storage>(ps: Seq<(usize, S)>) -> Seq<(nat, Set<nat>)> {
    ps.map_values(|p: (usize, S)| (p.0 as nat, p.1.bits()))
}

/// The abstract entries of a bucket map (map backend).
pub open spec fn map_model<S: Storage>(m: Map<usize, S>) -> Map<nat, Set<nat>> {
    Map::new(
        |b: nat| b <= usize::MAX && m.contains_key(b as usize),
        |b: nat| m[b as usize].bits(),
    )
}

/// Splitting an index into bucket and bit position and recombining them
/// are mutually inverse.
pub proof fn lemma_recompose(w: nat, i: nat)
    requires
        w >= 1,
    ensures
        i == (i / w) * w + (i % w),
        i % w < w,
{
    lemma_fundamental_div_mod(i as int, w as int);
    lemma_mod_bound(i as int, w as int);
    lemma_mul_is_commutative(w as int, (i / w) as int);
}

/// A bucket index and a bit position below the width determine the
/// bucket and bit of the combined index.
pub proof fn lemma_decompose(w: nat, b: nat, t: nat)
    requires
        w >= 1,
        t < w,
    ensures
        (b * w + t) / w == b,
        (b * w + t) % w == t,
{
    lemma_fundamental_div_mod_converse((b * w + t) as int, w as int, b as int, t as int);
}

/// Every index covered by a well-formed bucket fits in `usize`.
pub proof fn lemma_entry_fits(w: nat, b: nat)
    requires
        width_wf(w),
        b <= usize::MAX as nat / w,
    ensures
        b * w + (w - 1) <= usize::MAX,
{
    let m1 = usize::MAX as nat + 1;
    let q = m1 / w;
    lemma_fundamental_div_mod(m1 as int, w as int);
    lemma_mul_is_commutative(w as int, q as int);
    assert(m1 == q * w);
    assert(q >= 1) by {
        if q == 0 {
            assert(m1 == q * w);
            lemma_mul_basics(w as int);
            lemma_mul_is_commutative(w as int, 0);
            assert(m1 == 0);
        }
    }
    lemma_mul_is_distributive_sub_other_way(w as int, q as int, 1);
    lemma_mul_basics(w as int);
    assert((q - 1) * w == q * w - w);
    lemma_fundamental_div_mod_converse(
        usize::MAX as int,
        w as int,
        (q - 1) as int,
        (w - 1) as int,
    );
    assert(usize::MAX as nat / w == q - 1);
    lemma_mul_inequality(b as int, (q - 1) as int, w as int);
    assert(b * w <= (q - 1) * w);
}

/// The members of one bucket entry are exactly the combined indices of
/// its bit positions; there are as many members as set bits.
pub proof fn lemma_entry_members_len(w: nat, b: nat, bs: Set<nat>)
    requires
        width_wf(w),
        forall|t: nat| bs.contains(t) ==> t < w,
    ensures
        bs.finite(),
        entry_members(w, b, bs).finite(),
        entry_members(w, b, bs).len() == bs.len(),
{
    range_set_properties::<nat>(0, w);
    assert(bs <= Set::<nat>::range(0, w));
    lemma_set_subset_finite(Set::<nat>::range(0, w), bs);
    let f = |t: nat| b * w + t;
    assert(bs.map(f) =~= entry_members(w, b, bs)) by {
        assert forall|i: nat| #[trigger] entry_members(w, b, bs).contains(i) implies bs.map(
            f,
        ).contains(i) by {
            lemma_recompose(w, i);
            assert(bs.contains(i % w));
            assert(f(i % w) == i);
        }
        assert forall|i: nat| #[trigger] bs.map(f).contains(i) implies entry_members(
            w,
            b,
            bs,
        ).contains(i) by {
            let t = choose|t: nat| bs.contains(t) && f(t) == i;
            lemma_decompose(w, b, t);
        }
    }
    assert(vstd::relations::injective_on(f, bs)) by {
        assert forall|t1: nat, t2: nat|
            bs.contains(t1) && bs.contains(t2) && #[trigger] f(t1) == #[trigger] f(t2) implies t1
            == t2 by {}
    }
    lemma_map_size(bs, entry_members(w, b, bs), f);
}

/// A bucket entry holding a single bit covers a single index.
pub proof fn lemma_entry_singleton(w: nat, b: nat, t: nat)
    requires
        w >= 1,
        t < w,
    ensures
        entry_members(w, b, Set::<nat>::empty().insert(t)) == Set::<nat>::empty().insert(
            b * w + t,
        ),
{
    lemma_decompose(w, b, t);
    assert(entry_members(w, b, Set::<nat>::empty().insert(t)) =~= Set::<nat>::empty().insert(
        b * w + t,
    )) by {
        assert forall|i: nat|
            entry_members(w, b, Set::<nat>::empty().insert(t)).contains(i) implies i == b * w
            + t by {
            lemma_recompose(w, i);
        }
    }
}

/// Taking one more entry adds exactly that entry's members.
pub proof fn lemma_take_step(w: nat, es: Seq<(nat, Set<nat>)>, k: int)
    requires
        w >= 1,
        0 <= k < es.len(),
    ensures
        entries_members(w, es.take(k + 1)) == entries_members(w, es.take(k)).union(
            entry_members(w, es[k].0, es[k].1),
        ),
{
    let lhs = entries_members(w, es.take(k + 1));
    let rhs = entries_members(w, es.take(k)).union(entry_members(w, es[k].0, es[k].1));
    assert(lhs =~= rhs) by {
        assert forall|i: nat| lhs.contains(i) implies rhs.contains(i) by {
            let k1 = choose|k1: int|
                0 <= k1 < es.take(k + 1).len() && entry_covers(w, #[trigger] es.take(k + 1)[k1], i);
            if k1 < k {
                assert(es.take(k)[k1] == es.take(k + 1)[k1]);
                assert(entries_members(w, es.take(k)).contains(i));
            } else {
                assert(es.take(k + 1)[k1] == es[k]);
                assert(entry_covers(w, (es[k].0, es[k].1), i));
            }
        }
        assert forall|i: nat| rhs.contains(i) implies lhs.contains(i) by {
            if entries_members(w, es.take(k)).contains(i) {
                let k1 = choose|k1: int|
                    0 <= k1 < es.take(k).len() && entry_covers(w, #[trigger] es.take(k)[k1], i);
                assert(es.take(k + 1)[k1] == es.take(k)[k1]);
                assert(entry_covers(w, es.take(k + 1)[k1], i));
            } else {
                assert(entry_covers(w, es.take(k + 1)[k], i));
            }
        }
    }
}

/// The members of any prefix are disjoint from the members of the next
/// entry, when buckets are strictly sorted.
pub proof fn lemma_prefix_disjoint(w: nat, es: Seq<(nat, Set<nat>)>, k: int)
    requires
        w >= 1,
        entries_uniq(es),
        0 <= k < es.len(),
    ensures
        entries_members(w, es.take(k)).disjoint(entry_members(w, es[k].0, es[k].1)),
{
    assert forall|i: nat|
        entries_members(w, es.take(k)).contains(i) implies !entry_members(
        w,
        es[k].0,
        es[k].1,
    ).contains(i) by {
        let k1 = choose|k1: int|
            0 <= k1 < es.take(k).len() && entry_covers(w, #[trigger] es.take(k)[k1], i);
        assert(es.take(k)[k1] == es[k1]);
        assert(es[k1].0 != es[k].0);
    }
}

/// The members of a sorted, well-formed entry sequence are finite, and
/// counted exactly by the per-entry bit counts, prefix by prefix.
pub proof fn lemma_take_len_step(w: nat, es: Seq<(nat, Set<nat>)>, k: int)
    requires
        width_wf(w),
        entries_uniq(es),
        entries_wf(w, es),
        0 <= k < es.len(),
        entries_members(w, es.take(k)).finite(),
    ensures
        entries_members(w, es.take(k + 1)).finite(),
        entries_members(w, es.take(k + 1)).len() == entries_members(w, es.take(k)).len()
            + es[k].1.len(),
{
    assert(entry_wf(w, es[k]));
    lemma_entry_members_len(w, es[k].0, es[k].1);
    lemma_take_step(w, es, k);
    lemma_prefix_disjoint(w, es, k);
    lemma_set_disjoint_lens(entries_members(w, es.take(k)), entry_members(w, es[k].0, es[k].1));
    assert(entries_members(w, es.take(k)) + entry_members(w, es[k].0, es[k].1)
        == entries_members(w, es.take(k)).union(entry_members(w, es[k].0, es[k].1)));
}

/// An empty prefix has no members.
pub proof fn lemma_take_zero(w: nat, es: Seq<(nat, Set<nat>)>)
    ensures
        entries_members(w, es.take(0)) == Set::<nat>::empty(),
        entries_members(w, es.take(0)).finite(),
{
    assert(entries_members(w, es.take(0)) =~= Set::<nat>::empty());
}

/// The full take is the sequence itself.
pub proof fn lemma_take_all(w: nat, es: Seq<(nat, Set<nat>)>)
    ensures
        entries_members(w, es.take(es.len() as int)) == entries_members(w, es),
{
    assert(es.take(es.len() as int) =~= es);
}

/// The members of a well-formed entry sequence are finite and all
/// representable as `usize`.
pub proof fn lemma_entries_members_bounded(w: nat, es: Seq<(nat, Set<nat>)>)
    requires
        width_wf(w),
        entries_sorted(es),
        entries_wf(w, es),
    ensures
        entries_members(w, es).finite(),
        forall|i: nat| entries_members(w, es).contains(i) ==> i <= usize::MAX,
    decreases es.len(),
{
    assert forall|i: nat| entries_members(w, es).contains(i) implies i <= usize::MAX by {
        let k = choose|k: int| 0 <= k < es.len() && entry_covers(w, #[trigger] es[k], i);
        assert(entry_wf(w, es[k]));
        lemma_recompose(w, i);
        lemma_entry_fits(w, es[k].0);
        lemma_mul_inequality(es[k].0 as int, (usize::MAX as nat / w) as int, w as int);
        assert(i == es[k].0 * w + (i % w));
    }
    if es.len() == 0 {
        assert(entries_members(w, es) =~= Set::<nat>::empty());
    } else {
        let k = es.len() - 1;
        lemma_entries_members_bounded(w, es.take(k));
        lemma_take_step(w, es, k);
        assert(es.take(k + 1) =~= es);
        lemma_entry_members_len(w, es[k].0, es[k].1);
        assert(entries_members(w, es) == entries_members(w, es.take(k)).union(
            entry_members(w, es[k].0, es[k].1),
        ));
    }
}

/// OR-ing bits into the word of entry `k` adds exactly the indices the
/// added bits cover in that bucket.
pub proof fn lemma_update_or(w: nat, es: Seq<(nat, Set<nat>)>, k: int, add: Set<nat>)
    requires
        w >= 1,
        0 <= k < es.len(),
    ensures
        entries_members(w, es.update(k, (es[k].0, es[k].1.union(add)))) == entries_members(
            w,
            es,
        ).union(entry_members(w, es[k].0, add)),
{
    let es2 = es.update(k, (es[k].0, es[k].1.union(add)));
    let lhs = entries_members(w, es2);
    let rhs = entries_members(w, es).union(entry_members(w, es[k].0, add));
    assert(lhs =~= rhs) by {
        assert forall|i: nat| lhs.contains(i) implies rhs.contains(i) by {
            let k1 = choose|k1: int| 0 <= k1 < es2.len() && entry_covers(w, #[trigger] es2[k1], i);
            if k1 == k {
                assert(es2[k] == (es[k].0, es[k].1.union(add)));
                if es[k].1.contains(i % w) {
                    assert(entry_covers(w, es[k], i));
                } else {
                    assert(add.contains(i % w));
                }
            } else {
                assert(es2[k1] == es[k1]);
                assert(entry_covers(w, es[k1], i));
            }
        }
        assert forall|i: nat| rhs.contains(i) implies lhs.contains(i) by {
            if entries_members(w, es).contains(i) {
                let k1 = choose|k1: int|
                    0 <= k1 < es.len() && entry_covers(w, #[trigger] es[k1], i);
                if k1 == k {
                    assert(es2[k] == (es[k].0, es[k].1.union(add)));
                    assert(entry_covers(w, es2[k], i));
                } else {
                    assert(es2[k1] == es[k1]);
                    assert(entry_covers(w, es2[k1], i));
                }
            } else {
                assert(es2[k] == (es[k].0, es[k].1.union(add)));
                assert(entry_covers(w, es2[k], i));
            }
        }
    }
}

/// Splicing a new entry in at any position adds exactly its members.
pub proof fn lemma_insert_entry(w: nat, es: Seq<(nat, Set<nat>)>, p: int, b: nat, bs: Set<nat>)
    requires
        w >= 1,
        0 <= p <= es.len(),
    ensures
        entries_members(w, es.insert(p, (b, bs))) == entries_members(w, es).union(
            entry_members(w, b, bs),
        ),
{
    let es2 = es.insert(p, (b, bs));
    let lhs = entries_members(w, es2);
    let rhs = entries_members(w, es).union(entry_members(w, b, bs));
    assert(lhs =~= rhs) by {
        assert forall|i: nat| lhs.contains(i) implies rhs.contains(i) by {
            let k1 = choose|k1: int| 0 <= k1 < es2.len() && entry_covers(w, #[trigger] es2[k1], i);
            if k1 == p {
                assert(entry_covers(w, (b, bs), i));
            } else if k1 < p {
                assert(es2[k1] == es[k1]);
                assert(entry_covers(w, es[k1], i));
            } else {
                assert(es2[k1] == es[k1 - 1]);
                assert(entry_covers(w, es[k1 - 1], i));
            }
        }
        assert forall|i: nat| rhs.contains(i) implies lhs.contains(i) by {
            if entries_members(w, es).contains(i) {
                let k1 = choose|k1: int|
                    0 <= k1 < es.len() && entry_covers(w, #[trigger] es[k1], i);
                if k1 < p {
                    assert(es2[k1] == es[k1]);
                    assert(entry_covers(w, es2[k1], i));
                } else {
                    assert(es2[k1 + 1] == es[k1]);
                    assert(entry_covers(w, es2[k1 + 1], i));
                }
            } else {
                assert(entry_covers(w, es2[p], i));
            }
        }
    }
}

/// Splicing an entry out of a sorted sequence removes exactly its
/// members.
pub proof fn lemma_remove_entry(w: nat, es: Seq<(nat, Set<nat>)>, k: int)
    requires
        w >= 1,
        entries_sorted(es),
        0 <= k < es.len(),
    ensures
        entries_members(w, es.remove(k)) == entries_members(w, es).difference(
            entry_members(w, es[k].0, es[k].1),
        ),
{
    let es2 = es.remove(k);
    let lhs = entries_members(w, es2);
    let rhs = entries_members(w, es).difference(entry_members(w, es[k].0, es[k].1));
    assert(lhs =~= rhs) by {
        assert forall|i: nat| lhs.contains(i) implies rhs.contains(i) by {
            let k1 = choose|k1: int| 0 <= k1 < es2.len() && entry_covers(w, #[trigger] es2[k1], i);
            if k1 < k {
                assert(es2[k1] == es[k1]);
                assert(entry_covers(w, es[k1], i));
                assert(es[k1].0 != es[k].0);
            } else {
                assert(es2[k1] == es[k1 + 1]);
                assert(entry_covers(w, es[k1 + 1], i));
                assert(es[k1 + 1].0 != es[k].0);
            }
        }
        assert forall|i: nat| rhs.contains(i) implies lhs.contains(i) by {
            let k1 = choose|k1: int| 0 <= k1 < es.len() && entry_covers(w, #[trigger] es[k1], i);
            assert(k1 != k);
            if k1 < k {
                assert(es2[k1] == es[k1]);
                assert(entry_covers(w, es2[k1], i));
            } else {
                assert(es2[k1 - 1] == es[k1]);
                assert(entry_covers(w, es2[k1 - 1], i));
            }
        }
    }
}

/// In a sorted entry sequence, membership of `i` is decided entirely by
/// the entry whose bucket is `i`'s bucket.
pub proof fn lemma_members_at_bucket(w: nat, es: Seq<(nat, Set<nat>)>, k: int, i: nat)
    requires
        w >= 1,
        entries_sorted(es),
        0 <= k < es.len(),
        es[k].0 == i / w,
    ensures
        entries_members(w, es).contains(i) == es[k].1.contains(i % w),
{
    if entries_members(w, es).contains(i) {
        let k1 = choose|k1: int| 0 <= k1 < es.len() && entry_covers(w, #[trigger] es[k1], i);
        assert(es[k1].0 == es[k].0);
        assert(k1 == k);
    }
    if es[k].1.contains(i % w) {
        assert(entry_covers(w, es[k], i));
    }
}

/// Without an entry at `i`'s bucket, `i` is not a member.
pub proof fn lemma_members_no_bucket(w: nat, es: Seq<(nat, Set<nat>)>, i: nat)
    requires
        w >= 1,
        forall|k: int| 0 <= k < es.len() ==> (#[trigger] es[k]).0 != i / w,
    ensures
        !entries_members(w, es).contains(i),
{
}

/// Inserting a word for bucket `b` whose bits extend the bucket's old
/// bits by `add` adds exactly the indices `add` covers in that bucket.
pub proof fn lemma_map_or_word(w: nat, mm: Map<nat, Set<nat>>, b: nat, add: Set<nat>)
    requires
        w >= 1,
    ensures
        map_members(
            w,
            mm.insert(
                b,
                (if mm.dom().contains(b) {
                    mm[b]
                } else {
                    Set::<nat>::empty()
                }).union(add),
            ),
        ) == map_members(w, mm).union(entry_members(w, b, add)),
{
    let wb = if mm.dom().contains(b) {
        mm[b]
    } else {
        Set::<nat>::empty()
    };
    let mm2 = mm.insert(b, wb.union(add));
    assert(map_members(w, mm2) =~= map_members(w, mm).union(entry_members(w, b, add))) by {
        assert forall|i: nat|
            map_members(w, mm2).contains(i) <==> map_members(w, mm).union(
                entry_members(w, b, add),
            ).contains(i) by {
            assert(mm2.dom() == mm.dom().insert(b));
            if i / w == b {
                assert(mm2.dom().contains(i / w));
                assert(mm2[i / w] == wb.union(add));
            } else {
                assert(mm2.dom().contains(i / w) == mm.dom().contains(i / w));
                if mm.dom().contains(i / w) {
                    assert(mm2[i / w] == mm[i / w]);
                }
            }
        }
    }
}

/// Clearing bit `t` of the word at bucket `b` removes exactly the index
/// it covers.
pub proof fn lemma_map_clear_bit(w: nat, mm: Map<nat, Set<nat>>, b: nat, t: nat)
    requires
        w >= 1,
        t < w,
        mm.dom().contains(b),
    ensures
        map_members(w, mm.insert(b, mm[b].remove(t))) == map_members(w, mm).remove(b * w + t),
{
    lemma_decompose(w, b, t);
    let mm2 = mm.insert(b, mm[b].remove(t));
    assert(map_members(w, mm2) =~= map_members(w, mm).remove(b * w + t)) by {
        assert forall|i: nat|
            map_members(w, mm2).contains(i) <==> map_members(w, mm).remove(b * w + t).contains(
                i,
            ) by {
            lemma_recompose(w, i);
            if i / w == b {
                assert(mm2[i / w] == mm[b].remove(t));
            } else {
                assert(mm2.dom().contains(i / w) == mm.dom().contains(i / w));
                if mm.dom().contains(i / w) {
                    assert(mm2[i / w] == mm[i / w]);
                }
            }
        }
    }
}

/// Deleting the bucket `b` when its word holds at most bit `t` removes
/// exactly the index `t` covers.
pub proof fn lemma_map_remove_bucket(w: nat, mm: Map<nat, Set<nat>>, b: nat, t: nat)
    requires
        w >= 1,
        t < w,
        mm.dom().contains(b),
        mm[b].remove(t).is_empty(),
    ensures
        map_members(w, mm.remove(b)) == map_members(w, mm).remove(b * w + t),
{
    lemma_decompose(w, b, t);
    let mm2 = mm.remove(b);
    assert(map_members(w, mm2) =~= map_members(w, mm).remove(b * w + t)) by {
        assert forall|i: nat|
            map_members(w, mm2).contains(i) <==> map_members(w, mm).remove(b * w + t).contains(
                i,
            ) by {
            lemma_recompose(w, i);
            if i / w == b {
                assert(!mm2.dom().contains(i / w));
                if mm[b].contains(i % w) && i != b * w + t {
                    assert(mm[b].remove(t).contains(i % w));
                }
            } else {
                assert(mm2.dom().contains(i / w) == mm.dom().contains(i / w));
                if mm.dom().contains(i / w) {
                    assert(mm2[i / w] == mm[i / w]);
                }
            }
        }
    }
}

/// Clearing bit `t` of the word of entry `k` removes exactly the index
/// it covers, when buckets are unique.
pub proof fn lemma_update_clear(w: nat, es: Seq<(nat, Set<nat>)>, k: int, t: nat)
    requires
        w >= 1,
        entries_sorted(es),
        0 <= k < es.len(),
        t < w,
    ensures
        entries_members(w, es.update(k, (es[k].0, es[k].1.remove(t)))) == entries_members(
            w,
            es,
        ).remove(es[k].0 * w + t),
{
    let b = es[k].0;
    let i0 = b * w + t;
    lemma_decompose(w, b, t);
    let es2 = es.update(k, (b, es[k].1.remove(t)));
    let lhs = entries_members(w, es2);
    let rhs = entries_members(w, es).remove(i0);
    assert(lhs =~= rhs) by {
        assert forall|i: nat| lhs.contains(i) implies rhs.contains(i) by {
            let k1 = choose|k1: int| 0 <= k1 < es2.len() && entry_covers(w, #[trigger] es2[k1], i);
            lemma_recompose(w, i);
            if k1 == k {
                assert(es2[k] == (b, es[k].1.remove(t)));
                assert(entry_covers(w, es[k], i));
            } else {
                assert(es2[k1] == es[k1]);
                assert(entry_covers(w, es[k1], i));
                assert(es[k1].0 != es[k].0);
            }
        }
        assert forall|i: nat| rhs.contains(i) implies lhs.contains(i) by {
            let k1 = choose|k1: int| 0 <= k1 < es.len() && entry_covers(w, #[trigger] es[k1], i);
            lemma_recompose(w, i);
            if k1 == k {
                assert(i % w != t);
                assert(es2[k] == (b, es[k].1.remove(t)));
                assert(entry_covers(w, es2[k], i));
            } else {
                assert(es2[k1] == es[k1]);
                assert(entry_covers(w, es2[k1], i));
            }
        }
    }
}

/// In a strictly sorted entry sequence, the bucket of the `k`th entry is
/// at least `k`.
pub proof fn lemma_sorted_bucket_ge_index(es: Seq<(nat, Set<nat>)>, k: int)
    requires
        entries_sorted(es),
        0 <= k < es.len(),
    ensures
        es[k].0 >= k,
    decreases k,
{
    if k > 0 {
        lemma_sorted_bucket_ge_index(es, k - 1);
        assert(es[k - 1].0 < es[k].0);
    }
}

/// Dividing a smaller number gives a quotient at most as large.
pub proof fn lemma_div_monotone(w: nat, i: nat, j: nat)
    requires
        w >= 1,
        i <= j,
    ensures
        i / w <= j / w,
{
    lemma_div_is_ordered(i as int, j as int, w as int);
}

/// `map_values` commutes with a point update of a pair vector.
pub proof fn lemma_pairs_model_update<S: Storage>(ps: Seq<(usize, S)>, k: int, p: (usize, S))
    requires
        0 <= k < ps.len(),
    ensures
        pairs_model(ps.update(k, p)) == pairs_model(ps).update(k, (p.0 as nat, p.1.bits())),
{
    assert(pairs_model(ps.update(k, p)) =~= pairs_model(ps).update(k, (p.0 as nat, p.1.bits())));
}

/// `map_values` commutes with splicing a pair in.
pub proof fn lemma_pairs_model_insert<S: Storage>(ps: Seq<(usize, S)>, p: int, v: (usize, S))
    requires
        0 <= p <= ps.len(),
    ensures
        pairs_model(ps.insert(p, v)) == pairs_model(ps).insert(p, (v.0 as nat, v.1.bits())),
{
    assert(pairs_model(ps.insert(p, v)) =~= pairs_model(ps).insert(p, (v.0 as nat, v.1.bits())));
}

/// `map_values` commutes with splicing a pair out.
pub proof fn lemma_pairs_model_remove<S: Storage>(ps: Seq<(usize, S)>, k: int)
    requires
        0 <= k < ps.len(),
    ensures
        pairs_model(ps.remove(k)) == pairs_model(ps).remove(k),
{
    assert(pairs_model(ps.remove(k)) =~= pairs_model(ps).remove(k));
}

/// Append to `out`, in ascending order, the indices covered by the
/// bucket entry `(b, wd)`, walking bit positions from low to high.
pub(crate) fn push_entry_indices<S: Storage>(out: &mut Vec<usize>, b: usize, wd: S)
    requires
        b as nat <= usize::MAX as nat / S::spec_width(),
        forall|a: int, c: int| 0 <= a < c < old(out)@.len() ==> old(out)@[a] < old(out)@[c],
        forall|j: int|
            0 <= j < old(out)@.len() ==> (old(out)@[j] as nat) < b as nat * S::spec_width(),
    ensures
        forall|a: int, c: int| 0 <= a < c < final(out)@.len() ==> final(out)@[a] < final(out)@[c],
        forall|j: int|
            0 <= j < final(out)@.len() ==> (final(out)@[j] as nat) < (b as nat + 1)
                * S::spec_width(),
        forall|i: usize|
            final(out)@.contains(i) <==> old(out)@.contains(i) || entry_members(
                S::spec_width(),
                b as nat,
                wd.bits(),
            ).contains(i as nat),
{
    let ghost w = S::spec_width();
    proof {
        S::lemma_width_facts();
        wd.lemma_bits_below_width();
        lemma_entry_fits(w, b as nat);
        assert(wd.bits().intersect(Set::<nat>::range(0, 0)) =~= Set::<nat>::empty());
        assert forall|i: usize|
            !entry_members(w, b as nat, Set::<nat>::empty()).contains(i as nat) by {}
    }
    let width = S::width();
    let base = b * width;
    let mut t: usize = 0;
    while t < width
        invariant
            width == S::spec_width(),
            width_wf(w),
            w == S::spec_width(),
            b as nat <= usize::MAX as nat / w,
            base == b as nat * w,
            base + width - 1 <= usize::MAX,
            t <= width,
            forall|x: nat| wd.bits().contains(x) ==> x < w,
            forall|a: int, c: int| 0 <= a < c < out@.len() ==> out@[a] < out@[c],
            forall|j: int| 0 <= j < out@.len() ==> (out@[j] as nat) < base + t,
            forall|i: usize|
                out@.contains(i) <==> old(out)@.contains(i) || entry_members(
                    w,
                    b as nat,
                    wd.bits().intersect(Set::<nat>::range(0, t as nat)),
                ).contains(i as nat),
        decreases width - t,
    {
        let ghost pre = wd.bits().intersect(Set::<nat>::range(0, t as nat));
        let ghost post = wd.bits().intersect(Set::<nat>::range(0, (t + 1) as nat));
        if wd.bit_is_set(t) {
            let ghost before = out@;
            out.push(base + t);
            proof {
                lemma_decompose(w, b as nat, t as nat);
                assert(post =~= pre.insert(t as nat));
                assert forall|i: nat|
                    entry_members(w, b as nat, post).contains(i) <==> entry_members(
                        w,
                        b as nat,
                        pre,
                    ).contains(i) || i == base + t by {
                    lemma_recompose(w, i);
                }
                assert forall|i: usize|
                    out@.contains(i) <==> (before.contains(i) || i == base + t) by {
                    if out@.contains(i) {
                        let j = choose|j: int| 0 <= j < out@.len() && out@[j] == i;
                        if j < before.len() {
                            assert(before[j] == i);
                        } else {
                            assert(out@[j] == (base + t) as usize);
                        }
                    }
                    if before.contains(i) {
                        let j = choose|j: int| 0 <= j < before.len() && before[j] == i;
                        assert(out@[j] == i);
                    }
                    if i == (base + t) as usize {
                        assert(out@[before.len() as int] == i);
                    }
                }
                assert forall|i: usize|
                    out@.contains(i) <==> old(out)@.contains(i) || entry_members(
                        w,
                        b as nat,
                        post,
                    ).contains(i as nat) by {
                    assert(before.contains(i) <==> old(out)@.contains(i) || entry_members(
                        w,
                        b as nat,
                        pre,
                    ).contains(i as nat));
                    assert(entry_members(w, b as nat, post).contains(i as nat) <==> entry_members(
                        w,
                        b as nat,
                        pre,
                    ).contains(i as nat) || (i as nat) == base + t);
                    assert(out@.contains(i) <==> (before.contains(i) || i == base + t));
                }
                assert forall|j: int| 0 <= j < out@.len() implies (out@[j] as nat) < base + t
                    + 1 by {
                    if j < before.len() {
                        assert(out@[j] == before[j]);
                    } else {
                        assert(out@[j] == (base + t) as usize);
                    }
                }
                assert forall|a: int, c: int| 0 <= a < c < out@.len() implies out@[a]
                    < out@[c] by {
                    assert(out@[a] == before[a]);
                    if c < before.len() {
                        assert(out@[c] == before[c]);
                    } else {
                        assert(out@[c] == (base + t) as usize);
                        assert((before[a] as nat) < base + t);
                    }
                }
            }
        } else {
            proof {
                assert(post =~= pre);
                assert forall|i: usize|
                    out@.contains(i) <==> old(out)@.contains(i) || entry_members(
                        w,
                        b as nat,
                        post,
                    ).contains(i as nat) by {
                    assert(entry_members(w, b as nat, post) == entry_members(w, b as nat, pre));
                }
            }
        }
        t = t + 1;
        proof {
            assert(wd.bits().intersect(Set::<nat>::range(0, t as nat)) =~= post);
            assert forall|i: usize|
                out@.contains(i) <==> old(out)@.contains(i) || entry_members(
                    w,
                    b as nat,
                    wd.bits().intersect(Set::<nat>::range(0, t as nat)),
                ).contains(i as nat) by {
                assert(entry_members(w, b as nat, wd.bits().intersect(Set::<nat>::range(0, t as nat)))
                    == entry_members(w, b as nat, post));
                assert(out@.contains(i) <==> old(out)@.contains(i) || entry_members(
                    w,
                    b as nat,
                    post,
                ).contains(i as nat));
            }
        }
    }
    proof {
        assert(wd.bits().intersect(Set::<nat>::range(0, width as nat)) =~= wd.bits());
        assert((b as nat + 1) * w == b as nat * w + w) by (nonlinear_arith);
    }
}

} // verus!
