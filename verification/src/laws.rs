//! General laws of the index sets, stated over the members view that
//! every operation's contract speaks of.

use vstd::prelude::*;

use crate::seq_member_set;

verus! {

/// Idempotence of insertion: inserting the same index twice is
/// observably identical to inserting it once.
pub proof fn lemma_insert_idempotent(x: Set<nat>, i: nat)
    ensures
        x.insert(i).insert(i) == x.insert(i),
{
    assert(x.insert(i).insert(i) =~= x.insert(i));
}

/// Idempotence of removal: removing an index that is not a member is
/// observably a no-op.
pub proof fn lemma_remove_absent(x: Set<nat>, i: nat)
    requires
        !x.contains(i),
    ensures
        x.remove(i) == x,
{
    assert(x.remove(i) =~= x);
}

/// The members left after removing every element of a list, in list
/// order.
pub open spec fn remove_all(x: Set<nat>, rs: Seq<usize>) -> Set<nat>
    decreases rs.len(),
{
    if rs.len() == 0 {
        x
    } else {
        remove_all(x.remove(rs[0] as nat), rs.drop_first())
    }
}

/// Removal correctness: removing all of `rs` from `x` leaves exactly
/// the set difference `x \ rs` — independent of the order in which
/// `rs` lists its elements, and of duplicates among them.
pub proof fn lemma_remove_all_is_difference(x: Set<nat>, rs: Seq<usize>)
    ensures
        remove_all(x, rs) == x.difference(seq_member_set(rs)),
    decreases rs.len(),
{
    if rs.len() == 0 {
        assert(remove_all(x, rs) == x);
        assert(x.difference(seq_member_set(rs)) =~= x);
    } else {
        let h = rs[0] as nat;
        lemma_remove_all_is_difference(x.remove(h), rs.drop_first());
        assert(x.remove(h).difference(seq_member_set(rs.drop_first())) =~= x.difference(
            seq_member_set(rs),
        )) by {
            assert forall|i: nat|
                seq_member_set(rs).contains(i) <==> (i == h || seq_member_set(
                    rs.drop_first(),
                ).contains(i)) by {
                if seq_member_set(rs).contains(i) {
                    let m = choose|m: int| 0 <= m < rs.len() && rs[m] == i as usize;
                    if m > 0 {
                        assert(rs.drop_first()[m - 1] == rs[m]);
                    }
                }
                if i <= usize::MAX && rs.drop_first().contains(i as usize) {
                    let m = choose|m: int|
                        0 <= m < rs.drop_first().len() && rs.drop_first()[m] == i as usize;
                    assert(rs[m + 1] == i as usize);
                }
                if i == h {
                    assert(rs[0] == i as usize);
                }
            }
        }
    }
}

/// Union correctness at the list level: the indices a concatenation of
/// two lists stands for are the union of the indices of the parts.
pub proof fn lemma_concat_member_set(a: Seq<usize>, b: Seq<usize>)
    ensures
        seq_member_set(a + b) == seq_member_set(a).union(seq_member_set(b)),
{
    assert(seq_member_set(a + b) =~= seq_member_set(a).union(seq_member_set(b))) by {
        assert forall|i: nat|
            seq_member_set(a + b).contains(i) implies seq_member_set(a).union(
            seq_member_set(b),
        ).contains(i) by {
            let m = choose|m: int| 0 <= m < (a + b).len() && (a + b)[m] == i as usize;
            if m < a.len() {
                assert(a[m] == i as usize);
            } else {
                assert(b[m - a.len()] == i as usize);
            }
        }
        assert forall|i: nat|
            seq_member_set(a).union(seq_member_set(b)).contains(i) implies seq_member_set(
            a + b,
        ).contains(i) by {
            if seq_member_set(a).contains(i) {
                let m = choose|m: int| 0 <= m < a.len() && a[m] == i as usize;
                assert((a + b)[m] == i as usize);
            } else {
                let m = choose|m: int| 0 <= m < b.len() && b[m] == i as usize;
                assert((a + b)[m + a.len()] == i as usize);
            }
        }
    }
}

/// Round-trip membership: a strictly ascending enumeration of a set of
/// indices is unique, so by `iter`'s contract, iteration after
/// inserting the elements of any list yields the one sorted,
/// duplicate-free list of the indices inserted.
pub proof fn lemma_ascending_unique(a: Seq<usize>, b: Seq<usize>)
    requires
        forall|p: int, q: int| 0 <= p < q < a.len() ==> a[p] < a[q],
        forall|p: int, q: int| 0 <= p < q < b.len() ==> b[p] < b[q],
        forall|i: usize| a.contains(i) <==> b.contains(i),
    ensures
        a == b,
    decreases a.len(),
{
    if a.len() == 0 {
        if b.len() > 0 {
            assert(b.contains(b[0]));
            assert(a.contains(b[0]));
        }
        assert(a =~= b);
    } else {
        assert(a.contains(a[0]));
        assert(b.contains(a[0]));
        let m = choose|m: int| 0 <= m < b.len() && b[m] == a[0];
        assert(b.contains(b[0]));
        assert(a.contains(b[0]));
        let n = choose|n: int| 0 <= n < a.len() && a[n] == b[0];
        assert(a[0] == b[0]) by {
            if m > 0 {
                assert(b[0] < b[m]);
            }
            if n > 0 {
                assert(a[0] < a[n]);
            }
        }
        let at = a.drop_first();
        let bt = b.drop_first();
        assert forall|i: usize| at.contains(i) <==> bt.contains(i) by {
            if at.contains(i) {
                let p = choose|p: int| 0 <= p < at.len() && at[p] == i;
                assert(a[p + 1] == i);
                assert(a.contains(i));
                assert(i > a[0]);
                let q = choose|q: int| 0 <= q < b.len() && b[q] == i;
                assert(q > 0);
                assert(bt[q - 1] == i);
            }
            if bt.contains(i) {
                let p = choose|p: int| 0 <= p < bt.len() && bt[p] == i;
                assert(b[p + 1] == i);
                assert(b.contains(i));
                assert(i > b[0]);
                let q = choose|q: int| 0 <= q < a.len() && a[q] == i;
                assert(q > 0);
                assert(at[q - 1] == i);
            }
        }
        assert forall|p: int, q: int| 0 <= p < q < at.len() implies at[p] < at[q] by {
            assert(at[p] == a[p + 1] && at[q] == a[q + 1]);
        }
        assert forall|p: int, q: int| 0 <= p < q < bt.len() implies bt[p] < bt[q] by {
            assert(bt[p] == b[p + 1] && bt[q] == b[q + 1]);
        }
        lemma_ascending_unique(at, bt);
        assert(a =~= b) by {
            assert forall|p: int| 0 <= p < a.len() implies a[p] == b[p] by {
                if p > 0 {
                    assert(a[p] == at[p - 1] && b[p] == bt[p - 1]);
                }
            }
        }
    }
}

} // verus!

