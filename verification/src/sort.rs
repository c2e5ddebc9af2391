//! Data-oblivious sorting of stash blocks by integer keys.
//!
//! The sort is a fixed network of compare-exchange steps: which positions are compared does
//! not depend on the keys, and each exchange is a constant-time conditional swap.

use crate::block::PathOramBlock;
use crate::ct::{ct_lt_u64, ct_select_u64};
use crate::OramBlock;
use vstd::prelude::*;

verus! {

broadcast use {vstd::seq_lib::group_to_multiset_ensures, vstd::multiset::group_multiset_axioms};

/// Whether `s` is sorted in ascending order.
pub open spec fn sorted(s: Seq<u64>) -> bool {
    forall|p: int, q: int| 0 <= p < q < s.len() ==> s[p] <= s[q]
}

/// The keys paired with the items they sort.
pub open spec fn keyed<T>(keys: Seq<u64>, items: Seq<T>) -> Seq<(u64, T)> {
    Seq::new(keys.len(), |k: int| (keys[k], items[k]))
}

/// The number of elements of `s` below `a`.
pub open spec fn count_below(s: Seq<u64>, a: int) -> nat
    decreases s.len(),
{
    if s.len() == 0 {
        0
    } else {
        count_below(s.drop_last(), a) + if s.last() < a {
            1nat
        } else {
            0nat
        }
    }
}

/// Swapping two positions keeps the multiset of a sequence.
pub proof fn lemma_swap_multiset<T>(s: Seq<T>, i: int, j: int)
    requires
        0 <= i < s.len(),
        0 <= j < s.len(),
    ensures
        s.update(i, s[j]).update(j, s[i]).to_multiset() == s.to_multiset(),
{
    vstd::seq_lib::to_multiset_update(s, i, s[j]);
    let t = s.update(i, s[j]);
    vstd::seq_lib::to_multiset_update(t, j, s[i]);
    if i == j {
        assert(t =~= s);
        assert(t.update(j, s[i]) =~= s);
    } else {
        assert(s.to_multiset().insert(s[j]).remove(s[i]).insert(s[i]).remove(s[j])
            =~= s.to_multiset());
    }
}

/// In a sorted sequence the elements below `a` are exactly the first `count_below(s, a)`.
pub proof fn lemma_sorted_count_below(s: Seq<u64>, a: int)
    requires
        sorted(s),
    ensures
        count_below(s, a) <= s.len(),
        forall|k: int| 0 <= k < count_below(s, a) ==> s[k] < a,
        forall|k: int| count_below(s, a) <= k < s.len() ==> s[k] >= a,
    decreases s.len(),
{
    if s.len() > 0 {
        let p = s.drop_last();
        assert(sorted(p));
        lemma_sorted_count_below(p, a);
        if s.last() < a {
            assert forall|k: int| 0 <= k < s.len() implies s[k] < a by {
                if k < s.len() - 1 {
                    assert(s[k] <= s[s.len() - 1]);
                }
            }
        } else {
            assert forall|k: int| count_below(s, a) <= k < s.len() implies s[k] >= a by {
                if k < s.len() - 1 {
                    assert(p[k] == s[k]);
                }
            }
            assert forall|k: int| 0 <= k < count_below(s, a) implies s[k] < a by {
                assert(p[k] == s[k]);
            }
        }
    }
}

/// Raising the bound by one counts the elements equal to the old bound as well.
pub proof fn lemma_count_below_step(s: Seq<u64>, a: u64)
    ensures
        count_below(s, a + 1) == count_below(s, a as int) + s.to_multiset().count(a),
    decreases s.len(),
{
    if s.len() > 0 {
        let p = s.drop_last();
        lemma_count_below_step(p, a);
        assert(p.push(s.last()) =~= s);
        assert(s.to_multiset() == p.to_multiset().insert(s.last()));
    } else {
        assert(s.to_multiset() =~= vstd::multiset::Multiset::empty());
    }
}

/// The count below a bound depends only on the multiset of the sequence.
pub proof fn lemma_count_below_multiset(s: Seq<u64>, t: Seq<u64>, a: int)
    requires
        s.to_multiset() == t.to_multiset(),
    ensures
        count_below(s, a) == count_below(t, a),
    decreases s.len(),
{
    if s.len() == 0 {
        assert(s.to_multiset().len() == 0);
        assert(t.to_multiset().len() == t.len());
    } else {
        let x = s.last();
        assert(s.to_multiset().count(x) > 0) by {
            assert(s.contains(x)) by {
                assert(s[s.len() - 1] == x);
            }
        }
        assert(t.contains(x));
        let j = choose|j: int| 0 <= j < t.len() && t[j] == x;
        let t2 = t.remove(j);
        vstd::seq_lib::to_multiset_remove(t, j);
        let p = s.drop_last();
        assert(p.push(x) =~= s);
        assert(p.to_multiset() =~= s.to_multiset().remove(x));
        lemma_count_below_multiset(p, t2, a);
        lemma_count_below_remove(t, j, a);
    }
}

proof fn lemma_count_below_remove(t: Seq<u64>, j: int, a: int)
    requires
        0 <= j < t.len(),
    ensures
        count_below(t, a) == count_below(t.remove(j), a) + if t[j] < a {
            1nat
        } else {
            0nat
        },
    decreases t.len(),
{
    let r = t.remove(j);
    if j == t.len() - 1 {
        assert(r =~= t.drop_last());
    } else {
        let p = t.drop_last();
        lemma_count_below_remove(p, j, a);
        assert(r.drop_last() =~= p.remove(j));
        assert(r.last() == t.last());
    }
}

/// Sorts `items` by `keys` in ascending order, moving each item together with its key.
///
/// The compared positions are fixed by the length alone, and each exchange is a
/// constant-time conditional swap.
pub fn oblivious_sort_by_keys<V: OramBlock>(
    items: &mut Vec<PathOramBlock<V>>,
    keys: &mut Vec<u64>,
)
    requires
        old(items)@.len() == old(keys)@.len(),
    ensures
        final(items)@.len() == old(items)@.len(),
        final(keys)@.len() == old(keys)@.len(),
        sorted(final(keys)@),
        final(keys)@.to_multiset() == old(keys)@.to_multiset(),
        final(items)@.to_multiset() == old(items)@.to_multiset(),
        keyed(final(keys)@, final(items)@).to_multiset() == keyed(
            old(keys)@,
            old(items)@,
        ).to_multiset(),
{
    let n = keys.len();
    let ghost old_keys = keys@;
    let ghost old_items = items@;
    for i in 0..n
        invariant
            n == keys@.len(),
            n == items@.len(),
            keys@.to_multiset() == old_keys.to_multiset(),
            items@.to_multiset() == old_items.to_multiset(),
            keyed(keys@, items@).to_multiset() == keyed(old_keys, old_items).to_multiset(),
            forall|p: int, q: int| 0 <= p < q < n && p < i ==> keys@[p] <= keys@[q],
    {
        for j in i + 1..n
            invariant
                i < n,
                n == keys@.len(),
                n == items@.len(),
                keys@.to_multiset() == old_keys.to_multiset(),
                items@.to_multiset() == old_items.to_multiset(),
                keyed(keys@, items@).to_multiset() == keyed(old_keys, old_items).to_multiset(),
                forall|p: int, q: int| 0 <= p < q < n && p < i ==> keys@[p] <= keys@[q],
                forall|q: int| i < q < j ==> keys@[i as int] <= keys@[q],
        {
            let ki = keys[i];
            let kj = keys[j];
            let bi = items[i];
            let bj = items[j];
            let swap = ct_lt_u64(kj, ki);
            let ghost ks = keys@;
            let ghost its = items@;
            keys.set(i, ct_select_u64(ki, kj, swap));
            keys.set(j, ct_select_u64(kj, ki, swap));
            items.set(i, PathOramBlock::conditional_select(&bi, &bj, swap));
            items.set(j, PathOramBlock::conditional_select(&bj, &bi, swap));
            proof {
                if swap {
                    assert(keys@ =~= ks.update(i as int, ks[j as int]).update(j as int, ks[i as int]));
                    assert(items@ =~= its.update(i as int, its[j as int]).update(
                        j as int,
                        its[i as int],
                    ));
                    let kp = keyed(ks, its);
                    assert(keyed(keys@, items@) =~= kp.update(i as int, kp[j as int]).update(
                        j as int,
                        kp[i as int],
                    ));
                    lemma_swap_multiset(ks, i as int, j as int);
                    lemma_swap_multiset(its, i as int, j as int);
                    lemma_swap_multiset(kp, i as int, j as int);
                } else {
                    assert(keys@ =~= ks);
                    assert(items@ =~= its);
                }
            }
        }
    }
}

} // verus!
