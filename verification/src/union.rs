//! The union of several paths of the tree, as read and written by batched accesses.

use crate::block::{is_dummy_block, Bucket, PathOramBlock};
use crate::ct::ct_eq_u64;
use crate::evict::{deficit, lemma_deficit_bounds, lemma_deficit_fill, OVERFLOW_KEY, UNASSIGNED_KEY};
use crate::batch::{dummies_from, lemma_dummies_from_step};
use crate::sort::keyed;
use crate::stash::path_node;
use crate::tree::{ct_depth, ct_node_on_path, depth, lemma_depth_monotone, TreeIndex};
use crate::OramBlock;
use std::collections::HashMap;
use vstd::prelude::*;

verus! {

/// Whether node `x` is on one of the first `levels` levels of the path to one of `positions`.
pub open spec fn in_union(positions: Seq<TreeIndex>, levels: int, x: int) -> bool {
    exists|i: int, d: int|
        0 <= i < positions.len() && 0 <= d < levels && #[trigger] path_node(positions[i], d) == x
}

/// Whether `s` is strictly increasing.
pub open spec fn strictly_increasing(s: Seq<u64>) -> bool {
    forall|i: int, j: int| 0 <= i < j < s.len() ==> s[i] < s[j]
}

/// Block `k` of the union of buckets `nodes` read from `memory`: slot `k % Z` of the
/// bucket of node `nodes[k / Z]`.
pub open spec fn union_block<V, const Z: usize>(
    memory: Seq<Bucket<V, Z>>,
    nodes: Seq<u64>,
    k: int,
) -> PathOramBlock<V> {
    memory[nodes[k / Z as int] as int].blocks[k % Z as int]
}

/// The real (non-dummy) blocks of `s`, in order.
pub open spec fn real_blocks<V>(s: Seq<PathOramBlock<V>>) -> Seq<PathOramBlock<V>> {
    s.filter(|b: PathOramBlock<V>| !is_dummy_block(b))
}

/// The blocks of `s` from position `k` on (none when `k` is past the end).
pub open spec fn tail_from<V>(s: Seq<PathOramBlock<V>>, k: int) -> Seq<PathOramBlock<V>> {
    if k <= s.len() {
        s.subrange(k, s.len() as int)
    } else {
        Seq::empty()
    }
}

/// In a strictly increasing sequence of nodes, depths never decrease: the root comes first,
/// then the levels in order.
pub proof fn lemma_increasing_is_root_first(s: Seq<u64>)
    requires
        strictly_increasing(s),
        forall|i: int| 0 <= i < s.len() ==> s[i] >= 1,
    ensures
        forall|i: int, j: int| 0 <= i < j < s.len() ==> depth(s[i] as nat) <= depth(s[j] as nat),
{
    assert forall|i: int, j: int| 0 <= i < j < s.len() implies depth(s[i] as nat) <= depth(
        s[j] as nat,
    ) by {
        lemma_depth_monotone(s[i] as nat, s[j] as nat);
    }
}

proof fn lemma_increasing_ge_index(s: Seq<u64>, i: int)
    requires
        strictly_increasing(s),
        0 <= i < s.len(),
    ensures
        s[i] >= i,
    decreases i,
{
    if i > 0 {
        lemma_increasing_ge_index(s, i - 1);
        assert(s[i - 1] < s[i]);
    }
}

/// A strictly increasing sequence of values below `m` has at most `m` elements.
pub proof fn lemma_increasing_len_bound(s: Seq<u64>, m: int)
    requires
        strictly_increasing(s),
        0 <= m,
        forall|i: int| 0 <= i < s.len() ==> s[i] < m,
    ensures
        s.len() <= m,
{
    if s.len() > 0 {
        lemma_increasing_ge_index(s, s.len() - 1);
        assert(s[s.len() - 1] < m);
    }
}

/// A sequence in write-back order of nodes below `m` has at most `m` elements.
pub proof fn lemma_writeback_len_bound(o: Seq<u64>, m: int)
    requires
        writeback_ordered(o),
        0 <= m,
        forall|i: int| 0 <= i < o.len() ==> o[i] < m,
    ensures
        o.len() <= m,
{
    assert(o.no_duplicates()) by {
        assert forall|i: int, j: int| 0 <= i < o.len() && 0 <= j < o.len() && i != j implies o[i]
            != o[j] by {
            lemma_before_order(o[i], o[j], o[i]);
            lemma_before_order(o[j], o[i], o[j]);
            if i < j {
                assert(before(o[i], o[j]));
            } else {
                assert(before(o[j], o[i]));
            }
        }
    }
    o.unique_seq_to_set();
    vstd::seq_lib::seq_to_set_is_finite(o);
    let x = o.to_set();
    let f = |a: u64| a as int;
    let y = x.map(f);
    assert(vstd::relations::injective_on(f, x));
    vstd::set_lib::lemma_map_size(x, y, f);
    let r = vstd::set_lib::set_int_range(0, m);
    vstd::set_lib::lemma_int_range(0, m);
    assert forall|b: int| y.contains(b) implies r.contains(b) by {
        let a = choose|a: u64| x.contains(a) && f(a) == b;
        assert(o.contains(a));
    }
    vstd::set_lib::lemma_len_subset(y, r);
}

/// Two strictly increasing sequences with the same elements are equal.
pub proof fn lemma_increasing_unique(a: Seq<u64>, b: Seq<u64>)
    requires
        strictly_increasing(a),
        strictly_increasing(b),
        forall|x: u64| a.contains(x) <==> b.contains(x),
    ensures
        a == b,
    decreases a.len(),
{
    if a.len() == 0 {
        if b.len() > 0 {
            assert(b.contains(b[0]));
        }
        assert(a =~= b);
    } else {
        assert(a.contains(a[0]));
        assert(b.contains(b[0]));
        let j = choose|j: int| 0 <= j < b.len() && b[j] == a[0];
        let i = choose|i: int| 0 <= i < a.len() && a[i] == b[0];
        if j > 0 {
            assert(b[0] < b[j]);
            if i > 0 {
                assert(a[0] < a[i]);
            }
        }
        assert(a[0] == b[0]);
        let a2 = a.drop_first();
        let b2 = b.drop_first();
        assert forall|x: u64| a2.contains(x) <==> b2.contains(x) by {
            if a2.contains(x) {
                let k = choose|k: int| 0 <= k < a2.len() && a2[k] == x;
                assert(a[k + 1] == x);
                assert(a.contains(x));
                let m = choose|m: int| 0 <= m < b.len() && b[m] == x;
                if m == 0 {
                    assert(a[0] < a[k + 1]);
                }
                assert(b2[m - 1] == x);
            }
            if b2.contains(x) {
                let k = choose|k: int| 0 <= k < b2.len() && b2[k] == x;
                assert(b[k + 1] == x);
                assert(b.contains(x));
                let m = choose|m: int| 0 <= m < a.len() && a[m] == x;
                if m == 0 {
                    assert(b[0] < b[k + 1]);
                }
                assert(a2[m - 1] == x);
            }
        }
        lemma_increasing_unique(a2, b2);
        assert forall|k: int| 0 <= k < a.len() implies a[k] == b[k] by {
            if k > 0 {
                assert(a[k] == a2[k - 1]);
                assert(b[k] == b2[k - 1]);
            }
        }
        assert(a =~= b);
    }
}

/// The union that `read_from_path_union` returns (strictly increasing, holding exactly the
/// nodes `in_union` of the positions) depends only on the set of positions: two position
/// lists with the same positions, in any order and with any repetitions, give the same union.
pub proof fn law_union_ignores_batch_order(
    p1: Seq<TreeIndex>,
    p2: Seq<TreeIndex>,
    levels: int,
    u1: Seq<u64>,
    u2: Seq<u64>,
)
    requires
        forall|x: TreeIndex| p1.contains(x) <==> p2.contains(x),
        strictly_increasing(u1),
        strictly_increasing(u2),
        forall|x: u64| u1.contains(x) <==> in_union(p1, levels, x as int),
        forall|x: u64| u2.contains(x) <==> in_union(p2, levels, x as int),
    ensures
        u1 == u2,
{
    assert forall|x: u64| u1.contains(x) <==> u2.contains(x) by {
        if in_union(p1, levels, x as int) {
            let (i, d) = choose|i: int, d: int|
                0 <= i < p1.len() && 0 <= d < levels && #[trigger] path_node(p1[i], d) == x;
            assert(p1.contains(p1[i]));
            let k = choose|k: int| 0 <= k < p2.len() && p2[k] == p1[i];
            assert(path_node(p2[k], d) == x);
        }
        if in_union(p2, levels, x as int) {
            let (i, d) = choose|i: int, d: int|
                0 <= i < p2.len() && 0 <= d < levels && #[trigger] path_node(p2[i], d) == x;
            assert(p2.contains(p2[i]));
            let k = choose|k: int| 0 <= k < p1.len() && p1[k] == p2[i];
            assert(path_node(p1[k], d) == x);
        }
    }
    lemma_increasing_unique(u1, u2);
}

/// Inserts `x` into the strictly increasing `v`, unless it is already there.
pub(crate) fn insert_sorted(v: &mut Vec<u64>, x: u64)
    requires
        strictly_increasing(old(v)@),
    ensures
        strictly_increasing(final(v)@),
        forall|y: u64| final(v)@.contains(y) <==> (old(v)@.contains(y) || y == x),
        final(v)@.len() <= old(v)@.len() + 1,
{
    let n = v.len();
    let mut i: usize = 0;
    while i < n && v[i] < x
        invariant
            i <= n,
            n == v@.len(),
            forall|j: int| 0 <= j < i ==> v@[j] < x,
        decreases n - i,
    {
        i = i + 1;
    }
    if i < n && v[i] == x {
        return;
    }
    let ghost old_v = v@;
    v.insert(i, x);
    proof {
        assert forall|y: u64| v@.contains(y) <==> (old_v.contains(y) || y == x) by {
            if v@.contains(y) {
                let j = choose|j: int| 0 <= j < v@.len() && v@[j] == y;
                if j < i {
                    assert(old_v[j] == y);
                } else if j > i {
                    assert(old_v[j - 1] == y);
                }
            }
            if old_v.contains(y) {
                let j = choose|j: int| 0 <= j < old_v.len() && old_v[j] == y;
                if j < i {
                    assert(v@[j] == y);
                } else {
                    assert(v@[j + 1] == y);
                }
            }
            if y == x {
                assert(v@[i as int] == x);
            }
        }
    }
}

broadcast use {vstd::seq_lib::group_to_multiset_ensures, vstd::multiset::group_multiset_axioms};

/// The order in which buckets are written back: deeper buckets first, and by increasing index
/// within a level.
pub open spec fn before(a: u64, b: u64) -> bool {
    depth(a as nat) > depth(b as nat) || (depth(a as nat) == depth(b as nat) && a < b)
}

/// Whether `o` is in write-back order, without repetitions.
pub open spec fn writeback_ordered(o: Seq<u64>) -> bool {
    forall|i: int, j: int| 0 <= i < j < o.len() ==> before(o[i], o[j])
}

/// Whether `a` and `b` hold the same nodes.
pub open spec fn same_nodes(a: Seq<u64>, b: Seq<u64>) -> bool {
    forall|x: u64| a.contains(x) <==> b.contains(x)
}

/// The nodes of `u`, each once, in write-back order.
pub open spec fn writeback_order(u: Seq<u64>) -> Seq<u64> {
    choose|o: Seq<u64>| writeback_ordered(o) && same_nodes(o, u)
}

/// `o` with node `x` inserted at its place in write-back order, unless it is already there.
pub open spec fn writeback_insert(o: Seq<u64>, x: u64) -> Seq<u64>
    decreases o.len(),
{
    if o.len() == 0 {
        seq![x]
    } else if o[0] == x {
        o
    } else if before(o[0], x) {
        seq![o[0]] + writeback_insert(o.drop_first(), x)
    } else {
        seq![x] + o
    }
}

proof fn lemma_writeback_insert(o: Seq<u64>, x: u64)
    requires
        writeback_ordered(o),
    ensures
        writeback_ordered(writeback_insert(o, x)),
        forall|y: u64| #[trigger] writeback_insert(o, x).contains(y) <==> (o.contains(y) || y == x),
    decreases o.len(),
{
    let w = writeback_insert(o, x);
    if o.len() == 0 {
        assert(w =~= seq![x]);
        assert forall|y: u64| w.contains(y) <==> (o.contains(y) || y == x) by {
            if w.contains(y) {
                assert(w[0] == y);
            }
            if y == x {
                assert(w[0] == x);
            }
        }
    } else if o[0] == x {
        assert forall|y: u64| w.contains(y) <==> (o.contains(y) || y == x) by {
            if y == x {
                assert(o[0] == x);
            }
        }
    } else if before(o[0], x) {
        let t = o.drop_first();
        assert(writeback_ordered(t)) by {
            assert forall|i: int, j: int| 0 <= i < j < t.len() implies before(t[i], t[j]) by {
                assert(t[i] == o[i + 1] && t[j] == o[j + 1]);
            }
        }
        lemma_writeback_insert(t, x);
        let r = writeback_insert(t, x);
        assert(w =~= seq![o[0]] + r);
        assert forall|y: u64| r.contains(y) implies before(o[0], y) by {
            if y != x {
                let k = choose|k: int| 0 <= k < t.len() && t[k] == y;
                assert(o[k + 1] == y);
            }
        }
        assert forall|i: int, j: int| 0 <= i < j < w.len() implies before(w[i], w[j]) by {
            if i == 0 {
                assert(w[j] == r[j - 1]);
                assert(r.contains(r[j - 1]));
            } else {
                assert(w[i] == r[i - 1] && w[j] == r[j - 1]);
            }
        }
        assert forall|y: u64| w.contains(y) <==> (o.contains(y) || y == x) by {
            if w.contains(y) {
                let k = choose|k: int| 0 <= k < w.len() && w[k] == y;
                if k > 0 {
                    assert(r[k - 1] == y);
                    assert(r.contains(y));
                    if y != x {
                        let m = choose|m: int| 0 <= m < t.len() && t[m] == y;
                        assert(o[m + 1] == y);
                    }
                }
            }
            if o.contains(y) {
                let k = choose|k: int| 0 <= k < o.len() && o[k] == y;
                if k == 0 {
                    assert(w[0] == y);
                } else {
                    assert(t[k - 1] == y);
                    assert(t.contains(y));
                    assert(r.contains(y));
                    let m = choose|m: int| 0 <= m < r.len() && r[m] == y;
                    assert(w[m + 1] == y);
                }
            }
            if y == x {
                assert(r.contains(x));
                let m = choose|m: int| 0 <= m < r.len() && r[m] == x;
                assert(w[m + 1] == x);
            }
        }
    } else {
        lemma_before_order(o[0], x, o[0]);
        assert(before(x, o[0]));
        assert forall|i: int, j: int| 0 <= i < j < w.len() implies before(w[i], w[j]) by {
            if i == 0 {
                assert(w[j] == o[j - 1]);
                if j > 1 {
                    assert(before(o[0], o[j - 1]));
                    lemma_before_order(x, o[0], o[j - 1]);
                }
            } else {
                assert(w[i] == o[i - 1] && w[j] == o[j - 1]);
            }
        }
        assert forall|y: u64| w.contains(y) <==> (o.contains(y) || y == x) by {
            if w.contains(y) {
                let k = choose|k: int| 0 <= k < w.len() && w[k] == y;
                if k > 0 {
                    assert(o[k - 1] == y);
                }
            }
            if o.contains(y) {
                let k = choose|k: int| 0 <= k < o.len() && o[k] == y;
                assert(w[k + 1] == y);
            }
            if y == x {
                assert(w[0] == x);
            }
        }
    }
}

/// Every sequence of nodes has a write-back order: `writeback_order(u)` is in write-back
/// order and holds exactly the nodes of `u`.
pub proof fn lemma_writeback_order_exists(u: Seq<u64>)
    ensures
        writeback_ordered(writeback_order(u)),
        same_nodes(writeback_order(u), u),
{
    let o = lemma_some_writeback_order(u);
}

proof fn lemma_some_writeback_order(u: Seq<u64>) -> (o: Seq<u64>)
    ensures
        writeback_ordered(o),
        same_nodes(o, u),
    decreases u.len(),
{
    if u.len() == 0 {
        let o = Seq::<u64>::empty();
        assert forall|x: u64| o.contains(x) <==> u.contains(x) by {}
        o
    } else {
        let p = lemma_some_writeback_order(u.drop_last());
        lemma_writeback_insert(p, u.last());
        let o = writeback_insert(p, u.last());
        assert forall|x: u64| o.contains(x) <==> u.contains(x) by {
            if u.contains(x) {
                let k = choose|k: int| 0 <= k < u.len() && u[k] == x;
                if k < u.len() - 1 {
                    assert(u.drop_last()[k] == x);
                    assert(u.drop_last().contains(x));
                }
            }
            if u.drop_last().contains(x) {
                let k = choose|k: int| 0 <= k < u.len() - 1 && u.drop_last()[k] == x;
                assert(u[k] == x);
            }
        }
        o
    }
}

/// Whether node `n` is on the path from the root to `leaf` (possibly `leaf` itself).
pub open spec fn covers(n: u64, leaf: u64) -> bool {
    1 <= n && depth(n as nat) <= depth(leaf as nat) && path_node(leaf, depth(n as nat) as int) == n
}

proof fn lemma_before_order(a: u64, b: u64, c: u64)
    ensures
        !before(a, a),
        before(a, b) ==> !before(b, a),
        a != b ==> before(a, b) || before(b, a),
        before(a, b) && before(b, c) ==> before(a, c),
{
}

/// Two sequences in write-back order with the same nodes are equal.
pub proof fn lemma_writeback_unique(a: Seq<u64>, b: Seq<u64>)
    requires
        writeback_ordered(a),
        writeback_ordered(b),
        same_nodes(a, b),
    ensures
        a == b,
    decreases a.len(),
{
    if a.len() == 0 {
        if b.len() > 0 {
            assert(b.contains(b[0]));
            assert(a.contains(b[0]));
            assert(false);
        }
        assert(a =~= b);
    } else {
        assert(a.contains(a[0]));
        let j = choose|j: int| 0 <= j < b.len() && b[j] == a[0];
        assert(b.contains(b[0]));
        let i = choose|i: int| 0 <= i < a.len() && a[i] == b[0];
        if j > 0 {
            assert(before(b[0], b[j]));
            if i > 0 {
                assert(before(a[0], a[i]));
                lemma_before_order(a[0], b[0], a[0]);
            }
        }
        assert(a[0] == b[0]);
        let a2 = a.drop_first();
        let b2 = b.drop_first();
        assert forall|x: u64| a2.contains(x) <==> b2.contains(x) by {
            if a2.contains(x) {
                let k = choose|k: int| 0 <= k < a2.len() && a2[k] == x;
                assert(a.contains(x));
                let m = choose|m: int| 0 <= m < b.len() && b[m] == x;
                if m == 0 {
                    assert(before(a[0], a[k + 1]));
                }
                assert(b2[m - 1] == x);
            }
            if b2.contains(x) {
                let k = choose|k: int| 0 <= k < b2.len() && b2[k] == x;
                assert(b.contains(x));
                let m = choose|m: int| 0 <= m < a.len() && a[m] == x;
                if m == 0 {
                    assert(before(b[0], b[k + 1]));
                }
                assert(a2[m - 1] == x);
            }
        }
        lemma_writeback_unique(a2, b2);
        assert(a.len() == b.len());
        assert forall|k: int| 0 <= k < a.len() implies a[k] == b[k] by {
            if k > 0 {
                assert(a[k] == a2[k - 1]);
                assert(b[k] == b2[k - 1]);
            }
        }
        assert(a =~= b);
    }
}

/// Inserts node `x` into `v`, kept in write-back order, unless it is already there.
pub(crate) fn insert_writeback(v: &mut Vec<u64>, x: u64)
    requires
        writeback_ordered(old(v)@),
        x >= 1,
        forall|i: int| 0 <= i < old(v)@.len() ==> old(v)@[i] >= 1,
    ensures
        writeback_ordered(final(v)@),
        forall|y: u64| final(v)@.contains(y) <==> (old(v)@.contains(y) || y == x),
        forall|i: int| 0 <= i < final(v)@.len() ==> final(v)@[i] >= 1,
        final(v)@.len() <= old(v)@.len() + 1,
{
    let n = v.len();
    let dx = ct_depth(x);
    let mut i: usize = 0;
    while i < n
        invariant
            i <= n,
            n == v@.len(),
            dx == depth(x as nat),
            forall|k: int| 0 <= k < n ==> v@[k] >= 1,
            forall|j: int| 0 <= j < i ==> before(v@[j], x),
        ensures
            i <= n,
            forall|j: int| 0 <= j < i ==> before(v@[j], x),
            i < n ==> !before(v@[i as int], x),
        decreases n - i,
    {
        let dv = ct_depth(v[i]);
        if !(dv > dx || (dv == dx && v[i] < x)) {
            break;
        }
        i = i + 1;
    }
    if i < n && v[i] == x {
        return;
    }
    let ghost old_v = v@;
    proof {
        assert forall|j: int| i <= j < n implies before(x, old_v[j]) by {
            lemma_before_order(x, old_v[i as int], old_v[j]);
            if j > i {
                assert(before(old_v[i as int], old_v[j]));
            }
        }
    }
    v.insert(i, x);
    proof {
        assert forall|a: int, b: int| 0 <= a < b < v@.len() implies before(v@[a], v@[b]) by {
            if b < i {
                assert(before(old_v[a], old_v[b]));
            } else if b == i {
            } else if a < i {
                assert(before(old_v[a], x));
                lemma_before_order(old_v[a], x, old_v[b - 1]);
            } else if a == i {
            } else {
                assert(before(old_v[a - 1], old_v[b - 1]));
            }
        }
        assert forall|y: u64| v@.contains(y) <==> (old_v.contains(y) || y == x) by {
            if v@.contains(y) {
                let j = choose|j: int| 0 <= j < v@.len() && v@[j] == y;
                if j < i {
                    assert(old_v[j] == y);
                } else if j > i {
                    assert(old_v[j - 1] == y);
                }
            }
            if old_v.contains(y) {
                let j = choose|j: int| 0 <= j < old_v.len() && old_v[j] == y;
                if j < i {
                    assert(v@[j] == y);
                } else {
                    assert(v@[j + 1] == y);
                }
            }
            if y == x {
                assert(v@[i as int] == x);
            }
        }
    }
}

/// Maps each node of `order` to its position in `order`.
pub(crate) fn slot_map(order: &Vec<u64>) -> (m: HashMap<u64, usize>)
    ensures
        forall|x: u64| #[trigger] m@.contains_key(x) <==> order@.contains(x),
        forall|x: u64|
            #[trigger] m@.contains_key(x) ==> m@[x] < order@.len() && order@[m@[x] as int] == x,
{
    broadcast use vstd::std_specs::hash::group_hash_axioms;

    let mut m: HashMap<u64, usize> = HashMap::new();
    let n = order.len();
    for j in 0..n
        invariant
            n == order@.len(),
            forall|x: u64| #[trigger] m@.contains_key(x) <==> order@.take(j as int).contains(x),
            forall|x: u64|
                #[trigger] m@.contains_key(x) ==> m@[x] < j && order@[m@[x] as int] == x,
    {
        let ghost before = m@;
        m.insert(order[j], j);
        proof {
            assert forall|x: u64| #[trigger] m@.contains_key(x) <==> order@.take(j + 1).contains(
                x,
            ) by {
                if order@.take(j + 1).contains(x) {
                    let k = choose|k: int| 0 <= k < j + 1 && #[trigger] order@.take(j + 1)[k] == x;
                    if k < j {
                        assert(order@.take(j as int)[k] == x);
                    }
                }
                if before.contains_key(x) {
                    let k = choose|k: int| 0 <= k < j && #[trigger] order@.take(j as int)[k] == x;
                    assert(order@.take(j + 1)[k] == x);
                }
                if x == order@[j as int] {
                    assert(order@.take(j + 1)[j as int] == x);
                }
            }
        }
    }
    proof {
        assert(order@.take(n as int) =~= order@);
    }
    m
}

/// Whether `key` is an acceptable key for block `b` when writing back the buckets `order`.
pub open spec fn union_key_ok<V>(b: PathOramBlock<V>, key: u64, order: Seq<u64>) -> bool {
    &&& (key < order.len() || key == OVERFLOW_KEY || key == UNASSIGNED_KEY)
    &&& (key < order.len() && !is_dummy_block(b) ==> covers(order[key as int], b.position))
    &&& (key == OVERFLOW_KEY ==> !is_dummy_block(b))
}

/// The invariant of an assignment of `keys` (bucket slots) to `blocks` with fill counts
/// `counts`, for writing back the buckets `order` with `z` blocks each:
/// - `counts[j]` is the number of blocks with key `j`, and at most `z`;
/// - every key is acceptable for its block;
/// - every bucket of `order` that a real block could have gone into, when the block stays
///   in the stash or went into a bucket later in `order`, is full and holds only real blocks.
pub open spec fn union_assignment_ok<V>(
    blocks: Seq<PathOramBlock<V>>,
    keys: Seq<u64>,
    counts: Seq<u64>,
    order: Seq<u64>,
    z: u64,
) -> bool {
    &&& keys.len() == blocks.len()
    &&& counts.len() == order.len()
    &&& forall|j: int| 0 <= j < order.len() ==> #[trigger] counts[j] == keys.to_multiset().count(j as u64)
    &&& forall|j: int| 0 <= j < order.len() ==> #[trigger] counts[j] <= z
    &&& forall|k: int| 0 <= k < blocks.len() ==> #[trigger] union_key_ok(blocks[k], keys[k], order)
    &&& forall|k: int, j: int|
        #![trigger keys[k], counts[j]]
        #![trigger covers(order[j], blocks[k].position)]
        0 <= k < blocks.len() && !is_dummy_block(blocks[k]) && (keys[k] == OVERFLOW_KEY || (j
            < keys[k] && keys[k] < order.len())) && 0 <= j < order.len() && covers(
            order[j],
            blocks[k].position,
        ) ==> counts[j] == z && forall|k2: int|
            0 <= k2 < blocks.len() && keys[k2] == j ==> !is_dummy_block(#[trigger] blocks[k2])
}

proof fn lemma_count_update_u(keys: Seq<u64>, i: int, v: u64, l: u64)
    requires
        0 <= i < keys.len(),
    ensures
        keys.update(i, v).to_multiset().count(l) == keys.to_multiset().count(l) + (if v == l {
            1int
        } else {
            0int
        }) - (if keys[i] == l {
            1int
        } else {
            0int
        }),
{
    vstd::seq_lib::to_multiset_update(keys, i, v);
    assert(keys.to_multiset().contains(keys[i])) by {
        assert(keys.contains(keys[i]));
    }
}

/// The position of node `x` in `order`, if it is there.
pub open spec fn slot_of(order: Seq<u64>, x: u64) -> Option<u64> {
    if order.contains(x) {
        Some((choose|j: int| 0 <= j < order.len() && order[j] == x) as u64)
    } else {
        None
    }
}

/// The slot in `order` of the deepest bucket at depth `d` or less on the path of block `b`
/// that is in `order` and not full (`counts[j] < z`), if there is one.
pub open spec fn union_deepest_free<V>(
    b: PathOramBlock<V>,
    order: Seq<u64>,
    counts: Seq<u64>,
    z: u64,
    d: int,
) -> Option<u64>
    decreases d + 1,
{
    if d < 0 {
        None
    } else {
        let s = slot_of(order, path_node(b.position, d) as u64);
        if s is Some && counts[s->0 as int] < z {
            s
        } else {
            union_deepest_free(b, order, counts, z, d - 1)
        }
    }
}

/// The keys of the first `i` blocks and the bucket fill counts after assigning them in stash
/// order: each real block to the slot in `order` of the deepest bucket on its path that is in
/// `order` and not full, or to `OVERFLOW_KEY`; each dummy block to `UNASSIGNED_KEY`.
pub open spec fn union_greedy_assignment<V>(
    blocks: Seq<PathOramBlock<V>>,
    order: Seq<u64>,
    z: u64,
    i: nat,
) -> (Seq<u64>, Seq<u64>)
    decreases i,
{
    if i == 0 {
        (Seq::empty(), Seq::new(order.len(), |j: int| 0u64))
    } else {
        let (keys, counts) = union_greedy_assignment(blocks, order, z, (i - 1) as nat);
        let b = blocks[i - 1];
        if is_dummy_block(b) {
            (keys.push(UNASSIGNED_KEY), counts)
        } else {
            match union_deepest_free(b, order, counts, z, depth(b.position as nat) as int) {
                Some(j) => (keys.push(j), counts.update(j as int, (counts[j as int] + 1) as u64)),
                None => (keys.push(OVERFLOW_KEY), counts),
            }
        }
    }
}

/// The keys that the greedy assignment in stash order gives to all of `blocks`.
pub open spec fn union_greedy_keys<V>(blocks: Seq<PathOramBlock<V>>, order: Seq<u64>, z: u64) -> Seq<
    u64,
> {
    union_greedy_assignment(blocks, order, z, blocks.len()).0
}

proof fn lemma_union_deepest_free_in_range<V>(
    b: PathOramBlock<V>,
    order: Seq<u64>,
    counts: Seq<u64>,
    z: u64,
    d: int,
)
    requires
        order.len() <= u64::MAX,
    ensures
        union_deepest_free(b, order, counts, z, d) matches Some(j) ==> j < order.len(),
    decreases d + 1,
{
    if d >= 0 {
        let x = path_node(b.position, d) as u64;
        if order.contains(x) {
            let c = choose|j: int| 0 <= j < order.len() && order[j] == x;
        }
        lemma_union_deepest_free_in_range(b, order, counts, z, d - 1);
    }
}

proof fn lemma_union_greedy_lengths<V>(blocks: Seq<PathOramBlock<V>>, order: Seq<u64>, z: u64, i: nat)
    requires
        i <= blocks.len(),
        order.len() <= u64::MAX,
    ensures
        union_greedy_assignment(blocks, order, z, i).0.len() == i,
        union_greedy_assignment(blocks, order, z, i).1.len() == order.len(),
    decreases i,
{
    if i > 0 {
        lemma_union_greedy_lengths(blocks, order, z, (i - 1) as nat);
        let counts = union_greedy_assignment(blocks, order, z, (i - 1) as nat).1;
        let b = blocks[i - 1];
        lemma_union_deepest_free_in_range(b, order, counts, z, depth(b.position as nat) as int);
    }
}

/// In an order without repetitions, the slot found for a node is its only position.
proof fn lemma_slot_of(order: Seq<u64>, j: int)
    requires
        writeback_ordered(order),
        0 <= j < order.len(),
    ensures
        slot_of(order, order[j]) == Some(j as u64),
{
    assert(order.contains(order[j]));
    let c = choose|c: int| 0 <= c < order.len() && order[c] == order[j];
    if c < j {
        assert(before(order[c], order[j]));
        lemma_before_order(order[j], order[j], order[j]);
    } else if c > j {
        assert(before(order[j], order[c]));
        lemma_before_order(order[j], order[j], order[j]);
    }
}

/// Assigns every real block to the deepest bucket of `order` on its path that is not full
/// yet, scanning its path from the leaf up, or to `OVERFLOW_KEY` when there is none. Dummy
/// blocks keep `UNASSIGNED_KEY`.
pub(crate) fn assign_union_real_blocks<V: OramBlock>(
    blocks: &Vec<PathOramBlock<V>>,
    order: &Vec<u64>,
    z: u64,
) -> (r: (Vec<u64>, Vec<u64>))
    requires
        writeback_ordered(order@),
        order@.len() < 0xffff_ffff_ffff_fffd,
        z < u64::MAX,
    ensures
        union_assignment_ok(blocks@, r.0@, r.1@, order@, z),
        forall|k: int| 0 <= k < blocks@.len() ==> (#[trigger] r.0@[k] != UNASSIGNED_KEY
            <==> !is_dummy_block(blocks@[k])),
        r.0@ == union_greedy_keys(blocks@, order@, z),
{
    let n = blocks.len();
    let u = order.len();
    // Each touched bucket's slot in the write-back order.
    let slots = slot_map(order);
    let mut keys: Vec<u64> = Vec::new();
    let mut q: usize = 0;
    while q < n
        invariant
            q <= n,
            keys@.len() == q,
            forall|k: int| 0 <= k < q ==> keys@[k] == UNASSIGNED_KEY,
        decreases n - q,
    {
        keys.push(UNASSIGNED_KEY);
        q = q + 1;
    }
    let mut counts: Vec<u64> = Vec::new();
    let mut q: usize = 0;
    while q < u
        invariant
            q <= u,
            counts@.len() == q,
            forall|m: int| 0 <= m < q ==> counts@[m] == 0,
        decreases u - q,
    {
        counts.push(0);
        q = q + 1;
    }
    proof {
        assert forall|m: int| 0 <= m < u implies #[trigger] counts@[m]
            == keys@.to_multiset().count(m as u64) by {
            if keys@.to_multiset().count(m as u64) > 0 {
                assert(keys@.contains(m as u64));
            }
        }
    }
    proof {
        assert(counts@ =~= union_greedy_assignment(blocks@, order@, z, 0).1);
    }
    for bi in 0..n
        invariant
            forall|x: u64| #[trigger] slots@.contains_key(x) <==> order@.contains(x),
            forall|x: u64|
                #[trigger] slots@.contains_key(x) ==> slots@[x] < order@.len() && order@[slots@[x] as int] == x,
            forall|k: int| 0 <= k < bi ==> #[trigger] keys@[k] == union_greedy_assignment(
                blocks@,
                order@,
                z,
                bi as nat,
            ).0[k],
            counts@ == union_greedy_assignment(blocks@, order@, z, bi as nat).1,
            n == blocks@.len(),
            u == order@.len(),
            u < 0xffff_ffff_ffff_fffd,
            z < u64::MAX,
            writeback_ordered(order@),
            union_assignment_ok(blocks@, keys@, counts@, order@, z),
            forall|k: int| 0 <= k < n && keys@[k] < u ==> !is_dummy_block(#[trigger] blocks@[k]),
            forall|k: int| bi <= k < n ==> #[trigger] keys@[k] == UNASSIGNED_KEY,
            forall|k: int| 0 <= k < bi ==> (#[trigger] keys@[k] != UNASSIGNED_KEY
                <==> !is_dummy_block(blocks@[k])),
    {
        let block = blocks[bi];
        let ghost gk = union_greedy_assignment(blocks@, order@, z, bi as nat).0;
        let ghost gc = union_greedy_assignment(blocks@, order@, z, bi as nat).1;
        proof {
            lemma_union_greedy_lengths(blocks@, order@, z, bi as nat);
        }
        if !block.ct_is_dummy() {
            let leaf = block.position;
            let leaf_depth = ct_depth(leaf);
            let mut assigned = false;
            let mut d: u64 = leaf_depth + 1;
            while d > 0 && !assigned
                invariant
                    forall|x: u64| #[trigger] slots@.contains_key(x) <==> order@.contains(x),
                    forall|x: u64|
                        #[trigger] slots@.contains_key(x) ==> slots@[x] < order@.len()
                            && order@[slots@[x] as int] == x,
                    gk == union_greedy_assignment(blocks@, order@, z, bi as nat).0,
                    gc == union_greedy_assignment(blocks@, order@, z, bi as nat).1,
                    gc.len() == order@.len(),
                    forall|k: int| 0 <= k < bi ==> #[trigger] keys@[k] == gk[k],
                    !assigned ==> counts@ == gc,
                    !assigned ==> union_deepest_free(block, order@, gc, z, leaf_depth as int)
                        == union_deepest_free(block, order@, gc, z, d - 1),
                    assigned ==> union_deepest_free(block, order@, gc, z, leaf_depth as int)
                        == Some(keys@[bi as int]) && counts@ == gc.update(
                        keys@[bi as int] as int,
                        (gc[keys@[bi as int] as int] + 1) as u64,
                    ),
                    n == blocks@.len(),
                    bi < n,
                    block == blocks@[bi as int],
                    !is_dummy_block(block),
                    leaf == block.position,
                    leaf != 0,
                    leaf_depth == depth(leaf as nat),
                    leaf_depth < 64,
                    d <= leaf_depth + 1,
                    u == order@.len(),
                    u < 0xffff_ffff_ffff_fffd,
                    z < u64::MAX,
                    writeback_ordered(order@),
                    union_assignment_ok(blocks@, keys@, counts@, order@, z),
                    forall|k: int| 0 <= k < n && keys@[k] < u ==> !is_dummy_block(#[trigger] blocks@[k]),
                    forall|k: int| bi < k < n ==> #[trigger] keys@[k] == UNASSIGNED_KEY,
                    forall|k: int| 0 <= k < bi ==> (#[trigger] keys@[k] != UNASSIGNED_KEY
                        <==> !is_dummy_block(blocks@[k])),
                    assigned <==> keys@[bi as int] != UNASSIGNED_KEY,
                    assigned ==> keys@[bi as int] < u,
                    !assigned ==> forall|j: int|
                        0 <= j < u && covers(order@[j], leaf) && depth(order@[j] as nat) >= d
                            ==> #[trigger] counts@[j] == z,
                decreases d,
            {
                d = d - 1;
                let ancestor = ct_node_on_path(leaf, d, leaf_depth);
                let ghost old_keys = keys@;
                let ghost old_counts = counts@;
                match slots.get(&ancestor) {
                    Some(slot_ref) => {
                        let bucket_slot: usize = *slot_ref;
                        if counts[bucket_slot] < z {
                            keys.set(bi, bucket_slot as u64);
                            let c = counts[bucket_slot] + 1;
                            counts.set(bucket_slot, c);
                            assigned = true;
                            proof {
                                let j0 = bucket_slot as int;
                                assert(path_node(leaf, d as int) as u64 == ancestor);
                                lemma_slot_of(order@, j0);
                                assert(covers(order@[j0], leaf));
                                assert forall|m: int| 0 <= m < u implies #[trigger] counts@[m]
                                    == keys@.to_multiset().count(m as u64) by {
                                    lemma_count_update_u(old_keys, bi as int, bucket_slot as u64, m as u64);
                                }
                                assert forall|m: int| 0 <= m < u implies #[trigger] counts@[m] <= z by {
                                    assert(old_counts[m] <= z);
                                }
                                assert forall|k: int| 0 <= k < n implies #[trigger] union_key_ok(
                                    blocks@[k],
                                    keys@[k],
                                    order@,
                                ) by {
                                    if k != bi {
                                        assert(union_key_ok(blocks@[k], old_keys[k], order@));
                                    }
                                }
                                assert forall|k: int, j: int|
                                    #![trigger keys@[k], counts@[j]]
                                    0 <= k < n && !is_dummy_block(blocks@[k]) && (keys@[k] == OVERFLOW_KEY || (j < keys@[k]
                            && keys@[k] < u)) && 0 <= j < u && covers(
                                        order@[j],
                                        blocks@[k].position,
                                    ) implies counts@[j] == z && forall|k2: int|
                                    0 <= k2 < n && keys@[k2] == j ==> !is_dummy_block(
                                        #[trigger] blocks@[k2],
                                    ) by {
                                    if k == bi {
                                        assert(j < j0);
                                        assert(before(order@[j], order@[j0]));
                                        if depth(order@[j] as nat) == d {
                                            assert(order@[j] == order@[j0]);
                                        }
                                        assert(depth(order@[j] as nat) >= d + 1);
                                        assert(old_counts[j] == z);
                                    } else {
                                        assert(old_keys[k] == keys@[k]);
                                        assert(old_counts[j] == z);
                                        assert(j != j0);
                                    }
                                    assert forall|k2: int|
                                        0 <= k2 < n && keys@[k2] == j implies !is_dummy_block(
                                        #[trigger] blocks@[k2],
                                    ) by {
                                        if k2 != bi {
                                            assert(old_keys[k2] == j);
                                        }
                                    }
                                }
                            }
                        } else {
                            proof {
                                assert(path_node(leaf, d as int) as u64 == ancestor);
                                lemma_slot_of(order@, bucket_slot as int);
                                assert forall|j: int|
                                    0 <= j < u && covers(order@[j], leaf) && depth(order@[j] as nat) >= d
                                        implies #[trigger] counts@[j] == z by {
                                    if depth(order@[j] as nat) == d {
                                        assert(order@[j] == ancestor);
                                        if j != bucket_slot {
                                            if j < bucket_slot {
                                                assert(before(order@[j], order@[bucket_slot as int]));
                                            } else {
                                                assert(before(order@[bucket_slot as int], order@[j]));
                                            }
                                        }
                                        assert(counts@[bucket_slot as int] <= z);
                                    }
                                }
                            }
                        }
                    },
                    None => {
                        proof {
                            assert(path_node(leaf, d as int) as u64 == ancestor);
                            assert forall|j: int|
                                0 <= j < u && covers(order@[j], leaf) && depth(order@[j] as nat) >= d
                                    implies #[trigger] counts@[j] == z by {
                                if depth(order@[j] as nat) == d {
                                    assert(order@[j] == ancestor);
                                    assert(order@.contains(ancestor));
                                }
                            }
                        }
                    },
                }
            }
            if !assigned {
                let ghost keys_before = keys@;
                keys.set(bi, OVERFLOW_KEY);
                proof {
                    assert(d == 0);
                    assert forall|m: int| 0 <= m < u implies #[trigger] counts@[m]
                        == keys@.to_multiset().count(m as u64) by {
                        lemma_count_update_u(keys_before, bi as int, OVERFLOW_KEY, m as u64);
                    }
                    assert forall|k: int| 0 <= k < n implies #[trigger] union_key_ok(
                        blocks@[k],
                        keys@[k],
                        order@,
                    ) by {
                        if k != bi {
                            assert(union_key_ok(blocks@[k], keys_before[k], order@));
                        }
                    }
                    assert forall|k: int, j: int|
                        #![trigger keys@[k], counts@[j]]
                        0 <= k < n && !is_dummy_block(blocks@[k]) && (keys@[k] == OVERFLOW_KEY || (j < keys@[k]
                            && keys@[k] < u)) && 0 <= j < u && covers(
                            order@[j],
                            blocks@[k].position,
                        ) implies counts@[j] == z && forall|k2: int|
                        0 <= k2 < n && keys@[k2] == j ==> !is_dummy_block(#[trigger] blocks@[k2]) by {
                        if k != bi {
                            assert(keys_before[k] == keys@[k]);
                        }
                        assert forall|k2: int| 0 <= k2 < n && keys@[k2] == j implies !is_dummy_block(
                            #[trigger] blocks@[k2],
                        ) by {
                            assert(k2 != bi);
                            assert(keys_before[k2] == j);
                        }
                    }
                }
            }
        }
        proof {
            // The block got the key that the greedy assignment gives it.
            let gi = union_greedy_assignment(blocks@, order@, z, (bi + 1) as nat);
            assert forall|k: int| 0 <= k < bi + 1 implies #[trigger] keys@[k] == gi.0[k] by {
                if k < bi {
                    assert(keys@[k] == gk[k]);
                }
            }
        }
    }
    proof {
        lemma_union_greedy_lengths(blocks@, order@, z, n as nat);
        assert(keys@ =~= union_greedy_keys(blocks@, order@, z));
    }
    (keys, counts)
}

/// Pads the buckets that are not full with dummy blocks, taking the dummy blocks in order
/// and the buckets in write-back order.
pub(crate) fn fill_union_with_dummies<V: OramBlock>(
    blocks: &Vec<PathOramBlock<V>>,
    keys: &mut Vec<u64>,
    counts: &mut Vec<u64>,
    order: &Vec<u64>,
    z: u64,
)
    requires
        union_assignment_ok(blocks@, old(keys)@, old(counts)@, order@, z),
        order@.len() < 0xffff_ffff_ffff_fffd,
        z < u64::MAX,
        forall|k: int|
            0 <= k < blocks@.len() && is_dummy_block(#[trigger] blocks@[k]) ==> old(keys)@[k]
                == UNASSIGNED_KEY,
        deficit(old(counts)@, z) <= dummies_from(blocks@, 0),
    ensures
        union_assignment_ok(blocks@, final(keys)@, final(counts)@, order@, z),
        forall|j: int| 0 <= j < order@.len() ==> #[trigger] final(counts)@[j] == z,
        forall|k: int|
            0 <= k < blocks@.len() && !is_dummy_block(#[trigger] blocks@[k]) ==> final(keys)@[k]
                == old(keys)@[k],
{
    let n = blocks.len();
    let u = order.len();
    let ghost keys0 = keys@;
    let mut next_bucket_slot: usize = 0;
    let mut bi: usize = 0;
    proof {
        lemma_deficit_bounds(counts@, z);
    }
    while bi < n && next_bucket_slot < u
        invariant
            n == blocks@.len(),
            u == order@.len(),
            u < 0xffff_ffff_ffff_fffd,
            z < u64::MAX,
            bi <= n,
            next_bucket_slot <= u,
            keys0 == old(keys)@,
            union_assignment_ok(blocks@, keys@, counts@, order@, z),
            forall|j: int| 0 <= j < next_bucket_slot ==> #[trigger] counts@[j] == z,
            forall|k: int|
                bi <= k < n && is_dummy_block(#[trigger] blocks@[k]) ==> keys@[k] == UNASSIGNED_KEY,
            forall|k: int|
                0 <= k < n && !is_dummy_block(#[trigger] blocks@[k]) ==> keys@[k] == keys0[k],
            deficit(counts@, z) <= dummies_from(blocks@, bi as int),
        decreases n - bi,
    {
        proof {
            lemma_dummies_from_step(blocks@, bi as int);
        }
        if blocks[bi].ct_is_dummy() {
            while next_bucket_slot < u && counts[next_bucket_slot] >= z
                invariant
                    next_bucket_slot <= u,
                    u == counts@.len(),
                    forall|j: int| 0 <= j < order@.len() ==> #[trigger] counts@[j] <= z,
                    u == order@.len(),
                    forall|j: int| 0 <= j < next_bucket_slot ==> #[trigger] counts@[j] == z,
                decreases u - next_bucket_slot,
            {
                next_bucket_slot = next_bucket_slot + 1;
            }
            if next_bucket_slot < u {
                let ghost old_keys = keys@;
                let ghost old_counts = counts@;
                let j0 = next_bucket_slot;
                keys.set(bi, j0 as u64);
                let c = counts[j0] + 1;
                counts.set(j0, c);
                proof {
                    lemma_deficit_fill(old_counts, z, j0 as int);
                    assert forall|m: int| 0 <= m < u implies #[trigger] counts@[m]
                        == keys@.to_multiset().count(m as u64) by {
                        lemma_count_update_u(old_keys, bi as int, j0 as u64, m as u64);
                    }
                    assert forall|m: int| 0 <= m < u implies #[trigger] counts@[m] <= z by {
                        assert(old_counts[m] <= z);
                    }
                    assert forall|k: int| 0 <= k < n implies #[trigger] union_key_ok(
                        blocks@[k],
                        keys@[k],
                        order@,
                    ) by {
                        if k != bi {
                            assert(union_key_ok(blocks@[k], old_keys[k], order@));
                        }
                    }
                    assert forall|k: int, j: int|
                        #![trigger keys@[k], counts@[j]]
                        0 <= k < n && !is_dummy_block(blocks@[k]) && (keys@[k] == OVERFLOW_KEY || (j < keys@[k]
                            && keys@[k] < u)) && 0 <= j < u && covers(
                            order@[j],
                            blocks@[k].position,
                        ) implies counts@[j] == z && forall|k2: int|
                        0 <= k2 < n && keys@[k2] == j ==> !is_dummy_block(#[trigger] blocks@[k2]) by {
                        assert(k != bi);
                        assert(old_keys[k] == keys@[k]);
                        assert(old_counts[j] == z);
                        assert(j != j0);
                        assert forall|k2: int| 0 <= k2 < n && keys@[k2] == j implies !is_dummy_block(
                            #[trigger] blocks@[k2],
                        ) by {
                            if k2 != bi {
                                assert(old_keys[k2] == j);
                            }
                        }
                    }
                }
            } else {
                proof {
                    lemma_deficit_bounds(counts@, z);
                }
            }
        }
        bi = bi + 1;
    }
    proof {
        lemma_deficit_bounds(counts@, z);
        if bi == n {
            assert(dummies_from(blocks@, n as int) == 0);
        }
    }
}

/// Reordering blocks together with their keys keeps a write-back assignment valid.
pub proof fn lemma_union_assignment_ok_permuted<V>(
    blocks: Seq<PathOramBlock<V>>,
    keys: Seq<u64>,
    blocks2: Seq<PathOramBlock<V>>,
    keys2: Seq<u64>,
    counts: Seq<u64>,
    order: Seq<u64>,
    z: u64,
)
    requires
        union_assignment_ok(blocks, keys, counts, order, z),
        forall|k: int| 0 <= k < blocks.len() && !is_dummy_block(#[trigger] blocks[k]) ==> keys[k]
            != UNASSIGNED_KEY,
        blocks2.len() == keys2.len(),
        keys2.to_multiset() == keys.to_multiset(),
        keyed(keys2, blocks2).to_multiset() == keyed(keys, blocks).to_multiset(),
    ensures
        union_assignment_ok(blocks2, keys2, counts, order, z),
        forall|k: int|
            0 <= k < blocks2.len() && !is_dummy_block(#[trigger] blocks2[k]) ==> keys2[k]
                != UNASSIGNED_KEY,
{
    let pairs = keyed(keys, blocks);
    let pairs2 = keyed(keys2, blocks2);
    pairs.to_multiset_ensures();
    pairs2.to_multiset_ensures();
    assert forall|k: int| 0 <= k < blocks2.len() implies exists|j: int|
        0 <= j < blocks.len() && #[trigger] keys[j] == #[trigger] keys2[k] && blocks[j] == blocks2[k] by {
        assert(pairs2[k] == (keys2[k], blocks2[k]));
        assert(pairs2.contains(pairs2[k]));
        assert(pairs2.to_multiset().count(pairs2[k]) > 0);
        assert(pairs.to_multiset().count(pairs2[k]) > 0);
        assert(pairs.contains(pairs2[k]));
        let j = choose|j: int| 0 <= j < pairs.len() && pairs[j] == pairs2[k];
        assert(keys[j] == keys2[k]);
    }
    assert forall|k: int| 0 <= k < blocks2.len() implies #[trigger] union_key_ok(
        blocks2[k],
        keys2[k],
        order,
    ) by {
        let j = choose|j: int|
            0 <= j < blocks.len() && #[trigger] keys[j] == keys2[k] && blocks[j] == blocks2[k];
        assert(union_key_ok(blocks[j], keys[j], order));
    }
    assert forall|k: int, l: int|
        #![trigger keys2[k], counts[l]]
        0 <= k < blocks2.len() && !is_dummy_block(blocks2[k]) && (keys2[k] == OVERFLOW_KEY || (l
            < keys2[k] && keys2[k] < order.len())) && 0 <= l < order.len() && covers(
            order[l],
            blocks2[k].position,
        ) implies counts[l] == z && forall|k2: int|
        0 <= k2 < blocks2.len() && keys2[k2] == l ==> !is_dummy_block(#[trigger] blocks2[k2]) by {
        let j = choose|j: int|
            0 <= j < blocks.len() && #[trigger] keys[j] == keys2[k] && blocks[j] == blocks2[k];
        assert(!is_dummy_block(blocks[j]) && (keys[j] == OVERFLOW_KEY || (l < keys[j] && keys[j]
            < order.len())));
        assert(covers(order[l], blocks[j].position));
        assert(counts[l] == z);
        assert forall|k2: int| 0 <= k2 < blocks2.len() && keys2[k2] == l implies !is_dummy_block(
            #[trigger] blocks2[k2],
        ) by {
            let j2 = choose|j2: int|
                0 <= j2 < blocks.len() && #[trigger] keys[j2] == keys2[k2] && blocks[j2]
                    == blocks2[k2];
            assert(keys[j2] == l);
        }
    }
    assert forall|k: int|
        0 <= k < blocks2.len() && !is_dummy_block(#[trigger] blocks2[k]) implies keys2[k]
        != UNASSIGNED_KEY by {
        let j = choose|j: int|
            0 <= j < blocks.len() && #[trigger] keys[j] == keys2[k] && blocks[j] == blocks2[k];
        assert(!is_dummy_block(blocks[j]));
    }
}

/// Filtering by a predicate keeps equal multisets equal.
pub proof fn lemma_filter_multiset<A>(a: Seq<A>, b: Seq<A>, p: spec_fn(A) -> bool)
    requires
        a.to_multiset() == b.to_multiset(),
    ensures
        a.filter(p).to_multiset() == b.filter(p).to_multiset(),
{
    assert forall|x: A| #[trigger] a.filter(p).to_multiset().count(x) == b.filter(p).to_multiset().count(x) by {
        lemma_filter_count(a, p, x);
        lemma_filter_count(b, p, x);
    }
    assert(a.filter(p).to_multiset() =~= b.filter(p).to_multiset());
}

proof fn lemma_filter_count<A>(s: Seq<A>, p: spec_fn(A) -> bool, x: A)
    ensures
        s.filter(p).to_multiset().count(x) == if p(x) {
            s.to_multiset().count(x)
        } else {
            0
        },
    decreases s.len(),
{
    if s.len() == 0 {
        assert(s.filter(p) =~= Seq::<A>::empty()) by {
            reveal(Seq::filter);
        }
        assert(s.to_multiset().len() == 0);
        assert(s.filter(p).to_multiset().len() == 0);
    } else {
        let t = s.drop_last();
        lemma_filter_count(t, p, x);
        assert(t.push(s.last()) =~= s);
        t.lemma_filter_push(s.last(), p);
    }
}

/// The number of free slots of the buckets, `sum of (z - counts[j])`.
pub(crate) fn slots_needed(counts: &Vec<u64>, z: u64) -> (r: usize)
    requires
        forall|j: int| 0 <= j < counts@.len() ==> #[trigger] counts@[j] <= z,
        z * counts@.len() <= usize::MAX,
    ensures
        r == deficit(counts@, z),
{
    let n = counts.len();
    let mut sum: usize = 0;
    for i in 0..n
        invariant
            n == counts@.len(),
            forall|j: int| 0 <= j < n ==> #[trigger] counts@[j] <= z,
            z * n <= usize::MAX,
            sum == deficit(counts@.take(i as int), z),
            sum <= z * i,
    {
        proof {
            assert(counts@.take(i + 1).drop_last() =~= counts@.take(i as int));
            vstd::arithmetic::mul::lemma_mul_is_distributive_add(z as int, i as int, 1);
            vstd::arithmetic::mul::lemma_mul_inequality(i + 1, n as int, z as int);
            vstd::arithmetic::mul::lemma_mul_is_commutative(z as int, i + 1);
            vstd::arithmetic::mul::lemma_mul_is_commutative(z as int, n as int);
        }
        sum = sum + ((z - counts[i]) as usize);
    }
    proof {
        assert(counts@.take(n as int) =~= counts@);
    }
    sum
}

/// Appends `extra` dummy blocks to the stash, each with `UNASSIGNED_KEY`.
pub(crate) fn grow_union<V: OramBlock>(
    blocks: &mut Vec<PathOramBlock<V>>,
    keys: &mut Vec<u64>,
    counts: &Vec<u64>,
    order: &Vec<u64>,
    z: u64,
    extra: usize,
)
    requires
        union_assignment_ok(old(blocks)@, old(keys)@, counts@, order@, z),
        old(blocks)@.len() + extra <= usize::MAX,
        order@.len() < 0xffff_ffff_ffff_fffd,
    ensures
        union_assignment_ok(final(blocks)@, final(keys)@, counts@, order@, z),
        final(blocks)@ == old(blocks)@ + crate::stash::dummies::<V>(extra as nat),
        final(keys)@ == old(keys)@ + Seq::new(extra as nat, |i: int| UNASSIGNED_KEY),
{
    let ghost b0 = blocks@;
    let ghost k0 = keys@;
    let mut i: usize = 0;
    while i < extra
        invariant
            i <= extra,
            b0.len() + extra <= usize::MAX,
            order@.len() < 0xffff_ffff_ffff_fffd,
            blocks@ == b0 + crate::stash::dummies::<V>(i as nat),
            keys@ == k0 + Seq::new(i as nat, |j: int| UNASSIGNED_KEY),
            union_assignment_ok(blocks@, keys@, counts@, order@, z),
        decreases extra - i,
    {
        let ghost kb = keys@;
        let ghost bb = blocks@;
        blocks.push(crate::block::PathOramBlock::dummy());
        keys.push(UNASSIGNED_KEY);
        i = i + 1;
        proof {
            assert(blocks@ =~= b0 + crate::stash::dummies::<V>(i as nat));
            assert(keys@ =~= k0 + Seq::new(i as nat, |j: int| UNASSIGNED_KEY));
            assert(keys@ =~= kb.push(UNASSIGNED_KEY));
            let n = blocks@.len();
            assert forall|l: int| 0 <= l < order@.len() implies #[trigger] counts@[l]
                == keys@.to_multiset().count(l as u64) by {
                assert(keys@.to_multiset() == kb.to_multiset().insert(UNASSIGNED_KEY));
                assert(counts@[l] == kb.to_multiset().count(l as u64));
            }
            assert forall|k: int| 0 <= k < n implies #[trigger] union_key_ok(
                blocks@[k],
                keys@[k],
                order@,
            ) by {
                if k < n - 1 {
                    assert(keys@[k] == kb[k]);
                    assert(blocks@[k] == bb[k]);
                    assert(union_key_ok(bb[k], kb[k], order@));
                }
            }
            assert forall|k: int, m: int|
                #![trigger keys@[k], counts@[m]]
                0 <= k < n && !is_dummy_block(blocks@[k]) && (keys@[k] == OVERFLOW_KEY || (m < keys@[k]
                    && keys@[k] < order@.len())) && 0 <= m < order@.len() && covers(
                    order@[m],
                    blocks@[k].position,
                ) implies counts@[m] == z && forall|k2: int|
                0 <= k2 < n && keys@[k2] == m ==> !is_dummy_block(#[trigger] blocks@[k2]) by {
                assert(k < n - 1);
                assert(kb[k] == keys@[k] && bb[k] == blocks@[k]);
                assert(union_assignment_ok(bb, kb, counts@, order@, z));
                assert(covers(order@[m], bb[k].position));
                assert(forall|k2: int|
                    0 <= k2 < bb.len() && kb[k2] == m ==> !is_dummy_block(#[trigger] bb[k2]));
                assert forall|k2: int| 0 <= k2 < n && keys@[k2] == m implies !is_dummy_block(
                    #[trigger] blocks@[k2],
                ) by {
                    assert(k2 < n - 1);
                    assert(kb[k2] == m && bb[k2] == blocks@[k2]);
                }
            }
        }
    }
}

/// Splitting a reordered stash with added dummies into a written prefix and the real blocks
/// of the rest keeps the real blocks of the old stash.
pub proof fn lemma_union_conservation<V: OramBlock>(
    b: Seq<PathOramBlock<V>>,
    old_blocks: Seq<PathOramBlock<V>>,
    extra: nat,
    uz: int,
)
    requires
        b.to_multiset() == (old_blocks + crate::stash::dummies::<V>(extra)).to_multiset(),
        0 <= uz <= b.len(),
    ensures
        real_blocks(b.take(uz) + real_blocks(b.subrange(uz, b.len() as int))).to_multiset()
            == real_blocks(old_blocks).to_multiset(),
{
    let p = |x: PathOramBlock<V>| !is_dummy_block(x);
    let w = b.take(uz);
    let rest = b.subrange(uz, b.len() as int);
    let d = crate::stash::dummies::<V>(extra);
    assert(w + rest =~= b);
    Seq::filter_distributes_over_add(w, real_blocks(rest), p);
    Seq::filter_distributes_over_add(w, rest, p);
    Seq::filter_distributes_over_add(old_blocks, d, p);
    lemma_filter_multiset(b, old_blocks + d, p);
    assert forall|x: PathOramBlock<V>| #[trigger] real_blocks(real_blocks(rest)).to_multiset().count(x)
        == real_blocks(rest).to_multiset().count(x) by {
        lemma_filter_count(real_blocks(rest), p, x);
        lemma_filter_count(rest, p, x);
    }
    assert(real_blocks(real_blocks(rest)).to_multiset() =~= real_blocks(rest).to_multiset());
    assert forall|x: PathOramBlock<V>| #[trigger] real_blocks(d).to_multiset().count(x) == 0 by {
        lemma_filter_count(d, p, x);
        if !is_dummy_block(x) {
            if d.to_multiset().count(x) > 0 {
                assert(d.contains(x));
            }
        }
    }
    assert(real_blocks(d).to_multiset() =~= vstd::multiset::Multiset::empty());
    vstd::seq_lib::lemma_multiset_commutative(real_blocks(w), real_blocks(real_blocks(rest)));
    vstd::seq_lib::lemma_multiset_commutative(real_blocks(w), real_blocks(rest));
    vstd::seq_lib::lemma_multiset_commutative(real_blocks(old_blocks), real_blocks(d));
    assert(real_blocks(old_blocks).to_multiset().add(vstd::multiset::Multiset::empty())
        =~= real_blocks(old_blocks).to_multiset());
}

} // verus!
