//! Assigning stash blocks to the buckets of a path before the path is written back.
//!
//! Each block gets a key: the depth of the bucket of the path that it goes into, or
//! `OVERFLOW_KEY` for a real block that stays in the stash, or `UNASSIGNED_KEY` for a dummy
//! that is not needed. Sorting the blocks by these keys then lays the path out bucket by
//! bucket, root first.

use crate::block::{dummy_block, is_dummy_block, PathOramBlock};
use crate::ct::{ct_eq_u64, ct_select_u64};
use crate::stash::path_node;
use crate::tree::{ct_node_on_path, depth, is_leaf, lemma_depth_of_power, TreeIndex};
use crate::sort::{count_below, keyed, lemma_count_below_step, lemma_sorted_count_below, sorted};
use crate::OramBlock;
use vstd::prelude::*;

verus! {

broadcast use {vstd::seq_lib::group_to_multiset_ensures, vstd::multiset::group_multiset_axioms};

/// The key of a real block that does not fit in the path and stays in the stash.
pub const OVERFLOW_KEY: u64 = 0xffff_ffff_ffff_fffeu64;

/// The key of a dummy block that is not used to pad the path.
pub const UNASSIGNED_KEY: u64 = 0xffff_ffff_ffff_ffffu64;

/// Whether block `b` may be stored in the bucket at depth `l` of the path to `position`:
/// that bucket is also on the path to the block's own leaf.
pub open spec fn fits_at<V>(b: PathOramBlock<V>, position: TreeIndex, l: int) -> bool {
    path_node(b.position, l) == path_node(position, l)
}

/// Whether `key` is an acceptable key for block `b` when writing the path to `position`,
/// a leaf of depth `h`.
pub open spec fn key_ok<V>(b: PathOramBlock<V>, key: u64, position: TreeIndex, h: nat) -> bool {
    &&& (key <= h || key == OVERFLOW_KEY || key == UNASSIGNED_KEY)
    &&& (key <= h && !is_dummy_block(b) ==> fits_at(b, position, key as int))
    &&& (key == OVERFLOW_KEY ==> !is_dummy_block(b))
}

/// The invariant of an assignment of `keys` to `blocks` with bucket fill counts `counts`,
/// for the path to `position` with buckets of `z` blocks:
/// - `counts[l]` is the number of blocks with key `l`, and at most `z`;
/// - every key is acceptable for its block;
/// - every bucket that a real block could have gone into, when the block stays in the stash
///   (`OVERFLOW_KEY`) or went into a bucket nearer the root, is full and holds only real
///   blocks.
pub open spec fn assignment_ok<V>(
    blocks: Seq<PathOramBlock<V>>,
    keys: Seq<u64>,
    counts: Seq<u64>,
    position: TreeIndex,
    z: u64,
) -> bool {
    let h = depth(position as nat);
    &&& keys.len() == blocks.len()
    &&& counts.len() == h + 1
    &&& forall|l: int| 0 <= l <= h ==> #[trigger] counts[l] == keys.to_multiset().count(l as u64)
    &&& forall|l: int| 0 <= l <= h ==> #[trigger] counts[l] <= z
    &&& forall|k: int| 0 <= k < blocks.len() ==> #[trigger] key_ok(blocks[k], keys[k], position, h)
    &&& forall|k: int, l: int|
        #![trigger keys[k], counts[l]]
        #![trigger fits_at(blocks[k], position, l)]
        0 <= k < blocks.len() && !is_dummy_block(blocks[k]) && (keys[k] == OVERFLOW_KEY || keys[k] < l) && 0 <= l <= h && fits_at(
            blocks[k],
            position,
            l,
        ) ==> counts[l] == z && forall|k2: int|
            0 <= k2 < blocks.len() && keys[k2] == l ==> !is_dummy_block(#[trigger] blocks[k2])
}

/// The predicate of dummy blocks.
pub open spec fn dummy_pred<V>() -> spec_fn(PathOramBlock<V>) -> bool {
    |b: PathOramBlock<V>| is_dummy_block(b)
}

/// The number of dummy blocks in `s`.
pub open spec fn dummy_count<V>(s: Seq<PathOramBlock<V>>) -> nat {
    s.filter(dummy_pred::<V>()).len()
}

/// The predicate of a dummy block paired with a key that names a level of a path of
/// height `h`.
pub open spec fn placed_pred<V>(h: nat) -> spec_fn((u64, PathOramBlock<V>)) -> bool {
    |p: (u64, PathOramBlock<V>)| p.0 <= h && is_dummy_block(p.1)
}

/// The number of dummy blocks that `keys` assigns to a level of a path of height `h`.
pub open spec fn placed_dummies<V>(blocks: Seq<PathOramBlock<V>>, keys: Seq<u64>, h: nat) -> nat {
    keyed(keys, blocks).filter(placed_pred::<V>(h)).len()
}

proof fn lemma_filter_len_single<A>(x: A, p: spec_fn(A) -> bool)
    ensures
        seq![x].filter(p).len() == (if p(x) {
            1int
        } else {
            0int
        }),
{
    let e = Seq::<A>::empty();
    e.lemma_filter_len(p);
    e.lemma_filter_len_push(p, x);
    assert(e.push(x) =~= seq![x]);
}

/// Appending a block adds one to the dummy count exactly when the block is a dummy.
pub proof fn lemma_dummy_count_push<V>(s: Seq<PathOramBlock<V>>, b: PathOramBlock<V>)
    ensures
        dummy_count(s.push(b)) == dummy_count(s) + (if is_dummy_block(b) {
            1int
        } else {
            0int
        }),
{
    s.lemma_filter_len_push(dummy_pred::<V>(), b);
}

/// `n` dummy blocks have a dummy count of `n`.
pub proof fn lemma_dummy_count_dummies<V: OramBlock>(n: nat)
    ensures
        dummy_count(crate::stash::dummies::<V>(n)) == n,
    decreases n,
{
    if n > 0 {
        let d = crate::stash::dummies::<V>(n);
        assert(d =~= crate::stash::dummies::<V>((n - 1) as nat).push(dummy_block::<V>()));
        lemma_dummy_count_dummies::<V>((n - 1) as nat);
        lemma_dummy_count_push(crate::stash::dummies::<V>((n - 1) as nat), dummy_block::<V>());
    }
}

/// The dummy count of a concatenation is the sum of the dummy counts.
pub proof fn lemma_dummy_count_add<V>(a: Seq<PathOramBlock<V>>, b: Seq<PathOramBlock<V>>)
    ensures
        dummy_count(a + b) == dummy_count(a) + dummy_count(b),
{
    Seq::filter_distributes_over_add(a, b, dummy_pred::<V>());
}

/// Changing the key of block `i` changes the number of placed dummies only by what block
/// `i` contributes before and after.
proof fn lemma_placed_update<V>(
    blocks: Seq<PathOramBlock<V>>,
    keys: Seq<u64>,
    h: nat,
    i: int,
    v: u64,
)
    requires
        keys.len() == blocks.len(),
        0 <= i < keys.len(),
    ensures
        placed_dummies(blocks, keys.update(i, v), h) == placed_dummies(blocks, keys, h) - (if keys[i]
            <= h && is_dummy_block(blocks[i]) {
            1int
        } else {
            0int
        }) + (if v <= h && is_dummy_block(blocks[i]) {
            1int
        } else {
            0int
        }),
{
    let p = placed_pred::<V>(h);
    let a = keyed(keys, blocks);
    let a2 = keyed(keys.update(i, v), blocks);
    let pre = a.take(i);
    let post = a.skip(i + 1);
    assert(a =~= pre + seq![a[i]] + post);
    assert(a2 =~= pre + seq![(v, blocks[i])] + post);
    Seq::filter_distributes_over_add(pre + seq![a[i]], post, p);
    Seq::filter_distributes_over_add(pre, seq![a[i]], p);
    Seq::filter_distributes_over_add(pre + seq![(v, blocks[i])], post, p);
    Seq::filter_distributes_over_add(pre, seq![(v, blocks[i])], p);
    lemma_filter_len_single(a[i], p);
    lemma_filter_len_single((v, blocks[i]), p);
}

/// Keys above `h` place no dummy.
pub proof fn lemma_placed_none<V>(blocks: Seq<PathOramBlock<V>>, keys: Seq<u64>, h: nat)
    requires
        keys.len() == blocks.len(),
        forall|k: int| 0 <= k < keys.len() && is_dummy_block(#[trigger] blocks[k]) ==> keys[k] > h,
    ensures
        placed_dummies(blocks, keys, h) == 0,
{
    let a = keyed(keys, blocks);
    let p = placed_pred::<V>(h);
    assert forall|k: int| 0 <= k < a.len() implies !p(#[trigger] a[k]) by {
        if is_dummy_block(blocks[k]) {
            assert(keys[k] > h);
        }
    }
    a.lemma_all_neg_filter_empty(p);
}

/// Appending blocks whose keys are all above `h` keeps the number of placed dummies.
pub proof fn lemma_placed_append<V>(
    blocks: Seq<PathOramBlock<V>>,
    keys: Seq<u64>,
    blocks2: Seq<PathOramBlock<V>>,
    keys2: Seq<u64>,
    h: nat,
)
    requires
        keys.len() == blocks.len(),
        keys2.len() == blocks2.len(),
        forall|k: int| 0 <= k < keys2.len() ==> #[trigger] keys2[k] > h,
    ensures
        placed_dummies(blocks + blocks2, keys + keys2, h) == placed_dummies(blocks, keys, h),
{
    let p = placed_pred::<V>(h);
    assert(keyed(keys + keys2, blocks + blocks2) =~= keyed(keys, blocks) + keyed(keys2, blocks2));
    Seq::filter_distributes_over_add(keyed(keys, blocks), keyed(keys2, blocks2), p);
    lemma_placed_none(blocks2, keys2, h);
}

/// Reordering blocks together with their keys keeps the number of placed dummies.
pub proof fn lemma_placed_permuted<V>(
    blocks: Seq<PathOramBlock<V>>,
    keys: Seq<u64>,
    blocks2: Seq<PathOramBlock<V>>,
    keys2: Seq<u64>,
    h: nat,
)
    requires
        keyed(keys2, blocks2).to_multiset() == keyed(keys, blocks).to_multiset(),
    ensures
        placed_dummies(blocks2, keys2, h) == placed_dummies(blocks, keys, h),
{
    let p = placed_pred::<V>(h);
    crate::union::lemma_filter_multiset(keyed(keys2, blocks2), keyed(keys, blocks), p);
    keyed(keys2, blocks2).filter(p).to_multiset_ensures();
    keyed(keys, blocks).filter(p).to_multiset_ensures();
}

proof fn lemma_placed_prefix<V>(blocks: Seq<PathOramBlock<V>>, keys: Seq<u64>, h: nat, j: int)
    requires
        keys.len() == blocks.len(),
        0 <= j <= keys.len(),
        forall|k: int| 0 <= k < j ==> #[trigger] keys[k] <= h,
    ensures
        keyed(keys.take(j), blocks.take(j)).filter(placed_pred::<V>(h)).len() == dummy_count(
            blocks.take(j),
        ),
    decreases j,
{
    if j > 0 {
        lemma_placed_prefix(blocks, keys, h, j - 1);
        let p = placed_pred::<V>(h);
        let a = keyed(keys.take(j - 1), blocks.take(j - 1));
        assert(keyed(keys.take(j), blocks.take(j)) =~= a.push((keys[j - 1], blocks[j - 1])));
        assert(blocks.take(j) =~= blocks.take(j - 1).push(blocks[j - 1]));
        a.lemma_filter_len_push(p, (keys[j - 1], blocks[j - 1]));
        lemma_dummy_count_push(blocks.take(j - 1), blocks[j - 1]);
    } else {
        let a = keyed(keys.take(0), blocks.take(0));
        a.lemma_filter_len(placed_pred::<V>(h));
        blocks.take(0).lemma_filter_len(dummy_pred::<V>());
    }
}

/// When the keys at most `h` are exactly those of the first `m` blocks, the placed dummies
/// are the dummies among the first `m` blocks.
pub proof fn lemma_placed_layout<V>(blocks: Seq<PathOramBlock<V>>, keys: Seq<u64>, h: nat, m: int)
    requires
        keys.len() == blocks.len(),
        0 <= m <= keys.len(),
        forall|k: int| 0 <= k < m ==> #[trigger] keys[k] <= h,
        forall|k: int| m <= k < keys.len() ==> #[trigger] keys[k] > h,
    ensures
        placed_dummies(blocks, keys, h) == dummy_count(blocks.take(m)),
{
    let p = placed_pred::<V>(h);
    let n = keys.len() as int;
    assert(keyed(keys, blocks) =~= keyed(keys.take(m), blocks.take(m)) + keyed(
        keys.skip(m),
        blocks.skip(m),
    ));
    Seq::filter_distributes_over_add(
        keyed(keys.take(m), blocks.take(m)),
        keyed(keys.skip(m), blocks.skip(m)),
        p,
    );
    lemma_placed_prefix(blocks, keys, h, m);
    assert forall|k: int| 0 <= k < keys.skip(m).len() implies #[trigger] keys.skip(m)[k] > h by {
        assert(keys.skip(m)[k] == keys[m + k]);
    }
    lemma_placed_none(blocks.skip(m), keys.skip(m), h);
}

/// The blocks from the last block of `s` on, once `s` has grown by `10 * g` dummy blocks and
/// without its new last block, hold the dummies of `s` that are not in `s.drop_last()` and
/// nine more when `g` is 1, and ten dummies otherwise.
pub proof fn lemma_grown_window<V: OramBlock>(s: Seq<PathOramBlock<V>>, g: nat)
    requires
        s.len() >= 1,
        g >= 1,
    ensures
        dummy_count(
            (s + crate::stash::dummies::<V>(10 * g)).subrange(
                s.len() + 10 * (g - 1) - 1,
                s.len() + 10 * g - 1,
            ),
        ) == (if g == 1 {
            dummy_count(s) - dummy_count(s.drop_last()) + 9
        } else {
            10
        }),
{
    let n = s.len() as int;
    let b = s + crate::stash::dummies::<V>(10 * g);
    assert(s =~= s.drop_last().push(s.last()));
    lemma_dummy_count_push(s.drop_last(), s.last());
    if g == 1 {
        let w = b.subrange(n - 1, n + 9);
        let e = Seq::<PathOramBlock<V>>::empty();
        assert(w =~= e.push(s.last()) + crate::stash::dummies::<V>(9));
        e.lemma_filter_len(dummy_pred::<V>());
        lemma_dummy_count_push(e, s.last());
        lemma_dummy_count_add(e.push(s.last()), crate::stash::dummies::<V>(9));
        lemma_dummy_count_dummies::<V>(9);
    } else {
        let w = b.subrange(n + 10 * (g - 1) - 1, n + 10 * g - 1);
        assert(w =~= crate::stash::dummies::<V>(10));
        lemma_dummy_count_dummies::<V>(10);
    }
}

/// The predicate of a key and block pair whose block is real.
pub open spec fn real_pair_pred<V>() -> spec_fn((u64, PathOramBlock<V>)) -> bool {
    |p: (u64, PathOramBlock<V>)| !is_dummy_block(p.1)
}

/// The real blocks of `blocks`, each paired with its key, in order.
pub open spec fn real_keyed<V>(keys: Seq<u64>, blocks: Seq<PathOramBlock<V>>) -> Seq<
    (u64, PathOramBlock<V>),
> {
    keyed(keys, blocks).filter(real_pair_pred::<V>())
}

/// The keys of the `n` slots of a stash whose first `z * (h + 1)` blocks were written to a
/// path of height `h` with buckets of `z` blocks: the depth of the bucket that a slot was
/// written to, or `OVERFLOW_KEY` past the path.
pub open spec fn slot_keys(n: nat, z: nat, h: nat) -> Seq<u64> {
    Seq::new(
        n,
        |k: int|
            if k < z * (h + 1) {
                (k / (z as int)) as u64
            } else {
                OVERFLOW_KEY
            },
    )
}

/// Filtering two sequences that agree on every element that passes the filter, and on
/// which elements pass, gives the same sequence.
pub proof fn lemma_filter_agree<A>(a: Seq<A>, b: Seq<A>, p: spec_fn(A) -> bool)
    requires
        a.len() == b.len(),
        forall|i: int| 0 <= i < a.len() ==> #[trigger] p(a[i]) == p(b[i]),
        forall|i: int| 0 <= i < a.len() && #[trigger] p(a[i]) ==> a[i] == b[i],
    ensures
        a.filter(p) == b.filter(p),
    decreases a.len(),
{
    reveal(Seq::filter);
    if a.len() > 0 {
        let a2 = a.drop_last();
        let b2 = b.drop_last();
        assert forall|i: int| 0 <= i < a2.len() implies #[trigger] p(a2[i]) == p(b2[i]) by {
            assert(a2[i] == a[i] && b2[i] == b[i]);
            assert(p(a[i]) == p(b[i]));
        }
        assert forall|i: int| 0 <= i < a2.len() && #[trigger] p(a2[i]) implies a2[i] == b2[i] by {
            assert(a2[i] == a[i] && b2[i] == b[i]);
        }
        lemma_filter_agree(a2, b2, p);
        assert(p(a[a.len() - 1]) == p(b[a.len() - 1]));
    } else {
        assert(a =~= b);
    }
}

/// The real blocks of `old + extra` with `keys`, where `extra` holds only dummies and `keys`
/// agrees with `keys0` on the real blocks of `old`, are those of `old` with `keys0`.
pub proof fn lemma_real_keyed_extend<V>(
    keys: Seq<u64>,
    old_blocks: Seq<PathOramBlock<V>>,
    extra: Seq<PathOramBlock<V>>,
    keys0: Seq<u64>,
)
    requires
        keys.len() == old_blocks.len() + extra.len(),
        keys0.len() == old_blocks.len(),
        forall|k: int| 0 <= k < extra.len() ==> is_dummy_block(#[trigger] extra[k]),
        forall|k: int|
            0 <= k < old_blocks.len() && !is_dummy_block(#[trigger] old_blocks[k]) ==> keys[k]
                == keys0[k],
    ensures
        real_keyed(keys, old_blocks + extra) == real_keyed(keys0, old_blocks),
{
    let p = real_pair_pred::<V>();
    let n = old_blocks.len() as int;
    let a = keyed(keys.take(n), old_blocks);
    let e = keyed(keys.skip(n), extra);
    assert(keyed(keys, old_blocks + extra) =~= a + e);
    Seq::filter_distributes_over_add(a, e, p);
    assert forall|k: int| 0 <= k < e.len() implies !p(#[trigger] e[k]) by {
        assert(is_dummy_block(extra[k]));
    }
    e.lemma_all_neg_filter_empty(p);
    let b = keyed(keys0, old_blocks);
    assert forall|i: int| 0 <= i < a.len() implies #[trigger] p(a[i]) == p(b[i]) by {}
    assert forall|i: int| 0 <= i < a.len() && #[trigger] p(a[i]) implies a[i] == b[i] by {
        assert(keys.take(n)[i] == keys[i]);
    }
    lemma_filter_agree(a, b, p);
    assert(a.filter(p) + e.filter(p) =~= a.filter(p));
}

/// When every real block of `t` has key `OVERFLOW_KEY`, its real blocks with their keys are
/// the real blocks of `t`, in order, each with `OVERFLOW_KEY`.
pub proof fn lemma_real_keyed_overflow<V>(keys: Seq<u64>, t: Seq<PathOramBlock<V>>)
    requires
        keys.len() == t.len(),
        forall|k: int| 0 <= k < t.len() && !is_dummy_block(#[trigger] t[k]) ==> keys[k] == OVERFLOW_KEY,
    ensures
        real_keyed(keys, t) == real_keyed(
            Seq::new(t.filter(|b: PathOramBlock<V>| !is_dummy_block(b)).len(), |i: int| OVERFLOW_KEY),
            t.filter(|b: PathOramBlock<V>| !is_dummy_block(b)),
        ),
    decreases t.len(),
{
    let rp = |b: PathOramBlock<V>| !is_dummy_block(b);
    let p = real_pair_pred::<V>();
    if t.len() == 0 {
        t.lemma_filter_len(rp);
        assert(keyed(keys, t) =~= Seq::<(u64, PathOramBlock<V>)>::empty());
        let r = t.filter(rp);
        assert(keyed(Seq::new(r.len(), |i: int| OVERFLOW_KEY), r) =~= Seq::<(u64, PathOramBlock<V>)>::empty());
    } else {
        let t2 = t.drop_last();
        let k2 = keys.drop_last();
        let x = t.last();
        lemma_real_keyed_overflow(k2, t2);
        assert(t =~= t2.push(x));
        assert(keyed(keys, t) =~= keyed(k2, t2).push((keys.last(), x)));
        keyed(k2, t2).lemma_filter_push((keys.last(), x), p);
        t2.lemma_filter_push(x, rp);
        let r2 = t2.filter(rp);
        let o2 = Seq::new(r2.len(), |i: int| OVERFLOW_KEY);
        keyed(o2, r2).lemma_filter_push((OVERFLOW_KEY, x), p);
        if !is_dummy_block(x) {
            assert(keys.last() == OVERFLOW_KEY);
            let r = t.filter(rp);
            assert(r == r2.push(x));
            assert(keyed(Seq::new(r.len(), |i: int| OVERFLOW_KEY), r) =~= keyed(o2, r2).push(
                (OVERFLOW_KEY, x),
            ));
        } else {
            assert(t.filter(rp) == r2);
        }
    }
}

/// Whether every real block of `blocks` is a leaf of depth `h`.
pub open spec fn real_blocks_are_leaves<V>(blocks: Seq<PathOramBlock<V>>, h: nat) -> bool {
    forall|k: int|
        0 <= k < blocks.len() && !is_dummy_block(#[trigger] blocks[k]) ==> is_leaf(
            blocks[k].position as nat,
            h,
        )
}

proof fn lemma_count_update(keys: Seq<u64>, i: int, v: u64, l: u64)
    requires
        0 <= i < keys.len(),
    ensures
        keys.update(i, v).to_multiset().count(l) == keys.to_multiset().count(l) + (if v == l {
            1int
        } else {
            0int
        }) - (if keys[i] == l {
            1int
        } else {
            0int
        }),
{
    vstd::seq_lib::to_multiset_update(keys, i, v);
    assert(keys.to_multiset().contains(keys[i])) by {
        assert(keys.contains(keys[i]));
    }
}

/// The deepest level `l <= top` of the path to `position` that block `b` fits in and whose
/// bucket is not full (`counts[l] < z`), if there is one.
pub open spec fn deepest_free<V>(
    b: PathOramBlock<V>,
    position: TreeIndex,
    counts: Seq<u64>,
    z: u64,
    top: int,
) -> Option<u64>
    decreases top + 1,
{
    if top < 0 {
        None
    } else if fits_at(b, position, top) && counts[top] < z {
        Some(top as u64)
    } else {
        deepest_free(b, position, counts, z, top - 1)
    }
}

/// The keys of the first `i` blocks and the bucket fill counts after assigning them in stash
/// order: each real block to the deepest bucket of the path to `position` that it fits in and
/// that is not full, or to `OVERFLOW_KEY`; each dummy block to `UNASSIGNED_KEY`.
pub open spec fn greedy_assignment<V>(
    blocks: Seq<PathOramBlock<V>>,
    position: TreeIndex,
    z: u64,
    i: nat,
) -> (Seq<u64>, Seq<u64>)
    decreases i,
{
    let h = depth(position as nat);
    if i == 0 {
        (Seq::empty(), Seq::new(h + 1, |l: int| 0u64))
    } else {
        let (keys, counts) = greedy_assignment(blocks, position, z, (i - 1) as nat);
        let b = blocks[i - 1];
        if is_dummy_block(b) {
            (keys.push(UNASSIGNED_KEY), counts)
        } else {
            match deepest_free(b, position, counts, z, h as int) {
                Some(l) => (keys.push(l), counts.update(l as int, (counts[l as int] + 1) as u64)),
                None => (keys.push(OVERFLOW_KEY), counts),
            }
        }
    }
}

/// The keys that the greedy assignment in stash order gives to all of `blocks`.
pub open spec fn greedy_keys<V>(blocks: Seq<PathOramBlock<V>>, position: TreeIndex, z: u64) -> Seq<
    u64,
> {
    greedy_assignment(blocks, position, z, blocks.len()).0
}

proof fn lemma_greedy_lengths<V>(blocks: Seq<PathOramBlock<V>>, position: TreeIndex, z: u64, i: nat)
    requires
        i <= blocks.len(),
        position != 0,
    ensures
        greedy_assignment(blocks, position, z, i).0.len() == i,
        greedy_assignment(blocks, position, z, i).1.len() == depth(position as nat) + 1,
    decreases i,
{
    if i > 0 {
        lemma_greedy_lengths(blocks, position, z, (i - 1) as nat);
        let counts = greedy_assignment(blocks, position, z, (i - 1) as nat).1;
        crate::tree::lemma_depth_bounds(position);
        lemma_deepest_free_in_range(blocks[i - 1], position, counts, z, depth(position as nat) as int);
    }
}

proof fn lemma_deepest_free_in_range<V>(
    b: PathOramBlock<V>,
    position: TreeIndex,
    counts: Seq<u64>,
    z: u64,
    top: int,
)
    requires
        top < 64,
    ensures
        deepest_free(b, position, counts, z, top) matches Some(l) ==> l <= top && 0 <= l
            && fits_at(b, position, l as int) && counts[l as int] < z,
    decreases top + 1,
{
    if top >= 0 {
        lemma_deepest_free_in_range(b, position, counts, z, top - 1);
    }
}

/// Assigns every real block to the deepest bucket of the path that it fits in and that is
/// not full yet, scanning the levels from the leaf up, or to `OVERFLOW_KEY` when there is
/// none. Dummy blocks keep `UNASSIGNED_KEY`.
pub(crate) fn assign_real_blocks<V: OramBlock>(
    blocks: &Vec<PathOramBlock<V>>,
    position: TreeIndex,
    height: u64,
    z: u64,
) -> (r: (Vec<u64>, Vec<u64>))
    requires
        position != 0,
        height == depth(position as nat),
        height < 64,
        z < u64::MAX,
        real_blocks_are_leaves(blocks@, height as nat),
    ensures
        assignment_ok(blocks@, r.0@, r.1@, position, z),
        forall|k: int| 0 <= k < blocks@.len() ==> (#[trigger] r.0@[k] != UNASSIGNED_KEY
            <==> !is_dummy_block(blocks@[k])),
        r.0@ == greedy_keys(blocks@, position, z),
{
    let n = blocks.len();
    let mut keys: Vec<u64> = Vec::new();
    let mut j: usize = 0;
    while j < n
        invariant
            j <= n,
            keys@.len() == j,
            forall|k: int| 0 <= k < j ==> keys@[k] == UNASSIGNED_KEY,
        decreases n - j,
    {
        keys.push(UNASSIGNED_KEY);
        j = j + 1;
    }
    let mut counts: Vec<u64> = Vec::new();
    let mut l: u64 = 0;
    while l <= height
        invariant
            l <= height + 1,
            height < 64,
            counts@.len() == l,
            forall|m: int| 0 <= m < l ==> counts@[m] == 0,
        decreases height + 1 - l,
    {
        counts.push(0);
        l = l + 1;
    }
    proof {
        assert forall|m: int| 0 <= m <= height implies #[trigger] counts@[m]
            == keys@.to_multiset().count(m as u64) by {
            if keys@.to_multiset().count(m as u64) > 0 {
                assert(keys@.contains(m as u64));
            }
        }
    }
    let ghost h = height as nat;
    proof {
        lemma_depth_of_power(height);
        assert(counts@ =~= greedy_assignment(blocks@, position, z, 0).1);
    }
    for i in 0..n
        invariant
            forall|k: int| 0 <= k < i ==> #[trigger] keys@[k] == greedy_assignment(
                blocks@,
                position,
                z,
                i as nat,
            ).0[k],
            counts@ == greedy_assignment(blocks@, position, z, i as nat).1,
            n == blocks@.len(),
            position != 0,
            height == depth(position as nat),
            h == height,
            height < 64,
            z < u64::MAX,
            depth((1u64 << height) as nat) == height,
            (1u64 << height) != 0,
            real_blocks_are_leaves(blocks@, h),
            assignment_ok(blocks@, keys@, counts@, position, z),
            forall|k: int| 0 <= k < n && keys@[k] <= h ==> !is_dummy_block(#[trigger] blocks@[k]),
            forall|k: int| i <= k < n ==> #[trigger] keys@[k] == UNASSIGNED_KEY,
            forall|k: int| 0 <= k < i ==> (#[trigger] keys@[k] != UNASSIGNED_KEY
                <==> !is_dummy_block(blocks@[k])),
    {
        let block = blocks[i];
        // A dummy block takes part with a valid but meaningless leaf and is never assigned.
        let block_is_dummy = block.ct_is_dummy();
        let an_arbitrary_leaf: TreeIndex = 1u64 << height;
        let block_position = ct_select_u64(block.position, an_arbitrary_leaf, block_is_dummy);
        let mut assigned = false;
        let ghost gk = greedy_assignment(blocks@, position, z, i as nat).0;
        let ghost gc = greedy_assignment(blocks@, position, z, i as nat).1;
        proof {
            lemma_greedy_lengths(blocks@, position, z, i as nat);
        }
        // Scan the buckets from leaf to root, assigning the block to the first bucket that is
        // not full and lies on the block's own path.
        let mut level: u64 = height + 1;
        while level > 0
            invariant
                gk == greedy_assignment(blocks@, position, z, i as nat).0,
                gc == greedy_assignment(blocks@, position, z, i as nat).1,
                gc.len() == h + 1,
                forall|k: int| 0 <= k < i ==> #[trigger] keys@[k] == gk[k],
                !assigned ==> counts@ == gc,
                !assigned && !block_is_dummy ==> deepest_free(block, position, gc, z, h as int)
                    == deepest_free(block, position, gc, z, level - 1),
                assigned ==> !block_is_dummy && deepest_free(block, position, gc, z, h as int)
                    == Some(keys@[i as int]) && counts@ == gc.update(
                    keys@[i as int] as int,
                    (gc[keys@[i as int] as int] + 1) as u64,
                ),
                n == blocks@.len(),
                i < n,
                block == blocks@[i as int],
                block_is_dummy == is_dummy_block(block),
                is_leaf(block_position as nat, h),
                !block_is_dummy ==> block_position == block.position,
                position != 0,
                height == depth(position as nat),
                h == height,
                height < 64,
                z < u64::MAX,
                level <= height + 1,
                assignment_ok(blocks@, keys@, counts@, position, z),
                forall|k: int| 0 <= k < n && keys@[k] <= h ==> !is_dummy_block(#[trigger] blocks@[k]),
                forall|k: int| i < k < n ==> #[trigger] keys@[k] == UNASSIGNED_KEY,
                forall|k: int| 0 <= k < i ==> (#[trigger] keys@[k] != UNASSIGNED_KEY
                    <==> !is_dummy_block(blocks@[k])),
                assigned <==> keys@[i as int] != UNASSIGNED_KEY,
                assigned ==> keys@[i as int] <= h,
                !assigned && !block_is_dummy ==> forall|m: int|
                    level <= m <= h && fits_at(block, position, m) ==> #[trigger] counts@[m] == z,
            decreases level,
        {
            level = level - 1;
            let count = counts[level as usize];
            let level_bucket_full = ct_eq_u64(count, z);
            let block_node = ct_node_on_path(block_position, level, height);
            let path_node_here = ct_node_on_path(position, level, height);
            let level_satisfies_invariant = ct_eq_u64(block_node, path_node_here);
            let should_assign = level_satisfies_invariant && !level_bucket_full && !block_is_dummy
                && !assigned;
            proof {
                if should_assign {
                    assert(fits_at(block, position, level as int));
                }
                if !assigned && !block_is_dummy {
                    if fits_at(block, position, level as int) {
                        assert(level_satisfies_invariant);
                    }
                    if !should_assign {
                        assert(deepest_free(block, position, gc, z, level as int) == deepest_free(
                            block,
                            position,
                            gc,
                            z,
                            level - 1,
                        ));
                    }
                }
            }
            let ghost old_keys = keys@;
            let ghost old_counts = counts@;
            assigned = assigned || should_assign;
            let incremented: u64 = count + 1;
            counts.set(level as usize, ct_select_u64(count, incremented, should_assign));
            keys.set(i, ct_select_u64(keys[i], level, should_assign));
            proof {
                if should_assign {
                    assert(old_keys[i as int] == UNASSIGNED_KEY);
                    assert forall|m: int| 0 <= m <= h implies #[trigger] counts@[m]
                        == keys@.to_multiset().count(m as u64) by {
                        lemma_count_update(old_keys, i as int, level, m as u64);
                    }
                    assert forall|k: int| 0 <= k < n implies #[trigger] key_ok(
                        blocks@[k],
                        keys@[k],
                        position,
                        h,
                    ) by {
                        if k != i {
                            assert(key_ok(blocks@[k], old_keys[k], position, h));
                        }
                    }
                    assert forall|k: int, m: int|
                        #![trigger keys@[k], counts@[m]]
                        0 <= k < n && !is_dummy_block(blocks@[k]) && (keys@[k] == OVERFLOW_KEY || keys@[k] < m) && 0 <= m <= h && fits_at(
                            blocks@[k],
                            position,
                            m,
                        ) implies counts@[m] == z && forall|k2: int|
                        0 <= k2 < n && keys@[k2] == m ==> !is_dummy_block(
                            #[trigger] blocks@[k2],
                        ) by {
                        if k == i {
                            assert(m > level);
                            assert(fits_at(block, position, m));
                            assert(old_counts[m] == z);
                        } else {
                            assert(old_keys[k] == keys@[k]);
                            assert(old_counts[m] == z);
                            assert(m != level);
                        }
                        assert forall|k2: int| 0 <= k2 < n && keys@[k2] == m implies !is_dummy_block(
                            #[trigger] blocks@[k2],
                        ) by {
                            if k2 != i {
                                assert(old_keys[k2] == m);
                            }
                        }
                    }
                } else {
                    assert(keys@ =~= old_keys);
                    assert(counts@ =~= old_counts);
                }
            }
        }
        let ghost keys_before = keys@;
        let overflow = !assigned && !block_is_dummy;
        keys.set(i, ct_select_u64(keys[i], OVERFLOW_KEY, overflow));
        proof {
            if overflow {
                assert forall|m: int| 0 <= m <= h implies #[trigger] counts@[m]
                    == keys@.to_multiset().count(m as u64) by {
                    lemma_count_update(keys_before, i as int, OVERFLOW_KEY, m as u64);
                }
                assert forall|k: int| 0 <= k < n implies #[trigger] key_ok(
                    blocks@[k],
                    keys@[k],
                    position,
                    h,
                ) by {
                    if k != i {
                        assert(key_ok(blocks@[k], keys_before[k], position, h));
                    }
                }
                assert forall|k: int, m: int|
                    #![trigger keys@[k], counts@[m]]
                    0 <= k < n && !is_dummy_block(blocks@[k]) && (keys@[k] == OVERFLOW_KEY || keys@[k] < m) && 0 <= m <= h && fits_at(
                        blocks@[k],
                        position,
                        m,
                    ) implies counts@[m] == z && forall|k2: int|
                    0 <= k2 < n && keys@[k2] == m ==> !is_dummy_block(#[trigger] blocks@[k2]) by {
                    if k != i {
                        assert(keys_before[k] == keys@[k]);
                    }
                    assert forall|k2: int| 0 <= k2 < n && keys@[k2] == m implies !is_dummy_block(
                        #[trigger] blocks@[k2],
                    ) by {
                        assert(k2 != i);
                        assert(keys_before[k2] == m);
                    }
                }
            } else {
                assert(keys@ =~= keys_before);
            }
            // The block got the key that the greedy assignment gives it.
            let gi = greedy_assignment(blocks@, position, z, (i + 1) as nat);
            if !block_is_dummy && !assigned {
                assert(deepest_free(block, position, gc, z, -1) is None);
            }
            assert forall|k: int| 0 <= k < i + 1 implies #[trigger] keys@[k] == gi.0[k] by {
                if k < i {
                    assert(keys@[k] == gk[k]);
                }
            }
        }
    }
    proof {
        lemma_greedy_lengths(blocks@, position, z, n as nat);
        assert(keys@ =~= greedy_keys(blocks@, position, z));
    }
    (keys, counts)
}

/// The number of free slots left in the buckets of the path: `sum of (z - counts[l])`.
pub open spec fn deficit(counts: Seq<u64>, z: u64) -> int
    decreases counts.len(),
{
    if counts.len() == 0 {
        0
    } else {
        deficit(counts.drop_last(), z) + (z - counts.last())
    }
}

/// The deficit is between 0 and `z` per level, and is 0 exactly when every level is full.
pub proof fn lemma_deficit_bounds(counts: Seq<u64>, z: u64)
    requires
        forall|l: int| 0 <= l < counts.len() ==> #[trigger] counts[l] <= z,
    ensures
        0 <= deficit(counts, z) <= z * counts.len(),
        deficit(counts, z) == 0 <==> forall|l: int| 0 <= l < counts.len() ==> #[trigger] counts[l] == z,
    decreases counts.len(),
{
    if counts.len() > 0 {
        let p = counts.drop_last();
        assert forall|l: int| 0 <= l < p.len() implies #[trigger] p[l] <= z by {
            assert(counts[l] <= z);
        }
        lemma_deficit_bounds(p, z);
        vstd::arithmetic::mul::lemma_mul_is_distributive_add(z as int, p.len() as int, 1);
        if deficit(counts, z) == 0 {
            assert forall|l: int| 0 <= l < counts.len() implies #[trigger] counts[l] == z by {
                if l < p.len() {
                    assert(p[l] == z);
                }
            }
        } else {
            if forall|l: int| 0 <= l < counts.len() ==> #[trigger] counts[l] == z {
                assert forall|l: int| 0 <= l < p.len() implies #[trigger] p[l] == z by {
                    assert(counts[l] == z);
                }
                assert(counts[counts.len() - 1] == z);
            }
        }
    }
}

/// Filling one more slot of a level that is not full lowers the deficit by one.
pub proof fn lemma_deficit_fill(counts: Seq<u64>, z: u64, l: int)
    requires
        0 <= l < counts.len(),
        counts[l] < z,
    ensures
        deficit(counts.update(l, (counts[l] + 1) as u64), z) == deficit(counts, z) - 1,
    decreases counts.len(),
{
    let u = counts.update(l, (counts[l] + 1) as u64);
    if l == counts.len() - 1 {
        assert(u.drop_last() =~= counts.drop_last());
    } else {
        lemma_deficit_fill(counts.drop_last(), z, l);
        assert(u.drop_last() =~= counts.drop_last().update(l, (counts[l] + 1) as u64));
    }
}

/// Assigns the dummy blocks of `blocks[start..len - 1]`, in order, to the shallowest levels of
/// the path that are not full yet. The last block is skipped: it stays reserved for writes to
/// new addresses.
pub(crate) fn assign_dummies_pass<V: OramBlock>(
    blocks: &Vec<PathOramBlock<V>>,
    keys: &mut Vec<u64>,
    counts: &mut Vec<u64>,
    start: usize,
    position: TreeIndex,
    height: u64,
    z: u64,
)
    requires
        assignment_ok(blocks@, old(keys)@, old(counts)@, position, z),
        height == depth(position as nat),
        height < 64,
        start < blocks@.len(),
        z < u64::MAX,
        forall|k: int|
            start <= k < blocks@.len() && is_dummy_block(#[trigger] blocks@[k]) ==> old(
                keys,
            )@[k] == UNASSIGNED_KEY,
    ensures
        assignment_ok(blocks@, final(keys)@, final(counts)@, position, z),
        forall|k: int|
            0 <= k < blocks@.len() && (k < start || k == blocks@.len() - 1 || !is_dummy_block(
                blocks@[k],
            )) ==> #[trigger] final(keys)@[k] == old(keys)@[k],
        deficit(final(counts)@, z) <= deficit(old(counts)@, z),
        start + 1 < blocks@.len() - 1 && is_dummy_block(blocks@[start + 1]) && deficit(
            old(counts)@,
            z,
        ) > 0 ==> deficit(final(counts)@, z) < deficit(old(counts)@, z),
        deficit(final(counts)@, z) == (if deficit(old(counts)@, z) > dummy_count(
            blocks@.subrange(start as int, blocks@.len() - 1),
        ) {
            deficit(old(counts)@, z) - dummy_count(blocks@.subrange(start as int, blocks@.len() - 1))
        } else {
            0
        }),
        placed_dummies(blocks@, final(keys)@, height as nat) + deficit(final(counts)@, z)
            == placed_dummies(blocks@, old(keys)@, height as nat) + deficit(old(counts)@, z),
{
    let ghost h = height as nat;
    let ghost keys0 = keys@;
    let ghost counts0 = counts@;
    let n = blocks.len();
    let mut i: usize = start;
    proof {
        blocks@.subrange(start as int, start as int).lemma_filter_len(dummy_pred::<V>());
        lemma_deficit_bounds(counts@, z);
    }
    while i < n - 1
        invariant
            n == blocks@.len(),
            n >= 1,
            start <= i,
            i <= n - 1 || i == start,
            height < 64,
            height == depth(position as nat),
            h == height,
            z < u64::MAX,
            keys0 == old(keys)@,
            counts0 == old(counts)@,
            assignment_ok(blocks@, keys@, counts@, position, z),
            forall|k: int|
                i <= k < n && is_dummy_block(#[trigger] blocks@[k]) ==> keys@[k] == UNASSIGNED_KEY,
            forall|k: int|
                0 <= k < n && (k < start || k >= i || !is_dummy_block(blocks@[k]))
                    ==> #[trigger] keys@[k] == keys0[k],
            deficit(counts@, z) <= deficit(counts0, z),
            i > start + 1 && is_dummy_block(blocks@[start + 1]) && deficit(counts0, z) > 0
                ==> deficit(counts@, z) < deficit(counts0, z),
            deficit(counts@, z) == (if deficit(counts0, z) > dummy_count(
                blocks@.subrange(start as int, i as int),
            ) {
                deficit(counts0, z) - dummy_count(blocks@.subrange(start as int, i as int))
            } else {
                0
            }),
            placed_dummies(blocks@, keys@, h) + deficit(counts@, z) == placed_dummies(
                blocks@,
                keys0,
                h,
            ) + deficit(counts0, z),
        decreases n - i,
    {
        let block_free = blocks[i].ct_is_dummy();
        let mut assigned: bool = false;
        let ghost deficit_before = deficit(counts@, z);
        let ghost placed_before = placed_dummies(blocks@, keys@, h);
        let mut level: u64 = 0;
        while level <= height
            invariant
                n == blocks@.len(),
                start <= i < n - 1,
                height == depth(position as nat),
                h == height,
                height < 64,
                z < u64::MAX,
                level <= height + 1,
                block_free == is_dummy_block(blocks@[i as int]),
                assignment_ok(blocks@, keys@, counts@, position, z),
                forall|k: int|
                    i < k < n && is_dummy_block(#[trigger] blocks@[k]) ==> keys@[k]
                        == UNASSIGNED_KEY,
                forall|k: int|
                    0 <= k < n && (k < start || k > i || !is_dummy_block(blocks@[k]))
                        ==> #[trigger] keys@[k] == keys0[k],
                block_free && !assigned ==> keys@[i as int] == UNASSIGNED_KEY,
                block_free && !assigned ==> forall|m: int|
                    0 <= m < level ==> #[trigger] counts@[m] == z,
                !block_free ==> !assigned,
                deficit(counts@, z) == deficit_before - (if assigned {
                    1int
                } else {
                    0int
                }),
                placed_dummies(blocks@, keys@, h) == placed_before + (if assigned {
                    1int
                } else {
                    0int
                }),
            decreases height + 1 - level,
        {
            let count = counts[level as usize];
            let full = ct_eq_u64(count, z);
            let no_op = assigned || full || !block_free;
            let ghost old_keys = keys@;
            let ghost old_counts = counts@;
            let incremented: u64 = count + 1;
            keys.set(i, ct_select_u64(keys[i], level, !no_op));
            counts.set(level as usize, ct_select_u64(count, incremented, !no_op));
            assigned = assigned || !no_op;
            proof {
                if !no_op {
                    assert(old_counts[level as int] <= z);
                    lemma_deficit_fill(old_counts, z, level as int);
                    lemma_placed_update(blocks@, old_keys, h, i as int, level);
                    assert forall|m: int| 0 <= m <= h implies #[trigger] counts@[m] <= z by {
                        assert(old_counts[m] <= z);
                    }
                    assert forall|m: int| 0 <= m <= h implies #[trigger] counts@[m]
                        == keys@.to_multiset().count(m as u64) by {
                        lemma_count_update(old_keys, i as int, level, m as u64);
                    }
                    assert forall|k: int| 0 <= k < n implies #[trigger] key_ok(
                        blocks@[k],
                        keys@[k],
                        position,
                        h,
                    ) by {
                        if k != i {
                            assert(key_ok(blocks@[k], old_keys[k], position, h));
                        }
                    }
                    assert forall|k: int, m: int|
                        #![trigger keys@[k], counts@[m]]
                        0 <= k < n && !is_dummy_block(blocks@[k]) && (keys@[k] == OVERFLOW_KEY || keys@[k] < m) && 0 <= m <= h && fits_at(
                            blocks@[k],
                            position,
                            m,
                        ) implies counts@[m] == z && forall|k2: int|
                        0 <= k2 < n && keys@[k2] == m ==> !is_dummy_block(
                            #[trigger] blocks@[k2],
                        ) by {
                        assert(k != i);
                        assert(old_keys[k] == keys@[k]);
                        assert(old_counts[m] == z);
                        assert(m != level);
                        assert forall|k2: int|
                            0 <= k2 < n && keys@[k2] == m implies !is_dummy_block(
                            #[trigger] blocks@[k2],
                        ) by {
                            if k2 != i {
                                assert(old_keys[k2] == m);
                            }
                        }
                    }
                } else {
                    assert(keys@ =~= old_keys);
                    assert(counts@ =~= old_counts);
                }
            }
            level = level + 1;
        }
        proof {
            lemma_deficit_bounds(counts@, z);
            let c = dummy_count(blocks@.subrange(start as int, i as int));
            let d0 = deficit(counts0, z);
            assert(blocks@.subrange(start as int, i + 1) =~= blocks@.subrange(start as int, i as int).push(
                blocks@[i as int],
            ));
            lemma_dummy_count_push(blocks@.subrange(start as int, i as int), blocks@[i as int]);
            if block_free {
                assert(dummy_count(blocks@.subrange(start as int, i + 1)) == c + 1);
                if assigned {
                    assert(deficit_before >= 1);
                    assert(d0 > c);
                } else {
                    assert(deficit(counts@, z) == 0);
                    assert(deficit_before == 0);
                    assert(d0 <= c);
                }
            } else {
                assert(!assigned);
                assert(dummy_count(blocks@.subrange(start as int, i + 1)) == c);
            }
        }
        i = i + 1;
    }
}

/// Reordering blocks together with their keys keeps an assignment valid.
pub proof fn lemma_assignment_ok_permuted<V>(
    blocks: Seq<PathOramBlock<V>>,
    keys: Seq<u64>,
    blocks2: Seq<PathOramBlock<V>>,
    keys2: Seq<u64>,
    counts: Seq<u64>,
    position: TreeIndex,
    z: u64,
)
    requires
        assignment_ok(blocks, keys, counts, position, z),
        blocks2.len() == keys2.len(),
        keys2.to_multiset() == keys.to_multiset(),
        keyed(keys2, blocks2).to_multiset() == keyed(keys, blocks).to_multiset(),
    ensures
        assignment_ok(blocks2, keys2, counts, position, z),
        (forall|k: int| 0 <= k < blocks.len() && !is_dummy_block(#[trigger] blocks[k]) ==> keys[k]
            != UNASSIGNED_KEY) ==> (forall|k: int|
            0 <= k < blocks2.len() && !is_dummy_block(#[trigger] blocks2[k]) ==> keys2[k]
                != UNASSIGNED_KEY),
{
    let h = depth(position as nat);
    let pairs = keyed(keys, blocks);
    let pairs2 = keyed(keys2, blocks2);
    assert(pairs.len() == blocks.len());
    pairs.to_multiset_ensures();
    pairs2.to_multiset_ensures();
    assert(pairs.to_multiset().len() == pairs.len());
    assert(pairs2.to_multiset().len() == pairs2.len());
    assert forall|k: int| 0 <= k < blocks2.len() implies exists|j: int|
        0 <= j < blocks.len() && #[trigger] keys[j] == #[trigger] keys2[k] && blocks[j] == blocks2[k] by {
        assert(pairs2[k] == (keys2[k], blocks2[k]));
        assert(pairs2.contains(pairs2[k]));
        assert(pairs2.to_multiset().count(pairs2[k]) > 0);
        assert(pairs.to_multiset().count(pairs2[k]) > 0);
        assert(pairs.contains(pairs2[k]));
        let j = choose|j: int| 0 <= j < pairs.len() && pairs[j] == pairs2[k];
        assert(keys[j] == keys2[k]);
    }
    assert forall|k: int| 0 <= k < blocks2.len() implies #[trigger] key_ok(
        blocks2[k],
        keys2[k],
        position,
        h,
    ) by {
        let j = choose|j: int|
            0 <= j < blocks.len() && #[trigger] keys[j] == keys2[k] && blocks[j] == blocks2[k];
        assert(key_ok(blocks[j], keys[j], position, h));
    }
    assert forall|k: int, l: int|
        #![trigger keys2[k], counts[l]]
        0 <= k < blocks2.len() && !is_dummy_block(blocks2[k]) && (keys2[k] == OVERFLOW_KEY || keys2[k] < l) && 0 <= l <= h && fits_at(
            blocks2[k],
            position,
            l,
        ) implies counts[l] == z && forall|k2: int|
        0 <= k2 < blocks2.len() && keys2[k2] == l ==> !is_dummy_block(#[trigger] blocks2[k2]) by {
        let j = choose|j: int|
            0 <= j < blocks.len() && #[trigger] keys[j] == keys2[k] && blocks[j] == blocks2[k];
        assert(!is_dummy_block(blocks[j]) && (keys[j] == OVERFLOW_KEY || keys[j] < l));
        assert(counts[l] == z);
        assert forall|k2: int| 0 <= k2 < blocks2.len() && keys2[k2] == l implies !is_dummy_block(
            #[trigger] blocks2[k2],
        ) by {
            let j2 = choose|j2: int|
                0 <= j2 < blocks.len() && #[trigger] keys[j2] == keys2[k2] && blocks[j2]
                    == blocks2[k2];
            assert(keys[j2] == l);
        }
    }
    if forall|k: int| 0 <= k < blocks.len() && !is_dummy_block(#[trigger] blocks[k]) ==> keys[k]
        != UNASSIGNED_KEY {
        assert forall|k: int|
            0 <= k < blocks2.len() && !is_dummy_block(#[trigger] blocks2[k]) implies keys2[k]
            != UNASSIGNED_KEY by {
            let j = choose|j: int|
                0 <= j < blocks.len() && #[trigger] keys[j] == keys2[k] && blocks[j] == blocks2[k];
            assert(!is_dummy_block(blocks[j]));
        }
    }
}

/// Sorted keys in which each level `l <= h` occurs exactly `z` times lay the levels out in
/// order: the first `z * (h + 1)` keys are `k / z`, and the others are above `h`.
pub proof fn lemma_sorted_layout(keys: Seq<u64>, z: u64, h: nat)
    requires
        sorted(keys),
        h < 0xffff_ffff_ffff_fffd,
        forall|l: int| 0 <= l <= h ==> #[trigger] keys.to_multiset().count(l as u64) == z,
    ensures
        z * (h + 1) <= keys.len(),
        forall|k: int| 0 <= k < z * (h + 1) ==> #[trigger] keys[k] == k / (z as int),
        forall|k: int| z * (h + 1) <= k < keys.len() ==> #[trigger] keys[k] > h,
{
    lemma_count_below_levels(keys, z, (h + 1) as nat);
    lemma_sorted_count_below(keys, (h + 1) as int);
    assert forall|k: int| 0 <= k < z * (h + 1) implies #[trigger] keys[k] == k / (z as int) by {
        let l = k / (z as int);
        assert(z > 0);
        vstd::arithmetic::div_mod::lemma_fundamental_div_mod(k, z as int);
        vstd::arithmetic::div_mod::lemma_div_pos_is_pos(k, z as int);
        assert(l * z <= k < (l + 1) * z) by (nonlinear_arith)
            requires
                k == z * l + k % (z as int),
                0 <= k % (z as int) < z,
        ;
        assert(l <= h) by (nonlinear_arith)
            requires
                l * z <= k,
                k < z * (h + 1),
                z > 0,
        ;
        lemma_count_below_levels(keys, z, l as nat);
        lemma_count_below_levels(keys, z, (l + 1) as nat);
        lemma_sorted_count_below(keys, l);
        lemma_sorted_count_below(keys, l + 1);
        vstd::arithmetic::mul::lemma_mul_is_commutative(z as int, l);
        vstd::arithmetic::mul::lemma_mul_is_commutative(z as int, l + 1);
        assert(count_below(keys, l) <= k);
        assert(k < count_below(keys, l + 1));
    }
}

proof fn lemma_count_below_levels(keys: Seq<u64>, z: u64, l: nat)
    requires
        l <= 0xffff_ffff_ffff_fffd,
        forall|m: int| 0 <= m < l ==> #[trigger] keys.to_multiset().count(m as u64) == z,
    ensures
        count_below(keys, l as int) == z * l,
    decreases l,
{
    if l == 0 {
        lemma_count_below_zero(keys);
    } else {
        lemma_count_below_levels(keys, z, (l - 1) as nat);
        lemma_count_below_step(keys, (l - 1) as u64);
        vstd::arithmetic::mul::lemma_mul_is_distributive_add(z as int, (l - 1) as int, 1);
    }
}

proof fn lemma_count_below_zero(keys: Seq<u64>)
    ensures
        count_below(keys, 0) == 0,
    decreases keys.len(),
{
    if keys.len() > 0 {
        lemma_count_below_zero(keys.drop_last());
    }
}

/// Appends ten dummy blocks to the stash, each with `UNASSIGNED_KEY`.
pub(crate) fn grow_with_dummies<V: OramBlock>(
    blocks: &mut Vec<PathOramBlock<V>>,
    keys: &mut Vec<u64>,
    counts: &Vec<u64>,
    position: TreeIndex,
    z: u64,
)
    requires
        assignment_ok(old(blocks)@, old(keys)@, counts@, position, z),
        old(blocks)@.len() + 10 <= usize::MAX,
        position != 0,
    ensures
        assignment_ok(final(blocks)@, final(keys)@, counts@, position, z),
        final(blocks)@ == old(blocks)@ + crate::stash::dummies::<V>(10),
        final(keys)@ == old(keys)@ + Seq::new(10, |i: int| UNASSIGNED_KEY),
{
    let ghost h = depth(position as nat);
    let ghost b0 = blocks@;
    let ghost k0 = keys@;
    proof {
        crate::tree::lemma_depth_bounds(position);
    }
    let mut i: usize = 0;
    while i < 10
        invariant
            i <= 10,
            b0.len() + 10 <= usize::MAX,
            blocks@ == b0 + crate::stash::dummies::<V>(i as nat),
            keys@ == k0 + Seq::new(i as nat, |j: int| UNASSIGNED_KEY),
            assignment_ok(blocks@, keys@, counts@, position, z),
            h == depth(position as nat),
            h < 64,
        decreases 10 - i,
    {
        let ghost kb = keys@;
        let ghost bb = blocks@;
        blocks.push(PathOramBlock::dummy());
        keys.push(UNASSIGNED_KEY);
        i = i + 1;
        proof {
            assert(blocks@ =~= b0 + crate::stash::dummies::<V>(i as nat));
            assert(keys@ =~= k0 + Seq::new(i as nat, |j: int| UNASSIGNED_KEY));
            assert(keys@ =~= kb.push(UNASSIGNED_KEY));
            assert forall|l: int| 0 <= l <= h implies #[trigger] counts@[l]
                == keys@.to_multiset().count(l as u64) by {
                assert(keys@.to_multiset() == kb.to_multiset().insert(UNASSIGNED_KEY));
                assert(counts@[l] == kb.to_multiset().count(l as u64));
            }
            assert forall|k: int| 0 <= k < blocks@.len() implies #[trigger] key_ok(
                blocks@[k],
                keys@[k],
                position,
                h,
            ) by {
                if k < blocks@.len() - 1 {
                    assert(keys@[k] == kb[k]);
                    assert(blocks@[k] == bb[k]);
                    assert(key_ok(bb[k], kb[k], position, h));
                }
            }
            let n = blocks@.len();
            assert forall|k: int, m: int|
                #![trigger keys@[k], counts@[m]]
                0 <= k < n && !is_dummy_block(blocks@[k]) && (keys@[k] == OVERFLOW_KEY || keys@[k] < m) && 0 <= m <= h && fits_at(
                    blocks@[k],
                    position,
                    m,
                ) implies counts@[m] == z && forall|k2: int|
                0 <= k2 < n && keys@[k2] == m ==> !is_dummy_block(#[trigger] blocks@[k2]) by {
                assert(k < n - 1);
                assert(kb[k] == keys@[k] && bb[k] == blocks@[k]);
                assert(assignment_ok(bb, kb, counts@, position, z));
                assert(0 <= k < bb.len() && !is_dummy_block(bb[k]) && (kb[k] == OVERFLOW_KEY || kb[k] < m) && 0 <= m <= h && fits_at(
                    bb[k],
                    position,
                    m,
                ));
                assert(forall|k2: int|
                    0 <= k2 < bb.len() && kb[k2] == m ==> !is_dummy_block(#[trigger] bb[k2]));
                assert forall|k2: int| 0 <= k2 < n && keys@[k2] == m implies !is_dummy_block(
                    #[trigger] blocks@[k2],
                ) by {
                    assert(k2 < n - 1);
                    assert(kb[k2] == m && bb[k2] == blocks@[k2]);
                }
            }
        }
    }
}

} // verus!
