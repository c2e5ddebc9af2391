//! The stash of a Path ORAM: a fixed-size, obliviously accessed buffer of blocks.
//!
//! Layout of `blocks`: a scratch prefix of `path_size` slots into which a path of the tree is
//! read, then the blocks that overflowed the tree, and at the end one dummy block reserved for
//! writes to addresses that are not stored yet.

use crate::block::{dummy_block, is_dummy_block, Bucket, PathOramBlock, DUMMY_ADDRESS};
use crate::ct::ct_eq_u64;
use crate::evict::{
    assign_dummies_pass, assign_real_blocks, assignment_ok, deficit, dummy_count, fits_at,
    grow_with_dummies, lemma_assignment_ok_permuted, lemma_deficit_bounds, lemma_grown_window,
    lemma_placed_layout, lemma_placed_none, lemma_placed_permuted, lemma_sorted_layout,
    placed_dummies, real_blocks_are_leaves, UNASSIGNED_KEY, greedy_keys, real_keyed, slot_keys,

    real_pair_pred, lemma_real_keyed_extend, lemma_filter_agree, key_ok, OVERFLOW_KEY,
};
use crate::sort::{keyed, oblivious_sort_by_keys};
use crate::union::{
    assign_union_real_blocks, before, covers, fill_union_with_dummies, grow_union, in_union,
    insert_sorted, insert_writeback, lemma_increasing_is_root_first, lemma_union_assignment_ok_permuted,
    lemma_union_conservation, lemma_writeback_unique, real_blocks, same_nodes, slots_needed,
    strictly_increasing, tail_from, union_assignment_ok, union_block, union_greedy_keys,
    union_key_ok, writeback_order, writeback_ordered,
};
use crate::tree::{ct_depth, ct_node_on_path, depth, lemma_depth_bounds, node_on_path, TreeIndex};
use crate::batch::{
    batch_lookup, batch_result, distinct_addresses, dummies_from, fill_from_end, inserted_blocks,
    lemma_dummies_from_append, lemma_dummies_from_dummies, lemma_dummies_from_monotone,
    lemma_dummies_from_step, lemma_inserted_prefix, updated_block, updated_blocks,
};
use crate::linear_time_oram::refs_hold;
use crate::{
    expected_got_text, format_expected_got, format_input_lengths, input_lengths_text, Address,
    OramBlock, OramError, StashSize,
};
use std::collections::HashSet;
use vstd::prelude::*;

verus! {

/// A fixed-size, obliviously accessed Path ORAM stash data structure implemented using
/// oblivious sorting.
#[derive(Debug)]
pub struct ObliviousStash<V: OramBlock> {
    pub blocks: Vec<PathOramBlock<V>>,
    path_size: StashSize,
    /// The number of accesses in a batch (1 when accesses come one at a time).
    m_batch: usize,
}

/// `n` dummy blocks.
pub open spec fn dummies<V: OramBlock>(n: nat) -> Seq<PathOramBlock<V>> {
    Seq::new(n, |i: int| dummy_block::<V>())
}

/// The number of blocks of `s` that are not dummies.
pub open spec fn real_count<V>(s: Seq<PathOramBlock<V>>) -> nat
    decreases s.len(),
{
    if s.len() == 0 {
        0
    } else {
        real_count(s.drop_last()) + if is_dummy_block(s.last()) {
            0nat
        } else {
            1nat
        }
    }
}

/// The node at depth `d` on the path from the root to leaf `position`.
pub open spec fn path_node(position: TreeIndex, d: int) -> nat {
    node_on_path(position as nat, d as nat, depth(position as nat))
}

/// Block `k` of the scratch prefix after reading the path to `position` from `memory`:
/// slot `k % Z` of the bucket at depth `k / Z`.
pub open spec fn path_block<V, const Z: usize>(
    memory: Seq<Bucket<V, Z>>,
    position: TreeIndex,
    k: int,
) -> PathOramBlock<V> {
    memory[path_node(position, k / Z as int) as int].blocks[k % Z as int]
}

proof fn lemma_slot_div_mod(i: int, s: int, z: int)
    requires
        0 <= i,
        0 <= s < z,
    ensures
        (z * i + s) / z == i,
        (z * i + s) % z == s,
        z * i + s < z * (i + 1),
{
    vstd::arithmetic::mul::lemma_mul_is_commutative(z, i);
    vstd::arithmetic::div_mod::lemma_fundamental_div_mod_converse(z * i + s, z, i, s);
    vstd::arithmetic::mul::lemma_mul_is_distributive_add(z, i, 1);
}

proof fn lemma_real_count_push<V>(s: Seq<PathOramBlock<V>>, b: PathOramBlock<V>)
    ensures
        real_count(s.push(b)) == real_count(s) + if is_dummy_block(b) {
            0nat
        } else {
            1nat
        },
{
    assert(s.push(b).drop_last() =~= s);
}

proof fn lemma_real_count_dummies<V: OramBlock>(n: nat)
    ensures
        real_count(dummies::<V>(n)) == 0,
    decreases n,
{
    if n > 0 {
        assert(dummies::<V>(n).drop_last() =~= dummies::<V>((n - 1) as nat));
        lemma_real_count_dummies::<V>((n - 1) as nat);
    }
}

/// A stash made by `new` holds no real block: whatever its scratch prefix, its occupancy is 0.
pub proof fn law_new_stash_is_empty<V: OramBlock>(n: nat, path_size: int)
    requires
        0 <= path_size <= n,
    ensures
        real_count(dummies::<V>(n).subrange(path_size, n as int)) == 0,
{
    assert(dummies::<V>(n).subrange(path_size, n as int) =~= dummies::<V>((n - path_size) as nat));
    lemma_real_count_dummies::<V>((n - path_size) as nat);
}

/// A read after a write returns the written value: when `access` with a callback that
/// always returns `w` turned stash `s0` into `s1` (its contract gives
/// `callback.ensures((&lookup(s0, a),), lookup(s1, a))`), the value that the next `access`
/// to `a` returns, `lookup(s1, a)`, is `w`.
pub proof fn law_stash_read_after_write<V: OramBlock, F: Fn(&V) -> V>(
    s0: Seq<PathOramBlock<V>>,
    s1: Seq<PathOramBlock<V>>,
    a: Address,
    callback: F,
    w: V,
)
    requires
        forall|v: &V, x: V| #[trigger] callback.ensures((v,), x) ==> x == w,
        callback.ensures((&lookup(s0, a),), lookup(s1, a)),
    ensures
        lookup(s1, a) == w,
{
}

proof fn lemma_real_blocks_add<V>(a: Seq<PathOramBlock<V>>, b: Seq<PathOramBlock<V>>)
    ensures
        real_blocks(a + b).to_multiset() == real_blocks(a).to_multiset().add(
            real_blocks(b).to_multiset(),
        ),
{
    Seq::filter_distributes_over_add(a, b, |x: PathOramBlock<V>| !is_dummy_block(x));
    vstd::seq_lib::lemma_multiset_commutative(real_blocks(a), real_blocks(b));
}

proof fn lemma_real_blocks_of_dummies<V>(a: Seq<PathOramBlock<V>>)
    requires
        forall|k: int| 0 <= k < a.len() ==> is_dummy_block(#[trigger] a[k]),
    ensures
        real_blocks(a).to_multiset() == vstd::multiset::Multiset::<PathOramBlock<V>>::empty(),
{
    let p = |x: PathOramBlock<V>| !is_dummy_block(x);
    assert forall|k: int| 0 <= k < a.len() implies !p(#[trigger] a[k]) by {}
    a.lemma_all_neg_filter_empty(p);
    assert(real_blocks(a) =~= Seq::<PathOramBlock<V>>::empty());
    real_blocks(a).to_multiset_ensures();
    assert(real_blocks(a).to_multiset() =~= vstd::multiset::Multiset::<PathOramBlock<V>>::empty());
}

proof fn lemma_real_blocks_idempotent<V>(a: Seq<PathOramBlock<V>>)
    ensures
        real_blocks(real_blocks(a)) == real_blocks(a),
{
    let r = real_blocks(a);
    let p = |x: PathOramBlock<V>| !is_dummy_block(x);
    assert forall|k: int| 0 <= k < r.len() implies #[trigger] p(r[k]) by {
        a.lemma_filter_pred(p, k);
    }
    lemma_filter_identity(r, p);
}

proof fn lemma_filter_identity<A>(s: Seq<A>, p: spec_fn(A) -> bool)
    requires
        forall|k: int| 0 <= k < s.len() ==> #[trigger] p(s[k]),
    ensures
        s.filter(p) == s,
    decreases s.len(),
{
    reveal(Seq::filter);
    if s.len() > 0 {
        let t = s.drop_last();
        assert forall|k: int| 0 <= k < t.len() implies #[trigger] p(t[k]) by {
            assert(t[k] == s[k]);
        }
        lemma_filter_identity(t, p);
        assert(p(s[s.len() - 1]));
        assert(t.push(s.last()) =~= s);
    }
}

/// A batched round neither loses nor duplicates a block. Reading the union of paths `u`
/// from `mem0` into stash `s0`, whose scratch prefix of `fixed` slots holds only dummies,
/// gives stash `s1` (as `read_from_path_union` ensures); writing back the buckets `o` then
/// gives memory `mem2` and stash `s2` (as `write_to_path_union` ensures). The real blocks of
/// the buckets written and of `s2` are then those of the buckets read and of `s0`.
pub proof fn law_union_round_trip_keeps_blocks<V: OramBlock, const Z: usize>(
    mem0: Seq<Bucket<V, Z>>,
    u: Seq<u64>,
    s0: Seq<PathOramBlock<V>>,
    fixed: int,
    s1: Seq<PathOramBlock<V>>,
    mem2: Seq<Bucket<V, Z>>,
    o: Seq<u64>,
    s2: Seq<PathOramBlock<V>>,
)
    requires
        0 <= fixed,
        forall|k: int| 0 <= k < fixed && k < s0.len() ==> is_dummy_block(#[trigger] s0[k]),
        s1 == Seq::new(
            (if fixed >= u.len() * Z {
                fixed
            } else {
                u.len() * Z
            }) as nat,
            |k: int|
                if k < u.len() * Z {
                    union_block(mem0, u, k)
                } else {
                    dummy_block::<V>()
                },
        ) + real_blocks(tail_from(s0, fixed)) + seq![dummy_block::<V>()],
        fixed + 1 <= s2.len(),
        s2.take(fixed) == dummies::<V>(fixed as nat),
        s2[s2.len() - 1] == dummy_block::<V>(),
        real_blocks(
            Seq::new((o.len() * Z) as nat, |k: int| union_block(mem2, o, k)) + s2.subrange(
                fixed,
                s2.len() - 1,
            ),
        ).to_multiset() == real_blocks(s1).to_multiset(),
    ensures
        real_blocks(Seq::new((o.len() * Z) as nat, |k: int| union_block(mem2, o, k)) + s2).to_multiset()
            == real_blocks(Seq::new((u.len() * Z) as nat, |k: int| union_block(mem0, u, k)) + s0).to_multiset(),
{
    let count = u.len() * Z;
    let scratch = if fixed >= count {
        fixed
    } else {
        count
    };
    let read = Seq::new(count as nat, |k: int| union_block(mem0, u, k));
    let pad = Seq::new(
        scratch as nat,
        |k: int|
            if k < count {
                union_block(mem0, u, k)
            } else {
                dummy_block::<V>()
            },
    );
    let written = Seq::new((o.len() * Z) as nat, |k: int| union_block(mem2, o, k));
    let tail = tail_from(s0, fixed);
    let left = s2.subrange(fixed, s2.len() - 1);
    // The old stash's real blocks are those of its tail.
    if fixed <= s0.len() {
        assert(s0 =~= s0.take(fixed) + tail);
        assert forall|k: int| 0 <= k < s0.take(fixed).len() implies is_dummy_block(
            #[trigger] s0.take(fixed)[k],
        ) by {}
        lemma_real_blocks_add(s0.take(fixed), tail);
        lemma_real_blocks_of_dummies(s0.take(fixed));
    } else {
        assert forall|k: int| 0 <= k < s0.len() implies is_dummy_block(#[trigger] s0[k]) by {}
        lemma_real_blocks_of_dummies(s0);
        lemma_real_blocks_of_dummies(tail);
    }
    assert(real_blocks(tail).to_multiset() =~= real_blocks(s0).to_multiset());
    // The read stash's real blocks are those of the buckets read and of the old stash.
    let padding = pad.subrange(count, scratch);
    assert(pad =~= read + padding);
    assert forall|k: int| 0 <= k < padding.len() implies is_dummy_block(#[trigger] padding[k]) by {
        assert(padding[k] == dummy_block::<V>());
    }
    lemma_real_blocks_add(read, padding);
    lemma_real_blocks_of_dummies(padding);
    lemma_real_blocks_idempotent(tail);
    let one = seq![dummy_block::<V>()];
    assert forall|k: int| 0 <= k < one.len() implies is_dummy_block(#[trigger] one[k]) by {}
    lemma_real_blocks_of_dummies(one);
    lemma_real_blocks_add(pad, real_blocks(tail));
    lemma_real_blocks_add(pad + real_blocks(tail), one);
    lemma_real_blocks_add(read, s0);
    assert(real_blocks(pad).to_multiset() =~= real_blocks(read).to_multiset());
    assert(real_blocks(s1).to_multiset() =~= real_blocks(read + s0).to_multiset());
    // The new stash's real blocks are those after its scratch prefix.
    let first = s2.take(fixed);
    assert(s2 =~= first + left + seq![s2[s2.len() - 1]]);
    assert forall|k: int| 0 <= k < first.len() implies is_dummy_block(#[trigger] first[k]) by {
        assert(first[k] == dummies::<V>(fixed as nat)[k]);
    }
    lemma_real_blocks_of_dummies(first);
    let last = seq![s2[s2.len() - 1]];
    assert forall|k: int| 0 <= k < last.len() implies is_dummy_block(#[trigger] last[k]) by {}
    lemma_real_blocks_of_dummies(last);
    lemma_real_blocks_add(first, left);
    lemma_real_blocks_add(first + left, last);
    lemma_real_blocks_add(written, s2);
    lemma_real_blocks_add(written, left);
    assert(real_blocks(s2).to_multiset() =~= real_blocks(left).to_multiset());
}

/// Reading back the path that `write_to_path` wrote gives the blocks that were written:
/// when `memory` holds `written` along the path to `position` (as `write_to_path` ensures)
/// and `read` was read from that path for `levels` levels (as `read_from_path` ensures),
/// each slot read holds the block written there.
pub proof fn law_read_path_after_write_path<V, const Z: usize>(
    written: Seq<PathOramBlock<V>>,
    memory: Seq<Bucket<V, Z>>,
    position: TreeIndex,
    read: Seq<PathOramBlock<V>>,
    levels: int,
)
    requires
        0 <= levels <= depth(position as nat) + 1,
        forall|k: int|
            0 <= k < Z * (depth(position as nat) + 1) ==> #[trigger] path_block(memory, position, k)
                == written[k],
        forall|k: int| 0 <= k < levels * Z ==> #[trigger] read[k] == path_block(memory, position, k),
    ensures
        forall|k: int| 0 <= k < levels * Z ==> #[trigger] read[k] == written[k],
{
    assert forall|k: int| 0 <= k < levels * Z implies #[trigger] read[k] == written[k] by {
        assert(levels * Z <= Z * (depth(position as nat) + 1)) by (nonlinear_arith)
            requires
                0 <= levels <= depth(position as nat) + 1,
        ;
        assert(read[k] == path_block(memory, position, k));
    }
}

/// The position of the last block of `s` with address `a`, if any.
pub open spec fn last_match<V>(s: Seq<PathOramBlock<V>>, a: Address) -> Option<int>
    decreases s.len(),
{
    if s.len() == 0 {
        None
    } else if s.last().address == a {
        Some(s.len() - 1)
    } else {
        last_match(s.drop_last(), a)
    }
}

/// The value that the stash `s` holds for address `a`: that of the last block with that
/// address, or the default value when there is none.
pub open spec fn lookup<V: OramBlock>(s: Seq<PathOramBlock<V>>, a: Address) -> V {
    match last_match(s, a) {
        Some(k) => s[k].value,
        None => V::default_value(),
    }
}

pub proof fn lemma_last_match_bounds<V>(s: Seq<PathOramBlock<V>>, a: Address)
    ensures
        last_match(s, a) matches Some(k) ==> 0 <= k < s.len() && s[k].address == a && forall|j: int|
            k < j < s.len() ==> s[j].address != a,
        last_match(s, a) is None ==> forall|j: int| 0 <= j < s.len() ==> s[j].address != a,
    decreases s.len(),
{
    if s.len() > 0 {
        let p = s.drop_last();
        lemma_last_match_bounds(p, a);
        assert forall|j: int| 0 <= j < p.len() implies s[j] == p[j] by {}
    }
}

pub proof fn lemma_last_match_at<V>(s: Seq<PathOramBlock<V>>, a: Address, k: int)
    requires
        0 <= k < s.len(),
        s[k].address == a,
        forall|j: int| k < j < s.len() ==> s[j].address != a,
    ensures
        last_match(s, a) == Some(k),
    decreases s.len(),
{
    if k < s.len() - 1 {
        let p = s.drop_last();
        assert forall|j: int| k < j < p.len() implies p[j].address != a by {
            assert(s[j].address != a);
        }
        lemma_last_match_at(p, a, k);
    }
}

proof fn lemma_last_match_push<V>(s: Seq<PathOramBlock<V>>, b: PathOramBlock<V>, a: Address)
    ensures
        last_match(s.push(b), a) == (if b.address == a {
            Some(s.len() as int)
        } else {
            last_match(s, a)
        }),
{
    assert(s.push(b).drop_last() =~= s);
}

impl<V: OramBlock> View for ObliviousStash<V> {
    type V = Seq<PathOramBlock<V>>;

    /// The blocks of the stash.
    closed spec fn view(&self) -> Seq<PathOramBlock<V>> {
        self.blocks@
    }
}

impl<V: OramBlock> ObliviousStash<V> {
    /// The number of slots of the scratch prefix that holds a path.
    pub closed spec fn path_size_of(&self) -> StashSize {
        self.path_size
    }

    /// The number of accesses in a batch.
    pub closed spec fn batch_size_of(&self) -> usize {
        self.m_batch
    }

    /// The blocks of the stash, for verified callers that cannot read the field `blocks`
    /// directly: its view is the stash's view.
    pub fn blocks(&self) -> (r: &Vec<PathOramBlock<V>>)
        ensures
            r@ == self@,
    {
        &self.blocks
    }

    /// Replaces the block in slot `i` by `block`, for verified callers that cannot write the
    /// field `blocks` directly.
    pub fn set_block(&mut self, i: usize, block: PathOramBlock<V>)
        requires
            i < old(self)@.len(),
        ensures
            final(self)@ == old(self)@.update(i as int, block),
            final(self).path_size_of() == old(self).path_size_of(),
            final(self).batch_size_of() == old(self).batch_size_of(),
    {
        self.blocks.set(i, block);
    }

    fn len(&self) -> (r: usize)
        ensures
            r == self@.len(),
    {
        self.blocks.len()
    }

    /// Returns a stash of `path_size + overflow_size` dummy blocks.
    ///
    /// Errors when that number does not fit in a `usize`.
    pub fn new(path_size: StashSize, overflow_size: StashSize, m_batch: usize) -> (r: Result<
        Self,
        OramError,
    >)
        requires
            path_size + overflow_size <= u64::MAX,
        ensures
            path_size + overflow_size <= usize::MAX ==> (r matches Ok(s) && s@ == dummies::<
                V,
            >((path_size + overflow_size) as nat) && s.path_size_of() == path_size
                && s.batch_size_of() == m_batch),
            path_size + overflow_size > usize::MAX ==> (r matches Err(
                OramError::IntegerConversionError,
            )),
    {
        let total: u64 = path_size + overflow_size;
        if total > usize::MAX as u64 {
            return Err(OramError::IntegerConversionError);
        }
        let num_stash_blocks: usize = total as usize;
        let mut blocks: Vec<PathOramBlock<V>> = Vec::new();
        push_dummies(&mut blocks, num_stash_blocks);
        assert(blocks@ =~= dummies::<V>(num_stash_blocks as nat));
        Ok(ObliviousStash { blocks, path_size, m_batch })
    }

    /// The number of real (non-dummy) blocks outside the scratch prefix.
    pub fn occupancy(&self) -> (r: StashSize)
        requires
            self.path_size_of() <= usize::MAX,
        ensures
            self.path_size_of() <= self@.len() ==> r == real_count(
                self@.subrange(self.path_size_of() as int, self@.len() as int),
            ),
            self.path_size_of() > self@.len() ==> r == 0,
    {
        let start: usize = self.path_size as usize;
        let mut result: u64 = 0;
        let mut i: usize = start;
        if start > self.blocks.len() {
            return 0;
        }
        while i < self.blocks.len()
            invariant
                start <= i <= self@.len(),
                start == self.path_size_of(),
                result == real_count(self@.subrange(start as int, i as int)),
                result <= i - start,
            decreases self@.len() - i,
        {
            proof {
                let s = self@.subrange(start as int, i as int);
                assert(self@.subrange(start as int, i + 1) =~= s.push(self@[i as int]));
                lemma_real_count_push(s, self@[i as int]);
            }
            if !self.blocks[i].is_dummy() {
                result = result + 1;
            }
            i = i + 1;
        }
        result
    }

    /// Reads the path from the root to leaf `position` into the scratch prefix: slot `s` of
    /// the bucket at depth `i` goes to `blocks[Z * i + s]`, for the `path_size / Z` levels of
    /// the path.
    pub fn read_from_path<const Z: usize>(
        &mut self,
        physical_memory: &mut [Bucket<V, Z>],
        position: TreeIndex,
    ) -> (r: Result<(), OramError>)
        requires
            Z > 0,
            position != 0,
            old(self).path_size_of() / (Z as u64) <= depth(position as nat) + 1,
            (old(self).path_size_of() / (Z as u64)) * Z <= old(self)@.len(),
            forall|d: int|
                0 <= d < old(self).path_size_of() / (Z as u64) ==> path_node(position, d)
                    < old(physical_memory)@.len(),
        ensures
            r is Ok,
            final(physical_memory)@ == old(physical_memory)@,
            final(self).path_size_of() == old(self).path_size_of(),
            final(self).batch_size_of() == old(self).batch_size_of(),
            final(self)@.len() == old(self)@.len(),
            forall|k: int|
                0 <= k < (old(self).path_size_of() / (Z as u64)) * Z ==> #[trigger] final(self)@[k] == path_block(
                    old(physical_memory)@,
                    position,
                    k,
                ),
            forall|k: int|
                (old(self).path_size_of() / (Z as u64)) * Z <= k < old(self)@.len()
                    ==> #[trigger] final(self)@[k] == old(self)@[k],
    {
        let height = ct_depth(position);
        let z_u64: u64 = Z as u64;
        let levels: u64 = self.path_size / z_u64;
        let ghost old_blocks = self@;
        let ghost memory = physical_memory@;
        let blen: usize = self.blocks.len();
        let mut i: u64 = levels;
        while i > 0
            invariant
                self@.len() == blen,
                Z > 0,
                z_u64 == Z,
                height == depth(position as nat),
                i <= levels,
                levels <= height + 1,
                levels * Z <= self@.len(),
                levels == self.path_size_of() / (Z as u64),
                position != 0,
                memory == physical_memory@,
                self@.len() == old_blocks.len(),
                self.path_size_of() == old(self).path_size_of(),
                self.batch_size_of() == old(self).batch_size_of(),
                old_blocks == old(self)@,
                forall|d: int| 0 <= d < levels ==> path_node(position, d) < memory.len(),
                forall|k: int|
                    i * Z <= k < levels * Z ==> #[trigger] self@[k] == path_block(
                        memory,
                        position,
                        k,
                    ),
                forall|k: int|
                    (0 <= k < i * Z || levels * Z <= k < old_blocks.len()) ==> #[trigger] self@[k]
                        == old_blocks[k],
            decreases i,
        {
            i = i - 1;
            proof {
                vstd::arithmetic::mul::lemma_mul_is_commutative(Z as int, i as int);
                vstd::arithmetic::mul::lemma_mul_inequality(i + 1, levels as int, Z as int);
                vstd::arithmetic::mul::lemma_mul_is_distributive_add(Z as int, i as int, 1);
                vstd::arithmetic::mul::lemma_mul_increases(Z as int, levels as int);
                vstd::arithmetic::mul::lemma_mul_is_commutative(Z as int, levels as int);
                assert(path_node(position, i as int) < memory.len());
            }
            let bucket_index = ct_node_on_path(position, i, height);
            assert(bucket_index == path_node(position, i as int));
            let bucket = physical_memory[bucket_index as usize];
            let base: usize = Z * (i as usize);
            for slot_index in 0..Z
                invariant
                    Z > 0,
                    base == Z * i,
                    self@.len() == blen,
                    self.path_size_of() == old(self).path_size_of(),
                    self.batch_size_of() == old(self).batch_size_of(),
                    base + Z <= levels * Z,
                    levels * Z <= self@.len(),
                    self@.len() == old_blocks.len(),
                    bucket == memory[path_node(position, i as int) as int],
                    forall|k: int|
                        (i + 1) * Z <= k < levels * Z ==> #[trigger] self@[k] == path_block(
                            memory,
                            position,
                            k,
                        ),
                    forall|k: int|
                        base <= k < base + slot_index ==> #[trigger] self@[k] == path_block(
                            memory,
                            position,
                            k,
                        ),
                    forall|k: int|
                        (0 <= k < base || base + slot_index <= k < base + Z || levels * Z <= k
                            < old_blocks.len()) ==> #[trigger] self@[k] == old_blocks[k],
            {
                proof {
                    lemma_slot_div_mod(i as int, slot_index as int, Z as int);
                }
                self.blocks.set(base + slot_index, bucket.blocks[slot_index]);
            }
        }
        Ok(())
    }

    /// Reads the value stored for `address` and replaces it by `value_callback` applied to it,
    /// moving the block to leaf `new_position`; every block of the stash is touched in the
    /// same way.
    ///
    /// If no block has `address`, a block for it is written into the last slot, which is
    /// reserved for this and is a dummy. Returns the value that was stored, or the default
    /// value when there was none.
    pub fn access<F: Fn(&V) -> V>(
        &mut self,
        address: Address,
        new_position: TreeIndex,
        value_callback: F,
    ) -> (r: Result<V, OramError>)
        requires
            old(self)@.len() >= 1,
            forall|v: V| value_callback.requires((&v,)),
            (if old(self)@.last().address == address {
                new_position == 0
            } else {
                is_dummy_block(old(self)@.last())
            }),
        ensures
            r == Ok::<V, OramError>(lookup(old(self)@, address)),
            value_callback.ensures((&lookup(old(self)@, address),), lookup(final(self)@, address)),
            last_match(final(self)@, address) matches Some(k) && final(self)@[k].position
                == new_position,
            final(self).path_size_of() == old(self).path_size_of(),
            final(self).batch_size_of() == old(self).batch_size_of(),
            final(self)@.len() == old(self)@.len(),
            forall|k: int|
                0 <= k < old(self)@.len() && old(self)@[k].address == address ==> {
                    &&& #[trigger] final(self)@[k].address == address
                    &&& final(self)@[k].position == new_position
                    &&& value_callback.ensures((&old(self)@[k].value,), final(self)@[k].value)
                },
            forall|k: int|
                0 <= k < old(self)@.len() - 1 && old(self)@[k].address != address
                    ==> #[trigger] final(self)@[k] == old(self)@[k],
            old(self)@.last().address != address && last_match(old(self)@, address) is Some
                ==> final(self)@.last() == old(self)@.last(),
            last_match(old(self)@, address) is None ==> {
                &&& final(self)@.last().address == address
                &&& final(self)@.last().position == new_position
                &&& value_callback.ensures((&V::default_value(),), final(self)@.last().value)
            },
    {
        let mut result: V = V::default_block();
        let mut found: bool = false;
        let ghost old_blocks = self@;
        let n = self.blocks.len();
        // Iterate over the stash, updating the block with address `address` if one exists.
        for i in 0..n
            invariant
                n == old_blocks.len(),
                self@.len() == n,
                self.path_size_of() == old(self).path_size_of(),
                self.batch_size_of() == old(self).batch_size_of(),
                forall|v: V| value_callback.requires((&v,)),
                found == (last_match(old_blocks.take(i as int), address) is Some),
                result == lookup(old_blocks.take(i as int), address),
                forall|k: int| i <= k < n ==> #[trigger] self@[k] == old_blocks[k],
                forall|k: int|
                    #![trigger self@[k]]
                    0 <= k < i && old_blocks[k].address == address ==> {
                        &&& self@[k].address == address
                        &&& self@[k].position == new_position
                        &&& value_callback.ensures((&old_blocks[k].value,), self@[k].value)
                    },
                forall|k: int|
                    0 <= k < i && old_blocks[k].address != address ==> #[trigger] self@[k]
                        == old_blocks[k],
        {
            let block = self.blocks[i];
            proof {
                assert(old_blocks.take(i + 1) =~= old_blocks.take(i as int).push(block));
                lemma_last_match_push(old_blocks.take(i as int), block, address);
                lemma_last_match_bounds(old_blocks.take(i as int), address);
            }
            let is_requested_index = ct_eq_u64(block.address, address);
            found = found || is_requested_index;
            // Read the current value of the target block into `result`.
            result = V::conditional_select(&result, &block.value, is_requested_index);
            // If a write, write the new value into the target block.
            let value_to_write = value_callback(&result);
            let updated = PathOramBlock {
                value: V::conditional_select(&block.value, &value_to_write, is_requested_index),
                address: block.address,
                // Write the new position into the target block.
                position: crate::ct::ct_select_u64(block.position, new_position, is_requested_index),
            };
            self.blocks.set(i, updated);
        }
        proof {
            assert(old_blocks.take(n as int) =~= old_blocks);
        }
        // If no block has `address`, initialize one in the last block of the stash, which is
        // always a dummy block.
        let last_block_index = n - 1;
        let last_block = self.blocks[last_block_index];
        let inserted = PathOramBlock {
            value: value_callback(&result),
            address,
            position: new_position,
        };
        let chosen = PathOramBlock::conditional_select(&last_block, &inserted, !found);
        self.blocks.set(last_block_index, chosen);
        proof {
            lemma_last_match_bounds(old_blocks, address);
            match last_match(old_blocks, address) {
                Some(k0) => {
                    assert forall|j: int| k0 < j < n implies self@[j].address != address by {
                        assert(old_blocks[j].address != address);
                    }
                    lemma_last_match_at(self@, address, k0);
                },
                None => {
                    lemma_last_match_at(self@, address, n - 1);
                },
            }
        }
        // The value of the found block, or the default value if no block was found.
        Ok(result)
    }

    /// Evicts the stash into the path from the root to leaf `position`: every bucket of the
    /// path is filled with exactly `Z` blocks, real blocks going as deep as the path and the
    /// buckets' capacity allow, padded with dummy blocks. The real blocks are placed in stash
    /// order, each into the deepest bucket on its own path that is not full yet
    /// (`greedy_keys`); each bucket then holds exactly the real blocks placed into it.
    ///
    /// The blocks are sorted so that `blocks[Z * d + s]` is written to slot `s` of the bucket
    /// at depth `d`; the stash keeps all its blocks, and the real blocks that did not fit stay
    /// after the written prefix. The padding comes first from the dummy blocks before the
    /// last one, which stays reserved; when there are not enough of them, the stash grows by
    /// ten dummy blocks at a time, as few times as needed, each time offering the previous
    /// last block and the new ones but the new last.
    pub fn write_to_path<const Z: usize>(
        &mut self,
        physical_memory: &mut [Bucket<V, Z>],
        position: TreeIndex,
    ) -> (r: Result<(), OramError>)
        requires
            position != 0,
            old(self)@.len() >= 1,
            real_blocks_are_leaves(old(self)@, depth(position as nat)),
            position < old(physical_memory)@.len(),
            old(self)@.len() + 10 * (Z * (depth(position as nat) + 1)) + 10 <= usize::MAX,
        ensures
            r is Ok,
            final(self).path_size_of() == old(self).path_size_of(),
            final(self).batch_size_of() == old(self).batch_size_of(),
            old(self)@.len() <= final(self)@.len(),
            (final(self)@.len() - old(self)@.len()) % 10 == 0,
            final(self)@.to_multiset() == (old(self)@ + dummies::<V>(
                (final(self)@.len() - old(self)@.len()) as nat,
            )).to_multiset(),
            Z * (depth(position as nat) + 1) <= final(self)@.len(),
            final(physical_memory)@.len() == old(physical_memory)@.len(),
            forall|k: int|
                0 <= k < Z * (depth(position as nat) + 1) ==> #[trigger] path_block(
                    final(physical_memory)@,
                    position,
                    k,
                ) == final(self)@[k],
            forall|i: int|
                0 <= i < old(physical_memory)@.len() && (forall|d: int|
                    0 <= d <= depth(position as nat) ==> i != #[trigger] path_node(position, d))
                    ==> #[trigger] final(physical_memory)@[i] == old(physical_memory)@[i],
            forall|k: int|
                0 <= k < Z * (depth(position as nat) + 1) && !is_dummy_block(
                    #[trigger] final(self)@[k],
                ) ==> fits_at(final(self)@[k], position, k / Z as int),
            forall|k: int, d: int, s: int|
                Z * (depth(position as nat) + 1) <= k < final(self)@.len() && !is_dummy_block(
                    #[trigger] final(self)@[k],
                ) && 0 <= d <= depth(position as nat) && fits_at(final(self)@[k], position, d) && 0
                    <= s < Z ==> !is_dummy_block(#[trigger] final(self)@[Z * d + s]),
            forall|k: int, d: int, s: int|
                0 <= k < Z * (depth(position as nat) + 1) && !is_dummy_block(
                    #[trigger] final(self)@[k],
                ) && (k / Z as int) < d <= depth(position as nat) && fits_at(final(self)@[k], position, d)
                    && 0 <= s < Z ==> !is_dummy_block(#[trigger] final(self)@[Z * d + s]),
            is_dummy_block(old(self)@.last()) ==> is_dummy_block(final(self)@.last()),
            real_keyed(
                slot_keys(final(self)@.len(), Z as nat, depth(position as nat)),
                final(self)@,
            ).to_multiset() == real_keyed(greedy_keys(old(self)@, position, Z as u64), old(self)@).to_multiset(),
            final(self)@.len() == old(self)@.len() <==> dummy_count(
                final(self)@.take(Z * (depth(position as nat) + 1)),
            ) <= dummy_count(old(self)@.drop_last()),
            final(self)@.len() > old(self)@.len() ==> dummy_count(
                final(self)@.take(Z * (depth(position as nat) + 1)),
            ) <= dummy_count(old(self)@) + (final(self)@.len() - old(self)@.len()) - 1
                && dummy_count(old(self)@) + (final(self)@.len() - old(self)@.len()) - 11
                < dummy_count(final(self)@.take(Z * (depth(position as nat) + 1))),
    {
        let height = ct_depth(position);
        proof {
            lemma_depth_bounds(position);
        }
        let z_u64: u64 = Z as u64;
        let ghost h = height as nat;
        let ghost old_blocks = self@;
        let ghost old_memory = physical_memory@;
        let (mut level_assignments, mut level_counts) = assign_real_blocks(
            &self.blocks,
            position,
            height,
            z_u64,
        );
        let ghost d0 = deficit(level_counts@, z_u64);
        let ghost keys0 = level_assignments@;
        let ghost n0 = old_blocks.len();
        let ghost a0 = dummy_count(old_blocks.drop_last());
        let ghost d_all = dummy_count(old_blocks);
        proof {
            lemma_deficit_bounds(level_counts@, z_u64);
            lemma_placed_none(self@, level_assignments@, h);
            assert(old_blocks =~= old_blocks.drop_last().push(old_blocks.last()));
            crate::evict::lemma_dummy_count_push(old_blocks.drop_last(), old_blocks.last());
        }
        // Assign dummy blocks to the remaining non-full buckets until all buckets are full.
        // Unless the stash overflows, this loop runs once; otherwise it grows the stash, which
        // leaks that the stash overflowed (the alternative would be to fail).
        let mut exists_unfilled_levels: bool = true;
        let mut first_unassigned_block_index: usize = 0;
        let ghost mut grown: bool = false;
        let ghost mut g: nat = 0;
        while exists_unfilled_levels
            invariant
                height == h,
                h == depth(position as nat),
                h < 64,
                position != 0,
                z_u64 == Z,
                Z < u64::MAX,
                old_blocks == old(self)@,
                old_blocks.len() >= 1,
                old_blocks.len() + 10 * (Z * (h + 1)) + 10 <= usize::MAX,
                self.path_size_of() == old(self).path_size_of(),
                self.batch_size_of() == old(self).batch_size_of(),
                self@ == old_blocks + dummies::<V>(10 * g),
                assignment_ok(self@, level_assignments@, level_counts@, position, z_u64),
                forall|k: int|
                    0 <= k < self@.len() && !is_dummy_block(#[trigger] self@[k])
                        ==> level_assignments@[k] != UNASSIGNED_KEY,
                is_dummy_block(old_blocks.last()) || grown ==> level_assignments@[self@.len() - 1]
                    == UNASSIGNED_KEY,
                keys0 == greedy_keys(old_blocks, position, z_u64),
                keys0.len() == old_blocks.len(),
                forall|k: int|
                    0 <= k < old_blocks.len() && !is_dummy_block(#[trigger] old_blocks[k])
                        ==> level_assignments@[k] == keys0[k],
                first_unassigned_block_index < self@.len(),
                exists_unfilled_levels ==> forall|k: int|
                    first_unassigned_block_index <= k < self@.len() && is_dummy_block(
                        #[trigger] self@[k],
                    ) ==> level_assignments@[k] == UNASSIGNED_KEY,
                exists_unfilled_levels && grown ==> {
                    &&& first_unassigned_block_index + 1 < self@.len() - 1
                    &&& is_dummy_block(self@[first_unassigned_block_index + 1])
                    &&& deficit(level_counts@, z_u64) > 0
                },
                !exists_unfilled_levels ==> deficit(level_counts@, z_u64) == 0,
                0 <= deficit(level_counts@, z_u64) <= d0,
                d0 <= Z * (h + 1),
                g <= d0 - deficit(level_counts@, z_u64) + (if grown {
                    1int
                } else {
                    0int
                }),
                !grown ==> g == 0,
                n0 == old_blocks.len(),
                a0 == dummy_count(old_blocks.drop_last()),
                d_all == dummy_count(old_blocks),
                d_all == a0 || d_all == a0 + 1,
                placed_dummies(self@, level_assignments@, h) + deficit(level_counts@, z_u64) == d0,
                !grown && exists_unfilled_levels ==> deficit(level_counts@, z_u64) == d0
                    && first_unassigned_block_index == 0,
                !grown && !exists_unfilled_levels ==> d0 <= a0,
                grown ==> g >= 1 && first_unassigned_block_index == n0 + 10 * (g - 1) - 1,
                grown && exists_unfilled_levels ==> d0 > (if g == 1 {
                    a0 as int
                } else {
                    d_all + 10 * (g - 1) - 1
                }) && deficit(level_counts@, z_u64) == d0 - (if g == 1 {
                    a0 as int
                } else {
                    d_all + 10 * (g - 1) - 1
                }),
                grown && !exists_unfilled_levels ==> d0 > (if g == 1 {
                    a0 as int
                } else {
                    d_all + 10 * (g - 1) - 1
                }) && d0 <= d_all + 10 * g - 1,
            decreases 2 * deficit(level_counts@, z_u64) + (if grown {
                0int
            } else {
                1int
            }) + (if exists_unfilled_levels {
                1int
            } else {
                0int
            }),
        {
            let ghost deficit_before = deficit(level_counts@, z_u64);
            assign_dummies_pass(
                &self.blocks,
                &mut level_assignments,
                &mut level_counts,
                first_unassigned_block_index,
                position,
                height,
                z_u64,
            );
            proof {
                lemma_deficit_bounds(level_counts@, z_u64);
                let window = self@.subrange(
                    first_unassigned_block_index as int,
                    self@.len() - 1,
                );
                if grown {
                    lemma_grown_window(old_blocks, g);
                    assert(deficit(level_counts@, z_u64) == (if d0 > d_all + 10 * g - 1 {
                        d0 - (d_all + 10 * g - 1)
                    } else {
                        0
                    }));
                } else {
                    assert(window =~= old_blocks.drop_last());
                }
            }
            // Check whether all levels have been filled.
            exists_unfilled_levels = false;
            let mut l: u64 = 0;
            while l <= height
                invariant
                    l <= height + 1,
                    height < 64,
                    level_counts@.len() == height + 1,
                    exists_unfilled_levels <==> exists|m: int|
                        0 <= m < l && #[trigger] level_counts@[m] != z_u64,
                decreases height + 1 - l,
            {
                let full = ct_eq_u64(level_counts[l as usize], z_u64);
                exists_unfilled_levels = exists_unfilled_levels || !full;
                l = l + 1;
            }
            // If not, there were not enough dummy blocks left in the stash: it has overflowed.
            // Extend it with more dummy blocks and fill the remaining levels with them.
            if exists_unfilled_levels {
                proof {
                    assert(deficit(level_counts@, z_u64) > 0);
                    vstd::arithmetic::mul::lemma_mul_inequality(
                        d0 - deficit(level_counts@, z_u64) + 1,
                        d0,
                        10,
                    );
                }
                first_unassigned_block_index = self.blocks.len() - 1;
                let ghost blocks_before = self@;
                let ghost keys_before = level_assignments@;
                grow_with_dummies(
                    &mut self.blocks,
                    &mut level_assignments,
                    &level_counts,
                    position,
                    z_u64,
                );
                proof {
                    grown = true;
                    g = g + 1;
                    assert(self@ =~= old_blocks + dummies::<V>(10 * g));
                    crate::evict::lemma_placed_append(
                        blocks_before,
                        keys_before,
                        dummies::<V>(10),
                        Seq::new(10, |i: int| UNASSIGNED_KEY),
                        h,
                    );
                }
            }
        }
        proof {
            lemma_deficit_bounds(level_counts@, z_u64);
        }
        let ghost unsorted_blocks = self@;
        let ghost unsorted_keys = level_assignments@;
        oblivious_sort_by_keys(&mut self.blocks, &mut level_assignments);
        proof {
            lemma_assignment_ok_permuted(
                unsorted_blocks,
                unsorted_keys,
                self@,
                level_assignments@,
                level_counts@,
                position,
                z_u64,
            );
            assert forall|l: int| 0 <= l <= h implies #[trigger] level_assignments@.to_multiset().count(
                l as u64,
            ) == z_u64 by {
                assert(level_counts@[l] == z_u64);
            }
            lemma_sorted_layout(level_assignments@, z_u64, h);
            // The dummies written to the path are those that the passes placed.
            lemma_placed_permuted(unsorted_blocks, unsorted_keys, self@, level_assignments@, h);
            let keys = level_assignments@;
            assert forall|k: int| 0 <= k < Z * (h + 1) implies #[trigger] keys[k] <= h by {
                assert(keys[k] == k / (Z as int));
                assert(k / (Z as int) <= h) by (nonlinear_arith)
                    requires
                        0 <= k < Z * (h + 1),
                ;
            }
            lemma_placed_layout(self@, keys, h, Z * (h + 1));
            assert(dummy_count(self@.take(Z * (h + 1))) == d0);
            assert(self@.len() == old_blocks.len() + 10 * g);
            // The real blocks keep the keys of the greedy assignment, and the sorted keys of
            // the real blocks are the slots they end in.
            assert forall|k: int| 0 <= k < dummies::<V>(10 * g).len() implies is_dummy_block(
                #[trigger] dummies::<V>(10 * g)[k],
            ) by {}
            lemma_real_keyed_extend(unsorted_keys, old_blocks, dummies::<V>(10 * g), keys0);
            crate::union::lemma_filter_multiset(
                keyed(keys, self@),
                keyed(unsorted_keys, unsorted_blocks),
                real_pair_pred::<V>(),
            );
            let sk = slot_keys(self@.len(), Z as nat, h);
            let a = keyed(keys, self@);
            let b = keyed(sk, self@);
            let p = real_pair_pred::<V>();
            assert forall|i: int| 0 <= i < a.len() implies #[trigger] p(a[i]) == p(b[i]) by {}
            assert forall|i: int| 0 <= i < a.len() && #[trigger] p(a[i]) implies a[i] == b[i] by {
                if i < Z * (h + 1) {
                    assert(keys[i] == i / (Z as int));
                } else {
                    assert(key_ok(self@[i], keys[i], position, h));
                    assert(keys[i] > h);
                    assert(keys[i] != UNASSIGNED_KEY);
                    assert(keys[i] == OVERFLOW_KEY);
                }
            }
            lemma_filter_agree(a, b, p);
            // The reserved last block keeps the largest key, so it stays last and a dummy.
            if is_dummy_block(old_blocks.last()) || grown {
                let last = unsorted_keys.len() - 1;
                assert(unsorted_keys[last] == UNASSIGNED_KEY);
                assert(unsorted_keys.contains(unsorted_keys[last]));
                unsorted_keys.to_multiset_ensures();
                keys.to_multiset_ensures();
                assert(unsorted_keys.to_multiset().count(UNASSIGNED_KEY) > 0);
                assert(keys.to_multiset().count(UNASSIGNED_KEY) > 0);
                assert(keys.contains(UNASSIGNED_KEY));
                let j = choose|j: int| 0 <= j < keys.len() && keys[j] == UNASSIGNED_KEY;
                assert(keys[j] <= keys[keys.len() - 1]);
                assert(keys[keys.len() - 1] == UNASSIGNED_KEY);
                assert(is_dummy_block(self@[self@.len() - 1]));
            }
        }
        // Write the first Z * (height + 1) blocks into the buckets of the path.
        let ghost sorted_blocks = self@;
        let blen: usize = self.blocks.len();
        let mut d: u64 = 0;
        while d <= height
            invariant
                blen == sorted_blocks.len(),
                height == h,
                h == depth(position as nat),
                h < 64,
                position != 0,
                position < old_memory.len(),
                d <= height + 1,
                self@ == sorted_blocks,
                Z * (h + 1) <= sorted_blocks.len(),
                physical_memory@.len() == old_memory.len(),
                forall|k: int| 0 <= k < Z * d ==> #[trigger] path_block(physical_memory@, position, k)
                    == sorted_blocks[k],
                forall|i: int|
                    0 <= i < old_memory.len() && (forall|e: int|
                        0 <= e < d ==> i != #[trigger] path_node(position, e))
                        ==> #[trigger] physical_memory@[i] == old_memory[i],
            decreases height + 1 - d,
        {
            let node = ct_node_on_path(position, d, height);
            proof {
                crate::tree::lemma_ancestor_le(position as nat, (height - d) as nat);
                vstd::arithmetic::mul::lemma_mul_inequality(d + 1, (h + 1) as int, Z as int);
                vstd::arithmetic::mul::lemma_mul_is_commutative(Z as int, d + 1);
                vstd::arithmetic::mul::lemma_mul_is_commutative(Z as int, (h + 1) as int);
                vstd::arithmetic::mul::lemma_mul_is_distributive_add(Z as int, d as int, 1);
            }
            proof {
                vstd::arithmetic::mul::lemma_mul_is_commutative(Z as int, d as int);
                assert(Z * (d + 1) == Z * d + Z) by (nonlinear_arith);
                assert(Z * d <= Z * (d + 1)) by (nonlinear_arith);
            }
            let mut bucket = physical_memory[node as usize];
            let base: usize = (d as usize) * Z;
            let ghost memory_before = physical_memory@;
            for slot_number in 0..Z
                invariant
                    base == Z * d,
                    blen == sorted_blocks.len(),
                    base + Z <= sorted_blocks.len(),
                    self@ == sorted_blocks,
                    forall|s: int| 0 <= s < slot_number ==> #[trigger] bucket.blocks@[s]
                        == sorted_blocks[base + s],
            {
                bucket.blocks[slot_number] = self.blocks[base + slot_number];
            }
            physical_memory[node as usize] = bucket;
            proof {
                assert(physical_memory@ == memory_before.update(node as int, bucket));
                assert forall|k: int|
                    0 <= k < Z * (d + 1) implies #[trigger] path_block(physical_memory@, position, k)
                    == sorted_blocks[k] by {
                    if k < Z * d {
                        let e = k / Z as int;
                        assert(e < d) by (nonlinear_arith)
                            requires
                                0 <= k < Z * d,
                                e == k / (Z as int),
                                Z > 0,
                        ;
                        assert(path_block(memory_before, position, k) == sorted_blocks[k]);
                        assert(depth(path_node(position, e)) == e) by {
                            crate::tree::lemma_ancestor_depth(position as nat, (h - e) as nat);
                        }
                        assert(path_node(position, e) != node);
                        crate::tree::lemma_ancestor_le(position as nat, (h - e) as nat);
                        assert(physical_memory@[path_node(position, e) as int] == memory_before[path_node(position, e) as int]);
                    } else {
                        let s = k - Z * d;
                        lemma_slot_div_mod(d as int, s, Z as int);
                        assert(k / Z as int == d);
                        assert(k % Z as int == s);
                        assert(path_node(position, d as int) == node);
                        assert(physical_memory@[node as int] == bucket);
                        assert(bucket.blocks@[s] == sorted_blocks[base + s]);
                    }
                }
                assert forall|i: int|
                    0 <= i < old_memory.len() && (forall|e: int|
                        0 <= e < d + 1 ==> i != #[trigger] path_node(position, e))
                        implies #[trigger] physical_memory@[i] == old_memory[i] by {
                    assert(i != path_node(position, d as int));
                }
            }
            d = d + 1;
        }
        proof {
            let n = self@.len();
            let nk = level_assignments@;
            assert forall|k: int|
                0 <= k < Z * (h + 1) && !is_dummy_block(#[trigger] self@[k]) implies fits_at(
                self@[k],
                position,
                k / Z as int,
            ) by {
                assert(nk[k] == k / (Z as int));
                assert(nk[k] <= h) by (nonlinear_arith)
                    requires
                        nk[k] == k / (Z as int),
                        0 <= k < Z * (h + 1),
                ;
                assert(crate::evict::key_ok(self@[k], nk[k], position, h));
            }
            assert forall|k: int, e: int, s: int|
                Z * (h + 1) <= k < n && !is_dummy_block(#[trigger] self@[k]) && 0 <= e <= h
                    && fits_at(self@[k], position, e) && 0 <= s < Z implies !is_dummy_block(
                #[trigger] self@[Z * e + s],
            ) by {
                assert(crate::evict::key_ok(self@[k], nk[k], position, h));
                assert(nk[k] == crate::evict::OVERFLOW_KEY);
                lemma_slot_div_mod(e, s, Z as int);
                vstd::arithmetic::mul::lemma_mul_inequality(e + 1, (h + 1) as int, Z as int);
                vstd::arithmetic::mul::lemma_mul_is_commutative(Z as int, e + 1);
                vstd::arithmetic::mul::lemma_mul_is_commutative(Z as int, (h + 1) as int);
                assert(nk[Z * e + s] == e);
                assert(fits_at(self@[k], position, e));
            }
            assert forall|k: int, e: int, s: int|
                0 <= k < Z * (h + 1) && !is_dummy_block(#[trigger] self@[k]) && (k / Z as int)
                    < e <= h && fits_at(self@[k], position, e) && 0 <= s < Z implies !is_dummy_block(
                #[trigger] self@[Z * e + s],
            ) by {
                assert(nk[k] == k / (Z as int));
                assert(nk[k] < e);
                lemma_slot_div_mod(e, s, Z as int);
                vstd::arithmetic::mul::lemma_mul_inequality(e + 1, (h + 1) as int, Z as int);
                vstd::arithmetic::mul::lemma_mul_is_commutative(Z as int, e + 1);
                vstd::arithmetic::mul::lemma_mul_is_commutative(Z as int, (h + 1) as int);
                assert(nk[Z * e + s] == e);
                assert(fits_at(self@[k], position, e));
            }
        }
        Ok(())
    }

    /// Reads, for each address, the value stored for it and whether a block has it.
    fn batch_read(&self, addresses: &Vec<Address>) -> (r: (Vec<V>, Vec<bool>))
        ensures
            r.0@ == batch_lookup(self@, addresses@),
            r.1@.len() == addresses@.len(),
            forall|q: int|
                0 <= q < addresses@.len() ==> #[trigger] r.1@[q] == (last_match(
                    self@,
                    addresses@[q],
                ) is Some),
    {
        let m = addresses.len();
        let mut results: Vec<V> = Vec::new();
        let mut found: Vec<bool> = Vec::new();
        let mut q: usize = 0;
        while q < m
            invariant
                q <= m,
                m == addresses@.len(),
                results@.len() == q,
                found@.len() == q,
                forall|j: int| 0 <= j < q ==> results@[j] == V::default_value(),
                forall|j: int| 0 <= j < q ==> !found@[j],
            decreases m - q,
        {
            results.push(V::default_block());
            found.push(false);
            q = q + 1;
        }
        let n = self.blocks.len();
        for i in 0..n
            invariant
                n == self@.len(),
                m == addresses@.len(),
                results@.len() == m,
                found@.len() == m,
                forall|j: int|
                    0 <= j < m ==> #[trigger] results@[j] == lookup(
                        self@.take(i as int),
                        addresses@[j],
                    ),
                forall|j: int|
                    0 <= j < m ==> #[trigger] found@[j] == (last_match(
                        self@.take(i as int),
                        addresses@[j],
                    ) is Some),
        {
            let block = self.blocks[i];
            let ghost prefix = self@.take(i as int);
            proof {
                assert(self@.take(i + 1) =~= prefix.push(block));
            }
            for q in 0..m
                invariant
                    n == self@.len(),
                    i < n,
                    m == addresses@.len(),
                    block == self@[i as int],
                    prefix == self@.take(i as int),
                    self@.take(i + 1) == prefix.push(block),
                    results@.len() == m,
                    found@.len() == m,
                    forall|j: int|
                        q <= j < m ==> #[trigger] results@[j] == lookup(prefix, addresses@[j]),
                    forall|j: int|
                        q <= j < m ==> #[trigger] found@[j] == (last_match(prefix, addresses@[j])
                            is Some),
                    forall|j: int|
                        0 <= j < q ==> #[trigger] results@[j] == lookup(
                            self@.take(i + 1),
                            addresses@[j],
                        ),
                    forall|j: int|
                        0 <= j < q ==> #[trigger] found@[j] == (last_match(
                            self@.take(i + 1),
                            addresses@[j],
                        ) is Some),
            {
                proof {
                    lemma_last_match_push(prefix, block, addresses@[q as int]);
                    lemma_last_match_bounds(prefix, addresses@[q as int]);
                }
                let is_requested_index = ct_eq_u64(block.address, addresses[q]);
                let f = found[q] || is_requested_index;
                found.set(q, f);
                let v = V::conditional_select(&results[q], &block.value, is_requested_index);
                results.set(q, v);
            }
        }
        proof {
            assert(self@.take(n as int) =~= self@);
            assert(results@ =~= batch_lookup(self@, addresses@));
        }
        (results, found)
    }

    /// Gives every block the value and position of the last request for its address.
    fn batch_update(&mut self, addresses: &Vec<Address>, positions: &Vec<TreeIndex>, values: &Vec<V>)
        requires
            positions@.len() == addresses@.len(),
            values@.len() == addresses@.len(),
        ensures
            final(self)@ == updated_blocks(old(self)@, addresses@, positions@, values@),
            final(self).path_size_of() == old(self).path_size_of(),
            final(self).batch_size_of() == old(self).batch_size_of(),
    {
        let ghost old_blocks = self@;
        let n = self.blocks.len();
        let m = addresses.len();
        for i in 0..n
            invariant
                n == old_blocks.len(),
                self@.len() == n,
                m == addresses@.len(),
                positions@.len() == m,
                values@.len() == m,
                self.path_size_of() == old(self).path_size_of(),
                self.batch_size_of() == old(self).batch_size_of(),
                forall|k: int| 0 <= k < i ==> #[trigger] self@[k] == updated_block(
                    old_blocks[k],
                    addresses@,
                    positions@,
                    values@,
                ),
                forall|k: int| i <= k < n ==> #[trigger] self@[k] == old_blocks[k],
        {
            let mut block = self.blocks[i];
            for q in 0..m
                invariant
                    i < n,
                    m == addresses@.len(),
                    positions@.len() == m,
                    values@.len() == m,
                    block == updated_block(
                        old_blocks[i as int],
                        addresses@.take(q as int),
                        positions@.take(q as int),
                        values@.take(q as int),
                    ),
            {
                let is_requested_index = ct_eq_u64(block.address, addresses[q]);
                block = PathOramBlock {
                    value: V::conditional_select(&block.value, &values[q], is_requested_index),
                    address: block.address,
                    position: crate::ct::ct_select_u64(
                        block.position,
                        positions[q],
                        is_requested_index,
                    ),
                };
                proof {
                    assert(addresses@.take(q + 1).drop_last() =~= addresses@.take(q as int));
                    assert(positions@.take(q + 1).take(q as int) =~= positions@.take(q as int));
                    assert(values@.take(q + 1).take(q as int) =~= values@.take(q as int));
                    lemma_updated_block_address(
                        old_blocks[i as int],
                        addresses@.take(q as int),
                        positions@.take(q as int),
                        values@.take(q as int),
                    );
                }
            }
            proof {
                assert(addresses@.take(m as int) =~= addresses@);
                assert(positions@.take(m as int) =~= positions@);
                assert(values@.take(m as int) =~= values@);
            }
            self.blocks.set(i, block);
        }
        assert(self@ =~= updated_blocks(old_blocks, addresses@, positions@, values@));
    }

    /// The number of dummy blocks in the stash.
    fn count_dummies(&self) -> (r: usize)
        ensures
            r == dummies_from(self@, 0),
    {
        let n = self.blocks.len();
        let mut count: usize = 0;
        let mut k: usize = n;
        while k > 0
            invariant
                k <= n,
                n == self@.len(),
                count == dummies_from(self@, k as int),
                count <= n - k,
            decreases k,
        {
            k = k - 1;
            proof {
                lemma_dummies_from_step(self@, k as int);
            }
            if self.blocks[k].ct_is_dummy() {
                count = count + 1;
            }
        }
        count
    }

    /// Writes the new blocks `inserted_blocks(s, ...)` into the dummy slots, taken from the end.
    fn insert_missing(
        &mut self,
        addresses: &Vec<Address>,
        positions: &Vec<TreeIndex>,
        values: &Vec<V>,
        found: &Vec<bool>,
        Ghost(s): Ghost<Seq<PathOramBlock<V>>>,
    ) -> (r: Result<(), OramError>)
        requires
            positions@.len() == addresses@.len(),
            values@.len() == addresses@.len(),
            found@.len() == addresses@.len(),
            forall|q: int|
                0 <= q < addresses@.len() ==> #[trigger] found@[q] == (last_match(
                    s,
                    addresses@[q],
                ) is Some),
            dummies_from(old(self)@, 0) >= inserted_blocks(
                s,
                addresses@,
                positions@,
                values@,
            ).len(),
        ensures
            r is Ok,
            final(self)@ == fill_from_end(
                old(self)@,
                inserted_blocks(s, addresses@, positions@, values@),
            ),
            final(self).path_size_of() == old(self).path_size_of(),
            final(self).batch_size_of() == old(self).batch_size_of(),
    {
        let ghost g = self@;
        let ghost ins = inserted_blocks(s, addresses@, positions@, values@);
        let m = addresses.len();
        let mut next_free_slot: usize = self.blocks.len();
        let ghost mut j: int = 0;
        proof {
            assert(ins.take(0) =~= Seq::<PathOramBlock<V>>::empty());
            assert(fill_from_end(g, ins.take(0)) =~= g);
        }
        for q in 0..m
            invariant
                m == addresses@.len(),
                positions@.len() == m,
                values@.len() == m,
                found@.len() == m,
                forall|q2: int|
                    0 <= q2 < m ==> #[trigger] found@[q2] == (last_match(s, addresses@[q2]) is Some),
                ins == inserted_blocks(s, addresses@, positions@, values@),
                dummies_from(g, 0) >= ins.len(),
                self@.len() == g.len(),
                next_free_slot <= g.len(),
                dummies_from(g, next_free_slot as int) == j,
                j == inserted_blocks(
                    s,
                    addresses@.take(q as int),
                    positions@.take(q as int),
                    values@.take(q as int),
                ).len(),
                j <= ins.len(),
                self@ == fill_from_end(g, ins.take(j)),
                self.path_size_of() == old(self).path_size_of(),
                self.batch_size_of() == old(self).batch_size_of(),
        {
            proof {
                lemma_inserted_prefix(s, addresses@, positions@, values@, q as int);
                lemma_inserted_prefix(s, addresses@, positions@, values@, q + 1);
                let aq = addresses@.take(q + 1);
                assert(aq.drop_last() =~= addresses@.take(q as int));
                assert(positions@.take(q + 1).take(q as int) =~= positions@.take(q as int));
                assert(values@.take(q + 1).take(q as int) =~= values@.take(q as int));
            }
            if !found[q] {
                let ghost nf0 = next_free_slot;
                proof {
                    assert forall|k: int| 0 <= k < nf0 implies #[trigger] self@[k] == g[k] by {
                        lemma_dummies_from_monotone(g, k + 1, nf0 as int);
                    }
                }
                loop
                    invariant_except_break
                        dummies_from(g, next_free_slot as int) == j,
                    invariant
                        next_free_slot <= nf0,
                        nf0 <= g.len(),
                        self@.len() == g.len(),
                        dummies_from(g, nf0 as int) == j,
                        j < ins.len(),
                        dummies_from(g, 0) >= ins.len(),
                        self@ == fill_from_end(g, ins.take(j)),
                        forall|k: int| 0 <= k < nf0 ==> #[trigger] self@[k] == g[k],
                    ensures
                        next_free_slot < nf0,
                        is_dummy_block(g[next_free_slot as int]),
                        dummies_from(g, next_free_slot + 1) == j,
                    decreases next_free_slot,
                {
                    if next_free_slot == 0 {
                        proof {
                            assert(false);
                        }
                        let parameter_name = "stash dummy capacity".to_owned();
                        let parameter_value = "no dummy block available for batch insertion".to_owned();
                        return Err(OramError::InvalidConfigurationError { parameter_name, parameter_value });
                    }
                    next_free_slot = next_free_slot - 1;
                    proof {
                        lemma_dummies_from_step(g, next_free_slot as int);
                    }
                    if self.blocks[next_free_slot].ct_is_dummy() {
                        break;
                    }
                }
                let new_block = PathOramBlock {
                    value: values[q],
                    address: addresses[q],
                    position: positions[q],
                };
                self.blocks.set(next_free_slot, new_block);
                proof {
                    let nf = next_free_slot as int;
                    assert(ins.take(j + 1)[j] == new_block);
                    assert forall|k: int| 0 <= k < g.len() implies #[trigger] self@[k]
                        == fill_from_end(g, ins.take(j + 1))[k] by {
                        if k < nf {
                            lemma_dummies_from_monotone(g, k + 1, nf);
                        } else if k > nf {
                            lemma_dummies_from_monotone(g, nf + 1, k);
                            lemma_dummies_from_step(g, k);
                        }
                    }
                    assert(self@ =~= fill_from_end(g, ins.take(j + 1)));
                    j = j + 1;
                }
            }
        }
        proof {
            assert(addresses@.take(m as int) =~= addresses@);
            assert(positions@.take(m as int) =~= positions@);
            assert(values@.take(m as int) =~= values@);
            assert(ins.take(j) =~= ins);
        }
        Ok(())
    }

    /// Reads the values stored for `addresses`, hands references to them to `value_callback`,
    /// and writes the values it returns back, moving each block to its new position; every
    /// block of the stash is touched for every request.
    ///
    /// The blocks found are updated in place (the last request for an address wins); for the
    /// addresses not found, new blocks take the dummy slots from the end of the stash, which
    /// grows first when there are not enough of them. Returns the values that were stored
    /// (the default value for an address not found).
    ///
    /// Errors, with the stash unchanged: `addresses` and `new_positions` of different lengths,
    /// or a callback result of the wrong length.
    pub fn batched_access<F: Fn(Vec<&V>) -> Vec<V>>(
        &mut self,
        addresses: Vec<Address>,
        new_positions: Vec<TreeIndex>,
        value_callback: F,
    ) -> (r: Result<Vec<V>, OramError>)
        requires
            forall|refs: Vec<&V>|
                refs_hold(refs@, batch_lookup(old(self)@, addresses@))
                    ==> value_callback.requires((refs,)),
            old(self)@.len() + addresses@.len() <= usize::MAX,
        ensures
            final(self).path_size_of() == old(self).path_size_of(),
            final(self).batch_size_of() == old(self).batch_size_of(),
            addresses@.len() != new_positions@.len() ==> final(self)@ == old(self)@ && (r matches Err(
                OramError::InvalidConfigurationError { parameter_name, parameter_value },
            ) && parameter_name@ == "batched_access input lengths"@ && parameter_value@
                == input_lengths_text(addresses@.len(), new_positions@.len())),
            addresses@.len() == new_positions@.len() ==> match r {
                Ok(res) => {
                    &&& res@ == batch_lookup(old(self)@, addresses@)
                    &&& exists|refs: Vec<&V>, w: Vec<V>|
                        {
                            &&& refs_hold(refs@, res@)
                            &&& value_callback.ensures((refs,), w)
                            &&& w@.len() == addresses@.len()
                            &&& final(self)@ == batch_result(
                                old(self)@,
                                addresses@,
                                new_positions@,
                                w@,
                            )
                        }
                    &&& distinct_addresses(addresses@) && (forall|q: int|
                        0 <= q < addresses@.len() ==> addresses@[q] != DUMMY_ADDRESS) ==> forall|
                        k: int,
                        q: int,
                    |
                        0 <= k < final(self)@.len() && 0 <= q < addresses@.len()
                            && #[trigger] final(self)@[k].address == #[trigger] addresses@[q]
                            ==> final(self)@[k].position == new_positions@[q]
                },
                Err(e) => {
                    &&& final(self)@ == old(self)@
                    &&& exists|refs: Vec<&V>, w: Vec<V>|
                        {
                            &&& refs_hold(refs@, batch_lookup(old(self)@, addresses@))
                            &&& value_callback.ensures((refs,), w)
                            &&& w@.len() != addresses@.len()
                            &&& e matches OramError::InvalidConfigurationError {
                                parameter_name,
                                parameter_value,
                            } && parameter_name@ == "batched_access callback output length"@
                                && parameter_value@ == expected_got_text(
                                addresses@.len(),
                                w@.len(),
                            )
                        }
                },
            },
    {
        if addresses.len() != new_positions.len() {
            let parameter_name = "batched_access input lengths".to_owned();
            let parameter_value = format_input_lengths(addresses.len(), new_positions.len());
            return Err(OramError::InvalidConfigurationError { parameter_name, parameter_value });
        }
        let ghost old_blocks = self@;
        // First pass: read the old values from the stash.
        let (results, found) = self.batch_read(&addresses);
        // Apply the batched operation: a read returns the same values, a write the new ones.
        let mut callback_input: Vec<&V> = Vec::new();
        let mut k: usize = 0;
        while k < results.len()
            invariant
                k <= results@.len(),
                callback_input@.len() == k,
                forall|m: int| 0 <= m < k ==> *callback_input@[m] == results@[m],
            decreases results.len() - k,
        {
            callback_input.push(&results[k]);
            k = k + 1;
        }
        let ghost refs = callback_input;
        assert(refs_hold(callback_input@, batch_lookup(old_blocks, addresses@)));
        let values_to_write = value_callback(callback_input);
        if values_to_write.len() != addresses.len() {
            let parameter_name = "batched_access callback output length".to_owned();
            let parameter_value = format_expected_got(addresses.len(), values_to_write.len());
            let e = OramError::InvalidConfigurationError { parameter_name, parameter_value };
            assert(refs_hold(refs@, batch_lookup(old_blocks, addresses@)));
            return Err(e);
        }
        // Second pass: update every matching block in place; its position becomes the new one
        // whether the request reads or writes.
        self.batch_update(&addresses, &new_positions, &values_to_write);
        let ghost updated = self@;
        // Insert the addresses that were not found, growing the stash if there are not enough
        // dummy blocks.
        let missing_count = count_missing::<V>(
            &found,
            Ghost(old_blocks),
            Ghost(addresses@),
            Ghost(new_positions@),
            Ghost(values_to_write@),
        );
        let available_dummy_count = self.count_dummies();
        let ghost ins = inserted_blocks(old_blocks, addresses@, new_positions@, values_to_write@);
        if missing_count > available_dummy_count {
            let extra = missing_count - available_dummy_count;
            push_dummies(&mut self.blocks, extra);
            proof {
                lemma_dummies_from_append(updated, dummies::<V>(extra as nat), 0);
                lemma_dummies_from_dummies::<V>(extra as nat, 0);
            }
        }
        let ghost grown = self@;
        let inserted = self.insert_missing(
            &addresses,
            &new_positions,
            &values_to_write,
            &found,
            Ghost(old_blocks),
        );
        match inserted {
            Ok(()) => {},
            Err(e) => {
                return Err(e);
            },
        }
        proof {
            assert(refs_hold(refs@, results@));
            if distinct_addresses(addresses@) && (forall|q: int|
                0 <= q < addresses@.len() ==> addresses@[q] != DUMMY_ADDRESS) {
                crate::batch::law_batch_remaps_requested_blocks(
                    old_blocks,
                    addresses@,
                    new_positions@,
                    values_to_write@,
                );
                let fin = batch_result(old_blocks, addresses@, new_positions@, values_to_write@);
                assert(self@ == fin);
                assert forall|k: int, q: int|
                    0 <= k < self@.len() && 0 <= q < addresses@.len() && #[trigger] self@[k].address
                        == #[trigger] addresses@[q] implies self@[k].position == new_positions@[q] by {
                    assert(fin[k].address == addresses@[q]);
                }
            }
        }
        Ok(results)
    }

    /// Reads the union of the paths to `positions` into the scratch prefix, for batched
    /// accesses.
    ///
    /// The union holds the first `path_size / Z` levels of each path, each bucket once, in
    /// canonical order: root first, then by increasing depth, and by increasing index within a
    /// level; it is returned. The stash is rebuilt as: the union's blocks (bucket by bucket,
    /// padded with dummy blocks to at least `path_size` slots), then the real blocks that
    /// were in the stash after the scratch prefix, then one dummy block reserved for writes to
    /// new addresses.
    ///
    /// Errors when `path_size` does not fit in a `usize`, with the stash unchanged.
    pub fn read_from_path_union<const Z: usize>(
        &mut self,
        physical_memory: &[Bucket<V, Z>],
        positions: &[TreeIndex],
    ) -> (r: Result<Vec<u64>, OramError>)
        requires
            positions@.len() > 0 ==> Z > 0,
            forall|i: int|
                0 <= i < positions@.len() ==> #[trigger] positions@[i] != 0
                    && old(self).path_size_of() / (Z as u64) <= depth(positions@[i] as nat) + 1,
            forall|i: int, d: int|
                0 <= i < positions@.len() && 0 <= d < old(self).path_size_of() / (Z as u64)
                    ==> #[trigger] path_node(positions@[i], d) < physical_memory@.len(),
            old(self).path_size_of() + old(self)@.len() + physical_memory@.len() * Z + 1
                <= usize::MAX,
        ensures
            final(self).path_size_of() == old(self).path_size_of(),
            final(self).batch_size_of() == old(self).batch_size_of(),
            positions@.len() == 0 ==> (r matches Ok(u) && u@.len() == 0) && final(self)@ == old(
                self,
            )@,
            positions@.len() > 0 && old(self).path_size_of() > usize::MAX ==> (r matches Err(
                OramError::IntegerConversionError,
            )) && final(self)@ == old(self)@,
            positions@.len() > 0 && old(self).path_size_of() <= usize::MAX ==> (r matches Ok(u) && {
                let levels = old(self).path_size_of() / (Z as u64);
                let fixed = old(self).path_size_of() as int;
                let count = u@.len() * Z;
                let scratch = if fixed >= count {
                    fixed
                } else {
                    count
                };
                &&& strictly_increasing(u@)
                &&& forall|x: u64| u@.contains(x) <==> in_union(positions@, levels as int, x as int)
                &&& forall|i: int, j: int|
                    0 <= i < j < u@.len() ==> depth(u@[i] as nat) <= depth(u@[j] as nat)
                &&& final(self)@ == Seq::new(
                    scratch as nat,
                    |k: int|
                        if k < count {
                            union_block(physical_memory@, u@, k)
                        } else {
                            dummy_block::<V>()
                        },
                ) + real_blocks(tail_from(old(self)@, fixed)) + seq![dummy_block::<V>()]
            }),
    {
        if positions.len() == 0 {
            return Ok(Vec::new());
        }
        if self.path_size > usize::MAX as u64 {
            return Err(OramError::IntegerConversionError);
        }
        let fixed_path_block_count: usize = self.path_size as usize;
        let z_u64: u64 = Z as u64;
        let buckets_per_path: u64 = self.path_size / z_u64;
        let ghost levels = buckets_per_path as int;
        // The union in canonical order: by increasing index, which is root first, then by
        // increasing depth, then by increasing index within a level.
        let mut union_buckets: Vec<u64> = Vec::new();
        let mut seen: HashSet<u64> = HashSet::new();
        proof {
            broadcast use {
                vstd::std_specs::hash::axiom_u64_obeys_hash_table_key_model,
                vstd::std_specs::hash::axiom_random_state_builds_valid_hashers,
            };

            assert(vstd::std_specs::hash::obeys_key_model::<u64>());
            assert(vstd::std_specs::hash::builds_valid_hashers::<std::hash::RandomState>());
        }
        let np = positions.len();
        for pi in 0..np
            invariant
                vstd::std_specs::hash::obeys_key_model::<u64>(),
                vstd::std_specs::hash::builds_valid_hashers::<std::hash::RandomState>(),
                forall|x: u64| seen@.contains(x) <==> union_buckets@.contains(x),
                np == positions@.len(),
                Z > 0,
                z_u64 == Z,
                buckets_per_path == self.path_size_of() / (Z as u64),
                levels == buckets_per_path,
                forall|i: int|
                    0 <= i < positions@.len() ==> #[trigger] positions@[i] != 0
                        && buckets_per_path <= depth(positions@[i] as nat) + 1,
                strictly_increasing(union_buckets@),
                union_buckets@.len() <= pi * buckets_per_path,
                forall|x: u64|
                    union_buckets@.contains(x) <==> in_union(positions@.take(pi as int), levels, x as int),
        {
            let position = positions[pi];
            let height = ct_depth(position);
            for d in 0..buckets_per_path
                invariant
                    vstd::std_specs::hash::obeys_key_model::<u64>(),
                    vstd::std_specs::hash::builds_valid_hashers::<std::hash::RandomState>(),
                    forall|x: u64| seen@.contains(x) <==> union_buckets@.contains(x),
                    pi < np,
                    np == positions@.len(),
                    position == positions@[pi as int],
                    position != 0,
                    height == depth(position as nat),
                    buckets_per_path <= height + 1,
                    levels == buckets_per_path,
                    strictly_increasing(union_buckets@),
                    union_buckets@.len() <= pi * buckets_per_path + d,
                    forall|x: u64|
                        union_buckets@.contains(x) <==> (in_union(positions@.take(pi as int), levels, x as int)
                            || exists|e: int| 0 <= e < d && #[trigger] path_node(position, e) == x),
            {
                let bucket_index = ct_node_on_path(position, d, height);
                let ghost before = union_buckets@;
                if seen.insert(bucket_index) {
                    insert_sorted(&mut union_buckets, bucket_index);
                }
                proof {
                    assert(bucket_index == path_node(position, d as int));
                    assert forall|x: u64|
                        union_buckets@.contains(x) <==> (in_union(positions@.take(pi as int), levels, x as int)
                            || exists|e: int| 0 <= e < d + 1 && #[trigger] path_node(position, e) == x) by {
                        if exists|e: int| 0 <= e < d + 1 && #[trigger] path_node(position, e) == x {
                            let e = choose|e: int| 0 <= e < d + 1 && #[trigger] path_node(position, e) == x;
                            if e < d {
                                assert(before.contains(x));
                            }
                        }
                    }
                }
            }
            proof {
                vstd::arithmetic::mul::lemma_mul_is_distributive_add_other_way(buckets_per_path as int, pi as int, 1);
                assert forall|x: u64|
                    union_buckets@.contains(x) <==> in_union(positions@.take(pi + 1), levels, x as int) by {
                    let pt = positions@.take(pi + 1);
                    if in_union(pt, levels, x as int) {
                        let (i, e) = choose|i: int, e: int|
                            0 <= i < pt.len() && 0 <= e < levels && #[trigger] path_node(pt[i], e) == x;
                        if i < pi {
                            assert(positions@.take(pi as int)[i] == pt[i]);
                            assert(in_union(positions@.take(pi as int), levels, x as int));
                        } else {
                            assert(path_node(position, e) == x);
                        }
                    }
                    if in_union(positions@.take(pi as int), levels, x as int) {
                        let (i, e) = choose|i: int, e: int|
                            0 <= i < pi && 0 <= e < levels && #[trigger] path_node(positions@.take(pi as int)[i], e) == x;
                        assert(pt[i] == positions@.take(pi as int)[i]);
                    }
                    if exists|e: int| 0 <= e < buckets_per_path && #[trigger] path_node(position, e) == x {
                        let e = choose|e: int| 0 <= e < buckets_per_path && #[trigger] path_node(position, e) == x;
                        assert(pt[pi as int] == position);
                    }
                }
            }
        }
        proof {
            assert(positions@.take(np as int) =~= positions@);
            assert forall|i: int| 0 <= i < union_buckets@.len() implies union_buckets@[i] >= 1 by {
                let x = union_buckets@[i];
                assert(union_buckets@.contains(x));
                let (pi, e) = choose|pi: int, e: int|
                    0 <= pi < positions@.len() && 0 <= e < levels && #[trigger] path_node(positions@[pi], e) == x;
                crate::tree::lemma_ancestor_depth(
                    positions@[pi] as nat,
                    (depth(positions@[pi] as nat) - e) as nat,
                );
            }
            lemma_increasing_is_root_first(union_buckets@);
            // The union's buckets are distinct buckets of the memory.
            assert forall|i: int| 0 <= i < union_buckets@.len() implies union_buckets@[i]
                < physical_memory@.len() by {
                let x = union_buckets@[i];
                assert(union_buckets@.contains(x));
                let (pi, e) = choose|pi: int, e: int|
                    0 <= pi < positions@.len() && 0 <= e < levels && #[trigger] path_node(positions@[pi], e) == x;
            }
            crate::union::lemma_increasing_len_bound(union_buckets@, physical_memory@.len() as int);
            vstd::arithmetic::mul::lemma_mul_inequality(
                union_buckets@.len() as int,
                physical_memory@.len() as int,
                Z as int,
            );
        }
        let union_block_count: usize = union_buckets.len() * Z;
        // Keep only the real overflow blocks of the previous layout.
        let ghost old_blocks = self@;
        let n = self.blocks.len();
        let mut overflow_blocks: Vec<PathOramBlock<V>> = Vec::new();
        let start: usize = if fixed_path_block_count < n {
            fixed_path_block_count
        } else {
            n
        };
        let mut i: usize = start;
        proof {
            assert(old_blocks.subrange(start as int, start as int) =~= Seq::<PathOramBlock<V>>::empty());
            assert(Seq::<PathOramBlock<V>>::empty().filter(|b: PathOramBlock<V>| !is_dummy_block(b))
                =~= Seq::<PathOramBlock<V>>::empty()) by {
                reveal(Seq::filter);
            }
        }
        while i < n
            invariant
                start <= i <= n,
                n == old_blocks.len(),
                self@ == old_blocks,
                overflow_blocks@ == real_blocks(old_blocks.subrange(start as int, i as int)),
                overflow_blocks@.len() <= i - start,
            decreases n - i,
        {
            let block = self.blocks[i];
            proof {
                let sub = old_blocks.subrange(start as int, i as int);
                assert(old_blocks.subrange(start as int, i + 1) =~= sub.push(block));
                sub.lemma_filter_push(block, |b: PathOramBlock<V>| !is_dummy_block(b));
                sub.lemma_filter_len(|b: PathOramBlock<V>| !is_dummy_block(b));
            }
            if !block.is_dummy() {
                overflow_blocks.push(block);
            }
            i = i + 1;
        }
        proof {
            if fixed_path_block_count <= n {
                assert(tail_from(old_blocks, fixed_path_block_count as int) =~= old_blocks.subrange(
                    start as int,
                    i as int,
                ));
            } else {
                assert(tail_from(old_blocks, fixed_path_block_count as int) =~= Seq::<PathOramBlock<V>>::empty());
                assert(old_blocks.subrange(start as int, i as int) =~= Seq::<PathOramBlock<V>>::empty());
            }
        }
        let scratch_block_count: usize = if fixed_path_block_count >= union_block_count {
            fixed_path_block_count
        } else {
            union_block_count
        };
        let mut rebuilt_blocks: Vec<PathOramBlock<V>> = Vec::new();
        push_dummies(&mut rebuilt_blocks, scratch_block_count);
        // Load the union buckets into the scratch prefix: the access pattern is exactly the
        // canonical union.
        let ghost memory = physical_memory@;
        let nu = union_buckets.len();
        proof {
            assert(Z * 0 == 0);
            vstd::arithmetic::mul::lemma_mul_is_commutative(nu as int, Z as int);
        }
        for bucket_slot in 0..nu
            invariant
                nu == union_buckets@.len(),
                Z > 0,
                union_block_count == nu * Z,
                union_block_count == Z * nu,
                union_block_count <= scratch_block_count,
                rebuilt_blocks@.len() == scratch_block_count,
                memory == physical_memory@,
                forall|x: u64| union_buckets@.contains(x) <==> in_union(positions@, levels, x as int),
                forall|i: int, d: int|
                    0 <= i < positions@.len() && 0 <= d < levels
                        ==> #[trigger] path_node(positions@[i], d) < memory.len(),
                forall|k: int|
                    0 <= k < Z * bucket_slot ==> #[trigger] rebuilt_blocks@[k] == union_block(
                        memory,
                        union_buckets@,
                        k,
                    ),
                forall|k: int|
                    Z * bucket_slot <= k < scratch_block_count ==> #[trigger] rebuilt_blocks@[k]
                        == dummy_block::<V>(),
        {
            let node = union_buckets[bucket_slot];
            proof {
                assert(union_buckets@.contains(node));
                let (pi, e) = choose|pi: int, e: int|
                    0 <= pi < positions@.len() && 0 <= e < levels && #[trigger] path_node(positions@[pi], e) == node;
                vstd::arithmetic::mul::lemma_mul_inequality(bucket_slot + 1, nu as int, Z as int);
                vstd::arithmetic::mul::lemma_mul_is_distributive_add_other_way(Z as int, bucket_slot as int, 1);
                vstd::arithmetic::mul::lemma_mul_is_commutative(Z as int, bucket_slot as int);
            }
            let bucket = physical_memory[node as usize];
            let base: usize = Z * bucket_slot;
            for slot_index in 0..Z
                invariant
                    base == Z * bucket_slot,
                    base + Z <= scratch_block_count,
                    rebuilt_blocks@.len() == scratch_block_count,
                    bucket == memory[union_buckets@[bucket_slot as int] as int],
                    forall|k: int|
                        0 <= k < base ==> #[trigger] rebuilt_blocks@[k] == union_block(
                            memory,
                            union_buckets@,
                            k,
                        ),
                    forall|k: int|
                        base <= k < base + slot_index ==> #[trigger] rebuilt_blocks@[k]
                            == union_block(memory, union_buckets@, k),
                    forall|k: int|
                        base + slot_index <= k < scratch_block_count ==> #[trigger] rebuilt_blocks@[k]
                            == dummy_block::<V>(),
            {
                proof {
                    lemma_slot_div_mod(bucket_slot as int, slot_index as int, Z as int);
                }
                rebuilt_blocks.set(base + slot_index, bucket.blocks[slot_index]);
            }
            proof {
                assert(Z * (bucket_slot + 1) == base + Z) by (nonlinear_arith)
                    requires
                        base == Z * bucket_slot,
                ;
            }
        }
        let ghost prefix = rebuilt_blocks@;
        proof {
            assert(prefix.len() + overflow_blocks@.len() + 1 <= usize::MAX);
            assert(prefix =~= Seq::new(
                scratch_block_count as nat,
                |k: int|
                    if k < union_block_count {
                        union_block(physical_memory@, union_buckets@, k)
                    } else {
                        dummy_block::<V>()
                    },
            ));
        }
        let no = overflow_blocks.len();
        let mut j: usize = 0;
        while j < no
            invariant
                j <= no,
                no == overflow_blocks@.len(),
                prefix.len() + no + 1 <= usize::MAX,
                no <= n,
                rebuilt_blocks@ == prefix + overflow_blocks@.take(j as int),
            decreases no - j,
        {
            rebuilt_blocks.push(overflow_blocks[j]);
            j = j + 1;
            assert(rebuilt_blocks@ =~= prefix + overflow_blocks@.take(j as int));
        }
        // One trailing dummy block, reserved for writes to new addresses.
        rebuilt_blocks.push(PathOramBlock::dummy());
        proof {
            assert(overflow_blocks@.take(no as int) =~= overflow_blocks@);
        }
        self.blocks = rebuilt_blocks;
        Ok(union_buckets)
    }

    /// Evicts the stash into the buckets `union_buckets` (the union read by
    /// `read_from_path_union`), for batched accesses.
    ///
    /// The buckets are written once each in reverse canonical order (`writeback_order`:
    /// deeper buckets first, by increasing index within a level), each with exactly `Z`
    /// blocks: the real blocks are placed in stash order, each into the deepest bucket on its
    /// path that is touched and not full (`union_greedy_keys`), and the buckets are then padded
    /// with dummy blocks; each bucket holds exactly the real blocks placed into it. The stash
    /// is rebuilt as:
    /// `path_size` dummy blocks of scratch, the real blocks that did not fit, and one dummy
    /// block reserved for writes to new addresses.
    ///
    /// Errors when `path_size` does not fit in a `usize`, with nothing changed.
    #[verifier::spinoff_prover]
    #[verifier::rlimit(40)]
    pub fn write_to_path_union<const Z: usize>(
        &mut self,
        physical_memory: &mut [Bucket<V, Z>],
        union_buckets: &[TreeIndex],
    ) -> (r: Result<(), OramError>)
        requires
            forall|i: int|
                0 <= i < union_buckets@.len() ==> 1 <= #[trigger] union_buckets@[i]
                    < old(physical_memory)@.len(),
            old(physical_memory)@.len() < 0xffff_ffff_ffff_fffd,
            union_buckets@.len() > 0 ==> old(self).path_size_of() + old(self)@.len()
                + old(physical_memory)@.len() * Z + 2 <= usize::MAX,
        ensures
            final(self).path_size_of() == old(self).path_size_of(),
            final(self).batch_size_of() == old(self).batch_size_of(),
            final(physical_memory)@.len() == old(physical_memory)@.len(),
            union_buckets@.len() == 0 ==> r is Ok && final(self)@ == old(self)@
                && final(physical_memory)@ == old(physical_memory)@,
            union_buckets@.len() > 0 && old(self).path_size_of() > usize::MAX ==> (r matches Err(
                OramError::IntegerConversionError,
            )) && final(self)@ == old(self)@ && final(physical_memory)@ == old(physical_memory)@,
            union_buckets@.len() > 0 && old(self).path_size_of() <= usize::MAX ==> {
                let o = writeback_order(union_buckets@);
                let count = o.len() * Z;
                let written = Seq::new(
                    count as nat,
                    |k: int| union_block(final(physical_memory)@, o, k),
                );
                let fixed = old(self).path_size_of() as int;
                let n = final(self)@.len();
                let left = final(self)@.subrange(fixed, n - 1);
                &&& r is Ok
                &&& fixed + 1 <= n
                &&& final(self)@.take(fixed) == dummies::<V>(fixed as nat)
                &&& final(self)@[n - 1] == dummy_block::<V>()
                &&& forall|k: int| fixed <= k < n - 1 ==> !is_dummy_block(#[trigger] final(self)@[k])
                &&& real_blocks(written + left).to_multiset() == real_blocks(old(self)@).to_multiset()
                &&& real_keyed(
                    slot_keys((count + left.len()) as nat, Z as nat, (o.len() - 1) as nat),
                    written + left,
                ).to_multiset() == real_keyed(union_greedy_keys(old(self)@, o, Z as u64), old(self)@).to_multiset()
                &&& forall|k: int|
                    0 <= k < count && !is_dummy_block(#[trigger] written[k]) ==> covers(
                        o[k / Z as int],
                        written[k].position,
                    )
                &&& forall|i: int|
                    0 <= i < old(physical_memory)@.len() && !o.contains(i as u64)
                        ==> #[trigger] final(physical_memory)@[i] == old(physical_memory)@[i]
                &&& forall|k: int, j: int, s: int|
                    0 <= k < count && !is_dummy_block(#[trigger] written[k]) && 0 <= j < (k
                        / Z as int) && covers(o[j], written[k].position) && 0 <= s < Z
                        ==> !is_dummy_block(
                        #[trigger] final(physical_memory)@[o[j] as int].blocks[s],
                    )
                &&& forall|k: int, j: int, s: int|
                    fixed <= k < n - 1 && 0 <= j < o.len() && covers(
                        o[j],
                        #[trigger] final(self)@[k].position,
                    ) && 0 <= s < Z ==> !is_dummy_block(
                        #[trigger] final(physical_memory)@[o[j] as int].blocks[s],
                    )
            },
    {
        if union_buckets.len() == 0 {
            return Ok(());
        }
        if self.path_size > usize::MAX as u64 {
            return Err(OramError::IntegerConversionError);
        }
        let fixed_path_block_count: usize = self.path_size as usize;
        let z_u64: u64 = Z as u64;
        // The write-back order: deeper buckets first, by increasing index within a level, each
        // bucket once. This matches the greedy eviction rule of Path ORAM: every block goes as
        // deep as possible among the touched buckets.
        let mut ordered_union_buckets: Vec<u64> = Vec::new();
        let mut seen: HashSet<u64> = HashSet::new();
        proof {
            broadcast use {
                vstd::std_specs::hash::axiom_u64_obeys_hash_table_key_model,
                vstd::std_specs::hash::axiom_random_state_builds_valid_hashers,
            };

            assert(vstd::std_specs::hash::obeys_key_model::<u64>());
            assert(vstd::std_specs::hash::builds_valid_hashers::<std::hash::RandomState>());
        }
        let nb = union_buckets.len();
        for i in 0..nb
            invariant
                nb == union_buckets@.len(),
                forall|k: int| 0 <= k < nb ==> 1 <= #[trigger] union_buckets@[k],
                writeback_ordered(ordered_union_buckets@),
                forall|k: int| 0 <= k < ordered_union_buckets@.len() ==> ordered_union_buckets@[k] >= 1,
                ordered_union_buckets@.len() <= i,
                forall|y: u64| ordered_union_buckets@.contains(y) <==> union_buckets@.take(i as int).contains(y),
                forall|y: u64| seen@.contains(y) <==> ordered_union_buckets@.contains(y),
                vstd::std_specs::hash::obeys_key_model::<u64>(),
                vstd::std_specs::hash::builds_valid_hashers::<std::hash::RandomState>(),
        {
            let ghost before = ordered_union_buckets@;
            if seen.insert(union_buckets[i]) {
                insert_writeback(&mut ordered_union_buckets, union_buckets[i]);
            }
            proof {
                assert forall|y: u64| ordered_union_buckets@.contains(y) <==> union_buckets@.take(i + 1).contains(y) by {
                    let t = union_buckets@.take(i + 1);
                    if t.contains(y) {
                        let k = choose|k: int| 0 <= k < t.len() && t[k] == y;
                        if k < i {
                            assert(union_buckets@.take(i as int)[k] == y);
                        }
                    }
                    if union_buckets@.take(i as int).contains(y) {
                        let k = choose|k: int| 0 <= k < i && union_buckets@.take(i as int)[k] == y;
                        assert(t[k] == y);
                    }
                    if y == union_buckets@[i as int] {
                        assert(t[i as int] == y);
                    }
                }
            }
        }
        let ghost o = ordered_union_buckets@;
        proof {
            assert(union_buckets@.take(nb as int) =~= union_buckets@);
            let w = writeback_order(union_buckets@);
            assert(writeback_ordered(o) && same_nodes(o, union_buckets@));
            assert(writeback_ordered(w) && same_nodes(w, union_buckets@));
            lemma_writeback_unique(o, w);
            assert(union_buckets@.contains(union_buckets@[0]));
            assert(o.contains(union_buckets@[0]));
        }
        let union_bucket_count = ordered_union_buckets.len();
        proof {
            // The buckets written are distinct buckets of the memory.
            assert forall|i: int| 0 <= i < o.len() implies o[i] < physical_memory@.len() by {
                assert(o.contains(o[i]));
                assert(union_buckets@.contains(o[i]));
            }
            crate::union::lemma_writeback_len_bound(o, physical_memory@.len() as int);
            vstd::arithmetic::mul::lemma_mul_inequality(
                union_bucket_count as int,
                physical_memory@.len() as int,
                Z as int,
            );
        }
        assert(1 <= union_bucket_count <= physical_memory@.len());
        let written_block_count: usize = union_bucket_count * Z;
        let ghost old_blocks = self@;
        let ghost old_memory = physical_memory@;
        // Assign real blocks to the deepest touched bucket on their path that has room.
        let (mut bucket_assignments, mut bucket_counts) = assign_union_real_blocks(
            &self.blocks,
            &ordered_union_buckets,
            z_u64,
        );
        let ghost keys_greedy = bucket_assignments@;
        // Make sure that there are enough dummy blocks to pad every touched bucket to `Z`.
        proof {
            vstd::arithmetic::mul::lemma_mul_is_commutative(z_u64 as int, union_bucket_count as int);
        }
        let dummy_slots_needed = slots_needed(&bucket_counts, z_u64);
        let available_dummy_count = self.count_dummies();
        let ghost mut extra: nat = 0;
        if dummy_slots_needed > available_dummy_count {
            let more = dummy_slots_needed - available_dummy_count;
            proof {
                crate::evict::lemma_deficit_bounds(bucket_counts@, z_u64);
                vstd::arithmetic::mul::lemma_mul_is_commutative(z_u64 as int, union_bucket_count as int);
            }
            grow_union(
                &mut self.blocks,
                &mut bucket_assignments,
                &bucket_counts,
                &ordered_union_buckets,
                z_u64,
                more,
            );
            proof {
                extra = more as nat;
                lemma_dummies_from_append(old_blocks, dummies::<V>(more as nat), 0);
                lemma_dummies_from_dummies::<V>(more as nat, 0);
            }
        }
        proof {
            assert forall|k: int|
                0 <= k < self@.len() && is_dummy_block(#[trigger] self@[k]) implies bucket_assignments@[k]
                == UNASSIGNED_KEY by {
                if k >= old_blocks.len() {
                    assert(bucket_assignments@[k] == UNASSIGNED_KEY);
                }
            }
            assert forall|k: int|
                0 <= k < self@.len() && !is_dummy_block(#[trigger] self@[k]) implies bucket_assignments@[k]
                != UNASSIGNED_KEY by {
                if k < old_blocks.len() {
                    assert(self@[k] == old_blocks[k]);
                }
            }
        }
        let ghost keys_phase_a = bucket_assignments@;
        // Pad the remaining slots of the touched buckets with dummy blocks.
        fill_union_with_dummies(
            &self.blocks,
            &mut bucket_assignments,
            &mut bucket_counts,
            &ordered_union_buckets,
            z_u64,
        );
        proof {
            assert forall|k: int|
                0 <= k < self@.len() && !is_dummy_block(#[trigger] self@[k]) implies bucket_assignments@[k]
                != UNASSIGNED_KEY by {
                assert(keys_phase_a[k] != UNASSIGNED_KEY);
            }
        }
        let ghost unsorted_blocks = self@;
        let ghost unsorted_keys = bucket_assignments@;
        oblivious_sort_by_keys(&mut self.blocks, &mut bucket_assignments);
        let ghost sorted_blocks = self@;
        proof {
            lemma_union_assignment_ok_permuted(
                unsorted_blocks,
                unsorted_keys,
                sorted_blocks,
                bucket_assignments@,
                bucket_counts@,
                o,
                z_u64,
            );
            assert forall|l: int| 0 <= l <= union_bucket_count - 1 implies #[trigger] bucket_assignments@.to_multiset().count(
                l as u64,
            ) == z_u64 by {
                assert(bucket_counts@[l] == z_u64);
            }
            crate::evict::lemma_sorted_layout(bucket_assignments@, z_u64, (union_bucket_count - 1) as nat);
            vstd::arithmetic::mul::lemma_mul_is_commutative(z_u64 as int, union_bucket_count as int);
        }
        // Write back the assigned prefix: the first `Z` blocks to the first bucket of the
        // order, the next `Z` to the second, and so on.
        let blen = self.blocks.len();
        assert(Z * 0 == 0);
        assert(o.take(0) =~= Seq::<u64>::empty());
        for bucket_slot in 0..union_bucket_count
            invariant
                union_bucket_count == o.len(),
                o == ordered_union_buckets@,
                writeback_ordered(o),
                forall|y: u64| o.contains(y) <==> union_buckets@.contains(y),
                forall|i: int|
                    0 <= i < union_buckets@.len() ==> 1 <= #[trigger] union_buckets@[i]
                        < old_memory.len(),
                written_block_count == o.len() * Z,
                written_block_count == Z * o.len(),
                written_block_count <= blen,
                blen == sorted_blocks.len(),
                self@ == sorted_blocks,
                physical_memory@.len() == old_memory.len(),
                forall|k: int| 0 <= k < Z * bucket_slot ==> #[trigger] union_block(physical_memory@, o, k)
                    == sorted_blocks[k],
                forall|i: int|
                    0 <= i < old_memory.len() && !o.take(bucket_slot as int).contains(i as u64)
                        ==> #[trigger] physical_memory@[i] == old_memory[i],
        {
            let node = ordered_union_buckets[bucket_slot];
            proof {
                assert(o.contains(node));
                let k = choose|k: int| 0 <= k < union_buckets@.len() && union_buckets@[k] == node;
                vstd::arithmetic::mul::lemma_mul_inequality(bucket_slot + 1, o.len() as int, Z as int);
                vstd::arithmetic::mul::lemma_mul_is_commutative(Z as int, bucket_slot + 1);
                vstd::arithmetic::mul::lemma_mul_is_commutative(Z as int, bucket_slot as int);
                assert(Z * (bucket_slot + 1) == Z * bucket_slot + Z) by (nonlinear_arith);
            }
            let mut bucket = physical_memory[node as usize];
            let base: usize = bucket_slot * Z;
            for slot_number in 0..Z
                invariant
                    base == Z * bucket_slot,
                    base + Z <= blen,
                    blen == sorted_blocks.len(),
                    self@ == sorted_blocks,
                    forall|s2: int| 0 <= s2 < slot_number ==> #[trigger] bucket.blocks@[s2]
                        == sorted_blocks[base + s2],
            {
                bucket.blocks[slot_number] = self.blocks[base + slot_number];
            }
            let ghost memory_before = physical_memory@;
            physical_memory[node as usize] = bucket;
            proof {
                assert(physical_memory@ == memory_before.update(node as int, bucket));
                assert forall|k: int|
                    0 <= k < Z * (bucket_slot + 1) implies #[trigger] union_block(physical_memory@, o, k)
                    == sorted_blocks[k] by {
                    if k < Z * bucket_slot {
                        let e = k / Z as int;
                        assert(e < bucket_slot) by (nonlinear_arith)
                            requires
                                0 <= k < Z * bucket_slot,
                                e == k / (Z as int),
                                Z > 0,
                        ;
                        assert(union_block(memory_before, o, k) == sorted_blocks[k]);
                        assert(o[e] != node) by {
                            assert(before(o[e], o[bucket_slot as int]));
                        }
                        assert(o.contains(o[e]));
                        let ke = choose|ke: int| 0 <= ke < union_buckets@.len() && union_buckets@[ke] == o[e];
                    } else {
                        let s2 = k - Z * bucket_slot;
                        lemma_slot_div_mod(bucket_slot as int, s2, Z as int);
                    }
                }
                assert forall|i: int|
                    0 <= i < old_memory.len() && !o.take(bucket_slot + 1).contains(i as u64)
                        implies #[trigger] physical_memory@[i] == old_memory[i] by {
                    assert(o.take(bucket_slot + 1)[bucket_slot as int] == node);
                    assert(i != node);
                    if o.take(bucket_slot as int).contains(i as u64) {
                        let m = choose|m: int| 0 <= m < bucket_slot && o.take(bucket_slot as int)[m] == i as u64;
                        assert(o.take(bucket_slot + 1)[m] == i as u64);
                    }
                }
            }
        }
        // Rebuild the client layout: the written blocks leave the stash, the real blocks that
        // did not fit stay as overflow blocks.
        let ghost final_memory = physical_memory@;
        let mut overflow_blocks: Vec<PathOramBlock<V>> = Vec::new();
        let mut i: usize = written_block_count;
        proof {
            assert(sorted_blocks.subrange(written_block_count as int, written_block_count as int)
                =~= Seq::<PathOramBlock<V>>::empty());
            assert(Seq::<PathOramBlock<V>>::empty().filter(|b: PathOramBlock<V>| !is_dummy_block(b))
                =~= Seq::<PathOramBlock<V>>::empty()) by {
                reveal(Seq::filter);
            }
        }
        while i < blen
            invariant
                written_block_count <= i <= blen,
                blen == sorted_blocks.len(),
                self@ == sorted_blocks,
                overflow_blocks@ == real_blocks(sorted_blocks.subrange(written_block_count as int, i as int)),
                overflow_blocks@.len() <= i - written_block_count,
            decreases blen - i,
        {
            let block = self.blocks[i];
            proof {
                let sub = sorted_blocks.subrange(written_block_count as int, i as int);
                assert(sorted_blocks.subrange(written_block_count as int, i + 1) =~= sub.push(block));
                sub.lemma_filter_push(block, |b: PathOramBlock<V>| !is_dummy_block(b));
                sub.lemma_filter_len(|b: PathOramBlock<V>| !is_dummy_block(b));
            }
            if !block.is_dummy() {
                overflow_blocks.push(block);
            }
            i = i + 1;
        }
        let mut rebuilt_blocks: Vec<PathOramBlock<V>> = Vec::new();
        push_dummies(&mut rebuilt_blocks, fixed_path_block_count);
        let no = overflow_blocks.len();
        let ghost prefix = rebuilt_blocks@;
        let mut j: usize = 0;
        while j < no
            invariant
                j <= no,
                no == overflow_blocks@.len(),
                no <= blen,
                prefix == dummies::<V>(fixed_path_block_count as nat),
                prefix.len() + blen + 1 <= usize::MAX,
                rebuilt_blocks@ == prefix + overflow_blocks@.take(j as int),
            decreases no - j,
        {
            rebuilt_blocks.push(overflow_blocks[j]);
            j = j + 1;
            assert(rebuilt_blocks@ =~= prefix + overflow_blocks@.take(j as int));
        }
        // One trailing dummy block, reserved for writes to new addresses.
        rebuilt_blocks.push(PathOramBlock::dummy());
        self.blocks = rebuilt_blocks;
        proof {
            let fixed = fixed_path_block_count as int;
            let n = self@.len();
            let count = o.len() * Z;
            let written = Seq::new(count as nat, |k: int| union_block(final_memory, o, k));
            assert(overflow_blocks@.take(no as int) =~= overflow_blocks@);
            let left = self@.subrange(fixed, n - 1);
            assert(left =~= overflow_blocks@);
            assert(self@.take(fixed) =~= dummies::<V>(fixed as nat));
            assert(written =~= sorted_blocks.take(count));
            lemma_union_conservation(sorted_blocks, old_blocks, extra, count);
            let keys = bucket_assignments@;
            // The real blocks keep the keys of the greedy assignment through padding and
            // sorting, and their sorted keys are the slots they end in.
            assert(unsorted_blocks =~= old_blocks + dummies::<V>(extra));
            assert forall|k: int| 0 <= k < dummies::<V>(extra).len() implies is_dummy_block(
                #[trigger] dummies::<V>(extra)[k],
            ) by {}
            assert forall|k: int|
                0 <= k < old_blocks.len() && !is_dummy_block(#[trigger] old_blocks[k])
                    implies unsorted_keys[k] == keys_greedy[k] by {
                assert(unsorted_blocks[k] == old_blocks[k]);
                assert(keys_phase_a[k] == keys_greedy[k]);
            }
            lemma_real_keyed_extend(unsorted_keys, old_blocks, dummies::<V>(extra), keys_greedy);
            let p = real_pair_pred::<V>();
            crate::union::lemma_filter_multiset(
                keyed(keys, sorted_blocks),
                keyed(unsorted_keys, unsorted_blocks),
                p,
            );
            let tail = sorted_blocks.subrange(written_block_count as int, blen as int);
            let ktail = keys.subrange(written_block_count as int, blen as int);
            assert(keyed(keys, sorted_blocks) =~= keyed(keys.take(count), written) + keyed(ktail, tail));
            Seq::filter_distributes_over_add(keyed(keys.take(count), written), keyed(ktail, tail), p);
            assert forall|k: int| 0 <= k < tail.len() && !is_dummy_block(#[trigger] tail[k]) implies ktail[k]
                == crate::evict::OVERFLOW_KEY by {
                let m = k + written_block_count;
                assert(tail[k] == sorted_blocks[m] && ktail[k] == keys[m]);
                assert(union_key_ok(sorted_blocks[m], keys[m], o));
                assert(keys[m] > o.len() - 1);
                assert(keys[m] != UNASSIGNED_KEY);
            }
            crate::evict::lemma_real_keyed_overflow(ktail, tail);
            let sk = slot_keys((count + left.len()) as nat, Z as nat, (o.len() - 1) as nat);
            assert(Z * ((o.len() - 1) as nat + 1) == count) by (nonlinear_arith)
                requires
                    count == o.len() * Z,
                    o.len() >= 1,
            ;
            let ov = Seq::new(left.len(), |i: int| crate::evict::OVERFLOW_KEY);
            assert(keyed(sk, written + left) =~= keyed(sk.take(count), written) + keyed(ov, left));
            Seq::filter_distributes_over_add(keyed(sk.take(count), written), keyed(ov, left), p);
            let a = keyed(keys.take(count), written);
            let b = keyed(sk.take(count), written);
            assert forall|i: int| 0 <= i < a.len() implies #[trigger] p(a[i]) == p(b[i]) by {}
            assert forall|i: int| 0 <= i < a.len() && #[trigger] p(a[i]) implies a[i] == b[i] by {
                assert(keys[i] == i / (Z as int));
            }
            lemma_filter_agree(a, b, p);
            assert(left == tail.filter(|b: PathOramBlock<V>| !is_dummy_block(b)));
            assert forall|k: int| fixed <= k < n - 1 implies !is_dummy_block(#[trigger] self@[k]) by {
                let b = overflow_blocks@[k - fixed];
                assert(self@[k] == b);
                sorted_blocks.subrange(written_block_count as int, blen as int).lemma_filter_pred(
                    |x: PathOramBlock<V>| !is_dummy_block(x),
                    k - fixed,
                );
            }
            assert forall|k: int|
                0 <= k < count && !is_dummy_block(#[trigger] written[k]) implies covers(
                o[k / Z as int],
                written[k].position,
            ) by {
                assert(written[k] == sorted_blocks[k]);
                assert(union_key_ok(sorted_blocks[k], keys[k], o));
            }
            assert forall|k: int, j2: int, s2: int|
                fixed <= k < n - 1 && 0 <= j2 < o.len() && covers(o[j2], #[trigger] self@[k].position)
                    && 0 <= s2 < Z implies !is_dummy_block(
                #[trigger] final_memory[o[j2] as int].blocks[s2],
            ) by {
                let b = self@[k];
                let rest = sorted_blocks.subrange(written_block_count as int, blen as int);
                assert(b == overflow_blocks@[k - fixed]);
                assert(real_blocks(rest).contains(b));
                rest.lemma_filter_contains_rev(|x: PathOramBlock<V>| !is_dummy_block(x), b);
                let m = choose|m: int| 0 <= m < rest.len() && rest[m] == b;
                let m2 = m + written_block_count;
                assert(sorted_blocks[m2] == b);
                rest.lemma_filter_pred(|x: PathOramBlock<V>| !is_dummy_block(x), k - fixed);
                assert(!is_dummy_block(b));
                assert(union_key_ok(sorted_blocks[m2], keys[m2], o));
                assert(keys[m2] == crate::evict::OVERFLOW_KEY);
                lemma_slot_div_mod(j2, s2, Z as int);
                vstd::arithmetic::mul::lemma_mul_inequality(j2 + 1, o.len() as int, Z as int);
                vstd::arithmetic::mul::lemma_mul_is_commutative(Z as int, j2 + 1);
                vstd::arithmetic::mul::lemma_mul_is_commutative(Z as int, o.len() as int);
                assert(keys[Z * j2 + s2] == j2);
                assert(covers(o[j2], sorted_blocks[m2].position));
                assert(!is_dummy_block(sorted_blocks[Z * j2 + s2]));
                assert(union_block(final_memory, o, Z * j2 + s2) == sorted_blocks[Z * j2 + s2]);
            }
            assert forall|k: int, j2: int, s2: int|
                0 <= k < count && !is_dummy_block(#[trigger] written[k]) && 0 <= j2 < (k
                    / Z as int) && covers(o[j2], written[k].position) && 0 <= s2 < Z implies !is_dummy_block(
                #[trigger] final_memory[o[j2] as int].blocks[s2],
            ) by {
                assert(written[k] == sorted_blocks[k]);
                assert(keys[k] == k / (Z as int));
                assert(k / (Z as int) < o.len()) by (nonlinear_arith)
                    requires
                        0 <= k < count,
                        count == o.len() * Z,
                        Z > 0,
                ;
                lemma_slot_div_mod(j2, s2, Z as int);
                vstd::arithmetic::mul::lemma_mul_inequality(j2 + 1, o.len() as int, Z as int);
                vstd::arithmetic::mul::lemma_mul_is_commutative(Z as int, j2 + 1);
                vstd::arithmetic::mul::lemma_mul_is_commutative(Z as int, o.len() as int);
                assert(keys[Z * j2 + s2] == j2);
                assert(!is_dummy_block(sorted_blocks[Z * j2 + s2]));
                assert(union_block(final_memory, o, Z * j2 + s2) == sorted_blocks[Z * j2 + s2]);
            }
            assert forall|i2: int|
                0 <= i2 < old_memory.len() && !o.contains(i2 as u64) implies #[trigger] final_memory[i2]
                == old_memory[i2] by {
                assert(o.take(o.len() as int) =~= o);
            }
        }
        Ok(())
    }
}

/// The number of requests whose address was not found: the number of new blocks.
fn count_missing<V>(
    found: &Vec<bool>,
    Ghost(s): Ghost<Seq<PathOramBlock<V>>>,
    Ghost(addresses): Ghost<Seq<Address>>,
    Ghost(positions): Ghost<Seq<TreeIndex>>,
    Ghost(values): Ghost<Seq<V>>,
) -> (r: usize)
    requires
        found@.len() == addresses.len(),
        positions.len() == addresses.len(),
        values.len() == addresses.len(),
        forall|q: int|
            0 <= q < addresses.len() ==> #[trigger] found@[q] == (last_match(s, addresses[q])
                is Some),
    ensures
        r == inserted_blocks(s, addresses, positions, values).len(),
        r <= addresses.len(),
{
    let m = found.len();
    let mut count: usize = 0;
    for q in 0..m
        invariant
            m == addresses.len(),
            positions.len() == m,
            values.len() == m,
            found@.len() == m,
            forall|q2: int|
                0 <= q2 < m ==> #[trigger] found@[q2] == (last_match(s, addresses[q2]) is Some),
            count == inserted_blocks(
                s,
                addresses.take(q as int),
                positions.take(q as int),
                values.take(q as int),
            ).len(),
            count <= q,
    {
        proof {
            assert(addresses.take(q + 1).drop_last() =~= addresses.take(q as int));
            assert(positions.take(q + 1).take(q as int) =~= positions.take(q as int));
            assert(values.take(q + 1).take(q as int) =~= values.take(q as int));
        }
        if !found[q] {
            count = count + 1;
        }
    }
    proof {
        assert(addresses.take(m as int) =~= addresses);
        assert(positions.take(m as int) =~= positions);
        assert(values.take(m as int) =~= values);
    }
    count
}

/// Updating a block keeps its address.
proof fn lemma_updated_block_address<V>(
    b: PathOramBlock<V>,
    addresses: Seq<Address>,
    positions: Seq<TreeIndex>,
    values: Seq<V>,
)
    ensures
        updated_block(b, addresses, positions, values).address == b.address,
    decreases addresses.len(),
{
    if addresses.len() > 0 && addresses.last() != b.address {
        lemma_updated_block_address(
            b,
            addresses.drop_last(),
            positions.take(addresses.len() - 1),
            values.take(addresses.len() - 1),
        );
    }
}

/// Appends `n` dummy blocks to `v`.
fn push_dummies<V: OramBlock>(v: &mut Vec<PathOramBlock<V>>, n: usize)
    requires
        old(v)@.len() + n <= usize::MAX,
    ensures
        final(v)@ == old(v)@ + dummies::<V>(n as nat),
{
    let ghost start = v@;
    let mut i: usize = 0;
    while i < n
        invariant
            i <= n,
            start.len() + n <= usize::MAX,
            v@ == start + dummies::<V>(i as nat),
        decreases n - i,
    {
        v.push(PathOramBlock::dummy());
        i = i + 1;
        assert(v@ =~= start + dummies::<V>(i as nat));
    }
}

} // verus!
