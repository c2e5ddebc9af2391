//! Helpers of the ORAM experiments: sorting and checking byte blocks, and the stash size
//! that a security parameter calls for, given a histogram of observed stash sizes.

use vstd::arithmetic::power2::{
    lemma2_to64, lemma_pow2_pos, lemma_pow2_strictly_increases, lemma_pow2_unfold, pow2,
};
use rand::rngs::OsRng;
use rand::RngCore;
use vstd::prelude::*;

verus! {

broadcast use {vstd::seq_lib::group_to_multiset_ensures, vstd::multiset::group_multiset_axioms};

/// Whether `s` is sorted in ascending order.
pub open spec fn sorted_bytes(s: Seq<u8>) -> bool {
    forall|i: int, j: int| 0 <= i < j < s.len() ==> s[i] <= s[j]
}

/// Whether every element of `s` is at most its successor.
pub open spec fn adjacent_sorted(s: Seq<u8>) -> bool {
    forall|i: int| 1 <= i < s.len() ==> s[i - 1] <= #[trigger] s[i]
}

/// A sequence is sorted exactly when each element is at most the next.
pub proof fn lemma_adjacent_sorted(s: Seq<u8>)
    ensures
        adjacent_sorted(s) <==> sorted_bytes(s),
{
    if adjacent_sorted(s) {
        assert forall|i: int, j: int| 0 <= i < j < s.len() implies s[i] <= s[j] by {
            lemma_adjacent_sorted_range(s, i, j);
        }
    }
}

proof fn lemma_adjacent_sorted_range(s: Seq<u8>, i: int, j: int)
    requires
        adjacent_sorted(s),
        0 <= i <= j < s.len(),
    ensures
        s[i] <= s[j],
    decreases j - i,
{
    if i < j {
        lemma_adjacent_sorted_range(s, i, j - 1);
    }
}

/// Swaps `arr[i]` and `arr[j]`.
fn swap_bytes(arr: &mut [u8], i: usize, j: usize)
    requires
        i < old(arr)@.len(),
        j < old(arr)@.len(),
    ensures
        final(arr)@ == old(arr)@.update(i as int, old(arr)@[j as int]).update(
            j as int,
            old(arr)@[i as int],
        ),
{
    let a = arr[i];
    let b = arr[j];
    arr[i] = b;
    arr[j] = a;
}

proof fn lemma_swap_multiset(s: Seq<u8>, i: int, j: int)
    requires
        0 <= i < s.len(),
        0 <= j < s.len(),
    ensures
        s.update(i, s[j]).update(j, s[i]).to_multiset() == s.to_multiset(),
{
    crate::sort::lemma_swap_multiset(s, i, j);
}

/// The multiset of a range of `s`.
pub open spec fn range_multiset(s: Seq<u8>, lo: int, hi: int) -> vstd::multiset::Multiset<u8> {
    s.subrange(lo, hi).to_multiset()
}

proof fn lemma_swap_in_range(s: Seq<u8>, lo: int, hi: int, i: int, j: int)
    requires
        0 <= lo <= i < hi <= s.len(),
        lo <= j < hi,
    ensures
        range_multiset(s.update(i, s[j]).update(j, s[i]), lo, hi) == range_multiset(s, lo, hi),
{
    let t = s.update(i, s[j]).update(j, s[i]);
    let sub = s.subrange(lo, hi);
    assert(t.subrange(lo, hi) =~= sub.update(i - lo, sub[j - lo]).update(j - lo, sub[i - lo]));
    lemma_swap_multiset(sub, i - lo, j - lo);
}

/// Every value of a range is a value of the range with the same multiset.
proof fn lemma_range_values(s: Seq<u8>, t: Seq<u8>, lo: int, hi: int, k: int)
    requires
        0 <= lo <= k < hi <= s.len(),
        hi <= t.len(),
        range_multiset(s, lo, hi) == range_multiset(t, lo, hi),
    ensures
        exists|m: int| lo <= m < hi && t[m] == s[k],
{
    let a = s.subrange(lo, hi);
    let b = t.subrange(lo, hi);
    assert(a[k - lo] == s[k]);
    assert(a.contains(s[k]));
    assert(a.to_multiset().count(s[k]) > 0);
    assert(b.to_multiset().count(s[k]) > 0);
    assert(b.contains(s[k]));
    let m = choose|m: int| 0 <= m < b.len() && b[m] == s[k];
    assert(t[m + lo] == s[k]);
}

proof fn lemma_range_split(s: Seq<u8>, lo: int, mid: int, hi: int)
    requires
        0 <= lo <= mid <= hi <= s.len(),
    ensures
        range_multiset(s, lo, hi) == range_multiset(s, lo, mid).add(range_multiset(s, mid, hi)),
{
    assert(s.subrange(lo, hi) =~= s.subrange(lo, mid) + s.subrange(mid, hi));
    vstd::seq_lib::lemma_multiset_commutative(s.subrange(lo, mid), s.subrange(mid, hi));
}

/// Sorts `arr[lo..hi]` in place with quicksort (last element as pivot), leaving the rest of
/// `arr` unchanged.
fn qsort_range(arr: &mut [u8], lo: usize, hi: usize)
    requires
        lo <= hi <= old(arr)@.len(),
    ensures
        final(arr)@.len() == old(arr)@.len(),
        forall|k: int| 0 <= k < lo || hi <= k < old(arr)@.len() ==> #[trigger] final(arr)@[k] == old(arr)@[k],
        range_multiset(final(arr)@, lo as int, hi as int) == range_multiset(old(arr)@, lo as int, hi as int),
        forall|i: int, j: int| lo <= i < j < hi ==> final(arr)@[i] <= final(arr)@[j],
    decreases hi - lo,
{
    if hi - lo <= 1 {
        proof {
            assert(arr@ =~= old(arr)@);
        }
        return;
    }
    let last_idx = hi - 1;
    let pivot = arr[last_idx];
    let ghost s0 = arr@;
    let mut i: usize = lo;
    let mut j: usize = lo;
    while j < last_idx
        invariant
            lo <= i <= j <= last_idx,
            last_idx == hi - 1,
            hi <= s0.len(),
            arr@.len() == s0.len(),
            arr@[last_idx as int] == pivot,
            forall|k: int| 0 <= k < lo || hi <= k < s0.len() ==> #[trigger] arr@[k] == s0[k],
            range_multiset(arr@, lo as int, hi as int) == range_multiset(s0, lo as int, hi as int),
            forall|k: int| lo <= k < i ==> #[trigger] arr@[k] <= pivot,
            forall|k: int| i <= k < j ==> #[trigger] arr@[k] > pivot,
        decreases last_idx - j,
    {
        if arr[j] <= pivot {
            let ghost before = arr@;
            swap_bytes(arr, i, j);
            proof {
                lemma_swap_in_range(before, lo as int, hi as int, i as int, j as int);
            }
            i = i + 1;
        }
        j = j + 1;
    }
    let ghost before = arr@;
    swap_bytes(arr, i, last_idx);
    proof {
        lemma_swap_in_range(before, lo as int, hi as int, i as int, last_idx as int);
    }
    // `i` is the pivot index.
    let ghost mid = arr@;
    qsort_range(arr, lo, i);
    let ghost after_left = arr@;
    qsort_range(arr, i + 1, hi);
    proof {
        let l = lo as int;
        let p = i as int;
        let h = hi as int;
        assert(mid[p] == pivot);
        assert forall|k: int| l <= k < p implies #[trigger] mid[k] <= pivot by {}
        assert forall|k: int| p < k < h implies #[trigger] mid[k] > pivot by {
            if k < last_idx {
                assert(before[k] > pivot);
            } else {
                assert(before[p] > pivot || p == last_idx);
            }
        }
        // The multisets of the three parts are kept.
        lemma_range_split(mid, l, p, h);
        lemma_range_split(after_left, l, p, h);
        lemma_range_split(arr@, l, p, h);
        lemma_range_split(mid, p, p + 1, h);
        lemma_range_split(after_left, p, p + 1, h);
        lemma_range_split(arr@, p, p + 1, h);
        assert(after_left.subrange(p, p + 1) =~= mid.subrange(p, p + 1));
        assert(arr@.subrange(p, p + 1) =~= after_left.subrange(p, p + 1));
        assert(arr@.subrange(l, p) =~= after_left.subrange(l, p));
        assert(after_left.subrange(p + 1, h) =~= mid.subrange(p + 1, h));
        assert forall|k: int| l <= k < p implies #[trigger] arr@[k] <= pivot by {
            lemma_range_values(after_left, mid, l, p, k);
        }
        assert forall|k: int| p < k < h implies #[trigger] arr@[k] > pivot by {
            lemma_range_values(arr@, after_left, p + 1, h, k);
        }
        assert(arr@[p] == pivot);
    }
}

/// Sorts `arr` in place with quicksort.
pub fn qsort(arr: &mut [u8])
    ensures
        sorted_bytes(final(arr)@),
        final(arr)@.to_multiset() == old(arr)@.to_multiset(),
{
    let n = arr.len();
    qsort_range(arr, 0, n);
    proof {
        assert(arr@.subrange(0, n as int) =~= arr@);
        assert(old(arr)@.subrange(0, n as int) =~= old(arr)@);
    }
}

/// Whether `arr` is sorted in ascending order.
pub fn is_sort(arr: &[u8]) -> (r: bool)
    ensures
        r == sorted_bytes(arr@),
{
    let n = arr.len();
    let mut i: usize = 1;
    while i < n
        invariant
            1 <= i,
            n == arr@.len(),
            forall|k: int| 1 <= k < i && k < n ==> arr@[k - 1] <= #[trigger] arr@[k],
        decreases n - i,
    {
        if arr[i - 1] > arr[i] {
            return false;
        }
        i = i + 1;
    }
    proof {
        lemma_adjacent_sorted(arr@);
    }
    true
}

/// Sorting makes the array one that `is_sort` accepts.
pub proof fn law_qsort_output_is_sorted(after: Seq<u8>)
    requires
        sorted_bytes(after),
    ensures
        adjacent_sorted(after),
{
    lemma_adjacent_sorted(after);
}

/// The number of recorded accesses with a stash size of `k` or more: the sum of
/// `histogram[k..]`.
pub open spec fn suffix_sum(histogram: Seq<u64>, k: int) -> int
    decreases histogram.len() - k,
{
    if k < 0 || k >= histogram.len() {
        0
    } else {
        histogram[k] + suffix_sum(histogram, k + 1)
    }
}

/// Whether a stash of size `s` overflows in more than a `2^-secparam` fraction of the
/// `total_ops` recorded accesses: `count(stash > s) / total_ops > 2^-secparam`.
pub open spec fn overflows_too_often(histogram: Seq<u64>, total_ops: int, secparam: nat, s: int) -> bool {
    suffix_sum(histogram, s + 1) * vstd::arithmetic::power2::pow2(secparam) > total_ops
}

/// Whether `r` is the smallest stash size from which on no size overflows too often.
pub open spec fn is_min_stash(histogram: Seq<u64>, total_ops: int, secparam: nat, r: int) -> bool {
    &&& 0 <= r <= histogram.len()
    &&& forall|s: int| r <= s < histogram.len() ==> !#[trigger] overflows_too_often(
        histogram,
        total_ops,
        secparam,
        s,
    )
    &&& r > 0 ==> overflows_too_often(histogram, total_ops, secparam, r - 1)
}

proof fn lemma_suffix_sum_bounds(h: Seq<u64>, k: int)
    requires
        0 <= k <= h.len(),
    ensures
        0 <= suffix_sum(h, k) <= (h.len() - k) * 0xffff_ffff_ffff_ffff,
    decreases h.len() - k,
{
    if k < h.len() {
        lemma_suffix_sum_bounds(h, k + 1);
    }
}

proof fn lemma_suffix_sum_monotone(h: Seq<u64>, j: int, k: int)
    requires
        0 <= j <= k,
    ensures
        suffix_sum(h, k) <= suffix_sum(h, j),
    decreases k - j,
{
    if j < k {
        lemma_suffix_sum_monotone(h, j + 1, k);
    }
}

/// Returns `count(stash_size > stash_size_bound)`: the number of accesses that would overflow
/// a stash of the given size.
pub fn overflow_count(histogram: &[u64], stash_size_bound: usize) -> (r: u64)
    requires
        stash_size_bound < usize::MAX,
        suffix_sum(histogram@, stash_size_bound + 1) <= u64::MAX,
    ensures
        r == suffix_sum(histogram@, stash_size_bound + 1),
{
    let n = histogram.len();
    let start: usize = if stash_size_bound + 1 < n {
        stash_size_bound + 1
    } else {
        n
    };
    let mut sum: u64 = 0;
    let mut k: usize = n;
    while k > start
        invariant
            start <= k <= n,
            n == histogram@.len(),
            sum == suffix_sum(histogram@, k as int),
            suffix_sum(histogram@, start as int) <= u64::MAX,
        decreases k,
    {
        k = k - 1;
        proof {
            lemma_suffix_sum_monotone(histogram@, start as int, k as int);
            lemma_suffix_sum_bounds(histogram@, k + 1);
        }
        sum = sum + histogram[k];
    }
    sum
}

/// Whether `suffix * 2^secparam > total_ops`, computed without overflow.
fn exceeds_budget(suffix: u128, total_ops: u64, secparam: u64) -> (r: bool)
    ensures
        r == (suffix * vstd::arithmetic::power2::pow2(secparam as nat) > total_ops),
{
    proof {
        lemma_pow2_pos(secparam as nat);
        assert(suffix * pow2(secparam as nat) >= suffix) by (nonlinear_arith)
            requires
                pow2(secparam as nat) >= 1,
        ;
    }
    if suffix == 0 {
        return false;
    }
    if secparam >= 64 {
        proof {
            lemma2_to64();
            if secparam > 64 {
                lemma_pow2_strictly_increases(64, secparam as nat);
            }
            assert(suffix * pow2(secparam as nat) >= pow2(secparam as nat)) by (nonlinear_arith)
                requires
                    suffix >= 1,
            ;
        }
        return true;
    }
    if suffix > total_ops as u128 {
        return true;
    }
    let mut p: u128 = 1;
    let mut i: u64 = 0;
    proof {
        assert(pow2(0) == 1) by {
            lemma2_to64();
        }
    }
    while i < secparam
        invariant
            i <= secparam,
            secparam < 64,
            p == pow2(i as nat),
            p <= 0x8000_0000_0000_0000u128,
        decreases secparam - i,
    {
        proof {
            lemma_pow2_unfold((i + 1) as nat);
            lemma2_to64();
            if i + 1 < 63 {
                lemma_pow2_strictly_increases((i + 1) as nat, 63);
            }
            vstd::arithmetic::power2::lemma2_to64_rest();
            assert(pow2(63) == 0x8000_0000_0000_0000);
            assert(pow2((i + 1) as nat) == 2 * p);
            assert(2 * p <= 0x8000_0000_0000_0000);
        }
        p = p * 2;
        i = i + 1;
    }
    proof {
        assert(suffix * p <= 0xffff_ffff_ffff_ffffu128 * 0x8000_0000_0000_0000u128) by (nonlinear_arith)
            requires
                suffix <= 0xffff_ffff_ffff_ffffu128,
                p <= 0x8000_0000_0000_0000u128,
        ;
    }
    suffix * p > total_ops as u128
}

/// The minimum stash size `S` for which `P(stash > S) = count(stash > S) / total_ops` is at
/// most `2^-secparam`, given `histogram[s]`, the number of recorded accesses after which the
/// stash held `s` blocks.
///
/// Scans from the largest size down, accumulating `count(stash > s)`; the first size that
/// overflows too often gives `S = s + 1`. Returns 0 when no size overflows too often.
pub fn min_stash_for_secparam(histogram: &[u64], total_ops: u64, secparam: u64) -> (r: usize)
    ensures
        is_min_stash(histogram@, total_ops as int, secparam as nat, r as int),
{
    let n = histogram.len();
    // Invariant: `suffix == count(stash > s)` when `s` is examined.
    let mut suffix: u128 = 0;
    let mut s: usize = n;
    while s > 0
        invariant
            s <= n,
            n == histogram@.len(),
            suffix == suffix_sum(histogram@, s as int),
            forall|t: int| s <= t < n ==> !#[trigger] overflows_too_often(
                histogram@,
                total_ops as int,
                secparam as nat,
                t,
            ),
        decreases s,
    {
        s = s - 1;
        proof {
            lemma_suffix_sum_bounds(histogram@, s + 1);
            lemma_suffix_sum_bounds(histogram@, s as int);
            assert((n - s) * 0xffff_ffff_ffff_ffff <= 0xffff_ffff_ffff_ffff * 0xffff_ffff_ffff_ffffu128) by (nonlinear_arith)
                requires
                    n - s <= 0xffff_ffff_ffff_ffff,
            ;
        }
        if exceeds_budget(suffix, total_ops, secparam) {
            // Stash size `s` is too small; the minimum sufficient size is `s + 1`.
            return s + 1;
        }
        suffix = suffix + histogram[s] as u128;
    }
    // A stash of size 0 already meets the target.
    0
}

/// The stash size that `min_stash_for_secparam` returns meets the target: the accesses that
/// overflow it are at most a `2^-secparam` fraction of all, while one block less would not.
pub proof fn law_min_stash_meets_target(histogram: Seq<u64>, total_ops: int, secparam: nat, r: int)
    requires
        is_min_stash(histogram, total_ops, secparam, r),
        total_ops >= 0,
    ensures
        suffix_sum(histogram, r + 1) * vstd::arithmetic::power2::pow2(secparam) <= total_ops,
        r > 0 ==> suffix_sum(histogram, r) * vstd::arithmetic::power2::pow2(secparam) > total_ops,
{
    if r < histogram.len() {
        assert(!overflows_too_often(histogram, total_ops, secparam, r));
    }
}

/// The operating system's random number generator, from `rand`.
#[verifier::external_type_specification]
#[verifier::external_body]
pub struct ExOsRng(OsRng);

/// Draws a random `u64` from `OsRng`, as `RngCore::next_u64` does (eight bytes read as a
/// little-endian number), but with `RngCore::try_fill_bytes`, so that a failure of the
/// operating system's random source gives `None` instead of a panic.
/// Trusted, with nothing stated of the value, which is random, nor of when it fails.
#[verifier::external_body]
fn try_next_random_u64(rng: &mut OsRng) -> Option<u64> {
    let mut bytes = [0u8; 8];
    match rng.try_fill_bytes(&mut bytes) {
        Ok(()) => Some(u64::from_le_bytes(bytes)),
        Err(_) => None,
    }
}

/// The indices that the random draws `draws` give below `upper`: each draw modulo `upper`.
pub open spec fn indices_of_draws(draws: Seq<u64>, upper: u64) -> Seq<crate::Address> {
    Seq::new(draws.len(), |i: int| (draws[i] % upper) as u64)
}

/// Returns `count` random indices below `upper`, drawn with replacement: each is a random
/// `u64` modulo `upper`. Returns `None` when the operating system's random source fails.
pub fn random_indices(rng: &mut OsRng, count: usize, upper: crate::Address) -> (r: Option<
    Vec<crate::Address>,
>)
    requires
        upper > 0,
    ensures
        count == 0 ==> (r matches Some(v) && v@.len() == 0),
        r matches Some(v) ==> {
            &&& v@.len() == count
            &&& forall|i: int| 0 <= i < count ==> #[trigger] v@[i] < upper
            &&& exists|draws: Seq<u64>|
                draws.len() == count && v@ == #[trigger] indices_of_draws(draws, upper)
        },
{
    let mut indices: Vec<crate::Address> = Vec::new();
    let ghost mut draws: Seq<u64> = Seq::empty();
    for _i in 0..count
        invariant
            upper > 0,
            indices@.len() == _i,
            draws.len() == _i,
            indices@ == indices_of_draws(draws, upper),
            forall|i: int| 0 <= i < indices@.len() ==> #[trigger] indices@[i] < upper,
    {
        match try_next_random_u64(rng) {
            Some(d) => {
                indices.push(d % upper);
                proof {
                    draws = draws.push(d);
                    assert(indices@ =~= indices_of_draws(draws, upper));
                }
            },
            None => {
                return None;
            },
        }
    }
    Some(indices)
}

/// Whether no value occurs twice in `s`.
pub open spec fn all_distinct(s: Seq<u64>) -> bool {
    forall|i: int, j: int| 0 <= i < j < s.len() ==> s[i] != s[j]
}

/// Appends `candidate` to `indices` unless it is already there, and returns whether it was
/// appended: the set of the indices drawn so far, kept in the order of their first draw.
pub fn insert_if_new(indices: &mut Vec<crate::Address>, candidate: crate::Address) -> (r: bool)
    ensures
        r == !old(indices)@.contains(candidate),
        final(indices)@ == (if r {
            old(indices)@.push(candidate)
        } else {
            old(indices)@
        }),
        all_distinct(old(indices)@) ==> all_distinct(final(indices)@),
{
    let n = indices.len();
    let mut k: usize = 0;
    while k < n
        invariant
            k <= n,
            n == indices@.len(),
            forall|i: int| 0 <= i < k ==> indices@[i] != candidate,
        decreases n - k,
    {
        if indices[k] == candidate {
            assert(indices@[k as int] == candidate);
            return false;
        }
        k = k + 1;
    }
    let ghost before = indices@;
    indices.push(candidate);
    proof {
        if all_distinct(before) {
            assert forall|i: int, j: int| 0 <= i < j < indices@.len() implies indices@[i]
                != indices@[j] by {
                if j == before.len() {
                    assert(before[i] != candidate);
                } else {
                    assert(before[i] != before[j]);
                }
            }
        }
    }
    true
}

/// Appends the index that the random draw `draw` gives below `upper` (`draw % upper`) to
/// `indices` unless it is already there, and returns whether it was appended.
pub fn add_distinct_draw(indices: &mut Vec<crate::Address>, draw: u64, upper: crate::Address) -> (r:
    bool)
    requires
        upper > 0,
    ensures
        r == !old(indices)@.contains(draw % upper),
        final(indices)@ == (if r {
            old(indices)@.push((draw % upper) as u64)
        } else {
            old(indices)@
        }),
        all_distinct(old(indices)@) ==> all_distinct(final(indices)@),
{
    insert_if_new(indices, draw % upper)
}

/// Draws a random index below `upper` and appends it to `indices` unless it was drawn
/// before. Returns whether it was appended, or `None`, with `indices` unchanged, when the
/// operating system's random source fails. Called until `indices` is long enough, this draws
/// distinct indices uniformly at random (up to the bias of the reduction modulo `upper`).
pub fn draw_distinct_index(rng: &mut OsRng, indices: &mut Vec<crate::Address>, upper: crate::Address) -> (r: Option<bool>)
    requires
        upper > 0,
    ensures
        r is None ==> final(indices)@ == old(indices)@,
        r matches Some(added) ==> exists|c: u64|
            c < upper && added == !#[trigger] old(indices)@.contains(c) && final(indices)@ == (
            if added {
                old(indices)@.push(c)
            } else {
                old(indices)@
            }),
        all_distinct(old(indices)@) ==> all_distinct(final(indices)@),
{
    match try_next_random_u64(rng) {
        Some(draw) => {
            let added = add_distinct_draw(indices, draw, upper);
            proof {
                let c = (draw % upper) as u64;
                assert(c < upper && added == !old(indices)@.contains(c));
            }
            Some(added)
        },
        None => None,
    }
}

} // verus!
