//! Indices of nodes in a complete binary tree.
//!
//! The root has index 1 and the children of node `i` are `2i` and `2i + 1`,
//! so the parent of `i` is `i / 2` and a node's depth is the position of its
//! highest set bit.

use vstd::prelude::*;

verus! {

/// The index of a node of the tree (never 0 for a real node).
pub type TreeIndex = u64;

/// A depth or a height in the tree.
pub type TreeHeight = u64;

/// The depth of node `x`: the root (1) has depth 0.
pub open spec fn depth(x: nat) -> nat
    decreases x,
{
    if x <= 1 {
        0
    } else {
        1 + depth(x / 2)
    }
}

/// The ancestor of `x` that lies `k` levels above it.
pub open spec fn ancestor(x: nat, k: nat) -> nat
    decreases k,
{
    if k == 0 {
        x
    } else {
        ancestor(x, (k - 1) as nat) / 2
    }
}

/// The node at depth `d` on the path from the root to leaf `x` of a tree of height `h`.
pub open spec fn node_on_path(x: nat, d: nat, h: nat) -> nat {
    ancestor(x, (h - d) as nat)
}

/// Whether `x` is a node of depth `h`, that is, a leaf of a tree of height `h`.
pub open spec fn is_leaf(x: nat, h: nat) -> bool {
    x >= 1 && depth(x) == h
}

/// A node that fits in 64 bits has a depth below 64.
pub proof fn lemma_depth_bounds(x: u64)
    requires
        1 <= x,
    ensures
        depth(x as nat) < 64,
{
    lemma_leading_zeros_depth(x);
    vstd::std_specs::bits::axiom_u64_leading_zeros(x);
}

/// Going `k` levels up from a node of depth at least `k` gives a node of depth `depth - k`.
pub proof fn lemma_ancestor_depth(x: nat, k: nat)
    requires
        1 <= x,
        k <= depth(x),
    ensures
        ancestor(x, k) >= 1,
        depth(ancestor(x, k)) == depth(x) - k,
    decreases k,
{
    if k > 0 {
        lemma_ancestor_depth(x, (k - 1) as nat);
        let a = ancestor(x, (k - 1) as nat);
        assert(a >= 2);
    }
}

/// Going up `a` levels and then `b` levels is going up `a + b` levels.
pub proof fn lemma_ancestor_add(x: nat, a: nat, b: nat)
    ensures
        ancestor(ancestor(x, a), b) == ancestor(x, a + b),
    decreases b,
{
    if b > 0 {
        lemma_ancestor_add(x, a, (b - 1) as nat);
    }
}

/// An ancestor is never larger than the node.
pub proof fn lemma_ancestor_le(x: nat, k: nat)
    ensures
        ancestor(x, k) <= x,
    decreases k,
{
    if k > 0 {
        lemma_ancestor_le(x, (k - 1) as nat);
    }
}

/// The ancestor at a given depth is determined by any descendant's ancestor at that depth.
pub proof fn lemma_ancestor_monotone(x: nat, y: nat, k: nat)
    requires
        x <= y,
    ensures
        ancestor(x, k) <= ancestor(y, k),
    decreases k,
{
    if k > 0 {
        lemma_ancestor_monotone(x, y, (k - 1) as nat);
    }
}

/// Nodes of smaller depth have smaller indices.
pub proof fn lemma_depth_monotone(x: nat, y: nat)
    requires
        1 <= x <= y,
    ensures
        depth(x) <= depth(y),
    decreases y,
{
    if x > 1 {
        lemma_depth_monotone(x / 2, y / 2);
    }
}

proof fn lemma_leading_zeros_depth(x: u64)
    requires
        x != 0,
    ensures
        vstd::std_specs::bits::u64_leading_zeros(x) == 63 - depth(x as nat),
    decreases x,
{
    reveal(vstd::std_specs::bits::u64_leading_zeros);
    if x > 1 {
        lemma_leading_zeros_depth(x / 2);
    } else {
        assert(vstd::std_specs::bits::u64_leading_zeros(0) == 64);
    }
}

proof fn lemma_shift_is_ancestor(x: u64, k: u64)
    requires
        k < 64,
    ensures
        (x >> k) as nat == ancestor(x as nat, k as nat),
    decreases k,
{
    if k > 0 {
        lemma_shift_is_ancestor(x, (k - 1) as u64);
        let km1: u64 = (k - 1) as u64;
        assert((x >> km1) / 2 == x >> k) by (bit_vector)
            requires
                1 <= k < 64,
                km1 == k - 1,
        ;
    } else {
        assert(x >> 0u64 == x) by (bit_vector);
    }
}

/// The node `2^h` (the leftmost node of depth `h`) has depth `h`.
pub proof fn lemma_depth_of_power(h: u64)
    requires
        h < 64,
    ensures
        (1u64 << h) != 0,
        depth((1u64 << h) as nat) == h,
    decreases h,
{
    if h == 0 {
        assert(1u64 << 0u64 == 1) by (bit_vector);
    } else {
        let hm1: u64 = (h - 1) as u64;
        lemma_depth_of_power(hm1);
        assert((1u64 << h) / 2 == 1u64 << hm1 && (1u64 << h) >= 2) by (bit_vector)
            requires
                1 <= h < 64,
                hm1 == h - 1,
        ;
    }
}

/// The depth of node `x`, computed from its leading zeros.
pub fn ct_depth(x: TreeIndex) -> (r: TreeHeight)
    requires
        x != 0,
    ensures
        r as nat == depth(x as nat),
        r < 64,
{
    proof {
        lemma_leading_zeros_depth(x);
        lemma_depth_bounds(x);
    }
    let lz: u32 = x.leading_zeros();
    63 - (lz as u64)
}

/// The node at depth `d` on the path from the root to leaf `x` of a tree of height `height`.
pub fn ct_node_on_path(x: TreeIndex, d: TreeHeight, height: TreeHeight) -> (r: TreeIndex)
    requires
        is_leaf(x as nat, height as nat),
        d <= height,
    ensures
        r as nat == node_on_path(x as nat, d as nat, height as nat),
        r >= 1,
        depth(r as nat) == d,
{
    proof {
        lemma_depth_bounds(x);
        lemma_shift_is_ancestor(x, (height - d) as u64);
        lemma_ancestor_depth(x as nat, (height - d) as nat);
    }
    x >> (height - d)
}

} // verus!
